use vstd::prelude::*;

use crate::class::{TalkCellBlockClasses, TalkClass, TalkClassRegistry};
use crate::reference::{TalkCell, TalkCellBlock, TalkReference};
use crate::symbol::TalkSymbol;
use crate::symbol_table::TalkSymbolTable;

verus! {

/// The size a cell block must grow to so that it can hold the cell at `index`: it doubles
/// until it is large enough, starting from 128 cells if it is empty
pub open spec fn grown_size(size: nat, index: nat) -> nat
    decreases (if size > index { 0 } else { index + 2 - size }),
{
    if size > index {
        size
    } else if size == 0 {
        grown_size(128, index)
    } else {
        grown_size(2 * size, index)
    }
}

/// A block of `count` empty (nil) cells
pub open spec fn nil_cells<TValue>(count: nat) -> Seq<Option<TValue>> {
    Seq::new(count, |i: int| None::<TValue>)
}

/// A block resized to `size` cells: the first cells are kept and new cells are nil
pub open spec fn resized_cells<TValue>(cells: Seq<Option<TValue>>, size: nat) -> Seq<Option<TValue>> {
    Seq::new(size, |i: int| if i < cells.len() { cells[i] } else { None::<TValue> })
}

/// A class that has been declared in a context, with the cell block class used for its instances
#[derive(Clone, Copy, PartialEq, Eq, Structural, Debug)]
pub struct TalkContextCellBlockClass {
    /// The reference to the class object
    pub class_object: TalkReference,
    /// The cell block class that is used to represent the instances of this class
    pub instance_class: TalkClass,
}

///
/// The heap of a FloTalk interpreter: blocks of reference-counted cells, the root symbol table
/// with the cell block that holds its values, and the cell block classes used by this context.
/// An empty cell (`None`) is the nil value.
///
pub struct TalkContext<TValue> {
    /// Storage cells that make up the heap for the interpreter
    cells: Vec<Vec<Option<TValue>>>,
    /// The reference count for each cell block
    cell_reference_count: Vec<u32>,
    /// Cell blocks that have been freed
    free_cells: Vec<usize>,
    /// The classes that have been declared in this context with a separate class object
    cell_block_classes: Vec<TalkContextCellBlockClass>,
    /// The index of the first shared cell block class that this context has not used yet
    next_cell_block_class_idx: usize,
    /// Cell block classes that this context can use again
    available_cell_block_classes: Vec<TalkClass>,
    /// The cell block containing the values for the root symbol table
    root_cell_block: TalkCellBlock,
    /// The 'root' symbol table, used for symbols that have no symbol table of their own
    root_symbol_table: TalkSymbolTable,
}

impl<TValue> TalkContext<TValue> {
    /// The contents of each cell block
    pub closed spec fn blocks(self) -> Seq<Seq<Option<TValue>>> {
        Seq::new(self.cells@.len(), |i: int| self.cells@[i]@)
    }

    /// The reference count of each cell block
    pub closed spec fn counts(self) -> Seq<u32> {
        self.cell_reference_count@
    }

    /// The cell blocks that are free, in the order they will be reused (last first)
    pub closed spec fn free(self) -> Seq<usize> {
        self.free_cells@
    }

    /// The cell block holding the values of the root symbol table
    pub closed spec fn root_block(self) -> TalkCellBlock {
        self.root_cell_block
    }

    /// The root symbol table
    pub closed spec fn root_table(self) -> TalkSymbolTable {
        self.root_symbol_table
    }

    /// The index of the first shared cell block class this context has not used yet
    pub closed spec fn next_class_index(self) -> nat {
        self.next_cell_block_class_idx as nat
    }

    /// The cell block classes this context can use again
    pub closed spec fn available_classes(self) -> Seq<TalkClass> {
        self.available_cell_block_classes@
    }

    /// The classes declared in this context
    pub closed spec fn declared_classes(self) -> Seq<TalkContextCellBlockClass> {
        self.cell_block_classes@
    }

    /// True if the cell block is free
    pub open spec fn is_free(self, block: int) -> bool {
        exists|k: int| 0 <= k < self.free().len() && self.free()[k] == block
    }

    /// A cell block is free exactly when its reference count is 0, each free block is listed
    /// once, the root cell block exists and the root symbol table is a consistent table with no
    /// parent
    pub open spec fn wf(self) -> bool {
        &&& self.blocks().len() == self.counts().len()
        &&& forall|i: int|
            #![trigger self.counts()[i]]
            0 <= i < self.counts().len() ==> ((self.counts()[i] == 0) <==> self.is_free(i))
        &&& forall|k: int| 0 <= k < self.free().len() ==> #[trigger] self.free()[k] < self.blocks().len()
        &&& self.free().no_duplicates()
        &&& self.root_block().0 < self.blocks().len()
        &&& self.root_table().wf()
        &&& self.root_table().depth() == 0
    }
}


/// A block of nil cells
fn nil_block<TValue>(count: usize) -> (result: Vec<Option<TValue>>)
    ensures
        result@ == nil_cells::<TValue>(count as nat),
{
    let mut block: Vec<Option<TValue>> = Vec::new();
    let mut i: usize = 0;
    while i < count
        invariant
            i <= count,
            block@ == nil_cells::<TValue>(i as nat),
        decreases count - i,
    {
        block.push(None);
        assert(block@ =~= nil_cells::<TValue>((i + 1) as nat));
        i = i + 1;
    }
    block
}

impl<TValue> TalkContext<TValue> {
    /// The sizes of the abstract state match the vectors
    proof fn lemma_sizes(&self)
        ensures
            self.blocks().len() == self.cells@.len(),
            self.counts().len() == self.cell_reference_count@.len(),
            forall|i: int| 0 <= i < self.cells@.len() ==> #[trigger] self.blocks()[i] == self.cells@[i]@,
    {
    }

    /// Creates a new, empty context: a single empty root cell block and an empty root symbol table
    pub fn empty() -> (result: TalkContext<TValue>)
        ensures
            result.wf(),
            result.blocks() == seq![Seq::<Option<TValue>>::empty()],
            result.counts() == seq![1u32],
            result.free() == Seq::<usize>::empty(),
            result.root_block() == TalkCellBlock(0),
            result.root_table().local_cells() == Map::<usize, u32>::empty(),
            result.root_table().cell_count() == 0,
            result.next_class_index() == 0,
            result.available_classes() == Seq::<TalkClass>::empty(),
            result.declared_classes() == Seq::<TalkContextCellBlockClass>::empty(),
    {
        let mut cells: Vec<Vec<Option<TValue>>> = Vec::new();
        cells.push(Vec::new());
        let mut counts: Vec<u32> = Vec::new();
        counts.push(1);
        let result = TalkContext {
            cells: cells,
            cell_reference_count: counts,
            free_cells: Vec::new(),
            cell_block_classes: Vec::new(),
            next_cell_block_class_idx: 0,
            available_cell_block_classes: Vec::new(),
            root_cell_block: TalkCellBlock(0),
            root_symbol_table: TalkSymbolTable::empty(),
        };
        assert(result.blocks() =~= seq![Seq::<Option<TValue>>::empty()]);
        assert(result.counts() =~= seq![1u32]);
        result
    }

    ///
    /// Allocates a block of `count` nil cells, reusing the most recently freed block if there
    /// is one. The block is returned with a reference count of 1.
    ///
    pub fn allocate_cell_block(&mut self, count: usize) -> (result: TalkCellBlock)
        requires
            old(self).wf(),
            old(self).blocks().len() < u32::MAX,
        ensures
            final(self).wf(),
            old(self).free().len() > 0 ==> {
                let pos = old(self).free().last();
                &&& result.0 == pos
                &&& final(self).blocks() == old(self).blocks().update(pos as int, nil_cells(count as nat))
                &&& final(self).counts() == old(self).counts().update(pos as int, 1)
                &&& final(self).free() == old(self).free().drop_last()
            },
            old(self).free().len() == 0 ==> {
                &&& result.0 == old(self).blocks().len()
                &&& final(self).blocks() == old(self).blocks().push(nil_cells(count as nat))
                &&& final(self).counts() == old(self).counts().push(1)
                &&& final(self).free() == old(self).free()
            },
            final(self).root_block() == old(self).root_block(),
            final(self).root_table() == old(self).root_table(),
            final(self).next_class_index() == old(self).next_class_index(),
            final(self).available_classes() == old(self).available_classes(),
            final(self).declared_classes() == old(self).declared_classes(),
    {
        proof {
            self.lemma_sizes();
        }
        let ghost old_self = *self;
        let new_block = nil_block(count);
        if let Some(idx) = self.free_cells.pop() {
            proof {
                assert(old_self.free()[old_self.free().len() - 1] == idx);
                assert(old_self.is_free(idx as int));
            }
            self.cells.set(idx, new_block);
            self.cell_reference_count.set(idx, 1);
            proof {
                assert(self.blocks() =~= old_self.blocks().update(idx as int, nil_cells(count as nat)));
                assert(self.counts() =~= old_self.counts().update(idx as int, 1));
                assert forall|i: int| 0 <= i < self.counts().len() implies ((#[trigger] self.counts()[i] == 0)
                    <==> self.is_free(i)) by {
                    if i == idx as int {
                        if self.is_free(i) {
                            let k = choose|k: int| 0 <= k < self.free().len() && self.free()[k] == i;
                            assert(old_self.free()[k] == old_self.free()[old_self.free().len() - 1]);
                        }
                    } else {
                        if old_self.is_free(i) {
                            let k = choose|k: int| 0 <= k < old_self.free().len() && old_self.free()[k] == i;
                            assert(k != old_self.free().len() - 1);
                            assert(self.free()[k] == i);
                        }
                        if self.is_free(i) {
                            let k = choose|k: int| 0 <= k < self.free().len() && self.free()[k] == i;
                            assert(old_self.free()[k] == i);
                        }
                    }
                }
            }
            TalkCellBlock(idx as u32)
        } else {
            let idx = self.cells.len();
            self.cells.push(new_block);
            self.cell_reference_count.push(1);
            proof {
                assert(self.blocks() =~= old_self.blocks().push(nil_cells(count as nat)));
                assert(self.counts() =~= old_self.counts().push(1));
            }
            TalkCellBlock(idx as u32)
        }
    }

    /// Sets the size of an allocated cell block: cells beyond the new size are dropped, new
    /// cells are nil
    pub fn resize_cell_block(&mut self, block: TalkCellBlock, new_size: usize)
        requires
            old(self).wf(),
            block.0 < old(self).blocks().len(),
        ensures
            final(self).wf(),
            final(self).blocks() == old(self).blocks().update(
                block.0 as int,
                resized_cells(old(self).blocks()[block.0 as int], new_size as nat),
            ),
            final(self).counts() == old(self).counts(),
            final(self).free() == old(self).free(),
            final(self).root_block() == old(self).root_block(),
            final(self).root_table() == old(self).root_table(),
            final(self).next_class_index() == old(self).next_class_index(),
            final(self).available_classes() == old(self).available_classes(),
            final(self).declared_classes() == old(self).declared_classes(),
    {
        proof {
            self.lemma_sizes();
        }
        let ghost old_self = *self;
        let idx = block.0 as usize;
        // Take the existing cells out of the block
        let mut existing = self.cells.remove(idx);
        let ghost cells = existing@;
        assert(cells == old_self.blocks()[idx as int]);
        // Keep the first cells
        while existing.len() > new_size
            invariant
                existing@ == cells.take(existing@.len() as int),
                existing@.len() <= cells.len(),
                existing@.len() >= new_size || existing@.len() == cells.len(),
            decreases existing@.len(),
        {
            existing.pop();
            assert(existing@ =~= cells.take(existing@.len() as int));
        }
        assert forall|i: int| 0 <= i < existing@.len() implies #[trigger] existing@[i] == if i < cells.len() { cells[i] } else { None::<TValue> } by {
            assert(existing@[i] == cells.take(existing@.len() as int)[i]);
        }
        // Pad with nil cells
        while existing.len() < new_size
            invariant
                existing@.len() < new_size ==> existing@.len() >= cells.len(),
                existing@.len() <= new_size,
                forall|i: int| 0 <= i < existing@.len() ==> #[trigger] existing@[i] == if i < cells.len() { cells[i] } else { None::<TValue> },
            decreases new_size - existing@.len(),
        {
            existing.push(None);
        }
        proof {
            assert(existing@ =~= resized_cells(cells, new_size as nat));
        }
        self.cells.insert(idx, existing);
        proof {
            assert(self.cells@ =~= old_self.cells@.update(idx as int, existing));
            assert(self.blocks() =~= old_self.blocks().update(idx as int, resized_cells(cells, new_size as nat)));
            assert(self.counts() == old_self.counts());
            assert(self.free() == old_self.free());
            assert(self.root_table() == old_self.root_table());
            assert(self.root_block() == old_self.root_block());
            assert(self.blocks().len() == old_self.blocks().len());
        }
    }
}


impl<TValue> TalkContext<TValue> {
    /// Retains a cell block so that 'release' needs to be called on it one more time
    pub fn retain_cell_block(&mut self, block: TalkCellBlock)
        requires
            old(self).wf(),
            block.0 < old(self).blocks().len(),
            0 < old(self).counts()[block.0 as int] < u32::MAX,
        ensures
            final(self).wf(),
            final(self).counts() == old(self).counts().update(
                block.0 as int,
                (old(self).counts()[block.0 as int] + 1) as u32,
            ),
            final(self).blocks() == old(self).blocks(),
            final(self).free() == old(self).free(),
            final(self).root_block() == old(self).root_block(),
            final(self).root_table() == old(self).root_table(),
            final(self).next_class_index() == old(self).next_class_index(),
            final(self).available_classes() == old(self).available_classes(),
            final(self).declared_classes() == old(self).declared_classes(),
    {
        let ghost old_self = *self;
        let idx = block.0 as usize;
        let count = self.cell_reference_count[idx];
        self.cell_reference_count.set(idx, count + 1);
        proof {
            assert forall|i: int| 0 <= i < self.counts().len() implies ((#[trigger] self.counts()[i] == 0)
                <==> self.is_free(i)) by {
                assert(old_self.counts()[i] == 0 <==> old_self.is_free(i));
            }
        }
    }

    ///
    /// Releases a block of cells, freeing it if its reference count reaches 0. Returns true if
    /// the cell block was freed: its values are left in place until the block is allocated
    /// again, and the caller releases them (reading them with `cell_block`).
    ///
    pub fn release_cell_block(&mut self, block: TalkCellBlock) -> (result: bool)
        requires
            old(self).wf(),
            block.0 < old(self).blocks().len(),
            old(self).counts()[block.0 as int] > 0,
        ensures
            final(self).wf(),
            result == (old(self).counts()[block.0 as int] == 1),
            final(self).counts() == old(self).counts().update(
                block.0 as int,
                (old(self).counts()[block.0 as int] - 1) as u32,
            ),
            result ==> final(self).free() == old(self).free().push(block.0 as usize),
            !result ==> final(self).free() == old(self).free(),
            final(self).blocks() == old(self).blocks(),
            final(self).root_block() == old(self).root_block(),
            final(self).root_table() == old(self).root_table(),
            final(self).next_class_index() == old(self).next_class_index(),
            final(self).available_classes() == old(self).available_classes(),
            final(self).declared_classes() == old(self).declared_classes(),
    {
        let ghost old_self = *self;
        let idx = block.0 as usize;
        let old_count = self.cell_reference_count[idx];
        self.cell_reference_count.set(idx, old_count - 1);
        if old_count == 1 {
            self.free_cells.push(idx);
            proof {
                assert(self.counts() =~= old_self.counts().update(idx as int, 0));
                assert(!old_self.is_free(idx as int));
                assert forall|k: int| 0 <= k < self.free().len() implies #[trigger] self.free()[k] < self.blocks().len() by {
                    if k < old_self.free().len() {
                        assert(self.free()[k] == old_self.free()[k]);
                    }
                }
                assert forall|i: int| 0 <= i < self.counts().len() implies ((#[trigger] self.counts()[i] == 0)
                    <==> self.is_free(i)) by {
                    if old_self.is_free(i) {
                        let k = choose|k: int| 0 <= k < old_self.free().len() && old_self.free()[k] == i;
                        assert(self.free()[k] == i);
                    }
                    if i == idx as int {
                        assert(self.free()[old_self.free().len() as int] == idx);
                    } else if self.is_free(i) {
                        let k = choose|k: int| 0 <= k < self.free().len() && self.free()[k] == i;
                        assert(k < old_self.free().len());
                        assert(old_self.free()[k] == i);
                    }
                }
                assert(self.free().no_duplicates()) by {
                    assert forall|a: int, b: int| 0 <= a < self.free().len() && 0 <= b < self.free().len() && a != b implies #[trigger] self.free()[a] != #[trigger] self.free()[b] by {
                        if a < old_self.free().len() && b < old_self.free().len() {
                            assert(old_self.free()[a] != old_self.free()[b]);
                        } else if a < old_self.free().len() {
                            assert(old_self.is_free(self.free()[a] as int));
                        } else {
                            assert(old_self.is_free(self.free()[b] as int));
                        }
                    }
                }
            }
            true
        } else {
            proof {
                assert(self.counts() =~= old_self.counts().update(idx as int, (old_count - 1) as u32));
                assert(self.free() == old_self.free());
                assert forall|i: int| 0 <= i < self.counts().len() implies ((#[trigger] self.counts()[i] == 0)
                    <==> self.is_free(i)) by {
                    assert(old_self.counts()[i] == 0 <==> old_self.is_free(i));
                    if i == idx as int {
                        assert(old_self.counts()[i] != 0);
                        assert(self.counts()[i] != 0);
                    }
                }
            }
            false
        }
    }

    /// Retrieves a cell block for reading
    pub fn cell_block(&self, block: TalkCellBlock) -> (result: &Vec<Option<TValue>>)
        requires
            block.0 < self.blocks().len(),
        ensures
            result@ == self.blocks()[block.0 as int],
    {
        &self.cells[block.0 as usize]
    }

    /// Returns a reference to the value in a cell
    pub fn get_cell(&self, cell: TalkCell) -> (result: &Option<TValue>)
        requires
            (cell.0).0 < self.blocks().len(),
            cell.1 < self.blocks()[(cell.0).0 as int].len(),
        ensures
            *result == self.blocks()[(cell.0).0 as int][cell.1 as int],
    {
        let TalkCell(TalkCellBlock(block_idx), cell_idx) = cell;
        &self.cells[block_idx as usize][cell_idx as usize]
    }

    /// Returns a mutable reference to the value in a cell
    pub fn get_cell_mut(&mut self, cell: TalkCell) -> (result: &mut Option<TValue>)
        requires
            old(self).wf(),
            (cell.0).0 < old(self).blocks().len(),
            cell.1 < old(self).blocks()[(cell.0).0 as int].len(),
        ensures
            *result == old(self).blocks()[(cell.0).0 as int][cell.1 as int],
            final(self).blocks() == old(self).blocks().update(
                (cell.0).0 as int,
                old(self).blocks()[(cell.0).0 as int].update(cell.1 as int, *final(result)),
            ),
            final(self).counts() == old(self).counts(),
            final(self).free() == old(self).free(),
            final(self).root_block() == old(self).root_block(),
            final(self).root_table() == old(self).root_table(),
            final(self).next_class_index() == old(self).next_class_index(),
            final(self).available_classes() == old(self).available_classes(),
            final(self).declared_classes() == old(self).declared_classes(),
    {
        let TalkCell(TalkCellBlock(block_idx), cell_idx) = cell;
        &mut self.cells[block_idx as usize][cell_idx as usize]
    }

    /// Stores a value in a cell, returning the value that was there before (which the caller
    /// is responsible for releasing)
    pub fn set_cell(&mut self, cell: TalkCell, value: Option<TValue>) -> (result: Option<TValue>)
        requires
            old(self).wf(),
            (cell.0).0 < old(self).blocks().len(),
            cell.1 < old(self).blocks()[(cell.0).0 as int].len(),
        ensures
            final(self).wf(),
            result == old(self).blocks()[(cell.0).0 as int][cell.1 as int],
            final(self).blocks() == old(self).blocks().update(
                (cell.0).0 as int,
                old(self).blocks()[(cell.0).0 as int].update(cell.1 as int, value),
            ),
            final(self).counts() == old(self).counts(),
            final(self).free() == old(self).free(),
            final(self).root_block() == old(self).root_block(),
            final(self).root_table() == old(self).root_table(),
            final(self).next_class_index() == old(self).next_class_index(),
            final(self).available_classes() == old(self).available_classes(),
            final(self).declared_classes() == old(self).declared_classes(),
    {
        let ghost old_self = *self;
        let TalkCell(TalkCellBlock(block_idx), cell_idx) = cell;
        let mut cells = self.cells.remove(block_idx as usize);
        let old_value = cells.remove(cell_idx as usize);
        cells.insert(cell_idx as usize, value);
        self.cells.insert(block_idx as usize, cells);
        proof {
            assert(self.cells@ =~= old_self.cells@.update(block_idx as int, cells));
            assert(cells@ =~= old_self.blocks()[block_idx as int].update(cell_idx as int, value));
            assert(self.blocks() =~= old_self.blocks().update(
                block_idx as int,
                old_self.blocks()[block_idx as int].update(cell_idx as int, value),
            ));
            assert(self.counts() == old_self.counts());
            assert(self.free() == old_self.free());
        }
        old_value
    }
}


/// The size a cell block must grow to so that it can hold the cell at `index`, doubling its
/// size (and starting from 128 cells if it is empty)
pub fn grow_size(size: usize, index: usize) -> (result: usize)
    requires
        index < usize::MAX / 2,
    ensures
        result == grown_size(size as nat, index as nat),
        result > index,
{
    let mut new_size = size;
    while new_size <= index
        invariant
            grown_size(new_size as nat, index as nat) == grown_size(size as nat, index as nat),
            index < usize::MAX / 2,
            new_size <= index ==> new_size < usize::MAX / 2,
        decreases (if new_size > index { 0 } else { index + 2 - new_size }),
    {
        new_size = new_size * 2;
        if new_size == 0 {
            new_size = 128;
        }
    }
    new_size
}

impl<TValue> TalkContext<TValue> {
    ///
    /// Consistency depends only on the heap and the root symbol table
    proof fn lemma_wf_same_heap(before: Self, after: Self)
        requires
            before.wf(),
            after.blocks() == before.blocks(),
            after.counts() == before.counts(),
            after.free() == before.free(),
            after.root_block() == before.root_block(),
            after.root_table() == before.root_table(),
        ensures
            after.wf(),
    {
        assert forall|i: int| 0 <= i < after.counts().len() implies ((#[trigger] after.counts()[i] == 0)
            <==> after.is_free(i)) by {
            assert(before.counts()[i] == 0 <==> before.is_free(i));
        }
    }

    /// Returns a cell block class for this context to use: one that the context can use again
    /// if there is one, otherwise the next shared cell block class that this context has not used
    /// yet, otherwise a newly created class (which is added to the shared classes)
    ///
    pub fn empty_cell_block_class(
        &mut self,
        shared: &mut TalkCellBlockClasses,
        classes: &mut TalkClassRegistry,
    ) -> (result: TalkClass)
        requires
            old(self).wf(),
            old(classes).count() < usize::MAX,
        ensures
            final(self).wf(),
            old(self).available_classes().len() > 0 ==> {
                &&& result == old(self).available_classes().last()
                &&& final(self).available_classes() == old(self).available_classes().drop_last()
                &&& final(self).next_class_index() == old(self).next_class_index()
                &&& final(shared)@ == old(shared)@
                &&& final(classes).count() == old(classes).count()
            },
            old(self).available_classes().len() == 0 && old(self).next_class_index() < old(shared)@.len() ==> {
                &&& result == old(shared)@[old(self).next_class_index() as int]
                &&& final(self).next_class_index() == old(self).next_class_index() + 1
                &&& final(self).available_classes() == old(self).available_classes()
                &&& final(shared)@ == old(shared)@
                &&& final(classes).count() == old(classes).count()
            },
            old(self).available_classes().len() == 0 && old(self).next_class_index() >= old(shared)@.len() ==> {
                &&& result.0 == old(classes).count()
                &&& final(classes).count() == old(classes).count() + 1
                &&& final(shared)@ == old(shared)@.push(result)
                &&& final(self).next_class_index() == final(shared)@.len()
                &&& final(self).available_classes() == old(self).available_classes()
            },
            final(self).blocks() == old(self).blocks(),
            final(self).counts() == old(self).counts(),
            final(self).free() == old(self).free(),
            final(self).root_block() == old(self).root_block(),
            final(self).root_table() == old(self).root_table(),
            final(self).declared_classes() == old(self).declared_classes(),
    {
        if let Some(existing_class) = self.available_cell_block_classes.pop() {
            proof {
                Self::lemma_wf_same_heap(*old(self), *self);
            }
            existing_class
        } else if self.next_cell_block_class_idx < shared.len() {
            // There are still unused classes in the 'existing' list
            let class_idx = self.next_cell_block_class_idx;
            self.next_cell_block_class_idx = self.next_cell_block_class_idx + 1;
            proof {
                Self::lemma_wf_same_heap(*old(self), *self);
            }
            shared.get(class_idx)
        } else {
            // Create a new cell block class
            let new_class = classes.create();
            shared.push(new_class);
            self.next_cell_block_class_idx = shared.len();
            proof {
                Self::lemma_wf_same_heap(*old(self), *self);
            }
            new_class
        }
    }

    ///
    /// Associates a class object with its instance classes (used for freeing up the cell block
    /// classes when there are no more instances left, and for retaining the class object while
    /// instances still exist). The context takes ownership of the reference.
    ///
    pub fn declare_cell_block_class(&mut self, class_object: TalkReference, cell_block_instance_class: TalkClass)
        requires
            old(self).wf(),
        ensures
            final(self).wf(),
            final(self).declared_classes() == old(self).declared_classes().push(
                TalkContextCellBlockClass {
                    class_object: class_object,
                    instance_class: cell_block_instance_class,
                },
            ),
            final(self).blocks() == old(self).blocks(),
            final(self).counts() == old(self).counts(),
            final(self).free() == old(self).free(),
            final(self).root_block() == old(self).root_block(),
            final(self).root_table() == old(self).root_table(),
            final(self).next_class_index() == old(self).next_class_index(),
            final(self).available_classes() == old(self).available_classes(),
    {
        self.cell_block_classes.push(
            TalkContextCellBlockClass {
                class_object: class_object,
                instance_class: cell_block_instance_class,
            },
        );
        proof {
            Self::lemma_wf_same_heap(*old(self), *self);
        }
    }

    /// Returns the root symbol table for this context
    pub fn root_symbol_table(&self) -> (result: &TalkSymbolTable)
        ensures
            *result == self.root_table(),
    {
        &self.root_symbol_table
    }

    /// Retrieves the cell block containing the values for the root symbol table, retaining it
    /// (the caller releases it when done)
    pub fn root_symbol_table_cell_block(&mut self) -> (result: TalkCellBlock)
        requires
            old(self).wf(),
            0 < old(self).counts()[old(self).root_block().0 as int] < u32::MAX,
        ensures
            final(self).wf(),
            result == old(self).root_block(),
            final(self).counts() == old(self).counts().update(
                result.0 as int,
                (old(self).counts()[result.0 as int] + 1) as u32,
            ),
            final(self).blocks() == old(self).blocks(),
            final(self).free() == old(self).free(),
            final(self).root_block() == old(self).root_block(),
            final(self).root_table() == old(self).root_table(),
    {
        let cell_block = self.root_cell_block;
        self.retain_cell_block(cell_block);
        cell_block
    }
}


/// The cell that a symbol is stored in by `set_root_symbol_value`: its existing cell in the root
/// symbol table, or the next cell of the table
pub open spec fn root_symbol_cell(table: TalkSymbolTable, symbol: TalkSymbol) -> nat {
    match table.lookup(symbol.0) {
        Some(found) => found.cell as nat,
        None => table.cell_count(),
    }
}

/// The root cell block after it has been grown (if needed) to hold the cell at `index`
pub open spec fn root_block_holding<TValue>(block: Seq<Option<TValue>>, index: nat) -> Seq<Option<TValue>> {
    if block.len() <= index {
        resized_cells(block, grown_size(block.len(), index))
    } else {
        block
    }
}

/// A table with no parent frame finds symbols only in its own frame
proof fn lemma_root_lookup(table: TalkSymbolTable, sym: usize)
    requires
        table.wf(),
        table.depth() == 0,
    ensures
        table.lookup(sym) == if table.local_cells().contains_key(sym) {
            Some(crate::reference::TalkFrameCell { frame: 0, cell: table.local_cells()[sym] })
        } else {
            None
        },
        table.local_cells().contains_key(sym) ==> table.local_cells()[sym] < table.cell_count(),
{
    table.lemma_parent();
    table.lemma_cells_allocated(sym);
}

impl<TValue> TalkContext<TValue> {
    ///
    /// Replaces the existing root symbol table with a new empty one, and its cell block with a
    /// new block of 128 nil cells. Returns the values held by the old root cell block if it was
    /// freed (which the caller is responsible for releasing), otherwise nothing.
    ///
    /// When the old root block is freed it is reused for the new root; otherwise the new root is
    /// the most recently freed block, or a new block.
    ///
    pub fn create_empty_root_symbol_table(&mut self) -> (result: Vec<Option<TValue>>)
        requires
            old(self).wf(),
            old(self).counts()[old(self).root_block().0 as int] > 0,
            old(self).blocks().len() < u32::MAX,
        ensures
            final(self).wf(),
            final(self).root_table().local_cells() == Map::<usize, u32>::empty(),
            final(self).root_table().cell_count() == 0,
            final(self).blocks()[final(self).root_block().0 as int] == nil_cells::<TValue>(128),
            final(self).counts()[final(self).root_block().0 as int] == 1,
            old(self).counts()[old(self).root_block().0 as int] == 1 ==> result@ == old(self).blocks()[old(self).root_block().0 as int],
            old(self).counts()[old(self).root_block().0 as int] > 1 ==> result@ == Seq::<Option<TValue>>::empty(),
            old(self).counts()[old(self).root_block().0 as int] == 1 ==> {
                &&& final(self).root_block() == old(self).root_block()
                &&& final(self).blocks() == old(self).blocks().update(old(self).root_block().0 as int, nil_cells::<TValue>(128))
                &&& final(self).counts() == old(self).counts()
                &&& final(self).free() == old(self).free()
            },
            old(self).counts()[old(self).root_block().0 as int] > 1 ==> {
                let released = old(self).counts().update(
                    old(self).root_block().0 as int,
                    (old(self).counts()[old(self).root_block().0 as int] - 1) as u32,
                );
                if old(self).free().len() > 0 {
                    let pos = old(self).free().last();
                    &&& final(self).root_block().0 == pos
                    &&& final(self).blocks() == old(self).blocks().update(pos as int, nil_cells::<TValue>(128))
                    &&& final(self).counts() == released.update(pos as int, 1)
                    &&& final(self).free() == old(self).free().drop_last()
                } else {
                    &&& final(self).root_block().0 == old(self).blocks().len()
                    &&& final(self).blocks() == old(self).blocks().push(nil_cells::<TValue>(128))
                    &&& final(self).counts() == released.push(1)
                    &&& final(self).free() == old(self).free()
                }
            },
            final(self).next_class_index() == old(self).next_class_index(),
            final(self).available_classes() == old(self).available_classes(),
            final(self).declared_classes() == old(self).declared_classes(),
    {
        let ghost start = *self;
        self.root_symbol_table = TalkSymbolTable::empty();
        proof {
            Self::lemma_wf_blocks_changed(start, *self);
        }
        let old_root = self.root_cell_block;
        let freed = self.release_cell_block(old_root);
        let mut old_contents: Vec<Option<TValue>> = Vec::new();
        if freed {
            // Take the old values out so that they can be released
            let ghost before = *self;
            let contents = self.cells.remove(old_root.0 as usize);
            let emptied: Vec<Option<TValue>> = Vec::new();
            self.cells.insert(old_root.0 as usize, emptied);
            old_contents = contents;
            proof {
                assert(self.cells@ =~= before.cells@.update(old_root.0 as int, emptied));
                assert(self.blocks().len() == before.blocks().len());
                Self::lemma_wf_blocks_changed(before, *self);
            }
        }
        let new_root = self.allocate_cell_block(128);
        let ghost allocated = *self;
        self.root_cell_block = new_root;
        proof {
            Self::lemma_wf_blocks_changed(allocated, *self);
        }
        old_contents
    }

    /// Consistency does not depend on what the cell blocks hold, nor on which block is the root
    /// block or which table without a parent is the root table
    pub proof fn lemma_wf_blocks_changed(before: Self, after: Self)
        requires
            before.wf(),
            after.blocks().len() == before.blocks().len(),
            after.counts() == before.counts(),
            after.free() == before.free(),
            after.root_block().0 < after.blocks().len(),
            after.root_table().wf(),
            after.root_table().depth() == 0,
        ensures
            after.wf(),
    {
        assert forall|i: int| 0 <= i < after.counts().len() implies ((#[trigger] after.counts()[i] == 0)
            <==> after.is_free(i)) by {
            assert(before.counts()[i] == 0 <==> before.is_free(i));
        }
    }

    ///
    /// Sets the value of a symbol in the root symbol table (defining it if necessary), growing
    /// the root cell block if it is too small to hold the symbol's cell. Returns the value that
    /// was in the cell before, which the caller is responsible for releasing.
    ///
    /// The root table must have room for one more cell number (a `u32`), and the root block must
    /// be able to double its size to hold it without its length overflowing a `usize`.
    ///
    pub fn set_root_symbol_value(&mut self, symbol: TalkSymbol, new_value: Option<TValue>) -> (result: Option<TValue>)
        requires
            old(self).wf(),
            old(self).root_table().cell_count() < u32::MAX,
            old(self).root_table().cell_count() < usize::MAX / 2,
        ensures
            final(self).wf(),
            old(self).root_table().lookup(symbol.0) is Some ==> final(self).root_table() == old(self).root_table(),
            old(self).root_table().lookup(symbol.0) is None ==> {
                &&& final(self).root_table().local_cells() == old(self).root_table().local_cells().insert(
                    symbol.0,
                    old(self).root_table().cell_count() as u32,
                )
                &&& final(self).root_table().cell_count() == old(self).root_table().cell_count() + 1
            },
            final(self).root_table().lookup(symbol.0) == Some(crate::reference::TalkFrameCell {
                frame: 0,
                cell: root_symbol_cell(old(self).root_table(), symbol) as u32,
            }),
            final(self).blocks() == old(self).blocks().update(
                old(self).root_block().0 as int,
                root_block_holding(
                    old(self).blocks()[old(self).root_block().0 as int],
                    root_symbol_cell(old(self).root_table(), symbol),
                ).update(root_symbol_cell(old(self).root_table(), symbol) as int, new_value),
            ),
            result == root_block_holding(
                old(self).blocks()[old(self).root_block().0 as int],
                root_symbol_cell(old(self).root_table(), symbol),
            )[root_symbol_cell(old(self).root_table(), symbol) as int],
            final(self).counts() == old(self).counts(),
            final(self).free() == old(self).free(),
            final(self).root_block() == old(self).root_block(),
    {
        proof {
            lemma_root_lookup(self.root_symbol_table, symbol.0);
            self.lemma_sizes();
        }
        let ghost old_self = *self;
        // Define a new cell or retrieve the existing cell for the symbol
        let symbol_cell = match self.root_symbol_table.symbol(symbol) {
            Some(existing) => existing,
            None => self.root_symbol_table.define_symbol(symbol),
        };
        proof {
            lemma_root_lookup(self.root_symbol_table, symbol.0);
            Self::lemma_wf_same_heap_table(old_self, *self);
        }
        let symbol_index = symbol_cell.cell as usize;
        let root = self.root_cell_block;

        // Make sure that there are enough cells defined
        let root_len = self.cells[root.0 as usize].len();
        if root_len <= symbol_index {
            let new_size = grow_size(root_len, symbol_index);
            self.resize_cell_block(root, new_size);
        }

        // Store the new value, returning the old one
        let old_value = self.set_cell(TalkCell(root, symbol_cell.cell), new_value);
        old_value
    }

    /// Consistency holds when the root symbol table is replaced by another consistent table
    /// without a parent
    proof fn lemma_wf_same_heap_table(before: Self, after: Self)
        requires
            before.wf(),
            after.blocks() == before.blocks(),
            after.counts() == before.counts(),
            after.free() == before.free(),
            after.root_block() == before.root_block(),
            after.root_table().wf(),
            after.root_table().depth() == 0,
        ensures
            after.wf(),
    {
        assert forall|i: int| 0 <= i < after.counts().len() implies ((#[trigger] after.counts()[i] == 0)
            <==> after.is_free(i)) by {
            assert(before.counts()[i] == 0 <==> before.is_free(i));
        }
    }
}


/// Growing a block for an index always makes it large enough to hold that index, never smaller
/// than it was
pub proof fn lemma_grown_size(size: nat, index: nat)
    ensures
        grown_size(size, index) > index,
        grown_size(size, index) >= size,
    decreases (if size > index { 0 } else { index + 2 - size }),
{
    if size <= index {
        if size == 0 {
            lemma_grown_size(128, index);
        } else {
            lemma_grown_size(2 * size, index);
        }
    }
}

/// After a value is stored for a root symbol, the symbol's cell holds exactly that value; the
/// other cells the root block already had keep their values, and any cells added to make room
/// are nil
pub proof fn law_root_symbol_value_reads_back<TValue>(block: Seq<Option<TValue>>, index: nat, value: Option<TValue>)
    ensures
        index < root_block_holding(block, index).len(),
        root_block_holding(block, index).update(index as int, value)[index as int] == value,
        forall|i: int|
            0 <= i < block.len() && i != index ==> #[trigger] root_block_holding(block, index).update(
                index as int,
                value,
            )[i] == block[i],
        forall|i: int|
            block.len() <= i < root_block_holding(block, index).len() && i != index
                ==> #[trigger] root_block_holding(block, index).update(index as int, value)[i] is None,
{
    lemma_grown_size(block.len(), index);
}

/// Retaining a cell block and then releasing it leaves its reference count as it was
pub proof fn law_cell_block_release_undoes_retain(counts: Seq<u32>, block: int)
    requires
        0 <= block < counts.len(),
        0 < counts[block] < u32::MAX,
    ensures
        ({
            let retained = counts.update(block, (counts[block] + 1) as u32);
            retained.update(block, (retained[block] - 1) as u32) == counts
        }),
{
    let retained = counts.update(block, (counts[block] + 1) as u32);
    assert(retained.update(block, (retained[block] - 1) as u32) =~= counts);
}

/// The reference counts after a cell block is retained `times` times in a row
pub open spec fn counts_after_retains(counts: Seq<u32>, block: int, times: nat) -> Seq<u32>
    decreases times,
{
    if times == 0 {
        counts
    } else {
        let before = counts_after_retains(counts, block, (times - 1) as nat);
        before.update(block, (before[block] + 1) as u32)
    }
}

/// The reference counts after a cell block is released `times` times in a row
pub open spec fn counts_after_releases(counts: Seq<u32>, block: int, times: nat) -> Seq<u32>
    decreases times,
{
    if times == 0 {
        counts
    } else {
        let before = counts_after_releases(counts, block, (times - 1) as nat);
        before.update(block, (before[block] - 1) as u32)
    }
}

proof fn lemma_counts_after_retains(counts: Seq<u32>, block: int, times: nat)
    requires
        0 <= block < counts.len(),
        counts[block] + times <= u32::MAX,
    ensures
        counts_after_retains(counts, block, times) == counts.update(block, (counts[block] + times) as u32),
    decreases times,
{
    if times > 0 {
        lemma_counts_after_retains(counts, block, (times - 1) as nat);
        assert(counts_after_retains(counts, block, times) =~= counts.update(block, (counts[block] + times) as u32));
    } else {
        assert(counts.update(block, counts[block]) =~= counts);
    }
}

proof fn lemma_counts_after_releases(counts: Seq<u32>, block: int, times: nat)
    requires
        0 <= block < counts.len(),
        times <= counts[block],
    ensures
        counts_after_releases(counts, block, times) == counts.update(block, (counts[block] - times) as u32),
    decreases times,
{
    if times > 0 {
        lemma_counts_after_releases(counts, block, (times - 1) as nat);
        assert(counts_after_releases(counts, block, times) =~= counts.update(block, (counts[block] - times) as u32));
    } else {
        assert(counts.update(block, counts[block]) =~= counts);
    }
}

/// Retaining a cell block `times` times and then releasing it as many times leaves the reference
/// counts as they were; none of those releases frees the block (each finds a count above 1), so
/// the next release frees it exactly when it had a single reference to start with
pub proof fn law_releases_undo_retains(counts: Seq<u32>, block: int, times: nat)
    requires
        0 <= block < counts.len(),
        counts[block] > 0,
        counts[block] + times <= u32::MAX,
    ensures
        counts_after_releases(counts_after_retains(counts, block, times), block, times) == counts,
        forall|k: nat| k < times ==> #[trigger] counts_after_releases(counts_after_retains(counts, block, times), block, k)[block] > 1,
{
    lemma_counts_after_retains(counts, block, times);
    let retained = counts_after_retains(counts, block, times);
    lemma_counts_after_releases(retained, block, times);
    assert(retained.update(block, (retained[block] - times) as u32) =~= counts);
    assert forall|k: nat| k < times implies #[trigger] counts_after_releases(retained, block, k)[block] > 1 by {
        lemma_counts_after_releases(retained, block, k);
    }
}

} // verus!
