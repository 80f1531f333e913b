use vstd::prelude::*;

use crate::reference::TalkFrameCell;
use crate::symbol::TalkSymbol;

use std::collections::HashMap;
use std::sync::Arc;

verus! {

broadcast use vstd::std_specs::hash::group_hash_axioms;

///
/// A symbol table will map TalkSymbols to frame cell references in a specific frame
///
pub struct TalkSymbolTable {
    /// The next cell ID to allocate
    next_cell: u32,
    /// The cell for each symbol defined in this frame, indexed by symbol ID
    symbols: HashMap<usize, u32>,
    /// The symbol table for the parent frame (frame 1 relative to this one)
    parent: Option<Arc<TalkSymbolTable>>,
}

/// Another pointer to a shared value (`Arc::clone`): it points at the same value
#[verifier::external_body]
pub(crate) fn share_arc<T>(shared: &Arc<T>) -> (result: Arc<T>)
    ensures
        *result == **shared,
{
    Arc::clone(shared)
}

impl Clone for TalkSymbolTable {
    fn clone(&self) -> (result: Self)
        ensures
            result.local_cells() == self.local_cells(),
            result.cell_count() == self.cell_count(),
            result.parent_table() == self.parent_table(),
            result.depth() == self.depth(),
            result.wf() == self.wf(),
    {
        let parent = match &self.parent {
            Some(parent) => Some(share_arc(parent)),
            None => None,
        };
        TalkSymbolTable { next_cell: self.next_cell, symbols: self.symbols.clone(), parent: parent }
    }
}

impl TalkSymbolTable {
    /// The cells bound to symbols (by symbol ID) in this frame
    pub closed spec fn local_cells(self) -> Map<usize, u32> {
        self.symbols@
    }

    /// The number of cells allocated in this frame
    pub closed spec fn cell_count(self) -> nat {
        self.next_cell as nat
    }

    /// The symbol table of the parent frame
    pub closed spec fn parent_table(self) -> Option<TalkSymbolTable> {
        match self.parent {
            Some(parent) => Some(*parent),
            None => None,
        }
    }

    /// The number of parent frames above this one
    pub closed spec fn depth(self) -> nat
        decreases self,
    {
        match self.parent {
            Some(parent) => 1 + parent.depth(),
            None => 0,
        }
    }

    /// Every frame in the chain binds symbols only to cells that it has allocated
    pub closed spec fn wf(self) -> bool
        decreases self,
    {
        &&& (forall|sym: usize| #[trigger]
            self.symbols@.contains_key(sym) ==> self.symbols@[sym] < self.next_cell)
        &&& match self.parent {
            Some(parent) => parent.wf(),
            None => true,
        }
    }

    /// The parent of a table is one frame shallower and also well-formed
    pub proof fn lemma_parent(self)
        ensures
            self.parent_table() is Some <==> self.depth() > 0,
            self.parent_table() matches Some(parent) ==> parent.depth() + 1 == self.depth() && (
            self.wf() ==> parent.wf()),
    {
    }

    /// A symbol bound in a consistent table refers to a cell that the table has allocated
    pub proof fn lemma_cells_allocated(self, sym: usize)
        requires
            self.wf(),
        ensures
            self.local_cells().contains_key(sym) ==> self.local_cells()[sym] < self.cell_count(),
    {
    }

    /// The cell that a symbol refers to: the cell in this frame if the symbol is defined here,
    /// otherwise the cell in the nearest parent frame that defines it, with `frame` counting
    /// how many frames up that is
    pub open spec fn lookup(self, sym: usize) -> Option<TalkFrameCell>
        decreases self.depth(),
    {
        if self.local_cells().contains_key(sym) {
            Some(TalkFrameCell { frame: 0, cell: self.local_cells()[sym] })
        } else {
            match self.parent_table() {
                Some(parent) => {
                    if parent.depth() < self.depth() {
                        match parent.lookup(sym) {
                            Some(found) => Some(
                                TalkFrameCell { frame: (found.frame + 1) as u32, cell: found.cell },
                            ),
                            None => None,
                        }
                    } else {
                        None
                    }
                },
                None => None,
            }
        }
    }

    /// A symbol found by `lookup` is never more frames up than the depth of the table
    pub proof fn lemma_lookup_frame(self, sym: usize)
        ensures
            self.lookup(sym) matches Some(found) ==> found.frame <= self.depth(),
        decreases self.depth(),
    {
        self.lemma_parent();
        if !self.local_cells().contains_key(sym) {
            if let Some(parent) = self.parent_table() {
                parent.lemma_lookup_frame(sym);
            }
        }
    }

    /// Creates an empty, top-level symbol table
    pub fn empty() -> (result: TalkSymbolTable)
        ensures
            result.wf(),
            result.local_cells() == Map::<usize, u32>::empty(),
            result.cell_count() == 0,
            result.parent_table() is None,
            result.depth() == 0,
    {
        TalkSymbolTable { next_cell: 0, symbols: HashMap::new(), parent: None }
    }

    /// Creates a symbol table with a parent frame (symbols from the parent frame will have a
    /// frame of 1, from the grandparent it will be 2, etc)
    pub fn with_parent_frame(parent_frame: Arc<TalkSymbolTable>) -> (result: TalkSymbolTable)
        requires
            parent_frame.wf(),
        ensures
            result.wf(),
            result.local_cells() == Map::<usize, u32>::empty(),
            result.cell_count() == 0,
            result.parent_table() == Some(*parent_frame),
            result.depth() == parent_frame.depth() + 1,
    {
        TalkSymbolTable { next_cell: 0, symbols: HashMap::new(), parent: Some(parent_frame) }
    }

    /// The number of cells that need to be allocated to represent this symbol table
    pub fn len(&self) -> (result: usize)
        ensures
            result == self.cell_count(),
    {
        self.next_cell as usize
    }

    /// Replaces the parent frame in this symbol table
    pub fn set_parent_frame(&mut self, parent_frame: Arc<TalkSymbolTable>)
        requires
            old(self).wf(),
            parent_frame.wf(),
        ensures
            final(self).wf(),
            final(self).local_cells() == old(self).local_cells(),
            final(self).cell_count() == old(self).cell_count(),
            final(self).parent_table() == Some(*parent_frame),
            final(self).depth() == parent_frame.depth() + 1,
    {
        self.parent = Some(parent_frame);
    }

    /// Defines a symbol within this table, assigning it a new cell (including if the symbol is
    /// already bound to something)
    pub fn define_symbol(&mut self, symbol: TalkSymbol) -> (result: TalkFrameCell)
        requires
            old(self).wf(),
            old(self).cell_count() < u32::MAX,
        ensures
            final(self).wf(),
            result == (TalkFrameCell { frame: 0, cell: old(self).cell_count() as u32 }),
            final(self).local_cells() == old(self).local_cells().insert(
                symbol.0,
                old(self).cell_count() as u32,
            ),
            final(self).cell_count() == old(self).cell_count() + 1,
            final(self).parent_table() == old(self).parent_table(),
            final(self).depth() == old(self).depth(),
    {
        let TalkSymbol(sym_id) = symbol;
        let this_cell = self.next_cell;
        self.next_cell = self.next_cell + 1;
        self.symbols.insert(sym_id, this_cell);
        TalkFrameCell { frame: 0, cell: this_cell }
    }

    /// Undefines a symbol within this table (its location will not be re-used)
    pub fn undefine_symbol(&mut self, symbol: TalkSymbol)
        requires
            old(self).wf(),
        ensures
            final(self).wf(),
            final(self).local_cells() == old(self).local_cells().remove(symbol.0),
            final(self).cell_count() == old(self).cell_count(),
            final(self).parent_table() == old(self).parent_table(),
            final(self).depth() == old(self).depth(),
    {
        let TalkSymbol(sym_id) = symbol;
        self.symbols.remove(&sym_id);
    }

    /// Makes a symbol an alias for an existing cell
    pub fn alias_symbol(&mut self, symbol: TalkSymbol, existing_cell: u32)
        requires
            old(self).wf(),
            existing_cell < old(self).cell_count(),
        ensures
            final(self).wf(),
            final(self).local_cells() == old(self).local_cells().insert(symbol.0, existing_cell),
            final(self).cell_count() == old(self).cell_count(),
            final(self).parent_table() == old(self).parent_table(),
            final(self).depth() == old(self).depth(),
    {
        let TalkSymbol(sym_id) = symbol;
        self.symbols.insert(sym_id, existing_cell);
    }

    /// Looks up a symbol within this table
    pub fn symbol(&self, symbol: TalkSymbol) -> (result: Option<TalkFrameCell>)
        requires
            self.depth() <= u32::MAX,
        ensures
            result == self.lookup(symbol.0),
        decreases self.depth(),
    {
        let TalkSymbol(sym_id) = symbol;
        proof {
            self.lemma_parent();
        }
        if let Some(cell) = self.symbols.get(&sym_id) {
            Some(TalkFrameCell { frame: 0, cell: *cell })
        } else if let Some(parent) = &self.parent {
            proof {
                self.parent_table().unwrap().lemma_lookup_frame(sym_id);
            }
            if let Some(parent_cell) = parent.symbol(TalkSymbol(sym_id)) {
                Some(TalkFrameCell { frame: parent_cell.frame + 1, cell: parent_cell.cell })
            } else {
                None
            }
        } else {
            None
        }
    }
}


/// A symbol bound in a frame is found in that frame (frame 0), and a symbol that is not bound
/// there is found one frame further up than the parent frame finds it (or not at all)
pub proof fn law_lookup_through_frames(table: TalkSymbolTable, sym: usize)
    ensures
        table.local_cells().contains_key(sym) ==> table.lookup(sym) == Some(
            TalkFrameCell { frame: 0, cell: table.local_cells()[sym] },
        ),
        !table.local_cells().contains_key(sym) && table.parent_table() is None ==> table.lookup(sym)
            is None,
        !table.local_cells().contains_key(sym) ==> (table.parent_table() matches Some(parent) ==> (
        table.lookup(sym) == match parent.lookup(sym) {
            Some(found) => Some(TalkFrameCell { frame: (found.frame + 1) as u32, cell: found.cell }),
            None => None,
        })),
{
    table.lemma_parent();
}

/// Rebinding one symbol in a frame (as `define_symbol` and `alias_symbol` do) makes that symbol
/// refer to the new cell in frame 0 and leaves every other symbol referring where it did
pub proof fn law_lookup_after_binding(
    before: TalkSymbolTable,
    after: TalkSymbolTable,
    sym: usize,
    cell: u32,
    other: usize,
)
    requires
        after.local_cells() == before.local_cells().insert(sym, cell),
        after.parent_table() == before.parent_table(),
        after.depth() == before.depth(),
        other != sym,
    ensures
        after.lookup(sym) == Some(TalkFrameCell { frame: 0, cell: cell }),
        after.lookup(other) == before.lookup(other),
{
    before.lemma_parent();
    after.lemma_parent();
}

/// Undefining a symbol in a frame makes it refer to whatever the parent frames bind it to, and
/// leaves every other symbol referring where it did
pub proof fn law_lookup_after_undefine(
    before: TalkSymbolTable,
    after: TalkSymbolTable,
    sym: usize,
    other: usize,
)
    requires
        after.local_cells() == before.local_cells().remove(sym),
        after.parent_table() == before.parent_table(),
        after.depth() == before.depth(),
        other != sym,
    ensures
        after.lookup(sym) == match before.parent_table() {
            Some(parent) => match parent.lookup(sym) {
                Some(found) => Some(TalkFrameCell { frame: (found.frame + 1) as u32, cell: found.cell }),
                None => None,
            },
            None => None,
        },
        after.lookup(other) == before.lookup(other),
{
    before.lemma_parent();
    after.lemma_parent();
}

/// The cell that `define_symbol` hands out is one that no symbol of the table refers to yet:
/// cells are never reused, even after `undefine_symbol`, and every cell a symbol refers to in
/// this frame is below `len`
pub proof fn law_defined_cells_are_fresh(table: TalkSymbolTable, sym: usize)
    requires
        table.wf(),
    ensures
        table.local_cells().contains_key(sym) ==> table.local_cells()[sym] < table.cell_count(),
        table.local_cells().contains_key(sym) ==> table.local_cells()[sym] != table.cell_count(),
{
    table.lemma_cells_allocated(sym);
}

} // verus!
