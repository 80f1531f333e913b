use vstd::prelude::*;

use crate::class::TalkClass;

verus! {

/// A reference to the data for a class from the allocator
#[derive(Clone, Copy, PartialEq, Eq, Structural, Hash, PartialOrd, Ord, Debug)]
pub struct TalkDataHandle(pub usize);

/// A reference to a cell block (set of reference-counted values stored within a context)
#[derive(Clone, Copy, PartialEq, Eq, Structural, Hash, PartialOrd, Ord, Debug)]
pub struct TalkCellBlock(pub u32);

/// A reference to a specific value within a cell block
#[derive(Clone, Copy, PartialEq, Eq, Structural, Hash, PartialOrd, Ord, Debug)]
pub struct TalkCell(pub TalkCellBlock, pub u32);

/// A reference to a cell in a frame
#[derive(Clone, Copy, PartialEq, Eq, Structural, Hash, PartialOrd, Ord, Debug)]
pub struct TalkFrameCell {
    /// The frame this cell is found in (with '0' being the current frame, '1' being the
    /// parent's frame, etc). The frame should contain the cell block.
    pub frame: u32,
    /// The cell number within the frame
    pub cell: u32,
}


/// A reference to a data structure within a context: the class of the data and its handle in
/// that class's allocator
#[derive(Clone, Copy, PartialEq, Eq, Structural, Hash, PartialOrd, Ord, Debug)]
pub struct TalkReference(pub TalkClass, pub TalkDataHandle);

impl TalkReference {
    /// Creates a reference from a data handle
    pub fn from_handle(class: TalkClass, data_handle: TalkDataHandle) -> (result: TalkReference)
        ensures
            result == TalkReference(class, data_handle),
    {
        TalkReference(class, data_handle)
    }

    /// Retrieves the class for this reference
    pub fn class(&self) -> (result: TalkClass)
        ensures
            result == self.0,
    {
        self.0
    }

    /// Retrieves the data handle within the class for this reference
    pub fn data_handle(&self) -> (result: TalkDataHandle)
        ensures
            result == self.1,
    {
        self.1
    }
}

} // verus!
