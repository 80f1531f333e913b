use vstd::prelude::*;

verus! {

/// The identifier of a class
#[derive(Clone, Copy, PartialEq, Eq, Structural, Hash, PartialOrd, Ord, Debug)]
pub struct TalkClass(pub usize);

///
/// Hands out class identifiers: every class that is created gets the next identifier, so no
/// two classes share one
///
pub struct TalkClassRegistry {
    /// The identifier for the next class to be created
    next_class: usize,
}

impl TalkClassRegistry {
    /// The number of classes created so far (also the next identifier)
    pub closed spec fn count(self) -> nat {
        self.next_class as nat
    }

    /// Creates a registry with no classes
    pub fn new() -> (result: TalkClassRegistry)
        ensures
            result.count() == 0,
    {
        TalkClassRegistry { next_class: 0 }
    }

    /// Creates a new class, returning its identifier
    pub fn create(&mut self) -> (result: TalkClass)
        requires
            old(self).count() < usize::MAX,
        ensures
            result.0 == old(self).count(),
            final(self).count() == old(self).count() + 1,
    {
        let class = TalkClass(self.next_class);
        self.next_class = self.next_class + 1;
        class
    }
}

///
/// The cell block classes that have been created so far. These are shared between contexts so
/// that the number of class IDs in existence doesn't keep growing when new contexts are
/// allocated and run scripts.
///
pub struct TalkCellBlockClasses {
    classes: Vec<TalkClass>,
}

impl View for TalkCellBlockClasses {
    type V = Seq<TalkClass>;

    closed spec fn view(&self) -> Seq<TalkClass> {
        self.classes@
    }
}

impl TalkCellBlockClasses {
    /// Creates an empty list of cell block classes
    pub fn new() -> (result: TalkCellBlockClasses)
        ensures
            result@ == Seq::<TalkClass>::empty(),
    {
        TalkCellBlockClasses { classes: Vec::new() }
    }

    /// The number of cell block classes created so far
    pub fn len(&self) -> (result: usize)
        ensures
            result == self@.len(),
    {
        self.classes.len()
    }

    /// The cell block class at a position
    pub fn get(&self, index: usize) -> (result: TalkClass)
        requires
            index < self@.len(),
        ensures
            result == self@[index as int],
    {
        self.classes[index]
    }

    /// Adds a newly created cell block class
    pub fn push(&mut self, class: TalkClass)
        ensures
            final(self)@ == old(self)@.push(class),
    {
        self.classes.push(class);
    }
}

} // verus!
