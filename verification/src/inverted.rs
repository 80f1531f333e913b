use vstd::prelude::*;

use crate::allocator::{AllocatorState, TalkStandardAllocator};
use crate::class::TalkClass;
use crate::message::TalkMessageSignatureId;
use crate::reference::{TalkDataHandle, TalkReference};

use vstd::std_specs::iter::IteratorSpec;

use smallvec::SmallVec;
use std::collections::HashMap;

verus! {

broadcast use vstd::std_specs::hash::group_hash_axioms;

/// When a particular inverted message should be sent to a receiver: always, or only if no
/// other receiver has received it first
#[derive(Clone, Copy, PartialEq, Eq, Structural, Debug)]
pub enum TalkProcessWhen {
    Always,
    Unreceived,
}

/// The priority of an inverted receiver (higher priorities receive messages sooner), and when
/// it receives messages
#[derive(Clone, Copy, PartialEq, Eq, Structural, Debug)]
pub struct TalkPriority(pub usize, pub TalkProcessWhen);

/// The classes that respond to an inverted message, held in a `SmallVec` (inline for up to two
/// classes: usually one class responds to each message). The small vector is private to this
/// type and is reached through the methods below.
#[verifier::external_body]
pub struct ResponderClasses {
    classes: SmallVec<[TalkClass; 2]>,
}

/// The classes held by a list of responder classes, in order
pub uninterp spec fn responder_classes_items(classes: ResponderClasses) -> Seq<TalkClass>;

/// The most classes that can respond to one inverted message: growing the class buffer any
/// further would need more than `isize::MAX` bytes, which `SmallVec` reports as a capacity
/// overflow (a class is the size of a `usize`, and the buffer grows to the next power of two)
pub const MAX_RESPONDER_CLASSES: usize = usize::MAX / 32 + 1;

impl ResponderClasses {
    /// `SmallVec::from_slice`: a list holding just one class
    #[verifier::external_body]
    fn with_class(class: TalkClass) -> (result: ResponderClasses)
        ensures
            responder_classes_items(result) == seq![class],
    {
        ResponderClasses { classes: SmallVec::from_slice(&[class]) }
    }

    /// `SmallVec::len`: the number of classes held
    #[verifier::external_body]
    fn len(&self) -> (result: usize)
        ensures
            result == responder_classes_items(*self).len(),
    {
        self.classes.len()
    }

    /// `SmallVec::index`: the class at a position (which must be in range, otherwise it panics)
    #[verifier::external_body]
    fn get(&self, index: usize) -> (result: TalkClass)
        requires
            index < responder_classes_items(*self).len(),
        ensures
            result == responder_classes_items(*self)[index as int],
    {
        self.classes[index]
    }

    /// `SmallVec::push`: appends a class. The length is kept below the point where growing
    /// the buffer reports a capacity overflow (see the limit below).
    #[verifier::external_body]
    fn push(&mut self, class: TalkClass)
        requires
            responder_classes_items(*old(self)).len() < MAX_RESPONDER_CLASSES,
        ensures
            responder_classes_items(*final(self)) == responder_classes_items(*old(self)).push(class),
    {
        self.classes.push(class)
    }
}

/// A receiver of inverted messages with its priority
pub type TalkInvertedTarget = (TalkReference, TalkPriority);

/// A list of receivers with every entry for one reference taken out
pub open spec fn without_reference(list: Seq<TalkInvertedTarget>, reference: TalkReference) -> Seq<TalkInvertedTarget>
    decreases list.len(),
{
    if list.len() == 0 {
        list
    } else {
        let rest = without_reference(list.drop_last(), reference);
        if list.last().0 == reference {
            rest
        } else {
            rest.push(list.last())
        }
    }
}

/// The entries of a list of receivers whose class is one of `classes`
pub open spec fn targets_of_classes(list: Seq<TalkInvertedTarget>, classes: Seq<TalkClass>) -> Seq<TalkInvertedTarget>
    decreases list.len(),
{
    if list.len() == 0 {
        list
    } else {
        let rest = targets_of_classes(list.drop_last(), classes);
        if classes.contains(list.last().0.0) {
            rest.push(list.last())
        } else {
            rest
        }
    }
}

/// The receivers registered for all sources by each of `classes`, in the order of the classes
pub open spec fn all_source_targets(classes: Seq<TalkClass>, respond_to_all: Seq<Seq<TalkInvertedTarget>>) -> Seq<TalkInvertedTarget>
    decreases classes.len(),
{
    if classes.len() == 0 {
        Seq::empty()
    } else {
        let class_id = classes.last().0 as int;
        all_source_targets(classes.drop_last(), respond_to_all) + if class_id < respond_to_all.len() {
            respond_to_all[class_id]
        } else {
            Seq::empty()
        }
    }
}

/// The receivers in a local context for each of `classes`, in the order of the classes
pub open spec fn local_targets(classes: Seq<TalkClass>, local: Map<usize, Seq<TalkInvertedTarget>>) -> Seq<TalkInvertedTarget>
    decreases classes.len(),
{
    if classes.len() == 0 {
        Seq::empty()
    } else {
        local_targets(classes.drop_last(), local) + if local.contains_key(classes.last().0) {
            local[classes.last().0]
        } else {
            Seq::empty()
        }
    }
}

///
/// Keeps track of which instances of `Inverted` classes receive inverted messages: the classes
/// that respond to each inverted message, the receivers that receive from all sources (by their
/// class) and the receivers that receive from specific sources (by the source's class and handle)
///
pub struct TalkInvertedClassAllocator {
    /// The priority of the next receiveFrom: registration
    next_priority: usize,
    /// The classes that can respond to each message ID
    responder_classes: HashMap<usize, ResponderClasses>,
    /// The references that are registered as responders
    responder_instances: Vec<TalkReference>,
    /// For each responder class ID, the receivers of that class that receive from all sources
    respond_to_all: Vec<Vec<TalkInvertedTarget>>,
    /// For each source class ID, the receivers for each source data handle
    respond_to_specific: Vec<HashMap<usize, Vec<TalkInvertedTarget>>>,
    /// The data for the instances of the inverted class
    data: TalkStandardAllocator<TalkInverted>,
}

/// Data stored for an instance of the inverted class
pub struct TalkInverted {}

impl TalkInvertedClassAllocator {
    /// The instances of the inverted class that have been allocated
    pub closed spec fn allocated(self) -> AllocatorState<TalkInverted> {
        self.data@
    }

    /// The priority that the next registration gets
    pub closed spec fn priority(self) -> nat {
        self.next_priority as nat
    }

    /// The next priority is one that a `usize` holds
    pub proof fn lemma_priority_fits(self)
        ensures
            self.priority() <= usize::MAX,
    {
    }

    /// The classes that respond to each inverted message
    pub closed spec fn classes(self) -> Map<usize, Seq<TalkClass>> {
        Map::new(
            |message: usize| self.responder_classes@.contains_key(message),
            |message: usize| responder_classes_items(self.responder_classes@[message]),
        )
    }

    /// The references registered as responders
    pub closed spec fn instances(self) -> Seq<TalkReference> {
        self.responder_instances@
    }

    /// The receivers of each class that receive from all sources
    pub closed spec fn all_receivers(self) -> Seq<Seq<TalkInvertedTarget>> {
        Seq::new(self.respond_to_all@.len(), |i: int| self.respond_to_all@[i]@)
    }

    /// The receivers of each source, by source class and handle
    pub closed spec fn specific_receivers(self) -> Seq<Map<usize, Seq<TalkInvertedTarget>>> {
        Seq::new(
            self.respond_to_specific@.len(),
            |i: int|
                Map::new(
                    |handle: usize| self.respond_to_specific@[i]@.contains_key(handle),
                    |handle: usize| self.respond_to_specific@[i]@[handle]@,
                ),
        )
    }

    /// Creates a set of responders with no registrations
    pub fn empty() -> (result: TalkInvertedClassAllocator)
        ensures
            result.priority() == 0,
            result.classes() == Map::<usize, Seq<TalkClass>>::empty(),
            result.instances() == Seq::<TalkReference>::empty(),
            result.all_receivers() == Seq::<Seq<TalkInvertedTarget>>::empty(),
            result.specific_receivers() == Seq::<Map<usize, Seq<TalkInvertedTarget>>>::empty(),
            result.allocated().wf(),
            result.allocated().slots.len() == 0,
            result.allocated().free.len() == 0,
            result.priorities_issued(),
    {
        let result = TalkInvertedClassAllocator {
            next_priority: 0,
            responder_classes: HashMap::new(),
            responder_instances: Vec::new(),
            respond_to_all: Vec::new(),
            respond_to_specific: Vec::new(),
            data: TalkStandardAllocator::empty(),
        };
        assert(result.classes() =~= Map::<usize, Seq<TalkClass>>::empty());
        assert(result.all_receivers() =~= Seq::<Seq<TalkInvertedTarget>>::empty());
        assert(result.specific_receivers() =~= Seq::<Map<usize, Seq<TalkInvertedTarget>>>::empty());
        result
    }
}


impl TalkInvertedClassAllocator {
    /// Stores the data for a new instance of the inverted class and returns its handle
    pub fn store(&mut self, value: TalkInverted) -> (result: TalkDataHandle)
        requires
            old(self).allocated().wf(),
        ensures
            final(self).allocated().wf(),
            (final(self).allocated(), result.0) == old(self).allocated().store(value),
            final(self).priority() == old(self).priority(),
            final(self).classes() == old(self).classes(),
            final(self).instances() == old(self).instances(),
            final(self).all_receivers() == old(self).all_receivers(),
            final(self).specific_receivers() == old(self).specific_receivers(),
            old(self).priorities_issued() ==> final(self).priorities_issued(),
    {
        self.data.store(value)
    }

    /// Retrieves the data attached to a handle (which must not have been released)
    pub fn retrieve(&mut self, handle: TalkDataHandle) -> (result: &mut TalkInverted)
        requires
            old(self).allocated().wf(),
            old(self).allocated().contains(handle.0 as int),
            old(self).allocated().slots[handle.0 as int] is Some,
        ensures
            Some(*result) == old(self).allocated().slots[handle.0 as int],
            final(self).allocated() == (AllocatorState {
                slots: old(self).allocated().slots.update(handle.0 as int, Some(*final(result))),
                ..old(self).allocated()
            }),
            final(self).allocated().wf(),
            final(self).priority() == old(self).priority(),
            final(self).classes() == old(self).classes(),
            final(self).instances() == old(self).instances(),
            final(self).all_receivers() == old(self).all_receivers(),
            final(self).specific_receivers() == old(self).specific_receivers(),
            old(self).priorities_issued() ==> final(self).priorities_issued(),
    {
        self.data.retrieve(handle)
    }

    /// Adds to the reference count for a data handle (a released handle stays released)
    pub fn retain(&mut self, handle: TalkDataHandle)
        requires
            old(self).allocated().wf(),
            old(self).allocated().contains(handle.0 as int),
            old(self).allocated().counts[handle.0 as int] < usize::MAX,
        ensures
            final(self).allocated().wf(),
            final(self).allocated() == old(self).allocated().retain(handle.0 as int),
            final(self).priority() == old(self).priority(),
            final(self).classes() == old(self).classes(),
            final(self).instances() == old(self).instances(),
            final(self).all_receivers() == old(self).all_receivers(),
            final(self).specific_receivers() == old(self).specific_receivers(),
            old(self).priorities_issued() ==> final(self).priorities_issued(),
    {
        self.data.retain(handle)
    }

    /// Removes from the reference count for a data handle, freeing it when the count reaches 0;
    /// returns the data that was freed
    pub fn release(&mut self, handle: TalkDataHandle) -> (result: Option<TalkInverted>)
        requires
            old(self).allocated().wf(),
            old(self).allocated().contains(handle.0 as int),
        ensures
            final(self).allocated().wf(),
            (final(self).allocated(), result) == old(self).allocated().release(handle.0 as int),
            final(self).priority() == old(self).priority(),
            final(self).classes() == old(self).classes(),
            final(self).instances() == old(self).instances(),
            final(self).all_receivers() == old(self).all_receivers(),
            final(self).specific_receivers() == old(self).specific_receivers(),
            old(self).priorities_issued() ==> final(self).priorities_issued(),
    {
        self.data.release(handle)
    }
}

/// A list of references with every entry for one reference taken out
pub open spec fn references_without(list: Seq<TalkReference>, reference: TalkReference) -> Seq<TalkReference>
    decreases list.len(),
{
    if list.len() == 0 {
        list
    } else {
        let rest = references_without(list.drop_last(), reference);
        if list.last() == reference {
            rest
        } else {
            rest.push(list.last())
        }
    }
}

/// A copy of a list of receivers without the entries for one reference
fn targets_without(list: &Vec<TalkInvertedTarget>, reference: TalkReference) -> (result: Vec<TalkInvertedTarget>)
    ensures
        result@ == without_reference(list@, reference),
{
    let mut result: Vec<TalkInvertedTarget> = Vec::new();
    let mut i: usize = 0;
    while i < list.len()
        invariant
            i <= list@.len(),
            result@ == without_reference(list@.take(i as int), reference),
        decreases list@.len() - i,
    {
        let entry = list[i];
        proof {
            assert(list@.take(i + 1).drop_last() =~= list@.take(i as int));
            assert(list@.take(i + 1).last() == entry);
        }
        if entry.0 != reference {
            result.push(entry);
        }
        i = i + 1;
    }
    assert(list@.take(list@.len() as int) =~= list@);
    result
}

/// A copy of a list of references without one reference
fn references_list_without(list: &Vec<TalkReference>, reference: TalkReference) -> (result: Vec<TalkReference>)
    ensures
        result@ == references_without(list@, reference),
{
    let mut result: Vec<TalkReference> = Vec::new();
    let mut i: usize = 0;
    while i < list.len()
        invariant
            i <= list@.len(),
            result@ == references_without(list@.take(i as int), reference),
        decreases list@.len() - i,
    {
        let entry = list[i];
        proof {
            assert(list@.take(i + 1).drop_last() =~= list@.take(i as int));
            assert(list@.take(i + 1).last() == entry);
        }
        if entry != reference {
            result.push(entry);
        }
        i = i + 1;
    }
    assert(list@.take(list@.len() as int) =~= list@);
    result
}

/// A copy of a map of receivers with the entries for one reference taken out of every list
fn map_without(map: &HashMap<usize, Vec<TalkInvertedTarget>>, reference: TalkReference) -> (result: HashMap<usize, Vec<TalkInvertedTarget>>)
    ensures
        result@.dom() == map@.dom(),
        forall|handle: usize| #[trigger] result@.contains_key(handle) ==> result@[handle]@ == without_reference(map@[handle]@, reference),
{
    let mut result: HashMap<usize, Vec<TalkInvertedTarget>> = HashMap::new();
    for entry in it: map.iter()
        invariant
            it.seq() == vstd::std_specs::hash::spec_hash_map_iter(map).remaining(),
            forall|handle: usize| #[trigger] result@.contains_key(handle) <==> exists|j: int| 0 <= j < it.index() && *it.seq()[j].0 == handle,
            forall|handle: usize| #[trigger] result@.contains_key(handle) ==> map@.contains_key(handle) && result@[handle]@ == without_reference(map@[handle]@, reference),
    {
        let (handle, list) = entry;
        result.insert(*handle, targets_without(list, reference));
    }
    proof {
        assert(result@.dom() =~= map@.dom());
    }
    result
}

impl TalkInvertedClassAllocator {
    /// Takes the priority for a new registration
    pub fn take_priority(&mut self, when: TalkProcessWhen) -> (result: TalkPriority)
        requires
            old(self).priority() < usize::MAX,
        ensures
            result == TalkPriority(old(self).priority() as usize, when),
            final(self).priority() == old(self).priority() + 1,
            final(self).allocated() == old(self).allocated(),
            final(self).classes() == old(self).classes(),
            final(self).instances() == old(self).instances(),
            final(self).all_receivers() == old(self).all_receivers(),
            final(self).specific_receivers() == old(self).specific_receivers(),
            old(self).priorities_issued() ==> final(self).priorities_issued(),
    {
        let priority = TalkPriority(self.next_priority, when);
        self.next_priority = self.next_priority + 1;
        priority
    }

    /// Declares that a class responds to an inverted message
    pub fn add_responder_class(&mut self, message: TalkMessageSignatureId, class: TalkClass)
        requires
            old(self).classes().contains_key(message.0) ==> (old(self).classes()[message.0].contains(class)
                || old(self).classes()[message.0].len() < MAX_RESPONDER_CLASSES),
        ensures
            final(self).classes() == old(self).classes().insert(
                message.0,
                if old(self).classes().contains_key(message.0) {
                    if old(self).classes()[message.0].contains(class) {
                        old(self).classes()[message.0]
                    } else {
                        old(self).classes()[message.0].push(class)
                    }
                } else {
                    seq![class]
                },
            ),
            final(self).priority() == old(self).priority(),
            final(self).allocated() == old(self).allocated(),
            final(self).instances() == old(self).instances(),
            final(self).all_receivers() == old(self).all_receivers(),
            final(self).specific_receivers() == old(self).specific_receivers(),
            old(self).priorities_issued() ==> final(self).priorities_issued(),
    {
        let ghost old_classes = self.classes();
        match self.responder_classes.remove(&message.0) {
            Some(existing) => {
                let mut classes = existing;
                let mut found = false;
                let mut i: usize = 0;
                while i < classes.len()
                    invariant
                        i <= responder_classes_items(classes).len(),
                        found == exists|k: int| 0 <= k < i && responder_classes_items(classes)[k] == class,
                    decreases responder_classes_items(classes).len() - i,
                {
                    if classes.get(i) == class {
                        found = true;
                    }
                    i = i + 1;
                }
                let ghost items = responder_classes_items(classes);
                if !found {
                    classes.push(class);
                }
                self.responder_classes.insert(message.0, classes);
                proof {
                    assert(old_classes[message.0] == items);
                    assert(found == items.contains(class));
                    assert(self.classes() =~= old_classes.insert(message.0, responder_classes_items(classes)));
                }
            },
            None => {
                self.responder_classes.insert(message.0, ResponderClasses::with_class(class));
                proof {
                    assert(self.classes() =~= old_classes.insert(message.0, seq![class]));
                }
            },
        }
    }
}


/// The receivers of each source after a receiver is added for one source
pub open spec fn with_specific_receiver(
    specific: Seq<Map<usize, Seq<TalkInvertedTarget>>>,
    source: TalkReference,
    target: TalkInvertedTarget,
) -> Seq<Map<usize, Seq<TalkInvertedTarget>>> {
    let class_id = source.0.0 as int;
    let handle = source.1.0;
    let grown = if class_id < specific.len() {
        specific
    } else {
        specific + Seq::new((class_id + 1 - specific.len()) as nat, |i: int| Map::<usize, Seq<TalkInvertedTarget>>::empty())
    };
    let receivers = grown[class_id];
    grown.update(
        class_id,
        receivers.insert(
            handle,
            if receivers.contains_key(handle) {
                receivers[handle].push(target)
            } else {
                seq![target]
            },
        ),
    )
}

/// The receivers of each class after a receiver is added for all sources
pub open spec fn with_all_receiver(
    all: Seq<Seq<TalkInvertedTarget>>,
    target: TalkInvertedTarget,
) -> Seq<Seq<TalkInvertedTarget>> {
    let class_id = target.0.0.0 as int;
    let grown = if class_id < all.len() {
        all
    } else {
        all + Seq::new((class_id + 1 - all.len()) as nat, |i: int| Seq::<TalkInvertedTarget>::empty())
    };
    grown.update(class_id, grown[class_id].push(target))
}

impl TalkInvertedClassAllocator {
    /// Sets it up so that 'target' will receive messages from 'source'
    pub fn receive_from_specific(&mut self, source: TalkReference, target: TalkReference, when: TalkProcessWhen)
        requires
            old(self).priority() < usize::MAX,
            source.0.0 < usize::MAX,
        ensures
            final(self).priority() == old(self).priority() + 1,
            final(self).allocated() == old(self).allocated(),
            final(self).specific_receivers() == with_specific_receiver(
                old(self).specific_receivers(),
                source,
                (target, TalkPriority(old(self).priority() as usize, when)),
            ),
            final(self).classes() == old(self).classes(),
            final(self).instances() == old(self).instances(),
            final(self).all_receivers() == old(self).all_receivers(),
            old(self).priorities_issued() ==> final(self).priorities_issued(),
    {
        let ghost old_specific = self.specific_receivers();
        let source_class = source.0.0;
        let source_handle = source.1.0;
        let priority = self.take_priority(when);
        let ghost after_take = *self;

        let ghost start_len = self.respond_to_specific@.len();
        while self.respond_to_specific.len() <= source_class
            invariant
                self.priority() == after_take.priority(),
                self.allocated() == after_take.allocated(),
                self.classes() == after_take.classes(),
                self.instances() == after_take.instances(),
                self.all_receivers() == after_take.all_receivers(),
                source_class < usize::MAX,
                self.respond_to_specific@.len() >= start_len,
                self.respond_to_specific@.len() <= start_len || self.respond_to_specific@.len() <= source_class + 1,
                self.specific_receivers() == old_specific + Seq::new(
                    (self.respond_to_specific@.len() - start_len) as nat,
                    |i: int| Map::<usize, Seq<TalkInvertedTarget>>::empty(),
                ),
                old_specific.len() == start_len,
            decreases source_class + 1 - self.respond_to_specific@.len(),
        {
            let ghost before = self.specific_receivers();
            self.respond_to_specific.push(HashMap::new());
            proof {
                assert(self.specific_receivers()[before.len() as int] =~= Map::<usize, Seq<TalkInvertedTarget>>::empty());
                assert(self.specific_receivers() =~= before.push(Map::<usize, Seq<TalkInvertedTarget>>::empty()));
                assert(self.specific_receivers() =~= old_specific + Seq::new(
                    (self.respond_to_specific@.len() - start_len) as nat,
                    |i: int| Map::<usize, Seq<TalkInvertedTarget>>::empty(),
                ));
            }
        }
        let ghost grown = self.specific_receivers();
        proof {
            if source_class < start_len {
                assert(grown =~= old_specific);
            } else {
                assert(grown =~= old_specific + Seq::new(
                    (source_class + 1 - old_specific.len()) as nat,
                    |i: int| Map::<usize, Seq<TalkInvertedTarget>>::empty(),
                ));
            }
        }
        let receivers = &mut self.respond_to_specific[source_class];
        let ghost old_receivers = receivers@;
        match receivers.remove(&source_handle) {
            Some(existing) => {
                let mut list = existing;
                list.push((target, priority));
                receivers.insert(source_handle, list);
            },
            None => {
                let mut list: Vec<TalkInvertedTarget> = Vec::new();
                list.push((target, priority));
                receivers.insert(source_handle, list);
            },
        }
        proof {
            let expected = with_specific_receiver(old_specific, source, (target, priority));
            assert(grown[source_class as int] =~= Map::new(
                |handle: usize| old_receivers.contains_key(handle),
                |handle: usize| old_receivers[handle]@,
            ));
            assert(self.specific_receivers()[source_class as int] =~= expected[source_class as int]);
            assert(self.specific_receivers() =~= expected);
        }
    }

    /// Sets it up so that 'target' will receive messages from all possible sources
    pub fn receive_from_all(&mut self, target: TalkReference, when: TalkProcessWhen)
        requires
            old(self).priority() < usize::MAX,
            target.0.0 < usize::MAX,
        ensures
            final(self).priority() == old(self).priority() + 1,
            final(self).allocated() == old(self).allocated(),
            final(self).all_receivers() == with_all_receiver(
                old(self).all_receivers(),
                (target, TalkPriority(old(self).priority() as usize, when)),
            ),
            final(self).classes() == old(self).classes(),
            final(self).instances() == old(self).instances(),
            final(self).specific_receivers() == old(self).specific_receivers(),
            old(self).priorities_issued() ==> final(self).priorities_issued(),
    {
        let ghost old_all = self.all_receivers();
        let target_class = target.0.0;
        let priority = self.take_priority(when);
        let ghost after_take = *self;

        let ghost start_len = self.respond_to_all@.len();
        while self.respond_to_all.len() <= target_class
            invariant
                self.priority() == after_take.priority(),
                self.allocated() == after_take.allocated(),
                self.classes() == after_take.classes(),
                self.instances() == after_take.instances(),
                self.specific_receivers() == after_take.specific_receivers(),
                target_class < usize::MAX,
                self.respond_to_all@.len() >= start_len,
                self.respond_to_all@.len() <= start_len || self.respond_to_all@.len() <= target_class + 1,
                self.all_receivers() == old_all + Seq::new(
                    (self.respond_to_all@.len() - start_len) as nat,
                    |i: int| Seq::<TalkInvertedTarget>::empty(),
                ),
                old_all.len() == start_len,
            decreases target_class + 1 - self.respond_to_all@.len(),
        {
            let ghost before = self.all_receivers();
            self.respond_to_all.push(Vec::new());
            proof {
                assert(self.all_receivers() =~= before.push(Seq::<TalkInvertedTarget>::empty()));
                assert(self.all_receivers() =~= old_all + Seq::new(
                    (self.respond_to_all@.len() - start_len) as nat,
                    |i: int| Seq::<TalkInvertedTarget>::empty(),
                ));
            }
        }
        let ghost grown = self.all_receivers();
        proof {
            if target_class < start_len {
                assert(grown =~= old_all);
            } else {
                assert(grown =~= old_all + Seq::new(
                    (target_class + 1 - old_all.len()) as nat,
                    |i: int| Seq::<TalkInvertedTarget>::empty(),
                ));
            }
        }
        self.respond_to_all[target_class].push((target, priority));
        proof {
            let expected = with_all_receiver(old_all, (target, priority));
            assert(self.all_receivers() =~= expected);
        }
    }
}


/// The receivers for all sources once a reference no longer receives anything
pub open spec fn all_without(all: Seq<Seq<TalkInvertedTarget>>, reference: TalkReference) -> Seq<Seq<TalkInvertedTarget>> {
    Seq::new(all.len(), |i: int| without_reference(all[i], reference))
}

/// The receivers for specific sources once a reference no longer receives anything
pub open spec fn specific_without(
    specific: Seq<Map<usize, Seq<TalkInvertedTarget>>>,
    reference: TalkReference,
) -> Seq<Map<usize, Seq<TalkInvertedTarget>>> {
    Seq::new(
        specific.len(),
        |i: int|
            Map::new(
                |handle: usize| specific[i].contains_key(handle),
                |handle: usize| without_reference(specific[i][handle], reference),
            ),
    )
}

/// The receivers for specific sources once a source has been dropped
pub open spec fn specific_without_source(
    specific: Seq<Map<usize, Seq<TalkInvertedTarget>>>,
    source: TalkReference,
) -> Seq<Map<usize, Seq<TalkInvertedTarget>>> {
    if (source.0.0 as int) < specific.len() {
        specific.update(source.0.0 as int, specific[source.0.0 as int].remove(source.1.0))
    } else {
        specific
    }
}

impl TalkInvertedClassAllocator {
    /// Removes a responder from the list of responders and from every list of receivers
    pub fn drop_responder(&mut self, dropped_responder: TalkReference)
        ensures
            final(self).instances() == references_without(old(self).instances(), dropped_responder),
            final(self).all_receivers() == all_without(old(self).all_receivers(), dropped_responder),
            final(self).specific_receivers() == specific_without(old(self).specific_receivers(), dropped_responder),
            final(self).priority() == old(self).priority(),
            final(self).allocated() == old(self).allocated(),
            final(self).classes() == old(self).classes(),
            old(self).priorities_issued() ==> final(self).priorities_issued(),
    {
        let ghost old_self = *self;
        self.responder_instances = references_list_without(&self.responder_instances, dropped_responder);

        let mut all: Vec<Vec<TalkInvertedTarget>> = Vec::new();
        let mut i: usize = 0;
        while i < self.respond_to_all.len()
            invariant
                self.respond_to_all == old_self.respond_to_all,
                i <= self.respond_to_all@.len(),
                all@.len() == i,
                forall|k: int| 0 <= k < i ==> (#[trigger] all@[k])@ == without_reference(self.respond_to_all@[k]@, dropped_responder),
            decreases self.respond_to_all@.len() - i,
        {
            all.push(targets_without(&self.respond_to_all[i], dropped_responder));
            i = i + 1;
        }
        self.respond_to_all = all;
        proof {
            assert(self.all_receivers() =~= all_without(old_self.all_receivers(), dropped_responder));
        }

        let mut specific: Vec<HashMap<usize, Vec<TalkInvertedTarget>>> = Vec::new();
        let mut j: usize = 0;
        while j < self.respond_to_specific.len()
            invariant
                self.respond_to_specific == old_self.respond_to_specific,
                j <= self.respond_to_specific@.len(),
                specific@.len() == j,
                forall|k: int| 0 <= k < j ==> (#[trigger] specific@[k])@.dom() == self.respond_to_specific@[k]@.dom(),
                forall|k: int, handle: usize| 0 <= k < j && #[trigger] specific@[k]@.contains_key(handle) ==> specific@[k]@[handle]@ == without_reference(self.respond_to_specific@[k]@[handle]@, dropped_responder),
            decreases self.respond_to_specific@.len() - j,
        {
            specific.push(map_without(&self.respond_to_specific[j], dropped_responder));
            j = j + 1;
        }
        self.respond_to_specific = specific;
        proof {
            let expected = specific_without(old_self.specific_receivers(), dropped_responder);
            assert forall|k: int| 0 <= k < expected.len() implies #[trigger] self.specific_receivers()[k] == expected[k] by {
                assert(self.specific_receivers()[k] =~= expected[k]);
            }
            assert(self.specific_receivers() =~= expected);
            if old_self.priorities_issued() {
                lemma_all_without_below(old_self.all_receivers(), dropped_responder, old_self.priority());
                lemma_specific_without_below(old_self.specific_receivers(), dropped_responder, old_self.priority());
            }
        }
    }

    /// Called when a reference is dropped: it no longer has receivers of its own, and if it was
    /// a responder it no longer receives anything
    pub fn on_dropped_reference(&mut self, reference: TalkReference)
        ensures
            old(self).instances().contains(reference) ==> {
                &&& final(self).instances() == references_without(old(self).instances(), reference)
                &&& final(self).all_receivers() == all_without(old(self).all_receivers(), reference)
                &&& final(self).specific_receivers() == specific_without(
                    specific_without_source(old(self).specific_receivers(), reference),
                    reference,
                )
            },
            !old(self).instances().contains(reference) ==> {
                &&& final(self).instances() == old(self).instances()
                &&& final(self).all_receivers() == old(self).all_receivers()
                &&& final(self).specific_receivers() == specific_without_source(old(self).specific_receivers(), reference)
            },
            final(self).priority() == old(self).priority(),
            final(self).allocated() == old(self).allocated(),
            final(self).classes() == old(self).classes(),
            old(self).priorities_issued() ==> final(self).priorities_issued(),
    {
        let ghost old_specific = self.specific_receivers();
        let class_id = reference.0.0;
        let handle = reference.1.0;

        if class_id < self.respond_to_specific.len() {
            self.respond_to_specific[class_id].remove(&handle);
            proof {
                assert(self.specific_receivers()[class_id as int] =~= old_specific[class_id as int].remove(handle));
            }
        }
        proof {
            assert(self.specific_receivers() =~= specific_without_source(old_specific, reference));
        }

        // Remove from the responder list if needed
        let mut is_responder = false;
        let mut i: usize = 0;
        while i < self.responder_instances.len()
            invariant
                i <= self.responder_instances@.len(),
                is_responder == exists|k: int| 0 <= k < i && self.responder_instances@[k] == reference,
            decreases self.responder_instances@.len() - i,
        {
            if self.responder_instances[i] == reference {
                is_responder = true;
            }
            i = i + 1;
        }
        if is_responder {
            self.drop_responder(reference);
        }
    }
}


/// The abstract form of a map of receivers
pub open spec fn receivers_view(map: Map<usize, Vec<TalkInvertedTarget>>) -> Map<usize, Seq<TalkInvertedTarget>> {
    Map::new(|handle: usize| map.contains_key(handle), |handle: usize| map[handle]@)
}

impl TalkInvertedClassAllocator {
    /// The receivers of an inverted message sent by `sender`: the receivers for all sources
    /// registered by each class that responds to the message, then the receivers for this
    /// sender whose class responds to the message, then the receivers in the local context for
    /// each class that responds to the message. `None` if no class responds to the message.
    pub open spec fn targets_for(
        self,
        message: TalkMessageSignatureId,
        sender: TalkReference,
        local: Option<Map<usize, Seq<TalkInvertedTarget>>>,
    ) -> Option<Seq<TalkInvertedTarget>> {
        if self.classes().contains_key(message.0) {
            let classes = self.classes()[message.0];
            let specific = self.specific_receivers();
            let sender_class = sender.0.0 as int;
            let from_sender = if sender_class < specific.len() && specific[sender_class].contains_key(sender.1.0) {
                targets_of_classes(specific[sender_class][sender.1.0], classes)
            } else {
                Seq::empty()
            };
            let from_local = match local {
                Some(local) => local_targets(classes, local),
                None => Seq::empty(),
            };
            Some(all_source_targets(classes, self.all_receivers()) + from_sender + from_local)
        } else {
            None
        }
    }

    /// Finds the receivers of an inverted message sent by `sender` (see `targets_for`)
    pub fn collect_targets(
        &self,
        message: TalkMessageSignatureId,
        sender: TalkReference,
        local: Option<&HashMap<usize, Vec<TalkInvertedTarget>>>,
    ) -> (result: Option<Vec<TalkInvertedTarget>>)
        ensures
            result matches Some(targets) ==> self.targets_for(message, sender, match local {
                Some(local) => Some(receivers_view(local@)),
                None => None,
            }) == Some(targets@),
            result is None ==> self.targets_for(message, sender, match local {
                Some(local) => Some(receivers_view(local@)),
                None => None,
            }) is None,
    {
        let responder_classes = match self.responder_classes.get(&message.0) {
            Some(classes) => classes,
            None => {
                return None;
            },
        };
        let ghost classes = responder_classes_items(*responder_classes);
        let count = responder_classes.len();
        let mut targets: Vec<TalkInvertedTarget> = Vec::new();

        // Everything that receives this message from all sources
        let mut i: usize = 0;
        while i < count
            invariant
                count == classes.len(),
                classes == responder_classes_items(*responder_classes),
                i <= count,
                targets@ == all_source_targets(classes.take(i as int), self.all_receivers()),
            decreases count - i,
        {
            let class_id = responder_classes.get(i).0;
            proof {
                assert(classes.take(i + 1).drop_last() =~= classes.take(i as int));
            }
            if class_id < self.respond_to_all.len() {
                let list = &self.respond_to_all[class_id];
                let mut k: usize = 0;
                let ghost start = targets@;
                while k < list.len()
                    invariant
                        k <= list@.len(),
                        targets@ == start + list@.take(k as int),
                    decreases list@.len() - k,
                {
                    targets.push(list[k]);
                    assert(targets@ =~= start + list@.take(k + 1));
                    k = k + 1;
                }
                assert(list@.take(list@.len() as int) =~= list@);
                assert(self.all_receivers()[class_id as int] == list@);
            } else {
                assert(targets@ =~= targets@ + Seq::<TalkInvertedTarget>::empty());
            }
            i = i + 1;
        }
        assert(classes.take(count as int) =~= classes);
        let ghost from_all = targets@;

        // Everything that is receiving specifically from this sender
        let sender_class = sender.0.0;
        let sender_handle = sender.1.0;
        if sender_class < self.respond_to_specific.len() {
            match self.respond_to_specific[sender_class].get(&sender_handle) {
                Some(specific) => {
                    let mut k: usize = 0;
                    while k < specific.len()
                        invariant
                            count == classes.len(),
                            classes == responder_classes_items(*responder_classes),
                            k <= specific@.len(),
                            targets@ == from_all + targets_of_classes(specific@.take(k as int), classes),
                        decreases specific@.len() - k,
                    {
                        let entry = specific[k];
                        proof {
                            assert(specific@.take(k + 1).drop_last() =~= specific@.take(k as int));
                            assert(specific@.take(k + 1).last() == entry);
                        }
                        let mut responds = false;
                        let mut c: usize = 0;
                        while c < count
                            invariant
                                count == classes.len(),
                                classes == responder_classes_items(*responder_classes),
                                c <= count,
                                responds == exists|j: int| 0 <= j < c && classes[j] == entry.0.0,
                            decreases count - c,
                        {
                            if responder_classes.get(c) == entry.0.0 {
                                responds = true;
                            }
                            c = c + 1;
                        }
                        if responds {
                            targets.push(entry);
                        }
                        proof {
                            assert(responds == classes.contains(entry.0.0));
                            assert(targets@ =~= from_all + targets_of_classes(specific@.take(k + 1), classes));
                        }
                        k = k + 1;
                    }
                    assert(specific@.take(specific@.len() as int) =~= specific@);
                },
                None => {},
            }
        }
        let ghost from_sender = targets@.subrange(from_all.len() as int, targets@.len() as int);
        proof {
            assert(targets@ =~= from_all + from_sender);
        }

        // Everything in the local context that might respond to this message
        match local {
            Some(local) => {
                let mut i: usize = 0;
                let ghost start = targets@;
                while i < count
                    invariant
                        count == classes.len(),
                        classes == responder_classes_items(*responder_classes),
                        i <= count,
                        targets@ == start + local_targets(classes.take(i as int), receivers_view(local@)),
                    decreases count - i,
                {
                    let class_id = responder_classes.get(i).0;
                    proof {
                        assert(classes.take(i + 1).drop_last() =~= classes.take(i as int));
                    }
                    match local.get(&class_id) {
                        Some(list) => {
                            let mut k: usize = 0;
                            let ghost before = targets@;
                            while k < list.len()
                                invariant
                                    k <= list@.len(),
                                    targets@ == before + list@.take(k as int),
                                decreases list@.len() - k,
                            {
                                targets.push(list[k]);
                                assert(targets@ =~= before + list@.take(k + 1));
                                k = k + 1;
                            }
                            assert(list@.take(list@.len() as int) =~= list@);
                            assert(targets@ =~= start + local_targets(classes.take(i + 1), receivers_view(local@)));
                        },
                        None => {
                            assert(targets@ =~= start + local_targets(classes.take(i + 1), receivers_view(local@)));
                        },
                    }
                    i = i + 1;
                }
                assert(classes.take(count as int) =~= classes);
            },
            None => {},
        }
        proof {
            assert(self.classes()[message.0] == classes);
            assert(targets@ =~= self.targets_for(message, sender, match local {
                Some(local) => Some(receivers_view(local@)),
                None => None,
            }).unwrap());
        }
        Some(targets)
    }
}


/// Whether every receiver in a list has a property
pub(crate) open spec fn all_targets(list: Seq<TalkInvertedTarget>, property: spec_fn(TalkInvertedTarget) -> bool) -> bool {
    forall|k: int| 0 <= k < list.len() ==> property(#[trigger] list[k])
}

/// Whether every receiver in lists of receivers for all sources holds a priority below `limit`
pub open spec fn receivers_below(all: Seq<Seq<TalkInvertedTarget>>, limit: nat) -> bool {
    forall|c: int, k: int| 0 <= c < all.len() && 0 <= k < all[c].len() ==> (#[trigger] all[c][k]).1.0 < limit
}

/// Whether every receiver in maps of receivers for specific sources holds a priority below
/// `limit`
pub open spec fn source_receivers_below(specific: Seq<Map<usize, Seq<TalkInvertedTarget>>>, limit: nat) -> bool {
    forall|c: int, handle: usize, k: int|
        0 <= c < specific.len() && specific[c].contains_key(handle) && 0 <= k < specific[c][handle].len()
            ==> (#[trigger] specific[c][handle][k]).1.0 < limit
}

impl TalkInvertedClassAllocator {
    /// Every receiver registered for all sources or for a specific source holds a priority
    /// below the next one to be handed out
    pub open spec fn priorities_issued(self) -> bool {
        &&& receivers_below(self.all_receivers(), self.priority())
        &&& source_receivers_below(self.specific_receivers(), self.priority())
    }
}

proof fn lemma_without_reference_keep(
    list: Seq<TalkInvertedTarget>,
    reference: TalkReference,
    property: spec_fn(TalkInvertedTarget) -> bool,
)
    requires
        all_targets(list, property),
    ensures
        all_targets(without_reference(list, reference), property),
    decreases list.len(),
{
    if list.len() > 0 {
        assert(all_targets(list.drop_last(), property)) by {
            assert forall|k: int| 0 <= k < list.drop_last().len() implies property(#[trigger] list.drop_last()[k]) by {
                assert(list.drop_last()[k] == list[k]);
            }
        }
        assert(property(list[list.len() - 1]));
        lemma_without_reference_keep(list.drop_last(), reference, property);
    }
}

proof fn lemma_all_without_below(all: Seq<Seq<TalkInvertedTarget>>, reference: TalkReference, limit: nat)
    requires
        receivers_below(all, limit),
    ensures
        receivers_below(all_without(all, reference), limit),
{
    let property = |entry: TalkInvertedTarget| entry.1.0 < limit;
    let result = all_without(all, reference);
    assert forall|c: int, k: int| 0 <= c < result.len() && 0 <= k < result[c].len() implies (#[trigger] result[c][k]).1.0 < limit by {
        assert(all_targets(all[c], property)) by {
            assert forall|j: int| 0 <= j < all[c].len() implies property(#[trigger] all[c][j]) by {
                assert(all[c][j].1.0 < limit);
            }
        }
        lemma_without_reference_keep(all[c], reference, property);
        assert(result[c] == without_reference(all[c], reference));
        assert(property(result[c][k]));
    }
}

proof fn lemma_specific_without_below(specific: Seq<Map<usize, Seq<TalkInvertedTarget>>>, reference: TalkReference, limit: nat)
    requires
        source_receivers_below(specific, limit),
    ensures
        source_receivers_below(specific_without(specific, reference), limit),
{
    let property = |entry: TalkInvertedTarget| entry.1.0 < limit;
    let result = specific_without(specific, reference);
    assert forall|c: int, h: usize, k: int|
        0 <= c < result.len() && result[c].contains_key(h) && 0 <= k < result[c][h].len()
        implies (#[trigger] result[c][h][k]).1.0 < limit by {
        assert(all_targets(specific[c][h], property)) by {
            assert forall|j: int| 0 <= j < specific[c][h].len() implies property(#[trigger] specific[c][h][j]) by {
                assert(specific[c][h][j].1.0 < limit);
            }
        }
        lemma_without_reference_keep(specific[c][h], reference, property);
        assert(result[c][h] == without_reference(specific[c][h], reference));
        assert(property(result[c][h][k]));
    }
}

} // verus!
