use vstd::prelude::*;

use crate::class::TalkClass;
use crate::error::TalkError;
use crate::inverted::{
    all_source_targets, all_targets, local_targets, receivers_below, receivers_view, source_receivers_below,
    targets_of_classes, with_all_receiver, with_specific_receiver, TalkInvertedClassAllocator, TalkInvertedTarget,
    TalkPriority, TalkProcessWhen,
};
use crate::message::TalkMessageSignatureId;
use crate::reference::TalkReference;

use std::collections::HashMap;

verus! {

/// Whether a list of receivers holds an entry for a reference
pub open spec fn has_reference(list: Seq<TalkInvertedTarget>, reference: TalkReference) -> bool {
    exists|k: int| 0 <= k < list.len() && (#[trigger] list[k]).0 == reference
}

/// The highest priority among the entries for a reference in a list of receivers (0 where
/// there is none)
pub open spec fn best_priority(list: Seq<TalkInvertedTarget>, reference: TalkReference) -> nat
    decreases list.len(),
{
    if list.len() == 0 {
        0
    } else {
        let rest = best_priority(list.drop_last(), reference);
        if list.last().0 == reference && list.last().1.0 > rest {
            list.last().1.0 as nat
        } else {
            rest
        }
    }
}

/// Whether any entry for a reference in a list of receivers receives messages always
pub open spec fn receives_always(list: Seq<TalkInvertedTarget>, reference: TalkReference) -> bool
    decreases list.len(),
{
    if list.len() == 0 {
        false
    } else {
        (list.last().0 == reference && list.last().1.1 == TalkProcessWhen::Always)
            || receives_always(list.drop_last(), reference)
    }
}

/// Whether one receiver comes before another in a prioritised list: by priority, then by
/// reference (its class, then its handle)
pub open spec fn precedes(a: TalkInvertedTarget, b: TalkInvertedTarget) -> bool {
    ||| a.1.0 < b.1.0
    ||| (a.1.0 == b.1.0 && a.0.0.0 < b.0.0.0)
    ||| (a.1.0 == b.1.0 && a.0.0.0 == b.0.0.0 && a.0.1.0 < b.0.1.0)
}

/// Whether every receiver in a list comes before the ones after it
pub open spec fn in_priority_order(list: Seq<TalkInvertedTarget>) -> bool {
    forall|a: int, b: int| 0 <= a < b < list.len() ==> precedes(#[trigger] list[a], #[trigger] list[b])
}

/// Whether a receiver in a prioritised list carries what the unsorted list says of its
/// reference: the highest priority it was registered with, and `Always` if any of its entries
/// receives always
pub open spec fn merged_entry(entry: TalkInvertedTarget, list: Seq<TalkInvertedTarget>) -> bool {
    &&& entry.1.0 == best_priority(list, entry.0)
    &&& (entry.1.1 == TalkProcessWhen::Always <==> receives_always(list, entry.0))
}

/// Whether `result` is the list of receivers `list` made ready for sending: each reference
/// once, with the highest priority it was registered with, receiving always if any of its
/// entries does, in ascending order of priority (so the receiver that comes last is sent to
/// first)
pub open spec fn prioritised(result: Seq<TalkInvertedTarget>, list: Seq<TalkInvertedTarget>) -> bool {
    &&& in_priority_order(result)
    &&& forall|reference: TalkReference| #[trigger] has_reference(result, reference) == has_reference(list, reference)
    &&& forall|k: int| 0 <= k < result.len() ==> merged_entry(#[trigger] result[k], list)
}

proof fn lemma_has_reference_push(list: Seq<TalkInvertedTarget>, entry: TalkInvertedTarget, reference: TalkReference)
    ensures
        has_reference(list.push(entry), reference) == (has_reference(list, reference) || entry.0 == reference),
{
    let pushed = list.push(entry);
    if has_reference(list, reference) {
        let k = choose|k: int| 0 <= k < list.len() && (#[trigger] list[k]).0 == reference;
        assert(pushed[k] == list[k]);
    }
    if entry.0 == reference {
        assert(pushed[list.len() as int] == entry);
    }
    if has_reference(pushed, reference) {
        let k = choose|k: int| 0 <= k < pushed.len() && (#[trigger] pushed[k]).0 == reference;
        if k < list.len() {
            assert(pushed[k] == list[k]);
        }
    }
}

proof fn lemma_absent_reference(list: Seq<TalkInvertedTarget>, reference: TalkReference)
    requires
        !has_reference(list, reference),
    ensures
        best_priority(list, reference) == 0,
        !receives_always(list, reference),
    decreases list.len(),
{
    if list.len() > 0 {
        let rest = list.drop_last();
        assert(list[list.len() - 1] == list.last());
        if has_reference(rest, reference) {
            let k = choose|k: int| 0 <= k < rest.len() && (#[trigger] rest[k]).0 == reference;
            assert(list[k] == rest[k]);
        }
        lemma_absent_reference(rest, reference);
    }
}

proof fn lemma_prioritised_distinct(result: Seq<TalkInvertedTarget>, list: Seq<TalkInvertedTarget>)
    requires
        prioritised(result, list),
    ensures
        forall|a: int, b: int| 0 <= a < result.len() && 0 <= b < result.len() && a != b ==> (#[trigger] result[a]).0 != (#[trigger] result[b]).0,
{
    assert forall|a: int, b: int| 0 <= a < result.len() && 0 <= b < result.len() && a != b implies (#[trigger] result[a]).0 != (#[trigger] result[b]).0 by {
        assert(merged_entry(result[a], list));
        assert(merged_entry(result[b], list));
        if a < b {
            assert(precedes(result[a], result[b]));
        } else {
            assert(precedes(result[b], result[a]));
        }
    }
}

proof fn lemma_insert_in_order(list: Seq<TalkInvertedTarget>, p: int, entry: TalkInvertedTarget)
    requires
        in_priority_order(list),
        0 <= p <= list.len(),
        forall|k: int| 0 <= k < p ==> precedes(#[trigger] list[k], entry),
        forall|k: int| p <= k < list.len() ==> precedes(entry, #[trigger] list[k]),
    ensures
        in_priority_order(list.insert(p, entry)),
{
    let inserted = list.insert(p, entry);
    list.insert_ensures(p, entry);
    assert forall|a: int, b: int| 0 <= a < b < inserted.len() implies precedes(#[trigger] inserted[a], #[trigger] inserted[b]) by {
        if b < p {
            assert(inserted[a] == list[a] && inserted[b] == list[b]);
        } else if b == p {
            assert(inserted[a] == list[a]);
        } else {
            assert(inserted[b] == list[b - 1]);
            if a < p {
                assert(inserted[a] == list[a]);
            } else if a > p {
                assert(inserted[a] == list[a - 1]);
            }
        }
    }
}

proof fn lemma_remove_in_order(list: Seq<TalkInvertedTarget>, index: int)
    requires
        in_priority_order(list),
        0 <= index < list.len(),
    ensures
        in_priority_order(list.remove(index)),
{
    let removed = list.remove(index);
    list.remove_ensures(index);
    assert forall|a: int, b: int| 0 <= a < b < removed.len() implies precedes(#[trigger] removed[a], #[trigger] removed[b]) by {
        if b < index {
            assert(removed[a] == list[a] && removed[b] == list[b]);
        } else {
            assert(removed[b] == list[b + 1]);
            if a < index {
                assert(removed[a] == list[a]);
            } else {
                assert(removed[a] == list[a + 1]);
            }
        }
    }
}

/// Whether one receiver comes before another in a prioritised list
fn target_precedes(a: &TalkInvertedTarget, b: &TalkInvertedTarget) -> (result: bool)
    ensures
        result == precedes(*a, *b),
{
    let a_priority = (a.1).0;
    let b_priority = (b.1).0;
    let a_class = ((a.0).0).0;
    let b_class = ((b.0).0).0;
    let a_handle = ((a.0).1).0;
    let b_handle = ((b.0).1).0;
    a_priority < b_priority || (a_priority == b_priority && (a_class < b_class || (a_class == b_class && a_handle < b_handle)))
}

/// The position of the entry for a reference in a list of receivers
fn find_reference(list: &Vec<TalkInvertedTarget>, reference: TalkReference) -> (result: Option<usize>)
    ensures
        match result {
            Some(k) => k < list@.len() && list@[k as int].0 == reference,
            None => !has_reference(list@, reference),
        },
{
    let mut k: usize = 0;
    while k < list.len()
        invariant
            k <= list@.len(),
            forall|j: int| 0 <= j < k ==> (#[trigger] list@[j]).0 != reference,
        decreases list@.len() - k,
    {
        if list[k].0 == reference {
            return Some(k);
        }
        k = k + 1;
    }
    None
}

/// Where a receiver goes in a list in priority order that has no entry for its reference
fn insert_position(list: &Vec<TalkInvertedTarget>, entry: &TalkInvertedTarget) -> (p: usize)
    requires
        in_priority_order(list@),
        !has_reference(list@, entry.0),
    ensures
        p <= list@.len(),
        forall|k: int| 0 <= k < p ==> precedes(#[trigger] list@[k], *entry),
        forall|k: int| p <= k < list@.len() ==> precedes(*entry, #[trigger] list@[k]),
{
    let mut p: usize = 0;
    while p < list.len()
        invariant
            p <= list@.len(),
            forall|k: int| 0 <= k < p ==> precedes(#[trigger] list@[k], *entry),
        ensures
            p <= list@.len(),
            forall|k: int| 0 <= k < p ==> precedes(#[trigger] list@[k], *entry),
            p < list@.len() ==> !precedes(list@[p as int], *entry),
        decreases list@.len() - p,
    {
        if !target_precedes(&list[p], entry) {
            break;
        }
        p = p + 1;
    }
    assert forall|k: int| p <= k < list@.len() implies precedes(*entry, #[trigger] list@[k]) by {
        assert(list@[p as int].0 != entry.0);
        if k > p {
            assert(precedes(list@[p as int], list@[k]));
        }
    }
    p
}

/// Makes a list of receivers ready for sending: each reference is kept once, with the highest
/// priority that it was registered with, and receives the message always if any of its entries
/// does; the receivers are put in ascending order of priority (then of reference), so that the
/// receiver at the end of the list is the first to be sent the message
pub fn prioritise_targets(targets: Vec<TalkInvertedTarget>) -> (result: Vec<TalkInvertedTarget>)
    ensures
        prioritised(result@, targets@),
{
    let mut result: Vec<TalkInvertedTarget> = Vec::new();
    let mut i: usize = 0;
    while i < targets.len()
        invariant
            i <= targets@.len(),
            prioritised(result@, targets@.take(i as int)),
        decreases targets@.len() - i,
    {
        let entry = targets[i];
        let ghost before = targets@.take(i as int);
        let ghost after = targets@.take(i + 1);
        let ghost old_result = result@;
        proof {
            assert(after =~= before.push(entry));
            assert(after.drop_last() =~= before);
            assert(after.last() == entry);
            lemma_prioritised_distinct(old_result, before);
            assert forall|reference: TalkReference| #[trigger] has_reference(after, reference) == (has_reference(before, reference) || entry.0 == reference) by {
                lemma_has_reference_push(before, entry, reference);
            }
        }
        let merged = match find_reference(&result, entry.0) {
            Some(k) => {
                let existing = result.remove(k);
                proof {
                    assert(existing == old_result[k as int]);
                    assert(merged_entry(old_result[k as int], before));
                    old_result.remove_ensures(k as int);
                    assert forall|j: int| 0 <= j < result@.len() implies #[trigger] result@[j] != existing && (result@[j].0 != entry.0) by {
                        if j < k {
                            assert(result@[j] == old_result[j]);
                        } else {
                            assert(result@[j] == old_result[j + 1]);
                        }
                    }
                }
                let priority = if (existing.1).0 < (entry.1).0 {
                    (entry.1).0
                } else {
                    (existing.1).0
                };
                let when = if (existing.1).1 == TalkProcessWhen::Always || (entry.1).1 == TalkProcessWhen::Always {
                    TalkProcessWhen::Always
                } else {
                    TalkProcessWhen::Unreceived
                };
                proof {
                    lemma_remove_in_order(old_result, k as int);
                    assert forall|j: int| 0 <= j < result@.len() implies merged_entry(#[trigger] result@[j], before) by {
                        if j < k {
                            assert(result@[j] == old_result[j]);
                        } else {
                            assert(result@[j] == old_result[j + 1]);
                        }
                    }
                    assert forall|reference: TalkReference| #[trigger] has_reference(result@, reference) == (has_reference(old_result, reference) && reference != entry.0) by {
                        if has_reference(result@, reference) {
                            let j = choose|j: int| 0 <= j < result@.len() && (#[trigger] result@[j]).0 == reference;
                            if j < k {
                                assert(result@[j] == old_result[j]);
                            } else {
                                assert(result@[j] == old_result[j + 1]);
                            }
                        }
                        if has_reference(old_result, reference) && reference != entry.0 {
                            let j = choose|j: int| 0 <= j < old_result.len() && (#[trigger] old_result[j]).0 == reference;
                            if j < k {
                                assert(result@[j] == old_result[j]);
                            } else {
                                assert(j != k);
                                assert(result@[j - 1] == old_result[j]);
                            }
                        }
                    }
                }
                (entry.0, TalkPriority(priority, when))
            },
            None => {
                proof {
                    lemma_absent_reference(old_result, entry.0);
                    assert(!has_reference(before, entry.0));
                    lemma_absent_reference(before, entry.0);
                }
                entry
            },
        };
        let ghost middle = result@;
        proof {
            assert(!has_reference(middle, merged.0));
            assert(merged_entry(merged, after));
            assert forall|j: int| 0 <= j < middle.len() implies merged_entry(#[trigger] middle[j], after) by {
                assert(merged_entry(middle[j], before));
                assert(middle[j].0 != entry.0);
            }
        }
        let p = insert_position(&result, &merged);
        result.insert(p, merged);
        proof {
            lemma_insert_in_order(middle, p as int, merged);
            middle.insert_ensures(p as int, merged);
            assert forall|j: int| 0 <= j < result@.len() implies merged_entry(#[trigger] result@[j], after) by {
                if j < p {
                    assert(result@[j] == middle[j]);
                } else if j > p {
                    assert(result@[j] == middle[j - 1]);
                }
            }
            assert forall|reference: TalkReference| #[trigger] has_reference(result@, reference) == has_reference(after, reference) by {
                if has_reference(result@, reference) {
                    let j = choose|j: int| 0 <= j < result@.len() && (#[trigger] result@[j]).0 == reference;
                    if j < p {
                        assert(result@[j] == middle[j]);
                    } else if j > p {
                        assert(result@[j] == middle[j - 1]);
                    }
                }
                if has_reference(middle, reference) {
                    let j = choose|j: int| 0 <= j < middle.len() && (#[trigger] middle[j]).0 == reference;
                    if j < p {
                        assert(result@[j] == middle[j]);
                    } else {
                        assert(result@[j + 1] == middle[j]);
                    }
                }
                if reference == merged.0 {
                    assert(result@[p as int] == merged);
                }
            }
        }
        i = i + 1;
    }
    assert(targets@.take(targets@.len() as int) =~= targets@);
    result
}

/// No reference is handed more than one receiver entry by `prioritise_targets`: an object
/// receives an inverted message once, even where it was registered for it in several ways
pub proof fn law_prioritised_receivers_are_unique(result: Seq<TalkInvertedTarget>, list: Seq<TalkInvertedTarget>)
    requires
        prioritised(result, list),
    ensures
        forall|a: int, b: int| 0 <= a < result.len() && 0 <= b < result.len() && a != b ==> (#[trigger] result[a]).0 != (#[trigger] result[b]).0,
{
    lemma_prioritised_distinct(result, list);
}

/// In a prioritised list, receivers registered with a higher priority come later, and so are
/// sent the message sooner
pub proof fn law_higher_priorities_are_sent_first(result: Seq<TalkInvertedTarget>, list: Seq<TalkInvertedTarget>, a: int, b: int)
    requires
        prioritised(result, list),
        0 <= a < result.len(),
        0 <= b < result.len(),
        best_priority(list, result[a].0) < best_priority(list, result[b].0),
    ensures
        a < b,
{
    assert(merged_entry(result[a], list));
    assert(merged_entry(result[b], list));
    if b < a {
        assert(precedes(result[b], result[a]));
    }
}

impl TalkInvertedClassAllocator {
    /// The receivers of an inverted message sent by `sender`, made ready for sending (see
    /// `targets_for` and `prioritise_targets`). `None` if no class responds to the message.
    pub fn inverted_targets(
        &self,
        message: TalkMessageSignatureId,
        sender: TalkReference,
        local: Option<&HashMap<usize, Vec<TalkInvertedTarget>>>,
    ) -> (result: Option<Vec<TalkInvertedTarget>>)
        ensures
            match self.targets_for(message, sender, match local {
                Some(local) => Some(receivers_view(local@)),
                None => None,
            }) {
                Some(targets) => result matches Some(sorted) && prioritised(sorted@, targets),
                None => result is None,
            },
    {
        match self.collect_targets(message, sender, local) {
            Some(targets) => Some(prioritise_targets(targets)),
            None => None,
        }
    }
}

/// What a receiver of an inverted message replied
pub enum TalkInvertedReply<V> {
    /// `Inverted unhandled`: the message is left in the 'unreceived' state
    Unhandled,
    /// `Inverted handled: value`: the receiver sets the answer of the inverted message
    Handled(V),
    /// Any other reply: the message counts as received
    Other,
}

/// The answer of an inverted message after a reply: the first `handled:` value stays the answer
pub open spec fn answer_after<V>(answer: Option<V>, reply: TalkInvertedReply<V>) -> Option<V> {
    match answer {
        Some(value) => Some(value),
        None => match reply {
            TalkInvertedReply::Handled(value) => Some(value),
            _ => None,
        },
    }
}

/// The answer of an inverted message after a sequence of replies, in order
pub open spec fn answer_after_replies<V>(answer: Option<V>, replies: Seq<TalkInvertedReply<V>>) -> Option<V>
    decreases replies.len(),
{
    if replies.len() == 0 {
        answer
    } else {
        answer_after_replies(answer_after(answer, replies[0]), replies.drop_first())
    }
}

/// The value of the first `handled:` reply among a sequence of replies
pub open spec fn first_handled<V>(replies: Seq<TalkInvertedReply<V>>) -> Option<V>
    decreases replies.len(),
{
    if replies.len() == 0 {
        None
    } else {
        match replies[0] {
            TalkInvertedReply::Handled(value) => Some(value),
            _ => first_handled(replies.drop_first()),
        }
    }
}

proof fn lemma_answer_stays<V>(value: V, replies: Seq<TalkInvertedReply<V>>)
    ensures
        answer_after_replies(Some(value), replies) == Some(value),
    decreases replies.len(),
{
    if replies.len() > 0 {
        lemma_answer_stays(value, replies.drop_first());
    }
}

/// The answer of an inverted message is the value of the first receiver (in the order they were
/// sent the message) to reply `Inverted handled: value`, and nil (`None`) when no receiver does
pub proof fn law_first_handled_reply_is_the_answer<V>(replies: Seq<TalkInvertedReply<V>>)
    ensures
        answer_after_replies(None, replies) == first_handled(replies),
    decreases replies.len(),
{
    if replies.len() > 0 {
        match replies[0] {
            TalkInvertedReply::Handled(value) => {
                lemma_answer_stays(value, replies.drop_first());
            },
            _ => {
                law_first_handled_reply_is_the_answer(replies.drop_first());
            },
        }
    }
}

///
/// Sends an inverted message to its receivers one at a time: the receiver with the highest
/// priority first. A receiver that only receives unreceived messages is skipped once an
/// earlier receiver has handled the message. The answer of the inverted message is the value of
/// the first `Inverted handled:` reply, or nil when there is none.
///
pub struct TalkInvertedDelivery<V> {
    /// The receivers still to call, in ascending order of priority
    targets: Vec<TalkInvertedTarget>,
    /// Whether a receiver has handled the message already
    message_is_received: bool,
    /// The value of the first `handled:` reply so far
    answer: Option<V>,
}

impl<V> TalkInvertedDelivery<V> {
    /// The receivers that have not been called yet, in ascending order of priority
    pub closed spec fn remaining(self) -> Seq<TalkInvertedTarget> {
        self.targets@
    }

    /// Whether a receiver has handled the message already
    pub closed spec fn received(self) -> bool {
        self.message_is_received
    }

    /// The answer of the inverted message so far (`None` for nil)
    pub closed spec fn answer(self) -> Option<V> {
        self.answer
    }

    /// Starts a delivery to a prioritised list of receivers
    pub fn new(targets: Vec<TalkInvertedTarget>) -> (result: TalkInvertedDelivery<V>)
        ensures
            result.remaining() == targets@,
            !result.received(),
            result.answer() is None,
    {
        TalkInvertedDelivery { targets, message_is_received: false, answer: None }
    }

    /// Whether a receiver has handled the message already
    pub fn is_received(&self) -> (result: bool)
        ensures
            result == self.received(),
    {
        self.message_is_received
    }

    /// Takes the next receiver to call (the last one in the list), with whether it is sent the
    /// message: it is, unless it only receives unreceived messages and the message has been
    /// handled. `None` once every receiver has been called.
    pub fn next_target(&mut self) -> (result: Option<(TalkReference, bool)>)
        ensures
            old(self).remaining().len() == 0 ==> {
                &&& result is None
                &&& final(self).remaining() == old(self).remaining()
            },
            old(self).remaining().len() > 0 ==> {
                &&& final(self).remaining() == old(self).remaining().drop_last()
                &&& result == Some((
                    old(self).remaining().last().0,
                    !(old(self).remaining().last().1.1 == TalkProcessWhen::Unreceived && old(self).received()),
                ))
            },
            final(self).received() == old(self).received(),
            final(self).answer() == old(self).answer(),
    {
        match self.targets.pop() {
            Some(target) => {
                let skip = (target.1).1 == TalkProcessWhen::Unreceived && self.message_is_received;
                Some((target.0, !skip))
            },
            None => None,
        }
    }

    /// Records the reply of a receiver that was sent the message: the message counts as
    /// received from then on unless the receiver replied `Inverted unhandled`, and the first
    /// `handled:` value becomes the answer
    pub fn record_reply(&mut self, reply: TalkInvertedReply<V>)
        ensures
            final(self).received() == (old(self).received() || !(reply is Unhandled)),
            final(self).answer() == answer_after(old(self).answer(), reply),
            final(self).remaining() == old(self).remaining(),
    {
        let unhandled = match reply {
            TalkInvertedReply::Unhandled => true,
            _ => false,
        };
        self.message_is_received = self.message_is_received || !unhandled;
        if self.answer.is_none() {
            if let TalkInvertedReply::Handled(value) = reply {
                self.answer = Some(value);
            }
        }
    }

    /// Whether every receiver has been called
    pub fn is_finished(&self) -> (result: bool)
        ensures
            result == (self.remaining().len() == 0),
    {
        self.targets.len() == 0
    }

    /// Ends the delivery with the answer of the inverted message: the value of the first
    /// `handled:` reply, or `None` (nil) when no receiver handled it or there were no receivers.
    /// The message is no longer needed after this.
    pub fn finish(self) -> (result: Option<V>)
        ensures
            result == self.answer(),
    {
        self.answer
    }
}

impl TalkInvertedClassAllocator {
    /// Starts sending an inverted message from `sender`: an error when no class responds to
    /// the message, otherwise a delivery to its receivers made ready for sending (see
    /// `targets_for` and `prioritise_targets`). With no receivers the delivery is finished at
    /// once and its answer is nil.
    pub fn send_inverted_message<V>(
        &self,
        message: TalkMessageSignatureId,
        sender: TalkReference,
        local: Option<&HashMap<usize, Vec<TalkInvertedTarget>>>,
    ) -> (result: Result<TalkInvertedDelivery<V>, TalkError>)
        ensures
            match self.targets_for(message, sender, match local {
                Some(local) => Some(receivers_view(local@)),
                None => None,
            }) {
                Some(targets) => result matches Ok(delivery) && {
                    &&& prioritised(delivery.remaining(), targets)
                    &&& !delivery.received()
                    &&& delivery.answer() is None
                },
                None => result == Err::<TalkInvertedDelivery<V>, TalkError>(TalkError::MessageNotSupported(message)),
            },
    {
        match self.inverted_targets(message, sender, local) {
            Some(targets) => Ok(TalkInvertedDelivery::new(targets)),
            None => Err(TalkError::MessageNotSupported(message)),
        }
    }
}

proof fn lemma_all_targets_append(
    first: Seq<TalkInvertedTarget>,
    second: Seq<TalkInvertedTarget>,
    property: spec_fn(TalkInvertedTarget) -> bool,
)
    requires
        all_targets(first, property),
        all_targets(second, property),
    ensures
        all_targets(first + second, property),
{
    assert forall|k: int| 0 <= k < (first + second).len() implies property(#[trigger] (first + second)[k]) by {
        if k < first.len() {
            assert((first + second)[k] == first[k]);
        } else {
            assert((first + second)[k] == second[k - first.len()]);
        }
    }
}

proof fn lemma_targets_of_classes_keep(
    list: Seq<TalkInvertedTarget>,
    classes: Seq<TalkClass>,
    property: spec_fn(TalkInvertedTarget) -> bool,
)
    requires
        all_targets(list, property),
    ensures
        all_targets(targets_of_classes(list, classes), property),
    decreases list.len(),
{
    if list.len() > 0 {
        assert(all_targets(list.drop_last(), property)) by {
            assert forall|k: int| 0 <= k < list.drop_last().len() implies property(#[trigger] list.drop_last()[k]) by {
                assert(list.drop_last()[k] == list[k]);
            }
        }
        assert(property(list[list.len() - 1]));
        lemma_targets_of_classes_keep(list.drop_last(), classes, property);
    }
}

proof fn lemma_all_source_targets_keep(
    classes: Seq<TalkClass>,
    all: Seq<Seq<TalkInvertedTarget>>,
    property: spec_fn(TalkInvertedTarget) -> bool,
)
    requires
        forall|c: int| 0 <= c < all.len() ==> all_targets(#[trigger] all[c], property),
    ensures
        all_targets(all_source_targets(classes, all), property),
    decreases classes.len(),
{
    if classes.len() > 0 {
        lemma_all_source_targets_keep(classes.drop_last(), all, property);
        let class_id = classes.last().0 as int;
        let segment = if class_id < all.len() { all[class_id] } else { Seq::<TalkInvertedTarget>::empty() };
        lemma_all_targets_append(all_source_targets(classes.drop_last(), all), segment, property);
    }
}

proof fn lemma_local_targets_keep(
    classes: Seq<TalkClass>,
    local: Map<usize, Seq<TalkInvertedTarget>>,
    property: spec_fn(TalkInvertedTarget) -> bool,
)
    requires
        forall|c: usize| #[trigger] local.contains_key(c) ==> all_targets(local[c], property),
    ensures
        all_targets(local_targets(classes, local), property),
    decreases classes.len(),
{
    if classes.len() > 0 {
        lemma_local_targets_keep(classes.drop_last(), local, property);
        let segment = if local.contains_key(classes.last().0) { local[classes.last().0] } else { Seq::<TalkInvertedTarget>::empty() };
        lemma_all_targets_append(local_targets(classes.drop_last(), local), segment, property);
    }
}

/// The receivers for all sources of each responding class are among the targets
proof fn lemma_all_source_targets_include(
    classes: Seq<TalkClass>,
    all: Seq<Seq<TalkInvertedTarget>>,
    class: TalkClass,
    k: int,
)
    requires
        classes.contains(class),
        (class.0 as int) < all.len(),
        0 <= k < all[class.0 as int].len(),
    ensures
        exists|j: int| 0 <= j < all_source_targets(classes, all).len() && #[trigger] all_source_targets(classes, all)[j] == all[class.0 as int][k],
    decreases classes.len(),
{
    let rest = all_source_targets(classes.drop_last(), all);
    if classes.last() == class {
        let segment = all[class.0 as int];
        assert(all_source_targets(classes, all) == rest + segment);
        assert(all_source_targets(classes, all)[rest.len() + k] == segment[k]);
    } else {
        let i = choose|i: int| 0 <= i < classes.len() && classes[i] == class;
        assert(i != classes.len() - 1);
        assert(classes.drop_last()[i] == class);
        lemma_all_source_targets_include(classes.drop_last(), all, class, k);
        let j = choose|j: int| 0 <= j < rest.len() && #[trigger] rest[j] == all[class.0 as int][k];
        let class_id = classes.last().0 as int;
        let segment = if class_id < all.len() { all[class_id] } else { Seq::<TalkInvertedTarget>::empty() };
        assert(all_source_targets(classes, all) == rest + segment);
        assert(all_source_targets(classes, all)[j] == rest[j]);
    }
}

/// A reference with an entry of priority `priority` has a best priority of at least that
proof fn lemma_best_priority_at_least(list: Seq<TalkInvertedTarget>, k: int)
    requires
        0 <= k < list.len(),
    ensures
        best_priority(list, list[k].0) >= list[k].1.0,
    decreases list.len(),
{
    if k < list.len() - 1 {
        assert(list.drop_last()[k] == list[k]);
        lemma_best_priority_at_least(list.drop_last(), k);
    }
}

/// A reference whose entries all have priorities below `limit` has a best priority below it
proof fn lemma_best_priority_below(list: Seq<TalkInvertedTarget>, reference: TalkReference, limit: nat)
    requires
        has_reference(list, reference),
        forall|k: int| 0 <= k < list.len() && (#[trigger] list[k]).0 == reference ==> list[k].1.0 < limit,
    ensures
        best_priority(list, reference) < limit,
    decreases list.len(),
{
    let rest = list.drop_last();
    assert(list[list.len() - 1] == list.last());
    assert forall|k: int| 0 <= k < rest.len() && (#[trigger] rest[k]).0 == reference implies rest[k].1.0 < limit by {
        assert(rest[k] == list[k]);
    }
    if has_reference(rest, reference) {
        lemma_best_priority_below(rest, reference, limit);
    } else {
        lemma_absent_reference(rest, reference);
        let k = choose|k: int| 0 <= k < list.len() && (#[trigger] list[k]).0 == reference;
        if k < list.len() - 1 {
            assert(rest[k] == list[k]);
        }
    }
}

/// When every receiver but one new entry has a priority below that entry's, the new entry's
/// reference comes last in a prioritised list of them, so is sent the message first
proof fn lemma_newest_comes_last(
    sorted: Seq<TalkInvertedTarget>,
    targets: Seq<TalkInvertedTarget>,
    newest: TalkInvertedTarget,
    j: int,
)
    requires
        prioritised(sorted, targets),
        0 <= j < targets.len(),
        targets[j] == newest,
        all_targets(targets, |entry: TalkInvertedTarget| entry.1.0 < newest.1.0 || entry == newest),
    ensures
        sorted.len() > 0,
        sorted.last().0 == newest.0,
{
    let property = |entry: TalkInvertedTarget| entry.1.0 < newest.1.0 || entry == newest;
    assert(has_reference(targets, newest.0));
    assert(has_reference(sorted, newest.0));
    let i = choose|i: int| 0 <= i < sorted.len() && (#[trigger] sorted[i]).0 == newest.0;
    assert(merged_entry(sorted[i], targets));
    lemma_best_priority_at_least(targets, j);
    lemma_prioritised_distinct(sorted, targets);
    let last = sorted.len() - 1;
    if i != last {
        let other = sorted[last];
        assert(other.0 != newest.0);
        assert(merged_entry(other, targets));
        assert(has_reference(sorted, other.0));
        assert(has_reference(targets, other.0));
        assert forall|k: int| 0 <= k < targets.len() && (#[trigger] targets[k]).0 == other.0 implies targets[k].1.0 < newest.1.0 by {
            assert(property(targets[k]));
        }
        lemma_best_priority_below(targets, other.0, newest.1.0 as nat);
        assert(precedes(sorted[i], sorted[last]));
    }
}

/// Whether every receiver in a local context holds a priority below `limit`
pub open spec fn local_priorities_below(local: Option<Map<usize, Seq<TalkInvertedTarget>>>, limit: nat) -> bool {
    match local {
        Some(local) => forall|c: usize, k: int|
            local.contains_key(c) && 0 <= k < local[c].len() ==> (#[trigger] local[c][k]).1.0 < limit,
        None => true,
    }
}

/// The receiver that most recently called `receiveFrom: all` is sent an inverted message
/// before any other receiver (of a class that responds to the message)
pub proof fn law_latest_receiver_for_all_is_sent_first(
    before: TalkInvertedClassAllocator,
    after: TalkInvertedClassAllocator,
    target: TalkReference,
    when: TalkProcessWhen,
    message: TalkMessageSignatureId,
    sender: TalkReference,
    local: Option<Map<usize, Seq<TalkInvertedTarget>>>,
    sorted: Seq<TalkInvertedTarget>,
)
    requires
        before.priorities_issued(),
        after.all_receivers() == with_all_receiver(
            before.all_receivers(),
            (target, TalkPriority(before.priority() as usize, when)),
        ),
        after.specific_receivers() == before.specific_receivers(),
        after.classes().contains_key(message.0),
        after.classes()[message.0].contains(target.0),
        local_priorities_below(local, before.priority()),
        prioritised(sorted, after.targets_for(message, sender, local).unwrap()),
    ensures
        sorted.len() > 0,
        sorted.last().0 == target,
{
    before.lemma_priority_fits();
    let limit = before.priority();
    let newest = (target, TalkPriority(limit as usize, when));
    let property = |entry: TalkInvertedTarget| entry.1.0 < newest.1.0 || entry == newest;
    let classes = after.classes()[message.0];
    let all = after.all_receivers();
    let old_all = before.all_receivers();
    let class_id = target.0.0 as int;
    let grown = if class_id < old_all.len() {
        old_all
    } else {
        old_all + Seq::new((class_id + 1 - old_all.len()) as nat, |i: int| Seq::<TalkInvertedTarget>::empty())
    };
    assert(all == grown.update(class_id, grown[class_id].push(newest)));
    assert forall|c: int| 0 <= c < all.len() implies all_targets(#[trigger] all[c], property) by {
        assert forall|k: int| 0 <= k < all[c].len() implies property(#[trigger] all[c][k]) by {
            if c < old_all.len() && k < old_all[c].len() {
                assert(grown[c] == old_all[c]);
                assert(old_all[c][k] == before.all_receivers()[c][k]);
                if c == class_id {
                    assert(all[c][k] == old_all[c][k]);
                } else {
                    assert(all[c] == old_all[c]);
                }
            } else if c == class_id {
                assert(all[c] == grown[c].push(newest));
                assert(k == grown[c].len());
            } else {
                assert(all[c] == grown[c]);
                assert(grown[c].len() == 0);
            }
        }
    }
    lemma_all_source_targets_keep(classes, all, property);

    let specific = after.specific_receivers();
    let sender_class = sender.0.0 as int;
    let from_sender = if sender_class < specific.len() && specific[sender_class].contains_key(sender.1.0) {
        targets_of_classes(specific[sender_class][sender.1.0], classes)
    } else {
        Seq::empty()
    };
    if sender_class < specific.len() && specific[sender_class].contains_key(sender.1.0) {
        let list = specific[sender_class][sender.1.0];
        assert forall|k: int| 0 <= k < list.len() implies property(#[trigger] list[k]) by {
            assert(before.specific_receivers()[sender_class][sender.1.0][k].1.0 < limit);
        }
        lemma_targets_of_classes_keep(list, classes, property);
    }
    let from_local = match local {
        Some(local) => local_targets(classes, local),
        None => Seq::empty(),
    };
    match local {
        Some(local) => {
            assert forall|c: usize| #[trigger] local.contains_key(c) implies all_targets(local[c], property) by {
                assert forall|k: int| 0 <= k < local[c].len() implies property(#[trigger] local[c][k]) by {
                    assert(local[c][k].1.0 < limit);
                }
            }
            lemma_local_targets_keep(classes, local, property);
        },
        None => {},
    }
    let from_all = all_source_targets(classes, all);
    lemma_all_targets_append(from_all, from_sender, property);
    lemma_all_targets_append(from_all + from_sender, from_local, property);
    let targets = after.targets_for(message, sender, local).unwrap();
    assert(targets == from_all + from_sender + from_local);

    assert(all[class_id][all[class_id].len() - 1] == newest);
    lemma_all_source_targets_include(classes, all, target.0, all[class_id].len() - 1);
    let j = choose|j: int| 0 <= j < from_all.len() && #[trigger] from_all[j] == all[class_id][all[class_id].len() - 1];
    assert(targets[j] == from_all[j]);
    lemma_newest_comes_last(sorted, targets, newest, j);
}

/// The receiver that most recently called `receiveFrom:` on a sender is sent the inverted
/// messages of that sender before any other receiver (of a class that responds to the message)
pub proof fn law_latest_receiver_for_sender_is_sent_first(
    before: TalkInvertedClassAllocator,
    after: TalkInvertedClassAllocator,
    target: TalkReference,
    when: TalkProcessWhen,
    message: TalkMessageSignatureId,
    sender: TalkReference,
    local: Option<Map<usize, Seq<TalkInvertedTarget>>>,
    sorted: Seq<TalkInvertedTarget>,
)
    requires
        before.priorities_issued(),
        after.specific_receivers() == with_specific_receiver(
            before.specific_receivers(),
            sender,
            (target, TalkPriority(before.priority() as usize, when)),
        ),
        after.all_receivers() == before.all_receivers(),
        after.classes().contains_key(message.0),
        after.classes()[message.0].contains(target.0),
        local_priorities_below(local, before.priority()),
        prioritised(sorted, after.targets_for(message, sender, local).unwrap()),
    ensures
        sorted.len() > 0,
        sorted.last().0 == target,
{
    before.lemma_priority_fits();
    let limit = before.priority();
    let newest = (target, TalkPriority(limit as usize, when));
    let property = |entry: TalkInvertedTarget| entry.1.0 < newest.1.0 || entry == newest;
    let classes = after.classes()[message.0];
    let all = after.all_receivers();
    assert forall|c: int| 0 <= c < all.len() implies all_targets(#[trigger] all[c], property) by {
        assert forall|k: int| 0 <= k < all[c].len() implies property(#[trigger] all[c][k]) by {
            assert(before.all_receivers()[c][k].1.0 < limit);
        }
    }
    lemma_all_source_targets_keep(classes, all, property);
    let from_all = all_source_targets(classes, all);

    let old_specific = before.specific_receivers();
    let specific = after.specific_receivers();
    let sender_class = sender.0.0 as int;
    let handle = sender.1.0;
    let grown = if sender_class < old_specific.len() {
        old_specific
    } else {
        old_specific + Seq::new((sender_class + 1 - old_specific.len()) as nat, |i: int| Map::<usize, Seq<TalkInvertedTarget>>::empty())
    };
    let receivers = grown[sender_class];
    let list = if receivers.contains_key(handle) { receivers[handle].push(newest) } else { seq![newest] };
    assert(specific == grown.update(sender_class, receivers.insert(handle, list)));
    assert(specific[sender_class][handle] == list);
    assert(list.last() == newest);
    assert forall|k: int| 0 <= k < list.len() implies property(#[trigger] list[k]) by {
        if k < list.len() - 1 {
            assert(receivers.contains_key(handle));
            assert(list[k] == receivers[handle][k]);
            if sender_class < old_specific.len() {
                assert(receivers == old_specific[sender_class]);
                assert(old_specific[sender_class][handle][k].1.0 < limit);
            } else {
                assert(receivers =~= Map::<usize, Seq<TalkInvertedTarget>>::empty());
            }
        }
    }
    lemma_targets_of_classes_keep(list, classes, property);
    let from_sender = targets_of_classes(list, classes);
    assert(classes.contains(list.last().0.0));
    assert(from_sender == targets_of_classes(list.drop_last(), classes).push(newest));

    let from_local = match local {
        Some(local) => local_targets(classes, local),
        None => Seq::empty(),
    };
    match local {
        Some(local) => {
            assert forall|c: usize| #[trigger] local.contains_key(c) implies all_targets(local[c], property) by {
                assert forall|k: int| 0 <= k < local[c].len() implies property(#[trigger] local[c][k]) by {
                    assert(local[c][k].1.0 < limit);
                }
            }
            lemma_local_targets_keep(classes, local, property);
        },
        None => {},
    }
    lemma_all_targets_append(from_all, from_sender, property);
    lemma_all_targets_append(from_all + from_sender, from_local, property);
    let targets = after.targets_for(message, sender, local).unwrap();
    assert(targets == from_all + from_sender + from_local);
    let j = from_all.len() + from_sender.len() - 1;
    assert(targets[j] == from_sender[from_sender.len() - 1]);
    lemma_newest_comes_last(sorted, targets, newest, j);
}

} // verus!
