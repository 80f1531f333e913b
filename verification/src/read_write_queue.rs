use vstd::prelude::*;

use std::collections::VecDeque;

verus! {

/// The abstract form of a lock that is held or waiting: the tickets that share a read lock
/// (each with the waker to notify when the lock is granted, if one was registered), or the
/// single ticket of a write lock with its waker
pub enum LockView<W> {
    Read(Seq<(usize, Option<W>)>),
    Write(usize, Option<W>),
}

/// The wakers that have been registered in a list of read tickets, in order
pub open spec fn registered_wakers<W>(entries: Seq<(usize, Option<W>)>) -> Seq<W>
    decreases entries.len(),
{
    if entries.len() == 0 {
        Seq::empty()
    } else {
        registered_wakers(entries.drop_last()) + match entries.last().1 {
            Some(waker) => seq![waker],
            None => Seq::empty(),
        }
    }
}

/// The tickets of a list of read tickets, in order
pub open spec fn entry_tickets<W>(entries: Seq<(usize, Option<W>)>) -> Seq<usize> {
    Seq::new(entries.len(), |i: int| entries[i].0)
}

impl<W> LockView<W> {
    /// The tickets that this lock is for
    pub open spec fn tickets(self) -> Seq<usize> {
        match self {
            LockView::Read(entries) => entry_tickets(entries),
            LockView::Write(ticket, _) => seq![ticket],
        }
    }

    /// The wakers registered with this lock
    pub open spec fn wakers(self) -> Seq<W> {
        match self {
            LockView::Read(entries) => registered_wakers(entries),
            LockView::Write(_, waker) => match waker {
                Some(waker) => seq![waker],
                None => Seq::empty(),
            },
        }
    }

    /// This lock with all of its wakers taken out
    pub open spec fn without_wakers(self) -> LockView<W> {
        match self {
            LockView::Read(entries) => LockView::Read(
                Seq::new(entries.len(), |i: int| (entries[i].0, None::<W>)),
            ),
            LockView::Write(ticket, _) => LockView::Write(ticket, None),
        }
    }

    /// This lock with the waker for `ticket` replaced by `waker`
    pub open spec fn with_waker(self, ticket: usize, waker: W) -> LockView<W> {
        match self {
            LockView::Read(entries) => LockView::Read(
                Seq::new(
                    entries.len(),
                    |i: int|
                        if entries[i].0 == ticket {
                            (ticket, Some(waker))
                        } else {
                            entries[i]
                        },
                ),
            ),
            LockView::Write(our_ticket, old_waker) => if our_ticket == ticket {
                LockView::Write(ticket, Some(waker))
            } else {
                LockView::Write(our_ticket, old_waker)
            },
        }
    }
}

/// Every ticket in a sequence of locks, in the order the locks come
pub open spec fn all_tickets<W>(locks: Seq<LockView<W>>) -> Seq<usize>
    decreases locks.len(),
{
    if locks.len() == 0 {
        Seq::empty()
    } else {
        all_tickets(locks.drop_last()) + locks.last().tickets()
    }
}

/// The abstract state of a read/write queue: the held lock (first) followed by the waiting
/// locks in the order they were requested (empty when no lock is held), and the next ticket
pub struct LockQueueState<W> {
    pub locks: Seq<LockView<W>>,
    pub next_ticket: nat,
}

/// A read request made against a queue
pub open spec fn read_request<W>(ticket: usize) -> LockView<W> {
    LockView::Read(seq![(ticket, None::<W>)])
}

impl<W> LockQueueState<W> {
    /// True if a lock is currently held
    pub open spec fn is_locked(self) -> bool {
        self.locks.len() > 0
    }

    /// True if the ticket is one of the holders of the current lock
    pub open spec fn holds(self, ticket: usize) -> bool {
        self.locks.len() > 0 && self.locks[0].tickets().contains(ticket)
    }

    /// True if the ticket is held or waiting
    pub open spec fn has_ticket(self, ticket: usize) -> bool {
        all_tickets(self.locks).contains(ticket)
    }

    /// Read locks always have at least one ticket, two read locks never follow one another
    /// (readers that can share a lock are grouped together), and every ticket is distinct and
    /// was issued by this queue
    pub open spec fn wf(self) -> bool {
        &&& forall|i: int|
            #![trigger self.locks[i]]
            0 <= i < self.locks.len() && self.locks[i] is Read ==> self.locks[i]->Read_0.len() > 0
        &&& forall|i: int, j: int|
            #![trigger self.locks[i], self.locks[j]]
            0 <= i && j == i + 1 && j < self.locks.len() && self.locks[i] is Read
                ==> self.locks[j] is Write
        &&& all_tickets(self.locks).no_duplicates()
        &&& forall|k: int|
            0 <= k < all_tickets(self.locks).len() ==> #[trigger] all_tickets(self.locks)[k]
                < self.next_ticket
    }

    /// The state with the ticket counter moved on
    pub open spec fn with_locks(self, locks: Seq<LockView<W>>) -> LockQueueState<W> {
        LockQueueState { locks: locks, next_ticket: self.next_ticket + 1 }
    }

    /// Trying to read without waiting: granted when nothing is locked, or when the lock is held
    /// only by readers and nothing is waiting
    pub open spec fn try_read(self) -> (LockQueueState<W>, Option<usize>) {
        let ticket = self.next_ticket as usize;
        if self.locks.len() == 0 {
            (self.with_locks(seq![read_request(ticket)]), Some(ticket))
        } else if self.locks.len() == 1 && self.locks[0] is Read {
            (
                self.with_locks(
                    seq![LockView::Read(self.locks[0]->Read_0.push((ticket, None)))],
                ),
                Some(ticket),
            )
        } else {
            (self.with_locks(self.locks), None)
        }
    }

    /// Trying to write without waiting: granted only when nothing is locked
    pub open spec fn try_write(self) -> (LockQueueState<W>, Option<usize>) {
        let ticket = self.next_ticket as usize;
        if self.locks.len() == 0 {
            (self.with_locks(seq![LockView::Write(ticket, None)]), Some(ticket))
        } else {
            (self.with_locks(self.locks), None)
        }
    }

    /// Requesting a read lock: granted at once when `try_read` would be, otherwise queued
    /// behind every earlier request (sharing the last waiting lock if that is a read lock)
    pub open spec fn read(self) -> (LockQueueState<W>, usize, bool) {
        let ticket = self.next_ticket as usize;
        if self.try_read().1 is Some {
            (self.try_read().0, ticket, true)
        } else if self.locks.len() > 1 && self.locks.last() is Read {
            (
                self.with_locks(
                    self.locks.update(
                        self.locks.len() - 1,
                        LockView::Read(self.locks.last()->Read_0.push((ticket, None))),
                    ),
                ),
                ticket,
                false,
            )
        } else {
            (self.with_locks(self.locks.push(read_request(ticket))), ticket, false)
        }
    }

    /// Requesting a write lock: granted at once when nothing is locked, otherwise queued behind
    /// every earlier request
    pub open spec fn write(self) -> (LockQueueState<W>, usize, bool) {
        let ticket = self.next_ticket as usize;
        if self.locks.len() == 0 {
            (self.with_locks(seq![LockView::Write(ticket, None)]), ticket, true)
        } else {
            (self.with_locks(self.locks.push(LockView::Write(ticket, None))), ticket, false)
        }
    }

    /// Polling a waiting ticket: ready if it now holds the lock, otherwise the waker is stored
    /// with the ticket so that it is notified when the lock is granted
    pub open spec fn poll(self, ticket: usize, waker: W) -> (LockQueueState<W>, bool) {
        if self.holds(ticket) {
            (self, true)
        } else {
            (
                LockQueueState {
                    locks: Seq::new(
                        self.locks.len(),
                        |i: int|
                            if i == 0 {
                                self.locks[0]
                            } else {
                                self.locks[i].with_waker(ticket, waker)
                            },
                    ),
                    next_ticket: self.next_ticket,
                },
                false,
            )
        }
    }

    /// The locks once the held lock has finished: the next waiting lock is granted (and its
    /// wakers handed back to be notified), or the queue becomes unlocked
    pub open spec fn advance(self) -> (LockQueueState<W>, Seq<W>) {
        let rest = self.locks.drop_first();
        if rest.len() == 0 {
            (LockQueueState { locks: Seq::empty(), next_ticket: self.next_ticket }, Seq::empty())
        } else {
            (
                LockQueueState {
                    locks: rest.update(0, rest[0].without_wakers()),
                    next_ticket: self.next_ticket,
                },
                rest[0].wakers(),
            )
        }
    }

    /// Releasing a held ticket: the ticket leaves the held lock, and once no ticket holds it the
    /// lock passes to the next waiting lock
    pub open spec fn release(self, ticket: usize) -> (LockQueueState<W>, Seq<W>) {
        match self.locks[0] {
            LockView::Write(_, _) => self.advance(),
            LockView::Read(entries) => {
                let pos = entry_tickets(entries).index_of(ticket);
                let remaining = entries.remove(pos);
                if remaining.len() == 0 {
                    self.advance()
                } else {
                    (
                        LockQueueState {
                            locks: self.locks.update(0, LockView::Read(remaining)),
                            next_ticket: self.next_ticket,
                        },
                        Seq::empty(),
                    )
                }
            },
        }
    }
}


/// The tickets of a concatenation of lock sequences are the concatenated tickets
pub proof fn lemma_all_tickets_concat<W>(first: Seq<LockView<W>>, second: Seq<LockView<W>>)
    ensures
        all_tickets(first + second) == all_tickets(first) + all_tickets(second),
    decreases second.len(),
{
    if second.len() == 0 {
        assert(first + second =~= first);
        assert(all_tickets(second) =~= Seq::<usize>::empty());
        assert(all_tickets(first) + all_tickets(second) =~= all_tickets(first));
    } else {
        lemma_all_tickets_concat(first, second.drop_last());
        assert((first + second).drop_last() =~= first + second.drop_last());
        assert((first + second).last() == second.last());
        assert(all_tickets(first + second) =~= all_tickets(first) + all_tickets(second));
    }
}

/// The tickets of a sequence of locks are the tickets of the first lock followed by the tickets
/// of the rest
pub proof fn lemma_all_tickets_first<W>(locks: Seq<LockView<W>>)
    requires
        locks.len() > 0,
    ensures
        all_tickets(locks) == locks[0].tickets() + all_tickets(locks.drop_first()),
{
    let head = seq![locks[0]];
    lemma_all_tickets_concat(head, locks.drop_first());
    assert(head + locks.drop_first() =~= locks);
    assert(head.drop_last() =~= Seq::<LockView<W>>::empty());
    assert(all_tickets(head.drop_last()) =~= Seq::<usize>::empty());
    assert(head.last() == locks[0]);
    assert(all_tickets(head) =~= locks[0].tickets());
}

/// Adding a lock at the end adds its tickets at the end
pub proof fn lemma_all_tickets_push<W>(locks: Seq<LockView<W>>, lock: LockView<W>)
    ensures
        all_tickets(locks.push(lock)) == all_tickets(locks) + lock.tickets(),
{
    assert(locks.push(lock).drop_last() =~= locks);
}

/// Replacing the first lock by one with the same tickets keeps the same tickets
pub proof fn lemma_all_tickets_replace_first<W>(locks: Seq<LockView<W>>, lock: LockView<W>)
    requires
        locks.len() > 0,
    ensures
        all_tickets(locks.update(0, lock)) == lock.tickets() + all_tickets(locks.drop_first()),
{
    lemma_all_tickets_first(locks.update(0, lock));
    assert(locks.update(0, lock).drop_first() =~= locks.drop_first());
}

/// Replacing the last lock changes only the last lock's tickets
pub proof fn lemma_all_tickets_replace_last<W>(locks: Seq<LockView<W>>, lock: LockView<W>)
    requires
        locks.len() > 0,
    ensures
        all_tickets(locks.update(locks.len() - 1, lock)) == all_tickets(locks.drop_last())
            + lock.tickets(),
{
    assert(locks.update(locks.len() - 1, lock).drop_last() =~= locks.drop_last());
}

/// Taking out or setting wakers does not change a lock's tickets
pub proof fn lemma_waker_changes_keep_tickets<W>(lock: LockView<W>, ticket: usize, waker: W)
    ensures
        lock.without_wakers().tickets() == lock.tickets(),
        lock.with_waker(ticket, waker).tickets() == lock.tickets(),
        lock.without_wakers() is Read <==> lock is Read,
        lock.with_waker(ticket, waker) is Read <==> lock is Read,
        lock is Read ==> lock.without_wakers()->Read_0.len() == lock->Read_0.len(),
        lock is Read ==> lock.with_waker(ticket, waker)->Read_0.len() == lock->Read_0.len(),
{
    assert(lock.without_wakers().tickets() =~= lock.tickets());
    assert(lock.with_waker(ticket, waker).tickets() =~= lock.tickets());
}

/// A ticket that is not in a lock is unaffected by setting its waker
pub proof fn lemma_with_waker_absent<W>(lock: LockView<W>, ticket: usize, waker: W)
    requires
        !lock.tickets().contains(ticket),
    ensures
        lock.with_waker(ticket, waker) == lock,
{
    match lock {
        LockView::Read(entries) => {
            assert forall|i: int| 0 <= i < entries.len() implies entries[i].0 != ticket by {
                assert(lock.tickets()[i] == entries[i].0);
            }
            assert(lock.with_waker(ticket, waker)->Read_0 =~= entries);
        },
        LockView::Write(t, w) => {
            assert(lock.tickets()[0] == t);
        },
    }
}

/// Appending `count` tickets to a duplicate-free list of tickets issued before `next` keeps
/// it duplicate-free when the new ticket is `next`
pub proof fn lemma_fresh_ticket(tickets: Seq<usize>, next: nat)
    requires
        tickets.no_duplicates(),
        forall|k: int| 0 <= k < tickets.len() ==> #[trigger] tickets[k] < next,
        next < usize::MAX,
    ensures
        tickets.push(next as usize).no_duplicates(),
        forall|k: int|
            0 <= k < tickets.push(next as usize).len() ==> #[trigger] tickets.push(next as usize)[k]
                < next + 1,
{
    let pushed = tickets.push(next as usize);
    assert forall|i: int, j: int|
        0 <= i < pushed.len() && 0 <= j < pushed.len() && i != j implies #[trigger] pushed[i]
            != #[trigger] pushed[j] by {
        if i < tickets.len() && j < tickets.len() {
        } else if i < tickets.len() {
            assert(tickets[i] < next);
        } else {
            assert(tickets[j] < next);
        }
    }
}


/// Removing an element from a duplicate-free sequence keeps it duplicate-free and keeps only
/// elements that were there
pub proof fn lemma_remove_keeps_distinct(tickets: Seq<usize>, pos: int)
    requires
        tickets.no_duplicates(),
        0 <= pos < tickets.len(),
    ensures
        tickets.remove(pos).no_duplicates(),
        forall|k: int|
            0 <= k < tickets.remove(pos).len() ==> #[trigger] tickets.remove(pos)[k] == if k < pos {
                tickets[k]
            } else {
                tickets[k + 1]
            },
{
    let removed = tickets.remove(pos);
    assert forall|i: int, j: int|
        0 <= i < removed.len() && 0 <= j < removed.len() && i != j implies #[trigger] removed[i]
            != #[trigger] removed[j] by {
        let oi = if i < pos { i } else { i + 1 };
        let oj = if j < pos { j } else { j + 1 };
        assert(removed[i] == tickets[oi]);
        assert(removed[j] == tickets[oj]);
    }
}

/// Every request is queued behind all the earlier ones: the new ticket goes at the end of the
/// order in which tickets are granted, and it is granted at once exactly when it holds the lock
/// afterwards. A write is granted at once only when nothing is locked; a read only when nothing
/// is locked or only readers hold the lock and nothing waits. The queue stays consistent.
pub proof fn law_requests_are_queued_in_order<W>(state: LockQueueState<W>)
    requires
        state.wf(),
        state.next_ticket < usize::MAX,
    ensures
        state.read().0.wf(),
        state.write().0.wf(),
        state.read().1 == state.next_ticket,
        state.write().1 == state.next_ticket,
        all_tickets(state.read().0.locks) == all_tickets(state.locks).push(state.read().1),
        all_tickets(state.write().0.locks) == all_tickets(state.locks).push(state.write().1),
        state.read().2 == state.read().0.holds(state.read().1),
        state.write().2 == state.write().0.holds(state.write().1),
        state.write().2 == !state.is_locked(),
        state.read().2 == (!state.is_locked() || (state.locks.len() == 1 && state.locks[0] is Read)),
        state.try_read().1 is Some ==> state.try_read() == (state.read().0, Some(state.read().1)),
        state.try_read().1 is None ==> state.try_read().0.locks == state.locks && !state.read().2,
        state.try_write().1 is Some ==> state.try_write() == (state.write().0, Some(state.write().1)),
        state.try_write().1 is None ==> state.try_write().0.locks == state.locks && state.is_locked(),
{
    let ticket = state.next_ticket as usize;
    let old_tickets = all_tickets(state.locks);
    lemma_fresh_ticket(old_tickets, state.next_ticket);
    let new_read = read_request::<W>(ticket);
    assert(new_read.tickets() =~= seq![ticket]);
    assert(LockView::<W>::Write(ticket, None).tickets() =~= seq![ticket]);

    // write
    if state.locks.len() == 0 {
        lemma_all_tickets_push(state.locks, LockView::<W>::Write(ticket, None));
        assert(state.locks.push(LockView::<W>::Write(ticket, None)) =~= seq![LockView::<W>::Write(ticket, None)]);
        assert(all_tickets(state.locks) =~= Seq::<usize>::empty());
    } else {
        lemma_all_tickets_push(state.locks, LockView::<W>::Write(ticket, None));
        let after = state.locks.push(LockView::<W>::Write(ticket, None));
        assert(after[0] == state.locks[0]);
        if state.locks[0].tickets().contains(ticket) {
            lemma_all_tickets_first(state.locks);
            let k = choose|k: int| 0 <= k < state.locks[0].tickets().len() && state.locks[0].tickets()[k] == ticket;
            assert(old_tickets[k] == ticket);
        }
    }

    // read
    if state.locks.len() == 0 {
        lemma_all_tickets_push(state.locks, new_read);
        assert(state.locks.push(new_read) =~= seq![new_read]);
        assert(all_tickets(state.locks) =~= Seq::<usize>::empty());
        assert(state.read().0.locks[0].tickets().contains(ticket)) by {
            assert(state.read().0.locks[0].tickets()[0] == ticket);
        }
    } else if state.locks.len() == 1 && state.locks[0] is Read {
        let entries = state.locks[0]->Read_0;
        let grown = LockView::<W>::Read(entries.push((ticket, None)));
        assert(grown.tickets() =~= state.locks[0].tickets().push(ticket));
        lemma_all_tickets_first(state.locks);
        assert(state.locks.drop_first() =~= Seq::<LockView<W>>::empty());
        assert(all_tickets(state.locks.drop_first()) =~= Seq::<usize>::empty());
        let after = seq![grown];
        lemma_all_tickets_first(after);
        assert(after.drop_first() =~= Seq::<LockView<W>>::empty());
        assert(all_tickets(after) =~= all_tickets(state.locks).push(ticket));
        assert(grown.tickets()[entries.len() as int] == ticket);
    } else if state.locks.len() > 1 && state.locks.last() is Read {
        let last = state.locks.last();
        let entries = last->Read_0;
        let grown = LockView::<W>::Read(entries.push((ticket, None)));
        assert(grown.tickets() =~= last.tickets().push(ticket));
        lemma_all_tickets_replace_last(state.locks, grown);
        assert(state.locks.drop_last().push(last) =~= state.locks);
        lemma_all_tickets_push(state.locks.drop_last(), last);
        let after = state.locks.update(state.locks.len() - 1, grown);
        assert(all_tickets(after) =~= all_tickets(state.locks).push(ticket));
        assert(after[0] == state.locks[0]);
        if state.locks[0].tickets().contains(ticket) {
            lemma_all_tickets_first(state.locks);
            let k = choose|k: int| 0 <= k < state.locks[0].tickets().len() && state.locks[0].tickets()[k] == ticket;
            assert(old_tickets[k] == ticket);
        }
        assert forall|i: int, j: int|
            0 <= i && j == i + 1 && j < after.len() && #[trigger] after[i] is Read implies #[trigger] after[j] is Write by {
            if j == after.len() - 1 {
                assert(state.locks[i] is Read);
                assert(state.locks[j] is Read);
            } else {
                assert(state.locks[i] == after[i]);
                assert(state.locks[j] == after[j]);
            }
        }
    } else {
        lemma_all_tickets_push(state.locks, new_read);
        let after = state.locks.push(new_read);
        assert(after[0] == state.locks[0]);
        if state.locks[0].tickets().contains(ticket) {
            lemma_all_tickets_first(state.locks);
            let k = choose|k: int| 0 <= k < state.locks[0].tickets().len() && state.locks[0].tickets()[k] == ticket;
            assert(old_tickets[k] == ticket);
        }
        assert forall|i: int, j: int|
            0 <= i && j == i + 1 && j < after.len() && #[trigger] after[i] is Read implies #[trigger] after[j] is Write by {
            if j == after.len() - 1 {
                assert(after[i] == state.locks.last());
            } else {
                assert(state.locks[i] == after[i]);
                assert(state.locks[j] == after[j]);
            }
        }
    }
}


/// In a duplicate-free sequence, the index of an element is the position where it was found
pub proof fn lemma_index_of_unique(tickets: Seq<usize>, pos: int)
    requires
        tickets.no_duplicates(),
        0 <= pos < tickets.len(),
    ensures
        tickets.index_of(tickets[pos]) == pos,
{
    let found = tickets.index_of(tickets[pos]);
    assert(tickets.contains(tickets[pos]));
}

/// The tickets of a list of read entries after removing one entry
pub proof fn lemma_entry_tickets_remove<W>(entries: Seq<(usize, Option<W>)>, pos: int)
    requires
        0 <= pos < entries.len(),
    ensures
        entry_tickets(entries.remove(pos)) == entry_tickets(entries).remove(pos),
{
    assert(entry_tickets(entries.remove(pos)) =~= entry_tickets(entries).remove(pos));
}

/// Advancing past a held lock drops exactly its tickets from the front of the order
proof fn lemma_advance_tickets<W>(state: LockQueueState<W>)
    requires
        state.wf(),
        state.locks.len() > 0,
    ensures
        all_tickets(state.advance().0.locks) == all_tickets(state.locks.drop_first()),
        state.advance().0.wf(),
{
    let rest = state.locks.drop_first();
    lemma_all_tickets_first(state.locks);
    let tickets = all_tickets(state.locks);
    let first_len = state.locks[0].tickets().len() as int;
    assert(all_tickets(rest) =~= tickets.subrange(first_len, tickets.len() as int));
    assert forall|k: int| 0 <= k < all_tickets(rest).len() implies #[trigger] all_tickets(rest)[k]
        < state.next_ticket by {
        assert(all_tickets(rest)[k] == tickets[k + first_len]);
    }
    if rest.len() > 0 {
        let after = rest.update(0, rest[0].without_wakers());
        lemma_waker_changes_keep_tickets(rest[0], 0, arbitrary());
        lemma_all_tickets_replace_first(rest, rest[0].without_wakers());
        lemma_all_tickets_first(rest);
        assert forall|i: int| 0 <= i < after.len() && #[trigger] after[i] is Read implies after[i]->Read_0.len() > 0 by {
            assert(state.locks[i + 1] is Read);
        }
        assert forall|i: int, j: int|
            0 <= i && j == i + 1 && j < after.len() && #[trigger] after[i] is Read implies #[trigger] after[j] is Write by {
            assert(state.locks[i + 1] is Read);
            assert(state.locks[j + 1] == after[j]);
        }
    } else {
        assert(all_tickets(rest) =~= Seq::<usize>::empty());
        assert(all_tickets(Seq::<LockView<W>>::empty()) =~= Seq::<usize>::empty());
    }
}

/// Releasing a held ticket removes exactly that ticket from the order in which tickets are
/// granted and keeps the queue consistent. When the last holder of a lock releases it, the next
/// waiting lock is granted and exactly the wakers registered with it are handed back to be
/// notified (with no waiting lock the queue becomes unlocked); while other readers still hold
/// the lock nothing is woken.
pub proof fn law_release_passes_lock_on<W>(state: LockQueueState<W>, ticket: usize)
    requires
        state.wf(),
        state.holds(ticket),
    ensures
        state.release(ticket).0.wf(),
        all_tickets(state.release(ticket).0.locks) == all_tickets(state.locks).remove(
            all_tickets(state.locks).index_of(ticket),
        ),
        !state.release(ticket).0.has_ticket(ticket),
        state.release(ticket).0.next_ticket == state.next_ticket,
        state.locks[0].tickets() == seq![ticket] ==> state.release(ticket) == state.advance(),
        state.locks[0].tickets() != seq![ticket] ==> state.release(ticket).1 == Seq::<W>::empty()
            && state.release(ticket).0.locks.drop_first() == state.locks.drop_first(),
        state.advance().0.locks.len() == state.locks.len() - 1,
        state.locks.len() > 1 ==> state.advance().1 == state.locks[1].wakers()
            && state.advance().0.locks[0] == state.locks[1].without_wakers(),
        state.locks.len() == 1 ==> !state.advance().0.is_locked(),
{
    let tickets = all_tickets(state.locks);
    lemma_all_tickets_first(state.locks);
    let first = state.locks[0].tickets();
    let p = choose|p: int| 0 <= p < first.len() && first[p] == ticket;
    assert(tickets[p] == ticket);
    lemma_index_of_unique(tickets, p);
    assert(tickets.index_of(ticket) == p);
    lemma_advance_tickets(state);
    lemma_remove_keeps_distinct(tickets, p);
    let rest_tickets = all_tickets(state.locks.drop_first());
    match state.locks[0] {
        LockView::Write(t, w) => {
            assert(first =~= seq![t]);
            assert(p == 0);
            assert(tickets.remove(0) =~= rest_tickets);
        },
        LockView::Read(entries) => {
            let et = entry_tickets(entries);
            assert(first == et);
            assert forall|i: int, j: int| 0 <= i < et.len() && 0 <= j < et.len() && i != j implies #[trigger] et[i] != #[trigger] et[j] by {
                assert(tickets[i] == et[i]);
                assert(tickets[j] == et[j]);
            }
            lemma_index_of_unique(et, p);
            let remaining = entries.remove(p);
            lemma_entry_tickets_remove(entries, p);
            if remaining.len() == 0 {
                assert(et.len() == 1);
                assert(first =~= seq![ticket]);
                assert(tickets.remove(0) =~= rest_tickets);
            } else {
                let after = state.locks.update(0, LockView::Read(remaining));
                lemma_all_tickets_replace_first(state.locks, LockView::Read(remaining));
                assert(all_tickets(after) =~= tickets.remove(p));
                assert(first != seq![ticket]);
                assert(after.drop_first() =~= state.locks.drop_first());
                assert forall|k: int| 0 <= k < all_tickets(after).len() implies #[trigger] all_tickets(after)[k]
                    < state.next_ticket by {
                    if k < p {
                        assert(all_tickets(after)[k] == tickets[k]);
                    } else {
                        assert(all_tickets(after)[k] == tickets[k + 1]);
                    }
                }
                assert forall|i: int| 0 <= i < after.len() && #[trigger] after[i] is Read implies after[i]->Read_0.len() > 0 by {
                    if i > 0 {
                        assert(after[i] == state.locks[i]);
                    }
                }
                assert forall|i: int, j: int|
                    0 <= i && j == i + 1 && j < after.len() && #[trigger] after[i] is Read implies #[trigger] after[j] is Write by {
                    assert(state.locks[i] is Read);
                    assert(after[j] == state.locks[j]);
                }
            }
        },
    }
    let after_tickets = all_tickets(state.release(ticket).0.locks);
    assert(after_tickets == tickets.remove(p));
    if after_tickets.contains(ticket) {
        let k = choose|k: int| 0 <= k < after_tickets.len() && after_tickets[k] == ticket;
        if k < p {
            assert(tickets[k] == ticket);
        } else {
            assert(tickets[k + 1] == ticket);
        }
    }
}


/// Where the tickets of the lock at `i` start in the order of all tickets
pub open spec fn ticket_offset<W>(locks: Seq<LockView<W>>, i: int) -> nat {
    all_tickets(locks.take(i)).len()
}

/// The tickets of each lock appear in the order of all tickets at that lock's offset, and later
/// locks start after earlier ones end
pub proof fn lemma_ticket_positions<W>(locks: Seq<LockView<W>>, i: int)
    requires
        0 <= i < locks.len(),
    ensures
        ticket_offset(locks, i) + locks[i].tickets().len() <= all_tickets(locks).len(),
        forall|k: int|
            0 <= k < locks[i].tickets().len() ==> all_tickets(locks)[ticket_offset(locks, i) + k]
                == #[trigger] locks[i].tickets()[k],
        forall|j: int|
            i < j < locks.len() ==> ticket_offset(locks, i) + locks[i].tickets().len()
                <= #[trigger] ticket_offset(locks, j),
{
    let before = locks.take(i);
    let after = locks.skip(i);
    lemma_all_tickets_concat(before, after);
    assert(before + after =~= locks);
    lemma_all_tickets_first(after);
    assert(after[0] == locks[i]);
    assert forall|j: int| i < j < locks.len() implies ticket_offset(locks, i) + locks[i].tickets().len()
        <= #[trigger] ticket_offset(locks, j) by {
        let upto = locks.take(j);
        lemma_all_tickets_concat(upto.take(i), upto.skip(i));
        assert(upto.take(i) + upto.skip(i) =~= upto);
        assert(upto.take(i) =~= before);
        lemma_all_tickets_first(upto.skip(i));
        assert(upto.skip(i)[0] == locks[i]);
    }
}

/// A ticket belongs to at most one lock of a consistent queue
pub proof fn lemma_ticket_in_one_lock<W>(locks: Seq<LockView<W>>, i: int, j: int, ticket: usize)
    requires
        all_tickets(locks).no_duplicates(),
        0 <= i < locks.len(),
        0 <= j < locks.len(),
        locks[i].tickets().contains(ticket),
        locks[j].tickets().contains(ticket),
    ensures
        i == j,
{
    if i != j {
        let (a, b) = if i < j { (i, j) } else { (j, i) };
        lemma_ticket_positions(locks, a);
        lemma_ticket_positions(locks, b);
        let ka = choose|k: int| 0 <= k < locks[a].tickets().len() && locks[a].tickets()[k] == ticket;
        let kb = choose|k: int| 0 <= k < locks[b].tickets().len() && locks[b].tickets()[k] == ticket;
        let all = all_tickets(locks);
        assert(all[ticket_offset(locks, a) + ka] == ticket);
        assert(all[ticket_offset(locks, b) + kb] == ticket);
    }
}

/// The lock that is held or waiting in a queue
pub enum WaitingLock<W> {
    /// A number of tickets waiting for (or holding) a read lock in parallel
    ReadLock(Vec<(usize, Option<W>)>),
    /// A ticket waiting for (or holding) an exclusive write lock
    WriteLock(usize, Option<W>),
}

impl<W> View for WaitingLock<W> {
    type V = LockView<W>;

    open spec fn view(&self) -> LockView<W> {
        match self {
            WaitingLock::ReadLock(entries) => LockView::Read(entries@),
            WaitingLock::WriteLock(ticket, waker) => LockView::Write(*ticket, *waker),
        }
    }
}

impl<W> WaitingLock<W> {
    /// Removes and returns the wakers for this lock
    fn take_wakers(self) -> (result: (WaitingLock<W>, Vec<W>))
        ensures
            result.0@ == self@.without_wakers(),
            result.1@ == self@.wakers(),
    {
        match self {
            WaitingLock::ReadLock(entries) => {
                let ghost initial_entries = entries@;
                let mut remaining = entries;
                let mut cleared: Vec<(usize, Option<W>)> = Vec::new();
                let mut wakers: Vec<W> = Vec::new();
                let mut i: usize = 0;
                let n = remaining.len();
                while i < n
                    invariant
                        n == initial_entries.len(),
                        i <= n,
                        remaining@ == initial_entries.subrange(i as int, n as int),
                        cleared@ == Seq::new(i as nat, |k: int| (initial_entries[k].0, None::<W>)),
                        wakers@ == registered_wakers(initial_entries.take(i as int)),
                    decreases n - i,
                {
                    let (ticket, waker) = remaining.remove(0);
                    assert(initial_entries[i as int] == (ticket, waker));
                    cleared.push((ticket, None));
                    assert(initial_entries.take(i + 1).drop_last() =~= initial_entries.take(i as int));
                    assert(initial_entries.take(i + 1).last() == initial_entries[i as int]);
                    match waker {
                        Some(waker) => {
                            wakers.push(waker);
                        },
                        None => {},
                    }
                    assert(wakers@ =~= registered_wakers(initial_entries.take(i + 1)));
                    assert(cleared@ =~= Seq::new((i + 1) as nat, |k: int| (initial_entries[k].0, None::<W>)));
                    assert(remaining@ =~= initial_entries.subrange(i + 1, n as int));
                    i = i + 1;
                }
                assert(initial_entries.take(n as int) =~= initial_entries);
                (WaitingLock::ReadLock(cleared), wakers)
            },
            WaitingLock::WriteLock(ticket, waker) => {
                let mut wakers: Vec<W> = Vec::new();
                match waker {
                    Some(waker) => {
                        wakers.push(waker);
                    },
                    None => {},
                }
                assert(wakers@ =~= self@.wakers());
                (WaitingLock::WriteLock(ticket, None), wakers)
            },
        }
    }

    /// True if this lock is for the specified ticket
    fn is_for_ticket(&self, ticket: usize) -> (result: bool)
        ensures
            result == self@.tickets().contains(ticket),
    {
        match self {
            WaitingLock::ReadLock(entries) => {
                let mut i: usize = 0;
                while i < entries.len()
                    invariant
                        self@ == LockView::Read(entries@),
                        i <= entries@.len(),
                        forall|k: int| 0 <= k < i ==> entries@[k].0 != ticket,
                    decreases entries@.len() - i,
                {
                    if entries[i].0 == ticket {
                        assert(self@.tickets()[i as int] == ticket);
                        return true;
                    }
                    i = i + 1;
                }
                assert forall|k: int| 0 <= k < self@.tickets().len() implies #[trigger] self@.tickets()[k] != ticket by {
                    assert(self@.tickets()[k] == entries@[k].0);
                }
                false
            },
            WaitingLock::WriteLock(our_ticket, _) => {
                assert(self@.tickets()[0] == *our_ticket);
                *our_ticket == ticket
            },
        }
    }

    /// Sets the waker for the specified ticket (the tickets of a lock are all distinct)
    fn wake_in_context(self, ticket: usize, waker: W) -> (result: WaitingLock<W>)
        requires
            self@.tickets().no_duplicates(),
        ensures
            result@ == self@.with_waker(ticket, waker),
    {
        match self {
            WaitingLock::ReadLock(entries) => {
                let ghost initial_entries = entries@;
                let mut entries = entries;
                let mut i: usize = 0;
                while i < entries.len()
                    invariant
                        entries@ == initial_entries,
                        self@ == LockView::Read(initial_entries),
                        self@.tickets().no_duplicates(),
                        i <= entries@.len(),
                        forall|k: int| 0 <= k < i ==> initial_entries[k].0 != ticket,
                    decreases entries@.len() - i,
                {
                    if entries[i].0 == ticket {
                        entries.set(i, (ticket, Some(waker)));
                        proof {
                            let tickets = entry_tickets(initial_entries);
                            assert(tickets == self@.tickets());
                            assert forall|k: int| 0 <= k < initial_entries.len() && k != i implies initial_entries[k].0 != ticket by {
                                assert(tickets[k] == initial_entries[k].0);
                                assert(tickets[i as int] == ticket);
                            }
                            assert(entries@ =~= self@.with_waker(ticket, waker)->Read_0);
                        }
                        return WaitingLock::ReadLock(entries);
                    }
                    i = i + 1;
                }
                assert(entries@ =~= self@.with_waker(ticket, waker)->Read_0);
                WaitingLock::ReadLock(entries)
            },
            WaitingLock::WriteLock(our_ticket, old_waker) => {
                if our_ticket == ticket {
                    WaitingLock::WriteLock(ticket, Some(waker))
                } else {
                    WaitingLock::WriteLock(our_ticket, old_waker)
                }
            },
        }
    }
}


/// The lock that is currently held and the locks that are waiting to be taken
struct Locks<W> {
    /// The lock that is currently held
    held: WaitingLock<W>,
    /// The locks that are waiting to be taken, in the order they were requested
    waiting: VecDeque<WaitingLock<W>>,
}

///
/// Decides which requests against a read-write queue hold its lock: access is granted in the
/// order that it is requested, several readers may hold the lock together and a writer holds
/// it alone. Each request is identified by a ticket, and wakers of type `W` registered for
/// waiting tickets are handed back when their lock is granted.
///
pub struct ReadWriteLocks<W> {
    /// The held and waiting locks (`None` when nothing is locked)
    locks: Option<Box<Locks<W>>>,
    /// The ticket to issue to the next request
    next_ticket: usize,
}

/// The abstract form of the held lock followed by the waiting locks
pub open spec fn lock_sequence<W>(held: WaitingLock<W>, waiting: Seq<WaitingLock<W>>) -> Seq<
    LockView<W>,
> {
    seq![held@] + Seq::new(waiting.len(), |i: int| waiting[i]@)
}

impl<W> View for ReadWriteLocks<W> {
    type V = LockQueueState<W>;

    closed spec fn view(&self) -> LockQueueState<W> {
        LockQueueState {
            locks: match self.locks {
                Some(locks) => lock_sequence(locks.held, locks.waiting@),
                None => Seq::empty(),
            },
            next_ticket: self.next_ticket as nat,
        }
    }
}

/// A single read request
fn read_lock<W>(ticket: usize) -> (result: WaitingLock<W>)
    ensures
        result@ == read_request::<W>(ticket),
{
    let mut entries: Vec<(usize, Option<W>)> = Vec::new();
    entries.push((ticket, None));
    assert(entries@ =~= seq![(ticket, None::<W>)]);
    WaitingLock::ReadLock(entries)
}

/// Two sequences of locks whose locks have the same tickets have the same tickets overall
pub proof fn lemma_all_tickets_pointwise<W>(first: Seq<LockView<W>>, second: Seq<LockView<W>>)
    requires
        first.len() == second.len(),
        forall|i: int| 0 <= i < first.len() ==> #[trigger] first[i].tickets() == second[i].tickets(),
    ensures
        all_tickets(first) == all_tickets(second),
    decreases first.len(),
{
    if first.len() > 0 {
        lemma_all_tickets_pointwise(first.drop_last(), second.drop_last());
        assert(first.last().tickets() == second[second.len() - 1].tickets());
    }
}

/// The tickets within one lock of a consistent queue are distinct
pub proof fn lemma_lock_tickets_distinct<W>(locks: Seq<LockView<W>>, i: int)
    requires
        all_tickets(locks).no_duplicates(),
        0 <= i < locks.len(),
    ensures
        locks[i].tickets().no_duplicates(),
{
    lemma_ticket_positions(locks, i);
    let tickets = locks[i].tickets();
    let offset = ticket_offset(locks, i);
    assert forall|a: int, b: int| 0 <= a < tickets.len() && 0 <= b < tickets.len() && a != b implies #[trigger] tickets[a] != #[trigger] tickets[b] by {
        assert(all_tickets(locks)[offset + a] == tickets[a]);
        assert(all_tickets(locks)[offset + b] == tickets[b]);
    }
}

/// Polling keeps the queue consistent and its tickets in the same order; a waker registered
/// for a waiting ticket is stored with that ticket, so it is among the wakers handed back when
/// the ticket's lock is granted
pub proof fn law_poll_registers_waker<W>(state: LockQueueState<W>, ticket: usize, waker: W)
    requires
        state.wf(),
        state.is_locked(),
    ensures
        state.poll(ticket, waker).0.wf(),
        all_tickets(state.poll(ticket, waker).0.locks) == all_tickets(state.locks),
        state.poll(ticket, waker).1 == state.holds(ticket),
        state.holds(ticket) ==> state.poll(ticket, waker).0 == state,
        forall|i: int|
            0 < i < state.locks.len() && #[trigger] state.locks[i].tickets().contains(ticket)
                && !state.holds(ticket) ==> state.poll(ticket, waker).0.locks[i].wakers().contains(
                waker,
            ),
{
    let after = state.poll(ticket, waker).0;
    if !state.holds(ticket) {
        assert forall|i: int| 0 <= i < state.locks.len() implies #[trigger] after.locks[i].tickets() == state.locks[i].tickets() by {
            lemma_waker_changes_keep_tickets(state.locks[i], ticket, waker);
        }
        lemma_all_tickets_pointwise(after.locks, state.locks);
        assert forall|i: int| 0 <= i < after.locks.len() && #[trigger] after.locks[i] is Read implies after.locks[i]->Read_0.len() > 0 by {
            lemma_waker_changes_keep_tickets(state.locks[i], ticket, waker);
        }
        assert forall|i: int, j: int|
            0 <= i && j == i + 1 && j < after.locks.len() && #[trigger] after.locks[i] is Read implies #[trigger] after.locks[j] is Write by {
            lemma_waker_changes_keep_tickets(state.locks[i], ticket, waker);
            lemma_waker_changes_keep_tickets(state.locks[j], ticket, waker);
        }
        assert forall|i: int|
            0 < i < state.locks.len() && #[trigger] state.locks[i].tickets().contains(ticket)
                implies after.locks[i].wakers().contains(waker) by {
            lemma_with_waker_registers(state.locks[i], ticket, waker);
        }
    }
}

/// Setting the waker of a ticket in a lock that has the ticket registers the waker
pub proof fn lemma_with_waker_registers<W>(lock: LockView<W>, ticket: usize, waker: W)
    requires
        lock.tickets().contains(ticket),
    ensures
        lock.with_waker(ticket, waker).wakers().contains(waker),
{
    match lock {
        LockView::Read(entries) => {
            let k = choose|k: int| 0 <= k < lock.tickets().len() && lock.tickets()[k] == ticket;
            let updated = lock.with_waker(ticket, waker)->Read_0;
            assert(updated[k] == (ticket, Some(waker)));
            lemma_registered_wakers_contains(updated, k, waker);
        },
        LockView::Write(t, w) => {
            assert(lock.tickets()[0] == t);
            assert(lock.with_waker(ticket, waker).wakers()[0] == waker);
        },
    }
}

/// An entry with a waker contributes that waker to the registered wakers
pub proof fn lemma_registered_wakers_contains<W>(entries: Seq<(usize, Option<W>)>, k: int, waker: W)
    requires
        0 <= k < entries.len(),
        entries[k].1 == Some(waker),
    ensures
        registered_wakers(entries).contains(waker),
    decreases entries.len(),
{
    if k == entries.len() - 1 {
        let rest = registered_wakers(entries.drop_last());
        assert(registered_wakers(entries)[rest.len() as int] == waker);
    } else {
        lemma_registered_wakers_contains(entries.drop_last(), k, waker);
        let found = registered_wakers(entries.drop_last());
        let idx = choose|idx: int| 0 <= idx < found.len() && found[idx] == waker;
        assert(registered_wakers(entries)[idx] == waker);
    }
}

impl<W> ReadWriteLocks<W> {
    /// Creates the locks for a queue that nothing has locked yet
    pub fn new() -> (result: ReadWriteLocks<W>)
        ensures
            result@.wf(),
            result@.locks == Seq::<LockView<W>>::empty(),
            result@.next_ticket == 0,
    {
        let result = ReadWriteLocks { locks: None, next_ticket: 0 };
        assert(all_tickets(result@.locks) =~= Seq::<usize>::empty());
        result
    }

    /// Stores the held and waiting locks
    fn store(&mut self, held: WaitingLock<W>, waiting: VecDeque<WaitingLock<W>>)
        ensures
            final(self)@.locks == lock_sequence(held, waiting@),
            final(self)@.next_ticket == old(self)@.next_ticket,
    {
        self.locks = Some(Box::new(Locks { held: held, waiting: waiting }));
    }

    /// Issues a new ticket
    fn new_ticket(&mut self) -> (result: usize)
        requires
            old(self)@.next_ticket < usize::MAX,
        ensures
            result == old(self)@.next_ticket,
            final(self)@ == old(self)@.with_locks(old(self)@.locks),
    {
        let ticket = self.next_ticket;
        self.next_ticket = self.next_ticket + 1;
        ticket
    }

    /// True if another ticket can be issued (the ticket counter has not reached its limit)
    pub fn can_issue_ticket(&self) -> (result: bool)
        ensures
            result == (self@.next_ticket < usize::MAX),
    {
        self.next_ticket < usize::MAX
    }

    /// True if some request holds the lock
    pub fn is_locked(&self) -> (result: bool)
        ensures
            result == self@.is_locked(),
    {
        self.locks.is_some()
    }

    /// True if the ticket currently holds the lock
    pub fn is_held(&self, ticket: usize) -> (result: bool)
        ensures
            result == self@.holds(ticket),
    {
        match &self.locks {
            Some(locks) => locks.held.is_for_ticket(ticket),
            None => false,
        }
    }

    /// If this is in a state where it can be read from, takes a read lock immediately and
    /// returns its ticket
    pub fn try_read(&mut self) -> (result: Option<usize>)
        requires
            old(self)@.wf(),
            old(self)@.next_ticket < usize::MAX,
        ensures
            final(self)@.wf(),
            (final(self)@, result) == old(self)@.try_read(),
    {
        proof {
            law_requests_are_queued_in_order(old(self)@);
        }
        let ticket = self.new_ticket();
        match self.locks.take() {
            None => {
                self.store(read_lock(ticket), VecDeque::new());
                proof {
                    assert(self@.locks =~= old(self)@.try_read().0.locks);
                }
                Some(ticket)
            },
            Some(boxed) => {
                let Locks { held, waiting } = *boxed;
                if waiting.len() == 0 {
                    match held {
                        WaitingLock::ReadLock(owners) => {
                            let mut owners = owners;
                            owners.push((ticket, None));
                            self.store(WaitingLock::ReadLock(owners), waiting);
                            proof {
                                assert(self@.locks =~= old(self)@.try_read().0.locks);
                            }
                            return Some(ticket);
                        },
                        WaitingLock::WriteLock(held_ticket, waker) => {
                            self.store(WaitingLock::WriteLock(held_ticket, waker), waiting);
                            proof {
                                assert(self@.locks =~= old(self)@.locks);
                            }
                            return None;
                        },
                    }
                }
                self.store(held, waiting);
                proof {
                    assert(self@.locks =~= old(self)@.locks);
                }
                None
            },
        }
    }

    /// If nothing holds the lock, takes a write lock immediately and returns its ticket
    pub fn try_write(&mut self) -> (result: Option<usize>)
        requires
            old(self)@.wf(),
            old(self)@.next_ticket < usize::MAX,
        ensures
            final(self)@.wf(),
            (final(self)@, result) == old(self)@.try_write(),
    {
        proof {
            law_requests_are_queued_in_order(old(self)@);
        }
        let ticket = self.new_ticket();
        if self.locks.is_none() {
            self.store(WaitingLock::WriteLock(ticket, None), VecDeque::new());
            proof {
                assert(self@.locks =~= old(self)@.try_write().0.locks);
            }
            Some(ticket)
        } else {
            None
        }
    }

    /// Requests a read lock: returns the ticket for the request and whether the lock was
    /// granted at once (otherwise the request waits behind every earlier request)
    pub fn read(&mut self) -> (result: (usize, bool))
        requires
            old(self)@.wf(),
            old(self)@.next_ticket < usize::MAX,
        ensures
            final(self)@.wf(),
            (final(self)@, result.0, result.1) == old(self)@.read(),
    {
        proof {
            law_requests_are_queued_in_order(old(self)@);
        }
        let ticket = self.new_ticket();
        match self.locks.take() {
            None => {
                self.store(read_lock(ticket), VecDeque::new());
                proof {
                    assert(self@.locks =~= old(self)@.read().0.locks);
                }
                (ticket, true)
            },
            Some(boxed) => {
                let Locks { held, waiting } = *boxed;
                let mut waiting = waiting;
                let ghost old_waiting = waiting@;
                if waiting.len() == 0 {
                    match held {
                        WaitingLock::ReadLock(owners) => {
                            let mut owners = owners;
                            owners.push((ticket, None));
                            self.store(WaitingLock::ReadLock(owners), waiting);
                            proof {
                                assert(self@.locks =~= old(self)@.read().0.locks);
                            }
                            return (ticket, true);
                        },
                        WaitingLock::WriteLock(held_ticket, waker) => {
                            waiting.push_back(read_lock(ticket));
                            self.store(WaitingLock::WriteLock(held_ticket, waker), waiting);
                            proof {
                                assert(self@.locks =~= old(self)@.read().0.locks);
                            }
                            return (ticket, false);
                        },
                    }
                }
                match waiting.pop_back() {
                    Some(WaitingLock::ReadLock(readers)) => {
                        // Take this read lock alongside an existing set of waiting readers
                        let mut readers = readers;
                        readers.push((ticket, None));
                        waiting.push_back(WaitingLock::ReadLock(readers));
                    },
                    Some(other) => {
                        // Lock after the current set of locks
                        waiting.push_back(other);
                        waiting.push_back(read_lock(ticket));
                    },
                    None => {
                        waiting.push_back(read_lock(ticket));
                    },
                }
                self.store(held, waiting);
                proof {
                    assert(self@.locks =~= old(self)@.read().0.locks);
                }
                (ticket, false)
            },
        }
    }

    /// Requests a write lock: returns the ticket for the request and whether the lock was
    /// granted at once (otherwise the request waits behind every earlier request)
    pub fn write(&mut self) -> (result: (usize, bool))
        requires
            old(self)@.wf(),
            old(self)@.next_ticket < usize::MAX,
        ensures
            final(self)@.wf(),
            (final(self)@, result.0, result.1) == old(self)@.write(),
    {
        proof {
            law_requests_are_queued_in_order(old(self)@);
        }
        let ticket = self.new_ticket();
        match self.locks.take() {
            None => {
                self.store(WaitingLock::WriteLock(ticket, None), VecDeque::new());
                proof {
                    assert(self@.locks =~= old(self)@.write().0.locks);
                }
                (ticket, true)
            },
            Some(boxed) => {
                let Locks { held, waiting } = *boxed;
                let mut waiting = waiting;
                waiting.push_back(WaitingLock::WriteLock(ticket, None));
                self.store(held, waiting);
                proof {
                    assert(self@.locks =~= old(self)@.write().0.locks);
                }
                (ticket, false)
            },
        }
    }
}


/// The position of the waiting lock that a ticket belongs to
fn find_waiting<W>(waiting: &VecDeque<WaitingLock<W>>, ticket: usize) -> (result: Option<usize>)
    ensures
        match result {
            Some(pos) => pos < waiting@.len() && waiting@[pos as int]@.tickets().contains(ticket),
            None => forall|k: int|
                0 <= k < waiting@.len() ==> !(#[trigger] waiting@[k])@.tickets().contains(ticket),
        },
{
    let mut i: usize = 0;
    while i < waiting.len()
        invariant
            i <= waiting@.len(),
            forall|k: int| 0 <= k < i ==> !(#[trigger] waiting@[k])@.tickets().contains(ticket),
        decreases waiting@.len() - i,
    {
        if waiting[i].is_for_ticket(ticket) {
            return Some(i);
        }
        i = i + 1;
    }
    None
}

/// The position of a ticket in a list of read tickets that contains it
fn entry_position<W>(entries: &Vec<(usize, Option<W>)>, ticket: usize) -> (result: usize)
    requires
        entry_tickets(entries@).contains(ticket),
    ensures
        result < entries@.len(),
        entries@[result as int].0 == ticket,
{
    let mut pos: usize = 0;
    while pos < entries.len()
        invariant
            pos <= entries@.len(),
            entry_tickets(entries@).contains(ticket),
            forall|k: int| 0 <= k < pos ==> entries@[k].0 != ticket,
        decreases entries@.len() - pos,
    {
        if entries[pos].0 == ticket {
            return pos;
        }
        pos = pos + 1;
    }
    proof {
        let k = choose|k: int| 0 <= k < entry_tickets(entries@).len() && entry_tickets(entries@)[k] == ticket;
        assert(entries@[k].0 == ticket);
    }
    0
}

impl<W> ReadWriteLocks<W> {
    /// Checks whether a waiting ticket has been granted the lock: returns true if it holds the
    /// lock, otherwise stores the waker to be notified when it is granted
    pub fn poll(&mut self, ticket: usize, waker: W) -> (result: bool)
        requires
            old(self)@.wf(),
            old(self)@.is_locked(),
        ensures
            final(self)@.wf(),
            (final(self)@, result) == old(self)@.poll(ticket, waker),
    {
        proof {
            law_poll_registers_waker(old(self)@, ticket, waker);
        }
        let boxed = self.locks.take().unwrap();
        let Locks { held, waiting } = *boxed;
        let ghost old_locks = lock_sequence(held, waiting@);
        if held.is_for_ticket(ticket) {
            self.store(held, waiting);
            return true;
        }
        let mut waiting = waiting;
        let found = find_waiting(&waiting, ticket);
        proof {
            assert forall|k: int| 0 < k < old_locks.len() implies old_locks[k] == waiting@[k - 1]@ by {}
        }
        match found {
            Some(pos) => {
                proof {
                    assert(old_locks[pos + 1] == waiting@[pos as int]@);
                    lemma_lock_tickets_distinct(old_locks, pos + 1);
                }
                let lock = waiting.remove(pos).unwrap();
                let lock = lock.wake_in_context(ticket, waker);
                waiting.insert(pos, lock);
                self.store(held, waiting);
                proof {
                    let expected = old(self)@.poll(ticket, waker).0.locks;
                    assert forall|k: int| 0 <= k < expected.len() implies #[trigger] self@.locks[k] == expected[k] by {
                        if k != 0 && k != pos + 1 {
                            if old_locks[k].tickets().contains(ticket) {
                                lemma_ticket_in_one_lock(old_locks, k, pos + 1, ticket);
                            }
                            lemma_with_waker_absent(old_locks[k], ticket, waker);
                        }
                    }
                    assert(self@.locks =~= expected);
                }
            },
            None => {
                self.store(held, waiting);
                proof {
                    let expected = old(self)@.poll(ticket, waker).0.locks;
                    assert forall|k: int| 0 <= k < expected.len() implies #[trigger] self@.locks[k] == expected[k] by {
                        if k != 0 {
                            assert(old_locks[k] == waiting@[k - 1]@);
                            lemma_with_waker_absent(old_locks[k], ticket, waker);
                        }
                    }
                    assert(self@.locks =~= expected);
                }
            },
        }
        false
    }

    /// Grants the lock to the next waiting lock (or unlocks the queue if nothing is waiting),
    /// returning the wakers of the newly granted requests
    fn advance(&mut self, waiting: VecDeque<WaitingLock<W>>) -> (result: Vec<W>)
        ensures
            final(self)@.next_ticket == old(self)@.next_ticket,
            waiting@.len() == 0 ==> final(self)@.locks == Seq::<LockView<W>>::empty()
                && result@ == Seq::<W>::empty(),
            waiting@.len() > 0 ==> final(self)@.locks == Seq::new(
                waiting@.len(),
                |i: int| waiting@[i]@,
            ).update(0, waiting@[0]@.without_wakers()) && result@ == waiting@[0]@.wakers(),
    {
        let mut waiting = waiting;
        let ghost old_waiting = waiting@;
        match waiting.pop_front() {
            Some(next) => {
                let (next, wakers) = next.take_wakers();
                self.store(next, waiting);
                proof {
                    assert(self@.locks =~= Seq::new(old_waiting.len(), |i: int| old_waiting[i]@).update(
                        0,
                        old_waiting[0]@.without_wakers(),
                    ));
                }
                wakers
            },
            None => {
                self.locks = None;
                Vec::new()
            },
        }
    }

    /// Releases a ticket that holds the lock; once no ticket holds it, the lock passes to the
    /// next waiting lock. Returns the wakers to notify (those of the newly granted requests).
    pub fn release(&mut self, ticket: usize) -> (result: Vec<W>)
        requires
            old(self)@.wf(),
            old(self)@.holds(ticket),
        ensures
            final(self)@.wf(),
            (final(self)@, result@) == old(self)@.release(ticket),
    {
        proof {
            law_release_passes_lock_on(old(self)@, ticket);
        }
        let boxed = self.locks.take().unwrap();
        let Locks { held, waiting } = *boxed;
        let ghost old_locks = lock_sequence(held, waiting@);
        proof {
            assert(old_locks.drop_first() =~= Seq::new(waiting@.len(), |i: int| waiting@[i]@));
        }
        match held {
            WaitingLock::WriteLock(_, _) => {
                let wakers = self.advance(waiting);
                proof {
                    assert(self@.locks =~= old(self)@.release(ticket).0.locks);
                }
                wakers
            },
            WaitingLock::ReadLock(entries) => {
                let ghost initial_entries = entries@;
                proof {
                    lemma_lock_tickets_distinct(old_locks, 0);
                }
                let mut entries = entries;
                let pos = entry_position(&entries, ticket);
                proof {
                    let tickets = entry_tickets(initial_entries);
                    assert(old_locks[0].tickets() == tickets);
                    assert(tickets[pos as int] == ticket);
                    lemma_index_of_unique(tickets, pos as int);
                }
                entries.remove(pos);
                if entries.len() == 0 {
                    let wakers = self.advance(waiting);
                    proof {
                        assert(self@.locks =~= old(self)@.release(ticket).0.locks);
                    }
                    wakers
                } else {
                    self.store(WaitingLock::ReadLock(entries), waiting);
                    proof {
                        assert(self@.locks =~= old(self)@.release(ticket).0.locks);
                    }
                    Vec::new()
                }
            },
        }
    }
}

/// A write lock is held alone: while a ticket holds a write lock no other ticket holds the lock
/// (neither a reader nor another writer). Every operation keeps the queue consistent, so this
/// holds after any interleaving of requests, polls and releases.
pub proof fn law_writer_holds_alone<W>(state: LockQueueState<W>, writer: usize, other: usize)
    requires
        state.wf(),
        state.locks.len() > 0,
        state.locks[0] is Write,
        state.holds(writer),
        state.holds(other),
    ensures
        writer == other,
{
    assert(state.locks[0].tickets() == seq![state.locks[0]->Write_0]);
}

/// The entries of a lock: each ticket with the waker registered for it
pub open spec fn lock_entries<W>(lock: LockView<W>) -> Seq<(usize, Option<W>)> {
    match lock {
        LockView::Read(entries) => entries,
        LockView::Write(ticket, waker) => seq![(ticket, waker)],
    }
}

/// A waker registered with an entry of a read lock is among the lock's wakers
proof fn lemma_registered_waker_listed<W>(entries: Seq<(usize, Option<W>)>, k: int, waker: W)
    requires
        0 <= k < entries.len(),
        entries[k].1 == Some(waker),
    ensures
        registered_wakers(entries).contains(waker),
    decreases entries.len(),
{
    let rest = entries.drop_last();
    if k < entries.len() - 1 {
        assert(rest[k] == entries[k]);
        lemma_registered_waker_listed(rest, k, waker);
        let j = choose|j: int| 0 <= j < registered_wakers(rest).len() && registered_wakers(rest)[j] == waker;
        let tail = match entries.last().1 {
            Some(w) => seq![w],
            None => Seq::<W>::empty(),
        };
        assert((registered_wakers(rest) + tail)[j] == waker);
    } else {
        let tail = seq![waker];
        assert(entries.last().1 == Some(waker));
        assert((registered_wakers(rest) + tail)[registered_wakers(rest).len() as int] == waker);
    }
}

/// Polling a ticket changes no other ticket's entry: in every lock, each entry whose ticket is not
/// the polled one keeps its waker, so every waker registered for another waiting ticket is still
/// among the wakers handed back when that ticket's lock is granted. A polled waiting ticket gets
/// the new waker.
pub proof fn law_poll_keeps_other_wakers<W>(state: LockQueueState<W>, ticket: usize, waker: W)
    requires
        state.wf(),
    ensures
        state.poll(ticket, waker).0.locks.len() == state.locks.len(),
        forall|i: int| 0 <= i < state.locks.len() ==>
            lock_entries(#[trigger] state.poll(ticket, waker).0.locks[i]).len() == lock_entries(state.locks[i]).len(),
        forall|i: int, k: int|
            0 <= i < state.locks.len() && 0 <= k < lock_entries(state.locks[i]).len()
                && lock_entries(state.locks[i])[k].0 != ticket
                ==> #[trigger] lock_entries(state.poll(ticket, waker).0.locks[i])[k] == lock_entries(state.locks[i])[k],
        forall|i: int, k: int|
            0 < i < state.locks.len() && 0 <= k < lock_entries(state.locks[i]).len() && !state.holds(ticket)
                && lock_entries(state.locks[i])[k].0 == ticket
                ==> #[trigger] lock_entries(state.poll(ticket, waker).0.locks[i])[k] == (ticket, Some(waker)),
        forall|i: int, k: int, other: W|
            0 < i < state.locks.len() && 0 <= k < lock_entries(state.locks[i]).len()
                && lock_entries(state.locks[i])[k].0 != ticket
                && #[trigger] lock_entries(state.locks[i])[k].1 == Some(other)
                ==> #[trigger] state.poll(ticket, waker).0.locks[i].wakers().contains(other),
{
    let after = state.poll(ticket, waker).0;
    assert forall|i: int| 0 <= i < state.locks.len() implies
        lock_entries(#[trigger] after.locks[i]).len() == lock_entries(state.locks[i]).len() by {}
    assert forall|i: int, k: int, other: W|
        0 < i < state.locks.len() && 0 <= k < lock_entries(state.locks[i]).len()
            && lock_entries(state.locks[i])[k].0 != ticket
            && #[trigger] lock_entries(state.locks[i])[k].1 == Some(other)
        implies #[trigger] after.locks[i].wakers().contains(other) by {
        let entries = lock_entries(after.locks[i]);
        assert(entries[k] == lock_entries(state.locks[i])[k]);
        match after.locks[i] {
            LockView::Read(e) => {
                lemma_registered_waker_listed(e, k, other);
            },
            LockView::Write(t, w) => {
                assert(w == Some(other));
                assert(seq![other][0] == other);
            },
        }
    }
}

} // verus!
