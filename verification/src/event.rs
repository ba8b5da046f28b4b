//! The shared state and its two handles: [`Event`], which registers listeners
//! and delivers notification credits, and [`EventListener`], the per-waiter
//! suspend/resume handle bound to one registry entry.

use crate::model::{
    contains_id, count_notified, count_unnotified, delivered, deliver_up_to, id_is_notified,
    ids_ascending, index_of_id, lemma_count_notified_push, lemma_count_unnotified_push,
    lemma_counts_concat, lemma_counts_remove, lemma_counts_split, lemma_counts_update_same_flag,
    lemma_deliver_count, lemma_deliver_exhausted, lemma_deliver_pointwise, lemma_deliver_push,
    lemma_index_of_id, min_nat, notify_additional_budget, notify_budget, release_entries,
    store_waker, EntryModel,
};
use vstd::prelude::*;

verus! {

/// Relies on `core::task::Waker`, the host scheduler's resumption callback;
/// it is carried opaquely in registry entries and only stored, taken and
/// invoked.
#[verifier::external_type_specification]
#[verifier::external_body]
pub struct ExWaker(core::task::Waker);

/// Relies on `core::task::Waker::wake`, which schedules the resumption of the
/// task the waker belongs to; nothing is assumed here about its effect.
pub assume_specification[ core::task::Waker::wake ](waker: core::task::Waker);

/// One registry entry: the listener's id, the latest resumption callback
/// stored while its listener is suspended, and the notified flag.
struct ListenerEntry {
    id: usize,
    waker: Option<core::task::Waker>,
    notified: bool,
}

impl ListenerEntry {
    spec fn model(self) -> EntryModel {
        EntryModel { id: self.id as nat, notified: self.notified, has_waker: self.waker is Some }
    }
}

/// A notification primitive for a single-threaded cooperative scheduler.
///
/// It owns a registry of listener entries in ascending-id (registration)
/// order, the counter handing out ids, and the count of entries currently
/// holding a notification credit. Every operation takes the state by
/// reference, so exactly one logical owner drives it and reentrant use is
/// rejected by the borrow checker.
pub struct Event {
    listeners: Vec<ListenerEntry>,
    next_id: usize,
    notified: usize,
}

impl View for Event {
    type V = Seq<EntryModel>;

    /// The registry entries in registration order.
    closed spec fn view(&self) -> Seq<EntryModel> {
        self.listeners@.map_values(|e: ListenerEntry| e.model())
    }
}

/// A listener registered with one [`Event`], bound to its registry entry by
/// id. Exactly one listener exists per entry: the entry is created by
/// [`Event::listen`] and removed only by [`EventListener::release`].
pub struct EventListener {
    id: usize,
}

impl View for EventListener {
    type V = nat;

    /// The registration id this listener is bound to.
    closed spec fn view(&self) -> nat {
        self.id as nat
    }
}

impl Event {
    /// The id the next registration will receive; ids are never reused.
    pub closed spec fn counter(self) -> nat {
        self.next_id as nat
    }

    /// A well-formed state: entries stand in ascending id order, every id
    /// lies below the allocator's counter, the notified count matches the
    /// number of entries holding a credit, and a notified entry stores no
    /// callback.
    pub closed spec fn wf(self) -> bool {
        &&& ids_ascending(self@)
        &&& forall|i: int| 0 <= i < self@.len() ==> (#[trigger] self@[i]).id < self.counter()
        &&& self.notified == count_notified(self@)
        &&& forall|i: int|
            0 <= i < self@.len() && (#[trigger] self@[i]).notified ==> !self@[i].has_waker
    }

    /// Creates a new `Event` over an empty registry; never fails.
    pub fn new() -> (r: Event)
        ensures
            r.wf(),
            r@ == Seq::<EntryModel>::empty(),
            r.counter() == 0,
    {
        let r = Event { listeners: Vec::new(), next_id: 0, notified: 0 };
        proof {
            assert(r@ =~= Seq::<EntryModel>::empty());
        }
        r
    }

    /// The id that the next registration will receive.
    pub fn next_listener_id(&self) -> (r: usize)
        ensures
            r == self.counter(),
    {
        self.next_id
    }

    /// Registers a new listener: allocates the next id, appends a waiting
    /// entry, and returns the listener bound to that id.
    pub fn listen(&mut self) -> (r: EventListener)
        requires
            old(self).wf(),
            old(self).counter() < usize::MAX,
        ensures
            final(self).wf(),
            r@ == old(self).counter(),
            final(self)@ == old(self)@.push(
                EntryModel { id: old(self).counter(), notified: false, has_waker: false },
            ),
            final(self).counter() == old(self).counter() + 1,
    {
        let ghost s0 = self@;
        let id = self.next_id;
        self.next_id = self.next_id + 1;
        self.listeners.push(ListenerEntry { id, waker: None, notified: false });
        proof {
            let e = EntryModel { id: id as nat, notified: false, has_waker: false };
            assert(self@ =~= s0.push(e));
            lemma_count_notified_push(s0, e);
            assert forall|i: int, j: int| 0 <= i < j < self@.len() implies self@[i].id
                < self@[j].id by {
                if j < s0.len() {
                    assert(s0[i].id < s0[j].id);
                } else {
                    assert(s0[i].id < id as nat);
                }
            }
        }
        EventListener { id }
    }

    /// Walks the entries in registration order and delivers up to `budget`
    /// credits to waiting entries, invoking and clearing each stored
    /// callback, then adds the number of newly settled credits to the
    /// notified count.
    fn deliver_budget(&mut self, budget: usize)
        requires
            old(self).wf(),
        ensures
            final(self).wf(),
            final(self)@ == deliver_up_to(old(self)@, budget as nat),
            final(self).counter() == old(self).counter(),
    {
        let ghost s0 = self@;
        let len = self.listeners.len();
        let mut i: usize = 0;
        let mut newly: usize = 0;
        while i < len && newly < budget
            invariant
                old(self).wf(),
                s0 == old(self)@,
                self.listeners@.len() == len,
                len == s0.len(),
                i <= len,
                newly as nat == min_nat(budget as nat, count_unnotified(s0.take(i as int))),
                self@ == deliver_up_to(s0.take(i as int), budget as nat) + s0.skip(i as int),
                self.next_id == old(self).next_id,
                self.notified == old(self).notified,
            decreases len - i,
        {
            let ghost prefix = deliver_up_to(s0.take(i as int), budget as nat);
            proof {
                lemma_deliver_pointwise(s0.take(i as int), budget as nat);
                assert(prefix.len() == i);
                assert(self@[i as int] == s0[i as int]);
                assert(s0.take(i as int + 1) =~= s0.take(i as int).push(s0[i as int]));
                lemma_deliver_push(s0.take(i as int), s0[i as int], budget as nat);
                lemma_count_unnotified_push(s0.take(i as int), s0[i as int]);
            }
            if !self.listeners[i].notified {
                proof {
                    assert(!s0[i as int].notified);
                    assert(count_unnotified(s0.take(i as int)) == newly as nat);
                    assert(count_unnotified(s0.take(i as int)) < budget as nat);
                }
                let ghost prev = self@;
                self.listeners[i].notified = true;
                let w = self.listeners[i].waker.take();
                proof {
                    assert(self@ =~= prev.update(i as int, delivered(s0[i as int])));
                }
                match w {
                    Some(w) => w.wake(),
                    None => (),
                }
                newly = newly + 1;
                proof {
                    assert(deliver_up_to(s0.take(i as int + 1), budget as nat) == prefix.push(
                        delivered(s0[i as int]),
                    ));
                    assert(self@ =~= deliver_up_to(s0.take(i as int + 1), budget as nat) + s0.skip(
                        i as int + 1,
                    ));
                }
            } else {
                proof {
                    assert(deliver_up_to(s0.take(i as int + 1), budget as nat) == prefix.push(
                        s0[i as int],
                    ));
                    assert(self@ =~= deliver_up_to(s0.take(i as int + 1), budget as nat) + s0.skip(
                        i as int + 1,
                    ));
                }
            }
            i = i + 1;
        }
        proof {
            lemma_counts_split(s0);
            assert(s0 =~= s0.take(i as int) + s0.skip(i as int));
            lemma_counts_concat(s0.take(i as int), s0.skip(i as int));
            lemma_deliver_count(s0, budget as nat);
            if i == len {
                assert(s0.take(i as int) =~= s0);
                assert(self@ =~= deliver_up_to(s0, budget as nat));
            } else {
                assert(newly == budget);
                lemma_deliver_exhausted(s0, i as int, budget as nat);
            }
            assert(newly as nat == min_nat(budget as nat, count_unnotified(s0)));
        }
        self.notified = self.notified + newly;
        proof {
            lemma_deliver_pointwise(s0, budget as nat);
            assert forall|a: int, b: int| 0 <= a < b < self@.len() implies self@[a].id
                < self@[b].id by {
                assert(self@[a].id == s0[a].id && self@[b].id == s0[b].id);
            }
            assert forall|a: int| 0 <= a < self@.len() implies (#[trigger] self@[a]).id
                < self.counter() by {
                assert(self@[a].id == s0[a].id);
            }
            assert forall|a: int|
                0 <= a < self@.len() && (#[trigger] self@[a]).notified implies !self@[a].has_waker by {
                if self@[a] != s0[a] {
                    assert(self@[a] == delivered(s0[a]));
                }
            }
        }
    }

    /// Tops the total notified count up to `n`: delivers `n` minus the
    /// current notified count further credits (none when that is not
    /// positive), walking listeners in registration order. `usize::MAX` is
    /// the sentinel meaning every registered listener.
    pub fn notify(&mut self, n: usize)
        requires
            old(self).wf(),
        ensures
            final(self).wf(),
            final(self)@ == deliver_up_to(old(self)@, notify_budget(old(self)@, n)),
            final(self).counter() == old(self).counter(),
    {
        let budget = if n == usize::MAX {
            self.listeners.len()
        } else if n > self.notified {
            n - self.notified
        } else {
            0
        };
        proof {
            assert(budget as nat == notify_budget(self@, n));
        }
        self.deliver_budget(budget);
    }

    /// Delivers `n` further credits to listeners that were never notified,
    /// capped only by the number of registered listeners and unaffected by
    /// the current notified count.
    pub fn notify_additional(&mut self, n: usize)
        requires
            old(self).wf(),
        ensures
            final(self).wf(),
            final(self)@ == deliver_up_to(old(self)@, notify_additional_budget(old(self)@, n)),
            final(self).counter() == old(self).counter(),
    {
        let len = self.listeners.len();
        let budget = if n < len {
            n
        } else {
            len
        };
        proof {
            assert(budget as nat == notify_additional_budget(self@, n));
        }
        self.deliver_budget(budget);
    }

    /// Finds the position of the entry with the given id.
    fn position_of(&self, id: usize) -> (r: Option<usize>)
        ensures
            match r {
                Some(i) => (i as int) < self@.len() && index_of_id(self@, id as nat) == i as int,
                None => index_of_id(self@, id as nat) < 0,
            },
    {
        let n = self.listeners.len();
        let mut i: usize = 0;
        while i < n
            invariant
                n == self.listeners@.len(),
                i <= n,
                forall|j: int| 0 <= j < i ==> (#[trigger] self@[j]).id != id as nat,
            decreases n - i,
        {
            if self.listeners[i].id == id {
                proof {
                    lemma_index_of_id(self@, id as nat);
                    let r = index_of_id(self@, id as nat);
                    if r < 0 {
                        assert(self@[i as int].id != id as nat);
                    } else if r < i as int {
                        assert(self@[r].id != id as nat);
                    } else if r > i as int {
                        assert(self@[i as int].id != id as nat);
                    }
                }
                return Some(i);
            }
            i = i + 1;
        }
        proof {
            lemma_index_of_id(self@, id as nat);
            if index_of_id(self@, id as nat) >= 0 {
                assert(self@[index_of_id(self@, id as nat)].id != id as nat);
            }
        }
        None
    }

    /// Notifies every currently registered listener; the same as
    /// `notify(usize::MAX)`.
    pub fn notify_all(&mut self)
        requires
            old(self).wf(),
        ensures
            final(self).wf(),
            final(self)@ == deliver_up_to(old(self)@, old(self)@.len()),
            final(self).counter() == old(self).counter(),
    {
        self.notify(usize::MAX);
    }
}

impl EventListener {
    /// Returns whether this listener's entry currently holds a notification
    /// credit; false once the entry is gone. Takes the state by shared
    /// reference, so it can mutate nothing.
    pub fn is_notified(&self, event: &Event) -> (r: bool)
        ensures
            r == id_is_notified(event@, self@),
    {
        match event.position_of(self.id) {
            Some(i) => event.listeners[i].notified,
            None => false,
        }
    }

    /// Returns whether this listener's entry is still present in the
    /// registry.
    pub fn is_registered(&self, event: &Event) -> (r: bool)
        ensures
            r == contains_id(event@, self@),
    {
        match event.position_of(self.id) {
            Some(_) => true,
            None => false,
        }
    }

    /// One resumption attempt: resolves immediately when the entry holds a
    /// credit; otherwise stores `waker` — replacing any stale one — and
    /// reports that the listener stays suspended. The entry must still exist
    /// while the listener is alive.
    pub fn poll(&self, event: &mut Event, waker: core::task::Waker) -> (ready: bool)
        requires
            old(event).wf(),
            contains_id(old(event)@, self@),
        ensures
            final(event).wf(),
            ready == id_is_notified(old(event)@, self@),
            ready ==> final(event)@ == old(event)@,
            !ready ==> final(event)@ == store_waker(old(event)@, self@),
            final(event).counter() == old(event).counter(),
    {
        let ghost s0 = event@;
        let i = event.position_of(self.id).unwrap();
        if event.listeners[i].notified {
            true
        } else {
            event.listeners[i].waker = Some(waker);
            proof {
                let e = EntryModel { id: s0[i as int].id, notified: s0[i as int].notified, has_waker: true };
                assert(event@ =~= s0.update(i as int, e));
                assert(event@ == store_waker(s0, self@));
                lemma_counts_update_same_flag(s0, i as int, e);
                assert forall|a: int, b: int| 0 <= a < b < event@.len() implies event@[a].id
                    < event@[b].id by {
                    assert(event@[a].id == s0[a].id && event@[b].id == s0[b].id);
                }
                assert forall|a: int| 0 <= a < event@.len() implies (#[trigger] event@[a]).id
                    < event.counter() by {
                    assert(event@[a].id == s0[a].id);
                }
                assert forall|a: int|
                    0 <= a < event@.len() && (#[trigger] event@[a]).notified implies !event@[a].has_waker by {
                    if a != i as int {
                        assert(event@[a] == s0[a]);
                    }
                }
            }
            false
        }
    }

    /// Releases this listener: removes its entry from the registry. A credit
    /// the entry held passes to the earliest still-waiting entry, so the
    /// total notified count is conserved while any waiter remains; releasing
    /// a waiting listener affects no other entry.
    pub fn release(self, event: &mut Event)
        requires
            old(event).wf(),
        ensures
            final(event).wf(),
            final(event)@ == release_entries(old(event)@, self@),
            final(event).counter() == old(event).counter(),
    {
        let ghost s0 = event@;
        let i = match event.position_of(self.id) {
            Some(i) => i,
            None => {
                return;
            },
        };
        let entry = event.listeners.remove(i);
        proof {
            assert(entry.model() == s0[i as int]);
            assert(event@ =~= s0.remove(i as int));
            lemma_counts_remove(s0, i as int);
            assert forall|a: int, b: int| 0 <= a < b < event@.len() implies event@[a].id
                < event@[b].id by {
                let a0 = if a < i as int {
                    a
                } else {
                    a + 1
                };
                let b0 = if b < i as int {
                    b
                } else {
                    b + 1
                };
                assert(event@[a] == s0[a0] && event@[b] == s0[b0]);
                assert(s0[a0].id < s0[b0].id);
            }
            assert forall|a: int| 0 <= a < event@.len() implies (#[trigger] event@[a]).id
                < event.counter() by {
                let a0 = if a < i as int {
                    a
                } else {
                    a + 1
                };
                assert(event@[a] == s0[a0]);
            }
            assert forall|a: int|
                0 <= a < event@.len() && (#[trigger] event@[a]).notified implies !event@[a].has_waker by {
                let a0 = if a < i as int {
                    a
                } else {
                    a + 1
                };
                assert(event@[a] == s0[a0]);
            }
        }
        if entry.notified {
            proof {
                assert(event.notified >= 1);
            }
            event.notified = event.notified - 1;
            event.deliver_budget(1);
        }
    }
}

impl Default for Event {
    /// The same empty state as `Event::new`; never fails.
    fn default() -> (r: Event)
        ensures
            r.wf(),
            r@ == Seq::<EntryModel>::empty(),
            r.counter() == 0,
    {
        Event::new()
    }
}

} // verus!
