//! An in-process publish/subscribe primitive: an event publisher that keeps a
//! registry of handler callbacks and notifies every registered handler when an
//! event is published.
//!
//! Handlers are ordered by an identity key, a `u64` token handed out by
//! [`EventPublisher::subscribe_handler`] at registration time. The registry is
//! kept sorted by that key, so unsubscription can locate an entry by binary
//! search and sequential delivery visits handlers in identity order.

use core::marker::PhantomData;
use vstd::prelude::*;

verus! {

/// An event handed to handlers: either a payload of the application-defined
/// type `E`, or a sentinel marking the absence of data.
pub enum Event<E> {
    Args(E),
    Missing,
}

/// The contract a subscriber provides: a callback that accepts a read-only
/// reference to an event and returns nothing. A handler may have side effects;
/// the publisher promises nothing about what a handler does, only about which
/// handlers are registered and in what order they are visited.
pub trait EventHandler<E> {
    fn handle(&self, event: &Event<E>);
}

/// The identity keys of the registry entries, in registry order.
pub open spec fn entry_ids<H>(s: Seq<(u64, H)>) -> Seq<u64> {
    s.map_values(|e: (u64, H)| e.0)
}

/// The registry entries carry strictly increasing identity keys: the registry
/// is sorted by identity, and no key occurs twice.
pub open spec fn ids_sorted<H>(s: Seq<(u64, H)>) -> bool {
    forall|i: int, j: int| 0 <= i < j < s.len() ==> s[i].0 < s[j].0
}

/// Every identity key in the registry lies below `bound`.
pub open spec fn ids_below<H>(s: Seq<(u64, H)>, bound: u64) -> bool {
    forall|i: int| 0 <= i < s.len() ==> s[i].0 < bound
}

/// Some registry entry carries the identity key `id`.
pub open spec fn contains_id<H>(s: Seq<(u64, H)>, id: u64) -> bool {
    exists|i: int| 0 <= i < s.len() && s[i].0 == id
}

/// An event publisher for events of payload type `E`, dispatching to handlers
/// of type `H`. It owns an ordered collection of handlers, each paired with
/// the identity key under which it was registered.
pub struct EventPublisher<E, H> {
    handlers: Vec<(u64, H)>,
    next_id: u64,
    event_type: PhantomData<E>,
}

impl<E, H> View for EventPublisher<E, H> {
    type V = Seq<(u64, H)>;

    /// The abstract state: the registry as a sequence of (identity key,
    /// handler) pairs, in registry order.
    closed spec fn view(&self) -> Seq<(u64, H)> {
        self.handlers@
    }
}

impl<E, H: EventHandler<E>> EventPublisher<E, H> {
    /// The identity key the next subscription will receive.
    pub closed spec fn next_identity(&self) -> u64 {
        self.next_id
    }

    /// The registry invariant: entries are sorted by strictly increasing
    /// identity key, and every key already handed out lies below the next one.
    pub open spec fn wf(&self) -> bool {
        &&& ids_sorted(self@)
        &&& ids_below(self@, self.next_identity())
    }

    /// Constructs a publisher with an empty registry.
    pub fn new() -> (publisher: EventPublisher<E, H>)
        ensures
            publisher.wf(),
            publisher@ == Seq::<(u64, H)>::empty(),
            publisher.next_identity() == 0,
    {
        EventPublisher { handlers: Vec::new(), next_id: 0, event_type: PhantomData }
    }

    /// Subscribes a handler and returns the identity key under which it was
    /// registered; that key is what `unsubscribe_handler` takes. Subscription
    /// always succeeds and always adds one entry, so subscribing the same
    /// underlying callable twice yields two distinct entries. The fresh key
    /// exceeds every key in the registry, so appending keeps the registry
    /// sorted. The bound on `next_identity` is forced by the key width: a
    /// publisher hands out at most `u64::MAX` keys.
    pub fn subscribe_handler(&mut self, handler: H) -> (id: u64)
        requires
            old(self).wf(),
            old(self).next_identity() < u64::MAX,
        ensures
            final(self).wf(),
            id == old(self).next_identity(),
            !contains_id(old(self)@, id),
            final(self)@ == old(self)@.push((id, handler)),
            final(self).next_identity() == id + 1,
    {
        let id = self.next_id;
        self.handlers.push((id, handler));
        self.next_id = self.next_id + 1;
        proof {
            lemma_push_fresh_keeps_invariant(old(self)@, id, handler);
        }
        id
    }

    /// Unsubscribes the handler registered under identity key `id`. Returns
    /// true exactly when some entry carries that key; that entry is then
    /// removed and the rest of the registry is unchanged. Returns false, and
    /// leaves the registry as it was, when the registry is empty or no entry
    /// matches. Since keys are unique, at most one entry is removed per call.
    pub fn unsubscribe_handler(&mut self, id: u64) -> (removed: bool)
        requires
            old(self).wf(),
        ensures
            final(self).wf(),
            final(self).next_identity() == old(self).next_identity(),
            removed == contains_id(old(self)@, id),
            removed ==> exists|i: int|
                0 <= i < old(self)@.len() && old(self)@[i].0 == id && final(self)@ == old(
                    self,
                )@.remove(i),
            !removed ==> final(self)@ == old(self)@,
            !contains_id(final(self)@, id),
    {
        let len = self.handlers.len();
        if len == 0 {
            return false;
        }
        self.unsub_common_match(id, 0, len / 2, len - 1)
    }

    /// One bisection step: compares `id` against the identity key at `mid`
    /// and either removes the match, reports that no match can exist in the
    /// range, or narrows the range and continues the search.
    fn unsub_common_match(&mut self, id: u64, l_bound: usize, mid: usize, u_bound: usize) -> (removed:
        bool)
        requires
            old(self).wf(),
            l_bound <= mid <= u_bound < old(self)@.len(),
            forall|i: int|
                0 <= i < old(self)@.len() && old(self)@[i].0 == id ==> l_bound <= i <= u_bound,
        ensures
            final(self).wf(),
            final(self).next_identity() == old(self).next_identity(),
            removed == contains_id(old(self)@, id),
            removed ==> exists|i: int|
                0 <= i < old(self)@.len() && old(self)@[i].0 == id && final(self)@ == old(
                    self,
                )@.remove(i),
            !removed ==> final(self)@ == old(self)@,
            !contains_id(final(self)@, id),
        decreases u_bound - l_bound, 0int,
    {
        let entry_id = self.handlers[mid].0;
        if id == entry_id {
            let ghost pre = self@;
            self.handlers.remove(mid);
            proof {
                lemma_remove_keeps_invariant(pre, self.next_identity(), mid as int);
                lemma_removed_id_is_gone(pre, mid as int);
            }
            true
        } else if id < entry_id {
            if mid == l_bound {
                false
            } else {
                self.recursive_unsub_search(id, l_bound, mid - 1)
            }
        } else {
            if mid == u_bound {
                false
            } else {
                self.recursive_unsub_search(id, mid + 1, u_bound)
            }
        }
    }

    /// The recursive leg of the binary search: handles the single-candidate
    /// range directly and otherwise picks the midpoint and steps back into
    /// `unsub_common_match`.
    fn recursive_unsub_search(&mut self, id: u64, l_bound: usize, u_bound: usize) -> (removed: bool)
        requires
            old(self).wf(),
            l_bound <= u_bound < old(self)@.len(),
            forall|i: int|
                0 <= i < old(self)@.len() && old(self)@[i].0 == id ==> l_bound <= i <= u_bound,
        ensures
            final(self).wf(),
            final(self).next_identity() == old(self).next_identity(),
            removed == contains_id(old(self)@, id),
            removed ==> exists|i: int|
                0 <= i < old(self)@.len() && old(self)@[i].0 == id && final(self)@ == old(
                    self,
                )@.remove(i),
            !removed ==> final(self)@ == old(self)@,
            !contains_id(final(self)@, id),
        decreases u_bound - l_bound, 1int,
    {
        if l_bound == u_bound {
            if self.handlers[l_bound].0 == id {
                let ghost pre = self@;
                self.handlers.remove(l_bound);
                proof {
                    lemma_remove_keeps_invariant(pre, self.next_identity(), l_bound as int);
                    lemma_removed_id_is_gone(pre, l_bound as int);
                }
                true
            } else {
                false
            }
        } else {
            let mid = l_bound + (u_bound - l_bound) / 2;
            self.unsub_common_match(id, l_bound, mid, u_bound)
        }
    }

    /// Publishes an event sequentially: invokes every currently-registered
    /// handler once, on the calling thread, in registry order — which, by the
    /// registry invariant, is identity-sorted order (see
    /// `lemma_publish_order_is_identity_sorted`). Each handler receives a
    /// reference to the same event. The registry itself is read-only here, so
    /// the publisher's observable state is unchanged.
    pub fn publish_event(&self, event: &Event<E>) {
        let mut index: usize = 0;
        while index < self.handlers.len()
            invariant
                index <= self.handlers.len(),
            decreases self.handlers.len() - index,
        {
            let entry = &self.handlers[index];
            entry.1.handle(event);
            index = index + 1;
        }
    }

    /// The number of registered handlers.
    pub fn handler_count(&self) -> (count: usize)
        ensures
            count == self@.len(),
    {
        self.handlers.len()
    }

    /// The handler at registry position `index`; positions run in identity
    /// order. Together with `handler_count` this exposes the point-in-time
    /// snapshot that a concurrent fan-out iterates over.
    pub fn handler_at(&self, index: usize) -> (handler: &H)
        requires
            index < self@.len(),
        ensures
            *handler == self@[index as int].1,
    {
        &self.handlers[index].1
    }

    /// The identity keys of all registered handlers, in registry order. This
    /// is the order in which `publish_event` visits handlers.
    pub fn handler_identities(&self) -> (ids: Vec<u64>)
        ensures
            ids@ == entry_ids(self@),
    {
        let mut ids: Vec<u64> = Vec::new();
        let mut index: usize = 0;
        while index < self.handlers.len()
            invariant
                index <= self.handlers.len(),
                ids@ == entry_ids(self@).take(index as int),
            decreases self.handlers.len() - index,
        {
            ids.push(self.handlers[index].0);
            index = index + 1;
        }
        ids
    }
}

/// Removing one entry from a registry with sorted, bounded identity keys
/// leaves the remaining keys sorted and bounded.
proof fn lemma_remove_keeps_invariant<H>(s: Seq<(u64, H)>, bound: u64, at: int)
    requires
        ids_sorted(s),
        ids_below(s, bound),
        0 <= at < s.len(),
    ensures
        ids_sorted(s.remove(at)),
        ids_below(s.remove(at), bound),
{
    s.remove_ensures(at);
}

/// Appending an entry under a fresh identity key — one at or above the bound
/// on the keys already present — keeps the registry sorted, with all keys now
/// below the successor of the fresh key.
proof fn lemma_push_fresh_keeps_invariant<H>(s: Seq<(u64, H)>, fresh: u64, handler: H)
    requires
        ids_sorted(s),
        ids_below(s, fresh),
        fresh < u64::MAX,
    ensures
        ids_sorted(s.push((fresh, handler))),
        ids_below(s.push((fresh, handler)), (fresh + 1) as u64),
        !contains_id(s, fresh),
{
    let pushed = s.push((fresh, handler));
    assert forall|i: int, j: int| 0 <= i < j < pushed.len() implies pushed[i].0 < pushed[j].0 by {
        if j < s.len() {
            assert(s[i].0 < s[j].0);
        } else {
            assert(pushed[j].0 == fresh);
            assert(s[i].0 < fresh);
        }
    }
}

/// Since identity keys are unique, removing the entry at `at` removes the
/// only occurrence of its key: the key is absent afterwards.
proof fn lemma_removed_id_is_gone<H>(s: Seq<(u64, H)>, at: int)
    requires
        ids_sorted(s),
        0 <= at < s.len(),
    ensures
        !contains_id(s.remove(at), s[at].0),
{
    s.remove_ensures(at);
    assert forall|i: int| 0 <= i < s.remove(at).len() implies s.remove(at)[i].0 != s[at].0 by {
        if i < at {
            assert(s[i].0 < s[at].0);
        } else {
            assert(s[at].0 < s[i + 1].0);
        }
    }
}

/// The registry after a whole sequence of subscriptions: starting from
/// registry `s` with next identity key `next`, each handler in `additions`
/// is appended in turn under the key current at its subscription, exactly as
/// `subscribe_handler` does. Returns the final registry and next key.
pub open spec fn after_subscribes<H>(s: Seq<(u64, H)>, next: u64, additions: Seq<H>) -> (Seq<
    (u64, H),
>, u64)
    decreases additions.len(),
{
    if additions.len() == 0 {
        (s, next)
    } else {
        after_subscribes(s.push((next, additions[0])), (next + 1) as u64, additions.drop_first())
    }
}

/// For every sequence of subscribe calls, the registry grows by exactly one
/// entry per call — duplicates included, since each subscription appends an
/// entry of its own — so the registry size equals the starting size plus the
/// number of calls. The registry invariant is preserved throughout. The bound
/// on `next` is forced by the key width.
pub proof fn lemma_registry_size_counts_subscribes<H>(s: Seq<(u64, H)>, next: u64, additions: Seq<H>)
    requires
        ids_sorted(s),
        ids_below(s, next),
        next + additions.len() <= u64::MAX,
    ensures
        after_subscribes(s, next, additions).0.len() == s.len() + additions.len(),
        after_subscribes(s, next, additions).1 == next + additions.len(),
        ids_sorted(after_subscribes(s, next, additions).0),
        ids_below(after_subscribes(s, next, additions).0, after_subscribes(s, next, additions).1),
    decreases additions.len(),
{
    if additions.len() == 0 {
    } else {
        lemma_push_fresh_keeps_invariant(s, next, additions[0]);
        lemma_registry_size_counts_subscribes(
            s.push((next, additions[0])),
            (next + 1) as u64,
            additions.drop_first(),
        );
    }
}

/// Unsubscribe on an empty registry always returns false: no identity key is
/// contained in the empty registry, and `unsubscribe_handler` returns exactly
/// the containment of the key it was given.
pub proof fn lemma_empty_registry_contains_nothing<H>(id: u64)
    ensures
        !contains_id(Seq::<(u64, H)>::empty(), id),
{
}

/// Round trip: subscribing a handler to a well-formed registry `s` and then
/// unsubscribing it by the key the subscription returned restores the
/// registry exactly. The freshly subscribed entry is present and is the only
/// entry under its key, so `unsubscribe_handler` finds it, removes precisely
/// it — the last position — and hands back a registry equal to `s` in size
/// and membership.
pub proof fn lemma_subscribe_unsubscribe_round_trip<H>(s: Seq<(u64, H)>, next: u64, handler: H)
    requires
        ids_sorted(s),
        ids_below(s, next),
        next < u64::MAX,
    ensures
        contains_id(s.push((next, handler)), next),
        forall|i: int|
            0 <= i < s.push((next, handler)).len() && s.push((next, handler))[i].0 == next ==> i
                == s.len(),
        s.push((next, handler)).remove(s.len() as int) == s,
        !contains_id(s, next),
{
    let pushed = s.push((next, handler));
    lemma_push_fresh_keeps_invariant(s, next, handler);
    assert(pushed[s.len() as int].0 == next);
    assert forall|i: int| 0 <= i < pushed.len() && pushed[i].0 == next implies i == s.len() by {
        if i < s.len() {
            assert(s[i].0 < next);
        }
    }
    pushed.remove_ensures(s.len() as int);
    assert(pushed.remove(s.len() as int) =~= s);
}

/// A handler subscribed and then unsubscribed stays gone: after the round
/// trip the registry is back to `s`, whose entries all carry keys below the
/// one the subscription handed out, so a further `unsubscribe_handler` with
/// that key returns false.
pub proof fn lemma_unsubscribe_after_round_trip_fails<H>(s: Seq<(u64, H)>, next: u64, handler: H)
    requires
        ids_sorted(s),
        ids_below(s, next),
        next < u64::MAX,
    ensures
        !contains_id(s.push((next, handler)).remove(s.len() as int), next),
{
    lemma_subscribe_unsubscribe_round_trip(s, next, handler);
}

/// Sequential publish visits registry positions in increasing order, so for a
/// well-formed publisher the delivery order is sorted by identity key: every
/// earlier-visited handler was registered under a strictly smaller key.
pub proof fn lemma_publish_order_is_identity_sorted<E, H: EventHandler<E>>(
    publisher: &EventPublisher<E, H>,
)
    requires
        publisher.wf(),
    ensures
        forall|i: int, j: int|
            0 <= i < j < publisher@.len() ==> entry_ids(publisher@)[i] < entry_ids(publisher@)[j],
{
}

} // verus!
