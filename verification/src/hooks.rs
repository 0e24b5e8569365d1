//! The hook bus: a registry of subscriber queues keyed by an opaque handle.
//!
//! The peer registry publishes structured change events to every registered
//! subscriber. Each subscriber has an independent bounded queue: a full queue
//! drops the event for that subscriber alone, so a slow subscriber never
//! blocks delivery to the others or to the publisher.

use vstd::prelude::*;

use crate::identity::RemoteIdentity;
use crate::peer::Address;

verus! {

/// An opaque, uniquely-issued handle identifying one subscriber
/// registration; used only for later deregistration.
#[derive(Clone, Copy, PartialEq, Eq, Structural, Debug)]
pub struct HookId {
    id: u64,
}

impl HookId {
    pub closed spec fn spec_id(&self) -> u64 {
        self.id
    }
}

/// A state-change event broadcast to every registered subscriber.
pub enum HookEvent {
    /// The discovered-peer set changed (informational: the mutating
    /// transport already updated the registry directly).
    DiscoveredChange(RemoteIdentity),
    /// The local metadata was republished.
    MetadataChange(Vec<(String, String)>),
    /// The local listen addresses changed.
    ListenersChange(Vec<(String, Address)>),
    /// The registry is tearing down; transports must release resources.
    Shutdown,
}

/// The mathematical content of a `HookEvent`.
pub enum EventV {
    Discovered(Seq<u8>),
    Metadata(Seq<(Seq<char>, Seq<char>)>),
    Listeners(Seq<(Seq<char>, (Seq<char>, u16))>),
    Shutdown,
}

impl DeepView for HookEvent {
    type V = EventV;

    open spec fn deep_view(&self) -> EventV {
        match self {
            HookEvent::DiscoveredChange(id) => EventV::Discovered(id.deep_view()),
            HookEvent::MetadataChange(m) => EventV::Metadata(m.deep_view()),
            HookEvent::ListenersChange(l) => EventV::Listeners(l.deep_view()),
            HookEvent::Shutdown => EventV::Shutdown,
        }
    }
}

/// A vector's deep view is its elements' deep views, index by index.
pub proof fn lemma_vec_deep_view_index<T: DeepView>(v: &Vec<T>, i: int)
    requires
        0 <= i < v@.len(),
    ensures
        v.deep_view().len() == v@.len(),
        v.deep_view()[i] == v@[i].deep_view(),
{
}

/// Copy a list of string pairs.
pub fn dup_pairs(v: &Vec<(String, String)>) -> (r: Vec<(String, String)>)
    ensures
        r.deep_view() == v.deep_view(),
{
    let mut r: Vec<(String, String)> = Vec::new();
    let mut i: usize = 0;
    while i < v.len()
        invariant
            i <= v.len(),
            r@.len() == i,
            forall|j: int| 0 <= j < i ==> r.deep_view()[j] == v.deep_view()[j],
        decreases v.len() - i,
    {
        let p = &v[i];
        let k0 = p.0.clone();
        let v0 = p.1.clone();
        r.push((k0, v0));
        proof {
            assert(r@[i as int] == (k0, v0));
            lemma_vec_deep_view_index(&r, i as int);
            lemma_vec_deep_view_index(v, i as int);
            assert(r.deep_view()[i as int] == v.deep_view()[i as int]);
            assert(forall|j: int| 0 <= j < i ==> r.deep_view()[j] == v.deep_view()[j]);
        }
        i += 1;
    }
    proof {
        assert(r.deep_view() =~= v.deep_view());
    }
    r
}

/// Copy a list of tagged addresses.
pub fn dup_listeners(v: &Vec<(String, Address)>) -> (r: Vec<(String, Address)>)
    ensures
        r.deep_view() == v.deep_view(),
{
    let mut r: Vec<(String, Address)> = Vec::new();
    let mut i: usize = 0;
    while i < v.len()
        invariant
            i <= v.len(),
            r@.len() == i,
            forall|j: int| 0 <= j < i ==> r.deep_view()[j] == v.deep_view()[j],
        decreases v.len() - i,
    {
        let p = &v[i];
        let k0 = p.0.clone();
        let a0 = p.1.duplicate();
        r.push((k0, a0));
        proof {
            assert(r@[i as int] == (k0, a0));
            lemma_vec_deep_view_index(&r, i as int);
            lemma_vec_deep_view_index(v, i as int);
            assert(r.deep_view()[i as int] == v.deep_view()[i as int]);
            assert(forall|j: int| 0 <= j < i ==> r.deep_view()[j] == v.deep_view()[j]);
        }
        i += 1;
    }
    proof {
        assert(r.deep_view() =~= v.deep_view());
    }
    r
}

/// Copy an event for delivery to one more subscriber.
pub fn dup_event(e: &HookEvent) -> (r: HookEvent)
    ensures
        r.deep_view() == e.deep_view(),
{
    match e {
        HookEvent::DiscoveredChange(id) => HookEvent::DiscoveredChange(id.duplicate()),
        HookEvent::MetadataChange(m) => HookEvent::MetadataChange(dup_pairs(m)),
        HookEvent::ListenersChange(l) => HookEvent::ListenersChange(dup_listeners(l)),
        HookEvent::Shutdown => HookEvent::Shutdown,
    }
}

/// One subscriber: its handle, its queue bound, and its pending events.
struct Hook {
    id: u64,
    cap: usize,
    queue: Vec<HookEvent>,
}

impl DeepView for Hook {
    type V = (u64, usize, Seq<EventV>);

    closed spec fn deep_view(&self) -> (u64, usize, Seq<EventV>) {
        (self.id, self.cap, self.queue.deep_view())
    }
}

/// The mathematical content of one subscriber: handle, bound, queue.
pub type HookV = (u64, usize, Seq<EventV>);

/// Whether a subscriber with handle `id` is registered.
pub open spec fn has_hook(hs: Seq<HookV>, id: u64) -> bool {
    exists|i: int| 0 <= i < hs.len() && hs[i].0 == id
}

/// The index of the subscriber with handle `id` (meaningful under `has_hook`).
pub open spec fn hook_idx(hs: Seq<HookV>, id: u64) -> int {
    choose|i: int| 0 <= i < hs.len() && hs[i].0 == id
}

/// All subscriber handles are distinct.
pub open spec fn distinct_hook_ids(hs: Seq<HookV>) -> bool {
    forall|i: int, j: int| 0 <= i < j < hs.len() ==> hs[i].0 != hs[j].0
}

/// Delivery of one event to one subscriber: appended if the queue has room,
/// dropped for this subscriber otherwise.
pub open spec fn spec_deliver(h: HookV, e: EventV) -> HookV {
    if h.2.len() < h.1 {
        (h.0, h.1, h.2.push(e))
    } else {
        h
    }
}

/// Broadcast of one event: every subscriber is offered the event,
/// each independently of the others.
pub open spec fn spec_publish(hs: Seq<HookV>, e: EventV) -> Seq<HookV> {
    hs.map_values(|h: HookV| spec_deliver(h, e))
}

/// Removal of a subscriber; a no-op for an unknown handle.
pub open spec fn spec_unregister(hs: Seq<HookV>, id: u64) -> Seq<HookV> {
    if has_hook(hs, id) {
        hs.remove(hook_idx(hs, id))
    } else {
        hs
    }
}

/// Publication delivers to every subscriber with room in its queue,
/// depending only on that subscriber's own queue: whether any other
/// subscriber is slow or full plays no part.
pub proof fn lemma_publish_delivers(hs: Seq<HookV>, e: EventV, i: int)
    requires
        0 <= i < hs.len(),
        hs[i].2.len() < hs[i].1,
    ensures
        spec_publish(hs, e).len() == hs.len(),
        spec_publish(hs, e)[i] == (hs[i].0, hs[i].1, hs[i].2.push(e)),
{
}

/// A full subscriber misses the event but keeps its handle and its queue;
/// nothing else about it changes.
pub proof fn lemma_publish_drops_when_full(hs: Seq<HookV>, e: EventV, i: int)
    requires
        0 <= i < hs.len(),
        hs[i].2.len() >= hs[i].1,
    ensures
        spec_publish(hs, e)[i] == hs[i],
{
}

/// After deregistration the handle is gone, and later publications deliver
/// nothing to it: no queue under that handle exists any more.
pub proof fn lemma_unregister_stops_delivery(hs: Seq<HookV>, id: u64, e: EventV)
    requires
        distinct_hook_ids(hs),
    ensures
        !has_hook(spec_unregister(hs, id), id),
        !has_hook(spec_publish(spec_unregister(hs, id), e), id),
{
    let after = spec_unregister(hs, id);
    if has_hook(hs, id) {
        let k = hook_idx(hs, id);
        assert(0 <= k < hs.len() && hs[k].0 == id);
        assert forall|i: int| 0 <= i < after.len() implies after[i].0 != id by {
            if i < k {
                assert(after[i] == hs[i]);
            } else {
                assert(after[i] == hs[i + 1]);
            }
        }
    }
    assert forall|i: int| 0 <= i < spec_publish(after, e).len() implies spec_publish(after, e)[i].0
        != id by {
        assert(spec_publish(after, e)[i].0 == after[i].0);
    }
}

/// The bus itself: the ordered list of subscribers and the next fresh handle.
pub struct HookBus {
    subs: Vec<Hook>,
    next_id: u64,
}

impl HookBus {
    pub closed spec fn spec_subs(&self) -> Seq<HookV> {
        self.subs.deep_view()
    }

    pub closed spec fn spec_next_id(&self) -> u64 {
        self.next_id
    }

    /// Handles are distinct and all below the next fresh handle.
    pub open spec fn wf(&self) -> bool {
        distinct_hook_ids(self.spec_subs()) && forall|i: int|
            0 <= i < self.spec_subs().len() ==> #[trigger] self.spec_subs()[i].0
                < self.spec_next_id()
    }

    /// The handle the next registration will be issued.
    pub fn next_id(&self) -> (n: u64)
        ensures
            n == self.spec_next_id(),
    {
        self.next_id
    }

    pub fn new() -> (b: HookBus)
        ensures
            b.wf(),
            b.spec_subs() == Seq::<HookV>::empty(),
            b.spec_next_id() == 0,
    {
        let b = HookBus { subs: Vec::new(), next_id: 0 };
        proof {
            assert(b.spec_subs() =~= Seq::<HookV>::empty());
        }
        b
    }

    /// Add a subscriber with a bounded queue; returns its fresh handle.
    pub fn register(&mut self, cap: usize) -> (h: HookId)
        requires
            old(self).wf(),
            old(self).spec_next_id() < u64::MAX,
        ensures
            final(self).wf(),
            h.spec_id() == old(self).spec_next_id(),
            !has_hook(old(self).spec_subs(), h.spec_id()),
            final(self).spec_subs() == old(self).spec_subs().push(
                (h.spec_id(), cap, Seq::<EventV>::empty()),
            ),
            final(self).spec_next_id() == old(self).spec_next_id() + 1,
    {
        let id = self.next_id;
        self.next_id = self.next_id + 1;
        let hook = Hook { id, cap, queue: Vec::new() };
        proof {
            assert(hook.queue.deep_view() =~= Seq::<EventV>::empty());
            assert(hook.deep_view() == (id, cap, Seq::<EventV>::empty()));
        }
        self.subs.push(hook);
        proof {
            assert forall|j: int| 0 <= j < self.subs@.len() implies #[trigger] self.spec_subs()[j]
                == old(self).spec_subs().push((id, cap, Seq::<EventV>::empty()))[j] by {
                lemma_vec_deep_view_index(&self.subs, j);
                if j < self.subs@.len() - 1 {
                    assert(self.subs@[j] == old(self).subs@[j]);
                }
            }
            assert(self.spec_subs() =~= old(self).spec_subs().push(
                (id, cap, Seq::<EventV>::empty()),
            ));
        }
        HookId { id }
    }

    /// Remove a subscriber; idempotent for an already-removed handle.
    pub fn unregister(&mut self, h: HookId)
        requires
            old(self).wf(),
        ensures
            final(self).wf(),
            final(self).spec_subs() == spec_unregister(old(self).spec_subs(), h.spec_id()),
            final(self).spec_next_id() == old(self).spec_next_id(),
    {
        let ghost hs = self.spec_subs();
        let mut i: usize = 0;
        while i < self.subs.len()
            invariant
                old(self).wf(),
                *self == *old(self),
                hs == self.spec_subs(),
                i <= self.subs.len(),
                forall|j: int| 0 <= j < i ==> hs[j].0 != h.spec_id(),
            decreases self.subs.len() - i,
        {
            proof {
                lemma_vec_deep_view_index(&self.subs, i as int);
            }
            if self.subs[i].id == h.id {
                proof {
                    assert(hs[i as int].0 == h.spec_id());
                    assert(has_hook(hs, h.spec_id()));
                    let k = hook_idx(hs, h.spec_id());
                    assert(0 <= k < hs.len() && hs[k].0 == h.spec_id());
                    assert(k == i as int);
                }
                self.subs.remove(i);
                proof {
                    assert forall|j: int| 0 <= j < self.subs@.len() implies #[trigger] self
                        .spec_subs()[j] == hs.remove(i as int)[j] by {
                        lemma_vec_deep_view_index(&self.subs, j);
                        if j < i as int {
                            lemma_vec_deep_view_index(&old(self).subs, j);
                        } else {
                            lemma_vec_deep_view_index(&old(self).subs, j + 1);
                        }
                    }
                    assert(self.spec_subs() =~= hs.remove(i as int));
                }
                return ;
            }
            i += 1;
        }
        proof {
            assert(!has_hook(hs, h.spec_id()));
        }
    }

    /// Broadcast an event: each subscriber with room gets a copy appended to
    /// its queue; a full subscriber's queue is left as it is.
    pub fn publish(&mut self, e: &HookEvent)
        requires
            old(self).wf(),
        ensures
            final(self).wf(),
            final(self).spec_subs() == spec_publish(old(self).spec_subs(), e.deep_view()),
            final(self).spec_next_id() == old(self).spec_next_id(),
    {
        let ghost hs = old(self).spec_subs();
        let n = self.subs.len();
        let mut i: usize = 0;
        while i < n
            invariant
                n == self.subs@.len(),
                i <= n,
                hs.len() == n,
                self.next_id == old(self).next_id,
                hs == old(self).spec_subs(),
                forall|j: int| 0 <= j < i ==> #[trigger] self.subs@[j].deep_view() == spec_deliver(
                    hs[j],
                    e.deep_view(),
                ),
                forall|j: int| i <= j < n ==> self.subs@[j] == old(self).subs@[j],
            decreases n - i,
        {
            let ghost prev = self.subs@;
            proof {
                lemma_vec_deep_view_index(&old(self).subs, i as int);
                assert(prev[i as int].deep_view() == hs[i as int]);
            }
            let mut hook = self.subs.remove(i);
            if hook.queue.len() < hook.cap {
                let ghost q0 = hook.queue.deep_view();
                let ev2 = dup_event(e);
                hook.queue.push(ev2);
                proof {
                    assert forall|j: int| 0 <= j < hook.queue@.len() implies #[trigger] hook
                        .queue.deep_view()[j] == q0.push(e.deep_view())[j] by {
                        lemma_vec_deep_view_index(&hook.queue, j);
                        if j < hook.queue@.len() - 1 {
                            lemma_vec_deep_view_index(&prev[i as int].queue, j);
                        }
                    }
                    assert(hook.queue.deep_view() =~= q0.push(e.deep_view()));
                }
            }
            proof {
                assert(hook.deep_view() == spec_deliver(hs[i as int], e.deep_view()));
            }
            self.subs.insert(i, hook);
            proof {
                assert forall|j: int| 0 <= j < n && j != i implies self.subs@[j] == prev[j] by {
                    assert(self.subs@ == prev.remove(i as int).insert(i as int, hook));
                }
                assert(self.subs@[i as int] == hook);
            }
            i += 1;
        }
        proof {
            assert forall|k: int| 0 <= k < n implies #[trigger] self.spec_subs()[k] == spec_publish(
                hs,
                e.deep_view(),
            )[k] by {
                lemma_vec_deep_view_index(&self.subs, k);
            }
            assert(self.spec_subs() =~= spec_publish(hs, e.deep_view()));
            assert forall|k: int| 0 <= k < self.spec_subs().len() implies #[trigger] self
                .spec_subs()[k].0 < self.spec_next_id() by {
                assert(self.spec_subs()[k].0 == hs[k].0);
            }
            assert forall|a: int, b: int| 0 <= a < b < self.spec_subs().len() implies self
                .spec_subs()[a].0 != self.spec_subs()[b].0 by {
                assert(self.spec_subs()[a].0 == hs[a].0);
                assert(self.spec_subs()[b].0 == hs[b].0);
            }
        }
    }

    /// Take the oldest pending event of a subscriber, if any.
    pub fn take(&mut self, h: HookId) -> (r: Option<HookEvent>)
        requires
            old(self).wf(),
        ensures
            final(self).wf(),
            final(self).spec_next_id() == old(self).spec_next_id(),
            ({
                let hs = old(self).spec_subs();
                if has_hook(hs, h.spec_id()) && hs[hook_idx(hs, h.spec_id())].2.len() > 0 {
                    let k = hook_idx(hs, h.spec_id());
                    &&& r is Some
                    &&& r.unwrap().deep_view() == hs[k].2[0]
                    &&& final(self).spec_subs() == hs.update(
                        k,
                        (hs[k].0, hs[k].1, hs[k].2.subrange(1, hs[k].2.len() as int)),
                    )
                } else {
                    r is None && final(self).spec_subs() == hs
                }
            }),
    {
        let ghost hs = self.spec_subs();
        let mut i: usize = 0;
        while i < self.subs.len()
            invariant
                old(self).wf(),
                *self == *old(self),
                hs == self.spec_subs(),
                i <= self.subs.len(),
                forall|j: int| 0 <= j < i ==> hs[j].0 != h.spec_id(),
            decreases self.subs.len() - i,
        {
            proof {
                lemma_vec_deep_view_index(&self.subs, i as int);
            }
            if self.subs[i].id == h.id {
                proof {
                    assert(hs[i as int].0 == h.spec_id());
                    assert(has_hook(hs, h.spec_id()));
                    let k = hook_idx(hs, h.spec_id());
                    assert(0 <= k < hs.len() && hs[k].0 == h.spec_id());
                    assert(k == i as int);
                }
                let ghost prev = self.subs@;
                let mut hook = self.subs.remove(i);
                if hook.queue.len() == 0 {
                    proof {
                        assert(hs[i as int].2.len() == 0);
                    }
                    self.subs.insert(i, hook);
                    proof {
                        assert(self.subs@ =~= prev);
                    }
                    return None;
                }
                let ghost q0 = hook.queue.deep_view();
                let ev = hook.queue.remove(0);
                proof {
                    lemma_vec_deep_view_index(&prev[i as int].queue, 0);
                    assert(ev.deep_view() == hs[i as int].2[0]);
                    assert forall|j: int| 0 <= j < hook.queue@.len() implies #[trigger] hook
                        .queue.deep_view()[j] == q0.subrange(1, q0.len() as int)[j] by {
                        lemma_vec_deep_view_index(&hook.queue, j);
                        lemma_vec_deep_view_index(&prev[i as int].queue, j + 1);
                    }
                    assert(hook.queue.deep_view() =~= q0.subrange(1, q0.len() as int));
                }
                self.subs.insert(i, hook);
                proof {
                    assert forall|j: int| 0 <= j < self.subs@.len() implies #[trigger] self
                        .spec_subs()[j] == hs.update(
                        i as int,
                        (hs[i as int].0, hs[i as int].1, hs[i as int].2.subrange(
                            1,
                            hs[i as int].2.len() as int,
                        )),
                    )[j] by {
                        lemma_vec_deep_view_index(&self.subs, j);
                        if j != i as int {
                            assert(self.subs@[j] == prev[j]) by {
                                assert(self.subs@ == prev.remove(i as int).insert(
                                    i as int,
                                    self.subs@[i as int],
                                ));
                            }
                            lemma_vec_deep_view_index(&old(self).subs, j);
                        }
                    }
                    assert(self.spec_subs() =~= hs.update(
                        i as int,
                        (hs[i as int].0, hs[i as int].1, hs[i as int].2.subrange(
                            1,
                            hs[i as int].2.len() as int,
                        )),
                    ));
                    assert forall|a: int, b: int|
                        0 <= a < b < self.spec_subs().len() implies self.spec_subs()[a].0 != self
                        .spec_subs()[b].0 by {
                        assert(self.spec_subs()[a].0 == hs[a].0);
                        assert(self.spec_subs()[b].0 == hs[b].0);
                    }
                    assert forall|k: int| 0 <= k < self.spec_subs().len() implies #[trigger] self
                        .spec_subs()[k].0 < self.spec_next_id() by {
                        assert(self.spec_subs()[k].0 == hs[k].0);
                    }
                }
                return Some(ev);
            }
            i += 1;
        }
        proof {
            assert(!has_hook(hs, h.spec_id()));
        }
        None
    }
}

} // verus!
