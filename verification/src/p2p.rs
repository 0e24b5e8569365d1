//! The shared peer registry.
//!
//! Process-wide state: this instance's stable identity, the application
//! name, the current network listeners, the published metadata, and the set
//! of currently-discovered remote peers. The registry owns the hook bus and
//! broadcasts a structured event on every discoverable state change.
//!
//! Every mutation of the discovered-peer map is one logical update
//! (insert-if-absent, refresh-in-place, or remove), matching the scoped
//! mutable-view discipline of the wider system: each such update is atomic
//! with respect to the others.

use vstd::prelude::*;

use crate::hooks::{
    dup_listeners, dup_pairs, has_hook, hook_idx, lemma_vec_deep_view_index, spec_publish,
    spec_unregister, distinct_hook_ids, EventV, HookBus, HookEvent, HookId, HookV,
};
use crate::identity::{RemoteIdentity, ID_LEN};
use crate::peer::{Address, Peer, PeerV};

verus! {

/// Whether the discovered map holds a peer under key `k`.
pub open spec fn has_peer(s: Seq<(Seq<u8>, PeerV)>, k: Seq<u8>) -> bool {
    exists|i: int| 0 <= i < s.len() && s[i].0 == k
}

/// The index of the peer keyed `k` (meaningful under `has_peer`).
pub open spec fn peer_idx(s: Seq<(Seq<u8>, PeerV)>, k: Seq<u8>) -> int {
    choose|i: int| 0 <= i < s.len() && s[i].0 == k
}

/// All peer keys are distinct.
pub open spec fn distinct_peer_keys(s: Seq<(Seq<u8>, PeerV)>) -> bool {
    forall|i: int, j: int| 0 <= i < j < s.len() ==> s[i].0 != s[j].0
}

/// The peer registry.
pub struct P2P {
    identity: RemoteIdentity,
    app_name: Vec<u8>,
    listeners: Vec<(String, Address)>,
    metadata: Vec<(String, String)>,
    discovered: Vec<(RemoteIdentity, Peer)>,
    bus: HookBus,
}

impl P2P {
    /// This instance's identity, as bytes.
    pub closed spec fn id(&self) -> Seq<u8> {
        self.identity@
    }

    /// The application name, as bytes.
    pub closed spec fn app(&self) -> Seq<u8> {
        self.app_name@
    }

    /// The current listeners: transport tag to address.
    pub closed spec fn spec_listeners(&self) -> Seq<(Seq<char>, (Seq<char>, u16))> {
        self.listeners.deep_view()
    }

    /// The local metadata published to peers.
    pub closed spec fn spec_metadata(&self) -> Seq<(Seq<char>, Seq<char>)> {
        self.metadata.deep_view()
    }

    /// The discovered-peer map, as a key-ordered association sequence.
    pub closed spec fn spec_discovered(&self) -> Seq<(Seq<u8>, PeerV)> {
        self.discovered.deep_view()
    }

    /// The hook bus subscribers.
    pub closed spec fn spec_hooks(&self) -> Seq<HookV> {
        self.bus.spec_subs()
    }

    /// The next fresh hook handle.
    pub closed spec fn spec_next_hook_id(&self) -> u64 {
        self.bus.spec_next_id()
    }

    /// Registry invariant: a well-formed identity, distinct peer keys, never
    /// the local identity among them, and a well-formed hook bus.
    pub open spec fn wf(&self) -> bool {
        &&& self.id().len() == ID_LEN
        &&& distinct_peer_keys(self.spec_discovered())
        &&& !has_peer(self.spec_discovered(), self.id())
        &&& distinct_hook_ids(self.spec_hooks())
        &&& forall|i: int|
            0 <= i < self.spec_hooks().len() ==> #[trigger] self.spec_hooks()[i].0
                < self.spec_next_hook_id()
    }

    /// A fresh registry: no listeners, no metadata, no discovered peers,
    /// no subscribers.
    pub fn new(identity: RemoteIdentity, app_name: Vec<u8>) -> (p: P2P)
        requires
            identity.wf(),
        ensures
            p.wf(),
            p.id() == identity@,
            p.app() == app_name@,
            p.spec_listeners() == Seq::<(Seq<char>, (Seq<char>, u16))>::empty(),
            p.spec_metadata() == Seq::<(Seq<char>, Seq<char>)>::empty(),
            p.spec_discovered() == Seq::<(Seq<u8>, PeerV)>::empty(),
            p.spec_hooks() == Seq::<HookV>::empty(),
            p.spec_next_hook_id() == 0,
    {
        let p = P2P {
            identity,
            app_name,
            listeners: Vec::new(),
            metadata: Vec::new(),
            discovered: Vec::new(),
            bus: HookBus::new(),
        };
        proof {
            assert(p.spec_listeners() =~= Seq::<(Seq<char>, (Seq<char>, u16))>::empty());
            assert(p.spec_metadata() =~= Seq::<(Seq<char>, Seq<char>)>::empty());
            assert(p.spec_discovered() =~= Seq::<(Seq<u8>, PeerV)>::empty());
        }
        p
    }

    /// This instance's identity; immutable for the registry's lifetime.
    pub fn remote_identity(&self) -> (r: &RemoteIdentity)
        ensures
            r@ == self.id(),
    {
        &self.identity
    }

    /// The application name; immutable for the registry's lifetime.
    pub fn app_name(&self) -> (r: &Vec<u8>)
        ensures
            r@ == self.app(),
    {
        &self.app_name
    }

    /// The current bound network listeners.
    pub fn listeners(&self) -> (r: &Vec<(String, Address)>)
        ensures
            r.deep_view() == self.spec_listeners(),
    {
        &self.listeners
    }

    /// The local metadata published to peers.
    pub fn metadata(&self) -> (r: &Vec<(String, String)>)
        ensures
            r.deep_view() == self.spec_metadata(),
    {
        &self.metadata
    }

    /// The discovered-peer map, readable by any other subsystem.
    pub fn discovered(&self) -> (r: &Vec<(RemoteIdentity, Peer)>)
        ensures
            r.deep_view() == self.spec_discovered(),
    {
        &self.discovered
    }

    /// The handle the next hook registration will be issued.
    pub fn next_hook_id(&self) -> (n: u64)
        ensures
            n == self.spec_next_hook_id(),
    {
        self.bus.next_id()
    }

    /// Replace the local metadata and broadcast `MetadataChange`.
    pub fn set_metadata(&mut self, metadata: Vec<(String, String)>)
        requires
            old(self).wf(),
        ensures
            final(self).wf(),
            final(self).spec_metadata() == metadata.deep_view(),
            final(self).spec_hooks() == spec_publish(
                old(self).spec_hooks(),
                EventV::Metadata(metadata.deep_view()),
            ),
            final(self).id() == old(self).id(),
            final(self).app() == old(self).app(),
            final(self).spec_listeners() == old(self).spec_listeners(),
            final(self).spec_discovered() == old(self).spec_discovered(),
            final(self).spec_next_hook_id() == old(self).spec_next_hook_id(),
    {
        let copy = dup_pairs(&metadata);
        self.metadata = metadata;
        let ev = HookEvent::MetadataChange(copy);
        self.bus.publish(&ev);
    }

    /// Replace the bound listeners and broadcast `ListenersChange`.
    pub fn set_listeners(&mut self, listeners: Vec<(String, Address)>)
        requires
            old(self).wf(),
        ensures
            final(self).wf(),
            final(self).spec_listeners() == listeners.deep_view(),
            final(self).spec_hooks() == spec_publish(
                old(self).spec_hooks(),
                EventV::Listeners(listeners.deep_view()),
            ),
            final(self).id() == old(self).id(),
            final(self).app() == old(self).app(),
            final(self).spec_metadata() == old(self).spec_metadata(),
            final(self).spec_discovered() == old(self).spec_discovered(),
            final(self).spec_next_hook_id() == old(self).spec_next_hook_id(),
    {
        let copy = dup_listeners(&listeners);
        self.listeners = listeners;
        let ev = HookEvent::ListenersChange(copy);
        self.bus.publish(&ev);
    }

    /// Broadcast `Shutdown`: the registry is tearing down and every
    /// transport must release its resources.
    pub fn announce_shutdown(&mut self)
        requires
            old(self).wf(),
        ensures
            final(self).wf(),
            final(self).spec_hooks() == spec_publish(old(self).spec_hooks(), EventV::Shutdown),
            final(self).id() == old(self).id(),
            final(self).app() == old(self).app(),
            final(self).spec_listeners() == old(self).spec_listeners(),
            final(self).spec_metadata() == old(self).spec_metadata(),
            final(self).spec_discovered() == old(self).spec_discovered(),
            final(self).spec_next_hook_id() == old(self).spec_next_hook_id(),
    {
        let ev = HookEvent::Shutdown;
        self.bus.publish(&ev);
    }

    /// Add a subscriber with a bounded queue; it receives every subsequent
    /// event. Returns the handle for later removal.
    pub fn register_hook(&mut self, capacity: usize) -> (h: HookId)
        requires
            old(self).wf(),
            old(self).spec_next_hook_id() < u64::MAX,
        ensures
            final(self).wf(),
            h.spec_id() == old(self).spec_next_hook_id(),
            !has_hook(old(self).spec_hooks(), h.spec_id()),
            final(self).spec_hooks() == old(self).spec_hooks().push(
                (h.spec_id(), capacity, Seq::<EventV>::empty()),
            ),
            has_hook(final(self).spec_hooks(), h.spec_id()),
            final(self).spec_next_hook_id() == old(self).spec_next_hook_id() + 1,
            final(self).id() == old(self).id(),
            final(self).app() == old(self).app(),
            final(self).spec_listeners() == old(self).spec_listeners(),
            final(self).spec_metadata() == old(self).spec_metadata(),
            final(self).spec_discovered() == old(self).spec_discovered(),
    {
        let h = self.bus.register(capacity);
        proof {
            let hs = final(self).spec_hooks();
            assert(hs[hs.len() - 1].0 == h.spec_id());
        }
        h
    }

    /// Remove a subscriber; idempotent for an already-removed handle.
    pub fn unregister_hook(&mut self, h: HookId)
        requires
            old(self).wf(),
        ensures
            final(self).wf(),
            final(self).spec_hooks() == spec_unregister(old(self).spec_hooks(), h.spec_id()),
            !has_hook(final(self).spec_hooks(), h.spec_id()),
            final(self).id() == old(self).id(),
            final(self).app() == old(self).app(),
            final(self).spec_listeners() == old(self).spec_listeners(),
            final(self).spec_metadata() == old(self).spec_metadata(),
            final(self).spec_discovered() == old(self).spec_discovered(),
            final(self).spec_next_hook_id() == old(self).spec_next_hook_id(),
    {
        proof {
            crate::hooks::lemma_unregister_stops_delivery(
                old(self).spec_hooks(),
                h.spec_id(),
                EventV::Shutdown,
            );
        }
        self.bus.unregister(h);
    }

    /// Take the oldest pending event of a subscriber, if any.
    pub fn take_event(&mut self, h: HookId) -> (r: Option<HookEvent>)
        requires
            old(self).wf(),
        ensures
            final(self).wf(),
            ({
                let hs = old(self).spec_hooks();
                if has_hook(hs, h.spec_id()) && hs[hook_idx(hs, h.spec_id())].2.len() > 0 {
                    let k = hook_idx(hs, h.spec_id());
                    &&& r is Some
                    &&& r.unwrap().deep_view() == hs[k].2[0]
                    &&& final(self).spec_hooks() == hs.update(
                        k,
                        (hs[k].0, hs[k].1, hs[k].2.subrange(1, hs[k].2.len() as int)),
                    )
                } else {
                    r is None && final(self).spec_hooks() == hs
                }
            }),
            final(self).id() == old(self).id(),
            final(self).app() == old(self).app(),
            final(self).spec_listeners() == old(self).spec_listeners(),
            final(self).spec_metadata() == old(self).spec_metadata(),
            final(self).spec_discovered() == old(self).spec_discovered(),
            final(self).spec_next_hook_id() == old(self).spec_next_hook_id(),
    {
        self.bus.take(h)
    }

    /// Whether a peer with this identity has been discovered.
    pub fn discovered_contains(&self, id: &RemoteIdentity) -> (b: bool)
        ensures
            b == has_peer(self.spec_discovered(), id@),
    {
        let ghost s = self.spec_discovered();
        let mut i: usize = 0;
        while i < self.discovered.len()
            invariant
                s == self.spec_discovered(),
                i <= self.discovered@.len(),
                s.len() == self.discovered@.len(),
                forall|j: int| 0 <= j < i ==> s[j].0 != id@,
            decreases self.discovered@.len() - i,
        {
            proof {
                lemma_vec_deep_view_index(&self.discovered, i as int);
            }
            if self.discovered[i].0 == *id {
                proof {
                    assert(s[i as int].0 == id@);
                }
                return true;
            }
            i += 1;
        }
        proof {
            assert(!has_peer(s, id@));
        }
        false
    }

    /// Insert a newly discovered peer and broadcast `DiscoveredChange`.
    /// A no-op for the local identity — an instance never discovers itself —
    /// and for an identity that is already present.
    pub fn insert_discovered(&mut self, id: RemoteIdentity, peer: Peer)
        requires
            old(self).wf(),
        ensures
            final(self).wf(),
            ({
                if id@ == old(self).id() || has_peer(old(self).spec_discovered(), id@) {
                    final(self).spec_discovered() == old(self).spec_discovered()
                        && final(self).spec_hooks() == old(self).spec_hooks()
                } else {
                    final(self).spec_discovered() == old(self).spec_discovered().push(
                        (id@, peer.deep_view()),
                    ) && final(self).spec_hooks() == spec_publish(
                        old(self).spec_hooks(),
                        EventV::Discovered(id@),
                    )
                }
            }),
            final(self).id() == old(self).id(),
            final(self).app() == old(self).app(),
            final(self).spec_listeners() == old(self).spec_listeners(),
            final(self).spec_metadata() == old(self).spec_metadata(),
            final(self).spec_next_hook_id() == old(self).spec_next_hook_id(),
    {
        if id == self.identity {
            return ;
        }
        if self.discovered_contains(&id) {
            return ;
        }
        let ev = HookEvent::DiscoveredChange(id.duplicate());
        self.bus.publish(&ev);
        let ghost s = old(self).spec_discovered();
        self.discovered.push((id, peer));
        proof {
            assert forall|j: int| 0 <= j < self.discovered@.len() implies #[trigger] self
                .spec_discovered()[j] == s.push((id@, peer.deep_view()))[j] by {
                lemma_vec_deep_view_index(&self.discovered, j);
                if j < self.discovered@.len() - 1 {
                    assert(self.discovered@[j] == old(self).discovered@[j]);
                    lemma_vec_deep_view_index(&old(self).discovered, j);
                }
            }
            assert(self.spec_discovered() =~= s.push((id@, peer.deep_view())));
            assert forall|a: int, b: int|
                0 <= a < b < self.spec_discovered().len() implies self.spec_discovered()[a].0
                != self.spec_discovered()[b].0 by {
                if b < self.spec_discovered().len() - 1 {
                    assert(s[a].0 != s[b].0);
                }
            }
        }
    }

    /// Refresh the service metadata of an already-discovered peer from a new
    /// discovery record; status and addresses are kept. A no-op for an
    /// unknown identity.
    pub fn refresh_discovered(&mut self, id: &RemoteIdentity, service: Vec<(String, String)>)
        requires
            old(self).wf(),
        ensures
            final(self).wf(),
            ({
                let s = old(self).spec_discovered();
                if has_peer(s, id@) {
                    let k = peer_idx(s, id@);
                    final(self).spec_discovered() == s.update(
                        k,
                        (s[k].0, (s[k].1.0, service.deep_view(), s[k].1.2)),
                    )
                } else {
                    final(self).spec_discovered() == s
                }
            }),
            final(self).spec_hooks() == old(self).spec_hooks(),
            final(self).id() == old(self).id(),
            final(self).app() == old(self).app(),
            final(self).spec_listeners() == old(self).spec_listeners(),
            final(self).spec_metadata() == old(self).spec_metadata(),
            final(self).spec_next_hook_id() == old(self).spec_next_hook_id(),
    {
        let ghost s = self.spec_discovered();
        let mut i: usize = 0;
        while i < self.discovered.len()
            invariant
                old(self).wf(),
                *self == *old(self),
                s == self.spec_discovered(),
                i <= self.discovered@.len(),
                forall|j: int| 0 <= j < i ==> s[j].0 != id@,
            decreases self.discovered@.len() - i,
        {
            proof {
                lemma_vec_deep_view_index(&self.discovered, i as int);
            }
            if self.discovered[i].0 == *id {
                proof {
                    assert(s[i as int].0 == id@);
                    assert(has_peer(s, id@));
                    let k = peer_idx(s, id@);
                    assert(0 <= k < s.len() && s[k].0 == id@);
                    assert(k == i as int);
                }
                let ghost prev = self.discovered@;
                let mut entry = self.discovered.remove(i);
                entry.1.set_service(service);
                self.discovered.insert(i, entry);
                proof {
                    let target = s.update(
                        i as int,
                        (s[i as int].0, (s[i as int].1.0, service.deep_view(), s[i as int].1.2)),
                    );
                    assert forall|j: int| 0 <= j < self.discovered@.len() implies #[trigger] self
                        .spec_discovered()[j] == target[j] by {
                        lemma_vec_deep_view_index(&self.discovered, j);
                        if j != i as int {
                            assert(self.discovered@[j] == prev[j]) by {
                                assert(self.discovered@ == prev.remove(i as int).insert(
                                    i as int,
                                    self.discovered@[i as int],
                                ));
                            }
                            lemma_vec_deep_view_index(&old(self).discovered, j);
                        }
                    }
                    assert(self.spec_discovered() =~= target);
                    assert forall|a: int, b: int|
                        0 <= a < b < self.spec_discovered().len() implies self.spec_discovered()[
                        a].0 != self.spec_discovered()[b].0 by {
                        assert(self.spec_discovered()[a].0 == s[a].0);
                        assert(self.spec_discovered()[b].0 == s[b].0);
                    }
                    assert forall|j: int|
                        0 <= j < self.spec_discovered().len() implies #[trigger] self
                        .spec_discovered()[j].0 != self.id() by {
                        assert(self.spec_discovered()[j].0 == s[j].0);
                        assert(s[j].0 != old(self).id());
                    }
                    assert(!has_peer(self.spec_discovered(), self.id()));
                }
                return ;
            }
            i += 1;
        }
        proof {
            assert(!has_peer(s, id@));
        }
    }

    /// Remove a peer from the discovered map and broadcast
    /// `DiscoveredChange`; a no-op for an unknown identity.
    pub fn remove_discovered(&mut self, id: &RemoteIdentity)
        requires
            old(self).wf(),
        ensures
            final(self).wf(),
            ({
                let s = old(self).spec_discovered();
                if has_peer(s, id@) {
                    final(self).spec_discovered() == s.remove(peer_idx(s, id@))
                        && final(self).spec_hooks() == spec_publish(
                        old(self).spec_hooks(),
                        EventV::Discovered(id@),
                    )
                } else {
                    final(self).spec_discovered() == s && final(self).spec_hooks() == old(
                        self,
                    ).spec_hooks()
                }
            }),
            final(self).id() == old(self).id(),
            final(self).app() == old(self).app(),
            final(self).spec_listeners() == old(self).spec_listeners(),
            final(self).spec_metadata() == old(self).spec_metadata(),
            final(self).spec_next_hook_id() == old(self).spec_next_hook_id(),
    {
        let ghost s = self.spec_discovered();
        let mut i: usize = 0;
        while i < self.discovered.len()
            invariant
                old(self).wf(),
                *self == *old(self),
                s == self.spec_discovered(),
                i <= self.discovered@.len(),
                forall|j: int| 0 <= j < i ==> s[j].0 != id@,
            decreases self.discovered@.len() - i,
        {
            proof {
                lemma_vec_deep_view_index(&self.discovered, i as int);
            }
            if self.discovered[i].0 == *id {
                proof {
                    assert(s[i as int].0 == id@);
                    assert(has_peer(s, id@));
                    let k = peer_idx(s, id@);
                    assert(0 <= k < s.len() && s[k].0 == id@);
                    assert(k == i as int);
                }
                self.discovered.remove(i);
                proof {
                    assert forall|j: int| 0 <= j < self.discovered@.len() implies #[trigger] self
                        .spec_discovered()[j] == s.remove(i as int)[j] by {
                        lemma_vec_deep_view_index(&self.discovered, j);
                        if j < i as int {
                            lemma_vec_deep_view_index(&old(self).discovered, j);
                        } else {
                            lemma_vec_deep_view_index(&old(self).discovered, j + 1);
                        }
                    }
                    assert(self.spec_discovered() =~= s.remove(i as int));
                    assert forall|a: int, b: int|
                        0 <= a < b < self.spec_discovered().len() implies self.spec_discovered()[
                        a].0 != self.spec_discovered()[b].0 by {
                        let sa = if a < i as int { s[a] } else { s[a + 1] };
                        let sb = if b < i as int { s[b] } else { s[b + 1] };
                        assert(self.spec_discovered()[a] == sa);
                        assert(self.spec_discovered()[b] == sb);
                    }
                    assert forall|j: int|
                        0 <= j < self.spec_discovered().len() implies #[trigger] self
                        .spec_discovered()[j].0 != self.id() by {
                        if j < i as int {
                            assert(self.spec_discovered()[j] == s[j]);
                        } else {
                            assert(self.spec_discovered()[j] == s[j + 1]);
                        }
                    }
                    assert(!has_peer(self.spec_discovered(), self.id()));
                }
                let ev = HookEvent::DiscoveredChange(id.duplicate());
                self.bus.publish(&ev);
                return ;
            }
            i += 1;
        }
        proof {
            assert(!has_peer(s, id@));
        }
    }
}

/// The discovered-peer map never contains the local identity: self-discovery
/// is suppressed even when a resolved record names it.
pub proof fn lemma_local_never_discovered(p: &P2P)
    requires
        p.wf(),
    ensures
        !has_peer(p.spec_discovered(), p.id()),
{
}

} // verus!
