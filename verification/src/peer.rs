//! Peers and their state.
//!
//! A `Peer` is the registry's record for one remote participant: its status
//! state machine, the service metadata copied from its discovery records,
//! and its advertisement-derived network addresses.

use vstd::prelude::*;

verus! {

/// A peer's lifecycle state. Transitions are driven only by discovery and
/// connection events; this discovery core exercises `Discovered`.
#[derive(Clone, Copy, PartialEq, Eq, Structural, Debug)]
pub enum PeerStatus {
    Unavailable,
    Discovered,
    Connected,
}

impl DeepView for PeerStatus {
    type V = PeerStatus;

    open spec fn deep_view(&self) -> PeerStatus {
        *self
    }
}

/// A network address: a textual IP and a port.
pub struct Address {
    pub ip: String,
    pub port: u16,
}

impl DeepView for Address {
    type V = (Seq<char>, u16);

    open spec fn deep_view(&self) -> (Seq<char>, u16) {
        (self.ip.deep_view(), self.port)
    }
}

impl Address {
    /// An independent copy with the same content.
    pub fn duplicate(&self) -> (r: Address)
        ensures
            r.deep_view() == self.deep_view(),
    {
        Address { ip: self.ip.clone(), port: self.port }
    }
}

/// The mathematical content of a `Peer`: status, service metadata pairs,
/// and addresses.
pub type PeerV = (PeerStatus, Seq<(Seq<char>, Seq<char>)>, Seq<(Seq<char>, u16)>);

/// One remote participant's record, owned by the registry's discovered map.
pub struct Peer {
    status: PeerStatus,
    service: Vec<(String, String)>,
    addresses: Vec<Address>,
}

impl DeepView for Peer {
    type V = PeerV;

    open spec fn deep_view(&self) -> PeerV {
        (self.spec_status(), self.spec_service(), self.spec_addresses())
    }
}

impl Peer {
    pub closed spec fn spec_status(&self) -> PeerStatus {
        self.status
    }

    pub closed spec fn spec_service(&self) -> Seq<(Seq<char>, Seq<char>)> {
        self.service.deep_view()
    }

    pub closed spec fn spec_addresses(&self) -> Seq<(Seq<char>, u16)> {
        self.addresses.deep_view()
    }

    /// A fresh peer: unavailable, no metadata, no addresses.
    pub fn new() -> (p: Peer)
        ensures
            p.spec_status() == PeerStatus::Unavailable,
            p.spec_service() == Seq::<(Seq<char>, Seq<char>)>::empty(),
            p.spec_addresses() == Seq::<(Seq<char>, u16)>::empty(),
    {
        let p = Peer { status: PeerStatus::Unavailable, service: Vec::new(), addresses: Vec::new() };
        proof {
            assert(p.spec_service() =~= Seq::<(Seq<char>, Seq<char>)>::empty());
            assert(p.spec_addresses() =~= Seq::<(Seq<char>, u16)>::empty());
        }
        p
    }

    pub fn status(&self) -> (s: PeerStatus)
        ensures
            s == self.spec_status(),
    {
        self.status
    }

    /// Drive the status state machine to a new state.
    pub fn set_state(&mut self, status: PeerStatus)
        ensures
            final(self).spec_status() == status,
            final(self).spec_service() == old(self).spec_service(),
            final(self).spec_addresses() == old(self).spec_addresses(),
    {
        self.status = status;
    }

    pub fn service(&self) -> (m: &Vec<(String, String)>)
        ensures
            m.deep_view() == self.spec_service(),
    {
        &self.service
    }

    /// Replace the service metadata with the pairs of a discovery record.
    pub fn set_service(&mut self, service: Vec<(String, String)>)
        ensures
            final(self).spec_service() == service.deep_view(),
            final(self).spec_status() == old(self).spec_status(),
            final(self).spec_addresses() == old(self).spec_addresses(),
    {
        self.service = service;
    }

    pub fn addresses(&self) -> (a: &Vec<Address>)
        ensures
            a.deep_view() == self.spec_addresses(),
    {
        &self.addresses
    }
}

} // verus!
