//! Peer-discovery core for a local-network peer-to-peer system.
//!
//! The crate holds a shared peer registry (`p2p::P2P`) with a hook bus that
//! broadcasts state-change events to registered subscribers, and a
//! multicast-DNS discovery transport (`mdns::Mdns`) that advertises the local
//! instance as a service record, decodes resolved records back into peer
//! identities, and feeds the registry.

pub mod hooks;
pub mod identity;
pub mod mdns;
pub mod naming;
pub mod p2p;
pub mod peer;
