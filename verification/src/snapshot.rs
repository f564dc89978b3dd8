//! The big ledger peer snapshot of a cardano-node, peerSnapshotV3 layout.

use vstd::prelude::*;

verus! {

/// A cardano-node peer snapshot. Stake is of type `S`: nothing here depends
/// on how it is written down.
#[derive(Clone, Debug)]
pub struct Snapshot<S> {
    pub network_magic: u64,
    pub node_to_client_version: u64,
    pub point: Point,
    pub pools: Vec<Pool<S>>,
}

#[derive(Clone, Debug)]
pub struct Point {
    pub block_point_hash: String,
    pub block_point_slot: u64,
}

#[derive(Clone, Debug)]
pub struct Pool<S> {
    pub accumulated_stake: S,
    pub relative_stake: S,
    pub relays: Vec<Relay>,
}

/// One relay of a pool. No port means that the address is an SRV record name.
#[derive(Clone, Debug)]
pub struct Relay {
    pub address: String,
    pub port: Option<u16>,
}

pub struct RelayView {
    pub address: Seq<char>,
    pub port: Option<u16>,
}

impl DeepView for Relay {
    type V = RelayView;

    open spec fn deep_view(&self) -> RelayView {
        RelayView { address: self.address@, port: self.port }
    }
}

/// A pool, its stakes as they are.
pub struct PoolView<S> {
    pub accumulated_stake: S,
    pub relative_stake: S,
    pub relays: Seq<RelayView>,
}

impl<S: DeepView> DeepView for Pool<S> {
    type V = PoolView<S::V>;

    open spec fn deep_view(&self) -> PoolView<S::V> {
        PoolView {
            accumulated_stake: self.accumulated_stake.deep_view(),
            relative_stake: self.relative_stake.deep_view(),
            relays: self.relays.deep_view(),
        }
    }
}

} // verus!
