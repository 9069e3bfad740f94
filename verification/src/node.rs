//! The node's state: its peers, the requests it waits on, and the blocks it holds.
use vstd::prelude::*;

use crate::host::HostEvent;
use crate::host::NodeHost;
use crate::types::{
    AccumulatorProof, AddedPeerInfo, AddressState, Block, BlockHash, CompactLeafData, ConnectionKind, InflightRequest, IpAddress,
    LocalAddress, Network, PeerId, PeerStatus, ServiceFlags, TransportProtocol,
    NODE_COMPACT_FILTERS, NODE_UTREEXO,
};
use crate::vec_map::VecMap;

verus! {

/// What the node knows of a connected (or connecting) peer.
pub struct LocalPeerView {
    pub address: IpAddress,
    pub port: u16,
    pub user_agent: String,
    pub state: PeerStatus,
    pub services: ServiceFlags,
    pub kind: ConnectionKind,
    pub address_id: u32,
    pub height: u32,
    pub banscore: u32,
    pub transport_protocol: TransportProtocol,
}

/// A block that was downloaded and waits for its proof, or for its turn.
#[derive(Debug)]
pub struct InflightBlock {
    /// The peer that sent the block
    pub peer: PeerId,
    /// The block
    pub block: Block,
    /// The leaf data of the outputs it spends, once it arrived
    pub leaf_data: Option<Vec<CompactLeafData>>,
    /// Its proof, once it arrived
    pub proof: Option<AccumulatorProof>,
}

/// Settings of the node, fixed while it runs.
#[derive(Clone, Copy, Debug)]
pub struct NodeConfig {
    pub network: Network,
    /// Allow the V1 transport when the V2 handshake fails.
    pub allow_v1_fallback: bool,
    pub disable_dns_seeds: bool,
    /// The ban score at which a peer is banned.
    pub max_banscore: u32,
    /// How many peers the node keeps at most before it stops opening connections.
    pub max_outgoing_peers: usize,
    /// Seconds after which an unanswered connection attempt times out.
    pub connection_timeout_secs: u64,
    /// Seconds after which an unanswered request times out.
    pub request_timeout_secs: u64,
    /// Seconds for which the sender of an invalid block is banned.
    pub ban_time: u64,
    /// Seconds for which the address of a banned peer stays banned once it disconnects.
    pub disconnect_ban_time: u64,
    /// The only peer to connect to (`--connect`), if any.
    pub fixed_peer: Option<LocalAddress>,
}

/// A Utreexo node's P2P bookkeeping.
pub struct UtreexoNode<H> {
    pub config: NodeConfig,
    pub host: H,
    pub peers: VecMap<PeerId, LocalPeerView>,
    /// Peers that completed a regular handshake, in order.
    pub peer_ids: Vec<PeerId>,
    /// For each service that the node looks for, the ready peers offering it.
    pub peer_by_service: VecMap<ServiceFlags, Vec<PeerId>>,
    /// Requests waiting for an answer: the peer asked and when (monotonic nanoseconds).
    pub inflight: VecMap<InflightRequest, (PeerId, u64)>,
    /// Downloaded blocks waiting for their proof or for their turn.
    pub blocks: VecMap<BlockHash, InflightBlock>,
    /// Peers added by hand.
    pub added_peers: Vec<AddedPeerInfo>,
    /// The id the next connection gets.
    pub peer_id_count: u32,
    /// When the last feeler connection was opened (monotonic nanoseconds).
    pub last_feeler: u64,
    /// When the last regular connection was opened (monotonic nanoseconds).
    pub last_connection: u64,
    /// When the DNS seeds were last asked (monotonic nanoseconds).
    pub last_dns_seed_call: u64,
    /// When the node started (monotonic nanoseconds).
    pub startup_time: u64,
    /// When a block was last connected (monotonic nanoseconds).
    pub last_tip_update: u64,
    /// The height from which blocks are to be requested again.
    pub last_block_request: u32,
}

/// The node's bookkeeping as mathematical values.
pub struct NodeState {
    pub config: NodeConfig,
    pub peers: Map<PeerId, LocalPeerView>,
    pub peer_ids: Seq<PeerId>,
    pub peer_by_service: Map<ServiceFlags, Seq<PeerId>>,
    pub inflight: Map<InflightRequest, (PeerId, u64)>,
    pub blocks: Map<BlockHash, InflightBlock>,
    pub added_peers: Seq<AddedPeerInfo>,
    pub peer_id_count: u32,
    pub last_feeler: u64,
    pub last_connection: u64,
    pub last_dns_seed_call: u64,
    pub startup_time: u64,
    pub last_tip_update: u64,
    pub last_block_request: u32,
}

impl NodeState {
    /// The ready peers that offer `service`, as indexed.
    pub open spec fn service_peers(self, service: ServiceFlags) -> Seq<PeerId> {
        if self.peer_by_service.contains_key(service) {
            self.peer_by_service[service]
        } else {
            Seq::empty()
        }
    }

    /// Whether some indexed peer offers Utreexo proofs.
    pub open spec fn has_utreexo_peers(self) -> bool {
        self.service_peers(ServiceFlags(NODE_UTREEXO)).len() > 0
    }

    /// Whether some indexed peer offers compact filters.
    pub open spec fn has_compact_filters_peer(self) -> bool {
        self.service_peers(ServiceFlags(NODE_COMPACT_FILTERS)).len() > 0
    }
}

impl<H> View for UtreexoNode<H> {
    type V = NodeState;

    open spec fn view(&self) -> NodeState {
        NodeState {
            config: self.config,
            peers: self.peers@,
            peer_ids: self.peer_ids@,
            peer_by_service: self.peer_by_service@.map_values(|v: Vec<PeerId>| v@),
            inflight: self.inflight@,
            blocks: self.blocks@,
            added_peers: self.added_peers@,
            peer_id_count: self.peer_id_count,
            last_feeler: self.last_feeler,
            last_connection: self.last_connection,
            last_dns_seed_call: self.last_dns_seed_call,
            startup_time: self.startup_time,
            last_tip_update: self.last_tip_update,
            last_block_request: self.last_block_request,
        }
    }
}

impl<H: NodeHost> UtreexoNode<H> {
    /// The calls the node's host has had so far, the node's own among them.
    pub open spec fn trace(&self) -> Seq<HostEvent> {
        self.host.log()
    }

    /// The maps hold each key once, and every peer's id was handed out.
    pub open spec fn wf(&self) -> bool {
        &&& self.peers.wf()
        &&& self.peer_by_service.wf()
        &&& self.inflight.wf()
        &&& self.blocks.wf()
        &&& forall|id: PeerId| #[trigger] self.peers@.contains_key(id) ==> id < self.peer_id_count
    }

    /// Everything but the host and the trace is as in `other`.
    pub open spec fn same_bookkeeping(self, other: Self) -> bool {
        &&& self.config == other.config
        &&& self.peers == other.peers
        &&& self.peer_ids == other.peer_ids
        &&& self.peer_by_service == other.peer_by_service
        &&& self.inflight == other.inflight
        &&& self.blocks == other.blocks
        &&& self.added_peers == other.added_peers
        &&& self.peer_id_count == other.peer_id_count
        &&& self.last_feeler == other.last_feeler
        &&& self.last_connection == other.last_connection
        &&& self.last_dns_seed_call == other.last_dns_seed_call
        &&& self.startup_time == other.startup_time
        &&& self.last_tip_update == other.last_tip_update
        &&& self.last_block_request == other.last_block_request
    }

    /// A node with no peers, started at `now` (monotonic nanoseconds).
    pub fn new(config: NodeConfig, host: H, now: u64) -> (node: Self)
        ensures
            node.wf(),
            node.config == config,
            node@ == (NodeState {
                config,
                peers: Map::empty(),
                peer_ids: Seq::empty(),
                peer_by_service: Map::empty(),
                inflight: Map::empty(),
                blocks: Map::empty(),
                added_peers: Seq::empty(),
                peer_id_count: 0,
                last_feeler: now,
                last_connection: now,
                last_dns_seed_call: now,
                startup_time: now,
                last_tip_update: now,
                last_block_request: 0,
            }),
            node.host == host,
            node.trace() == host.log(),
    {
        let node = UtreexoNode {
            config,
            host,
            peers: VecMap::new(),
            peer_ids: Vec::new(),
            peer_by_service: VecMap::new(),
            inflight: VecMap::new(),
            blocks: VecMap::new(),
            added_peers: Vec::new(),
            peer_id_count: 0,
            last_feeler: now,
            last_connection: now,
            last_dns_seed_call: now,
            startup_time: now,
            last_tip_update: now,
            last_block_request: 0,
        };
        assert(node.peer_by_service@.map_values(|v: Vec<PeerId>| v@) =~= Map::empty());
        node
    }

    /// Reads the monotonic clock (nanoseconds).
    pub(crate) fn read_clock(&mut self) -> (now: u64)
        ensures
            final(self).trace() == old(self).trace().push(HostEvent::Clock(now)),
            final(self).same_bookkeeping(*old(self)),
    {
        let now = self.host.monotonic_nanos();
        now
    }

    /// Reads the wall clock (UNIX seconds).
    pub(crate) fn read_unix_clock(&mut self) -> (now: u64)
        ensures
            final(self).trace() == old(self).trace().push(HostEvent::UnixClock(now)),
            final(self).same_bookkeeping(*old(self)),
    {
        let now = self.host.unix_seconds();
        now
    }

    /// Records the state of an address with the host.
    pub(crate) fn set_address_state(&mut self, address_id: usize, state: AddressState)
        ensures
            final(self).trace() == old(self).trace().push(HostEvent::SetAddressState(address_id, state)),
            final(self).same_bookkeeping(*old(self)),
    {
        self.host.update_set_state(address_id, state);
    }

    /// Records the services of an address with the host.
    pub(crate) fn set_address_services(&mut self, address_id: usize, services: ServiceFlags)
        ensures
            final(self).trace() == old(self).trace().push(
                HostEvent::SetAddressServices(address_id, services),
            ),
            final(self).same_bookkeeping(*old(self)),
    {
        self.host.update_set_service_flag(address_id, services);
    }
}

} // verus!
