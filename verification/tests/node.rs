use floresta_wire::host::HostLog;
use floresta_wire::host::NodeHost;
use floresta_wire::inflight::drop_id;
use floresta_wire::node::NodeConfig;
use floresta_wire::node::UtreexoNode;
use floresta_wire::node::InflightBlock;
use floresta_wire::types::AccumulatorProof;
use floresta_wire::types::AddrV2;
use floresta_wire::types::CheckedProof;
use floresta_wire::types::CompactLeafData;
use floresta_wire::types::ScriptPubkeyKind;
use floresta_wire::types::UtreexoProof;
use floresta_wire::types::AddressState;
use floresta_wire::types::Block;
use floresta_wire::types::BlockHash;
use floresta_wire::types::BlockValidationErrors;
use floresta_wire::types::BlockchainError;
use floresta_wire::types::ConnectionKind;
use floresta_wire::types::Hash256;
use floresta_wire::types::InflightRequest;
use floresta_wire::types::Inventory;
use floresta_wire::types::IpAddress;
use floresta_wire::types::LocalAddress;
use floresta_wire::types::Network;
use floresta_wire::types::NodeRequest;
use floresta_wire::types::PeerId;
use floresta_wire::types::PeerMessage;
use floresta_wire::types::PeerStatus;
use floresta_wire::types::ServiceFlags;
use floresta_wire::types::Transaction;
use floresta_wire::types::TransportProtocol;
use floresta_wire::types::UserRequest;
use floresta_wire::types::Version;
use floresta_wire::types::WireError;

const SEC: u64 = 1_000_000_000;

/// A host that records what the node asks of it and answers from its fields.
struct MockHost {
    address_states: Vec<(usize, AddressState)>,
    address_services: Vec<(usize, ServiceFlags)>,
    pushed_addresses: usize,
    enough: bool,
    fixed_added: Vec<Network>,
    to_connect: Vec<(usize, LocalAddress)>,
    asked_services: Vec<(ServiceFlags, bool)>,
    anchors: Vec<LocalAddress>,
    dump_ok: bool,
    dns_calls: usize,
    dns_fails: bool,
    spawned: Vec<(ConnectionKind, usize, LocalAddress, u32, bool)>,
    queued: Vec<(u32, NodeRequest)>,
    closed: Vec<u32>,
    pick_first: bool,
    picks: Vec<Vec<PeerId>>,
    message_times: Vec<(PeerId, u64)>,
    block_times: Vec<u64>,
    clock: u64,
    unix: u64,
    waiting_users: Vec<UserRequest>,
    user_reply_fails: bool,
    answers: Vec<(UserRequest, bool)>,
    locator: Vec<BlockHash>,
    best_height: u32,
    validation_index: u32,
    chain: Vec<BlockHash>,
    proof_ok: bool,
    connect_error: Option<BlockchainError>,
    checked: Vec<(u8, usize, u32)>,
    connected: Vec<u8>,
    invalidated: Vec<BlockHash>,
}

impl MockHost {
    fn new() -> MockHost {
        MockHost {
            address_states: Vec::new(),
            address_services: Vec::new(),
            pushed_addresses: 0,
            enough: true,
            fixed_added: Vec::new(),
            to_connect: Vec::new(),
            asked_services: Vec::new(),
            anchors: Vec::new(),
            dump_ok: true,
            dns_calls: 0,
            dns_fails: false,
            spawned: Vec::new(),
            queued: Vec::new(),
            closed: Vec::new(),
            pick_first: true,
            picks: Vec::new(),
            message_times: Vec::new(),
            block_times: Vec::new(),
            clock: 0,
            unix: 0,
            waiting_users: Vec::new(),
            user_reply_fails: false,
            answers: Vec::new(),
            locator: Vec::new(),
            best_height: 0,
            validation_index: 0,
            chain: Vec::new(),
            proof_ok: true,
            connect_error: None,
            checked: Vec::new(),
            connected: Vec::new(),
            invalidated: Vec::new(),
        }
    }

    /// The requests handed to the peer `id` so far, taken off its channel.
    fn received(&mut self, id: u32) -> Vec<NodeRequest> {
        let mut out = Vec::new();
        let mut rest = Vec::new();
        for (peer, req) in self.queued.drain(..) {
            if peer == id {
                out.push(req);
            } else {
                rest.push((peer, req));
            }
        }
        self.queued = rest;
        out
    }

    /// Closes the channel of the peer `id`, dropping what waited on it.
    fn close(&mut self, id: u32) {
        self.closed.push(id);
        self.queued.retain(|(peer, _)| *peer != id);
    }
}

impl NodeHost for MockHost {
    // The log of calls is a ghost value that only the verifier reasons about;
    // this host keeps its own record in its fields instead.
    fn log(&self) -> HostLog {
        unreachable!("the log of calls is never computed at run time")
    }

    fn update_set_state(&mut self, address_id: usize, state: AddressState) {
        self.address_states.push((address_id, state));
    }

    fn update_set_service_flag(&mut self, address_id: usize, services: ServiceFlags) {
        self.address_services.push((address_id, services));
    }

    fn push_addresses(&mut self, addresses: &Vec<LocalAddress>) {
        self.pushed_addresses += addresses.len();
    }

    fn enough_addresses(&mut self) -> bool {
        self.enough
    }

    fn add_fixed_addresses(&mut self, network: Network) {
        self.fixed_added.push(network);
    }

    fn get_address_to_connect(
        &mut self,
        services: ServiceFlags,
        feeler: bool,
    ) -> Option<(usize, LocalAddress)> {
        self.asked_services.push((services, feeler));
        if self.to_connect.is_empty() {
            None
        } else {
            Some(self.to_connect.remove(0))
        }
    }

    fn start_addr_man(&mut self) -> Vec<LocalAddress> {
        self.anchors.clone()
    }

    fn dump_peers(&mut self) -> bool {
        self.dump_ok
    }

    fn dump_utreexo_peers(&mut self, _peers: &Vec<usize>) -> bool {
        self.dump_ok
    }

    fn get_peers_from_dns(&mut self) -> Result<(), WireError> {
        self.dns_calls += 1;
        if self.dns_fails {
            Err(WireError::Io)
        } else {
            Ok(())
        }
    }

    fn spawn_peer_task(
        &mut self,
        kind: ConnectionKind,
        peer_id: usize,
        address: LocalAddress,
        peer_id_count: u32,
        allow_v1_fallback: bool,
    ) {
        self.spawned.push((kind, peer_id, address, peer_id_count, allow_v1_fallback));
    }

    fn send_request(&mut self, peer: PeerId, request: NodeRequest) -> Result<(), WireError> {
        if self.closed.contains(&peer) {
            Err(WireError::ChannelSend)
        } else {
            self.queued.push((peer, request));
            Ok(())
        }
    }

    fn pick_by_latency(&mut self, candidates: &Vec<PeerId>) -> Option<PeerId> {
        self.picks.push(candidates.clone());
        if self.pick_first {
            candidates.first().copied()
        } else {
            None
        }
    }

    fn add_message_time(&mut self, peer: PeerId, elapsed_nanos: u64) {
        self.message_times.push((peer, elapsed_nanos));
    }

    fn add_block_time(&mut self, elapsed_nanos: u64) {
        self.block_times.push(elapsed_nanos);
    }

    fn monotonic_nanos(&mut self) -> u64 {
        self.clock
    }

    fn unix_seconds(&mut self) -> u64 {
        self.unix
    }

    fn answer_user_request(&mut self, request: UserRequest, found: bool) -> Option<bool> {
        match self.waiting_users.iter().position(|r| *r == request) {
            None => None,
            Some(i) => {
                self.waiting_users.remove(i);
                self.answers.push((request, found));
                Some(!self.user_reply_fails)
            }
        }
    }

    fn get_block_locator(&mut self) -> Result<Vec<BlockHash>, WireError> {
        Ok(self.locator.clone())
    }

    fn get_best_block_height(&mut self) -> Result<u32, WireError> {
        Ok(self.best_height)
    }

    fn get_validation_index(&mut self) -> Result<u32, WireError> {
        Ok(self.validation_index)
    }

    fn get_block_hash(&mut self, height: u32) -> Result<BlockHash, WireError> {
        self.chain.get(height as usize).copied().ok_or(WireError::Chain)
    }

    fn genesis_hash(&mut self) -> BlockHash {
        hash(0)
    }

    fn process_proof(
        &mut self,
        block: &Block,
        leaf_data: &Vec<CompactLeafData>,
        height: u32,
    ) -> Result<CheckedProof, BlockchainError> {
        self.checked.push((block.header[0], leaf_data.len(), height));
        if self.proof_ok {
            Ok(CheckedProof { del_hashes: Vec::new(), inputs: Vec::new() })
        } else {
            Err(BlockchainError::Other)
        }
    }

    fn connect_block(
        &mut self,
        block: &Block,
        _proof: AccumulatorProof,
        _checked: CheckedProof,
    ) -> Result<(), BlockchainError> {
        match self.connect_error {
            Some(e) => Err(e),
            None => {
                self.connected.push(block.header[0]);
                self.validation_index += 1;
                Ok(())
            }
        }
    }

    fn invalidate_block(&mut self, hash: BlockHash) -> Result<(), WireError> {
        self.invalidated.push(hash);
        Ok(())
    }
}

fn hash(n: u64) -> BlockHash {
    Hash256(n, 0, 0, 0)
}

fn config() -> NodeConfig {
    NodeConfig {
        network: Network::Regtest,
        allow_v1_fallback: false,
        disable_dns_seeds: false,
        max_banscore: 100,
        max_outgoing_peers: 10,
        connection_timeout_secs: 10,
        request_timeout_secs: 30,
        ban_time: 3600,
        disconnect_ban_time: 7200,
        fixed_peer: None,
    }
}

fn node() -> UtreexoNode<MockHost> {
    UtreexoNode::new(config(), MockHost::new(), 0)
}

fn address(last: u32, port: u16, id: usize) -> LocalAddress {
    LocalAddress::new(
        AddrV2::Ipv4(0x0a00_0000 + last),
        0,
        AddressState::NeverTried,
        ServiceFlags::none(),
        port,
        id,
    )
}

fn flags(bits: u64) -> ServiceFlags {
    ServiceFlags(bits)
}

const UTREEXO_AND_NETWORK: u64 = (1 << 24) | 1;

/// Opens a regular connection with `10.0.0.<last>` and finishes its handshake
/// with the given services; the peer's id.
fn ready_peer(node: &mut UtreexoNode<MockHost>, last: u32, services: u64) -> PeerId {
    let id = node.peer_id_count;
    node.open_connection_at(
        ConnectionKind::Regular(ServiceFlags::none()),
        last as usize,
        address(last, 8333, last as usize),
        false,
        0,
    )
    .unwrap();
    let version = Version {
        id,
        kind: ConnectionKind::Regular(ServiceFlags::none()),
        address_id: last as usize,
        services: flags(services),
        user_agent: String::from("/test:0.1/"),
        blocks: 100,
        transport_protocol: TransportProtocol::V2,
    };
    node.handle_peer_ready_at(id, &version, 0, 0).unwrap();
    id
}

fn peer_state(node: &UtreexoNode<MockHost>, id: PeerId) -> Option<PeerStatus> {
    node.get_peer_info(&id).map(|p| p.state)
}

fn banscore(node: &UtreexoNode<MockHost>, id: PeerId) -> u32 {
    node.peers.get(&id).map(|p| p.banscore).unwrap()
}

fn inflight(node: &UtreexoNode<MockHost>, req: InflightRequest) -> Option<(PeerId, u64)> {
    node.inflight.get(&req).copied()
}

fn is_shutdown(r: &NodeRequest) -> bool {
    matches!(r, NodeRequest::Shutdown)
}

#[test]
fn new_node_is_empty() {
    let n = node();
    assert_eq!(n.peers.len(), 0);
    assert_eq!(n.peer_id_count, 0);
    assert_eq!(n.update_peer_metrics(), 0);
    assert!(!n.has_utreexo_peers());
    assert!(!n.has_compact_filters_peer());
}

#[test]
fn get_port_per_network() {
    assert_eq!(UtreexoNode::<MockHost>::get_port(Network::Bitcoin), 8333);
    assert_eq!(UtreexoNode::<MockHost>::get_port(Network::Signet), 38333);
    assert_eq!(UtreexoNode::<MockHost>::get_port(Network::Testnet), 18333);
    assert_eq!(UtreexoNode::<MockHost>::get_port(Network::Testnet4), 48333);
    assert_eq!(UtreexoNode::<MockHost>::get_port(Network::Regtest), 18444);
}

#[test]
fn service_flags_has() {
    let f = flags(UTREEXO_AND_NETWORK);
    assert!(f.has(ServiceFlags::utreexo()));
    assert!(f.has(ServiceFlags::network()));
    assert!(f.has(ServiceFlags::none()));
    assert!(!f.has(ServiceFlags::compact_filters()));
}

#[test]
fn open_connection_records_an_awaiting_peer() {
    let mut n = node();
    n.open_connection_at(ConnectionKind::Feeler, 7, address(7, 8333, 7), true, 5 * SEC).unwrap();
    assert_eq!(n.peer_id_count, 1);
    assert_eq!(peer_state(&n, 0), Some(PeerStatus::Awaiting));
    assert_eq!(inflight(&n, InflightRequest::Connect(0)), Some((0, 5 * SEC)));
    assert_eq!(n.last_feeler, 5 * SEC);
    assert_eq!(n.host.spawned.len(), 1);
    assert_eq!(n.host.spawned[0].3, 0);
    assert!(n.host.spawned[0].4);
    let info = n.get_peer_info(&0).unwrap();
    assert_eq!(info.address, IpAddress::V4(0x0a00_0007));
    assert_eq!(info.port, 8333);
}

#[test]
fn open_connection_ids_exhausted() {
    let mut n = node();
    n.peer_id_count = u32::MAX;
    assert_eq!(
        n.open_connection_at(ConnectionKind::Extra, 1, address(1, 1, 1), false, 0),
        Err(WireError::PeerIdsExhausted)
    );
    assert!(n.host.spawned.is_empty());
}

#[test]
fn law_fresh_ids_on_repeated_opens() {
    let mut n = node();
    for i in 0..3u32 {
        n.open_connection_at(ConnectionKind::Extra, i as usize, address(i, 1, i as usize), false, 0)
            .unwrap();
    }
    let ids: Vec<u32> = n.host.spawned.iter().map(|s| s.3).collect();
    assert_eq!(ids, vec![0, 1, 2]);
    assert_eq!(n.peer_id_count, 3);
}

#[test]
fn regular_handshake_indexes_peer() {
    let mut n = node();
    let id = ready_peer(&mut n, 1, UTREEXO_AND_NETWORK);
    assert_eq!(peer_state(&n, id), Some(PeerStatus::Ready));
    assert_eq!(n.peer_ids, vec![id]);
    assert!(n.has_utreexo_peers());
    assert_eq!(n.service_peers(ServiceFlags::network()).unwrap(), &vec![id]);
    assert!(n.service_peers(ServiceFlags::compact_filters()).is_none());
    assert_eq!(inflight(&n, InflightRequest::Connect(id)), None);
    assert_eq!(n.host.address_states.last(), Some(&(1, AddressState::Connected)));
    assert_eq!(n.update_peer_metrics(), 1);
    let info = n.get_peer_info(&id).unwrap();
    assert_eq!(info.user_agent, "/test:0.1/");
    assert_eq!(info.initial_height, 100);
}

#[test]
fn regular_handshake_without_needed_services_drops_peer() {
    let mut n = node();
    n.open_connection_at(
        ConnectionKind::Regular(ServiceFlags::utreexo()),
        3,
        address(3, 8333, 3),
        false,
        0,
    )
    .unwrap();
    let version = Version {
        id: 0,
        kind: ConnectionKind::Regular(ServiceFlags::utreexo()),
        address_id: 3,
        services: ServiceFlags::network(),
        user_agent: String::new(),
        blocks: 0,
        transport_protocol: TransportProtocol::V1,
    };
    assert_eq!(n.handle_peer_ready_at(0, &version, 0, 77), Ok(()));
    assert!(n.peer_ids.is_empty());
    assert!(is_shutdown(&n.host.received(0)[0]));
    assert!(n.host.address_states.contains(&(3, AddressState::Tried(77))));
}

#[test]
fn feeler_handshake_shuts_peer_down() {
    let mut n = node();
    n.open_feeler_connection_at(0, 0).unwrap_err();
    n.host.to_connect.push((4, address(4, 8333, 4)));
    n.open_feeler_connection_at(0, 10).unwrap();
    assert_eq!(n.host.asked_services.last(), Some(&(ServiceFlags::none(), true)));
    let version = Version {
        id: 0,
        kind: ConnectionKind::Feeler,
        address_id: 4,
        services: ServiceFlags::network(),
        user_agent: String::new(),
        blocks: 0,
        transport_protocol: TransportProtocol::V2,
    };
    assert_eq!(n.handle_peer_ready_at(0, &version, 0, 99), Ok(()));
    assert!(is_shutdown(&n.host.received(0)[0]));
    assert!(n.host.address_states.contains(&(4, AddressState::Tried(99))));
    assert_eq!(peer_state(&n, 0), Some(PeerStatus::Ready));
}

#[test]
fn extra_handshake_asks_for_headers() {
    let mut n = node();
    n.host.locator = vec![hash(5), hash(4)];
    n.open_connection_at(ConnectionKind::Extra, 2, address(2, 1, 2), false, 0).unwrap();
    let version = Version {
        id: 0,
        kind: ConnectionKind::Extra,
        address_id: 2,
        services: ServiceFlags::network(),
        user_agent: String::new(),
        blocks: 0,
        transport_protocol: TransportProtocol::V2,
    };
    n.handle_peer_ready_at(0, &version, 3 * SEC, 0).unwrap();
    // The extra connection is still awaiting, so the request is not handed on,
    // but the headers are waited on from it.
    assert!(n.host.received(0).is_empty());
    assert_eq!(inflight(&n, InflightRequest::Headers), Some((0, 3 * SEC)));
    assert_eq!(inflight(&n, InflightRequest::Connect(0)), None);
}

#[test]
fn send_to_peer_skips_awaiting_and_unknown() {
    let mut n = node();
    n.open_connection_at(ConnectionKind::Extra, 1, address(1, 1, 1), false, 0).unwrap();
    assert_eq!(n.send_to_peer(0, NodeRequest::GetAddresses), Ok(()));
    assert!(n.host.received(0).is_empty());
    assert_eq!(n.send_to_peer(9, NodeRequest::GetAddresses), Ok(()));
}

#[test]
fn send_to_closed_channel_fails() {
    let mut n = node();
    let id = ready_peer(&mut n, 1, 1);
    n.host.close(id);
    assert_eq!(n.send_to_peer(id, NodeRequest::GetAddresses), Err(WireError::ChannelSend));
}

#[test]
fn broadcast_reaches_every_ready_peer() {
    let mut n = node();
    let a = ready_peer(&mut n, 1, 1);
    let b = ready_peer(&mut n, 2, 1);
    n.open_connection_at(ConnectionKind::Extra, 3, address(3, 1, 3), false, 0).unwrap();
    n.host.close(a);
    n.broadcast_to_peers(NodeRequest::GetAddresses);
    assert_eq!(n.host.received(b).len(), 1);
    assert!(n.host.received(2).is_empty());
}

#[test]
fn send_to_fast_peer_uses_host_pick() {
    let mut n = node();
    let a = ready_peer(&mut n, 1, 1);
    let b = ready_peer(&mut n, 2, UTREEXO_AND_NETWORK);
    assert_eq!(n.send_to_fast_peer(NodeRequest::GetAddresses, ServiceFlags::utreexo()), Ok(b));
    assert_eq!(n.host.picks.last(), Some(&vec![b]));
    assert_eq!(n.send_to_fast_peer(NodeRequest::GetAddresses, ServiceFlags::network()), Ok(a));
    assert_eq!(
        n.send_to_fast_peer(NodeRequest::GetAddresses, ServiceFlags::compact_filters()),
        Err(WireError::NoPeersAvailable)
    );
    n.host.pick_first = false;
    assert_eq!(
        n.send_to_fast_peer(NodeRequest::GetAddresses, ServiceFlags::network()),
        Err(WireError::NoPeersAvailable)
    );
}

#[test]
fn send_to_random_peer_picks_a_listed_peer() {
    let mut n = node();
    assert_eq!(
        n.send_to_random_peer(NodeRequest::GetAddresses, ServiceFlags::none()),
        Err(WireError::NoPeersAvailable)
    );
    let a = ready_peer(&mut n, 1, 1);
    assert_eq!(n.send_to_random_peer(NodeRequest::GetAddresses, ServiceFlags::none()), Ok(a));
    assert_eq!(
        n.send_to_random_peer(NodeRequest::GetAddresses, ServiceFlags::utreexo()),
        Err(WireError::NoPeersAvailable)
    );
    assert_eq!(n.ask_for_addresses(), Ok(()));
    assert_eq!(n.host.received(a).len(), 2);
}

#[test]
fn increase_banscore_bans_at_maximum() {
    let mut n = node();
    let id = ready_peer(&mut n, 1, 1);
    n.increase_banscore(id, 60).unwrap();
    assert_eq!(banscore(&n, id), 60);
    assert_eq!(peer_state(&n, id), Some(PeerStatus::Ready));
    assert!(n.host.received(id).is_empty());
    n.increase_banscore(id, 40).unwrap();
    assert_eq!(banscore(&n, id), 100);
    assert_eq!(peer_state(&n, id), Some(PeerStatus::Banned));
    assert!(is_shutdown(&n.host.received(id)[0]));
    assert_eq!(n.increase_banscore(42, 1), Ok(()));
}

#[test]
fn increase_banscore_bans_extra_connections_at_once() {
    let mut n = node();
    n.open_connection_at(ConnectionKind::Extra, 1, address(1, 1, 1), false, 0).unwrap();
    n.increase_banscore(0, 1).unwrap();
    assert_eq!(peer_state(&n, 0), Some(PeerStatus::Banned));
}

#[test]
fn increase_banscore_reports_closed_channel() {
    let mut n = node();
    let id = ready_peer(&mut n, 1, 1);
    n.host.close(id);
    assert_eq!(n.increase_banscore(id, 100), Err(WireError::ChannelSend));
    assert_eq!(banscore(&n, id), 100);
    assert_eq!(peer_state(&n, id), Some(PeerStatus::Ready));
}

#[test]
fn request_blocks_skips_requested_and_held() {
    let mut n = node();
    let p = ready_peer(&mut n, 1, 1);
    n.request_blocks_at(vec![hash(1), hash(2)], 4 * SEC).unwrap();
    match &n.host.received(p)[..] {
        [NodeRequest::GetBlock(l)] => assert_eq!(l, &vec![hash(1), hash(2)]),
        other => panic!("unexpected {other:?}"),
    }
    assert_eq!(inflight(&n, InflightRequest::Blocks(hash(2))), Some((p, 4 * SEC)));
    // Law: asking again for the same blocks asks for nothing.
    n.request_blocks_at(vec![hash(1), hash(2)], 5 * SEC).unwrap();
    assert!(n.host.received(p).is_empty());
    n.request_blocks_at(vec![hash(2), hash(3)], 5 * SEC).unwrap();
    match &n.host.received(p)[..] {
        [NodeRequest::GetBlock(l)] => assert_eq!(l, &vec![hash(3)]),
        other => panic!("unexpected {other:?}"),
    }
}

#[test]
fn request_blocks_without_peers_fails() {
    let mut n = node();
    assert_eq!(n.request_blocks_at(vec![hash(1)], 0), Err(WireError::NoPeersAvailable));
    assert_eq!(inflight(&n, InflightRequest::Blocks(hash(1))), None);
    assert_eq!(n.request_blocks_at(Vec::new(), 0), Ok(()));
}

#[test]
fn request_block_proof_for_user_block() {
    let mut n = node();
    let b7 = block(7, 3);
    let h7 = b7.block_hash();
    n.host.waiting_users.push(UserRequest::Block(h7));
    n.request_block_proof_at(b7, 0, 0).unwrap();
    assert_eq!(n.host.answers, vec![(UserRequest::Block(h7), true)]);
    assert!(n.blocks.get(&h7).is_none());
    let b8 = block(8, 3);
    n.host.waiting_users.push(UserRequest::Block(b8.block_hash()));
    n.host.user_reply_fails = true;
    assert_eq!(n.request_block_proof_at(b8, 0, 0), Err(WireError::ResponseSendError));
}

#[test]
fn request_block_proof_for_coinbase_only_block() {
    let mut n = node();
    let u = ready_peer(&mut n, 1, UTREEXO_AND_NETWORK);
    let b = block(7, 1);
    let h = b.block_hash();
    n.request_block_proof_at(b, 3, 0).unwrap();
    let held = n.blocks.get(&h).unwrap();
    assert_eq!(held.peer, 3);
    assert_eq!(held.block.header[0], 7);
    assert_eq!(held.block.txdata.len(), 1);
    // A block that spends nothing has empty leaf data and the empty proof.
    assert_eq!(held.leaf_data.as_ref().map(|l| l.len()), Some(0));
    let proof = held.proof.as_ref().unwrap();
    assert!(proof.targets.is_empty() && proof.hashes.is_empty());
    // No proof is asked for it.
    assert_eq!(inflight(&n, InflightRequest::UtreexoProof(h)), None);
    assert!(n.host.received(u).is_empty());
}

#[test]
fn request_block_proof_asks_utreexo_peer() {
    let mut n = node();
    let u = ready_peer(&mut n, 1, UTREEXO_AND_NETWORK);
    let b = block(7, 5);
    let h = b.block_hash();
    n.inflight.insert(InflightRequest::Blocks(h), (u, 0));
    n.request_block_proof_at(b, u, 2 * SEC).unwrap();
    assert_eq!(inflight(&n, InflightRequest::Blocks(h)), None);
    assert_eq!(inflight(&n, InflightRequest::UtreexoProof(h)), Some((u, 2 * SEC)));
    assert!(matches!(n.host.received(u)[..], [NodeRequest::GetBlockProof(g)] if g == h));
    let held = n.blocks.get(&h).unwrap();
    assert!(held.proof.is_none() && held.leaf_data.is_none());
    assert_eq!(held.block.txdata.len(), 5);
}

#[test]
fn request_block_proof_without_utreexo_peer_fails() {
    let mut n = node();
    ready_peer(&mut n, 1, 1);
    let b = block(7, 5);
    let h = b.block_hash();
    assert_eq!(n.request_block_proof_at(b, 0, 0), Err(WireError::NoPeersAvailable));
    assert!(n.blocks.get(&h).is_none());
}

fn leaf(amount: u64) -> CompactLeafData {
    CompactLeafData { header_code: 2, amount, spk_ty: ScriptPubkeyKind::WitnessV0PubKeyHash }
}

fn proof_message(h: BlockHash) -> UtreexoProof {
    UtreexoProof {
        block_hash: h,
        leaf_data: vec![leaf(50), leaf(7)],
        targets: vec![3, 9],
        proof_hashes: vec![hash(11)],
    }
}

#[test]
fn attach_proof_completes_held_block() {
    let mut n = node();
    let u = ready_peer(&mut n, 1, UTREEXO_AND_NETWORK);
    let b = block(7, 5);
    let h = b.block_hash();
    n.request_block_proof_at(b, u, 0).unwrap();
    n.attach_proof(proof_message(h), u).unwrap();
    assert_eq!(inflight(&n, InflightRequest::UtreexoProof(h)), None);
    let held = n.blocks.get(&h).unwrap();
    let proof = held.proof.as_ref().unwrap();
    assert_eq!(proof.targets, vec![3, 9]);
    assert_eq!(proof.hashes, vec![hash(11)]);
    let leaves = held.leaf_data.as_ref().unwrap();
    assert_eq!(leaves.len(), 2);
    assert_eq!(leaves[0].amount, 50);
    assert_eq!(leaves[1].amount, 7);
    assert_eq!(held.peer, u);
    assert_eq!(banscore(&n, u), 0);
}

#[test]
fn attach_proof_for_unknown_block_raises_banscore() {
    let mut n = node();
    let u = ready_peer(&mut n, 1, UTREEXO_AND_NETWORK);
    n.attach_proof(proof_message(hash(9)), u).unwrap();
    assert_eq!(banscore(&n, u), 5);
}

/// A held block from `peer`, tagged `tag`, with or without its leaf data and proof.
fn held(peer: PeerId, tag: u8, leaves: bool, proof: bool) -> InflightBlock {
    InflightBlock {
        peer,
        block: block(tag, 2),
        leaf_data: if leaves { Some(vec![leaf(1)]) } else { None },
        proof: if proof { Some(AccumulatorProof::empty()) } else { None },
    }
}

#[test]
fn ask_for_missed_proofs_asks_once_per_block() {
    let mut n = node();
    n.request_block_proof_at(block(1, 1), 0, 0).unwrap();
    n.blocks.insert(hash(2), held(0, 2, false, false));
    n.blocks.insert(hash(3), held(0, 3, false, false));
    // Without Utreexo peers nothing is asked.
    n.ask_for_missed_proofs_at(0).unwrap();
    let u = ready_peer(&mut n, 1, UTREEXO_AND_NETWORK);
    n.inflight.insert(InflightRequest::UtreexoProof(hash(3)), (u, 0));
    n.ask_for_missed_proofs_at(6 * SEC).unwrap();
    let got = n.host.received(u);
    assert_eq!(got.len(), 1);
    assert!(matches!(got[0], NodeRequest::GetBlockProof(h) if h == hash(2)));
    assert_eq!(inflight(&n, InflightRequest::UtreexoProof(hash(2))), Some((u, 6 * SEC)));
    n.ask_for_missed_proofs_at(7 * SEC).unwrap();
    assert!(n.host.received(u).is_empty());
}

fn chain_node() -> UtreexoNode<MockHost> {
    let mut n = node();
    n.host.chain = vec![hash(100), hash(101), hash(102), hash(103)];
    n.host.best_height = 3;
    n.host.validation_index = 0;
    n
}

/// Holds, under the chain hash `hash(tag)`, a block tagged `tag`.
fn hold_block(n: &mut UtreexoNode<MockHost>, tag: u8, peer: PeerId, proof: bool) {
    n.blocks.insert(hash(tag as u64), held(peer, tag, proof, proof));
}

#[test]
fn process_pending_blocks_in_order() {
    let mut n = chain_node();
    hold_block(&mut n, 102, 0, true);
    n.process_pending_blocks().unwrap();
    assert!(n.host.connected.is_empty());
    hold_block(&mut n, 101, 0, true);
    hold_block(&mut n, 103, 0, false);
    n.host.clock = 50;
    n.process_pending_blocks().unwrap();
    assert_eq!(n.host.connected, vec![101, 102]);
    assert_eq!(n.host.checked, vec![(101, 1, 1), (102, 1, 2)]);
    assert_eq!(n.host.block_times, vec![0, 0]);
    assert_eq!(n.last_tip_update, 50);
    assert!(n.blocks.get(&hash(103)).is_some());
}

#[test]
fn process_block_errors() {
    let mut n = chain_node();
    assert_eq!(n.process_block(1, hash(101)), Err(WireError::BlockNotFound));
    n.blocks.insert(hash(101), held(0, 101, false, true));
    assert_eq!(n.process_block(1, hash(101)), Err(WireError::LeafDataNotFound));
    n.blocks.insert(hash(101), held(0, 101, true, false));
    assert_eq!(n.process_block(1, hash(101)), Err(WireError::BlockProofNotFound));
    // Law: the block is no longer held, whatever came of it.
    assert!(n.blocks.get(&hash(101)).is_none());
    hold_block(&mut n, 101, 0, true);
    n.host.proof_ok = false;
    assert_eq!(n.process_block(1, hash(101)), Err(WireError::Chain));
}

#[test]
fn invalid_block_bans_sender() {
    let mut n = chain_node();
    let p = ready_peer(&mut n, 5, 1);
    hold_block(&mut n, 101, p, true);
    n.host.connect_error = Some(BlockchainError::BlockValidation(BlockValidationErrors::BadMerkleRoot));
    assert_eq!(n.process_block(1, hash(101)), Err(WireError::PeerMisbehaving));
    assert_eq!(n.host.invalidated, vec![hash(101)]);
    assert!(n.host.address_states.contains(&(5, AddressState::Banned(3600))));
    assert!(is_shutdown(&n.host.received(p)[0]));
}

#[test]
fn invalid_proof_bans_without_invalidating() {
    let mut n = chain_node();
    let p = ready_peer(&mut n, 5, 1);
    hold_block(&mut n, 101, p, true);
    n.host.connect_error = Some(BlockchainError::BlockValidation(BlockValidationErrors::InvalidProof));
    assert_eq!(n.process_block(1, hash(101)), Err(WireError::PeerMisbehaving));
    assert!(n.host.invalidated.is_empty());
}

#[test]
fn block_not_extending_tip_is_retried() {
    let mut n = chain_node();
    let p = ready_peer(&mut n, 5, 1);
    hold_block(&mut n, 101, p, true);
    n.host.validation_index = 2;
    n.host.connect_error = Some(BlockchainError::BlockValidation(BlockValidationErrors::BlockDoesntExtendTip));
    assert_eq!(n.process_block(1, hash(101)), Ok(()));
    assert_eq!(n.last_block_request, 2);
    assert!(n.host.received(p).is_empty());
}

#[test]
fn redo_inflight_requests() {
    let mut n = node();
    let u = ready_peer(&mut n, 1, UTREEXO_AND_NETWORK);
    n.redo_inflight_request_at(InflightRequest::Headers, 3).unwrap();
    assert_eq!(inflight(&n, InflightRequest::Headers), Some((u, 3)));
    n.redo_inflight_request_at(InflightRequest::UtreexoState(9), 4).unwrap();
    assert_eq!(inflight(&n, InflightRequest::UtreexoState(u)), Some((u, 4)));
    n.redo_inflight_request_at(InflightRequest::GetFilters, 5).unwrap();
    assert_eq!(inflight(&n, InflightRequest::GetFilters), None);
    n.redo_inflight_request_at(InflightRequest::Connect(u), 5).unwrap();
    n.redo_inflight_request_at(InflightRequest::UtreexoProof(hash(1)), 5).unwrap();
    assert_eq!(inflight(&n, InflightRequest::UtreexoProof(hash(1))), None);
    n.redo_inflight_request_at(InflightRequest::Blocks(hash(1)), 6).unwrap();
    assert_eq!(inflight(&n, InflightRequest::Blocks(hash(1))), Some((u, 6)));
    let got = n.host.received(u);
    assert_eq!(got.len(), 3);
    assert!(matches!(got[1], NodeRequest::GetUtreexoState(h, 0) if h == hash(0)));
}

#[test]
fn disconnection_forgets_peer_and_redoes_requests() {
    let mut n = node();
    let a = ready_peer(&mut n, 1, UTREEXO_AND_NETWORK);
    let b = ready_peer(&mut n, 2, UTREEXO_AND_NETWORK);
    n.inflight.insert(InflightRequest::Headers, (a, 0));
    n.inflight.insert(InflightRequest::Blocks(hash(4)), (a, 0));
    n.inflight.insert(InflightRequest::Blocks(hash(5)), (b, 0));
    n.handle_disconnection_at(a, 1, 9, 1234).unwrap();
    assert!(n.get_peer_info(&a).is_none());
    assert_eq!(n.peer_ids, vec![b]);
    assert_eq!(n.service_peers(ServiceFlags::utreexo()).unwrap(), &vec![b]);
    assert!(n.host.address_states.contains(&(1, AddressState::Tried(1234))));
    // Law: nothing is waited on from the peer that left.
    assert_eq!(inflight(&n, InflightRequest::Headers), Some((b, 9)));
    assert_eq!(inflight(&n, InflightRequest::Blocks(hash(4))), Some((b, 9)));
    assert_eq!(inflight(&n, InflightRequest::Blocks(hash(5))), Some((b, 0)));
}

#[test]
fn disconnection_records_failed_and_banned_addresses() {
    let mut n = node();
    n.open_connection_at(ConnectionKind::Extra, 3, address(3, 1, 3), false, 0).unwrap();
    n.handle_disconnection_at(0, 3, 0, 55).unwrap();
    assert!(n.host.address_states.contains(&(3, AddressState::Failed(55))));
    let p = ready_peer(&mut n, 4, 1);
    n.increase_banscore(p, 100).unwrap();
    n.handle_disconnection_at(p, 4, 0, 55).unwrap();
    assert!(n.host.address_states.contains(&(4, AddressState::Banned(7200))));
}

#[test]
fn disconnection_stops_at_first_failed_redo() {
    let mut n = node();
    let a = ready_peer(&mut n, 1, UTREEXO_AND_NETWORK);
    n.inflight.insert(InflightRequest::Headers, (a, 0));
    assert_eq!(n.handle_disconnection_at(a, 1, 0, 0), Err(WireError::NoPeersAvailable));
    assert!(n.peer_ids.is_empty());
}

#[test]
fn timeouts_drop_connections_and_redo_requests() {
    let mut n = node();
    let a = ready_peer(&mut n, 1, UTREEXO_AND_NETWORK);
    let b = ready_peer(&mut n, 2, UTREEXO_AND_NETWORK);
    n.open_connection_at(ConnectionKind::Extra, 3, address(3, 1, 3), false, 0).unwrap();
    n.inflight.insert(InflightRequest::Headers, (b, 0));
    n.inflight.insert(InflightRequest::Blocks(hash(1)), (a, 20 * SEC));
    n.check_for_timeout_at(11 * SEC).unwrap();
    // The connection attempt timed out; the requests did not.
    assert!(n.get_peer_info(&2).is_none());
    assert_eq!(inflight(&n, InflightRequest::Connect(2)), None);
    assert_eq!(inflight(&n, InflightRequest::Headers), Some((b, 0)));
    n.check_for_timeout_at(31 * SEC).unwrap();
    assert_eq!(banscore(&n, b), 1);
    assert_eq!(inflight(&n, InflightRequest::Headers), Some((a, 31 * SEC)));
    assert_eq!(inflight(&n, InflightRequest::Blocks(hash(1))), Some((a, 20 * SEC)));
    // Law: after a check nothing waited on has timed out.
    for (req, (_, at)) in [InflightRequest::Headers, InflightRequest::Blocks(hash(1))]
        .iter()
        .map(|r| (r, inflight(&n, *r).unwrap()))
    {
        assert!(!n.is_timed_out(*req, at, 31 * SEC));
    }
}

#[test]
fn is_timed_out_by_kind() {
    let n = node();
    assert!(n.is_timed_out(InflightRequest::Connect(0), 0, 11 * SEC));
    assert!(!n.is_timed_out(InflightRequest::Connect(0), 0, 10 * SEC));
    assert!(!n.is_timed_out(InflightRequest::Headers, 0, 11 * SEC));
    assert!(n.is_timed_out(InflightRequest::Headers, 0, 31 * SEC));
    assert!(!n.is_timed_out(InflightRequest::Headers, 50 * SEC, 0));
}

fn block(n: u8, tx_count: usize) -> Block {
    let mut header = vec![0u8; 80];
    header[0] = n;
    let txdata = (0..tx_count).map(|i| Transaction { data: vec![n, i as u8] }).collect();
    Block { header, txdata }
}

#[test]
fn register_message_time_measures_answers() {
    let mut n = node();
    let p = ready_peer(&mut n, 1, 1);
    let b1 = block(1, 2);
    let b2 = block(2, 2);
    n.inflight.insert(InflightRequest::Blocks(b1.block_hash()), (p, 10));
    assert_eq!(n.register_message_time(&PeerMessage::Block(block(1, 2)), p, 25), Some(()));
    assert_eq!(n.host.message_times, vec![(p, 15)]);
    assert_eq!(n.register_message_time(&PeerMessage::Block(b2), p, 25), None);
    assert_eq!(n.register_message_time(&PeerMessage::Other(1), p, 25), None);
    assert_eq!(n.register_message_time(&PeerMessage::Block(b1), p, 5), Some(()));
    assert_eq!(n.host.message_times, vec![(p, 15), (p, 0)]);
}

#[test]
fn block_hash_is_double_sha256_of_header() {
    // The header of the main network's genesis block.
    let header_hex = "0100000000000000000000000000000000000000000000000000000000000000000000003ba3edfd7a7b12b27ac72c3e67768f617fc81bc3888a51323a9fb8aa4b1e5e4a29ab5f49ffff001d1dac2b7c";
    let header: Vec<u8> = (0..80)
        .map(|i| u8::from_str_radix(&header_hex[2 * i..2 * i + 2], 16).unwrap())
        .collect();
    let b = Block { header, txdata: vec![Transaction { data: Vec::new() }] };
    // 000000000019d6689c085ae165831e934ff763ae46a2a6c172b3f1b60a8ce26f, read
    // as its internal bytes in little-endian words.
    let w = expected_words();
    assert_eq!(b.block_hash(), Hash256(w[0], w[1], w[2], w[3]));
    assert_eq!(w[3], 0x0000_0000_0019_d668);
}

fn expected_words() -> [u64; 4] {
    let display = "000000000019d6689c085ae165831e934ff763ae46a2a6c172b3f1b60a8ce26f";
    let mut bytes: Vec<u8> = (0..32)
        .map(|i| u8::from_str_radix(&display[2 * i..2 * i + 2], 16).unwrap())
        .collect();
    bytes.reverse();
    let mut words = [0u64; 4];
    for (w, chunk) in words.iter_mut().zip(bytes.chunks(8)) {
        let mut a = [0u8; 8];
        a.copy_from_slice(chunk);
        *w = u64::from_le_bytes(a);
    }
    words
}

#[test]
fn request_block_proof_from_block() {
    let mut n = node();
    let u = ready_peer(&mut n, 1, UTREEXO_AND_NETWORK);
    n.host.clock = 77;
    let b = block(9, 3);
    let h = b.block_hash();
    n.request_block_proof(b, u).unwrap();
    assert_eq!(inflight(&n, InflightRequest::UtreexoProof(h)), Some((u, 77)));
    assert!(n.blocks.get(&h).is_some());
}

#[test]
fn peer_messages_handled_in_common() {
    let mut n = node();
    let p = ready_peer(&mut n, 1, 1);
    let addrs = vec![address(9, 1, 9), address(8, 1, 8)];
    assert!(matches!(n.handle_peer_msg_common(PeerMessage::Addr(addrs), p), Ok(None)));
    assert_eq!(n.host.pushed_addresses, 2);
    assert!(matches!(n.handle_peer_msg_common(PeerMessage::UtreexoState, p), Ok(None)));
    assert_eq!(banscore(&n, p), 5);
    assert!(matches!(
        n.handle_peer_msg_common(PeerMessage::Headers, p),
        Ok(Some(PeerMessage::Headers))
    ));
    let tx = Transaction { data: vec![1, 2, 3] };
    let txid = tx.compute_txid();
    n.host.waiting_users.push(UserRequest::MempoolTransaction(txid));
    assert!(matches!(n.handle_peer_msg_common(PeerMessage::Transaction(tx), p), Ok(None)));
    assert_eq!(n.host.answers, vec![(UserRequest::MempoolTransaction(txid), true)]);
}

#[test]
fn notfound_answers_users() {
    let mut n = node();
    n.host.waiting_users.push(UserRequest::Block(hash(3)));
    n.handle_notfound_msg(Inventory::WitnessBlock(hash(3))).unwrap();
    assert_eq!(n.host.answers, vec![(UserRequest::Block(hash(3)), false)]);
    n.handle_notfound_msg(Inventory::Error).unwrap();
    n.handle_notfound_msg(Inventory::Transaction(hash(4))).unwrap();
    assert_eq!(n.host.answers.len(), 1);
    n.host.user_reply_fails = true;
    n.host.waiting_users.push(UserRequest::MempoolTransaction(hash(4)));
    assert_eq!(
        n.handle_notfound_msg(Inventory::Transaction(hash(4))),
        Err(WireError::ResponseSendError)
    );
}

#[test]
fn save_peers_reports_failure() {
    let mut n = node();
    assert_eq!(n.save_peers(), Ok(()));
    n.host.dump_ok = false;
    assert_eq!(n.save_peers(), Err(WireError::Io));
}

#[test]
fn save_utreexo_peers_needs_utreexo_peers() {
    let mut n = node();
    assert_eq!(n.save_utreexo_peers(), Err(WireError::NoUtreexoPeersAvailable));
    ready_peer(&mut n, 1, UTREEXO_AND_NETWORK);
    assert_eq!(n.save_utreexo_peers(), Ok(()));
    n.host.dump_ok = false;
    assert_eq!(n.save_utreexo_peers(), Err(WireError::Io));
}

#[test]
fn create_connection_with_host_address() {
    let mut n = node();
    assert_eq!(
        n.create_connection_at(ConnectionKind::Regular(ServiceFlags::utreexo()), 0, 0),
        Err(WireError::NoAddressesAvailable)
    );
    assert_eq!(n.host.fixed_added, vec![Network::Regtest]);
    n.host.to_connect.push((6, address(6, 8333, 6)));
    n.create_connection_at(ConnectionKind::Regular(ServiceFlags::utreexo()), 1, 44).unwrap();
    assert!(n.host.address_states.contains(&(6, AddressState::Failed(44))));
    // Utreexo peers may fall back to V1.
    assert!(n.host.spawned[0].4);
    n.host.to_connect.push((6, address(6, 8333, 6)));
    assert_eq!(
        n.create_connection_at(ConnectionKind::Regular(ServiceFlags::utreexo()), 1, 44),
        Err(WireError::PeerAlreadyExists(IpAddress::V4(0x0a00_0006), 8333))
    );
}

#[test]
fn create_connection_with_fixed_peer() {
    let mut cfg = config();
    cfg.fixed_peer = Some(address(9, 18444, 0));
    let mut n = UtreexoNode::new(cfg, MockHost::new(), 0);
    n.create_connection_at(ConnectionKind::Regular(ServiceFlags::network()), 0, 0).unwrap();
    assert!(n.host.asked_services.is_empty());
    assert_eq!(n.host.spawned[0].2, address(9, 18444, 0));
    assert!(n.host.spawned[0].4);
    assert_eq!(n.open_feeler_connection_at(0, 0), Ok(()));
    assert_eq!(n.host.spawned.len(), 1);
    // A connected `--connect` peer is all the node wants.
    n.maybe_open_connection_at(ServiceFlags::network(), 0, 0).unwrap();
    assert_eq!(n.host.spawned.len(), 1);
}

#[test]
fn dns_seeds_asked_when_addresses_lack() {
    let mut n = node();
    n.maybe_ask_dns_seed_for_addresses_at(500 * SEC);
    assert_eq!(n.host.dns_calls, 0);
    n.host.enough = false;
    n.maybe_ask_dns_seed_for_addresses_at(60 * SEC);
    assert_eq!(n.host.dns_calls, 0);
    n.maybe_ask_dns_seed_for_addresses_at(120 * SEC);
    assert_eq!(n.host.dns_calls, 1);
    assert_eq!(n.last_dns_seed_call, 120 * SEC);
    n.maybe_ask_dns_seed_for_addresses_at(200 * SEC);
    assert_eq!(n.host.dns_calls, 1);
}

#[test]
fn hardcoded_addresses_after_grace_period() {
    let mut n = node();
    n.maybe_use_hardcoded_addresses_at(false, 59 * SEC);
    assert!(n.host.fixed_added.is_empty());
    n.maybe_use_hardcoded_addresses_at(false, 60 * SEC);
    assert_eq!(n.host.fixed_added.len(), 1);
    n.maybe_use_hardcoded_addresses_at(true, 119 * SEC);
    assert_eq!(n.host.fixed_added.len(), 1);
    ready_peer(&mut n, 1, 1);
    n.maybe_use_hardcoded_addresses_at(false, 500 * SEC);
    assert_eq!(n.host.fixed_added.len(), 1);
    n.maybe_use_hardcoded_addresses_at(true, 500 * SEC);
    assert_eq!(n.host.fixed_added.len(), 2);
}

#[test]
fn init_peers_connects_anchors() {
    let mut n = node();
    n.host.anchors = vec![address(1, 8333, 11), address(2, 8333, 12)];
    n.host.enough = false;
    n.init_peers_at(0).unwrap();
    assert_eq!(n.host.dns_calls, 1);
    assert_eq!(n.host.spawned.len(), 2);
    assert_eq!(n.host.spawned[1].0, ConnectionKind::Regular(ServiceFlags::utreexo()));
    assert_eq!(n.host.spawned[1].1, 12);
    assert!(n.host.spawned[1].4);
}

#[test]
fn init_peers_reports_dns_failure() {
    let mut n = node();
    n.host.anchors = vec![address(1, 8333, 11)];
    n.host.enough = false;
    n.host.dns_fails = true;
    assert_eq!(n.init_peers_at(0), Err(WireError::Io));
    assert!(n.host.spawned.is_empty());
}

#[test]
fn maybe_open_connection_opens_while_below_maximum() {
    let mut n = node();
    n.host.to_connect.push((1, address(1, 8333, 1)));
    n.maybe_open_connection_at(ServiceFlags::network(), 0, 0).unwrap();
    assert_eq!(n.host.spawned.len(), 1);
    assert_eq!(n.host.spawned[0].0, ConnectionKind::Regular(ServiceFlags::network()));
}

#[test]
fn addnode_add_and_remove() {
    let mut n = node();
    let ip = IpAddress::V4(0x0a00_0005);
    n.handle_addnode_add_peer_at(ip, 8333, true, 0, 7).unwrap();
    assert_eq!(n.added_peers.len(), 1);
    assert!(!n.added_peers[0].v1_fallback);
    assert_eq!(n.host.spawned.len(), 1);
    assert_eq!(
        n.handle_addnode_add_peer_at(ip, 8333, true, 0, 7),
        Err(WireError::PeerAlreadyExists(ip, 8333))
    );
    // Law: removing the peer undoes adding it, and does not disconnect it.
    n.handle_addnode_remove_peer(ip, 8333).unwrap();
    assert!(n.added_peers.is_empty());
    assert_eq!(n.peers.len(), 1);
    assert_eq!(
        n.handle_addnode_remove_peer(ip, 8333),
        Err(WireError::PeerNotFoundAtAddress(ip, 8333))
    );
}

#[test]
fn addnode_onetry_and_disconnect() {
    let mut n = node();
    let ip = IpAddress::V4(0x0a00_0006);
    n.handle_addnode_onetry_peer_at(ip, 18444, false, 0).unwrap();
    assert!(n.added_peers.is_empty());
    assert!(n.host.spawned[0].4);
    assert_eq!(
        n.handle_addnode_onetry_peer_at(ip, 18444, false, 0),
        Err(WireError::PeerAlreadyExists(ip, 18444))
    );
    assert_eq!(
        n.handle_disconnect_peer(IpAddress::V4(1), 1),
        Err(WireError::PeerNotFoundAtAddress(IpAddress::V4(1), 1))
    );
}

#[test]
fn disconnect_peer_still_in_handshake_is_shut_down() {
    let mut n = node();
    let ip = IpAddress::V4(0x0a00_0006);
    n.handle_addnode_onetry_peer_at(ip, 18444, false, 0).unwrap();
    assert!(matches!(n.peers.get(&0).unwrap().state, PeerStatus::Awaiting));
    assert_eq!(n.handle_disconnect_peer(ip, 18444), Ok(()));
    let got = n.host.received(0);
    assert_eq!(got.len(), 1);
    assert!(is_shutdown(&got[0]));
    // The peer stays known until its task reports that it left.
    assert_eq!(n.peers.len(), 1);
}

#[test]
fn disconnect_ready_peer_is_shut_down() {
    let mut n = node();
    let p = ready_peer(&mut n, 9, UTREEXO_AND_NETWORK);
    let _ = n.host.received(p);
    assert_eq!(n.handle_disconnect_peer(IpAddress::V4(0x0a00_0009), 8333), Ok(()));
    let got = n.host.received(p);
    assert_eq!(got.len(), 1);
    assert!(is_shutdown(&got[0]));
}

#[test]
fn disconnect_peer_with_closed_channel_fails() {
    let mut n = node();
    let ip = IpAddress::V4(0x0a00_0006);
    n.handle_addnode_onetry_peer_at(ip, 18444, false, 0).unwrap();
    n.host.close(0);
    assert_eq!(n.handle_disconnect_peer(ip, 18444), Err(WireError::ChannelSend));
}

#[test]
fn drop_id_removes_every_occurrence() {
    assert_eq!(drop_id(&vec![1, 2, 1, 3], 1), vec![2, 3]);
    assert_eq!(drop_id(&vec![], 1), Vec::<u32>::new());
}

#[test]
fn to_addr_v2_keeps_the_address() {
    let n = node();
    assert_eq!(n.to_addr_v2(IpAddress::V4(5)), AddrV2::Ipv4(5));
    assert_eq!(n.to_addr_v2(IpAddress::V6(7)), AddrV2::Ipv6(7));
}

#[test]
fn clocked_operations_read_the_host_clocks() {
    let mut n = node();
    n.host.clock = 3 * SEC;
    n.host.unix = 1_700_000_000;
    n.open_connection(ConnectionKind::Regular(ServiceFlags::none()), 1, address(1, 8333, 1), false)
        .unwrap();
    assert_eq!(inflight(&n, InflightRequest::Connect(0)), Some((0, 3 * SEC)));
    let version = Version {
        id: 0,
        kind: ConnectionKind::Regular(ServiceFlags::none()),
        address_id: 1,
        services: flags(UTREEXO_AND_NETWORK),
        user_agent: String::new(),
        blocks: 0,
        transport_protocol: TransportProtocol::V2,
    };
    n.handle_peer_ready(0, &version).unwrap();
    assert_eq!(n.peer_ids, vec![0]);
    n.request_blocks(vec![hash(1)]).unwrap();
    assert_eq!(inflight(&n, InflightRequest::Blocks(hash(1))), Some((0, 3 * SEC)));
    n.redo_inflight_request(InflightRequest::Headers).unwrap();
    assert_eq!(inflight(&n, InflightRequest::Headers), Some((0, 3 * SEC)));
    n.host.clock = 40 * SEC;
    n.check_for_timeout().unwrap();
    assert_eq!(inflight(&n, InflightRequest::Headers), Some((0, 40 * SEC)));
    assert_eq!(banscore(&n, 0), 2);
    n.ask_for_missed_proofs().unwrap();
    n.host.to_connect.push((2, address(2, 8333, 2)));
    n.create_connection(ConnectionKind::Extra).unwrap();
    assert!(n.host.address_states.contains(&(2, AddressState::Failed(1_700_000_000))));
    n.handle_disconnection(1, 2).unwrap();
    assert!(n.host.address_states.contains(&(2, AddressState::Failed(1_700_000_000))));
    n.host.to_connect.push((3, address(3, 8333, 3)));
    n.open_feeler_connection().unwrap();
    assert_eq!(n.last_feeler, 40 * SEC);
    n.handle_addnode_onetry_peer(IpAddress::V4(0x0a00_0004), 1, true).unwrap();
    n.handle_addnode_add_peer(IpAddress::V4(0x0a00_0005), 1, true).unwrap();
    n.maybe_open_connection_with_added_peers().unwrap();
    n.host.enough = false;
    n.maybe_ask_dns_seed_for_addresses();
    assert_eq!(n.host.dns_calls, 0);
    n.host.clock = 300 * SEC;
    n.maybe_ask_dns_seed_for_addresses();
    assert_eq!(n.host.dns_calls, 1);
    n.maybe_use_hardcoded_addresses(false);
    assert!(n.host.fixed_added.is_empty());
    n.maybe_open_connection(ServiceFlags::network()).unwrap_err();
    assert_eq!(n.host.fixed_added, vec![Network::Regtest]);
    n.host.anchors = vec![address(7, 8333, 7)];
    n.init_peers().unwrap();
    assert_eq!(n.host.spawned.last().unwrap().1, 7);
}

#[test]
fn txid_is_double_sha256_of_legacy_serialization() {
    let genesis = bitcoin::blockdata::constants::genesis_block(bitcoin::Network::Bitcoin);
    let coinbase = &genesis.txdata[0];
    let tx = Transaction { data: bitcoin::consensus::serialize(coinbase) };
    let expected = bitcoin::hashes::Hash::to_byte_array(coinbase.compute_txid());
    let mut w = [0u64; 4];
    for i in 0..4 {
        let mut a = [0u8; 8];
        a.copy_from_slice(&expected[8 * i..8 * i + 8]);
        w[i] = u64::from_le_bytes(a);
    }
    assert_eq!(tx.compute_txid(), Hash256(w[0], w[1], w[2], w[3]));
    let header = bitcoin::consensus::serialize(&genesis.header);
    let b = Block { header, txdata: vec![tx] };
    let expected = bitcoin::hashes::Hash::to_byte_array(genesis.block_hash());
    for i in 0..4 {
        let mut a = [0u8; 8];
        a.copy_from_slice(&expected[8 * i..8 * i + 8]);
        w[i] = u64::from_le_bytes(a);
    }
    assert_eq!(b.block_hash(), Hash256(w[0], w[1], w[2], w[3]));
}
