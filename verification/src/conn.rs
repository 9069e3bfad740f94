//! Opening connections and finding addresses to connect to.
use vstd::prelude::*;

use crate::host::HostEvent;
use crate::host::NodeHost;
use crate::node::LocalPeerView;
use crate::node::NodeState;
use crate::node::UtreexoNode;
use crate::types::{
    spec_net_address, spec_to_addr_v2, AddedPeerInfo, AddrV2, AddressState, ConnectionKind,
    InflightRequest, IpAddress, LocalAddress, Network, PeerId, PeerStatus, ServiceFlags,
    TransportProtocol, WireError, NODE_UTREEXO,
};

verus! {

/// How long (nanoseconds) the node waits for peers before it falls back to the
/// hard-coded addresses: one minute.
pub const HARDCODED_ADDRESSES_GRACE_PERIOD: u64 = 60_000_000_000;

/// The minimum time (nanoseconds) between address requests to the DNS seeds:
/// two minutes.
pub const DNS_SEED_REQUEST_INTERVAL: u64 = 120_000_000_000;

/// Nanoseconds since `earlier`, or zero if `earlier` is later than `now`.
pub open spec fn elapsed_since(now: u64, earlier: u64) -> u64 {
    if now >= earlier {
        (now - earlier) as u64
    } else {
        0
    }
}

/// The record of a connection just opened with `address` (kind `kind`, address
/// id `peer_id`): awaiting its handshake, no services, nothing known yet.
pub open spec fn fresh_peer(p: LocalPeerView, kind: ConnectionKind, address: LocalAddress, peer_id: usize) -> bool {
    &&& p.address == spec_net_address(address.address)
    &&& p.port == address.port
    &&& p.user_agent@ == Seq::<char>::empty()
    &&& p.state == PeerStatus::Awaiting
    &&& p.services == ServiceFlags(0)
    &&& p.kind == kind
    &&& p.address_id == peer_id as u32
    &&& p.height == 0
    &&& p.banscore == 0
    &&& p.transport_protocol == TransportProtocol::V2
}

/// What `open_connection` did, from `s0`/`t0` to `s1`/`t1`: the host started the
/// connection's task, and the node records the new peer under the next id, waits
/// for its handshake, and notes when it opened a feeler or regular connection.
/// When every id was handed out, nothing happened.
pub open spec fn opened(
    s0: NodeState,
    t0: Seq<HostEvent>,
    s1: NodeState,
    t1: Seq<HostEvent>,
    r: Result<(), WireError>,
    kind: ConnectionKind,
    peer_id: usize,
    address: LocalAddress,
    allow_v1_fallback: bool,
    now: u64,
) -> bool {
    let id = s0.peer_id_count;
    if id == u32::MAX {
        &&& r == Err::<(), WireError>(WireError::PeerIdsExhausted)
        &&& s1 == s0
        &&& t1 == t0
    } else {
        &&& r is Ok
        &&& t1 == t0.push(HostEvent::SpawnPeer(kind, peer_id, address, id, allow_v1_fallback))
        &&& s1.peers.contains_key(id)
        &&& fresh_peer(s1.peers[id], kind, address, peer_id)
        &&& s1 == (NodeState {
            peers: s0.peers.insert(id, s1.peers[id]),
            inflight: s0.inflight.insert(InflightRequest::Connect(id), (id, now)),
            peer_id_count: (id + 1) as u32,
            last_feeler: if kind == ConnectionKind::Feeler {
                now
            } else {
                s0.last_feeler
            },
            last_connection: if (kind is Regular) {
                now
            } else {
                s0.last_connection
            },
            ..s0
        })
    }
}

/// Whether some peer in `peers` is at `ip` and `port`.
pub open spec fn peer_at(peers: Map<PeerId, LocalPeerView>, ip: IpAddress, port: u16) -> bool {
    exists|id: PeerId| #[trigger] peers.contains_key(id) && peers[id].address == ip && peers[id].port == port
}

/// Whether V1 may be used if V2 fails: the setting allows it, the connection is
/// to a Utreexo peer, or it is the `--connect` peer.
pub open spec fn allows_v1(s: NodeState, kind: ConnectionKind) -> bool {
    s.config.allow_v1_fallback || kind == ConnectionKind::Regular(ServiceFlags(NODE_UTREEXO))
        || s.config.fixed_peer is Some
}

/// The services a connection of this kind must offer.
pub open spec fn required_services(kind: ConnectionKind) -> ServiceFlags {
    match kind {
        ConnectionKind::Regular(s) => s,
        _ => ServiceFlags(0),
    }
}

/// What `create_connection` did, given what the host offered (`pick`) when no
/// `--connect` peer is set.
pub open spec fn connection_created(
    s0: NodeState,
    t0: Seq<HostEvent>,
    s1: NodeState,
    t1: Seq<HostEvent>,
    r: Result<(), WireError>,
    kind: ConnectionKind,
    pick: Option<(usize, LocalAddress)>,
    now: u64,
    unix_now: u64,
) -> bool {
    let fixed = s0.config.fixed_peer;
    let tp = if (fixed is Some) {
        t0
    } else {
        t0.push(HostEvent::AddressToConnect(required_services(kind), kind == ConnectionKind::Feeler, pick))
    };
    let chosen = if (fixed is Some) {
        Some((0usize, fixed->Some_0))
    } else {
        pick
    };
    match chosen {
        None => {
            &&& t1 == tp.push(HostEvent::AddFixedAddresses(s0.config.network))
            &&& s1 == s0
            &&& r == Err::<(), WireError>(WireError::NoAddressesAvailable)
        },
        Some((aid, addr)) => {
            let ta = tp.push(HostEvent::SetAddressState(aid, AddressState::Failed(unix_now)));
            let ip = spec_net_address(addr.address);
            if peer_at(s0.peers, ip, addr.port) {
                &&& t1 == ta
                &&& s1 == s0
                &&& r == Err::<(), WireError>(WireError::PeerAlreadyExists(ip, addr.port))
            } else {
                opened(s0, ta, s1, t1, r, kind, aid, addr, allows_v1(s0, kind), now)
            }
        },
    }
}

/// What `maybe_ask_dns_seed_for_addresses` did: the host said whether it has
/// enough addresses; if it has not, asking is enabled, and the last request is
/// old enough, the DNS seeds were asked and the time of the request recorded.
pub open spec fn dns_outcome(
    s0: NodeState,
    t0: Seq<HostEvent>,
    s1: NodeState,
    t1: Seq<HostEvent>,
    now: u64,
) -> bool {
    &&& t1.len() > t0.len()
    &&& t1[t0.len() as int] is EnoughAddresses
    &&& if s0.config.disable_dns_seeds || t1[t0.len() as int]->EnoughAddresses_0 || elapsed_since(
        now,
        s0.last_dns_seed_call,
    ) < DNS_SEED_REQUEST_INTERVAL {
        &&& s1 == s0
        &&& t1 == t0.push(t1[t0.len() as int])
    } else {
        &&& s1 == (NodeState { last_dns_seed_call: now, ..s0 })
        &&& t1.len() == t0.len() + 2
        &&& t1.subrange(0, t0.len() + 1int) == t0.push(t1[t0.len() as int])
        &&& t1.last() is DnsSeeds
    }
}

/// What `maybe_use_hardcoded_addresses` did to the trace.
pub open spec fn hardcoded_outcome(
    s0: NodeState,
    t0: Seq<HostEvent>,
    t1: Seq<HostEvent>,
    needs_utreexo: bool,
    now: u64,
) -> bool {
    let has_peers = s0.peers.dom() != Set::<PeerId>::empty();
    let wait = if needs_utreexo {
        2 * HARDCODED_ADDRESSES_GRACE_PERIOD
    } else {
        HARDCODED_ADDRESSES_GRACE_PERIOD as int
    };
    if s0.config.fixed_peer is Some || (has_peers && (!needs_utreexo || s0.has_utreexo_peers()))
        || elapsed_since(now, s0.startup_time) < wait {
        t1 == t0
    } else {
        t1 == t0.push(HostEvent::AddFixedAddresses(s0.config.network))
    }
}

/// `states` and `traces` go through opening a regular Utreexo connection with
/// each of `anchors` in turn, each succeeding.
pub open spec fn anchors_chain(
    states: Seq<NodeState>,
    traces: Seq<Seq<HostEvent>>,
    anchors: Seq<LocalAddress>,
    now: u64,
) -> bool {
    &&& states.len() == anchors.len() + 1
    &&& traces.len() == anchors.len() + 1
    &&& forall|j: int|
        0 <= j < anchors.len() ==> #[trigger] opened(
            states[j],
            traces[j],
            states[j + 1],
            traces[j + 1],
            Ok(()),
            ConnectionKind::Regular(ServiceFlags(NODE_UTREEXO)),
            anchors[j].id,
            anchors[j],
            true,
            now,
        )
}

/// The connections with `anchors` were opened in order, from `s0`/`t0` to
/// `s1`/`t1`, until every peer id was handed out.
pub open spec fn anchors_outcome(
    s0: NodeState,
    t0: Seq<HostEvent>,
    s1: NodeState,
    t1: Seq<HostEvent>,
    r: Result<(), WireError>,
    anchors: Seq<LocalAddress>,
    now: u64,
) -> bool {
    exists|k: int, states: Seq<NodeState>, traces: Seq<Seq<HostEvent>>|
        {
            &&& 0 <= k <= anchors.len()
            &&& #[trigger] anchors_chain(states, traces, anchors.take(k), now)
            &&& states[0] == s0
            &&& traces[0] == t0
            &&& states.last() == s1
            &&& traces.last() == t1
            &&& if k == anchors.len() {
                r is Ok
            } else {
                &&& s1.peer_id_count == u32::MAX
                &&& r == Err::<(), WireError>(WireError::PeerIdsExhausted)
            }
        }
}

/// What `init_peers` did: the host loaded its addresses and named the anchors;
/// the DNS seeds were asked if the host lacks addresses and asking is enabled;
/// then a regular Utreexo connection was opened with each anchor.
pub open spec fn init_outcome(
    s0: NodeState,
    t0: Seq<HostEvent>,
    s1: NodeState,
    t1: Seq<HostEvent>,
    r: Result<(), WireError>,
    now: u64,
) -> bool {
    &&& t1.len() >= t0.len() + 2
    &&& t1.subrange(0, t0.len() as int) == t0
    &&& t1[t0.len() as int] is StartAddrMan
    &&& t1[t0.len() + 1int] is EnoughAddresses
    &&& ({
        let anchors = t1[t0.len() as int]->StartAddrMan_0;
        let enough = t1[t0.len() + 1int]->EnoughAddresses_0;
        if !s0.config.disable_dns_seeds && !enough {
            &&& t1.len() >= t0.len() + 3
            &&& t1[t0.len() + 2int] is DnsSeeds
            &&& if (t1[t0.len() + 2int]->DnsSeeds_0 is Err) {
                &&& t1.len() == t0.len() + 3
                &&& s1 == s0
                &&& r == t1[t0.len() + 2int]->DnsSeeds_0
            } else {
                anchors_outcome(
                    NodeState { last_dns_seed_call: now, ..s0 },
                    t1.subrange(0, t0.len() + 3int),
                    s1,
                    t1,
                    r,
                    anchors,
                    now,
                )
            }
        } else {
            anchors_outcome(s0, t1.subrange(0, t0.len() + 2int), s1, t1, r, anchors, now)
        }
    })
}

/// Whether some peer in `peers` is the hand-added peer `a`.
pub open spec fn matching_peer(peers: Map<PeerId, LocalPeerView>, a: AddedPeerInfo) -> bool {
    exists|id: PeerId|
        #[trigger] peers.contains_key(id) && spec_to_addr_v2(peers[id].address) == a.address
            && peers[id].port == a.port
}

/// The address record under which a hand-added peer is connected.
pub open spec fn added_address(a: AddedPeerInfo, id: u32, unix_now: u64) -> LocalAddress {
    LocalAddress {
        address: a.address,
        last_connected: 0,
        state: AddressState::Tried(unix_now),
        services: ServiceFlags(0),
        port: a.port,
        id: id as usize,
    }
}

/// What the node does for one hand-added peer `a`: nothing if a peer is
/// connected to it, else it opens a regular connection (with address id `id`).
pub open spec fn added_step(
    s0: NodeState,
    t0: Seq<HostEvent>,
    s1: NodeState,
    t1: Seq<HostEvent>,
    r: Result<(), WireError>,
    a: AddedPeerInfo,
    id: u32,
    unix_now: u64,
    now: u64,
) -> bool {
    if matching_peer(s0.peers, a) {
        &&& s1 == s0
        &&& t1 == t0
        &&& r is Ok
    } else {
        opened(
            s0,
            t0,
            s1,
            t1,
            r,
            ConnectionKind::Regular(ServiceFlags(0)),
            id as usize,
            added_address(a, id, unix_now),
            a.v1_fallback,
            now,
        )
    }
}

/// `states` and `traces` go through the step for each of `list` in turn, each
/// succeeding.
pub open spec fn added_chain(
    states: Seq<NodeState>,
    traces: Seq<Seq<HostEvent>>,
    list: Seq<AddedPeerInfo>,
    id: u32,
    unix_now: u64,
    now: u64,
) -> bool {
    &&& states.len() == list.len() + 1
    &&& traces.len() == list.len() + 1
    &&& forall|j: int|
        0 <= j < list.len() ==> #[trigger] added_step(
            states[j],
            traces[j],
            states[j + 1],
            traces[j + 1],
            Ok(()),
            list[j],
            id,
            unix_now,
            now,
        )
}

/// What `maybe_open_connection_with_added_peers` did: the step for each hand-added
/// peer, in order, until every peer id was handed out. All new connections
/// share the address id given by the peer counter when the call began.
pub open spec fn added_outcome(
    s0: NodeState,
    t0: Seq<HostEvent>,
    s1: NodeState,
    t1: Seq<HostEvent>,
    r: Result<(), WireError>,
    unix_now: u64,
    now: u64,
) -> bool {
    let list = s0.added_peers;
    exists|k: int, states: Seq<NodeState>, traces: Seq<Seq<HostEvent>>|
        {
            &&& 0 <= k <= list.len()
            &&& #[trigger] added_chain(states, traces, list.take(k), s0.peer_id_count, unix_now, now)
            &&& states[0] == s0
            &&& traces[0] == t0
            &&& states.last() == s1
            &&& traces.last() == t1
            &&& s1.added_peers == s0.added_peers
            &&& if k == list.len() {
                r is Ok
            } else {
                &&& s1.peer_id_count == u32::MAX
                &&& !matching_peer(s1.peers, list[k])
                &&& r == Err::<(), WireError>(WireError::PeerIdsExhausted)
            }
        }
}

/// What `maybe_open_connection` did after the hand-added peers were handled
/// (from `s1`/`t1`): with a `--connect` peer that is connected, nothing;
/// otherwise it asked the DNS seeds and fell back to hard-coded addresses as
/// needed, and opened a regular connection requiring `required` if the node
/// has fewer peers than its maximum.
pub open spec fn open_rest(
    s1: NodeState,
    t1: Seq<HostEvent>,
    s_final: NodeState,
    t_final: Seq<HostEvent>,
    r: Result<(), WireError>,
    required: ServiceFlags,
    now: u64,
    unix_now: u64,
) -> bool {
    if s1.config.fixed_peer is Some && s1.peers.dom() != Set::<PeerId>::empty() {
        &&& s_final == s1
        &&& t_final == t1
        &&& r is Ok
    } else {
        exists|s2: NodeState, t2: Seq<HostEvent>, t3: Seq<HostEvent>|
            #[trigger] dns_outcome(s1, t1, s2, t2, now) && #[trigger] hardcoded_outcome(
                s2,
                t2,
                t3,
                required.spec_has(ServiceFlags(NODE_UTREEXO)),
                now,
            ) && if s2.peers.dom().len() < s2.config.max_outgoing_peers {
                exists|pick: Option<(usize, LocalAddress)>|
                    #[trigger] connection_created(
                        s2,
                        t3,
                        s_final,
                        t_final,
                        r,
                        ConnectionKind::Regular(required),
                        pick,
                        now,
                        unix_now,
                    )
            } else {
                &&& s_final == s2
                &&& t_final == t3
                &&& r is Ok
            }
    }
}

/// What `maybe_open_connection(required)` did, with the clocks reading `now`
/// (monotonic nanoseconds) and `unix_now` (UNIX seconds): the hand-added peers
/// were handled, and unless that failed, the rest of the work was done.
pub open spec fn connection_kept(
    s0: NodeState,
    t0: Seq<HostEvent>,
    s_final: NodeState,
    t_final: Seq<HostEvent>,
    r: Result<(), WireError>,
    required_service: ServiceFlags,
    now: u64,
    unix_now: u64,
) -> bool {
    exists|s1: NodeState, t1: Seq<HostEvent>, r1: Result<(), WireError>|
        {
            &&& #[trigger] added_outcome(s0, t0, s1, t1, r1, unix_now, now)
            &&& r1 is Err ==> {
                &&& s_final == s1
                &&& t_final == t1
                &&& r == r1
            }
            &&& r1 is Ok ==> open_rest(s1, t1, s_final, t_final, r, required_service, now, unix_now)
        }
}

impl<H: NodeHost> UtreexoNode<H> {
    /// The first peer, in order, at `ip` and `port`.
    pub fn find_peer_at(&self, ip: IpAddress, port: u16) -> (r: Option<PeerId>)
        requires
            self.wf(),
        ensures
            r is None <==> !peer_at(self@.peers, ip, port),
            r matches Some(id) ==> self@.peers.contains_key(id) && self@.peers[id].address == ip
                && self@.peers[id].port == port,
    {
        let mut i: usize = 0;
        while i < self.peers.len()
            invariant
                self.wf(),
                i <= self.peers.entries().len(),
                forall|j: int|
                    0 <= j < i ==> !(self.peers.entries()[j].1.address == ip
                        && self.peers.entries()[j].1.port == port),
            decreases self.peers.entries().len() - i,
        {
            let e = self.peers.entry_at(i);
            if e.1.address == ip && e.1.port == port {
                proof {
                    crate::vec_map::lemma_entries_map_at(self.peers.entries(), i as int);
                }
                return Some(e.0);
            }
            i = i + 1;
        }
        proof {
            assert forall|id: PeerId| #[trigger] self@.peers.contains_key(id) implies !(
            self@.peers[id].address == ip && self@.peers[id].port == port) by {
                let j = choose|j: int| crate::vec_map::key_at(self.peers.entries(), id, j);
                crate::vec_map::lemma_entries_map_at(self.peers.entries(), j);
            }
        }
        None
    }

    /// Opens a new outgoing connection with `address`.
    ///
    /// The host starts the connection's task, which tries V2 first and falls back
    /// to V1 if `allow_v1_fallback`; it reports back when the handshake is done.
    /// The node records the peer under the next id as awaiting its handshake.
    pub fn open_connection_at(
        &mut self,
        kind: ConnectionKind,
        peer_id: usize,
        address: LocalAddress,
        allow_v1_fallback: bool,
        now: u64,
    ) -> (r: Result<(), WireError>)
        requires
            old(self).wf(),
        ensures
            final(self).wf(),
            opened(
                old(self)@,
                old(self).trace(),
                final(self)@,
                final(self).trace(),
                r,
                kind,
                peer_id,
                address,
                allow_v1_fallback,
                now,
            ),
    {
        if self.peer_id_count == u32::MAX {
            return Err(WireError::PeerIdsExhausted);
        }
        self.host.spawn_peer_task(
            kind,
            peer_id,
            address,
            self.peer_id_count,
            allow_v1_fallback,
        );
        let peer_count: u32 = self.peer_id_count;
        self.inflight.insert(InflightRequest::Connect(peer_count), (peer_count, now));
        let view = LocalPeerView {
            address: address.get_net_address(),
            port: address.get_port(),
            user_agent: String::new(),
            state: PeerStatus::Awaiting,
            services: ServiceFlags::none(),
            kind,
            address_id: peer_id as u32,
            height: 0,
            banscore: 0,
            transport_protocol: TransportProtocol::V2,
        };
        self.peers.insert(peer_count, view);
        match kind {
            ConnectionKind::Feeler => self.last_feeler = now,
            ConnectionKind::Regular(_) => self.last_connection = now,
            _ => {},
        }
        self.peer_id_count = self.peer_id_count + 1;
        Ok(())
    }

    /// Opens a connection of kind `kind` with an address the host offers (or the
    /// `--connect` peer), unless a peer is already connected there. With no
    /// address to offer, the host is told to add the hard-coded addresses.
    pub fn create_connection_at(&mut self, kind: ConnectionKind, now: u64, unix_now: u64) -> (r:
        Result<(), WireError>)
        requires
            old(self).wf(),
        ensures
            final(self).wf(),
            exists|pick: Option<(usize, LocalAddress)>|
                #[trigger] connection_created(
                    old(self)@,
                    old(self).trace(),
                    final(self)@,
                    final(self).trace(),
                    r,
                    kind,
                    pick,
                    now,
                    unix_now,
                ),
    {
        let ghost s0 = self@;
        let ghost t0 = self.trace();
        let required_services = match kind {
            ConnectionKind::Regular(services) => services,
            _ => ServiceFlags::none(),
        };
        let is_feeler = match kind {
            ConnectionKind::Feeler => true,
            _ => false,
        };
        let mut pick: Option<(usize, LocalAddress)> = None;
        let address = match self.config.fixed_peer {
            Some(addr) => Some((0usize, addr)),
            None => {
                let a = self.host.get_address_to_connect(required_services, is_feeler);
                pick = a;
                a
            },
        };
        let (peer_id, address) = match address {
            Some(pa) => pa,
            None => {
                let net = self.config.network;
                self.host.add_fixed_addresses(net);
                assert(connection_created(s0, t0, self@, self.trace(), Err(WireError::NoAddressesAvailable), kind, pick, now, unix_now));
                return Err(WireError::NoAddressesAvailable);
            },
        };
        self.set_address_state(peer_id, AddressState::Failed(unix_now));
        let ip = address.get_net_address();
        let port = address.get_port();
        if self.find_peer_at(ip, port).is_some() {
            assert(connection_created(s0, t0, self@, self.trace(), Err(WireError::PeerAlreadyExists(ip, port)), kind, pick, now, unix_now));
            return Err(WireError::PeerAlreadyExists(ip, port));
        }
        let is_fixed = self.config.fixed_peer.is_some();
        let allow_v1 = self.config.allow_v1_fallback || kind == ConnectionKind::Regular(
            ServiceFlags::utreexo(),
        ) || is_fixed;
        let r = self.open_connection_at(kind, peer_id, address, allow_v1, now);
        assert(connection_created(s0, t0, self@, self.trace(), r, kind, pick, now, unix_now));
        r
    }

    /// Opens a feeler connection, unless a `--connect` peer is set.
    pub fn open_feeler_connection_at(&mut self, now: u64, unix_now: u64) -> (r: Result<(), WireError>)
        requires
            old(self).wf(),
        ensures
            final(self).wf(),
            old(self).config.fixed_peer is Some ==> {
                &&& r is Ok
                &&& final(self)@ == old(self)@
                &&& final(self).trace() == old(self).trace()
            },
            old(self).config.fixed_peer is None ==> exists|pick: Option<(usize, LocalAddress)>|
                #[trigger] connection_created(
                    old(self)@,
                    old(self).trace(),
                    final(self)@,
                    final(self).trace(),
                    r,
                    ConnectionKind::Feeler,
                    pick,
                    now,
                    unix_now,
                ),
    {
        if self.config.fixed_peer.is_some() {
            return Ok(());
        }
        self.create_connection_at(ConnectionKind::Feeler, now, unix_now)
    }

    /// The default P2P port of `network`.
    pub fn get_port(network: Network) -> (port: u16)
        ensures
            port == crate::types::spec_default_port(network),
    {
        match network {
            Network::Bitcoin => 8333,
            Network::Signet => 38333,
            Network::Testnet => 18333,
            Network::Testnet4 => 48333,
            Network::Regtest => 18444,
        }
    }

    /// Asks the DNS seeds for addresses if the host lacks addresses, asking is
    /// enabled, and the last request is at least two minutes old. A failed
    /// request is only logged by the host.
    pub fn maybe_ask_dns_seed_for_addresses_at(&mut self, now: u64)
        requires
            old(self).wf(),
        ensures
            final(self).wf(),
            dns_outcome(old(self)@, old(self).trace(), final(self)@, final(self).trace(), now),
    {
        let enough_addresses = self.host.enough_addresses();
        if self.config.disable_dns_seeds || enough_addresses {
            return;
        }
        let elapsed = if now >= self.last_dns_seed_call {
            now - self.last_dns_seed_call
        } else {
            0
        };
        if elapsed < DNS_SEED_REQUEST_INTERVAL {
            return;
        }
        self.last_dns_seed_call = now;
        let r = self.host.get_peers_from_dns();
        proof {
            assert(self.trace().subrange(0, old(self).trace().len() + 1int) =~= old(self).trace().push(
                HostEvent::EnoughAddresses(enough_addresses),
            ));
        }
    }

    /// Tells the host to add the hard-coded addresses if the node has had no
    /// peers, or no Utreexo peer when it `needs_utreexo`, for a while: one
    /// minute after start, or two when Utreexo peers are needed. Never with a
    /// `--connect` peer.
    pub fn maybe_use_hardcoded_addresses_at(&mut self, needs_utreexo: bool, now: u64)
        requires
            old(self).wf(),
        ensures
            final(self).wf(),
            final(self).same_bookkeeping(*old(self)),
            hardcoded_outcome(old(self)@, old(self).trace(), final(self).trace(), needs_utreexo, now),
    {
        if self.config.fixed_peer.is_some() {
            return;
        }
        let has_peers = !self.peers.is_empty();
        if has_peers && (!needs_utreexo || self.has_utreexo_peers()) {
            return;
        }
        let mut wait = HARDCODED_ADDRESSES_GRACE_PERIOD;
        if needs_utreexo {
            wait = wait + HARDCODED_ADDRESSES_GRACE_PERIOD;
        }
        let elapsed = if now >= self.startup_time {
            now - self.startup_time
        } else {
            0
        };
        if elapsed < wait {
            return;
        }
        let net = self.config.network;
        self.host.add_fixed_addresses(net);
    }
    /// The first peer, in order, whose gossip address is `address` and port `port`.
    pub fn find_peer_for(&self, address: AddrV2, port: u16) -> (r: Option<PeerId>)
        requires
            self.wf(),
        ensures
            r is None <==> !matching_peer(
                self@.peers,
                AddedPeerInfo { address, port, v1_fallback: false },
            ),
    {
        let mut i: usize = 0;
        while i < self.peers.len()
            invariant
                self.wf(),
                i <= self.peers.entries().len(),
                forall|j: int|
                    0 <= j < i ==> !(spec_to_addr_v2(self.peers.entries()[j].1.address) == address
                        && self.peers.entries()[j].1.port == port),
            decreases self.peers.entries().len() - i,
        {
            let e = self.peers.entry_at(i);
            if crate::types::to_addr_v2(e.1.address) == address && e.1.port == port {
                proof {
                    crate::vec_map::lemma_entries_map_at(self.peers.entries(), i as int);
                    let a = AddedPeerInfo { address, port, v1_fallback: false };
                    assert(self@.peers.contains_key(e.0));
                }
                return Some(e.0);
            }
            i = i + 1;
        }
        proof {
            assert forall|id: PeerId| #[trigger] self@.peers.contains_key(id) implies !(
            spec_to_addr_v2(self@.peers[id].address) == address && self@.peers[id].port == port) by {
                let j = choose|j: int| crate::vec_map::key_at(self.peers.entries(), id, j);
                crate::vec_map::lemma_entries_map_at(self.peers.entries(), j);
            }
        }
        None
    }

    /// Loads the addresses, asks the DNS seeds if the host lacks addresses, and
    /// opens a regular Utreexo connection (allowing V1) with each anchor peer.
    #[verifier::loop_isolation(false)]
    pub fn init_peers_at(&mut self, now: u64) -> (r: Result<(), WireError>)
        requires
            old(self).wf(),
        ensures
            final(self).wf(),
            init_outcome(old(self)@, old(self).trace(), final(self)@, final(self).trace(), r, now),
    {
        let ghost t0 = self.trace();
        let anchors = self.host.start_addr_man();
        let enough_addresses = self.host.enough_addresses();
        if !self.config.disable_dns_seeds && !enough_addresses {
            let d = self.host.get_peers_from_dns();
            if d.is_err() {
                assert(self.trace().subrange(0, t0.len() as int) =~= t0);
                return d;
            }
            self.last_dns_seed_call = now;
        }
        let ghost s_start = self@;
        let ghost t_start = self.trace();
        let ghost mut states: Seq<NodeState> = seq![s_start];
        let ghost mut traces: Seq<Seq<HostEvent>> = seq![t_start];
        proof {
            assert(anchors@.take(0) =~= Seq::<LocalAddress>::empty());
            assert(t_start.subrange(0, t0.len() as int) =~= t0);
        }
        let mut i: usize = 0;
        while i < anchors.len()
            invariant
                self.wf(),
                i <= anchors@.len(),
                anchors_chain(states, traces, anchors@.take(i as int), now),
                states[0] == s_start,
                traces[0] == t_start,
                states.last() == self@,
                traces.last() == self.trace(),
                self.config == s_start.config,
                self.trace().len() >= t_start.len(),
                self.trace().subrange(0, t_start.len() as int) == t_start,
            decreases anchors@.len() - i,
        {
            let a = anchors[i];
            let step = self.open_connection_at(
                ConnectionKind::Regular(ServiceFlags::utreexo()),
                a.id,
                a,
                true,
                now,
            );
            if step.is_err() {
                assert(anchors_outcome(s_start, t_start, self@, self.trace(), Err(WireError::PeerIdsExhausted), anchors@, now));
                proof {
                    assert(self.trace().subrange(0, t0.len() as int) =~= t_start.subrange(0, t0.len() as int));
                    assert(self.trace()[t0.len() as int] == t_start[t0.len() as int]);
                    assert(self.trace()[t0.len() + 1int] == t_start[t0.len() + 1int]);
                    if t_start.len() > t0.len() + 2 {
                        assert(self.trace()[t0.len() + 2int] == t_start[t0.len() + 2int]);
                        assert(self.trace().subrange(0, t0.len() + 3int) =~= t_start);
                    } else {
                        assert(self.trace().subrange(0, t0.len() + 2int) =~= t_start);
                    }
                }
                return Err(WireError::PeerIdsExhausted);
            }
            proof {
                let prev_states = states;
                let prev_traces = traces;
                states = states.push(self@);
                traces = traces.push(self.trace());
                assert(anchors@.take(i + 1).drop_last() =~= anchors@.take(i as int));
                assert forall|j: int| 0 <= j < i + 1 implies #[trigger] opened(
                    states[j],
                    traces[j],
                    states[j + 1],
                    traces[j + 1],
                    Ok(()),
                    ConnectionKind::Regular(ServiceFlags(NODE_UTREEXO)),
                    anchors@.take(i + 1)[j].id,
                    anchors@.take(i + 1)[j],
                    true,
                    now,
                ) by {
                    if j < i {
                        assert(states[j] == prev_states[j] && states[j + 1] == prev_states[j + 1]);
                        assert(traces[j] == prev_traces[j] && traces[j + 1] == prev_traces[j + 1]);
                        assert(anchors@.take(i + 1)[j] == anchors@.take(i as int)[j]);
                    }
                }
                assert(self.trace().subrange(0, t_start.len() as int) =~= t_start);
            }
            i = i + 1;
        }
        proof {
            assert(anchors@.take(i as int) =~= anchors@);
        }
        assert(anchors_outcome(s_start, t_start, self@, self.trace(), Ok(()), anchors@, now));
        proof {
            assert(self.trace().subrange(0, t0.len() as int) =~= t_start.subrange(0, t0.len() as int));
            assert(self.trace()[t0.len() as int] == t_start[t0.len() as int]);
            assert(self.trace()[t0.len() + 1int] == t_start[t0.len() + 1int]);
            if t_start.len() > t0.len() + 2 {
                assert(self.trace()[t0.len() + 2int] == t_start[t0.len() + 2int]);
                assert(self.trace().subrange(0, t0.len() + 3int) =~= t_start);
            } else {
                assert(self.trace().subrange(0, t0.len() + 2int) =~= t_start);
            }
        }
        Ok(())
    }
    /// Opens a regular connection with each hand-added peer that no peer is
    /// connected to, in order.
    pub fn maybe_open_connection_with_added_peers_at(&mut self, now: u64, unix_now: u64) -> (r: Result<
        (),
        WireError,
    >)
        requires
            old(self).wf(),
        ensures
            final(self).wf(),
            added_outcome(old(self)@, old(self).trace(), final(self)@, final(self).trace(), r, unix_now, now),
    {
        let ghost s_start = self@;
        let ghost t_start = self.trace();
        let ghost mut states: Seq<NodeState> = seq![s_start];
        let ghost mut traces: Seq<Seq<HostEvent>> = seq![t_start];
        proof {
            assert(self@.added_peers.take(0) =~= Seq::<AddedPeerInfo>::empty());
        }
        if self.added_peers.len() == 0 {
            assert(states.last() == s_start && traces.last() == t_start && states[0] == s_start && traces[0] == t_start);
            assert(added_chain(states, traces, s_start.added_peers.take(0), s_start.peer_id_count, unix_now, now));
            assert(added_outcome(s_start, t_start, self@, self.trace(), Ok(()), unix_now, now));
            return Ok(());
        }
        let peers_count = self.peer_id_count;
        let mut i: usize = 0;
        while i < self.added_peers.len()
            invariant
                self.wf(),
                i <= s_start.added_peers.len(),
                self@.added_peers == s_start.added_peers,
                s_start == old(self)@,
                t_start == old(self).trace(),
                peers_count == s_start.peer_id_count,
                added_chain(states, traces, s_start.added_peers.take(i as int), peers_count, unix_now, now),
                states[0] == s_start,
                traces[0] == t_start,
                states.last() == self@,
                traces.last() == self.trace(),
            decreases s_start.added_peers.len() - i,
        {
            let added = self.added_peers[i];
            let ghost sp = self@;
            let ghost tp = self.trace();
            let matching = self.find_peer_for(added.address, added.port);
            proof {
                let a0 = AddedPeerInfo { address: added.address, port: added.port, v1_fallback: false };
                assert(matching_peer(sp.peers, a0) == matching_peer(sp.peers, added));
            }
            if matching.is_none() {
                let address = LocalAddress::new(
                    added.address,
                    0,
                    AddressState::Tried(unix_now),
                    ServiceFlags::none(),
                    added.port,
                    peers_count as usize,
                );
                let step = self.open_connection_at(
                    ConnectionKind::Regular(ServiceFlags::none()),
                    peers_count as usize,
                    address,
                    added.v1_fallback,
                    now,
                );
                if step.is_err() {
                    assert(added_outcome(s_start, t_start, self@, self.trace(), Err(WireError::PeerIdsExhausted), unix_now, now));
                    return Err(WireError::PeerIdsExhausted);
                }
                assert(added_step(sp, tp, self@, self.trace(), Ok(()), added, peers_count, unix_now, now));
            } else {
                assert(added_step(sp, tp, self@, self.trace(), Ok(()), added, peers_count, unix_now, now));
            }
            proof {
                let prev_states = states;
                let prev_traces = traces;
                states = states.push(self@);
                traces = traces.push(self.trace());
                let list = s_start.added_peers;
                assert forall|j: int| 0 <= j < i + 1 implies #[trigger] added_step(
                    states[j],
                    traces[j],
                    states[j + 1],
                    traces[j + 1],
                    Ok(()),
                    list.take(i + 1)[j],
                    peers_count,
                    unix_now,
                    now,
                ) by {
                    if j < i {
                        assert(states[j] == prev_states[j] && states[j + 1] == prev_states[j + 1]);
                        assert(traces[j] == prev_traces[j] && traces[j + 1] == prev_traces[j + 1]);
                        assert(list.take(i + 1)[j] == list.take(i as int)[j]);
                    }
                }
            }
            i = i + 1;
        }
        proof {
            assert(s_start.added_peers.take(i as int) =~= s_start.added_peers);
        }
        assert(added_outcome(s_start, t_start, self@, self.trace(), Ok(()), unix_now, now));
        Ok(())
    }

    /// Keeps the node connected: connects to hand-added peers, and unless only
    /// the `--connect` peer is wanted and present, asks the DNS seeds and falls
    /// back to hard-coded addresses when needed, then opens a regular connection
    /// requiring `required_service` if the node has fewer peers than its maximum.
    pub fn maybe_open_connection_at(&mut self, required_service: ServiceFlags, now: u64, unix_now: u64) -> (r:
        Result<(), WireError>)
        requires
            old(self).wf(),
        ensures
            final(self).wf(),
            connection_kept(
                old(self)@,
                old(self).trace(),
                final(self)@,
                final(self).trace(),
                r,
                required_service,
                now,
                unix_now,
            ),
    {
        let ghost s0 = self@;
        let ghost t0 = self.trace();
        let first = self.maybe_open_connection_with_added_peers_at(now, unix_now);
        let ghost s1 = self@;
        let ghost t1 = self.trace();
        match first {
            Err(e) => {
                assert(added_outcome(s0, t0, s1, t1, first, unix_now, now));
                return Err(e);
            },
            Ok(()) => {},
        }
        if self.config.fixed_peer.is_some() && !self.peers.is_empty() {
            assert(open_rest(s1, t1, self@, self.trace(), Ok(()), required_service, now, unix_now));
            assert(added_outcome(s0, t0, s1, t1, first, unix_now, now));
            return Ok(());
        }
        self.maybe_ask_dns_seed_for_addresses_at(now);
        let ghost s2 = self@;
        let ghost t2 = self.trace();
        let needs_utreexo = required_service.has(ServiceFlags::utreexo());
        self.maybe_use_hardcoded_addresses_at(needs_utreexo, now);
        let ghost t3 = self.trace();
        let connection_kind = ConnectionKind::Regular(required_service);
        if self.peers.len() < self.config.max_outgoing_peers {
            let r = self.create_connection_at(connection_kind, now, unix_now);
            assert(dns_outcome(s1, t1, s2, t2, now) && hardcoded_outcome(s2, t2, t3, required_service.spec_has(ServiceFlags(NODE_UTREEXO)), now));
            assert(open_rest(s1, t1, self@, self.trace(), r, required_service, now, unix_now));
            assert(added_outcome(s0, t0, s1, t1, first, unix_now, now));
            return r;
        }
        assert(dns_outcome(s1, t1, s2, t2, now) && hardcoded_outcome(s2, t2, t3, required_service.spec_has(ServiceFlags(NODE_UTREEXO)), now));
        assert(open_rest(s1, t1, self@, self.trace(), Ok(()), required_service, now, unix_now));
        assert(added_outcome(s0, t0, s1, t1, first, unix_now, now));
        Ok(())
    }
}

impl<H: NodeHost> UtreexoNode<H> {
    /// Opens a new outgoing connection with `address`, as `open_connection_at`
    /// does at the time the monotonic clock reads.
    pub fn open_connection(
        &mut self,
        kind: ConnectionKind,
        peer_id: usize,
        address: LocalAddress,
        allow_v1_fallback: bool,
    ) -> (r: Result<(), WireError>)
        requires
            old(self).wf(),
        ensures
            final(self).wf(),
            exists|now: u64|
                #[trigger] opened(
                    old(self)@,
                    old(self).trace().push(HostEvent::Clock(now)),
                    final(self)@,
                    final(self).trace(),
                    r,
                    kind,
                    peer_id,
                    address,
                    allow_v1_fallback,
                    now,
                ),
    {
        let now = self.read_clock();
        assert(self@ == old(self)@);
        let r = self.open_connection_at(kind, peer_id, address, allow_v1_fallback, now);
        assert(opened(old(self)@, old(self).trace().push(HostEvent::Clock(now)), self@, self.trace(), r, kind, peer_id, address, allow_v1_fallback, now));
        r
    }

    /// Opens a connection of kind `kind`, as `create_connection_at` does at the
    /// times the clocks read.
    pub fn create_connection(&mut self, kind: ConnectionKind) -> (r: Result<(), WireError>)
        requires
            old(self).wf(),
        ensures
            final(self).wf(),
            exists|now: u64, unix_now: u64, pick: Option<(usize, LocalAddress)>|
                #[trigger] connection_created(
                    old(self)@,
                    old(self).trace().push(HostEvent::Clock(now)).push(HostEvent::UnixClock(unix_now)),
                    final(self)@,
                    final(self).trace(),
                    r,
                    kind,
                    pick,
                    now,
                    unix_now,
                ),
    {
        let now = self.read_clock();
        let unix_now = self.read_unix_clock();
        assert(self@ == old(self)@);
        self.create_connection_at(kind, now, unix_now)
    }

    /// Opens a feeler connection, unless a `--connect` peer is set.
    pub fn open_feeler_connection(&mut self) -> (r: Result<(), WireError>)
        requires
            old(self).wf(),
        ensures
            final(self).wf(),
            old(self).config.fixed_peer is Some ==> {
                &&& r is Ok
                &&& final(self)@ == old(self)@
                &&& final(self).trace() == old(self).trace()
            },
            old(self).config.fixed_peer is None ==> exists|
                now: u64,
                unix_now: u64,
                pick: Option<(usize, LocalAddress)>,
            |
                #[trigger] connection_created(
                    old(self)@,
                    old(self).trace().push(HostEvent::Clock(now)).push(HostEvent::UnixClock(unix_now)),
                    final(self)@,
                    final(self).trace(),
                    r,
                    ConnectionKind::Feeler,
                    pick,
                    now,
                    unix_now,
                ),
    {
        if self.config.fixed_peer.is_some() {
            return Ok(());
        }
        let now = self.read_clock();
        let unix_now = self.read_unix_clock();
        assert(self@ == old(self)@);
        self.open_feeler_connection_at(now, unix_now)
    }

    /// Asks the DNS seeds for addresses when needed, as
    /// `maybe_ask_dns_seed_for_addresses_at` does at the time the clock reads.
    pub fn maybe_ask_dns_seed_for_addresses(&mut self)
        requires
            old(self).wf(),
        ensures
            final(self).wf(),
            exists|now: u64|
                #[trigger] dns_outcome(
                    old(self)@,
                    old(self).trace().push(HostEvent::Clock(now)),
                    final(self)@,
                    final(self).trace(),
                    now,
                ),
    {
        let now = self.read_clock();
        assert(self@ == old(self)@);
        self.maybe_ask_dns_seed_for_addresses_at(now);
        assert(dns_outcome(old(self)@, old(self).trace().push(HostEvent::Clock(now)), self@, self.trace(), now));
    }

    /// Falls back to the hard-coded addresses when needed, as
    /// `maybe_use_hardcoded_addresses_at` does at the time the clock reads.
    pub fn maybe_use_hardcoded_addresses(&mut self, needs_utreexo: bool)
        requires
            old(self).wf(),
        ensures
            final(self).wf(),
            final(self).same_bookkeeping(*old(self)),
            exists|now: u64|
                #[trigger] hardcoded_outcome(
                    old(self)@,
                    old(self).trace().push(HostEvent::Clock(now)),
                    final(self).trace(),
                    needs_utreexo,
                    now,
                ),
    {
        let now = self.read_clock();
        assert(self@ == old(self)@);
        self.maybe_use_hardcoded_addresses_at(needs_utreexo, now);
        assert(hardcoded_outcome(old(self)@, old(self).trace().push(HostEvent::Clock(now)), self.trace(), needs_utreexo, now));
    }

    /// Loads the addresses and connects to the anchor peers, as `init_peers_at`
    /// does at the time the clock reads.
    pub fn init_peers(&mut self) -> (r: Result<(), WireError>)
        requires
            old(self).wf(),
        ensures
            final(self).wf(),
            exists|now: u64|
                #[trigger] init_outcome(
                    old(self)@,
                    old(self).trace().push(HostEvent::Clock(now)),
                    final(self)@,
                    final(self).trace(),
                    r,
                    now,
                ),
    {
        let now = self.read_clock();
        assert(self@ == old(self)@);
        let r = self.init_peers_at(now);
        assert(init_outcome(old(self)@, old(self).trace().push(HostEvent::Clock(now)), self@, self.trace(), r, now));
        r
    }

    /// Connects to the hand-added peers, as
    /// `maybe_open_connection_with_added_peers_at` does at the times the clocks read.
    pub fn maybe_open_connection_with_added_peers(&mut self) -> (r: Result<(), WireError>)
        requires
            old(self).wf(),
        ensures
            final(self).wf(),
            exists|now: u64, unix_now: u64|
                #[trigger] added_outcome(
                    old(self)@,
                    old(self).trace().push(HostEvent::Clock(now)).push(HostEvent::UnixClock(unix_now)),
                    final(self)@,
                    final(self).trace(),
                    r,
                    unix_now,
                    now,
                ),
    {
        let now = self.read_clock();
        let unix_now = self.read_unix_clock();
        assert(self@ == old(self)@);
        let r = self.maybe_open_connection_with_added_peers_at(now, unix_now);
        assert(added_outcome(old(self)@, old(self).trace().push(HostEvent::Clock(now)).push(HostEvent::UnixClock(unix_now)), self@, self.trace(), r, unix_now, now));
        r
    }

    /// Keeps the node connected, as `maybe_open_connection_at` does at the times
    /// the clocks read.
    pub fn maybe_open_connection(&mut self, required_service: ServiceFlags) -> (r: Result<
        (),
        WireError,
    >)
        requires
            old(self).wf(),
        ensures
            final(self).wf(),
            exists|now: u64, unix_now: u64|
                #[trigger] connection_kept(
                    old(self)@,
                    old(self).trace().push(HostEvent::Clock(now)).push(HostEvent::UnixClock(unix_now)),
                    final(self)@,
                    final(self).trace(),
                    r,
                    required_service,
                    now,
                    unix_now,
                ),
    {
        let now = self.read_clock();
        let unix_now = self.read_unix_clock();
        assert(self@ == old(self)@);
        let r = self.maybe_open_connection_at(required_service, now, unix_now);
        assert(connection_kept(old(self)@, old(self).trace().push(HostEvent::Clock(now)).push(HostEvent::UnixClock(unix_now)), self@, self.trace(), r, required_service, now, unix_now));
        r
    }
}

} // verus!
