//! Sending to peers, the peers' lifecycle, and what the node keeps on them.
use vstd::prelude::*;

use crate::external::choose_random;
use crate::host::hashes_view;
use crate::host::HostEvent;
use crate::host::NodeHost;
use crate::node::LocalPeerView;
use crate::node::NodeState;
use crate::node::UtreexoNode;
use crate::conn::{added_outcome, opened, peer_at};
use crate::types::{
    spec_to_addr_v2, to_addr_v2, AddedPeerInfo, AddrV2, IpAddress, LocalAddress, WireError,
    AddressState, ConnectionKind, InflightRequest, Inventory, NodeRequest, PeerId, PeerMessage,
    PeerStatus, RequestView, ServiceFlags, Txid, UserRequest, Version, NODE_COMPACT_FILTERS,
    NODE_NETWORK, NODE_UTREEXO, NODE_UTREEXO_ARCHIVE,
};

verus! {

/// What the node tells of a peer.
pub struct PeerInfo {
    pub id: PeerId,
    pub address: IpAddress,
    pub port: u16,
    pub services: ServiceFlags,
    pub user_agent: String,
    pub initial_height: u32,
    pub state: PeerStatus,
    pub kind: ConnectionKind,
    pub transport_protocol: crate::types::TransportProtocol,
}

/// What the node tells of the peer `id` it holds as `p`.
pub open spec fn peer_info_of(id: PeerId, p: LocalPeerView) -> PeerInfo {
    PeerInfo {
        id,
        address: p.address,
        port: p.port,
        services: p.services,
        user_agent: p.user_agent,
        initial_height: p.height,
        state: p.state,
        kind: p.kind,
        transport_protocol: p.transport_protocol,
    }
}

/// The ids of the peers in `s` whose handshake finished, in order.
pub open spec fn ready_ids(s: Seq<(PeerId, LocalPeerView)>) -> Seq<PeerId>
    decreases s.len(),
{
    if s.len() == 0 {
        Seq::empty()
    } else {
        let rest = ready_ids(s.drop_last());
        if s.last().1.state == PeerStatus::Ready {
            rest.push(s.last().0)
        } else {
            rest
        }
    }
}

/// `delta` hands `req` to the channels of `ids`, one after the other.
pub open spec fn sends_to(delta: Seq<HostEvent>, ids: Seq<PeerId>, req: RequestView) -> bool {
    &&& delta.len() == ids.len()
    &&& forall|j: int|
        0 <= j < ids.len() ==> {
            &&& #[trigger] delta[j] is Sent
            &&& delta[j]->Sent_0 == ids[j]
            &&& delta[j]->Sent_1 == req
        }
}

/// The peer `id` after its ban score grew by `factor`, banned or not.
pub open spec fn with_banscore(p: LocalPeerView, factor: u32, banned: bool) -> LocalPeerView {
    LocalPeerView {
        banscore: (p.banscore + factor) as u32,
        state: if banned {
            PeerStatus::Banned
        } else {
            p.state
        },
        ..p
    }
}

/// Whether raising the score of `id` by `factor` bans it: its score reaches the
/// maximum, or it is an extra connection.
pub open spec fn banscore_bans(s: NodeState, id: PeerId, factor: u32) -> bool {
    s.peers[id].banscore + factor >= s.config.max_banscore || s.peers[id].kind
        == ConnectionKind::Extra
}

/// What raising the ban score of `id` by `factor` did, from state `s0` and
/// trace `t0` to state `s1` and trace `t1`, returning `r`.
pub open spec fn banscore_outcome(
    s0: NodeState,
    t0: Seq<HostEvent>,
    s1: NodeState,
    t1: Seq<HostEvent>,
    id: PeerId,
    factor: u32,
    r: Result<(), crate::types::WireError>,
) -> bool {
    if !s0.peers.contains_key(id) {
        &&& r is Ok
        &&& s1 == s0
        &&& t1 == t0
    } else if banscore_bans(s0, id, factor) {
        &&& t1 == t0.push(HostEvent::Sent(id, RequestView::Shutdown, r))
        &&& s1 == (NodeState {
            peers: s0.peers.insert(id, with_banscore(s0.peers[id], factor, r is Ok)),
            ..s0
        })
    } else {
        &&& r is Ok
        &&& t1 == t0
        &&& s1 == (NodeState {
            peers: s0.peers.insert(id, with_banscore(s0.peers[id], factor, false)),
            ..s0
        })
    }
}

/// What `handle_notfound_msg(inv)` did, from the trace `t0` to `t1`: the user
/// request that `inv` completes, if any, is answered as not found.
pub open spec fn notfound_handled(
    t0: Seq<HostEvent>,
    t1: Seq<HostEvent>,
    r: Result<(), crate::types::WireError>,
    inv: Inventory,
) -> bool {
    &&& notfound_request(inv) is None ==> r is Ok && t1 == t0
    &&& notfound_request(inv) matches Some(req) ==> exists|answered: Option<bool>|
        {
            &&& t1 == t0.push(HostEvent::AnswerUser(req, false, answered))
            &&& r == answer_result(answered)
        }
}

/// The user request that a NOTFOUND for `inv` completes, if any.
pub open spec fn notfound_request(inv: Inventory) -> Option<UserRequest> {
    match inv {
        Inventory::Block(h) => Some(UserRequest::Block(h)),
        Inventory::WitnessBlock(h) => Some(UserRequest::Block(h)),
        Inventory::CompactBlock(h) => Some(UserRequest::Block(h)),
        Inventory::Transaction(t) => Some(UserRequest::MempoolTransaction(t)),
        Inventory::WitnessTransaction(t) => Some(UserRequest::MempoolTransaction(t)),
        _ => None,
    }
}

/// What answering a user request returns: an error only when a waiting user
/// could not be handed the answer.
pub open spec fn answer_result(answered: Option<bool>) -> Result<(), crate::types::WireError> {
    match answered {
        Some(false) => Err(crate::types::WireError::ResponseSendError),
        _ => Ok(()),
    }
}

/// The ids of the ready peers in `s` that offer `service`, in order.
pub open spec fn candidate_ids(s: Seq<(PeerId, LocalPeerView)>, service: ServiceFlags) -> Seq<
    PeerId,
>
    decreases s.len(),
{
    if s.len() == 0 {
        Seq::empty()
    } else {
        let rest = candidate_ids(s.drop_last(), service);
        if s.last().1.state == PeerStatus::Ready && s.last().1.services.spec_has(service) {
            rest.push(s.last().0)
        } else {
            rest
        }
    }
}

/// Every id in `candidate_ids(s, service)` is the key of an entry of `s`.
pub proof fn lemma_candidates_in(s: Seq<(PeerId, LocalPeerView)>, service: ServiceFlags, id: PeerId)
    requires
        candidate_ids(s, service).contains(id),
    ensures
        exists|i: int| 0 <= i < s.len() && s[i].0 == id && s[i].1.state == PeerStatus::Ready && s[i].1.services.spec_has(service),
    decreases s.len(),
{
    if s.len() > 0 {
        let rest = candidate_ids(s.drop_last(), service);
        if rest.contains(id) {
            lemma_candidates_in(s.drop_last(), service, id);
            let i = choose|i: int| 0 <= i < s.drop_last().len() && s.drop_last()[i].0 == id && s.drop_last()[i].1.state == PeerStatus::Ready && s.drop_last()[i].1.services.spec_has(service);
            assert(s[i] == s.drop_last()[i]);
        } else {
            assert(s[s.len() - 1].0 == id);
        }
    }
}

/// The result of a send to the peer `id`, given what its channel returned.
pub open spec fn sent_result(s: Result<(), crate::types::WireError>, id: PeerId) -> Result<
    PeerId,
    crate::types::WireError,
> {
    match s {
        Ok(()) => Ok(id),
        Err(e) => Err(e),
    }
}

/// `cands` lists, once each, exactly the ready peers in `peers` that offer `service`.
pub open spec fn candidates_ok(peers: Map<PeerId, LocalPeerView>, service: ServiceFlags, cands: Seq<PeerId>) -> bool {
    &&& cands.no_duplicates()
    &&& forall|id: PeerId|
        #[trigger] cands.contains(id) <==> (peers.contains_key(id) && peers[id].state
            == PeerStatus::Ready && peers[id].services.spec_has(service))
}

/// `candidate_ids` of a duplicate-free sequence of entries lists the ready peers
/// offering `service` of the map it stands for.
pub proof fn lemma_candidate_ids(s: Seq<(PeerId, LocalPeerView)>, service: ServiceFlags)
    requires
        crate::vec_map::unique_keys(s),
    ensures
        candidates_ok(crate::vec_map::entries_map(s), service, candidate_ids(s, service)),
    decreases s.len(),
{
    if s.len() == 0 {
        assert(crate::vec_map::entries_map(s).dom() =~= Set::<PeerId>::empty());
    } else {
        let d = s.drop_last();
        crate::vec_map::lemma_entries_map_drop_last(s);
        lemma_candidate_ids(d, service);
        crate::vec_map::lemma_entries_map_at(s, s.len() - 1);
        let m = crate::vec_map::entries_map(s);
        let md = crate::vec_map::entries_map(d);
        let last = s.last();
        let rest = candidate_ids(d, service);
        assert(!md.contains_key(last.0));
        assert(!rest.contains(last.0));
        assert forall|id: PeerId| #[trigger] candidate_ids(s, service).contains(id) <==> (m.contains_key(id) && m[id].state
            == PeerStatus::Ready && m[id].services.spec_has(service)) by {
            if id != last.0 {
                assert(md.contains_key(id) == m.contains_key(id));
                if m.contains_key(id) {
                    assert(md[id] == m[id]);
                }
                if last.1.state == PeerStatus::Ready && last.1.services.spec_has(service) {
                    assert(candidate_ids(s, service) == rest.push(last.0));
                    assert(rest.push(last.0).contains(id) == rest.contains(id)) by {
                        if rest.push(last.0).contains(id) {
                            let j = choose|j: int| 0 <= j < rest.push(last.0).len() && rest.push(last.0)[j] == id;
                            assert(j < rest.len());
                            assert(rest[j] == id);
                        }
                        if rest.contains(id) {
                            let j = choose|j: int| 0 <= j < rest.len() && rest[j] == id;
                            assert(rest.push(last.0)[j] == id);
                        }
                    }
                }
            } else {
                if last.1.state == PeerStatus::Ready && last.1.services.spec_has(service) {
                    assert(candidate_ids(s, service)[rest.len() as int] == id);
                }
            }
        }
        if last.1.state == PeerStatus::Ready && last.1.services.spec_has(service) {
            assert(candidate_ids(s, service) == rest.push(last.0));
            assert forall|a: int, b: int| 0 <= a < rest.push(last.0).len() && 0 <= b < rest.push(last.0).len() && a != b implies rest.push(last.0)[a] != rest.push(last.0)[b] by {
                if a < rest.len() && b < rest.len() {
                } else if a < rest.len() {
                    assert(rest.contains(rest[a]));
                } else if b < rest.len() {
                    assert(rest.contains(rest[b]));
                }
            }
        }
    }
}

/// What `send_to_fast_peer` did, as the calls it appended to the trace `t0`
/// (giving `t1`): the host picked among the ready peers of `peers` offering
/// `service`; a pick among them got `req`, and the result names it, unless its
/// channel was closed; any other pick fails with `NoPeersAvailable`.
pub open spec fn fast_send_outcome(
    t0: Seq<HostEvent>,
    t1: Seq<HostEvent>,
    peers: Map<PeerId, LocalPeerView>,
    service: ServiceFlags,
    req: RequestView,
    r: Result<PeerId, crate::types::WireError>,
) -> bool {
    &&& t1.len() > t0.len()
    &&& t1.subrange(0, t0.len() as int) == t0
    &&& t1[t0.len() as int] is PickByLatency
    &&& candidates_ok(peers, service, t1[t0.len() as int]->PickByLatency_0)
    &&& ({
        let cands = t1[t0.len() as int]->PickByLatency_0;
        let pick = t1[t0.len() as int]->PickByLatency_1;
        if pick is Some && cands.contains(pick->Some_0) {
            &&& t1.len() == t0.len() + 2
            &&& t1[t0.len() + 1int] is Sent
            &&& t1[t0.len() + 1int]->Sent_0 == pick->Some_0
            &&& t1[t0.len() + 1int]->Sent_1 == req
            &&& r == sent_result(t1[t0.len() + 1int]->Sent_2, pick->Some_0)
        } else {
            &&& t1.len() == t0.len() + 1
            &&& r == Err::<PeerId, crate::types::WireError>(
                crate::types::WireError::NoPeersAvailable,
            )
        }
    })
}

/// What sending to the randomly chosen peer `chosen` did.
pub open spec fn random_send_with(
    t0: Seq<HostEvent>,
    t1: Seq<HostEvent>,
    peers: Map<PeerId, LocalPeerView>,
    chosen: PeerId,
    req: RequestView,
    r: Result<PeerId, crate::types::WireError>,
) -> bool {
    if !peers.contains_key(chosen) {
        &&& r == Err::<PeerId, crate::types::WireError>(crate::types::WireError::NoPeersAvailable)
        &&& t1 == t0
    } else {
        &&& t1.len() == t0.len() + 1
        &&& t1.drop_last() == t0
        &&& t1.last() is Sent
        &&& t1.last()->Sent_0 == chosen
        &&& t1.last()->Sent_1 == req
        &&& r == sent_result(t1.last()->Sent_2, chosen)
    }
}

/// What `send_to_random_peer` did: with no peers, or none in `list`, nothing;
/// otherwise it sent to one of `list`.
pub open spec fn random_send_outcome(
    t0: Seq<HostEvent>,
    t1: Seq<HostEvent>,
    peers: Map<PeerId, LocalPeerView>,
    list: Seq<PeerId>,
    req: RequestView,
    r: Result<PeerId, crate::types::WireError>,
) -> bool {
    if peers.dom() == Set::<PeerId>::empty() || list.len() == 0 {
        &&& r == Err::<PeerId, crate::types::WireError>(crate::types::WireError::NoPeersAvailable)
        &&& t1 == t0
    } else {
        exists|chosen: PeerId|
            list.contains(chosen) && #[trigger] random_send_with(t0, t1, peers, chosen, req, r)
    }
}

/// `r` without the peer it names.
pub open spec fn without_id(r: Result<PeerId, crate::types::WireError>) -> Result<
    (),
    crate::types::WireError,
> {
    match r {
        Ok(_) => Ok(()),
        Err(e) => Err(e),
    }
}

/// The peer a successful `send_to_fast_peer` names is a ready peer offering the service.
pub proof fn lemma_fast_send_ok(
    t0: Seq<HostEvent>,
    t1: Seq<HostEvent>,
    peers: Map<PeerId, LocalPeerView>,
    service: ServiceFlags,
    req: RequestView,
    r: Result<PeerId, crate::types::WireError>,
)
    requires
        fast_send_outcome(t0, t1, peers, service, req, r),
        r is Ok,
    ensures
        peers.contains_key(r->Ok_0),
        peers[r->Ok_0].state == PeerStatus::Ready,
        peers[r->Ok_0].services.spec_has(service),
{
    let cands = t1[t0.len() as int]->PickByLatency_0;
    assert(cands.contains(r->Ok_0));
}

/// The request whose answer `msg` is, for timing the answers of `peer`.
pub open spec fn timed_request(msg: PeerMessage, peer: PeerId) -> Option<InflightRequest> {
    match msg {
        PeerMessage::Block(b) => Some(InflightRequest::Blocks(crate::types::header_hash(b.header@))),
        PeerMessage::Ready => Some(InflightRequest::Connect(peer)),
        PeerMessage::Headers => Some(InflightRequest::Headers),
        PeerMessage::BlockFilter => Some(InflightRequest::GetFilters),
        PeerMessage::UtreexoState => Some(InflightRequest::UtreexoState(peer)),
        _ => None,
    }
}

/// Whether `v` holds `id`.
pub fn contains_id(v: &Vec<PeerId>, id: PeerId) -> (b: bool)
    ensures
        b == v@.contains(id),
{
    let mut i: usize = 0;
    while i < v.len()
        invariant
            i <= v@.len(),
            forall|j: int| 0 <= j < i ==> v@[j] != id,
        decreases v@.len() - i,
    {
        if v[i] == id {
            return true;
        }
        i = i + 1;
    }
    false
}

/// `r` with no message to hand on.
pub open spec fn no_message(r: Result<(), crate::types::WireError>) -> Result<
    Option<PeerMessage>,
    crate::types::WireError,
> {
    match r {
        Ok(()) => Ok(None),
        Err(e) => Err(e),
    }
}

/// `m` with `peer` appended to the list of `service`.
pub open spec fn index_peer(m: Map<ServiceFlags, Seq<PeerId>>, service: ServiceFlags, peer: PeerId) -> Map<
    ServiceFlags,
    Seq<PeerId>,
> {
    m.insert(
        service,
        (if m.contains_key(service) {
            m[service]
        } else {
            Seq::empty()
        }).push(peer),
    )
}

/// `m` with `peer` appended to the list of `service` if `services` offers it.
pub open spec fn index_if(
    m: Map<ServiceFlags, Seq<PeerId>>,
    services: ServiceFlags,
    service: ServiceFlags,
    peer: PeerId,
) -> Map<ServiceFlags, Seq<PeerId>> {
    if services.spec_has(service) {
        index_peer(m, service, peer)
    } else {
        m
    }
}

/// The service index after a ready peer offering `services` is added: it goes
/// into the lists of Utreexo, compact filters, service bit 25 and network, in
/// that order, for those it offers.
pub open spec fn index_by_services(
    m: Map<ServiceFlags, Seq<PeerId>>,
    services: ServiceFlags,
    peer: PeerId,
) -> Map<ServiceFlags, Seq<PeerId>> {
    index_if(
        index_if(
            index_if(
                index_if(m, services, ServiceFlags(NODE_UTREEXO), peer),
                services,
                ServiceFlags(NODE_COMPACT_FILTERS),
                peer,
            ),
            services,
            ServiceFlags(NODE_UTREEXO_ARCHIVE),
            peer,
        ),
        services,
        ServiceFlags(NODE_NETWORK),
        peer,
    )
}

/// What the node records of a peer when its handshake finishes.
pub open spec fn ready_view(p: LocalPeerView, v: Version) -> LocalPeerView {
    LocalPeerView {
        state: PeerStatus::Ready,
        services: v.services,
        user_agent: v.user_agent,
        height: v.blocks,
        transport_protocol: v.transport_protocol,
        ..p
    }
}

/// `s` where the peer `id`, if known, is marked ready.
pub open spec fn mark_ready(s: NodeState, id: PeerId) -> NodeState {
    if s.peers.contains_key(id) {
        NodeState {
            peers: s.peers.insert(id, LocalPeerView { state: PeerStatus::Ready, ..s.peers[id] }),
            ..s
        }
    } else {
        s
    }
}

/// The trace `t0` extended by what `send_to_peer(id, req)` hands on, in state `s`,
/// when the channel answered `sent`.
pub open spec fn sent_to_peer(
    s: NodeState,
    t0: Seq<HostEvent>,
    id: PeerId,
    req: RequestView,
    sent: Result<(), crate::types::WireError>,
) -> Seq<HostEvent> {
    if s.peers.contains_key(id) && s.peers[id].state != PeerStatus::Awaiting {
        t0.push(HostEvent::Sent(id, req, sent))
    } else {
        t0
    }
}

/// What `send_to_peer(id, req)` returns in state `s` when the channel answered `sent`.
pub open spec fn sent_to_peer_result(
    s: NodeState,
    id: PeerId,
    sent: Result<(), crate::types::WireError>,
) -> Result<(), crate::types::WireError> {
    if s.peers.contains_key(id) && s.peers[id].state != PeerStatus::Awaiting {
        sent
    } else {
        Ok(())
    }
}

/// The end of a feeler handshake: the peer, marked ready in `s`, is told to
/// shut down (its channel answering `sent`); unless that failed, the host records
/// the address's services and that it was tried at `unix_now`.
pub open spec fn feeler_done(
    s: NodeState,
    t0: Seq<HostEvent>,
    t1: Seq<HostEvent>,
    r: Result<(), crate::types::WireError>,
    peer: PeerId,
    v: Version,
    unix_now: u64,
    sent: Result<(), crate::types::WireError>,
) -> bool {
    let ta = sent_to_peer(s, t0, peer, RequestView::Shutdown, sent);
    let res = sent_to_peer_result(s, peer, sent);
    if (res is Err) {
        &&& t1 == ta
        &&& r == res
    } else {
        &&& t1 == ta.push(HostEvent::SetAddressServices(v.address_id, v.services)).push(
            HostEvent::SetAddressState(v.address_id, AddressState::Tried(unix_now)),
        )
        &&& r is Ok
    }
}

/// The end of an extra connection's handshake: the chain's block locator
/// (`loc`) is sent to the peer in a header request, which is then waited on.
pub open spec fn extra_done(
    s1: NodeState,
    t0: Seq<HostEvent>,
    t1: Seq<HostEvent>,
    s_final: NodeState,
    r: Result<(), crate::types::WireError>,
    peer: PeerId,
    now: u64,
    loc: Result<Seq<crate::types::BlockHash>, crate::types::WireError>,
    sent: Result<(), crate::types::WireError>,
) -> bool {
    let ta = t0.push(HostEvent::BlockLocator(loc));
    match loc {
        Err(e) => {
            &&& t1 == ta
            &&& r == Err::<(), crate::types::WireError>(e)
            &&& s_final == s1
        },
        Ok(l) => {
            let tb = sent_to_peer(s1, ta, peer, RequestView::GetHeaders(l), sent);
            let res = sent_to_peer_result(s1, peer, sent);
            &&& t1 == tb
            &&& if (res is Err) {
                &&& r == res
                &&& s_final == s1
            } else {
                &&& r is Ok
                &&& s_final == (NodeState {
                    inflight: s1.inflight.insert(InflightRequest::Headers, (peer, now)),
                    ..s1
                })
            }
        },
    }
}

/// The end of a regular handshake: the peer's record takes what it told; a
/// peer lacking `needs` is told to shut down and its address recorded as tried;
/// any other is indexed by its services, recorded as connected, and counted.
pub open spec fn regular_done(
    s1: NodeState,
    t0: Seq<HostEvent>,
    t1: Seq<HostEvent>,
    s_final: NodeState,
    r: Result<(), crate::types::WireError>,
    peer: PeerId,
    v: Version,
    needs: ServiceFlags,
    unix_now: u64,
    sent: Result<(), crate::types::WireError>,
) -> bool {
    if !s1.peers.contains_key(peer) {
        &&& s_final == s1
        &&& t1 == t0
        &&& r is Ok
    } else {
        let s2 = NodeState { peers: s1.peers.insert(peer, ready_view(s1.peers[peer], v)), ..s1 };
        if !v.services.spec_has(needs) {
            let ta = t0.push(HostEvent::Sent(peer, RequestView::Shutdown, sent));
            &&& s_final == s2
            &&& if (sent is Err) {
                &&& t1 == ta
                &&& r == sent
            } else {
                &&& t1 == ta.push(
                    HostEvent::SetAddressState(v.address_id, AddressState::Tried(unix_now)),
                ).push(HostEvent::SetAddressServices(v.address_id, v.services))
                &&& r is Ok
            }
        } else {
            &&& s_final == (NodeState {
                peer_by_service: index_by_services(s2.peer_by_service, v.services, peer),
                peer_ids: s2.peer_ids.push(peer),
                ..s2
            })
            &&& t1 == t0.push(HostEvent::SetAddressState(v.address_id, AddressState::Connected)).push(
                HostEvent::SetAddressServices(v.address_id, v.services),
            )
            &&& r is Ok
        }
    }
}

/// What `handle_peer_ready(peer, version)` did, from `s0`/`t0` to
/// `s_final`/`t1`, with the clocks reading `now` (monotonic nanoseconds) and
/// `unix_now` (UNIX seconds).
pub open spec fn peer_ready_outcome(
    s0: NodeState,
    t0: Seq<HostEvent>,
    s_final: NodeState,
    t1: Seq<HostEvent>,
    r: Result<(), crate::types::WireError>,
    peer: PeerId,
    version: Version,
    now: u64,
    unix_now: u64,
) -> bool {
    let s1 = NodeState {
        inflight: s0.inflight.remove(InflightRequest::Connect(peer)),
        ..s0
    };
    match version.kind {
        ConnectionKind::Feeler => {
            &&& s_final == mark_ready(s1, peer)
            &&& exists|sent: Result<(), crate::types::WireError>|
                #[trigger] feeler_done(
                    mark_ready(s1, peer),
                    t0,
                    t1,
                    r,
                    peer,
                    version,
                    unix_now,
                    sent,
                )
        },
        ConnectionKind::Extra => exists|
            loc: Result<Seq<crate::types::BlockHash>, crate::types::WireError>,
            sent: Result<(), crate::types::WireError>,
        |
            #[trigger] extra_done(
                s1,
                t0,
                t1,
                s_final,
                r,
                peer,
                now,
                loc,
                sent,
            ),
        ConnectionKind::Regular(needs) => exists|sent: Result<(), crate::types::WireError>|
            #[trigger] regular_done(
                s1,
                t0,
                t1,
                s_final,
                r,
                peer,
                version,
                needs,
                unix_now,
                sent,
            ),
    }
}

impl<H: NodeHost> UtreexoNode<H> {
    /// Appends `peer` to the list of peers offering `service`.
    pub(crate) fn index_service_peer(&mut self, service: ServiceFlags, peer: PeerId)
        requires
            old(self).wf(),
        ensures
            final(self).wf(),
            final(self)@ == (NodeState {
                peer_by_service: index_peer(old(self)@.peer_by_service, service, peer),
                ..old(self)@
            }),
            final(self).trace() == old(self).trace(),
    {
        match self.peer_by_service.position(&service) {
            Some(i) => {
                proof {
                    crate::vec_map::lemma_entries_map_at(self.peer_by_service.entries(), i as int);
                }
                let (k, mut list) = self.peer_by_service.remove_at(i);
                list.push(peer);
                self.peer_by_service.insert_at(i, (k, list));
            },
            None => {
                let mut list: Vec<PeerId> = Vec::new();
                list.push(peer);
                self.peer_by_service.insert(service, list);
            },
        }
        proof {
            assert(self@.peer_by_service =~= index_peer(old(self)@.peer_by_service, service, peer));
        }
    }
}

impl<H: NodeHost> UtreexoNode<H> {
    /// The ready peers offering `service`, as indexed (possibly none).
    pub fn service_peers(&self, service: ServiceFlags) -> (v: Option<&Vec<PeerId>>)
        requires
            self.wf(),
        ensures
            v is None <==> !self.peer_by_service@.contains_key(service),
            v matches Some(v) ==> v@ == self@.service_peers(service),
            v is None ==> self@.service_peers(service).len() == 0,
    {
        self.peer_by_service.get(&service)
    }

    pub fn has_utreexo_peers(&self) -> (b: bool)
        requires
            self.wf(),
        ensures
            b == self@.has_utreexo_peers(),
    {
        match self.service_peers(ServiceFlags::utreexo()) {
            Some(v) => v.len() > 0,
            None => false,
        }
    }

    pub fn has_compact_filters_peer(&self) -> (b: bool)
        requires
            self.wf(),
        ensures
            b == self@.has_compact_filters_peer(),
    {
        match self.service_peers(ServiceFlags::compact_filters()) {
            Some(v) => v.len() > 0,
            None => false,
        }
    }

    /// The number of peers that the metrics publish as connected: those whose
    /// regular handshake finished.
    pub fn update_peer_metrics(&self) -> (n: usize)
        ensures
            n == self@.peer_ids.len(),
    {
        self.peer_ids.len()
    }

    /// Writes the address database to disk.
    pub fn save_peers(&mut self) -> (r: Result<(), crate::types::WireError>)
        ensures
            final(self).same_bookkeeping(*old(self)),
            exists|ok: bool|
                {
                    &&& final(self).trace() == old(self).trace().push(HostEvent::DumpPeers(ok))
                    &&& r == if ok {
                        Ok(())
                    } else {
                        Err(crate::types::WireError::Io)
                    }
                },
    {
        let ok = self.host.dump_peers();
        assert(self.trace() == old(self).trace().push(HostEvent::DumpPeers(ok)));
        if ok {
            Ok(())
        } else {
            Err(crate::types::WireError::Io)
        }
    }

    /// Saves the utreexo peers to disk so we can reconnect with them later
    pub fn save_utreexo_peers(&mut self) -> (r: Result<(), crate::types::WireError>)
        requires
            old(self).wf(),
        ensures
            final(self).same_bookkeeping(*old(self)),
            !old(self).peer_by_service@.contains_key(ServiceFlags(NODE_UTREEXO)) ==> {
                &&& r == Err::<(), crate::types::WireError>(
                    crate::types::WireError::NoUtreexoPeersAvailable,
                )
                &&& final(self).trace() == old(self).trace()
            },
            old(self).peer_by_service@.contains_key(ServiceFlags(NODE_UTREEXO))
                && old(self)@.service_peers(ServiceFlags(NODE_UTREEXO)).len() == 0 ==> {
                &&& r is Ok
                &&& final(self).trace() == old(self).trace()
            },
            old(self)@.service_peers(ServiceFlags(NODE_UTREEXO)).len() > 0 ==> {
                &&& final(self).trace().len() == old(self).trace().len() + 1
                &&& final(self).trace().drop_last() == old(self).trace()
                &&& final(self).trace().last() is DumpUtreexoPeers
                &&& final(self).trace().last()->DumpUtreexoPeers_0 == old(self)@.service_peers(
                    ServiceFlags(NODE_UTREEXO),
                ).map_values(|p: PeerId| p as usize)
                &&& r == (if final(self).trace().last()->DumpUtreexoPeers_1 {
                    Ok(())
                } else {
                    Err(crate::types::WireError::Io)
                })
            },
    {
        let peers = match self.service_peers(ServiceFlags::utreexo()) {
            Some(p) => p,
            None => return Err(crate::types::WireError::NoUtreexoPeersAvailable),
        };
        let mut ids: Vec<usize> = Vec::new();
        let mut i: usize = 0;
        while i < peers.len()
            invariant
                i <= peers@.len(),
                ids@ == peers@.subrange(0, i as int).map_values(|p: PeerId| p as usize),
            decreases peers@.len() - i,
        {
            ids.push(peers[i] as usize);
            i = i + 1;
            proof {
                assert(ids@ =~= peers@.subrange(0, i as int).map_values(|p: PeerId| p as usize));
            }
        }
        proof {
            assert(ids@ =~= peers@.map_values(|p: PeerId| p as usize));
        }
        if ids.len() == 0 {
            return Ok(());
        }
        let ok = self.host.dump_utreexo_peers(&ids);
        proof {
            assert(self.trace().drop_last() =~= old(self).trace());
        }
        if ok {
            Ok(())
        } else {
            Err(crate::types::WireError::Io)
        }
    }

    /// Whether `peer` is not banned and offers `needs`.
    pub fn is_peer_good(peer: &LocalPeerView, needs: ServiceFlags) -> (b: bool)
        ensures
            b == (peer.state != PeerStatus::Banned && peer.services.spec_has(needs)),
    {
        if peer.state == PeerStatus::Banned {
            return false;
        }
        peer.services.has(needs)
    }

    /// The ready peers offering `service`, in order: the peers among which a
    /// request is sent by latency.
    pub fn latency_candidates(&self, service: ServiceFlags) -> (v: Vec<PeerId>)
        ensures
            v@ == candidate_ids(self.peers.entries(), service),
    {
        let mut v: Vec<PeerId> = Vec::new();
        let mut i: usize = 0;
        while i < self.peers.len()
            invariant
                i <= self.peers.entries().len(),
                v@ == candidate_ids(self.peers.entries().take(i as int), service),
            decreases self.peers.entries().len() - i,
        {
            assert(self.peers.entries().take(i + 1).drop_last() =~= self.peers.entries().take(
                i as int,
            ));
            let e = self.peers.entry_at(i);
            if e.1.state == PeerStatus::Ready && e.1.services.has(service) {
                v.push(e.0);
            }
            i = i + 1;
        }
        assert(self.peers.entries().take(i as int) =~= self.peers.entries());
        v
    }

    /// Sends a request to a ready peer that offers `required_service`, chosen by the
    /// host by response time (lower latency => more likely).
    ///
    /// Fails with `NoPeersAvailable` when the host picks none of them.
    pub fn send_to_fast_peer(&mut self, request: NodeRequest, required_service: ServiceFlags) -> (r:
        Result<PeerId, crate::types::WireError>)
        requires
            old(self).wf(),
        ensures
            final(self).wf(),
            final(self).same_bookkeeping(*old(self)),
            fast_send_outcome(
                old(self).trace(),
                final(self).trace(),
                old(self)@.peers,
                required_service,
                request@,
                r,
            ),
    {
        let ghost t0 = self.trace();
        let ghost rv = request@;
        let candidates = self.latency_candidates(required_service);
        proof {
            lemma_candidate_ids(self.peers.entries(), required_service);
        }
        let pick = self.host.pick_by_latency(&candidates);
        let id = match pick {
            Some(id) => id,
            None => {
                assert(self.trace().subrange(0, t0.len() as int) =~= t0);
                return Err(crate::types::WireError::NoPeersAvailable);
            },
        };
        if !contains_id(&candidates, id) {
            assert(self.trace().subrange(0, t0.len() as int) =~= t0);
            return Err(crate::types::WireError::NoPeersAvailable);
        }
        proof {
            lemma_candidates_in(self.peers.entries(), required_service, id);
            let i = choose|i: int| 0 <= i < self.peers.entries().len() && self.peers.entries()[i].0 == id && self.peers.entries()[i].1.state == PeerStatus::Ready && self.peers.entries()[i].1.services.spec_has(required_service);
            crate::vec_map::lemma_entries_map_at(self.peers.entries(), i);
        }
        let i = match self.peers.position(&id) {
            Some(i) => i,
            None => return Err(crate::types::WireError::NoPeersAvailable),
        };
        let ghost t1 = self.trace();
        let s = self.send_at(i, request);
        let r = match s {
            Ok(()) => Ok(id),
            Err(e) => Err(e),
        };
        assert(self.trace().subrange(0, t0.len() as int) =~= t0);
        assert(self.trace()[t0.len() as int] == t1[t0.len() as int]);
        r
    }

    /// Sends `req` to a peer picked at random among those whose regular
    /// handshake finished (`required_service` empty) or those indexed as offering
    /// `required_service`.
    pub fn send_to_random_peer(&mut self, req: NodeRequest, required_service: ServiceFlags) -> (r:
        Result<u32, crate::types::WireError>)
        requires
            old(self).wf(),
        ensures
            final(self).wf(),
            final(self).same_bookkeeping(*old(self)),
            random_send_outcome(
                old(self).trace(),
                final(self).trace(),
                old(self)@.peers,
                if required_service.0 == 0 {
                    old(self)@.peer_ids
                } else {
                    old(self)@.service_peers(required_service)
                },
                req@,
                r,
            ),
    {
        if self.peers.is_empty() {
            return Err(crate::types::WireError::NoPeersAvailable);
        }
        let chosen = if required_service.0 == 0 {
            choose_random(self.peer_ids.as_slice())
        } else {
            match self.service_peers(required_service) {
                Some(v) => choose_random(v.as_slice()),
                None => None,
            }
        };
        let chosen = match chosen {
            Some(c) => c,
            None => return Err(crate::types::WireError::NoPeersAvailable),
        };
        let ghost t0 = self.trace();
        let ghost rv = req@;
        let i = match self.peers.position(&chosen) {
            Some(i) => i,
            None => {
                assert(random_send_with(t0, self.trace(), self@.peers, chosen, rv, Err(crate::types::WireError::NoPeersAvailable)));
                return Err(crate::types::WireError::NoPeersAvailable);
            },
        };
        proof {
            crate::vec_map::lemma_entries_map_at(self.peers.entries(), i as int);
        }
        let s = self.send_at(i, req);
        let r = match s {
            Ok(()) => Ok(chosen),
            Err(e) => Err(e),
        };
        assert(self.trace().drop_last() =~= t0);
        assert(random_send_with(t0, self.trace(), old(self)@.peers, chosen, rv, r));
        r
    }

    /// Asks a random peer for addresses of other nodes.
    pub fn ask_for_addresses(&mut self) -> (r: Result<(), crate::types::WireError>)
        requires
            old(self).wf(),
        ensures
            final(self).wf(),
            final(self).same_bookkeeping(*old(self)),
            exists|inner: Result<PeerId, crate::types::WireError>|
                {
                    &&& #[trigger] random_send_outcome(
                        old(self).trace(),
                        final(self).trace(),
                        old(self)@.peers,
                        old(self)@.peer_ids,
                        RequestView::GetAddresses,
                        inner,
                    )
                    &&& r == without_id(inner)
                },
    {
        let inner = self.send_to_random_peer(NodeRequest::GetAddresses, ServiceFlags::none());
        match inner {
            Ok(_) => Ok(()),
            Err(e) => Err(e),
        }
    }

    /// Handles peer messages where behavior is common to all node contexts, returning `Some` only
    /// for peer messages that require context-specific handling.
    pub fn handle_peer_msg_common(&mut self, msg: PeerMessage, peer: PeerId) -> (r: Result<
        Option<PeerMessage>,
        crate::types::WireError,
    >)
        requires
            old(self).wf(),
            msg is UtreexoState && old(self)@.peers.contains_key(peer) ==> old(self)@.peers[peer].banscore
                + 5 <= u32::MAX,
        ensures
            final(self).wf(),
            match msg {
                PeerMessage::Addr(addresses) => {
                    &&& r == Ok::<Option<PeerMessage>, crate::types::WireError>(None)
                    &&& final(self).same_bookkeeping(*old(self))
                    &&& final(self).trace() == old(self).trace().push(HostEvent::PushAddresses(addresses@))
                },
                PeerMessage::NotFound(inv) => {
                    &&& final(self).same_bookkeeping(*old(self))
                    &&& notfound_request(inv) is None ==> r == Ok::<Option<PeerMessage>, crate::types::WireError>(None)
                        && final(self).trace() == old(self).trace()
                    &&& notfound_request(inv) matches Some(req) ==> exists|answered: Option<bool>|
                        {
                            &&& final(self).trace() == old(self).trace().push(
                                HostEvent::AnswerUser(req, false, answered),
                            )
                            &&& r == no_message(answer_result(answered))
                        }
                },
                PeerMessage::Transaction(tx) => {
                    &&& final(self).same_bookkeeping(*old(self))
                    &&& exists|answered: Option<bool>|
                        {
                            &&& final(self).trace() == old(self).trace().push(
                                HostEvent::AnswerUser(
                                    UserRequest::MempoolTransaction(crate::types::txid_of(tx.data@)),
                                    true,
                                    answered,
                                ),
                            )
                            &&& r == no_message(answer_result(answered))
                        }
                },
                PeerMessage::UtreexoState => exists|inner: Result<(), crate::types::WireError>|
                    {
                        &&& #[trigger] banscore_outcome(
                            old(self)@,
                            old(self).trace(),
                            final(self)@,
                            final(self).trace(),
                            peer,
                            5,
                            inner,
                        )
                        &&& r == no_message(inner)
                    },
                _ => {
                    &&& r == Ok::<Option<PeerMessage>, crate::types::WireError>(Some(msg))
                    &&& final(self).same_bookkeeping(*old(self))
                    &&& final(self).trace() == old(self).trace()
                },
            },
    {
        match msg {
            PeerMessage::Addr(addresses) => {
                self.host.push_addresses(&addresses);
                Ok(None)
            },
            PeerMessage::NotFound(inv) => {
                let a = self.handle_notfound_msg(inv);
                match a {
                    Ok(()) => Ok(None),
                    Err(e) => Err(e),
                }
            },
            PeerMessage::Transaction(tx) => {
                let a = self.handle_tx_msg(tx);
                match a {
                    Ok(()) => Ok(None),
                    Err(e) => Err(e),
                }
            },
            PeerMessage::UtreexoState => {
                let inner = self.increase_banscore(peer, 5);
                assert(banscore_outcome(old(self)@, old(self).trace(), self@, self.trace(), peer, 5, inner));
                match inner {
                    Ok(()) => Ok(None),
                    Err(e) => Err(e),
                }
            },
            _ => Ok(Some(msg)),
        }
    }

    /// Handles the end of a peer's handshake.
    ///
    /// A feeler is told to shut down and its address recorded as tried; an extra
    /// connection is asked for headers; a regular peer is recorded as ready, and
    /// dropped if it lacks the services it was opened for. The connection attempt
    /// is no longer waited on. `now` is the monotonic clock in nanoseconds,
    /// `unix_now` the UNIX time in seconds.
    pub fn handle_peer_ready_at(&mut self, peer: u32, version: &Version, now: u64, unix_now: u64) -> (r:
        Result<(), crate::types::WireError>)
        requires
            old(self).wf(),
        ensures
            final(self).wf(),
            peer_ready_outcome(
                old(self)@,
                old(self).trace(),
                final(self)@,
                final(self).trace(),
                r,
                peer,
                *version,
                now,
                unix_now,
            ),
    {
        let _ = self.inflight.remove(&InflightRequest::Connect(peer));
        let ghost s1 = self@;
        let ghost t0 = self.trace();
        proof {
            assert(s1 == NodeState {
                inflight: old(self)@.inflight.remove(InflightRequest::Connect(peer)),
                ..old(self)@
            });
        }
        match version.kind {
            ConnectionKind::Feeler => {
                match self.peers.position(&peer) {
                    Some(i) => {
                        proof {
                            crate::vec_map::lemma_entries_map_at(self.peers.entries(), i as int);
                        }
                        let (k, mut pd) = self.peers.remove_at(i);
                        pd.state = PeerStatus::Ready;
                        self.peers.insert_at(i, (k, pd));
                        proof {
                            assert(self.peers@ =~= s1.peers.insert(
                                peer,
                                LocalPeerView { state: PeerStatus::Ready, ..s1.peers[peer] },
                            ));
                        }
                    },
                    None => {},
                }
                let ghost s2 = self@;
                assert(s2 == mark_ready(s1, peer));
                let sent = self.send_to_peer(peer, NodeRequest::Shutdown);
                if sent.is_err() {
                    assert(feeler_done(s2, t0, self.trace(), sent, peer, *version, unix_now, sent));
                    return sent;
                }
                self.set_address_services(version.address_id, version.services);
                self.set_address_state(version.address_id, AddressState::Tried(unix_now));
                assert(feeler_done(s2, t0, self.trace(), Ok(()), peer, *version, unix_now, sent));
                return Ok(());
            },
            ConnectionKind::Extra => {
                let loc = self.host.get_block_locator();
                let ghost lv = hashes_view(loc);
                let locator = match loc {
                    Ok(l) => l,
                    Err(e) => {
                        assert(extra_done(s1, t0, self.trace(), self@, Err(e), peer, now, lv, Ok(())));
                        return Err(e);
                    },
                };
                let sent = self.send_to_peer(peer, NodeRequest::GetHeaders(locator));
                if sent.is_err() {
                    assert(extra_done(s1, t0, self.trace(), self@, sent, peer, now, lv, sent));
                    return sent;
                }
                self.inflight.insert(InflightRequest::Headers, (peer, now));
                assert(extra_done(s1, t0, self.trace(), self@, Ok(()), peer, now, lv, sent));
                return Ok(());
            },
            ConnectionKind::Regular(needs) => {
                let i = match self.peers.position(&peer) {
                    Some(i) => i,
                    None => {
                        assert(regular_done(s1, t0, self.trace(), self@, Ok(()), peer, *version, needs, unix_now, Ok(())));
                        return Ok(());
                    },
                };
                proof {
                    crate::vec_map::lemma_entries_map_at(self.peers.entries(), i as int);
                }
                let (k, mut pd) = self.peers.remove_at(i);
                pd.state = PeerStatus::Ready;
                pd.services = version.services;
                pd.user_agent = version.user_agent.clone();
                pd.height = version.blocks;
                pd.transport_protocol = version.transport_protocol;
                proof {
                    assert(pd == ready_view(s1.peers[peer], *version));
                }
                if !Self::is_peer_good(&pd, needs) {
                    let sent = self.host.send_request(peer, NodeRequest::Shutdown);
                    self.peers.insert_at(i, (k, pd));
                    proof {
                        assert(self.peers@ =~= s1.peers.insert(peer, ready_view(s1.peers[peer], *version)));
                    }
                    if sent.is_err() {
                        assert(regular_done(s1, t0, self.trace(), self@, sent, peer, *version, needs, unix_now, sent));
                        return sent;
                    }
                    self.set_address_state(version.address_id, AddressState::Tried(unix_now));
                    self.set_address_services(version.address_id, version.services);
                    assert(regular_done(s1, t0, self.trace(), self@, Ok(()), peer, *version, needs, unix_now, sent));
                    return Ok(());
                }
                let services = pd.services;
                self.peers.insert_at(i, (k, pd));
                proof {
                    assert(self.peers@ =~= s1.peers.insert(peer, ready_view(s1.peers[peer], *version)));
                }
                let ghost s2 = self@;
                if services.has(ServiceFlags::utreexo()) {
                    self.index_service_peer(ServiceFlags::utreexo(), peer);
                }
                if services.has(ServiceFlags::compact_filters()) {
                    self.index_service_peer(ServiceFlags::compact_filters(), peer);
                }
                if services.has(ServiceFlags::utreexo_archive()) {
                    self.index_service_peer(ServiceFlags::utreexo_archive(), peer);
                }
                if services.has(ServiceFlags::network()) {
                    self.index_service_peer(ServiceFlags::network(), peer);
                }
                self.set_address_state(version.address_id, AddressState::Connected);
                self.set_address_services(version.address_id, services);
                self.peer_ids.push(peer);
                assert(regular_done(s1, t0, self.trace(), self@, Ok(()), peer, *version, needs, unix_now, Ok(())));
                Ok(())
            },
        }
    }

    /// Records how long `peer` took to answer the request that `notification`
    /// answers, read at `read_at` (monotonic nanoseconds), if the node waits on
    /// such a request; `None` when it does not. The request stays in flight.
    pub fn register_message_time(
        &mut self,
        notification: &PeerMessage,
        peer: PeerId,
        read_at: u64,
    ) -> (found: Option<()>)
        requires
            old(self).wf(),
        ensures
            final(self).wf(),
            final(self).same_bookkeeping(*old(self)),
            ({
                match timed_request(*notification, peer) {
                    Some(req) => if old(self)@.inflight.contains_key(req) {
                        let sent_at = old(self)@.inflight[req].1;
                        let e = if read_at >= sent_at {
                            (read_at - sent_at) as u64
                        } else {
                            0u64
                        };
                        &&& found is Some
                        &&& old(self)@.peers.contains_key(peer) ==> final(self).trace() == old(
                            self,
                        ).trace().push(HostEvent::MessageTime(peer, e))
                        &&& !old(self)@.peers.contains_key(peer) ==> final(self).trace() == old(
                            self,
                        ).trace()
                    } else {
                        found is None && final(self).trace() == old(self).trace()
                    },
                    None => found is None && final(self).trace() == old(self).trace(),
                }
            }),
    {
        let req = match notification {
            PeerMessage::Block(b) => InflightRequest::Blocks(b.block_hash()),
            PeerMessage::Ready => InflightRequest::Connect(peer),
            PeerMessage::Headers => InflightRequest::Headers,
            PeerMessage::BlockFilter => InflightRequest::GetFilters,
            PeerMessage::UtreexoState => InflightRequest::UtreexoState(peer),
            _ => return None,
        };
        let sent_at = match self.inflight.get(&req) {
            Some(entry) => entry.1,
            None => return None,
        };
        let elapsed = if read_at >= sent_at {
            read_at - sent_at
        } else {
            0
        };
        if self.peers.contains_key(&peer) {
            self.host.add_message_time(peer, elapsed);
        }
        Some(())
    }

    /// Hands `request` to the channel of the peer at position `i`.
    pub(crate) fn send_at(&mut self, i: usize, request: NodeRequest) -> (r: Result<
        (),
        crate::types::WireError,
    >)
        requires
            i < old(self).peers.entries().len(),
        ensures
            final(self).trace() == old(self).trace().push(
                HostEvent::Sent(old(self).peers.entries()[i as int].0, request@, r),
            ),
            r matches Err(e) ==> e == crate::types::WireError::ChannelSend,
            final(self).same_bookkeeping(*old(self)),
    {
        let id = self.peers.entry_at(i).0;
        self.host.send_request(id, request)
    }

    /// Sends `req` to the peer `peer_id`, unless it is unknown or its handshake
    /// has not finished.
    pub fn send_to_peer(&mut self, peer_id: u32, req: NodeRequest) -> (r: Result<
        (),
        crate::types::WireError,
    >)
        requires
            old(self).wf(),
        ensures
            final(self).wf(),
            final(self).same_bookkeeping(*old(self)),
            !old(self)@.peers.contains_key(peer_id) || old(self)@.peers[peer_id].state
                == PeerStatus::Awaiting ==> r == Ok::<(), crate::types::WireError>(()) && final(self).trace() == old(self).trace(),
            old(self)@.peers.contains_key(peer_id) && old(self)@.peers[peer_id].state
                != PeerStatus::Awaiting ==> final(self).trace() == old(self).trace().push(
                HostEvent::Sent(peer_id, req@, r),
            ),
            r matches Err(e) ==> e == crate::types::WireError::ChannelSend,
    {
        match self.peers.position(&peer_id) {
            Some(i) => {
                proof {
                    crate::vec_map::lemma_entries_map_at(self.peers.entries(), i as int);
                }
                if self.peers.entry_at(i).1.state == PeerStatus::Awaiting {
                    return Ok(());
                }
                self.send_at(i, req)
            },
            None => Ok(()),
        }
    }

    /// Sends the same request to every peer whose handshake finished, in order.
    ///
    /// This is best-effort: a peer whose channel is closed is skipped, and the
    /// others still get the request.
    pub fn broadcast_to_peers(&mut self, request: NodeRequest)
        requires
            old(self).wf(),
        ensures
            final(self).wf(),
            final(self).same_bookkeeping(*old(self)),
            final(self).trace().len() >= old(self).trace().len(),
            final(self).trace().subrange(0, old(self).trace().len() as int) == old(self).trace(),
            sends_to(
                final(self).trace().skip(old(self).trace().len() as int),
                ready_ids(old(self).peers.entries()),
                request@,
            ),
    {
        let ghost t0 = self.trace();
        let mut i: usize = 0;
        while i < self.peers.len()
            invariant
                self.wf(),
                self.same_bookkeeping(*old(self)),
                i <= self.peers.entries().len(),
                self.trace().len() >= t0.len(),
                self.trace().subrange(0, t0.len() as int) == t0,
                t0 == old(self).trace(),
                sends_to(
                    self.trace().skip(t0.len() as int),
                    ready_ids(self.peers.entries().take(i as int)),
                    request@,
                ),
            decreases self.peers.entries().len() - i,
        {
            let ghost before = self.trace();
            assert(self.peers.entries().take(i + 1).drop_last() =~= self.peers.entries().take(
                i as int,
            ));
            if self.peers.entry_at(i).1.state == PeerStatus::Ready {
                let _ = self.send_at(i, request.duplicate());
                proof {
                    assert(self.trace().skip(t0.len() as int) =~= before.skip(t0.len() as int).push(
                        self.trace().last(),
                    ));
                    assert(self.trace().subrange(0, t0.len() as int) =~= before.subrange(
                        0,
                        t0.len() as int,
                    ));
                }
            }
            i = i + 1;
        }
        assert(self.peers.entries().take(i as int) =~= self.peers.entries());
    }

    /// Raises the ban score of `peer_id` by `factor`. A peer whose score reaches the
    /// maximum, and any extra connection, is told to shut down and marked banned.
    pub fn increase_banscore(&mut self, peer_id: u32, factor: u32) -> (r: Result<
        (),
        crate::types::WireError,
    >)
        requires
            old(self).wf(),
            old(self)@.peers.contains_key(peer_id) ==> old(self)@.peers[peer_id].banscore + factor
                <= u32::MAX,
        ensures
            final(self).wf(),
            banscore_outcome(
                old(self)@,
                old(self).trace(),
                final(self)@,
                final(self).trace(),
                peer_id,
                factor,
                r,
            ),
    {
        let i = match self.peers.position(&peer_id) {
            Some(i) => i,
            None => return Ok(()),
        };
        proof {
            crate::vec_map::lemma_entries_map_at(self.peers.entries(), i as int);
        }
        let ghost p0 = self.peers@[peer_id];
        let (k, mut peer) = self.peers.remove_at(i);
        peer.banscore = peer.banscore + factor;
        let is_misbehaving = peer.banscore >= self.config.max_banscore;
        let is_extra = peer.kind == ConnectionKind::Extra;
        let mut result = Ok(());
        if is_misbehaving || is_extra {
            let sent = self.host.send_request(k, NodeRequest::Shutdown);
            if sent.is_ok() {
                peer.state = PeerStatus::Banned;
            }
            result = sent;
        }
        self.peers.insert_at(i, (k, peer));
        proof {
            assert(self.peers@ =~= old(self).peers@.insert(peer_id, self.peers@[peer_id]));
            assert(self@.peer_by_service =~= old(self)@.peer_by_service);
        }
        result
    }

    /// Completes the user request `request` if one waits for it.
    pub(crate) fn answer_user(&mut self, request: UserRequest, found: bool) -> (r: Result<
        (),
        crate::types::WireError,
    >)
        ensures
            final(self).same_bookkeeping(*old(self)),
            exists|answered: Option<bool>|
                {
                    &&& final(self).trace() == old(self).trace().push(
                        HostEvent::AnswerUser(request, found, answered),
                    )
                    &&& r == answer_result(answered)
                },
    {
        let answered = self.host.answer_user_request(request, found);
        let r = match answered {
            Some(false) => Err(crate::types::WireError::ResponseSendError),
            _ => Ok(()),
        };
        assert(r == answer_result(answered));
        r
    }

    /// Handles a NOTFOUND inventory by completing any matching inflight user request
    /// with "not found".
    pub fn handle_notfound_msg(&mut self, inv: Inventory) -> (r: Result<
        (),
        crate::types::WireError,
    >)
        ensures
            final(self).same_bookkeeping(*old(self)),
            notfound_handled(old(self).trace(), final(self).trace(), r, inv),
    {
        match inv {
            Inventory::Error => Ok(()),
            Inventory::Block(block) | Inventory::WitnessBlock(block) | Inventory::CompactBlock(
                block,
            ) => self.answer_user(UserRequest::Block(block), false),
            Inventory::WitnessTransaction(tx) | Inventory::Transaction(tx) => self.answer_user(
                UserRequest::MempoolTransaction(tx),
                false,
            ),
            _ => Ok(()),
        }
    }

    /// Handles an incoming mempool transaction by completing any matching inflight
    /// user request.
    pub fn handle_tx_msg(&mut self, tx: crate::types::Transaction) -> (r: Result<
        (),
        crate::types::WireError,
    >)
        ensures
            final(self).same_bookkeeping(*old(self)),
            exists|answered: Option<bool>|
                {
                    &&& final(self).trace() == old(self).trace().push(
                        HostEvent::AnswerUser(
                            UserRequest::MempoolTransaction(crate::types::txid_of(tx.data@)),
                            true,
                            answered,
                        ),
                    )
                    &&& r == answer_result(answered)
                },
    {
        let txid = tx.compute_txid();
        self.answer_user(UserRequest::MempoolTransaction(txid), true)
    }

    /// What the node knows of the peer `peer_id`, if it holds it.
    pub fn get_peer_info(&self, peer_id: &u32) -> (info: Option<PeerInfo>)
        requires
            self.wf(),
        ensures
            info is None <==> !self@.peers.contains_key(*peer_id),
            info matches Some(i) ==> i == peer_info_of(*peer_id, self@.peers[*peer_id]),
    {
        let peer = match self.peers.get(peer_id) {
            Some(p) => p,
            None => return None,
        };
        Some(
            PeerInfo {
                id: *peer_id,
                address: peer.address,
                port: peer.port,
                services: peer.services,
                user_agent: peer.user_agent.clone(),
                initial_height: peer.height,
                state: peer.state,
                kind: peer.kind,
                transport_protocol: peer.transport_protocol,
            },
        )
    }

    /// The gossip address of an IP address.
    pub fn to_addr_v2(&self, addr: IpAddress) -> (a: AddrV2)
        ensures
            a == spec_to_addr_v2(addr),
    {
        to_addr_v2(addr)
    }
}

/// Whether `i` is the first position in `list` of the peer at `address` and `port`.
pub open spec fn first_added_at(list: Seq<AddedPeerInfo>, address: AddrV2, port: u16, i: int) -> bool {
    &&& 0 <= i < list.len()
    &&& list[i].address == address
    &&& list[i].port == port
    &&& forall|j: int| 0 <= j < i ==> !(list[j].address == address && list[j].port == port)
}

/// Whether `list` holds a peer at `address` and `port`.
pub open spec fn added_has(list: Seq<AddedPeerInfo>, address: AddrV2, port: u16) -> bool {
    exists|i: int| 0 <= i < list.len() && #[trigger] list[i].address == address && list[i].port == port
}

/// What `handle_addnode_add_peer_at(addr, port, v2_transport)` did: refused a peer
/// already added; otherwise appended it (allowing V1 unless `v2_transport`) and
/// connected to the hand-added peers.
pub open spec fn addnode_add_outcome(
    s0: NodeState,
    t0: Seq<HostEvent>,
    s1: NodeState,
    t1: Seq<HostEvent>,
    r: Result<(), WireError>,
    addr: IpAddress,
    port: u16,
    v2_transport: bool,
    now: u64,
    unix_now: u64,
) -> bool {
    let address = spec_to_addr_v2(addr);
    if added_has(s0.added_peers, address, port) {
        &&& r == Err::<(), WireError>(WireError::PeerAlreadyExists(addr, port))
        &&& s1 == s0
        &&& t1 == t0
    } else {
        added_outcome(
            NodeState {
                added_peers: s0.added_peers.push(
                    AddedPeerInfo { address, port, v1_fallback: !v2_transport },
                ),
                ..s0
            },
            t0,
            s1,
            t1,
            r,
            unix_now,
            now,
        )
    }
}

/// What `handle_addnode_remove_peer(addr, port)` did.
pub open spec fn addnode_remove_outcome(
    s0: NodeState,
    s1: NodeState,
    r: Result<(), WireError>,
    addr: IpAddress,
    port: u16,
) -> bool {
    let address = spec_to_addr_v2(addr);
    if added_has(s0.added_peers, address, port) {
        &&& r is Ok
        &&& exists|i: int|
            #[trigger] first_added_at(s0.added_peers, address, port, i) && s1 == (NodeState {
                added_peers: s0.added_peers.remove(i),
                ..s0
            })
    } else {
        &&& r == Err::<(), WireError>(WireError::PeerNotFoundAtAddress(addr, port))
        &&& s1 == s0
    }
}

/// Removing a hand-added peer undoes adding it: after `addnode add` of an
/// address and port not yet added, `addnode remove` of the same address and
/// port succeeds and leaves the hand-added peers as they were before the add,
/// whatever connections the add opened.
pub proof fn law_addnode_remove_undoes_add(
    s0: NodeState,
    t0: Seq<HostEvent>,
    s1: NodeState,
    t1: Seq<HostEvent>,
    r1: Result<(), WireError>,
    s2: NodeState,
    r2: Result<(), WireError>,
    addr: IpAddress,
    port: u16,
    v2_transport: bool,
    now: u64,
    unix_now: u64,
)
    requires
        !added_has(s0.added_peers, spec_to_addr_v2(addr), port),
        addnode_add_outcome(s0, t0, s1, t1, r1, addr, port, v2_transport, now, unix_now),
        addnode_remove_outcome(s1, s2, r2, addr, port),
    ensures
        r2 is Ok,
        s2.added_peers == s0.added_peers,
{
    let address = spec_to_addr_v2(addr);
    let list = s0.added_peers;
    let pushed = list.push(AddedPeerInfo { address, port, v1_fallback: !v2_transport });
    assert(s1.added_peers == pushed);
    assert(pushed[list.len() as int].address == address && pushed[list.len() as int].port == port);
    assert(added_has(pushed, address, port));
    let i = choose|i: int| #[trigger] first_added_at(pushed, address, port, i) && s2 == (NodeState {
        added_peers: pushed.remove(i),
        ..s1
    });
    if i < list.len() {
        assert(list[i] == pushed[i]);
        assert(list[i].address == address && list[i].port == port);
    }
    assert(i == list.len());
    assert(pushed.remove(i) =~= list);
}

/// What `handle_addnode_onetry_peer(addr, port, v2_transport)` did, with the
/// monotonic clock reading `now`: refused a peer already connected; otherwise
/// opened a regular connection to it under the next id.
pub open spec fn onetry_outcome(
    s0: NodeState,
    t0: Seq<HostEvent>,
    s1: NodeState,
    t1: Seq<HostEvent>,
    r: Result<(), WireError>,
    addr: IpAddress,
    port: u16,
    v2_transport: bool,
    now: u64,
) -> bool {
    if peer_at(s0.peers, addr, port) {
        &&& r == Err::<(), WireError>(WireError::PeerAlreadyExists(addr, port))
        &&& s1 == s0
        &&& t1 == t0
    } else {
        opened(
            s0,
            t0,
            s1,
            t1,
            r,
            ConnectionKind::Regular(ServiceFlags(0)),
            s0.peer_id_count as usize,
            LocalAddress {
                address: spec_to_addr_v2(addr),
                last_connected: 0,
                state: AddressState::NeverTried,
                services: ServiceFlags(0),
                port,
                id: s0.peer_id_count as usize,
            },
            !v2_transport,
            now,
        )
    }
}

impl<H: NodeHost> UtreexoNode<H> {
    /// Handles addnode-RPC `Add` requests, adding a new peer to the `added_peers` list. This means
    /// the peer is marked as a "manually added peer". We then try to connect to it, or retry later.
    #[verifier::loop_isolation(false)]
    pub fn handle_addnode_add_peer_at(
        &mut self,
        addr: IpAddress,
        port: u16,
        v2_transport: bool,
        now: u64,
        unix_now: u64,
    ) -> (r: Result<(), WireError>)
        requires
            old(self).wf(),
        ensures
            final(self).wf(),
            addnode_add_outcome(
                old(self)@,
                old(self).trace(),
                final(self)@,
                final(self).trace(),
                r,
                addr,
                port,
                v2_transport,
                now,
                unix_now,
            ),
    {
        let address = to_addr_v2(addr);
        let mut i: usize = 0;
        while i < self.added_peers.len()
            invariant
                i <= self.added_peers@.len(),
                forall|j: int| 0 <= j < i ==> !(self.added_peers@[j].address == address && self.added_peers@[j].port == port),
            decreases self.added_peers@.len() - i,
        {
            let info = self.added_peers[i];
            if address == info.address && port == info.port {
                proof {
                    assert(self.added_peers@[i as int].address == address);
                }
                return Err(WireError::PeerAlreadyExists(addr, port));
            }
            i = i + 1;
        }
        self.added_peers.push(AddedPeerInfo { address, port, v1_fallback: !v2_transport });
        self.maybe_open_connection_with_added_peers_at(now, unix_now)
    }

    /// Handles remove node requests, removing a peer from the node.
    ///
    /// Removes a node from the `added_peers` list but does not
    /// disconnect the node if it was already connected.  It only ensures
    /// that the node is no longer treated as a manually added node
    /// (i.e., it won't be reconnected if disconnected).
    ///
    /// If someone wants to remove a peer, it should be done using the
    /// `disconnectnode`.
    #[verifier::loop_isolation(false)]
    pub fn handle_addnode_remove_peer(&mut self, addr: IpAddress, port: u16) -> (r: Result<
        (),
        WireError,
    >)
        requires
            old(self).wf(),
        ensures
            final(self).wf(),
            final(self).trace() == old(self).trace(),
            addnode_remove_outcome(old(self)@, final(self)@, r, addr, port),
    {
        let address = to_addr_v2(addr);
        let mut i: usize = 0;
        while i < self.added_peers.len()
            invariant
                self.wf(),
                self@ == old(self)@,
                self.trace() == old(self).trace(),
                i <= self.added_peers@.len(),
                forall|j: int| 0 <= j < i ==> !(self.added_peers@[j].address == address && self.added_peers@[j].port == port),
            decreases self.added_peers@.len() - i,
        {
            let info = self.added_peers[i];
            if address == info.address && port == info.port {
                proof {
                    assert(first_added_at(old(self)@.added_peers, address, port, i as int));
                }
                self.added_peers.remove(i);
                return Ok(());
            }
            i = i + 1;
        }
        Err(WireError::PeerNotFoundAtAddress(addr, port))
    }

    /// Handles the node request for immediate disconnection from a peer: the
    /// first peer, in order, at `addr` and `port` is told to shut down, also
    /// when its handshake has not finished yet.
    pub fn handle_disconnect_peer(&mut self, addr: IpAddress, port: u16) -> (r: Result<
        (),
        WireError,
    >)
        requires
            old(self).wf(),
        ensures
            final(self).wf(),
            final(self).same_bookkeeping(*old(self)),
            !peer_at(old(self)@.peers, addr, port) ==> {
                &&& r == Err::<(), WireError>(WireError::PeerNotFoundAtAddress(addr, port))
                &&& final(self).trace() == old(self).trace()
            },
            peer_at(old(self)@.peers, addr, port) ==> exists|id: PeerId|
                {
                    &&& #[trigger] old(self)@.peers.contains_key(id)
                    &&& old(self)@.peers[id].address == addr
                    &&& old(self)@.peers[id].port == port
                    &&& final(self).trace() == old(self).trace().push(
                        HostEvent::Sent(id, RequestView::Shutdown, r),
                    )
                },
            r matches Err(e) ==> e == WireError::ChannelSend || e == WireError::PeerNotFoundAtAddress(
                addr,
                port,
            ),
    {
        match self.find_peer_at(addr, port) {
            Some(peer_id) => self.host.send_request(peer_id, NodeRequest::Shutdown),
            None => Err(WireError::PeerNotFoundAtAddress(addr, port)),
        }
    }

    /// Handles addnode onetry requests, connecting to the node and this will try to connect to the given address and port.
    /// If it's successful, it will add the node to the peers list, but not to the added_peers list (e.g., it won't be reconnected if disconnected).
    pub fn handle_addnode_onetry_peer_at(
        &mut self,
        addr: IpAddress,
        port: u16,
        v2_transport: bool,
        now: u64,
    ) -> (r: Result<(), WireError>)
        requires
            old(self).wf(),
        ensures
            final(self).wf(),
            onetry_outcome(
                old(self)@,
                old(self).trace(),
                final(self)@,
                final(self).trace(),
                r,
                addr,
                port,
                v2_transport,
                now,
            ),
    {
        if self.find_peer_at(addr, port).is_some() {
            return Err(WireError::PeerAlreadyExists(addr, port));
        }
        let kind = ConnectionKind::Regular(ServiceFlags::none());
        let peer_id = self.peer_id_count;
        let address = LocalAddress::new(
            to_addr_v2(addr),
            0,
            AddressState::NeverTried,
            ServiceFlags::none(),
            port,
            peer_id as usize,
        );
        self.open_connection_at(kind, peer_id as usize, address, !v2_transport, now)
    }
}

impl<H: NodeHost> UtreexoNode<H> {
    /// Handles the end of a peer's handshake, as `handle_peer_ready_at` does at
    /// the times the clocks read.
    pub fn handle_peer_ready(&mut self, peer: u32, version: &Version) -> (r: Result<
        (),
        crate::types::WireError,
    >)
        requires
            old(self).wf(),
        ensures
            final(self).wf(),
            exists|now: u64, unix_now: u64|
                #[trigger] peer_ready_outcome(
                    old(self)@,
                    old(self).trace().push(HostEvent::Clock(now)).push(HostEvent::UnixClock(unix_now)),
                    final(self)@,
                    final(self).trace(),
                    r,
                    peer,
                    *version,
                    now,
                    unix_now,
                ),
    {
        let now = self.read_clock();
        let unix_now = self.read_unix_clock();
        assert(self@ == old(self)@);
        let r = self.handle_peer_ready_at(peer, version, now, unix_now);
        assert(peer_ready_outcome(old(self)@, old(self).trace().push(HostEvent::Clock(now)).push(HostEvent::UnixClock(unix_now)), self@, self.trace(), r, peer, *version, now, unix_now));
        r
    }

    /// Handles `addnode add`, as `handle_addnode_add_peer_at` does at the times
    /// the clocks read.
    pub fn handle_addnode_add_peer(&mut self, addr: IpAddress, port: u16, v2_transport: bool) -> (r:
        Result<(), WireError>)
        requires
            old(self).wf(),
        ensures
            final(self).wf(),
            exists|now: u64, unix_now: u64|
                #[trigger] addnode_add_outcome(
                    old(self)@,
                    old(self).trace().push(HostEvent::Clock(now)).push(HostEvent::UnixClock(unix_now)),
                    final(self)@,
                    final(self).trace(),
                    r,
                    addr,
                    port,
                    v2_transport,
                    now,
                    unix_now,
                ),
    {
        let now = self.read_clock();
        let unix_now = self.read_unix_clock();
        assert(self@ == old(self)@);
        let r = self.handle_addnode_add_peer_at(addr, port, v2_transport, now, unix_now);
        assert(addnode_add_outcome(old(self)@, old(self).trace().push(HostEvent::Clock(now)).push(HostEvent::UnixClock(unix_now)), self@, self.trace(), r, addr, port, v2_transport, now, unix_now));
        r
    }

    /// Handles `addnode onetry`, as `handle_addnode_onetry_peer_at` does at the
    /// time the clock reads.
    pub fn handle_addnode_onetry_peer(&mut self, addr: IpAddress, port: u16, v2_transport: bool) -> (r:
        Result<(), WireError>)
        requires
            old(self).wf(),
        ensures
            final(self).wf(),
            exists|now: u64|
                #[trigger] onetry_outcome(
                    old(self)@,
                    old(self).trace().push(HostEvent::Clock(now)),
                    final(self)@,
                    final(self).trace(),
                    r,
                    addr,
                    port,
                    v2_transport,
                    now,
                ),
    {
        let now = self.read_clock();
        assert(self@ == old(self)@);
        let r = self.handle_addnode_onetry_peer_at(addr, port, v2_transport, now);
        assert(onetry_outcome(old(self)@, old(self).trace().push(HostEvent::Clock(now)), self@, self.trace(), r, addr, port, v2_transport, now));
        r
    }
}

} // verus!
