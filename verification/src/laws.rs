//! Properties that relate the node's operations to one another.
use vstd::prelude::*;

use crate::blocks::{block_processed, blocks_requested, to_request, with_block_requests};
use crate::inflight::{redo_outcome, resent};
use crate::peer_man::notfound_handled;
use crate::conn::{connection_created, opened, peer_at};
use crate::host::HostEvent;
use crate::inflight::lemma_with_block_requests;
use crate::node::NodeState;
use crate::peer_man::{
    addnode_remove_outcome, banscore_outcome, index_if, index_peer, onetry_outcome, regular_done,
};
use crate::types::{
    BlockValidationErrors, BlockchainError, Inventory, UserRequest, BlockHash, ConnectionKind, IpAddress, InflightRequest, LocalAddress, PeerId, PeerStatus,
    RequestView, ServiceFlags, Version, WireError, NODE_COMPACT_FILTERS, NODE_NETWORK,
    NODE_UTREEXO, NODE_UTREEXO_ARCHIVE,
};

verus! {

/// A block is wanted in `s` when it is neither requested nor held.
pub open spec fn wanted(s: NodeState, b: BlockHash) -> bool {
    !s.inflight.contains_key(InflightRequest::Blocks(b)) && !s.blocks.contains_key(b)
}

/// The blocks that `request_blocks` asks for are those of its list that are wanted.
pub proof fn lemma_to_request_members(s: NodeState, list: Seq<BlockHash>, b: BlockHash)
    ensures
        to_request(s, list).contains(b) <==> (list.contains(b) && wanted(s, b)),
    decreases list.len(),
{
    if list.len() > 0 {
        let d = list.drop_last();
        lemma_to_request_members(s, d, b);
        let rest = to_request(s, d);
        if list.contains(b) && wanted(s, b) {
            let i = choose|i: int| 0 <= i < list.len() && list[i] == b;
            if i < list.len() - 1 {
                assert(d[i] == b);
                let j = choose|j: int| 0 <= j < rest.len() && rest[j] == b;
                if wanted(s, list.last()) {
                    assert(rest.push(list.last())[j] == b);
                }
            } else {
                assert(to_request(s, list).last() == b);
            }
        }
        if to_request(s, list).contains(b) {
            let j = choose|j: int| 0 <= j < to_request(s, list).len() && to_request(s, list)[j] == b;
            if wanted(s, list.last()) && j == rest.len() {
                assert(list[list.len() - 1] == b);
            } else {
                assert(rest[j] == b);
                let i = choose|i: int| 0 <= i < d.len() && d[i] == b;
                assert(list[i] == b);
            }
        }
    }
}

/// Every block of `list` is requested in `with_block_requests(m, list, ..)`.
pub proof fn lemma_with_block_requests_has(
    m: Map<InflightRequest, (PeerId, u64)>,
    list: Seq<BlockHash>,
    p: PeerId,
    now: u64,
    b: BlockHash,
)
    requires
        list.contains(b),
    ensures
        with_block_requests(m, list, p, now).contains_key(InflightRequest::Blocks(b)),
    decreases list.len(),
{
    if list.last() != b {
        let i = choose|i: int| 0 <= i < list.len() && list[i] == b;
        assert(list.drop_last()[i] == b);
        lemma_with_block_requests_has(m, list.drop_last(), p, now, b);
    }
}

/// Blocks are asked for once: after `request_blocks_at(list)` succeeded, asking
/// again for the same list asks for none of its blocks, as each is then
/// requested or held.
pub proof fn law_request_blocks_idempotent(
    s0: NodeState,
    t0: Seq<HostEvent>,
    s1: NodeState,
    t1: Seq<HostEvent>,
    r: Result<(), WireError>,
    list: Seq<BlockHash>,
    now: u64,
)
    requires
        blocks_requested(s0, t0, s1, t1, r, list, now),
        r is Ok,
    ensures
        to_request(s1, list).len() == 0,
{
    let w = to_request(s0, list);
    if w.len() > 0 {
        let rr = choose|rr: Result<PeerId, WireError>|
            #[trigger] crate::peer_man::fast_send_outcome(
                t0,
                t1,
                s0.peers,
                ServiceFlags(NODE_NETWORK),
                RequestView::GetBlock(w),
                rr,
            ) && match rr {
                Ok(p) => {
                    &&& r is Ok
                    &&& s1 == (NodeState {
                        inflight: with_block_requests(s0.inflight, w, p, now),
                        ..s0
                    })
                },
                Err(e) => {
                    &&& r == Err::<(), WireError>(e)
                    &&& s1 == s0
                },
            };
        let p = rr->Ok_0;
        lemma_with_block_requests(s0.inflight, w, p, now);
        assert forall|b: BlockHash| list.contains(b) implies !wanted(s1, b) by {
            lemma_to_request_members(s0, list, b);
            if wanted(s0, b) {
                lemma_with_block_requests_has(s0.inflight, w, p, now, b);
            }
        }
    }
    let t = to_request(s1, list);
    if t.len() > 0 {
        lemma_to_request_members(s1, list, t[0]);
        assert(t.contains(t[0]));
    }
}

/// Peer ids are not reused: a connection opened by `open_connection` gets an id
/// that no peer held, and the counter moves past it.
pub proof fn law_open_connection_fresh_id(
    s0: NodeState,
    t0: Seq<HostEvent>,
    s1: NodeState,
    t1: Seq<HostEvent>,
    r: Result<(), WireError>,
    kind: ConnectionKind,
    peer_id: usize,
    address: LocalAddress,
    allow_v1_fallback: bool,
    now: u64,
)
    requires
        forall|id: PeerId| #[trigger] s0.peers.contains_key(id) ==> id < s0.peer_id_count,
        opened(s0, t0, s1, t1, r, kind, peer_id, address, allow_v1_fallback, now),
        r is Ok,
    ensures
        !s0.peers.contains_key(s0.peer_id_count),
        s1.peers.contains_key(s0.peer_id_count),
        s1.peers[s0.peer_id_count].state == PeerStatus::Awaiting,
        s1.peer_id_count == s0.peer_id_count + 1,
        forall|id: PeerId| #[trigger] s1.peers.contains_key(id) ==> id < s1.peer_id_count,
{
}

/// The ban score only grows: raising a known peer's score by `factor` adds
/// exactly `factor`, and a peer whose score reaches the maximum is told to shut
/// down, and is marked banned when that succeeded.
pub proof fn law_banscore_grows(
    s0: NodeState,
    t0: Seq<HostEvent>,
    s1: NodeState,
    t1: Seq<HostEvent>,
    id: PeerId,
    factor: u32,
    r: Result<(), WireError>,
)
    requires
        banscore_outcome(s0, t0, s1, t1, id, factor, r),
        s0.peers.contains_key(id),
        s0.peers[id].banscore + factor <= u32::MAX,
    ensures
        s1.peers.contains_key(id),
        s1.peers[id].banscore == s0.peers[id].banscore + factor,
        s1.peers[id].banscore >= s0.config.max_banscore ==> {
            &&& t1 == t0.push(HostEvent::Sent(id, RequestView::Shutdown, r))
            &&& (r is Ok ==> s1.peers[id].state == PeerStatus::Banned)
        },
{
}

/// A block that `process_block` is asked to process, if it was held, is held no
/// longer, whatever came of it.
pub proof fn law_processed_block_leaves(
    s0: NodeState,
    t0: Seq<HostEvent>,
    s1: NodeState,
    t1: Seq<HostEvent>,
    r: Result<(), WireError>,
    height: u32,
    h: BlockHash,
)
    requires
        block_processed(s0, t0, s1, t1, r, height, h),
    ensures
        !s1.blocks.contains_key(h),
{
}

/// `index_peer` puts `peer` into the list of `service`, and keeps the other lists' members.
pub proof fn lemma_index_peer(
    m: Map<ServiceFlags, Seq<PeerId>>,
    service: ServiceFlags,
    peer: PeerId,
    other: ServiceFlags,
    q: PeerId,
)
    ensures
        index_peer(m, service, peer).contains_key(service),
        index_peer(m, service, peer)[service].contains(peer),
        m.contains_key(other) && m[other].contains(q) ==> index_peer(m, service, peer).contains_key(
            other,
        ) && index_peer(m, service, peer)[other].contains(q),
{
    let l = (if m.contains_key(service) {
        m[service]
    } else {
        Seq::empty()
    }).push(peer);
    assert(l[l.len() - 1] == peer);
    if m.contains_key(other) && m[other].contains(q) && other == service {
        let j = choose|j: int| 0 <= j < m[other].len() && m[other][j] == q;
        assert(l[j] == q);
    }
}

/// A peer whose regular handshake finished with the services it was opened for
/// is counted as ready and found under each of the indexed services it offers.
pub proof fn law_ready_peer_indexed(
    s1: NodeState,
    t0: Seq<HostEvent>,
    t1: Seq<HostEvent>,
    s_final: NodeState,
    r: Result<(), WireError>,
    peer: PeerId,
    v: Version,
    needs: ServiceFlags,
    unix_now: u64,
    sent: Result<(), WireError>,
    service: ServiceFlags,
)
    requires
        regular_done(s1, t0, t1, s_final, r, peer, v, needs, unix_now, sent),
        s1.peers.contains_key(peer),
        v.services.spec_has(needs),
        service == ServiceFlags(NODE_UTREEXO) || service == ServiceFlags(NODE_COMPACT_FILTERS)
            || service == ServiceFlags(NODE_UTREEXO_ARCHIVE) || service == ServiceFlags(NODE_NETWORK),
        v.services.spec_has(service),
    ensures
        r is Ok,
        s_final.peers[peer].state == PeerStatus::Ready,
        s_final.peer_ids.contains(peer),
        s_final.service_peers(service).contains(peer),
{
    let m0 = s1.peer_by_service;
    let s = v.services;
    let m1 = index_if(m0, s, ServiceFlags(NODE_UTREEXO), peer);
    let m2 = index_if(m1, s, ServiceFlags(NODE_COMPACT_FILTERS), peer);
    let m3 = index_if(m2, s, ServiceFlags(NODE_UTREEXO_ARCHIVE), peer);
    let m4 = index_if(m3, s, ServiceFlags(NODE_NETWORK), peer);
    assert(s_final.peer_by_service == m4);
    if s.spec_has(ServiceFlags(NODE_UTREEXO)) {
        lemma_index_peer(m0, ServiceFlags(NODE_UTREEXO), peer, service, peer);
    }
    if s.spec_has(ServiceFlags(NODE_COMPACT_FILTERS)) {
        lemma_index_peer(m1, ServiceFlags(NODE_COMPACT_FILTERS), peer, service, peer);
    }
    if s.spec_has(ServiceFlags(NODE_UTREEXO_ARCHIVE)) {
        lemma_index_peer(m2, ServiceFlags(NODE_UTREEXO_ARCHIVE), peer, service, peer);
    }
    if s.spec_has(ServiceFlags(NODE_NETWORK)) {
        lemma_index_peer(m3, ServiceFlags(NODE_NETWORK), peer, service, peer);
    }
    let ids = s1.peer_ids.push(peer);
    assert(ids[ids.len() - 1] == peer);
}


/// `addnode remove` does not disconnect: it leaves the peers and the requests in
/// flight as they were.
pub proof fn law_addnode_remove_keeps_connections(
    s0: NodeState,
    s1: NodeState,
    r: Result<(), WireError>,
    addr: IpAddress,
    port: u16,
)
    requires
        addnode_remove_outcome(s0, s1, r, addr, port),
    ensures
        s1.peers == s0.peers,
        s1.inflight == s0.inflight,
{
}

/// `addnode onetry` never adds the peer to the hand-added peers; when it
/// succeeds, the peer is connected under the next id, at the given address and
/// port, awaiting its handshake.
pub proof fn law_onetry_not_added(
    s0: NodeState,
    t0: Seq<HostEvent>,
    s1: NodeState,
    t1: Seq<HostEvent>,
    r: Result<(), WireError>,
    addr: IpAddress,
    port: u16,
    v2_transport: bool,
    now: u64,
)
    requires
        onetry_outcome(s0, t0, s1, t1, r, addr, port, v2_transport, now),
    ensures
        s1.added_peers == s0.added_peers,
        r is Ok ==> {
            &&& s1.peers.contains_key(s0.peer_id_count)
            &&& s1.peers[s0.peer_id_count].address == addr
            &&& s1.peers[s0.peer_id_count].port == port
            &&& s1.peers[s0.peer_id_count].state == PeerStatus::Awaiting
        },
{
}

/// The node does not connect to the same peer twice: a connection that
/// `create_connection` opens is to an address and port at which no peer was.
pub proof fn law_no_duplicate_connection(
    s0: NodeState,
    t0: Seq<HostEvent>,
    s1: NodeState,
    t1: Seq<HostEvent>,
    r: Result<(), WireError>,
    kind: ConnectionKind,
    pick: Option<(usize, LocalAddress)>,
    now: u64,
    unix_now: u64,
)
    requires
        connection_created(s0, t0, s1, t1, r, kind, pick, now, unix_now),
        r is Ok,
    ensures
        s1.peers.contains_key(s0.peer_id_count),
        !peer_at(s0.peers, s1.peers[s0.peer_id_count].address, s1.peers[s0.peer_id_count].port),
{
}


/// Asking again for the proof of a held block, when the node has Utreexo peers
/// and does not already wait on that proof, asks the host to pick among the
/// ready Utreexo peers; a peer picked among them is sent `GetBlockProof(h)`.
/// Every request sent is that one, to such a peer. On success the proof is
/// waited on from that peer since `now`, and nothing else changed; on failure
/// nothing changed.
pub proof fn law_redo_proof_request_resends(
    s0: NodeState,
    t0: Seq<HostEvent>,
    s1: NodeState,
    t1: Seq<HostEvent>,
    r: Result<(), WireError>,
    h: BlockHash,
    now: u64,
)
    requires
        redo_outcome(s0, t0, s1, t1, r, InflightRequest::UtreexoProof(h), now),
        s0.has_utreexo_peers(),
        s0.blocks.contains_key(h),
        !s0.inflight.contains_key(InflightRequest::UtreexoProof(h)),
    ensures
        t1.len() > t0.len(),
        t1[t0.len() as int] is PickByLatency,
        forall|p: PeerId|
            #[trigger] t1[t0.len() as int]->PickByLatency_0.contains(p) <==> (s0.peers.contains_key(p)
                && s0.peers[p].state == PeerStatus::Ready && s0.peers[p].services.spec_has(
                ServiceFlags(NODE_UTREEXO),
            )),
        t1[t0.len() as int]->PickByLatency_1 is Some && t1[t0.len() as int]->PickByLatency_0.contains(
            t1[t0.len() as int]->PickByLatency_1->Some_0,
        ) ==> t1.len() == t0.len() + 2 && t1[t0.len() + 1int] is Sent && t1[t0.len() + 1int]->Sent_0
            == t1[t0.len() as int]->PickByLatency_1->Some_0 && t1[t0.len() + 1int]->Sent_1
            == RequestView::GetBlockProof(h),
        forall|i: int|
            t0.len() <= i < t1.len() && (#[trigger] t1[i] is Sent) ==> {
                &&& t1[i]->Sent_1 == RequestView::GetBlockProof(h)
                &&& s0.peers.contains_key(t1[i]->Sent_0)
                &&& s0.peers[t1[i]->Sent_0].state == PeerStatus::Ready
                &&& s0.peers[t1[i]->Sent_0].services.spec_has(ServiceFlags(NODE_UTREEXO))
            },
        r is Ok ==> exists|p: PeerId|
            {
                &&& #[trigger] s0.peers.contains_key(p)
                &&& s0.peers[p].state == PeerStatus::Ready
                &&& s0.peers[p].services.spec_has(ServiceFlags(NODE_UTREEXO))
                &&& t1.last() is Sent
                &&& t1.last()->Sent_0 == p
                &&& t1.last()->Sent_1 == RequestView::GetBlockProof(h)
                &&& t1.last()->Sent_2 is Ok
                &&& s1 == (NodeState {
                    inflight: s0.inflight.insert(InflightRequest::UtreexoProof(h), (p, now)),
                    ..s0
                })
            },
        r is Err ==> s1 == s0,
{
    let rv = RequestView::GetBlockProof(h);
    let service = ServiceFlags(NODE_UTREEXO);
    let rr = choose|rr: Result<PeerId, WireError>|
        #[trigger] crate::peer_man::fast_send_outcome(t0, t1, s0.peers, service, rv, rr) && match rr {
            Ok(p) => {
                &&& r is Ok
                &&& s1 == (NodeState {
                    inflight: s0.inflight.insert(InflightRequest::UtreexoProof(h), (p, now)),
                    ..s0
                })
            },
            Err(e) => {
                &&& r == Err::<(), WireError>(e)
                &&& s1 == s0
            },
        };
    let cands = t1[t0.len() as int]->PickByLatency_0;
    let pick = t1[t0.len() as int]->PickByLatency_1;
    assert forall|i: int| t0.len() <= i < t1.len() && (#[trigger] t1[i] is Sent) implies {
        &&& t1[i]->Sent_1 == rv
        &&& s0.peers.contains_key(t1[i]->Sent_0)
        &&& s0.peers[t1[i]->Sent_0].state == PeerStatus::Ready
        &&& s0.peers[t1[i]->Sent_0].services.spec_has(service)
    } by {
        assert(i == t0.len() + 1);
        assert(cands.contains(pick->Some_0));
    }
    if rr is Ok {
        let p = rr->Ok_0;
        assert(pick is Some && cands.contains(pick->Some_0));
        let ev = t1[t0.len() + 1int];
        assert(ev is Sent);
        assert(ev->Sent_2 is Ok);
        assert(ev->Sent_0 == pick->Some_0 && ev->Sent_1 == rv);
        assert(pick->Some_0 == p);
        assert(cands.contains(p));
        assert(t1.last() == ev);
        assert(s0.peers.contains_key(p));
    }
}

/// A block the chain refuses with a validation error is judged by the error:
/// unless the error is a bad proof (which the block does not commit to) or the
/// block not extending the tip, the block is marked invalid; unless the block
/// does not extend the tip, its sender's address is recorded as banned, the
/// sender is told to shut down, and the call fails with `PeerMisbehaving` (or
/// with the failure of that message). A block that does not extend the tip is
/// the node's own mistake: nothing is banned and the call succeeds. The block
/// is no longer held either way.
pub proof fn law_refused_block_reaction(
    s0: NodeState,
    t0: Seq<HostEvent>,
    s1: NodeState,
    t1: Seq<HostEvent>,
    r: Result<(), WireError>,
    height: u32,
    h: BlockHash,
    e: BlockValidationErrors,
)
    requires
        block_processed(s0, t0, s1, t1, r, height, h),
        t1.len() > t0.len() + 1,
        t1[t0.len() + 1int] is ConnectBlock,
        t1[t0.len() + 1int]->ConnectBlock_3 == Err::<(), BlockchainError>(
            BlockchainError::BlockValidation(e),
        ),
    ensures
        s0.blocks.contains_key(h),
        !s1.blocks.contains_key(h),
        e != BlockValidationErrors::InvalidProof && e != BlockValidationErrors::BlockExtendsAnOrphanChain
            && e != BlockValidationErrors::BlockDoesntExtendTip ==> {
            &&& t1.len() > t0.len() + 2
            &&& t1[t0.len() + 2int] == HostEvent::InvalidateBlock(h)
        },
        e == BlockValidationErrors::InvalidProof ==> t1.len() <= t0.len() + 2 || t1[t0.len() + 2int]
            != HostEvent::InvalidateBlock(h),
        e != BlockValidationErrors::BlockExtendsAnOrphanChain && e
            != BlockValidationErrors::BlockDoesntExtendTip ==> {
            &&& r == Err::<(), WireError>(WireError::PeerMisbehaving) || r == Err::<(), WireError>(
                WireError::ChannelSend,
            )
            &&& s1.last_block_request == s0.last_block_request
            &&& s0.peers.contains_key(s0.blocks[h].peer) ==> exists|i: int|
                t0.len() + 2 <= i < t1.len() && #[trigger] t1[i] == HostEvent::SetAddressState(
                    s0.peers[s0.blocks[h].peer].address_id as usize,
                    crate::types::AddressState::Banned(s0.config.ban_time),
                )
            &&& s0.peers.contains_key(s0.blocks[h].peer) && s0.peers[s0.blocks[h].peer].state
                != PeerStatus::Awaiting ==> t1.last() is Sent && t1.last()->Sent_0 == s0.blocks[h].peer
                && t1.last()->Sent_1 == RequestView::Shutdown
        },
        e == BlockValidationErrors::BlockExtendsAnOrphanChain || e
            == BlockValidationErrors::BlockDoesntExtendTip ==> {
            &&& r is Ok
            &&& t1.len() == t0.len() + 3
            &&& t1[t0.len() + 2int] is ValidationIndex
        },
{
    let ib = s0.blocks[h];
    let peer = ib.peer;
    let sa = NodeState { blocks: s0.blocks.remove(h), ..s0 };
    let tb = t1.subrange(0, t0.len() + 2int);
    let err = BlockchainError::BlockValidation(e);
    assert(crate::blocks::block_refused(sa, tb, s1, t1, r, h, peer, err));
    if !(e == BlockValidationErrors::BlockExtendsAnOrphanChain || e
        == BlockValidationErrors::BlockDoesntExtendTip) {
        let sent = choose|sent: Result<(), WireError>|
            {
                &&& t1 == #[trigger] crate::peer_man::sent_to_peer(sa, crate::blocks::ban_trace(sa, tb, h, peer, err), peer, RequestView::Shutdown, sent)
                &&& r == crate::blocks::misbehaving_result(crate::peer_man::sent_to_peer_result(sa, peer, sent))
                &&& (sent matches Err(e) ==> e == WireError::ChannelSend)
            };
        let bt = crate::blocks::ban_trace(sa, tb, h, peer, err);
        assert(t1.subrange(0, bt.len() as int) =~= bt);
        assert(bt.len() >= t0.len() + 2);
        if e != BlockValidationErrors::InvalidProof {
            assert(bt[t0.len() + 2int] == HostEvent::InvalidateBlock(h));
            assert(t1[t0.len() + 2int] == t1.subrange(0, bt.len() as int)[t0.len() + 2int]);
        } else if t1.len() > t0.len() + 2 {
            assert(bt.len() > t0.len() + 2 ==> bt[t0.len() + 2int] is SetAddressState);
            if bt.len() > t0.len() + 2 {
                assert(t1[t0.len() + 2int] == t1.subrange(0, bt.len() as int)[t0.len() + 2int]);
            }
        }
        if s0.peers.contains_key(peer) {
            let i = bt.len() - 1;
            assert(t1[i] == t1.subrange(0, bt.len() as int)[i]);
            assert(t0.len() + 2 <= i < t1.len());
        }
    }
}

/// With the V1 fallback not allowed by the settings and no `--connect` peer,
/// a connection that `create_connection` opens falls back to V1 only if it is
/// a regular connection to a Utreexo peer; with either setting, it may always.
pub proof fn law_connection_transport(
    s0: NodeState,
    t0: Seq<HostEvent>,
    s1: NodeState,
    t1: Seq<HostEvent>,
    r: Result<(), WireError>,
    kind: ConnectionKind,
    pick: Option<(usize, LocalAddress)>,
    now: u64,
    unix_now: u64,
)
    requires
        connection_created(s0, t0, s1, t1, r, kind, pick, now, unix_now),
    ensures
        forall|i: int|
            t0.len() <= i < t1.len() && (#[trigger] t1[i] is SpawnPeer) ==> t1[i]->SpawnPeer_4 == (
            s0.config.allow_v1_fallback || s0.config.fixed_peer is Some || kind
                == ConnectionKind::Regular(ServiceFlags(NODE_UTREEXO))),
        r is Ok ==> t1.last() is SpawnPeer,
{
}

/// `addnode onetry` opens its connection with the V1 fallback exactly when V2
/// was not asked for: every connection task it starts has V1 fallback equal to
/// `!v2_transport`, and when it succeeds it started one.
pub proof fn law_onetry_transport(
    s0: NodeState,
    t0: Seq<HostEvent>,
    s1: NodeState,
    t1: Seq<HostEvent>,
    r: Result<(), WireError>,
    addr: IpAddress,
    port: u16,
    v2_transport: bool,
    now: u64,
)
    requires
        onetry_outcome(s0, t0, s1, t1, r, addr, port, v2_transport, now),
    ensures
        forall|i: int|
            t0.len() <= i < t1.len() && (#[trigger] t1[i] is SpawnPeer) ==> t1[i]->SpawnPeer_4
                == !v2_transport,
        r is Ok ==> t1.len() == t0.len() + 1 && t1.last() is SpawnPeer,
        !peer_at(s0.peers, addr, port) && s0.peer_id_count < u32::MAX ==> r is Ok,
{
}

/// A NOTFOUND for a block, in any of its forms, answers the user waiting for
/// that block as not found, and does nothing else.
pub proof fn law_notfound_block_answers_user(
    t0: Seq<HostEvent>,
    t1: Seq<HostEvent>,
    r: Result<(), WireError>,
    inv: Inventory,
    h: BlockHash,
)
    requires
        notfound_handled(t0, t1, r, inv),
        inv == Inventory::Block(h) || inv == Inventory::WitnessBlock(h) || inv
            == Inventory::CompactBlock(h),
    ensures
        t1.len() == t0.len() + 1,
        t1.drop_last() == t0,
        t1.last() is AnswerUser,
        t1.last()->AnswerUser_0 == UserRequest::Block(h),
        !t1.last()->AnswerUser_1,
        r is Err ==> r == Err::<(), WireError>(WireError::ResponseSendError),
{
}


/// Asking again through a fast peer offering `service`: the host is asked to
/// pick among exactly the ready peers offering it; a pick among them is sent
/// `rv`, and every request sent is that one, to such a peer. On success the
/// node waits on `key(p)` from the peer `p` that got it since `now`, and
/// nothing else changed; on failure nothing changed.
pub proof fn lemma_resent_facts(
    s0: NodeState,
    t0: Seq<HostEvent>,
    s1: NodeState,
    t1: Seq<HostEvent>,
    r: Result<(), WireError>,
    service: ServiceFlags,
    rv: RequestView,
    key: spec_fn(PeerId) -> InflightRequest,
    now: u64,
)
    requires
        resent(s0, t0, s1, t1, r, service, rv, key, now),
    ensures
        t1.len() > t0.len(),
        t1.subrange(0, t0.len() as int) == t0,
        t1[t0.len() as int] is PickByLatency,
        forall|p: PeerId|
            #[trigger] t1[t0.len() as int]->PickByLatency_0.contains(p) <==> (s0.peers.contains_key(p)
                && s0.peers[p].state == PeerStatus::Ready && s0.peers[p].services.spec_has(service)),
        t1[t0.len() as int]->PickByLatency_1 is Some && t1[t0.len() as int]->PickByLatency_0.contains(
            t1[t0.len() as int]->PickByLatency_1->Some_0,
        ) ==> t1.len() == t0.len() + 2 && t1[t0.len() + 1int] is Sent && t1[t0.len() + 1int]->Sent_0
            == t1[t0.len() as int]->PickByLatency_1->Some_0 && t1[t0.len() + 1int]->Sent_1 == rv,
        forall|i: int|
            t0.len() <= i < t1.len() && (#[trigger] t1[i] is Sent) ==> {
                &&& t1[i]->Sent_1 == rv
                &&& s0.peers.contains_key(t1[i]->Sent_0)
                &&& s0.peers[t1[i]->Sent_0].state == PeerStatus::Ready
                &&& s0.peers[t1[i]->Sent_0].services.spec_has(service)
            },
        r is Ok ==> exists|p: PeerId|
            {
                &&& #[trigger] s0.peers.contains_key(p)
                &&& s0.peers[p].state == PeerStatus::Ready
                &&& s0.peers[p].services.spec_has(service)
                &&& t1.last() is Sent
                &&& t1.last()->Sent_0 == p
                &&& t1.last()->Sent_1 == rv
                &&& t1.last()->Sent_2 is Ok
                &&& s1 == (NodeState { inflight: s0.inflight.insert(key(p), (p, now)), ..s0 })
            },
        r is Err ==> s1 == s0,
{
    let rr = choose|rr: Result<PeerId, WireError>|
        #[trigger] crate::peer_man::fast_send_outcome(t0, t1, s0.peers, service, rv, rr) && match rr {
            Ok(p) => {
                &&& r is Ok
                &&& s1 == (NodeState { inflight: s0.inflight.insert(key(p), (p, now)), ..s0 })
            },
            Err(e) => {
                &&& r == Err::<(), WireError>(e)
                &&& s1 == s0
            },
        };
    let cands = t1[t0.len() as int]->PickByLatency_0;
    let pick = t1[t0.len() as int]->PickByLatency_1;
    assert forall|i: int| t0.len() <= i < t1.len() && (#[trigger] t1[i] is Sent) implies {
        &&& t1[i]->Sent_1 == rv
        &&& s0.peers.contains_key(t1[i]->Sent_0)
        &&& s0.peers[t1[i]->Sent_0].state == PeerStatus::Ready
        &&& s0.peers[t1[i]->Sent_0].services.spec_has(service)
    } by {
        assert(i == t0.len() + 1);
        assert(cands.contains(pick->Some_0));
    }
    if rr is Ok {
        let p = rr->Ok_0;
        assert(pick is Some && cands.contains(pick->Some_0));
        let ev = t1[t0.len() + 1int];
        assert(ev is Sent);
        assert(ev->Sent_2 is Ok);
        assert(pick->Some_0 == p);
        assert(cands.contains(p));
        assert(t1.last() == ev);
        assert(s0.peers.contains_key(p));
    }
}

/// Asking again for the headers always goes to a fast ready Utreexo peer, as
/// `GetHeaders` with an empty locator; on success the headers are waited on
/// from that peer since `now`, and on failure nothing changed.
pub proof fn law_redo_headers_resends(
    s0: NodeState,
    t0: Seq<HostEvent>,
    s1: NodeState,
    t1: Seq<HostEvent>,
    r: Result<(), WireError>,
    now: u64,
)
    requires
        redo_outcome(s0, t0, s1, t1, r, InflightRequest::Headers, now),
    ensures
        t1.len() > t0.len(),
        forall|i: int|
            t0.len() <= i < t1.len() && (#[trigger] t1[i] is Sent) ==> t1[i]->Sent_1
                == RequestView::GetHeaders(Seq::empty()) && s0.peers.contains_key(t1[i]->Sent_0)
                && s0.peers[t1[i]->Sent_0].state == PeerStatus::Ready && s0.peers[t1[i]->Sent_0].services.spec_has(
                ServiceFlags(NODE_UTREEXO),
            ),
        r is Ok ==> exists|p: PeerId|
            {
                &&& #[trigger] s0.peers.contains_key(p)
                &&& s0.peers[p].state == PeerStatus::Ready
                &&& t1.last() is Sent
                &&& t1.last()->Sent_0 == p
                &&& t1.last()->Sent_1 == RequestView::GetHeaders(Seq::empty())
                &&& s1 == (NodeState {
                    inflight: s0.inflight.insert(InflightRequest::Headers, (p, now)),
                    ..s0
                })
            },
        r is Err ==> s1 == s0,
{
    lemma_resent_facts(s0, t0, s1, t1, r, ServiceFlags(NODE_UTREEXO), RequestView::GetHeaders(Seq::empty()), |p: PeerId| InflightRequest::Headers, now);
}

/// Asking again for a Utreexo state reads the genesis hash and asks a fast
/// ready Utreexo peer for the state at it; on success the state is waited on
/// from that very peer since `now`, and on failure nothing changed.
pub proof fn law_redo_utreexo_state_resends(
    s0: NodeState,
    t0: Seq<HostEvent>,
    s1: NodeState,
    t1: Seq<HostEvent>,
    r: Result<(), WireError>,
    old_peer: PeerId,
    now: u64,
)
    requires
        redo_outcome(s0, t0, s1, t1, r, InflightRequest::UtreexoState(old_peer), now),
    ensures
        t1.len() > t0.len() + 1,
        t1[t0.len() as int] is GenesisHash,
        forall|i: int|
            t0.len() <= i < t1.len() && (#[trigger] t1[i] is Sent) ==> t1[i]->Sent_1
                == RequestView::GetUtreexoState(t1[t0.len() as int]->GenesisHash_0, 0)
                && s0.peers.contains_key(t1[i]->Sent_0) && s0.peers[t1[i]->Sent_0].state
                == PeerStatus::Ready && s0.peers[t1[i]->Sent_0].services.spec_has(
                ServiceFlags(NODE_UTREEXO),
            ),
        r is Ok ==> exists|p: PeerId|
            {
                &&& #[trigger] s0.peers.contains_key(p)
                &&& s0.peers[p].state == PeerStatus::Ready
                &&& t1.last() is Sent
                &&& t1.last()->Sent_0 == p
                &&& s1 == (NodeState {
                    inflight: s0.inflight.insert(InflightRequest::UtreexoState(p), (p, now)),
                    ..s0
                })
            },
        r is Err ==> s1 == s0,
{
    let ta = t0.push(t1[t0.len() as int]);
    let g = t1[t0.len() as int]->GenesisHash_0;
    lemma_resent_facts(s0, ta, s1, t1, r, ServiceFlags(NODE_UTREEXO), RequestView::GetUtreexoState(g, 0), |p: PeerId| InflightRequest::UtreexoState(p), now);
    assert forall|i: int| t0.len() <= i < t1.len() && (#[trigger] t1[i] is Sent) implies t1[i]->Sent_1
        == RequestView::GetUtreexoState(g, 0) && s0.peers.contains_key(t1[i]->Sent_0) && s0.peers[t1[i]->Sent_0].state
        == PeerStatus::Ready && s0.peers[t1[i]->Sent_0].services.spec_has(ServiceFlags(NODE_UTREEXO)) by {
        if i == t0.len() {
            assert(t1[i] is GenesisHash);
        }
    }
}

/// Asking again for compact filters, when some ready peer serves them, reads
/// the genesis hash and asks a fast ready peer serving filters; on success the
/// filters are waited on from that peer since `now`, and on failure nothing
/// changed. Without such a peer nothing is asked.
pub proof fn law_redo_filters_resends(
    s0: NodeState,
    t0: Seq<HostEvent>,
    s1: NodeState,
    t1: Seq<HostEvent>,
    r: Result<(), WireError>,
    now: u64,
)
    requires
        redo_outcome(s0, t0, s1, t1, r, InflightRequest::GetFilters, now),
    ensures
        !s0.has_compact_filters_peer() ==> s1 == s0 && t1 == t0 && r is Ok,
        s0.has_compact_filters_peer() ==> {
            &&& t1.len() > t0.len() + 1
            &&& t1[t0.len() as int] is GenesisHash
            &&& forall|i: int|
                t0.len() <= i < t1.len() && (#[trigger] t1[i] is Sent) ==> t1[i]->Sent_1
                    == RequestView::GetFilter(t1[t0.len() as int]->GenesisHash_0, 0)
                    && s0.peers.contains_key(t1[i]->Sent_0) && s0.peers[t1[i]->Sent_0].state
                    == PeerStatus::Ready && s0.peers[t1[i]->Sent_0].services.spec_has(
                    ServiceFlags(NODE_COMPACT_FILTERS),
                )
            &&& r is Ok ==> exists|p: PeerId|
                {
                    &&& #[trigger] s0.peers.contains_key(p)
                    &&& s0.peers[p].state == PeerStatus::Ready
                    &&& t1.last() is Sent
                    &&& t1.last()->Sent_0 == p
                    &&& s1 == (NodeState {
                        inflight: s0.inflight.insert(InflightRequest::GetFilters, (p, now)),
                        ..s0
                    })
                }
            &&& r is Err ==> s1 == s0
        },
{
    if s0.has_compact_filters_peer() {
        let ta = t0.push(t1[t0.len() as int]);
        let g = t1[t0.len() as int]->GenesisHash_0;
        lemma_resent_facts(s0, ta, s1, t1, r, ServiceFlags(NODE_COMPACT_FILTERS), RequestView::GetFilter(g, 0), |p: PeerId| InflightRequest::GetFilters, now);
        assert forall|i: int| t0.len() <= i < t1.len() && (#[trigger] t1[i] is Sent) implies t1[i]->Sent_1
            == RequestView::GetFilter(g, 0) && s0.peers.contains_key(t1[i]->Sent_0) && s0.peers[t1[i]->Sent_0].state
            == PeerStatus::Ready && s0.peers[t1[i]->Sent_0].services.spec_has(ServiceFlags(NODE_COMPACT_FILTERS)) by {
            if i == t0.len() {
                assert(t1[i] is GenesisHash);
            }
        }
    }
}

/// Asking again for a block that is neither requested nor held asks a fast
/// ready peer serving the network for it; on success the block is waited on
/// from that peer since `now`, and on failure nothing changed. A block that is
/// requested or held is not asked for again.
pub proof fn law_redo_block_resends(
    s0: NodeState,
    t0: Seq<HostEvent>,
    s1: NodeState,
    t1: Seq<HostEvent>,
    r: Result<(), WireError>,
    h: BlockHash,
    now: u64,
)
    requires
        redo_outcome(s0, t0, s1, t1, r, InflightRequest::Blocks(h), now),
    ensures
        !wanted(s0, h) ==> s1 == s0 && t1 == t0 && r is Ok,
        wanted(s0, h) ==> {
            &&& t1.len() > t0.len()
            &&& t1[t0.len() as int] is PickByLatency
            &&& forall|i: int|
                t0.len() <= i < t1.len() && (#[trigger] t1[i] is Sent) ==> t1[i]->Sent_1
                    == RequestView::GetBlock(seq![h]) && s0.peers.contains_key(t1[i]->Sent_0)
                    && s0.peers[t1[i]->Sent_0].state == PeerStatus::Ready
                    && s0.peers[t1[i]->Sent_0].services.spec_has(ServiceFlags(NODE_NETWORK))
            &&& r is Ok ==> exists|p: PeerId|
                {
                    &&& #[trigger] s0.peers.contains_key(p)
                    &&& s0.peers[p].state == PeerStatus::Ready
                    &&& s1 == (NodeState {
                        inflight: s0.inflight.insert(InflightRequest::Blocks(h), (p, now)),
                        ..s0
                    })
                }
            &&& r is Err ==> s1 == s0
        },
{
    let list = seq![h];
    let w = to_request(s0, list);
    assert(list.drop_last() =~= Seq::<BlockHash>::empty());
    assert(to_request(s0, Seq::<BlockHash>::empty()) == Seq::<BlockHash>::empty());
    if wanted(s0, h) {
        assert(w =~= seq![h]);
        let rr = choose|rr: Result<PeerId, WireError>|
            #[trigger] crate::peer_man::fast_send_outcome(t0, t1, s0.peers, ServiceFlags(NODE_NETWORK), RequestView::GetBlock(w), rr) && match rr {
                Ok(p) => {
                    &&& r is Ok
                    &&& s1 == (NodeState { inflight: with_block_requests(s0.inflight, w, p, now), ..s0 })
                },
                Err(e) => {
                    &&& r == Err::<(), WireError>(e)
                    &&& s1 == s0
                },
            };
        let cands = t1[t0.len() as int]->PickByLatency_0;
        let pick = t1[t0.len() as int]->PickByLatency_1;
        assert forall|i: int| t0.len() <= i < t1.len() && (#[trigger] t1[i] is Sent) implies t1[i]->Sent_1
            == RequestView::GetBlock(seq![h]) && s0.peers.contains_key(t1[i]->Sent_0)
            && s0.peers[t1[i]->Sent_0].state == PeerStatus::Ready
            && s0.peers[t1[i]->Sent_0].services.spec_has(ServiceFlags(NODE_NETWORK)) by {
            assert(i == t0.len() + 1);
            assert(cands.contains(pick->Some_0));
        }
        if rr is Ok {
            let p = rr->Ok_0;
            assert(cands.contains(p));
            assert(w.drop_last() =~= Seq::<BlockHash>::empty());
            assert(w.last() == h);
            assert(with_block_requests(s0.inflight, Seq::<BlockHash>::empty(), p, now) == s0.inflight);
            assert(with_block_requests(s0.inflight, w, p, now) == with_block_requests(s0.inflight, w.drop_last(), p, now).insert(InflightRequest::Blocks(h), (p, now)));
            assert(with_block_requests(s0.inflight, w, p, now) =~= s0.inflight.insert(InflightRequest::Blocks(h), (p, now)));
            assert(s0.peers.contains_key(p));
        }
    } else {
        assert(w =~= Seq::<BlockHash>::empty());
    }
}


/// A block the chain refuses for a reason other than validation is not marked
/// invalid, but its sender's address is recorded as banned, the sender is told
/// to shut down, and the call fails with `PeerMisbehaving` (or with the failure
/// of that message).
pub proof fn law_refused_block_other(
    s0: NodeState,
    t0: Seq<HostEvent>,
    s1: NodeState,
    t1: Seq<HostEvent>,
    r: Result<(), WireError>,
    height: u32,
    h: BlockHash,
)
    requires
        block_processed(s0, t0, s1, t1, r, height, h),
        t1.len() > t0.len() + 1,
        t1[t0.len() + 1int] is ConnectBlock,
        t1[t0.len() + 1int]->ConnectBlock_3 == Err::<(), BlockchainError>(BlockchainError::Other),
    ensures
        !s1.blocks.contains_key(h),
        t1.len() <= t0.len() + 2 || t1[t0.len() + 2int] != HostEvent::InvalidateBlock(h),
        r == Err::<(), WireError>(WireError::PeerMisbehaving) || r == Err::<(), WireError>(
            WireError::ChannelSend,
        ),
        s1.last_block_request == s0.last_block_request,
        s0.peers.contains_key(s0.blocks[h].peer) ==> exists|i: int|
            t0.len() + 2 <= i < t1.len() && #[trigger] t1[i] == HostEvent::SetAddressState(
                s0.peers[s0.blocks[h].peer].address_id as usize,
                crate::types::AddressState::Banned(s0.config.ban_time),
            ),
{
    let ib = s0.blocks[h];
    let peer = ib.peer;
    let sa = NodeState { blocks: s0.blocks.remove(h), ..s0 };
    let tb = t1.subrange(0, t0.len() + 2int);
    let err = BlockchainError::Other;
    assert(crate::blocks::block_refused(sa, tb, s1, t1, r, h, peer, err));
    let sent = choose|sent: Result<(), WireError>|
        {
            &&& t1 == #[trigger] crate::peer_man::sent_to_peer(sa, crate::blocks::ban_trace(sa, tb, h, peer, err), peer, RequestView::Shutdown, sent)
            &&& r == crate::blocks::misbehaving_result(crate::peer_man::sent_to_peer_result(sa, peer, sent))
            &&& (sent matches Err(e) ==> e == WireError::ChannelSend)
        };
    let bt = crate::blocks::ban_trace(sa, tb, h, peer, err);
    assert(t1.subrange(0, bt.len() as int) =~= bt);
    if t1.len() > t0.len() + 2 && bt.len() > t0.len() + 2 {
        assert(t1[t0.len() + 2int] == t1.subrange(0, bt.len() as int)[t0.len() + 2int]);
    }
    if s0.peers.contains_key(peer) {
        let i = bt.len() - 1;
        assert(t1[i] == t1.subrange(0, bt.len() as int)[i]);
    }
}


/// A NOTFOUND for a transaction, with or without witness, answers the user
/// waiting for it in the mempool as not found, and does nothing else; a
/// NOTFOUND for an error entry, a wtxid or an unknown kind answers no one.
pub proof fn law_notfound_transaction_answers_user(
    t0: Seq<HostEvent>,
    t1: Seq<HostEvent>,
    r: Result<(), WireError>,
    inv: Inventory,
    t: crate::types::Txid,
)
    requires
        notfound_handled(t0, t1, r, inv),
    ensures
        inv == Inventory::Transaction(t) || inv == Inventory::WitnessTransaction(t) ==> {
            &&& t1.len() == t0.len() + 1
            &&& t1.drop_last() == t0
            &&& t1.last() is AnswerUser
            &&& t1.last()->AnswerUser_0 == UserRequest::MempoolTransaction(t)
            &&& !t1.last()->AnswerUser_1
        },
        (inv is Error || inv is WTx || inv is Unknown) ==> t1 == t0 && r is Ok,
{
}

} // verus!
