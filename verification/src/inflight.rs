//! Requests in flight: asking again when a peer leaves or a request times out.
use vstd::prelude::*;

use crate::blocks::{blocks_requested, to_request, with_block_requests};
use crate::host::HostEvent;
use crate::host::NodeHost;
use crate::node::NodeState;
use crate::node::UtreexoNode;
use crate::peer_man::{banscore_outcome, fast_send_outcome, lemma_fast_send_ok, sent_to_peer};
use crate::types::{
    BlockHash, InflightRequest, NodeRequest, PeerId, RequestView, ServiceFlags, WireError,
    NODE_COMPACT_FILTERS, NODE_UTREEXO,
};

verus! {

/// What asking again did: the request went to a fast peer offering `service`;
/// when that succeeded the node waits, since `now`, on `key(p)` from the peer `p`
/// that got it.
pub open spec fn resent(
    s0: NodeState,
    t0: Seq<HostEvent>,
    s1: NodeState,
    t1: Seq<HostEvent>,
    r: Result<(), WireError>,
    service: ServiceFlags,
    rv: RequestView,
    key: spec_fn(PeerId) -> InflightRequest,
    now: u64,
) -> bool {
    exists|rr: Result<PeerId, WireError>|
        #[trigger] fast_send_outcome(t0, t1, s0.peers, service, rv, rr) && match rr {
            Ok(p) => {
                &&& r is Ok
                &&& s1 == (NodeState { inflight: s0.inflight.insert(key(p), (p, now)), ..s0 })
            },
            Err(e) => {
                &&& r == Err::<(), WireError>(e)
                &&& s1 == s0
            },
        }
}

/// What `redo_inflight_request_at(req)` did, from `s0`/`t0` to `s1`/`t1`.
pub open spec fn redo_outcome(
    s0: NodeState,
    t0: Seq<HostEvent>,
    s1: NodeState,
    t1: Seq<HostEvent>,
    r: Result<(), WireError>,
    req: InflightRequest,
    now: u64,
) -> bool {
    match req {
        InflightRequest::UtreexoProof(h) => if !s0.has_utreexo_peers() || !s0.blocks.contains_key(h)
            || s0.inflight.contains_key(InflightRequest::UtreexoProof(h)) {
            &&& r is Ok
            &&& s1 == s0
            &&& t1 == t0
        } else {
            resent(
                s0,
                t0,
                s1,
                t1,
                r,
                ServiceFlags(NODE_UTREEXO),
                RequestView::GetBlockProof(h),
                |p: PeerId| InflightRequest::UtreexoProof(h),
                now,
            )
        },
        InflightRequest::Blocks(h) => blocks_requested(s0, t0, s1, t1, r, seq![h], now),
        InflightRequest::Headers => resent(
            s0,
            t0,
            s1,
            t1,
            r,
            ServiceFlags(NODE_UTREEXO),
            RequestView::GetHeaders(Seq::empty()),
            |p: PeerId| InflightRequest::Headers,
            now,
        ),
        InflightRequest::UtreexoState(_) => {
            &&& t1.len() > t0.len()
            &&& t1[t0.len() as int] is GenesisHash
            &&& resent(
                s0,
                t0.push(t1[t0.len() as int]),
                s1,
                t1,
                r,
                ServiceFlags(NODE_UTREEXO),
                RequestView::GetUtreexoState(t1[t0.len() as int]->GenesisHash_0, 0),
                |p: PeerId| InflightRequest::UtreexoState(p),
                now,
            )
        },
        InflightRequest::GetFilters => if !s0.has_compact_filters_peer() {
            &&& r is Ok
            &&& s1 == s0
            &&& t1 == t0
        } else {
            &&& t1.len() > t0.len()
            &&& t1[t0.len() as int] is GenesisHash
            &&& resent(
                s0,
                t0.push(t1[t0.len() as int]),
                s1,
                t1,
                r,
                ServiceFlags(NODE_COMPACT_FILTERS),
                RequestView::GetFilter(t1[t0.len() as int]->GenesisHash_0, 0),
                |p: PeerId| InflightRequest::GetFilters,
                now,
            )
        },
        InflightRequest::Connect(_) => {
            &&& r is Ok
            &&& s1 == s0
            &&& t1 == t0
        },
    }
}

/// Every request waited on in `m1` but not, as it is, in `m0`, is `req` itself
/// or a request for the Utreexo state of the very peer it waits on.
pub open spec fn only_redone(
    m0: Map<InflightRequest, (PeerId, u64)>,
    m1: Map<InflightRequest, (PeerId, u64)>,
    req: InflightRequest,
) -> bool {
    forall|j: InflightRequest|
        #[trigger] m1.contains_key(j) && j != req ==> (m0.contains_key(j) && m1[j] == m0[j]) || (
        j == InflightRequest::UtreexoState(m1[j].0))
}

/// Asking again only adds or replaces the entry `key(p)` of the peer `p` asked.
pub proof fn lemma_resent_keys(
    s0: NodeState,
    t0: Seq<HostEvent>,
    s1: NodeState,
    t1: Seq<HostEvent>,
    r: Result<(), WireError>,
    service: ServiceFlags,
    rv: RequestView,
    key: spec_fn(PeerId) -> InflightRequest,
    now: u64,
)
    requires
        resent(s0, t0, s1, t1, r, service, rv, key, now),
    ensures
        s1 == (NodeState { inflight: s1.inflight, ..s0 }),
        forall|j: InflightRequest|
            #[trigger] s1.inflight.contains_key(j) ==> (s0.inflight.contains_key(j) && s1.inflight[j]
                == s0.inflight[j]) || j == key(s1.inflight[j].0),
{
    let rr = choose|rr: Result<PeerId, WireError>|
        #[trigger] fast_send_outcome(t0, t1, s0.peers, service, rv, rr) && match rr {
            Ok(p) => {
                &&& r is Ok
                &&& s1 == (NodeState { inflight: s0.inflight.insert(key(p), (p, now)), ..s0 })
            },
            Err(e) => {
                &&& r == Err::<(), WireError>(e)
                &&& s1 == s0
            },
        };
}

/// Inserting requests for the blocks of `list` only adds or replaces requests
/// for those blocks.
pub proof fn lemma_with_block_requests_keys(
    m: Map<InflightRequest, (PeerId, u64)>,
    list: Seq<BlockHash>,
    p: PeerId,
    now: u64,
)
    ensures
        forall|j: InflightRequest|
            #[trigger] with_block_requests(m, list, p, now).contains_key(j) ==> (m.contains_key(j)
                && with_block_requests(m, list, p, now)[j] == m[j]) || (j is Blocks && list.contains(
                j->Blocks_0,
            )),
    decreases list.len(),
{
    if list.len() > 0 {
        lemma_with_block_requests_keys(m, list.drop_last(), p, now);
        let w = with_block_requests(m, list, p, now);
        assert forall|j: InflightRequest| #[trigger] w.contains_key(j) implies (m.contains_key(j)
            && w[j] == m[j]) || (j is Blocks && list.contains(j->Blocks_0)) by {
            if j != InflightRequest::Blocks(list.last()) {
                let rest = with_block_requests(m, list.drop_last(), p, now);
                assert(rest.contains_key(j));
                if !(m.contains_key(j) && rest[j] == m[j]) {
                    let k = choose|k: int| 0 <= k < list.drop_last().len() && list.drop_last()[k] == j->Blocks_0;
                    assert(list[k] == j->Blocks_0);
                }
            } else {
                assert(list[list.len() - 1] == list.last());
            }
        }
    }
}

/// The blocks to request out of `list` are blocks of `list`.
pub proof fn lemma_to_request_within(s: NodeState, list: Seq<BlockHash>)
    ensures
        forall|x: BlockHash| #[trigger] to_request(s, list).contains(x) ==> list.contains(x),
    decreases list.len(),
{
    if list.len() > 0 {
        lemma_to_request_within(s, list.drop_last());
        assert forall|x: BlockHash| #[trigger] to_request(s, list).contains(x) implies list.contains(x) by {
            if x == list.last() {
                assert(list[list.len() - 1] == x);
            } else {
                assert(to_request(s, list.drop_last()).contains(x));
                let k = choose|k: int| 0 <= k < list.drop_last().len() && list.drop_last()[k] == x;
                assert(list[k] == x);
            }
        }
    }
}

/// Asking again for `req` leaves the peers as they are, and only adds or
/// replaces the request `req` itself or a request for the Utreexo state of the
/// peer it then waits on.
pub proof fn lemma_redo_keys(
    s0: NodeState,
    t0: Seq<HostEvent>,
    s1: NodeState,
    t1: Seq<HostEvent>,
    r: Result<(), WireError>,
    req: InflightRequest,
    now: u64,
)
    requires
        redo_outcome(s0, t0, s1, t1, r, req, now),
    ensures
        s1.peers == s0.peers,
        only_redone(s0.inflight, s1.inflight, req),
{
    match req {
        InflightRequest::UtreexoProof(h) => {
            if !(!s0.has_utreexo_peers() || !s0.blocks.contains_key(h) || s0.inflight.contains_key(
                InflightRequest::UtreexoProof(h),
            )) {
                lemma_resent_keys(s0, t0, s1, t1, r, ServiceFlags(NODE_UTREEXO), RequestView::GetBlockProof(h), |p: PeerId| InflightRequest::UtreexoProof(h), now);
            }
        },
        InflightRequest::Blocks(h) => {
            let wanted = to_request(s0, seq![h]);
            lemma_to_request_within(s0, seq![h]);
            if wanted.len() > 0 {
                let rr = choose|rr: Result<PeerId, WireError>|
                    #[trigger] fast_send_outcome(
                        t0,
                        t1,
                        s0.peers,
                        ServiceFlags(crate::types::NODE_NETWORK),
                        RequestView::GetBlock(wanted),
                        rr,
                    ) && match rr {
                        Ok(p) => {
                            &&& r is Ok
                            &&& s1 == (NodeState {
                                inflight: with_block_requests(s0.inflight, wanted, p, now),
                                ..s0
                            })
                        },
                        Err(e) => {
                            &&& r == Err::<(), WireError>(e)
                            &&& s1 == s0
                        },
                    };
                if rr is Ok {
                    lemma_with_block_requests_keys(s0.inflight, wanted, rr->Ok_0, now);
                    assert forall|j: InflightRequest| #[trigger] s1.inflight.contains_key(j) && j != req
                        implies (s0.inflight.contains_key(j) && s1.inflight[j] == s0.inflight[j]) || (j
                        == InflightRequest::UtreexoState(s1.inflight[j].0)) by {
                        if j is Blocks && wanted.contains(j->Blocks_0) {
                            assert(seq![h].contains(j->Blocks_0));
                            assert(seq![h][0] == h);
                        }
                    }
                }
            }
        },
        InflightRequest::Headers => {
            lemma_resent_keys(s0, t0, s1, t1, r, ServiceFlags(NODE_UTREEXO), RequestView::GetHeaders(Seq::empty()), |p: PeerId| InflightRequest::Headers, now);
        },
        InflightRequest::UtreexoState(_) => {
            lemma_resent_keys(s0, t0.push(t1[t0.len() as int]), s1, t1, r, ServiceFlags(NODE_UTREEXO), RequestView::GetUtreexoState(t1[t0.len() as int]->GenesisHash_0, 0), |p: PeerId| InflightRequest::UtreexoState(p), now);
        },
        InflightRequest::GetFilters => {
            if s0.has_compact_filters_peer() {
                lemma_resent_keys(s0, t0.push(t1[t0.len() as int]), s1, t1, r, ServiceFlags(NODE_COMPACT_FILTERS), RequestView::GetFilter(t1[t0.len() as int]->GenesisHash_0, 0), |p: PeerId| InflightRequest::GetFilters, now);
            }
        },
        InflightRequest::Connect(_) => {},
    }
}

/// Every request waited on in `m1` was waited on in `m0` with the same peer and
/// time, or was asked at `now` of a peer in `peers`; and none of `m0` was dropped.
pub open spec fn fresh_entries(
    m0: Map<InflightRequest, (PeerId, u64)>,
    m1: Map<InflightRequest, (PeerId, u64)>,
    peers: Map<PeerId, crate::node::LocalPeerView>,
    now: u64,
) -> bool {
    &&& forall|k: InflightRequest| #[trigger] m0.contains_key(k) ==> m1.contains_key(k)
    &&& forall|k: InflightRequest|
        #[trigger] m1.contains_key(k) ==> (m0.contains_key(k) && m1[k] == m0[k]) || (m1[k].1 == now
            && peers.contains_key(m1[k].0))
}

/// Inserting a request for each block of `list`, from `p` at `now`, only adds
/// entries that are waited on from `p` since `now`.
pub proof fn lemma_with_block_requests(
    m: Map<InflightRequest, (PeerId, u64)>,
    list: Seq<BlockHash>,
    p: PeerId,
    now: u64,
)
    ensures
        forall|k: InflightRequest| #[trigger] m.contains_key(k) ==> with_block_requests(m, list, p, now).contains_key(k),
        forall|k: InflightRequest|
            #[trigger] with_block_requests(m, list, p, now).contains_key(k) ==> (m.contains_key(k)
                && with_block_requests(m, list, p, now)[k] == m[k]) || with_block_requests(m, list, p, now)[k]
                == (p, now),
    decreases list.len(),
{
    if list.len() > 0 {
        lemma_with_block_requests(m, list.drop_last(), p, now);
        let rest = with_block_requests(m, list.drop_last(), p, now);
        assert forall|k: InflightRequest|
            #[trigger] with_block_requests(m, list, p, now).contains_key(k) implies (m.contains_key(k)
                && with_block_requests(m, list, p, now)[k] == m[k]) || with_block_requests(m, list, p, now)[k]
                == (p, now) by {
            if k != InflightRequest::Blocks(list.last()) {
                assert(rest.contains_key(k));
            }
        }
    }
}

/// The predicate of the ids other than `peer`.
pub open spec fn not_id(peer: PeerId) -> spec_fn(PeerId) -> bool {
    |x: PeerId| x != peer
}

/// The service index with `peer` dropped from every list.
pub open spec fn drop_from_lists(m: Map<ServiceFlags, Seq<PeerId>>, peer: PeerId) -> Map<
    ServiceFlags,
    Seq<PeerId>,
> {
    m.map_values(|l: Seq<PeerId>| l.filter(not_id(peer)))
}

/// `s` once the peer `peer` is forgotten: it leaves the peers, the list of ready
/// peers and every service list.
pub open spec fn without_peer(s: NodeState, peer: PeerId) -> NodeState {
    NodeState {
        peers: s.peers.remove(peer),
        peer_ids: s.peer_ids.filter(not_id(peer)),
        peer_by_service: drop_from_lists(s.peer_by_service, peer),
        ..s
    }
}

/// What the address manager records of the address of a peer that disconnected
/// in state `state`: tried if its handshake finished, failed if it never did,
/// banned for `ban_time` seconds if it was banned.
pub open spec fn address_state_after(
    state: crate::types::PeerStatus,
    unix_now: u64,
    ban_time: u64,
) -> crate::types::AddressState {
    match state {
        crate::types::PeerStatus::Ready => crate::types::AddressState::Tried(unix_now),
        crate::types::PeerStatus::Awaiting => crate::types::AddressState::Failed(unix_now),
        crate::types::PeerStatus::Banned => crate::types::AddressState::Banned(ban_time),
    }
}

/// The trace `t0` with the record of a disconnected peer's address, if the peer was known.
pub open spec fn disconnect_trace(
    s0: NodeState,
    t0: Seq<HostEvent>,
    peer: PeerId,
    idx: usize,
    unix_now: u64,
) -> Seq<HostEvent> {
    if s0.peers.contains_key(peer) {
        t0.push(
            HostEvent::SetAddressState(
                idx,
                address_state_after(s0.peers[peer].state, unix_now, s0.config.disconnect_ban_time),
            ),
        )
    } else {
        t0
    }
}

/// `reqs` lists, once each, the requests of `s` waited on from `peer`.
pub open spec fn assigned_to(s: NodeState, peer: PeerId, reqs: Seq<InflightRequest>) -> bool {
    &&& reqs.no_duplicates()
    &&& forall|k: InflightRequest|
        #[trigger] reqs.contains(k) <==> (s.inflight.contains_key(k) && s.inflight[k].0 == peer)
}

/// One request taken out of `s0`'s requests in flight and asked again.
pub open spec fn redo_step(
    s0: NodeState,
    t0: Seq<HostEvent>,
    s1: NodeState,
    t1: Seq<HostEvent>,
    r: Result<(), WireError>,
    req: InflightRequest,
    now: u64,
) -> bool {
    redo_outcome(NodeState { inflight: s0.inflight.remove(req), ..s0 }, t0, s1, t1, r, req, now)
}

/// `states` and `traces` go through a successful `redo_step` for each of `reqs`.
pub open spec fn redo_chain(
    states: Seq<NodeState>,
    traces: Seq<Seq<HostEvent>>,
    reqs: Seq<InflightRequest>,
    now: u64,
) -> bool {
    &&& states.len() == reqs.len() + 1
    &&& traces.len() == reqs.len() + 1
    &&& forall|j: int|
        0 <= j < reqs.len() ==> #[trigger] redo_step(
            states[j],
            traces[j],
            states[j + 1],
            traces[j + 1],
            Ok(()),
            reqs[j],
            now,
        )
}

/// What `handle_disconnection_at(peer, idx)` did: the peer was forgotten and its
/// address recorded; then each request waited on from it was taken out and
/// asked again, one after the other, until one failed.
pub open spec fn disconnected(
    s0: NodeState,
    t0: Seq<HostEvent>,
    s1: NodeState,
    t1: Seq<HostEvent>,
    r: Result<(), WireError>,
    peer: PeerId,
    idx: usize,
    now: u64,
    unix_now: u64,
) -> bool {
    exists|
        reqs: Seq<InflightRequest>,
        k: int,
        states: Seq<NodeState>,
        traces: Seq<Seq<HostEvent>>,
    |
        {
            &&& assigned_to(s0, peer, reqs)
            &&& 0 <= k <= reqs.len()
            &&& #[trigger] redo_chain(states, traces, reqs.take(k), now)
            &&& states[0] == without_peer(s0, peer)
            &&& traces[0] == disconnect_trace(s0, t0, peer, idx, unix_now)
            &&& if k == reqs.len() {
                &&& s1 == states.last()
                &&& t1 == traces.last()
                &&& r is Ok
            } else {
                &&& redo_step(states.last(), traces.last(), s1, t1, r, reqs[k], now)
                &&& r is Err
            }
        }
}

/// Whole seconds from `sent_at` to `now` on the monotonic clock (nanoseconds), none
/// if the clock went back.
pub open spec fn elapsed_secs(sent_at: u64, now: u64) -> int {
    if now >= sent_at {
        (now - sent_at) / 1_000_000_000
    } else {
        0
    }
}

/// Whether the request `req`, asked at `sent_at`, has timed out at `now`: a
/// connection attempt after the connection timeout, any request after the
/// request timeout.
pub open spec fn timed_out(
    cfg: crate::node::NodeConfig,
    req: InflightRequest,
    sent_at: u64,
    now: u64,
) -> bool {
    ||| (req is Connect && elapsed_secs(sent_at, now) > cfg.connection_timeout_secs)
    ||| elapsed_secs(sent_at, now) > cfg.request_timeout_secs
}

/// `list` holds, once each, the requests of `s` that have timed out at `now`.
pub open spec fn timed_out_list(s: NodeState, now: u64, list: Seq<InflightRequest>) -> bool {
    &&& list.no_duplicates()
    &&& forall|k: InflightRequest|
        #[trigger] list.contains(k) <==> (s.inflight.contains_key(k) && timed_out(
            s.config,
            k,
            s.inflight[k].1,
            now,
        ))
}

/// The requests of `s` that have timed out at `now`.
pub open spec fn timed_out_set(s: NodeState, now: u64) -> Set<InflightRequest> {
    s.inflight.dom().filter(|k: InflightRequest| timed_out(s.config, k, s.inflight[k].1, now))
}

/// At most as many requests time out as the node waits on.
pub proof fn lemma_timed_out_set_len(s: NodeState, now: u64)
    requires
        s.inflight.dom().finite(),
    ensures
        timed_out_set(s, now).finite(),
        timed_out_set(s, now).len() <= s.inflight.dom().len(),
{
    vstd::set_lib::lemma_len_subset(timed_out_set(s, now), s.inflight.dom());
}

/// Whether a timed-out `req` may raise the ban score of `p` when it is handled
/// with the requests in flight `m`: it is no connection attempt, and it waits on
/// `p`, or it asks for a Utreexo state of `p` (asking again for another
/// request may hand such a request to `p`).
pub open spec fn charged_to(p: PeerId, req: InflightRequest, m: Map<InflightRequest, (PeerId, u64)>) -> bool {
    &&& !(req is Connect)
    &&& ((m.contains_key(req) && m[req].0 == p) || req == InflightRequest::UtreexoState(p))
}

/// The requests of `s` timed out at `now` that may raise the ban score of `p`.
pub open spec fn timeout_charges(s: NodeState, now: u64, p: PeerId) -> Set<InflightRequest> {
    timed_out_set(s, now).filter(|k: InflightRequest| charged_to(p, k, s.inflight))
}

/// The requests of `s` that may raise the ban score of `p` once they time out.
pub open spec fn pending_charges(s: NodeState, p: PeerId) -> Set<InflightRequest> {
    s.inflight.dom().filter(|k: InflightRequest| charged_to(p, k, s.inflight))
}

/// Filtering keeps at most the elements a weaker filter keeps.
pub proof fn lemma_filter_len_mono<A>(s: Seq<A>, f: spec_fn(A) -> bool, g: spec_fn(A) -> bool)
    requires
        forall|i: int| 0 <= i < s.len() && #[trigger] f(s[i]) ==> g(s[i]),
    ensures
        s.filter(f).len() <= s.filter(g).len(),
    decreases s.len(),
{
    if s.len() == 0 {
        reveal(Seq::filter);
    } else {
        let d = s.drop_last();
        assert forall|i: int| 0 <= i < d.len() && #[trigger] f(d[i]) implies g(d[i]) by {
            assert(d[i] == s[i]);
        }
        lemma_filter_len_mono(d, f, g);
        assert(d.push(s.last()) =~= s);
        d.lemma_filter_push(s.last(), f);
        d.lemma_filter_push(s.last(), g);
        assert(f(s[s.len() - 1]) ==> g(s[s.len() - 1]));
    }
}

/// Filtering a sequence without repetitions keeps as many elements as
/// filtering the set of its elements.
pub proof fn lemma_filter_unique_len<A>(s: Seq<A>, f: spec_fn(A) -> bool)
    requires
        s.no_duplicates(),
    ensures
        s.to_set().filter(f).finite(),
        s.filter(f).len() == s.to_set().filter(f).len(),
    decreases s.len(),
{
    if s.len() == 0 {
        reveal(Seq::filter);
        assert(s.to_set().filter(f) =~= Set::<A>::empty());
    } else {
        let d = s.drop_last();
        let x = s.last();
        assert(d.no_duplicates()) by {
            assert forall|i: int, j: int| 0 <= i < d.len() && 0 <= j < d.len() && i != j implies d[i]
                != d[j] by {
                assert(d[i] == s[i] && d[j] == s[j]);
            }
        }
        lemma_filter_unique_len(d, f);
        assert(d.push(x) =~= s);
        d.lemma_filter_push(x, f);
        assert(!d.to_set().contains(x)) by {
            if d.contains(x) {
                let i = choose|i: int| 0 <= i < d.len() && d[i] == x;
                assert(s[i] == s[s.len() - 1]);
            }
        }
        if f(x) {
            assert(s.to_set().filter(f) =~= d.to_set().filter(f).insert(x));
        } else {
            assert(s.to_set().filter(f) =~= d.to_set().filter(f));
        }
    }
}

/// One handled timed-out request leaves every remaining peer with no more room
/// for the requests still to be handled than it had before.
pub proof fn lemma_timeout_step_charges(
    sb: NodeState,
    tb: Seq<HostEvent>,
    s1: NodeState,
    t1: Seq<HostEvent>,
    req: InflightRequest,
    now: u64,
    rest: Seq<InflightRequest>,
    p: PeerId,
)
    requires
        timeout_step(sb, tb, s1, t1, None, req, now),
        !rest.contains(req),
        s1.peers.contains_key(p),
    ensures
        sb.peers.contains_key(p),
        s1.peers[p].banscore + rest.filter(|j: InflightRequest| charged_to(p, j, s1.inflight)).len()
            <= sb.peers[p].banscore + (seq![req] + rest).filter(
            |j: InflightRequest| charged_to(p, j, sb.inflight),
        ).len(),
{
    let fb = |j: InflightRequest| charged_to(p, j, sb.inflight);
    let f1 = |j: InflightRequest| charged_to(p, j, s1.inflight);
    rest.lemma_filter_prepend(req, fb);
    if !sb.inflight.contains_key(req) {
        lemma_filter_len_mono(rest, f1, fb);
    } else {
        let peer = sb.inflight[req].0;
        let sa = NodeState { inflight: sb.inflight.remove(req), ..sb };
        if (req is Connect) {
            assert forall|i: int| 0 <= i < rest.len() && #[trigger] f1(rest[i]) implies fb(rest[i]) by {
                assert(rest[i] != req);
            }
            lemma_filter_len_mono(rest, f1, fb);
        } else {
            let (sc, tc, rb) = choose|sc: NodeState, tc: Seq<HostEvent>, rb: Result<(), WireError>|
                #[trigger] banscore_outcome(sa, tb, sc, tc, peer, 1, rb) && match rb {
                    Err(e) => {
                        &&& None::<Result<(), WireError>> == Some(Err::<(), WireError>(e))
                        &&& s1 == sc
                        &&& t1 == tc
                    },
                    Ok(()) => exists|rr: Result<(), WireError>|
                        #[trigger] redo_outcome(sc, tc, s1, t1, rr, req, now) && match rr {
                            Err(e) => None::<Result<(), WireError>> == Some(Err::<(), WireError>(e)),
                            Ok(()) => None::<Result<(), WireError>> is None,
                        },
                };
            let rr = choose|rr: Result<(), WireError>|
                #[trigger] redo_outcome(sc, tc, s1, t1, rr, req, now) && match rr {
                    Err(e) => None::<Result<(), WireError>> == Some(Err::<(), WireError>(e)),
                    Ok(()) => None::<Result<(), WireError>> is None,
                };
            lemma_redo_keys(sc, tc, s1, t1, rr, req, now);
            assert(sc.inflight == sa.inflight);
            assert forall|i: int| 0 <= i < rest.len() && #[trigger] f1(rest[i]) implies fb(rest[i]) by {
                let j = rest[i];
                assert(j != req);
                if s1.inflight.contains_key(j) {
                    assert(only_redone(sc.inflight, s1.inflight, req));
                    assert((sc.inflight.contains_key(j) && s1.inflight[j] == sc.inflight[j]) || j
                        == InflightRequest::UtreexoState(s1.inflight[j].0));
                }
            }
            lemma_filter_len_mono(rest, f1, fb);
        }
    }
}

/// One timed-out request handled, from `s0`/`t0` to `s1`/`t1`. A connection
/// attempt is dropped: the peer is told to shut down (whatever comes of it) and
/// forgotten. Any other request raises its peer's ban score by one and is asked
/// again. `stop` is `None` when the loop goes on, and otherwise what the call
/// returns.
pub open spec fn timeout_step(
    s0: NodeState,
    t0: Seq<HostEvent>,
    s1: NodeState,
    t1: Seq<HostEvent>,
    stop: Option<Result<(), WireError>>,
    req: InflightRequest,
    now: u64,
) -> bool {
    if !s0.inflight.contains_key(req) {
        &&& s1 == s0
        &&& t1 == t0
        &&& stop is None
    } else {
        let peer = s0.inflight[req].0;
        let sa = NodeState { inflight: s0.inflight.remove(req), ..s0 };
        if (req is Connect) {
            &&& stop is None
            &&& s1 == (NodeState { peers: sa.peers.remove(peer), ..sa })
            &&& exists|sent: Result<(), WireError>|
                t1 == #[trigger] sent_to_peer(sa, t0, peer, RequestView::Shutdown, sent)
        } else {
            exists|sb: NodeState, tb: Seq<HostEvent>, rb: Result<(), WireError>|
                #[trigger] banscore_outcome(sa, t0, sb, tb, peer, 1, rb) && match rb {
                    Err(e) => {
                        &&& stop == Some(Err::<(), WireError>(e))
                        &&& s1 == sb
                        &&& t1 == tb
                    },
                    Ok(()) => exists|rr: Result<(), WireError>|
                        #[trigger] redo_outcome(sb, tb, s1, t1, rr, req, now) && match rr {
                            Err(e) => stop == Some(Err::<(), WireError>(e)),
                            Ok(()) => stop is None,
                        },
                }
        }
    }
}

/// `states` and `traces` go through a `timeout_step` that goes on for each of `reqs`.
pub open spec fn timeout_chain(
    states: Seq<NodeState>,
    traces: Seq<Seq<HostEvent>>,
    reqs: Seq<InflightRequest>,
    now: u64,
) -> bool {
    &&& states.len() == reqs.len() + 1
    &&& traces.len() == reqs.len() + 1
    &&& forall|j: int|
        0 <= j < reqs.len() ==> #[trigger] timeout_step(
            states[j],
            traces[j],
            states[j + 1],
            traces[j + 1],
            None,
            reqs[j],
            now,
        )
}

/// What `check_for_timeout` did: the requests timed out at `now` were handled one
/// after the other, until one failed.
pub open spec fn timeouts_handled(
    s0: NodeState,
    t0: Seq<HostEvent>,
    s1: NodeState,
    t1: Seq<HostEvent>,
    r: Result<(), WireError>,
    now: u64,
) -> bool {
    exists|
        reqs: Seq<InflightRequest>,
        k: int,
        states: Seq<NodeState>,
        traces: Seq<Seq<HostEvent>>,
    |
        {
            &&& timed_out_list(s0, now, reqs)
            &&& 0 <= k <= reqs.len()
            &&& #[trigger] timeout_chain(states, traces, reqs.take(k), now)
            &&& states[0] == s0
            &&& traces[0] == t0
            &&& if k == reqs.len() {
                &&& s1 == states.last()
                &&& t1 == traces.last()
                &&& r is Ok
            } else {
                &&& timeout_step(states.last(), traces.last(), s1, t1, Some(r), reqs[k], now)
                &&& r is Err
            }
        }
}

/// The ids of `v` other than `id`, in order.
pub fn drop_id(v: &Vec<PeerId>, id: PeerId) -> (w: Vec<PeerId>)
    ensures
        w@ == v@.filter(not_id(id)),
{
    let mut w: Vec<PeerId> = Vec::new();
    let mut i: usize = 0;
    while i < v.len()
        invariant
            i <= v@.len(),
            w@ == v@.take(i as int).filter(not_id(id)),
        decreases v@.len() - i,
    {
        proof {
            reveal(Seq::filter);
            assert(v@.take(i + 1).drop_last() =~= v@.take(i as int));
        }
        if v[i] != id {
            w.push(v[i]);
        }
        i = i + 1;
    }
    assert(v@.take(i as int) =~= v@);
    w
}

impl<H: NodeHost> UtreexoNode<H> {
    /// Asks again for what `req` asked, of a fast peer offering the service it
    /// needs, and waits on it from that peer since `now`. A proof is not asked
    /// again without Utreexo peers, for a block no longer held, or when it is
    /// already waited on; filters are not asked again without a peer serving them;
    /// a connection attempt is not retried.
    pub fn redo_inflight_request_at(&mut self, req: InflightRequest, now: u64) -> (r: Result<
        (),
        WireError,
    >)
        requires
            old(self).wf(),
        ensures
            final(self).wf(),
            redo_outcome(old(self)@, old(self).trace(), final(self)@, final(self).trace(), r, req, now),
            final(self)@ == (NodeState { inflight: final(self)@.inflight, ..old(self)@ }),
            fresh_entries(old(self)@.inflight, final(self)@.inflight, old(self)@.peers, now),
    {
        let ghost s0 = self@;
        let ghost t0 = self.trace();
        match req {
            InflightRequest::UtreexoProof(h) => {
                if !self.has_utreexo_peers() {
                    return Ok(());
                }
                if !self.blocks.contains_key(&h) {
                    return Ok(());
                }
                if self.inflight.contains_key(&InflightRequest::UtreexoProof(h)) {
                    return Ok(());
                }
                let sent = self.send_to_fast_peer(NodeRequest::GetBlockProof(h), ServiceFlags::utreexo());
                let ghost key = |p: PeerId| InflightRequest::UtreexoProof(h);
                self.finish_resend(sent, InflightRequest::UtreexoProof(h), now, Ghost(s0), Ghost(t0), Ghost(key))
            },
            InflightRequest::Blocks(h) => {
                let mut v: Vec<BlockHash> = Vec::new();
                v.push(h);
                assert(v@ == seq![h]);
                let r = self.request_blocks_at(v, now);
                proof {
                    let wanted = to_request(s0, seq![h]);
                    if wanted.len() > 0 {
                        let rr = choose|rr: Result<PeerId, WireError>|
                            #[trigger] fast_send_outcome(
                                t0,
                                self.trace(),
                                s0.peers,
                                ServiceFlags(crate::types::NODE_NETWORK),
                                RequestView::GetBlock(wanted),
                                rr,
                            ) && match rr {
                                Ok(p) => {
                                    &&& r is Ok
                                    &&& self@ == (NodeState {
                                        inflight: with_block_requests(s0.inflight, wanted, p, now),
                                        ..s0
                                    })
                                },
                                Err(e) => {
                                    &&& r == Err::<(), WireError>(e)
                                    &&& self@ == s0
                                },
                            };
                        if rr is Ok {
                            lemma_fast_send_ok(
                                t0,
                                self.trace(),
                                s0.peers,
                                ServiceFlags(crate::types::NODE_NETWORK),
                                RequestView::GetBlock(wanted),
                                rr,
                            );
                            lemma_with_block_requests(s0.inflight, wanted, rr->Ok_0, now);
                        }
                    }
                }
                r
            },
            InflightRequest::Headers => {
                let sent = self.send_to_fast_peer(NodeRequest::GetHeaders(Vec::new()), ServiceFlags::utreexo());
                let ghost key = |p: PeerId| InflightRequest::Headers;
                self.finish_resend(sent, InflightRequest::Headers, now, Ghost(s0), Ghost(t0), Ghost(key))
            },
            InflightRequest::UtreexoState(_) => {
                let genesis = self.host.genesis_hash();
                let ghost ta = self.trace();
                let sent = self.send_to_fast_peer(
                    NodeRequest::GetUtreexoState(genesis, 0),
                    ServiceFlags::utreexo(),
                );
                let key_now = match sent {
                    Ok(p) => InflightRequest::UtreexoState(p),
                    Err(_) => InflightRequest::Headers,
                };
                let ghost key = |p: PeerId| InflightRequest::UtreexoState(p);
                let r = self.finish_resend(sent, key_now, now, Ghost(s0), Ghost(ta), Ghost(key));
                proof {
                    assert(self.trace().subrange(0, ta.len() as int)[t0.len() as int] == ta[t0.len() as int]);
                    assert(self.trace()[t0.len() as int] == HostEvent::GenesisHash(genesis));
                    assert(t0.push(self.trace()[t0.len() as int]) == ta);
                }
                r
            },
            InflightRequest::GetFilters => {
                if !self.has_compact_filters_peer() {
                    return Ok(());
                }
                let genesis = self.host.genesis_hash();
                let ghost ta = self.trace();
                let sent = self.send_to_fast_peer(
                    NodeRequest::GetFilter(genesis, 0),
                    ServiceFlags::compact_filters(),
                );
                let ghost key = |p: PeerId| InflightRequest::GetFilters;
                let r = self.finish_resend(sent, InflightRequest::GetFilters, now, Ghost(s0), Ghost(ta), Ghost(key));
                proof {
                    assert(self.trace().subrange(0, ta.len() as int)[t0.len() as int] == ta[t0.len() as int]);
                    assert(self.trace()[t0.len() as int] == HostEvent::GenesisHash(genesis));
                    assert(t0.push(self.trace()[t0.len() as int]) == ta);
                }
                r
            },
            InflightRequest::Connect(_) => Ok(()),
        }
    }

    /// After a request was handed to a fast peer (`sent`), waits on `key` from that
    /// peer since `now`.
    fn finish_resend(
        &mut self,
        sent: Result<PeerId, WireError>,
        key: InflightRequest,
        now: u64,
        Ghost(s0): Ghost<NodeState>,
        Ghost(t0): Ghost<Seq<HostEvent>>,
        Ghost(key_of): Ghost<spec_fn(PeerId) -> InflightRequest>,
    ) -> (r: Result<(), WireError>)
        requires
            old(self).wf(),
            old(self)@ == s0,
            exists|service: ServiceFlags, rv: RequestView|
                #[trigger] fast_send_outcome(t0, old(self).trace(), s0.peers, service, rv, sent),
            sent matches Ok(p) ==> key == key_of(p),
        ensures
            final(self).wf(),
            final(self).trace() == old(self).trace(),
            match sent {
                Ok(p) => {
                    &&& r is Ok
                    &&& final(self)@ == (NodeState {
                        inflight: s0.inflight.insert(key_of(p), (p, now)),
                        ..s0
                    })
                    &&& s0.peers.contains_key(p)
                },
                Err(e) => {
                    &&& r == Err::<(), WireError>(e)
                    &&& final(self)@ == s0
                },
            },
    {
        proof {
            let (service, rv) = choose|service: ServiceFlags, rv: RequestView|
                #[trigger] fast_send_outcome(t0, old(self).trace(), s0.peers, service, rv, sent);
            if sent is Ok {
                lemma_fast_send_ok(t0, old(self).trace(), s0.peers, service, rv, sent);
            }
        }
        match sent {
            Ok(p) => {
                self.inflight.insert(key, (p, now));
                Ok(())
            },
            Err(e) => Err(e),
        }
    }

    /// Drops `peer` from every list of the service index.
    fn drop_from_services(&mut self, peer: PeerId)
        requires
            old(self).wf(),
        ensures
            final(self).wf(),
            final(self)@ == (NodeState {
                peer_by_service: drop_from_lists(old(self)@.peer_by_service, peer),
                ..old(self)@
            }),
            final(self).trace() == old(self).trace(),
    {
        let ghost e0 = self.peer_by_service.entries();
        let mut i: usize = 0;
        while i < self.peer_by_service.len()
            invariant
                self.wf(),
                self.same_bookkeeping_but_services(*old(self)),
                self.trace() == old(self).trace(),
                e0 == old(self).peer_by_service.entries(),
                i <= e0.len(),
                self.peer_by_service.entries().len() == e0.len(),
                forall|j: int|
                    0 <= j < e0.len() ==> (#[trigger] self.peer_by_service.entries()[j]).0 == e0[j].0,
                forall|j: int|
                    0 <= j < i ==> (#[trigger] self.peer_by_service.entries()[j]).1@ == e0[j].1@.filter(
                        not_id(peer),
                    ),
                forall|j: int|
                    i <= j < e0.len() ==> (#[trigger] self.peer_by_service.entries()[j]).1@ == e0[j].1@,
            decreases e0.len() - i,
        {
            let ghost before = self.peer_by_service.entries();
            let (k, list) = self.peer_by_service.remove_at(i);
            let filtered = drop_id(&list, peer);
            proof {
                assert(!self.peer_by_service@.contains_key(k)) by {
                    if self.peer_by_service@.contains_key(k) {
                        let j = choose|j: int| crate::vec_map::key_at(self.peer_by_service.entries(), k, j);
                        let j0 = if j < i { j } else { j + 1 };
                        assert(before[j0].0 == k);
                    }
                }
            }
            self.peer_by_service.insert_at(i, (k, filtered));
            proof {
                assert(self.peer_by_service.entries() =~= before.update(i as int, (k, filtered)));
            }
            i = i + 1;
        }
        proof {
            let e1 = self.peer_by_service.entries();
            let m0 = old(self).peer_by_service@;
            let m1 = self.peer_by_service@;
            assert forall|key: ServiceFlags| m1.contains_key(key) <==> m0.contains_key(key) by {
                if m1.contains_key(key) {
                    let j = choose|j: int| crate::vec_map::key_at(e1, key, j);
                    assert(crate::vec_map::key_at(e0, key, j));
                }
                if m0.contains_key(key) {
                    let j = choose|j: int| crate::vec_map::key_at(e0, key, j);
                    assert(crate::vec_map::key_at(e1, key, j));
                }
            }
            assert forall|key: ServiceFlags| #[trigger] m1.contains_key(key) implies m1[key]@ == m0[key]@.filter(not_id(peer)) by {
                let j = choose|j: int| crate::vec_map::key_at(e1, key, j);
                crate::vec_map::lemma_entries_map_at(e1, j);
                crate::vec_map::lemma_entries_map_at(e0, j);
            }
            assert(self@.peer_by_service =~= drop_from_lists(old(self)@.peer_by_service, peer));
        }
    }

    /// Everything but the service index and the trace is as in `other`.
    pub open spec fn same_bookkeeping_but_services(self, other: Self) -> bool {
        &&& self.config == other.config
        &&& self.peers == other.peers
        &&& self.peer_ids == other.peer_ids
        &&& self.inflight == other.inflight
        &&& self.blocks == other.blocks
        &&& self.added_peers == other.added_peers
        &&& self.peer_id_count == other.peer_id_count
        &&& self.last_feeler == other.last_feeler
        &&& self.last_connection == other.last_connection
        &&& self.last_dns_seed_call == other.last_dns_seed_call
        &&& self.startup_time == other.startup_time
        &&& self.last_tip_update == other.last_tip_update
        &&& self.last_block_request == other.last_block_request
    }

    /// The requests waited on from `peer`, in the order the map holds them.
    fn requests_of(&self, peer: PeerId) -> (reqs: Vec<InflightRequest>)
        requires
            self.wf(),
        ensures
            assigned_to(self@, peer, reqs@),
    {
        let ghost s = self@;
        let ghost es = self.inflight.entries();
        let mut reqs: Vec<InflightRequest> = Vec::new();
        let mut i: usize = 0;
        while i < self.inflight.len()
            invariant
                self.wf(),
                s == self@,
                es == self.inflight.entries(),
                i <= es.len(),
                reqs@.no_duplicates(),
                forall|k: InflightRequest|
                    #[trigger] reqs@.contains(k) <==> (s.inflight.contains_key(k) && s.inflight[k].0
                        == peer && exists|j: int| 0 <= j < i && crate::vec_map::key_at(es, k, j)),
            decreases es.len() - i,
        {
            let e = self.inflight.entry_at(i);
            let k = e.0;
            proof {
                crate::vec_map::lemma_entries_map_at(es, i as int);
                assert forall|j: int| 0 <= j < i implies !crate::vec_map::key_at(es, k, j) by {}
                assert(!reqs@.contains(k));
            }
            let ghost before = reqs@;
            if e.1.0 == peer {
                reqs.push(k);
                proof {
                    assert forall|a: int, b: int|
                        0 <= a < reqs@.len() && 0 <= b < reqs@.len() && a != b implies reqs@[a]
                        != reqs@[b] by {
                        if a < before.len() && b < before.len() {
                        } else if a < before.len() {
                            assert(before.contains(reqs@[a]));
                        } else {
                            assert(before.contains(reqs@[b]));
                        }
                    }
                }
            }
            proof {
                assert forall|g: InflightRequest|
                    #[trigger] reqs@.contains(g) <==> (s.inflight.contains_key(g) && s.inflight[g].0
                        == peer && exists|j: int| 0 <= j < i + 1 && crate::vec_map::key_at(es, g, j)) by {
                    if g == k {
                        assert(crate::vec_map::key_at(es, g, i as int));
                        if reqs@ != before {
                            assert(reqs@[before.len() as int] == g);
                        }
                    } else {
                        if reqs@ != before {
                            assert(reqs@ == before.push(k));
                            if reqs@.contains(g) {
                                let a = choose|a: int| 0 <= a < reqs@.len() && reqs@[a] == g;
                                assert(before[a] == g);
                            }
                            if before.contains(g) {
                                let a = choose|a: int| 0 <= a < before.len() && before[a] == g;
                                assert(reqs@[a] == g);
                            }
                        }
                        if exists|j: int| 0 <= j < i + 1 && crate::vec_map::key_at(es, g, j) {
                            let j = choose|j: int| 0 <= j < i + 1 && crate::vec_map::key_at(es, g, j);
                            assert(j < i);
                        }
                    }
                }
            }
            i = i + 1;
        }
        proof {
            assert forall|k: InflightRequest|
                #[trigger] reqs@.contains(k) <==> (s.inflight.contains_key(k) && s.inflight[k].0 == peer) by {
                if s.inflight.contains_key(k) {
                    let j = choose|j: int| crate::vec_map::key_at(es, k, j);
                    assert(crate::vec_map::key_at(es, k, j));
                }
            }
        }
        reqs
    }

    /// Forgets the peer `peer` once its connection closed: its address (id `idx`)
    /// is recorded as tried, failed or banned by how far the peer got, it leaves
    /// every list of peers, and each request waited on from it is asked again of
    /// another peer. `now` is the monotonic clock in nanoseconds, `unix_now` the
    /// UNIX time in seconds.
    pub fn handle_disconnection_at(&mut self, peer: u32, idx: usize, now: u64, unix_now: u64) -> (r:
        Result<(), WireError>)
        requires
            old(self).wf(),
        ensures
            final(self).wf(),
            disconnected(
                old(self)@,
                old(self).trace(),
                final(self)@,
                final(self).trace(),
                r,
                peer,
                idx,
                now,
                unix_now,
            ),
            !final(self)@.peers.contains_key(peer),
            !final(self)@.peer_ids.contains(peer),
            forall|service: ServiceFlags| !(#[trigger] final(self)@.service_peers(service)).contains(peer),
            r is Ok ==> forall|req: InflightRequest|
                #[trigger] final(self)@.inflight.contains_key(req) ==> final(self)@.inflight[req].0 != peer,
    {
        let ghost s0 = self@;
        let ghost t0 = self.trace();
        match self.peers.remove(&peer) {
            Some(p) => {
                let state = match p.state {
                    crate::types::PeerStatus::Ready => crate::types::AddressState::Tried(unix_now),
                    crate::types::PeerStatus::Awaiting => crate::types::AddressState::Failed(unix_now),
                    crate::types::PeerStatus::Banned => crate::types::AddressState::Banned(
                        self.config.disconnect_ban_time,
                    ),
                };
                self.set_address_state(idx, state);
            },
            None => {},
        }
        self.peer_ids = drop_id(&self.peer_ids, peer);
        self.drop_from_services(peer);
        let ghost sa = self@;
        let ghost ta = self.trace();
        proof {
            assert(sa == without_peer(s0, peer));
            assert(ta == disconnect_trace(s0, t0, peer, idx, unix_now));
            broadcast use vstd::seq_lib::group_filter_ensures;
            assert forall|service: ServiceFlags| !(#[trigger] sa.service_peers(service)).contains(peer) by {
                if sa.peer_by_service.contains_key(service) {
                    let l = s0.peer_by_service[service];
                    assert(sa.service_peers(service) == l.filter(not_id(peer)));
                    if l.filter(not_id(peer)).contains(peer) {
                        let j = choose|j: int| 0 <= j < l.filter(not_id(peer)).len() && l.filter(not_id(peer))[j] == peer;
                        assert(not_id(peer)(l.filter(not_id(peer))[j]));
                    }
                }
            }
            if sa.peer_ids.contains(peer) {
                let j = choose|j: int| 0 <= j < sa.peer_ids.len() && sa.peer_ids[j] == peer;
                assert(not_id(peer)(s0.peer_ids.filter(not_id(peer))[j]));
            }
        }
        let reqs = self.requests_of(peer);
        assert(reqs@.skip(0) =~= reqs@);
        let ghost mut states: Seq<NodeState> = seq![sa];
        let ghost mut traces: Seq<Seq<HostEvent>> = seq![ta];
        let mut k: usize = 0;
        while k < reqs.len()
            invariant
                self.wf(),
                assigned_to(sa, peer, reqs@),
                k <= reqs@.len(),
                redo_chain(states, traces, reqs@.take(k as int), now),
                states[0] == sa,
                traces[0] == ta,
                states.last() == self@,
                traces.last() == self.trace(),
                self@ == (NodeState { inflight: self@.inflight, ..sa }),
                sa == without_peer(s0, peer),
                ta == disconnect_trace(s0, t0, peer, idx, unix_now),
                s0 == old(self)@,
                t0 == old(self).trace(),
                !sa.peers.contains_key(peer),
                !sa.peer_ids.contains(peer),
                forall|service: ServiceFlags| !(#[trigger] sa.service_peers(service)).contains(peer),
                forall|req: InflightRequest|
                    #[trigger] self@.inflight.contains_key(req) && self@.inflight[req].0 == peer
                        ==> reqs@.skip(k as int).contains(req),
            decreases reqs@.len() - k,
        {
            let req = reqs[k];
            let ghost sb = self@;
            let ghost tb = self.trace();
            let _ = self.inflight.remove(&req);
            let ghost sc = self@;
            let redone = self.redo_inflight_request_at(req, now);
            proof {
                assert(redo_step(sb, tb, self@, self.trace(), redone, req, now));
                assert forall|g: InflightRequest|
                    #[trigger] self@.inflight.contains_key(g) && self@.inflight[g].0 == peer implies reqs@.skip(k + 1).contains(g) by {
                    assert(sc.inflight.contains_key(g) && self@.inflight[g] == sc.inflight[g]);
                    assert(sb.inflight.contains_key(g) && g != req);
                    assert(reqs@.skip(k as int).contains(g));
                    let a = choose|a: int| 0 <= a < reqs@.skip(k as int).len() && reqs@.skip(k as int)[a] == g;
                    assert(a != 0);
                    assert(reqs@.skip(k + 1)[a - 1] == g);
                }
            }
            match redone {
                Err(e) => {
                    proof {
                        assert(redo_chain(states, traces, reqs@.take(k as int), now));
                        assert(self@.service_peers(ServiceFlags(0)) == sa.service_peers(ServiceFlags(0)));
                        assert(disconnected(s0, t0, self@, self.trace(), Err(e), peer, idx, now, unix_now));
                    }
                    return Err(e);
                },
                Ok(()) => {},
            }
            proof {
                let ghost old_states = states;
                let ghost old_traces = traces;
                states = states.push(self@);
                traces = traces.push(self.trace());
                let l = reqs@.take(k + 1);
                assert(l.drop_last() =~= reqs@.take(k as int));
                assert forall|j: int| 0 <= j < l.len() implies #[trigger] redo_step(
                    states[j],
                    traces[j],
                    states[j + 1],
                    traces[j + 1],
                    Ok(()),
                    l[j],
                    now,
                ) by {
                    if j < k {
                        assert(redo_step(old_states[j], old_traces[j], old_states[j + 1], old_traces[j + 1], Ok(()), reqs@.take(k as int)[j], now));
                    }
                }
            }
            k = k + 1;
        }
        proof {
            assert(reqs@.take(k as int) =~= reqs@);
            assert forall|req: InflightRequest|
                #[trigger] self@.inflight.contains_key(req) implies self@.inflight[req].0 != peer by {
                if self@.inflight[req].0 == peer {
                    assert(reqs@.skip(k as int).contains(req));
                }
            }
        }
        Ok(())
    }

    /// Whether the request `req`, asked at `sent_at`, has timed out at `now`.
    pub fn is_timed_out(&self, req: InflightRequest, sent_at: u64, now: u64) -> (b: bool)
        ensures
            b == timed_out(self.config, req, sent_at, now),
    {
        let elapsed = if now >= sent_at {
            (now - sent_at) / 1_000_000_000
        } else {
            0
        };
        let is_connect = match req {
            InflightRequest::Connect(_) => true,
            _ => false,
        };
        (is_connect && elapsed > self.config.connection_timeout_secs) || elapsed
            > self.config.request_timeout_secs
    }

    /// The requests that have timed out at `now`, in the order the map holds them.
    fn timed_out_requests(&self, now: u64) -> (reqs: Vec<InflightRequest>)
        requires
            self.wf(),
        ensures
            timed_out_list(self@, now, reqs@),
    {
        let ghost s = self@;
        let ghost es = self.inflight.entries();
        let mut reqs: Vec<InflightRequest> = Vec::new();
        let mut i: usize = 0;
        while i < self.inflight.len()
            invariant
                self.wf(),
                s == self@,
                es == self.inflight.entries(),
                i <= es.len(),
                reqs@.no_duplicates(),
                forall|k: InflightRequest|
                    #[trigger] reqs@.contains(k) <==> (s.inflight.contains_key(k) && timed_out(
                        s.config,
                        k,
                        s.inflight[k].1,
                        now,
                    ) && exists|j: int| 0 <= j < i && crate::vec_map::key_at(es, k, j)),
            decreases es.len() - i,
        {
            let e = self.inflight.entry_at(i);
            let k = e.0;
            proof {
                crate::vec_map::lemma_entries_map_at(es, i as int);
                assert forall|j: int| 0 <= j < i implies !crate::vec_map::key_at(es, k, j) by {}
                assert(!reqs@.contains(k));
            }
            let ghost before = reqs@;
            if self.is_timed_out(k, e.1.1, now) {
                reqs.push(k);
                proof {
                    assert forall|a: int, b: int|
                        0 <= a < reqs@.len() && 0 <= b < reqs@.len() && a != b implies reqs@[a]
                        != reqs@[b] by {
                        if a < before.len() && b < before.len() {
                        } else if a < before.len() {
                            assert(before.contains(reqs@[a]));
                        } else {
                            assert(before.contains(reqs@[b]));
                        }
                    }
                }
            }
            proof {
                assert forall|g: InflightRequest|
                    #[trigger] reqs@.contains(g) <==> (s.inflight.contains_key(g) && timed_out(
                        s.config,
                        g,
                        s.inflight[g].1,
                        now,
                    ) && exists|j: int| 0 <= j < i + 1 && crate::vec_map::key_at(es, g, j)) by {
                    if g == k {
                        assert(crate::vec_map::key_at(es, g, i as int));
                        if reqs@ != before {
                            assert(reqs@[before.len() as int] == g);
                        }
                    } else {
                        if reqs@ != before {
                            assert(reqs@ == before.push(k));
                            if reqs@.contains(g) {
                                let a = choose|a: int| 0 <= a < reqs@.len() && reqs@[a] == g;
                                assert(before[a] == g);
                            }
                            if before.contains(g) {
                                let a = choose|a: int| 0 <= a < before.len() && before[a] == g;
                                assert(reqs@[a] == g);
                            }
                        }
                        if exists|j: int| 0 <= j < i + 1 && crate::vec_map::key_at(es, g, j) {
                            let j = choose|j: int| 0 <= j < i + 1 && crate::vec_map::key_at(es, g, j);
                            assert(j < i);
                        }
                    }
                }
            }
            i = i + 1;
        }
        proof {
            assert forall|k: InflightRequest|
                #[trigger] reqs@.contains(k) <==> (s.inflight.contains_key(k) && timed_out(
                    s.config,
                    k,
                    s.inflight[k].1,
                    now,
                )) by {
                if s.inflight.contains_key(k) {
                    let j = choose|j: int| crate::vec_map::key_at(es, k, j);
                    assert(crate::vec_map::key_at(es, k, j));
                }
            }
        }
        reqs
    }

    /// Checks whether some of our inflight requests have timed out at `now`
    /// (monotonic nanoseconds).
    ///
    /// A timed-out connection attempt is dropped: the peer is told to shut down
    /// and forgotten. Any other timed-out request is no longer waited on, raises
    /// the ban score of the peer that was asked by one, and is asked again.
    ///
    /// Each timed-out request other than a connection attempt raises the ban
    /// score of the peer it waits on by one, so every peer's ban score must leave
    /// room for the timed-out requests charged to it.
    pub fn check_for_timeout_at(&mut self, now: u64) -> (r: Result<(), WireError>)
        requires
            old(self).wf(),
            forall|p: PeerId|
                #[trigger] old(self)@.peers.contains_key(p) ==> old(self)@.peers[p].banscore
                    + timeout_charges(old(self)@, now, p).len() <= u32::MAX,
        ensures
            final(self).wf(),
            timeouts_handled(old(self)@, old(self).trace(), final(self)@, final(self).trace(), r, now),
            r is Ok ==> forall|req: InflightRequest|
                #[trigger] final(self)@.inflight.contains_key(req) ==> !timed_out(
                    final(self)@.config,
                    req,
                    final(self)@.inflight[req].1,
                    now,
                ),
    {
        let ghost s0 = self@;
        let ghost t0 = self.trace();
        let list = self.timed_out_requests(now);
        proof {
            crate::vec_map::lemma_entries_map_len(self.inflight.entries());
            assert(list@.to_set() =~= timed_out_set(s0, now));
            assert(list@.skip(0) =~= list@);
            assert forall|p: PeerId| #[trigger] s0.peers.contains_key(p) implies s0.peers[p].banscore
                + list@.skip(0).filter(|j: InflightRequest| charged_to(p, j, s0.inflight)).len()
                <= u32::MAX by {
                lemma_filter_unique_len(list@, |j: InflightRequest| charged_to(p, j, s0.inflight));
                assert(list@.to_set().filter(|j: InflightRequest| charged_to(p, j, s0.inflight))
                    =~= timeout_charges(s0, now, p));
            }
        }
        let ghost mut states: Seq<NodeState> = seq![s0];
        let ghost mut traces: Seq<Seq<HostEvent>> = seq![t0];
        let mut k: usize = 0;
        while k < list.len()
            invariant
                self.wf(),
                s0 == old(self)@,
                t0 == old(self).trace(),
                timed_out_list(s0, now, list@),
                k <= list@.len(),
                timeout_chain(states, traces, list@.take(k as int), now),
                states[0] == s0,
                traces[0] == t0,
                states.last() == self@,
                traces.last() == self.trace(),
                self@.config == s0.config,
                forall|p: PeerId|
                    #[trigger] self@.peers.contains_key(p) ==> self@.peers[p].banscore + list@.skip(
                        k as int,
                    ).filter(|j: InflightRequest| charged_to(p, j, self@.inflight)).len() <= u32::MAX,
                forall|req: InflightRequest|
                    #[trigger] self@.inflight.contains_key(req) && timed_out(
                        s0.config,
                        req,
                        self@.inflight[req].1,
                        now,
                    ) ==> list@.skip(k as int).contains(req),
            decreases list@.len() - k,
        {
            let req = list[k];
            let ghost sb = self@;
            let ghost tb = self.trace();
            let mut stop: Option<Result<(), WireError>> = None;
            match self.inflight.remove(&req) {
                None => {
                    assert(timeout_step(sb, tb, self@, self.trace(), None, req, now));
                },
                Some(entry) => {
                    let peer = entry.0;
                    let ghost sa = self@;
                    match req {
                        InflightRequest::Connect(_) => {
                            let sent = self.send_to_peer(peer, NodeRequest::Shutdown);
                            let _ = self.peers.remove(&peer);
                            assert(self.trace() == sent_to_peer(sa, tb, peer, RequestView::Shutdown, sent));
                            assert(timeout_step(sb, tb, self@, self.trace(), None, req, now));
                        },
                        _ => {
                            proof {
                                assert(list@.skip(k as int) =~= seq![req] + list@.skip(k + 1));
                                list@.skip(k + 1).lemma_filter_prepend(
                                    req,
                                    |j: InflightRequest| charged_to(peer, j, sb.inflight),
                                );
                                assert(charged_to(peer, req, sb.inflight));
                            }
                            let rb = self.increase_banscore(peer, 1);
                            let ghost sc = self@;
                            let ghost tc = self.trace();
                            assert(banscore_outcome(sa, tb, sc, tc, peer, 1, rb));
                            match rb {
                                Err(e) => {
                                    stop = Some(Err(e));
                                    assert(timeout_step(sb, tb, self@, self.trace(), stop, req, now));
                                },
                                Ok(()) => {
                                    let rr = self.redo_inflight_request_at(req, now);
                                    assert(redo_outcome(sc, tc, self@, self.trace(), rr, req, now));
                                    match rr {
                                        Err(e) => {
                                            stop = Some(Err(e));
                                        },
                                        Ok(()) => {},
                                    }
                                    assert(timeout_step(sb, tb, self@, self.trace(), stop, req, now));
                                    proof {
                                        assert forall|g: InflightRequest|
                                            #[trigger] self@.inflight.contains_key(g) && timed_out(
                                                s0.config,
                                                g,
                                                self@.inflight[g].1,
                                                now,
                                            ) implies sc.inflight.contains_key(g)
                                            && self@.inflight[g] == sc.inflight[g] by {}
                                    }
                                },
                            }
                        },
                    }
                },
            }
            proof {
                assert forall|g: InflightRequest|
                    #[trigger] self@.inflight.contains_key(g) && timed_out(
                        s0.config,
                        g,
                        self@.inflight[g].1,
                        now,
                    ) implies list@.skip(k + 1).contains(g) by {
                    assert(sb.inflight.contains_key(g) && sb.inflight[g] == self@.inflight[g] && g != req);
                    assert(list@.skip(k as int).contains(g));
                    let a = choose|a: int| 0 <= a < list@.skip(k as int).len() && list@.skip(k as int)[a] == g;
                    assert(a != 0);
                    assert(list@.skip(k + 1)[a - 1] == g);
                }
            }
            match stop {
                Some(r) => {
                    proof {
                        assert(timeout_chain(states, traces, list@.take(k as int), now));
                        assert(timeouts_handled(s0, t0, self@, self.trace(), r, now));
                    }
                    return r;
                },
                None => {},
            }
            proof {
                assert(!list@.skip(k + 1).contains(req)) by {
                    if list@.skip(k + 1).contains(req) {
                        let a = choose|a: int| 0 <= a < list@.skip(k + 1).len() && #[trigger] list@.skip(k + 1)[a] == req;
                        assert(list@[k + 1 + a] == list@[k as int]);
                    }
                }
                assert(list@.skip(k as int) =~= seq![req] + list@.skip(k + 1));
                assert forall|p: PeerId| #[trigger] self@.peers.contains_key(p) implies self@.peers[p].banscore
                    + list@.skip(k + 1).filter(|j: InflightRequest| charged_to(p, j, self@.inflight)).len()
                    <= u32::MAX by {
                    lemma_timeout_step_charges(sb, tb, self@, self.trace(), req, now, list@.skip(k + 1), p);
                }
                let ghost old_states = states;
                let ghost old_traces = traces;
                states = states.push(self@);
                traces = traces.push(self.trace());
                let l = list@.take(k + 1);
                assert(l.drop_last() =~= list@.take(k as int));
                assert forall|j: int| 0 <= j < l.len() implies #[trigger] timeout_step(
                    states[j],
                    traces[j],
                    states[j + 1],
                    traces[j + 1],
                    None,
                    l[j],
                    now,
                ) by {
                    if j < k {
                        assert(timeout_step(old_states[j], old_traces[j], old_states[j + 1], old_traces[j + 1], None, list@.take(k as int)[j], now));
                    }
                }
            }
            k = k + 1;
        }
        proof {
            assert(list@.take(k as int) =~= list@);
            assert forall|req: InflightRequest|
                #[trigger] self@.inflight.contains_key(req) implies !timed_out(
                    self@.config,
                    req,
                    self@.inflight[req].1,
                    now,
                ) by {
                if timed_out(s0.config, req, self@.inflight[req].1, now) {
                    assert(list@.skip(k as int).contains(req));
                }
            }
        }
        Ok(())
    }
}

impl<H: NodeHost> UtreexoNode<H> {
    /// Asks again for what `req` asked, as `redo_inflight_request_at` does at the
    /// time the clock reads.
    pub fn redo_inflight_request(&mut self, req: InflightRequest) -> (r: Result<(), WireError>)
        requires
            old(self).wf(),
        ensures
            final(self).wf(),
            final(self)@ == (NodeState { inflight: final(self)@.inflight, ..old(self)@ }),
            exists|now: u64|
                #[trigger] redo_outcome(
                    old(self)@,
                    old(self).trace().push(HostEvent::Clock(now)),
                    final(self)@,
                    final(self).trace(),
                    r,
                    req,
                    now,
                ) && fresh_entries(old(self)@.inflight, final(self)@.inflight, old(self)@.peers, now),
    {
        let now = self.read_clock();
        assert(self@ == old(self)@);
        let r = self.redo_inflight_request_at(req, now);
        assert(redo_outcome(old(self)@, old(self).trace().push(HostEvent::Clock(now)), self@, self.trace(), r, req, now));
        r
    }

    /// Forgets the peer `peer` once its connection closed (its address has id
    /// `idx`), as `handle_disconnection_at` does at the times the clocks read.
    pub fn handle_disconnection(&mut self, peer: u32, idx: usize) -> (r: Result<(), WireError>)
        requires
            old(self).wf(),
        ensures
            final(self).wf(),
            exists|now: u64, unix_now: u64|
                #[trigger] disconnected(
                    old(self)@,
                    old(self).trace().push(HostEvent::Clock(now)).push(HostEvent::UnixClock(unix_now)),
                    final(self)@,
                    final(self).trace(),
                    r,
                    peer,
                    idx,
                    now,
                    unix_now,
                ),
            !final(self)@.peers.contains_key(peer),
            !final(self)@.peer_ids.contains(peer),
            forall|service: ServiceFlags| !(#[trigger] final(self)@.service_peers(service)).contains(peer),
            r is Ok ==> forall|req: InflightRequest|
                #[trigger] final(self)@.inflight.contains_key(req) ==> final(self)@.inflight[req].0 != peer,
    {
        let now = self.read_clock();
        let unix_now = self.read_unix_clock();
        assert(self@ == old(self)@);
        let r = self.handle_disconnection_at(peer, idx, now, unix_now);
        assert(disconnected(old(self)@, old(self).trace().push(HostEvent::Clock(now)).push(HostEvent::UnixClock(unix_now)), self@, self.trace(), r, peer, idx, now, unix_now));
        r
    }

    /// Checks whether some of our inflight requests have timed out, as
    /// `check_for_timeout_at` does at the time the clock reads. Any request may
    /// have timed out by then, so every peer's ban score must leave room for all
    /// the requests charged to it.
    pub fn check_for_timeout(&mut self) -> (r: Result<(), WireError>)
        requires
            old(self).wf(),
            forall|p: PeerId|
                #[trigger] old(self)@.peers.contains_key(p) ==> old(self)@.peers[p].banscore
                    + pending_charges(old(self)@, p).len() <= u32::MAX,
        ensures
            final(self).wf(),
            exists|now: u64|
                #[trigger] timeouts_handled(
                    old(self)@,
                    old(self).trace().push(HostEvent::Clock(now)),
                    final(self)@,
                    final(self).trace(),
                    r,
                    now,
                ) && (r is Ok ==> forall|req: InflightRequest|
                    #[trigger] final(self)@.inflight.contains_key(req) ==> !timed_out(
                        final(self)@.config,
                        req,
                        final(self)@.inflight[req].1,
                        now,
                    )),
    {
        let now = self.read_clock();
        assert(self@ == old(self)@);
        proof {
            crate::vec_map::lemma_entries_map_len(self.inflight.entries());
            assert forall|p: PeerId| #[trigger] self@.peers.contains_key(p) implies self@.peers[p].banscore
                + timeout_charges(self@, now, p).len() <= u32::MAX by {
                vstd::set_lib::lemma_len_subset(pending_charges(self@, p), self@.inflight.dom());
                vstd::set_lib::lemma_len_subset(timeout_charges(self@, now, p), pending_charges(self@, p));
            }
        }
        let r = self.check_for_timeout_at(now);
        assert(timeouts_handled(old(self)@, old(self).trace().push(HostEvent::Clock(now)), self@, self.trace(), r, now));
        r
    }
}

} // verus!
