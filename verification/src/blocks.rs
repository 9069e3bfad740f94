//! Downloading blocks and their Utreexo proofs, and handing them to the chain in order.
use vstd::prelude::*;

use crate::host::HostEvent;
use crate::host::NodeHost;
use crate::node::InflightBlock;
use crate::node::NodeState;
use crate::node::UtreexoNode;
use crate::peer_man::{banscore_outcome, fast_send_outcome, sent_to_peer, sent_to_peer_result};
use crate::types::{
    copy_hashes, header_hash, is_empty_proof, AccumulatorProof, Block, BlockHash,
    BlockValidationErrors, BlockchainError, UtreexoProof,
    InflightRequest, NodeRequest, PeerId, RequestView, ServiceFlags, UserRequest, WireError,
    NODE_NETWORK, NODE_UTREEXO,
};

verus! {

/// The blocks of `list` that are neither requested nor held in `s`, in order.
pub open spec fn to_request(s: NodeState, list: Seq<BlockHash>) -> Seq<BlockHash>
    decreases list.len(),
{
    if list.len() == 0 {
        Seq::empty()
    } else {
        let rest = to_request(s, list.drop_last());
        let b = list.last();
        if !s.inflight.contains_key(InflightRequest::Blocks(b)) && !s.blocks.contains_key(b) {
            rest.push(b)
        } else {
            rest
        }
    }
}

/// `m` with a request for each block of `list`, asked of `peer` at `now`.
pub open spec fn with_block_requests(
    m: Map<InflightRequest, (PeerId, u64)>,
    list: Seq<BlockHash>,
    peer: PeerId,
    now: u64,
) -> Map<InflightRequest, (PeerId, u64)>
    decreases list.len(),
{
    if list.len() == 0 {
        m
    } else {
        with_block_requests(m, list.drop_last(), peer, now).insert(
            InflightRequest::Blocks(list.last()),
            (peer, now),
        )
    }
}

/// What `request_blocks_at(list)` did: the blocks neither requested nor held were
/// asked, in one request, of a fast peer serving the network, and are then
/// waited on from it.
pub open spec fn blocks_requested(
    s0: NodeState,
    t0: Seq<HostEvent>,
    s1: NodeState,
    t1: Seq<HostEvent>,
    r: Result<(), WireError>,
    list: Seq<BlockHash>,
    now: u64,
) -> bool {
    let wanted = to_request(s0, list);
    if wanted.len() == 0 {
        &&& s1 == s0
        &&& t1 == t0
        &&& r is Ok
    } else {
        exists|rr: Result<PeerId, WireError>|
            #[trigger] fast_send_outcome(
                t0,
                t1,
                s0.peers,
                ServiceFlags(NODE_NETWORK),
                RequestView::GetBlock(wanted),
                rr,
            ) && match rr {
                Ok(p) => {
                    &&& r is Ok
                    &&& s1 == (NodeState {
                        inflight: with_block_requests(s0.inflight, wanted, p, now),
                        ..s0
                    })
                },
                Err(e) => {
                    &&& r == Err::<(), WireError>(e)
                    &&& s1 == s0
                },
            }
    }
}

/// A held block that holds only its coinbase, and so spends nothing: `block`
/// from `peer`, with empty leaf data and the empty proof.
pub open spec fn coinbase_only_entry(ib: InflightBlock, block: Block, peer: PeerId) -> bool {
    &&& ib.peer == peer
    &&& ib.block == block
    &&& ib.leaf_data matches Some(l) && l@.len() == 0
    &&& ib.proof matches Some(p) && is_empty_proof(p)
}

/// What `request_block_proof_at(block, peer)` did, `block` having the hash
/// `h`, after the host answered `answered` to whether a user waits for it.
pub open spec fn block_proof_requested(
    s0: NodeState,
    t0: Seq<HostEvent>,
    s1: NodeState,
    t1: Seq<HostEvent>,
    r: Result<(), WireError>,
    h: BlockHash,
    block: Block,
    peer: PeerId,
    now: u64,
    answered: Option<bool>,
) -> bool {
    let sa = NodeState { inflight: s0.inflight.remove(InflightRequest::Blocks(h)), ..s0 };
    let ta = t0.push(HostEvent::AnswerUser(UserRequest::Block(h), true, answered));
    match answered {
        Some(false) => {
            &&& r == Err::<(), WireError>(WireError::ResponseSendError)
            &&& s1 == sa
            &&& t1 == ta
        },
        Some(true) => {
            &&& r is Ok
            &&& s1 == sa
            &&& t1 == ta
        },
        None => if block.txdata@.len() == 1 {
            &&& r is Ok
            &&& t1 == ta
            &&& s1 == (NodeState { blocks: sa.blocks.insert(h, s1.blocks[h]), ..sa })
            &&& coinbase_only_entry(s1.blocks[h], block, peer)
        } else {
            exists|rr: Result<PeerId, WireError>|
                #[trigger] fast_send_outcome(
                    ta,
                    t1,
                    sa.peers,
                    ServiceFlags(NODE_UTREEXO),
                    RequestView::GetBlockProof(h),
                    rr,
                ) && match rr {
                    Ok(_) => {
                        &&& r is Ok
                        &&& s1 == (NodeState {
                            inflight: sa.inflight.insert(
                                InflightRequest::UtreexoProof(h),
                                (peer, now),
                            ),
                            blocks: sa.blocks.insert(
                                h,
                                InflightBlock { peer, block, leaf_data: None, proof: None },
                            ),
                            ..sa
                        })
                    },
                    Err(e) => {
                        &&& r == Err::<(), WireError>(e)
                        &&& s1 == sa
                    },
                }
        },
    }
}

/// Whether the held block `h` lacks its proof or leaf data while its proof is not requested.
pub open spec fn needs_proof(s: NodeState, h: BlockHash) -> bool {
    &&& s.blocks.contains_key(h)
    &&& !(s.blocks[h].proof is Some && s.blocks[h].leaf_data is Some)
    &&& !s.inflight.contains_key(InflightRequest::UtreexoProof(h))
}

/// Whether `missing` lists, once each, the held blocks that lack their proof or
/// leaf data and whose proof is not requested.
pub open spec fn missing_ok(s: NodeState, missing: Seq<BlockHash>) -> bool {
    &&& missing.no_duplicates()
    &&& forall|h: BlockHash| #[trigger] missing.contains(h) <==> needs_proof(s, h)
}

/// One successful proof request: `h`'s proof was asked of the fast Utreexo peer
/// `p`, and is waited on from it.
pub open spec fn proof_asked(
    s0: NodeState,
    t0: Seq<HostEvent>,
    s1: NodeState,
    t1: Seq<HostEvent>,
    h: BlockHash,
    p: PeerId,
    now: u64,
) -> bool {
    &&& fast_send_outcome(
        t0,
        t1,
        s0.peers,
        ServiceFlags(NODE_UTREEXO),
        RequestView::GetBlockProof(h),
        Ok(p),
    )
    &&& s1 == (NodeState {
        inflight: s0.inflight.insert(InflightRequest::UtreexoProof(h), (p, now)),
        ..s0
    })
}

/// `states` and `traces` go through a successful proof request for each of `list`.
pub open spec fn proofs_chain(
    states: Seq<NodeState>,
    traces: Seq<Seq<HostEvent>>,
    picks: Seq<PeerId>,
    list: Seq<BlockHash>,
    now: u64,
) -> bool {
    &&& states.len() == list.len() + 1
    &&& traces.len() == list.len() + 1
    &&& picks.len() == list.len()
    &&& forall|j: int|
        0 <= j < list.len() ==> #[trigger] proof_asked(
            states[j],
            traces[j],
            states[j + 1],
            traces[j + 1],
            list[j],
            picks[j],
            now,
        )
}

/// What `ask_for_missed_proofs` did: with a Utreexo peer, it asked a fast
/// Utreexo peer for the proof of each held block that lacks it and whose proof
/// is not requested, one after the other, until a request failed.
pub open spec fn missed_proofs_asked(
    s0: NodeState,
    t0: Seq<HostEvent>,
    s1: NodeState,
    t1: Seq<HostEvent>,
    r: Result<(), WireError>,
    now: u64,
) -> bool {
    if !s0.has_utreexo_peers() {
        &&& s1 == s0
        &&& t1 == t0
        &&& r is Ok
    } else {
        exists|
            missing: Seq<BlockHash>,
            k: int,
            states: Seq<NodeState>,
            traces: Seq<Seq<HostEvent>>,
            picks: Seq<PeerId>,
        |
            {
                &&& missing_ok(s0, missing)
                &&& 0 <= k <= missing.len()
                &&& #[trigger] proofs_chain(states, traces, picks, missing.take(k), now)
                &&& states[0] == s0
                &&& traces[0] == t0
                &&& if k == missing.len() {
                    &&& s1 == states.last()
                    &&& t1 == traces.last()
                    &&& r is Ok
                } else {
                    &&& s1 == states.last()
                    &&& fast_send_outcome(
                        traces.last(),
                        t1,
                        states.last().peers,
                        ServiceFlags(NODE_UTREEXO),
                        RequestView::GetBlockProof(missing[k]),
                        Err(r->Err_0),
                    )
                    &&& r is Err
                }
            }
    }
}

/// How the node reacts to the chain refusing a block.
pub enum Reaction {
    /// The block is invalid: the chain marks it so, and its sender is banned.
    Invalidate,
    /// The proof may be bad, not the block: only the sender is banned.
    BanOnly,
    /// The block does not extend the tip: the node asked for it by mistake.
    Retry,
}

/// The reaction to a validation error.
pub open spec fn reaction(e: BlockValidationErrors) -> Reaction {
    match e {
        BlockValidationErrors::InvalidProof => Reaction::BanOnly,
        BlockValidationErrors::BlockExtendsAnOrphanChain => Reaction::Retry,
        BlockValidationErrors::BlockDoesntExtendTip => Reaction::Retry,
        _ => Reaction::Invalidate,
    }
}

/// The reaction to an error of the chain when connecting a block.
pub open spec fn reaction_to_error(err: BlockchainError) -> Reaction {
    match err {
        BlockchainError::BlockValidation(e) => reaction(e),
        BlockchainError::Other => Reaction::BanOnly,
    }
}

/// What the node returns after telling a misbehaving peer to shut down: the
/// failure to tell it, or else `PeerMisbehaving`.
pub open spec fn misbehaving_result(sent: Result<(), WireError>) -> Result<(), WireError> {
    match sent {
        Err(e) => Err(e),
        Ok(()) => Err(WireError::PeerMisbehaving),
    }
}

/// The trace `tb` extended by what the node does to a block refused with `err`
/// before it tells the sender to shut down: the block is marked invalid if the
/// error says it is, and the sender's address recorded as banned if it is known.
pub open spec fn ban_trace(
    sa: NodeState,
    tb: Seq<HostEvent>,
    h: BlockHash,
    peer: PeerId,
    err: BlockchainError,
) -> Seq<HostEvent> {
    let tc = if (reaction_to_error(err) is Invalidate) {
        tb.push(HostEvent::InvalidateBlock(h))
    } else {
        tb
    };
    if sa.peers.contains_key(peer) {
        tc.push(
            HostEvent::SetAddressState(
                sa.peers[peer].address_id as usize,
                crate::types::AddressState::Banned(sa.config.ban_time),
            ),
        )
    } else {
        tc
    }
}

/// What the node does when the chain refused the block `h` sent by `peer` with
/// `err`, from `sa`/`tb` (after the proof was checked and the block refused).
pub open spec fn block_refused(
    sa: NodeState,
    tb: Seq<HostEvent>,
    s1: NodeState,
    t1: Seq<HostEvent>,
    r: Result<(), WireError>,
    h: BlockHash,
    peer: PeerId,
    err: BlockchainError,
) -> bool {
    if (reaction_to_error(err) is Retry) {
        &&& t1.len() == tb.len() + 1
        &&& t1.drop_last() == tb
        &&& t1.last() is ValidationIndex
        &&& s1 == (NodeState {
            last_block_request: match t1.last()->ValidationIndex_0 {
                Ok(v) => v,
                Err(_) => 0,
            },
            ..sa
        })
        &&& r is Ok
    } else {
        &&& s1 == sa
        &&& exists|sent: Result<(), WireError>|
            {
                &&& t1 == #[trigger] sent_to_peer(sa, ban_trace(sa, tb, h, peer, err), peer, RequestView::Shutdown, sent)
                &&& r == misbehaving_result(sent_to_peer_result(sa, peer, sent))
                &&& (sent matches Err(e) ==> e == WireError::ChannelSend)
            }
    }
}

/// What `process_block(height, h)` did.
pub open spec fn block_processed(
    s0: NodeState,
    t0: Seq<HostEvent>,
    s1: NodeState,
    t1: Seq<HostEvent>,
    r: Result<(), WireError>,
    height: u32,
    h: BlockHash,
) -> bool {
    if !s0.blocks.contains_key(h) {
        &&& r == Err::<(), WireError>(WireError::BlockNotFound)
        &&& s1 == s0
        &&& t1 == t0
    } else {
        let ib = s0.blocks[h];
        let sa = NodeState { blocks: s0.blocks.remove(h), ..s0 };
        if ib.leaf_data is None {
            &&& r == Err::<(), WireError>(WireError::LeafDataNotFound)
            &&& s1 == sa
            &&& t1 == t0
        } else if ib.proof is None {
            &&& r == Err::<(), WireError>(WireError::BlockProofNotFound)
            &&& s1 == sa
            &&& t1 == t0
        } else {
            &&& t1.len() > t0.len()
            &&& t1[t0.len() as int] is ProcessProof
            &&& t1[t0.len() as int]->ProcessProof_0 == ib.block
            &&& t1[t0.len() as int]->ProcessProof_1 == ib.leaf_data->Some_0
            &&& t1[t0.len() as int]->ProcessProof_2 == height
            &&& t1.subrange(0, t0.len() as int) == t0
            &&& match t1[t0.len() as int]->ProcessProof_3 {
                Err(_) => {
                    &&& r == Err::<(), WireError>(WireError::Chain)
                    &&& s1 == sa
                    &&& t1.len() == t0.len() + 1
                },
                Ok(checked) => {
                    &&& t1.len() > t0.len() + 1
                    &&& t1[t0.len() + 1int] is ConnectBlock
                    &&& t1[t0.len() + 1int]->ConnectBlock_0 == ib.block
                    &&& t1[t0.len() + 1int]->ConnectBlock_1 == ib.proof->Some_0
                    &&& t1[t0.len() + 1int]->ConnectBlock_2 == checked
                    &&& match t1[t0.len() + 1int]->ConnectBlock_3 {
                        Ok(()) => {
                            &&& t1.len() == t0.len() + 3
                            &&& t1[t0.len() + 2int] is Clock
                            &&& s1 == (NodeState {
                                last_tip_update: t1[t0.len() + 2int]->Clock_0,
                                ..sa
                            })
                            &&& r is Ok
                        },
                        Err(err) => block_refused(
                            sa,
                            t1.subrange(0, t0.len() + 2int),
                            s1,
                            t1,
                            r,
                            h,
                            ib.peer,
                            err,
                        ),
                    }
                },
            }
        }
    }
}

/// Nanoseconds from `start` to `end` on the monotonic clock (none if it went back).
pub open spec fn elapsed_nanos(start: u64, end: u64) -> u64 {
    if end >= start {
        (end - start) as u64
    } else {
        0
    }
}

/// One round of `process_pending_blocks` from `s0`/`t0` to `s1`/`t1`: the chain
/// is asked for its best height and validation index; if the next block to
/// validate is held with its proof, it is processed and timed. `stop` is `None`
/// when the round processed a block and the loop goes on, and otherwise what
/// the call returns.
pub open spec fn pending_round(
    s0: NodeState,
    t0: Seq<HostEvent>,
    s1: NodeState,
    t1: Seq<HostEvent>,
    stop: Option<Result<(), WireError>>,
) -> bool {
    let n = t0.len() as int;
    &&& t1.len() > n
    &&& t1.subrange(0, n) == t0
    &&& t1[n] is BestBlockHeight
    &&& match t1[n]->BestBlockHeight_0 {
        Err(e) => {
            &&& stop == Some(Err::<(), WireError>(e))
            &&& t1.len() == n + 1
            &&& s1 == s0
        },
        Ok(best) => {
            &&& t1.len() > n + 1
            &&& t1[n + 1] is ValidationIndex
            &&& match t1[n + 1]->ValidationIndex_0 {
                Err(e) => {
                    &&& stop == Some(Err::<(), WireError>(e))
                    &&& t1.len() == n + 2
                    &&& s1 == s0
                },
                Ok(index) => if index + 1 > best {
                    &&& stop == Some(Ok::<(), WireError>(()))
                    &&& t1.len() == n + 2
                    &&& s1 == s0
                } else {
                    &&& t1.len() > n + 2
                    &&& t1[n + 2] is BlockHashAt
                    &&& t1[n + 2]->BlockHashAt_0 == index + 1
                    &&& match t1[n + 2]->BlockHashAt_1 {
                        Err(e) => {
                            &&& stop == Some(Err::<(), WireError>(e))
                            &&& t1.len() == n + 3
                            &&& s1 == s0
                        },
                        Ok(h) => if !s0.blocks.contains_key(h) || s0.blocks[h].proof is None {
                            &&& stop == Some(Ok::<(), WireError>(()))
                            &&& t1.len() == n + 3
                            &&& s1 == s0
                        } else {
                            &&& t1.len() > n + 3
                            &&& t1[n + 3] is Clock
                            &&& exists|tp: Seq<HostEvent>, rp: Result<(), WireError>|
                                {
                                    &&& #[trigger] block_processed(
                                        s0,
                                        t1.subrange(0, n + 4),
                                        s1,
                                        tp,
                                        rp,
                                        (index + 1) as u32,
                                        h,
                                    )
                                    &&& match rp {
                                        Err(e) => {
                                            &&& stop == Some(Err::<(), WireError>(e))
                                            &&& t1 == tp
                                        },
                                        Ok(()) => {
                                            &&& stop is None
                                            &&& t1.len() == tp.len() + 2
                                            &&& t1.subrange(0, tp.len() as int) == tp
                                            &&& t1[tp.len() as int] is Clock
                                            &&& t1.last() == HostEvent::BlockTime(
                                                elapsed_nanos(
                                                    t1[n + 3]->Clock_0,
                                                    t1[tp.len() as int]->Clock_0,
                                                ),
                                            )
                                        },
                                    }
                                }
                        },
                    }
                },
            }
        },
    }
}

/// `states` and `traces` go through `states.len() - 1` rounds that each processed a block.
pub open spec fn pending_chain(states: Seq<NodeState>, traces: Seq<Seq<HostEvent>>) -> bool {
    &&& states.len() >= 1
    &&& traces.len() == states.len()
    &&& forall|j: int|
        0 <= j < states.len() - 1 ==> #[trigger] pending_round(
            states[j],
            traces[j],
            states[j + 1],
            traces[j + 1],
            None,
        )
}

impl<H: NodeHost> UtreexoNode<H> {
    /// Asks a fast peer serving the network for the blocks of `blocks` that are
    /// neither requested nor held, and waits on them.
    pub fn request_blocks_at(&mut self, blocks: Vec<BlockHash>, now: u64) -> (r: Result<(), WireError>)
        requires
            old(self).wf(),
        ensures
            final(self).wf(),
            blocks_requested(
                old(self)@,
                old(self).trace(),
                final(self)@,
                final(self).trace(),
                r,
                blocks@,
                now,
            ),
    {
        let mut wanted: Vec<BlockHash> = Vec::new();
        let mut i: usize = 0;
        while i < blocks.len()
            invariant
                self.wf(),
                self@ == old(self)@,
                self.trace() == old(self).trace(),
                i <= blocks@.len(),
                wanted@ == to_request(self@, blocks@.take(i as int)),
            decreases blocks@.len() - i,
        {
            let b = blocks[i];
            assert(blocks@.take(i + 1).drop_last() =~= blocks@.take(i as int));
            let is_inflight = self.inflight.contains_key(&InflightRequest::Blocks(b));
            let is_pending = self.blocks.contains_key(&b);
            if !(is_inflight || is_pending) {
                wanted.push(b);
            }
            i = i + 1;
        }
        assert(blocks@.take(i as int) =~= blocks@);
        if wanted.len() == 0 {
            return Ok(());
        }
        let ghost s0 = self@;
        let ghost t0 = self.trace();
        let sent = self.send_to_fast_peer(
            NodeRequest::GetBlock(copy_hashes(&wanted)),
            ServiceFlags::network(),
        );
        let peer = match sent {
            Ok(p) => p,
            Err(e) => {
                assert(fast_send_outcome(t0, self.trace(), s0.peers, ServiceFlags(NODE_NETWORK), RequestView::GetBlock(wanted@), sent));
                return Err(e);
            },
        };
        let ghost s1 = self@;
        let ghost t1 = self.trace();
        assert(fast_send_outcome(t0, t1, s0.peers, ServiceFlags(NODE_NETWORK), RequestView::GetBlock(wanted@), sent));
        let mut j: usize = 0;
        while j < wanted.len()
            invariant
                self.wf(),
                j <= wanted@.len(),
                self@ == (NodeState {
                    inflight: with_block_requests(s1.inflight, wanted@.take(j as int), peer, now),
                    ..s1
                }),
                self.trace() == t1,
            decreases wanted@.len() - j,
        {
            assert(wanted@.take(j + 1).drop_last() =~= wanted@.take(j as int));
            self.inflight.insert(InflightRequest::Blocks(wanted[j]), (peer, now));
            j = j + 1;
        }
        assert(wanted@.take(j as int) =~= wanted@);
        Ok(())
    }

    /// Handles the block `block` that `peer` sent: it is no longer waited on; a
    /// user waiting for it gets it; otherwise it is kept. A block that holds only
    /// its coinbase spends nothing, so it is kept with empty leaf data and the
    /// empty proof; for any other block the proof is asked of a fast Utreexo peer
    /// and waited on from `peer`.
    pub fn request_block_proof_at(&mut self, block: Block, peer: PeerId, now: u64) -> (r: Result<
        (),
        WireError,
    >)
        requires
            old(self).wf(),
        ensures
            final(self).wf(),
            exists|answered: Option<bool>|
                #[trigger] block_proof_requested(
                    old(self)@,
                    old(self).trace(),
                    final(self)@,
                    final(self).trace(),
                    r,
                    header_hash(block.header@),
                    block,
                    peer,
                    now,
                    answered,
                ),
    {
        let block_hash = block.block_hash();
        let ghost b0 = block;
        let _ = self.inflight.remove(&InflightRequest::Blocks(block_hash));
        let answered = self.host.answer_user_request(UserRequest::Block(block_hash), true);
        match answered {
            Some(true) => {
                assert(block_proof_requested(old(self)@, old(self).trace(), self@, self.trace(), Ok(()), block_hash, b0, peer, now, answered));
                return Ok(());
            },
            Some(false) => {
                assert(block_proof_requested(old(self)@, old(self).trace(), self@, self.trace(), Err(WireError::ResponseSendError), block_hash, b0, peer, now, answered));
                return Err(WireError::ResponseSendError);
            },
            None => {},
        }
        if block.txdata.len() == 1 {
            let ghost sa = self@;
            self.blocks.insert(
                block_hash,
                InflightBlock {
                    peer,
                    block,
                    leaf_data: Some(Vec::new()),
                    proof: Some(AccumulatorProof::empty()),
                },
            );
            assert(self@.blocks =~= sa.blocks.insert(block_hash, self@.blocks[block_hash]));
            assert(block_proof_requested(old(self)@, old(self).trace(), self@, self.trace(), Ok(()), block_hash, b0, peer, now, answered));
            return Ok(());
        }
        let ghost sa = self@;
        let ghost ta = self.trace();
        let sent = self.send_to_fast_peer(
            NodeRequest::GetBlockProof(block_hash),
            ServiceFlags::utreexo(),
        );
        assert(fast_send_outcome(ta, self.trace(), sa.peers, ServiceFlags(NODE_UTREEXO), RequestView::GetBlockProof(block_hash), sent));
        match sent {
            Err(e) => {
                assert(block_proof_requested(old(self)@, old(self).trace(), self@, self.trace(), Err(e), block_hash, b0, peer, now, answered));
                return Err(e);
            },
            Ok(_) => {},
        }
        self.inflight.insert(InflightRequest::UtreexoProof(block_hash), (peer, now));
        self.blocks.insert(block_hash, InflightBlock { peer, block, leaf_data: None, proof: None });
        assert(block_proof_requested(old(self)@, old(self).trace(), self@, self.trace(), Ok(()), block_hash, b0, peer, now, answered));
        Ok(())
    }

    /// Records the proof of `uproof.block_hash` that `peer` sent, with the leaf
    /// data of the outputs the block spends; the proof is no longer waited on.
    /// A proof for a block the node does not hold raises the sender's ban score
    /// by 5.
    pub fn attach_proof(&mut self, uproof: UtreexoProof, peer: PeerId) -> (r: Result<(), WireError>)
        requires
            old(self).wf(),
            !old(self)@.blocks.contains_key(uproof.block_hash) && old(self)@.peers.contains_key(peer)
                ==> old(self)@.peers[peer].banscore + 5 <= u32::MAX,
        ensures
            final(self).wf(),
            ({
                let h = uproof.block_hash;
                let sa = NodeState {
                    inflight: old(self)@.inflight.remove(InflightRequest::UtreexoProof(h)),
                    ..old(self)@
                };
                if sa.blocks.contains_key(h) {
                    &&& r is Ok
                    &&& final(self).trace() == old(self).trace()
                    &&& final(self)@ == (NodeState {
                        blocks: sa.blocks.insert(
                            h,
                            InflightBlock {
                                proof: Some(
                                    AccumulatorProof {
                                        targets: uproof.targets,
                                        hashes: uproof.proof_hashes,
                                    },
                                ),
                                leaf_data: Some(uproof.leaf_data),
                                ..sa.blocks[h]
                            },
                        ),
                        ..sa
                    })
                } else {
                    banscore_outcome(sa, old(self).trace(), final(self)@, final(self).trace(), peer, 5, r)
                }
            }),
    {
        let ghost u0 = uproof;
        let UtreexoProof { block_hash, leaf_data, targets, proof_hashes } = uproof;
        let _ = self.inflight.remove(&InflightRequest::UtreexoProof(block_hash));
        let ghost sa = self@;
        match self.blocks.position(&block_hash) {
            Some(i) => {
                proof {
                    crate::vec_map::lemma_entries_map_at(self.blocks.entries(), i as int);
                }
                let (k, mut b) = self.blocks.remove_at(i);
                b.proof = Some(AccumulatorProof { targets, hashes: proof_hashes });
                b.leaf_data = Some(leaf_data);
                self.blocks.insert_at(i, (k, b));
                proof {
                    assert(self@.blocks =~= sa.blocks.insert(
                        block_hash,
                        InflightBlock {
                            proof: Some(AccumulatorProof { targets: u0.targets, hashes: u0.proof_hashes }),
                            leaf_data: Some(u0.leaf_data),
                            ..sa.blocks[block_hash]
                        },
                    ));
                }
                Ok(())
            },
            None => {
                let r = self.increase_banscore(peer, 5);
                assert(banscore_outcome(sa, old(self).trace(), self@, self.trace(), peer, 5, r));
                r
            },
        }
    }

    /// The held blocks that lack their proof or leaf data and whose proof is not
    /// requested, in the order of `blocks`.
    fn blocks_missing_proofs(&self) -> (missing: Vec<BlockHash>)
        requires
            self.wf(),
        ensures
            missing_ok(self@, missing@),
    {
        let ghost s = self@;
        let ghost es = self.blocks.entries();
        let mut missing: Vec<BlockHash> = Vec::new();
        let mut i: usize = 0;
        while i < self.blocks.len()
            invariant
                self.wf(),
                s == self@,
                es == self.blocks.entries(),
                i <= es.len(),
                missing@.no_duplicates(),
                forall|h: BlockHash|
                    #[trigger] missing@.contains(h) <==> (needs_proof(s, h) && exists|j: int|
                        0 <= j < i && crate::vec_map::key_at(es, h, j)),
            decreases es.len() - i,
        {
            let e = self.blocks.entry_at(i);
            let h = e.0;
            proof {
                crate::vec_map::lemma_entries_map_at(es, i as int);
                assert forall|j: int| 0 <= j < i implies !crate::vec_map::key_at(es, h, j) by {}
                assert(!missing@.contains(h));
            }
            let ghost before = missing@;
            if !(e.1.proof.is_some() && e.1.leaf_data.is_some())
                && !self.inflight.contains_key(&InflightRequest::UtreexoProof(h)) {
                missing.push(h);
                proof {
                    assert forall|a: int, b: int|
                        0 <= a < missing@.len() && 0 <= b < missing@.len() && a != b implies missing@[a]
                        != missing@[b] by {
                        if a < before.len() && b < before.len() {
                        } else if a < before.len() {
                            assert(before.contains(missing@[a]));
                        } else {
                            assert(before.contains(missing@[b]));
                        }
                    }
                }
            }
            proof {
                assert forall|g: BlockHash|
                    #[trigger] missing@.contains(g) <==> (needs_proof(s, g) && exists|j: int|
                        0 <= j < i + 1 && crate::vec_map::key_at(es, g, j)) by {
                    if g == h {
                        assert(crate::vec_map::key_at(es, g, i as int));
                        if missing@ != before {
                            assert(missing@[before.len() as int] == g);
                        }
                    } else {
                        if missing@ != before {
                            assert(missing@ == before.push(h));
                            if missing@.contains(g) {
                                let a = choose|a: int| 0 <= a < missing@.len() && missing@[a] == g;
                                assert(before[a] == g);
                            }
                            if before.contains(g) {
                                let a = choose|a: int| 0 <= a < before.len() && before[a] == g;
                                assert(missing@[a] == g);
                            }
                        }
                        if exists|j: int| 0 <= j < i + 1 && crate::vec_map::key_at(es, g, j) {
                            let j = choose|j: int| 0 <= j < i + 1 && crate::vec_map::key_at(es, g, j);
                            assert(j < i);
                        }
                    }
                }
            }
            i = i + 1;
        }
        proof {
            assert forall|h: BlockHash| #[trigger] missing@.contains(h) <==> needs_proof(s, h) by {
                if needs_proof(s, h) {
                    let j = choose|j: int| crate::vec_map::key_at(es, h, j);
                    assert(crate::vec_map::key_at(es, h, j));
                }
            }
        }
        missing
    }

    /// Asks all utreexo peers for proofs of blocks that we have, but haven't received proofs
    /// for yet, and don't have any GetProofs inflight. This may be caused by a peer disconnecting
    /// while we didn't have more utreexo peers to redo the request.
    pub fn ask_for_missed_proofs_at(&mut self, now: u64) -> (r: Result<(), WireError>)
        requires
            old(self).wf(),
        ensures
            final(self).wf(),
            missed_proofs_asked(old(self)@, old(self).trace(), final(self)@, final(self).trace(), r, now),
    {
        if !self.has_utreexo_peers() {
            return Ok(());
        }
        let missing = self.blocks_missing_proofs();
        let ghost s0 = self@;
        let ghost t0 = self.trace();
        let ghost mut states: Seq<NodeState> = seq![s0];
        let ghost mut traces: Seq<Seq<HostEvent>> = seq![t0];
        let ghost mut picks: Seq<PeerId> = Seq::empty();
        let mut k: usize = 0;
        while k < missing.len()
            invariant
                self.wf(),
                missing_ok(s0, missing@),
                s0 == old(self)@,
                t0 == old(self).trace(),
                s0.has_utreexo_peers(),
                k <= missing@.len(),
                proofs_chain(states, traces, picks, missing@.take(k as int), now),
                states[0] == s0,
                traces[0] == t0,
                states.last() == self@,
                traces.last() == self.trace(),
            decreases missing@.len() - k,
        {
            let h = missing[k];
            let ghost sb = self@;
            let ghost tb = self.trace();
            let sent = self.send_to_fast_peer(NodeRequest::GetBlockProof(h), ServiceFlags::utreexo());
            let p = match sent {
                Ok(p) => p,
                Err(e) => {
                    proof {
                        assert(fast_send_outcome(tb, self.trace(), sb.peers, ServiceFlags(NODE_UTREEXO), RequestView::GetBlockProof(missing@[k as int]), Err(e)));
                        assert(self@ == sb);
                        assert(proofs_chain(states, traces, picks, missing@.take(k as int), now));
                    }
                    return Err(e);
                },
            };
            self.inflight.insert(InflightRequest::UtreexoProof(h), (p, now));
            proof {
                assert(proof_asked(sb, tb, self@, self.trace(), h, p, now));
                let ghost old_states = states;
                let ghost old_traces = traces;
                let ghost old_picks = picks;
                states = states.push(self@);
                traces = traces.push(self.trace());
                picks = picks.push(p);
                let l = missing@.take(k + 1);
                assert(l.drop_last() =~= missing@.take(k as int));
                assert forall|j: int| 0 <= j < l.len() implies #[trigger] proof_asked(
                    states[j],
                    traces[j],
                    states[j + 1],
                    traces[j + 1],
                    l[j],
                    picks[j],
                    now,
                ) by {
                    if j < k {
                        assert(proof_asked(old_states[j], old_traces[j], old_states[j + 1], old_traces[j + 1], missing@.take(k as int)[j], old_picks[j], now));
                    }
                }
            }
            k = k + 1;
        }
        proof {
            assert(missing@.take(k as int) =~= missing@);
        }
        Ok(())
    }

    /// The reaction to the validation error `e`.
    pub fn reaction_to(e: BlockValidationErrors) -> (re: Reaction)
        ensures
            re == reaction(e),
    {
        match e {
            BlockValidationErrors::InvalidProof => Reaction::BanOnly,
            BlockValidationErrors::BlockExtendsAnOrphanChain => Reaction::Retry,
            BlockValidationErrors::BlockDoesntExtendTip => Reaction::Retry,
            _ => Reaction::Invalidate,
        }
    }

    /// Processes the pending block `block_hash` at `block_height`: its proof is
    /// checked and the block connected to the chain. A block the chain refuses
    /// as invalid is marked so (unless only its proof may be bad) and its sender
    /// banned and told to shut down; a block that does not extend the tip makes
    /// the node request blocks again from the validation index.
    pub fn process_block(&mut self, block_height: u32, block_hash: BlockHash) -> (r: Result<
        (),
        WireError,
    >)
        requires
            old(self).wf(),
        ensures
            final(self).wf(),
            block_processed(
                old(self)@,
                old(self).trace(),
                final(self)@,
                final(self).trace(),
                r,
                block_height,
                block_hash,
            ),
            r == Err::<(), WireError>(WireError::BlockNotFound) <==> !old(self)@.blocks.contains_key(
                block_hash,
            ),
    {
        let ghost t0 = self.trace();
        let ib = match self.blocks.remove(&block_hash) {
            Some(b) => b,
            None => return Err(WireError::BlockNotFound),
        };
        let InflightBlock { peer, block, leaf_data, proof: stored_proof } = ib;
        let leaf_data = match leaf_data {
            Some(l) => l,
            None => return Err(WireError::LeafDataNotFound),
        };
        let block_proof = match stored_proof {
            Some(p) => p,
            None => return Err(WireError::BlockProofNotFound),
        };
        let ghost sa = self@;
        let pp = self.host.process_proof(&block, &leaf_data, block_height);
        if pp.is_err() {
            assert(self.trace().subrange(0, t0.len() as int) =~= t0);
            return Err(WireError::Chain);
        }
        let checked = match pp {
            Ok(c) => c,
            Err(_) => return Err(WireError::Chain),
        };
        let cb = self.host.connect_block(&block, block_proof, checked);
        let ghost tb = self.trace();
        let err = match cb {
            Ok(()) => {
                let now = self.host.monotonic_nanos();
                proof {
                    assert(self.trace().subrange(0, t0.len() as int) =~= t0);
                }
                self.last_tip_update = now;
                return Ok(());
            },
            Err(err) => err,
        };
        let re = match err {
            BlockchainError::BlockValidation(e) => Self::reaction_to(e),
            BlockchainError::Other => Reaction::BanOnly,
        };
        match re {
            Reaction::Invalidate => {
                let _ = self.host.invalidate_block(block_hash);
            },
            Reaction::BanOnly => {},
            Reaction::Retry => {
                let vi = self.host.get_validation_index();
                self.last_block_request = match vi {
                    Ok(v) => v,
                    Err(_) => 0,
                };
                proof {
                    assert(self.trace().subrange(0, t0.len() as int) =~= t0);
                    assert(self.trace().subrange(0, t0.len() + 2int) =~= tb);
                    assert(self.trace().drop_last() =~= tb);
                }
                return Ok(());
            },
        }
        match self.peers.get(&peer) {
            Some(p) => {
                let id = p.address_id as usize;
                self.set_address_state(id, crate::types::AddressState::Banned(self.config.ban_time));
            },
            None => {},
        }
        let ghost td = self.trace();
        let sent = self.send_to_peer(peer, NodeRequest::Shutdown);
        proof {
            assert(self.trace().subrange(0, t0.len() as int) =~= t0);
            assert(self.trace().subrange(0, t0.len() + 2int) =~= tb);
            assert(self.trace() == sent_to_peer(sa, td, peer, RequestView::Shutdown, sent));
        }
        let r = match sent {
            Err(e) => Err(e),
            Ok(()) => Err(WireError::PeerMisbehaving),
        };
        proof {
            assert(td == ban_trace(sa, tb, block_hash, peer, err));
            assert(block_refused(sa, tb, self@, self.trace(), r, block_hash, peer, err));
        }
        r
    }

    /// Processes the held blocks in chain order, from the one after the
    /// validation index, as long as the next one is held with its proof and
    /// below the best height; each is timed with the host.
    pub fn process_pending_blocks(&mut self) -> (r: Result<(), WireError>)
        requires
            old(self).wf(),
        ensures
            final(self).wf(),
            exists|states: Seq<NodeState>, traces: Seq<Seq<HostEvent>>|
                {
                    &&& #[trigger] pending_chain(states, traces)
                    &&& states[0] == old(self)@
                    &&& traces[0] == old(self).trace()
                    &&& pending_round(
                        states.last(),
                        traces.last(),
                        final(self)@,
                        final(self).trace(),
                        Some(r),
                    )
                },
    {
        let ghost mut states: Seq<NodeState> = seq![self@];
        let ghost mut traces: Seq<Seq<HostEvent>> = seq![self.trace()];
        loop
            invariant
                self.wf(),
                pending_chain(states, traces),
                states[0] == old(self)@,
                traces[0] == old(self).trace(),
                states.last() == self@,
                traces.last() == self.trace(),
            decreases self.blocks@.dom().len(),
        {
            let ghost s0 = self@;
            let ghost t0 = self.trace();
            proof {
                crate::vec_map::lemma_entries_map_len(self.blocks.entries());
            }
            let best = self.host.get_best_block_height();
            let best = match best {
                Ok(b) => b,
                Err(e) => {
                    assert(self.trace().subrange(0, t0.len() as int) =~= t0);
                    assert(pending_round(s0, t0, self@, self.trace(), Some(Err(e))));
                    return Err(e);
                },
            };
            let index = self.host.get_validation_index();
            let index = match index {
                Ok(i) => i,
                Err(e) => {
                    assert(self.trace().subrange(0, t0.len() as int) =~= t0);
                    assert(pending_round(s0, t0, self@, self.trace(), Some(Err(e))));
                    return Err(e);
                },
            };
            if index >= best {
                assert(self.trace().subrange(0, t0.len() as int) =~= t0);
                assert(pending_round(s0, t0, self@, self.trace(), Some(Ok(()))));
                return Ok(());
            }
            let next = index + 1;
            let hash = self.host.get_block_hash(next);
            let hash = match hash {
                Ok(h) => h,
                Err(e) => {
                    assert(self.trace().subrange(0, t0.len() as int) =~= t0);
                    assert(pending_round(s0, t0, self@, self.trace(), Some(Err(e))));
                    return Err(e);
                },
            };
            let ready = match self.blocks.get(&hash) {
                Some(b) => b.proof.is_some(),
                None => false,
            };
            if !ready {
                assert(self.trace().subrange(0, t0.len() as int) =~= t0);
                assert(pending_round(s0, t0, self@, self.trace(), Some(Ok(()))));
                return Ok(());
            }
            assert(s0.blocks.contains_key(hash) && s0.blocks[hash].proof is Some);
            let start = self.host.monotonic_nanos();
            let ghost t2 = self.trace();
            assert(t2 == self.trace().subrange(0, t0.len() + 4int));
            let processed = self.process_block(next, hash);
            let ghost tp = self.trace();
            assert(block_processed(s0, t2, self@, tp, processed, next, hash));
            match processed {
                Err(e) => {
                    proof {
                        assert(self.trace().subrange(0, t0.len() as int) =~= t0);
                        assert(self.trace().subrange(0, t0.len() + 4int) =~= t2);
                    }
                    assert(self.trace().subrange(0, t0.len() as int) =~= t0);
                    assert(t2[t0.len() + 3int] is Clock);
                    assert(self.trace()[t0.len() + 3int] == self.trace().subrange(0, t0.len() + 4int)[t0.len() + 3int]);
                    assert(self.trace()[t0.len() + 3int] is Clock);
                    assert(block_processed(s0, self.trace().subrange(0, t0.len() + 4int), self@, tp, processed, (index + 1) as u32, hash));
                    let ghost n = t0.len() as int;
                    let ghost t1 = self.trace();
                    assert(t1[n] == t2[n]);
                    assert(t1[n + 1] == t2[n + 1]);
                    assert(t1[n + 2] == t2[n + 2]);
                    assert(t1[n] is BestBlockHeight);
                    assert(t1[n]->BestBlockHeight_0 == Ok::<u32, WireError>(best));
                    assert(t1[n + 1]->ValidationIndex_0 == Ok::<u32, WireError>(index));
                    assert(t1[n + 2]->BlockHashAt_1 == Ok::<BlockHash, WireError>(hash));
                    assert(pending_round(s0, t0, self@, self.trace(), Some(Err(e))));
                    return Err(e);
                },
                Ok(()) => {},
            }
            let end = self.host.monotonic_nanos();
            let elapsed = if end >= start {
                end - start
            } else {
                0
            };
            self.host.add_block_time(elapsed);
            proof {
                assert(self.trace().subrange(0, tp.len() as int) =~= tp);
                assert(tp.subrange(0, t2.len() as int) == t2);
                assert(self.trace().subrange(0, t2.len() as int) =~= t2);
                assert(t2.subrange(0, t0.len() as int) =~= t0);
                assert(self.trace().subrange(0, t0.len() as int) =~= t0);
                assert(pending_round(s0, t0, self@, self.trace(), None));
                crate::vec_map::lemma_entries_map_len(self.blocks.entries());
                let ghost old_states = states;
                let ghost old_traces = traces;
                states = states.push(self@);
                traces = traces.push(self.trace());
                assert forall|j: int| 0 <= j < states.len() - 1 implies #[trigger] pending_round(
                    states[j],
                    traces[j],
                    states[j + 1],
                    traces[j + 1],
                    None,
                ) by {
                    if j < old_states.len() - 1 {
                        assert(pending_round(old_states[j], old_traces[j], old_states[j + 1], old_traces[j + 1], None));
                    }
                }
            }
        }
    }
}

impl<H: NodeHost> UtreexoNode<H> {
    /// Asks for the blocks of `blocks` that are neither requested nor held, as
    /// `request_blocks_at` does at the time the clock reads.
    pub fn request_blocks(&mut self, blocks: Vec<BlockHash>) -> (r: Result<(), WireError>)
        requires
            old(self).wf(),
        ensures
            final(self).wf(),
            exists|now: u64|
                #[trigger] blocks_requested(
                    old(self)@,
                    old(self).trace().push(HostEvent::Clock(now)),
                    final(self)@,
                    final(self).trace(),
                    r,
                    blocks@,
                    now,
                ),
    {
        let now = self.read_clock();
        assert(self@ == old(self)@);
        let ghost bv = blocks@;
        let r = self.request_blocks_at(blocks, now);
        assert(blocks_requested(old(self)@, old(self).trace().push(HostEvent::Clock(now)), self@, self.trace(), r, bv, now));
        r
    }

    /// Handles the block `block` that `peer` sent, as `request_block_proof_at`
    /// does at the time the clock reads.
    pub fn request_block_proof(&mut self, block: Block, peer: PeerId) -> (r: Result<(), WireError>)
        requires
            old(self).wf(),
        ensures
            final(self).wf(),
            exists|now: u64, answered: Option<bool>|
                #[trigger] block_proof_requested(
                    old(self)@,
                    old(self).trace().push(HostEvent::Clock(now)),
                    final(self)@,
                    final(self).trace(),
                    r,
                    header_hash(block.header@),
                    block,
                    peer,
                    now,
                    answered,
                ),
    {
        let now = self.read_clock();
        assert(self@ == old(self)@);
        self.request_block_proof_at(block, peer, now)
    }

    /// Asks for the proofs that are missing, as `ask_for_missed_proofs_at` does
    /// at the time the clock reads.
    pub fn ask_for_missed_proofs(&mut self) -> (r: Result<(), WireError>)
        requires
            old(self).wf(),
        ensures
            final(self).wf(),
            exists|now: u64|
                #[trigger] missed_proofs_asked(
                    old(self)@,
                    old(self).trace().push(HostEvent::Clock(now)),
                    final(self)@,
                    final(self).trace(),
                    r,
                    now,
                ),
    {
        let now = self.read_clock();
        assert(self@ == old(self)@);
        let r = self.ask_for_missed_proofs_at(now);
        assert(missed_proofs_asked(old(self)@, old(self).trace().push(HostEvent::Clock(now)), self@, self.trace(), r, now));
        r
    }
}

} // verus!
