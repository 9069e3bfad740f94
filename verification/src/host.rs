//! What the node asks of the program that embeds it.
//!
//! The node's bookkeeping is verified here; the address database, the block
//! chain, the connection tasks of peers and their channels, the clocks and the
//! latency statistics of peers belong to the embedding program, which
//! implements `NodeHost`. Every host keeps a log of the calls made to it:
//! `log()` is that history, and each method's contract says that the call
//! appends one `HostEvent` to it, holding the call's arguments and what it
//! returned. Nothing is claimed of the answers themselves: the node takes each
//! as it comes, and its own contracts say what it does for every answer.
use vstd::prelude::*;

use crate::types::{
    AccumulatorProof, AddressState, Block, BlockHash, BlockchainError, CheckedProof, CompactLeafData, ConnectionKind, LocalAddress, Network, NodeRequest,
    PeerId, RequestView, ServiceFlags, UserRequest, WireError,
};

verus! {

/// A list of hashes, or an error, with the list as a sequence.
pub open spec fn hashes_view(r: Result<Vec<BlockHash>, WireError>) -> Result<Seq<BlockHash>, WireError> {
    match r {
        Ok(l) => Ok(l@),
        Err(e) => Err(e),
    }
}

/// The calls made to a host, oldest first.
pub type HostLog = Seq<HostEvent>;

pub trait NodeHost {
    /// The calls made to this host so far, oldest first, each with what it
    /// returned. The log exists for the verifier only: nothing computes it
    /// when the program runs.
    spec fn log(&self) -> HostLog;

    // === address manager ===
    /// Records the state of the address with this id.
    fn update_set_state(&mut self, address_id: usize, state: AddressState)
        ensures
            final(self).log() == old(self).log().push(HostEvent::SetAddressState(address_id, state)),
    ;

    /// Records the services of the address with this id.
    fn update_set_service_flag(&mut self, address_id: usize, services: ServiceFlags)
        ensures
            final(self).log() == old(self).log().push(
                HostEvent::SetAddressServices(address_id, services),
            ),
    ;

    /// Adds addresses that a peer gossiped.
    fn push_addresses(&mut self, addresses: &Vec<LocalAddress>)
        ensures
            final(self).log() == old(self).log().push(HostEvent::PushAddresses(addresses@)),
    ;

    /// Whether the address database holds enough addresses.
    fn enough_addresses(&mut self) -> (r: bool)
        ensures
            final(self).log() == old(self).log().push(HostEvent::EnoughAddresses(r)),
    ;

    /// Adds the hard-coded addresses of the network.
    fn add_fixed_addresses(&mut self, network: Network)
        ensures
            final(self).log() == old(self).log().push(HostEvent::AddFixedAddresses(network)),
    ;

    /// An address to connect to, with its id, offering these services.
    fn get_address_to_connect(&mut self, services: ServiceFlags, feeler: bool) -> (r: Option<
        (usize, LocalAddress),
    >)
        ensures
            final(self).log() == old(self).log().push(
                HostEvent::AddressToConnect(services, feeler, r),
            ),
    ;

    /// Loads the address database and returns the anchor peers.
    fn start_addr_man(&mut self) -> (r: Vec<LocalAddress>)
        ensures
            final(self).log() == old(self).log().push(HostEvent::StartAddrMan(r@)),
    ;

    /// Writes the address database to disk; whether that succeeded.
    fn dump_peers(&mut self) -> (r: bool)
        ensures
            final(self).log() == old(self).log().push(HostEvent::DumpPeers(r)),
    ;

    /// Writes the ids of the addresses of the Utreexo peers to disk; whether that succeeded.
    fn dump_utreexo_peers(&mut self, peers: &Vec<usize>) -> (r: bool)
        ensures
            final(self).log() == old(self).log().push(HostEvent::DumpUtreexoPeers(peers@, r)),
    ;

    // === network ===
    /// Starts fetching addresses from the DNS seeds of the network.
    fn get_peers_from_dns(&mut self) -> (r: Result<(), WireError>)
        ensures
            final(self).log() == old(self).log().push(HostEvent::DnsSeeds(r)),
    ;

    /// Starts the task of a new outgoing connection, known to the node as
    /// `peer_id_count`, with a channel of its own for the node's requests.
    fn spawn_peer_task(
        &mut self,
        kind: ConnectionKind,
        peer_id: usize,
        address: LocalAddress,
        peer_id_count: u32,
        allow_v1_fallback: bool,
    )
        ensures
            final(self).log() == old(self).log().push(
                HostEvent::SpawnPeer(kind, peer_id, address, peer_id_count, allow_v1_fallback),
            ),
    ;

    /// Queues `request` on the channel of the connection task of `peer`. It
    /// fails, with `WireError::ChannelSend`, when that task has closed its end.
    fn send_request(&mut self, peer: PeerId, request: NodeRequest) -> (r: Result<(), WireError>)
        ensures
            final(self).log() == old(self).log().push(HostEvent::Sent(peer, request@, r)),
            r matches Err(e) ==> e == WireError::ChannelSend,
    ;

    // === peers' response times ===
    /// Picks one of `candidates`, favouring those that answer fast; `None` when
    /// no candidate has a measured response time.
    fn pick_by_latency(&mut self, candidates: &Vec<PeerId>) -> (r: Option<PeerId>)
        ensures
            final(self).log() == old(self).log().push(HostEvent::PickByLatency(candidates@, r)),
    ;

    /// Records that `peer` answered a request after this many nanoseconds.
    fn add_message_time(&mut self, peer: PeerId, elapsed_nanos: u64)
        ensures
            final(self).log() == old(self).log().push(HostEvent::MessageTime(peer, elapsed_nanos)),
    ;

    /// Records how long processing a block took, in nanoseconds.
    fn add_block_time(&mut self, elapsed_nanos: u64)
        ensures
            final(self).log() == old(self).log().push(HostEvent::BlockTime(elapsed_nanos)),
    ;

    /// The monotonic clock, in nanoseconds.
    fn monotonic_nanos(&mut self) -> (r: u64)
        ensures
            final(self).log() == old(self).log().push(HostEvent::Clock(r)),
    ;

    /// The wall clock, in seconds since the UNIX epoch.
    fn unix_seconds(&mut self) -> (r: u64)
        ensures
            final(self).log() == old(self).log().push(HostEvent::UnixClock(r)),
    ;

    // === users' requests ===
    /// Completes the user request `request`, if one waits: `found` tells whether
    /// the peer delivered the item. `None` when no such request waits; otherwise
    /// whether the answer could be handed to the user.
    fn answer_user_request(&mut self, request: UserRequest, found: bool) -> (r: Option<bool>)
        ensures
            final(self).log() == old(self).log().push(HostEvent::AnswerUser(request, found, r)),
    ;

    // === block chain ===
    /// The chain's block locator.
    fn get_block_locator(&mut self) -> (r: Result<Vec<BlockHash>, WireError>)
        ensures
            final(self).log() == old(self).log().push(HostEvent::BlockLocator(hashes_view(r))),
    ;

    /// The height of the chain's best block.
    fn get_best_block_height(&mut self) -> (r: Result<u32, WireError>)
        ensures
            final(self).log() == old(self).log().push(HostEvent::BestBlockHeight(r)),
    ;

    /// The height up to which the chain has validated blocks.
    fn get_validation_index(&mut self) -> (r: Result<u32, WireError>)
        ensures
            final(self).log() == old(self).log().push(HostEvent::ValidationIndex(r)),
    ;

    /// The hash of the chain's block at `height`.
    fn get_block_hash(&mut self, height: u32) -> (r: Result<BlockHash, WireError>)
        ensures
            final(self).log() == old(self).log().push(HostEvent::BlockHashAt(height, r)),
    ;

    /// The hash of the genesis block.
    fn genesis_hash(&mut self) -> (r: BlockHash)
        ensures
            final(self).log() == old(self).log().push(HostEvent::GenesisHash(r)),
    ;

    /// Checks the Utreexo proof of the pending block `block` at `height`, given
    /// the leaf data of the outputs it spends, against the chain's accumulator;
    /// what the check found, to connect the block with.
    fn process_proof(&mut self, block: &Block, leaf_data: &Vec<CompactLeafData>, height: u32) -> (r:
        Result<CheckedProof, BlockchainError>)
        ensures
            final(self).log() == old(self).log().push(
                HostEvent::ProcessProof(*block, *leaf_data, height, r),
            ),
    ;

    /// Connects the pending block `block` to the chain, with its proof and what
    /// checking the proof found.
    fn connect_block(&mut self, block: &Block, proof: AccumulatorProof, checked: CheckedProof) -> (r:
        Result<(), BlockchainError>)
        ensures
            final(self).log() == old(self).log().push(
                HostEvent::ConnectBlock(*block, proof, checked, r),
            ),
    ;

    /// Marks the block `hash` invalid.
    fn invalidate_block(&mut self, hash: BlockHash) -> (r: Result<(), WireError>)
        ensures
            final(self).log() == old(self).log().push(HostEvent::InvalidateBlock(hash)),
    ;
}

/// A call made to a host, with its arguments and what came back.
pub enum HostEvent {
    SetAddressState(usize, AddressState),
    SetAddressServices(usize, ServiceFlags),
    PushAddresses(Seq<LocalAddress>),
    EnoughAddresses(bool),
    AddFixedAddresses(Network),
    AddressToConnect(ServiceFlags, bool, Option<(usize, LocalAddress)>),
    StartAddrMan(Seq<LocalAddress>),
    DumpPeers(bool),
    DumpUtreexoPeers(Seq<usize>, bool),
    DnsSeeds(Result<(), WireError>),
    SpawnPeer(ConnectionKind, usize, LocalAddress, u32, bool),
    PickByLatency(Seq<PeerId>, Option<PeerId>),
    MessageTime(PeerId, u64),
    BlockTime(u64),
    /// A reading of the monotonic clock (nanoseconds).
    Clock(u64),
    /// A reading of the wall clock (UNIX seconds).
    UnixClock(u64),
    AnswerUser(UserRequest, bool, Option<bool>),
    BlockLocator(Result<Seq<BlockHash>, WireError>),
    BestBlockHeight(Result<u32, WireError>),
    ValidationIndex(Result<u32, WireError>),
    BlockHashAt(u32, Result<BlockHash, WireError>),
    GenesisHash(BlockHash),
    ProcessProof(Block, Vec<CompactLeafData>, u32, Result<CheckedProof, BlockchainError>),
    ConnectBlock(Block, AccumulatorProof, CheckedProof, Result<(), BlockchainError>),
    InvalidateBlock(BlockHash),
    /// A request handed to the channel of a peer, and whether it was queued.
    Sent(PeerId, RequestView, Result<(), WireError>),
}

} // verus!
