//! Plain-value types that the node's bookkeeping works on.
use vstd::prelude::*;

use crate::vec_map::MapKey;

verus! {

/// A peer's identifier inside the node: the value of the peer counter when the
/// connection was opened.
pub type PeerId = u32;

/// A 256-bit hash (block hash, txid), as four 64-bit words in little-endian order.
#[derive(Clone, Copy, PartialEq, Eq, Structural, Debug)]
pub struct Hash256(pub u64, pub u64, pub u64, pub u64);

pub type BlockHash = Hash256;

pub type Txid = Hash256;

impl MapKey for Hash256 {
    fn same_key(&self, other: &Self) -> (same: bool) {
        *self == *other
    }
}

/// The little-endian 64-bit word at byte `i` of `b`.
pub open spec fn le_word(b: Seq<u8>, i: int) -> int {
    b[i] + 0x100 * b[i + 1] + 0x1_0000 * b[i + 2] + 0x100_0000 * b[i + 3] + 0x1_0000_0000 * b[i
        + 4] + 0x100_0000_0000 * b[i + 5] + 0x1_0000_0000_0000 * b[i + 6] + 0x100_0000_0000_0000
        * b[i + 7]
}

/// The hash whose 32 bytes are `b`.
pub open spec fn hash_of_bytes(b: Seq<u8>) -> Hash256 {
    Hash256(le_word(b, 0) as u64, le_word(b, 8) as u64, le_word(b, 16) as u64, le_word(b, 24) as u64)
}

/// The little-endian 64-bit word at byte `i` of `b`.
fn le_word_at(b: &[u8; 32], i: usize) -> (w: u64)
    requires
        i + 8 <= 32,
    ensures
        w as int == le_word(b@, i as int),
{
    b[i] as u64 + 0x100 * (b[i + 1] as u64) + 0x1_0000 * (b[i + 2] as u64) + 0x100_0000 * (b[i
        + 3] as u64) + 0x1_0000_0000 * (b[i + 4] as u64) + 0x100_0000_0000 * (b[i + 5] as u64)
        + 0x1_0000_0000_0000 * (b[i + 6] as u64) + 0x100_0000_0000_0000 * (b[i + 7] as u64)
}

/// The hash whose 32 bytes are `b`.
pub fn hash_from_bytes(b: &[u8; 32]) -> (h: Hash256)
    ensures
        h == hash_of_bytes(b@),
{
    Hash256(le_word_at(b, 0), le_word_at(b, 8), le_word_at(b, 16), le_word_at(b, 24))
}

/// The hash of a block whose serialized header is `header`: the double SHA-256
/// of the header.
pub open spec fn header_hash(header: Seq<u8>) -> Hash256 {
    hash_of_bytes(crate::external::sha256d_digest(header))
}

/// A block as the node reads it: its header, as serialized (80 bytes), and its
/// transactions.
#[derive(Debug)]
pub struct Block {
    pub header: Vec<u8>,
    pub txdata: Vec<Transaction>,
}

impl Block {
    /// The block's hash.
    pub fn block_hash(&self) -> (h: BlockHash)
        ensures
            h == header_hash(self.header@),
    {
        let digest = crate::external::sha256d(&self.header);
        hash_from_bytes(&digest)
    }
}

/// The txid of a transaction whose serialization without witness data is
/// `data`: the double SHA-256 of it.
pub open spec fn txid_of(data: Seq<u8>) -> Txid {
    hash_of_bytes(crate::external::sha256d_digest(data))
}

/// A transaction as the node reads it: its serialization without witness data.
#[derive(Debug)]
pub struct Transaction {
    pub data: Vec<u8>,
}

impl Transaction {
    /// The transaction's id.
    pub fn compute_txid(&self) -> (id: Txid)
        ensures
            id == txid_of(self.data@),
    {
        let digest = crate::external::sha256d(&self.data);
        hash_from_bytes(&digest)
    }
}

/// The kind of script that locks an output spent by a block, as the leaf data
/// of a Utreexo proof gives it: one of the standard kinds, or the script itself.
#[derive(Debug)]
pub enum ScriptPubkeyKind {
    Other(Vec<u8>),
    PubKeyHash,
    WitnessV0PubKeyHash,
    ScriptHash,
    WitnessV0ScriptHash,
}

/// What the Utreexo accumulator needs of an output that a block spends, in the
/// compact form a peer sends with the block's proof.
#[derive(Debug)]
pub struct CompactLeafData {
    /// The height at which the output was created, shifted left by one, with
    /// the low bit set if it was created by a coinbase.
    pub header_code: u32,
    pub amount: u64,
    pub spk_ty: ScriptPubkeyKind,
}

/// A Utreexo inclusion proof: the positions of the proven leaves in the
/// accumulator and the hashes needed to recompute its roots.
#[derive(Debug)]
pub struct AccumulatorProof {
    pub targets: Vec<u64>,
    pub hashes: Vec<Hash256>,
}

/// Whether `p` is the empty proof, which proves no leaf.
pub open spec fn is_empty_proof(p: AccumulatorProof) -> bool {
    &&& p.targets@.len() == 0
    &&& p.hashes@.len() == 0
}

impl AccumulatorProof {
    /// The empty proof, which proves no leaf: the proof of a block that spends
    /// nothing.
    pub fn empty() -> (p: AccumulatorProof)
        ensures
            is_empty_proof(p),
    {
        AccumulatorProof { targets: Vec::new(), hashes: Vec::new() }
    }
}

/// The Utreexo proof of a block, with the leaf data of the outputs it spends, as
/// a peer sends it.
#[derive(Debug)]
pub struct UtreexoProof {
    pub block_hash: BlockHash,
    pub leaf_data: Vec<CompactLeafData>,
    pub targets: Vec<u64>,
    pub proof_hashes: Vec<Hash256>,
}

/// An output that a block spends, as the chain learns it from a checked proof.
#[derive(Debug)]
pub struct SpentOutput {
    pub txid: Txid,
    pub vout: u32,
    pub amount: u64,
    pub script_pubkey: Vec<u8>,
    pub is_coinbase: bool,
    pub creation_height: u32,
    pub creation_time: u32,
}

/// What checking a block's proof gives the chain to connect it with: the
/// hashes of the leaves the block deletes, and the outputs it spends.
#[derive(Debug)]
pub struct CheckedProof {
    pub del_hashes: Vec<Hash256>,
    pub inputs: Vec<SpentOutput>,
}

/// Bit of a peer that serves the full block chain.
pub const NODE_NETWORK: u64 = 1;

/// Bit of a peer that serves compact block filters.
pub const NODE_COMPACT_FILTERS: u64 = 64;

/// Bit of a peer that serves Utreexo proofs.
pub const NODE_UTREEXO: u64 = 0x100_0000;

/// Service bit 25, which the node also indexes peers by.
pub const NODE_UTREEXO_ARCHIVE: u64 = 0x200_0000;

/// The services a peer advertises, as the bit set of the P2P protocol.
#[derive(Clone, Copy, PartialEq, Eq, Structural, Debug)]
pub struct ServiceFlags(pub u64);

impl MapKey for ServiceFlags {
    fn same_key(&self, other: &Self) -> (same: bool) {
        self.0 == other.0
    }
}

impl ServiceFlags {
    /// Whether every bit of `other` is set in `self`.
    pub open spec fn spec_has(self, other: ServiceFlags) -> bool {
        (self.0 | other.0) == self.0
    }

    /// Whether every bit of `other` is set in `self`.
    pub fn has(self, other: ServiceFlags) -> (b: bool)
        ensures
            b == self.spec_has(other),
    {
        (self.0 | other.0) == self.0
    }

    pub fn none() -> (f: ServiceFlags)
        ensures
            f.0 == 0,
    {
        ServiceFlags(0)
    }

    pub fn network() -> (f: ServiceFlags)
        ensures
            f.0 == NODE_NETWORK,
    {
        ServiceFlags(NODE_NETWORK)
    }

    pub fn compact_filters() -> (f: ServiceFlags)
        ensures
            f.0 == NODE_COMPACT_FILTERS,
    {
        ServiceFlags(NODE_COMPACT_FILTERS)
    }

    pub fn utreexo() -> (f: ServiceFlags)
        ensures
            f.0 == NODE_UTREEXO,
    {
        ServiceFlags(NODE_UTREEXO)
    }

    pub fn utreexo_archive() -> (f: ServiceFlags)
        ensures
            f.0 == NODE_UTREEXO_ARCHIVE,
    {
        ServiceFlags(NODE_UTREEXO_ARCHIVE)
    }
}

/// An IP address: IPv4 as its 32 bits, IPv6 as its 128 bits (big-endian order of octets).
#[derive(Clone, Copy, PartialEq, Eq, Structural, Debug)]
pub enum IpAddress {
    V4(u32),
    V6(u128),
}

/// The address of a peer as gossiped on the network (BIP 155).
#[derive(Clone, Copy, PartialEq, Eq, Structural, Debug)]
pub enum AddrV2 {
    Ipv4(u32),
    Ipv6(u128),
    TorV2(u128),
    TorV3(Hash256),
    I2p(Hash256),
    Cjdns(u128),
    Unknown(u8),
}

/// `127.0.0.1`.
pub const LOCALHOST_V4: u32 = 0x7f00_0001;

/// The IP address that stands for an address: the address itself for IPv4 and
/// IPv6, localhost for the others.
pub open spec fn spec_net_address(a: AddrV2) -> IpAddress {
    match a {
        AddrV2::Ipv4(ip) => IpAddress::V4(ip),
        AddrV2::Ipv6(ip) => IpAddress::V6(ip),
        _ => IpAddress::V4(LOCALHOST_V4),
    }
}

/// The gossip address of an IP address.
pub open spec fn spec_to_addr_v2(ip: IpAddress) -> AddrV2 {
    match ip {
        IpAddress::V4(a) => AddrV2::Ipv4(a),
        IpAddress::V6(a) => AddrV2::Ipv6(a),
    }
}

/// Turns an IP address into a gossip address.
pub fn to_addr_v2(ip: IpAddress) -> (a: AddrV2)
    ensures
        a == spec_to_addr_v2(ip),
{
    match ip {
        IpAddress::V4(a) => AddrV2::Ipv4(a),
        IpAddress::V6(a) => AddrV2::Ipv6(a),
    }
}

/// The state of the connection with a peer.
#[derive(Clone, Copy, PartialEq, Eq, Structural, Debug)]
pub enum PeerStatus {
    Awaiting,
    Ready,
    Banned,
}

/// Why a connection was opened.
#[derive(Clone, Copy, PartialEq, Eq, Structural, Debug)]
pub enum ConnectionKind {
    /// Opened to learn whether an address works; closed after the handshake.
    Feeler,
    /// A long-lived connection with a peer that must offer these services.
    Regular(ServiceFlags),
    /// A short-lived connection used to ask for headers.
    Extra,
}

/// The transport protocol of a connection.
#[derive(Clone, Copy, PartialEq, Eq, Structural, Debug)]
pub enum TransportProtocol {
    V1,
    V2,
}

/// What the address manager records of an address.
#[derive(Clone, Copy, PartialEq, Eq, Structural, Debug)]
pub enum AddressState {
    NeverTried,
    /// Connected successfully at this UNIX time (seconds).
    Tried(u64),
    Connected,
    /// Banned for this many seconds.
    Banned(u64),
    /// Failed to connect at this UNIX time (seconds).
    Failed(u64),
}

/// An address known to the address manager.
#[derive(Clone, Copy, PartialEq, Eq, Structural, Debug)]
pub struct LocalAddress {
    pub address: AddrV2,
    pub last_connected: u64,
    pub state: AddressState,
    pub services: ServiceFlags,
    pub port: u16,
    pub id: usize,
}

impl LocalAddress {
    pub fn new(
        address: AddrV2,
        last_connected: u64,
        state: AddressState,
        services: ServiceFlags,
        port: u16,
        id: usize,
    ) -> (a: LocalAddress)
        ensures
            a == (LocalAddress { address, last_connected, state, services, port, id }),
    {
        LocalAddress { address, last_connected, state, services, port, id }
    }

    /// The IP address to connect to.
    pub fn get_net_address(&self) -> (ip: IpAddress)
        ensures
            ip == spec_net_address(self.address),
    {
        match self.address {
            AddrV2::Ipv4(ip) => IpAddress::V4(ip),
            AddrV2::Ipv6(ip) => IpAddress::V6(ip),
            _ => IpAddress::V4(LOCALHOST_V4),
        }
    }

    pub fn get_port(&self) -> (p: u16)
        ensures
            p == self.port,
    {
        self.port
    }
}

/// A request that the node hands to a peer's connection task.
#[derive(Debug)]
pub enum NodeRequest {
    Shutdown,
    GetAddresses,
    GetBlock(Vec<BlockHash>),
    /// The Utreexo proof of a block (all leaves requested).
    GetBlockProof(BlockHash),
    GetHeaders(Vec<BlockHash>),
    GetUtreexoState(BlockHash, u32),
    GetFilter(BlockHash, u32),
}

/// Copies a list of hashes.
pub fn copy_hashes(v: &Vec<BlockHash>) -> (c: Vec<BlockHash>)
    ensures
        c@ == v@,
{
    let mut c: Vec<BlockHash> = Vec::new();
    let mut i: usize = 0;
    while i < v.len()
        invariant
            i <= v@.len(),
            c@ == v@.subrange(0, i as int),
        decreases v@.len() - i,
    {
        c.push(v[i]);
        i = i + 1;
        proof {
            assert(c@ =~= v@.subrange(0, i as int));
        }
    }
    proof {
        assert(c@ =~= v@);
    }
    c
}

/// What a request asks for, with its hash lists as sequences.
pub enum RequestView {
    Shutdown,
    GetAddresses,
    GetBlock(Seq<BlockHash>),
    GetBlockProof(BlockHash),
    GetHeaders(Seq<BlockHash>),
    GetUtreexoState(BlockHash, u32),
    GetFilter(BlockHash, u32),
}

impl View for NodeRequest {
    type V = RequestView;

    open spec fn view(&self) -> RequestView {
        match self {
            NodeRequest::Shutdown => RequestView::Shutdown,
            NodeRequest::GetAddresses => RequestView::GetAddresses,
            NodeRequest::GetBlock(v) => RequestView::GetBlock(v@),
            NodeRequest::GetBlockProof(h) => RequestView::GetBlockProof(*h),
            NodeRequest::GetHeaders(v) => RequestView::GetHeaders(v@),
            NodeRequest::GetUtreexoState(h, n) => RequestView::GetUtreexoState(*h, *n),
            NodeRequest::GetFilter(h, n) => RequestView::GetFilter(*h, *n),
        }
    }
}

impl NodeRequest {
    /// A copy of the request that asks for the same.
    pub fn duplicate(&self) -> (r: NodeRequest)
        ensures
            r@ == self@,
    {
        match self {
            NodeRequest::Shutdown => NodeRequest::Shutdown,
            NodeRequest::GetAddresses => NodeRequest::GetAddresses,
            NodeRequest::GetBlock(v) => NodeRequest::GetBlock(copy_hashes(v)),
            NodeRequest::GetBlockProof(h) => NodeRequest::GetBlockProof(*h),
            NodeRequest::GetHeaders(v) => NodeRequest::GetHeaders(copy_hashes(v)),
            NodeRequest::GetUtreexoState(h, n) => NodeRequest::GetUtreexoState(*h, *n),
            NodeRequest::GetFilter(h, n) => NodeRequest::GetFilter(*h, *n),
        }
    }
}

/// A request that the node waits for a peer to answer.
#[derive(Clone, Copy, PartialEq, Eq, Structural, Debug)]
pub enum InflightRequest {
    Blocks(BlockHash),
    Connect(PeerId),
    Headers,
    UtreexoProof(BlockHash),
    UtreexoState(PeerId),
    GetFilters,
}

impl MapKey for InflightRequest {
    fn same_key(&self, other: &Self) -> (same: bool) {
        *self == *other
    }
}

/// A request made by a user of the node that a peer's message may complete.
#[derive(Clone, Copy, PartialEq, Eq, Structural, Debug)]
pub enum UserRequest {
    Block(BlockHash),
    MempoolTransaction(Txid),
}

/// An inventory item (what a peer says it has, or has not).
#[derive(Clone, Copy, PartialEq, Eq, Structural, Debug)]
pub enum Inventory {
    Error,
    Transaction(Txid),
    Block(BlockHash),
    CompactBlock(BlockHash),
    WTx(Hash256),
    WitnessTransaction(Txid),
    WitnessBlock(BlockHash),
    Unknown(u32),
}

/// A message from a peer's connection task, with what the node reads of it.
#[derive(Debug)]
pub enum PeerMessage {
    /// Addresses of other nodes.
    Addr(Vec<LocalAddress>),
    /// Items the peer does not have.
    NotFound(Inventory),
    /// A mempool transaction.
    Transaction(Transaction),
    /// A Utreexo accumulator state.
    UtreexoState,
    /// A block.
    Block(Block),
    /// The handshake finished.
    Ready,
    /// Block headers.
    Headers,
    /// A compact block filter.
    BlockFilter,
    /// Any other message, by a code of the caller's choosing.
    Other(u32),
}

/// Errors of the node's P2P layer.
#[derive(Clone, Copy, PartialEq, Eq, Structural, Debug)]
pub enum WireError {
    NoPeersAvailable,
    NoUtreexoPeersAvailable,
    NoAddressesAvailable,
    ChannelSend,
    ResponseSendError,
    PeerAlreadyExists(IpAddress, u16),
    PeerNotFoundAtAddress(IpAddress, u16),
    BlockNotFound,
    LeafDataNotFound,
    BlockProofNotFound,
    PeerMisbehaving,
    /// A filesystem or network operation failed.
    Io,
    /// The block chain reported an error.
    Chain,
    /// Every peer id has been handed out.
    PeerIdsExhausted,
}

/// Why a connect-host string was refused.
#[derive(Clone, Copy, PartialEq, Eq, Structural, Debug)]
pub enum AddrParseError {
    InvalidIpv6,
    InvalidIpv4,
    InvalidHostname,
    InvalidPort,
    Inconclusive,
}

/// Why the chain refused a block.
#[derive(Clone, Copy, PartialEq, Eq, Structural, Debug)]
pub enum BlockValidationErrors {
    InvalidCoinbase,
    UtxoNotFound,
    ScriptValidationError,
    NullPrevOut,
    EmptyInputs,
    EmptyOutputs,
    ScriptError,
    BlockTooBig,
    NotEnoughPow,
    TooManyCoins,
    BadMerkleRoot,
    BadWitnessCommitment,
    NotEnoughMoney,
    FirstTxIsNotCoinbase,
    BadCoinbaseOutValue,
    EmptyBlock,
    BadBip34,
    BIP94TimeWarp,
    UnspendableUTXO,
    CoinbaseNotMatured,
    InvalidProof,
    BlockExtendsAnOrphanChain,
    BlockDoesntExtendTip,
}

/// An error of the chain backend when connecting a block.
#[derive(Clone, Copy, PartialEq, Eq, Structural, Debug)]
pub enum BlockchainError {
    BlockValidation(BlockValidationErrors),
    /// Any error that is not a validation error.
    Other,
}

/// The Bitcoin networks.
#[derive(Clone, Copy, PartialEq, Eq, Structural, Debug)]
pub enum Network {
    Bitcoin,
    Testnet,
    Testnet4,
    Signet,
    Regtest,
}

/// The default P2P port of a network.
pub open spec fn spec_default_port(network: Network) -> u16 {
    match network {
        Network::Bitcoin => 8333,
        Network::Signet => 38333,
        Network::Testnet => 18333,
        Network::Testnet4 => 48333,
        Network::Regtest => 18444,
    }
}

/// A peer added by hand with `addnode <ip:port> add`.
#[derive(Clone, Copy, PartialEq, Eq, Structural, Debug)]
pub struct AddedPeerInfo {
    /// The address of the peer
    pub address: AddrV2,
    /// The port of the peer
    pub port: u16,
    /// Whether we should allow V1 fallback for this connection
    pub v1_fallback: bool,
}

/// What a peer told about itself in the handshake.
#[derive(Debug)]
pub struct Version {
    pub id: PeerId,
    pub kind: ConnectionKind,
    pub address_id: usize,
    pub services: ServiceFlags,
    pub user_agent: String,
    pub blocks: u32,
    pub transport_protocol: TransportProtocol,
}

} // verus!
