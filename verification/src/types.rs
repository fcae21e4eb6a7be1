//! Plain values that the transaction hash set is made of.
use vstd::prelude::*;

verus! {

/// A 256-bit digest: of a node of a tree, or naming a block.
#[derive(Clone, Copy, Debug, PartialEq, Eq)]
pub struct Hash256 {
    pub bytes: [u8; 32],
}

/// A Pedersen commitment in its compressed form.
#[derive(Clone, Copy, Debug, PartialEq, Eq)]
pub struct Commitment {
    pub bytes: [u8; 33],
}

/// Values that can be told apart, and so can serve as the keys of a table.
pub trait Key: Copy {
    /// Whether both values are the same.
    fn same(&self, other: &Self) -> (same: bool)
        ensures
            same == (*self == *other),
    ;
}

fn same_bytes<const N: usize>(a: &[u8; N], b: &[u8; N]) -> (same: bool)
    ensures
        same == (*a == *b),
{
    let mut i: usize = 0;
    while i < N
        invariant
            i <= N,
            forall|j: int| 0 <= j < i ==> a@[j] == b@[j],
        decreases N - i,
    {
        if a[i] != b[i] {
            return false;
        }
        i = i + 1;
    }
    assert(a@ =~= b@);
    assert(*a =~= *b);
    true
}

impl Key for Hash256 {
    fn same(&self, other: &Self) -> (same: bool) {
        same_bytes(&self.bytes, &other.bytes)
    }
}

impl Key for Commitment {
    fn same(&self, other: &Self) -> (same: bool) {
        same_bytes(&self.bytes, &other.bytes)
    }
}

/// The three trees of a transaction hash set.
#[derive(Clone, Copy, Debug, PartialEq, Eq, Structural)]
pub enum Tree {
    Output,
    RangeProof,
    Kernel,
}

/// What the output tree stores of an output.
#[derive(Clone, Copy, Debug, PartialEq, Eq)]
pub struct OutputIdentifier {
    /// Whether the output is a coinbase output.
    pub coinbase: bool,
    pub commit: Commitment,
}

/// A range proof, carried as it is serialised.
#[derive(Debug, PartialEq, Eq)]
pub struct RangeProof {
    pub bytes: Vec<u8>,
}

/// A Merkle proof, carried as it is serialised.
#[derive(Debug, PartialEq, Eq)]
pub struct MerkleProof {
    pub bytes: Vec<u8>,
}

/// A transaction output.
#[derive(Debug, PartialEq, Eq)]
pub struct Output {
    pub coinbase: bool,
    pub commit: Commitment,
    pub proof: RangeProof,
}

/// A transaction input: the output that it spends, and the block that the
/// output came with.
#[derive(Debug, PartialEq, Eq)]
pub struct Input {
    pub coinbase: bool,
    pub commit: Commitment,
    pub block_hash: Hash256,
    pub merkle_proof: Option<MerkleProof>,
}

/// A transaction kernel. The parts besides the excess are carried as they are
/// serialised.
#[derive(Debug, PartialEq, Eq)]
pub struct TxKernel {
    pub excess: Commitment,
    pub body: Vec<u8>,
}

/// A transaction that is not part of a block yet.
#[derive(Debug, PartialEq, Eq)]
pub struct Transaction {
    pub inputs: Vec<Input>,
    pub outputs: Vec<Output>,
    pub kernels: Vec<TxKernel>,
}

/// A block, with the hash of its header.
#[derive(Debug, PartialEq, Eq)]
pub struct Block {
    pub hash: Hash256,
    pub inputs: Vec<Input>,
    pub outputs: Vec<Output>,
    pub kernels: Vec<TxKernel>,
}

/// A blinding factor: the offset of a sum of kernels.
#[derive(Clone, Copy, Debug, PartialEq, Eq)]
pub struct BlindingFactor {
    pub bytes: [u8; 32],
}

/// A block header, with its own hash.
#[derive(Clone, Copy, Debug, PartialEq, Eq)]
pub struct BlockHeader {
    pub hash: Hash256,
    pub previous: Hash256,
    pub height: u64,
    pub output_root: Hash256,
    pub range_proof_root: Hash256,
    pub kernel_root: Hash256,
    pub total_overage: i64,
    pub total_kernel_offset: BlindingFactor,
}

/// Sizes of the output tree and of the kernel tree at the end of a block.
#[derive(Clone, Copy, Debug, PartialEq, Eq, Structural)]
pub struct BlockMarker {
    pub output_pos: u64,
    pub kernel_pos: u64,
}

/// Numbers of positions of the three trees.
#[derive(Clone, Copy, Debug, PartialEq, Eq, Structural)]
pub struct Sizes {
    pub output: u64,
    pub rproof: u64,
    pub kernel: u64,
}

/// Sums of the unspent outputs and of the kernel excesses at a block.
#[derive(Clone, Copy, Debug, PartialEq, Eq)]
pub struct BlockSums {
    pub output_sum: Commitment,
    pub kernel_sum: Commitment,
}

/// Roots of the three trees.
#[derive(Clone, Copy, Debug, PartialEq, Eq)]
pub struct TxHashSetRoots {
    pub output_root: Hash256,
    pub rproof_root: Hash256,
    pub kernel_root: Hash256,
}

/// Failure of the chain store.
#[derive(Debug, PartialEq, Eq)]
pub enum StoreError {
    /// Nothing is stored under the key.
    NotFound,
    /// The store could not answer.
    Failed(String),
}

/// The text that goes with an error.
#[derive(Debug, PartialEq, Eq)]
pub enum Message {
    HashMismatch,
    OutputHashMismatch,
    UnspentCheck,
    /// A text that came from a tree.
    Text(String),
}

/// Failure of an operation on the transaction hash set.
#[derive(Debug, PartialEq, Eq)]
pub enum Error {
    /// The output is not in the output tree.
    OutputNotFound,
    /// The output that an input refers to is not unspent.
    AlreadySpent(Commitment),
    /// An unspent output with the same commitment exists.
    DuplicateCommitment(Commitment),
    /// The roots of the trees are not those of the header.
    InvalidRoot,
    /// A tree does not hold together.
    InvalidTxHashSet(String),
    /// A tree refused an operation, or does not hold what it should.
    TxHashSetErr(Message),
    /// The chain store failed, in the given context.
    StoreErr(StoreError, Message),
    /// The chain store failed.
    Store(StoreError),
    /// A file could not be read or written.
    Io(String),
    /// A signature, a proof, a sum or the maturity of an output does not verify.
    Rejected(String),
    /// Any other failure.
    Other(String),
}

impl Message {
    /// The text in words.
    pub open spec fn words(self) -> Seq<char> {
        match self {
            Message::HashMismatch => "txhashset hash mismatch"@,
            Message::OutputHashMismatch => "output pmmr hash mismatch"@,
            Message::UnspentCheck => "txhashset unspent check"@,
            Message::Text(text) => text@,
        }
    }

    /// The text in words.
    pub fn text(self) -> (text: String)
        ensures
            text@ == self.words(),
    {
        match self {
            Message::HashMismatch => "txhashset hash mismatch".to_string(),
            Message::OutputHashMismatch => "output pmmr hash mismatch".to_string(),
            Message::UnspentCheck => "txhashset unspent check".to_string(),
            Message::Text(text) => text,
        }
    }
}

impl OutputIdentifier {
    /// What the output tree stores of an output.
    pub open spec fn of_output(out: Output) -> OutputIdentifier {
        OutputIdentifier { coinbase: out.coinbase, commit: out.commit }
    }

    /// What the output tree stores of the output that an input spends.
    pub open spec fn of_input(input: Input) -> OutputIdentifier {
        OutputIdentifier { coinbase: input.coinbase, commit: input.commit }
    }

    /// What the output tree stores of an output.
    pub fn from_output(out: &Output) -> (id: OutputIdentifier)
        ensures
            id == OutputIdentifier::of_output(*out),
    {
        OutputIdentifier { coinbase: out.coinbase, commit: out.commit }
    }

    /// What the output tree stores of the output that an input spends.
    pub fn from_input(input: &Input) -> (id: OutputIdentifier)
        ensures
            id == OutputIdentifier::of_input(*input),
    {
        OutputIdentifier { coinbase: input.coinbase, commit: input.commit }
    }
}

} // verus!
