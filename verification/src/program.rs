//! How the library talks to the chain store, to the trees and to the
//! cryptography, none of which it contains.
//!
//! An operation is a dialogue. It makes one request at a time, is resumed with
//! the reply, and ends with a result. [`Program`] is the mathematical form of
//! such a dialogue: it says what is requested next and how the dialogue goes on
//! for every reply. A type with [`Run`] is an operation under way, and the
//! contract of that trait holds it to its program.
use crate::bitmap::bitmap_values;
use crate::types::{
    BlindingFactor, BlockHeader, BlockMarker, BlockSums, Commitment, Error, Hash256, Input,
    MerkleProof, OutputIdentifier, RangeProof, StoreError, Tree, TxKernel,
};
use croaring::Bitmap;
use vstd::prelude::*;

verus! {

/// The kinds of replies.
#[derive(Clone, Copy, Debug, PartialEq, Eq, Structural)]
pub enum Kind {
    Pos,
    Marker,
    Header,
    Bitmap,
    Stored,
    Size,
    MaybeHash,
    MaybeOutput,
    MaybeProof,
    MaybeKernel,
    Pushed,
    Pruned,
    Done,
    Digest,
    Proof,
    Sums,
    Commit,
    Opened,
    Outputs,
    Proofs,
    Kernels,
    OutputPage,
    ProofPage,
    Unit,
}

/// What comes back for a request.
pub enum Reply {
    /// The position that the index has for a commitment.
    Pos(Result<u64, StoreError>),
    /// The marker of a block.
    Marker(Result<BlockMarker, StoreError>),
    /// A block header.
    Header(Result<BlockHeader, StoreError>),
    /// The positions of the outputs that a block spends.
    Bitmap(Result<Bitmap, StoreError>),
    /// Whether the chain store kept a value.
    Stored(Result<(), StoreError>),
    /// The number of positions of a tree.
    Size(u64),
    /// The hash at a position, unless it is pruned or beyond the tree.
    MaybeHash(Option<Hash256>),
    /// The element at a position of the output tree.
    MaybeOutput(Option<OutputIdentifier>),
    /// The element at a position of the range proof tree.
    MaybeProof(Option<RangeProof>),
    /// The element at a position of the kernel tree.
    MaybeKernel(Option<TxKernel>),
    /// The position at which a tree appended an element.
    Pushed(Result<u64, String>),
    /// Whether an element was there to be pruned.
    Pruned(Result<bool, String>),
    /// Whether something was done.
    Done(Result<(), String>),
    /// A digest.
    Digest(Hash256),
    /// A Merkle proof.
    Proof(Result<MerkleProof, String>),
    /// Sums of outputs and of kernel excesses that agree.
    Sums(Result<(Commitment, Commitment), String>),
    /// A commitment.
    Commit(Commitment),
    /// The number of positions of a tree whose files were opened.
    Opened(Result<u64, String>),
    /// Elements of the output tree with their hashes.
    Outputs(Vec<(Hash256, OutputIdentifier)>),
    /// Elements of the range proof tree with their hashes.
    Proofs(Vec<(Hash256, RangeProof)>),
    /// Elements of the kernel tree with their hashes.
    Kernels(Vec<(Hash256, TxKernel)>),
    /// Elements of the output tree in order of insertion, after the index of
    /// the last one.
    OutputPage((u64, Vec<OutputIdentifier>)),
    /// Elements of the range proof tree in order of insertion, after the index
    /// of the last one.
    ProofPage((u64, Vec<RangeProof>)),
    /// Nothing.
    Unit,
}

/// A request in its mathematical form.
pub enum Call {
    OutputPos(Commitment),
    BlockMarker(Hash256),
    HeadHeader,
    HeaderByHeight(u64),
    BlockHeader(Hash256),
    InputBitmap(Hash256),
    SaveOutputPos(Commitment, u64),
    SaveBlockMarker(Hash256, BlockMarker),
    SaveBlockSums(Hash256, BlockSums),
    Size(Tree),
    OutputHash(u64),
    OutputData(u64),
    RproofData(u64),
    KernelData(u64),
    PushOutput(OutputIdentifier),
    PushRproof(RangeProof),
    PushKernel(TxKernel),
    Prune(Tree, u64),
    Rewind(Tree, u64, Set<u32>, Set<u32>),
    Root(Tree),
    Validate(Tree),
    MerkleProof(u64),
    Snapshot(Tree, BlockHeader),
    Dump(Tree, bool),
    DumpFromFile(bool),
    DumpStats,
    HashAt(u64, u64),
    MerkleProofAt(u64, u64),
    RootAt(Tree, u64),
    LastOutputs(u64, u64),
    LastProofs(u64, u64),
    LastKernels(u64, u64),
    OutputsFrom(u64, u64, u64),
    ProofsFrom(u64, u64, u64),
    CheckCompact(Tree, u64, Set<u32>, Set<u32>, bool),
    Discard(Tree),
    Sync(Tree),
    CreateDir(Tree),
    OpenBackend(Tree, Option<BlockHeader>),
    IdHash(OutputIdentifier, u64),
    PlainHash(OutputIdentifier),
    VerifyMaturity(Input, Hash256, BlockHeader, u64),
    VerifyKernel(TxKernel),
    VerifyProof(OutputIdentifier, RangeProof),
    KernelSums(i64, BlindingFactor, Seq<Commitment>, Seq<Commitment>),
    ZeroCommit,
    Report(u64, u64, u64, u64),
}

/// A request to whoever drives an operation.
#[derive(Clone, Copy)]
pub enum Request<'a> {
    /// Look up the position of a commitment in the index.
    OutputPos(Commitment),
    /// Look up the marker of a block.
    BlockMarker(Hash256),
    /// Look up the header of the head of the chain.
    HeadHeader,
    /// Look up the header at a height of the chain.
    HeaderByHeight(u64),
    /// Look up the header with a hash.
    BlockHeader(Hash256),
    /// Look up the positions of the outputs that a block spends.
    InputBitmap(Hash256),
    /// Keep the position of a commitment in the index.
    SaveOutputPos(Commitment, u64),
    /// Keep the marker of a block.
    SaveBlockMarker(Hash256, BlockMarker),
    /// Keep the sums at a block.
    SaveBlockSums(Hash256, BlockSums),
    /// Tell the number of positions of a tree, pruned ones included.
    Size(Tree),
    /// Read the hash at a position of the output tree.
    OutputHash(u64),
    /// Read the element at a position of the output tree.
    OutputData(u64),
    /// Read the element at a position of the range proof tree.
    RproofData(u64),
    /// Read the element at a position of the kernel tree.
    KernelData(u64),
    /// Append to the output tree.
    PushOutput(OutputIdentifier),
    /// Append to the range proof tree.
    PushRproof(&'a RangeProof),
    /// Append to the kernel tree.
    PushKernel(&'a TxKernel),
    /// Prune the element at a position of a tree.
    Prune(Tree, u64),
    /// Rewind a tree to a position, given the positions that were added and
    /// those that were removed since.
    Rewind(Tree, u64, &'a Bitmap, &'a Bitmap),
    /// Compute the root of a tree.
    Root(Tree),
    /// Check all hashes of a tree.
    Validate(Tree),
    /// Build the Merkle proof of a position of the output tree.
    MerkleProof(u64),
    /// Keep a snapshot of a tree, tagged with a block.
    Snapshot(Tree, &'a BlockHeader),
    /// Print a tree, in the short form or in full.
    Dump(Tree, bool),
    /// Print the output tree as its files have it, in the short form or in
    /// full.
    DumpFromFile(bool),
    /// Print the statistics of the output tree.
    DumpStats,
    /// Read the hash at a position (second) of the output tree as it stood at
    /// its last committed position (first).
    HashAt(u64, u64),
    /// Build the Merkle proof of a position (second) of the output tree as it
    /// stood at its last committed position (first).
    MerkleProofAt(u64, u64),
    /// Compute the root of a tree as it stood at its last committed position.
    RootAt(Tree, u64),
    /// Read the elements that were inserted last, as many as told (second), of
    /// the output tree as it stood at its last committed position (first).
    LastOutputs(u64, u64),
    /// The same of the range proof tree.
    LastProofs(u64, u64),
    /// The same of the kernel tree.
    LastKernels(u64, u64),
    /// Read elements from an index of insertion on (second), up to a number of
    /// them (third), of the output tree as it stood at its last committed
    /// position (first).
    OutputsFrom(u64, u64, u64),
    /// The same of the range proof tree.
    ProofsFrom(u64, u64, u64),
    /// Compact the files of a tree up to a position, given the positions added
    /// and removed since, and forget the index entries of what is dropped if
    /// the flag says so. It is left to the host to forget them: an entry that
    /// cannot be deleted is passed over and is no failure of the request.
    CheckCompact(Tree, u64, &'a Bitmap, &'a Bitmap, bool),
    /// Drop the uncommitted changes of a tree.
    Discard(Tree),
    /// Write the uncommitted changes of a tree to its files.
    Sync(Tree),
    /// Create the directory of a tree and those above it.
    CreateDir(Tree),
    /// Open the files of a tree, rewound to a header where one is given.
    OpenBackend(Tree, Option<&'a BlockHeader>),
    /// Hash an output identifier together with an index.
    IdHash(OutputIdentifier, u64),
    /// Hash an output identifier alone.
    PlainHash(OutputIdentifier),
    /// Check that the coinbase output that an input spends has matured: the
    /// hash that the output tree has for it, the header of its block, and the
    /// height at which it is spent.
    VerifyMaturity(&'a Input, Hash256, &'a BlockHeader, u64),
    /// Verify the signature of a kernel.
    VerifyKernel(&'a TxKernel),
    /// Verify the range proof of an output.
    VerifyProof(OutputIdentifier, &'a RangeProof),
    /// Verify that the kernel excesses sum to the unspent outputs, given the
    /// overage and the offset, the commitments of the outputs and the excesses.
    KernelSums(i64, BlindingFactor, &'a Vec<Commitment>, &'a Vec<Commitment>),
    /// Compute the commitment to zero.
    ZeroCommit,
    /// Tell how far a validation is: kernels done and in all, range proofs
    /// done and in all.
    Report(u64, u64, u64, u64),
}

/// What a reply must be besides of the right kind for the operation to be able
/// to go on.
#[derive(Clone, Copy, Debug, PartialEq, Eq, Structural)]
pub enum Need {
    /// Nothing more.
    Any,
    /// A position, if there is one, is at least one.
    Positive,
    /// A position was found.
    Found,
    /// There is an element.
    Present,
    /// There is no hash.
    Absent,
    /// A size, or the output position of a marker, has a successor.
    BelowMax,
}

impl Need {
    /// Whether a reply is as needed.
    pub open spec fn met_by(self, reply: Reply) -> bool {
        match self {
            Need::Any => true,
            Need::Positive => match reply {
                Reply::Pos(Ok(pos)) => pos >= 1,
                Reply::Pushed(Ok(pos)) => pos >= 1,
                _ => true,
            },
            Need::Found => match reply {
                Reply::Pos(found) => found is Ok,
                _ => true,
            },
            Need::Present => match reply {
                Reply::MaybeOutput(found) => found is Some,
                _ => true,
            },
            Need::Absent => match reply {
                Reply::MaybeHash(found) => found is None,
                _ => true,
            },
            Need::BelowMax => match reply {
                Reply::Size(size) => size < u64::MAX,
                Reply::Marker(Ok(marker)) => marker.output_pos < u64::MAX,
                _ => true,
            },
        }
    }

    /// Whether a reply is as needed.
    pub fn is_met_by(self, reply: &Reply) -> (met: bool)
        ensures
            met == self.met_by(*reply),
    {
        match self {
            Need::Any => true,
            Need::Positive => match reply {
                Reply::Pos(Ok(pos)) => *pos >= 1,
                Reply::Pushed(Ok(pos)) => *pos >= 1,
                _ => true,
            },
            Need::Found => match reply {
                Reply::Pos(found) => found.is_ok(),
                _ => true,
            },
            Need::Present => match reply {
                Reply::MaybeOutput(found) => found.is_some(),
                _ => true,
            },
            Need::Absent => match reply {
                Reply::MaybeHash(found) => found.is_none(),
                _ => true,
            },
            Need::BelowMax => match reply {
                Reply::Size(size) => *size < u64::MAX,
                Reply::Marker(Ok(marker)) => marker.output_pos < u64::MAX,
                _ => true,
            },
        }
    }
}

impl Call {
    /// The kind of reply that a request asks for.
    pub open spec fn kind(self) -> Kind {
        match self {
            Call::OutputPos(..) => Kind::Pos,
            Call::BlockMarker(..) => Kind::Marker,
            Call::HeadHeader => Kind::Header,
            Call::HeaderByHeight(..) => Kind::Header,
            Call::BlockHeader(..) => Kind::Header,
            Call::InputBitmap(..) => Kind::Bitmap,
            Call::SaveOutputPos(..) => Kind::Stored,
            Call::SaveBlockMarker(..) => Kind::Stored,
            Call::SaveBlockSums(..) => Kind::Stored,
            Call::Size(..) => Kind::Size,
            Call::OutputHash(..) => Kind::MaybeHash,
            Call::OutputData(..) => Kind::MaybeOutput,
            Call::RproofData(..) => Kind::MaybeProof,
            Call::KernelData(..) => Kind::MaybeKernel,
            Call::PushOutput(..) => Kind::Pushed,
            Call::PushRproof(..) => Kind::Pushed,
            Call::PushKernel(..) => Kind::Pushed,
            Call::Prune(..) => Kind::Pruned,
            Call::Rewind(..) => Kind::Done,
            Call::Root(..) => Kind::Digest,
            Call::Validate(..) => Kind::Done,
            Call::MerkleProof(..) => Kind::Proof,
            Call::Snapshot(..) => Kind::Done,
            Call::Dump(..) => Kind::Unit,
            Call::DumpFromFile(..) => Kind::Unit,
            Call::DumpStats => Kind::Unit,
            Call::HashAt(..) => Kind::MaybeHash,
            Call::MerkleProofAt(..) => Kind::Proof,
            Call::RootAt(..) => Kind::Digest,
            Call::LastOutputs(..) => Kind::Outputs,
            Call::LastProofs(..) => Kind::Proofs,
            Call::LastKernels(..) => Kind::Kernels,
            Call::OutputsFrom(..) => Kind::OutputPage,
            Call::ProofsFrom(..) => Kind::ProofPage,
            Call::CheckCompact(..) => Kind::Done,
            Call::Discard(..) => Kind::Unit,
            Call::Sync(..) => Kind::Done,
            Call::CreateDir(..) => Kind::Done,
            Call::OpenBackend(..) => Kind::Opened,
            Call::IdHash(..) => Kind::Digest,
            Call::PlainHash(..) => Kind::Digest,
            Call::VerifyMaturity(..) => Kind::Done,
            Call::VerifyKernel(..) => Kind::Done,
            Call::VerifyProof(..) => Kind::Done,
            Call::KernelSums(..) => Kind::Sums,
            Call::ZeroCommit => Kind::Commit,
            Call::Report(..) => Kind::Unit,
        }
    }
}

impl Reply {
    /// The kind of the reply.
    pub open spec fn kind(self) -> Kind {
        match self {
            Reply::Pos(_) => Kind::Pos,
            Reply::Marker(_) => Kind::Marker,
            Reply::Header(_) => Kind::Header,
            Reply::Bitmap(_) => Kind::Bitmap,
            Reply::Stored(_) => Kind::Stored,
            Reply::Size(_) => Kind::Size,
            Reply::MaybeHash(_) => Kind::MaybeHash,
            Reply::MaybeOutput(_) => Kind::MaybeOutput,
            Reply::MaybeProof(_) => Kind::MaybeProof,
            Reply::MaybeKernel(_) => Kind::MaybeKernel,
            Reply::Pushed(_) => Kind::Pushed,
            Reply::Pruned(_) => Kind::Pruned,
            Reply::Done(_) => Kind::Done,
            Reply::Digest(_) => Kind::Digest,
            Reply::Proof(_) => Kind::Proof,
            Reply::Sums(_) => Kind::Sums,
            Reply::Commit(_) => Kind::Commit,
            Reply::Opened(_) => Kind::Opened,
            Reply::Outputs(_) => Kind::Outputs,
            Reply::Proofs(_) => Kind::Proofs,
            Reply::Kernels(_) => Kind::Kernels,
            Reply::OutputPage(_) => Kind::OutputPage,
            Reply::ProofPage(_) => Kind::ProofPage,
            Reply::Unit => Kind::Unit,
        }
    }

    /// The kind of the reply.
    pub fn get_kind(&self) -> (kind: Kind)
        ensures
            kind == self.kind(),
    {
        match self {
            Reply::Pos(_) => Kind::Pos,
            Reply::Marker(_) => Kind::Marker,
            Reply::Header(_) => Kind::Header,
            Reply::Bitmap(_) => Kind::Bitmap,
            Reply::Stored(_) => Kind::Stored,
            Reply::Size(_) => Kind::Size,
            Reply::MaybeHash(_) => Kind::MaybeHash,
            Reply::MaybeOutput(_) => Kind::MaybeOutput,
            Reply::MaybeProof(_) => Kind::MaybeProof,
            Reply::MaybeKernel(_) => Kind::MaybeKernel,
            Reply::Pushed(_) => Kind::Pushed,
            Reply::Pruned(_) => Kind::Pruned,
            Reply::Done(_) => Kind::Done,
            Reply::Digest(_) => Kind::Digest,
            Reply::Proof(_) => Kind::Proof,
            Reply::Sums(_) => Kind::Sums,
            Reply::Commit(_) => Kind::Commit,
            Reply::Opened(_) => Kind::Opened,
            Reply::Outputs(_) => Kind::Outputs,
            Reply::Proofs(_) => Kind::Proofs,
            Reply::Kernels(_) => Kind::Kernels,
            Reply::OutputPage(_) => Kind::OutputPage,
            Reply::ProofPage(_) => Kind::ProofPage,
            Reply::Unit => Kind::Unit,
        }
    }

    pub(crate) fn into_pos(self) -> (held: Result<u64, StoreError>)
        requires
            self is Pos,
        ensures
            held == self->Pos_0,
    {
        match self {
            Reply::Pos(held) => held,
            _ => unreached(),
        }
    }

    pub(crate) fn into_marker(self) -> (held: Result<BlockMarker, StoreError>)
        requires
            self is Marker,
        ensures
            held == self->Marker_0,
    {
        match self {
            Reply::Marker(held) => held,
            _ => unreached(),
        }
    }

    pub(crate) fn into_header(self) -> (held: Result<BlockHeader, StoreError>)
        requires
            self is Header,
        ensures
            held == self->Header_0,
    {
        match self {
            Reply::Header(held) => held,
            _ => unreached(),
        }
    }

    pub(crate) fn into_bitmap(self) -> (held: Result<Bitmap, StoreError>)
        requires
            self is Bitmap,
        ensures
            held == self->Bitmap_0,
    {
        match self {
            Reply::Bitmap(held) => held,
            _ => unreached(),
        }
    }

    pub(crate) fn into_stored(self) -> (held: Result<(), StoreError>)
        requires
            self is Stored,
        ensures
            held == self->Stored_0,
    {
        match self {
            Reply::Stored(held) => held,
            _ => unreached(),
        }
    }

    pub(crate) fn into_size(self) -> (held: u64)
        requires
            self is Size,
        ensures
            held == self->Size_0,
    {
        match self {
            Reply::Size(held) => held,
            _ => unreached(),
        }
    }

    pub(crate) fn into_maybe_hash(self) -> (held: Option<Hash256>)
        requires
            self is MaybeHash,
        ensures
            held == self->MaybeHash_0,
    {
        match self {
            Reply::MaybeHash(held) => held,
            _ => unreached(),
        }
    }

    pub(crate) fn into_maybe_output(self) -> (held: Option<OutputIdentifier>)
        requires
            self is MaybeOutput,
        ensures
            held == self->MaybeOutput_0,
    {
        match self {
            Reply::MaybeOutput(held) => held,
            _ => unreached(),
        }
    }

    pub(crate) fn into_maybe_proof(self) -> (held: Option<RangeProof>)
        requires
            self is MaybeProof,
        ensures
            held == self->MaybeProof_0,
    {
        match self {
            Reply::MaybeProof(held) => held,
            _ => unreached(),
        }
    }

    pub(crate) fn into_maybe_kernel(self) -> (held: Option<TxKernel>)
        requires
            self is MaybeKernel,
        ensures
            held == self->MaybeKernel_0,
    {
        match self {
            Reply::MaybeKernel(held) => held,
            _ => unreached(),
        }
    }

    pub(crate) fn into_pushed(self) -> (held: Result<u64, String>)
        requires
            self is Pushed,
        ensures
            held == self->Pushed_0,
    {
        match self {
            Reply::Pushed(held) => held,
            _ => unreached(),
        }
    }

    pub(crate) fn into_pruned(self) -> (held: Result<bool, String>)
        requires
            self is Pruned,
        ensures
            held == self->Pruned_0,
    {
        match self {
            Reply::Pruned(held) => held,
            _ => unreached(),
        }
    }

    pub(crate) fn into_done(self) -> (held: Result<(), String>)
        requires
            self is Done,
        ensures
            held == self->Done_0,
    {
        match self {
            Reply::Done(held) => held,
            _ => unreached(),
        }
    }

    pub(crate) fn into_digest(self) -> (held: Hash256)
        requires
            self is Digest,
        ensures
            held == self->Digest_0,
    {
        match self {
            Reply::Digest(held) => held,
            _ => unreached(),
        }
    }

    pub(crate) fn into_proof(self) -> (held: Result<MerkleProof, String>)
        requires
            self is Proof,
        ensures
            held == self->Proof_0,
    {
        match self {
            Reply::Proof(held) => held,
            _ => unreached(),
        }
    }

    pub(crate) fn into_sums(self) -> (held: Result<(Commitment, Commitment), String>)
        requires
            self is Sums,
        ensures
            held == self->Sums_0,
    {
        match self {
            Reply::Sums(held) => held,
            _ => unreached(),
        }
    }

    pub(crate) fn into_commit(self) -> (held: Commitment)
        requires
            self is Commit,
        ensures
            held == self->Commit_0,
    {
        match self {
            Reply::Commit(held) => held,
            _ => unreached(),
        }
    }

    pub(crate) fn into_opened(self) -> (held: Result<u64, String>)
        requires
            self is Opened,
        ensures
            held == self->Opened_0,
    {
        match self {
            Reply::Opened(held) => held,
            _ => unreached(),
        }
    }
}

impl<'a> Request<'a> {
    /// The mathematical form of the request.
    pub open spec fn call(self) -> Call {
        match self {
            Request::OutputPos(a) => Call::OutputPos(a),
            Request::BlockMarker(a) => Call::BlockMarker(a),
            Request::HeadHeader => Call::HeadHeader,
            Request::HeaderByHeight(a) => Call::HeaderByHeight(a),
            Request::BlockHeader(a) => Call::BlockHeader(a),
            Request::InputBitmap(a) => Call::InputBitmap(a),
            Request::SaveOutputPos(a, b) => Call::SaveOutputPos(a, b),
            Request::SaveBlockMarker(a, b) => Call::SaveBlockMarker(a, b),
            Request::SaveBlockSums(a, b) => Call::SaveBlockSums(a, b),
            Request::Size(a) => Call::Size(a),
            Request::OutputHash(a) => Call::OutputHash(a),
            Request::OutputData(a) => Call::OutputData(a),
            Request::RproofData(a) => Call::RproofData(a),
            Request::KernelData(a) => Call::KernelData(a),
            Request::PushOutput(a) => Call::PushOutput(a),
            Request::PushRproof(proof) => Call::PushRproof(*proof),
            Request::PushKernel(kernel) => Call::PushKernel(*kernel),
            Request::Prune(a, b) => Call::Prune(a, b),
            Request::Rewind(tree, pos, added, removed) => Call::Rewind(
                tree,
                pos,
                bitmap_values(*added),
                bitmap_values(*removed),
            ),
            Request::Root(a) => Call::Root(a),
            Request::Validate(a) => Call::Validate(a),
            Request::MerkleProof(a) => Call::MerkleProof(a),
            Request::Snapshot(tree, header) => Call::Snapshot(tree, *header),
            Request::Dump(a, b) => Call::Dump(a, b),
            Request::DumpFromFile(a) => Call::DumpFromFile(a),
            Request::DumpStats => Call::DumpStats,
            Request::HashAt(a, b) => Call::HashAt(a, b),
            Request::MerkleProofAt(a, b) => Call::MerkleProofAt(a, b),
            Request::RootAt(a, b) => Call::RootAt(a, b),
            Request::LastOutputs(a, b) => Call::LastOutputs(a, b),
            Request::LastProofs(a, b) => Call::LastProofs(a, b),
            Request::LastKernels(a, b) => Call::LastKernels(a, b),
            Request::OutputsFrom(a, b, c) => Call::OutputsFrom(a, b, c),
            Request::ProofsFrom(a, b, c) => Call::ProofsFrom(a, b, c),
            Request::CheckCompact(tree, pos, added, removed, clean) => Call::CheckCompact(
                tree,
                pos,
                bitmap_values(*added),
                bitmap_values(*removed),
                clean,
            ),
            Request::Discard(a) => Call::Discard(a),
            Request::Sync(a) => Call::Sync(a),
            Request::CreateDir(a) => Call::CreateDir(a),
            Request::OpenBackend(tree, header) => Call::OpenBackend(
                tree,
                match header {
                    Some(header) => Some(*header),
                    None => None,
                },
            ),
            Request::IdHash(a, b) => Call::IdHash(a, b),
            Request::PlainHash(a) => Call::PlainHash(a),
            Request::VerifyMaturity(input, hash, header, height) => Call::VerifyMaturity(
                *input,
                hash,
                *header,
                height,
            ),
            Request::VerifyKernel(kernel) => Call::VerifyKernel(*kernel),
            Request::VerifyProof(id, proof) => Call::VerifyProof(id, *proof),
            Request::KernelSums(overage, offset, outputs, kernels) => Call::KernelSums(
                overage,
                offset,
                outputs@,
                kernels@,
            ),
            Request::ZeroCommit => Call::ZeroCommit,
            Request::Report(a, b, c, d) => Call::Report(a, b, c, d),
        }
    }

    /// The kind of reply that the request asks for.
    pub fn kind(&self) -> (kind: Kind)
        ensures
            kind == self.call().kind(),
    {
        match self {
            Request::OutputPos(..) => Kind::Pos,
            Request::BlockMarker(..) => Kind::Marker,
            Request::HeadHeader => Kind::Header,
            Request::HeaderByHeight(..) => Kind::Header,
            Request::BlockHeader(..) => Kind::Header,
            Request::InputBitmap(..) => Kind::Bitmap,
            Request::SaveOutputPos(..) => Kind::Stored,
            Request::SaveBlockMarker(..) => Kind::Stored,
            Request::SaveBlockSums(..) => Kind::Stored,
            Request::Size(..) => Kind::Size,
            Request::OutputHash(..) => Kind::MaybeHash,
            Request::OutputData(..) => Kind::MaybeOutput,
            Request::RproofData(..) => Kind::MaybeProof,
            Request::KernelData(..) => Kind::MaybeKernel,
            Request::PushOutput(..) => Kind::Pushed,
            Request::PushRproof(..) => Kind::Pushed,
            Request::PushKernel(..) => Kind::Pushed,
            Request::Prune(..) => Kind::Pruned,
            Request::Rewind(..) => Kind::Done,
            Request::Root(..) => Kind::Digest,
            Request::Validate(..) => Kind::Done,
            Request::MerkleProof(..) => Kind::Proof,
            Request::Snapshot(..) => Kind::Done,
            Request::Dump(..) => Kind::Unit,
            Request::DumpFromFile(..) => Kind::Unit,
            Request::DumpStats => Kind::Unit,
            Request::HashAt(..) => Kind::MaybeHash,
            Request::MerkleProofAt(..) => Kind::Proof,
            Request::RootAt(..) => Kind::Digest,
            Request::LastOutputs(..) => Kind::Outputs,
            Request::LastProofs(..) => Kind::Proofs,
            Request::LastKernels(..) => Kind::Kernels,
            Request::OutputsFrom(..) => Kind::OutputPage,
            Request::ProofsFrom(..) => Kind::ProofPage,
            Request::CheckCompact(..) => Kind::Done,
            Request::Discard(..) => Kind::Unit,
            Request::Sync(..) => Kind::Done,
            Request::CreateDir(..) => Kind::Done,
            Request::OpenBackend(..) => Kind::Opened,
            Request::IdHash(..) => Kind::Digest,
            Request::PlainHash(..) => Kind::Digest,
            Request::VerifyMaturity(..) => Kind::Done,
            Request::VerifyKernel(..) => Kind::Done,
            Request::VerifyProof(..) => Kind::Done,
            Request::KernelSums(..) => Kind::Sums,
            Request::ZeroCommit => Kind::Commit,
            Request::Report(..) => Kind::Unit,
        }
    }
}

/// A walk from one block back to another that collects the positions of the
/// outputs spent on the way. It reads, for each block before the target, first
/// the header and then the bitmap of spent positions.
pub ghost struct Trail {
    /// The block that is looked at.
    pub current: Hash256,
    /// The block to stop at.
    pub target: Hash256,
    /// The positions collected so far.
    pub spent: Set<u32>,
    /// The block before `current`, once the header was read.
    pub previous: Option<Hash256>,
}

impl Trail {
    /// What the walk requests next.
    pub open spec fn call(self) -> Call {
        if self.previous is None {
            Call::BlockHeader(self.current)
        } else {
            Call::InputBitmap(self.current)
        }
    }
}

/// A dialogue: over, about to make a request, or on a walk. Requests and walks
/// come with the rest of the dialogue, for every reply to the request and for
/// every result of the walk.
#[verifier::reject_recursive_types(T)]
pub ghost enum Program<T> {
    Ret(T),
    Ask(Call, Need, spec_fn(Reply) -> Program<T>),
    Walk(Trail, spec_fn(Result<Set<u32>, Error>) -> Program<T>),
}

impl<T> Program<T> {
    /// Whether the dialogue waits for a reply.
    pub open spec fn waits(self) -> bool {
        !(self is Ret)
    }

    /// What is requested, while the dialogue waits.
    pub open spec fn call(self) -> Call {
        match self {
            Program::Ret(_) => arbitrary(),
            Program::Ask(call, _, _) => call,
            Program::Walk(trail, _) => trail.call(),
        }
    }

    /// What the reply must be, while the dialogue waits.
    pub open spec fn need(self) -> Need {
        match self {
            Program::Ask(_, need, _) => need,
            _ => Need::Any,
        }
    }

    /// Whether a reply lets the dialogue go on.
    pub open spec fn admits(self, reply: Reply) -> bool {
        &&& self.waits()
        &&& self.call().kind() == reply.kind()
        &&& self.need().met_by(reply)
    }

    /// The dialogue after a reply.
    pub open spec fn next(self, reply: Reply) -> Program<T> {
        match self {
            Program::Ret(_) => self,
            Program::Ask(_, _, rest) => rest(reply),
            Program::Walk(trail, rest) => if trail.previous is None {
                match reply->Header_0 {
                    Ok(header) => Program::Walk(
                        Trail { previous: Some(header.previous), ..trail },
                        rest,
                    ),
                    Err(e) => rest(Err(Error::Store(e))),
                }
            } else {
                match reply->Bitmap_0 {
                    Ok(bitmap) => walk(
                        trail.previous->0,
                        trail.target,
                        trail.spent.union(bitmap_values(bitmap)),
                        rest,
                    ),
                    Err(e) => rest(Err(Error::Store(e))),
                }
            },
        }
    }
}

/// The walk from `current` to `target` with the positions `spent` collected
/// already.
pub open spec fn walk<T>(
    current: Hash256,
    target: Hash256,
    spent: Set<u32>,
    rest: spec_fn(Result<Set<u32>, Error>) -> Program<T>,
) -> Program<T> {
    if current == target {
        rest(Ok(spent))
    } else {
        Program::Walk(Trail { current, target, spent, previous: None }, rest)
    }
}

/// The dialogue `first`, followed by the dialogue that its result leads to.
pub open spec fn bind<A, B>(first: Program<A>, then: spec_fn(A) -> Program<B>) -> Program<B>
    decreases first,
{
    match first {
        Program::Ret(a) => then(a),
        Program::Ask(call, need, rest) => Program::Ask(
            call,
            need,
            |reply: Reply| bind(rest(reply), then),
        ),
        Program::Walk(trail, rest) => Program::Walk(
            trail,
            |found: Result<Set<u32>, Error>| bind(rest(found), then),
        ),
    }
}

/// A reply to a composed dialogue is a reply to its first part.
pub proof fn lemma_bind<A, B>(first: Program<A>, then: spec_fn(A) -> Program<B>)
    requires
        first.waits(),
    ensures
        bind(first, then).waits(),
        bind(first, then).call() == first.call(),
        bind(first, then).need() == first.need(),
        forall|reply: Reply| #[trigger]
            bind(first, then).next(reply) == bind(first.next(reply), then),
{
}

/// An operation under way: still running, or done with a result.
pub enum Step<R, Out> {
    Running(R),
    Done(Out),
}

/// An operation that waits for the reply to a request.
pub trait Run: Sized {
    /// The result of the operation.
    type Out;

    /// The mathematical form of the result.
    type Model;

    /// The mathematical form of a result.
    spec fn model(out: Self::Out) -> Self::Model;

    /// What holds of every result besides.
    spec fn sound(out: Self::Out) -> bool;

    /// The rest of the dialogue.
    spec fn program(&self) -> Program<Self::Model>;

    /// The operation waits for a reply.
    spec fn valid(&self) -> bool;

    proof fn lemma_waits(&self)
        requires
            self.valid(),
        ensures
            self.program().waits(),
    ;

    /// The request that the operation waits for.
    fn request(&self) -> (request: Request<'_>)
        requires
            self.valid(),
        ensures
            request.call() == self.program().call(),
    ;

    /// What the reply must be besides of the right kind.
    fn need(&self) -> (need: Need)
        requires
            self.valid(),
        ensures
            need == self.program().need(),
    ;

    /// Goes on with the reply to the request.
    fn resume(self, reply: Reply) -> (step: Step<Self, Self::Out>)
        requires
            self.valid(),
            self.program().admits(reply),
        ensures
            match step {
                Step::Running(run) => {
                    &&& run.valid()
                    &&& run.program() == self.program().next(reply)
                    &&& run.program().waits()
                },
                Step::Done(out) => Self::sound(out) && self.program().next(reply) == Program::Ret(
                    Self::model(out),
                ),
            },
    ;
}

/// Whether an operation is where a program is.
pub open spec fn meets<R: Run>(step: Step<R, R::Out>, program: Program<R::Model>) -> bool {
    match step {
        Step::Running(run) => run.valid() && run.program() == program && program.waits(),
        Step::Done(out) => R::sound(out) && program == Program::Ret(R::model(out)),
    }
}

/// Whether a reply lets an operation go on: [`Run::resume`] asks for it.
pub fn admits<R: Run>(run: &R, reply: &Reply) -> (admitted: bool)
    requires
        run.valid(),
    ensures
        admitted == run.program().admits(*reply),
{
    proof {
        run.lemma_waits();
    }
    run.request().kind() == reply.get_kind() && run.need().is_met_by(reply)
}

} // verus!
