//! The transaction hash set: the three trees as their files have them.
use crate::pmmr::{leaf_count, n_leaves};
use crate::program::{meets, Call, Need, Program, Reply, Request, Run, Step};
use crate::query::{ask, query_program, QueryRun};
use crate::types::{
    BlockHeader, BlockMarker, Commitment, Error, Hash256, Key, MerkleProof, Message,
    OutputIdentifier, RangeProof, Sizes, StoreError, Tree, TxKernel,
};
use vstd::prelude::*;

verus! {

/// The directory, below the root directory, with the files of the trees.
pub const TXHASHSET_SUBDIR: &'static str = "txhashset";

/// The directory of the output tree.
pub const OUTPUT_SUBDIR: &'static str = "output";

/// The directory of the range proof tree.
pub const RANGE_PROOF_SUBDIR: &'static str = "rangeproof";

/// The directory of the kernel tree.
pub const KERNEL_SUBDIR: &'static str = "kernel";

/// The name of an archive of all the files.
pub const TXHASHSET_ZIP: &'static str = "txhashset_snapshot.zip";

impl Tree {
    /// The directory of the files of the tree, below that of all trees.
    pub fn subdir(self) -> (name: &'static str)
        ensures
            name@ == (match self {
                Tree::Output => OUTPUT_SUBDIR@,
                Tree::RangeProof => RANGE_PROOF_SUBDIR@,
                Tree::Kernel => KERNEL_SUBDIR@,
            }),
    {
        match self {
            Tree::Output => OUTPUT_SUBDIR,
            Tree::RangeProof => RANGE_PROOF_SUBDIR,
            Tree::Kernel => KERNEL_SUBDIR,
        }
    }
}

/// An easy to manipulate structure holding the three trees necessary to
/// validate blocks: the outputs, the range proofs and the kernels. It knows how
/// far each of them goes; the trees themselves, and the index from commitments
/// to positions, stay with whoever drives the operations.
///
/// The index is never authoritative: only the trees tell whether an output is
/// spent. The index may have commitments that were spent already.
pub struct TxHashSet {
    last: Sizes,
}

impl TxHashSet {
    /// The last position of each tree.
    pub closed spec fn last(self) -> Sizes {
        self.last
    }

    /// The last position of each tree.
    pub fn last_positions(&self) -> (last: Sizes)
        ensures
            last == self.last(),
    {
        self.last
    }

    pub(crate) fn at(last: Sizes) -> (trees: TxHashSet)
        ensures
            trees.last() == last,
    {
        TxHashSet { last }
    }
}

// ---- opening

/// A dialogue that ends with how far the trees go.
pub type Opening = Program<Result<Sizes, Error>>;

/// The header that a tree is opened with: none for the kernel tree.
pub open spec fn header_for(tree: Tree, header: Option<BlockHeader>) -> Option<BlockHeader> {
    match tree {
        Tree::Kernel => None,
        _ => header,
    }
}

/// The tree after one, in the order in which they are opened.
pub open spec fn tree_after(tree: Tree) -> Option<Tree> {
    match tree {
        Tree::Output => Some(Tree::RangeProof),
        Tree::RangeProof => Some(Tree::Kernel),
        Tree::Kernel => None,
    }
}

/// With the size of one tree filled in.
pub open spec fn with_size(sizes: Sizes, tree: Tree, size: u64) -> Sizes {
    match tree {
        Tree::Output => Sizes { output: size, ..sizes },
        Tree::RangeProof => Sizes { rproof: size, ..sizes },
        Tree::Kernel => Sizes { kernel: size, ..sizes },
    }
}

/// Opens the trees: creates their directories, and then opens one after the
/// other, up to the first that fails.
pub open spec fn open_program(header: Option<BlockHeader>) -> Opening {
    open_dirs(Tree::Output, header)
}

/// Creates the directories from that of `tree` on.
pub open spec fn open_dirs(tree: Tree, header: Option<BlockHeader>) -> Opening
    decreases open_rank(tree),
{
    Program::Ask(
        Call::CreateDir(tree),
        Need::Any,
        |reply: Reply|
            match reply->Done_0 {
                Ok(_) => match tree_after(tree) {
                    Some(next) => open_dirs(next, header),
                    None => open_dir(
                        Tree::Output,
                        header,
                        Sizes { output: 0, rproof: 0, kernel: 0 },
                    ),
                },
                Err(text) => Program::Ret(Err(Error::Io(text))),
            },
    )
}

pub open spec fn open_rank(tree: Tree) -> nat {
    match tree {
        Tree::Output => 2,
        Tree::RangeProof => 1,
        Tree::Kernel => 0,
    }
}

/// Opens the trees from `tree` on, given the sizes of those before it.
pub open spec fn open_dir(tree: Tree, header: Option<BlockHeader>, sizes: Sizes) -> Opening
    decreases open_rank(tree), 1nat,
{
    Program::Ask(
        Call::CreateDir(tree),
        Need::Any,
        |reply: Reply|
            match reply->Done_0 {
                Ok(_) => open_files(tree, header, sizes),
                Err(text) => Program::Ret(Err(Error::Io(text))),
            },
    )
}

pub open spec fn open_files(tree: Tree, header: Option<BlockHeader>, sizes: Sizes) -> Opening
    decreases open_rank(tree), 0nat,
{
    Program::Ask(
        Call::OpenBackend(tree, header_for(tree, header)),
        Need::Any,
        |reply: Reply|
            match reply->Opened_0 {
                Ok(size) => match tree_after(tree) {
                    Some(next) => open_dir(next, header, with_size(sizes, tree, size)),
                    None => Program::Ret(Ok(with_size(sizes, tree, size))),
                },
                Err(text) => Program::Ret(Err(Error::Io(text))),
            },
    )
}

/// The mathematical form of what was opened.
pub open spec fn opened(out: Result<TxHashSet, Error>) -> Result<Sizes, Error> {
    match out {
        Ok(trees) => Ok(trees.last()),
        Err(e) => Err(e),
    }
}

enum OpenStage {
    Dirs,
    Dir,
    Files,
}

/// Trees that are being opened.
pub struct OpenRun<'a> {
    header: Option<&'a BlockHeader>,
    tree: Tree,
    sizes: Sizes,
    stage: OpenStage,
}

/// The header that a reference stands for.
pub open spec fn header_of(header: Option<&BlockHeader>) -> Option<BlockHeader> {
    match header {
        Some(header) => Some(*header),
        None => None,
    }
}

impl<'a> Run for OpenRun<'a> {
    type Out = Result<TxHashSet, Error>;

    type Model = Result<Sizes, Error>;

    open spec fn model(out: Result<TxHashSet, Error>) -> Result<Sizes, Error> {
        opened(out)
    }

    open spec fn sound(out: Result<TxHashSet, Error>) -> bool {
        true
    }

    closed spec fn program(&self) -> Opening {
        match self.stage {
            OpenStage::Dirs => open_dirs(self.tree, header_of(self.header)),
            OpenStage::Dir => open_dir(self.tree, header_of(self.header), self.sizes),
            OpenStage::Files => open_files(self.tree, header_of(self.header), self.sizes),
        }
    }

    closed spec fn valid(&self) -> bool {
        true
    }

    proof fn lemma_waits(&self) {
    }

    fn request(&self) -> (request: Request<'_>) {
        match self.stage {
            OpenStage::Dirs => Request::CreateDir(self.tree),
            OpenStage::Dir => Request::CreateDir(self.tree),
            OpenStage::Files => match self.tree {
                Tree::Kernel => Request::OpenBackend(self.tree, None),
                _ => Request::OpenBackend(self.tree, self.header),
            },
        }
    }

    fn need(&self) -> (need: Need) {
        Need::Any
    }

    fn resume(self, reply: Reply) -> (step: Step<Self, Result<TxHashSet, Error>>) {
        let OpenRun { header, tree, sizes, stage } = self;
        match stage {
            OpenStage::Dirs => match reply.into_done() {
                Ok(_) => Step::Running(
                    match tree {
                        Tree::Output => OpenRun {
                            header,
                            tree: Tree::RangeProof,
                            sizes,
                            stage: OpenStage::Dirs,
                        },
                        Tree::RangeProof => OpenRun {
                            header,
                            tree: Tree::Kernel,
                            sizes,
                            stage: OpenStage::Dirs,
                        },
                        Tree::Kernel => OpenRun {
                            header,
                            tree: Tree::Output,
                            sizes: Sizes { output: 0, rproof: 0, kernel: 0 },
                            stage: OpenStage::Dir,
                        },
                    },
                ),
                Err(text) => Step::Done(Err(Error::Io(text))),
            },
            OpenStage::Dir => match reply.into_done() {
                Ok(_) => Step::Running(OpenRun { header, tree, sizes, stage: OpenStage::Files }),
                Err(text) => Step::Done(Err(Error::Io(text))),
            },
            OpenStage::Files => match reply.into_opened() {
                Ok(size) => match tree {
                    Tree::Output => Step::Running(
                        OpenRun {
                            header,
                            tree: Tree::RangeProof,
                            sizes: Sizes { output: size, ..sizes },
                            stage: OpenStage::Dir,
                        },
                    ),
                    Tree::RangeProof => Step::Running(
                        OpenRun {
                            header,
                            tree: Tree::Kernel,
                            sizes: Sizes { rproof: size, ..sizes },
                            stage: OpenStage::Dir,
                        },
                    ),
                    Tree::Kernel => Step::Done(
                        Ok(TxHashSet { last: Sizes { kernel: size, ..sizes } }),
                    ),
                },
                Err(text) => Step::Done(Err(Error::Io(text))),
            },
        }
    }
}

impl TxHashSet {
    /// Opens an existing or new set of trees.
    pub fn open<'a>(header: Option<&'a BlockHeader>) -> (step: Step<
        OpenRun<'a>,
        Result<TxHashSet, Error>,
    >)
        ensures
            meets(step, open_program(header_of(header))),
    {
        Step::Running(
            OpenRun {
                header,
                tree: Tree::Output,
                sizes: Sizes { output: 0, rproof: 0, kernel: 0 },
                stage: OpenStage::Dirs,
            },
        )
    }
}

// ---- unspent outputs

/// A dialogue that ends with a hash.
pub type Hashing = Program<Result<Hash256, Error>>;

/// Checks whether an output is unspent: the index has a position for its
/// commitment, and the output tree, as far as it went at `last`, has there the
/// hash of the output. There is no hash at position zero.
pub open spec fn unspent_program(last: u64, id: OutputIdentifier) -> Hashing {
    Program::Ask(
        Call::OutputPos(id.commit),
        Need::Any,
        |reply: Reply|
            match reply->Pos_0 {
                Ok(pos) => unspent_at(last, id, pos),
                Err(StoreError::NotFound) => Program::Ret(Err(Error::OutputNotFound)),
                Err(e) => Program::Ret(Err(Error::StoreErr(e, Message::UnspentCheck))),
            },
    )
}

pub open spec fn unspent_at(last: u64, id: OutputIdentifier, pos: u64) -> Hashing {
    Program::Ask(
        Call::HashAt(last, pos),
        if pos == 0 {
            Need::Absent
        } else {
            Need::Any
        },
        |reply: Reply|
            match reply->MaybeHash_0 {
                Some(hash) => unspent_compare(id, pos, hash),
                None => Program::Ret(Err(Error::OutputNotFound)),
            },
    )
}

pub open spec fn unspent_compare(id: OutputIdentifier, pos: u64, hash: Hash256) -> Hashing {
    Program::Ask(
        Call::IdHash(id, (pos - 1) as u64),
        Need::Any,
        |reply: Reply|
            if hash == reply->Digest_0 {
                Program::Ret(Ok(hash))
            } else {
                Program::Ret(Err(Error::TxHashSetErr(Message::HashMismatch)))
            },
    )
}

enum UnspentStage {
    Lookup,
    At(u64),
    Compare(u64, Hash256),
}

/// The check whether an output is unspent under way.
pub struct UnspentRun {
    last: u64,
    id: OutputIdentifier,
    stage: UnspentStage,
}

impl Run for UnspentRun {
    type Out = Result<Hash256, Error>;

    type Model = Result<Hash256, Error>;

    open spec fn model(out: Result<Hash256, Error>) -> Result<Hash256, Error> {
        out
    }

    open spec fn sound(out: Result<Hash256, Error>) -> bool {
        true
    }

    closed spec fn program(&self) -> Hashing {
        match self.stage {
            UnspentStage::Lookup => unspent_program(self.last, self.id),
            UnspentStage::At(pos) => unspent_at(self.last, self.id, pos),
            UnspentStage::Compare(pos, hash) => unspent_compare(self.id, pos, hash),
        }
    }

    closed spec fn valid(&self) -> bool {
        self.stage matches UnspentStage::Compare(pos, _) ==> pos >= 1
    }

    proof fn lemma_waits(&self) {
    }

    fn request(&self) -> (request: Request<'_>) {
        match self.stage {
            UnspentStage::Lookup => Request::OutputPos(self.id.commit),
            UnspentStage::At(pos) => Request::HashAt(self.last, pos),
            UnspentStage::Compare(pos, _) => Request::IdHash(self.id, pos - 1),
        }
    }

    fn need(&self) -> (need: Need) {
        match self.stage {
            UnspentStage::At(0) => Need::Absent,
            _ => Need::Any,
        }
    }

    fn resume(self, reply: Reply) -> (step: Step<Self, Result<Hash256, Error>>) {
        let UnspentRun { last, id, stage } = self;
        match stage {
            UnspentStage::Lookup => match reply.into_pos() {
                Ok(pos) => Step::Running(UnspentRun { last, id, stage: UnspentStage::At(pos) }),
                Err(StoreError::NotFound) => Step::Done(Err(Error::OutputNotFound)),
                Err(e) => Step::Done(Err(Error::StoreErr(e, Message::UnspentCheck))),
            },
            UnspentStage::At(pos) => match reply.into_maybe_hash() {
                Some(hash) => Step::Running(
                    UnspentRun { last, id, stage: UnspentStage::Compare(pos, hash) },
                ),
                None => Step::Done(Err(Error::OutputNotFound)),
            },
            UnspentStage::Compare(_, hash) => if hash.same(&reply.into_digest()) {
                Step::Done(Ok(hash))
            } else {
                Step::Done(Err(Error::TxHashSetErr(Message::HashMismatch)))
            },
        }
    }
}

// ---- roots

/// A dialogue that ends with the roots of the output, the range proof and the
/// kernel tree.
pub type Roots = Program<(Hash256, Hash256, Hash256)>;

/// Computes the roots of the trees as far as they went.
pub open spec fn roots_at_program(last: Sizes) -> Roots {
    Program::Ask(
        Call::RootAt(Tree::Output, last.output),
        Need::Any,
        |reply: Reply| roots_at_rproof(last, reply->Digest_0),
    )
}

pub open spec fn roots_at_rproof(last: Sizes, output: Hash256) -> Roots {
    Program::Ask(
        Call::RootAt(Tree::RangeProof, last.rproof),
        Need::Any,
        |reply: Reply| roots_at_kernel(last, output, reply->Digest_0),
    )
}

pub open spec fn roots_at_kernel(last: Sizes, output: Hash256, rproof: Hash256) -> Roots {
    Program::Ask(
        Call::RootAt(Tree::Kernel, last.kernel),
        Need::Any,
        |reply: Reply| Program::Ret((output, rproof, reply->Digest_0)),
    )
}

enum RootsStage {
    Output,
    Rproof(Hash256),
    Kernel(Hash256, Hash256),
}

/// The computation of the roots under way.
pub struct RootsAtRun {
    last: Sizes,
    stage: RootsStage,
}

impl Run for RootsAtRun {
    type Out = (Hash256, Hash256, Hash256);

    type Model = (Hash256, Hash256, Hash256);

    open spec fn model(out: (Hash256, Hash256, Hash256)) -> (Hash256, Hash256, Hash256) {
        out
    }

    open spec fn sound(out: (Hash256, Hash256, Hash256)) -> bool {
        true
    }

    closed spec fn program(&self) -> Roots {
        match self.stage {
            RootsStage::Output => roots_at_program(self.last),
            RootsStage::Rproof(output) => roots_at_rproof(self.last, output),
            RootsStage::Kernel(output, rproof) => roots_at_kernel(self.last, output, rproof),
        }
    }

    closed spec fn valid(&self) -> bool {
        true
    }

    proof fn lemma_waits(&self) {
    }

    fn request(&self) -> (request: Request<'_>) {
        match self.stage {
            RootsStage::Output => Request::RootAt(Tree::Output, self.last.output),
            RootsStage::Rproof(_) => Request::RootAt(Tree::RangeProof, self.last.rproof),
            RootsStage::Kernel(..) => Request::RootAt(Tree::Kernel, self.last.kernel),
        }
    }

    fn need(&self) -> (need: Need) {
        Need::Any
    }

    fn resume(self, reply: Reply) -> (step: Step<Self, (Hash256, Hash256, Hash256)>) {
        let last = self.last;
        let root = reply.into_digest();
        match self.stage {
            RootsStage::Output => Step::Running(
                RootsAtRun { last, stage: RootsStage::Rproof(root) },
            ),
            RootsStage::Rproof(output) => Step::Running(
                RootsAtRun { last, stage: RootsStage::Kernel(output, root) },
            ),
            RootsStage::Kernel(output, rproof) => Step::Done((output, rproof, root)),
        }
    }
}

// ---- Merkle proofs

/// A dialogue that ends with a Merkle proof or with what the tree says instead.
pub type Proof = Program<Result<MerkleProof, String>>;

/// Builds the Merkle proof for a commitment, which has to be in the index.
pub open spec fn proof_program(last: u64, commit: Commitment) -> Proof {
    Program::Ask(
        Call::OutputPos(commit),
        Need::Found,
        |reply: Reply| proof_at(last, reply->Pos_0->Ok_0),
    )
}

pub open spec fn proof_at(last: u64, pos: u64) -> Proof {
    Program::Ask(
        Call::MerkleProofAt(last, pos),
        Need::Any,
        |reply: Reply| Program::Ret(reply->Proof_0),
    )
}

/// A Merkle proof under way.
pub struct ProofRun {
    last: u64,
    commit: Commitment,
    pos: Option<u64>,
}

impl Run for ProofRun {
    type Out = Result<MerkleProof, String>;

    type Model = Result<MerkleProof, String>;

    open spec fn model(out: Result<MerkleProof, String>) -> Result<MerkleProof, String> {
        out
    }

    open spec fn sound(out: Result<MerkleProof, String>) -> bool {
        true
    }

    closed spec fn program(&self) -> Proof {
        match self.pos {
            None => proof_program(self.last, self.commit),
            Some(pos) => proof_at(self.last, pos),
        }
    }

    closed spec fn valid(&self) -> bool {
        true
    }

    proof fn lemma_waits(&self) {
    }

    fn request(&self) -> (request: Request<'_>) {
        match self.pos {
            None => Request::OutputPos(self.commit),
            Some(pos) => Request::MerkleProofAt(self.last, pos),
        }
    }

    fn need(&self) -> (need: Need) {
        match self.pos {
            None => Need::Found,
            Some(_) => Need::Any,
        }
    }

    fn resume(self, reply: Reply) -> (step: Step<Self, Result<MerkleProof, String>>) {
        let ProofRun { last, commit, pos } = self;
        match pos {
            None => match reply.into_pos() {
                Ok(pos) => Step::Running(ProofRun { last, commit, pos: Some(pos) }),
                Err(_) => unreached(),
            },
            Some(_) => Step::Done(reply.into_proof()),
        }
    }
}

impl TxHashSet {
    /// Checks whether an output is unspent, and gives back its hash in the
    /// output tree. The index tells the position, and the entry of the output
    /// tree has to be the output.
    pub fn is_unspent(&self, output_id: &OutputIdentifier) -> (step: Step<
        UnspentRun,
        Result<Hash256, Error>,
    >)
        ensures
            meets(step, unspent_program(self.last().output, *output_id)),
    {
        Step::Running(
            UnspentRun { last: self.last.output, id: *output_id, stage: UnspentStage::Lookup },
        )
    }

    /// The last outputs inserted into the output tree, as many as `distance`
    /// says, with their hashes.
    pub fn last_n_output(&self, distance: u64) -> (step: Step<
        QueryRun<Vec<(Hash256, OutputIdentifier)>>,
        Vec<(Hash256, OutputIdentifier)>,
    >)
        ensures
            meets(step, query_program(Call::LastOutputs(self.last().output, distance))),
    {
        ask(Request::LastOutputs(self.last.output, distance))
    }

    /// As above, for range proofs.
    pub fn last_n_rangeproof(&self, distance: u64) -> (step: Step<
        QueryRun<Vec<(Hash256, RangeProof)>>,
        Vec<(Hash256, RangeProof)>,
    >)
        ensures
            meets(step, query_program(Call::LastProofs(self.last().rproof, distance))),
    {
        ask(Request::LastProofs(self.last.rproof, distance))
    }

    /// As above, for kernels.
    pub fn last_n_kernel(&self, distance: u64) -> (step: Step<
        QueryRun<Vec<(Hash256, TxKernel)>>,
        Vec<(Hash256, TxKernel)>,
    >)
        ensures
            meets(step, query_program(Call::LastKernels(self.last().kernel, distance))),
    {
        ask(Request::LastKernels(self.last.kernel, distance))
    }

    /// Outputs from an index of insertion on, up to `max_count` of them, and
    /// the index of the last one.
    pub fn outputs_by_insertion_index(&self, start_index: u64, max_count: u64) -> (step: Step<
        QueryRun<(u64, Vec<OutputIdentifier>)>,
        (u64, Vec<OutputIdentifier>),
    >)
        ensures
            meets(
                step,
                query_program(Call::OutputsFrom(self.last().output, start_index, max_count)),
            ),
    {
        ask(Request::OutputsFrom(self.last.output, start_index, max_count))
    }

    /// Highest index of insertion of an output.
    pub fn highest_output_insertion_index(&self) -> (index: u64)
        ensures
            index == leaf_count(self.last().output as nat),
    {
        n_leaves(self.last.output)
    }

    /// As [`TxHashSet::outputs_by_insertion_index`], for range proofs.
    pub fn rangeproofs_by_insertion_index(&self, start_index: u64, max_count: u64) -> (step: Step<
        QueryRun<(u64, Vec<RangeProof>)>,
        (u64, Vec<RangeProof>),
    >)
        ensures
            meets(
                step,
                query_program(Call::ProofsFrom(self.last().rproof, start_index, max_count)),
            ),
    {
        ask(Request::ProofsFrom(self.last.rproof, start_index, max_count))
    }

    /// Positions in the output and the kernel tree at the end of a block.
    pub fn indexes_at(&self, bh: &Hash256) -> (step: Step<
        QueryRun<Result<BlockMarker, Error>>,
        Result<BlockMarker, Error>,
    >)
        ensures
            meets(step, query_program(Call::BlockMarker(*bh))),
    {
        ask(Request::BlockMarker(*bh))
    }

    /// Roots of the output, the range proof and the kernel tree.
    pub fn roots(&self) -> (step: Step<RootsAtRun, (Hash256, Hash256, Hash256)>)
        ensures
            meets(step, roots_at_program(self.last())),
    {
        Step::Running(RootsAtRun { last: self.last, stage: RootsStage::Output })
    }

    /// Builds a Merkle proof for a commitment.
    pub fn merkle_proof(&self, commit: Commitment) -> (step: Step<
        ProofRun,
        Result<MerkleProof, String>,
    >)
        ensures
            meets(step, proof_program(self.last().output, commit)),
    {
        Step::Running(ProofRun { last: self.last.output, commit, pos: None })
    }
}

} // verus!
