//! What the leaves of the trees commit to, and the index of the output tree.
use crate::extension::Extension;
use crate::pmmr::{bintree_postorder_height, is_leaf, leaf_at};
use crate::program::{meets, Call, Need, Program, Reply, Request, Run, Step};
use crate::script::Verdict;
use crate::types::{Commitment, Error, Tree};
use vstd::prelude::*;

verus! {

// ---- commitments

/// A dialogue that ends with a list of commitments.
pub type Commitments = Program<Seq<Commitment>>;

/// What commits to a value.
#[derive(Clone, Copy, Debug, PartialEq, Eq, Structural)]
pub enum Committer {
    /// Outputs, with their commitments.
    Outputs,
    /// Kernels, with their excesses.
    Kernels,
}

impl Committer {
    /// The tree with the elements.
    pub open spec fn tree(self) -> Tree {
        match self {
            Committer::Outputs => Tree::Output,
            Committer::Kernels => Tree::Kernel,
        }
    }

    /// The request for the element at a position.
    pub open spec fn call(self, pos: u64) -> Call {
        match self {
            Committer::Outputs => Call::OutputData(pos),
            Committer::Kernels => Call::KernelData(pos),
        }
    }

    /// The commitment of the element that came back, if one did.
    pub open spec fn commitment(self, reply: Reply) -> Option<Commitment> {
        match self {
            Committer::Outputs => match reply->MaybeOutput_0 {
                Some(id) => Some(id.commit),
                None => None,
            },
            Committer::Kernels => match reply->MaybeKernel_0 {
                Some(kernel) => Some(kernel.excess),
                None => None,
            },
        }
    }
}

/// Collects the commitments at all leaves of a tree that have an element, in
/// order.
pub open spec fn commitments_program(of: Committer) -> Commitments {
    Program::Ask(
        Call::Size(of.tree()),
        Need::BelowMax,
        |reply: Reply| commitments_from(of, 1, reply->Size_0, Seq::empty()),
    )
}

/// From position `n` on, after the commitments `found`.
pub open spec fn commitments_from(
    of: Committer,
    n: nat,
    size: u64,
    found: Seq<Commitment>,
) -> Commitments
    decreases size + 1 - n,
{
    if n > size {
        Program::Ret(found)
    } else if leaf_at(n) {
        Program::Ask(
            of.call(n as u64),
            Need::Any,
            |reply: Reply|
                match of.commitment(reply) {
                    Some(commit) => commitments_from(of, n + 1, size, found.push(commit)),
                    None => commitments_from(of, n + 1, size, found),
                },
        )
    } else {
        commitments_from(of, n + 1, size, found)
    }
}

/// The collection of commitments under way.
pub struct CommitmentsRun {
    of: Committer,
    size: Option<u64>,
    n: u64,
    found: Vec<Commitment>,
}

impl CommitmentsRun {
    spec fn here(&self) -> Commitments {
        match self.size {
            None => commitments_program(self.of),
            Some(size) => commitments_from(self.of, self.n as nat, size, self.found@),
        }
    }

    spec fn good(&self) -> bool {
        match self.size {
            None => true,
            Some(size) => self.n <= size < u64::MAX && leaf_at(self.n as nat),
        }
    }

    spec fn fits(step: Step<Self, Vec<Commitment>>, program: Commitments) -> bool {
        match step {
            Step::Running(run) => run.good() && run.here() == program && program.waits(),
            Step::Done(out) => program == Program::Ret(out@),
        }
    }

    /// Goes on from position `n`.
    fn seek(of: Committer, n: u64, size: u64, found: Vec<Commitment>) -> (step: Step<
        Self,
        Vec<Commitment>,
    >)
        requires
            n >= 1,
            size < u64::MAX,
        ensures
            Self::fits(step, commitments_from(of, n as nat, size, found@)),
    {
        let mut at: u64 = n;
        while at <= size
            invariant
                at >= 1,
                size < u64::MAX,
                commitments_from(of, at as nat, size, found@) == commitments_from(
                    of,
                    n as nat,
                    size,
                    found@,
                ),
            decreases size + 1 - at,
        {
            if is_leaf(at) {
                return Step::Running(CommitmentsRun { of, size: Some(size), n: at, found });
            }
            at = at + 1;
        }
        Step::Done(found)
    }
}

impl Run for CommitmentsRun {
    type Out = Vec<Commitment>;

    type Model = Seq<Commitment>;

    open spec fn model(out: Vec<Commitment>) -> Seq<Commitment> {
        out@
    }

    open spec fn sound(out: Vec<Commitment>) -> bool {
        true
    }

    closed spec fn program(&self) -> Commitments {
        self.here()
    }

    closed spec fn valid(&self) -> bool {
        self.good()
    }

    proof fn lemma_waits(&self) {
    }

    fn request(&self) -> (request: Request<'_>) {
        match (self.of, self.size) {
            (Committer::Outputs, None) => Request::Size(Tree::Output),
            (Committer::Kernels, None) => Request::Size(Tree::Kernel),
            (Committer::Outputs, Some(_)) => Request::OutputData(self.n),
            (Committer::Kernels, Some(_)) => Request::KernelData(self.n),
        }
    }

    fn need(&self) -> (need: Need) {
        match self.size {
            None => Need::BelowMax,
            Some(_) => Need::Any,
        }
    }

    fn resume(self, reply: Reply) -> (step: Step<Self, Vec<Commitment>>) {
        let CommitmentsRun { of, size, n, found } = self;
        match size {
            None => Self::seek(of, 1, reply.into_size(), Vec::new()),
            Some(size) => {
                let commit = match of {
                    Committer::Outputs => match reply.into_maybe_output() {
                        Some(id) => Some(id.commit),
                        None => None,
                    },
                    Committer::Kernels => match reply.into_maybe_kernel() {
                        Some(kernel) => Some(kernel.excess),
                        None => None,
                    },
                };
                let mut found = found;
                if let Some(commit) = commit {
                    found.push(commit);
                }
                Self::seek(of, n + 1, size, found)
            },
        }
    }
}

impl Extension {
    /// The commitments of inputs: there are none, as the trees hold what is
    /// unspent.
    pub fn inputs_committed(&self) -> (commitments: Vec<Commitment>)
        ensures
            commitments@ == Seq::<Commitment>::empty(),
    {
        Vec::new()
    }

    /// The commitments of all unspent outputs.
    pub fn outputs_committed(&self) -> (step: Step<CommitmentsRun, Vec<Commitment>>)
        ensures
            meets(step, commitments_program(Committer::Outputs)),
    {
        Step::Running(
            CommitmentsRun { of: Committer::Outputs, size: None, n: 0, found: Vec::new() },
        )
    }

    /// The excesses of all kernels.
    pub fn kernels_committed(&self) -> (step: Step<CommitmentsRun, Vec<Commitment>>)
        ensures
            meets(step, commitments_program(Committer::Kernels)),
    {
        Step::Running(
            CommitmentsRun { of: Committer::Kernels, size: None, n: 0, found: Vec::new() },
        )
    }
}

// ---- the index

/// Keeps in the index the positions of all outputs in the output tree, up to
/// the first that the chain store does not keep.
pub open spec fn index_program() -> Verdict {
    Program::Ask(
        Call::Size(Tree::Output),
        Need::BelowMax,
        |reply: Reply| index_from(1, reply->Size_0),
    )
}

/// From position `n` on.
pub open spec fn index_from(n: nat, size: u64) -> Verdict
    decreases size + 1 - n, 1nat,
{
    if n > size {
        Program::Ret(Ok(()))
    } else if leaf_at(n) {
        Program::Ask(
            Call::OutputData(n as u64),
            Need::Any,
            |reply: Reply|
                match reply->MaybeOutput_0 {
                    Some(id) => index_save(n, size, id.commit),
                    None => index_from(n + 1, size),
                },
        )
    } else {
        index_from(n + 1, size)
    }
}

pub open spec fn index_save(n: nat, size: u64, commit: Commitment) -> Verdict
    decreases size + 1 - n, 0nat,
    when n <= size
{
    Program::Ask(
        Call::SaveOutputPos(commit, n as u64),
        Need::Any,
        |reply: Reply|
            match reply->Stored_0 {
                Ok(_) => index_from(n + 1, size),
                Err(e) => Program::Ret(Err(Error::Store(e))),
            },
    )
}

enum IndexStage {
    Size,
    Read(u64, u64),
    Save(u64, u64, Commitment),
}

/// The rebuilding of the index under way.
pub struct IndexRun {
    stage: IndexStage,
}

impl IndexRun {
    spec fn here(&self) -> Verdict {
        match self.stage {
            IndexStage::Size => index_program(),
            IndexStage::Read(n, size) => index_from(n as nat, size),
            IndexStage::Save(n, size, commit) => index_save(n as nat, size, commit),
        }
    }

    spec fn good(&self) -> bool {
        match self.stage {
            IndexStage::Size => true,
            IndexStage::Read(n, size) => n <= size < u64::MAX && leaf_at(n as nat),
            IndexStage::Save(n, size, _) => n <= size < u64::MAX,
        }
    }

    spec fn fits(step: Step<Self, Result<(), Error>>, program: Verdict) -> bool {
        match step {
            Step::Running(run) => run.good() && run.here() == program && program.waits(),
            Step::Done(out) => program == Program::Ret(out),
        }
    }

    /// Goes on from position `n`.
    fn seek(n: u64, size: u64) -> (step: Step<Self, Result<(), Error>>)
        requires
            n >= 1,
            size < u64::MAX,
        ensures
            Self::fits(step, index_from(n as nat, size)),
    {
        let mut at: u64 = n;
        while at <= size
            invariant
                at >= 1,
                size < u64::MAX,
                index_from(at as nat, size) == index_from(n as nat, size),
            decreases size + 1 - at,
        {
            if bintree_postorder_height(at) == 0 {
                return Step::Running(IndexRun { stage: IndexStage::Read(at, size) });
            }
            at = at + 1;
        }
        Step::Done(Ok(()))
    }
}

impl Run for IndexRun {
    type Out = Result<(), Error>;

    type Model = Result<(), Error>;

    open spec fn model(out: Result<(), Error>) -> Result<(), Error> {
        out
    }

    open spec fn sound(out: Result<(), Error>) -> bool {
        true
    }

    closed spec fn program(&self) -> Verdict {
        self.here()
    }

    closed spec fn valid(&self) -> bool {
        self.good()
    }

    proof fn lemma_waits(&self) {
    }

    fn request(&self) -> (request: Request<'_>) {
        match self.stage {
            IndexStage::Size => Request::Size(Tree::Output),
            IndexStage::Read(n, _) => Request::OutputData(n),
            IndexStage::Save(n, _, commit) => Request::SaveOutputPos(commit, n),
        }
    }

    fn need(&self) -> (need: Need) {
        match self.stage {
            IndexStage::Size => Need::BelowMax,
            _ => Need::Any,
        }
    }

    fn resume(self, reply: Reply) -> (step: Step<Self, Result<(), Error>>) {
        match self.stage {
            IndexStage::Size => Self::seek(1, reply.into_size()),
            IndexStage::Read(n, size) => match reply.into_maybe_output() {
                Some(id) => Step::Running(IndexRun { stage: IndexStage::Save(n, size, id.commit) }),
                None => Self::seek(n + 1, size),
            },
            IndexStage::Save(n, size, _) => match reply.into_stored() {
                Ok(_) => Self::seek(n + 1, size),
                Err(e) => Step::Done(Err(Error::Store(e))),
            },
        }
    }
}

impl Extension {
    /// Rebuilds the index from commitments to positions from the whole output
    /// tree. This is costly, and needed only for a full new chain state.
    pub fn rebuild_index(&self) -> (step: Step<IndexRun, Result<(), Error>>)
        ensures
            meets(step, index_program()),
    {
        Step::Running(IndexRun { stage: IndexStage::Size })
    }
}

} // verus!
