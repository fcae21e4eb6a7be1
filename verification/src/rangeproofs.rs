//! Verification of the range proofs of all unspent outputs.
use crate::extension::Extension;
use crate::pmmr::{is_leaf, leaf_at, leaf_count, n_leaves};
use crate::program::{meets, Call, Need, Program, Reply, Request, Run, Step};
use crate::script::Verdict;
use crate::types::{Error, OutputIdentifier, RangeProof, Tree};
use vstd::prelude::*;

verus! {

/// Verifies the range proofs of all outputs in the output tree, in order, up to
/// the first that is wrong or missing. After every twentieth position it
/// reports how many range proofs were verified, and how many leaves there are.
pub open spec fn rangeproofs_program() -> Verdict {
    Program::Ask(
        Call::Size(Tree::Output),
        Need::BelowMax,
        |reply: Reply| rangeproofs_from(1, reply->Size_0, 0),
    )
}

/// From position `n` on, after `count` range proofs.
pub open spec fn rangeproofs_from(n: nat, size: u64, count: nat) -> Verdict
    decreases size + 1 - n, 3nat,
{
    if n > size {
        Program::Ret(Ok(()))
    } else if leaf_at(n) {
        Program::Ask(
            Call::OutputData(n as u64),
            Need::Any,
            |reply: Reply|
                match reply->MaybeOutput_0 {
                    Some(id) => rangeproofs_read(n, size, count, id),
                    None => rangeproofs_next(n, size, count),
                },
        )
    } else {
        rangeproofs_next(n, size, count)
    }
}

pub open spec fn rangeproofs_read(n: nat, size: u64, count: nat, id: OutputIdentifier) -> Verdict
    decreases size + 1 - n, 2nat,
    when n <= size
{
    Program::Ask(
        Call::RproofData(n as u64),
        Need::Any,
        |reply: Reply|
            match reply->MaybeProof_0 {
                Some(proof) => rangeproofs_check(n, size, count, id, proof),
                None => Program::Ret(Err(Error::OutputNotFound)),
            },
    )
}

pub open spec fn rangeproofs_check(
    n: nat,
    size: u64,
    count: nat,
    id: OutputIdentifier,
    proof: RangeProof,
) -> Verdict
    decreases size + 1 - n, 1nat,
    when n <= size
{
    Program::Ask(
        Call::VerifyProof(id, proof),
        Need::Any,
        |reply: Reply|
            match reply->Done_0 {
                Ok(_) => rangeproofs_next(n, size, count + 1),
                Err(text) => Program::Ret(Err(Error::Rejected(text))),
            },
    )
}

/// After position `n`.
pub open spec fn rangeproofs_next(n: nat, size: u64, count: nat) -> Verdict
    decreases size + 1 - n, 0nat,
    when n <= size
{
    if n % 20 == 0 {
        Program::Ask(
            Call::Report(0, 0, count as u64, leaf_count(size as nat) as u64),
            Need::Any,
            |reply: Reply| rangeproofs_from(n + 1, size, count),
        )
    } else {
        rangeproofs_from(n + 1, size, count)
    }
}

enum Stage {
    Size,
    Read,
    Proof(OutputIdentifier),
    Check(OutputIdentifier, RangeProof),
    Report,
}

/// The verification of range proofs under way.
pub struct RangeproofsRun {
    size: u64,
    total: u64,
    n: u64,
    count: u64,
    stage: Stage,
}

impl RangeproofsRun {
    spec fn here(&self) -> Verdict {
        match self.stage {
            Stage::Size => rangeproofs_program(),
            Stage::Read => rangeproofs_from(self.n as nat, self.size, self.count as nat),
            Stage::Proof(id) => rangeproofs_read(self.n as nat, self.size, self.count as nat, id),
            Stage::Check(id, proof) => rangeproofs_check(
                self.n as nat,
                self.size,
                self.count as nat,
                id,
                proof,
            ),
            Stage::Report => rangeproofs_next(self.n as nat, self.size, self.count as nat),
        }
    }

    spec fn good(&self) -> bool {
        if self.stage is Size {
            true
        } else {
            &&& self.count <= self.n <= self.size < u64::MAX
            &&& self.n >= 1
            &&& !(self.stage is Report) ==> self.count < self.n
            &&& self.total == leaf_count(self.size as nat)
            &&& self.stage is Read ==> leaf_at(self.n as nat)
            &&& self.stage is Report ==> self.n % 20 == 0
        }
    }

    spec fn fits(step: Step<Self, Result<(), Error>>, program: Verdict) -> bool {
        match step {
            Step::Running(run) => run.good() && run.here() == program && program.waits(),
            Step::Done(out) => program == Program::Ret(out),
        }
    }

    /// Goes on from position `n`.
    fn seek(n: u64, size: u64, total: u64, count: u64) -> (step: Step<Self, Result<(), Error>>)
        requires
            count < n,
            size < u64::MAX,
            total == leaf_count(size as nat),
        ensures
            Self::fits(step, rangeproofs_from(n as nat, size, count as nat)),
    {
        let mut at: u64 = n;
        while at <= size
            invariant
                count < at,
                size < u64::MAX,
                total == leaf_count(size as nat),
                rangeproofs_from(at as nat, size, count as nat) == rangeproofs_from(
                    n as nat,
                    size,
                    count as nat,
                ),
            decreases size + 1 - at,
        {
            if is_leaf(at) {
                return Step::Running(RangeproofsRun { size, total, n: at, count, stage: Stage::Read });
            }
            if at % 20 == 0 {
                return Step::Running(
                    RangeproofsRun { size, total, n: at, count, stage: Stage::Report },
                );
            }
            at = at + 1;
        }
        Step::Done(Ok(()))
    }

    /// Goes on after position `n`.
    fn after(n: u64, size: u64, total: u64, count: u64) -> (step: Step<Self, Result<(), Error>>)
        requires
            count <= n <= size < u64::MAX,
            n >= 1,
            total == leaf_count(size as nat),
        ensures
            Self::fits(step, rangeproofs_next(n as nat, size, count as nat)),
    {
        if n % 20 == 0 {
            Step::Running(RangeproofsRun { size, total, n, count, stage: Stage::Report })
        } else {
            Self::seek(n + 1, size, total, count)
        }
    }
}

impl Run for RangeproofsRun {
    type Out = Result<(), Error>;

    type Model = Result<(), Error>;

    open spec fn model(out: Result<(), Error>) -> Result<(), Error> {
        out
    }

    open spec fn sound(out: Result<(), Error>) -> bool {
        true
    }

    closed spec fn program(&self) -> Verdict {
        self.here()
    }

    closed spec fn valid(&self) -> bool {
        self.good()
    }

    proof fn lemma_waits(&self) {
    }

    fn request(&self) -> (request: Request<'_>) {
        match &self.stage {
            Stage::Size => Request::Size(Tree::Output),
            Stage::Read => Request::OutputData(self.n),
            Stage::Proof(_) => Request::RproofData(self.n),
            Stage::Check(id, proof) => Request::VerifyProof(*id, proof),
            Stage::Report => Request::Report(0, 0, self.count, self.total),
        }
    }

    fn need(&self) -> (need: Need) {
        match self.stage {
            Stage::Size => Need::BelowMax,
            _ => Need::Any,
        }
    }

    fn resume(self, reply: Reply) -> (step: Step<Self, Result<(), Error>>) {
        let RangeproofsRun { size, total, n, count, stage } = self;
        match stage {
            Stage::Size => {
                let size = reply.into_size();
                Self::seek(1, size, n_leaves(size), 0)
            },
            Stage::Read => match reply.into_maybe_output() {
                Some(id) => Step::Running(
                    RangeproofsRun { size, total, n, count, stage: Stage::Proof(id) },
                ),
                None => Self::after(n, size, total, count),
            },
            Stage::Proof(id) => match reply.into_maybe_proof() {
                Some(proof) => Step::Running(
                    RangeproofsRun { size, total, n, count, stage: Stage::Check(id, proof) },
                ),
                None => Step::Done(Err(Error::OutputNotFound)),
            },
            Stage::Check(..) => match reply.into_done() {
                Ok(_) => Self::after(n, size, total, count + 1),
                Err(text) => Step::Done(Err(Error::Rejected(text))),
            },
            Stage::Report => Self::seek(n + 1, size, total, count),
        }
    }
}

impl Extension {
    /// Verifies the range proofs of all unspent outputs.
    pub fn verify_rangeproofs(&self) -> (step: Step<RangeproofsRun, Result<(), Error>>)
        ensures
            step is Running,
            meets(step, rangeproofs_program()),
    {
        Step::Running(RangeproofsRun { size: 0, total: 0, n: 0, count: 0, stage: Stage::Size })
    }
}

} // verus!
