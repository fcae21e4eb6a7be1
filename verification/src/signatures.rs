//! Verification of the signatures of all kernels.
use crate::extension::Extension;
use crate::pmmr::{is_leaf, leaf_at, leaf_count, n_leaves};
use crate::program::{meets, Call, Need, Program, Reply, Request, Run, Step};
use crate::script::Verdict;
use crate::types::{Error, Tree, TxKernel};
use vstd::prelude::*;

verus! {

/// Verifies the signatures of all kernels in the kernel tree, in order, up to
/// the first that is wrong. After every twentieth position it reports how many
/// kernels were verified, and how many leaves there are.
pub open spec fn signatures_program() -> Verdict {
    Program::Ask(
        Call::Size(Tree::Kernel),
        Need::BelowMax,
        |reply: Reply| signatures_from(1, reply->Size_0, 0),
    )
}

/// From position `n` on, after `count` kernels.
pub open spec fn signatures_from(n: nat, size: u64, count: nat) -> Verdict
    decreases size + 1 - n, 2nat,
{
    if n > size {
        Program::Ret(Ok(()))
    } else if leaf_at(n) {
        Program::Ask(
            Call::KernelData(n as u64),
            Need::Any,
            |reply: Reply|
                match reply->MaybeKernel_0 {
                    Some(kernel) => signatures_check(n, size, count, kernel),
                    None => signatures_next(n, size, count),
                },
        )
    } else {
        signatures_next(n, size, count)
    }
}

pub open spec fn signatures_check(n: nat, size: u64, count: nat, kernel: TxKernel) -> Verdict
    decreases size + 1 - n, 1nat,
    when n <= size
{
    Program::Ask(
        Call::VerifyKernel(kernel),
        Need::Any,
        |reply: Reply|
            match reply->Done_0 {
                Ok(_) => signatures_next(n, size, count + 1),
                Err(text) => Program::Ret(Err(Error::Rejected(text))),
            },
    )
}

/// After position `n`.
pub open spec fn signatures_next(n: nat, size: u64, count: nat) -> Verdict
    decreases size + 1 - n, 0nat,
    when n <= size
{
    if n % 20 == 0 {
        Program::Ask(
            Call::Report(count as u64, leaf_count(size as nat) as u64, 0, 0),
            Need::Any,
            |reply: Reply| signatures_from(n + 1, size, count),
        )
    } else {
        signatures_from(n + 1, size, count)
    }
}

enum Stage {
    Size,
    Read,
    Check(TxKernel),
    Report,
}

/// The verification of kernel signatures under way.
pub struct SignaturesRun {
    size: u64,
    total: u64,
    n: u64,
    count: u64,
    stage: Stage,
}

impl SignaturesRun {
    spec fn here(&self) -> Verdict {
        match self.stage {
            Stage::Size => signatures_program(),
            Stage::Read => signatures_from(self.n as nat, self.size, self.count as nat),
            Stage::Check(kernel) => signatures_check(
                self.n as nat,
                self.size,
                self.count as nat,
                kernel,
            ),
            Stage::Report => signatures_next(self.n as nat, self.size, self.count as nat),
        }
    }

    spec fn good(&self) -> bool {
        if self.stage is Size {
            true
        } else {
            &&& self.count <= self.n <= self.size < u64::MAX
            &&& self.n >= 1
            &&& !(self.stage is Report) ==> self.count < self.n
            &&& self.total == leaf_count(self.size as nat)
            &&& self.stage is Read ==> leaf_at(self.n as nat)
            &&& self.stage is Report ==> self.n % 20 == 0
        }
    }

    spec fn fits(step: Step<Self, Result<(), Error>>, program: Verdict) -> bool {
        match step {
            Step::Running(run) => run.good() && run.here() == program && program.waits(),
            Step::Done(out) => program == Program::Ret(out),
        }
    }

    /// Goes on from position `n`.
    fn seek(n: u64, size: u64, total: u64, count: u64) -> (step: Step<Self, Result<(), Error>>)
        requires
            count < n,
            size < u64::MAX,
            total == leaf_count(size as nat),
        ensures
            Self::fits(step, signatures_from(n as nat, size, count as nat)),
    {
        let mut at: u64 = n;
        while at <= size
            invariant
                count < at,
                size < u64::MAX,
                total == leaf_count(size as nat),
                signatures_from(at as nat, size, count as nat) == signatures_from(
                    n as nat,
                    size,
                    count as nat,
                ),
            decreases size + 1 - at,
        {
            if is_leaf(at) {
                return Step::Running(SignaturesRun { size, total, n: at, count, stage: Stage::Read });
            }
            if at % 20 == 0 {
                return Step::Running(
                    SignaturesRun { size, total, n: at, count, stage: Stage::Report },
                );
            }
            at = at + 1;
        }
        Step::Done(Ok(()))
    }

    /// Goes on after position `n`.
    fn after(n: u64, size: u64, total: u64, count: u64) -> (step: Step<Self, Result<(), Error>>)
        requires
            count <= n <= size < u64::MAX,
            n >= 1,
            total == leaf_count(size as nat),
        ensures
            Self::fits(step, signatures_next(n as nat, size, count as nat)),
    {
        if n % 20 == 0 {
            Step::Running(SignaturesRun { size, total, n, count, stage: Stage::Report })
        } else {
            Self::seek(n + 1, size, total, count)
        }
    }
}

impl Run for SignaturesRun {
    type Out = Result<(), Error>;

    type Model = Result<(), Error>;

    open spec fn model(out: Result<(), Error>) -> Result<(), Error> {
        out
    }

    open spec fn sound(out: Result<(), Error>) -> bool {
        true
    }

    closed spec fn program(&self) -> Verdict {
        self.here()
    }

    closed spec fn valid(&self) -> bool {
        self.good()
    }

    proof fn lemma_waits(&self) {
    }

    fn request(&self) -> (request: Request<'_>) {
        match &self.stage {
            Stage::Size => Request::Size(Tree::Kernel),
            Stage::Read => Request::KernelData(self.n),
            Stage::Check(kernel) => Request::VerifyKernel(kernel),
            Stage::Report => Request::Report(self.count, self.total, 0, 0),
        }
    }

    fn need(&self) -> (need: Need) {
        match self.stage {
            Stage::Size => Need::BelowMax,
            _ => Need::Any,
        }
    }

    fn resume(self, reply: Reply) -> (step: Step<Self, Result<(), Error>>) {
        let SignaturesRun { size, total, n, count, stage } = self;
        match stage {
            Stage::Size => {
                let size = reply.into_size();
                Self::seek(1, size, n_leaves(size), 0)
            },
            Stage::Read => match reply.into_maybe_kernel() {
                Some(kernel) => Step::Running(
                    SignaturesRun { size, total, n, count, stage: Stage::Check(kernel) },
                ),
                None => Self::after(n, size, total, count),
            },
            Stage::Check(_) => match reply.into_done() {
                Ok(_) => Self::after(n, size, total, count + 1),
                Err(text) => Step::Done(Err(Error::Rejected(text))),
            },
            Stage::Report => Self::seek(n + 1, size, total, count),
        }
    }
}

impl Extension {
    /// Verifies the signatures of all kernels.
    pub fn verify_kernel_signatures(&self) -> (step: Step<SignaturesRun, Result<(), Error>>)
        ensures
            step is Running,
            meets(step, signatures_program()),
    {
        Step::Running(SignaturesRun { size: 0, total: 0, n: 0, count: 0, stage: Stage::Size })
    }
}

} // verus!
