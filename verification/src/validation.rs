//! Validation of the trees against a block header.
use crate::extension::Extension;
use crate::leaves::{commitments_program, CommitmentsRun, Committer};
use crate::program::{bind, lemma_bind, meets, Call, Need, Program, Reply, Request, Run, Step};
use crate::rangeproofs::{rangeproofs_program, RangeproofsRun};
use crate::script::{script_program, tree_calls, Fault, ScriptRun, TreeCall, Verdict};
use crate::signatures::{signatures_program, SignaturesRun};
use crate::types::{BlockHeader, Commitment, Error, Hash256, Key, Tree, TxHashSetRoots};
use vstd::prelude::*;

verus! {

// ---- roots

/// Computes the roots of the three trees.
pub open spec fn roots_program() -> Program<TxHashSetRoots> {
    Program::Ask(
        Call::Root(Tree::Output),
        Need::Any,
        |reply: Reply| roots_with_output(reply->Digest_0),
    )
}

pub open spec fn roots_with_output(output_root: Hash256) -> Program<TxHashSetRoots> {
    Program::Ask(
        Call::Root(Tree::RangeProof),
        Need::Any,
        |reply: Reply| roots_with_rproof(output_root, reply->Digest_0),
    )
}

pub open spec fn roots_with_rproof(output_root: Hash256, rproof_root: Hash256) -> Program<
    TxHashSetRoots,
> {
    Program::Ask(
        Call::Root(Tree::Kernel),
        Need::Any,
        |reply: Reply|
            Program::Ret(TxHashSetRoots { output_root, rproof_root, kernel_root: reply->Digest_0 }),
    )
}

enum RootsStage {
    Output,
    Rproof(Hash256),
    Kernel(Hash256, Hash256),
}

/// The computation of the roots under way.
pub struct RootsRun {
    stage: RootsStage,
}

impl Run for RootsRun {
    type Out = TxHashSetRoots;

    type Model = TxHashSetRoots;

    open spec fn model(out: TxHashSetRoots) -> TxHashSetRoots {
        out
    }

    open spec fn sound(out: TxHashSetRoots) -> bool {
        true
    }

    closed spec fn program(&self) -> Program<TxHashSetRoots> {
        match self.stage {
            RootsStage::Output => roots_program(),
            RootsStage::Rproof(output_root) => roots_with_output(output_root),
            RootsStage::Kernel(output_root, rproof_root) => roots_with_rproof(
                output_root,
                rproof_root,
            ),
        }
    }

    closed spec fn valid(&self) -> bool {
        true
    }

    proof fn lemma_waits(&self) {
    }

    fn request(&self) -> (request: Request<'_>) {
        match self.stage {
            RootsStage::Output => Request::Root(Tree::Output),
            RootsStage::Rproof(_) => Request::Root(Tree::RangeProof),
            RootsStage::Kernel(..) => Request::Root(Tree::Kernel),
        }
    }

    fn need(&self) -> (need: Need) {
        Need::Any
    }

    fn resume(self, reply: Reply) -> (step: Step<Self, TxHashSetRoots>) {
        let root = reply.into_digest();
        match self.stage {
            RootsStage::Output => Step::Running(RootsRun { stage: RootsStage::Rproof(root) }),
            RootsStage::Rproof(output_root) => Step::Running(
                RootsRun { stage: RootsStage::Kernel(output_root, root) },
            ),
            RootsStage::Kernel(output_root, rproof_root) => Step::Done(
                TxHashSetRoots { output_root, rproof_root, kernel_root: root },
            ),
        }
    }
}

/// Compares roots with those of a header.
pub open spec fn compare_roots(header: BlockHeader) -> spec_fn(TxHashSetRoots) -> Verdict {
    |roots: TxHashSetRoots|
        Program::Ret(
            if roots.output_root == header.output_root && roots.rproof_root
                == header.range_proof_root && roots.kernel_root == header.kernel_root {
                Ok(())
            } else {
                Err(Error::InvalidRoot)
            },
        )
}

/// Checks the roots of the trees against a header. The genesis block has no
/// outputs and no kernels, so that there is nothing to check.
pub open spec fn validate_roots_program(header: BlockHeader) -> Verdict {
    if header.height == 0 {
        Program::Ret(Ok(()))
    } else {
        bind(roots_program(), compare_roots(header))
    }
}

/// The check of the roots under way.
pub struct ValidateRootsRun {
    header: BlockHeader,
    roots: RootsRun,
}

impl Run for ValidateRootsRun {
    type Out = Result<(), Error>;

    type Model = Result<(), Error>;

    open spec fn model(out: Result<(), Error>) -> Result<(), Error> {
        out
    }

    open spec fn sound(out: Result<(), Error>) -> bool {
        true
    }

    closed spec fn program(&self) -> Verdict {
        bind(self.roots.program(), compare_roots(self.header))
    }

    closed spec fn valid(&self) -> bool {
        self.roots.valid()
    }

    proof fn lemma_waits(&self) {
        self.roots.lemma_waits();
        lemma_bind(self.roots.program(), compare_roots(self.header));
    }

    fn request(&self) -> (request: Request<'_>) {
        proof {
            self.roots.lemma_waits();
            lemma_bind(self.roots.program(), compare_roots(self.header));
        }
        self.roots.request()
    }

    fn need(&self) -> (need: Need) {
        proof {
            self.roots.lemma_waits();
            lemma_bind(self.roots.program(), compare_roots(self.header));
        }
        self.roots.need()
    }

    fn resume(self, reply: Reply) -> (step: Step<Self, Result<(), Error>>) {
        proof {
            self.roots.lemma_waits();
            lemma_bind(self.roots.program(), compare_roots(self.header));
        }
        let ValidateRootsRun { header, roots } = self;
        match roots.resume(reply) {
            Step::Running(roots) => Step::Running(ValidateRootsRun { header, roots }),
            Step::Done(roots) => if roots.output_root.same(&header.output_root)
                && roots.rproof_root.same(&header.range_proof_root) && roots.kernel_root.same(
                &header.kernel_root,
            ) {
                Step::Done(Ok(()))
            } else {
                Step::Done(Err(Error::InvalidRoot))
            },
        }
    }
}

impl Extension {
    /// Current roots of the output, range proof and kernel trees.
    pub fn roots(&self) -> (step: Step<RootsRun, TxHashSetRoots>)
        ensures
            meets(step, roots_program()),
    {
        Step::Running(RootsRun { stage: RootsStage::Output })
    }

    /// Validates the roots of the trees against a block header.
    pub fn validate_roots(&self, header: &BlockHeader) -> (step: Step<
        ValidateRootsRun,
        Result<(), Error>,
    >)
        ensures
            meets(step, validate_roots_program(*header)),
    {
        if header.height == 0 {
            Step::Done(Ok(()))
        } else {
            Step::Running(
                ValidateRootsRun {
                    header: *header,
                    roots: RootsRun { stage: RootsStage::Output },
                },
            )
        }
    }
}

// ---- everything

/// A dialogue that ends with the sums of the outputs and of the kernels.
pub type Sums = Program<Result<(Commitment, Commitment), Error>>;

/// Validates the trees against a header: their hashes, then their roots, then
/// that the kernel excesses sum to the unspent outputs, then the signatures of
/// the kernels, and then, unless they are skipped, the range proofs. The
/// genesis block has neither outputs nor kernels, and both sums are the
/// commitment to zero.
pub open spec fn validate_program(header: BlockHeader, skip_rproofs: bool) -> Sums {
    bind(
        script_program(tree_calls(TreeCall::Validate), Fault::Invalid),
        after_mmrs(header, skip_rproofs),
    )
}

pub open spec fn after_mmrs(header: BlockHeader, skip_rproofs: bool) -> spec_fn(
    Result<(), Error>,
) -> Sums {
    |verdict: Result<(), Error>|
        match verdict {
            Ok(_) => bind(validate_roots_program(header), after_roots(header, skip_rproofs)),
            Err(e) => Program::Ret(Err(e)),
        }
}

pub open spec fn after_roots(header: BlockHeader, skip_rproofs: bool) -> spec_fn(
    Result<(), Error>,
) -> Sums {
    |verdict: Result<(), Error>|
        match verdict {
            Ok(_) => if header.height == 0 {
                zero_sums()
            } else {
                bind(
                    commitments_program(Committer::Outputs),
                    after_outputs(header, skip_rproofs),
                )
            },
            Err(e) => Program::Ret(Err(e)),
        }
}

pub open spec fn zero_sums() -> Sums {
    Program::Ask(
        Call::ZeroCommit,
        Need::Any,
        |reply: Reply| Program::Ret(Ok((reply->Commit_0, reply->Commit_0))),
    )
}

pub open spec fn after_outputs(header: BlockHeader, skip_rproofs: bool) -> spec_fn(
    Seq<Commitment>,
) -> Sums {
    |outputs: Seq<Commitment>|
        bind(
            commitments_program(Committer::Kernels),
            after_kernels(header, skip_rproofs, outputs),
        )
}

pub open spec fn after_kernels(
    header: BlockHeader,
    skip_rproofs: bool,
    outputs: Seq<Commitment>,
) -> spec_fn(Seq<Commitment>) -> Sums {
    |kernels: Seq<Commitment>| verify_sums(header, skip_rproofs, outputs, kernels)
}

pub open spec fn verify_sums(
    header: BlockHeader,
    skip_rproofs: bool,
    outputs: Seq<Commitment>,
    kernels: Seq<Commitment>,
) -> Sums {
    Program::Ask(
        Call::KernelSums(header.total_overage, header.total_kernel_offset, outputs, kernels),
        Need::Any,
        |reply: Reply|
            match reply->Sums_0 {
                Ok(sums) => bind(signatures_program(), after_signatures(skip_rproofs, sums)),
                Err(text) => Program::Ret(Err(Error::Rejected(text))),
            },
    )
}

pub open spec fn after_signatures(
    skip_rproofs: bool,
    sums: (Commitment, Commitment),
) -> spec_fn(Result<(), Error>) -> Sums {
    |verdict: Result<(), Error>|
        match verdict {
            Ok(_) => if skip_rproofs {
                Program::Ret(Ok(sums))
            } else {
                bind(rangeproofs_program(), after_rangeproofs(sums))
            },
            Err(e) => Program::Ret(Err(e)),
        }
}

pub open spec fn after_rangeproofs(sums: (Commitment, Commitment)) -> spec_fn(
    Result<(), Error>,
) -> Sums {
    |verdict: Result<(), Error>|
        match verdict {
            Ok(_) => Program::Ret(Ok(sums)),
            Err(e) => Program::Ret(Err(e)),
        }
}

enum Stage<'a> {
    Mmrs(ScriptRun<'a>),
    Roots(ValidateRootsRun),
    Zero,
    Outputs(CommitmentsRun),
    Kernels(Vec<Commitment>, CommitmentsRun),
    Sums(Vec<Commitment>, Vec<Commitment>),
    Signatures((Commitment, Commitment), SignaturesRun),
    Rangeproofs((Commitment, Commitment), RangeproofsRun),
}

/// A validation under way.
pub struct ValidateRun<'a> {
    extension: &'a Extension,
    header: BlockHeader,
    skip: bool,
    stage: Stage<'a>,
}

impl<'a> ValidateRun<'a> {
    spec fn here(&self) -> Sums {
        match self.stage {
            Stage::Zero => zero_sums(),
            Stage::Sums(outputs, kernels) => verify_sums(
                self.header,
                self.skip,
                outputs@,
                kernels@,
            ),
            Stage::Mmrs(run) => bind(run.program(), after_mmrs(self.header, self.skip)),
            Stage::Roots(run) => bind(run.program(), after_roots(self.header, self.skip)),
            Stage::Outputs(run) => bind(run.program(), after_outputs(self.header, self.skip)),
            Stage::Kernels(outputs, run) => bind(run.program(), after_kernels(self.header, self.skip, outputs@)),
            Stage::Signatures(sums, run) => bind(run.program(), after_signatures(self.skip, sums)),
            Stage::Rangeproofs(sums, run) => bind(run.program(), after_rangeproofs(sums)),
        }
    }

    spec fn good(&self) -> bool {
        match self.stage {
            Stage::Zero => true,
            Stage::Sums(..) => true,
            Stage::Mmrs(run) => run.valid(),
            Stage::Roots(run) => run.valid(),
            Stage::Outputs(run) => run.valid(),
            Stage::Kernels(_, run) => run.valid(),
            Stage::Signatures(_, run) => run.valid(),
            Stage::Rangeproofs(_, run) => run.valid(),
        }
    }

    spec fn fits(step: Step<Self, Result<(Commitment, Commitment), Error>>, program: Sums) -> bool {
        match step {
            Step::Running(run) => run.good() && run.here() == program && program.waits(),
            Step::Done(out) => program == Program::Ret(out),
        }
    }

    /// A reply goes to the part that waits for it.
    proof fn lemma_part(&self)
        requires
            self.good(),
        ensures
            self.here().waits(),
            match self.stage {
                Stage::Zero => true,
                Stage::Sums(..) => true,
                Stage::Mmrs(run) => {
                    &&& run.program().waits()
                    &&& self.here().call() == run.program().call()
                    &&& self.here().need() == run.program().need()
                    &&& forall|reply: Reply| #[trigger]
                        self.here().next(reply) == bind(
                            run.program().next(reply),
                            after_mmrs(self.header, self.skip),
                        )
                },
                Stage::Roots(run) => {
                    &&& run.program().waits()
                    &&& self.here().call() == run.program().call()
                    &&& self.here().need() == run.program().need()
                    &&& forall|reply: Reply| #[trigger]
                        self.here().next(reply) == bind(
                            run.program().next(reply),
                            after_roots(self.header, self.skip),
                        )
                },
                Stage::Outputs(run) => {
                    &&& run.program().waits()
                    &&& self.here().call() == run.program().call()
                    &&& self.here().need() == run.program().need()
                    &&& forall|reply: Reply| #[trigger]
                        self.here().next(reply) == bind(
                            run.program().next(reply),
                            after_outputs(self.header, self.skip),
                        )
                },
                Stage::Kernels(outputs, run) => {
                    &&& run.program().waits()
                    &&& self.here().call() == run.program().call()
                    &&& self.here().need() == run.program().need()
                    &&& forall|reply: Reply| #[trigger]
                        self.here().next(reply) == bind(
                            run.program().next(reply),
                            after_kernels(self.header, self.skip, outputs@),
                        )
                },
                Stage::Signatures(sums, run) => {
                    &&& run.program().waits()
                    &&& self.here().call() == run.program().call()
                    &&& self.here().need() == run.program().need()
                    &&& forall|reply: Reply| #[trigger]
                        self.here().next(reply) == bind(
                            run.program().next(reply),
                            after_signatures(self.skip, sums),
                        )
                },
                Stage::Rangeproofs(sums, run) => {
                    &&& run.program().waits()
                    &&& self.here().call() == run.program().call()
                    &&& self.here().need() == run.program().need()
                    &&& forall|reply: Reply| #[trigger]
                        self.here().next(reply) == bind(
                            run.program().next(reply),
                            after_rangeproofs(sums),
                        )
                },
            },
    {
        match self.stage {
            Stage::Zero => {},
            Stage::Sums(..) => {},
            Stage::Mmrs(run) => {
                run.lemma_waits();
                lemma_bind(run.program(), after_mmrs(self.header, self.skip));
            },
            Stage::Roots(run) => {
                run.lemma_waits();
                lemma_bind(run.program(), after_roots(self.header, self.skip));
            },
            Stage::Outputs(run) => {
                run.lemma_waits();
                lemma_bind(run.program(), after_outputs(self.header, self.skip));
            },
            Stage::Kernels(outputs, run) => {
                run.lemma_waits();
                lemma_bind(run.program(), after_kernels(self.header, self.skip, outputs@));
            },
            Stage::Signatures(sums, run) => {
                run.lemma_waits();
                lemma_bind(run.program(), after_signatures(self.skip, sums));
            },
            Stage::Rangeproofs(sums, run) => {
                run.lemma_waits();
                lemma_bind(run.program(), after_rangeproofs(sums));
            },
        }
    }

    fn to(extension: &'a Extension, header: BlockHeader, skip: bool, stage: Stage<'a>) -> (step:
        Step<Self, Result<(Commitment, Commitment), Error>>)
        requires
            (ValidateRun { extension, header, skip, stage }).good(),
        ensures
            Self::fits(step, (ValidateRun { extension, header, skip, stage }).here()),
    {
        let run = ValidateRun { extension, header, skip, stage };
        proof {
            run.lemma_part();
        }
        Step::Running(run)
    }

    /// Goes on after the hashes were found to be right.
    fn roots(extension: &'a Extension, header: BlockHeader, skip: bool) -> (step: Step<
        Self,
        Result<(Commitment, Commitment), Error>,
    >)
        ensures
            Self::fits(step, after_mmrs(header, skip)(Ok(()))),
    {
        match extension.validate_roots(&header) {
            Step::Running(run) => Self::to(extension, header, skip, Stage::Roots(run)),
            Step::Done(verdict) => Self::sums(extension, header, skip, verdict),
        }
    }

    /// Goes on after the roots were checked.
    fn sums(
        extension: &'a Extension,
        header: BlockHeader,
        skip: bool,
        verdict: Result<(), Error>,
    ) -> (step: Step<Self, Result<(Commitment, Commitment), Error>>)
        ensures
            Self::fits(step, after_roots(header, skip)(verdict)),
    {
        match verdict {
            Ok(_) => if header.height == 0 {
                Self::to(extension, header, skip, Stage::Zero)
            } else {
                match extension.outputs_committed() {
                    Step::Running(run) => Self::to(extension, header, skip, Stage::Outputs(run)),
                    Step::Done(_) => unreached(),
                }
            },
            Err(e) => Step::Done(Err(e)),
        }
    }
}

impl<'a> Run for ValidateRun<'a> {
    type Out = Result<(Commitment, Commitment), Error>;

    type Model = Result<(Commitment, Commitment), Error>;

    open spec fn model(out: Result<(Commitment, Commitment), Error>) -> Result<
        (Commitment, Commitment),
        Error,
    > {
        out
    }

    open spec fn sound(out: Result<(Commitment, Commitment), Error>) -> bool {
        true
    }

    closed spec fn program(&self) -> Sums {
        self.here()
    }

    closed spec fn valid(&self) -> bool {
        self.good()
    }

    proof fn lemma_waits(&self) {
        self.lemma_part();
    }

    fn request(&self) -> (request: Request<'_>) {
        proof {
            self.lemma_part();
        }
        match &self.stage {
            Stage::Zero => Request::ZeroCommit,
            Stage::Sums(outputs, kernels) => Request::KernelSums(
                self.header.total_overage,
                self.header.total_kernel_offset,
                outputs,
                kernels,
            ),
            Stage::Mmrs(run) => run.request(),
            Stage::Roots(run) => run.request(),
            Stage::Outputs(run) => run.request(),
            Stage::Kernels(_, run) => run.request(),
            Stage::Signatures(_, run) => run.request(),
            Stage::Rangeproofs(_, run) => run.request(),
        }
    }

    fn need(&self) -> (need: Need) {
        proof {
            self.lemma_part();
        }
        match &self.stage {
            Stage::Zero => Need::Any,
            Stage::Sums(..) => Need::Any,
            Stage::Mmrs(run) => run.need(),
            Stage::Roots(run) => run.need(),
            Stage::Outputs(run) => run.need(),
            Stage::Kernels(_, run) => run.need(),
            Stage::Signatures(_, run) => run.need(),
            Stage::Rangeproofs(_, run) => run.need(),
        }
    }

    fn resume(self, reply: Reply) -> (step: Step<Self, Result<(Commitment, Commitment), Error>>) {
        proof {
            self.lemma_part();
        }
        let ValidateRun { extension, header, skip, stage } = self;
        match stage {
            Stage::Mmrs(run) => match run.resume(reply) {
                Step::Running(run) => Self::to(extension, header, skip, Stage::Mmrs(run)),
                Step::Done(Ok(_)) => Self::roots(extension, header, skip),
                Step::Done(Err(e)) => Step::Done(Err(e)),
            },
            Stage::Roots(run) => match run.resume(reply) {
                Step::Running(run) => Self::to(extension, header, skip, Stage::Roots(run)),
                Step::Done(verdict) => Self::sums(extension, header, skip, verdict),
            },
            Stage::Zero => {
                let zero = reply.into_commit();
                Step::Done(Ok((zero, zero)))
            },
            Stage::Outputs(run) => match run.resume(reply) {
                Step::Running(run) => Self::to(extension, header, skip, Stage::Outputs(run)),
                Step::Done(outputs) => match extension.kernels_committed() {
                    Step::Running(run) => Self::to(
                        extension,
                        header,
                        skip,
                        Stage::Kernels(outputs, run),
                    ),
                    Step::Done(_) => unreached(),
                },
            },
            Stage::Kernels(outputs, run) => match run.resume(reply) {
                Step::Running(run) => Self::to(
                    extension,
                    header,
                    skip,
                    Stage::Kernels(outputs, run),
                ),
                Step::Done(kernels) => Self::to(
                    extension,
                    header,
                    skip,
                    Stage::Sums(outputs, kernels),
                ),
            },
            Stage::Sums(..) => match reply.into_sums() {
                Ok(sums) => match extension.verify_kernel_signatures() {
                    Step::Running(run) => Self::to(
                        extension,
                        header,
                        skip,
                        Stage::Signatures(sums, run),
                    ),
                    Step::Done(_) => unreached(),
                },
                Err(text) => Step::Done(Err(Error::Rejected(text))),
            },
            Stage::Signatures(sums, run) => match run.resume(reply) {
                Step::Running(run) => Self::to(
                    extension,
                    header,
                    skip,
                    Stage::Signatures(sums, run),
                ),
                Step::Done(Ok(_)) => if skip {
                    Step::Done(Ok(sums))
                } else {
                    match extension.verify_rangeproofs() {
                        Step::Running(run) => Self::to(
                            extension,
                            header,
                            skip,
                            Stage::Rangeproofs(sums, run),
                        ),
                        Step::Done(_) => unreached(),
                    }
                },
                Step::Done(Err(e)) => Step::Done(Err(e)),
            },
            Stage::Rangeproofs(sums, run) => match run.resume(reply) {
                Step::Running(run) => Self::to(
                    extension,
                    header,
                    skip,
                    Stage::Rangeproofs(sums, run),
                ),
                Step::Done(Ok(_)) => Step::Done(Ok(sums)),
                Step::Done(Err(e)) => Step::Done(Err(e)),
            },
        }
    }
}

impl Extension {
    /// Validates the state of the trees against a block header, and gives back
    /// the sum of the outputs and that of the kernels.
    pub fn validate<'a>(&'a self, header: &BlockHeader, skip_rproofs: bool) -> (step: Step<
        ValidateRun<'a>,
        Result<(Commitment, Commitment), Error>,
    >)
        ensures
            meets(step, validate_program(*header, skip_rproofs)),
    {
        match self.validate_mmrs() {
            Step::Running(run) => ValidateRun::to(self, *header, skip_rproofs, Stage::Mmrs(run)),
            Step::Done(_) => unreached(),
        }
    }
}

} // verus!
