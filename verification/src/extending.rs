//! Units of work: either everything in one takes effect, or nothing.
use crate::extension::{Extension, Outcome, Overlay};
use crate::program::{bind, lemma_bind, meets, Call, Need, Program, Reply, Request, Run, Step};
use crate::script::{
    run_script, save_calls, script_program, tree_calls, tree_requests, Fault, ScriptRun, TreeCall,
};
use crate::txhashset::TxHashSet;
use crate::types::{BlockMarker, Commitment, Error, Hash256, Sizes, Tree};
use vstd::prelude::*;

verus! {

// ---- sizes

/// Takes down the sizes of the trees.
pub open spec fn sizes_program() -> Program<Sizes> {
    Program::Ask(
        Call::Size(Tree::Output),
        Need::Any,
        |reply: Reply| sizes_rproof(reply->Size_0),
    )
}

pub open spec fn sizes_rproof(output: u64) -> Program<Sizes> {
    Program::Ask(
        Call::Size(Tree::RangeProof),
        Need::Any,
        |reply: Reply| sizes_kernel(output, reply->Size_0),
    )
}

pub open spec fn sizes_kernel(output: u64, rproof: u64) -> Program<Sizes> {
    Program::Ask(
        Call::Size(Tree::Kernel),
        Need::Any,
        |reply: Reply| Program::Ret(Sizes { output, rproof, kernel: reply->Size_0 }),
    )
}

enum SizesStage {
    Output,
    Rproof(u64),
    Kernel(u64, u64),
}

/// The sizes that are being taken down.
pub struct SizesRun {
    stage: SizesStage,
}

impl Run for SizesRun {
    type Out = Sizes;

    type Model = Sizes;

    open spec fn model(out: Sizes) -> Sizes {
        out
    }

    open spec fn sound(out: Sizes) -> bool {
        true
    }

    closed spec fn program(&self) -> Program<Sizes> {
        match self.stage {
            SizesStage::Output => sizes_program(),
            SizesStage::Rproof(output) => sizes_rproof(output),
            SizesStage::Kernel(output, rproof) => sizes_kernel(output, rproof),
        }
    }

    closed spec fn valid(&self) -> bool {
        true
    }

    proof fn lemma_waits(&self) {
    }

    fn request(&self) -> (request: Request<'_>) {
        match self.stage {
            SizesStage::Output => Request::Size(Tree::Output),
            SizesStage::Rproof(_) => Request::Size(Tree::RangeProof),
            SizesStage::Kernel(..) => Request::Size(Tree::Kernel),
        }
    }

    fn need(&self) -> (need: Need) {
        Need::Any
    }

    fn resume(self, reply: Reply) -> (step: Step<Self, Sizes>) {
        let size = reply.into_size();
        match self.stage {
            SizesStage::Output => Step::Running(SizesRun { stage: SizesStage::Rproof(size) }),
            SizesStage::Rproof(output) => Step::Running(
                SizesRun { stage: SizesStage::Kernel(output, size) },
            ),
            SizesStage::Kernel(output, rproof) => Step::Done(
                Sizes { output, rproof, kernel: size },
            ),
        }
    }
}

impl Extension {
    /// A new unit of work on top of the trees.
    pub fn new(trees: &TxHashSet) -> (extension: Extension)
        ensures
            extension.valid(),
            extension@ == Overlay::fresh(trees.last()),
    {
        Extension::fresh(trees.last_positions())
    }

    /// Sizes of the trees.
    pub fn sizes(&self) -> (step: Step<SizesRun, Sizes>)
        ensures
            meets(step, sizes_program()),
    {
        Step::Running(SizesRun { stage: SizesStage::Output })
    }
}

// ---- the end of a unit of work

/// A dialogue that ends a unit of work, with the last positions of the trees
/// and the result.
pub type Ending<T> = Program<(Sizes, Result<T, Error>)>;

/// Ends a unit of work on trees that went as far as `last`. If it succeeded and
/// is not to be rolled back, what it knows is kept in the chain store and the
/// trees are written to their files; otherwise the trees are discarded.
pub open spec fn extend_program<T>(
    last: Sizes,
    commits: Seq<(Commitment, u64)>,
    markers: Seq<(Hash256, BlockMarker)>,
    rollback: bool,
    result: Result<T, Error>,
) -> Ending<T> {
    if result is Ok && !rollback {
        bind(script_program(save_calls(commits, markers), Fault::Other), after_saved(last, result))
    } else {
        end_program(last, false, result)
    }
}

pub open spec fn after_saved<T>(last: Sizes, result: Result<T, Error>) -> spec_fn(
    Result<(), Error>,
) -> Ending<T> {
    |verdict: Result<(), Error>|
        match verdict {
            Ok(_) => end_program(last, true, result),
            Err(e) => Program::Ret((last, Err(e))),
        }
}

/// Writes the trees to their files, or discards them.
pub open spec fn end_program<T>(last: Sizes, commit: bool, result: Result<T, Error>) -> Ending<T> {
    bind(sizes_program(), after_sizes(last, commit, result))
}

pub open spec fn after_sizes<T>(last: Sizes, commit: bool, result: Result<T, Error>) -> spec_fn(
    Sizes,
) -> Ending<T> {
    |sizes: Sizes|
        if commit {
            bind(
                script_program(tree_calls(TreeCall::Sync), Fault::Io),
                after_sync(last, sizes, result),
            )
        } else {
            bind(
                script_program(tree_calls(TreeCall::Discard), Fault::Io),
                after_discard(last, result),
            )
        }
}

pub open spec fn after_sync<T>(last: Sizes, sizes: Sizes, result: Result<T, Error>) -> spec_fn(
    Result<(), Error>,
) -> Ending<T> {
    |verdict: Result<(), Error>|
        match verdict {
            Ok(_) => Program::Ret((sizes, result)),
            Err(e) => Program::Ret((last, Err(e))),
        }
}

pub open spec fn after_discard<T>(last: Sizes, result: Result<T, Error>) -> spec_fn(
    Result<(), Error>,
) -> Ending<T> {
    |verdict: Result<(), Error>| Program::Ret((last, result))
}

/// The trees after a unit of work, with its result.
pub struct Extended<T> {
    pub trees: TxHashSet,
    pub result: Result<T, Error>,
}

impl<T> Extended<T> {
    /// The mathematical form.
    pub open spec fn view(self) -> (Sizes, Result<T, Error>) {
        (self.trees.last(), self.result)
    }
}

enum Stage {
    Save(ScriptRun<'static>),
    Sizes(bool, SizesRun),
    Discard(ScriptRun<'static>),
    Sync(Sizes, ScriptRun<'static>),
}

/// A unit of work that is being ended.
pub struct ExtendRun<T> {
    last: Sizes,
    result: Result<T, Error>,
    stage: Stage,
}

impl<T> ExtendRun<T> {
    spec fn here(&self) -> Ending<T> {
        match self.stage {
            Stage::Save(run) => bind(run.program(), after_saved(self.last, self.result)),
            Stage::Sizes(commit, run) => bind(
                run.program(),
                after_sizes(self.last, commit, self.result),
            ),
            Stage::Discard(run) => bind(run.program(), after_discard(self.last, self.result)),
            Stage::Sync(sizes, run) => bind(
                run.program(),
                after_sync(self.last, sizes, self.result),
            ),
        }
    }

    spec fn good(&self) -> bool {
        match self.stage {
            Stage::Save(run) => run.valid(),
            Stage::Sizes(_, run) => run.valid(),
            Stage::Discard(run) => run.valid(),
            Stage::Sync(_, run) => run.valid(),
        }
    }

    spec fn fits(step: Step<Self, Extended<T>>, program: Ending<T>) -> bool {
        match step {
            Step::Running(run) => run.good() && run.here() == program && program.waits(),
            Step::Done(out) => program == Program::Ret(out@),
        }
    }

    /// A reply goes to the part that waits for it.
    proof fn lemma_part(&self)
        requires
            self.good(),
        ensures
            self.here().waits(),
            match self.stage {
                Stage::Save(run) => {
                    &&& run.program().waits()
                    &&& self.here().call() == run.program().call()
                    &&& self.here().need() == run.program().need()
                    &&& forall|reply: Reply| #[trigger]
                        self.here().next(reply) == bind(
                            run.program().next(reply),
                            after_saved(self.last, self.result),
                        )
                },
                Stage::Sizes(commit, run) => {
                    &&& run.program().waits()
                    &&& self.here().call() == run.program().call()
                    &&& self.here().need() == run.program().need()
                    &&& forall|reply: Reply| #[trigger]
                        self.here().next(reply) == bind(
                            run.program().next(reply),
                            after_sizes(self.last, commit, self.result),
                        )
                },
                Stage::Discard(run) => {
                    &&& run.program().waits()
                    &&& self.here().call() == run.program().call()
                    &&& self.here().need() == run.program().need()
                    &&& forall|reply: Reply| #[trigger]
                        self.here().next(reply) == bind(
                            run.program().next(reply),
                            after_discard(self.last, self.result),
                        )
                },
                Stage::Sync(sizes, run) => {
                    &&& run.program().waits()
                    &&& self.here().call() == run.program().call()
                    &&& self.here().need() == run.program().need()
                    &&& forall|reply: Reply| #[trigger]
                        self.here().next(reply) == bind(
                            run.program().next(reply),
                            after_sync(self.last, sizes, self.result),
                        )
                },
            },
    {
        match self.stage {
            Stage::Save(run) => {
                run.lemma_waits();
                lemma_bind(run.program(), after_saved(self.last, self.result));
            },
            Stage::Sizes(commit, run) => {
                run.lemma_waits();
                lemma_bind(run.program(), after_sizes(self.last, commit, self.result));
            },
            Stage::Discard(run) => {
                run.lemma_waits();
                lemma_bind(run.program(), after_discard(self.last, self.result));
            },
            Stage::Sync(sizes, run) => {
                run.lemma_waits();
                lemma_bind(run.program(), after_sync(self.last, sizes, self.result));
            },
        }
    }

    /// Goes on with the sizes.
    fn end(last: Sizes, commit: bool, result: Result<T, Error>) -> (step: Step<Self, Extended<T>>)
        ensures
            Self::fits(step, end_program(last, commit, result)),
    {
        let run = SizesRun { stage: SizesStage::Output };
        Step::Running(ExtendRun { last, result, stage: Stage::Sizes(commit, run) })
    }

    /// Begins the end of a unit of work.
    fn begin(trees: TxHashSet, out: Outcome<T>) -> (step: Step<Self, Extended<T>>)
        requires
            out.extension.valid(),
        ensures
            Self::fits(
                step,
                extend_program(
                    trees.last(),
                    out.extension.commit_entries(),
                    out.extension.marker_entries(),
                    out.extension@.rollback,
                    out.result,
                ),
            ),
    {
        let last = trees.last_positions();
        let Outcome { extension, result } = out;
        if result.is_ok() && !extension.is_rollback() {
            match extension.save_indexes() {
                Step::Running(run) => Step::Running(
                    ExtendRun { last, result, stage: Stage::Save(run) },
                ),
                Step::Done(Ok(_)) => Self::end(last, true, result),
                Step::Done(Err(e)) => Step::Done(
                    Extended { trees: TxHashSet::at(last), result: Err(e) },
                ),
            }
        } else {
            Self::end(last, false, result)
        }
    }
}

impl<T> Run for ExtendRun<T> {
    type Out = Extended<T>;

    type Model = (Sizes, Result<T, Error>);

    open spec fn model(out: Extended<T>) -> (Sizes, Result<T, Error>) {
        out@
    }

    open spec fn sound(out: Extended<T>) -> bool {
        true
    }

    closed spec fn program(&self) -> Ending<T> {
        self.here()
    }

    closed spec fn valid(&self) -> bool {
        self.good()
    }

    proof fn lemma_waits(&self) {
        self.lemma_part();
    }

    fn request(&self) -> (request: Request<'_>) {
        proof {
            self.lemma_part();
        }
        match &self.stage {
            Stage::Save(run) => run.request(),
            Stage::Sizes(_, run) => run.request(),
            Stage::Discard(run) => run.request(),
            Stage::Sync(_, run) => run.request(),
        }
    }

    fn need(&self) -> (need: Need) {
        proof {
            self.lemma_part();
        }
        match &self.stage {
            Stage::Save(run) => run.need(),
            Stage::Sizes(_, run) => run.need(),
            Stage::Discard(run) => run.need(),
            Stage::Sync(_, run) => run.need(),
        }
    }

    fn resume(self, reply: Reply) -> (step: Step<Self, Extended<T>>) {
        proof {
            self.lemma_part();
        }
        let ExtendRun { last, result, stage } = self;
        match stage {
            Stage::Save(run) => match run.resume(reply) {
                Step::Running(run) => Step::Running(
                    ExtendRun { last, result, stage: Stage::Save(run) },
                ),
                Step::Done(Ok(_)) => Self::end(last, true, result),
                Step::Done(Err(e)) => Step::Done(
                    Extended { trees: TxHashSet::at(last), result: Err(e) },
                ),
            },
            Stage::Sizes(commit, run) => match run.resume(reply) {
                Step::Running(run) => Step::Running(
                    ExtendRun { last, result, stage: Stage::Sizes(commit, run) },
                ),
                Step::Done(sizes) => if commit {
                    match run_script(tree_requests(TreeCall::Sync), Fault::Io) {
                        Step::Running(run) => Step::Running(
                            ExtendRun { last, result, stage: Stage::Sync(sizes, run) },
                        ),
                        Step::Done(_) => unreached(),
                    }
                } else {
                    match run_script(tree_requests(TreeCall::Discard), Fault::Io) {
                        Step::Running(run) => Step::Running(
                            ExtendRun { last, result, stage: Stage::Discard(run) },
                        ),
                        Step::Done(_) => unreached(),
                    }
                },
            },
            Stage::Discard(run) => match run.resume(reply) {
                Step::Running(run) => Step::Running(
                    ExtendRun { last, result, stage: Stage::Discard(run) },
                ),
                Step::Done(_) => Step::Done(Extended { trees: TxHashSet::at(last), result }),
            },
            Stage::Sync(sizes, run) => match run.resume(reply) {
                Step::Running(run) => Step::Running(
                    ExtendRun { last, result, stage: Stage::Sync(sizes, run) },
                ),
                Step::Done(Ok(_)) => Step::Done(Extended { trees: TxHashSet::at(sizes), result }),
                Step::Done(Err(e)) => Step::Done(
                    Extended { trees: TxHashSet::at(last), result: Err(e) },
                ),
            },
        }
    }
}

/// Starts a new unit of work to extend the chain with additional blocks,
/// accepting a closure that will work within that unit of work. The closure is
/// handed an extension, and hands it back with its result.
///
/// If the closure returns an error, modifications are canceled and the unit of
/// work is abandoned. Otherwise, the unit of work is permanently applied,
/// unless its rollback was forced.
pub fn extending<T, F: FnOnce(Extension) -> Outcome<T>>(trees: TxHashSet, inner: F) -> (step: Step<
    ExtendRun<T>,
    Extended<T>,
>)
    requires
        forall|extension: Extension|
            extension.valid() && extension@ == Overlay::fresh(trees.last()) ==> #[trigger]
            call_requires(inner, (extension,)),
        forall|extension: Extension, out: Outcome<T>| #[trigger]
            call_ensures(inner, (extension,), out) ==> out.extension.valid(),
    ensures
        exists|extension: Extension, out: Outcome<T>|
            {
                &&& extension.valid()
                &&& extension@ == Overlay::fresh(trees.last())
                &&& #[trigger] call_ensures(inner, (extension,), out)
                &&& meets(
                    step,
                    extend_program(
                        trees.last(),
                        out.extension.commit_entries(),
                        out.extension.marker_entries(),
                        out.extension@.rollback,
                        out.result,
                    ),
                )
            },
{
    let extension = Extension::new(&trees);
    let ghost given = extension;
    let out = inner(extension);
    assert(call_ensures(inner, (given,), out));
    ExtendRun::begin(trees, out)
}

/// Starts a new unit of work to extend (or rewind) the chain with additional
/// blocks. Accepts a closure that will operate within that unit of work. The
/// closure is handed an extension, and hands it back with its result.
///
/// The unit of work is always discarded (always rollback) as this is read-only.
pub fn extending_readonly<T, F: FnOnce(Extension) -> Outcome<T>>(
    trees: TxHashSet,
    inner: F,
) -> (step: Step<ExtendRun<T>, Extended<T>>)
    requires
        forall|extension: Extension|
            extension.valid() && extension@ == (Overlay {
                rollback: true,
                ..Overlay::fresh(trees.last())
            }) ==> #[trigger] call_requires(inner, (extension,)),
    ensures
        exists|extension: Extension, out: Outcome<T>|
            {
                &&& extension.valid()
                &&& extension@ == (Overlay { rollback: true, ..Overlay::fresh(trees.last()) })
                &&& #[trigger] call_ensures(inner, (extension,), out)
                &&& meets(step, end_program(trees.last(), false, out.result))
            },
{
    let mut extension = Extension::new(&trees);
    extension.force_rollback();
    let ghost given = extension;
    let out = inner(extension);
    assert(call_ensures(inner, (given,), out));
    ExtendRun::end(trees.last_positions(), false, out.result)
}

} // verus!
