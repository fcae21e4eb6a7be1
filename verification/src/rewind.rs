//! Undoing what was applied after a block.
use crate::apply::{refused, Effect};
use crate::bitmap::{
    bitmap_between, bitmap_create, bitmap_or_inplace, bitmap_values, positions_between,
};
use crate::extension::{Extension, Outcome, Overlay};
use crate::program::{
    bind, lemma_bind, meets, walk, Call, Need, Program, Reply, Request, Run, Step, Trail,
};
use crate::types::{BlockHeader, BlockMarker, Error, Hash256, Key, Message, Tree};
use croaring::Bitmap;
use vstd::prelude::*;

verus! {

/// A dialogue about a set of positions.
pub type Positions = Program<Result<Set<u32>, Error>>;

/// A dialogue about the positions added and the positions removed since a
/// block.
pub type Span = Program<Result<(Set<u32>, Set<u32>), Error>>;

/// The mathematical form of a set of positions that may be missing.
pub open spec fn values_of(found: Result<Bitmap, Error>) -> Result<Set<u32>, Error> {
    match found {
        Ok(bitmap) => Ok(bitmap_values(bitmap)),
        Err(e) => Err(e),
    }
}

// ---- positions added

/// The positions of all outputs added after a block, up to the head of the
/// chain. The output tree only ever grows, so these are all the positions
/// between the markers of the two.
pub open spec fn added_program(block: Hash256, head: Hash256) -> Positions {
    Program::Ask(
        Call::BlockMarker(head),
        Need::Any,
        |reply: Reply|
            match reply->Marker_0 {
                Ok(to) => added_from(block, to),
                Err(e) => Program::Ret(Err(Error::Store(e))),
            },
    )
}

pub open spec fn added_from(block: Hash256, to: BlockMarker) -> Positions {
    Program::Ask(
        Call::BlockMarker(block),
        Need::BelowMax,
        |reply: Reply|
            match reply->Marker_0 {
                Ok(from) => Program::Ret(Ok(positions_between(from.output_pos, to.output_pos))),
                Err(e) => Program::Ret(Err(Error::Store(e))),
            },
    )
}

/// The search for the positions added after a block.
pub struct AddedRun {
    block: Hash256,
    head: Hash256,
    to: Option<BlockMarker>,
}

impl Run for AddedRun {
    type Out = Result<Bitmap, Error>;

    type Model = Result<Set<u32>, Error>;

    open spec fn model(out: Result<Bitmap, Error>) -> Result<Set<u32>, Error> {
        values_of(out)
    }

    open spec fn sound(out: Result<Bitmap, Error>) -> bool {
        true
    }

    closed spec fn program(&self) -> Positions {
        match self.to {
            None => added_program(self.block, self.head),
            Some(to) => added_from(self.block, to),
        }
    }

    closed spec fn valid(&self) -> bool {
        true
    }

    proof fn lemma_waits(&self) {
    }

    fn request(&self) -> (request: Request<'_>) {
        match self.to {
            None => Request::BlockMarker(self.head),
            Some(_) => Request::BlockMarker(self.block),
        }
    }

    fn need(&self) -> (need: Need) {
        match self.to {
            None => Need::Any,
            Some(_) => Need::BelowMax,
        }
    }

    fn resume(self, reply: Reply) -> (step: Step<Self, Result<Bitmap, Error>>) {
        match (self.to, reply.into_marker()) {
            (None, Ok(to)) => Step::Running(
                AddedRun { block: self.block, head: self.head, to: Some(to) },
            ),
            (Some(to), Ok(from)) => Step::Done(Ok(bitmap_between(from.output_pos, to.output_pos))),
            (_, Err(e)) => Step::Done(Err(Error::Store(e))),
        }
    }
}

/// Given a block header to rewind to and the block header at the head of the
/// current chain state, finds the positions of all outputs to "undo" during a
/// rewind.
pub fn output_pos_to_rewind(block_header: &BlockHeader, head_header: &BlockHeader) -> (step: Step<
    AddedRun,
    Result<Bitmap, Error>,
>)
    ensures
        meets(step, added_program(block_header.hash, head_header.hash)),
{
    Step::Running(AddedRun { block: block_header.hash, head: head_header.hash, to: None })
}

// ---- positions removed

/// The end of a walk.
pub open spec fn walked() -> spec_fn(Result<Set<u32>, Error>) -> Positions {
    |found: Result<Set<u32>, Error>| Program::Ret(found)
}

/// The positions of all outputs that were spent after a block, up to the head
/// of the chain: the union of the positions that the blocks on the way from
/// the head back to that block spend.
pub open spec fn removed_program(block: Hash256, head: Hash256) -> Positions {
    walk(head, block, Set::empty(), walked())
}

/// The walk from the head of the chain back to a block.
pub struct RemovedRun {
    current: Hash256,
    target: Hash256,
    spent: Bitmap,
    previous: Option<Hash256>,
}

impl RemovedRun {
    spec fn trail(&self) -> Trail {
        Trail {
            current: self.current,
            target: self.target,
            spent: bitmap_values(self.spent),
            previous: self.previous,
        }
    }
}

impl Run for RemovedRun {
    type Out = Result<Bitmap, Error>;

    type Model = Result<Set<u32>, Error>;

    open spec fn model(out: Result<Bitmap, Error>) -> Result<Set<u32>, Error> {
        values_of(out)
    }

    open spec fn sound(out: Result<Bitmap, Error>) -> bool {
        true
    }

    closed spec fn program(&self) -> Positions {
        Program::Walk(self.trail(), walked())
    }

    closed spec fn valid(&self) -> bool {
        true
    }

    proof fn lemma_waits(&self) {
    }

    fn request(&self) -> (request: Request<'_>) {
        match self.previous {
            None => Request::BlockHeader(self.current),
            Some(_) => Request::InputBitmap(self.current),
        }
    }

    fn need(&self) -> (need: Need) {
        Need::Any
    }

    fn resume(self, reply: Reply) -> (step: Step<Self, Result<Bitmap, Error>>) {
        match self.previous {
            None => match reply.into_header() {
                Ok(header) => Step::Running(
                    RemovedRun { previous: Some(header.previous), ..self },
                ),
                Err(e) => Step::Done(Err(Error::Store(e))),
            },
            Some(previous) => match reply.into_bitmap() {
                Ok(bitmap) => {
                    let mut spent = self.spent;
                    bitmap_or_inplace(&mut spent, &bitmap);
                    if previous.same(&self.target) {
                        Step::Done(Ok(spent))
                    } else {
                        Step::Running(
                            RemovedRun {
                                current: previous,
                                target: self.target,
                                spent,
                                previous: None,
                            },
                        )
                    }
                },
                Err(e) => Step::Done(Err(Error::Store(e))),
            },
        }
    }
}

/// Given a block header to rewind to and the block header at the head of the
/// current chain state, finds the positions of all inputs (spent outputs) to
/// "undo" during a rewind.
pub fn input_pos_to_rewind(block_header: &BlockHeader, head_header: &BlockHeader) -> (step: Step<
    RemovedRun,
    Result<Bitmap, Error>,
>)
    ensures
        meets(step, removed_program(block_header.hash, head_header.hash)),
{
    let spent = bitmap_create();
    if head_header.hash.same(&block_header.hash) {
        Step::Done(Ok(spent))
    } else {
        Step::Running(
            RemovedRun {
                current: head_header.hash,
                target: block_header.hash,
                spent,
                previous: None,
            },
        )
    }
}

// ---- both

/// The positions added and the positions removed after a block, up to the head
/// of the chain.
pub open spec fn span_program(block: Hash256, head: Hash256) -> Span {
    bind(added_program(block, head), after_added(block, head))
}

pub open spec fn after_added(block: Hash256, head: Hash256) -> spec_fn(
    Result<Set<u32>, Error>,
) -> Span {
    |found: Result<Set<u32>, Error>|
        match found {
            Ok(added) => bind(removed_program(block, head), after_removed(added)),
            Err(e) => Program::Ret(Err(e)),
        }
}

pub open spec fn after_removed(added: Set<u32>) -> spec_fn(Result<Set<u32>, Error>) -> Span {
    |found: Result<Set<u32>, Error>|
        match found {
            Ok(removed) => Program::Ret(Ok((added, removed))),
            Err(e) => Program::Ret(Err(e)),
        }
}

enum SpanStage {
    Added(AddedRun),
    Removed(Bitmap, RemovedRun),
}

/// The search for the positions added and removed after a block.
pub struct SpanRun {
    block: BlockHeader,
    head: BlockHeader,
    stage: SpanStage,
}

/// The mathematical form of both sets of positions.
pub open spec fn span_of(out: Result<(Bitmap, Bitmap), Error>) -> Result<
    (Set<u32>, Set<u32>),
    Error,
> {
    match out {
        Ok((added, removed)) => Ok((bitmap_values(added), bitmap_values(removed))),
        Err(e) => Err(e),
    }
}

impl Run for SpanRun {
    type Out = Result<(Bitmap, Bitmap), Error>;

    type Model = Result<(Set<u32>, Set<u32>), Error>;

    open spec fn model(out: Result<(Bitmap, Bitmap), Error>) -> Result<
        (Set<u32>, Set<u32>),
        Error,
    > {
        span_of(out)
    }

    open spec fn sound(out: Result<(Bitmap, Bitmap), Error>) -> bool {
        true
    }

    closed spec fn program(&self) -> Span {
        match self.stage {
            SpanStage::Added(run) => bind(
                run.program(),
                after_added(self.block.hash, self.head.hash),
            ),
            SpanStage::Removed(added, run) => bind(
                run.program(),
                after_removed(bitmap_values(added)),
            ),
        }
    }

    closed spec fn valid(&self) -> bool {
        match self.stage {
            SpanStage::Added(run) => run.valid(),
            SpanStage::Removed(_, run) => run.valid(),
        }
    }

    proof fn lemma_waits(&self) {
        match self.stage {
            SpanStage::Added(run) => {
                run.lemma_waits();
                lemma_bind(run.program(), after_added(self.block.hash, self.head.hash));
            },
            SpanStage::Removed(added, run) => {
                run.lemma_waits();
                lemma_bind(run.program(), after_removed(bitmap_values(added)));
            },
        }
    }

    fn request(&self) -> (request: Request<'_>) {
        match &self.stage {
            SpanStage::Added(run) => {
                proof {
                    run.lemma_waits();
                    lemma_bind(run.program(), after_added(self.block.hash, self.head.hash));
                }
                run.request()
            },
            SpanStage::Removed(added, run) => {
                proof {
                    run.lemma_waits();
                    lemma_bind(run.program(), after_removed(bitmap_values(*added)));
                }
                run.request()
            },
        }
    }

    fn need(&self) -> (need: Need) {
        match &self.stage {
            SpanStage::Added(run) => {
                proof {
                    run.lemma_waits();
                    lemma_bind(run.program(), after_added(self.block.hash, self.head.hash));
                }
                run.need()
            },
            SpanStage::Removed(added, run) => {
                proof {
                    run.lemma_waits();
                    lemma_bind(run.program(), after_removed(bitmap_values(*added)));
                }
                run.need()
            },
        }
    }

    fn resume(self, reply: Reply) -> (step: Step<Self, Result<(Bitmap, Bitmap), Error>>) {
        let block = self.block;
        let head = self.head;
        match self.stage {
            SpanStage::Added(run) => {
                proof {
                    run.lemma_waits();
                    lemma_bind(run.program(), after_added(block.hash, head.hash));
                }
                match run.resume(reply) {
                    Step::Running(run) => Step::Running(
                        SpanRun { block, head, stage: SpanStage::Added(run) },
                    ),
                    Step::Done(Ok(added)) => match input_pos_to_rewind(&block, &head) {
                        Step::Running(run) => Step::Running(
                            SpanRun { block, head, stage: SpanStage::Removed(added, run) },
                        ),
                        Step::Done(Ok(removed)) => Step::Done(Ok((added, removed))),
                        Step::Done(Err(e)) => Step::Done(Err(e)),
                    },
                    Step::Done(Err(e)) => Step::Done(Err(e)),
                }
            },
            SpanStage::Removed(added, run) => {
                proof {
                    run.lemma_waits();
                    lemma_bind(run.program(), after_removed(bitmap_values(added)));
                }
                match run.resume(reply) {
                    Step::Running(run) => Step::Running(
                        SpanRun { block, head, stage: SpanStage::Removed(added, run) },
                    ),
                    Step::Done(Ok(removed)) => Step::Done(Ok((added, removed))),
                    Step::Done(Err(e)) => Step::Done(Err(e)),
                }
            },
        }
    }
}

pub(crate) fn span_to_rewind(block: &BlockHeader, head: &BlockHeader) -> (step: Step<
    SpanRun,
    Result<(Bitmap, Bitmap), Error>,
>)
    ensures
        meets(step, span_program(block.hash, head.hash)),
        step is Running,
{
    match output_pos_to_rewind(block, head) {
        Step::Running(run) => Step::Running(
            SpanRun { block: *block, head: *head, stage: SpanStage::Added(run) },
        ),
        Step::Done(_) => unreached(),
    }
}

// ---- rewinding

/// Rewinds the trees: the output and the range proof tree to `pos`, given the
/// positions added and removed since, and the kernel tree to `kernel_pos`.
/// Kernels are never removed, so that there is nothing to be added back to their
/// tree. The unit of work forgets the outputs that it added after `pos`.
pub open spec fn rewind_to_program(
    o: Overlay,
    pos: u64,
    kernel_pos: u64,
    added: Set<u32>,
    removed: Set<u32>,
) -> Effect {
    rewind_output(o.rewound(pos), pos, kernel_pos, added, removed)
}

pub open spec fn rewind_output(
    o: Overlay,
    pos: u64,
    kernel_pos: u64,
    added: Set<u32>,
    removed: Set<u32>,
) -> Effect {
    Program::Ask(
        Call::Rewind(Tree::Output, pos, added, removed),
        Need::Any,
        |reply: Reply|
            match reply->Done_0 {
                Ok(_) => rewind_rproof(o, pos, kernel_pos, added, removed),
                Err(text) => Program::Ret((o, Err(refused(text)))),
            },
    )
}

pub open spec fn rewind_rproof(
    o: Overlay,
    pos: u64,
    kernel_pos: u64,
    added: Set<u32>,
    removed: Set<u32>,
) -> Effect {
    Program::Ask(
        Call::Rewind(Tree::RangeProof, pos, added, removed),
        Need::Any,
        |reply: Reply|
            match reply->Done_0 {
                Ok(_) => rewind_kernel(o, kernel_pos),
                Err(text) => Program::Ret((o, Err(refused(text)))),
            },
    )
}

pub open spec fn rewind_kernel(o: Overlay, kernel_pos: u64) -> Effect {
    Program::Ask(
        Call::Rewind(Tree::Kernel, kernel_pos, Set::empty(), Set::empty()),
        Need::Any,
        |reply: Reply|
            match reply->Done_0 {
                Ok(_) => Program::Ret((o, Ok(()))),
                Err(text) => Program::Ret((o, Err(refused(text)))),
            },
    )
}

/// The trees under way to earlier positions.
pub struct RewindToRun {
    extension: Extension,
    pos: u64,
    kernel_pos: u64,
    added: Bitmap,
    removed: Bitmap,
    /// A bitmap without positions, for the kernel tree.
    none: Bitmap,
    tree: Tree,
}

impl Run for RewindToRun {
    type Out = Outcome<()>;

    type Model = (Overlay, Result<(), Error>);

    open spec fn model(out: Outcome<()>) -> (Overlay, Result<(), Error>) {
        out@
    }

    open spec fn sound(out: Outcome<()>) -> bool {
        out.extension.valid()
    }

    closed spec fn program(&self) -> Effect {
        let o = self.extension@;
        let added = bitmap_values(self.added);
        let removed = bitmap_values(self.removed);
        match self.tree {
            Tree::Output => rewind_output(o, self.pos, self.kernel_pos, added, removed),
            Tree::RangeProof => rewind_rproof(o, self.pos, self.kernel_pos, added, removed),
            Tree::Kernel => rewind_kernel(o, self.kernel_pos),
        }
    }

    closed spec fn valid(&self) -> bool {
        self.extension.valid() && bitmap_values(self.none) == Set::<u32>::empty()
    }

    proof fn lemma_waits(&self) {
    }

    fn request(&self) -> (request: Request<'_>) {
        match self.tree {
            Tree::Kernel => Request::Rewind(
                self.tree,
                self.kernel_pos,
                &self.none,
                &self.none,
            ),
            _ => Request::Rewind(self.tree, self.pos, &self.added, &self.removed),
        }
    }

    fn need(&self) -> (need: Need) {
        Need::Any
    }

    fn resume(self, reply: Reply) -> (step: Step<Self, Outcome<()>>) {
        match reply.into_done() {
            Ok(_) => match self.tree {
                Tree::Output => Step::Running(RewindToRun { tree: Tree::RangeProof, ..self }),
                Tree::RangeProof => Step::Running(RewindToRun { tree: Tree::Kernel, ..self }),
                Tree::Kernel => Step::Done(Outcome { extension: self.extension, result: Ok(()) }),
            },
            Err(text) => Step::Done(
                Outcome {
                    extension: self.extension,
                    result: Err(Error::TxHashSetErr(Message::Text(text))),
                },
            ),
        }
    }
}

impl Extension {
    /// Rewinds the trees to the provided positions, given the output and the
    /// kernel position to rewind to.
    pub fn rewind_to_pos(
        self,
        output_pos: u64,
        kernel_pos: u64,
        rewind_add_pos: Bitmap,
        rewind_rm_pos: Bitmap,
    ) -> (step: Step<RewindToRun, Outcome<()>>)
        requires
            self.valid(),
        ensures
            meets(
                step,
                rewind_to_program(
                    self@,
                    output_pos,
                    kernel_pos,
                    bitmap_values(rewind_add_pos),
                    bitmap_values(rewind_rm_pos),
                ),
            ),
            step is Running,
    {
        let mut extension = self;
        extension.forget_after(output_pos);
        Step::Running(
            RewindToRun {
                extension,
                pos: output_pos,
                kernel_pos,
                added: rewind_add_pos,
                removed: rewind_rm_pos,
                none: bitmap_create(),
                tree: Tree::Output,
            },
        )
    }
}

/// Rewinds the trees to the end of a block, as its marker has it. The outputs
/// added since are removed, and those spent since are added back.
pub open spec fn rewind_program(o: Overlay, block: Hash256, head: Hash256) -> Effect {
    Program::Ask(
        Call::BlockMarker(block),
        Need::Any,
        |reply: Reply|
            match reply->Marker_0 {
                Ok(marker) => bind(span_program(block, head), after_span(o, marker)),
                Err(e) => Program::Ret((o, Err(Error::Store(e)))),
            },
    )
}

pub open spec fn after_span(o: Overlay, marker: BlockMarker) -> spec_fn(
    Result<(Set<u32>, Set<u32>), Error>,
) -> Effect {
    |found: Result<(Set<u32>, Set<u32>), Error>|
        match found {
            Ok(span) => rewind_to_program(o, marker.output_pos, marker.kernel_pos, span.0, span.1),
            Err(e) => Program::Ret((o, Err(e))),
        }
}

enum RewindStage {
    Marker(Extension),
    Span(Extension, BlockMarker, SpanRun),
    To(RewindToRun),
}

/// The trees under way to the end of a block.
pub struct RewindRun {
    block: BlockHeader,
    head: BlockHeader,
    stage: RewindStage,
}

impl Run for RewindRun {
    type Out = Outcome<()>;

    type Model = (Overlay, Result<(), Error>);

    open spec fn model(out: Outcome<()>) -> (Overlay, Result<(), Error>) {
        out@
    }

    open spec fn sound(out: Outcome<()>) -> bool {
        out.extension.valid()
    }

    closed spec fn program(&self) -> Effect {
        match self.stage {
            RewindStage::Marker(extension) => rewind_program(
                extension@,
                self.block.hash,
                self.head.hash,
            ),
            RewindStage::Span(extension, marker, run) => bind(
                run.program(),
                after_span(extension@, marker),
            ),
            RewindStage::To(run) => run.program(),
        }
    }

    closed spec fn valid(&self) -> bool {
        match self.stage {
            RewindStage::Marker(extension) => extension.valid(),
            RewindStage::Span(extension, _, run) => extension.valid() && run.valid(),
            RewindStage::To(run) => run.valid(),
        }
    }

    proof fn lemma_waits(&self) {
        match self.stage {
            RewindStage::Marker(_) => {},
            RewindStage::Span(extension, marker, run) => {
                run.lemma_waits();
                lemma_bind(run.program(), after_span(extension@, marker));
            },
            RewindStage::To(run) => run.lemma_waits(),
        }
    }

    fn request(&self) -> (request: Request<'_>) {
        match &self.stage {
            RewindStage::Marker(_) => Request::BlockMarker(self.block.hash),
            RewindStage::Span(extension, marker, run) => {
                proof {
                    run.lemma_waits();
                    lemma_bind(run.program(), after_span(extension@, *marker));
                }
                run.request()
            },
            RewindStage::To(run) => run.request(),
        }
    }

    fn need(&self) -> (need: Need) {
        match &self.stage {
            RewindStage::Marker(_) => Need::Any,
            RewindStage::Span(extension, marker, run) => {
                proof {
                    run.lemma_waits();
                    lemma_bind(run.program(), after_span(extension@, *marker));
                }
                run.need()
            },
            RewindStage::To(run) => run.need(),
        }
    }

    fn resume(self, reply: Reply) -> (step: Step<Self, Outcome<()>>) {
        let block = self.block;
        let head = self.head;
        match self.stage {
            RewindStage::Marker(extension) => match reply.into_marker() {
                Ok(marker) => match span_to_rewind(&block, &head) {
                    Step::Running(run) => Step::Running(
                        RewindRun { block, head, stage: RewindStage::Span(extension, marker, run) },
                    ),
                    Step::Done(_) => unreached(),
                },
                Err(e) => Step::Done(Outcome { extension, result: Err(Error::Store(e)) }),
            },
            RewindStage::Span(extension, marker, run) => {
                proof {
                    run.lemma_waits();
                    lemma_bind(run.program(), after_span(extension@, marker));
                }
                match run.resume(reply) {
                    Step::Running(run) => Step::Running(
                        RewindRun { block, head, stage: RewindStage::Span(extension, marker, run) },
                    ),
                    Step::Done(Ok((added, removed))) => match extension.rewind_to_pos(
                        marker.output_pos,
                        marker.kernel_pos,
                        added,
                        removed,
                    ) {
                        Step::Running(run) => Step::Running(
                            RewindRun { block, head, stage: RewindStage::To(run) },
                        ),
                        Step::Done(out) => Step::Done(out),
                    },
                    Step::Done(Err(e)) => Step::Done(Outcome { extension, result: Err(e) }),
                }
            },
            RewindStage::To(run) => match run.resume(reply) {
                Step::Running(run) => Step::Running(
                    RewindRun { block, head, stage: RewindStage::To(run) },
                ),
                Step::Done(out) => Step::Done(out),
            },
        }
    }
}

impl Extension {
    /// Rewinds the trees to the provided block, rewinding to the last output
    /// position and the last kernel position of that block.
    pub fn rewind(self, block_header: &BlockHeader, head_header: &BlockHeader) -> (step: Step<
        RewindRun,
        Outcome<()>,
    >)
        requires
            self.valid(),
        ensures
            meets(step, rewind_program(self@, block_header.hash, head_header.hash)),
            step is Running,
    {
        Step::Running(
            RewindRun {
                block: *block_header,
                head: *head_header,
                stage: RewindStage::Marker(self),
            },
        )
    }
}

} // verus!
