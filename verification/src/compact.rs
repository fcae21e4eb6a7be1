//! Compaction of the files of the trees.
use crate::bitmap::bitmap_values;
use crate::program::{bind, lemma_bind, meets, Call, Need, Program, Reply, Request, Run, Step};
use crate::rewind::{span_program, span_to_rewind, SpanRun};
use crate::script::Verdict;
use crate::txhashset::TxHashSet;
use crate::types::{BlockHeader, BlockMarker, Error, Hash256, Tree};
use croaring::Bitmap;
use vstd::prelude::*;

verus! {

/// The height that is `horizon` below another, or zero.
pub open spec fn height_below(height: u64, horizon: u32) -> u64 {
    if height >= horizon {
        (height - horizon) as u64
    } else {
        0
    }
}

/// Compacts the output tree and the range proof tree up to the block that is at
/// the horizon below the head of the chain. What was added and removed since
/// then stays. Of the outputs that are dropped, the index entries go as well.
pub open spec fn compact_program(horizon: u32) -> Verdict {
    Program::Ask(
        Call::HeadHeader,
        Need::Any,
        |reply: Reply|
            match reply->Header_0 {
                Ok(head) => compact_header(horizon, head),
                Err(e) => Program::Ret(Err(Error::Store(e))),
            },
    )
}

pub open spec fn compact_header(horizon: u32, head: BlockHeader) -> Verdict {
    Program::Ask(
        Call::HeaderByHeight(height_below(head.height, horizon)),
        Need::Any,
        |reply: Reply|
            match reply->Header_0 {
                Ok(block) => compact_marker(block.hash, head.hash),
                Err(e) => Program::Ret(Err(Error::Store(e))),
            },
    )
}

pub open spec fn compact_marker(block: Hash256, head: Hash256) -> Verdict {
    Program::Ask(
        Call::BlockMarker(block),
        Need::Any,
        |reply: Reply|
            match reply->Marker_0 {
                Ok(marker) => bind(span_program(block, head), compact_span(marker.output_pos)),
                Err(e) => Program::Ret(Err(Error::Store(e))),
            },
    )
}

pub open spec fn compact_span(pos: u64) -> spec_fn(
    Result<(Set<u32>, Set<u32>), Error>,
) -> Verdict {
    |found: Result<(Set<u32>, Set<u32>), Error>|
        match found {
            Ok(span) => compact_output(pos, span.0, span.1),
            Err(e) => Program::Ret(Err(e)),
        }
}

pub open spec fn compact_output(pos: u64, added: Set<u32>, removed: Set<u32>) -> Verdict {
    Program::Ask(
        Call::CheckCompact(Tree::Output, pos, added, removed, true),
        Need::Any,
        |reply: Reply|
            match reply->Done_0 {
                Ok(_) => compact_rproof(pos, added, removed),
                Err(text) => Program::Ret(Err(Error::Io(text))),
            },
    )
}

pub open spec fn compact_rproof(pos: u64, added: Set<u32>, removed: Set<u32>) -> Verdict {
    Program::Ask(
        Call::CheckCompact(Tree::RangeProof, pos, added, removed, false),
        Need::Any,
        |reply: Reply|
            match reply->Done_0 {
                Ok(_) => Program::Ret(Ok(())),
                Err(text) => Program::Ret(Err(Error::Io(text))),
            },
    )
}

enum Stage {
    Head(u32),
    Header(u32, BlockHeader),
    Marker(BlockHeader, BlockHeader),
    Span(u64, SpanRun),
    Output(u64, Bitmap, Bitmap),
    Rproof(u64, Bitmap, Bitmap),
}

/// A compaction under way.
pub struct CompactRun {
    stage: Stage,
}

impl CompactRun {
    spec fn here(&self) -> Verdict {
        match self.stage {
            Stage::Head(horizon) => compact_program(horizon),
            Stage::Header(horizon, head) => compact_header(horizon, head),
            Stage::Marker(block, head) => compact_marker(block.hash, head.hash),
            Stage::Span(pos, run) => bind(run.program(), compact_span(pos)),
            Stage::Output(pos, added, removed) => compact_output(
                pos,
                bitmap_values(added),
                bitmap_values(removed),
            ),
            Stage::Rproof(pos, added, removed) => compact_rproof(
                pos,
                bitmap_values(added),
                bitmap_values(removed),
            ),
        }
    }

    spec fn good(&self) -> bool {
        self.stage matches Stage::Span(_, run) ==> run.valid()
    }

    proof fn lemma_part(&self)
        requires
            self.good(),
        ensures
            self.here().waits(),
            self.stage matches Stage::Span(pos, run) ==> {
                &&& run.program().waits()
                &&& self.here().call() == run.program().call()
                &&& self.here().need() == run.program().need()
                &&& forall|reply: Reply| #[trigger]
                    self.here().next(reply) == bind(run.program().next(reply), compact_span(pos))
            },
    {
        if let Stage::Span(pos, run) = self.stage {
            run.lemma_waits();
            lemma_bind(run.program(), compact_span(pos));
        }
    }
}

impl Run for CompactRun {
    type Out = Result<(), Error>;

    type Model = Result<(), Error>;

    open spec fn model(out: Result<(), Error>) -> Result<(), Error> {
        out
    }

    open spec fn sound(out: Result<(), Error>) -> bool {
        true
    }

    closed spec fn program(&self) -> Verdict {
        self.here()
    }

    closed spec fn valid(&self) -> bool {
        self.good()
    }

    proof fn lemma_waits(&self) {
        self.lemma_part();
    }

    fn request(&self) -> (request: Request<'_>) {
        proof {
            self.lemma_part();
        }
        match &self.stage {
            Stage::Head(_) => Request::HeadHeader,
            Stage::Header(horizon, head) => Request::HeaderByHeight(
                head.height.saturating_sub(*horizon as u64),
            ),
            Stage::Marker(block, _) => Request::BlockMarker(block.hash),
            Stage::Span(_, run) => run.request(),
            Stage::Output(pos, added, removed) => Request::CheckCompact(
                Tree::Output,
                *pos,
                added,
                removed,
                true,
            ),
            Stage::Rproof(pos, added, removed) => Request::CheckCompact(
                Tree::RangeProof,
                *pos,
                added,
                removed,
                false,
            ),
        }
    }

    fn need(&self) -> (need: Need) {
        proof {
            self.lemma_part();
        }
        match &self.stage {
            Stage::Span(_, run) => run.need(),
            _ => Need::Any,
        }
    }

    fn resume(self, reply: Reply) -> (step: Step<Self, Result<(), Error>>) {
        proof {
            self.lemma_part();
        }
        match self.stage {
            Stage::Head(horizon) => match reply.into_header() {
                Ok(head) => Step::Running(CompactRun { stage: Stage::Header(horizon, head) }),
                Err(e) => Step::Done(Err(Error::Store(e))),
            },
            Stage::Header(_, head) => match reply.into_header() {
                Ok(block) => Step::Running(CompactRun { stage: Stage::Marker(block, head) }),
                Err(e) => Step::Done(Err(Error::Store(e))),
            },
            Stage::Marker(block, head) => match reply.into_marker() {
                Ok(marker) => match span_to_rewind(&block, &head) {
                    Step::Running(run) => Step::Running(
                        CompactRun { stage: Stage::Span(marker.output_pos, run) },
                    ),
                    Step::Done(_) => unreached(),
                },
                Err(e) => Step::Done(Err(Error::Store(e))),
            },
            Stage::Span(pos, run) => match run.resume(reply) {
                Step::Running(run) => Step::Running(CompactRun { stage: Stage::Span(pos, run) }),
                Step::Done(Ok((added, removed))) => Step::Running(
                    CompactRun { stage: Stage::Output(pos, added, removed) },
                ),
                Step::Done(Err(e)) => Step::Done(Err(e)),
            },
            Stage::Output(pos, added, removed) => match reply.into_done() {
                Ok(_) => Step::Running(CompactRun { stage: Stage::Rproof(pos, added, removed) }),
                Err(text) => Step::Done(Err(Error::Io(text))),
            },
            Stage::Rproof(..) => match reply.into_done() {
                Ok(_) => Step::Done(Ok(())),
                Err(text) => Step::Done(Err(Error::Io(text))),
            },
        }
    }
}

impl TxHashSet {
    /// Compacts the files of the trees, up to as many blocks below the head of
    /// the chain as the horizon says.
    pub fn compact(&self, cut_through_horizon: u32) -> (step: Step<CompactRun, Result<(), Error>>)
        ensures
            meets(step, compact_program(cut_through_horizon)),
    {
        Step::Running(CompactRun { stage: Stage::Head(cut_through_horizon) })
    }
}

} // verus!
