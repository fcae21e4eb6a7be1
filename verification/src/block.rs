//! Application of whole blocks.
use crate::apply::Effect;
use crate::extension::{Extension, Outcome, Overlay};
use crate::program::{bind, lemma_bind, meets, Call, Need, Program, Reply, Request, Run, Step};
use crate::tasks::{
    input_items, items_of, items_program, kernel_items, output_items, outputs_that, push_inputs,
    push_kernels, push_outputs_that, run_tasks, Item, Task, TasksRun,
};
use crate::types::{Block, BlockMarker, Error, Hash256, Tree};
use vstd::prelude::*;

verus! {

/// What a block applies, in order: its coinbase outputs, its inputs, its other
/// outputs, its kernels.
pub open spec fn block_items(block: Block) -> Seq<Item> {
    output_items(outputs_that(block.outputs@, true)) + input_items(block.inputs@) + output_items(
        outputs_that(block.outputs@, false),
    ) + kernel_items(block.kernels@)
}

/// Applies a block: everything in it, in order, and then remembers the sizes
/// that the output tree and the kernel tree have reached.
pub open spec fn block_program(o: Overlay, block: Block) -> Effect {
    bind(items_program(o, block_items(block)), after_items(block.hash))
}

pub open spec fn after_items(block: Hash256) -> spec_fn((Overlay, Result<(), Error>)) -> Effect {
    |done: (Overlay, Result<(), Error>)|
        match done.1 {
            Ok(_) => marker_output(done.0, block),
            Err(_) => Program::Ret(done),
        }
}

pub open spec fn marker_output(o: Overlay, block: Hash256) -> Effect {
    Program::Ask(
        Call::Size(Tree::Output),
        Need::Any,
        |reply: Reply| marker_kernel(o, block, reply->Size_0),
    )
}

pub open spec fn marker_kernel(o: Overlay, block: Hash256, output_pos: u64) -> Effect {
    Program::Ask(
        Call::Size(Tree::Kernel),
        Need::Any,
        |reply: Reply|
            Program::Ret(
                (
                    o.with_marker(block, BlockMarker { output_pos, kernel_pos: reply->Size_0 }),
                    Ok(()),
                ),
            ),
    )
}

enum BlockStage<'a> {
    Tasks(TasksRun<'a>),
    Output(Extension),
    Kernel(Extension, u64),
}

/// A block under way into the trees.
pub struct BlockRun<'a> {
    block: Hash256,
    stage: BlockStage<'a>,
}

impl<'a> Run for BlockRun<'a> {
    type Out = Outcome<()>;

    type Model = (Overlay, Result<(), Error>);

    open spec fn model(out: Outcome<()>) -> (Overlay, Result<(), Error>) {
        out@
    }

    open spec fn sound(out: Outcome<()>) -> bool {
        out.extension.valid()
    }

    closed spec fn program(&self) -> Effect {
        match self.stage {
            BlockStage::Tasks(run) => bind(run.program(), after_items(self.block)),
            BlockStage::Output(extension) => marker_output(extension@, self.block),
            BlockStage::Kernel(extension, pos) => marker_kernel(extension@, self.block, pos),
        }
    }

    closed spec fn valid(&self) -> bool {
        match self.stage {
            BlockStage::Tasks(run) => run.valid(),
            BlockStage::Output(extension) => extension.valid(),
            BlockStage::Kernel(extension, _) => extension.valid(),
        }
    }

    proof fn lemma_waits(&self) {
        if let BlockStage::Tasks(run) = self.stage {
            run.lemma_waits();
            lemma_bind(run.program(), after_items(self.block));
        }
    }

    fn request(&self) -> (request: Request<'_>) {
        match &self.stage {
            BlockStage::Tasks(run) => {
                proof {
                    run.lemma_waits();
                    lemma_bind(run.program(), after_items(self.block));
                }
                run.request()
            },
            BlockStage::Output(_) => Request::Size(Tree::Output),
            BlockStage::Kernel(_, _) => Request::Size(Tree::Kernel),
        }
    }

    fn need(&self) -> (need: Need) {
        match &self.stage {
            BlockStage::Tasks(run) => {
                proof {
                    run.lemma_waits();
                    lemma_bind(run.program(), after_items(self.block));
                }
                run.need()
            },
            _ => Need::Any,
        }
    }

    fn resume(self, reply: Reply) -> (step: Step<Self, Outcome<()>>) {
        let block = self.block;
        match self.stage {
            BlockStage::Tasks(run) => {
                proof {
                    run.lemma_waits();
                    lemma_bind(run.program(), after_items(block));
                }
                match run.resume(reply) {
                    Step::Running(run) => Step::Running(
                        BlockRun { block, stage: BlockStage::Tasks(run) },
                    ),
                    Step::Done(out) => match out.result {
                        Ok(_) => Step::Running(
                            BlockRun { block, stage: BlockStage::Output(out.extension) },
                        ),
                        Err(_) => Step::Done(out),
                    },
                }
            },
            BlockStage::Output(extension) => Step::Running(
                BlockRun { block, stage: BlockStage::Kernel(extension, reply.into_size()) },
            ),
            BlockStage::Kernel(extension, output_pos) => {
                let mut extension = extension;
                let kernel_pos = reply.into_size();
                extension.note_block(block, BlockMarker { output_pos, kernel_pos });
                Step::Done(Outcome { extension, result: Ok(()) })
            },
        }
    }
}

impl Extension {
    /// Applies a new block on top of the trees.
    ///
    /// Coinbase outputs go first: the last element of a tree cannot be pruned
    /// while it has no parent, so at least one output of padding is added
    /// before any input is spent. Inputs go before all other outputs, so no
    /// input can spend one of those.
    pub fn apply_block<'a>(self, block: &'a Block) -> (step: Step<BlockRun<'a>, Outcome<()>>)
        requires
            self.valid(),
        ensures
            meets(step, block_program(self@, *block)),
    {
        let mut tasks: Vec<Task<'a>> = Vec::new();
        push_outputs_that(&mut tasks, &block.outputs, true);
        push_inputs(&mut tasks, &block.inputs);
        push_outputs_that(&mut tasks, &block.outputs, false);
        push_kernels(&mut tasks, &block.kernels);
        proof {
            assert(items_of(tasks@) =~= block_items(*block));
        }
        match run_tasks(self, tasks) {
            Step::Running(run) => {
                Step::Running(BlockRun { block: block.hash, stage: BlockStage::Tasks(run) })
            },
            Step::Done(out) => match out.result {
                Ok(_) => Step::Running(
                    BlockRun { block: block.hash, stage: BlockStage::Output(out.extension) },
                ),
                Err(_) => Step::Done(out),
            },
        }
    }
}

} // verus!
