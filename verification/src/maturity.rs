//! Coinbase outputs may be spent only once they have matured.
use crate::extension::{Extension, Overlay};
use crate::program::{meets, Call, Need, Program, Reply, Request, Run, Step};
use crate::script::Verdict;
use crate::types::{BlockHeader, Error, Hash256, Input};
use vstd::prelude::*;

verus! {

/// Verifies of inputs, in order, that those which spend coinbase outputs do not
/// spend them too early. Each is judged, at a height, by the header of the block
/// that it names and the hash that the output tree has at the position of its
/// commitment.
pub open spec fn maturity_program(o: Overlay, inputs: Seq<Input>, height: u64) -> Verdict
    decreases inputs.len(), 4nat,
{
    if inputs.len() == 0 {
        Program::Ret(Ok(()))
    } else if inputs[0].coinbase {
        maturity_header(o, inputs, height)
    } else {
        maturity_program(o, inputs.drop_first(), height)
    }
}

pub open spec fn maturity_header(o: Overlay, inputs: Seq<Input>, height: u64) -> Verdict
    decreases inputs.len(), 3nat,
    when inputs.len() > 0
{
    Program::Ask(
        Call::BlockHeader(inputs[0].block_hash),
        Need::Any,
        |reply: Reply|
            match reply->Header_0 {
                Ok(header) => match o.commits.get(inputs[0].commit) {
                    Some(pos) => maturity_hash(o, inputs, height, header, pos),
                    None => maturity_pos(o, inputs, height, header),
                },
                Err(e) => Program::Ret(Err(Error::Store(e))),
            },
    )
}

pub open spec fn maturity_pos(
    o: Overlay,
    inputs: Seq<Input>,
    height: u64,
    header: BlockHeader,
) -> Verdict
    decreases inputs.len(), 2nat,
    when inputs.len() > 0
{
    Program::Ask(
        Call::OutputPos(inputs[0].commit),
        Need::Any,
        |reply: Reply|
            match reply->Pos_0 {
                Ok(pos) => maturity_hash(o, inputs, height, header, pos),
                Err(e) => Program::Ret(Err(Error::Store(e))),
            },
    )
}

pub open spec fn maturity_hash(
    o: Overlay,
    inputs: Seq<Input>,
    height: u64,
    header: BlockHeader,
    pos: u64,
) -> Verdict
    decreases inputs.len(), 1nat,
    when inputs.len() > 0
{
    Program::Ask(
        Call::OutputHash(pos),
        Need::Any,
        |reply: Reply|
            match reply->MaybeHash_0 {
                Some(hash) => maturity_verify(o, inputs, height, header, hash),
                None => Program::Ret(Err(Error::OutputNotFound)),
            },
    )
}

pub open spec fn maturity_verify(
    o: Overlay,
    inputs: Seq<Input>,
    height: u64,
    header: BlockHeader,
    hash: Hash256,
) -> Verdict
    decreases inputs.len(), 0nat,
    when inputs.len() > 0
{
    Program::Ask(
        Call::VerifyMaturity(inputs[0], hash, header, height),
        Need::Any,
        |reply: Reply|
            match reply->Done_0 {
                Ok(_) => maturity_program(o, inputs.drop_first(), height),
                Err(text) => Program::Ret(Err(Error::Rejected(text))),
            },
    )
}

enum Stage {
    Header,
    Pos(BlockHeader),
    Read(BlockHeader, u64),
    Verify(BlockHeader, Hash256),
}

/// The verification of maturity under way.
pub struct MaturityRun<'a> {
    extension: &'a Extension,
    inputs: &'a Vec<Input>,
    height: u64,
    i: usize,
    stage: Stage,
}

impl<'a> MaturityRun<'a> {
    spec fn here(&self) -> Verdict {
        let rest = self.inputs@.skip(self.i as int);
        match self.stage {
            Stage::Header => maturity_header(self.extension@, rest, self.height),
            Stage::Pos(header) => maturity_pos(self.extension@, rest, self.height, header),
            Stage::Read(header, pos) => maturity_hash(
                self.extension@,
                rest,
                self.height,
                header,
                pos,
            ),
            Stage::Verify(header, hash) => maturity_verify(
                self.extension@,
                rest,
                self.height,
                header,
                hash,
            ),
        }
    }

    spec fn good(&self) -> bool {
        self.extension.valid() && self.i < self.inputs@.len()
    }

    spec fn fits(step: Step<Self, Result<(), Error>>, program: Verdict) -> bool {
        match step {
            Step::Running(run) => run.good() && run.here() == program && program.waits(),
            Step::Done(out) => program == Program::Ret(out),
        }
    }

    /// Goes on from the input at `start`.
    fn seek(extension: &'a Extension, inputs: &'a Vec<Input>, height: u64, start: usize) -> (step:
        Step<Self, Result<(), Error>>)
        requires
            extension.valid(),
            start <= inputs@.len(),
        ensures
            Self::fits(
                step,
                maturity_program(extension@, inputs@.skip(start as int), height),
            ),
    {
        let mut i: usize = start;
        while i < inputs.len()
            invariant
                extension.valid(),
                i <= inputs@.len(),
                maturity_program(extension@, inputs@.skip(i as int), height) == maturity_program(
                    extension@,
                    inputs@.skip(start as int),
                    height,
                ),
            decreases inputs@.len() - i,
        {
            if inputs[i].coinbase {
                return Step::Running(
                    MaturityRun { extension, inputs, height, i, stage: Stage::Header },
                );
            }
            proof {
                let rest = inputs@.skip(i as int);
                assert(rest.drop_first() =~= inputs@.skip(i + 1));
            }
            i = i + 1;
        }
        Step::Done(Ok(()))
    }
}

impl<'a> Run for MaturityRun<'a> {
    type Out = Result<(), Error>;

    type Model = Result<(), Error>;

    open spec fn model(out: Result<(), Error>) -> Result<(), Error> {
        out
    }

    open spec fn sound(out: Result<(), Error>) -> bool {
        true
    }

    closed spec fn program(&self) -> Verdict {
        self.here()
    }

    closed spec fn valid(&self) -> bool {
        self.good()
    }

    proof fn lemma_waits(&self) {
    }

    fn request(&self) -> (request: Request<'_>) {
        let input = &self.inputs[self.i];
        match &self.stage {
            Stage::Header => Request::BlockHeader(input.block_hash),
            Stage::Pos(_) => Request::OutputPos(input.commit),
            Stage::Read(_, pos) => Request::OutputHash(*pos),
            Stage::Verify(header, hash) => Request::VerifyMaturity(
                input,
                *hash,
                header,
                self.height,
            ),
        }
    }

    fn need(&self) -> (need: Need) {
        Need::Any
    }

    fn resume(self, reply: Reply) -> (step: Step<Self, Result<(), Error>>) {
        let MaturityRun { extension, inputs, height, i, stage } = self;
        assert(i < inputs.len());
        let ghost rest = inputs@.skip(i as int);
        assert(rest.drop_first() =~= inputs@.skip(i + 1));
        match stage {
            Stage::Header => match reply.into_header() {
                Ok(header) => {
                    let stage = match extension.find(&inputs[i].commit) {
                        Some(pos) => Stage::Read(header, pos),
                        None => Stage::Pos(header),
                    };
                    Step::Running(MaturityRun { extension, inputs, height, i, stage })
                },
                Err(e) => Step::Done(Err(Error::Store(e))),
            },
            Stage::Pos(header) => match reply.into_pos() {
                Ok(pos) => Step::Running(
                    MaturityRun { extension, inputs, height, i, stage: Stage::Read(header, pos) },
                ),
                Err(e) => Step::Done(Err(Error::Store(e))),
            },
            Stage::Read(header, _) => match reply.into_maybe_hash() {
                Some(hash) => Step::Running(
                    MaturityRun {
                        extension,
                        inputs,
                        height,
                        i,
                        stage: Stage::Verify(header, hash),
                    },
                ),
                None => Step::Done(Err(Error::OutputNotFound)),
            },
            Stage::Verify(..) => match reply.into_done() {
                Ok(_) => Self::seek(extension, inputs, height, i + 1),
                Err(text) => Step::Done(Err(Error::Rejected(text))),
            },
        }
    }
}

impl Extension {
    /// Verifies that no input spends a coinbase output that has not matured
    /// sufficiently at the given height.
    pub fn verify_coinbase_maturity<'a>(&'a self, inputs: &'a Vec<Input>, height: u64) -> (step:
        Step<MaturityRun<'a>, Result<(), Error>>)
        requires
            self.valid(),
        ensures
            meets(step, maturity_program(self@, inputs@, height)),
    {
        assert(inputs@.skip(0) =~= inputs@);
        MaturityRun::seek(self, inputs, height, 0)
    }
}

} // verus!
