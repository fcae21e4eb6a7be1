//! Merkle proofs for outputs, as of the end of a block.
use crate::apply::refused;
use crate::extension::{Extension, Outcome, Overlay};
use crate::program::{bind, lemma_bind, meets, Call, Need, Program, Reply, Request, Run, Step};
use crate::rewind::{rewind_program, RewindRun};
use crate::types::{BlockHeader, Commitment, Error, Hash256, MerkleProof, Message, OutputIdentifier};
use vstd::prelude::*;

verus! {

/// A dialogue that ends with a Merkle proof.
pub type Proving = Program<(Overlay, Result<MerkleProof, Error>)>;

/// Rewinds the trees to a block, for a consistent view, and then builds the
/// Merkle proof for the position of a commitment.
pub open spec fn merkle_program(o: Overlay, commit: Commitment, block: Hash256) -> Proving {
    Program::Ask(
        Call::HeadHeader,
        Need::Any,
        |reply: Reply|
            match reply->Header_0 {
                Ok(head) => bind(rewind_program(o, block, head.hash), after_rewind(commit)),
                Err(e) => Program::Ret((o, Err(Error::Store(e)))),
            },
    )
}

pub open spec fn after_rewind(commit: Commitment) -> spec_fn(
    (Overlay, Result<(), Error>),
) -> Proving {
    |done: (Overlay, Result<(), Error>)|
        match done.1 {
            Ok(_) => merkle_find(done.0, commit),
            Err(e) => Program::Ret((done.0, Err(e))),
        }
}

pub open spec fn merkle_find(o: Overlay, commit: Commitment) -> Proving {
    match o.commits.get(commit) {
        Some(pos) => merkle_at(o, pos),
        None => merkle_lookup(o, commit),
    }
}

pub open spec fn merkle_lookup(o: Overlay, commit: Commitment) -> Proving {
    Program::Ask(
        Call::OutputPos(commit),
        Need::Any,
        |reply: Reply|
            match reply->Pos_0 {
                Ok(pos) => merkle_at(o, pos),
                Err(e) => Program::Ret((o, Err(Error::Store(e)))),
            },
    )
}

pub open spec fn merkle_at(o: Overlay, pos: u64) -> Proving {
    Program::Ask(
        Call::MerkleProof(pos),
        Need::Any,
        |reply: Reply|
            match reply->Proof_0 {
                Ok(proof) => Program::Ret((o, Ok(proof))),
                Err(text) => Program::Ret((o, Err(refused(text)))),
            },
    )
}

enum Stage {
    Head(Extension),
    Rewind(RewindRun),
    Lookup(Extension),
    Prove(Extension, u64),
}

/// A Merkle proof under way.
pub struct MerkleRun {
    commit: Commitment,
    block: BlockHeader,
    stage: Stage,
}

impl MerkleRun {
    spec fn here(&self) -> Proving {
        match self.stage {
            Stage::Head(extension) => merkle_program(extension@, self.commit, self.block.hash),
            Stage::Rewind(run) => bind(run.program(), after_rewind(self.commit)),
            Stage::Lookup(extension) => merkle_lookup(extension@, self.commit),
            Stage::Prove(extension, pos) => merkle_at(extension@, pos),
        }
    }

    spec fn good(&self) -> bool {
        match self.stage {
            Stage::Head(extension) => extension.valid(),
            Stage::Rewind(run) => run.valid(),
            Stage::Lookup(extension) => extension.valid(),
            Stage::Prove(extension, _) => extension.valid(),
        }
    }

    proof fn lemma_part(&self)
        requires
            self.good(),
        ensures
            self.here().waits(),
            self.stage matches Stage::Rewind(run) ==> {
                &&& run.program().waits()
                &&& self.here().call() == run.program().call()
                &&& self.here().need() == run.program().need()
                &&& forall|reply: Reply| #[trigger]
                    self.here().next(reply) == bind(
                        run.program().next(reply),
                        after_rewind(self.commit),
                    )
            },
    {
        if let Stage::Rewind(run) = self.stage {
            run.lemma_waits();
            lemma_bind(run.program(), after_rewind(self.commit));
        }
    }
}

impl Run for MerkleRun {
    type Out = Outcome<MerkleProof>;

    type Model = (Overlay, Result<MerkleProof, Error>);

    open spec fn model(out: Outcome<MerkleProof>) -> (Overlay, Result<MerkleProof, Error>) {
        out@
    }

    open spec fn sound(out: Outcome<MerkleProof>) -> bool {
        out.extension.valid()
    }

    closed spec fn program(&self) -> Proving {
        self.here()
    }

    closed spec fn valid(&self) -> bool {
        self.good()
    }

    proof fn lemma_waits(&self) {
        self.lemma_part();
    }

    fn request(&self) -> (request: Request<'_>) {
        proof {
            self.lemma_part();
        }
        match &self.stage {
            Stage::Head(_) => Request::HeadHeader,
            Stage::Rewind(run) => run.request(),
            Stage::Lookup(_) => Request::OutputPos(self.commit),
            Stage::Prove(_, pos) => Request::MerkleProof(*pos),
        }
    }

    fn need(&self) -> (need: Need) {
        proof {
            self.lemma_part();
        }
        match &self.stage {
            Stage::Rewind(run) => run.need(),
            _ => Need::Any,
        }
    }

    fn resume(self, reply: Reply) -> (step: Step<Self, Outcome<MerkleProof>>) {
        proof {
            self.lemma_part();
        }
        let MerkleRun { commit, block, stage } = self;
        match stage {
            Stage::Head(extension) => match reply.into_header() {
                Ok(head) => match extension.rewind(&block, &head) {
                    Step::Running(run) => Step::Running(
                        MerkleRun { commit, block, stage: Stage::Rewind(run) },
                    ),
                    Step::Done(_) => unreached(),
                },
                Err(e) => Step::Done(Outcome { extension, result: Err(Error::Store(e)) }),
            },
            Stage::Rewind(run) => match run.resume(reply) {
                Step::Running(run) => Step::Running(
                    MerkleRun { commit, block, stage: Stage::Rewind(run) },
                ),
                Step::Done(Outcome { extension, result: Ok(_) }) => {
                    let stage = match extension.find(&commit) {
                        Some(pos) => Stage::Prove(extension, pos),
                        None => Stage::Lookup(extension),
                    };
                    Step::Running(MerkleRun { commit, block, stage })
                },
                Step::Done(Outcome { extension, result: Err(e) }) => Step::Done(
                    Outcome { extension, result: Err(e) },
                ),
            },
            Stage::Lookup(extension) => match reply.into_pos() {
                Ok(pos) => Step::Running(
                    MerkleRun { commit, block, stage: Stage::Prove(extension, pos) },
                ),
                Err(e) => Step::Done(Outcome { extension, result: Err(Error::Store(e)) }),
            },
            Stage::Prove(extension, _) => match reply.into_proof() {
                Ok(proof) => Step::Done(Outcome { extension, result: Ok(proof) }),
                Err(text) => {
                    let e = Error::TxHashSetErr(Message::Text(text));
                    Step::Done(Outcome { extension, result: Err(e) })
                },
            },
        }
    }
}

impl Extension {
    /// Builds a Merkle proof for an output and a block, by rewinding the trees
    /// to the end of that block.
    pub fn merkle_proof(self, output: &OutputIdentifier, block_header: &BlockHeader) -> (step: Step<
        MerkleRun,
        Outcome<MerkleProof>,
    >)
        requires
            self.valid(),
        ensures
            meets(step, merkle_program(self@, output.commit, block_header.hash)),
    {
        Step::Running(
            MerkleRun { commit: output.commit, block: *block_header, stage: Stage::Head(self) },
        )
    }
}

} // verus!
