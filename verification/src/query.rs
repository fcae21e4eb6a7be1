//! Questions that are answered by a single reply.
use crate::program::{meets, Call, Kind, Need, Program, Reply, Request, Run, Step};
use crate::types::{BlockMarker, Error, Hash256, OutputIdentifier, RangeProof, TxKernel};
use std::marker::PhantomData;
use vstd::prelude::*;

verus! {

/// What a reply of one kind says.
pub trait Answer: Sized {
    /// The kind of reply.
    spec fn kind() -> Kind;

    /// What the reply says.
    spec fn answer(reply: Reply) -> Self;

    /// What the reply says.
    fn into_answer(reply: Reply) -> (answer: Self)
        requires
            reply.kind() == Self::kind(),
        ensures
            answer == Self::answer(reply),
    ;
}

impl Answer for Vec<(Hash256, OutputIdentifier)> {
    open spec fn kind() -> Kind {
        Kind::Outputs
    }

    open spec fn answer(reply: Reply) -> Self {
        reply->Outputs_0
    }

    fn into_answer(reply: Reply) -> (answer: Self) {
        match reply {
            Reply::Outputs(held) => held,
            _ => unreached(),
        }
    }
}

impl Answer for Vec<(Hash256, RangeProof)> {
    open spec fn kind() -> Kind {
        Kind::Proofs
    }

    open spec fn answer(reply: Reply) -> Self {
        reply->Proofs_0
    }

    fn into_answer(reply: Reply) -> (answer: Self) {
        match reply {
            Reply::Proofs(held) => held,
            _ => unreached(),
        }
    }
}

impl Answer for Vec<(Hash256, TxKernel)> {
    open spec fn kind() -> Kind {
        Kind::Kernels
    }

    open spec fn answer(reply: Reply) -> Self {
        reply->Kernels_0
    }

    fn into_answer(reply: Reply) -> (answer: Self) {
        match reply {
            Reply::Kernels(held) => held,
            _ => unreached(),
        }
    }
}

impl Answer for (u64, Vec<OutputIdentifier>) {
    open spec fn kind() -> Kind {
        Kind::OutputPage
    }

    open spec fn answer(reply: Reply) -> Self {
        reply->OutputPage_0
    }

    fn into_answer(reply: Reply) -> (answer: Self) {
        match reply {
            Reply::OutputPage(held) => held,
            _ => unreached(),
        }
    }
}

impl Answer for (u64, Vec<RangeProof>) {
    open spec fn kind() -> Kind {
        Kind::ProofPage
    }

    open spec fn answer(reply: Reply) -> Self {
        reply->ProofPage_0
    }

    fn into_answer(reply: Reply) -> (answer: Self) {
        match reply {
            Reply::ProofPage(held) => held,
            _ => unreached(),
        }
    }
}

impl Answer for Result<BlockMarker, Error> {
    open spec fn kind() -> Kind {
        Kind::Marker
    }

    open spec fn answer(reply: Reply) -> Self {
        match reply->Marker_0 {
            Ok(marker) => Ok(marker),
            Err(e) => Err(Error::Store(e)),
        }
    }

    fn into_answer(reply: Reply) -> (answer: Self) {
        match reply.into_marker() {
            Ok(marker) => Ok(marker),
            Err(e) => Err(Error::Store(e)),
        }
    }
}

/// Asks, and ends with what the reply says.
pub open spec fn query_program<T: Answer>(call: Call) -> Program<T> {
    Program::Ask(call, Need::Any, |reply: Reply| Program::Ret(T::answer(reply)))
}

/// A question that waits for its answer.
pub struct QueryRun<T> {
    request: Request<'static>,
    answer: PhantomData<T>,
}

impl<T: Answer> Run for QueryRun<T> {
    type Out = T;

    type Model = T;

    open spec fn model(out: T) -> T {
        out
    }

    open spec fn sound(out: T) -> bool {
        true
    }

    closed spec fn program(&self) -> Program<T> {
        query_program(self.request.call())
    }

    closed spec fn valid(&self) -> bool {
        self.request.call().kind() == T::kind()
    }

    proof fn lemma_waits(&self) {
    }

    fn request(&self) -> (request: Request<'_>) {
        self.request
    }

    fn need(&self) -> (need: Need) {
        Need::Any
    }

    fn resume(self, reply: Reply) -> (step: Step<Self, T>) {
        Step::Done(T::into_answer(reply))
    }
}

/// Asks a question.
pub(crate) fn ask<T: Answer>(request: Request<'static>) -> (step: Step<QueryRun<T>, T>)
    requires
        request.call().kind() == T::kind(),
    ensures
        meets(step, query_program(request.call())),
{
    Step::Running(QueryRun { request, answer: PhantomData })
}

} // verus!
