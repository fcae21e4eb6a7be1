//! What decides a verification is what was verified: it succeeds exactly if
//! everything verifies, and fails with the first thing that does not.
use crate::courses::{
    failures_and_absent_outputs, failures_and_absent_proofs, heeds, keeps_when, lemma_when_both,
    Answers,
};
use crate::extension::Overlay;
use crate::heed_laws::{ends_with, succeeds};
use crate::leaf_laws::{lemma_grows, lemma_starts};
use crate::maturity::{
    maturity_hash, maturity_header, maturity_pos, maturity_program, maturity_verify,
};
use crate::paths::known;
use crate::pmmr::leaf_at;
use crate::program::{Call, Reply};
use crate::rangeproofs::{
    rangeproofs_check, rangeproofs_from, rangeproofs_next, rangeproofs_program, rangeproofs_read,
};
use crate::signatures::{signatures_check, signatures_from, signatures_next, signatures_program};
use crate::types::{BlockHeader, Error, Hash256, Input, OutputIdentifier, RangeProof, StoreError};
use crate::world::{lemma_same_but_log, same_but_log, Element, Trees, World};
use vstd::prelude::*;

verus! {

// ---- signatures

/// The verdict on the kernel at a position, if there is one.
pub open spec fn kernel_verdict(answers: Answers, trees: Trees, pos: u64) -> Result<(), Error> {
    match trees.kernel.element(pos) {
        Some(Element::Kernel(kernel)) => match (answers.signature)(kernel) {
            Ok(_) => Ok(()),
            Err(text) => Err(Error::Rejected(text)),
        },
        _ => Ok(()),
    }
}

/// The verdicts on the leaves among the first `n` positions are good.
pub open spec fn good_up_to(verdict: spec_fn(u64) -> Result<(), Error>, n: nat) -> bool {
    forall|pos: u64| 1 <= pos <= n && leaf_at(pos as nat) ==> #[trigger] verdict(pos) is Ok
}

/// A verification is decided by verdicts on leaves: it succeeds if all are good,
/// and otherwise fails with the first that is not.
pub open spec fn decided_by(
    verdict: spec_fn(u64) -> Result<(), Error>,
    n: nat,
    result: Result<(), Error>,
) -> bool {
    match result {
        Ok(_) => good_up_to(verdict, n),
        Err(e) => exists|pos: u64|
            {
                &&& 1 <= pos <= n
                &&& leaf_at(pos as nat)
                &&& #[trigger] verdict(pos) == Err::<(), Error>(e)
                &&& good_up_to(verdict, (pos - 1) as nat)
            },
    }
}

/// The signatures of kernels decided, and nothing but the log changed.
pub open spec fn signatures_decide(answers: Answers, first: World) -> spec_fn(
    Result<(), Error>,
    World,
) -> bool {
    |result: Result<(), Error>, after: World|
        {
            &&& same_but_log(first, after)
            &&& decided_by(
                |pos: u64| kernel_verdict(answers, first.trees, pos),
                first.trees.kernel.size as nat,
                result,
            )
        }
}

proof fn lemma_signatures_next(answers: Answers, first: World, world: World, n: nat, count: nat)
    requires
        same_but_log(first, world),
        1 <= n <= first.trees.kernel.size,
        good_up_to(|pos: u64| kernel_verdict(answers, first.trees, pos), n),
    ensures
        keeps_when(
            signatures_next(n, first.trees.kernel.size, count),
            world,
            answers.given(),
            signatures_decide(answers, first),
        ),
    decreases first.trees.kernel.size + 1 - n, 0nat,
{
    let size = first.trees.kernel.size;
    if n % 20 == 0 {
        let program = signatures_next(n, size, count);
        assert forall|reply: Reply, after: World| #[trigger]
            world.allows(program->Ask_0, reply, after) && program->Ask_1.met_by(reply) && (
            answers.given())(world, program->Ask_0, reply) implies keeps_when(
            (program->Ask_2)(reply),
            after,
            answers.given(),
            signatures_decide(answers, first),
        ) by {
            lemma_grows(first, world, program->Ask_0, after);
            lemma_signatures_from(answers, first, after, n + 1, count);
        }
    } else {
        lemma_signatures_from(answers, first, world, n + 1, count);
    }
}

proof fn lemma_signatures_from(answers: Answers, first: World, world: World, n: nat, count: nat)
    requires
        same_but_log(first, world),
        1 <= n <= first.trees.kernel.size + 1,
        good_up_to(|pos: u64| kernel_verdict(answers, first.trees, pos), (n - 1) as nat),
    ensures
        keeps_when(
            signatures_from(n, first.trees.kernel.size, count),
            world,
            answers.given(),
            signatures_decide(answers, first),
        ),
    decreases first.trees.kernel.size + 1 - n, 1nat,
{
    let size = first.trees.kernel.size;
    let post = signatures_decide(answers, first);
    let verdict = |pos: u64| kernel_verdict(answers, first.trees, pos);
    if n <= size {
        let pos = n as u64;
        if leaf_at(n) {
            let program = signatures_from(n, size, count);
            assert forall|reply: Reply, after: World| #[trigger]
                world.allows(program->Ask_0, reply, after) && program->Ask_1.met_by(reply) && (
                answers.given())(world, program->Ask_0, reply) implies keeps_when(
                (program->Ask_2)(reply),
                after,
                answers.given(),
                post,
            ) by {
                lemma_grows(first, world, program->Ask_0, after);
                match reply->MaybeKernel_0 {
                    Some(kernel) => {
                        let program = signatures_check(n, size, count, kernel);
                        assert forall|reply: Reply, last: World| #[trigger]
                            after.allows(program->Ask_0, reply, last) && program->Ask_1.met_by(
                                reply,
                            ) && (answers.given())(
                                after,
                                program->Ask_0,
                                reply,
                            ) implies keeps_when(
                            (program->Ask_2)(reply),
                            last,
                            answers.given(),
                            post,
                        ) by {
                            lemma_grows(first, after, program->Ask_0, last);
                            match reply->Done_0 {
                                Ok(_) => {
                                    assert(verdict(pos) is Ok);
                                    lemma_signatures_next(answers, first, last, n, count + 1);
                                },
                                Err(text) => {
                                    assert(verdict(pos) == Err::<(), Error>(
                                        Error::Rejected(text),
                                    ));
                                },
                            }
                        }
                    },
                    None => {
                        assert(verdict(pos) is Ok);
                        lemma_signatures_next(answers, first, after, n, count);
                    },
                }
            }
        } else {
            lemma_signatures_next(answers, first, world, n, count);
        }
    }
}

/// Where it is settled which signatures verify, the verification of the
/// signatures of all kernels succeeds exactly if each of them does, and otherwise
/// fails with what is said of the first that does not.
pub proof fn law_signatures_decide(answers: Answers, world: World)
    ensures
        keeps_when(
            signatures_program(),
            world,
            answers.given(),
            signatures_decide(answers, world),
        ),
{
    let program = signatures_program();
    lemma_starts(world);
    assert forall|reply: Reply, after: World| #[trigger]
        world.allows(program->Ask_0, reply, after) && program->Ask_1.met_by(reply) && (
        answers.given())(world, program->Ask_0, reply) implies keeps_when(
        (program->Ask_2)(reply),
        after,
        answers.given(),
        signatures_decide(answers, world),
    ) by {
        lemma_grows(world, world, program->Ask_0, after);
        lemma_signatures_from(answers, world, after, 1, 0);
    }
}

// ---- range proofs

/// The verdict on the output at a position, if there is one: it has a range
/// proof there, which verifies.
pub open spec fn rproof_verdict(answers: Answers, trees: Trees, pos: u64) -> Result<(), Error> {
    match trees.output.element(pos) {
        Some(Element::Output(id)) => match trees.rproof.element(pos) {
            Some(Element::Proof(rproof)) => match (answers.rproof)(id, rproof) {
                Ok(_) => Ok(()),
                Err(text) => Err(Error::Rejected(text)),
            },
            _ => Err(Error::OutputNotFound),
        },
        _ => Ok(()),
    }
}

/// The range proofs of unspent outputs decided, and nothing but the log changed.
pub open spec fn rangeproofs_decide(answers: Answers, first: World) -> spec_fn(
    Result<(), Error>,
    World,
) -> bool {
    |result: Result<(), Error>, after: World|
        {
            &&& same_but_log(first, after)
            &&& decided_by(
                |pos: u64| rproof_verdict(answers, first.trees, pos),
                first.trees.output.size as nat,
                result,
            )
        }
}

proof fn lemma_rangeproofs_next(answers: Answers, first: World, world: World, n: nat, count: nat)
    requires
        same_but_log(first, world),
        1 <= n <= first.trees.output.size,
        good_up_to(|pos: u64| rproof_verdict(answers, first.trees, pos), n),
    ensures
        keeps_when(
            rangeproofs_next(n, first.trees.output.size, count),
            world,
            answers.given(),
            rangeproofs_decide(answers, first),
        ),
    decreases first.trees.output.size + 1 - n, 0nat,
{
    let size = first.trees.output.size;
    if n % 20 == 0 {
        let program = rangeproofs_next(n, size, count);
        assert forall|reply: Reply, after: World| #[trigger]
            world.allows(program->Ask_0, reply, after) && program->Ask_1.met_by(reply) && (
            answers.given())(world, program->Ask_0, reply) implies keeps_when(
            (program->Ask_2)(reply),
            after,
            answers.given(),
            rangeproofs_decide(answers, first),
        ) by {
            lemma_grows(first, world, program->Ask_0, after);
            lemma_rangeproofs_from(answers, first, after, n + 1, count);
        }
    } else {
        lemma_rangeproofs_from(answers, first, world, n + 1, count);
    }
}

proof fn lemma_rangeproofs_check(
    answers: Answers,
    first: World,
    world: World,
    n: nat,
    count: nat,
    id: OutputIdentifier,
    rproof: RangeProof,
)
    requires
        same_but_log(first, world),
        1 <= n <= first.trees.output.size,
        leaf_at(n),
        good_up_to(|pos: u64| rproof_verdict(answers, first.trees, pos), (n - 1) as nat),
        first.trees.output.element(n as u64) == Some(Element::Output(id)),
        first.trees.rproof.element(n as u64) == Some(Element::Proof(rproof)),
    ensures
        keeps_when(
            rangeproofs_check(n, first.trees.output.size, count, id, rproof),
            world,
            answers.given(),
            rangeproofs_decide(answers, first),
        ),
    decreases first.trees.output.size + 1 - n, 1nat,
{
    let size = first.trees.output.size;
    let post = rangeproofs_decide(answers, first);
    let verdict = |pos: u64| rproof_verdict(answers, first.trees, pos);
    let pos = n as u64;
    let program = rangeproofs_check(n, size, count, id, rproof);
    assert forall|reply: Reply, last: World| #[trigger]
        world.allows(program->Ask_0, reply, last) && program->Ask_1.met_by(reply) && (
        answers.given())(world, program->Ask_0, reply) implies keeps_when(
        (program->Ask_2)(reply),
        last,
        answers.given(),
        post,
    ) by {
        lemma_grows(first, world, program->Ask_0, last);
        match reply->Done_0 {
            Ok(_) => {
                assert(verdict(pos) is Ok);
                lemma_rangeproofs_next(answers, first, last, n, count + 1);
            },
            Err(text) => {
                assert(verdict(pos) == Err::<(), Error>(Error::Rejected(text)));
            },
        }
    }
}

proof fn lemma_rangeproofs_from(answers: Answers, first: World, world: World, n: nat, count: nat)
    requires
        same_but_log(first, world),
        1 <= n <= first.trees.output.size + 1,
        good_up_to(|pos: u64| rproof_verdict(answers, first.trees, pos), (n - 1) as nat),
    ensures
        keeps_when(
            rangeproofs_from(n, first.trees.output.size, count),
            world,
            answers.given(),
            rangeproofs_decide(answers, first),
        ),
    decreases first.trees.output.size + 1 - n, 2nat,
{
    let size = first.trees.output.size;
    let post = rangeproofs_decide(answers, first);
    let verdict = |pos: u64| rproof_verdict(answers, first.trees, pos);
    if n <= size {
        let pos = n as u64;
        if leaf_at(n) {
            let program = rangeproofs_from(n, size, count);
            assert forall|reply: Reply, after: World| #[trigger]
                world.allows(program->Ask_0, reply, after) && program->Ask_1.met_by(reply) && (
                answers.given())(world, program->Ask_0, reply) implies keeps_when(
                (program->Ask_2)(reply),
                after,
                answers.given(),
                post,
            ) by {
                lemma_grows(first, world, program->Ask_0, after);
                match reply->MaybeOutput_0 {
                    Some(id) => {
                        let program = rangeproofs_read(n, size, count, id);
                        assert forall|reply: Reply, now: World| #[trigger]
                            after.allows(program->Ask_0, reply, now) && program->Ask_1.met_by(
                                reply,
                            ) && (answers.given())(
                                after,
                                program->Ask_0,
                                reply,
                            ) implies keeps_when(
                            (program->Ask_2)(reply),
                            now,
                            answers.given(),
                            post,
                        ) by {
                            lemma_grows(first, after, program->Ask_0, now);
                            match reply->MaybeProof_0 {
                                Some(rproof) => lemma_rangeproofs_check(
                                    answers,
                                    first,
                                    now,
                                    n,
                                    count,
                                    id,
                                    rproof,
                                ),
                                None => {
                                    assert(verdict(pos) == Err::<(), Error>(
                                        Error::OutputNotFound,
                                    ));
                                },
                            }
                        }
                    },
                    None => {
                        assert(verdict(pos) is Ok);
                        lemma_rangeproofs_next(answers, first, after, n, count);
                    },
                }
            }
        } else {
            lemma_rangeproofs_next(answers, first, world, n, count);
        }
    }
}

/// Where it is settled which range proofs verify, the verification of the range
/// proofs succeeds exactly if every unspent output has one that does, and
/// otherwise fails with what is said of the first that does not.
pub proof fn law_rangeproofs_decide(answers: Answers, world: World)
    ensures
        keeps_when(
            rangeproofs_program(),
            world,
            answers.given(),
            rangeproofs_decide(answers, world),
        ),
{
    let program = rangeproofs_program();
    lemma_starts(world);
    assert forall|reply: Reply, after: World| #[trigger]
        world.allows(program->Ask_0, reply, after) && program->Ask_1.met_by(reply) && (
        answers.given())(world, program->Ask_0, reply) implies keeps_when(
        (program->Ask_2)(reply),
        after,
        answers.given(),
        rangeproofs_decide(answers, world),
    ) by {
        lemma_grows(world, world, program->Ask_0, after);
        lemma_rangeproofs_from(answers, world, after, 1, 0);
    }
}

// ---- failures of these verifications

proof fn lemma_signatures_heed(n: nat, size: u64, count: nat)
    ensures
        heeds(
            signatures_from(n, size, count),
            failures_and_absent_proofs(),
            ends_with(),
            succeeds(),
        ),
        n <= size ==> heeds(
            signatures_next(n, size, count),
            failures_and_absent_proofs(),
            ends_with(),
            succeeds(),
        ),
    decreases size + 1 - n,
{
    let blame = failures_and_absent_proofs();
    if n <= size {
        assert forall|count: nat| heeds(
            #[trigger] signatures_next(n, size, count),
            blame,
            ends_with(),
            succeeds(),
        ) by {
            lemma_signatures_heed(n + 1, size, count);
            if n % 20 == 0 {
                let rest = signatures_next(n, size, count)->Ask_2;
                assert forall|reply: Reply|
                    #![trigger rest(reply)]
                    reply.kind() == signatures_next(n, size, count)->Ask_0.kind() implies heeds(
                    rest(reply),
                    blame,
                    ends_with(),
                    succeeds(),
                ) by {}
            }
        }
        let next = signatures_next(n, size, count);
        assert(heeds(next, blame, ends_with(), succeeds()));
        if leaf_at(n) {
            let rest = signatures_from(n, size, count)->Ask_2;
            assert forall|reply: Reply|
                #![trigger rest(reply)]
                reply.kind() == Call::KernelData(n as u64).kind() implies heeds(
                rest(reply),
                blame,
                ends_with(),
                succeeds(),
            ) by {
                let next = signatures_next(n, size, count);
                assert(heeds(next, blame, ends_with(), succeeds()));
                if let Some(kernel) = reply->MaybeKernel_0 {
                    let program = signatures_check(n, size, count, kernel);
                    let rest = program->Ask_2;
                    assert forall|reply: Reply|
                        #![trigger rest(reply)]
                        reply.kind() == program->Ask_0.kind() implies (match blame(
                        program->Ask_0,
                        reply,
                    ) {
                        Some(e) => rest(reply) is Ret && ends_with::<()>()(e, rest(reply)->Ret_0),
                        None => heeds(rest(reply), blame, ends_with(), succeeds()),
                    }) by {
                        let next = signatures_next(n, size, count + 1);
                        assert(heeds(next, blame, ends_with(), succeeds()));
                    }
                }
            }
        }
    }
}

/// The verification of signatures ends at the first that is refused, with what
/// is said of it.
pub proof fn law_signatures_heed_failures()
    ensures
        heeds(
            signatures_program(),
            failures_and_absent_proofs(),
            ends_with(),
            succeeds(),
        ),
{
    let rest = signatures_program()->Ask_2;
    assert forall|reply: Reply|
        #![trigger rest(reply)]
        reply.kind() == signatures_program()->Ask_0.kind() implies heeds(
        rest(reply),
        failures_and_absent_proofs(),
        ends_with(),
        succeeds(),
    ) by {
        lemma_signatures_heed(1, reply->Size_0, 0);
    }
}

proof fn lemma_rangeproofs_heed(n: nat, size: u64, count: nat)
    ensures
        heeds(
            rangeproofs_from(n, size, count),
            failures_and_absent_proofs(),
            ends_with(),
            succeeds(),
        ),
    decreases size + 1 - n,
{
    let blame = failures_and_absent_proofs();
    if n <= size {
        assert forall|count: nat| heeds(
            #[trigger] rangeproofs_next(n, size, count),
            blame,
            ends_with(),
            succeeds(),
        ) by {
            lemma_rangeproofs_heed(n + 1, size, count);
            if n % 20 == 0 {
                let rest = rangeproofs_next(n, size, count)->Ask_2;
                assert forall|reply: Reply|
                    #![trigger rest(reply)]
                    reply.kind() == rangeproofs_next(n, size, count)->Ask_0.kind() implies heeds(
                    rest(reply),
                    blame,
                    ends_with(),
                    succeeds(),
                ) by {}
            }
        }
        let next = rangeproofs_next(n, size, count);
        assert(heeds(next, blame, ends_with(), succeeds()));
        if leaf_at(n) {
            let rest = rangeproofs_from(n, size, count)->Ask_2;
            assert forall|reply: Reply|
                #![trigger rest(reply)]
                reply.kind() == Call::OutputData(n as u64).kind() implies heeds(
                rest(reply),
                blame,
                ends_with(),
                succeeds(),
            ) by {
                let next = rangeproofs_next(n, size, count);
                assert(heeds(next, blame, ends_with(), succeeds()));
                if let Some(id) = reply->MaybeOutput_0 {
                    lemma_rangeproof_heeds(n, size, count, id);
                }
            }
        }
    }
}

proof fn lemma_rangeproof_heeds(n: nat, size: u64, count: nat, id: OutputIdentifier)
    requires
        n <= size,
        forall|count: nat|
            heeds(
                #[trigger] rangeproofs_next(n, size, count),
                failures_and_absent_proofs(),
                ends_with(),
                succeeds(),
            ),
    ensures
        heeds(
            rangeproofs_read(n, size, count, id),
            failures_and_absent_proofs(),
            ends_with(),
            succeeds(),
        ),
{
    let blame = failures_and_absent_proofs();
    let program = rangeproofs_read(n, size, count, id);
    let rest = program->Ask_2;
    assert forall|reply: Reply|
        #![trigger rest(reply)]
        reply.kind() == program->Ask_0.kind() implies (match blame(program->Ask_0, reply) {
        Some(e) => rest(reply) is Ret && ends_with::<()>()(e, rest(reply)->Ret_0),
        None => heeds(rest(reply), blame, ends_with(), succeeds()),
    }) by {
        if let Some(rproof) = reply->MaybeProof_0 {
            let program = rangeproofs_check(n, size, count, id, rproof);
            let rest = program->Ask_2;
            assert forall|reply: Reply|
                #![trigger rest(reply)]
                reply.kind() == program->Ask_0.kind() implies (match blame(
                program->Ask_0,
                reply,
            ) {
                Some(e) => rest(reply) is Ret && ends_with::<()>()(e, rest(reply)->Ret_0),
                None => heeds(rest(reply), blame, ends_with(), succeeds()),
            }) by {
                let next = rangeproofs_next(n, size, count + 1);
                assert(heeds(next, blame, ends_with(), succeeds()));
            }
        }
    }
}

/// The verification of range proofs ends at the first that is refused or
/// missing.
pub proof fn law_rangeproofs_heed_failures()
    ensures
        heeds(
            rangeproofs_program(),
            failures_and_absent_proofs(),
            ends_with(),
            succeeds(),
        ),
{
    let rest = rangeproofs_program()->Ask_2;
    assert forall|reply: Reply|
        #![trigger rest(reply)]
        reply.kind() == rangeproofs_program()->Ask_0.kind() implies heeds(
        rest(reply),
        failures_and_absent_proofs(),
        ends_with(),
        succeeds(),
    ) by {
        lemma_rangeproofs_heed(1, reply->Size_0, 0);
    }
}

// ---- maturity

/// What an input spends has matured: so it is said of the hash that the output
/// tree has at the position known for its commitment, and of the header of the
/// block that it names.
pub open spec fn has_matured(
    answers: Answers,
    o: Overlay,
    world: World,
    input: Input,
    height: u64,
) -> bool {
    maturity_said(answers, o, world, input, height, Ok(()))
}

/// What is said of the maturity of what an input spends.
pub open spec fn maturity_said(
    answers: Answers,
    o: Overlay,
    world: World,
    input: Input,
    height: u64,
    said: Result<(), String>,
) -> bool {
    let header = (answers.header)(input.block_hash);
    let pos = known(o, world.index, input.commit);
    &&& header is Ok
    &&& pos is Some
    &&& exists|hash: Hash256|
        {
            &&& leaf_at(pos->0 as nat) ==> world.hash_in(world.trees.output, pos->0) == Some(hash)
            &&& #[trigger] (answers.maturity)(input, hash, header->Ok_0, height) == said
        }
}

/// What is wrong with an input that is not found to spend a mature output.
pub open spec fn maturity_fault(
    answers: Answers,
    o: Overlay,
    world: World,
    input: Input,
    height: u64,
    e: Error,
) -> bool {
    match e {
        Error::Rejected(text) => maturity_said(answers, o, world, input, height, Err(text)),
        Error::Store(e) => {
            ||| (answers.header)(input.block_hash) == Err::<BlockHeader, StoreError>(e)
            ||| !o.commits.contains_key(input.commit) && (world.reliable
                ==> !world.index.contains_key(input.commit))
        },
        Error::OutputNotFound => match known(o, world.index, input.commit) {
            Some(pos) => leaf_at(pos as nat) ==> world.hash_in(world.trees.output, pos) is None,
            None => false,
        },
        _ => false,
    }
}

/// The maturity of coinbase outputs decided, and nothing but the log changed.
pub open spec fn maturity_decides(
    answers: Answers,
    o: Overlay,
    inputs: Seq<Input>,
    height: u64,
    first: World,
) -> spec_fn(Result<(), Error>, World) -> bool {
    |result: Result<(), Error>, after: World|
        {
            &&& same_but_log(first, after)
            &&& match result {
                Ok(_) => forall|i: int|
                    0 <= i < inputs.len() && (#[trigger] inputs[i]).coinbase ==> has_matured(
                        answers,
                        o,
                        first,
                        inputs[i],
                        height,
                    ),
                Err(e) => exists|i: int|
                    {
                        &&& 0 <= i < inputs.len()
                        &&& (#[trigger] inputs[i]).coinbase
                        &&& maturity_fault(answers, o, first, inputs[i], height, e)
                        &&& forall|j: int|
                            0 <= j < i && (#[trigger] inputs[j]).coinbase ==> has_matured(
                                answers,
                                o,
                                first,
                                inputs[j],
                                height,
                            )
                    },
            }
        }
}

/// The first input is done with.
proof fn lemma_mature_more(
    answers: Answers,
    o: Overlay,
    inputs: Seq<Input>,
    height: u64,
    first: World,
    world: World,
)
    requires
        inputs.len() > 0,
        same_but_log(first, world),
        inputs[0].coinbase ==> has_matured(answers, o, first, inputs[0], height),
        keeps_when(
            maturity_program(o, inputs.drop_first(), height),
            world,
            answers.given(),
            maturity_decides(answers, o, inputs.drop_first(), height, world),
        ),
    ensures
        keeps_when(
            maturity_program(o, inputs.drop_first(), height),
            world,
            answers.given(),
            maturity_decides(answers, o, inputs, height, first),
        ),
{
    let rest = inputs.drop_first();
    let more = maturity_decides(answers, o, rest, height, world);
    let post = maturity_decides(answers, o, inputs, height, first);
    assert forall|result: Result<(), Error>, after: World| #[trigger]
        more(result, after) implies post(result, after) by {
        lemma_same_but_log(first, world, after);
        assert forall|i: int| 1 <= i < inputs.len() implies #[trigger] inputs[i] == rest[i - 1] by {}
        assert forall|j: int| 0 <= j < rest.len() implies #[trigger] rest[j] == inputs[j + 1] by {}
        match result {
            Ok(_) => {
                assert forall|i: int|
                    0 <= i < inputs.len() && (#[trigger] inputs[i]).coinbase implies has_matured(
                    answers,
                    o,
                    first,
                    inputs[i],
                    height,
                ) by {
                    if i > 0 {
                        assert(has_matured(answers, o, world, rest[i - 1], height));
                    }
                }
            },
            Err(e) => {
                let k = choose|k: int|
                    {
                        &&& 0 <= k < rest.len()
                        &&& (#[trigger] rest[k]).coinbase
                        &&& maturity_fault(answers, o, world, rest[k], height, e)
                        &&& forall|j: int|
                            0 <= j < k && (#[trigger] rest[j]).coinbase ==> has_matured(
                                answers,
                                o,
                                world,
                                rest[j],
                                height,
                            )
                    };
                assert(inputs[k + 1] == rest[k]);
                assert(maturity_fault(answers, o, first, inputs[k + 1], height, e));
                assert forall|j: int|
                    0 <= j < k + 1 && (#[trigger] inputs[j]).coinbase implies has_matured(
                    answers,
                    o,
                    first,
                    inputs[j],
                    height,
                ) by {
                    if j > 0 {
                        assert(has_matured(answers, o, world, rest[j - 1], height));
                    }
                }
            },
        }
    }
    lemma_when_both(
        maturity_program(o, rest, height),
        world,
        answers.given(),
        more,
        more,
        post,
    );
}

proof fn lemma_mature_hash(
    answers: Answers,
    o: Overlay,
    inputs: Seq<Input>,
    height: u64,
    header: BlockHeader,
    pos: u64,
    first: World,
    world: World,
)
    requires
        inputs.len() > 0,
        inputs[0].coinbase,
        same_but_log(first, world),
        (answers.header)(inputs[0].block_hash) == Ok::<BlockHeader, StoreError>(header),
        known(o, first.index, inputs[0].commit) == Some(pos),
    ensures
        keeps_when(
            maturity_hash(o, inputs, height, header, pos),
            world,
            answers.given(),
            maturity_decides(answers, o, inputs, height, first),
        ),
    decreases inputs.len(), 0nat,
{
    let post = maturity_decides(answers, o, inputs, height, first);
    let program = maturity_hash(o, inputs, height, header, pos);
    assert forall|reply: Reply, after: World| #[trigger]
        world.allows(program->Ask_0, reply, after) && program->Ask_1.met_by(reply) && (
        answers.given())(world, program->Ask_0, reply) implies keeps_when(
        (program->Ask_2)(reply),
        after,
        answers.given(),
        post,
    ) by {
        lemma_grows(first, world, program->Ask_0, after);
        match reply->MaybeHash_0 {
            Some(hash) => {
                let program = maturity_verify(o, inputs, height, header, hash);
                assert forall|reply: Reply, last: World| #[trigger]
                    after.allows(program->Ask_0, reply, last) && program->Ask_1.met_by(reply) && (
                    answers.given())(after, program->Ask_0, reply) implies keeps_when(
                    (program->Ask_2)(reply),
                    last,
                    answers.given(),
                    post,
                ) by {
                    lemma_grows(first, after, program->Ask_0, last);
                    let said = (answers.maturity)(inputs[0], hash, header, height);
                    assert(said == reply->Done_0);
                    assert(first.hash_in(first.trees.output, pos) == world.hash_in(
                        world.trees.output,
                        pos,
                    ));
                    assert(header == (answers.header)(inputs[0].block_hash)->Ok_0);
                    assert(maturity_said(answers, o, first, inputs[0], height, said));
                    match reply->Done_0 {
                        Ok(unit) => {
                            assert(unit == ());
                            law_maturity_decides(
                                answers,
                                o,
                                inputs.drop_first(),
                                height,
                                last,
                            );
                            lemma_mature_more(answers, o, inputs, height, first, last);
                        },
                        Err(text) => {
                            assert(maturity_fault(
                                answers,
                                o,
                                first,
                                inputs[0],
                                height,
                                Error::Rejected(text),
                            ));
                        },
                    }
                }
            },
            None => {
                assert(maturity_fault(
                    answers,
                    o,
                    first,
                    inputs[0],
                    height,
                    Error::OutputNotFound,
                ));
            },
        }
    }
}

/// Where it is settled what has matured, the verification succeeds only if what
/// every input spends that spends a coinbase output has matured, judged by the
/// header of the block that the input names and the hash at the position known
/// for its commitment. Otherwise it fails because of the first input of which
/// that cannot be said, and if that is immature, with what is said of it.
pub proof fn law_maturity_decides(
    answers: Answers,
    o: Overlay,
    inputs: Seq<Input>,
    height: u64,
    world: World,
)
    ensures
        keeps_when(
            maturity_program(o, inputs, height),
            world,
            answers.given(),
            maturity_decides(answers, o, inputs, height, world),
        ),
    decreases inputs.len(), 1nat,
{
    let post = maturity_decides(answers, o, inputs, height, world);
    lemma_starts(world);
    if inputs.len() > 0 {
        if inputs[0].coinbase {
            let program = maturity_header(o, inputs, height);
            assert forall|reply: Reply, after: World| #[trigger]
                world.allows(program->Ask_0, reply, after) && program->Ask_1.met_by(reply) && (
                answers.given())(world, program->Ask_0, reply) implies keeps_when(
                (program->Ask_2)(reply),
                after,
                answers.given(),
                post,
            ) by {
                lemma_grows(world, world, program->Ask_0, after);
                match reply->Header_0 {
                    Ok(header) => match o.commits.get(inputs[0].commit) {
                        Some(pos) => lemma_mature_hash(
                            answers,
                            o,
                            inputs,
                            height,
                            header,
                            pos,
                            world,
                            after,
                        ),
                        None => {
                            let program = maturity_pos(o, inputs, height, header);
                            assert forall|reply: Reply, now: World| #[trigger]
                                after.allows(program->Ask_0, reply, now) && program->Ask_1.met_by(
                                    reply,
                                ) && (answers.given())(
                                    after,
                                    program->Ask_0,
                                    reply,
                                ) implies keeps_when(
                                (program->Ask_2)(reply),
                                now,
                                answers.given(),
                                post,
                            ) by {
                                lemma_grows(world, after, program->Ask_0, now);
                                match reply->Pos_0 {
                                    Ok(pos) => lemma_mature_hash(
                                        answers,
                                        o,
                                        inputs,
                                        height,
                                        header,
                                        pos,
                                        world,
                                        now,
                                    ),
                                    Err(e) => {
                                        assert(maturity_fault(
                                            answers,
                                            o,
                                            world,
                                            inputs[0],
                                            height,
                                            Error::Store(e),
                                        ));
                                    },
                                }
                            }
                        },
                    },
                    Err(e) => {
                        assert(maturity_fault(
                            answers,
                            o,
                            world,
                            inputs[0],
                            height,
                            Error::Store(e),
                        ));
                    },
                }
            }
        } else {
            law_maturity_decides(answers, o, inputs.drop_first(), height, world);
            lemma_mature_more(answers, o, inputs, height, world, world);
        }
    }
}

/// The verification of maturity ends at the first reply that tells of a failure:
/// a header or a position that is not found, an output without a hash, or an
/// output that has not matured.
pub proof fn law_maturity_heeds_failures(o: Overlay, inputs: Seq<Input>, height: u64)
    ensures
        heeds(
            maturity_program(o, inputs, height),
            failures_and_absent_outputs(),
            ends_with(),
            succeeds(),
        ),
    decreases inputs.len(),
{
    if inputs.len() > 0 {
        law_maturity_heeds_failures(o, inputs.drop_first(), height);
        if inputs[0].coinbase {
            let blame = failures_and_absent_outputs();
            let program = maturity_header(o, inputs, height);
            let rest = program->Ask_2;
            assert forall|reply: Reply|
                #![trigger rest(reply)]
                reply.kind() == program->Ask_0.kind() implies (match blame(program->Ask_0, reply) {
                Some(e) => rest(reply) is Ret && ends_with::<()>()(e, rest(reply)->Ret_0),
                None => heeds(rest(reply), blame, ends_with(), succeeds()),
            }) by {
                if let Ok(header) = reply->Header_0 {
                    match o.commits.get(inputs[0].commit) {
                        Some(pos) => lemma_mature_heeds(o, inputs, height, header, pos),
                        None => {
                            let program = maturity_pos(o, inputs, height, header);
                            let rest = program->Ask_2;
                            assert forall|reply: Reply|
                                #![trigger rest(reply)]
                                reply.kind() == program->Ask_0.kind() implies (match blame(
                                program->Ask_0,
                                reply,
                            ) {
                                Some(e) => rest(reply) is Ret && ends_with::<()>()(
                                    e,
                                    rest(reply)->Ret_0,
                                ),
                                None => heeds(rest(reply), blame, ends_with(), succeeds()),
                            }) by {
                                if let Ok(pos) = reply->Pos_0 {
                                    lemma_mature_heeds(o, inputs, height, header, pos);
                                }
                            }
                        },
                    }
                }
            }
        }
    }
}

proof fn lemma_mature_heeds(
    o: Overlay,
    inputs: Seq<Input>,
    height: u64,
    header: BlockHeader,
    pos: u64,
)
    requires
        inputs.len() > 0,
        heeds(
            maturity_program(o, inputs.drop_first(), height),
            failures_and_absent_outputs(),
            ends_with(),
            succeeds(),
        ),
    ensures
        heeds(
            maturity_hash(o, inputs, height, header, pos),
            failures_and_absent_outputs(),
            ends_with(),
            succeeds(),
        ),
{
    let blame = failures_and_absent_outputs();
    let program = maturity_hash(o, inputs, height, header, pos);
    let rest = program->Ask_2;
    assert forall|reply: Reply|
        #![trigger rest(reply)]
        reply.kind() == program->Ask_0.kind() implies (match blame(program->Ask_0, reply) {
        Some(e) => rest(reply) is Ret && ends_with::<()>()(e, rest(reply)->Ret_0),
        None => heeds(rest(reply), blame, ends_with(), succeeds()),
    }) by {
        if let Some(hash) = reply->MaybeHash_0 {
            let program = maturity_verify(o, inputs, height, header, hash);
            let rest = program->Ask_2;
            assert forall|reply: Reply|
                #![trigger rest(reply)]
                reply.kind() == program->Ask_0.kind() implies (match blame(
                program->Ask_0,
                reply,
            ) {
                Some(e) => rest(reply) is Ret && ends_with::<()>()(e, rest(reply)->Ret_0),
                None => heeds(rest(reply), blame, ends_with(), succeeds()),
            }) by {}
        }
    }
}

} // verus!
