//! What the validation of the whole state comes to.
use crate::courses::{
    failures_and_absent_proofs, heeds, keeps_when, lemma_heeds_bind, lemma_keeps_when,
    lemma_when_bind, lemma_when_both, Answers,
};
use crate::heed_laws::{always, ends_with, lemma_script_heeds, never, succeeds};
use crate::leaf_laws::{collects_all, law_all_commitments_are_collected, lemma_grows, lemma_starts};
use crate::leaves::{commitments_from, commitments_program, Committer};
use crate::pmmr::leaf_at;
use crate::program::{bind, Call, Reply};
use crate::rangeproofs::rangeproofs_program;
use crate::script::{script_program, tree_calls, Fault, TreeCall};
use crate::signatures::signatures_program;
use crate::types::{BlockHeader, Commitment, Error, Tree};
use crate::validation::{
    after_kernels, after_mmrs, after_outputs, after_rangeproofs, after_roots, after_signatures,
    compare_roots, roots_program, validate_program, validate_roots_program, verify_sums, zero_sums,
};
use crate::validation_laws::{all_commitments, law_roots_are_compared, roots_compared, roots_match};
use crate::verdict_laws::{
    decided_by, good_up_to, kernel_verdict, law_rangeproofs_decide, law_rangeproofs_heed_failures,
    law_signatures_decide, law_signatures_heed_failures, rangeproofs_decide, rproof_verdict,
    signatures_decide,
};
use crate::world::{lemma_same_but_log, same_but_log, Trees, World};
use vstd::prelude::*;

verus! {

// ---- failures

proof fn lemma_commitments_heed(of: Committer, n: nat, size: u64, found: Seq<Commitment>)
    ensures
        heeds(
            commitments_from(of, n, size, found),
            failures_and_absent_proofs(),
            never(),
            always(),
        ),
    decreases size + 1 - n,
{
    let blame = failures_and_absent_proofs();
    if n <= size {
        if leaf_at(n) {
            let program = commitments_from(of, n, size, found);
            let rest = program->Ask_2;
            assert forall|reply: Reply|
                #![trigger rest(reply)]
                reply.kind() == program->Ask_0.kind() implies blame(program->Ask_0, reply) is None
                && heeds(rest(reply), blame, never(), always()) by {
                match of.commitment(reply) {
                    Some(commit) => lemma_commitments_heed(of, n + 1, size, found.push(commit)),
                    None => lemma_commitments_heed(of, n + 1, size, found),
                }
            }
        } else {
            lemma_commitments_heed(of, n + 1, size, found);
        }
    }
}

proof fn lemma_all_commitments_heed(of: Committer)
    ensures
        heeds(commitments_program(of), failures_and_absent_proofs(), never(), always()),
{
    let program = commitments_program(of);
    let rest = program->Ask_2;
    assert forall|reply: Reply|
        #![trigger rest(reply)]
        reply.kind() == program->Ask_0.kind() && program->Ask_1.met_by(reply) implies heeds(
        rest(reply),
        failures_and_absent_proofs(),
        never(),
        always(),
    ) by {
        lemma_commitments_heed(of, 1, reply->Size_0, Seq::empty());
    }
}

/// What a validation may find of its own: the roots are not those of the header.
pub open spec fn validation_end<T>() -> spec_fn(Result<T, Error>) -> bool {
    |result: Result<T, Error>| result is Ok || result == Err::<T, Error>(Error::InvalidRoot)
}

/// A check of the roots fails only with the roots.
pub proof fn law_roots_heed_failures(header: BlockHeader)
    ensures
        heeds(
            validate_roots_program(header),
            failures_and_absent_proofs(),
            ends_with(),
            validation_end(),
        ),
{
    if header.height != 0 {
        assert(heeds(roots_program(), failures_and_absent_proofs(), never(), always())) by {
            reveal_with_fuel(heeds, 4);
        }
        lemma_heeds_bind(
            roots_program(),
            compare_roots(header),
            failures_and_absent_proofs(),
            never(),
            always(),
            ends_with(),
            validation_end(),
        );
    }
}

proof fn lemma_after_sums_heed(header: BlockHeader, skip: bool, sums: (Commitment, Commitment))
    ensures
        heeds(
            bind(signatures_program(), after_signatures(skip, sums)),
            failures_and_absent_proofs(),
            ends_with(),
            validation_end(),
        ),
{
    let blame = failures_and_absent_proofs();
    law_signatures_heed_failures();
    assert forall|verdict: Result<(), Error>| #[trigger] succeeds::<()>()(verdict) implies heeds(
        after_signatures(skip, sums)(verdict),
        blame,
        ends_with(),
        validation_end(),
    ) by {
        if !skip {
            law_rangeproofs_heed_failures();
            lemma_heeds_bind(
                rangeproofs_program(),
                after_rangeproofs(sums),
                blame,
                ends_with(),
                succeeds(),
                ends_with(),
                validation_end(),
            );
        }
    }
    lemma_heeds_bind(
        signatures_program(),
        after_signatures(skip, sums),
        blame,
        ends_with(),
        succeeds(),
        ends_with(),
        validation_end(),
    );
}

proof fn lemma_sums_heed(header: BlockHeader, skip: bool)
    ensures
        heeds(
            bind(commitments_program(Committer::Outputs), after_outputs(header, skip)),
            failures_and_absent_proofs(),
            ends_with(),
            validation_end(),
        ),
{
    let blame = failures_and_absent_proofs();
    lemma_all_commitments_heed(Committer::Outputs);
    lemma_all_commitments_heed(Committer::Kernels);
    assert forall|outputs: Seq<Commitment>| #[trigger]
        always::<Seq<Commitment>>()(outputs) implies heeds(
        after_outputs(header, skip)(outputs),
        blame,
        ends_with(),
        validation_end(),
    ) by {
        let rest = after_kernels(header, skip, outputs);
        assert forall|kernels: Seq<Commitment>| #[trigger]
            always::<Seq<Commitment>>()(kernels) implies heeds(
            rest(kernels),
            blame,
            ends_with(),
            validation_end(),
        ) by {
            let program = verify_sums(header, skip, outputs, kernels);
            let next = program->Ask_2;
            assert forall|reply: Reply|
                #![trigger next(reply)]
                reply.kind() == program->Ask_0.kind() implies (match blame(program->Ask_0, reply) {
                Some(e) => next(reply) is Ret && ends_with::<(Commitment, Commitment)>()(
                    e,
                    next(reply)->Ret_0,
                ),
                None => heeds(next(reply), blame, ends_with(), validation_end()),
            }) by {
                if let Ok(sums) = reply->Sums_0 {
                    lemma_after_sums_heed(header, skip, sums);
                }
            }
        }
        lemma_heeds_bind(
            commitments_program(Committer::Kernels),
            rest,
            blame,
            never(),
            always(),
            ends_with(),
            validation_end(),
        );
    }
    lemma_heeds_bind(
        commitments_program(Committer::Outputs),
        after_outputs(header, skip),
        blame,
        never(),
        always(),
        ends_with(),
        validation_end(),
    );
}

/// A validation ends at the first reply that tells of a failure, with that
/// failure. Of its own it finds only that the roots are wrong.
pub proof fn law_validation_heeds_failures(header: BlockHeader, skip_rproofs: bool)
    ensures
        heeds(
            validate_program(header, skip_rproofs),
            failures_and_absent_proofs(),
            ends_with(),
            validation_end(),
        ),
{
    let blame = failures_and_absent_proofs();
    let mmrs = script_program(tree_calls(TreeCall::Validate), Fault::Invalid);
    lemma_script_heeds(tree_calls(TreeCall::Validate), Fault::Invalid, blame);
    assert forall|verdict: Result<(), Error>| #[trigger] succeeds::<()>()(verdict) implies heeds(
        after_mmrs(header, skip_rproofs)(verdict),
        blame,
        ends_with(),
        validation_end(),
    ) by {
        let rest = after_roots(header, skip_rproofs);
        law_roots_heed_failures(header);
        assert forall|verdict: Result<(), Error>| #[trigger]
            validation_end::<()>()(verdict) implies heeds(
            rest(verdict),
            blame,
            ends_with(),
            validation_end(),
        ) by {
            if verdict is Ok {
                if header.height == 0 {
                    assert(heeds(zero_sums(), blame, ends_with(), validation_end())) by {
                        reveal_with_fuel(heeds, 2);
                    }
                } else {
                    lemma_sums_heed(header, skip_rproofs);
                }
            }
        }
        lemma_heeds_bind(
            validate_roots_program(header),
            rest,
            blame,
            ends_with(),
            validation_end(),
            ends_with(),
            validation_end(),
        );
    }
    lemma_heeds_bind(
        mmrs,
        after_mmrs(header, skip_rproofs),
        blame,
        ends_with(),
        succeeds(),
        ends_with(),
        validation_end(),
    );
}

// ---- decisions

/// The hashes of all three trees hold together.
pub open spec fn hashes_good(answers: Answers, trees: Trees) -> bool {
    forall|tree: Tree| (#[trigger] (answers.hashes)(tree, trees.get(tree))) is Ok
}

/// The hashes of a tree do not hold together.
pub open spec fn hashes_fault(answers: Answers, trees: Trees, e: Error) -> bool {
    exists|tree: Tree|
        match #[trigger] (answers.hashes)(tree, trees.get(tree)) {
            Ok(_) => false,
            Err(text) => e == Error::InvalidTxHashSet(text),
        }
}

/// What is said of the sums of all unspent outputs and of all kernels.
pub open spec fn sums_said(answers: Answers, header: BlockHeader, trees: Trees) -> Result<
    (Commitment, Commitment),
    String,
> {
    (answers.sums)(
        header.total_overage,
        header.total_kernel_offset,
        all_commitments(Committer::Outputs, trees),
        all_commitments(Committer::Kernels, trees),
    )
}

/// What a validation comes to. A state of the genesis block has sums of zero. Any
/// other is valid, with the sums that agree, exactly if the trees hold together
/// and have the roots of the header, the sums agree, all signatures verify, and,
/// unless they are skipped, all range proofs do. What is wrong first, in that
/// order, is what the validation fails with.
pub open spec fn validation_decides(
    answers: Answers,
    header: BlockHeader,
    skip_rproofs: bool,
    first: World,
) -> spec_fn(Result<(Commitment, Commitment), Error>, World) -> bool {
    |result: Result<(Commitment, Commitment), Error>, after: World|
        {
            let trees = first.trees;
            let kernels = |pos: u64| kernel_verdict(answers, trees, pos);
            let rproofs = |pos: u64| rproof_verdict(answers, trees, pos);
            let kernel_size = trees.kernel.size as nat;
            let output_size = trees.output.size as nat;
            &&& same_but_log(first, after)
            &&& match result {
                Ok(sums) => {
                    &&& hashes_good(answers, trees)
                    &&& header.height == 0 ==> sums == (answers.zero, answers.zero)
                    &&& header.height != 0 ==> {
                        &&& roots_match(header, first)
                        &&& sums_said(answers, header, trees) == Ok::<
                            (Commitment, Commitment),
                            String,
                        >(sums)
                        &&& good_up_to(kernels, kernel_size)
                        &&& skip_rproofs || good_up_to(rproofs, output_size)
                    }
                },
                Err(e) => hashes_fault(answers, trees, e) || {
                    &&& hashes_good(answers, trees)
                    &&& header.height != 0
                    &&& if !roots_match(header, first) {
                        e == Error::InvalidRoot
                    } else {
                        match sums_said(answers, header, trees) {
                            Err(text) => e == Error::Rejected(text),
                            Ok(_) => {
                                ||| decided_by(kernels, kernel_size, Err(e))
                                ||| good_up_to(kernels, kernel_size) && !skip_rproofs
                                    && decided_by(rproofs, output_size, Err(e))
                            },
                        }
                    }
                },
            }
        }
}

/// The checks of the trees from one on.
spec fn hashes_decide(answers: Answers, calls: Seq<Call>, first: World) -> spec_fn(
    Result<(), Error>,
    World,
) -> bool {
    |result: Result<(), Error>, after: World|
        {
            &&& same_but_log(first, after)
            &&& match result {
                Ok(_) => forall|i: int|
                    0 <= i < calls.len() ==> {
                        let tree = (#[trigger] calls[i])->Validate_0;
                        (answers.hashes)(tree, first.trees.get(tree)) is Ok
                    },
                Err(e) => hashes_fault(answers, first.trees, e),
            }
        }
}

proof fn lemma_hashes(answers: Answers, calls: Seq<Call>, first: World, world: World)
    requires
        same_but_log(first, world),
        forall|i: int| 0 <= i < calls.len() ==> #[trigger] calls[i] is Validate,
    ensures
        keeps_when(
            script_program(calls, Fault::Invalid),
            world,
            answers.given(),
            hashes_decide(answers, calls, first),
        ),
    decreases calls.len(),
{
    if calls.len() > 0 {
        let later = calls.drop_first();
        let post = hashes_decide(answers, calls, first);
        let program = script_program(calls, Fault::Invalid);
        assert(calls[0] is Validate);
        assert forall|i: int| 0 <= i < later.len() implies #[trigger] later[i] is Validate by {
            assert(later[i] == calls[i + 1]);
        }
        assert forall|reply: Reply, after: World| #[trigger]
            world.allows(program->Ask_0, reply, after) && program->Ask_1.met_by(reply) && (
            answers.given())(world, program->Ask_0, reply) implies keeps_when(
            (program->Ask_2)(reply),
            after,
            answers.given(),
            post,
        ) by {
            let tree = calls[0]->Validate_0;
            let said = (answers.hashes)(tree, first.trees.get(tree));
            lemma_grows(first, world, program->Ask_0, after);
            assert(reply->Done_0 == said);
            match Fault::Invalid.judge(reply) {
                Ok(_) => {
                    lemma_hashes(answers, later, first, after);
                    let more = hashes_decide(answers, later, first);
                    assert forall|result: Result<(), Error>, last: World| #[trigger]
                        more(result, last) implies post(result, last) by {
                        if result is Ok {
                            assert forall|i: int| 0 <= i < calls.len() implies {
                                let tree = (#[trigger] calls[i])->Validate_0;
                                (answers.hashes)(tree, first.trees.get(tree)) is Ok
                            } by {
                                if i > 0 {
                                    assert(later[i - 1] == calls[i]);
                                }
                            }
                        }
                    }
                    lemma_when_both(
                        script_program(later, Fault::Invalid),
                        after,
                        answers.given(),
                        more,
                        more,
                        post,
                    );
                },
                Err(e) => {
                    assert(hashes_fault(answers, first.trees, e));
                },
            }
        }
    }
}

proof fn lemma_after_sums_decide(
    answers: Answers,
    header: BlockHeader,
    skip: bool,
    first: World,
    world: World,
    sums: (Commitment, Commitment),
)
    requires
        same_but_log(first, world),
        header.height != 0,
        hashes_good(answers, first.trees),
        roots_match(header, first),
        sums_said(answers, header, first.trees) == Ok::<(Commitment, Commitment), String>(sums),
    ensures
        keeps_when(
            bind(signatures_program(), after_signatures(skip, sums)),
            world,
            answers.given(),
            validation_decides(answers, header, skip, first),
        ),
{
    let post = validation_decides(answers, header, skip, first);
    let course = answers.given();
    law_signatures_decide(answers, world);
    let middle = signatures_decide(answers, world);
    let rest = after_signatures(skip, sums);
    assert forall|verdict: Result<(), Error>, after: World| #[trigger]
        middle(verdict, after) implies keeps_when(rest(verdict), after, course, post) by {
        lemma_same_but_log(first, world, after);
        if verdict is Ok && !skip {
            law_rangeproofs_decide(answers, after);
            let middle = rangeproofs_decide(answers, after);
            assert forall|verdict: Result<(), Error>, last: World| #[trigger]
                middle(verdict, last) implies keeps_when(
                after_rangeproofs(sums)(verdict),
                last,
                course,
                post,
            ) by {
                lemma_same_but_log(first, after, last);
            }
            lemma_when_bind(
                rangeproofs_program(),
                after_rangeproofs(sums),
                after,
                course,
                middle,
                post,
            );
        }
    }
    lemma_when_bind(signatures_program(), rest, world, course, middle, post);
}

proof fn lemma_sums_decide(
    answers: Answers,
    header: BlockHeader,
    skip: bool,
    first: World,
    world: World,
)
    requires
        same_but_log(first, world),
        header.height != 0,
        hashes_good(answers, first.trees),
        roots_match(header, first),
    ensures
        keeps_when(
            bind(commitments_program(Committer::Outputs), after_outputs(header, skip)),
            world,
            answers.given(),
            validation_decides(answers, header, skip, first),
        ),
{
    let post = validation_decides(answers, header, skip, first);
    let course = answers.given();
    let middle = collects_all(Committer::Outputs, world);
    let outputs_rest = after_outputs(header, skip);
    law_all_commitments_are_collected(Committer::Outputs, world);
    lemma_keeps_when(commitments_program(Committer::Outputs), world, course, middle);
    assert forall|outputs: Seq<Commitment>, after: World| #[trigger]
        middle(outputs, after) implies keeps_when(
        outputs_rest(outputs),
        after,
        course,
        post,
    ) by {
        lemma_same_but_log(first, world, after);
        law_all_commitments_are_collected(Committer::Kernels, after);
        let middle = collects_all(Committer::Kernels, after);
        let rest = after_kernels(header, skip, outputs);
        lemma_keeps_when(commitments_program(Committer::Kernels), after, course, middle);
        assert forall|kernels: Seq<Commitment>, now: World| #[trigger]
            middle(kernels, now) implies keeps_when(rest(kernels), now, course, post) by {
            lemma_same_but_log(first, after, now);
            let program = verify_sums(header, skip, outputs, kernels);
            assert forall|reply: Reply, last: World| #[trigger]
                now.allows(program->Ask_0, reply, last) && program->Ask_1.met_by(reply) && course(
                    now,
                    program->Ask_0,
                    reply,
                ) implies keeps_when((program->Ask_2)(reply), last, course, post) by {
                lemma_grows(first, now, program->Ask_0, last);
                assert(reply->Sums_0 == sums_said(answers, header, first.trees));
                if let Ok(sums) = reply->Sums_0 {
                    lemma_after_sums_decide(answers, header, skip, first, last, sums);
                }
            }
        }
        lemma_when_bind(
            commitments_program(Committer::Kernels),
            rest,
            after,
            course,
            middle,
            post,
        );
    }
    lemma_when_bind(
        commitments_program(Committer::Outputs),
        outputs_rest,
        world,
        course,
        middle,
        post,
    );
}

/// Where it is settled what verifies, the validation of the whole state is
/// decided by that and by nothing else.
pub proof fn law_validation_decides(
    answers: Answers,
    header: BlockHeader,
    skip_rproofs: bool,
    world: World,
)
    ensures
        keeps_when(
            validate_program(header, skip_rproofs),
            world,
            answers.given(),
            validation_decides(answers, header, skip_rproofs, world),
        ),
{
    let post = validation_decides(answers, header, skip_rproofs, world);
    let course = answers.given();
    let calls = tree_calls(TreeCall::Validate);
    let middle = hashes_decide(answers, calls, world);
    let mmrs_rest = after_mmrs(header, skip_rproofs);
    lemma_starts(world);
    lemma_hashes(answers, calls, world, world);
    assert forall|verdict: Result<(), Error>, after: World| #[trigger]
        middle(verdict, after) implies keeps_when(mmrs_rest(verdict), after, course, post) by {
        if verdict is Ok {
            assert(calls[0]->Validate_0 == Tree::Output);
            assert(calls[1]->Validate_0 == Tree::RangeProof);
            assert(calls[2]->Validate_0 == Tree::Kernel);
            assert(hashes_good(answers, world.trees));
            let rest = after_roots(header, skip_rproofs);
            let compared = roots_compared(header, after);
            law_roots_are_compared(header, after);
            lemma_keeps_when(validate_roots_program(header), after, course, compared);
            assert forall|verdict: Result<(), Error>, now: World| #[trigger]
                compared(verdict, now) implies keeps_when(rest(verdict), now, course, post) by {
                lemma_same_but_log(world, after, now);
                assert(roots_match(header, after) == roots_match(header, world));
                if verdict is Ok {
                    if header.height == 0 {
                        let program = zero_sums();
                        assert forall|reply: Reply, last: World| #[trigger]
                            now.allows(program->Ask_0, reply, last) && program->Ask_1.met_by(
                                reply,
                            ) && course(now, program->Ask_0, reply) implies keeps_when(
                            (program->Ask_2)(reply),
                            last,
                            course,
                            post,
                        ) by {
                            lemma_grows(world, now, program->Ask_0, last);
                        }
                    } else {
                        lemma_sums_decide(answers, header, skip_rproofs, world, now);
                    }
                }
            }
            lemma_when_bind(validate_roots_program(header), rest, after, course, compared, post);
        }
    }
    lemma_when_bind(
        script_program(calls, Fault::Invalid),
        mmrs_rest,
        world,
        course,
        middle,
        post,
    );
}

} // verus!
