//! A state that validates was verified in full.
use crate::extend_laws::lemma_script;
use crate::extension::Overlay;
use crate::leaf_laws::{
    collects_all, commitments_up_to, law_all_commitments_are_collected, lemma_grows, lemma_starts,
};
use crate::leaves::{commitments_program, Committer};
use crate::maturity::{
    maturity_hash, maturity_header, maturity_pos, maturity_program, maturity_verify,
};
use crate::pmmr::leaf_at;
use crate::program::{bind, Call, Reply};
use crate::rangeproofs::{
    rangeproofs_check, rangeproofs_from, rangeproofs_next, rangeproofs_program, rangeproofs_read,
};
use crate::script::{script_program, tree_calls, Fault, TreeCall};
use crate::signatures::{
    signatures_check, signatures_from, signatures_next, signatures_program,
};
use crate::types::{BlockHeader, Commitment, Error, Hash256, Input, Tree, TxHashSetRoots};
use crate::validation::{
    after_kernels, after_mmrs, after_outputs, after_rangeproofs, after_roots, after_signatures,
    compare_roots, roots_program, roots_with_output, roots_with_rproof, validate_program,
    validate_roots_program, verify_sums, zero_sums,
};
use crate::world::{
    keeps, lemma_keeps_bind, lemma_keeps_less, lemma_same_but_log, same_but_log, Element, Trees,
    World,
};
use vstd::prelude::*;

verus! {

/// A request was made.
pub open spec fn asked(log: Seq<Call>, call: Call) -> bool {
    exists|i: int| 0 <= i < log.len() && #[trigger] log[i] == call
}

pub proof fn lemma_asked(world: World, after: World)
    requires
        same_but_log(world, after),
    ensures
        forall|call: Call| asked(world.log, call) ==> #[trigger] asked(after.log, call),
{
    assert forall|call: Call| asked(world.log, call) implies #[trigger] asked(after.log, call) by {
        let i = choose|i: int| 0 <= i < world.log.len() && #[trigger] world.log[i] == call;
        assert(after.log.take(world.log.len() as int)[i] == after.log[i]);
    }
}

/// The verification of the signatures of all kernels at leaves among the first
/// `n` positions was asked for.
pub open spec fn kernels_verified(trees: Trees, log: Seq<Call>, n: nat) -> bool {
    forall|pos: u64|
        1 <= pos <= n && leaf_at(pos as nat) ==> match #[trigger] trees.kernel.element(pos) {
            Some(Element::Kernel(kernel)) => asked(log, Call::VerifyKernel(kernel)),
            _ => true,
        }
}

/// All outputs at leaves among the first `n` positions have range proofs, whose
/// verification was asked for.
pub open spec fn rangeproofs_verified(trees: Trees, log: Seq<Call>, n: nat) -> bool {
    forall|pos: u64|
        1 <= pos <= n && leaf_at(pos as nat) ==> match #[trigger] trees.output.element(pos) {
            Some(Element::Output(id)) => match trees.rproof.element(pos) {
                Some(Element::Proof(proof)) => asked(log, Call::VerifyProof(id, proof)),
                _ => false,
            },
            _ => true,
        }
}

// ---- signatures

spec fn signed(first: World) -> spec_fn(Result<(), Error>, World) -> bool {
    |verdict: Result<(), Error>, after: World|
        {
            &&& same_but_log(first, after)
            &&& verdict is Ok ==> kernels_verified(
                first.trees,
                after.log,
                first.trees.kernel.size as nat,
            )
        }
}

proof fn lemma_signatures_next(first: World, world: World, n: nat, count: nat)
    requires
        same_but_log(first, world),
        1 <= n <= first.trees.kernel.size,
        kernels_verified(first.trees, world.log, n),
    ensures
        keeps(signatures_next(n, first.trees.kernel.size, count), world, signed(first)),
    decreases first.trees.kernel.size + 1 - n, 0nat,
{
    let size = first.trees.kernel.size;
    if n % 20 == 0 {
        let program = signatures_next(n, size, count);
        assert forall|reply: Reply, after: World| #[trigger]
            world.allows(program->Ask_0, reply, after) && program->Ask_1.met_by(
                reply,
            ) implies keeps((program->Ask_2)(reply), after, signed(first)) by {
            lemma_grows(first, world, program->Ask_0, after);
            lemma_starts(world);
            lemma_grows(world, world, program->Ask_0, after);
            lemma_asked(world, after);
            lemma_signatures_from(first, after, n + 1, count);
        }
    } else {
        lemma_signatures_from(first, world, n + 1, count);
    }
}

proof fn lemma_signatures_from(first: World, world: World, n: nat, count: nat)
    requires
        same_but_log(first, world),
        1 <= n <= first.trees.kernel.size + 1,
        kernels_verified(first.trees, world.log, (n - 1) as nat),
    ensures
        keeps(signatures_from(n, first.trees.kernel.size, count), world, signed(first)),
    decreases first.trees.kernel.size + 1 - n, 1nat,
{
    let size = first.trees.kernel.size;
    let post = signed(first);
    if n <= size {
        if leaf_at(n) {
            let program = signatures_from(n, size, count);
            assert forall|reply: Reply, after: World| #[trigger]
                world.allows(program->Ask_0, reply, after) && program->Ask_1.met_by(
                    reply,
                ) implies keeps((program->Ask_2)(reply), after, post) by {
                lemma_grows(first, world, program->Ask_0, after);
                lemma_starts(world);
                lemma_grows(world, world, program->Ask_0, after);
                lemma_asked(world, after);
                match reply->MaybeKernel_0 {
                    Some(kernel) => {
                        let program = signatures_check(n, size, count, kernel);
                        assert forall|reply: Reply, last: World| #[trigger]
                            after.allows(program->Ask_0, reply, last) && program->Ask_1.met_by(
                                reply,
                            ) implies keeps((program->Ask_2)(reply), last, post) by {
                            lemma_grows(first, after, program->Ask_0, last);
                            lemma_starts(after);
                            lemma_grows(after, after, program->Ask_0, last);
                            lemma_asked(after, last);
                            assert(last.log[last.log.len() - 1] == Call::VerifyKernel(kernel));
                            if reply->Done_0 is Ok {
                                lemma_signatures_next(first, last, n, count + 1);
                            }
                        }
                    },
                    None => lemma_signatures_next(first, after, n, count),
                }
            }
        } else {
            lemma_signatures_next(first, world, n, count);
        }
    }
}

proof fn lemma_signatures(first: World, world: World)
    requires
        same_but_log(first, world),
    ensures
        keeps(signatures_program(), world, signed(first)),
{
    let program = signatures_program();
    assert forall|reply: Reply, after: World| #[trigger]
        world.allows(program->Ask_0, reply, after) && program->Ask_1.met_by(reply) implies keeps(
        (program->Ask_2)(reply),
        after,
        signed(first),
    ) by {
        lemma_grows(first, world, program->Ask_0, after);
        lemma_signatures_from(first, after, 1, 0);
    }
}

// ---- range proofs

spec fn proved(first: World) -> spec_fn(Result<(), Error>, World) -> bool {
    |verdict: Result<(), Error>, after: World|
        {
            &&& same_but_log(first, after)
            &&& verdict is Ok ==> rangeproofs_verified(
                first.trees,
                after.log,
                first.trees.output.size as nat,
            )
        }
}

proof fn lemma_rangeproofs_next(first: World, world: World, n: nat, count: nat)
    requires
        same_but_log(first, world),
        1 <= n <= first.trees.output.size,
        rangeproofs_verified(first.trees, world.log, n),
    ensures
        keeps(rangeproofs_next(n, first.trees.output.size, count), world, proved(first)),
    decreases first.trees.output.size + 1 - n, 0nat,
{
    let size = first.trees.output.size;
    if n % 20 == 0 {
        let program = rangeproofs_next(n, size, count);
        assert forall|reply: Reply, after: World| #[trigger]
            world.allows(program->Ask_0, reply, after) && program->Ask_1.met_by(
                reply,
            ) implies keeps((program->Ask_2)(reply), after, proved(first)) by {
            lemma_grows(first, world, program->Ask_0, after);
            lemma_starts(world);
            lemma_grows(world, world, program->Ask_0, after);
            lemma_asked(world, after);
            lemma_rangeproofs_from(first, after, n + 1, count);
        }
    } else {
        lemma_rangeproofs_from(first, world, n + 1, count);
    }
}

proof fn lemma_rangeproofs_from(first: World, world: World, n: nat, count: nat)
    requires
        same_but_log(first, world),
        1 <= n <= first.trees.output.size + 1,
        rangeproofs_verified(first.trees, world.log, (n - 1) as nat),
    ensures
        keeps(rangeproofs_from(n, first.trees.output.size, count), world, proved(first)),
    decreases first.trees.output.size + 1 - n, 1nat,
{
    let size = first.trees.output.size;
    let post = proved(first);
    if n <= size {
        if leaf_at(n) {
            let program = rangeproofs_from(n, size, count);
            assert forall|reply: Reply, after: World| #[trigger]
                world.allows(program->Ask_0, reply, after) && program->Ask_1.met_by(
                    reply,
                ) implies keeps((program->Ask_2)(reply), after, post) by {
                lemma_grows(first, world, program->Ask_0, after);
                lemma_starts(world);
                lemma_grows(world, world, program->Ask_0, after);
                lemma_asked(world, after);
                match reply->MaybeOutput_0 {
                    Some(id) => {
                        let program = rangeproofs_read(n, size, count, id);
                        assert forall|reply: Reply, now: World| #[trigger]
                            after.allows(program->Ask_0, reply, now) && program->Ask_1.met_by(
                                reply,
                            ) implies keeps((program->Ask_2)(reply), now, post) by {
                            lemma_grows(first, after, program->Ask_0, now);
                            lemma_starts(after);
                            lemma_grows(after, after, program->Ask_0, now);
                            lemma_asked(after, now);
                            if let Some(rproof) = reply->MaybeProof_0 {
                                let program = rangeproofs_check(n, size, count, id, rproof);
                                assert forall|reply: Reply, last: World| #[trigger]
                                    now.allows(program->Ask_0, reply, last)
                                        && program->Ask_1.met_by(reply) implies keeps(
                                    (program->Ask_2)(reply),
                                    last,
                                    post,
                                ) by {
                                    lemma_grows(first, now, program->Ask_0, last);
                                    lemma_starts(now);
                                    lemma_grows(now, now, program->Ask_0, last);
                                    lemma_asked(now, last);
                                    assert(last.log[last.log.len() - 1] == Call::VerifyProof(
                                        id,
                                        rproof,
                                    ));
                                    if reply->Done_0 is Ok {
                                        lemma_rangeproofs_next(first, last, n, count + 1);
                                    }
                                }
                            }
                        }
                    },
                    None => lemma_rangeproofs_next(first, after, n, count),
                }
            }
        } else {
            lemma_rangeproofs_next(first, world, n, count);
        }
    }
}

proof fn lemma_rangeproofs(first: World, world: World)
    requires
        same_but_log(first, world),
    ensures
        keeps(rangeproofs_program(), world, proved(first)),
{
    let program = rangeproofs_program();
    assert forall|reply: Reply, after: World| #[trigger]
        world.allows(program->Ask_0, reply, after) && program->Ask_1.met_by(reply) implies keeps(
        (program->Ask_2)(reply),
        after,
        proved(first),
    ) by {
        lemma_grows(first, world, program->Ask_0, after);
        lemma_rangeproofs_from(first, after, 1, 0);
    }
}

// ---- everything

/// Nothing but the log changed.
spec fn untouched<T>(first: World) -> spec_fn(T, World) -> bool {
    |out: T, after: World| same_but_log(first, after)
}

proof fn lemma_mmrs(first: World, world: World, calls: Seq<Call>)
    requires
        same_but_log(first, world),
        forall|i: int| 0 <= i < calls.len() ==> #[trigger] calls[i] is Validate,
    ensures
        keeps(
            script_program(calls, Fault::Invalid),
            world,
            untouched::<Result<(), Error>>(first),
        ),
    decreases calls.len(),
{
    if calls.len() > 0 {
        let later = calls.drop_first();
        let post = untouched::<Result<(), Error>>(first);
        assert(calls[0] is Validate);
        assert forall|reply: Reply, after: World| #[trigger]
            world.allows(calls[0], reply, after) implies (match Fault::Invalid.judge(reply) {
            Ok(_) => keeps(script_program(later, Fault::Invalid), after, post),
            Err(e) => post(Err(e), after),
        }) by {
            lemma_grows(first, world, calls[0], after);
            assert forall|i: int| 0 <= i < later.len() implies #[trigger] later[i] is Validate by {
                assert(later[i] == calls[i + 1]);
            }
            lemma_mmrs(first, after, later);
        }
        lemma_script(calls, Fault::Invalid, world, post);
    }
}

/// The trees have the roots that a header has.
pub open spec fn roots_match(header: BlockHeader, world: World) -> bool {
    &&& (world.root_of)(Tree::Output, world.trees.output) == header.output_root
    &&& (world.root_of)(Tree::RangeProof, world.trees.rproof) == header.range_proof_root
    &&& (world.root_of)(Tree::Kernel, world.trees.kernel) == header.kernel_root
}

/// The roots were compared with those of a header, unless it is that of the
/// genesis block, and nothing but the log changed.
pub open spec fn roots_compared(header: BlockHeader, first: World) -> spec_fn(
    Result<(), Error>,
    World,
) -> bool {
    |verdict: Result<(), Error>, after: World|
        {
            &&& same_but_log(first, after)
            &&& header.height == 0 ==> verdict is Ok
            &&& header.height != 0 ==> verdict == (if roots_match(header, first) {
                Ok(())
            } else {
                Err(Error::InvalidRoot)
            })
        }
}

proof fn lemma_roots(first: World, world: World, header: BlockHeader)
    requires
        same_but_log(first, world),
    ensures
        keeps(validate_roots_program(header), world, roots_compared(header, first)),
{
    if header.height != 0 {
        let middle = |roots: TxHashSetRoots, after: World|
            {
                &&& same_but_log(first, after)
                &&& roots == (TxHashSetRoots {
                    output_root: (first.root_of)(Tree::Output, first.trees.output),
                    rproof_root: (first.root_of)(Tree::RangeProof, first.trees.rproof),
                    kernel_root: (first.root_of)(Tree::Kernel, first.trees.kernel),
                })
            };
        let program = roots_program();
        assert forall|reply: Reply, after: World| #[trigger]
            world.allows(program->Ask_0, reply, after) && program->Ask_1.met_by(
                reply,
            ) implies keeps((program->Ask_2)(reply), after, middle) by {
            lemma_grows(first, world, program->Ask_0, after);
            let output_root = reply->Digest_0;
            let program = roots_with_output(output_root);
            assert forall|reply: Reply, now: World| #[trigger]
                after.allows(program->Ask_0, reply, now) && program->Ask_1.met_by(
                    reply,
                ) implies keeps((program->Ask_2)(reply), now, middle) by {
                lemma_grows(first, after, program->Ask_0, now);
                let program = roots_with_rproof(output_root, reply->Digest_0);
                assert forall|reply: Reply, last: World| #[trigger]
                    now.allows(program->Ask_0, reply, last) && program->Ask_1.met_by(
                        reply,
                    ) implies keeps((program->Ask_2)(reply), last, middle) by {
                    lemma_grows(first, now, program->Ask_0, last);
                }
            }
        }
        lemma_keeps_bind(
            program,
            compare_roots(header),
            world,
            middle,
            roots_compared(header, first),
        );
    }
}

/// The roots are accepted exactly if they are those of the header, or the header
/// is that of the genesis block.
pub proof fn law_roots_are_compared(header: BlockHeader, world: World)
    ensures
        keeps(validate_roots_program(header), world, roots_compared(header, world)),
{
    lemma_starts(world);
    lemma_roots(world, world, header);
}

/// The commitments at all leaves of a tree.
pub open spec fn all_commitments(of: Committer, trees: Trees) -> Seq<Commitment> {
    let tree = trees.get(of.tree());
    commitments_up_to(of, tree, tree.size as nat)
}

/// What holds after a successful validation, unless it was about the genesis
/// block: the trees have the roots of the header, and it was verified that the
/// excesses of all kernels sum to all unspent outputs, the signatures of all
/// kernels, and, unless they were skipped, the range proofs of all unspent
/// outputs. Nothing but the log changed.
pub open spec fn verified_in_full(header: BlockHeader, skip_rproofs: bool, first: World) -> spec_fn(
    Result<(Commitment, Commitment), Error>,
    World,
) -> bool {
    |result: Result<(Commitment, Commitment), Error>, after: World|
        {
            &&& same_but_log(first, after)
            &&& result is Ok && header.height != 0 ==> {
                &&& roots_match(header, first)
                &&& asked(
                    after.log,
                    Call::KernelSums(
                        header.total_overage,
                        header.total_kernel_offset,
                        all_commitments(Committer::Outputs, first.trees),
                        all_commitments(Committer::Kernels, first.trees),
                    ),
                )
                &&& kernels_verified(first.trees, after.log, first.trees.kernel.size as nat)
                &&& !skip_rproofs ==> rangeproofs_verified(
                    first.trees,
                    after.log,
                    first.trees.output.size as nat,
                )
            }
        }
}

proof fn lemma_after_sums(
    header: BlockHeader,
    skip: bool,
    first: World,
    world: World,
    sums: (Commitment, Commitment),
)
    requires
        same_but_log(first, world),
        roots_match(header, first),
        asked(
            world.log,
            Call::KernelSums(
                header.total_overage,
                header.total_kernel_offset,
                all_commitments(Committer::Outputs, first.trees),
                all_commitments(Committer::Kernels, first.trees),
            ),
        ),
    ensures
        keeps(
            bind(signatures_program(), after_signatures(skip, sums)),
            world,
            verified_in_full(header, skip, first),
        ),
{
    let post = verified_in_full(header, skip, first);
    lemma_starts(world);
    lemma_signatures(world, world);
    assert forall|verdict: Result<(), Error>, after: World| #[trigger]
        signed(world)(verdict, after) implies keeps(
        after_signatures(skip, sums)(verdict),
        after,
        post,
    ) by {
        lemma_same_but_log(first, world, after);
        lemma_asked(world, after);
        if verdict is Ok && !skip {
            lemma_starts(after);
            lemma_rangeproofs(after, after);
            assert forall|verdict: Result<(), Error>, last: World| #[trigger]
                proved(after)(verdict, last) implies keeps(
                after_rangeproofs(sums)(verdict),
                last,
                post,
            ) by {
                lemma_same_but_log(first, after, last);
                lemma_asked(after, last);
            }
            lemma_keeps_bind(
                rangeproofs_program(),
                after_rangeproofs(sums),
                after,
                proved(after),
                post,
            );
        }
    }
    lemma_keeps_bind(
        signatures_program(),
        after_signatures(skip, sums),
        world,
        signed(world),
        post,
    );
}

proof fn lemma_sums(header: BlockHeader, skip: bool, first: World, world: World)
    requires
        same_but_log(first, world),
        roots_match(header, first),
    ensures
        keeps(
            bind(
                commitments_program(Committer::Outputs),
                after_outputs(header, skip),
            ),
            world,
            verified_in_full(header, skip, first),
        ),
{
    let post = verified_in_full(header, skip, first);
    law_all_commitments_are_collected(Committer::Outputs, world);
    let middle = collects_all(Committer::Outputs, world);
    assert forall|outputs: Seq<Commitment>, after: World| #[trigger]
        middle(outputs, after) implies keeps(
        after_outputs(header, skip)(outputs),
        after,
        post,
    ) by {
        lemma_same_but_log(first, world, after);
        law_all_commitments_are_collected(Committer::Kernels, after);
        let middle = collects_all(Committer::Kernels, after);
        let rest = after_kernels(header, skip, outputs);
        assert forall|kernels: Seq<Commitment>, now: World| #[trigger]
            middle(kernels, now) implies keeps(rest(kernels), now, post) by {
            lemma_same_but_log(first, after, now);
            let program = verify_sums(header, skip, outputs, kernels);
            assert forall|reply: Reply, last: World| #[trigger]
                now.allows(program->Ask_0, reply, last) && program->Ask_1.met_by(
                    reply,
                ) implies keeps((program->Ask_2)(reply), last, post) by {
                lemma_grows(first, now, program->Ask_0, last);
                assert(last.log[last.log.len() - 1] == program->Ask_0);
                if let Ok(sums) = reply->Sums_0 {
                    lemma_after_sums(header, skip, first, last, sums);
                }
            }
        }
        lemma_keeps_bind(commitments_program(Committer::Kernels), rest, after, middle, post);
    }
    lemma_keeps_bind(
        commitments_program(Committer::Outputs),
        after_outputs(header, skip),
        world,
        middle,
        post,
    );
}

/// A state that validates against a header other than that of the genesis block
/// was verified in full.
pub proof fn law_valid_states_were_verified(
    header: BlockHeader,
    skip_rproofs: bool,
    world: World,
)
    ensures
        keeps(
            validate_program(header, skip_rproofs),
            world,
            verified_in_full(header, skip_rproofs, world),
        ),
{
    let post = verified_in_full(header, skip_rproofs, world);
    let calls = tree_calls(TreeCall::Validate);
    let middle = untouched::<Result<(), Error>>(world);
    lemma_starts(world);
    lemma_mmrs(world, world, calls);
    assert forall|verdict: Result<(), Error>, after: World| #[trigger]
        middle(verdict, after) implies keeps(
        after_mmrs(header, skip_rproofs)(verdict),
        after,
        post,
    ) by {
        if verdict is Ok {
            lemma_roots(world, after, header);
            let rest = after_roots(header, skip_rproofs);
            let compared = roots_compared(header, world);
            assert forall|verdict: Result<(), Error>, now: World| #[trigger]
                compared(verdict, now) implies keeps(rest(verdict), now, post) by {
                if verdict is Ok {
                    if header.height == 0 {
                        let program = zero_sums();
                        assert forall|reply: Reply, last: World| #[trigger]
                            now.allows(program->Ask_0, reply, last) && program->Ask_1.met_by(
                                reply,
                            ) implies keeps((program->Ask_2)(reply), last, post) by {
                            lemma_grows(world, now, program->Ask_0, last);
                        }
                    } else {
                        lemma_sums(header, skip_rproofs, world, now);
                    }
                }
            }
            lemma_keeps_bind(validate_roots_program(header), rest, after, compared, post);
        }
    }
    lemma_keeps_bind(
        script_program(calls, Fault::Invalid),
        after_mmrs(header, skip_rproofs),
        world,
        middle,
        post,
    );
}

// ---- maturity

/// It was asked whether what an input spends has matured at a height.
pub open spec fn maturity_asked(log: Seq<Call>, input: Input, height: u64) -> bool {
    exists|hash: Hash256, header: BlockHeader| #[trigger]
        asked(log, Call::VerifyMaturity(input, hash, header, height))
}

/// If the verification succeeds, it was asked of every input that spends a
/// coinbase output whether that has matured, and nothing but the log changed.
pub open spec fn all_matured(inputs: Seq<Input>, height: u64, first: World) -> spec_fn(
    Result<(), Error>,
    World,
) -> bool {
    |verdict: Result<(), Error>, after: World|
        {
            &&& same_but_log(first, after)
            &&& verdict is Ok ==> forall|i: int|
                0 <= i < inputs.len() && (#[trigger] inputs[i]).coinbase ==> maturity_asked(
                    after.log,
                    inputs[i],
                    height,
                )
        }
}

proof fn lemma_matured_more(inputs: Seq<Input>, height: u64, first: World, world: World)
    requires
        inputs.len() > 0,
        same_but_log(first, world),
        inputs[0].coinbase ==> maturity_asked(world.log, inputs[0], height),
    ensures
        forall|verdict: Result<(), Error>, after: World| #[trigger]
            all_matured(inputs.drop_first(), height, world)(verdict, after) ==> all_matured(
                inputs,
                height,
                first,
            )(verdict, after),
{
    let rest = inputs.drop_first();
    assert forall|verdict: Result<(), Error>, after: World| #[trigger]
        all_matured(rest, height, world)(verdict, after) implies all_matured(
        inputs,
        height,
        first,
    )(verdict, after) by {
        lemma_same_but_log(first, world, after);
        lemma_asked(world, after);
        if verdict is Ok {
            assert forall|i: int|
                0 <= i < inputs.len() && (
                #[trigger] inputs[i]).coinbase implies maturity_asked(
                after.log,
                inputs[i],
                height,
            ) by {
                if i == 0 {
                    let (hash, header) = choose|hash: Hash256, header: BlockHeader| #[trigger]
                        asked(world.log, Call::VerifyMaturity(inputs[0], hash, header, height));
                    assert(asked(
                        after.log,
                        Call::VerifyMaturity(inputs[0], hash, header, height),
                    ));
                } else {
                    assert(rest[i - 1] == inputs[i]);
                }
            }
        }
    }
}

proof fn lemma_mature_hash(
    o: Overlay,
    inputs: Seq<Input>,
    height: u64,
    header: BlockHeader,
    pos: u64,
    first: World,
    world: World,
)
    requires
        inputs.len() > 0,
        same_but_log(first, world),
    ensures
        keeps(
            maturity_hash(o, inputs, height, header, pos),
            world,
            all_matured(inputs, height, first),
        ),
    decreases inputs.len(), 0nat,
{
    let post = all_matured(inputs, height, first);
    let program = maturity_hash(o, inputs, height, header, pos);
    assert forall|reply: Reply, after: World| #[trigger]
        world.allows(program->Ask_0, reply, after) && program->Ask_1.met_by(reply) implies keeps(
        (program->Ask_2)(reply),
        after,
        post,
    ) by {
        lemma_grows(first, world, program->Ask_0, after);
        if let Some(hash) = reply->MaybeHash_0 {
            let program = maturity_verify(o, inputs, height, header, hash);
            assert forall|reply: Reply, last: World| #[trigger]
                after.allows(program->Ask_0, reply, last) && program->Ask_1.met_by(
                    reply,
                ) implies keeps((program->Ask_2)(reply), last, post) by {
                lemma_grows(first, after, program->Ask_0, last);
                assert(last.log[last.log.len() - 1] == program->Ask_0);
                assert(asked(last.log, Call::VerifyMaturity(inputs[0], hash, header, height)));
                if reply->Done_0 is Ok {
                    let rest = inputs.drop_first();
                    law_maturity_is_verified(o, rest, height, last);
                    lemma_matured_more(inputs, height, first, last);
                    lemma_keeps_less(
                        maturity_program(o, rest, height),
                        last,
                        all_matured(rest, height, last),
                        post,
                    );
                }
            }
        }
    }
}

/// No coinbase output is spent without it being verified that it has matured.
pub proof fn law_maturity_is_verified(o: Overlay, inputs: Seq<Input>, height: u64, world: World)
    ensures
        keeps(
            maturity_program(o, inputs, height),
            world,
            all_matured(inputs, height, world),
        ),
    decreases inputs.len(), 1nat,
{
    let post = all_matured(inputs, height, world);
    lemma_starts(world);
    if inputs.len() > 0 {
        let rest = inputs.drop_first();
        if inputs[0].coinbase {
            let program = maturity_header(o, inputs, height);
            assert forall|reply: Reply, after: World| #[trigger]
                world.allows(program->Ask_0, reply, after) && program->Ask_1.met_by(
                    reply,
                ) implies keeps((program->Ask_2)(reply), after, post) by {
                lemma_grows(world, world, program->Ask_0, after);
                if let Ok(header) = reply->Header_0 {
                    match o.commits.get(inputs[0].commit) {
                        Some(pos) => lemma_mature_hash(
                            o,
                            inputs,
                            height,
                            header,
                            pos,
                            world,
                            after,
                        ),
                        None => {
                            let program = maturity_pos(o, inputs, height, header);
                            assert forall|reply: Reply, now: World| #[trigger]
                                after.allows(program->Ask_0, reply, now) && program->Ask_1.met_by(
                                    reply,
                                ) implies keeps((program->Ask_2)(reply), now, post) by {
                                lemma_grows(world, after, program->Ask_0, now);
                                if let Ok(pos) = reply->Pos_0 {
                                    lemma_mature_hash(
                                        o,
                                        inputs,
                                        height,
                                        header,
                                        pos,
                                        world,
                                        now,
                                    );
                                }
                            }
                        },
                    }
                }
            }
        } else {
            law_maturity_is_verified(o, rest, height, world);
            lemma_matured_more(inputs, height, world, world);
            lemma_keeps_less(
                maturity_program(o, rest, height),
                world,
                all_matured(rest, height, world),
                post,
            );
        }
    }
}

} // verus!
