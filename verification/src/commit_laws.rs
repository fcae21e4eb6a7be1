//! What was committed is what is read, also after the trees are opened anew.
use crate::block_laws::alike;
use crate::extend_laws::{committed, law_successful_work_is_committed};
use crate::extending::extend_program;
use crate::extension::Extension;
use crate::leaf_laws::{lemma_grows, lemma_starts};
use crate::program::{Call, Reply};
use crate::query::query_program;
use crate::txhashset::{
    open_dir, open_dirs, open_files, open_program, open_rank, roots_at_kernel, roots_at_program,
    roots_at_rproof, tree_after, with_size,
};
use crate::types::{
    Error, Hash256, OutputIdentifier, RangeProof, Sizes, Tree, TxHashSetRoots,
};
use crate::validation::{roots_program, roots_with_output, roots_with_rproof};
use crate::world::{keeps, lemma_keeps_less, same_but_log, Element, Trees, World};
use vstd::prelude::*;

verus! {

// ---- roots

/// The roots of trees, in the order output, range proof, kernel.
pub open spec fn roots_in(world: World, trees: Trees) -> (Hash256, Hash256, Hash256) {
    (
        (world.root_of)(Tree::Output, trees.output),
        (world.root_of)(Tree::RangeProof, trees.rproof),
        (world.root_of)(Tree::Kernel, trees.kernel),
    )
}

/// The roots of the trees as the unit of work has left them were computed.
pub open spec fn sees_roots(first: World) -> spec_fn(TxHashSetRoots, World) -> bool {
    |roots: TxHashSetRoots, after: World|
        {
            &&& same_but_log(first, after)
            &&& (roots.output_root, roots.rproof_root, roots.kernel_root) == roots_in(
                first,
                first.trees,
            )
        }
}

/// Within a unit of work, the roots are those of the trees as it has left them.
pub proof fn law_work_sees_its_roots(world: World)
    ensures
        keeps(roots_program(), world, sees_roots(world)),
{
    let post = sees_roots(world);
    let program = roots_program();
    lemma_starts(world);
    assert forall|reply: Reply, after: World| #[trigger]
        world.allows(program->Ask_0, reply, after) && program->Ask_1.met_by(reply) implies keeps(
        (program->Ask_2)(reply),
        after,
        post,
    ) by {
        lemma_grows(world, world, program->Ask_0, after);
        let output_root = reply->Digest_0;
        let program = roots_with_output(output_root);
        assert forall|reply: Reply, now: World| #[trigger]
            after.allows(program->Ask_0, reply, now) && program->Ask_1.met_by(
                reply,
            ) implies keeps((program->Ask_2)(reply), now, post) by {
            lemma_grows(world, after, program->Ask_0, now);
            let program = roots_with_rproof(output_root, reply->Digest_0);
            assert forall|reply: Reply, last: World| #[trigger]
                now.allows(program->Ask_0, reply, last) && program->Ask_1.met_by(
                    reply,
                ) implies keeps((program->Ask_2)(reply), last, post) by {
                lemma_grows(world, now, program->Ask_0, last);
            }
        }
    }
}

/// How far the trees go in their files.
pub open spec fn file_sizes(world: World) -> Sizes {
    Sizes {
        output: world.files.output.size,
        rproof: world.files.rproof.size,
        kernel: world.files.kernel.size,
    }
}

/// The roots of given trees were computed.
pub open spec fn reads_roots(roots: (Hash256, Hash256, Hash256)) -> spec_fn(
    (Hash256, Hash256, Hash256),
    World,
) -> bool {
    |found: (Hash256, Hash256, Hash256), after: World| found == roots
}

/// Outside of units of work, the roots are those of the trees in their files.
pub proof fn law_roots_are_those_of_the_files(world: World)
    ensures
        keeps(
            roots_at_program(file_sizes(world)),
            world,
            reads_roots(roots_in(world, world.files)),
        ),
{
    let last = file_sizes(world);
    let post = reads_roots(roots_in(world, world.files));
    let program = roots_at_program(last);
    assert forall|reply: Reply, after: World| #[trigger]
        world.allows(program->Ask_0, reply, after) && program->Ask_1.met_by(reply) implies keeps(
        (program->Ask_2)(reply),
        after,
        post,
    ) by {
        let output = reply->Digest_0;
        let program = roots_at_rproof(last, output);
        assert forall|reply: Reply, now: World| #[trigger]
            after.allows(program->Ask_0, reply, now) && program->Ask_1.met_by(
                reply,
            ) implies keeps((program->Ask_2)(reply), now, post) by {
            let program = roots_at_kernel(last, output, reply->Digest_0);
            assert forall|reply: Reply, end: World| #[trigger]
                now.allows(program->Ask_0, reply, end) && program->Ask_1.met_by(
                    reply,
                ) implies keeps((program->Ask_2)(reply), end, post) by {}
        }
    }
}

/// After a commit, the roots are those that the unit of work saw.
pub open spec fn keeps_roots<T>(first: World) -> spec_fn((Sizes, Result<T, Error>), World) -> bool {
    |done: (Sizes, Result<T, Error>), after: World|
        done.1 is Ok ==> keeps(
            roots_at_program(done.0),
            after,
            reads_roots(roots_in(first, first.trees)),
        )
}

/// The roots seen within a unit of work are those of the trees after it was
/// committed.
pub proof fn law_roots_survive_the_commit<T>(
    last: Sizes,
    extension: Extension,
    result: Result<T, Error>,
    world: World,
)
    requires
        extension.valid(),
        result is Ok,
        !extension@.rollback,
    ensures
        keeps(
            extend_program(
                last,
                extension.commit_entries(),
                extension.marker_entries(),
                extension@.rollback,
                result,
            ),
            world,
            keeps_roots(world),
        ),
{
    let program = extend_program(
        last,
        extension.commit_entries(),
        extension.marker_entries(),
        extension@.rollback,
        result,
    );
    let more = committed(extension, result, world);
    let less = keeps_roots(world);
    law_successful_work_is_committed(last, extension, result, world);
    assert forall|done: (Sizes, Result<T, Error>), after: World| #[trigger]
        more(done, after) implies less(done, after) by {
        if done.1 is Ok {
            law_roots_are_those_of_the_files(after);
        }
    }
    lemma_keeps_less(program, world, more, less);
}

// ---- opening

/// What was opened is as far as the files go, and nothing but the log changed.
pub open spec fn opens_files(first: World) -> spec_fn(Result<Sizes, Error>, World) -> bool {
    |opened: Result<Sizes, Error>, after: World|
        {
            &&& same_but_log(first, after)
            &&& opened matches Ok(sizes) ==> sizes == file_sizes(first)
        }
}

/// The sizes of the trees before one were taken down.
spec fn opened_before(tree: Tree, sizes: Sizes, first: World) -> bool {
    match tree {
        Tree::Output => true,
        Tree::RangeProof => sizes.output == first.files.output.size,
        Tree::Kernel => sizes.output == first.files.output.size && sizes.rproof
            == first.files.rproof.size,
    }
}

proof fn lemma_open(tree: Tree, sizes: Sizes, first: World, world: World)
    requires
        same_but_log(first, world),
        opened_before(tree, sizes, first),
    ensures
        keeps(open_dir(tree, None, sizes), world, opens_files(first)),
    decreases open_rank(tree),
{
    let post = opens_files(first);
    let program = open_dir(tree, None, sizes);
    assert forall|reply: Reply, after: World| #[trigger]
        world.allows(program->Ask_0, reply, after) && program->Ask_1.met_by(reply) implies keeps(
        (program->Ask_2)(reply),
        after,
        post,
    ) by {
        lemma_grows(first, world, program->Ask_0, after);
        if reply->Done_0 is Ok {
            let program = open_files(tree, None, sizes);
            assert forall|reply: Reply, last: World| #[trigger]
                after.allows(program->Ask_0, reply, last) && program->Ask_1.met_by(
                    reply,
                ) implies keeps((program->Ask_2)(reply), last, post) by {
                lemma_grows(first, after, program->Ask_0, last);
                if let Ok(size) = reply->Opened_0 {
                    if let Some(next) = tree_after(tree) {
                        lemma_open(next, with_size(sizes, tree, size), first, last);
                    }
                }
            }
        }
    }
}

proof fn lemma_open_dirs(tree: Tree, first: World, world: World)
    requires
        same_but_log(first, world),
    ensures
        keeps(open_dirs(tree, None), world, opens_files(first)),
    decreases open_rank(tree),
{
    let post = opens_files(first);
    let program = open_dirs(tree, None);
    assert forall|reply: Reply, after: World| #[trigger]
        world.allows(program->Ask_0, reply, after) && program->Ask_1.met_by(reply) implies keeps(
        (program->Ask_2)(reply),
        after,
        post,
    ) by {
        lemma_grows(first, world, program->Ask_0, after);
        if reply->Done_0 is Ok {
            match tree_after(tree) {
                Some(next) => lemma_open_dirs(next, first, after),
                None => lemma_open(
                    Tree::Output,
                    Sizes { output: 0, rproof: 0, kernel: 0 },
                    first,
                    after,
                ),
            }
        }
    }
}

/// Trees that are opened, without a header to rewind them to, go as far as their
/// files.
pub proof fn law_opening_reads_the_files(world: World)
    ensures
        keeps(open_program(None), world, opens_files(world)),
{
    lemma_starts(world);
    lemma_open_dirs(Tree::Output, world, world);
}

/// Opening anew gives the last positions and the roots of given trees.
pub open spec fn opens_as(sizes: Sizes, roots: (Hash256, Hash256, Hash256)) -> spec_fn(
    Result<Sizes, Error>,
    World,
) -> bool {
    |opened: Result<Sizes, Error>, after: World|
        opened matches Ok(found) ==> {
            &&& found == sizes
            &&& keeps(roots_at_program(found), after, reads_roots(roots))
        }
}

/// After a commit, opening anew gives what was committed.
pub open spec fn can_be_reopened<T>(first: World) -> spec_fn(
    (Sizes, Result<T, Error>),
    World,
) -> bool {
    |done: (Sizes, Result<T, Error>), after: World|
        done.1 is Ok ==> keeps(
            open_program(None),
            after,
            opens_as(done.0, roots_in(first, first.trees)),
        )
}

/// Trees that are opened after a commit have the last positions and the roots
/// that were committed.
pub proof fn law_committed_work_is_reopened<T>(
    last: Sizes,
    extension: Extension,
    result: Result<T, Error>,
    world: World,
)
    requires
        extension.valid(),
        result is Ok,
        !extension@.rollback,
    ensures
        keeps(
            extend_program(
                last,
                extension.commit_entries(),
                extension.marker_entries(),
                extension@.rollback,
                result,
            ),
            world,
            can_be_reopened(world),
        ),
{
    let program = extend_program(
        last,
        extension.commit_entries(),
        extension.marker_entries(),
        extension@.rollback,
        result,
    );
    let more = committed(extension, result, world);
    let less = can_be_reopened(world);
    law_successful_work_is_committed(last, extension, result, world);
    assert forall|done: (Sizes, Result<T, Error>), after: World| #[trigger]
        more(done, after) implies less(done, after) by {
        if done.1 is Ok {
            let post = opens_as(done.0, roots_in(world, world.trees));
            law_opening_reads_the_files(after);
            assert forall|opened: Result<Sizes, Error>, now: World| #[trigger]
                opens_files(after)(opened, now) implies post(opened, now) by {
                if opened is Ok {
                    law_roots_are_those_of_the_files(now);
                }
            }
            lemma_keeps_less(open_program(None), after, opens_files(after), post);
        }
    }
    lemma_keeps_less(program, world, more, less);
}

// ---- pages

/// A page of outputs and a page of range proofs belong together: they end at the
/// same index, and each range proof is at the position of the output that has
/// its place.
pub open spec fn pairs_up(
    files: Trees,
    outputs: (u64, Vec<OutputIdentifier>),
    proofs: (u64, Vec<RangeProof>),
) -> bool {
    &&& outputs.0 == proofs.0
    &&& outputs.1@.len() == proofs.1@.len()
    &&& forall|k: int|
        0 <= k < outputs.1@.len() ==> at_one_position(
            files,
            #[trigger] outputs.1@[k],
            proofs.1@[k],
        )
}

/// An output and a range proof are at the same position.
pub open spec fn at_one_position(files: Trees, id: OutputIdentifier, rproof: RangeProof) -> bool {
    exists|pos: u64| #[trigger]
        files.output.element(pos) == Some(Element::Output(id)) && files.rproof.element(pos)
            == Some(Element::Proof(rproof))
}

/// The page of range proofs that belongs to a page of outputs is read.
pub open spec fn proofs_follow(start: u64, max: u64, first: World) -> spec_fn(
    (u64, Vec<OutputIdentifier>),
    World,
) -> bool {
    |outputs: (u64, Vec<OutputIdentifier>), after: World|
        keeps(
            query_program::<(u64, Vec<RangeProof>)>(
                Call::ProofsFrom(first.files.rproof.size, start, max),
            ),
            after,
            |proofs: (u64, Vec<RangeProof>), last: World| pairs_up(first.files, outputs, proofs),
        )
}

/// Outputs and range proofs from the same index of insertion on belong together.
pub proof fn law_pages_pair_up(start: u64, max: u64, world: World)
    requires
        alike(world.files.output, world.files.rproof),
    ensures
        keeps(
            query_program::<(u64, Vec<OutputIdentifier>)>(
                Call::OutputsFrom(world.files.output.size, start, max),
            ),
            world,
            proofs_follow(start, max, world),
        ),
{
    let post = proofs_follow(start, max, world);
    let program = query_program::<(u64, Vec<OutputIdentifier>)>(
        Call::OutputsFrom(world.files.output.size, start, max),
    );
    assert forall|reply: Reply, after: World| #[trigger]
        world.allows(program->Ask_0, reply, after) && program->Ask_1.met_by(reply) implies keeps(
        (program->Ask_2)(reply),
        after,
        post,
    ) by {
        let outputs = reply->OutputPage_0;
        let page = world.page(world.files.output, start, max);
        let pairs = |proofs: (u64, Vec<RangeProof>), last: World|
            pairs_up(world.files, outputs, proofs);
        let next = query_program::<(u64, Vec<RangeProof>)>(
            Call::ProofsFrom(world.files.rproof.size, start, max),
        );
        assert forall|reply: Reply, last: World| #[trigger]
            after.allows(next->Ask_0, reply, last) && next->Ask_1.met_by(reply) implies keeps(
            (next->Ask_2)(reply),
            last,
            pairs,
        ) by {
            let proofs = reply->ProofPage_0;
            assert forall|k: int| 0 <= k < outputs.1@.len() implies at_one_position(
                world.files,
                #[trigger] outputs.1@[k],
                proofs.1@[k],
            ) by {
                let pos = page.1[k];
                assert(world.files.output.element(pos) == Some(Element::Output(outputs.1@[k])));
                assert(world.files.rproof.element(pos) == Some(Element::Proof(proofs.1@[k])));
            }
        }
        assert(keeps(next, after, pairs));
    }
}

} // verus!
