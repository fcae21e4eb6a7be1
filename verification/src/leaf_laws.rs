//! What is collected from the leaves of the trees is all that is there.
use crate::apply::kernel_program;
use crate::extension::Overlay;
use crate::leaves::{
    commitments_from, commitments_program, index_from, index_program, index_save, Committer,
};
use crate::paths::Promise;
use crate::pmmr::leaf_at;
use crate::program::{Call, Reply};
use crate::types::{Commitment, Error, Hash256, Message, OutputIdentifier, TxKernel};
use crate::txhashset::{unspent_at, unspent_compare, unspent_program};
use crate::world::{keeps, lemma_pushed, same_but_log, Element, TreeState, World};
use vstd::prelude::*;

verus! {

// ---- growing logs

/// A request that leaves everything as it is only makes the log grow.
pub proof fn lemma_grows(first: World, world: World, call: Call, after: World)
    requires
        same_but_log(first, world),
        world.keeps(call, after),
    ensures
        same_but_log(first, after),
        after.log.len() > 0,
        after.log.last() == call,
{
    assert(after.log.take(first.log.len() as int) =~= world.log.take(first.log.len() as int));
}

pub proof fn lemma_starts(world: World)
    ensures
        same_but_log(world, world),
{
    assert(world.log.take(world.log.len() as int) =~= world.log);
}

// ---- commitments

/// The commitment at a position of a tree, unless the element there was pruned.
pub open spec fn commitment_at(of: Committer, tree: TreeState, pos: u64) -> Option<Commitment> {
    match tree.element(pos) {
        Some(Element::Output(id)) => if of == Committer::Outputs {
            Some(id.commit)
        } else {
            None
        },
        Some(Element::Kernel(kernel)) => if of == Committer::Kernels {
            Some(kernel.excess)
        } else {
            None
        },
        _ => None,
    }
}

/// The commitments at the leaves among the first `n` positions of a tree, in
/// order.
pub open spec fn commitments_up_to(of: Committer, tree: TreeState, n: nat) -> Seq<Commitment>
    decreases n,
{
    if n == 0 {
        Seq::empty()
    } else {
        let before = commitments_up_to(of, tree, (n - 1) as nat);
        match commitment_at(of, tree, n as u64) {
            Some(commit) => if leaf_at(n) {
                before.push(commit)
            } else {
                before
            },
            None => before,
        }
    }
}

/// The commitments at all leaves were collected, and nothing but the log
/// changed.
pub open spec fn collects_all(of: Committer, first: World) -> spec_fn(
    Seq<Commitment>,
    World,
) -> bool {
    |found: Seq<Commitment>, after: World|
        {
            let tree = first.trees.get(of.tree());
            &&& same_but_log(first, after)
            &&& found == commitments_up_to(of, tree, tree.size as nat)
        }
}

proof fn lemma_collect(of: Committer, first: World, world: World, n: nat)
    requires
        same_but_log(first, world),
        1 <= n <= first.trees.get(of.tree()).size + 1,
    ensures
        keeps(
            commitments_from(
                of,
                n,
                first.trees.get(of.tree()).size,
                commitments_up_to(of, first.trees.get(of.tree()), (n - 1) as nat),
            ),
            world,
            collects_all(of, first),
        ),
    decreases first.trees.get(of.tree()).size + 1 - n,
{
    let tree = first.trees.get(of.tree());
    let found = commitments_up_to(of, tree, (n - 1) as nat);
    let post = collects_all(of, first);
    if n <= tree.size {
        if leaf_at(n) {
            let program = commitments_from(of, n, tree.size, found);
            assert forall|reply: Reply, after: World| #[trigger]
                world.allows(program->Ask_0, reply, after) && program->Ask_1.met_by(
                    reply,
                ) implies keeps((program->Ask_2)(reply), after, post) by {
                lemma_grows(first, world, program->Ask_0, after);
                assert(of.commitment(reply) == commitment_at(of, tree, n as u64));
                lemma_collect(of, first, after, n + 1);
            }
        } else {
            lemma_collect(of, first, world, n + 1);
        }
    }
}

/// The commitments that are collected are those of all elements that were not
/// pruned, in order.
pub proof fn law_all_commitments_are_collected(of: Committer, world: World)
    ensures
        keeps(commitments_program(of), world, collects_all(of, world)),
{
    let post = collects_all(of, world);
    let program = commitments_program(of);
    assert forall|reply: Reply, after: World| #[trigger]
        world.allows(program->Ask_0, reply, after) && program->Ask_1.met_by(reply) implies keeps(
        (program->Ask_2)(reply),
        after,
        post,
    ) by {
        lemma_starts(world);
        lemma_grows(world, world, program->Ask_0, after);
        lemma_collect(of, world, after, 1);
    }
}

/// Positions that hold the same give the same commitments.
pub proof fn lemma_same_commitments(of: Committer, tree: TreeState, after: TreeState, n: nat)
    requires
        n <= u64::MAX,
        forall|pos: u64| 1 <= pos <= n ==> #[trigger] after.element(pos) == tree.element(pos),
    ensures
        commitments_up_to(of, after, n) == commitments_up_to(of, tree, n),
    decreases n,
{
    if n > 0 {
        lemma_same_commitments(of, tree, after, (n - 1) as nat);
        assert(after.element(n as u64) == tree.element(n as u64));
    }
}

/// Positions of parents give no commitments.
proof fn lemma_no_leaves(of: Committer, tree: TreeState, from: u64, to: u64)
    requires
        from <= to,
        forall|parent: u64| from < parent <= to ==> !#[trigger] leaf_at(parent as nat),
    ensures
        commitments_up_to(of, tree, to as nat) == commitments_up_to(of, tree, from as nat),
    decreases to - from,
{
    if from < to {
        assert(!leaf_at(to as nat));
        lemma_no_leaves(of, tree, from, (to - 1) as u64);
    }
}

/// An element that was appended adds its commitment at the end.
pub proof fn lemma_appended(
    of: Committer,
    before: TreeState,
    pos: u64,
    element: Element,
    now: TreeState,
    commit: Commitment,
)
    requires
        before.sound(),
        before.pushed(pos, element, now),
        now.sound(),
        commitment_at(of, now, pos) == Some(commit),
    ensures
        commitments_up_to(of, now, now.size as nat) == commitments_up_to(
            of,
            before,
            before.size as nat,
        ).push(commit),
{
    lemma_pushed(before, pos, element, now);
    assert forall|at: u64| 1 <= at <= before.size implies #[trigger] now.element(at)
        == before.element(at) by {
        assert(now.elements.get(at) == before.elements.get(at));
    }
    lemma_same_commitments(of, before, now, before.size as nat);
    lemma_no_leaves(of, now, pos, now.size);
    assert(leaf_at(pos as nat));
    assert(commitments_up_to(of, now, pos as nat) == commitments_up_to(
        of,
        now,
        before.size as nat,
    ).push(commit));
}

/// A kernel that was applied adds its excess at the end of those collected, and
/// leaves the other trees as they are.
pub open spec fn appends_excess(kernel: TxKernel, first: World) -> Promise {
    |done: (Overlay, Result<(), Error>), after: World|
        done.1 is Ok ==> {
            let before = first.trees.kernel;
            let now = after.trees.kernel;
            &&& commitments_up_to(Committer::Kernels, now, now.size as nat) == commitments_up_to(
                Committer::Kernels,
                before,
                before.size as nat,
            ).push(kernel.excess)
            &&& after.trees.output == first.trees.output
            &&& after.trees.rproof == first.trees.rproof
        }
}

/// After a kernel was applied, the excesses that are collected are those from
/// before, and then its own. Outputs are not affected.
pub proof fn law_kernels_append_their_excess(o: Overlay, kernel: TxKernel, world: World)
    requires
        world.trees.sound(),
    ensures
        keeps(kernel_program(o, kernel), world, appends_excess(kernel, world)),
{
    let post = appends_excess(kernel, world);
    let of = Committer::Kernels;
    let program = kernel_program(o, kernel);
    assert forall|reply: Reply, after: World| #[trigger]
        world.allows(program->Ask_0, reply, after) && program->Ask_1.met_by(reply) implies keeps(
        (program->Ask_2)(reply),
        after,
        post,
    ) by {
        if let Ok(pos) = reply->Pushed_0 {
            let before = world.trees.kernel;
            let now = after.trees.kernel;
            let element = Element::Kernel(kernel);
            assert(now.element(pos) == Some(element));
            lemma_appended(of, before, pos, element, now, kernel.excess);
        }
    }
}

// ---- the index

/// An index with the positions of the outputs at the leaves among the first `n`
/// positions of the output tree.
pub open spec fn index_up_to(tree: TreeState, index: Map<Commitment, u64>, n: nat) -> Map<
    Commitment,
    u64,
>
    decreases n,
{
    if n == 0 {
        index
    } else {
        let before = index_up_to(tree, index, (n - 1) as nat);
        match commitment_at(Committer::Outputs, tree, n as u64) {
            Some(commit) => if leaf_at(n) {
                before.insert(commit, n as u64)
            } else {
                before
            },
            None => before,
        }
    }
}

/// The index was rebuilt, if the chain store did not fail.
pub open spec fn rebuilt(first: World) -> spec_fn(Result<(), Error>, World) -> bool {
    |verdict: Result<(), Error>, after: World|
        verdict is Ok ==> {
            let tree = first.trees.output;
            after == (World {
                index: index_up_to(tree, first.index, tree.size as nat),
                log: after.log,
                ..first
            })
        }
}

proof fn lemma_rebuild(first: World, world: World, n: nat)
    requires
        1 <= n <= first.trees.output.size + 1,
        world == (World {
            index: index_up_to(first.trees.output, first.index, (n - 1) as nat),
            log: world.log,
            ..first
        }),
    ensures
        keeps(index_from(n, first.trees.output.size), world, rebuilt(first)),
    decreases first.trees.output.size + 1 - n,
{
    let tree = first.trees.output;
    let post = rebuilt(first);
    if n <= tree.size {
        if leaf_at(n) {
            let program = index_from(n, tree.size);
            assert forall|reply: Reply, after: World| #[trigger]
                world.allows(program->Ask_0, reply, after) && program->Ask_1.met_by(
                    reply,
                ) implies keeps((program->Ask_2)(reply), after, post) by {
                match reply->MaybeOutput_0 {
                    Some(id) => {
                        assert(commitment_at(Committer::Outputs, tree, n as u64) == Some(
                            id.commit,
                        ));
                        let program = index_save(n, tree.size, id.commit);
                        assert forall|reply: Reply, last: World| #[trigger]
                            after.allows(program->Ask_0, reply, last) && program->Ask_1.met_by(
                                reply,
                            ) implies keeps((program->Ask_2)(reply), last, post) by {
                            if reply->Stored_0 is Ok {
                                lemma_rebuild(first, last, n + 1);
                            }
                        }
                    },
                    None => {
                        assert(commitment_at(Committer::Outputs, tree, n as u64) is None);
                        lemma_rebuild(first, after, n + 1);
                    },
                }
            }
        } else {
            lemma_rebuild(first, world, n + 1);
        }
    }
}

/// Rebuilding the index puts into it the positions of all unspent outputs.
pub proof fn law_index_is_rebuilt(world: World)
    ensures
        keeps(index_program(), world, rebuilt(world)),
{
    let post = rebuilt(world);
    let program = index_program();
    assert forall|reply: Reply, after: World| #[trigger]
        world.allows(program->Ask_0, reply, after) && program->Ask_1.met_by(reply) implies keeps(
        (program->Ask_2)(reply),
        after,
        post,
    ) by {
        lemma_rebuild(world, after, 1);
    }
}

/// A rebuilt index has a position for the commitment of every unspent output,
/// and at that position there is an unspent output with the commitment.
pub proof fn law_rebuilt_index_finds_unspent(
    tree: TreeState,
    index: Map<Commitment, u64>,
    n: nat,
    pos: u64,
)
    requires
        n <= u64::MAX,
        1 <= pos <= n,
        leaf_at(pos as nat),
        commitment_at(Committer::Outputs, tree, pos) is Some,
    ensures
        ({
            let commit = commitment_at(Committer::Outputs, tree, pos)->0;
            let found = index_up_to(tree, index, n);
            &&& found.contains_key(commit)
            &&& pos <= found[commit] <= n
            &&& commitment_at(Committer::Outputs, tree, found[commit]) == Some(commit)
        }),
    decreases n,
{
    if pos < n {
        law_rebuilt_index_finds_unspent(tree, index, (n - 1) as nat, pos);
    }
}

// ---- unspent outputs

/// What the check of an output finds, if the index has a leaf for it: its hash,
/// if the files of the output tree have the output there unspent.
pub open spec fn unspent_result(world: World, id: OutputIdentifier) -> Result<Hash256, Error> {
    let pos = world.index[id.commit];
    match world.hash_in(world.files.output, pos) {
        Some(hash) => if hash == (world.hash_of)(id, (pos - 1) as u64) {
            Ok(hash)
        } else {
            Err(Error::TxHashSetErr(Message::HashMismatch))
        },
        None => Err(Error::OutputNotFound),
    }
}

/// Whether the output tree has an output unspent where the index has it.
pub open spec fn is_unspent_in(world: World, id: OutputIdentifier) -> bool {
    &&& world.index.contains_key(id.commit)
    &&& leaf_at(world.index[id.commit] as nat)
    &&& unspent_result(world, id) is Ok
}

/// The output tree decides, and nothing but the log changed. An output that is
/// not in the index is not unspent, and one that is in it, at a leaf, is what
/// the output tree says, if the index finds it.
pub open spec fn tree_decides(world: World, id: OutputIdentifier) -> spec_fn(
    Result<Hash256, Error>,
    World,
) -> bool {
    |result: Result<Hash256, Error>, after: World|
        {
            &&& same_but_log(world, after)
            &&& !world.index.contains_key(id.commit) ==> result is Err
            &&& world.index.contains_key(id.commit) && leaf_at(world.index[id.commit] as nat) ==> {
                &&& world.reliable ==> result == unspent_result(world, id)
                &&& result is Ok ==> result == unspent_result(world, id)
            }
        }
}

/// Only the output tree tells whether an output is unspent: that the index has
/// it is not enough.
pub proof fn law_tree_decides_what_is_unspent(id: OutputIdentifier, world: World)
    ensures
        keeps(
            unspent_program(world.files.output.size, id),
            world,
            tree_decides(world, id),
        ),
{
    let post = tree_decides(world, id);
    let last = world.files.output.size;
    let program = unspent_program(last, id);
    lemma_starts(world);
    assert forall|reply: Reply, after: World| #[trigger]
        world.allows(program->Ask_0, reply, after) && program->Ask_1.met_by(reply) implies keeps(
        (program->Ask_2)(reply),
        after,
        post,
    ) by {
        lemma_grows(world, world, program->Ask_0, after);
        if let Ok(pos) = reply->Pos_0 {
            let program = unspent_at(last, id, pos);
            assert forall|reply: Reply, now: World| #[trigger]
                after.allows(program->Ask_0, reply, now) && program->Ask_1.met_by(
                    reply,
                ) implies keeps((program->Ask_2)(reply), now, post) by {
                lemma_grows(world, after, program->Ask_0, now);
                if let Some(hash) = reply->MaybeHash_0 {
                    let program = unspent_compare(id, pos, hash);
                    assert forall|reply: Reply, end: World| #[trigger]
                        now.allows(program->Ask_0, reply, end) && program->Ask_1.met_by(
                            reply,
                        ) implies keeps((program->Ask_2)(reply), end, post) by {
                        lemma_grows(world, now, program->Ask_0, end);
                    }
                }
            }
        }
    }
}

} // verus!
