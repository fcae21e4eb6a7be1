//! What a block added and spent is what is seen once the block was committed,
//! and after a compaction.
use crate::block::{after_items, block_items, block_program, marker_kernel, marker_output};
use crate::chain_laws::{law_compaction_loses_nothing_unspent, survives};
use crate::commit_laws::{
    file_sizes, law_roots_are_those_of_the_files, reads_roots, roots_in,
};
use crate::compact::compact_program;
use crate::extend_laws::{committed, law_successful_work_is_committed};
use crate::extending::extend_program;
use crate::extension::{Extension, Overlay};
use crate::leaf_laws::{is_unspent_in, law_tree_decides_what_is_unspent, tree_decides};
use crate::paths::Promise;
use crate::program::Reply;
use crate::settle_laws::{
    all_settled, apart, gone, index_within, lemma_settle, settles, stands, told_apart,
};
use crate::tasks::{items_program, outputs_that, Item};
use crate::txhashset::{roots_at_program, unspent_program};
use crate::types::{Block, Commitment, Error, Hash256, Output, OutputIdentifier, Sizes};
use crate::world::{keeps, lemma_keeps_bind, lemma_keeps_less, World};
use vstd::prelude::*;

verus! {

/// The commitments of outputs differ.
pub open spec fn commitments_differ(outputs: Seq<Output>) -> bool {
    forall|i: int, j: int|
        0 <= i < j < outputs.len() ==> (#[trigger] outputs[i]).commit != (
        #[trigger] outputs[j]).commit
}

/// The outputs of a block have commitments of their own, and it spends none of
/// them itself.
pub open spec fn distinct(block: Block) -> bool {
    &&& commitments_differ(block.outputs@)
    &&& forall|i: int, j: int|
        0 <= i < block.inputs@.len() && 0 <= j < block.outputs@.len() ==> (
        #[trigger] block.inputs@[i]).commit != (#[trigger] block.outputs@[j]).commit
}

/// The unit of work has no position beyond the tree. Neither has the index for
/// what the block spends, unless the outputs of the block are not taken for it.
pub open spec fn within(o: Overlay, world: World, block: Block) -> bool {
    &&& forall|commit: Commitment| #[trigger]
        o.commits.contains_key(commit) ==> o.commits[commit] <= world.trees.output.size
    &&& forall|i: int, j: int|
        0 <= i < block.inputs@.len() && 0 <= j < block.outputs@.len() ==> index_within(
            world,
            #[trigger] block.inputs@[i],
        ) || told_apart(world, #[trigger] block.outputs@[j], block.inputs@[i])
}

/// Picking outputs from a list picks each at most once.
pub proof fn lemma_picked(outputs: Seq<Output>, coinbase: bool)
    requires
        commitments_differ(outputs),
    ensures
        commitments_differ(outputs_that(outputs, coinbase)),
        forall|k: int|
            0 <= k < outputs_that(outputs, coinbase).len() ==> {
                let out = #[trigger] outputs_that(outputs, coinbase)[k];
                out.coinbase == coinbase && outputs.contains(out)
            },
        forall|i: int|
            0 <= i < outputs.len() && (#[trigger] outputs[i]).coinbase == coinbase
                ==> outputs_that(outputs, coinbase).contains(outputs[i]),
    decreases outputs.len(),
{
    reveal(Seq::filter);
    let some = outputs_that(outputs, coinbase);
    if outputs.len() > 0 {
        let before = outputs.drop_last();
        let fewer = outputs_that(before, coinbase);
        let last = outputs.last();
        assert forall|i: int, j: int| 0 <= i < j < before.len() implies (
        #[trigger] before[i]).commit != (#[trigger] before[j]).commit by {
            assert(before[i] == outputs[i] && before[j] == outputs[j]);
        }
        lemma_picked(before, coinbase);
        assert forall|k: int| 0 <= k < fewer.len() implies {
            &&& outputs.contains(#[trigger] fewer[k])
            &&& fewer[k].commit != last.commit
        } by {
            assert(before.contains(fewer[k]));
            let i = choose|i: int| 0 <= i < before.len() && before[i] == fewer[k];
            assert(outputs[i] == fewer[k]);
        }
        assert forall|i: int|
            0 <= i < outputs.len() && (
            #[trigger] outputs[i]).coinbase == coinbase implies some.contains(outputs[i]) by {
            if i < before.len() {
                assert(before[i] == outputs[i]);
                assert(fewer.contains(before[i]));
                let k = choose|k: int| 0 <= k < fewer.len() && fewer[k] == before[i];
                assert(some[k] == outputs[i]);
            } else {
                assert(some[fewer.len() as int] == last);
            }
        }
    }
}

/// The items of a block do not get in each other's way.
proof fn lemma_apart(o: Overlay, world: World, block: Block)
    requires
        distinct(block),
        within(o, world, block),
    ensures
        forall|i: int, j: int|
            0 <= i < j < block_items(block).len() ==> apart(
                world,
                #[trigger] block_items(block)[i],
                #[trigger] block_items(block)[j],
                true,
            ),
{
    let items = block_items(block);
    let outputs = block.outputs@;
    lemma_picked(outputs, true);
    lemma_picked(outputs, false);
    assert forall|i: int, j: int| 0 <= i < j < items.len() implies apart(
        world,
        #[trigger] items[i],
        #[trigger] items[j],
        true,
    ) by {
        lemma_item_of(block, i);
        lemma_item_of(block, j);
        if let (Item::Output(one), Item::Output(two)) = (items[i], items[j]) {
            if one.coinbase != two.coinbase {
                let k = choose|k: int| 0 <= k < outputs.len() && outputs[k] == one;
                let l = choose|l: int| 0 <= l < outputs.len() && outputs[l] == two;
                if k < l {
                    assert(outputs[k].commit != outputs[l].commit);
                } else {
                    assert(outputs[l].commit != outputs[k].commit);
                }
            }
        }
    }
}

/// Where an item of a block comes from.
proof fn lemma_item_of(block: Block, i: int)
    requires
        distinct(block),
        0 <= i < block_items(block).len(),
    ensures
        ({
            let mined = outputs_that(block.outputs@, true);
            let other = outputs_that(block.outputs@, false);
            let spent = mined.len() + block.inputs@.len();
            match block_items(block)[i] {
                Item::Output(out) => {
                    &&& block.outputs@.contains(out)
                    &&& if out.coinbase {
                        i < mined.len() && out == mined[i]
                    } else {
                        spent <= i < spent + other.len() && out == other[i - spent]
                    }
                },
                Item::Input(input) => mined.len() <= i < spent && input == block.inputs@[i
                    - mined.len()],
                Item::Kernel(_) => true,
            }
        }),
{
    lemma_picked(block.outputs@, true);
    lemma_picked(block.outputs@, false);
    let mined = outputs_that(block.outputs@, true);
    let other = outputs_that(block.outputs@, false);
    let items = block_items(block);
    let spent = mined.len() + block.inputs@.len();
    if i < mined.len() {
        assert(items[i] == Item::Output(mined[i]));
    } else if i < spent {
        assert(items[i] == Item::Input(block.inputs@[i - mined.len()]));
    } else if i < spent + other.len() {
        assert(items[i] == Item::Output(other[i - spent]));
    } else {
        assert(items[i] == Item::Kernel(block.kernels@[i - spent - other.len()]));
    }
}

/// A block that was applied: each of its outputs is unspent, at a position that
/// no other output has, and all that it spends is gone. Nothing but the trees
/// and the log changed.
pub open spec fn block_settled(first: World, block: Block) -> Promise {
    |done: (Overlay, Result<(), Error>), after: World|
        done.1 is Ok ==> {
            &&& after == (World { trees: after.trees, log: after.log, ..first })
            &&& after.trees.sound()
            &&& forall|i: int|
                0 <= i < block.outputs@.len() ==> stands(
                    done.0,
                    after,
                    #[trigger] block.outputs@[i],
                    first.trees.output.size,
                )
            &&& forall|i: int|
                0 <= i < block.inputs@.len() ==> gone(
                    done.0,
                    after,
                    (#[trigger] block.inputs@[i]).commit,
                )
        }
}

proof fn lemma_marked(first: World, block: Block, done: (Overlay, Result<(), Error>), world: World)
    requires
        block_settled(first, block)(done, world),
    ensures
        keeps(after_items(block.hash)(done), world, block_settled(first, block)),
{
    if done.1 is Ok {
        let o = done.0;
        let post = block_settled(first, block);
        let program = marker_output(o, block.hash);
        assert forall|reply: Reply, after: World| #[trigger]
            world.allows(program->Ask_0, reply, after) && program->Ask_1.met_by(
                reply,
            ) implies keeps((program->Ask_2)(reply), after, post) by {
            let next = marker_kernel(o, block.hash, reply->Size_0);
            assert forall|reply: Reply, last: World| #[trigger]
                after.allows(next->Ask_0, reply, last) && next->Ask_1.met_by(reply) implies keeps(
                (next->Ask_2)(reply),
                last,
                post,
            ) by {
                let end = (next->Ask_2)(reply)->Ret_0;
                assert(end.0.commits == o.commits);
                assert forall|i: int| 0 <= i < block.outputs@.len() implies stands(
                    end.0,
                    last,
                    #[trigger] block.outputs@[i],
                    first.trees.output.size,
                ) by {
                    assert(stands(o, world, block.outputs@[i], first.trees.output.size));
                }
                assert forall|i: int| 0 <= i < block.inputs@.len() implies gone(
                    end.0,
                    last,
                    (#[trigger] block.inputs@[i]).commit,
                ) by {
                    assert(gone(o, world, block.inputs@[i].commit));
                }
            }
        }
    }
}

/// Once a block was applied, its outputs are unspent and what it spends is gone.
pub proof fn law_block_settles(o: Overlay, world: World, block: Block)
    requires
        world.trees.sound(),
        distinct(block),
        within(o, world, block),
    ensures
        keeps(block_program(o, block), world, block_settled(world, block)),
{
    let items = block_items(block);
    let none = Seq::<Item>::empty();
    let post = block_settled(world, block);
    let middle = settles(world, items, true);
    let mined = outputs_that(block.outputs@, true);
    let other = outputs_that(block.outputs@, false);
    let spent = mined.len() + block.inputs@.len();
    assert(none + items =~= items);
    lemma_apart(o, world, block);
    lemma_picked(block.outputs@, true);
    lemma_picked(block.outputs@, false);
    lemma_settle(world, none, true, o, world, items);
    assert forall|done: (Overlay, Result<(), Error>), after: World| #[trigger]
        middle(done, after) implies keeps(after_items(block.hash)(done), after, post) by {
        if done.1 is Ok {
            assert(all_settled(world, items, true)(done.0, after));
            assert forall|i: int| 0 <= i < block.outputs@.len() implies stands(
                done.0,
                after,
                #[trigger] block.outputs@[i],
                world.trees.output.size,
            ) by {
                let out = block.outputs@[i];
                if out.coinbase {
                    assert(mined.contains(out));
                    let k = choose|k: int| 0 <= k < mined.len() && mined[k] == out;
                    assert(items[k] == Item::Output(out));
                } else {
                    assert(other.contains(out));
                    let k = choose|k: int| 0 <= k < other.len() && other[k] == out;
                    assert(items[spent + k] == Item::Output(out));
                }
            }
            assert forall|i: int| 0 <= i < block.inputs@.len() implies gone(
                done.0,
                after,
                (#[trigger] block.inputs@[i]).commit,
            ) by {
                assert(items[mined.len() + i] == Item::Input(block.inputs@[i]));
            }
        }
        lemma_marked(world, block, done, after);
    }
    lemma_keeps_bind(items_program(o, items), after_items(block.hash), world, middle, post);
}

// ---- after the commit

/// An output is found unspent.
pub open spec fn found_unspent() -> spec_fn(Result<Hash256, Error>, World) -> bool {
    |found: Result<Hash256, Error>, after: World| found is Ok
}

/// An output is not found.
pub open spec fn not_found() -> spec_fn(Result<Hash256, Error>, World) -> bool {
    |found: Result<Hash256, Error>, after: World| found == Err::<Hash256, Error>(
        Error::OutputNotFound,
    )
}

/// The trees show what a block did: its outputs are found unspent, and what it
/// spent is not found, whatever its features.
pub open spec fn shows(block: Block) -> spec_fn((Sizes, Result<(), Error>), World) -> bool {
    |done: (Sizes, Result<(), Error>), after: World|
        done.1 is Ok ==> {
            &&& forall|i: int|
                0 <= i < block.outputs@.len() ==> keeps(
                    unspent_program(
                        done.0.output,
                        OutputIdentifier::of_output(#[trigger] block.outputs@[i]),
                    ),
                    after,
                    found_unspent(),
                )
            &&& forall|i: int, id: OutputIdentifier|
                0 <= i < block.inputs@.len() && id.commit == (
                #[trigger] block.inputs@[i]).commit ==> keeps(
                    #[trigger] unspent_program(done.0.output, id),
                    after,
                    not_found(),
                )
        }
}

/// Whatever a unit of work did before and after a block, if the block is settled
/// when the work is committed, then the trees show what it did.
pub proof fn law_committed_blocks_show(
    first: World,
    block: Block,
    last: Sizes,
    extension: Extension,
    world: World,
)
    requires
        extension.valid(),
        !extension@.rollback,
        world.reliable,
        block_settled(first, block)((extension@, Ok(())), world),
    ensures
        keeps(
            extend_program(
                last,
                extension.commit_entries(),
                extension.marker_entries(),
                extension@.rollback,
                Ok::<(), Error>(()),
            ),
            world,
            shows(block),
        ),
{
    let result = Ok::<(), Error>(());
    let program = extend_program(
        last,
        extension.commit_entries(),
        extension.marker_entries(),
        extension@.rollback,
        result,
    );
    let more = committed(extension, result, world);
    let less = shows(block);
    law_successful_work_is_committed(last, extension, result, world);
    assert forall|done: (Sizes, Result<(), Error>), after: World| #[trigger]
        more(done, after) implies less(done, after) by {
        if done.1 is Ok {
            assert forall|i: int| 0 <= i < block.outputs@.len() implies keeps(
                unspent_program(
                    done.0.output,
                    OutputIdentifier::of_output(#[trigger] block.outputs@[i]),
                ),
                after,
                found_unspent(),
            ) by {
                let out = block.outputs@[i];
                let id = OutputIdentifier::of_output(out);
                assert(stands(extension@, world, out, first.trees.output.size));
                assert(after.index[id.commit] == extension@.commits[out.commit]);
                law_tree_decides_what_is_unspent(id, after);
                lemma_keeps_less(
                    unspent_program(done.0.output, id),
                    after,
                    tree_decides(after, id),
                    found_unspent(),
                );
            }
            assert forall|i: int, id: OutputIdentifier|
                0 <= i < block.inputs@.len() && id.commit == (
                #[trigger] block.inputs@[i]).commit implies keeps(
                #[trigger] unspent_program(done.0.output, id),
                after,
                not_found(),
            ) by {
                assert(gone(extension@, world, block.inputs@[i].commit));
                law_tree_decides_what_is_unspent(id, after);
                lemma_keeps_less(
                    unspent_program(done.0.output, id),
                    after,
                    tree_decides(after, id),
                    not_found(),
                );
            }
        }
    }
    lemma_keeps_less(program, world, more, less);
}

/// The trees show what they showed before: the same roots, and as unspent all
/// outputs that were.
pub open spec fn shows_as_before(first: World) -> spec_fn(Result<(), Error>, World) -> bool {
    |verdict: Result<(), Error>, after: World|
        {
            &&& file_sizes(after) == file_sizes(first)
            &&& keeps(
                roots_at_program(file_sizes(first)),
                after,
                reads_roots(roots_in(first, first.files)),
            )
            &&& forall|id: OutputIdentifier|
                is_unspent_in(first, id) ==> keeps(
                    #[trigger] unspent_program(first.files.output.size, id),
                    after,
                    found_unspent(),
                )
        }
}

/// A compaction is not seen: the trees go as far as they went, with the same
/// roots, and whatever was unspent is found unspent.
pub proof fn law_compaction_is_not_seen(horizon: u32, world: World)
    requires
        world.reliable,
    ensures
        keeps(compact_program(horizon), world, shows_as_before(world)),
{
    let more = survives(world);
    let less = shows_as_before(world);
    law_compaction_loses_nothing_unspent(horizon, world);
    assert forall|verdict: Result<(), Error>, after: World| #[trigger]
        more(verdict, after) implies less(verdict, after) by {
        law_roots_are_those_of_the_files(after);
        assert forall|id: OutputIdentifier| is_unspent_in(world, id) implies keeps(
            #[trigger] unspent_program(world.files.output.size, id),
            after,
            found_unspent(),
        ) by {
            assert(is_unspent_in(after, id));
            law_tree_decides_what_is_unspent(id, after);
            lemma_keeps_less(
                unspent_program(world.files.output.size, id),
                after,
                tree_decides(after, id),
                found_unspent(),
            );
        }
    }
    lemma_keeps_less(compact_program(horizon), world, more, less);
}

} // verus!
