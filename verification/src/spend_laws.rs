//! What is spent, and when.
use crate::apply::{
    input_claim, input_lookup, input_program, input_prune, input_prune_proof, input_read,
    output_program, output_push, output_push_proof,
};
use crate::block::{after_items, block_items, block_program, marker_kernel, marker_output};
use crate::extension::Overlay;
use crate::paths::{known, lemma_input, lemma_items, lemma_output, Promise};
use crate::pmmr::leaf_at;
use crate::program::{Call, Reply};
use crate::tasks::{after_item, item_program, items_program, outputs_that, Item};
use crate::types::{Block, Commitment, Error, Input, Output, OutputIdentifier, Tree};
use crate::world::{keeps, lemma_keeps_bind, lemma_keeps_less, Element, World};
use vstd::prelude::*;

verus! {

// ---- inputs

/// Nothing but the log changed.
spec fn unchanged(world: World) -> spec_fn(World) -> bool {
    |now: World| now == (World { log: now.log, ..world }) && now.trees.sound()
}

/// An input that was applied has spent an unspent output, at the position known
/// for its commitment. What the unit of work knows and the index stay as they
/// are, whether it was applied or not.
pub open spec fn spends_unspent(o: Overlay, world: World, input: Input) -> Promise {
    |done: (Overlay, Result<(), Error>), after: World|
        {
            &&& done.0 == o
            &&& after.index == world.index
            &&& after.trees.sound()
            &&& done.1 is Ok ==> {
                let pos = known(o, world.index, input.commit)->0;
                &&& known(o, world.index, input.commit) is Some
                &&& world.trees.output.live.contains(pos)
                &&& after.trees.output == world.trees.output.without(pos)
                &&& after.trees.rproof == world.trees.rproof.without(pos)
                &&& after.trees.kernel == world.trees.kernel
            }
        }
}

proof fn lemma_prune(o: Overlay, first: World, world: World, input: Input, pos: u64)
    requires
        unchanged(first)(world),
        known(o, first.index, input.commit) == Some(pos),
    ensures
        keeps(input_prune(o, input, pos), world, spends_unspent(o, first, input)),
{
    let post = spends_unspent(o, first, input);
    let program = input_prune(o, input, pos);
    assert forall|reply: Reply, after: World| #[trigger]
        world.allows(program->Ask_0, reply, after) && program->Ask_1.met_by(reply) implies keeps(
        (program->Ask_2)(reply),
        after,
        post,
    ) by {
        if reply->Pruned_0 == Ok::<bool, String>(true) {
            let next = input_prune_proof(o, pos);
            assert forall|reply: Reply, last: World| #[trigger]
                after.allows(next->Ask_0, reply, last) && next->Ask_1.met_by(reply) implies keeps(
                (next->Ask_2)(reply),
                last,
                post,
            ) by {}
        }
    }
}

/// An input that is applied spends an output that was unspent until then.
pub proof fn law_inputs_spend_unspent(o: Overlay, world: World, input: Input)
    requires
        world.trees.sound(),
    ensures
        keeps(input_program(o, input), world, spends_unspent(o, world, input)),
{
    let inv = unchanged(world);
    let post = spends_unspent(o, world, input);
    if let Some(pos) = known(o, world.index, input.commit) {
        assert forall|now: World| #[trigger] inv(now) implies keeps(
            input_prune(o, input, pos),
            now,
            post,
        ) by {
            lemma_prune(o, world, now, input, pos);
        }
    }
    lemma_input(inv, post, o, world, input);
}

/// It is refused, as what the input spends is spent, and nothing but the log
/// changed.
pub open spec fn refused_as_spent(o: Overlay, world: World, input: Input) -> Promise {
    |done: (Overlay, Result<(), Error>), after: World|
        {
            &&& done == (o, Err::<(), Error>(Error::AlreadySpent(input.commit)))
            &&& after == (World { log: after.log, ..world })
        }
}

/// The position of a commitment is that of a leaf that was pruned, if it has
/// one.
pub open spec fn is_spent(o: Overlay, world: World, commit: Commitment) -> bool {
    match known(o, world.index, commit) {
        Some(pos) => leaf_at(pos as nat) && !world.trees.output.live.contains(pos),
        None => true,
    }
}

proof fn lemma_refused(o: Overlay, first: World, world: World, input: Input, pos: u64)
    requires
        world == (World { log: world.log, ..first }),
        leaf_at(pos as nat),
        !first.trees.output.live.contains(pos),
    ensures
        keeps(input_claim(o, input, pos), world, refused_as_spent(o, first, input)),
{
    let post = refused_as_spent(o, first, input);
    let program = input_claim(o, input, pos);
    assert forall|reply: Reply, one: World| #[trigger]
        world.allows(program->Ask_0, reply, one) && program->Ask_1.met_by(reply) implies keeps(
        (program->Ask_2)(reply),
        one,
        post,
    ) by {
        let program = input_read(o, input, pos, reply->Digest_0);
        assert forall|reply: Reply, two: World| #[trigger]
            one.allows(program->Ask_0, reply, two) && program->Ask_1.met_by(
                reply,
            ) implies keeps((program->Ask_2)(reply), two, post) by {
            let program = input_prune(o, input, pos);
            assert forall|reply: Reply, three: World| #[trigger]
                two.allows(program->Ask_0, reply, three) && program->Ask_1.met_by(
                    reply,
                ) implies keeps((program->Ask_2)(reply), three, post) by {
                assert(two.trees.output.without(pos).live =~= two.trees.output.live);
                assert(three.trees =~= two.trees);
            }
        }
    }
}

/// An input whose output is spent, or not known, is refused as spent.
pub proof fn law_spent_outputs_are_refused(o: Overlay, world: World, input: Input)
    requires
        is_spent(o, world, input.commit),
    ensures
        keeps(input_program(o, input), world, refused_as_spent(o, world, input)),
{
    let post = refused_as_spent(o, world, input);
    match o.commits.get(input.commit) {
        Some(pos) => lemma_refused(o, world, world, input, pos),
        None => {
            let program = input_lookup(o, input);
            assert forall|reply: Reply, after: World| #[trigger]
                world.allows(program->Ask_0, reply, after) && program->Ask_1.met_by(
                    reply,
                ) implies keeps((program->Ask_2)(reply), after, post) by {
                if let Ok(pos) = reply->Pos_0 {
                    lemma_refused(o, world, after, input, pos);
                }
            }
        },
    }
}

/// Once an input was applied, another one with its commitment is refused as
/// spent.
pub open spec fn excludes(again: Input) -> Promise {
    |done: (Overlay, Result<(), Error>), after: World|
        done.1 is Ok ==> keeps(
            input_program(done.0, again),
            after,
            refused_as_spent(done.0, after, again),
        )
}

/// No output is spent twice: the second time it is refused as spent.
pub proof fn law_no_double_spend(o: Overlay, world: World, input: Input, again: Input)
    requires
        world.trees.sound(),
        input.commit == again.commit,
    ensures
        keeps(input_program(o, input), world, excludes(again)),
{
    let more = spends_unspent(o, world, input);
    law_inputs_spend_unspent(o, world, input);
    assert forall|done: (Overlay, Result<(), Error>), after: World| #[trigger]
        more(done, after) implies excludes(again)(done, after) by {
        if done.1 is Ok {
            law_spent_outputs_are_refused(done.0, after, again);
        }
    }
    lemma_keeps_less(input_program(o, input), world, more, excludes(again));
}

// ---- outputs

/// An output that was applied is at the position after the last one, unspent,
/// and the unit of work knows it there.
pub open spec fn becomes_unspent(o: Overlay, world: World, out: Output) -> Promise {
    |done: (Overlay, Result<(), Error>), after: World|
        done.1 is Ok ==> {
            let pos = (world.trees.output.size + 1) as u64;
            &&& done.0 == o.with_output(out.commit, pos)
            &&& world.trees.output.pushed(
                pos,
                Element::Output(OutputIdentifier::of_output(out)),
                after.trees.output,
            )
            &&& known(done.0, after.index, out.commit) == Some(pos)
            &&& after.trees.output.live.contains(pos)
        }
}

/// An output that is applied can be spent from then on.
pub proof fn law_outputs_become_unspent(o: Overlay, world: World, out: Output)
    requires
        world.trees.sound(),
    ensures
        keeps(output_program(o, out), world, becomes_unspent(o, world, out)),
{
    let inv = unchanged(world);
    let post = becomes_unspent(o, world, out);
    assert forall|now: World| #[trigger] inv(now) implies keeps(
        output_push(o, out),
        now,
        post,
    ) by {
        let program = output_push(o, out);
        assert forall|reply: Reply, after: World| #[trigger]
            now.allows(program->Ask_0, reply, after) && program->Ask_1.met_by(
                reply,
            ) implies keeps((program->Ask_2)(reply), after, post) by {
            if let Ok(pos) = reply->Pushed_0 {
                let next = output_push_proof(o.with_output(out.commit, pos), out);
                assert forall|reply: Reply, last: World| #[trigger]
                    after.allows(next->Ask_0, reply, last) && next->Ask_1.met_by(
                        reply,
                    ) implies keeps((next->Ask_2)(reply), last, post) by {}
            }
        }
    }
    lemma_output(inv, post, o, world, out);
}

// ---- order within a block

/// A request that adds an output which is no coinbase output.
pub open spec fn adds_regular(call: Call) -> bool {
    match call {
        Call::PushOutput(id) => !id.coinbase,
        _ => false,
    }
}

/// A request that spends an output.
pub open spec fn spends_output(call: Call) -> bool {
    match call {
        Call::Prune(Tree::Output, _) => true,
        _ => false,
    }
}

/// From the request at `from` on, no output is spent after one was added that
/// is no coinbase output.
pub open spec fn in_order(log: Seq<Call>, from: nat) -> bool {
    forall|i: int, j: int|
        from <= i < j < log.len() && adds_regular(#[trigger] log[i]) ==> !spends_output(
            #[trigger] log[j],
        )
}

spec fn none_added(log: Seq<Call>, from: nat) -> bool {
    forall|i: int| from <= i < log.len() ==> !adds_regular(#[trigger] log[i])
}

/// As long as inputs may come (`early`), nothing but coinbase outputs was added.
spec fn orderly(from: nat, early: bool) -> spec_fn(World) -> bool {
    |world: World| in_order(world.log, from) && (early ==> none_added(world.log, from))
}

spec fn stays_orderly(from: nat, early: bool) -> Promise {
    |done: (Overlay, Result<(), Error>), after: World| orderly(from, early)(after)
}

/// What may come early, and what may come late.
spec fn fits(item: Item, early: bool) -> bool {
    match item {
        Item::Output(out) => early ==> out.coinbase,
        Item::Input(_) => early,
        Item::Kernel(_) => true,
    }
}

proof fn lemma_item(o: Overlay, world: World, item: Item, from: nat, early: bool)
    requires
        orderly(from, early)(world),
        fits(item, early),
    ensures
        keeps(item_program(o, item), world, stays_orderly(from, early)),
{
    let inv = orderly(from, early);
    let post = stays_orderly(from, early);
    match item {
        Item::Output(out) => {
            assert forall|now: World| #[trigger] inv(now) implies keeps(
                output_push(o, out),
                now,
                post,
            ) by {
                let program = output_push(o, out);
                assert forall|reply: Reply, after: World| #[trigger]
                    now.allows(program->Ask_0, reply, after) && program->Ask_1.met_by(
                        reply,
                    ) implies keeps((program->Ask_2)(reply), after, post) by {
                    if let Ok(pos) = reply->Pushed_0 {
                        let next = output_push_proof(o.with_output(out.commit, pos), out);
                        assert forall|reply: Reply, last: World| #[trigger]
                            after.allows(next->Ask_0, reply, last) && next->Ask_1.met_by(
                                reply,
                            ) implies keeps((next->Ask_2)(reply), last, post) by {}
                    }
                }
            }
            lemma_output(inv, post, o, world, out);
        },
        Item::Input(input) => {
            if let Some(pos) = known(o, world.index, input.commit) {
                assert forall|now: World| #[trigger] inv(now) implies keeps(
                    input_prune(o, input, pos),
                    now,
                    post,
                ) by {
                    let program = input_prune(o, input, pos);
                    assert forall|reply: Reply, after: World| #[trigger]
                        now.allows(program->Ask_0, reply, after) && program->Ask_1.met_by(
                            reply,
                        ) implies keeps((program->Ask_2)(reply), after, post) by {
                        let next = input_prune_proof(o, pos);
                        assert forall|reply: Reply, last: World| #[trigger]
                            after.allows(next->Ask_0, reply, last) && next->Ask_1.met_by(
                                reply,
                            ) implies keeps((next->Ask_2)(reply), last, post) by {}
                    }
                }
            }
            lemma_input(inv, post, o, world, input);
        },
        Item::Kernel(_) => {
            reveal_with_fuel(keeps, 2);
        },
    }
}

/// Items that may come early, up to the one at `turn`, and then items that may
/// come late.
proof fn lemma_turn(o: Overlay, world: World, items: Seq<Item>, turn: nat, from: nat)
    requires
        orderly(from, true)(world),
        turn <= items.len(),
        forall|i: int| 0 <= i < items.len() ==> fits(#[trigger] items[i], i < turn),
    ensures
        keeps(items_program(o, items), world, stays_orderly(from, false)),
    decreases items.len(),
{
    let post = stays_orderly(from, false);
    if turn == 0 {
        assert forall|i: int, o: Overlay, now: World|
            0 <= i < items.len() && #[trigger] post((o, Ok(())), now) implies keeps(
            item_program(o, #[trigger] items[i]),
            now,
            post,
        ) by {
            lemma_item(o, now, items[i], from, false);
        }
        lemma_items(post, o, world, items);
    } else {
        let rest = items.drop_first();
        let middle = stays_orderly(from, true);
        lemma_item(o, world, items[0], from, true);
        assert forall|done: (Overlay, Result<(), Error>), after: World| #[trigger]
            middle(done, after) implies keeps(after_item(rest)(done), after, post) by {
            if done.1 is Ok {
                assert forall|i: int| 0 <= i < rest.len() implies fits(
                    #[trigger] rest[i],
                    i < turn - 1,
                ) by {
                    assert(rest[i] == items[i + 1]);
                }
                lemma_turn(done.0, after, rest, (turn - 1) as nat, from);
            }
        }
        lemma_keeps_bind(item_program(o, items[0]), after_item(rest), world, middle, post);
    }
}

/// The requests that a block makes are in order.
pub open spec fn requests_in_order(from: nat) -> Promise {
    |done: (Overlay, Result<(), Error>), after: World| in_order(after.log, from)
}

/// The inputs of a block are applied before its outputs, coinbase outputs apart,
/// so that no input can spend an output of the same block.
pub proof fn law_blocks_spend_before_they_add(o: Overlay, world: World, block: Block)
    ensures
        keeps(block_program(o, block), world, requests_in_order(world.log.len())),
{
    let from = world.log.len();
    let items = block_items(block);
    let coinbase = outputs_that(block.outputs@, true);
    let others = outputs_that(block.outputs@, false);
    let turn = coinbase.len() + block.inputs@.len();
    assert forall|i: int| 0 <= i < items.len() implies fits(#[trigger] items[i], i < turn) by {
        broadcast use vstd::seq_lib::group_filter_ensures;

        if i < coinbase.len() {
            assert(items[i] == Item::Output(coinbase[i]));
            assert(coinbase.contains(coinbase[i]));
        } else if i < turn {
            assert(items[i] == Item::Input(block.inputs@[i - coinbase.len()]));
        } else if i < turn + others.len() {
            assert(items[i] == Item::Output(others[i - turn]));
        } else {
            assert(items[i] == Item::Kernel(block.kernels@[i - turn - others.len()]));
        }
    }
    lemma_turn(o, world, items, turn, from);
    let post = requests_in_order(from);
    let middle = stays_orderly(from, false);
    assert forall|done: (Overlay, Result<(), Error>), after: World| #[trigger]
        middle(done, after) implies keeps(after_items(block.hash)(done), after, post) by {
        if done.1 is Ok {
            let program = marker_output(done.0, block.hash);
            assert forall|reply: Reply, now: World| #[trigger]
                after.allows(program->Ask_0, reply, now) && program->Ask_1.met_by(
                    reply,
                ) implies keeps((program->Ask_2)(reply), now, post) by {
                let next = marker_kernel(done.0, block.hash, reply->Size_0);
                assert forall|reply: Reply, last: World| #[trigger]
                    now.allows(next->Ask_0, reply, last) && next->Ask_1.met_by(
                        reply,
                    ) implies keeps((next->Ask_2)(reply), last, post) by {}
            }
        }
    }
    lemma_keeps_bind(items_program(o, items), after_items(block.hash), world, middle, post);
}

} // verus!
