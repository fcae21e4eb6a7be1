//! A block, a transaction and a validation of transactions come to what their
//! parts come to, one after the other.
use crate::apply::{input_program, kernel_program, output_program, Effect};
use crate::block::{after_items, block_items, block_program, marker_kernel, marker_output};
use crate::extension::Overlay;
use crate::leaf_laws::{lemma_grows, lemma_starts};
use crate::paths::{keeps_items, lemma_raw_tx, Promise};
use crate::program::Reply;
use crate::raw_tx::{
    after_pre_tx, after_tx, after_tx_items, after_undo, raw_tx_program, rewind_raw_tx_program,
    tx_items, txs_program, validate_txs_program,
};
use crate::rewind_laws::{after_and_up_to, law_undoing_rewinds, rewound_to};
use crate::select_laws::Choice;
use crate::tasks::{after_item, items_program, Item};
use crate::types::{Block, BlockMarker, Error, Input, Output, Transaction, TxKernel};
use crate::world::{
    keeps, lemma_keeps_bind, lemma_keeps_less, lemma_may_end, may_end, same_but_log, World,
};
use vstd::prelude::*;

verus! {

// ---- items

/// One output, input or kernel, applied by itself.
pub open spec fn alone(o: Overlay, item: Item) -> Effect {
    match item {
        Item::Output(out) => output_program(o, out),
        Item::Input(input) => input_program(o, input),
        Item::Kernel(kernel) => kernel_program(o, kernel),
    }
}

/// Items come to this when each is applied by itself to what the ones before it
/// have left, up to the first that fails.
pub open spec fn in_turn(
    o: Overlay,
    world: World,
    items: Seq<Item>,
    done: (Overlay, Result<(), Error>),
    after: World,
) -> bool
    decreases items.len(),
{
    if items.len() == 0 {
        done == (o, Ok::<(), Error>(())) && after == world
    } else {
        exists|middle: (Overlay, Result<(), Error>), left: World|
            {
                &&& #[trigger] may_end(alone(o, items[0]), world, middle, left)
                &&& match middle.1 {
                    Ok(_) => in_turn(middle.0, left, items.drop_first(), done, after),
                    Err(_) => done == middle && after == left,
                }
            }
    }
}

proof fn lemma_in_turn(o: Overlay, world: World, items: Seq<Item>)
    ensures
        keeps(
            items_program(o, items),
            world,
            |done: (Overlay, Result<(), Error>), after: World|
                in_turn(o, world, items, done, after),
        ),
    decreases items.len(),
{
    let post = |done: (Overlay, Result<(), Error>), after: World|
        in_turn(o, world, items, done, after);
    if items.len() > 0 {
        let first = alone(o, items[0]);
        let rest = items.drop_first();
        let middle = |done: (Overlay, Result<(), Error>), left: World|
            may_end(first, world, done, left);
        lemma_may_end(first, world);
        assert forall|done: (Overlay, Result<(), Error>), left: World| #[trigger]
            middle(done, left) implies keeps(after_item(rest)(done), left, post) by {
            assert(may_end(alone(o, items[0]), world, done, left));
            if done.1 is Ok {
                let more = |end: (Overlay, Result<(), Error>), after: World|
                    in_turn(done.0, left, rest, end, after);
                lemma_in_turn(done.0, left, rest);
                assert forall|end: (Overlay, Result<(), Error>), after: World| #[trigger]
                    more(end, after) implies post(end, after) by {}
                lemma_keeps_less(items_program(done.0, rest), left, more, post);
            }
        }
        lemma_keeps_bind(first, after_item(rest), world, middle, post);
    }
}

// ---- blocks

/// What there is in a block: its coinbase outputs, its inputs, its other outputs
/// and its kernels.
pub open spec fn listed(block: Block) -> Seq<Item> {
    let mined = block.outputs@.filter(|out: Output| out.coinbase);
    let other = block.outputs@.filter(|out: Output| !out.coinbase);
    mined.map_values(|out: Output| Item::Output(out)) + block.inputs@.map_values(
        |input: Input| Item::Input(input),
    ) + other.map_values(|out: Output| Item::Output(out)) + block.kernels@.map_values(
        |kernel: TxKernel| Item::Kernel(kernel),
    )
}

proof fn lemma_listed(block: Block)
    ensures
        block_items(block) == listed(block),
{
    let mined = |out: Output| out.coinbase == true;
    let other = |out: Output| out.coinbase == false;
    assert(mined =~= (|out: Output| out.coinbase));
    assert(other =~= (|out: Output| !out.coinbase));
    assert(block_items(block) =~= listed(block));
}

/// A block comes to what its parts come to in turn. If all are applied, its marker
/// is taken down.
pub open spec fn block_in_turn(o: Overlay, block: Block, first: World) -> Promise {
    |done: (Overlay, Result<(), Error>), after: World|
        exists|middle: (Overlay, Result<(), Error>), left: World|
            {
                &&& #[trigger] in_turn(o, first, listed(block), middle, left)
                &&& match middle.1 {
                    Ok(_) => {
                        let marker = BlockMarker {
                            output_pos: left.trees.output.size,
                            kernel_pos: left.trees.kernel.size,
                        };
                        &&& done.1 is Ok
                        &&& done.0 == (Overlay {
                            markers: middle.0.markers.insert(block.hash, marker),
                            ..middle.0
                        })
                        &&& same_but_log(left, after)
                    },
                    Err(_) => done == middle && after == left,
                }
            }
}

/// To apply a block is to apply each of its coinbase outputs, inputs, other
/// outputs and kernels by itself, in turn, up to the first that fails.
pub proof fn law_blocks_apply_their_parts(o: Overlay, block: Block, world: World)
    ensures
        keeps(block_program(o, block), world, block_in_turn(o, block, world)),
{
    let items = listed(block);
    let post = block_in_turn(o, block, world);
    let rest = after_items(block.hash);
    let middle = |done: (Overlay, Result<(), Error>), left: World|
        in_turn(o, world, items, done, left);
    lemma_listed(block);
    lemma_in_turn(o, world, items);
    assert forall|done: (Overlay, Result<(), Error>), left: World| #[trigger]
        middle(done, left) implies keeps(rest(done), left, post) by {
        assert(in_turn(o, world, items, done, left));
        if done.1 is Ok {
            let program = marker_output(done.0, block.hash);
            lemma_starts(left);
            assert forall|reply: Reply, one: World| #[trigger]
                left.allows(program->Ask_0, reply, one) && program->Ask_1.met_by(
                    reply,
                ) implies keeps((program->Ask_2)(reply), one, post) by {
                let next = marker_kernel(done.0, block.hash, reply->Size_0);
                lemma_grows(left, left, program->Ask_0, one);
                assert forall|reply: Reply, last: World| #[trigger]
                    one.allows(next->Ask_0, reply, last) && next->Ask_1.met_by(
                        reply,
                    ) implies keeps((next->Ask_2)(reply), last, post) by {
                    lemma_grows(left, one, next->Ask_0, last);
                }
            }
        }
    }
    lemma_keeps_bind(items_program(o, items), rest, world, middle, post);
}

// ---- transactions

/// What there is in a transaction: its outputs, its inputs and its kernels.
pub open spec fn contents(tx: Transaction) -> Seq<Item> {
    tx.outputs@.map_values(|out: Output| Item::Output(out)) + tx.inputs@.map_values(
        |input: Input| Item::Input(input),
    ) + tx.kernels@.map_values(|kernel: TxKernel| Item::Kernel(kernel))
}

/// A transaction comes to what its parts come to in turn. It fails with what the
/// first of them that fails does, unless a tree fails to rewind on top of that.
pub open spec fn tx_in_turn(o: Overlay, tx: Transaction, first: World) -> Promise {
    |done: (Overlay, Result<(), Error>), after: World|
        exists|now: World, middle: (Overlay, Result<(), Error>), left: World|
            {
                &&& now == (World { log: now.log, ..first })
                &&& #[trigger] in_turn(o, now, contents(tx), middle, left)
                &&& match middle.1 {
                    Ok(_) => done == middle && after == left,
                    Err(e) => done.1 == Err::<(), Error>(e) || (done.1 is Err && after.broken),
                }
            }
}

/// To apply a transaction is to apply each of its outputs, inputs and kernels by
/// itself, in turn. If one fails, the transaction fails with the same error.
pub proof fn law_transactions_apply_their_parts(o: Overlay, tx: Transaction, world: World)
    ensures
        keeps(raw_tx_program(o, tx), world, tx_in_turn(o, tx, world)),
{
    let items = contents(tx);
    let post = tx_in_turn(o, tx, world);
    assert(tx_items(tx) =~= items);
    assert forall|now: World, spent: Set<u32>|
        now == (World { log: now.log, ..world }) implies #[trigger] keeps_items(
        o,
        tx,
        world,
        spent,
        now,
        post,
    ) by {
        let pos = world.trees.output.size;
        let kernel_pos = world.trees.kernel.size;
        let rest = after_tx_items(o.commits, pos, kernel_pos, spent);
        let middle = |done: (Overlay, Result<(), Error>), left: World|
            in_turn(o, now, items, done, left);
        lemma_in_turn(o, now, items);
        assert forall|done: (Overlay, Result<(), Error>), left: World| #[trigger]
            middle(done, left) implies keeps(rest(done), left, post) by {
            assert(in_turn(o, now, items, done, left));
            if let Err(e) = done.1 {
                let undo = rewind_raw_tx_program(done.0, pos, kernel_pos, spent);
                let undone = |end: (Overlay, Result<(), Error>), after: World|
                    exists|added: Set<u32>|
                        {
                            &&& after_and_up_to(pos, left.trees.output.size, added)
                            &&& #[trigger] rewound_to(done.0, pos, kernel_pos, added, spent, left)(
                                end,
                                after,
                            )
                        };
                law_undoing_rewinds(done.0, pos, kernel_pos, spent, left);
                assert forall|end: (Overlay, Result<(), Error>), after: World| #[trigger]
                    undone(end, after) implies keeps(
                    after_undo(o.commits, e)(end),
                    after,
                    post,
                ) by {}
                lemma_keeps_bind(undo, after_undo(o.commits, e), left, undone, post);
            }
        }
        lemma_keeps_bind(items_program(o, items), rest, now, middle, post);
    }
    lemma_raw_tx(o, tx, world, post);
}

/// Transactions are tried in turn, each on what the ones before it have left, and
/// those that can be applied are chosen.
pub open spec fn chosen_in_turn(
    o: Overlay,
    world: World,
    txs: Seq<Transaction>,
    chosen: Seq<Transaction>,
    end: Overlay,
    after: World,
) -> bool
    decreases txs.len(),
{
    if txs.len() == 0 {
        chosen.len() == 0 && end == o && after == world
    } else {
        exists|middle: (Overlay, Result<(), Error>), left: World|
            {
                &&& #[trigger] may_end(raw_tx_program(o, txs[0]), world, middle, left)
                &&& match middle.1 {
                    Ok(_) => {
                        &&& chosen.len() > 0
                        &&& chosen[0] == txs[0]
                        &&& chosen_in_turn(
                            middle.0,
                            left,
                            txs.drop_first(),
                            chosen.drop_first(),
                            end,
                            after,
                        )
                    },
                    Err(_) => chosen_in_turn(middle.0, left, txs.drop_first(), chosen, end, after),
                }
            }
    }
}

/// After those that were chosen before, exactly those are chosen that can be
/// applied when it is their turn.
spec fn chooses(
    o: Overlay,
    world: World,
    txs: Seq<Transaction>,
    earlier: Seq<Transaction>,
) -> Choice {
    |done: (Overlay, Result<Seq<Transaction>, Error>), after: World|
        done.1 is Ok && exists|chosen: Seq<Transaction>| #[trigger]
            chosen_in_turn(o, world, txs, chosen, done.0, after) && done.1->Ok_0 == earlier
                + chosen
}

proof fn lemma_chooses(
    o: Overlay,
    world: World,
    txs: Seq<Transaction>,
    earlier: Seq<Transaction>,
)
    ensures
        keeps(txs_program(o, txs, earlier), world, chooses(o, world, txs, earlier)),
    decreases txs.len(),
{
    let post = chooses(o, world, txs, earlier);
    if txs.len() == 0 {
        let none = Seq::<Transaction>::empty();
        assert(chosen_in_turn(o, world, txs, none, o, world));
        let done = (o, Ok::<Seq<Transaction>, Error>(earlier));
        assert(earlier + none =~= earlier);
        assert(chosen_in_turn(o, world, txs, none, done.0, world) && done.1->Ok_0 == earlier
            + none);
        assert(post(done, world));
    } else {
        let tx = txs[0];
        let rest = txs.drop_first();
        let first = raw_tx_program(o, tx);
        let later = after_tx(tx, rest, earlier);
        let middle = |done: (Overlay, Result<(), Error>), left: World|
            may_end(first, world, done, left);
        lemma_may_end(first, world);
        assert forall|done: (Overlay, Result<(), Error>), left: World| #[trigger]
            middle(done, left) implies keeps(later(done), left, post) by {
            assert(may_end(raw_tx_program(o, txs[0]), world, done, left));
            let taken = done.1 is Ok;
            let now = if taken {
                earlier.push(tx)
            } else {
                earlier
            };
            let more = chooses(done.0, left, rest, now);
            lemma_chooses(done.0, left, rest, now);
            assert forall|end: (Overlay, Result<Seq<Transaction>, Error>), after: World| #[trigger]
                more(end, after) implies post(end, after) by {
                let fewer = choose|chosen: Seq<Transaction>| #[trigger]
                    chosen_in_turn(done.0, left, rest, chosen, end.0, after) && end.1->Ok_0 == now
                        + chosen;
                if taken {
                    let chosen = seq![tx] + fewer;
                    assert(chosen.drop_first() =~= fewer);
                    assert(chosen_in_turn(o, world, txs, chosen, end.0, after));
                    assert(end.1->Ok_0 =~= earlier + chosen);
                } else {
                    assert(chosen_in_turn(o, world, txs, fewer, end.0, after));
                }
            }
            lemma_keeps_less(txs_program(done.0, rest, now), left, more, post);
        }
        lemma_keeps_bind(first, later, world, middle, post);
    }
}

/// What a validation of transactions comes to. If the one to be applied first
/// cannot be, the validation fails with its error; otherwise it succeeds.
pub open spec fn validated_in_turn(
    o: Overlay,
    world: World,
    txs: Seq<Transaction>,
    pre_tx: Option<Transaction>,
) -> Choice {
    |done: (Overlay, Result<Seq<Transaction>, Error>), after: World|
        match pre_tx {
            None => done.1 is Ok && chosen_in_turn(
                o,
                world,
                txs,
                done.1->Ok_0,
                done.0,
                after,
            ),
            Some(tx) => exists|middle: (Overlay, Result<(), Error>), left: World|
                {
                    &&& #[trigger] may_end(raw_tx_program(o, tx), world, middle, left)
                    &&& match middle.1 {
                        Ok(_) => done.1 is Ok && chosen_in_turn(
                            middle.0,
                            left,
                            txs,
                            done.1->Ok_0,
                            done.0,
                            after,
                        ),
                        Err(e) => {
                            &&& done == (middle.0, Err::<Seq<Transaction>, Error>(e))
                            &&& after == left
                        },
                    }
                },
        }
}

/// Of the transactions under validation, exactly those are selected that can be
/// applied to what the ones before them have left.
pub proof fn law_what_can_be_applied_is_selected(
    o: Overlay,
    world: World,
    txs: Seq<Transaction>,
    pre_tx: Option<Transaction>,
)
    ensures
        keeps(
            validate_txs_program(o, txs, pre_tx),
            world,
            validated_in_turn(o, world, txs, pre_tx),
        ),
{
    let none = Seq::<Transaction>::empty();
    let post = validated_in_turn(o, world, txs, pre_tx);
    match pre_tx {
        None => {
            let more = chooses(o, world, txs, none);
            lemma_chooses(o, world, txs, none);
            assert forall|end: (Overlay, Result<Seq<Transaction>, Error>), after: World| #[trigger]
                more(end, after) implies post(end, after) by {
                let chosen = choose|chosen: Seq<Transaction>| #[trigger]
                    chosen_in_turn(o, world, txs, chosen, end.0, after) && end.1->Ok_0 == none
                        + chosen;
                assert(none + chosen =~= chosen);
            }
            lemma_keeps_less(txs_program(o, txs, none), world, more, post);
        },
        Some(tx) => {
            let first = raw_tx_program(o, tx);
            let later = after_pre_tx(txs);
            let middle = |done: (Overlay, Result<(), Error>), left: World|
                may_end(first, world, done, left);
            lemma_may_end(first, world);
            assert forall|done: (Overlay, Result<(), Error>), left: World| #[trigger]
                middle(done, left) implies keeps(later(done), left, post) by {
                assert(may_end(raw_tx_program(o, tx), world, done, left));
                if done.1 is Ok {
                    let more = chooses(done.0, left, txs, none);
                    lemma_chooses(done.0, left, txs, none);
                    assert forall|
                        end: (Overlay, Result<Seq<Transaction>, Error>),
                        after: World,
                    | #[trigger] more(end, after) implies post(end, after) by {
                        let chosen = choose|chosen: Seq<Transaction>| #[trigger]
                            chosen_in_turn(done.0, left, txs, chosen, end.0, after)
                                && end.1->Ok_0 == none + chosen;
                        assert(none + chosen =~= chosen);
                    }
                    lemma_keeps_less(txs_program(done.0, txs, none), left, more, post);
                }
            }
            lemma_keeps_bind(first, later, world, middle, post);
        },
    }
}

} // verus!
