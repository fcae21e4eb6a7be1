//! What is spent and what is added, once a transaction or a block was applied.
use crate::apply::{
    input_prune, input_prune_proof, kernel_program, output_push, output_push_proof,
};
use crate::block_laws::{alike, applied, lemma_item, on_the_way};
use crate::extension::Overlay;
use crate::paths::{
    as_claimed, keeps_items, known, lemma_input, lemma_items, lemma_output, lemma_raw_tx, Promise,
};
use crate::pmmr::leaf_at;
use crate::program::Reply;
use crate::raw_tx::{
    after_tx_items, after_undo, raw_tx_program, rewind_raw_tx_program, tx_items,
};
use crate::spend_laws::{law_spent_outputs_are_refused, refused_as_spent};
use crate::tasks::{after_item, item_program, items_program, Item};
use crate::types::{Commitment, Error, Input, Output, OutputIdentifier, Transaction};
use crate::world::{
    keeps, lemma_keeps_anything, lemma_keeps_bind, lemma_keeps_both, Element, World,
};
use vstd::prelude::*;

verus! {

// ---- outputs that are gone

/// What is known of a commitment stays as it is, and if that is a position, it
/// is a leaf of the output tree that was pruned.
pub open spec fn shut(
    place: Option<u64>,
    o: Overlay,
    world: World,
    commit: Commitment,
) -> bool {
    &&& known(o, world.index, commit) == place
    &&& place matches Some(pos) ==> pos <= world.trees.output.size && leaf_at(pos as nat)
        && !world.trees.output.live.contains(pos)
}

/// The output of a commitment is spent.
pub open spec fn gone(o: Overlay, world: World, commit: Commitment) -> bool {
    &&& known(o, world.index, commit) is Some
    &&& shut(known(o, world.index, commit), o, world, commit)
}

/// Whether an item adds an output with a commitment.
pub open spec fn adds(item: Item, commit: Commitment) -> bool {
    match item {
        Item::Output(out) => out.commit == commit,
        _ => false,
    }
}

/// The trees stay sound, and what is gone stays gone.
pub open spec fn stays_shut(place: Option<u64>, commit: Commitment) -> Promise {
    |done: (Overlay, Result<(), Error>), after: World|
        done.1 is Ok ==> after.trees.sound() && shut(place, done.0, after, commit)
}

proof fn lemma_stays_shut(
    place: Option<u64>,
    o: Overlay,
    world: World,
    item: Item,
    commit: Commitment,
)
    requires
        world.trees.sound(),
        shut(place, o, world, commit),
        !adds(item, commit),
    ensures
        keeps(item_program(o, item), world, stays_shut(place, commit)),
{
    let post = stays_shut(place, commit);
    let inv = |now: World| now.trees.sound() && shut(place, o, now, commit);
    match item {
        Item::Output(out) => {
            assert forall|now: World| #[trigger] inv(now) implies keeps(
                output_push(o, out),
                now,
                post,
            ) by {
                let program = output_push(o, out);
                assert forall|reply: Reply, after: World| #[trigger]
                    now.allows(program->Ask_0, reply, after) && program->Ask_1.met_by(
                        reply,
                    ) implies keeps((program->Ask_2)(reply), after, post) by {
                    if let Ok(pos) = reply->Pushed_0 {
                        let next = output_push_proof(o.with_output(out.commit, pos), out);
                        assert forall|reply: Reply, last: World| #[trigger]
                            after.allows(next->Ask_0, reply, last) && next->Ask_1.met_by(
                                reply,
                            ) implies keeps((next->Ask_2)(reply), last, post) by {}
                    }
                }
            }
            lemma_output(inv, post, o, world, out);
        },
        Item::Input(input) => {
            if let Some(pos) = known(o, world.index, input.commit) {
                assert forall|now: World| #[trigger] inv(now) implies keeps(
                    input_prune(o, input, pos),
                    now,
                    post,
                ) by {
                    let program = input_prune(o, input, pos);
                    assert forall|reply: Reply, after: World| #[trigger]
                        now.allows(program->Ask_0, reply, after) && program->Ask_1.met_by(
                            reply,
                        ) implies keeps((program->Ask_2)(reply), after, post) by {
                        let next = input_prune_proof(o, pos);
                        assert forall|reply: Reply, last: World| #[trigger]
                            after.allows(next->Ask_0, reply, last) && next->Ask_1.met_by(
                                reply,
                            ) implies keeps((next->Ask_2)(reply), last, post) by {}
                    }
                }
            }
            lemma_input(inv, post, o, world, input);
        },
        Item::Kernel(_) => {
            reveal_with_fuel(keeps, 2);
        },
    }
}

/// It fails.
pub open spec fn fails() -> Promise {
    |done: (Overlay, Result<(), Error>), after: World| done.1 is Err
}

/// Items among which one spends an output that is gone are not all applied.
proof fn lemma_spender_fails(
    place: Option<u64>,
    o: Overlay,
    world: World,
    items: Seq<Item>,
    at: int,
    input: Input,
)
    requires
        world.trees.sound(),
        shut(place, o, world, input.commit),
        0 <= at < items.len(),
        items[at] == Item::Input(input),
        forall|i: int| 0 <= i < at ==> !adds(#[trigger] items[i], input.commit),
    ensures
        keeps(items_program(o, items), world, fails()),
    decreases at,
{
    let rest = items.drop_first();
    if at == 0 {
        let middle = refused_as_spent(o, world, input);
        law_spent_outputs_are_refused(o, world, input);
        assert forall|done: (Overlay, Result<(), Error>), after: World| #[trigger]
            middle(done, after) implies keeps(after_item(rest)(done), after, fails()) by {}
        lemma_keeps_bind(item_program(o, items[0]), after_item(rest), world, middle, fails());
    } else {
        let middle = stays_shut(place, input.commit);
        lemma_stays_shut(place, o, world, items[0], input.commit);
        assert forall|done: (Overlay, Result<(), Error>), after: World| #[trigger]
            middle(done, after) implies keeps(after_item(rest)(done), after, fails()) by {
            if done.1 is Ok {
                assert(rest[at - 1] == items[at]);
                assert forall|i: int| 0 <= i < at - 1 implies !adds(
                    #[trigger] rest[i],
                    input.commit,
                ) by {
                    assert(rest[i] == items[i + 1]);
                }
                lemma_spender_fails(place, done.0, after, rest, at - 1, input);
            }
        }
        lemma_keeps_bind(item_program(o, items[0]), after_item(rest), world, middle, fails());
    }
}

/// Whether a transaction spends the output of a commitment.
pub open spec fn spends_commit(tx: Transaction, commit: Commitment) -> bool {
    exists|i: int| 0 <= i < tx.inputs@.len() && #[trigger] tx.inputs@[i].commit == commit
}

/// Whether a transaction adds an output with a commitment.
pub open spec fn adds_commit(tx: Transaction, commit: Commitment) -> bool {
    exists|i: int| 0 <= i < tx.outputs@.len() && #[trigger] tx.outputs@[i].commit == commit
}

/// A transaction that spends an output which is spent already, or not known, and
/// does not add it itself, is rejected.
pub proof fn law_rivals_are_rejected(
    o: Overlay,
    world: World,
    tx: Transaction,
    commit: Commitment,
)
    requires
        world.trees.sound(),
        shut(known(o, world.index, commit), o, world, commit),
        spends_commit(tx, commit),
        !adds_commit(tx, commit),
    ensures
        keeps(raw_tx_program(o, tx), world, fails()),
{
    let items = tx_items(tx);
    let outputs = tx.outputs@.len();
    let k = choose|i: int| 0 <= i < tx.inputs@.len() && #[trigger] tx.inputs@[i].commit == commit;
    let input = tx.inputs@[k];
    let at = outputs + k;
    assert(items[at] == Item::Input(input));
    assert forall|i: int| 0 <= i < at implies !adds(#[trigger] items[i], commit) by {
        if i < outputs {
            assert(items[i] == Item::Output(tx.outputs@[i]));
        } else {
            assert(items[i] == Item::Input(tx.inputs@[i - outputs]));
        }
    }
    assert forall|now: World, spent: Set<u32>|
        now == (World { log: now.log, ..world }) implies #[trigger] keeps_items(
        o,
        tx,
        world,
        spent,
        now,
        fails(),
    ) by {
        let place = known(o, world.index, commit);
        lemma_spender_fails(place, o, now, items, at, input);
        lemma_after_items(o, tx, world, spent, now, fails(), fails());
    }
    lemma_raw_tx(o, tx, world, fails());
}

/// The output of a commitment is still spent.
pub open spec fn stays_gone(commit: Commitment) -> Promise {
    |done: (Overlay, Result<(), Error>), after: World|
        done.1 is Ok ==> gone(done.0, after, commit)
}

/// An output that is spent stays spent when a transaction is applied that does
/// not add it anew.
pub proof fn law_spent_outputs_stay_spent(
    o: Overlay,
    world: World,
    tx: Transaction,
    commit: Commitment,
)
    requires
        world.trees.sound(),
        gone(o, world, commit),
        !adds_commit(tx, commit),
    ensures
        keeps(raw_tx_program(o, tx), world, stays_gone(commit)),
{
    let post = stays_gone(commit);
    let items = tx_items(tx);
    let outputs = tx.outputs@.len();
    let place = known(o, world.index, commit);
    let middle = stays_shut(place, commit);
    assert forall|i: int| 0 <= i < items.len() implies !adds(#[trigger] items[i], commit) by {
        if i < outputs {
            assert(items[i] == Item::Output(tx.outputs@[i]));
        } else if i < outputs + tx.inputs@.len() {
            assert(items[i] == Item::Input(tx.inputs@[i - outputs]));
        } else {
            assert(items[i] == Item::Kernel(tx.kernels@[i - outputs - tx.inputs@.len()]));
        }
    }
    assert forall|now: World, spent: Set<u32>|
        now == (World { log: now.log, ..world }) implies #[trigger] keeps_items(
        o,
        tx,
        world,
        spent,
        now,
        post,
    ) by {
        assert forall|i: int, o: Overlay, world: World|
            0 <= i < items.len() && #[trigger] middle((o, Ok(())), world) implies keeps(
            item_program(o, #[trigger] items[i]),
            world,
            middle,
        ) by {
            lemma_stays_shut(place, o, world, items[i], commit);
        }
        lemma_items(middle, o, now, items);
        lemma_after_items(o, tx, world, spent, now, middle, post);
    }
    lemma_raw_tx(o, tx, world, post);
}

/// What holds of items that were all applied holds of the transaction, if it
/// holds of every failure.
pub proof fn lemma_after_items(
    o: Overlay,
    tx: Transaction,
    world: World,
    spent: Set<u32>,
    now: World,
    middle: Promise,
    post: Promise,
)
    requires
        keeps(items_program(o, tx_items(tx)), now, middle),
        forall|done: (Overlay, Result<(), Error>), after: World|
            done.1 is Ok && #[trigger] middle(done, after) ==> post(done, after),
        forall|done: (Overlay, Result<(), Error>), after: World|
            done.1 is Err ==> #[trigger] post(done, after),
    ensures
        keeps_items(o, tx, world, spent, now, post),
{
    let pos = world.trees.output.size;
    let kernel_pos = world.trees.kernel.size;
    let rest = after_tx_items(o.commits, pos, kernel_pos, spent);
    let anything = |done: (Overlay, Result<(), Error>), after: World| true;
    assert forall|done: (Overlay, Result<(), Error>), after: World| #[trigger]
        middle(done, after) implies keeps(rest(done), after, post) by {
        if let Err(e) = done.1 {
            let undo = rewind_raw_tx_program(done.0, pos, kernel_pos, spent);
            lemma_keeps_anything(undo, after, anything);
            assert forall|end: (Overlay, Result<(), Error>), last: World| #[trigger]
                anything(end, last) implies keeps(
                after_undo(o.commits, e)(end),
                last,
                post,
            ) by {}
            lemma_keeps_bind(undo, after_undo(o.commits, e), after, anything, post);
        }
    }
    lemma_keeps_bind(items_program(o, tx_items(tx)), rest, now, middle, post);
}

// ---- items that were applied

/// An output that was added is known at a position beyond `base`, where it is
/// unspent, and no other commitment is known there.
pub open spec fn stands(o: Overlay, world: World, out: Output, base: u64) -> bool {
    match o.commits.get(out.commit) {
        Some(pos) => {
            &&& base < pos
            &&& world.trees.output.element(pos) == Some(
                Element::Output(OutputIdentifier::of_output(out)),
            )
            &&& forall|other: Commitment| #[trigger]
                o.commits.contains_key(other) && o.commits[other] == pos ==> other == out.commit
        },
        None => false,
    }
}

/// What holds of an item that was applied. Of outputs, only if they are watched.
pub open spec fn settled(o: Overlay, world: World, item: Item, base: u64, watched: bool) -> bool {
    match item {
        Item::Output(out) => watched ==> stands(o, world, out, base),
        Item::Input(input) => gone(o, world, input.commit),
        Item::Kernel(_) => true,
    }
}

/// What holds after items were applied to a world.
pub open spec fn all_settled(first: World, items: Seq<Item>, watched: bool) -> spec_fn(
    Overlay,
    World,
) -> bool {
    |o: Overlay, world: World|
        {
            let base = first.trees.output.size;
            &&& world == (World { trees: world.trees, log: world.log, ..first })
            &&& world.trees.sound()
            &&& base <= world.trees.output.size
            &&& watched ==> forall|commit: Commitment| #[trigger]
                o.commits.contains_key(commit) ==> o.commits[commit] <= world.trees.output.size
            &&& forall|j: int|
                0 <= j < items.len() ==> settled(o, world, #[trigger] items[j], base, watched)
        }
}

/// Items that were all applied have left things so.
pub open spec fn settles(first: World, items: Seq<Item>, watched: bool) -> Promise {
    |done: (Overlay, Result<(), Error>), after: World|
        done.1 is Ok ==> all_settled(first, items, watched)(done.0, after)
}

/// The index has nothing beyond the tree for what an input spends.
pub open spec fn index_within(world: World, input: Input) -> bool {
    match world.index.get(input.commit) {
        Some(pos) => pos <= world.trees.output.size,
        None => true,
    }
}

/// An output is never taken for what an input spends: they have different
/// hashes.
pub open spec fn told_apart(world: World, out: Output, input: Input) -> bool {
    forall|at: u64| #[trigger]
        (world.hash_of)(OutputIdentifier::of_output(out), at) != (world.hash_of)(
            OutputIdentifier::of_input(input),
            at,
        )
}

/// An item does not get in the way of one that was applied before it: no output
/// takes its commitment, and, if outputs are watched, no input spends it. The
/// latter could happen if the index had a position beyond the tree.
pub open spec fn apart(first: World, earlier: Item, later: Item, watched: bool) -> bool {
    match (earlier, later) {
        (Item::Input(input), Item::Output(out)) => input.commit != out.commit,
        (Item::Output(one), Item::Output(other)) => watched ==> one.commit != other.commit,
        (Item::Output(out), Item::Input(input)) => watched ==> {
            &&& out.commit != input.commit
            &&& index_within(first, input) || told_apart(first, out, input)
        },
        _ => true,
    }
}

/// What an input prunes is not where an output stands that it does not spend.
proof fn lemma_not_taken(
    o: Overlay,
    world: World,
    out: Output,
    input: Input,
    pos: u64,
    base: u64,
)
    requires
        world.trees.sound(),
        known(o, world.index, input.commit) == Some(pos),
        as_claimed(world, input, pos),
        out.commit != input.commit,
        (world.index.get(input.commit) matches Some(at) ==> at <= base) || told_apart(
            world,
            out,
            input,
        ),
    ensures
        stands(o, world, out, base) ==> o.commits[out.commit] != pos,
{
    if stands(o, world, out, base) && o.commits[out.commit] == pos {
        let at = (pos - 1) as u64;
        let id = OutputIdentifier::of_output(out);
        assert(world.trees.output.elements.contains_key(pos));
        assert(world.hash_in(world.trees.output, pos) == Some((world.hash_of)(id, at)));
        if o.commits.contains_key(input.commit) {
            assert(o.commits[input.commit] == pos);
        }
    }
}

proof fn lemma_settle_item(
    first: World,
    items: Seq<Item>,
    watched: bool,
    o: Overlay,
    world: World,
    item: Item,
)
    requires
        all_settled(first, items, watched)(o, world),
        forall|j: int| 0 <= j < items.len() ==> apart(first, #[trigger] items[j], item, watched),
    ensures
        keeps(item_program(o, item), world, settles(first, items.push(item), watched)),
{
    let base = first.trees.output.size;
    let more = items.push(item);
    let post = settles(first, more, watched);
    let inv = |now: World| all_settled(first, items, watched)(o, now);
    match item {
        Item::Output(out) => {
            assert forall|now: World| #[trigger] inv(now) implies keeps(
                output_push(o, out),
                now,
                post,
            ) by {
                let program = output_push(o, out);
                assert forall|reply: Reply, after: World| #[trigger]
                    now.allows(program->Ask_0, reply, after) && program->Ask_1.met_by(
                        reply,
                    ) implies keeps((program->Ask_2)(reply), after, post) by {
                    if let Ok(pos) = reply->Pushed_0 {
                        let later = o.with_output(out.commit, pos);
                        let next = output_push_proof(later, out);
                        assert forall|reply: Reply, last: World| #[trigger]
                            after.allows(next->Ask_0, reply, last) && next->Ask_1.met_by(
                                reply,
                            ) implies keeps((next->Ask_2)(reply), last, post) by {
                            assert forall|j: int| 0 <= j < more.len() implies settled(
                                later,
                                last,
                                #[trigger] more[j],
                                base,
                                watched,
                            ) by {
                                if j < items.len() {
                                    assert(more[j] == items[j]);
                                    assert(settled(o, now, items[j], base, watched));
                                    assert(apart(first, items[j], item, watched));
                                }
                            }
                        }
                    }
                }
            }
            lemma_output(inv, post, o, world, out);
        },
        Item::Input(input) => {
            if let Some(pos) = known(o, world.index, input.commit) {
                assert forall|now: World| #[trigger] inv(now) && as_claimed(
                    now,
                    input,
                    pos,
                ) implies keeps(input_prune(o, input, pos), now, post) by {
                    let program = input_prune(o, input, pos);
                    assert forall|reply: Reply, after: World| #[trigger]
                        now.allows(program->Ask_0, reply, after) && program->Ask_1.met_by(
                            reply,
                        ) implies keeps((program->Ask_2)(reply), after, post) by {
                        let next = input_prune_proof(o, pos);
                        if reply->Pruned_0 == Ok::<bool, String>(true) {
                            assert forall|reply: Reply, last: World| #[trigger]
                                after.allows(next->Ask_0, reply, last) && next->Ask_1.met_by(
                                    reply,
                                ) implies keeps((next->Ask_2)(reply), last, post) by {
                                assert forall|j: int| 0 <= j < more.len() implies settled(
                                    o,
                                    last,
                                    #[trigger] more[j],
                                    base,
                                    watched,
                                ) by {
                                    if j < items.len() {
                                        assert(more[j] == items[j]);
                                        assert(settled(o, now, items[j], base, watched));
                                        assert(apart(first, items[j], item, watched));
                                        if watched && items[j] is Output {
                                            let out = items[j]->Output_0;
                                            lemma_not_taken(o, now, out, input, pos, base);
                                        }
                                    }
                                }
                            }
                        }
                    }
                }
            }
            lemma_input(inv, post, o, world, input);
        },
        Item::Kernel(kernel) => {
            let program = kernel_program(o, kernel);
            assert forall|reply: Reply, after: World| #[trigger]
                world.allows(program->Ask_0, reply, after) && program->Ask_1.met_by(
                    reply,
                ) implies keeps((program->Ask_2)(reply), after, post) by {
                assert forall|j: int| 0 <= j < more.len() implies settled(
                    o,
                    after,
                    #[trigger] more[j],
                    base,
                    watched,
                ) by {
                    if j < items.len() {
                        assert(more[j] == items[j]);
                        assert(settled(o, world, items[j], base, watched));
                    }
                }
            }
        },
    }
}

/// Items that do not get in each other's way are settled when all of them were
/// applied.
pub proof fn lemma_settle(
    first: World,
    items: Seq<Item>,
    watched: bool,
    o: Overlay,
    world: World,
    rest: Seq<Item>,
)
    requires
        all_settled(first, items, watched)(o, world),
        forall|i: int, j: int|
            0 <= i < j < (items + rest).len() ==> apart(
                first,
                #[trigger] (items + rest)[i],
                #[trigger] (items + rest)[j],
                watched,
            ),
    ensures
        keeps(items_program(o, rest), world, settles(first, items + rest, watched)),
    decreases rest.len(),
{
    let all = items + rest;
    let post = settles(first, all, watched);
    if rest.len() == 0 {
        assert(all =~= items);
    } else {
        let item = rest[0];
        let more = items.push(item);
        let later = rest.drop_first();
        assert(more + later =~= all);
        assert(all[items.len() as int] == item);
        assert forall|j: int| 0 <= j < items.len() implies apart(
            first,
            #[trigger] items[j],
            item,
            watched,
        ) by {
            assert(all[j] == items[j]);
        }
        lemma_settle_item(first, items, watched, o, world, item);
        let middle = settles(first, more, watched);
        assert forall|done: (Overlay, Result<(), Error>), after: World| #[trigger]
            middle(done, after) implies keeps(after_item(later)(done), after, post) by {
            if done.1 is Ok {
                lemma_settle(first, more, watched, done.0, after, later);
            }
        }
        lemma_keeps_bind(item_program(o, item), after_item(later), world, middle, post);
    }
}

// ---- transactions that were applied

/// A transaction that was applied has left the trees in order, and all that it
/// spends is gone. Nothing but the trees and the log changed.
pub open spec fn tx_applied(first: World, tx: Transaction) -> Promise {
    |done: (Overlay, Result<(), Error>), after: World|
        done.1 is Ok ==> {
            &&& after == (World { trees: after.trees, log: after.log, ..first })
            &&& after.trees.sound()
            &&& alike(after.trees.output, after.trees.rproof)
            &&& forall|i: int|
                0 <= i < tx.inputs@.len() ==> gone(
                    done.0,
                    after,
                    #[trigger] tx.inputs@[i].commit,
                )
        }
}

/// What a transaction spends is gone once it was applied.
pub proof fn law_applied_transactions_spend(o: Overlay, world: World, tx: Transaction)
    requires
        world.trees.sound(),
        alike(world.trees.output, world.trees.rproof),
    ensures
        keeps(raw_tx_program(o, tx), world, tx_applied(world, tx)),
{
    let post = tx_applied(world, tx);
    let items = tx_items(tx);
    let outputs = tx.outputs@.len();
    let inputs = tx.inputs@.len();
    assert forall|i: int, j: int| 0 <= i < j < items.len() implies apart(
        world,
        #[trigger] items[i],
        #[trigger] items[j],
        false,
    ) by {
        if j < outputs {
            assert(items[i] == Item::Output(tx.outputs@[i]));
        } else if j < outputs + inputs {
            assert(items[j] == Item::Input(tx.inputs@[j - outputs]));
        } else {
            assert(items[j] == Item::Kernel(tx.kernels@[j - outputs - inputs]));
        }
    }
    assert forall|now: World, spent: Set<u32>|
        now == (World { log: now.log, ..world }) implies #[trigger] keeps_items(
        o,
        tx,
        world,
        spent,
        now,
        post,
    ) by {
        let none = Seq::<Item>::empty();
        assert(none + items =~= items);
        assert forall|i: int, j: int| 0 <= i < j < items.len() implies apart(
            now,
            #[trigger] items[i],
            #[trigger] items[j],
            false,
        ) by {
            assert(apart(world, items[i], items[j], false));
        }
        lemma_settle(now, none, false, o, now, items);
        lemma_on_the_way(o, now, items);
        let both = |done: (Overlay, Result<(), Error>), after: World|
            applied(now)(done, after) && settles(now, items, false)(done, after);
        lemma_keeps_both(
            items_program(o, items),
            now,
            applied(now),
            settles(now, items, false),
            both,
        );
        assert forall|done: (Overlay, Result<(), Error>), after: World|
            done.1 is Ok && #[trigger] both(done, after) implies post(done, after) by {
            assert forall|i: int| 0 <= i < tx.inputs@.len() implies gone(
                done.0,
                after,
                #[trigger] tx.inputs@[i].commit,
            ) by {
                assert(items[outputs + i] == Item::Input(tx.inputs@[i]));
            }
        }
        lemma_after_items(o, tx, world, spent, now, both, post);
    }
    lemma_raw_tx(o, tx, world, post);
}

proof fn lemma_on_the_way(o: Overlay, world: World, items: Seq<Item>)
    requires
        world.trees.sound(),
        alike(world.trees.output, world.trees.rproof),
    ensures
        keeps(items_program(o, items), world, applied(world)),
{
    assert(on_the_way(world)(world));
    assert forall|i: int, o: Overlay, now: World|
        0 <= i < items.len() && #[trigger] (applied(world))((o, Ok(())), now) implies keeps(
        item_program(o, #[trigger] items[i]),
        now,
        applied(world),
    ) by {
        lemma_item(world, o, now, items[i]);
    }
    lemma_items(applied(world), o, world, items);
}

} // verus!
