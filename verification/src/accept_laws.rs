//! Blocks and transactions that are in order are applied, and a transaction that
//! is not fails for a reason of its own.
use crate::block::{after_items, block_items, block_program, marker_kernel, marker_output};
use crate::bitmap::low_bits;
use crate::courses::{
    failures, keeps_when, lemma_narrower, lemma_smooth, lemma_when_bind, lemma_when_both, smooth,
    Answers, Course,
};
use crate::exact_laws::{
    accepted, added, kernel_added, law_kernels_are_added, law_new_outputs_are_added,
    law_unspent_outputs_can_be_spent, names, only_trees,
};
use crate::extension::Overlay;
use crate::heed_laws::{
    item_fault, items_end, law_undoing_heeds_failures, lemma_block_item, lemma_items_heed,
    work_ends_with, work_succeeds,
};
use crate::paths::{known, Promise};
use crate::program::{bind, Reply};
use crate::raw_tx::{
    after_tx_items, after_undo, raw_tx_lookup, raw_tx_program, raw_tx_read, raw_tx_sized,
    raw_tx_spent, rewind_raw_tx_program, tx_items,
};
use crate::tasks::{after_item, item_program, items_program, outputs_that, Item};
use crate::types::{
    Block, BlockMarker, Commitment, Error, Input, Message, Output, Transaction, TxKernel,
};
use crate::visible_laws::lemma_picked;
use crate::world::World;
use vstd::prelude::*;

verus! {

// ---- items

/// The commitment that an item adds or spends.
pub open spec fn commit_of(item: Item) -> Option<Commitment> {
    match item {
        Item::Output(out) => Some(out.commit),
        Item::Input(input) => Some(input.commit),
        Item::Kernel(_) => None,
    }
}

/// An item is in order: an output is not known yet, and an input names an
/// unspent output.
pub open spec fn in_order(o: Overlay, world: World, item: Item) -> bool {
    match item {
        Item::Output(out) => known(o, world.index, out.commit) is None,
        Item::Input(input) => names(o, world, input),
        Item::Kernel(_) => true,
    }
}

/// All items are in order, and no commitment is added or spent twice.
pub open spec fn all_in_order(o: Overlay, world: World, items: Seq<Item>) -> bool {
    &&& world.trees.sound()
    &&& world.reliable
    &&& forall|i: int, j: int|
        0 <= i < j < items.len() && commit_of(#[trigger] items[i]) is Some ==> commit_of(items[i])
            != commit_of(#[trigger] items[j])
    &&& forall|i: int| 0 <= i < items.len() ==> in_order(o, world, #[trigger] items[i])
}

/// An item was applied, and those after it are in order.
spec fn goes_on(o: Overlay, world: World, rest: Seq<Item>) -> Promise {
    |done: (Overlay, Result<(), Error>), after: World|
        {
            &&& done.1 is Ok
            &&& only_trees(world, after)
            &&& done.0 == (Overlay { commits: done.0.commits, ..o })
            &&& all_in_order(done.0, after, rest)
        }
}

/// Items stay in order when another output is spent.
pub proof fn lemma_spent_leaves_order(
    o: Overlay,
    world: World,
    items: Seq<Item>,
    input: Input,
    done: (Overlay, Result<(), Error>),
    after: World,
)
    requires
        all_in_order(o, world, items),
        forall|i: int|
            0 <= i < items.len() ==> commit_of(#[trigger] items[i]) != Some(input.commit),
        names(o, world, input),
        accepted(o, input, world)(done, after),
    ensures
        all_in_order(done.0, after, items),
{
    assert forall|i: int| 0 <= i < items.len() implies in_order(o, after, #[trigger] items[i]) by {
        assert(in_order(o, world, items[i]));
        assert(commit_of(items[i]) != Some(input.commit));
    }
}

/// Items stay in order when another output is added.
pub proof fn lemma_added_leaves_order(
    o: Overlay,
    world: World,
    items: Seq<Item>,
    out: Output,
    done: (Overlay, Result<(), Error>),
    after: World,
)
    requires
        all_in_order(o, world, items),
        forall|i: int| 0 <= i < items.len() ==> commit_of(#[trigger] items[i]) != Some(out.commit),
        added(o, out, world)(done, after),
    ensures
        all_in_order(done.0, after, items),
{
    assert forall|i: int| 0 <= i < items.len() implies in_order(
        done.0,
        after,
        #[trigger] items[i],
    ) by {
        assert(in_order(o, world, items[i]));
        assert(commit_of(items[i]) != Some(out.commit));
        if let Item::Input(input) = items[i] {
            let pos = known(o, world.index, input.commit)->0;
            assert(world.trees.output.elements.contains_key(pos));
        }
    }
}

/// Items stay in order when a kernel is added.
pub proof fn lemma_kernel_leaves_order(
    o: Overlay,
    world: World,
    items: Seq<Item>,
    kernel: TxKernel,
    done: (Overlay, Result<(), Error>),
    after: World,
)
    requires
        all_in_order(o, world, items),
        kernel_added(o, kernel, world)(done, after),
    ensures
        all_in_order(done.0, after, items),
{
    assert forall|i: int| 0 <= i < items.len() implies in_order(o, after, #[trigger] items[i]) by {
        assert(in_order(o, world, items[i]));
    }
}

/// The items after the first are in order, and have other commitments.
proof fn lemma_rest_in_order(o: Overlay, world: World, items: Seq<Item>)
    requires
        all_in_order(o, world, items),
        items.len() > 0,
    ensures
        all_in_order(o, world, items.drop_first()),
        forall|i: int|
            0 <= i < items.drop_first().len() && commit_of(items[0]) is Some ==> commit_of(
                #[trigger] items.drop_first()[i],
            ) != commit_of(items[0]),
{
    let rest = items.drop_first();
    assert forall|i: int| 0 <= i < rest.len() implies {
        &&& in_order(o, world, #[trigger] rest[i])
        &&& commit_of(items[0]) is Some ==> commit_of(rest[i]) != commit_of(items[0])
    } by {
        assert(rest[i] == items[i + 1]);
        assert(in_order(o, world, items[i + 1]));
        if commit_of(items[0]) is Some {
            assert(commit_of(items[0]) != commit_of(items[i + 1]));
        }
    }
    assert forall|i: int, j: int|
        0 <= i < j < rest.len() && commit_of(#[trigger] rest[i]) is Some implies commit_of(rest[i])
        != commit_of(#[trigger] rest[j]) by {
        assert(commit_of(items[i + 1]) != commit_of(items[j + 1]));
    }
}

proof fn lemma_item_goes_on(answers: Answers, o: Overlay, world: World, items: Seq<Item>)
    requires
        all_in_order(o, world, items),
        items.len() > 0,
    ensures
        keeps_when(
            item_program(o, items[0]),
            world,
            answers.given_smoothly(),
            goes_on(o, world, items.drop_first()),
        ),
{
    let program = item_program(o, items[0]);
    let course = answers.given_smoothly();
    let rest = items.drop_first();
    let post = goes_on(o, world, rest);
    lemma_rest_in_order(o, world, items);
    assert(in_order(o, world, items[0]));
    match items[0] {
        Item::Output(out) => {
            let one = added(o, out, world);
            law_new_outputs_are_added(answers, o, out, world);
            assert forall|done: (Overlay, Result<(), Error>), after: World| one(
                done,
                after,
            ) implies #[trigger] post(done, after) by {
                lemma_added_leaves_order(o, world, rest, out, done, after);
            }
            lemma_when_both(program, world, course, one, one, post);
        },
        Item::Input(input) => {
            let one = accepted(o, input, world);
            law_unspent_outputs_can_be_spent(o, input, world);
            lemma_narrower(program, world, smooth(failures()), course, one);
            assert forall|done: (Overlay, Result<(), Error>), after: World| one(
                done,
                after,
            ) implies #[trigger] post(done, after) by {
                lemma_spent_leaves_order(o, world, rest, input, done, after);
            }
            lemma_when_both(program, world, course, one, one, post);
        },
        Item::Kernel(kernel) => {
            let one = kernel_added(o, kernel, world);
            law_kernels_are_added(o, kernel, world);
            lemma_narrower(program, world, smooth(failures()), course, one);
            assert forall|done: (Overlay, Result<(), Error>), after: World| one(
                done,
                after,
            ) implies #[trigger] post(done, after) by {
                lemma_kernel_leaves_order(o, world, rest, kernel, done, after);
            }
            lemma_when_both(program, world, course, one, one, post);
        },
    }
}

/// Everything was applied. Of what the unit of work knows, only the positions of
/// outputs changed.
pub open spec fn all_applied(o: Overlay, first: World) -> Promise {
    |done: (Overlay, Result<(), Error>), after: World|
        {
            &&& done.1 is Ok
            &&& only_trees(first, after)
            &&& after.trees.sound()
            &&& done.0 == (Overlay { commits: done.0.commits, ..o })
        }
}

proof fn lemma_all_applied(answers: Answers, o: Overlay, world: World, items: Seq<Item>)
    requires
        all_in_order(o, world, items),
    ensures
        keeps_when(
            items_program(o, items),
            world,
            answers.given_smoothly(),
            all_applied(o, world),
        ),
    decreases items.len(),
{
    if items.len() > 0 {
        let course = answers.given_smoothly();
        let rest = items.drop_first();
        let middle = goes_on(o, world, rest);
        let post = all_applied(o, world);
        lemma_item_goes_on(answers, o, world, items);
        assert forall|done: (Overlay, Result<(), Error>), after: World| #[trigger]
            middle(done, after) implies keeps_when(
            after_item(rest)(done),
            after,
            course,
            post,
        ) by {
            let one = all_applied(done.0, after);
            lemma_all_applied(answers, done.0, after, rest);
            assert forall|end: (Overlay, Result<(), Error>), last: World| one(
                end,
                last,
            ) implies #[trigger] post(end, last) by {}
            lemma_when_both(items_program(done.0, rest), after, course, one, one, post);
        }
        lemma_when_bind(item_program(o, items[0]), after_item(rest), world, course, middle, post);
    }
}

// ---- blocks

/// Inputs and outputs are in order: no commitment is added or spent twice, or
/// both, none of the outputs is known yet, and every input names an unspent
/// output.
pub open spec fn fits(o: Overlay, world: World, inputs: Seq<Input>, outputs: Seq<Output>) -> bool {
    &&& forall|i: int, j: int|
        0 <= i < j < inputs.len() ==> (#[trigger] inputs[i]).commit != (#[trigger] inputs[j]).commit
    &&& forall|i: int, j: int|
        0 <= i < j < outputs.len() ==> (#[trigger] outputs[i]).commit != (
        #[trigger] outputs[j]).commit
    &&& forall|i: int, j: int|
        0 <= i < inputs.len() && 0 <= j < outputs.len() ==> (#[trigger] inputs[i]).commit != (
        #[trigger] outputs[j]).commit
    &&& forall|i: int| 0 <= i < inputs.len() ==> names(o, world, #[trigger] inputs[i])
    &&& forall|i: int|
        0 <= i < outputs.len() ==> known(o, world.index, (#[trigger] outputs[i]).commit) is None
}

/// A block was applied, and its marker says how far the trees go.
pub open spec fn block_accepted(o: Overlay, block: Block, first: World) -> Promise {
    |done: (Overlay, Result<(), Error>), after: World|
        {
            let marker = BlockMarker {
                output_pos: after.trees.output.size,
                kernel_pos: after.trees.kernel.size,
            };
            &&& done.1 is Ok
            &&& only_trees(first, after)
            &&& done.0 == (Overlay {
                commits: done.0.commits,
                markers: o.markers.insert(block.hash, marker),
                ..o
            })
        }
}

proof fn lemma_block_in_order(o: Overlay, world: World, block: Block)
    requires
        world.trees.sound(),
        world.reliable,
        fits(o, world, block.inputs@, block.outputs@),
    ensures
        all_in_order(o, world, block_items(block)),
{
    let items = block_items(block);
    let outputs = block.outputs@;
    let inputs = block.inputs@;
    let mined = outputs_that(outputs, true);
    let other = outputs_that(outputs, false);
    let spent = mined.len() + inputs.len();
    lemma_picked(outputs, true);
    lemma_picked(outputs, false);
    assert forall|i: int| 0 <= i < items.len() implies in_order(o, world, #[trigger] items[i]) by {
        lemma_block_item(block, i);
    }
    assert forall|i: int, j: int|
        0 <= i < j < items.len() && commit_of(#[trigger] items[i]) is Some implies commit_of(
        items[i],
    ) != commit_of(#[trigger] items[j]) by {
        lemma_block_item(block, i);
        lemma_block_item(block, j);
        if j < mined.len() {
            assert(items[i] == Item::Output(mined[i]) && items[j] == Item::Output(mined[j]));
        } else if j < spent {
            assert(items[j] == Item::Input(inputs[j - mined.len()]));
            if i >= mined.len() {
                assert(items[i] == Item::Input(inputs[i - mined.len()]));
            } else {
                assert(items[i] == Item::Output(mined[i]));
            }
        } else if j < spent + other.len() {
            assert(items[j] == Item::Output(other[j - spent]));
            if i >= spent {
                assert(items[i] == Item::Output(other[i - spent]));
            } else if i >= mined.len() {
                assert(items[i] == Item::Input(inputs[i - mined.len()]));
            } else {
                assert(items[i] == Item::Output(mined[i]));
                let k = choose|k: int| 0 <= k < outputs.len() && outputs[k] == mined[i];
                let l = choose|l: int| 0 <= l < outputs.len() && outputs[l] == other[j - spent];
                assert(mined[i].coinbase && !other[j - spent].coinbase);
                assert(k != l);
                if k < l {
                    assert(outputs[k].commit != outputs[l].commit);
                } else {
                    assert(outputs[l].commit != outputs[k].commit);
                }
            }
        } else {
            assert(items[j] == Item::Kernel(block.kernels@[j - spent - other.len()]));
        }
    }
}

proof fn lemma_marked_accepted(
    answers: Answers,
    o: Overlay,
    block: Block,
    first: World,
    done: (Overlay, Result<(), Error>),
    world: World,
)
    requires
        all_applied(o, first)(done, world),
    ensures
        keeps_when(
            after_items(block.hash)(done),
            world,
            answers.given_smoothly(),
            block_accepted(o, block, first),
        ),
{
    let course = answers.given_smoothly();
    let post = block_accepted(o, block, first);
    let program = marker_output(done.0, block.hash);
    assert forall|reply: Reply, after: World| #[trigger]
        world.allows(program->Ask_0, reply, after) && program->Ask_1.met_by(reply) && course(
            world,
            program->Ask_0,
            reply,
        ) implies keeps_when((program->Ask_2)(reply), after, course, post) by {
        let next = marker_kernel(done.0, block.hash, reply->Size_0);
        assert forall|reply: Reply, last: World| #[trigger]
            after.allows(next->Ask_0, reply, last) && next->Ask_1.met_by(reply) && course(
                after,
                next->Ask_0,
                reply,
            ) implies keeps_when((next->Ask_2)(reply), last, course, post) by {
            assert(only_trees(first, last));
        }
    }
}

/// A block whose inputs and outputs are in order is applied, unless a tree
/// refuses.
pub proof fn law_blocks_in_order_are_applied(
    answers: Answers,
    o: Overlay,
    block: Block,
    world: World,
)
    requires
        world.trees.sound(),
        world.reliable,
        fits(o, world, block.inputs@, block.outputs@),
    ensures
        keeps_when(
            block_program(o, block),
            world,
            answers.given_smoothly(),
            block_accepted(o, block, world),
        ),
{
    let items = block_items(block);
    let middle = all_applied(o, world);
    lemma_block_in_order(o, world, block);
    lemma_all_applied(answers, o, world, items);
    assert forall|done: (Overlay, Result<(), Error>), after: World| #[trigger]
        middle(done, after) implies keeps_when(
        after_items(block.hash)(done),
        after,
        answers.given_smoothly(),
        block_accepted(o, block, world),
    ) by {
        lemma_marked_accepted(answers, o, block, world, done, after);
    }
    lemma_when_bind(
        items_program(o, items),
        after_items(block.hash),
        world,
        answers.given_smoothly(),
        middle,
        block_accepted(o, block, world),
    );
}

// ---- transactions

pub proof fn lemma_tx_in_order(o: Overlay, world: World, tx: Transaction)
    requires
        world.trees.sound(),
        world.reliable,
        fits(o, world, tx.inputs@, tx.outputs@),
    ensures
        all_in_order(o, world, tx_items(tx)),
{
    let items = tx_items(tx);
    let outputs = tx.outputs@;
    let inputs = tx.inputs@;
    let spent = outputs.len() + inputs.len();
    assert forall|i: int| 0 <= i < items.len() implies in_order(o, world, #[trigger] items[i]) by {
        lemma_tx_item(tx, i);
    }
    assert forall|i: int, j: int|
        0 <= i < j < items.len() && commit_of(#[trigger] items[i]) is Some implies commit_of(
        items[i],
    ) != commit_of(#[trigger] items[j]) by {
        lemma_tx_item(tx, i);
        lemma_tx_item(tx, j);
    }
}

/// Every item of a transaction is an output, an input or a kernel of it.
pub proof fn lemma_tx_item(tx: Transaction, i: int)
    requires
        0 <= i < tx_items(tx).len(),
    ensures
        ({
            let outputs = tx.outputs@.len();
            let spent = outputs + tx.inputs@.len();
            match tx_items(tx)[i] {
                Item::Output(out) => i < outputs && out == tx.outputs@[i],
                Item::Input(input) => outputs <= i < spent && input == tx.inputs@[i - outputs],
                Item::Kernel(_) => spent <= i,
            }
        }),
{
    let outputs = tx.outputs@.len();
    let spent = outputs + tx.inputs@.len();
    let items = tx_items(tx);
    if i < outputs {
        assert(items[i] == Item::Output(tx.outputs@[i]));
    } else if i < spent {
        assert(items[i] == Item::Input(tx.inputs@[i - outputs]));
    } else {
        assert(items[i] == Item::Kernel(tx.kernels@[i - spent]));
    }
}

/// What is promised in courses of a sort of the items of a transaction and of what
/// follows them.
pub open spec fn items_keep(
    o: Overlay,
    tx: Transaction,
    world: World,
    spent: Set<u32>,
    now: World,
    course: Course,
    post: Promise,
) -> bool {
    keeps_when(
        bind(
            items_program(o, tx_items(tx)),
            after_tx_items(
                o.commits,
                world.trees.output.size,
                world.trees.kernel.size,
                spent,
            ),
        ),
        now,
        course,
        post,
    )
}

/// Before it applies anything, a transaction only reads.
pub proof fn lemma_tx(o: Overlay, tx: Transaction, world: World, course: Course, post: Promise)
    requires
        forall|now: World, spent: Set<u32>|
            now == (World { log: now.log, ..world }) && now.trees.sound() ==> #[trigger] items_keep(
                o,
                tx,
                world,
                spent,
                now,
                course,
                post,
            ),
    ensures
        keeps_when(raw_tx_program(o, tx), world, course, post),
{
    let program = raw_tx_program(o, tx);
    assert forall|reply: Reply, after: World| #[trigger]
        world.allows(program->Ask_0, reply, after) && program->Ask_1.met_by(reply) && course(
            world,
            program->Ask_0,
            reply,
        ) implies keeps_when((program->Ask_2)(reply), after, course, post) by {
        let sized = raw_tx_sized(o, tx, reply->Size_0);
        assert forall|reply: Reply, last: World| #[trigger]
            after.allows(sized->Ask_0, reply, last) && sized->Ask_1.met_by(reply) && course(
                after,
                sized->Ask_0,
                reply,
            ) implies keeps_when((sized->Ask_2)(reply), last, course, post) by {
            lemma_tx_spent(o, tx, world, 0, Set::empty(), last, course, post);
        }
    }
}

proof fn lemma_tx_spent(
    o: Overlay,
    tx: Transaction,
    world: World,
    i: nat,
    spent: Set<u32>,
    now: World,
    course: Course,
    post: Promise,
)
    requires
        i <= tx.inputs@.len(),
        now == (World { log: now.log, ..world }),
        now.trees.sound(),
        forall|now: World, spent: Set<u32>|
            now == (World { log: now.log, ..world }) && now.trees.sound() ==> #[trigger] items_keep(
                o,
                tx,
                world,
                spent,
                now,
                course,
                post,
            ),
    ensures
        keeps_when(
            raw_tx_spent(o, tx, world.trees.output.size, world.trees.kernel.size, i, spent),
            now,
            course,
            post,
        ),
    decreases tx.inputs@.len() - i, 1nat,
{
    let pos = world.trees.output.size;
    let kernel_pos = world.trees.kernel.size;
    if i == tx.inputs@.len() {
        assert(items_keep(o, tx, world, spent, now, course, post));
    } else {
        match o.commits.get(tx.inputs@[i as int].commit) {
            Some(at) => lemma_tx_read(o, tx, world, i, spent, at, now, course, post),
            None => {
                let program = raw_tx_lookup(o, tx, pos, kernel_pos, i, spent);
                assert forall|reply: Reply, after: World| #[trigger]
                    now.allows(program->Ask_0, reply, after) && program->Ask_1.met_by(reply)
                        && course(now, program->Ask_0, reply) implies keeps_when(
                    (program->Ask_2)(reply),
                    after,
                    course,
                    post,
                ) by {
                    lemma_tx_spent(o, tx, world, i + 1, spent, after, course, post);
                    if let Ok(at) = reply->Pos_0 {
                        lemma_tx_read(o, tx, world, i, spent, at, after, course, post);
                    }
                }
            },
        }
    }
}

proof fn lemma_tx_read(
    o: Overlay,
    tx: Transaction,
    world: World,
    i: nat,
    spent: Set<u32>,
    at: u64,
    now: World,
    course: Course,
    post: Promise,
)
    requires
        i < tx.inputs@.len(),
        now == (World { log: now.log, ..world }),
        now.trees.sound(),
        forall|now: World, spent: Set<u32>|
            now == (World { log: now.log, ..world }) && now.trees.sound() ==> #[trigger] items_keep(
                o,
                tx,
                world,
                spent,
                now,
                course,
                post,
            ),
    ensures
        keeps_when(
            raw_tx_read(o, tx, world.trees.output.size, world.trees.kernel.size, i, spent, at),
            now,
            course,
            post,
        ),
    decreases tx.inputs@.len() - i, 0nat,
{
    let program = raw_tx_read(
        o,
        tx,
        world.trees.output.size,
        world.trees.kernel.size,
        i,
        spent,
        at,
    );
    assert forall|reply: Reply, after: World| #[trigger]
        now.allows(program->Ask_0, reply, after) && program->Ask_1.met_by(reply) && course(
            now,
            program->Ask_0,
            reply,
        ) implies keeps_when((program->Ask_2)(reply), after, course, post) by {
        let more = if reply->MaybeOutput_0 is Some {
            spent.insert(low_bits(at))
        } else {
            spent
        };
        lemma_tx_spent(o, tx, world, i + 1, more, after, course, post);
    }
}

/// A transaction whose inputs and outputs are in order is applied, unless a tree
/// refuses.
pub proof fn law_transactions_in_order_are_applied(
    answers: Answers,
    o: Overlay,
    tx: Transaction,
    world: World,
)
    requires
        world.trees.sound(),
        world.reliable,
        fits(o, world, tx.inputs@, tx.outputs@),
    ensures
        keeps_when(
            raw_tx_program(o, tx),
            world,
            answers.given_smoothly(),
            all_applied(o, world),
        ),
{
    let course = answers.given_smoothly();
    let post = all_applied(o, world);
    let items = tx_items(tx);
    assert forall|now: World, spent: Set<u32>|
        now == (World { log: now.log, ..world }) && now.trees.sound() implies #[trigger] items_keep(
        o,
        tx,
        world,
        spent,
        now,
        course,
        post,
    ) by {
        let rest = after_tx_items(
            o.commits,
            world.trees.output.size,
            world.trees.kernel.size,
            spent,
        );
        let middle = all_applied(o, now);
        assert forall|i: int| 0 <= i < tx.inputs@.len() implies names(
            o,
            now,
            #[trigger] tx.inputs@[i],
        ) by {
            assert(names(o, world, tx.inputs@[i]));
        }
        lemma_tx_in_order(o, now, tx);
        lemma_all_applied(answers, o, now, items);
        assert forall|done: (Overlay, Result<(), Error>), after: World| #[trigger]
            middle(done, after) implies keeps_when(rest(done), after, course, post) by {}
        lemma_when_bind(items_program(o, items), rest, now, course, middle, post);
    }
    lemma_tx(o, tx, world, course, post);
}

/// What can be wrong with a transaction: one of its outputs is there already, or
/// one of its inputs spends what is spent or is not what it says.
pub open spec fn tx_fault(tx: Transaction, e: Error) -> bool {
    match e {
        Error::DuplicateCommitment(commit) => exists|i: int|
            0 <= i < tx.outputs@.len() && #[trigger] tx.outputs@[i].commit == commit,
        Error::AlreadySpent(commit) => exists|i: int|
            0 <= i < tx.inputs@.len() && #[trigger] tx.inputs@[i].commit == commit,
        _ => tx.inputs@.len() > 0 && e == Error::TxHashSetErr(Message::OutputHashMismatch),
    }
}

/// A transaction that fails though nothing else does has a fault of its own.
pub proof fn law_transactions_fail_for_a_reason(o: Overlay, tx: Transaction, world: World)
    ensures
        keeps_when(
            raw_tx_program(o, tx),
            world,
            smooth(failures()),
            |done: (Overlay, Result<(), Error>), after: World|
                done.1 matches Err(e) ==> tx_fault(tx, e),
        ),
{
    let course = smooth(failures());
    let post = |done: (Overlay, Result<(), Error>), after: World|
        done.1 matches Err(e) ==> tx_fault(tx, e);
    let items = tx_items(tx);
    let end = items_end(items);
    assert forall|now: World, spent: Set<u32>|
        now == (World { log: now.log, ..world }) && now.trees.sound() implies #[trigger] items_keep(
        o,
        tx,
        world,
        spent,
        now,
        course,
        post,
    ) by {
        let pos = world.trees.output.size;
        let kernel_pos = world.trees.kernel.size;
        let rest = after_tx_items(o.commits, pos, kernel_pos, spent);
        let middle = |done: (Overlay, Result<(), Error>), after: World| end(done);
        lemma_items_heed(o, items);
        lemma_smooth(items_program(o, items), now, failures(), work_ends_with(), end);
        assert forall|done: (Overlay, Result<(), Error>), after: World| #[trigger]
            middle(done, after) implies keeps_when(rest(done), after, course, post) by {
            if let Err(e) = done.1 {
                let i = choose|i: int| 0 <= i < items.len() && item_fault(#[trigger] items[i], e);
                lemma_tx_item(tx, i);
                let undo = rewind_raw_tx_program(done.0, pos, kernel_pos, spent);
                let undone = work_succeeds::<()>();
                let back = |done: (Overlay, Result<(), Error>), after: World| undone(done);
                law_undoing_heeds_failures(done.0, pos, kernel_pos, spent);
                lemma_smooth(undo, after, failures(), work_ends_with(), undone);
                lemma_when_bind(undo, after_undo(o.commits, e), after, course, back, post);
            }
        }
        lemma_when_bind(items_program(o, items), rest, now, course, middle, post);
    }
    lemma_tx(o, tx, world, course, post);
}

} // verus!
