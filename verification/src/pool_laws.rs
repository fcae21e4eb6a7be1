//! A transaction that is in order is selected, whatever else is tried before it.
use crate::accept_laws::{
    all_applied, all_in_order, commit_of, fits, in_order, items_keep,
    law_transactions_fail_for_a_reason, law_transactions_in_order_are_applied,
    lemma_added_leaves_order, lemma_kernel_leaves_order, lemma_spent_leaves_order, lemma_tx,
    lemma_tx_in_order, lemma_tx_item, tx_fault,
};
use crate::courses::{
    failures, keeps_when, lemma_keeps_when, lemma_narrower, lemma_unbroken, lemma_when_bind,
    lemma_when_both, smooth, Answers,
};
use crate::exact_laws::{
    accepted, added, hashes_tell_apart, kernel_added, law_accepted_inputs_name_what_they_spend,
    law_kernels_are_added, law_outputs_are_decided, names, output_decided,
};
use crate::extension::Overlay;
use crate::paths::{known, Promise};
use crate::pmmr::leaf_at;
use crate::raw_tx::{
    after_pre_tx, after_tx, after_tx_items, after_undo, raw_tx_program, rewind_raw_tx_program,
    tx_items, txs_program, validate_txs_program,
};
use crate::select_laws::{lemma_tried, tried, Choice};
use crate::tasks::{after_item, item_program, items_program, Item};
use crate::types::{Commitment, Error, Input, Transaction};
use crate::world::{keeps, lemma_keeps_anything, lemma_keeps_bind, lemma_keeps_less, World};
use vstd::prelude::*;

verus! {

/// Everything that is known to be somewhere is known to be at a leaf.
pub open spec fn at_leaves(o: Overlay, world: World) -> bool {
    forall|commit: Commitment|
        match #[trigger] known(o, world.index, commit) {
            Some(pos) => pos >= 1 && leaf_at(pos as nat),
            None => true,
        }
}

/// Two transactions have no commitment in common, neither of an output nor of an
/// input.
pub open spec fn independent(one: Transaction, other: Transaction) -> bool {
    &&& forall|i: int, j: int|
        0 <= i < one.inputs@.len() && 0 <= j < other.inputs@.len() ==> (
        #[trigger] one.inputs@[i]).commit != (#[trigger] other.inputs@[j]).commit
    &&& forall|i: int, j: int|
        0 <= i < one.inputs@.len() && 0 <= j < other.outputs@.len() ==> (
        #[trigger] one.inputs@[i]).commit != (#[trigger] other.outputs@[j]).commit
    &&& forall|i: int, j: int|
        0 <= i < one.outputs@.len() && 0 <= j < other.inputs@.len() ==> (
        #[trigger] one.outputs@[i]).commit != (#[trigger] other.inputs@[j]).commit
    &&& forall|i: int, j: int|
        0 <= i < one.outputs@.len() && 0 <= j < other.outputs@.len() ==> (
        #[trigger] one.outputs@[i]).commit != (#[trigger] other.outputs@[j]).commit
}

/// Items have no commitment in common with others.
spec fn elsewhere(item: Item, items: Seq<Item>) -> bool {
    commit_of(item) is Some ==> forall|i: int|
        0 <= i < items.len() ==> commit_of(#[trigger] items[i]) != commit_of(item)
}

/// Items are in order where others are being applied.
spec fn waits(items: Seq<Item>, o: Overlay, world: World) -> bool {
    &&& all_in_order(o, world, items)
    &&& at_leaves(o, world)
    &&& hashes_tell_apart(world)
}

spec fn still_waits(items: Seq<Item>) -> Promise {
    |done: (Overlay, Result<(), Error>), after: World|
        done.1 is Ok ==> waits(items, done.0, after)
}

proof fn lemma_item_waits(
    answers: Answers,
    o: Overlay,
    world: World,
    item: Item,
    items: Seq<Item>,
)
    requires
        waits(items, o, world),
        elsewhere(item, items),
    ensures
        keeps_when(
            item_program(o, item),
            world,
            answers.given_smoothly(),
            still_waits(items),
        ),
{
    let program = item_program(o, item);
    let course = answers.given_smoothly();
    let post = still_waits(items);
    match item {
        Item::Output(out) => {
            let one = output_decided(answers, o, out, world);
            assert(known(o, world.index, out.commit) matches Some(pos) ==> leaf_at(pos as nat));
            law_outputs_are_decided(answers, o, out, world);
            lemma_narrower(program, world, answers.given(), course, one);
            assert forall|done: (Overlay, Result<(), Error>), after: World| one(
                done,
                after,
            ) implies #[trigger] post(done, after) by {
                if done.1 is Ok {
                    assert(added(o, out, world)(done, after));
                    lemma_added_leaves_order(o, world, items, out, done, after);
                    assert forall|commit: Commitment|
                        (match #[trigger] known(done.0, after.index, commit) {
                            Some(pos) => pos >= 1 && leaf_at(pos as nat),
                            None => true,
                        }) by {
                        assert(known(o, world.index, commit) matches Some(pos) ==> pos >= 1
                            && leaf_at(pos as nat));
                    }
                }
            }
            lemma_when_both(program, world, course, one, one, post);
        },
        Item::Input(input) => {
            let one = |done: (Overlay, Result<(), Error>), after: World|
                done.1 is Ok ==> names(o, world, input) && accepted(o, input, world)(done, after);
            assert(known(o, world.index, input.commit) matches Some(pos) ==> pos >= 1 && leaf_at(
                pos as nat,
            ));
            law_accepted_inputs_name_what_they_spend(o, input, world);
            lemma_keeps_when(program, world, course, one);
            assert forall|done: (Overlay, Result<(), Error>), after: World| one(
                done,
                after,
            ) implies #[trigger] post(done, after) by {
                if done.1 is Ok {
                    lemma_spent_leaves_order(o, world, items, input, done, after);
                    assert(at_leaves(done.0, after)) by {
                        assert forall|commit: Commitment|
                            (match #[trigger] known(done.0, after.index, commit) {
                                Some(pos) => pos >= 1 && leaf_at(pos as nat),
                                None => true,
                            }) by {
                            assert(known(o, world.index, commit) matches Some(pos) ==> pos >= 1
                                && leaf_at(pos as nat));
                        }
                    }
                }
            }
            lemma_when_both(program, world, course, one, one, post);
        },
        Item::Kernel(kernel) => {
            let one = kernel_added(o, kernel, world);
            law_kernels_are_added(o, kernel, world);
            lemma_narrower(program, world, smooth(failures()), course, one);
            assert forall|done: (Overlay, Result<(), Error>), after: World| one(
                done,
                after,
            ) implies #[trigger] post(done, after) by {
                lemma_kernel_leaves_order(o, world, items, kernel, done, after);
                assert(at_leaves(done.0, after)) by {
                    assert forall|commit: Commitment|
                        (match #[trigger] known(done.0, after.index, commit) {
                            Some(pos) => pos >= 1 && leaf_at(pos as nat),
                            None => true,
                        }) by {
                        assert(known(o, world.index, commit) matches Some(pos) ==> pos >= 1
                            && leaf_at(pos as nat));
                    }
                }
            }
            lemma_when_both(program, world, course, one, one, post);
        },
    }
}

proof fn lemma_items_wait(
    answers: Answers,
    o: Overlay,
    world: World,
    others: Seq<Item>,
    items: Seq<Item>,
)
    requires
        waits(items, o, world),
        forall|i: int| 0 <= i < others.len() ==> elsewhere(#[trigger] others[i], items),
    ensures
        keeps_when(
            items_program(o, others),
            world,
            answers.given_smoothly(),
            still_waits(items),
        ),
    decreases others.len(),
{
    if others.len() > 0 {
        let rest = others.drop_first();
        let course = answers.given_smoothly();
        let post = still_waits(items);
        assert(elsewhere(others[0], items));
        lemma_item_waits(answers, o, world, others[0], items);
        assert forall|i: int| 0 <= i < rest.len() implies elsewhere(#[trigger] rest[i], items) by {
            assert(rest[i] == others[i + 1]);
        }
        assert forall|done: (Overlay, Result<(), Error>), after: World| #[trigger]
            post(done, after) implies keeps_when(after_item(rest)(done), after, course, post) by {
            if done.1 is Ok {
                lemma_items_wait(answers, done.0, after, rest, items);
            }
        }
        lemma_when_bind(item_program(o, others[0]), after_item(rest), world, course, post, post);
    }
}

/// Where a transaction waits to be tried.
spec fn ready(tx: Transaction, o: Overlay, world: World) -> bool {
    &&& crate::select_laws::in_order(world)
    &&& waits(tx_items(tx), o, world)
}

proof fn lemma_any_log_waits(items: Seq<Item>, o: Overlay, world: World, after: World)
    requires
        waits(items, o, world),
        after == (World { log: after.log, ..world }),
    ensures
        waits(items, o, after),
{
    assert forall|i: int| 0 <= i < items.len() implies in_order(o, after, #[trigger] items[i]) by {
        assert(in_order(o, world, items[i]));
    }
    assert(at_leaves(o, after)) by {
        assert forall|commit: Commitment|
            (match #[trigger] known(o, after.index, commit) {
                Some(pos) => pos >= 1 && leaf_at(pos as nat),
                None => true,
            }) by {
            assert(known(o, world.index, commit) matches Some(pos) ==> pos >= 1 && leaf_at(
                pos as nat,
            ));
        }
    }
}

/// A transaction stays ready while another, which is independent of it, is tried.
proof fn lemma_stays_ready(
    answers: Answers,
    o: Overlay,
    world: World,
    other: Transaction,
    tx: Transaction,
)
    requires
        ready(tx, o, world),
        independent(other, tx),
    ensures
        keeps_when(
            raw_tx_program(o, other),
            world,
            answers.given_smoothly(),
            |done: (Overlay, Result<(), Error>), after: World| ready(tx, done.0, after),
        ),
{
    let course = answers.given_smoothly();
    let program = raw_tx_program(o, other);
    let items = tx_items(tx);
    let others = tx_items(other);
    let wait = still_waits(items);
    let post = |done: (Overlay, Result<(), Error>), after: World| ready(tx, done.0, after);
    assert forall|i: int| 0 <= i < others.len() implies elsewhere(#[trigger] others[i], items) by {
        lemma_tx_item(other, i);
        assert forall|j: int|
            0 <= j < items.len() && commit_of(others[i]) is Some implies commit_of(
            #[trigger] items[j],
        ) != commit_of(others[i]) by {
            lemma_tx_item(tx, j);
        }
    }
    assert forall|now: World, spent: Set<u32>|
        now == (World { log: now.log, ..world }) && now.trees.sound() implies #[trigger] items_keep(
        o,
        other,
        world,
        spent,
        now,
        course,
        wait,
    ) by {
        let pos = world.trees.output.size;
        let kernel_pos = world.trees.kernel.size;
        let rest = after_tx_items(o.commits, pos, kernel_pos, spent);
        lemma_any_log_waits(items, o, world, now);
        lemma_items_wait(answers, o, now, others, items);
        assert forall|done: (Overlay, Result<(), Error>), after: World| #[trigger]
            wait(done, after) implies keeps_when(rest(done), after, course, wait) by {
            if let Err(e) = done.1 {
                let undo = rewind_raw_tx_program(done.0, pos, kernel_pos, spent);
                let anything = |done: (Overlay, Result<(), Error>), after: World| true;
                lemma_keeps_anything(undo, after, anything);
                lemma_keeps_when(undo, after, course, anything);
                lemma_when_bind(undo, after_undo(o.commits, e), after, course, anything, wait);
            }
        }
        lemma_when_bind(items_program(o, others), rest, now, course, wait, wait);
    }
    lemma_tx(o, other, world, course, wait);
    let trial = tried(o, world, other);
    let whole = |done: (Overlay, Result<(), Error>), after: World| after.broken == world.broken;
    let both = |done: (Overlay, Result<(), Error>), after: World|
        trial(done, after) && whole(done, after);
    lemma_tried(o, world, other);
    lemma_keeps_when(program, world, course, trial);
    lemma_unbroken(program, world);
    lemma_narrower(program, world, smooth(failures()), course, whole);
    lemma_when_both(program, world, course, trial, whole, both);
    assert forall|done: (Overlay, Result<(), Error>), after: World| both(done, after) && wait(
        done,
        after,
    ) implies #[trigger] post(done, after) by {
        if done.1 is Err {
            lemma_any_log_waits(items, o, world, after);
        }
    }
    lemma_when_both(program, world, course, both, wait, post);
}

/// A selection succeeds, and has all that was selected before.
proof fn lemma_selection_ends(
    o: Overlay,
    world: World,
    txs: Seq<Transaction>,
    earlier: Seq<Transaction>,
)
    ensures
        keeps(
            txs_program(o, txs, earlier),
            world,
            |done: (Overlay, Result<Seq<Transaction>, Error>), after: World|
                done.1 is Ok && earlier.is_prefix_of(done.1->Ok_0),
        ),
    decreases txs.len(),
{
    let post = |done: (Overlay, Result<Seq<Transaction>, Error>), after: World|
        done.1 is Ok && earlier.is_prefix_of(done.1->Ok_0);
    if txs.len() > 0 {
        let tx = txs[0];
        let rest = txs.drop_first();
        let program = raw_tx_program(o, tx);
        let anything = |done: (Overlay, Result<(), Error>), after: World| true;
        lemma_keeps_anything(program, world, anything);
        assert forall|done: (Overlay, Result<(), Error>), after: World| #[trigger]
            anything(done, after) implies keeps(
            after_tx(tx, rest, earlier)(done),
            after,
            post,
        ) by {
            let now = if done.1 is Ok {
                earlier.push(tx)
            } else {
                earlier
            };
            let more = |done: (Overlay, Result<Seq<Transaction>, Error>), after: World|
                done.1 is Ok && now.is_prefix_of(done.1->Ok_0);
            lemma_selection_ends(done.0, after, rest, now);
            assert forall|end: (Overlay, Result<Seq<Transaction>, Error>), last: World| #[trigger]
                more(end, last) implies post(end, last) by {
                assert(earlier =~= now.take(earlier.len() as int));
                assert(earlier =~= end.1->Ok_0.take(earlier.len() as int));
            }
            lemma_keeps_less(txs_program(done.0, rest, now), after, more, post);
        }
        lemma_keeps_bind(program, after_tx(tx, rest, earlier), world, anything, post);
    }
}

/// A transaction was selected.
spec fn selects_it(tx: Transaction) -> Choice {
    |done: (Overlay, Result<Seq<Transaction>, Error>), after: World|
        done.1 is Ok && done.1->Ok_0.contains(tx)
}

proof fn lemma_selects_it(
    answers: Answers,
    o: Overlay,
    world: World,
    txs: Seq<Transaction>,
    earlier: Seq<Transaction>,
    k: int,
)
    requires
        0 <= k < txs.len(),
        ready(txs[k], o, world),
        fits(o, world, txs[k].inputs@, txs[k].outputs@),
        forall|i: int| 0 <= i < k ==> independent(#[trigger] txs[i], txs[k]),
    ensures
        keeps_when(
            txs_program(o, txs, earlier),
            world,
            answers.given_smoothly(),
            selects_it(txs[k]),
        ),
    decreases k,
{
    let course = answers.given_smoothly();
    let tx = txs[0];
    let rest = txs.drop_first();
    let later = after_tx(tx, rest, earlier);
    let program = raw_tx_program(o, tx);
    let post = selects_it(txs[k]);
    if k == 0 {
        let middle = all_applied(o, world);
        law_transactions_in_order_are_applied(answers, o, tx, world);
        assert forall|done: (Overlay, Result<(), Error>), after: World| #[trigger]
            middle(done, after) implies keeps_when(later(done), after, course, post) by {
            let now = earlier.push(tx);
            let ends = |done: (Overlay, Result<Seq<Transaction>, Error>), after: World|
                done.1 is Ok && now.is_prefix_of(done.1->Ok_0);
            lemma_selection_ends(done.0, after, rest, now);
            assert forall|end: (Overlay, Result<Seq<Transaction>, Error>), last: World| #[trigger]
                ends(end, last) implies post(end, last) by {
                assert(now[earlier.len() as int] == tx);
                assert(end.1->Ok_0[earlier.len() as int] == tx);
            }
            lemma_keeps_less(later(done), after, ends, post);
            lemma_keeps_when(later(done), after, course, post);
        }
        lemma_when_bind(program, later, world, course, middle, post);
    } else {
        let middle = |done: (Overlay, Result<(), Error>), after: World|
            ready(txs[k], done.0, after);
        assert(independent(txs[0], txs[k]));
        lemma_stays_ready(answers, o, world, tx, txs[k]);
        assert(rest[k - 1] == txs[k]);
        assert forall|i: int| 0 <= i < k - 1 implies independent(#[trigger] rest[i], txs[k]) by {
            assert(rest[i] == txs[i + 1]);
        }
        assert forall|done: (Overlay, Result<(), Error>), after: World| #[trigger]
            middle(done, after) implies keeps_when(later(done), after, course, post) by {
            let now = if done.1 is Ok {
                earlier.push(tx)
            } else {
                earlier
            };
            lemma_ready_fits(txs[k], done.0, after);
            lemma_selects_it(answers, done.0, after, rest, now, k - 1);
        }
        lemma_when_bind(program, later, world, course, middle, post);
    }
}

proof fn lemma_ready_fits(tx: Transaction, o: Overlay, world: World)
    requires
        ready(tx, o, world),
    ensures
        fits(o, world, tx.inputs@, tx.outputs@),
{
    let items = tx_items(tx);
    let outputs = tx.outputs@;
    let inputs = tx.inputs@;
    assert forall|i: int| 0 <= i < outputs.len() implies {
        &&& items[i] == Item::Output(#[trigger] outputs[i])
        &&& known(o, world.index, outputs[i].commit) is None
    } by {
        assert(in_order(o, world, items[i]));
    }
    assert forall|i: int| 0 <= i < inputs.len() implies {
        &&& items[outputs.len() + i] == Item::Input(#[trigger] inputs[i])
        &&& names(o, world, inputs[i])
    } by {
        assert(in_order(o, world, items[outputs.len() + i]));
    }
    assert forall|i: int, j: int| 0 <= i < j < inputs.len() implies (
    #[trigger] inputs[i]).commit != (#[trigger] inputs[j]).commit by {
        assert(commit_of(items[outputs.len() + i]) != commit_of(items[outputs.len() + j]));
    }
    assert forall|i: int, j: int| 0 <= i < j < outputs.len() implies (
    #[trigger] outputs[i]).commit != (#[trigger] outputs[j]).commit by {
        assert(commit_of(items[i]) != commit_of(items[j]));
    }
    assert forall|i: int, j: int|
        0 <= i < inputs.len() && 0 <= j < outputs.len() implies (#[trigger] inputs[i]).commit != (
    #[trigger] outputs[j]).commit by {
        assert(commit_of(items[j]) != commit_of(items[outputs.len() + i]));
    }
}

/// A transaction that is in order is selected, however many others are tried
/// before it, whether they are selected or rejected, as long as they have no
/// commitment in common with it. That is, unless a tree refuses. If there is a
/// transaction to be applied first, and nothing is selected, then there is
/// something wrong with that one.
pub proof fn law_independent_transactions_are_selected(
    answers: Answers,
    o: Overlay,
    world: World,
    txs: Seq<Transaction>,
    pre_tx: Option<Transaction>,
    k: int,
)
    requires
        crate::select_laws::in_order(world),
        at_leaves(o, world),
        hashes_tell_apart(world),
        0 <= k < txs.len(),
        fits(o, world, txs[k].inputs@, txs[k].outputs@),
        forall|i: int| 0 <= i < k ==> independent(#[trigger] txs[i], txs[k]),
        pre_tx matches Some(tx) ==> independent(tx, txs[k]),
    ensures
        keeps_when(
            validate_txs_program(o, txs, pre_tx),
            world,
            answers.given_smoothly(),
            |done: (Overlay, Result<Seq<Transaction>, Error>), after: World|
                match done.1 {
                    Ok(selected) => selected.contains(txs[k]),
                    Err(e) => pre_tx matches Some(tx) && tx_fault(tx, e),
                },
        ),
{
    let course = answers.given_smoothly();
    let post = |done: (Overlay, Result<Seq<Transaction>, Error>), after: World|
        match done.1 {
            Ok(selected) => selected.contains(txs[k]),
            Err(e) => pre_tx matches Some(tx) && tx_fault(tx, e),
        };
    let one = selects_it(txs[k]);
    lemma_tx_in_order(o, world, txs[k]);
    match pre_tx {
        Some(tx) => {
            let program = raw_tx_program(o, tx);
            let fails = |done: (Overlay, Result<(), Error>), after: World|
                done.1 matches Err(e) ==> tx_fault(tx, e);
            let remains = |done: (Overlay, Result<(), Error>), after: World|
                ready(txs[k], done.0, after);
            let middle = |done: (Overlay, Result<(), Error>), after: World|
                fails(done, after) && remains(done, after);
            law_transactions_fail_for_a_reason(o, tx, world);
            lemma_narrower(program, world, smooth(failures()), course, fails);
            lemma_stays_ready(answers, o, world, tx, txs[k]);
            lemma_when_both(program, world, course, fails, remains, middle);
            assert forall|done: (Overlay, Result<(), Error>), after: World| #[trigger]
                middle(done, after) implies keeps_when(
                after_pre_tx(txs)(done),
                after,
                course,
                post,
            ) by {
                if done.1 is Ok {
                    let none = Seq::<Transaction>::empty();
                    lemma_ready_fits(txs[k], done.0, after);
                    lemma_selects_it(answers, done.0, after, txs, none, k);
                    lemma_when_both(
                        txs_program(done.0, txs, none),
                        after,
                        course,
                        one,
                        one,
                        post,
                    );
                }
            }
            lemma_when_bind(program, after_pre_tx(txs), world, course, middle, post);
        },
        None => {
            let none = Seq::<Transaction>::empty();
            lemma_selects_it(answers, o, world, txs, none, k);
            lemma_when_both(txs_program(o, txs, none), world, course, one, one, post);
        },
    }
}

} // verus!
