//! Of the transactions under validation, only those that are selected take
//! effect.
use crate::block_laws::alike;
use crate::extension::Overlay;
use crate::paths::Promise;
use crate::raw_tx::{
    after_pre_tx, after_tx, raw_tx_program, txs_program, validate_txs_program,
};
use crate::settle_laws::{
    adds_commit, fails, gone, law_applied_transactions_spend, law_rivals_are_rejected,
    law_spent_outputs_stay_spent, spends_commit, stays_gone, tx_applied,
};
use crate::tx_laws::{law_failed_transaction_is_undone, leaves_no_trace};
use crate::types::{Commitment, Error, Transaction};
use crate::world::{
    keeps, lemma_keeps_bind, lemma_keeps_both, lemma_keeps_broken, lemma_keeps_less,
    lemma_may_end, may_end, World,
};
use vstd::prelude::*;

verus! {

/// What is promised of a selection.
pub type Choice = spec_fn((Overlay, Result<Seq<Transaction>, Error>), World) -> bool;

/// Where transactions can be tried: the trees are in order and nothing has
/// failed in a way that cannot be undone.
pub open spec fn in_order(world: World) -> bool {
    &&& world.trees.sound()
    &&& alike(world.trees.output, world.trees.rproof)
    &&& world.reliable
    &&& !world.broken
}

/// A transaction was tried: it took effect, with the trees still in order, or it
/// left no trace. That is, unless a tree failed to rewind.
pub open spec fn tried(o: Overlay, world: World, tx: Transaction) -> Promise {
    |done: (Overlay, Result<(), Error>), after: World|
        {
            &&& may_end(raw_tx_program(o, tx), world, done, after)
            &&& leaves_no_trace(o, world)(done, after)
            &&& tx_applied(world, tx)(done, after)
        }
}

pub proof fn lemma_tried(o: Overlay, world: World, tx: Transaction)
    requires
        in_order(world),
    ensures
        keeps(raw_tx_program(o, tx), world, tried(o, world, tx)),
{
    let program = raw_tx_program(o, tx);
    let ends = |done: (Overlay, Result<(), Error>), after: World|
        may_end(program, world, done, after);
    let both = |done: (Overlay, Result<(), Error>), after: World|
        ends(done, after) && leaves_no_trace(o, world)(done, after);
    lemma_may_end(program, world);
    law_failed_transaction_is_undone(o, world, tx);
    law_applied_transactions_spend(o, world, tx);
    lemma_keeps_both(program, world, ends, leaves_no_trace(o, world), both);
    lemma_keeps_both(program, world, both, tx_applied(world, tx), tried(o, world, tx));
}

// ---- what takes effect

/// Transactions take effect one after the other: each is applied to what the
/// ones before it have left, but for the log.
pub open spec fn take_effect(
    o: Overlay,
    world: World,
    txs: Seq<Transaction>,
    end: Overlay,
    after: World,
) -> bool
    decreases txs.len(),
{
    if txs.len() == 0 {
        end == o && after == (World { log: after.log, ..world })
    } else {
        exists|now: World, next: Overlay, left: World|
            {
                &&& now == (World { log: now.log, ..world })
                &&& #[trigger] may_end(
                    raw_tx_program(o, txs[0]),
                    now,
                    (next, Ok::<(), Error>(())),
                    left,
                )
                &&& take_effect(next, left, txs.drop_first(), end, after)
            }
    }
}

/// The transactions selected from a list, after those that were selected before,
/// and no others, took effect.
pub open spec fn selected_take_effect(
    o: Overlay,
    world: World,
    earlier: Seq<Transaction>,
) -> Choice {
    |done: (Overlay, Result<Seq<Transaction>, Error>), after: World|
        !after.broken ==> {
            &&& done.1 is Ok
            &&& exists|selected: Seq<Transaction>|
                done.1->Ok_0 == earlier + selected && #[trigger] take_effect(
                    o,
                    world,
                    selected,
                    done.0,
                    after,
                )
        }
}

proof fn lemma_selected(
    o: Overlay,
    world: World,
    txs: Seq<Transaction>,
    earlier: Seq<Transaction>,
)
    requires
        in_order(world),
    ensures
        keeps(txs_program(o, txs, earlier), world, selected_take_effect(o, world, earlier)),
    decreases txs.len(),
{
    let post = selected_take_effect(o, world, earlier);
    if txs.len() == 0 {
        let none = Seq::<Transaction>::empty();
        let end = (o, Ok::<Seq<Transaction>, Error>(earlier));
        assert(earlier + none =~= earlier);
        assert(take_effect(o, world, none, end.0, world));
        assert(end.1->Ok_0 == earlier + none);
        assert(post(end, world));
    } else {
        let tx = txs[0];
        let rest = txs.drop_first();
        let later = after_tx(tx, rest, earlier);
        let middle = tried(o, world, tx);
        lemma_tried(o, world, tx);
        assert forall|done: (Overlay, Result<(), Error>), after: World| #[trigger]
            middle(done, after) implies keeps(later(done), after, post) by {
            if after.broken {
                lemma_keeps_broken(later(done), after, post);
            } else if let Ok(unit) = done.1 {
                assert(unit == ());
                let more = earlier.push(tx);
                let promise = selected_take_effect(done.0, after, more);
                lemma_selected(done.0, after, rest, more);
                assert forall|end: (Overlay, Result<Seq<Transaction>, Error>), last: World|
                    #[trigger] promise(end, last) implies post(end, last) by {
                    if !last.broken {
                        let selected = choose|selected: Seq<Transaction>|
                            end.1->Ok_0 == more + selected && #[trigger] take_effect(
                                done.0,
                                after,
                                selected,
                                end.0,
                                last,
                            );
                        let all = seq![tx] + selected;
                        assert(more + selected =~= earlier + all);
                        assert(all.drop_first() =~= selected);
                        assert(world == (World { log: world.log, ..world }));
                        assert(may_end(
                            raw_tx_program(o, all[0]),
                            world,
                            (done.0, Ok::<(), Error>(())),
                            after,
                        ));
                        assert(take_effect(o, world, all, end.0, last));
                    }
                }
                lemma_keeps_less(txs_program(done.0, rest, more), after, promise, post);
            } else {
                let promise = selected_take_effect(o, after, earlier);
                lemma_selected(o, after, rest, earlier);
                assert forall|end: (Overlay, Result<Seq<Transaction>, Error>), last: World|
                    #[trigger] promise(end, last) implies post(end, last) by {
                    if !last.broken {
                        let selected = choose|selected: Seq<Transaction>|
                            end.1->Ok_0 == earlier + selected && #[trigger] take_effect(
                                o,
                                after,
                                selected,
                                end.0,
                                last,
                            );
                        lemma_any_log(o, world, after, selected, end.0, last);
                    }
                }
                lemma_keeps_less(txs_program(o, rest, earlier), after, promise, post);
            }
        }
        lemma_keeps_bind(raw_tx_program(o, tx), later, world, middle, post);
    }
}

/// The log does not matter.
proof fn lemma_any_log(
    o: Overlay,
    world: World,
    other: World,
    txs: Seq<Transaction>,
    end: Overlay,
    after: World,
)
    requires
        other == (World { log: other.log, ..world }),
        take_effect(o, other, txs, end, after),
    ensures
        take_effect(o, world, txs, end, after),
{
    if txs.len() > 0 {
        let (now, next, left) = choose|now: World, next: Overlay, left: World|
            {
                &&& now == (World { log: now.log, ..other })
                &&& #[trigger] may_end(
                    raw_tx_program(o, txs[0]),
                    now,
                    (next, Ok::<(), Error>(())),
                    left,
                )
                &&& take_effect(next, left, txs.drop_first(), end, after)
            };
        assert(now == (World { log: now.log, ..world }));
    }
}

/// The transaction that is applied before all others, if there is one.
pub open spec fn first_of(pre_tx: Option<Transaction>) -> Seq<Transaction> {
    match pre_tx {
        Some(tx) => seq![tx],
        None => Seq::empty(),
    }
}

/// A validation that selects transactions leaves the trees, and what the unit of
/// work knows, as those transactions leave them. One that fails leaves them as
/// they were.
pub open spec fn only_selected(o: Overlay, world: World, pre_tx: Option<Transaction>) -> Choice {
    |done: (Overlay, Result<Seq<Transaction>, Error>), after: World|
        !after.broken ==> match done.1 {
            Ok(selected) => take_effect(o, world, first_of(pre_tx) + selected, done.0, after),
            Err(_) => done.0 == o && after == (World { log: after.log, ..world }),
        }
}

/// Of the transactions under validation, exactly the selected ones take effect,
/// in order: one that is rejected leaves the trees and what the unit of work
/// knows as they were. That is, unless a tree failed to rewind.
pub proof fn law_only_the_selected_take_effect(
    o: Overlay,
    world: World,
    txs: Seq<Transaction>,
    pre_tx: Option<Transaction>,
)
    requires
        in_order(world),
    ensures
        keeps(
            validate_txs_program(o, txs, pre_tx),
            world,
            only_selected(o, world, pre_tx),
        ),
{
    let post = only_selected(o, world, pre_tx);
    let none = Seq::<Transaction>::empty();
    match pre_tx {
        Some(tx) => {
            let later = after_pre_tx(txs);
            let middle = tried(o, world, tx);
            lemma_tried(o, world, tx);
            assert forall|done: (Overlay, Result<(), Error>), after: World| #[trigger]
                middle(done, after) implies keeps(later(done), after, post) by {
                if after.broken {
                    lemma_keeps_broken(later(done), after, post);
                } else if let Ok(unit) = done.1 {
                    assert(unit == ());
                    let promise = selected_take_effect(done.0, after, none);
                    lemma_selected(done.0, after, txs, none);
                    assert forall|end: (Overlay, Result<Seq<Transaction>, Error>), last: World|
                        #[trigger] promise(end, last) implies post(end, last) by {
                        if !last.broken {
                            let selected = choose|selected: Seq<Transaction>|
                                end.1->Ok_0 == none + selected && #[trigger] take_effect(
                                    done.0,
                                    after,
                                    selected,
                                    end.0,
                                    last,
                                );
                            let all = seq![tx] + selected;
                            assert(none + selected =~= selected);
                            assert(all.drop_first() =~= selected);
                            assert(world == (World { log: world.log, ..world }));
                            assert(may_end(
                                raw_tx_program(o, all[0]),
                                world,
                                (done.0, Ok::<(), Error>(())),
                                after,
                            ));
                            assert(take_effect(o, world, all, end.0, last));
                        }
                    }
                    lemma_keeps_less(txs_program(done.0, txs, none), after, promise, post);
                }
            }
            lemma_keeps_bind(raw_tx_program(o, tx), later, world, middle, post);
        },
        None => {
            let promise = selected_take_effect(o, world, none);
            lemma_selected(o, world, txs, none);
            assert forall|end: (Overlay, Result<Seq<Transaction>, Error>), last: World| #[trigger]
                promise(end, last) implies post(end, last) by {
                if !last.broken {
                    let selected = choose|selected: Seq<Transaction>|
                        end.1->Ok_0 == none + selected && #[trigger] take_effect(
                            o,
                            world,
                            selected,
                            end.0,
                            last,
                        );
                    assert(none + selected =~= selected);
                }
            }
            lemma_keeps_less(txs_program(o, txs, none), world, promise, post);
        },
    }
}

// ---- rivals

/// No two transactions spend the output of a commitment.
pub open spec fn spent_once(txs: Seq<Transaction>, commit: Commitment) -> bool {
    forall|i: int, j: int|
        0 <= i < j < txs.len() ==> !(spends_commit(#[trigger] txs[i], commit) && spends_commit(
            #[trigger] txs[j],
            commit,
        ))
}

/// Some transaction spends the output of a commitment.
pub open spec fn spent_by_some(txs: Seq<Transaction>, commit: Commitment) -> bool {
    exists|i: int| 0 <= i < txs.len() && spends_commit(#[trigger] txs[i], commit)
}

/// No transaction adds an output with a commitment.
pub open spec fn added_by_none(txs: Seq<Transaction>, commit: Commitment) -> bool {
    forall|i: int| 0 <= i < txs.len() ==> !adds_commit(#[trigger] txs[i], commit)
}

/// Of the transactions that took effect, `before` and then those selected, at
/// most one spends the output of a commitment.
pub open spec fn shares_nothing(before: Seq<Transaction>, commit: Commitment) -> Choice {
    |done: (Overlay, Result<Seq<Transaction>, Error>), after: World|
        !after.broken && done.1 is Ok ==> spent_once(before + done.1->Ok_0, commit)
}

/// One transaction more took effect.
proof fn lemma_spent_once(txs: Seq<Transaction>, tx: Transaction, commit: Commitment)
    requires
        spent_once(txs, commit),
        !(spent_by_some(txs, commit) && spends_commit(tx, commit)),
    ensures
        spent_once(txs.push(tx), commit),
        spent_by_some(txs.push(tx), commit) ==> spent_by_some(txs, commit) || spends_commit(
            tx,
            commit,
        ),
{
    let more = txs.push(tx);
    assert forall|i: int, j: int| 0 <= i < j < more.len() implies !(spends_commit(
        #[trigger] more[i],
        commit,
    ) && spends_commit(#[trigger] more[j], commit)) by {
        assert(more[i] == txs[i]);
        if j < txs.len() {
            assert(more[j] == txs[j]);
        }
    }
    if spent_by_some(more, commit) {
        let i = choose|i: int| 0 <= i < more.len() && spends_commit(#[trigger] more[i], commit);
        if i < txs.len() {
            assert(spends_commit(txs[i], commit));
        }
    }
}

/// What holds of a commitment when a transaction was tried: if its output was
/// spent, it still is, and the transaction, if it took effect, does not spend
/// it.
spec fn tried_for(o: Overlay, world: World, tx: Transaction, commit: Commitment) -> Promise {
    |done: (Overlay, Result<(), Error>), after: World|
        {
            &&& tried(o, world, tx)(done, after)
            &&& gone(o, world, commit) && done.1 is Ok ==> gone(done.0, after, commit)
                && !spends_commit(tx, commit)
        }
}

proof fn lemma_tried_for(o: Overlay, world: World, tx: Transaction, commit: Commitment)
    requires
        in_order(world),
        !adds_commit(tx, commit),
    ensures
        keeps(raw_tx_program(o, tx), world, tried_for(o, world, tx, commit)),
{
    let program = raw_tx_program(o, tx);
    let post = tried_for(o, world, tx, commit);
    lemma_tried(o, world, tx);
    if gone(o, world, commit) {
        if spends_commit(tx, commit) {
            law_rivals_are_rejected(o, world, tx, commit);
            lemma_keeps_both(program, world, tried(o, world, tx), fails(), post);
        } else {
            law_spent_outputs_stay_spent(o, world, tx, commit);
            lemma_keeps_both(program, world, tried(o, world, tx), stays_gone(commit), post);
        }
    } else {
        lemma_keeps_less(program, world, tried(o, world, tx), post);
    }
}

proof fn lemma_shares(
    o: Overlay,
    world: World,
    txs: Seq<Transaction>,
    before: Seq<Transaction>,
    earlier: Seq<Transaction>,
    commit: Commitment,
)
    requires
        in_order(world),
        added_by_none(txs, commit),
        spent_once(before + earlier, commit),
        spent_by_some(before + earlier, commit) ==> gone(o, world, commit),
    ensures
        keeps(txs_program(o, txs, earlier), world, shares_nothing(before, commit)),
    decreases txs.len(),
{
    if txs.len() > 0 {
        let post = shares_nothing(before, commit);
        let tx = txs[0];
        let rest = txs.drop_first();
        let later = after_tx(tx, rest, earlier);
        let middle = tried_for(o, world, tx, commit);
        assert(!adds_commit(txs[0], commit));
        lemma_tried_for(o, world, tx, commit);
        assert forall|i: int| 0 <= i < rest.len() implies !adds_commit(
            #[trigger] rest[i],
            commit,
        ) by {
            assert(rest[i] == txs[i + 1]);
        }
        assert forall|done: (Overlay, Result<(), Error>), after: World| #[trigger]
            middle(done, after) implies keeps(later(done), after, post) by {
            if after.broken {
                lemma_keeps_broken(later(done), after, post);
            } else if done.1 is Ok {
                lemma_spent_once(before + earlier, tx, commit);
                assert(before + earlier.push(tx) =~= (before + earlier).push(tx));
                lemma_gone(tx, commit, done, after, world);
                lemma_shares(done.0, after, rest, before, earlier.push(tx), commit);
            } else {
                lemma_shares(o, after, rest, before, earlier, commit);
            }
        }
        lemma_keeps_bind(raw_tx_program(o, tx), later, world, middle, post);
    }
}

/// What a transaction that took effect spends is gone.
pub proof fn lemma_gone(
    tx: Transaction,
    commit: Commitment,
    done: (Overlay, Result<(), Error>),
    after: World,
    world: World,
)
    requires
        tx_applied(world, tx)(done, after),
        done.1 is Ok,
    ensures
        spends_commit(tx, commit) ==> gone(done.0, after, commit),
{
    if spends_commit(tx, commit) {
        let i = choose|i: int|
            0 <= i < tx.inputs@.len() && #[trigger] tx.inputs@[i].commit == commit;
        assert(gone(done.0, after, tx.inputs@[i].commit));
    }
}

/// The transactions that are selected share no output: at most one of them, and
/// of the one that is applied before them, spends the output of a commitment
/// that none of the transactions adds.
pub proof fn law_selected_share_no_output(
    o: Overlay,
    world: World,
    txs: Seq<Transaction>,
    pre_tx: Option<Transaction>,
    commit: Commitment,
)
    requires
        in_order(world),
        added_by_none(txs, commit),
        added_by_none(first_of(pre_tx), commit),
    ensures
        keeps(
            validate_txs_program(o, txs, pre_tx),
            world,
            shares_nothing(first_of(pre_tx), commit),
        ),
{
    let before = first_of(pre_tx);
    let post = shares_nothing(before, commit);
    let none = Seq::<Transaction>::empty();
    assert(before + none =~= before);
    match pre_tx {
        Some(tx) => {
            let later = after_pre_tx(txs);
            let middle = tried_for(o, world, tx, commit);
            assert(!adds_commit(before[0], commit));
            lemma_tried_for(o, world, tx, commit);
            assert forall|done: (Overlay, Result<(), Error>), after: World| #[trigger]
                middle(done, after) implies keeps(later(done), after, post) by {
                if after.broken {
                    lemma_keeps_broken(later(done), after, post);
                } else if done.1 is Ok {
                    lemma_gone(tx, commit, done, after, world);
                    lemma_shares(done.0, after, txs, before, none, commit);
                }
            }
            lemma_keeps_bind(raw_tx_program(o, tx), later, world, middle, post);
        },
        None => lemma_shares(o, world, txs, before, none, commit),
    }
}

/// Nothing more was selected, and nothing but the log changed.
pub open spec fn unmoved(o: Overlay, world: World, earlier: Seq<Transaction>) -> Choice {
    |done: (Overlay, Result<Seq<Transaction>, Error>), after: World|
        !after.broken ==> {
            &&& done == (o, Ok::<Seq<Transaction>, Error>(earlier))
            &&& after == (World { log: after.log, ..world })
        }
}

/// Once an output is spent, transactions that spend it, and do not add it anew,
/// are all rejected and change nothing, however many they are.
pub proof fn law_rivals_change_nothing(
    o: Overlay,
    world: World,
    txs: Seq<Transaction>,
    earlier: Seq<Transaction>,
    commit: Commitment,
)
    requires
        in_order(world),
        gone(o, world, commit),
        added_by_none(txs, commit),
        forall|i: int| 0 <= i < txs.len() ==> spends_commit(#[trigger] txs[i], commit),
    ensures
        keeps(txs_program(o, txs, earlier), world, unmoved(o, world, earlier)),
    decreases txs.len(),
{
    if txs.len() > 0 {
        let post = unmoved(o, world, earlier);
        let tx = txs[0];
        let rest = txs.drop_first();
        let later = after_tx(tx, rest, earlier);
        let middle = tried_for(o, world, tx, commit);
        assert(!adds_commit(txs[0], commit) && spends_commit(txs[0], commit));
        lemma_tried_for(o, world, tx, commit);
        assert forall|i: int| 0 <= i < rest.len() implies !adds_commit(#[trigger] rest[i], commit)
            && spends_commit(rest[i], commit) by {
            assert(rest[i] == txs[i + 1]);
        }
        assert forall|done: (Overlay, Result<(), Error>), after: World| #[trigger]
            middle(done, after) implies keeps(later(done), after, post) by {
            if after.broken {
                lemma_keeps_broken(later(done), after, post);
            } else {
                let promise = unmoved(o, after, earlier);
                law_rivals_change_nothing(o, after, rest, earlier, commit);
                assert forall|end: (Overlay, Result<Seq<Transaction>, Error>), last: World|
                    #[trigger] promise(end, last) implies post(end, last) by {}
                lemma_keeps_less(txs_program(o, rest, earlier), after, promise, post);
            }
        }
        lemma_keeps_bind(raw_tx_program(o, tx), later, world, middle, post);
    }
}

/// Either nothing was selected and nothing but the log changed, or exactly one
/// transaction was selected and took effect, and the output is spent.
pub open spec fn one_wins(
    o: Overlay,
    world: World,
    txs: Seq<Transaction>,
    commit: Commitment,
) -> Choice {
    |done: (Overlay, Result<Seq<Transaction>, Error>), after: World|
        !after.broken ==> {
            ||| done == (o, Ok::<Seq<Transaction>, Error>(Seq::empty())) && after == (World {
                log: after.log,
                ..world
            })
            ||| gone(done.0, after, commit) && exists|i: int|
                0 <= i < txs.len() && done.1 == Ok::<Seq<Transaction>, Error>(
                    seq![#[trigger] txs[i]],
                ) && take_effect(o, world, seq![txs[i]], done.0, after)
        }
}

/// When transactions compete for an output, at most one of them is selected, the
/// trees are as that one leaves them, and the output is spent.
pub proof fn law_one_rival_wins(
    o: Overlay,
    world: World,
    txs: Seq<Transaction>,
    commit: Commitment,
)
    requires
        in_order(world),
        added_by_none(txs, commit),
        forall|i: int| 0 <= i < txs.len() ==> spends_commit(#[trigger] txs[i], commit),
    ensures
        keeps(
            validate_txs_program(o, txs, None),
            world,
            one_wins(o, world, txs, commit),
        ),
    decreases txs.len(),
{
    let post = one_wins(o, world, txs, commit);
    let none = Seq::<Transaction>::empty();
    if txs.len() > 0 {
        let tx = txs[0];
        let rest = txs.drop_first();
        let later = after_tx(tx, rest, none);
        let middle = tried(o, world, tx);
        lemma_tried(o, world, tx);
        assert forall|i: int| 0 <= i < rest.len() implies !adds_commit(#[trigger] rest[i], commit)
            && spends_commit(rest[i], commit) by {
            assert(rest[i] == txs[i + 1]);
        }
        assert forall|done: (Overlay, Result<(), Error>), after: World| #[trigger]
            middle(done, after) implies keeps(later(done), after, post) by {
            if after.broken {
                lemma_keeps_broken(later(done), after, post);
            } else if let Ok(unit) = done.1 {
                assert(unit == ());
                let one = none.push(tx);
                let promise = unmoved(done.0, after, one);
                assert(spends_commit(txs[0], commit));
                lemma_gone(tx, commit, done, after, world);
                law_rivals_change_nothing(done.0, after, rest, one, commit);
                assert forall|end: (Overlay, Result<Seq<Transaction>, Error>), last: World|
                    #[trigger] promise(end, last) implies post(end, last) by {
                    if !last.broken {
                        assert(one =~= seq![txs[0]]);
                        assert(one.drop_first() =~= none);
                        assert(take_effect(done.0, after, none, end.0, last));
                        assert(world == (World { log: world.log, ..world }));
                        assert(may_end(
                            raw_tx_program(o, one[0]),
                            world,
                            (done.0, Ok::<(), Error>(())),
                            after,
                        ));
                        assert(take_effect(o, world, one, end.0, last));
                        assert(gone(end.0, last, commit));
                    }
                }
                lemma_keeps_less(txs_program(done.0, rest, one), after, promise, post);
            } else {
                let promise = one_wins(o, after, rest, commit);
                law_one_rival_wins(o, after, rest, commit);
                assert forall|end: (Overlay, Result<Seq<Transaction>, Error>), last: World|
                    #[trigger] promise(end, last) implies post(end, last) by {
                    if !last.broken && end.1 != Ok::<Seq<Transaction>, Error>(Seq::empty()) {
                        let i = choose|i: int|
                            0 <= i < rest.len() && end.1 == Ok::<Seq<Transaction>, Error>(
                                seq![#[trigger] rest[i]],
                            ) && take_effect(o, after, seq![rest[i]], end.0, last);
                        assert(rest[i] == txs[i + 1]);
                        lemma_any_log(o, world, after, seq![rest[i]], end.0, last);
                    }
                }
                lemma_keeps_less(txs_program(o, rest, none), after, promise, post);
            }
        }
        lemma_keeps_bind(raw_tx_program(o, tx), later, world, middle, post);
    }
}

} // verus!
