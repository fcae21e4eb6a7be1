//! With a host that always answers alike, validation can be repeated.
use crate::extension::Overlay;
use crate::program::{bind, Call, Program, Reply};
use crate::raw_tx::{
    after_pre_tx, after_tx, raw_tx_program, txs_program, validate_txs_program,
};
use crate::select_laws::{
    added_by_none, in_order, law_rivals_change_nothing, lemma_gone, lemma_tried, tried, unmoved,
};
use crate::settle_laws::{adds_commit, spends_commit};
use crate::types::{Commitment, Error, Transaction};
use crate::world::{keeps, lemma_keeps_broken, World};
use vstd::prelude::*;

verus! {

/// What answers requests: the reply that a request gets in a world, and the
/// world after it.
pub type Host = spec_fn(World, Call) -> (Reply, World);

/// Two worlds differ in nothing but the log.
pub open spec fn same(one: World, other: World) -> bool {
    other == (World { log: other.log, ..one })
}

/// The host keeps the log, and the log does not affect what it does.
pub open spec fn faithful(host: Host) -> bool {
    &&& forall|world: World, call: Call| (#[trigger] host(world, call)).1.log == world.log.push(
        call,
    )
    &&& forall|one: World, other: World, call: Call|
        #![trigger host(one, call), host(other, call)]
        same(one, other) ==> host(other, call).0 == host(one, call).0 && same(
            host(one, call).1,
            host(other, call).1,
        )
}

/// The end of a dialogue: its result, and the world that it leaves.
pub ghost struct End<T> {
    pub result: T,
    pub world: World,
}

/// How a dialogue with a host ends. There is no end if a reply is
/// not one that may be given, nor for a walk along the chain.
pub open spec fn outcome<T>(program: Program<T>, world: World, host: Host) -> Option<End<T>>
    decreases program,
{
    match program {
        Program::Ret(result) => Some(End { result, world }),
        Program::Ask(call, need, rest) => {
            let (reply, after) = host(world, call);
            if world.allows(call, reply, after) && need.met_by(reply) {
                outcome(rest(reply), after, host)
            } else {
                None
            }
        },
        Program::Walk(_, _) => None,
    }
}

/// A promise that is kept whatever the replies are is kept with every host.
pub proof fn law_promises_hold_in_the_end<T>(
    program: Program<T>,
    world: World,
    host: Host,
    post: spec_fn(T, World) -> bool,
)
    requires
        keeps(program, world, post),
        outcome(program, world, host) is Some,
    ensures
        ({
            let end = outcome(program, world, host)->Some_0;
            post(end.result, end.world)
        }),
    decreases program,
{
    if let Program::Ask(call, need, rest) = program {
        let (reply, after) = host(world, call);
        law_promises_hold_in_the_end(rest(reply), after, host, post);
    }
}

proof fn lemma_outcome_bind<A, B>(
    first: Program<A>,
    rest: spec_fn(A) -> Program<B>,
    world: World,
    host: Host,
)
    ensures
        outcome(bind(first, rest), world, host) == (match outcome(first, world, host) {
            Some(end) => outcome(rest(end.result), end.world, host),
            None => None,
        }),
    decreases first,
{
    if let Program::Ask(call, need, later) = first {
        let (reply, after) = host(world, call);
        lemma_outcome_bind(later(reply), rest, after, host);
    }
}

/// The log does not affect which replies may be given.
proof fn lemma_allows(one: World, other: World, call: Call, reply: Reply, after: World, left: World)
    requires
        same(one, other),
        same(after, left),
        left.log == other.log.push(call),
        one.allows(call, reply, after),
    ensures
        other.allows(call, reply, left),
{
}

/// The log does not affect how a dialogue ends.
proof fn lemma_outcome_log<T>(program: Program<T>, one: World, other: World, host: Host)
    requires
        faithful(host),
        same(one, other),
        outcome(program, one, host) is Some,
    ensures
        ({
            let end = outcome(program, one, host)->Some_0;
            let also = outcome(program, other, host);
            &&& also is Some
            &&& also->Some_0.result == end.result
            &&& same(end.world, also->Some_0.world)
        }),
    decreases program,
{
    if let Program::Ask(call, need, rest) = program {
        let (reply, after) = host(one, call);
        let left = host(other, call).1;
        lemma_allows(one, other, call, reply, after, left);
        lemma_outcome_log(rest(reply), after, left, host);
    }
}

/// What is broken stays broken.
proof fn lemma_outcome_broken<T>(program: Program<T>, world: World, host: Host)
    requires
        outcome(program, world, host) is Some,
        !outcome(program, world, host)->Some_0.world.broken,
    ensures
        !world.broken,
{
    if world.broken {
        let post = |result: T, after: World| after.broken;
        lemma_keeps_broken(program, world, post);
        law_promises_hold_in_the_end(program, world, host, post);
    }
}

/// How the validation of transactions ends.
pub open spec fn ends_with(
    end: Option<End<(Overlay, Result<Seq<Transaction>, Error>)>>,
    o: Overlay,
    selected: Seq<Transaction>,
    after: World,
) -> bool {
    &&& end is Some
    &&& end->Some_0.result == (o, Ok::<Seq<Transaction>, Error>(selected))
    &&& same(after, end->Some_0.world)
}

/// What is selected from a list after those selected before, such that trying
/// only that gives the same.
proof fn lemma_repeat(
    o: Overlay,
    world: World,
    txs: Seq<Transaction>,
    earlier: Seq<Transaction>,
    host: Host,
) -> (selected: Seq<Transaction>)
    requires
        faithful(host),
        in_order(world),
        outcome(txs_program(o, txs, earlier), world, host) is Some,
        !outcome(txs_program(o, txs, earlier), world, host)->Some_0.world.broken,
    ensures
        ({
            let end = outcome(txs_program(o, txs, earlier), world, host)->Some_0;
            &&& end.result.1 == Ok::<Seq<Transaction>, Error>(earlier + selected)
            &&& forall|other: World, before: Seq<Transaction>|
                same(world, other) ==> ends_with(
                    #[trigger] outcome(txs_program(o, selected, before), other, host),
                    end.result.0,
                    before + selected,
                    end.world,
                )
        }),
    decreases txs.len(),
{
    let whole = txs_program(o, txs, earlier);
    let end = outcome(whole, world, host)->Some_0;
    if txs.len() == 0 {
        let none = Seq::<Transaction>::empty();
        assert(earlier + none =~= earlier);
        assert forall|other: World, before: Seq<Transaction>| same(world, other) implies ends_with(
            #[trigger] outcome(txs_program(o, none, before), other, host),
            end.result.0,
            before + none,
            end.world,
        ) by {
            assert(before + none =~= before);
        }
        none
    } else {
        let tx = txs[0];
        let rest = txs.drop_first();
        let trial = raw_tx_program(o, tx);
        let later = after_tx(tx, rest, earlier);
        lemma_outcome_bind(trial, later, world, host);
        let End { result: done, world: after } = outcome(trial, world, host)->Some_0;
        lemma_outcome_broken(later(done), after, host);
        lemma_tried(o, world, tx);
        law_promises_hold_in_the_end(trial, world, host, tried(o, world, tx));
        if let Ok(unit) = done.1 {
            assert(unit == ());
            let more = earlier.push(tx);
            let some = lemma_repeat(done.0, after, rest, more, host);
            let selected = seq![tx] + some;
            assert(more + some =~= earlier + selected);
            assert forall|other: World, before: Seq<Transaction>| same(world, other) implies
                ends_with(
                #[trigger] outcome(txs_program(o, selected, before), other, host),
                end.result.0,
                before + selected,
                end.world,
            ) by {
                assert(selected.drop_first() =~= some);
                lemma_outcome_bind(trial, after_tx(tx, some, before), other, host);
                lemma_outcome_log(trial, world, other, host);
                let left = outcome(trial, other, host)->Some_0.world;
                assert(same(after, left));
                let next = outcome(txs_program(done.0, some, before.push(tx)), left, host);
                assert(ends_with(next, end.result.0, before.push(tx) + some, end.world));
                assert(before.push(tx) + some =~= before + selected);
            }
            selected
        } else {
            let some = lemma_repeat(o, after, rest, earlier, host);
            assert forall|other: World, before: Seq<Transaction>| same(world, other) implies
                ends_with(
                #[trigger] outcome(txs_program(o, some, before), other, host),
                end.result.0,
                before + some,
                end.world,
            ) by {
                assert(same(after, other));
            }
            some
        }
    }
}

/// Validation can be repeated: with a host that always answers alike, the
/// validation of the transactions that were selected selects all of them, and
/// leaves the trees and the unit of work as the first validation did.
pub proof fn law_validation_is_repeatable(
    o: Overlay,
    world: World,
    txs: Seq<Transaction>,
    pre_tx: Option<Transaction>,
    host: Host,
)
    requires
        faithful(host),
        in_order(world),
        outcome(validate_txs_program(o, txs, pre_tx), world, host) is Some,
        outcome(validate_txs_program(o, txs, pre_tx), world, host)->Some_0.result.1 is Ok,
        !outcome(validate_txs_program(o, txs, pre_tx), world, host)->Some_0.world.broken,
    ensures
        ({
            let first = outcome(validate_txs_program(o, txs, pre_tx), world, host)->Some_0;
            let selected = first.result.1->Ok_0;
            ends_with(
                outcome(validate_txs_program(o, selected, pre_tx), world, host),
                first.result.0,
                selected,
                first.world,
            )
        }),
{
    let none = Seq::<Transaction>::empty();
    match pre_tx {
        Some(tx) => {
            let trial = raw_tx_program(o, tx);
            lemma_outcome_bind(trial, after_pre_tx(txs), world, host);
            let End { result: done, world: after } = outcome(trial, world, host)->Some_0;
            lemma_outcome_broken(after_pre_tx(txs)(done), after, host);
            lemma_tried(o, world, tx);
            law_promises_hold_in_the_end(trial, world, host, tried(o, world, tx));
            let selected = lemma_repeat(done.0, after, txs, none, host);
            assert(none + selected =~= selected);
            lemma_outcome_bind(trial, after_pre_tx(selected), world, host);
            assert(same(after, after));
            let again = outcome(txs_program(done.0, selected, none), after, host);
            let first = outcome(txs_program(done.0, txs, none), after, host)->Some_0;
            assert(ends_with(again, first.result.0, none + selected, first.world));
        },
        None => {
            let selected = lemma_repeat(o, world, txs, none, host);
            assert(none + selected =~= selected);
            assert(same(world, world));
            let again = outcome(txs_program(o, selected, none), world, host);
            let first = outcome(txs_program(o, txs, none), world, host)->Some_0;
            assert(ends_with(again, first.result.0, none + selected, first.world));
        },
    }
}

/// When transactions compete for an output, and the first of them can be
/// applied, then only the first is selected, and the trees and the unit of work
/// are as it leaves them.
pub proof fn law_the_first_rival_wins(
    o: Overlay,
    world: World,
    txs: Seq<Transaction>,
    commit: Commitment,
    host: Host,
)
    requires
        in_order(world),
        txs.len() > 0,
        added_by_none(txs, commit),
        forall|i: int| 0 <= i < txs.len() ==> spends_commit(#[trigger] txs[i], commit),
        outcome(raw_tx_program(o, txs[0]), world, host) is Some,
        outcome(raw_tx_program(o, txs[0]), world, host)->Some_0.result.1 is Ok,
        outcome(validate_txs_program(o, txs, None), world, host) is Some,
        !outcome(validate_txs_program(o, txs, None), world, host)->Some_0.world.broken,
    ensures
        ({
            let alone = outcome(raw_tx_program(o, txs[0]), world, host)->Some_0;
            ends_with(
                outcome(validate_txs_program(o, txs, None), world, host),
                alone.result.0,
                seq![txs[0]],
                alone.world,
            )
        }),
{
    let tx = txs[0];
    let rest = txs.drop_first();
    let none = Seq::<Transaction>::empty();
    let one = none.push(tx);
    let trial = raw_tx_program(o, tx);
    let later = after_tx(tx, rest, none);
    lemma_outcome_bind(trial, later, world, host);
    let End { result: done, world: after } = outcome(trial, world, host)->Some_0;
    lemma_outcome_broken(later(done), after, host);
    lemma_tried(o, world, tx);
    law_promises_hold_in_the_end(trial, world, host, tried(o, world, tx));
    lemma_gone(tx, commit, done, after, world);
    assert forall|i: int| 0 <= i < rest.len() implies spends_commit(#[trigger] rest[i], commit) by {
        assert(rest[i] == txs[i + 1]);
    }
    assert(added_by_none(rest, commit)) by {
        assert forall|i: int| 0 <= i < rest.len() implies !adds_commit(
            #[trigger] rest[i],
            commit,
        ) by {
            assert(rest[i] == txs[i + 1]);
        }
    }
    law_rivals_change_nothing(done.0, after, rest, one, commit);
    law_promises_hold_in_the_end(
        txs_program(done.0, rest, one),
        after,
        host,
        unmoved(done.0, after, one),
    );
    assert(one =~= seq![tx]);
}

} // verus!
