//! A transaction that cannot be applied leaves no trace, and those that can are
//! selected in order.
use crate::apply::{
    input_prune, input_prune_proof, kernel_program, output_push, output_push_proof,
};
use crate::bitmap::{low_bits, positions_between};
use crate::block_laws::{alike, lemma_added, lemma_tree_back, spends};
use crate::extension::Overlay;
use crate::paths::{
    keeps_items, known, lemma_input, lemma_items, lemma_output, lemma_raw_tx, Promise,
};
use crate::program::{bind, Reply};
use crate::raw_tx::{
    after_pre_tx, after_tx, after_tx_items, after_undo, raw_tx_lookup, raw_tx_program,
    raw_tx_read, raw_tx_sized, raw_tx_spent, rewind_raw_tx_program, tx_items, txs_program,
    validate_txs_program,
};
use crate::rewind::{rewind_kernel, rewind_output, rewind_rproof};
use crate::tasks::{item_program, items_program, Item};
use crate::types::{
    Commitment, Error, Input, Output, OutputIdentifier, Transaction, TxKernel,
};
use crate::world::{
    completes, extends, keeps, lemma_complete, lemma_elements_back, lemma_keeps_anything,
    lemma_keeps_bind, lemma_keeps_less, lemma_pushed, lemma_small, Element, TreeState, World,
};
use vstd::prelude::*;

verus! {

/// The positions of the unspent outputs that inputs spend, in the form in which
/// a bitmap keeps them.
pub open spec fn noted(o: Overlay, world: World, inputs: Seq<Input>) -> Set<u32> {
    Set::new(
        |x: u32|
            exists|i: int|
                0 <= i < inputs.len() && notes(o, world, #[trigger] inputs[i].commit, x),
    )
}

/// Whether a commitment has an unspent output at a position.
pub open spec fn notes(o: Overlay, world: World, commit: Commitment, x: u32) -> bool {
    match known(o, world.index, commit) {
        Some(pos) => world.trees.output.live.contains(pos) && x == low_bits(pos),
        None => false,
    }
}

/// What a transaction has to be undone to.
ghost struct Origin {
    o: Overlay,
    world: World,
    noted: Set<u32>,
}

impl Origin {
    /// A tree has what it had, but for the noted positions.
    spec fn has(self, before: TreeState, now: TreeState) -> bool {
        &&& extends(before, now)
        &&& forall|pos: u64|
            1 <= pos <= before.size ==> {
                &&& #[trigger] now.live.contains(pos) ==> before.live.contains(pos)
                &&& before.live.contains(pos) ==> now.live.contains(pos) || self.noted.contains(
                    low_bits(pos),
                )
            }
    }

    proof fn lemma_has_more(self, before: TreeState, now: TreeState, after: TreeState)
        requires
            self.has(before, now),
            now.push_failed(after),
        ensures
            self.has(before, after),
    {
        assert forall|pos: u64| pos <= before.size implies #[trigger] after.elements.get(pos)
            == before.elements.get(pos) by {
            assert(after.elements.get(pos) == now.elements.get(pos));
        }
    }

    /// What the unit of work knows of outputs is what it knew, but for outputs
    /// that were added since.
    spec fn knows(self, o: Overlay) -> bool {
        &&& o == self.o.with_commits(o.commits)
        &&& forall|commit: Commitment| #[trigger]
            self.o.commits.contains_key(commit) ==> o.commits.contains_key(commit)
        &&& forall|commit: Commitment| #[trigger]
            o.commits.contains_key(commit) ==> o.commits[commit] > self.world.trees.output.size
                || self.o.commits.get(commit) == Some(o.commits[commit])
    }

    /// What can still be undone.
    spec fn holds(self, o: Overlay, world: World) -> bool {
        &&& world.trees.sound()
        &&& self.has(self.world.trees.output, world.trees.output)
        &&& self.has(self.world.trees.rproof, world.trees.rproof)
        &&& spends(self.world.trees.kernel, Set::empty(), world.trees.kernel)
        &&& world == (World { trees: world.trees, log: world.log, ..self.world })
        &&& self.knows(o)
    }

    /// A position that may be pruned.
    spec fn spendable(self, pos: u64) -> bool {
        self.world.trees.output.live.contains(pos) ==> self.noted.contains(low_bits(pos))
    }

    spec fn post(self) -> spec_fn((Overlay, Result<(), Error>), World) -> bool {
        |done: (Overlay, Result<(), Error>), after: World| self.holds(done.0, after)
    }

    spec fn sane(self) -> bool {
        &&& alike(self.world.trees.output, self.world.trees.rproof)
        &&& self.world.trees.sound()
        &&& self.world.reliable
    }
}

proof fn lemma_push_proof(origin: Origin, o: Overlay, world: World, out: Output)
    requires
        origin.sane(),
        origin.holds(o, world),
    ensures
        keeps(output_push_proof(o, out), world, origin.post()),
{
    let program = output_push_proof(o, out);
    assert forall|reply: Reply, after: World| #[trigger]
        world.allows(program->Ask_0, reply, after) && program->Ask_1.met_by(reply) implies keeps(
        (program->Ask_2)(reply),
        after,
        origin.post(),
    ) by {
        if let Ok(pos) = reply->Pushed_0 {
            lemma_pushed(world.trees.rproof, pos, Element::Proof(out.proof), after.trees.rproof);
        }
        origin.lemma_has_more(
            origin.world.trees.rproof,
            world.trees.rproof,
            after.trees.rproof,
        );
    }
}

proof fn lemma_push(origin: Origin, o: Overlay, world: World, out: Output)
    requires
        origin.sane(),
        origin.holds(o, world),
    ensures
        keeps(output_push(o, out), world, origin.post()),
{
    let program = output_push(o, out);
    assert forall|reply: Reply, after: World| #[trigger]
        world.allows(program->Ask_0, reply, after) && program->Ask_1.met_by(reply) implies keeps(
        (program->Ask_2)(reply),
        after,
        origin.post(),
    ) by {
        if let Ok(pos) = reply->Pushed_0 {
            let id = Element::Output(OutputIdentifier::of_output(out));
            lemma_pushed(world.trees.output, pos, id, after.trees.output);
        }
        origin.lemma_has_more(
            origin.world.trees.output,
            world.trees.output,
            after.trees.output,
        );
        if let Ok(pos) = reply->Pushed_0 {
            lemma_push_proof(origin, o.with_output(out.commit, pos), after, out);
        }
    }
}

proof fn lemma_prune_proof(origin: Origin, o: Overlay, world: World, pos: u64)
    requires
        origin.sane(),
        origin.holds(o, world),
        origin.spendable(pos),
    ensures
        keeps(input_prune_proof(o, pos), world, origin.post()),
{
    reveal_with_fuel(keeps, 2);
}

proof fn lemma_prune(origin: Origin, o: Overlay, world: World, input: Input, pos: u64)
    requires
        origin.sane(),
        origin.holds(o, world),
        origin.spendable(pos),
    ensures
        keeps(input_prune(o, input, pos), world, origin.post()),
{
    let program = input_prune(o, input, pos);
    assert forall|reply: Reply, after: World| #[trigger]
        world.allows(program->Ask_0, reply, after) && program->Ask_1.met_by(reply) implies keeps(
        (program->Ask_2)(reply),
        after,
        origin.post(),
    ) by {
        match reply->Pruned_0 {
            Ok(true) => lemma_prune_proof(origin, o, after, pos),
            _ => {},
        }
    }
}

proof fn lemma_kernel(origin: Origin, o: Overlay, world: World, kernel: TxKernel)
    requires
        origin.sane(),
        origin.holds(o, world),
    ensures
        keeps(kernel_program(o, kernel), world, origin.post()),
{
    let program = kernel_program(o, kernel);
    assert forall|reply: Reply, after: World| #[trigger]
        world.allows(program->Ask_0, reply, after) && program->Ask_1.met_by(reply) implies keeps(
        (program->Ask_2)(reply),
        after,
        origin.post(),
    ) by {
        let now = world.trees.kernel;
        if let Ok(pos) = reply->Pushed_0 {
            lemma_pushed(now, pos, Element::Kernel(kernel), after.trees.kernel);
        }
        assert forall|pos: u64| pos <= origin.world.trees.kernel.size implies
            #[trigger] after.trees.kernel.elements.get(pos)
            == origin.world.trees.kernel.elements.get(pos) by {
            assert(after.trees.kernel.elements.get(pos) == now.elements.get(pos));
        }
    }
}

impl Origin {
    /// An item that can be undone.
    spec fn takes(self, item: Item) -> bool {
        match item {
            Item::Input(input) => match known(self.o, self.world.index, input.commit) {
                Some(pos) => self.spendable(pos),
                None => true,
            },
            _ => true,
        }
    }
}

proof fn lemma_item(origin: Origin, o: Overlay, world: World, item: Item)
    requires
        origin.sane(),
        origin.holds(o, world),
        origin.takes(item),
    ensures
        keeps(item_program(o, item), world, origin.post()),
{
    let inv = |world: World| origin.holds(o, world);
    match item {
        Item::Output(out) => {
            assert forall|now: World| #[trigger] inv(now) implies keeps(
                output_push(o, out),
                now,
                origin.post(),
            ) by {
                lemma_push(origin, o, now, out);
            }
            lemma_output(inv, origin.post(), o, world, out);
        },
        Item::Input(input) => {
            let commit = input.commit;
            if let Some(pos) = known(o, world.index, commit) {
                assert(origin.o.commits.contains_key(commit) ==> o.commits.contains_key(commit));
                assert(o.commits.contains_key(commit) ==> o.commits[commit]
                    > origin.world.trees.output.size || origin.o.commits.get(commit) == Some(
                    o.commits[commit],
                ));
                assert(origin.spendable(pos));
                assert forall|now: World| #[trigger] inv(now) implies keeps(
                    input_prune(o, input, pos),
                    now,
                    origin.post(),
                ) by {
                    lemma_prune(origin, o, now, input, pos);
                }
            }
            lemma_input(inv, origin.post(), o, world, input);
        },
        Item::Kernel(kernel) => lemma_kernel(origin, o, world, kernel),
    }
}

// ---- the rewind

/// A transaction that failed has left no trace, unless a tree failed to rewind.
pub open spec fn leaves_no_trace(o: Overlay, world: World) -> Promise {
    |done: (Overlay, Result<(), Error>), after: World|
        done.1 is Err && !after.broken ==> {
            &&& done.0 == o
            &&& after == (World { log: after.log, ..world })
        }
}

impl Origin {
    /// The trees are as they were, from the first on.
    spec fn rewound(self, o: Overlay, world: World, rproof: bool) -> bool {
        &&& world.trees.sound()
        &&& world.trees.output == self.world.trees.output
        &&& if rproof {
            world.trees.rproof == self.world.trees.rproof
        } else {
            self.has(self.world.trees.rproof, world.trees.rproof)
        }
        &&& spends(self.world.trees.kernel, Set::empty(), world.trees.kernel)
        &&& world == (World { trees: world.trees, log: world.log, ..self.world })
        &&& o == self.o.with_commits(o.commits)
    }

    /// The noted positions within the trees are those of unspent outputs.
    spec fn fair(self) -> bool {
        forall|pos: u64|
            1 <= pos <= self.world.trees.output.size && #[trigger] self.noted.contains(
                low_bits(pos),
            ) ==> self.world.trees.output.live.contains(pos)
    }

    spec fn undone(self) -> Promise {
        |done: (Overlay, Result<(), Error>), after: World|
            {
                &&& done.0 == self.o.with_commits(done.0.commits)
                &&& done.1 is Err ==> after.broken
                &&& !after.broken ==> after == (World { log: after.log, ..self.world })
            }
    }
}

/// A tree that has what it had, but for the noted positions, gets them back.
proof fn lemma_has_back(
    origin: Origin,
    before: TreeState,
    now: TreeState,
    latest: u64,
    end: u64,
)
    requires
        origin.sane(),
        origin.has(before, now),
        before.sound(),
        alike(before, origin.world.trees.output),
        latest <= u32::MAX,
        origin.fair(),
        completes(before.size, end),
    ensures
        now.rewound(end, positions_between(before.size, latest), origin.noted) == before,
{
    lemma_complete(before.size, end);
    let added = positions_between(before.size, latest);
    lemma_added(before.size, latest);
    let after = now.rewound(end, added, origin.noted);
    assert forall|pos: u64| after.live.contains(pos) <==> before.live.contains(pos) by {
        if 1 <= pos <= before.size {
            assert(!added.contains(low_bits(pos)));
            assert(now.elements.get(pos) == before.elements.get(pos));
        }
    }
    assert(after.live =~= before.live);
    lemma_elements_back(before, now);
}

proof fn lemma_kernel_back(origin: Origin, o: Overlay, world: World)
    requires
        origin.sane(),
        origin.rewound(o, world, true),
    ensures
        keeps(rewind_kernel(o, origin.world.trees.kernel.size), world, origin.undone()),
{
    let program = rewind_kernel(o, origin.world.trees.kernel.size);
    assert forall|reply: Reply, after: World| #[trigger]
        world.allows(program->Ask_0, reply, after) && program->Ask_1.met_by(reply) implies keeps(
        (program->Ask_2)(reply),
        after,
        origin.undone(),
    ) by {
        if reply->Done_0 is Ok {
            lemma_tree_back(
                origin.world.trees.kernel,
                Set::empty(),
                world.trees.kernel,
                Set::empty(),
                after.trees.kernel.size,
            );
            assert(after.trees =~= origin.world.trees);
        }
    }
}

proof fn lemma_rproof_back(origin: Origin, o: Overlay, world: World, latest: u64)
    requires
        origin.sane(),
        origin.fair(),
        latest <= u32::MAX,
        origin.rewound(o, world, false),
    ensures
        keeps(
            rewind_rproof(
                o,
                origin.world.trees.output.size,
                origin.world.trees.kernel.size,
                positions_between(origin.world.trees.output.size, latest),
                origin.noted,
            ),
            world,
            origin.undone(),
        ),
{
    let pos = origin.world.trees.output.size;
    let kernel_pos = origin.world.trees.kernel.size;
    let added = positions_between(pos, latest);
    let program = rewind_rproof(o, pos, kernel_pos, added, origin.noted);
    assert forall|reply: Reply, after: World| #[trigger]
        world.allows(program->Ask_0, reply, after) && program->Ask_1.met_by(reply) implies keeps(
        (program->Ask_2)(reply),
        after,
        origin.undone(),
    ) by {
        if reply->Done_0 is Ok {
            lemma_has_back(
                origin,
                origin.world.trees.rproof,
                world.trees.rproof,
                latest,
                after.trees.rproof.size,
            );
            lemma_kernel_back(origin, o, after);
        }
    }
}

proof fn lemma_output_back(origin: Origin, o: Overlay, world: World, latest: u64)
    requires
        origin.sane(),
        origin.fair(),
        latest <= u32::MAX,
        world.trees.sound(),
        origin.has(origin.world.trees.output, world.trees.output),
        origin.has(origin.world.trees.rproof, world.trees.rproof),
        spends(origin.world.trees.kernel, Set::empty(), world.trees.kernel),
        world == (World { trees: world.trees, log: world.log, ..origin.world }),
        o == origin.o.with_commits(o.commits),
    ensures
        keeps(
            rewind_output(
                o,
                origin.world.trees.output.size,
                origin.world.trees.kernel.size,
                positions_between(origin.world.trees.output.size, latest),
                origin.noted,
            ),
            world,
            origin.undone(),
        ),
{
    let pos = origin.world.trees.output.size;
    let kernel_pos = origin.world.trees.kernel.size;
    let added = positions_between(pos, latest);
    let program = rewind_output(o, pos, kernel_pos, added, origin.noted);
    assert forall|reply: Reply, after: World| #[trigger]
        world.allows(program->Ask_0, reply, after) && program->Ask_1.met_by(reply) implies keeps(
        (program->Ask_2)(reply),
        after,
        origin.undone(),
    ) by {
        if reply->Done_0 is Ok {
            lemma_has_back(
                origin,
                origin.world.trees.output,
                world.trees.output,
                latest,
                after.trees.output.size,
            );
            lemma_rproof_back(origin, o, after, latest);
        }
    }
}

proof fn lemma_back(origin: Origin, o: Overlay, world: World)
    requires
        origin.sane(),
        origin.fair(),
        origin.holds(o, world),
    ensures
        keeps(
            rewind_raw_tx_program(
                o,
                origin.world.trees.output.size,
                origin.world.trees.kernel.size,
                origin.noted,
            ),
            world,
            origin.undone(),
        ),
{
    let pos = origin.world.trees.output.size;
    let kernel_pos = origin.world.trees.kernel.size;
    let program = rewind_raw_tx_program(o, pos, kernel_pos, origin.noted);
    assert forall|reply: Reply, after: World| #[trigger]
        world.allows(program->Ask_0, reply, after) && program->Ask_1.met_by(reply) implies keeps(
        (program->Ask_2)(reply),
        after,
        origin.undone(),
    ) by {
        lemma_output_back(origin, o.rewound(pos), after, reply->Size_0);
    }
}

/// Everything in a transaction, and what follows.
proof fn lemma_apply(origin: Origin, world: World, tx: Transaction)
    requires
        origin.sane(),
        origin.fair(),
        origin.holds(origin.o, world),
        origin.noted == noted(origin.o, origin.world, tx.inputs@),
        !origin.world.broken,
    ensures
        keeps(
            bind(
                items_program(origin.o, tx_items(tx)),
                after_tx_items(
                    origin.o.commits,
                    origin.world.trees.output.size,
                    origin.world.trees.kernel.size,
                    origin.noted,
                ),
            ),
            world,
            leaves_no_trace(origin.o, origin.world),
        ),
{
    let pos = origin.world.trees.output.size;
    let kernel_pos = origin.world.trees.kernel.size;
    let commits = origin.o.commits;
    let post = leaves_no_trace(origin.o, origin.world);
    let rest = after_tx_items(commits, pos, kernel_pos, origin.noted);
    let items = tx_items(tx);
    assert forall|i: int| 0 <= i < items.len() implies origin.takes(#[trigger] items[i]) by {
        let outputs = tx.outputs@.len();
        let inputs = tx.inputs@.len();
        if i < outputs {
            assert(items[i] == Item::Output(tx.outputs@[i]));
        } else if i < outputs + inputs {
            let input = tx.inputs@[i - outputs];
            assert(items[i] == Item::Input(input));
            if let Some(at) = known(origin.o, origin.world.index, input.commit) {
                if origin.world.trees.output.live.contains(at) {
                    assert(notes(origin.o, origin.world, input.commit, low_bits(at)));
                }
            }
        } else {
            assert(items[i] == Item::Kernel(tx.kernels@[i - outputs - inputs]));
        }
    }
    assert forall|i: int, o: Overlay, world: World|
        0 <= i < items.len() && #[trigger] (origin.post())((o, Ok(())), world) implies keeps(
        item_program(o, #[trigger] items[i]),
        world,
        origin.post(),
    ) by {
        lemma_item(origin, o, world, items[i]);
    }
    lemma_items(origin.post(), origin.o, world, items);
    assert forall|done: (Overlay, Result<(), Error>), after: World| #[trigger]
        (origin.post())(done, after) implies keeps(rest(done), after, post) by {
        if let Err(e) = done.1 {
            let end = after_undo(commits, e);
            lemma_back(origin, done.0, after);
            assert forall|undone: (Overlay, Result<(), Error>), last: World| #[trigger]
                (origin.undone())(undone, last) implies keeps(end(undone), last, post) by {
                assert(undone.0.with_commits(commits) == origin.o);
            }
            lemma_keeps_bind(
                rewind_raw_tx_program(done.0, pos, kernel_pos, origin.noted),
                end,
                after,
                origin.undone(),
                post,
            );
        }
    }
    lemma_keeps_bind(items_program(origin.o, items), rest, world, origin.post(), post);
}

/// The positions of one input more.
proof fn lemma_noted_next(o: Overlay, world: World, inputs: Seq<Input>, i: int)
    requires
        0 <= i < inputs.len(),
    ensures
        forall|x: u32| #[trigger]
            noted(o, world, inputs.take(i + 1)).contains(x) <==> noted(
                o,
                world,
                inputs.take(i),
            ).contains(x) || notes(o, world, inputs[i].commit, x),
{
    let some = inputs.take(i);
    let more = inputs.take(i + 1);
    assert(more[i] == inputs[i]);
    assert forall|x: u32| #[trigger] noted(o, world, more).contains(x) <==> noted(
        o,
        world,
        some,
    ).contains(x) || notes(o, world, inputs[i].commit, x) by {
        if noted(o, world, more).contains(x) {
            let j = choose|j: int|
                0 <= j < more.len() && notes(o, world, #[trigger] more[j].commit, x);
            if j < i {
                assert(notes(o, world, some[j].commit, x));
            }
        }
        if noted(o, world, some).contains(x) {
            let j = choose|j: int|
                0 <= j < some.len() && notes(o, world, #[trigger] some[j].commit, x);
            assert(notes(o, world, more[j].commit, x));
        }
        if notes(o, world, inputs[i].commit, x) {
            assert(notes(o, world, more[i].commit, x));
        }
    }
}

/// Taking down a position.
proof fn lemma_note_at(origin: Origin, world: World, tx: Transaction, i: nat, at: u64)
    requires
        origin.sane(),
        origin.fair(),
        origin.holds(origin.o, world),
        world.trees == origin.world.trees,
        origin.noted == noted(origin.o, origin.world, tx.inputs@),
        !origin.world.broken,
        i < tx.inputs@.len(),
        known(origin.o, origin.world.index, tx.inputs@[i as int].commit) == Some(at),
    ensures
        keeps(
            raw_tx_read(
                origin.o,
                tx,
                origin.world.trees.output.size,
                origin.world.trees.kernel.size,
                i,
                noted(origin.o, origin.world, tx.inputs@.take(i as int)),
                at,
            ),
            world,
            leaves_no_trace(origin.o, origin.world),
        ),
    decreases tx.inputs@.len() - i, 0nat,
{
    let o = origin.o;
    let inputs = tx.inputs@;
    let post = leaves_no_trace(o, origin.world);
    let spent = noted(o, origin.world, inputs.take(i as int));
    let program = raw_tx_read(
        o,
        tx,
        origin.world.trees.output.size,
        origin.world.trees.kernel.size,
        i,
        spent,
        at,
    );
    lemma_noted_next(o, origin.world, inputs, i as int);
    assert forall|reply: Reply, after: World| #[trigger]
        world.allows(program->Ask_0, reply, after) && program->Ask_1.met_by(reply) implies keeps(
        (program->Ask_2)(reply),
        after,
        post,
    ) by {
        let more = noted(o, origin.world, inputs.take((i + 1) as int));
        if reply->MaybeOutput_0 is Some {
            assert(more =~= spent.insert(low_bits(at)));
        } else {
            assert(!origin.world.trees.output.live.contains(at));
            assert(more =~= spent);
        }
        lemma_note(origin, after, tx, i + 1);
    }
}

/// Taking down the positions of the inputs.
proof fn lemma_note(origin: Origin, world: World, tx: Transaction, i: nat)
    requires
        origin.sane(),
        origin.fair(),
        origin.holds(origin.o, world),
        world.trees == origin.world.trees,
        origin.noted == noted(origin.o, origin.world, tx.inputs@),
        !origin.world.broken,
        i <= tx.inputs@.len(),
    ensures
        keeps(
            raw_tx_spent(
                origin.o,
                tx,
                origin.world.trees.output.size,
                origin.world.trees.kernel.size,
                i,
                noted(origin.o, origin.world, tx.inputs@.take(i as int)),
            ),
            world,
            leaves_no_trace(origin.o, origin.world),
        ),
    decreases tx.inputs@.len() - i, 1nat,
{
    let o = origin.o;
    let pos = origin.world.trees.output.size;
    let kernel_pos = origin.world.trees.kernel.size;
    let post = leaves_no_trace(o, origin.world);
    let inputs = tx.inputs@;
    if i == inputs.len() {
        assert(inputs.take(i as int) =~= inputs);
        lemma_apply(origin, world, tx);
    } else {
        let spent = noted(o, origin.world, inputs.take(i as int));
        match o.commits.get(inputs[i as int].commit) {
            Some(at) => lemma_note_at(origin, world, tx, i, at),
            None => {
                let program = raw_tx_lookup(o, tx, pos, kernel_pos, i, spent);
                assert forall|reply: Reply, after: World| #[trigger]
                    world.allows(program->Ask_0, reply, after) && program->Ask_1.met_by(
                        reply,
                    ) implies keeps((program->Ask_2)(reply), after, post) by {
                    if reply->Pos_0 is Ok && reply->Pos_0->Ok_0 > 0 {
                        lemma_note_at(origin, after, tx, i, reply->Pos_0->Ok_0);
                    } else {
                        lemma_noted_next(o, origin.world, inputs, i as int);
                        let more = noted(o, origin.world, inputs.take((i + 1) as int));
                        assert(more =~= spent);
                        lemma_note(origin, after, tx, i + 1);
                    }
                }
            },
        }
    }
}

/// A transaction that cannot be applied leaves no trace: the three trees are
/// exactly as they were, and the unit of work knows what it knew. That is,
/// unless a tree failed to rewind, or the index failed to find what it has.
pub proof fn law_failed_transaction_is_undone(o: Overlay, world: World, tx: Transaction)
    requires
        world.trees.sound(),
        alike(world.trees.output, world.trees.rproof),
        world.reliable,
        !world.broken,
    ensures
        keeps(raw_tx_program(o, tx), world, leaves_no_trace(o, world)),
{
    let origin = Origin { o, world, noted: noted(o, world, tx.inputs@) };
    let post = leaves_no_trace(o, world);
    assert forall|pos: u64|
        1 <= pos <= world.trees.output.size && #[trigger] origin.noted.contains(
            low_bits(pos),
        ) implies world.trees.output.live.contains(pos) by {
        let i = choose|i: int|
            0 <= i < tx.inputs@.len() && notes(
                o,
                world,
                #[trigger] tx.inputs@[i].commit,
                low_bits(pos),
            );
        lemma_small(pos);
        lemma_small(known(o, world.index, tx.inputs@[i].commit)->0);
    }
    let program = raw_tx_program(o, tx);
    assert forall|reply: Reply, after: World| #[trigger]
        world.allows(program->Ask_0, reply, after) && program->Ask_1.met_by(reply) implies keeps(
        (program->Ask_2)(reply),
        after,
        post,
    ) by {
        let sized = raw_tx_sized(o, tx, reply->Size_0);
        assert forall|reply: Reply, last: World| #[trigger]
            after.allows(sized->Ask_0, reply, last) && sized->Ask_1.met_by(reply) implies keeps(
            (sized->Ask_2)(reply),
            last,
            post,
        ) by {
            assert(noted(o, world, tx.inputs@.take(0)) =~= Set::empty());
            lemma_note(origin, last, tx, 0);
        }
    }
}

// ---- selections

/// The indices `chosen` pick the transactions `selected` from a list, in order.
pub open spec fn picks(
    chosen: Seq<int>,
    selected: Seq<Transaction>,
    txs: Seq<Transaction>,
) -> bool {
    &&& chosen.len() == selected.len()
    &&& forall|k: int|
        0 <= k < chosen.len() ==> 0 <= #[trigger] chosen[k] < txs.len() && selected[k]
            == txs[chosen[k]]
    &&& forall|k: int, l: int|
        0 <= k < l < chosen.len() ==> #[trigger] chosen[k] < #[trigger] chosen[l]
}

/// Transactions from a list, in the order of the list and none more often than
/// it is there.
pub open spec fn selection(selected: Seq<Transaction>, txs: Seq<Transaction>) -> bool {
    exists|chosen: Seq<int>| picks(chosen, selected, txs)
}

/// The result is a selection from a list, after what was selected before.
pub open spec fn selects(earlier: Seq<Transaction>, txs: Seq<Transaction>) -> spec_fn(
    (Overlay, Result<Seq<Transaction>, Error>),
    World,
) -> bool {
    |done: (Overlay, Result<Seq<Transaction>, Error>), after: World|
        done.1 matches Ok(all) ==> exists|selected: Seq<Transaction>| #[trigger]
            selection(selected, txs) && all == earlier + selected
}

proof fn lemma_pick_more(
    tx: Transaction,
    taken: bool,
    selected: Seq<Transaction>,
    txs: Seq<Transaction>,
)
    requires
        selection(selected, txs),
    ensures
        selection(
            if taken {
                seq![tx] + selected
            } else {
                selected
            },
            seq![tx] + txs,
        ),
{
    let chosen = choose|chosen: Seq<int>| picks(chosen, selected, txs);
    let moved = chosen.map_values(|k: int| k + 1);
    let all = seq![tx] + txs;
    if taken {
        assert(picks(seq![0int] + moved, seq![tx] + selected, all));
    } else {
        assert(picks(moved, selected, all));
    }
}

proof fn lemma_select(
    o: Overlay,
    world: World,
    txs: Seq<Transaction>,
    earlier: Seq<Transaction>,
)
    ensures
        keeps(txs_program(o, txs, earlier), world, selects(earlier, txs)),
    decreases txs.len(),
{
    if txs.len() == 0 {
        let none = Seq::<Transaction>::empty();
        assert(picks(Seq::empty(), none, txs));
        assert(selection(none, txs));
        assert(earlier =~= earlier + none);
    } else {
        let anything = |done: (Overlay, Result<(), Error>), after: World| true;
        let rest = txs.drop_first();
        let tx = txs[0];
        let post = selects(earlier, txs);
        assert(txs =~= seq![tx] + rest);
        lemma_keeps_anything(raw_tx_program(o, tx), world, anything);
        assert forall|done: (Overlay, Result<(), Error>), after: World| #[trigger]
            anything(done, after) implies keeps(
            after_tx(tx, rest, earlier)(done),
            after,
            post,
        ) by {
            let taken = done.1 is Ok;
            let now = if taken {
                earlier.push(tx)
            } else {
                earlier
            };
            let more = selects(now, rest);
            lemma_select(done.0, after, rest, now);
            assert forall|end: (Overlay, Result<Seq<Transaction>, Error>), last: World| #[trigger]
                more(end, last) implies post(end, last) by {
                if let Ok(all) = end.1 {
                    let selected = choose|selected: Seq<Transaction>| #[trigger]
                        selection(selected, rest) && all == now + selected;
                    lemma_pick_more(tx, taken, selected, rest);
                    if taken {
                        assert(all =~= earlier + (seq![tx] + selected));
                    }
                }
            }
            lemma_keeps_less(txs_program(done.0, rest, now), after, more, post);
        }
        lemma_keeps_bind(
            raw_tx_program(o, tx),
            after_tx(tx, rest, earlier),
            world,
            anything,
            post,
        );
    }
}

/// Validation of transactions, if it succeeds, gives back some of the
/// transactions, in their order.
pub proof fn law_validation_selects(
    o: Overlay,
    world: World,
    txs: Seq<Transaction>,
    pre_tx: Option<Transaction>,
)
    ensures
        keeps(validate_txs_program(o, txs, pre_tx), world, selects(Seq::empty(), txs)),
{
    let post = selects(Seq::empty(), txs);
    match pre_tx {
        Some(tx) => {
            let anything = |done: (Overlay, Result<(), Error>), after: World| true;
            lemma_keeps_anything(raw_tx_program(o, tx), world, anything);
            assert forall|done: (Overlay, Result<(), Error>), after: World| #[trigger]
                anything(done, after) implies keeps(after_pre_tx(txs)(done), after, post) by {
                lemma_select(done.0, after, txs, Seq::empty());
            }
            lemma_keeps_bind(raw_tx_program(o, tx), after_pre_tx(txs), world, anything, post);
        },
        None => lemma_select(o, world, txs, Seq::empty()),
    }
}

// ---- rollback

/// Whether the work will be rolled back stays as it is.
pub open spec fn keeps_rollback<T>(o: Overlay) -> spec_fn((Overlay, Result<T, Error>), World) -> bool {
    |done: (Overlay, Result<T, Error>), after: World| done.0.rollback == o.rollback
}

proof fn lemma_item_rollback(first: Overlay, o: Overlay, world: World, item: Item)
    requires
        o.rollback == first.rollback,
    ensures
        keeps(item_program(o, item), world, keeps_rollback::<()>(first)),
{
    let inv = |world: World| true;
    let post = keeps_rollback::<()>(first);
    match item {
        Item::Output(out) => {
            assert forall|now: World| #[trigger] inv(now) implies keeps(
                output_push(o, out),
                now,
                post,
            ) by {
                let program = output_push(o, out);
                assert forall|reply: Reply, after: World| #[trigger]
                    now.allows(program->Ask_0, reply, after) && program->Ask_1.met_by(
                        reply,
                    ) implies keeps((program->Ask_2)(reply), after, post) by {
                    if let Ok(pos) = reply->Pushed_0 {
                        let next = output_push_proof(o.with_output(out.commit, pos), out);
                        assert forall|reply: Reply, last: World| #[trigger]
                            after.allows(next->Ask_0, reply, last) && next->Ask_1.met_by(
                                reply,
                            ) implies keeps((next->Ask_2)(reply), last, post) by {}
                    }
                }
            }
            lemma_output(inv, post, o, world, out);
        },
        Item::Input(input) => {
            if let Some(pos) = known(o, world.index, input.commit) {
                assert forall|now: World| #[trigger] inv(now) implies keeps(
                    input_prune(o, input, pos),
                    now,
                    post,
                ) by {
                    let program = input_prune(o, input, pos);
                    assert forall|reply: Reply, after: World| #[trigger]
                        now.allows(program->Ask_0, reply, after) && program->Ask_1.met_by(
                            reply,
                        ) implies keeps((program->Ask_2)(reply), after, post) by {
                        let next = input_prune_proof(o, pos);
                        assert forall|reply: Reply, last: World| #[trigger]
                            after.allows(next->Ask_0, reply, last) && next->Ask_1.met_by(
                                reply,
                            ) implies keeps((next->Ask_2)(reply), last, post) by {}
                    }
                }
            }
            lemma_input(inv, post, o, world, input);
        },
        Item::Kernel(_) => {
            reveal_with_fuel(keeps, 2);
        },
    }
}

proof fn lemma_undo_rollback(
    first: Overlay,
    o: Overlay,
    pos: u64,
    kernel_pos: u64,
    spent: Set<u32>,
    world: World,
)
    requires
        o.rollback == first.rollback,
    ensures
        keeps(
            rewind_raw_tx_program(o, pos, kernel_pos, spent),
            world,
            keeps_rollback::<()>(first),
        ),
{
    let post = keeps_rollback::<()>(first);
    let program = rewind_raw_tx_program(o, pos, kernel_pos, spent);
    assert forall|reply: Reply, sized: World| #[trigger]
        world.allows(program->Ask_0, reply, sized) && program->Ask_1.met_by(reply) implies keeps(
        (program->Ask_2)(reply),
        sized,
        post,
    ) by {
        let added = positions_between(pos, reply->Size_0);
        let rewound = o.rewound(pos);
        let program = rewind_output(rewound, pos, kernel_pos, added, spent);
        assert forall|reply: Reply, one: World| #[trigger]
            sized.allows(program->Ask_0, reply, one) && program->Ask_1.met_by(
                reply,
            ) implies keeps((program->Ask_2)(reply), one, post) by {
            let program = rewind_rproof(rewound, pos, kernel_pos, added, spent);
            assert forall|reply: Reply, two: World| #[trigger]
                one.allows(program->Ask_0, reply, two) && program->Ask_1.met_by(
                    reply,
                ) implies keeps((program->Ask_2)(reply), two, post) by {
                let program = rewind_kernel(rewound, kernel_pos);
                assert forall|reply: Reply, three: World| #[trigger]
                    two.allows(program->Ask_0, reply, three) && program->Ask_1.met_by(
                        reply,
                    ) implies keeps((program->Ask_2)(reply), three, post) by {}
            }
        }
    }
}

/// A transaction does not change whether the work will be rolled back. As
/// transactions are applied only to work that will be, they are never committed.
pub proof fn law_transactions_keep_the_rollback(o: Overlay, tx: Transaction, world: World)
    ensures
        keeps(raw_tx_program(o, tx), world, keeps_rollback::<()>(o)),
{
    let post = keeps_rollback::<()>(o);
    let items = tx_items(tx);
    let pos = world.trees.output.size;
    let kernel_pos = world.trees.kernel.size;
    assert forall|now: World, spent: Set<u32>|
        now == (World { log: now.log, ..world }) implies #[trigger] keeps_items(
        o,
        tx,
        world,
        spent,
        now,
        post,
    ) by {
        let rest = after_tx_items(o.commits, pos, kernel_pos, spent);
        assert forall|k: int, now: Overlay, world: World|
            0 <= k < items.len() && #[trigger] post((now, Ok(())), world) implies keeps(
            item_program(now, #[trigger] items[k]),
            world,
            post,
        ) by {
            lemma_item_rollback(o, now, world, items[k]);
        }
        lemma_items(post, o, now, items);
        assert forall|done: (Overlay, Result<(), Error>), after: World| #[trigger]
            post(done, after) implies keeps(rest(done), after, post) by {
            if let Err(e) = done.1 {
                lemma_undo_rollback(o, done.0, pos, kernel_pos, spent, after);
                assert forall|end: (Overlay, Result<(), Error>), last: World| #[trigger]
                    post(end, last) implies keeps(after_undo(o.commits, e)(end), last, post) by {}
                lemma_keeps_bind(
                    rewind_raw_tx_program(done.0, pos, kernel_pos, spent),
                    after_undo(o.commits, e),
                    after,
                    post,
                    post,
                );
            }
        }
        lemma_keeps_bind(items_program(o, items), rest, now, post, post);
    }
    lemma_raw_tx(o, tx, world, post);
}

proof fn lemma_txs_rollback(
    first: Overlay,
    o: Overlay,
    txs: Seq<Transaction>,
    earlier: Seq<Transaction>,
    world: World,
)
    requires
        o.rollback == first.rollback,
    ensures
        keeps(txs_program(o, txs, earlier), world, keeps_rollback::<Seq<Transaction>>(first)),
    decreases txs.len(),
{
    if txs.len() > 0 {
        let post = keeps_rollback::<Seq<Transaction>>(first);
        let rest = after_tx(txs[0], txs.drop_first(), earlier);
        law_transactions_keep_the_rollback(o, txs[0], world);
        assert forall|done: (Overlay, Result<(), Error>), after: World| #[trigger]
            keeps_rollback::<()>(o)(done, after) implies keeps(rest(done), after, post) by {
            let now = if done.1 is Ok {
                earlier.push(txs[0])
            } else {
                earlier
            };
            lemma_txs_rollback(first, done.0, txs.drop_first(), now, after);
        }
        lemma_keeps_bind(
            raw_tx_program(o, txs[0]),
            rest,
            world,
            keeps_rollback::<()>(o),
            post,
        );
    }
}

/// Neither does the validation of transactions.
pub proof fn law_validation_keeps_the_rollback(
    o: Overlay,
    txs: Seq<Transaction>,
    pre_tx: Option<Transaction>,
    world: World,
)
    ensures
        keeps(
            validate_txs_program(o, txs, pre_tx),
            world,
            keeps_rollback::<Seq<Transaction>>(o),
        ),
{
    let post = keeps_rollback::<Seq<Transaction>>(o);
    match pre_tx {
        Some(tx) => {
            law_transactions_keep_the_rollback(o, tx, world);
            assert forall|done: (Overlay, Result<(), Error>), after: World| #[trigger]
                keeps_rollback::<()>(o)(done, after) implies keeps(
                after_pre_tx(txs)(done),
                after,
                post,
            ) by {
                lemma_txs_rollback(o, done.0, txs, Seq::empty(), after);
            }
            lemma_keeps_bind(
                raw_tx_program(o, tx),
                after_pre_tx(txs),
                world,
                keeps_rollback::<()>(o),
                post,
            );
        },
        None => lemma_txs_rollback(o, o, txs, Seq::empty(), world),
    }
}

} // verus!
