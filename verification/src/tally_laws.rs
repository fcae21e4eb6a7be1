//! What a whole block, or a whole transaction, does to the commitments of the
//! outputs and of the kernels.
use crate::apply::{
    input_prune, input_prune_proof, kernel_program, output_push, output_push_proof,
};
use crate::block::{after_items, block_items, block_program, marker_kernel, marker_output};
use crate::extension::Overlay;
use crate::leaf_laws::{commitment_at, commitments_up_to, lemma_appended, lemma_same_commitments};
use crate::leaves::Committer;
use crate::paths::{
    as_claimed, keeps_items, known, lemma_input, lemma_output, lemma_raw_tx, Promise,
};
use crate::pmmr::leaf_at;
use crate::program::Reply;
use crate::raw_tx::{raw_tx_program, tx_items};
use crate::settle_laws::lemma_after_items;
use crate::tasks::{
    after_item, input_items, item_program, items_program, kernel_items, output_items,
    outputs_that, Item,
};
use crate::types::{
    Block, Commitment, Error, Input, Output, OutputIdentifier, Transaction, TxKernel,
};
use crate::world::{keeps, lemma_keeps_bind, Element, TreeState, World};
use vstd::multiset::Multiset;
use vstd::prelude::*;

verus! {

/// The commitments of the unspent outputs, in order.
pub open spec fn outputs_in(world: World) -> Seq<Commitment> {
    let tree = world.trees.output;
    commitments_up_to(Committer::Outputs, tree, tree.size as nat)
}

/// The excesses of the kernels, in order.
pub open spec fn kernels_in(world: World) -> Seq<Commitment> {
    let tree = world.trees.kernel;
    commitments_up_to(Committer::Kernels, tree, tree.size as nat)
}

/// The commitments of outputs.
pub open spec fn output_commits(outputs: Seq<Output>) -> Seq<Commitment> {
    outputs.map_values(|out: Output| out.commit)
}

/// The commitments of what inputs spend.
pub open spec fn input_commits(inputs: Seq<Input>) -> Seq<Commitment> {
    inputs.map_values(|input: Input| input.commit)
}

/// The excesses of kernels.
pub open spec fn excesses(kernels: Seq<TxKernel>) -> Seq<Commitment> {
    kernels.map_values(|kernel: TxKernel| kernel.excess)
}

// ---- items, added up

/// What items add, what they spend, and the excesses of their kernels.
#[verifier::ext_equal]
ghost struct Tally {
    added: Multiset<Commitment>,
    spent: Multiset<Commitment>,
    excesses: Seq<Commitment>,
}

impl Tally {
    spec fn nothing() -> Tally {
        Tally { added: Multiset::empty(), spent: Multiset::empty(), excesses: Seq::empty() }
    }

    spec fn with(self, item: Item) -> Tally {
        match item {
            Item::Output(out) => Tally { added: self.added.insert(out.commit), ..self },
            Item::Input(input) => Tally { spent: self.spent.insert(input.commit), ..self },
            Item::Kernel(kernel) => Tally { excesses: self.excesses.push(kernel.excess), ..self },
        }
    }

    spec fn join(self, other: Tally) -> Tally {
        Tally {
            added: self.added.add(other.added),
            spent: self.spent.add(other.spent),
            excesses: self.excesses + other.excesses,
        }
    }
}

spec fn tally(items: Seq<Item>) -> Tally
    decreases items.len(),
{
    if items.len() == 0 {
        Tally::nothing()
    } else {
        tally(items.drop_last()).with(items.last())
    }
}

proof fn lemma_tally_push(items: Seq<Item>, item: Item)
    ensures
        tally(items.push(item)) == tally(items).with(item),
{
    assert(items.push(item).drop_last() =~= items);
}

proof fn lemma_tally_join(some: Seq<Item>, more: Seq<Item>)
    ensures
        tally(some + more) == tally(some).join(tally(more)),
    decreases more.len(),
{
    let whole = tally(some).join(tally(more));
    if more.len() == 0 {
        assert(some + more =~= some);
        assert(whole =~= tally(some));
    } else {
        let fewer = more.drop_last();
        let item = more.last();
        lemma_tally_join(some, fewer);
        assert((some + more).drop_last() =~= some + fewer);
        assert((some + more).last() == item);
        assert(whole =~= tally(some).join(tally(fewer)).with(item));
    }
}

proof fn lemma_tally_outputs(outputs: Seq<Output>)
    ensures
        tally(output_items(outputs)) == (Tally {
            added: output_commits(outputs).to_multiset(),
            ..Tally::nothing()
        }),
    decreases outputs.len(),
{
    broadcast use vstd::seq_lib::group_to_multiset_ensures;

    let items = output_items(outputs);
    let commits = output_commits(outputs);
    if outputs.len() == 0 {
        assert(commits.to_multiset() =~= Multiset::empty());
    } else {
        let fewer = outputs.drop_last();
        lemma_tally_outputs(fewer);
        assert(items.drop_last() =~= output_items(fewer));
        assert(commits =~= output_commits(fewer).push(outputs.last().commit));
    }
}

proof fn lemma_tally_inputs(inputs: Seq<Input>)
    ensures
        tally(input_items(inputs)) == (Tally {
            spent: input_commits(inputs).to_multiset(),
            ..Tally::nothing()
        }),
    decreases inputs.len(),
{
    broadcast use vstd::seq_lib::group_to_multiset_ensures;

    let items = input_items(inputs);
    let commits = input_commits(inputs);
    if inputs.len() == 0 {
        assert(commits.to_multiset() =~= Multiset::empty());
    } else {
        let fewer = inputs.drop_last();
        lemma_tally_inputs(fewer);
        assert(items.drop_last() =~= input_items(fewer));
        assert(commits =~= input_commits(fewer).push(inputs.last().commit));
    }
}

proof fn lemma_tally_kernels(kernels: Seq<TxKernel>)
    ensures
        tally(kernel_items(kernels)) == (Tally {
            excesses: excesses(kernels),
            ..Tally::nothing()
        }),
    decreases kernels.len(),
{
    let items = kernel_items(kernels);
    if kernels.len() == 0 {
        assert(excesses(kernels) =~= Seq::empty());
    } else {
        let fewer = kernels.drop_last();
        lemma_tally_kernels(fewer);
        assert(items.drop_last() =~= kernel_items(fewer));
        assert(excesses(kernels) =~= excesses(fewer).push(kernels.last().excess));
    }
}

/// Coinbase outputs and the others are together all outputs.
proof fn lemma_both_kinds(outputs: Seq<Output>)
    ensures
        output_commits(outputs_that(outputs, true)).to_multiset().add(
            output_commits(outputs_that(outputs, false)).to_multiset(),
        ) == output_commits(outputs).to_multiset(),
    decreases outputs.len(),
{
    broadcast use vstd::seq_lib::group_to_multiset_ensures;

    reveal(Seq::filter);
    let mined = output_commits(outputs_that(outputs, true));
    let other = output_commits(outputs_that(outputs, false));
    let all = output_commits(outputs);
    if outputs.len() == 0 {
        assert(mined.to_multiset().add(other.to_multiset()) =~= all.to_multiset());
    } else {
        let fewer = outputs.drop_last();
        let last = outputs.last();
        lemma_both_kinds(fewer);
        assert(all =~= output_commits(fewer).push(last.commit));
        if last.coinbase {
            assert(mined =~= output_commits(outputs_that(fewer, true)).push(last.commit));
        } else {
            assert(other =~= output_commits(outputs_that(fewer, false)).push(last.commit));
        }
        assert(mined.to_multiset().add(other.to_multiset()) =~= all.to_multiset());
    }
}

proof fn lemma_tally_block(block: Block)
    ensures
        tally(block_items(block)) == (Tally {
            added: output_commits(block.outputs@).to_multiset(),
            spent: input_commits(block.inputs@).to_multiset(),
            excesses: excesses(block.kernels@),
        }),
{
    let mined = output_items(outputs_that(block.outputs@, true));
    let inputs = input_items(block.inputs@);
    let other = output_items(outputs_that(block.outputs@, false));
    let kernels = kernel_items(block.kernels@);
    lemma_tally_outputs(outputs_that(block.outputs@, true));
    lemma_tally_inputs(block.inputs@);
    lemma_tally_outputs(outputs_that(block.outputs@, false));
    lemma_tally_kernels(block.kernels@);
    lemma_tally_join(mined, inputs);
    lemma_tally_join(mined + inputs, other);
    lemma_tally_join(mined + inputs + other, kernels);
    lemma_both_kinds(block.outputs@);
    assert(tally(block_items(block)) =~= (Tally {
        added: output_commits(block.outputs@).to_multiset(),
        spent: input_commits(block.inputs@).to_multiset(),
        excesses: excesses(block.kernels@),
    }));
}

proof fn lemma_tally_tx(tx: Transaction)
    ensures
        tally(tx_items(tx)) == (Tally {
            added: output_commits(tx.outputs@).to_multiset(),
            spent: input_commits(tx.inputs@).to_multiset(),
            excesses: excesses(tx.kernels@),
        }),
{
    let outputs = output_items(tx.outputs@);
    let inputs = input_items(tx.inputs@);
    let kernels = kernel_items(tx.kernels@);
    lemma_tally_outputs(tx.outputs@);
    lemma_tally_inputs(tx.inputs@);
    lemma_tally_kernels(tx.kernels@);
    lemma_tally_join(outputs, inputs);
    lemma_tally_join(outputs + inputs, kernels);
    assert(tally(tx_items(tx)) =~= (Tally {
        added: output_commits(tx.outputs@).to_multiset(),
        spent: input_commits(tx.inputs@).to_multiset(),
        excesses: excesses(tx.kernels@),
    }));
}

// ---- items, applied

/// The outputs that may be spent: those that are unspent at first, and those
/// that are added.
pub open spec fn at_hand(first: World, outputs: Seq<Output>) -> Set<OutputIdentifier> {
    Set::new(
        |id: OutputIdentifier|
            {
                ||| exists|pos: u64| #[trigger]
                    first.trees.output.element(pos) == Some(Element::Output(id))
                ||| exists|i: int|
                    0 <= i < outputs.len() && id == OutputIdentifier::of_output(
                        #[trigger] outputs[i],
                    )
            },
    )
}

/// Of the outputs at hand, only those with the commitment of an input have the
/// hash that the input claims to spend.
pub open spec fn recognised(first: World, ids: Set<OutputIdentifier>, input: Input) -> bool {
    forall|id: OutputIdentifier, at: u64|
        ids.contains(id) && #[trigger] (first.hash_of)(id, at) == (first.hash_of)(
            OutputIdentifier::of_input(input),
            at,
        ) ==> id.commit == input.commit
}

/// Every input of a list is told by its hash.
pub open spec fn all_recognised(first: World, outputs: Seq<Output>, inputs: Seq<Input>) -> bool {
    forall|i: int|
        0 <= i < inputs.len() ==> recognised(
            first,
            at_hand(first, outputs),
            #[trigger] inputs[i],
        )
}

/// What can be applied: outputs that are at hand, and inputs that are told by
/// their hash.
spec fn fit(first: World, ids: Set<OutputIdentifier>, item: Item) -> bool {
    match item {
        Item::Output(out) => ids.contains(OutputIdentifier::of_output(out)),
        Item::Input(input) => recognised(first, ids, input),
        Item::Kernel(_) => true,
    }
}

/// The commitments have changed by a tally, and only outputs at hand are
/// unspent.
spec fn changed(first: World, ids: Set<OutputIdentifier>, by: Tally) -> spec_fn(World) -> bool {
    |world: World|
        {
            &&& world == (World { trees: world.trees, log: world.log, ..first })
            &&& world.trees.sound()
            &&& outputs_in(world).to_multiset().add(by.spent) == outputs_in(
                first,
            ).to_multiset().add(by.added)
            &&& kernels_in(world) == kernels_in(first) + by.excesses
            &&& forall|pos: u64| #[trigger]
                world.trees.output.live.contains(pos) ==> ids.contains(
                    world.trees.output.elements[pos]->Output_0,
                )
        }
}

spec fn changes(first: World, ids: Set<OutputIdentifier>, by: Tally) -> Promise {
    |done: (Overlay, Result<(), Error>), after: World|
        done.1 is Ok ==> changed(first, ids, by)(after)
}

/// A leaf that was pruned takes its commitment away.
proof fn lemma_pruned(tree: TreeState, pos: u64, commit: Commitment, n: nat)
    requires
        1 <= pos <= n <= u64::MAX,
        leaf_at(pos as nat),
        commitment_at(Committer::Outputs, tree, pos) == Some(commit),
    ensures
        commitments_up_to(Committer::Outputs, tree.without(pos), n).to_multiset().insert(commit)
            == commitments_up_to(Committer::Outputs, tree, n).to_multiset(),
    decreases n,
{
    broadcast use vstd::seq_lib::group_to_multiset_ensures;

    let of = Committer::Outputs;
    let after = tree.without(pos);
    let with = commitments_up_to(of, tree, n);
    let without = commitments_up_to(of, after, n);
    let below = (n - 1) as nat;
    if n == pos {
        assert forall|at: u64| 1 <= at <= below implies #[trigger] after.element(at)
            == tree.element(at) by {}
        lemma_same_commitments(of, tree, after, below);
        assert(commitment_at(of, after, pos) is None);
        assert(with == without.push(commit));
    } else {
        lemma_pruned(tree, pos, commit, below);
        assert(after.element(n as u64) == tree.element(n as u64));
        assert(commitment_at(of, after, n as u64) == commitment_at(of, tree, n as u64));
        if leaf_at(n) {
            if let Some(other) = commitment_at(of, tree, n as u64) {
                let fewer = commitments_up_to(of, after, below);
                assert(without == fewer.push(other));
                assert(with == commitments_up_to(of, tree, below).push(other));
                assert(fewer.to_multiset().insert(other).insert(commit)
                    =~= fewer.to_multiset().insert(commit).insert(other));
            }
        }
    }
}

proof fn lemma_change_output(
    first: World,
    ids: Set<OutputIdentifier>,
    by: Tally,
    o: Overlay,
    world: World,
    out: Output,
)
    requires
        changed(first, ids, by)(world),
        ids.contains(OutputIdentifier::of_output(out)),
    ensures
        keeps(
            output_push(o, out),
            world,
            changes(first, ids, by.with(Item::Output(out))),
        ),
{
    broadcast use vstd::seq_lib::group_to_multiset_ensures;

    let post = changes(first, ids, by.with(Item::Output(out)));
    let program = output_push(o, out);
    assert forall|reply: Reply, after: World| #[trigger]
        world.allows(program->Ask_0, reply, after) && program->Ask_1.met_by(reply) implies keeps(
        (program->Ask_2)(reply),
        after,
        post,
    ) by {
        if let Ok(pos) = reply->Pushed_0 {
            let element = Element::Output(OutputIdentifier::of_output(out));
            let next = output_push_proof(o.with_output(out.commit, pos), out);
            let now = after.trees.output;
            assert(now.element(pos) == Some(element));
            lemma_appended(
                Committer::Outputs,
                world.trees.output,
                pos,
                element,
                now,
                out.commit,
            );
            assert forall|reply: Reply, last: World| #[trigger]
                after.allows(next->Ask_0, reply, last) && next->Ask_1.met_by(reply) implies keeps(
                (next->Ask_2)(reply),
                last,
                post,
            ) by {
                assert(outputs_in(last) == outputs_in(world).push(out.commit));
                let had = outputs_in(first).to_multiset();
                let now = outputs_in(world).to_multiset();
                assert(now.insert(out.commit).add(by.spent) =~= now.add(by.spent).insert(
                    out.commit,
                ));
                assert(had.add(by.added).insert(out.commit) =~= had.add(
                    by.added.insert(out.commit),
                ));
                assert(kernels_in(last) == kernels_in(world));
            }
        }
    }
}

proof fn lemma_change_input(
    first: World,
    ids: Set<OutputIdentifier>,
    by: Tally,
    o: Overlay,
    world: World,
    input: Input,
    pos: u64,
)
    requires
        changed(first, ids, by)(world),
        recognised(first, ids, input),
        as_claimed(world, input, pos),
    ensures
        keeps(
            input_prune(o, input, pos),
            world,
            changes(first, ids, by.with(Item::Input(input))),
        ),
{
    let post = changes(first, ids, by.with(Item::Input(input)));
    let program = input_prune(o, input, pos);
    assert forall|reply: Reply, after: World| #[trigger]
        world.allows(program->Ask_0, reply, after) && program->Ask_1.met_by(reply) implies keeps(
        (program->Ask_2)(reply),
        after,
        post,
    ) by {
        if reply->Pruned_0 == Ok::<bool, String>(true) {
            let tree = world.trees.output;
            let next = input_prune_proof(o, pos);
            assert(tree.live.contains(pos));
            assert(tree.elements.contains_key(pos));
            let id = tree.elements[pos]->Output_0;
            assert(world.hash_in(tree, pos) == Some((first.hash_of)(id, (pos - 1) as u64)));
            assert(id.commit == input.commit);
            lemma_pruned(tree, pos, input.commit, tree.size as nat);
            assert forall|reply: Reply, last: World| #[trigger]
                after.allows(next->Ask_0, reply, last) && next->Ask_1.met_by(reply) implies keeps(
                (next->Ask_2)(reply),
                last,
                post,
            ) by {
                assert(last.trees.output == tree.without(pos));
                let left = outputs_in(last).to_multiset();
                assert(left.add(by.spent.insert(input.commit)) =~= left.insert(input.commit).add(
                    by.spent,
                ));
                assert(kernels_in(last) == kernels_in(world));
            }
        }
    }
}

proof fn lemma_change_kernel(
    first: World,
    ids: Set<OutputIdentifier>,
    by: Tally,
    o: Overlay,
    world: World,
    kernel: TxKernel,
)
    requires
        changed(first, ids, by)(world),
    ensures
        keeps(
            kernel_program(o, kernel),
            world,
            changes(first, ids, by.with(Item::Kernel(kernel))),
        ),
{
    let post = changes(first, ids, by.with(Item::Kernel(kernel)));
    let program = kernel_program(o, kernel);
    assert forall|reply: Reply, after: World| #[trigger]
        world.allows(program->Ask_0, reply, after) && program->Ask_1.met_by(reply) implies keeps(
        (program->Ask_2)(reply),
        after,
        post,
    ) by {
        if let Ok(pos) = reply->Pushed_0 {
            let element = Element::Kernel(kernel);
            let now = after.trees.kernel;
            assert(now.element(pos) == Some(element));
            lemma_appended(
                Committer::Kernels,
                world.trees.kernel,
                pos,
                element,
                now,
                kernel.excess,
            );
            assert(kernels_in(after) =~= kernels_in(first) + by.excesses.push(kernel.excess));
            assert(outputs_in(after) == outputs_in(world));
        }
    }
}

proof fn lemma_change_item(
    first: World,
    ids: Set<OutputIdentifier>,
    by: Tally,
    o: Overlay,
    world: World,
    item: Item,
)
    requires
        changed(first, ids, by)(world),
        fit(first, ids, item),
    ensures
        keeps(item_program(o, item), world, changes(first, ids, by.with(item))),
{
    let post = changes(first, ids, by.with(item));
    let inv = changed(first, ids, by);
    match item {
        Item::Output(out) => {
            assert forall|now: World| #[trigger] inv(now) implies keeps(
                output_push(o, out),
                now,
                post,
            ) by {
                lemma_change_output(first, ids, by, o, now, out);
            }
            lemma_output(inv, post, o, world, out);
        },
        Item::Input(input) => {
            if let Some(pos) = known(o, world.index, input.commit) {
                assert forall|now: World| #[trigger] inv(now) && as_claimed(
                    now,
                    input,
                    pos,
                ) implies keeps(input_prune(o, input, pos), now, post) by {
                    lemma_change_input(first, ids, by, o, now, input, pos);
                }
            }
            lemma_input(inv, post, o, world, input);
        },
        Item::Kernel(kernel) => lemma_change_kernel(first, ids, by, o, world, kernel),
    }
}

proof fn lemma_change(
    first: World,
    ids: Set<OutputIdentifier>,
    items: Seq<Item>,
    o: Overlay,
    world: World,
    rest: Seq<Item>,
)
    requires
        changed(first, ids, tally(items))(world),
        forall|i: int| 0 <= i < rest.len() ==> fit(first, ids, #[trigger] rest[i]),
    ensures
        keeps(items_program(o, rest), world, changes(first, ids, tally(items + rest))),
    decreases rest.len(),
{
    let post = changes(first, ids, tally(items + rest));
    if rest.len() == 0 {
        assert(items + rest =~= items);
    } else {
        let item = rest[0];
        let more = items.push(item);
        let later = rest.drop_first();
        let middle = changes(first, ids, tally(more));
        assert(more + later =~= items + rest);
        assert(fit(first, ids, rest[0]));
        assert forall|i: int| 0 <= i < later.len() implies fit(first, ids, #[trigger] later[i]) by {
            assert(later[i] == rest[i + 1]);
        }
        lemma_tally_push(items, item);
        lemma_change_item(first, ids, tally(items), o, world, item);
        assert forall|done: (Overlay, Result<(), Error>), after: World| #[trigger]
            middle(done, after) implies keeps(after_item(later)(done), after, post) by {
            if done.1 is Ok {
                lemma_change(first, ids, more, done.0, after, later);
            }
        }
        lemma_keeps_bind(item_program(o, item), after_item(later), world, middle, post);
    }
}

/// Nothing has changed before the first item.
proof fn lemma_unchanged(first: World, outputs: Seq<Output>)
    requires
        first.trees.sound(),
    ensures
        changed(first, at_hand(first, outputs), tally(Seq::empty()))(first),
{
    let tree = first.trees.output;
    assert(outputs_in(first).to_multiset().add(Multiset::empty()) =~= outputs_in(
        first,
    ).to_multiset());
    assert(kernels_in(first) =~= kernels_in(first) + Seq::empty());
    assert forall|pos: u64| #[trigger] tree.live.contains(pos) implies at_hand(
        first,
        outputs,
    ).contains(tree.elements[pos]->Output_0) by {
        assert(tree.elements.contains_key(pos));
        assert(tree.element(pos) == Some(Element::Output(tree.elements[pos]->Output_0)));
    }
}

// ---- blocks and transactions

/// The commitments after outputs were added, inputs spent and kernels added:
/// those of the unspent outputs are the ones from before and those of the
/// outputs, without those of the inputs, which were all among them. The excesses
/// are the ones from before, followed by those of the kernels in order.
pub open spec fn commitments_change(
    first: World,
    outputs: Seq<Output>,
    inputs: Seq<Input>,
    kernels: Seq<TxKernel>,
) -> Promise {
    |done: (Overlay, Result<(), Error>), after: World|
        done.1 is Ok ==> {
            let had = outputs_in(first).to_multiset().add(output_commits(outputs).to_multiset());
            let spent = input_commits(inputs).to_multiset();
            &&& spent.subset_of(had)
            &&& outputs_in(after).to_multiset() == had.sub(spent)
            &&& kernels_in(after) == kernels_in(first) + excesses(kernels)
        }
}

proof fn lemma_changed(
    first: World,
    ids: Set<OutputIdentifier>,
    outputs: Seq<Output>,
    inputs: Seq<Input>,
    kernels: Seq<TxKernel>,
    done: (Overlay, Result<(), Error>),
    after: World,
)
    requires
        changes(
            first,
            ids,
            Tally {
                added: output_commits(outputs).to_multiset(),
                spent: input_commits(inputs).to_multiset(),
                excesses: excesses(kernels),
            },
        )(done, after),
    ensures
        commitments_change(first, outputs, inputs, kernels)(done, after),
{
    if done.1 is Ok {
        let had = outputs_in(first).to_multiset().add(output_commits(outputs).to_multiset());
        let spent = input_commits(inputs).to_multiset();
        let left = outputs_in(after).to_multiset();
        assert forall|commit: Commitment| spent.count(commit) <= had.count(commit) by {
            assert(left.add(spent).count(commit) == had.count(commit));
        }
        assert forall|commit: Commitment| left.count(commit) == had.sub(spent).count(commit) by {
            assert(left.add(spent).count(commit) == had.count(commit));
        }
        assert(left =~= had.sub(spent));
    }
}

/// A block that was applied has added the commitments of its outputs to those of
/// the unspent outputs, has taken away those of its inputs, and has appended the
/// excesses of its kernels.
pub proof fn law_block_changes_commitments(o: Overlay, world: World, block: Block)
    requires
        world.trees.sound(),
        all_recognised(world, block.outputs@, block.inputs@),
    ensures
        keeps(
            block_program(o, block),
            world,
            commitments_change(world, block.outputs@, block.inputs@, block.kernels@),
        ),
{
    let post = commitments_change(world, block.outputs@, block.inputs@, block.kernels@);
    let ids = at_hand(world, block.outputs@);
    let items = block_items(block);
    let none = Seq::<Item>::empty();
    let middle = changes(world, ids, tally(items));
    let rest = after_items(block.hash);
    assert(none + items =~= items);
    lemma_tally_block(block);
    lemma_unchanged(world, block.outputs@);
    lemma_block_fits(world, block);
    lemma_change(world, ids, none, o, world, items);
    assert forall|done: (Overlay, Result<(), Error>), after: World| #[trigger]
        middle(done, after) implies keeps(rest(done), after, post) by {
        lemma_changed(
            world,
            ids,
            block.outputs@,
            block.inputs@,
            block.kernels@,
            done,
            after,
        );
        if done.1 is Ok {
            let program = marker_output(done.0, block.hash);
            assert forall|reply: Reply, now: World| #[trigger]
                after.allows(program->Ask_0, reply, now) && program->Ask_1.met_by(
                    reply,
                ) implies keeps((program->Ask_2)(reply), now, post) by {
                let next = marker_kernel(done.0, block.hash, reply->Size_0);
                assert forall|reply: Reply, last: World| #[trigger]
                    now.allows(next->Ask_0, reply, last) && next->Ask_1.met_by(
                        reply,
                    ) implies keeps((next->Ask_2)(reply), last, post) by {}
            }
        }
    }
    lemma_keeps_bind(items_program(o, items), rest, world, middle, post);
}

/// Picked outputs are outputs of the list.
proof fn lemma_picked_from(outputs: Seq<Output>, coinbase: bool, k: int)
    requires
        0 <= k < outputs_that(outputs, coinbase).len(),
    ensures
        outputs.contains(outputs_that(outputs, coinbase)[k]),
{
    let out = outputs_that(outputs, coinbase)[k];
    assert(outputs_that(outputs, coinbase).contains(out));
    outputs.lemma_filter_contains_rev(|out: Output| out.coinbase == coinbase, out);
}

proof fn lemma_block_fits(world: World, block: Block)
    requires
        all_recognised(world, block.outputs@, block.inputs@),
    ensures
        forall|i: int|
            0 <= i < block_items(block).len() ==> fit(
                world,
                at_hand(world, block.outputs@),
                #[trigger] block_items(block)[i],
            ),
{
    let ids = at_hand(world, block.outputs@);
    let items = block_items(block);
    let mined = outputs_that(block.outputs@, true);
    let other = outputs_that(block.outputs@, false);
    let spent = mined.len() + block.inputs@.len();
    assert forall|i: int| 0 <= i < items.len() implies fit(world, ids, #[trigger] items[i]) by {
        if i < mined.len() {
            assert(items[i] == Item::Output(mined[i]));
            lemma_picked_from(block.outputs@, true, i);
        } else if i < spent {
            assert(items[i] == Item::Input(block.inputs@[i - mined.len()]));
        } else if i < spent + other.len() {
            assert(items[i] == Item::Output(other[i - spent]));
            lemma_picked_from(block.outputs@, false, i - spent);
        } else {
            assert(items[i] == Item::Kernel(block.kernels@[i - spent - other.len()]));
        }
    }
}

/// A transaction that was applied has added the commitments of its outputs to
/// those of the unspent outputs, has taken away those of its inputs, and has
/// appended the excesses of its kernels.
pub proof fn law_transaction_changes_commitments(o: Overlay, world: World, tx: Transaction)
    requires
        world.trees.sound(),
        all_recognised(world, tx.outputs@, tx.inputs@),
    ensures
        keeps(
            raw_tx_program(o, tx),
            world,
            commitments_change(world, tx.outputs@, tx.inputs@, tx.kernels@),
        ),
{
    let post = commitments_change(world, tx.outputs@, tx.inputs@, tx.kernels@);
    let items = tx_items(tx);
    let none = Seq::<Item>::empty();
    let outputs = tx.outputs@.len();
    let inputs = tx.inputs@.len();
    let ids = at_hand(world, tx.outputs@);
    assert(none + items =~= items);
    lemma_tally_tx(tx);
    lemma_unchanged(world, tx.outputs@);
    assert forall|i: int| 0 <= i < items.len() implies fit(world, ids, #[trigger] items[i]) by {
        if i < outputs {
            assert(items[i] == Item::Output(tx.outputs@[i]));
        } else if i < outputs + inputs {
            assert(items[i] == Item::Input(tx.inputs@[i - outputs]));
        } else {
            assert(items[i] == Item::Kernel(tx.kernels@[i - outputs - inputs]));
        }
    }
    assert forall|now: World, spent: Set<u32>|
        now == (World { log: now.log, ..world }) implies #[trigger] keeps_items(
        o,
        tx,
        world,
        spent,
        now,
        post,
    ) by {
        let middle = changes(world, ids, tally(items));
        assert(changed(world, ids, tally(none))(now));
        lemma_change(world, ids, none, o, now, items);
        assert forall|done: (Overlay, Result<(), Error>), after: World|
            done.1 is Ok && #[trigger] middle(done, after) implies post(done, after) by {
            lemma_changed(world, ids, tx.outputs@, tx.inputs@, tx.kernels@, done, after);
        }
        lemma_after_items(o, tx, world, spent, now, middle, post);
    }
    lemma_raw_tx(o, tx, world, post);
}

} // verus!
