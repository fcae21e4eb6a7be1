//! Blocks are applied in a reversible manner.
use crate::apply::{
    input_prune, input_prune_proof, kernel_program, output_push, output_push_proof,
};
use crate::bitmap::{low_bits, positions_between};
use crate::block::{after_items, block_items, block_program, marker_kernel, marker_output};
use crate::extension::Overlay;
use crate::paths::{known, lemma_input, lemma_items, lemma_output, reads, Promise};
use crate::pmmr::leaf_at;
use crate::program::{bind, Call, Reply};
use crate::rewind::{
    added_from, added_program, after_added, after_removed, after_span, removed_program,
    rewind_kernel, rewind_output, rewind_program, rewind_rproof, rewind_to_program, span_program,
};
use crate::tasks::{item_program, items_program, Item};
use crate::types::{
    Block, BlockMarker, Error, Hash256, Input, Output, OutputIdentifier, Tree, TxKernel,
};
use crate::world::{
    completes, extends, keeps, leads, lemma_complete, lemma_elements_back, lemma_keeps_bind,
    lemma_keeps_less, lemma_leads_step, lemma_pushed, lemma_small, may_find, path_spent,
    same_but_log, Element, Link, TreeState, Trees, World,
};
use vstd::prelude::*;

verus! {

/// Whether a request prunes a position of the output tree, given in the form
/// in which a bitmap keeps it.
pub open spec fn prunes_at(call: Call, x: u32) -> bool {
    match call {
        Call::Prune(Tree::Output, pos) => low_bits(pos) == x,
        _ => false,
    }
}

/// The positions that the requests from the one at `from` on prune from the
/// output tree.
pub open spec fn pruned_since(log: Seq<Call>, from: nat) -> Set<u32> {
    Set::new(|x: u32| exists|i: int| from <= i < log.len() && prunes_at(#[trigger] log[i], x))
}

/// A tree came from another by appending elements and by pruning, of those
/// that were there, exactly the ones at the positions `spent`.
pub open spec fn spends(before: TreeState, spent: Set<u32>, now: TreeState) -> bool {
    &&& now.sound()
    &&& extends(before, now)
    &&& forall|pos: u64|
        pos <= before.size ==> (#[trigger] now.live.contains(pos) <==> before.live.contains(pos)
            && !spent.contains(low_bits(pos)))
    &&& forall|pos: u64|
        1 <= pos <= before.size && #[trigger] spent.contains(low_bits(pos))
            ==> before.live.contains(pos)
}

/// Two trees have the same positions, and the same ones were pruned.
pub open spec fn alike(one: TreeState, other: TreeState) -> bool {
    one.size == other.size && one.live == other.live
}

/// What is spent in two stretches one after the other is what is spent in both
/// together.
pub proof fn law_spending_adds_up(
    first: TreeState,
    spent: Set<u32>,
    second: TreeState,
    more: Set<u32>,
    third: TreeState,
)
    requires
        spends(first, spent, second),
        spends(second, more, third),
    ensures
        spends(first, spent.union(more), third),
{
    assert forall|pos: u64|
        1 <= pos <= first.size && #[trigger] spent.union(more).contains(
            low_bits(pos),
        ) implies first.live.contains(pos) by {
        if spent.contains(low_bits(pos)) {
        } else {
            assert(more.contains(low_bits(pos)));
            assert(second.live.contains(pos));
        }
    }
}

// ---- applying a block

/// Everything is as it was at first, but for the trees, in which the positions
/// that the log says were spent, and which are alike.
pub open spec fn on_the_way(first: World) -> spec_fn(World) -> bool {
    |world: World|
        {
            let spent = pruned_since(world.log, first.log.len());
            &&& world == (World { trees: world.trees, log: world.log, ..first })
            &&& world.log.len() >= first.log.len()
            &&& world.trees.sound()
            &&& alike(world.trees.output, world.trees.rproof)
            &&& spends(first.trees.output, spent, world.trees.output)
            &&& spends(first.trees.rproof, spent, world.trees.rproof)
            &&& spends(first.trees.kernel, Set::empty(), world.trees.kernel)
        }
}

/// What was applied has left everything so.
pub open spec fn applied(first: World) -> Promise {
    |done: (Overlay, Result<(), Error>), after: World| done.1 is Ok ==> on_the_way(first)(after)
}

proof fn lemma_log(log: Seq<Call>, from: nat, call: Call)
    requires
        from <= log.len(),
    ensures
        forall|x: u32| #[trigger]
            pruned_since(log.push(call), from).contains(x) <==> pruned_since(log, from).contains(x)
                || prunes_at(call, x),
{
    let more = log.push(call);
    assert forall|x: u32| #[trigger] pruned_since(more, from).contains(x) <==> pruned_since(
        log,
        from,
    ).contains(x) || prunes_at(call, x) by {
        if pruned_since(more, from).contains(x) {
            let i = choose|i: int| from <= i < more.len() && prunes_at(#[trigger] more[i], x);
            if i < log.len() {
                assert(prunes_at(log[i], x));
            }
        }
        if pruned_since(log, from).contains(x) {
            let i = choose|i: int| from <= i < log.len() && prunes_at(#[trigger] log[i], x);
            assert(prunes_at(more[i], x));
        }
        if prunes_at(call, x) {
            assert(prunes_at(more[log.len() as int], x));
        }
    }
}

/// A request that prunes nothing leaves the spent positions as they are.
pub proof fn lemma_log_same(log: Seq<Call>, from: nat, call: Call)
    requires
        from <= log.len(),
        forall|x: u32| !prunes_at(call, x),
    ensures
        pruned_since(log.push(call), from) == pruned_since(log, from),
{
    lemma_log(log, from, call);
    assert(pruned_since(log.push(call), from) =~= pruned_since(log, from));
}

/// Two trees that are alike stay alike when each gets an element.
pub proof fn lemma_pushed_alike(
    tree: TreeState,
    pos: u64,
    element: Element,
    one: TreeState,
    twin: TreeState,
    at: u64,
    companion: Element,
    other: TreeState,
)
    requires
        alike(tree, twin),
        tree.pushed(pos, element, one),
        twin.pushed(at, companion, other),
        one.sound(),
        other.sound(),
    ensures
        alike(one, other),
{
    if one.size < other.size {
        let parent = (one.size + 1) as u64;
        assert(!leaf_at(parent as nat));
    } else if other.size < one.size {
        let parent = (other.size + 1) as u64;
        assert(!leaf_at(parent as nat));
    }
}

proof fn lemma_push(first: World, o: Overlay, world: World, out: Output)
    requires
        on_the_way(first)(world),
    ensures
        keeps(output_push(o, out), world, applied(first)),
{
    let from = first.log.len();
    let program = output_push(o, out);
    assert forall|reply: Reply, after: World| #[trigger]
        world.allows(program->Ask_0, reply, after) && program->Ask_1.met_by(reply) implies keeps(
        (program->Ask_2)(reply),
        after,
        applied(first),
    ) by {
        if let Ok(pos) = reply->Pushed_0 {
            let next = output_push_proof(o.with_output(out.commit, pos), out);
            assert forall|reply: Reply, last: World| #[trigger]
                after.allows(next->Ask_0, reply, last) && next->Ask_1.met_by(reply) implies keeps(
                (next->Ask_2)(reply),
                last,
                applied(first),
            ) by {
                if let Ok(at) = reply->Pushed_0 {
                    lemma_log_same(world.log, from, program->Ask_0);
                    lemma_log_same(after.log, from, next->Ask_0);
                    let id = Element::Output(OutputIdentifier::of_output(out));
                    let companion = Element::Proof(out.proof);
                    let before = world.trees;
                    let now = last.trees;
                    lemma_pushed(before.output, pos, id, now.output);
                    lemma_pushed(before.rproof, at, companion, now.rproof);
                    lemma_pushed_alike(
                        before.output,
                        pos,
                        id,
                        now.output,
                        before.rproof,
                        at,
                        companion,
                        now.rproof,
                    );
                }
            }
        }
    }
}

/// A tree that loses the element at one more position.
proof fn lemma_spends_more(
    before: TreeState,
    spent: Set<u32>,
    now: TreeState,
    pos: u64,
    more: Set<u32>,
)
    requires
        spends(before, spent, now),
        now.live.contains(pos),
        forall|x: u32| #[trigger] more.contains(x) <==> spent.contains(x) || x == low_bits(pos),
    ensures
        spends(before, more, now.without(pos)),
{
    lemma_small(pos);
    assert forall|q: u64| q <= before.size implies (
    #[trigger] now.without(pos).live.contains(q) <==> before.live.contains(q) && !more.contains(
        low_bits(q),
    )) by {
        lemma_small(q);
        assert(now.live.contains(q) <==> before.live.contains(q) && !spent.contains(low_bits(q)));
    }
    assert forall|q: u64|
        1 <= q <= before.size && #[trigger] more.contains(
            low_bits(q),
        ) implies before.live.contains(q) by {
        lemma_small(q);
        if !spent.contains(low_bits(q)) {
            assert(now.live.contains(q));
        }
    }
}

proof fn lemma_prune(first: World, o: Overlay, world: World, input: Input, pos: u64)
    requires
        on_the_way(first)(world),
    ensures
        keeps(input_prune(o, input, pos), world, applied(first)),
{
    let from = first.log.len();
    let program = input_prune(o, input, pos);
    assert forall|reply: Reply, after: World| #[trigger]
        world.allows(program->Ask_0, reply, after) && program->Ask_1.met_by(reply) implies keeps(
        (program->Ask_2)(reply),
        after,
        applied(first),
    ) by {
        if reply->Pruned_0 == Ok::<bool, String>(true) {
            let next = input_prune_proof(o, pos);
            assert forall|reply: Reply, last: World| #[trigger]
                after.allows(next->Ask_0, reply, last) && next->Ask_1.met_by(reply) implies keeps(
                (next->Ask_2)(reply),
                last,
                applied(first),
            ) by {
                if reply->Pruned_0 is Ok {
                    lemma_log(world.log, from, program->Ask_0);
                    lemma_log_same(after.log, from, next->Ask_0);
                    let spent = pruned_since(world.log, from);
                    let more = pruned_since(last.log, from);
                    lemma_spends_more(
                        first.trees.output,
                        spent,
                        world.trees.output,
                        pos,
                        more,
                    );
                    lemma_spends_more(
                        first.trees.rproof,
                        spent,
                        world.trees.rproof,
                        pos,
                        more,
                    );
                }
            }
        }
    }
}

proof fn lemma_kernel(first: World, o: Overlay, world: World, kernel: TxKernel)
    requires
        on_the_way(first)(world),
    ensures
        keeps(kernel_program(o, kernel), world, applied(first)),
{
    let program = kernel_program(o, kernel);
    assert forall|reply: Reply, after: World| #[trigger]
        world.allows(program->Ask_0, reply, after) && program->Ask_1.met_by(reply) implies keeps(
        (program->Ask_2)(reply),
        after,
        applied(first),
    ) by {
        lemma_log_same(world.log, first.log.len(), program->Ask_0);
        if let Ok(pos) = reply->Pushed_0 {
            let now = world.trees.kernel;
            lemma_pushed(now, pos, Element::Kernel(kernel), after.trees.kernel);
            assert forall|at: u64| at <= first.trees.kernel.size implies
                #[trigger] after.trees.kernel.elements.get(at)
                == first.trees.kernel.elements.get(at) by {
                assert(after.trees.kernel.elements.get(at) == now.elements.get(at));
            }
        }
    }
}

pub proof fn lemma_item(first: World, o: Overlay, world: World, item: Item)
    requires
        on_the_way(first)(world),
    ensures
        keeps(item_program(o, item), world, applied(first)),
{
    let inv = on_the_way(first);
    let post = applied(first);
    assert forall|now: World, call: Call, after: World|
        #![trigger now.keeps(call, after)]
        inv(now) && reads(call) && after.trees.sound() && now.keeps(
            call,
            after,
        ) implies inv(after) by {
        lemma_log_same(now.log, first.log.len(), call);
    }
    match item {
        Item::Output(out) => {
            assert forall|now: World| #[trigger] inv(now) implies keeps(
                output_push(o, out),
                now,
                post,
            ) by {
                lemma_push(first, o, now, out);
            }
            lemma_output(inv, post, o, world, out);
        },
        Item::Input(input) => {
            if let Some(pos) = known(o, world.index, input.commit) {
                assert forall|now: World| #[trigger] inv(now) implies keeps(
                    input_prune(o, input, pos),
                    now,
                    post,
                ) by {
                    lemma_prune(first, o, now, input, pos);
                }
            }
            lemma_input(inv, post, o, world, input);
        },
        Item::Kernel(kernel) => lemma_kernel(first, o, world, kernel),
    }
}

/// What an applied block has done: the output tree and the range proof tree,
/// which stay alike, got elements and lost those at the positions that were
/// pruned, the unit of work knows where the block ends, and nothing else
/// changed.
pub open spec fn block_applied(first: World, block: Block) -> Promise {
    |done: (Overlay, Result<(), Error>), after: World|
        done.1 is Ok ==> {
            &&& after == (World { trees: after.trees, log: after.log, ..first })
            &&& after.trees.sound()
            &&& alike(after.trees.output, after.trees.rproof)
            &&& spends(
                first.trees.output,
                pruned_since(after.log, first.log.len()),
                after.trees.output,
            )
            &&& spends(
                first.trees.rproof,
                pruned_since(after.log, first.log.len()),
                after.trees.rproof,
            )
            &&& spends(first.trees.kernel, Set::empty(), after.trees.kernel)
            &&& done.0.markers.contains_key(block.hash)
            &&& done.0.markers[block.hash] == (BlockMarker {
                output_pos: after.trees.output.size,
                kernel_pos: after.trees.kernel.size,
            })
        }
}

/// A block that was applied has appended to the trees, has spent, of what was
/// there, exactly the outputs at the positions that were pruned, and is marked
/// with the sizes that the trees have then.
pub proof fn law_block_is_applied(o: Overlay, world: World, block: Block)
    requires
        world.trees.sound(),
        alike(world.trees.output, world.trees.rproof),
    ensures
        keeps(block_program(o, block), world, block_applied(world, block)),
{
    let post = block_applied(world, block);
    let items = block_items(block);
    let from = world.log.len();
    assert(on_the_way(world)(world));
    assert forall|i: int, o: Overlay, now: World|
        0 <= i < items.len() && #[trigger] (applied(world))((o, Ok(())), now) implies keeps(
        item_program(o, #[trigger] items[i]),
        now,
        applied(world),
    ) by {
        lemma_item(world, o, now, items[i]);
    }
    lemma_items(applied(world), o, world, items);
    assert forall|done: (Overlay, Result<(), Error>), after: World| #[trigger]
        (applied(world))(done, after) implies keeps(
        after_items(block.hash)(done),
        after,
        post,
    ) by {
        if done.1 is Ok {
            let program = marker_output(done.0, block.hash);
            assert forall|reply: Reply, now: World| #[trigger]
                after.allows(program->Ask_0, reply, now) && program->Ask_1.met_by(
                    reply,
                ) implies keeps((program->Ask_2)(reply), now, post) by {
                let next = marker_kernel(done.0, block.hash, reply->Size_0);
                assert forall|reply: Reply, last: World| #[trigger]
                    now.allows(next->Ask_0, reply, last) && next->Ask_1.met_by(
                        reply,
                    ) implies keeps((next->Ask_2)(reply), last, post) by {
                    lemma_log_same(after.log, from, program->Ask_0);
                    lemma_log_same(now.log, from, next->Ask_0);
                }
            }
        }
    }
    lemma_keeps_bind(items_program(o, items), after_items(block.hash), world, applied(world), post);
}

// ---- rewinding

/// A rewind that succeeds restores the trees, and the unit of work forgets what
/// it added since.
pub open spec fn restores(o: Overlay, before: Trees) -> Promise {
    |done: (Overlay, Result<(), Error>), after: World|
        done.1 is Ok ==> {
            &&& after.trees == before
            &&& done.0 == o.rewound(before.output.size)
        }
}

/// Where a rewind starts from.
pub open spec fn rewindable(before: Trees, world: World, block: Hash256, head: Hash256) -> bool {
    &&& before.output.size == before.rproof.size
    &&& spends(before.kernel, Set::empty(), world.trees.kernel)
    &&& world.markers.contains_key(block) ==> world.markers[block] == (BlockMarker {
        output_pos: before.output.size,
        kernel_pos: before.kernel.size,
    })
    &&& world.markers.contains_key(head) ==> world.markers[head].output_pos <= u32::MAX
    &&& forall|spent: Set<u32>| #[trigger]
        leads(world.chain, head, block, spent) ==> spends(before.output, spent, world.trees.output)
            && spends(before.rproof, spent, world.trees.rproof)
}

/// A tree that spent some elements gets them back, and loses what was added.
pub proof fn lemma_tree_back(
    before: TreeState,
    spent: Set<u32>,
    now: TreeState,
    added: Set<u32>,
    end: u64,
)
    requires
        spends(before, spent, now),
        forall|pos: u64|
            1 <= pos <= before.size ==> !#[trigger] added.contains(low_bits(pos)),
        completes(before.size, end),
    ensures
        now.rewound(end, added, spent) == before,
{
    lemma_complete(before.size, end);
    let after = now.rewound(end, added, spent);
    assert forall|pos: u64| after.live.contains(pos) <==> before.live.contains(pos) by {
        if 1 <= pos <= before.size {
            lemma_small(pos);
            assert(!added.contains(low_bits(pos)));
            assert(now.elements.get(pos) == before.elements.get(pos));
        }
    }
    assert(after.live =~= before.live);
    lemma_elements_back(before, now);
}

/// What was added is not among what was there before.
pub proof fn lemma_added(size: u64, latest: u64)
    requires
        size <= u32::MAX,
        latest <= u32::MAX,
    ensures
        forall|pos: u64|
            1 <= pos <= size ==> !#[trigger] positions_between(size, latest).contains(
                low_bits(pos),
            ),
{
    assert forall|pos: u64|
        1 <= pos <= size implies !#[trigger] positions_between(size, latest).contains(
        low_bits(pos),
    ) by {
        lemma_small(pos);
        if positions_between(size, latest).contains(low_bits(pos)) {
            let other = choose|other: u64|
                size < other <= latest && low_bits(pos) == #[trigger] low_bits(other);
            lemma_small(other);
        }
    }
}

proof fn lemma_trees_back(o: Overlay, before: Trees, spent: Set<u32>, world: World, latest: u64)
    requires
        before.output.size == before.rproof.size,
        spends(before.output, spent, world.trees.output),
        spends(before.rproof, spent, world.trees.rproof),
        spends(before.kernel, Set::empty(), world.trees.kernel),
        latest <= u32::MAX,
    ensures
        keeps(
            rewind_to_program(
                o,
                before.output.size,
                before.kernel.size,
                positions_between(before.output.size, latest),
                spent,
            ),
            world,
            restores(o, before),
        ),
{
    let pos = before.output.size;
    let kernel_pos = before.kernel.size;
    let added = positions_between(pos, latest);
    let post = restores(o, before);
    let rewound = o.rewound(pos);
    let program = rewind_output(rewound, pos, kernel_pos, added, spent);
    lemma_added(pos, latest);
    assert forall|reply: Reply, after: World| #[trigger]
        world.allows(program->Ask_0, reply, after) && program->Ask_1.met_by(reply) implies keeps(
        (program->Ask_2)(reply),
        after,
        post,
    ) by {
        if reply->Done_0 is Ok {
            lemma_tree_back(
                before.output,
                spent,
                world.trees.output,
                added,
                after.trees.output.size,
            );
            let program = rewind_rproof(rewound, pos, kernel_pos, added, spent);
            assert forall|reply: Reply, now: World| #[trigger]
                after.allows(program->Ask_0, reply, now) && program->Ask_1.met_by(
                    reply,
                ) implies keeps((program->Ask_2)(reply), now, post) by {
                if reply->Done_0 is Ok {
                    lemma_tree_back(
                        before.rproof,
                        spent,
                        world.trees.rproof,
                        added,
                        now.trees.rproof.size,
                    );
                    let program = rewind_kernel(rewound, kernel_pos);
                    assert forall|reply: Reply, last: World| #[trigger]
                        now.allows(program->Ask_0, reply, last) && program->Ask_1.met_by(
                            reply,
                        ) implies keeps((program->Ask_2)(reply), last, post) by {
                        if reply->Done_0 is Ok {
                            lemma_tree_back(
                                before.kernel,
                                Set::empty(),
                                world.trees.kernel,
                                Set::empty(),
                                last.trees.kernel.size,
                            );
                            assert(last.trees =~= before);
                        }
                    }
                }
            }
        }
    }
}

/// The positions added and removed, as a search for them may find them: those
/// between the markers, and those that the chain leads to.
pub open spec fn spanned(world: World, block: Hash256, head: Hash256) -> spec_fn(
    Result<(Set<u32>, Set<u32>), Error>,
    World,
) -> bool {
    |found: Result<(Set<u32>, Set<u32>), Error>, after: World|
        {
            &&& after == (World { log: after.log, ..world })
            &&& found matches Ok(span) ==> {
                &&& world.markers.contains_key(block)
                &&& world.markers.contains_key(head)
                &&& span.0 == positions_between(
                    world.markers[block].output_pos,
                    world.markers[head].output_pos,
                )
                &&& leads(world.chain, head, block, span.1)
            }
        }
}

/// A search for spent positions that succeeds finds what the chain leads to.
pub open spec fn finds_spent(block: Hash256, head: Hash256, first: World) -> spec_fn(
    Result<Set<u32>, Error>,
    World,
) -> bool {
    |found: Result<Set<u32>, Error>, after: World|
        {
            &&& after == (World { log: after.log, ..first })
            &&& found matches Ok(spent) ==> leads(first.chain, head, block, spent)
        }
}

/// A walk finds what the chain leads to.
pub proof fn lemma_removed(first: World, world: World, block: Hash256, head: Hash256)
    requires
        world == (World { log: world.log, ..first }),
    ensures
        keeps(removed_program(block, head), world, finds_spent(block, head, first)),
{
    let chain = world.chain;
    let post = finds_spent(block, head, first);
    let walk = removed_program(block, head);
    if head == block {
        assert(path_spent(chain, head, block, 0) == Some(Set::<u32>::empty()));
    } else {
        let trail = walk->Walk_0;
        let rest = walk->Walk_1;
        assert forall|found: Result<Set<u32>, Error>, after: World|
            #![trigger may_find(chain, trail, found), rest(found), same_but_log(world, after)]
            may_find(chain, trail, found) && same_but_log(world, after) implies keeps(
            rest(found),
            after,
            post,
        ) by {
            if let Ok(all) = found {
                let beyond = choose|beyond: Set<u32>| #[trigger]
                    leads(chain, chain[head].previous, block, beyond) && all
                        == trail.spent.union(chain[head].spent).union(beyond);
                lemma_leads_step(chain, head, block, beyond);
                assert(all =~= chain[head].spent.union(beyond));
            }
        }
    }
}

proof fn lemma_walk(first: World, world: World, block: Hash256, head: Hash256, added: Set<u32>)
    requires
        world == (World { log: world.log, ..first }),
        first.markers.contains_key(block),
        first.markers.contains_key(head),
        added == positions_between(
            first.markers[block].output_pos,
            first.markers[head].output_pos,
        ),
    ensures
        keeps(
            bind(removed_program(block, head), after_removed(added)),
            world,
            spanned(first, block, head),
        ),
{
    lemma_removed(first, world, block, head);
    lemma_keeps_bind(
        removed_program(block, head),
        after_removed(added),
        world,
        finds_spent(block, head, first),
        spanned(first, block, head),
    );
}

pub proof fn lemma_span(first: World, world: World, block: Hash256, head: Hash256)
    requires
        world == (World { log: world.log, ..first }),
    ensures
        keeps(span_program(block, head), world, spanned(first, block, head)),
{
    let post = spanned(first, block, head);
    let middle = |found: Result<Set<u32>, Error>, after: World|
        {
            &&& after == (World { log: after.log, ..first })
            &&& found matches Ok(added) ==> {
                &&& first.markers.contains_key(block)
                &&& first.markers.contains_key(head)
                &&& added == positions_between(
                    first.markers[block].output_pos,
                    first.markers[head].output_pos,
                )
            }
        };
    let program = added_program(block, head);
    assert forall|reply: Reply, after: World| #[trigger]
        world.allows(program->Ask_0, reply, after) && program->Ask_1.met_by(reply) implies keeps(
        (program->Ask_2)(reply),
        after,
        middle,
    ) by {
        if let Ok(to) = reply->Marker_0 {
            let program = added_from(block, to);
            assert forall|reply: Reply, last: World| #[trigger]
                after.allows(program->Ask_0, reply, last) && program->Ask_1.met_by(
                    reply,
                ) implies keeps((program->Ask_2)(reply), last, middle) by {}
        }
    }
    assert forall|found: Result<Set<u32>, Error>, after: World| #[trigger]
        middle(found, after) implies keeps(after_added(block, head)(found), after, post) by {
        if let Ok(added) = found {
            lemma_walk(first, after, block, head, added);
        }
    }
    lemma_keeps_bind(program, after_added(block, head), world, middle, post);
}

/// A rewind to a block restores all three trees as they were at the end of it,
/// if the chain store has what the blocks since then spent. That goes for any
/// number of blocks.
pub proof fn law_rewind_restores(
    o: Overlay,
    before: Trees,
    world: World,
    block: Hash256,
    head: Hash256,
)
    requires
        rewindable(before, world, block, head),
    ensures
        keeps(rewind_program(o, block, head), world, restores(o, before)),
{
    let post = restores(o, before);
    let program = rewind_program(o, block, head);
    assert forall|reply: Reply, after: World| #[trigger]
        world.allows(program->Ask_0, reply, after) && program->Ask_1.met_by(reply) implies keeps(
        (program->Ask_2)(reply),
        after,
        post,
    ) by {
        if let Ok(marker) = reply->Marker_0 {
            let middle = spanned(world, block, head);
            lemma_span(world, after, block, head);
            assert forall|found: Result<(Set<u32>, Set<u32>), Error>, last: World| #[trigger]
                middle(found, last) implies keeps(after_span(o, marker)(found), last, post) by {
                if let Ok(span) = found {
                    let latest = world.markers[head].output_pos;
                    lemma_trees_back(o, before, span.1, last, latest);
                }
            }
            lemma_keeps_bind(span_program(block, head), after_span(o, marker), after, middle, post);
        }
    }
}

/// The chain store after a block was applied and kept: the trees are as the
/// block left them, and the store has the markers of the block and of the one
/// before it, and what the block spent.
pub open spec fn recorded(
    first: World,
    done: Overlay,
    after: World,
    block: Block,
    previous: Hash256,
    stored: World,
) -> bool {
    &&& stored.trees == after.trees
    &&& stored.markers.contains_key(previous)
    &&& stored.markers[previous] == (BlockMarker {
        output_pos: first.trees.output.size,
        kernel_pos: first.trees.kernel.size,
    })
    &&& stored.markers.contains_key(block.hash)
    &&& stored.markers[block.hash] == done.markers[block.hash]
    &&& stored.chain.contains_key(block.hash)
    &&& stored.chain[block.hash] == (Link {
        previous,
        spent: pruned_since(after.log, first.log.len()),
    })
}

/// A block can be taken back.
pub open spec fn can_be_taken_back(first: World, block: Block, previous: Hash256) -> Promise {
    |done: (Overlay, Result<(), Error>), after: World|
        done.1 is Ok ==> forall|stored: World, o: Overlay|
            #![trigger recorded(first, done.0, after, block, previous, stored), restores(o, first.trees)]
            recorded(first, done.0, after, block, previous, stored) ==> keeps(
                rewind_program(o, previous, block.hash),
                stored,
                restores(o, first.trees),
            )
}

/// Blocks are applied in a reversible manner: after a block was applied, and
/// the chain store has recorded it, a rewind to the block before it restores
/// the trees as they were before it was applied.
pub proof fn law_block_can_be_taken_back(
    o: Overlay,
    world: World,
    block: Block,
    previous: Hash256,
)
    requires
        world.trees.sound(),
        alike(world.trees.output, world.trees.rproof),
        block.hash != previous,
    ensures
        keeps(block_program(o, block), world, can_be_taken_back(world, block, previous)),
{
    let more = block_applied(world, block);
    let less = can_be_taken_back(world, block, previous);
    law_block_is_applied(o, world, block);
    assert forall|done: (Overlay, Result<(), Error>), after: World| #[trigger]
        more(done, after) implies less(done, after) by {
        if done.1 is Ok {
            assert forall|stored: World, o: Overlay|
                #![trigger recorded(world, done.0, after, block, previous, stored), restores(o, world.trees)]
                recorded(world, done.0, after, block, previous, stored) implies keeps(
                rewind_program(o, previous, block.hash),
                stored,
                restores(o, world.trees),
            ) by {
                let chain = stored.chain;
                let spent = chain[block.hash].spent;
                assert forall|all: Set<u32>| #[trigger]
                    leads(chain, block.hash, previous, all) implies all == spent by {
                    let steps = choose|steps: nat| #[trigger]
                        path_spent(chain, block.hash, previous, steps) == Some(all);
                    reveal_with_fuel(path_spent, 2);
                    assert(all =~= spent.union(Set::empty()));
                    assert(all =~= spent);
                }
                law_rewind_restores(o, world.trees, stored, previous, block.hash);
            }
        }
    }
    lemma_keeps_less(block_program(o, block), world, more, less);
}

} // verus!
