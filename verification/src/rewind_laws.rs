//! What a rewind does, step by step.
use crate::bitmap::{low_bits, positions_between};
use crate::block_laws::{lemma_span, spanned};
use crate::extension::Overlay;
use crate::leaf_laws::{lemma_grows, lemma_starts};
use crate::paths::Promise;
use crate::program::Reply;
use crate::raw_tx::rewind_raw_tx_program;
use crate::rewind::{
    added_from, added_program, after_span, rewind_kernel, rewind_output, rewind_program,
    rewind_rproof, rewind_to_program, span_program,
};
use crate::types::{Commitment, Error, Hash256};
use crate::world::{
    completes, keeps, leads, lemma_keeps_bind, lemma_keeps_less, same_but_log, World,
};
use vstd::prelude::*;

verus! {

// ---- positions

/// The positions after one and up to another, as a bitmap keeps them.
pub open spec fn after_and_up_to(from: u64, to: u64, found: Set<u32>) -> bool {
    forall|low: u32| #[trigger]
        found.contains(low) <==> exists|pos: u64|
            from < pos && pos <= to && #[trigger] low_bits(pos) == low
}

/// The positions added since a block are those after the one at which it ends, up
/// to the one at which the head of the chain ends.
pub proof fn law_added_positions_lie_between(block: Hash256, head: Hash256, world: World)
    ensures
        keeps(
            added_program(block, head),
            world,
            |found: Result<Set<u32>, Error>, after: World|
                {
                    &&& same_but_log(world, after)
                    &&& found matches Ok(added) ==> {
                        &&& world.markers.contains_key(block)
                        &&& world.markers.contains_key(head)
                        &&& after_and_up_to(
                            world.markers[block].output_pos,
                            world.markers[head].output_pos,
                            added,
                        )
                    }
                },
        ),
{
    let post = |found: Result<Set<u32>, Error>, after: World|
        {
            &&& same_but_log(world, after)
            &&& found matches Ok(added) ==> {
                &&& world.markers.contains_key(block)
                &&& world.markers.contains_key(head)
                &&& after_and_up_to(
                    world.markers[block].output_pos,
                    world.markers[head].output_pos,
                    added,
                )
            }
        };
    let program = added_program(block, head);
    lemma_starts(world);
    assert forall|reply: Reply, after: World| #[trigger]
        world.allows(program->Ask_0, reply, after) && program->Ask_1.met_by(reply) implies keeps(
        (program->Ask_2)(reply),
        after,
        post,
    ) by {
        lemma_grows(world, world, program->Ask_0, after);
        if let Ok(to) = reply->Marker_0 {
            let next = added_from(block, to);
            assert forall|reply: Reply, last: World| #[trigger]
                after.allows(next->Ask_0, reply, last) && next->Ask_1.met_by(reply) implies keeps(
                (next->Ask_2)(reply),
                last,
                post,
            ) by {
                lemma_grows(world, after, next->Ask_0, last);
                if let Ok(from) = reply->Marker_0 {
                    lemma_between(from.output_pos, to.output_pos);
                }
            }
        }
    }
}

proof fn lemma_between(from: u64, to: u64)
    ensures
        after_and_up_to(from, to, positions_between(from, to)),
{
    let found = positions_between(from, to);
    assert forall|low: u32| #[trigger] found.contains(low) implies exists|pos: u64|
        from < pos && pos <= to && #[trigger] low_bits(pos) == low by {
        let pos = choose|pos: u64| from < pos <= to && low == #[trigger] low_bits(pos);
        assert(low_bits(pos) == low);
    }
    assert forall|low: u32|
        (exists|pos: u64| from < pos && pos <= to && #[trigger] low_bits(pos) == low) implies
        #[trigger] found.contains(low) by {
        let pos = choose|pos: u64| from < pos && pos <= to && #[trigger] low_bits(pos) == low;
        assert(low == low_bits(pos));
    }
}

// ---- rewinding

/// The unit of work has forgotten the outputs after a position, and only those.
pub open spec fn forgot_after(o: Overlay, pos: u64, later: Overlay) -> bool {
    &&& later == (Overlay { commits: later.commits, ..o })
    &&& forall|commit: Commitment| #[trigger]
        later.commits.contains_key(commit) <==> o.commits.contains_key(commit) && o.commits[commit]
            <= pos
    &&& forall|commit: Commitment|
        later.commits.contains_key(commit) ==> #[trigger] later.commits[commit]
            == o.commits[commit]
}

/// Only the trees changed, and a tree may have failed.
pub open spec fn only_rewound(first: World, after: World) -> bool {
    after == (World { trees: after.trees, log: after.log, broken: after.broken, ..first })
}

/// The trees were rewound: the output and the range proof tree to one position,
/// where what was added goes and what was removed comes back, and the kernel tree
/// to another, where nothing comes back.
pub open spec fn rewound_to(
    o: Overlay,
    pos: u64,
    kernel_pos: u64,
    added: Set<u32>,
    removed: Set<u32>,
    first: World,
) -> Promise {
    |done: (Overlay, Result<(), Error>), after: World|
        {
            let output = after.trees.output;
            let rproof = after.trees.rproof;
            let kernel = after.trees.kernel;
            &&& forgot_after(o, pos, done.0)
            &&& only_rewound(first, after)
            &&& done.1 is Err ==> after.broken
            &&& done.1 is Ok ==> {
                &&& after.broken == first.broken
                &&& completes(pos, output.size)
                &&& output == first.trees.output.rewound(output.size, added, removed)
                &&& completes(pos, rproof.size)
                &&& rproof == first.trees.rproof.rewound(rproof.size, added, removed)
                &&& completes(kernel_pos, kernel.size)
                &&& kernel == first.trees.kernel.rewound(kernel.size, Set::empty(), Set::empty())
            }
        }
}

/// What a rewind to positions does.
pub proof fn law_rewinds_to_positions(
    o: Overlay,
    pos: u64,
    kernel_pos: u64,
    added: Set<u32>,
    removed: Set<u32>,
    world: World,
)
    ensures
        keeps(
            rewind_to_program(o, pos, kernel_pos, added, removed),
            world,
            rewound_to(o, pos, kernel_pos, added, removed, world),
        ),
{
    let post = rewound_to(o, pos, kernel_pos, added, removed, world);
    let later = o.rewound(pos);
    let output = rewind_output(later, pos, kernel_pos, added, removed);
    assert(forgot_after(o, pos, later));
    assert forall|reply: Reply, one: World| #[trigger]
        world.allows(output->Ask_0, reply, one) && output->Ask_1.met_by(reply) implies keeps(
        (output->Ask_2)(reply),
        one,
        post,
    ) by {
        if reply->Done_0 is Ok {
            let rproof = rewind_rproof(later, pos, kernel_pos, added, removed);
            assert forall|reply: Reply, two: World| #[trigger]
                one.allows(rproof->Ask_0, reply, two) && rproof->Ask_1.met_by(
                    reply,
                ) implies keeps((rproof->Ask_2)(reply), two, post) by {
                if reply->Done_0 is Ok {
                    let kernel = rewind_kernel(later, kernel_pos);
                    assert forall|reply: Reply, last: World| #[trigger]
                        two.allows(kernel->Ask_0, reply, last) && kernel->Ask_1.met_by(
                            reply,
                        ) implies keeps((kernel->Ask_2)(reply), last, post) by {}
                }
            }
        }
    }
}

/// To undo a transaction is to rewind to where the trees were before it: what lies
/// after that goes, and what it spent comes back.
pub proof fn law_undoing_rewinds(
    o: Overlay,
    pos: u64,
    kernel_pos: u64,
    spent: Set<u32>,
    world: World,
)
    ensures
        keeps(
            rewind_raw_tx_program(o, pos, kernel_pos, spent),
            world,
            |done: (Overlay, Result<(), Error>), after: World|
                exists|added: Set<u32>|
                    {
                        &&& after_and_up_to(pos, world.trees.output.size, added)
                        &&& #[trigger] rewound_to(o, pos, kernel_pos, added, spent, world)(
                            done,
                            after,
                        )
                    },
        ),
{
    let post = |done: (Overlay, Result<(), Error>), after: World|
        exists|added: Set<u32>|
            {
                &&& after_and_up_to(pos, world.trees.output.size, added)
                &&& #[trigger] rewound_to(o, pos, kernel_pos, added, spent, world)(done, after)
            };
    let program = rewind_raw_tx_program(o, pos, kernel_pos, spent);
    assert forall|reply: Reply, one: World| #[trigger]
        world.allows(program->Ask_0, reply, one) && program->Ask_1.met_by(reply) implies keeps(
        (program->Ask_2)(reply),
        one,
        post,
    ) by {
        let added = positions_between(pos, world.trees.output.size);
        let more = rewound_to(o, pos, kernel_pos, added, spent, one);
        lemma_between(pos, world.trees.output.size);
        law_rewinds_to_positions(o, pos, kernel_pos, added, spent, one);
        assert forall|done: (Overlay, Result<(), Error>), after: World| #[trigger]
            more(done, after) implies post(done, after) by {
            assert(rewound_to(o, pos, kernel_pos, added, spent, world)(done, after));
        }
        lemma_keeps_less(
            rewind_to_program(o, pos, kernel_pos, added, spent),
            one,
            more,
            post,
        );
    }
}

/// The trees were rewound to the end of a block, as its marker has it: what was
/// added after it up to the head of the chain goes, and what the blocks on the way
/// from there spent comes back.
pub open spec fn rewound_from(
    o: Overlay,
    block: Hash256,
    head: Hash256,
    first: World,
    done: (Overlay, Result<(), Error>),
    after: World,
) -> bool {
    let marker = first.markers[block];
    &&& first.markers.contains_key(block)
    &&& first.markers.contains_key(head)
    &&& exists|added: Set<u32>, spent: Set<u32>|
        {
            &&& after_and_up_to(marker.output_pos, first.markers[head].output_pos, added)
            &&& leads(first.chain, head, block, spent)
            &&& #[trigger] rewound_to(
                o,
                marker.output_pos,
                marker.kernel_pos,
                added,
                spent,
                first,
            )(done, after)
        }
}

/// A rewind to a block touches nothing but the trees, and if it succeeds they were
/// rewound. The unit of work forgets the outputs after the end of the block, or
/// nothing, if it did not come to that.
pub open spec fn rewound_to_block(
    o: Overlay,
    block: Hash256,
    head: Hash256,
    first: World,
) -> Promise {
    |done: (Overlay, Result<(), Error>), after: World|
        {
            &&& only_rewound(first, after)
            &&& done.1 is Ok ==> rewound_from(o, block, head, first, done, after)
            &&& done.1 is Err ==> done.0 == o || forgot_after(
                o,
                first.markers[block].output_pos,
                done.0,
            )
        }
}

/// What a rewind to a block does, and what it leaves alone.
pub proof fn law_rewinds_go_by_the_marker(
    o: Overlay,
    block: Hash256,
    head: Hash256,
    world: World,
)
    ensures
        keeps(rewind_program(o, block, head), world, rewound_to_block(o, block, head, world)),
{
    let post = rewound_to_block(o, block, head, world);
    let program = rewind_program(o, block, head);
    assert forall|reply: Reply, one: World| #[trigger]
        world.allows(program->Ask_0, reply, one) && program->Ask_1.met_by(reply) implies keeps(
        (program->Ask_2)(reply),
        one,
        post,
    ) by {
        if let Ok(marker) = reply->Marker_0 {
            let pos = marker.output_pos;
            let kernel_pos = marker.kernel_pos;
            let middle = spanned(world, block, head);
            lemma_span(world, one, block, head);
            assert forall|found: Result<(Set<u32>, Set<u32>), Error>, two: World| #[trigger]
                middle(found, two) implies keeps(after_span(o, marker)(found), two, post) by {
                if let Ok(span) = found {
                    let more = rewound_to(o, pos, kernel_pos, span.0, span.1, two);
                    lemma_between(pos, world.markers[head].output_pos);
                    law_rewinds_to_positions(o, pos, kernel_pos, span.0, span.1, two);
                    assert forall|done: (Overlay, Result<(), Error>), after: World| #[trigger]
                        more(done, after) implies post(done, after) by {
                        assert(rewound_to(o, pos, kernel_pos, span.0, span.1, world)(
                            done,
                            after,
                        ));
                    }
                    lemma_keeps_less(after_span(o, marker)(found), two, more, post);
                }
            }
            lemma_keeps_bind(span_program(block, head), after_span(o, marker), one, middle, post);
        }
    }
}

} // verus!
