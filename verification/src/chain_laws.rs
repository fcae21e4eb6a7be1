//! Walks, Merkle proofs and compaction go by the chain.
use crate::bitmap::positions_between;
use crate::block_laws::{
    finds_spent, law_rewind_restores, lemma_removed, lemma_span, restores, rewindable, spanned,
};
use crate::compact::{
    compact_header, compact_marker, compact_output, compact_program, compact_rproof, compact_span,
    height_below,
};
use crate::extension::Overlay;
use crate::leaf_laws::{is_unspent_in, lemma_grows, lemma_starts};
use crate::merkle::{after_rewind, merkle_at, merkle_lookup, merkle_program};
use crate::program::{Call, Program, Reply};
use crate::rewind::{removed_program, rewind_program, span_program};
use crate::types::{Commitment, Error, Hash256, MerkleProof, OutputIdentifier, Tree};
use crate::validation_laws::{asked, lemma_asked};
use crate::world::{
    keeps, leads, lemma_keeps_bind, lemma_leads_step, path_spent, Link, Trees, World,
};
use vstd::prelude::*;

verus! {

// ---- walks

/// Every block is higher than the one before it, so that no walk comes back to
/// where it was.
pub open spec fn acyclic(chain: Map<Hash256, Link>, height: spec_fn(Hash256) -> nat) -> bool {
    forall|block: Hash256| #[trigger]
        chain.contains_key(block) ==> height(chain[block].previous) < height(block)
}

/// A walk goes down.
proof fn lemma_walk_goes_down(
    chain: Map<Hash256, Link>,
    height: spec_fn(Hash256) -> nat,
    current: Hash256,
    target: Hash256,
    steps: nat,
)
    requires
        acyclic(chain, height),
        path_spent(chain, current, target, steps) is Some,
    ensures
        height(target) <= height(current),
        current != target ==> height(target) < height(current),
    decreases steps,
{
    if current != target {
        lemma_walk_goes_down(
            chain,
            height,
            chain[current].previous,
            target,
            (steps - 1) as nat,
        );
    }
}

proof fn lemma_walks_join(
    chain: Map<Hash256, Link>,
    height: spec_fn(Hash256) -> nat,
    first: Hash256,
    middle: Hash256,
    last: Hash256,
    lower: Set<u32>,
    steps: nat,
)
    requires
        acyclic(chain, height),
        leads(chain, middle, first, lower),
        path_spent(chain, last, middle, steps) is Some,
    ensures
        leads(
            chain,
            last,
            first,
            lower.union(path_spent(chain, last, middle, steps)->0),
        ),
    decreases steps,
{
    let upper = path_spent(chain, last, middle, steps)->0;
    if last == middle {
        assert(lower =~= lower.union(upper));
    } else {
        let previous = chain[last].previous;
        let rest = path_spent(chain, previous, middle, (steps - 1) as nat)->0;
        lemma_walks_join(chain, height, first, middle, previous, lower, (steps - 1) as nat);
        let below = choose|n: nat| #[trigger]
            path_spent(chain, middle, first, n) == Some(lower);
        lemma_walk_goes_down(chain, height, middle, first, below);
        lemma_walk_goes_down(chain, height, last, middle, steps);
        lemma_leads_step(chain, last, first, lower.union(rest));
        assert(chain[last].spent.union(lower.union(rest)) =~= lower.union(upper));
    }
}

/// Two walks in a row find together what one walk over the whole way finds.
pub proof fn law_walks_join(
    chain: Map<Hash256, Link>,
    height: spec_fn(Hash256) -> nat,
    first: Hash256,
    middle: Hash256,
    last: Hash256,
    lower: Set<u32>,
    upper: Set<u32>,
)
    requires
        acyclic(chain, height),
        leads(chain, middle, first, lower),
        leads(chain, last, middle, upper),
    ensures
        leads(chain, last, first, lower.union(upper)),
{
    let steps = choose|steps: nat| #[trigger]
        path_spent(chain, last, middle, steps) == Some(upper);
    lemma_walks_join(chain, height, first, middle, last, lower, steps);
}

proof fn lemma_one_path(
    chain: Map<Hash256, Link>,
    current: Hash256,
    target: Hash256,
    steps: nat,
    more: nat,
)
    requires
        path_spent(chain, current, target, steps) is Some,
        path_spent(chain, current, target, more) is Some,
    ensures
        path_spent(chain, current, target, steps) == path_spent(chain, current, target, more),
    decreases steps,
{
    if current != target {
        lemma_one_path(
            chain,
            chain[current].previous,
            target,
            (steps - 1) as nat,
            (more - 1) as nat,
        );
    }
}

/// There is only one thing that a walk can find.
pub proof fn law_walks_find_one_thing(
    chain: Map<Hash256, Link>,
    current: Hash256,
    target: Hash256,
    spent: Set<u32>,
    other: Set<u32>,
)
    requires
        leads(chain, current, target, spent),
        leads(chain, current, target, other),
    ensures
        spent == other,
{
    let steps = choose|steps: nat| #[trigger]
        path_spent(chain, current, target, steps) == Some(spent);
    let more = choose|more: nat| #[trigger]
        path_spent(chain, current, target, more) == Some(other);
    lemma_one_path(chain, current, target, steps, more);
}

/// The positions to add back in a rewind are those that the blocks on the way
/// spent.
pub proof fn law_spent_positions_are_found(block: Hash256, head: Hash256, world: World)
    ensures
        keeps(removed_program(block, head), world, finds_spent(block, head, world)),
{
    lemma_removed(world, world, block, head);
}

/// From a block to itself nothing is spent, and nothing is requested to find
/// that out.
pub proof fn law_no_walk_to_itself(block: Hash256)
    ensures
        removed_program(block, block) == Program::<Result<Set<u32>, Error>>::Ret(
            Ok(Set::empty()),
        ),
{
}

// ---- Merkle proofs

/// A Merkle proof was built from trees in a given state.
pub open spec fn proved_from(before: Trees) -> spec_fn(
    (Overlay, Result<MerkleProof, Error>),
    World,
) -> bool {
    |done: (Overlay, Result<MerkleProof, Error>), after: World|
        done.1 is Ok ==> after.trees == before
}

proof fn lemma_prove(o: Overlay, pos: u64, before: Trees, world: World)
    requires
        world.trees == before,
    ensures
        keeps(merkle_at(o, pos), world, proved_from(before)),
{
    let program = merkle_at(o, pos);
    assert forall|reply: Reply, after: World| #[trigger]
        world.allows(program->Ask_0, reply, after) && program->Ask_1.met_by(reply) implies keeps(
        (program->Ask_2)(reply),
        after,
        proved_from(before),
    ) by {}
}

/// A Merkle proof for an output and a block is built from the trees as they were
/// at the end of that block.
pub proof fn law_proofs_are_as_of_the_block(
    o: Overlay,
    commit: Commitment,
    block: Hash256,
    before: Trees,
    world: World,
)
    requires
        rewindable(before, world, block, world.head.hash),
    ensures
        keeps(merkle_program(o, commit, block), world, proved_from(before)),
{
    let post = proved_from(before);
    let program = merkle_program(o, commit, block);
    assert forall|reply: Reply, after: World| #[trigger]
        world.allows(program->Ask_0, reply, after) && program->Ask_1.met_by(reply) implies keeps(
        (program->Ask_2)(reply),
        after,
        post,
    ) by {
        if let Ok(head) = reply->Header_0 {
            let middle = restores(o, before);
            let rest = after_rewind(commit);
            law_rewind_restores(o, before, after, block, head.hash);
            assert forall|done: (Overlay, Result<(), Error>), now: World| #[trigger]
                middle(done, now) implies keeps(rest(done), now, post) by {
                if done.1 is Ok {
                    match done.0.commits.get(commit) {
                        Some(pos) => lemma_prove(done.0, pos, before, now),
                        None => {
                            let program = merkle_lookup(done.0, commit);
                            assert forall|reply: Reply, last: World| #[trigger]
                                now.allows(program->Ask_0, reply, last) && program->Ask_1.met_by(
                                    reply,
                                ) implies keeps((program->Ask_2)(reply), last, post) by {
                                if let Ok(pos) = reply->Pos_0 {
                                    lemma_prove(done.0, pos, before, last);
                                }
                            }
                        },
                    }
                }
            }
            lemma_keeps_bind(
                rewind_program(o, block, head.hash),
                rest,
                after,
                middle,
                post,
            );
        }
    }
}

// ---- compaction

/// Both trees were compacted up to the end of a block, with what was added and
/// spent between that block and the head of the chain set apart.
pub open spec fn compacted_to(block: Hash256, first: World, after: World) -> bool {
    let head = first.head.hash;
    let pos = first.markers[block].output_pos;
    let added = positions_between(pos, first.markers[head].output_pos);
    exists|spent: Set<u32>|
        {
            &&& #[trigger] leads(first.chain, head, block, spent)
            &&& asked(after.log, Call::CheckCompact(Tree::Output, pos, added, spent, true))
            &&& asked(after.log, Call::CheckCompact(Tree::RangeProof, pos, added, spent, false))
        }
}

/// A compaction, if it succeeds, goes up to the block at the horizon.
pub open spec fn compacts_to_horizon(horizon: u32, first: World) -> spec_fn(
    Result<(), Error>,
    World,
) -> bool {
    |verdict: Result<(), Error>, after: World|
        verdict is Ok ==> {
            let height = height_below(first.head.height, horizon);
            &&& first.heights.contains_key(height)
            &&& compacted_to(first.heights[height], first, after)
        }
}

proof fn lemma_compact(
    horizon: u32,
    block: Hash256,
    pos: u64,
    added: Set<u32>,
    spent: Set<u32>,
    first: World,
    world: World,
)
    requires
        first.heights.contains_key(height_below(first.head.height, horizon)),
        first.heights[height_below(first.head.height, horizon)] == block,
        pos == first.markers[block].output_pos,
        added == positions_between(pos, first.markers[first.head.hash].output_pos),
        leads(first.chain, first.head.hash, block, spent),
    ensures
        keeps(compact_output(pos, added, spent), world, compacts_to_horizon(horizon, first)),
{
    let post = compacts_to_horizon(horizon, first);
    let program = compact_output(pos, added, spent);
    assert forall|reply: Reply, after: World| #[trigger]
        world.allows(program->Ask_0, reply, after) && program->Ask_1.met_by(reply) implies keeps(
        (program->Ask_2)(reply),
        after,
        post,
    ) by {
        if reply->Done_0 is Ok {
            let next = compact_rproof(pos, added, spent);
            assert forall|reply: Reply, last: World| #[trigger]
                after.allows(next->Ask_0, reply, last) && next->Ask_1.met_by(reply) implies keeps(
                (next->Ask_2)(reply),
                last,
                post,
            ) by {
                lemma_starts(after);
                lemma_grows(after, after, next->Ask_0, last);
                lemma_asked(after, last);
                assert(after.log[after.log.len() - 1] == program->Ask_0);
                assert(asked(after.log, program->Ask_0));
                assert(last.log[last.log.len() - 1] == next->Ask_0);
            }
        }
    }
}

/// Compaction goes up to the block that is at the horizon below the head of the
/// chain, and sets apart everything that the blocks since then added and spent.
pub proof fn law_compaction_stops_at_the_horizon(horizon: u32, world: World)
    ensures
        keeps(compact_program(horizon), world, compacts_to_horizon(horizon, world)),
{
    let post = compacts_to_horizon(horizon, world);
    let program = compact_program(horizon);
    assert forall|reply: Reply, one: World| #[trigger]
        world.allows(program->Ask_0, reply, one) && program->Ask_1.met_by(reply) implies keeps(
        (program->Ask_2)(reply),
        one,
        post,
    ) by {
        if let Ok(head) = reply->Header_0 {
            let program = compact_header(horizon, head);
            assert forall|reply: Reply, two: World| #[trigger]
                one.allows(program->Ask_0, reply, two) && program->Ask_1.met_by(
                    reply,
                ) implies keeps((program->Ask_2)(reply), two, post) by {
                if let Ok(block) = reply->Header_0 {
                    let program = compact_marker(block.hash, head.hash);
                    assert forall|reply: Reply, three: World| #[trigger]
                        two.allows(program->Ask_0, reply, three) && program->Ask_1.met_by(
                            reply,
                        ) implies keeps((program->Ask_2)(reply), three, post) by {
                        if let Ok(marker) = reply->Marker_0 {
                            let middle = spanned(world, block.hash, head.hash);
                            let rest = compact_span(marker.output_pos);
                            lemma_span(world, three, block.hash, head.hash);
                            assert forall|
                                found: Result<(Set<u32>, Set<u32>), Error>,
                                now: World,
                            | #[trigger] middle(found, now) implies keeps(
                                rest(found),
                                now,
                                post,
                            ) by {
                                if let Ok(span) = found {
                                    lemma_compact(
                                        horizon,
                                        block.hash,
                                        marker.output_pos,
                                        span.0,
                                        span.1,
                                        world,
                                        now,
                                    );
                                }
                            }
                            lemma_keeps_bind(
                                span_program(block.hash, head.hash),
                                rest,
                                three,
                                middle,
                                post,
                            );
                        }
                    }
                }
            }
        }
    }
}

/// A compaction leaves the files, and so the roots and the last positions, as
/// they are, and every unspent output stays unspent.
pub open spec fn survives(first: World) -> spec_fn(Result<(), Error>, World) -> bool {
    |verdict: Result<(), Error>, after: World|
        {
            &&& after == (World { index: after.index, log: after.log, ..first })
            &&& forall|id: OutputIdentifier|
                is_unspent_in(first, id) ==> #[trigger] is_unspent_in(after, id)
        }
}

proof fn lemma_survive_output(
    pos: u64,
    added: Set<u32>,
    removed: Set<u32>,
    first: World,
    world: World,
)
    requires
        world == (World { log: world.log, ..first }),
    ensures
        keeps(compact_output(pos, added, removed), world, survives(first)),
{
    let post = survives(first);
    let program = compact_output(pos, added, removed);
    assert forall|reply: Reply, after: World| #[trigger]
        world.allows(program->Ask_0, reply, after) && program->Ask_1.met_by(reply) implies keeps(
        (program->Ask_2)(reply),
        after,
        post,
    ) by {
        assert forall|id: OutputIdentifier| is_unspent_in(
            first,
            id,
        ) implies #[trigger] is_unspent_in(after, id) by {
            let at = first.index[id.commit];
            assert(first.files.output.live.contains(at));
            assert(world.index.contains_key(id.commit));
            assert(after.index.dom().contains(id.commit));
        }
        if reply->Done_0 is Ok {
            let program = compact_rproof(pos, added, removed);
            assert forall|reply: Reply, last: World| #[trigger]
                after.allows(program->Ask_0, reply, last) && program->Ask_1.met_by(
                    reply,
                ) implies keeps((program->Ask_2)(reply), last, post) by {
                assert forall|id: OutputIdentifier| is_unspent_in(
                    first,
                    id,
                ) implies #[trigger] is_unspent_in(last, id) by {
                    assert(is_unspent_in(after, id));
                }
            }
        }
    }
}

/// Roots, last positions and unspent outputs survive a compaction, whether it
/// succeeds or not.
pub proof fn law_compaction_loses_nothing_unspent(horizon: u32, world: World)
    ensures
        keeps(compact_program(horizon), world, survives(world)),
{
    let post = survives(world);
    let program = compact_program(horizon);
    assert forall|id: OutputIdentifier, now: World|
        is_unspent_in(world, id) && now == (World { log: now.log, ..world }) implies #[trigger]
        is_unspent_in(now, id) by {}
    assert forall|reply: Reply, one: World| #[trigger]
        world.allows(program->Ask_0, reply, one) && program->Ask_1.met_by(reply) implies keeps(
        (program->Ask_2)(reply),
        one,
        post,
    ) by {
        if let Ok(head) = reply->Header_0 {
            let program = compact_header(horizon, head);
            assert forall|reply: Reply, two: World| #[trigger]
                one.allows(program->Ask_0, reply, two) && program->Ask_1.met_by(
                    reply,
                ) implies keeps((program->Ask_2)(reply), two, post) by {
                if let Ok(block) = reply->Header_0 {
                    let program = compact_marker(block.hash, head.hash);
                    assert forall|reply: Reply, three: World| #[trigger]
                        two.allows(program->Ask_0, reply, three) && program->Ask_1.met_by(
                            reply,
                        ) implies keeps((program->Ask_2)(reply), three, post) by {
                        if let Ok(marker) = reply->Marker_0 {
                            let middle = spanned(world, block.hash, head.hash);
                            let rest = compact_span(marker.output_pos);
                            lemma_span(world, three, block.hash, head.hash);
                            assert forall|
                                found: Result<(Set<u32>, Set<u32>), Error>,
                                now: World,
                            | #[trigger] middle(found, now) implies keeps(
                                rest(found),
                                now,
                                post,
                            ) by {
                                if let Ok(span) = found {
                                    lemma_survive_output(
                                        marker.output_pos,
                                        span.0,
                                        span.1,
                                        world,
                                        now,
                                    );
                                }
                            }
                            lemma_keeps_bind(
                                span_program(block.hash, head.hash),
                                rest,
                                three,
                                middle,
                                post,
                            );
                        }
                    }
                }
            }
        }
    }
}

} // verus!
