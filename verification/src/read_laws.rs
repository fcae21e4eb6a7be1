//! What is read from the trees and from the chain store: Merkle proofs, markers,
//! sizes, and the positions to undo.
use crate::block_laws::{law_rewind_restores, restores, rewindable};
use crate::chain_laws::{compacted_to, compacts_to_horizon, law_compaction_stops_at_the_horizon};
use crate::compact::compact_program;
use crate::courses::{failures, heeds, keeps_when, lemma_keeps_when, lemma_when_bind, Answers};
use crate::extension::Overlay;
use crate::heed_laws::{ends_with, succeeds};
use crate::leaf_laws::{lemma_grows, lemma_starts};
use crate::paths::known;
use crate::merkle::{after_rewind, merkle_at, merkle_lookup, merkle_program};
use crate::program::{Call, Reply};
use crate::query::query_program;
use crate::rewind::rewind_program;
use crate::rewind_laws::{law_rewinds_go_by_the_marker, rewound_to_block};
use crate::txhashset::{
    open_dir, open_dirs, open_files, open_program, open_rank, proof_at, proof_program, tree_after,
    with_size,
};
use crate::types::{BlockHeader, BlockMarker, Commitment, Error, Hash256, MerkleProof, Sizes, Tree};
use crate::validation_laws::{asked, lemma_asked};
use crate::world::{
    keeps, lemma_keeps_both, lemma_keeps_less, lemma_may_end, may_end, same_but_log, Trees, World,
};
use vstd::prelude::*;

verus! {

// ---- Merkle proofs

/// The position of a commitment once the output tree was rewound to a size: what
/// the unit of work added up to there counts, and otherwise the index.
pub open spec fn known_at(
    o: Overlay,
    index: Map<Commitment, u64>,
    size: u64,
    commit: Commitment,
) -> Option<u64> {
    match o.commits.get(commit) {
        Some(pos) => if pos <= size {
            Some(pos)
        } else {
            index.get(commit)
        },
        None => index.get(commit),
    }
}

/// A Merkle proof is the one of the position of the commitment, in the trees as
/// they were before.
pub open spec fn proves_position(
    answers: Answers,
    o: Overlay,
    commit: Commitment,
    before: Trees,
    first: World,
) -> spec_fn((Overlay, Result<MerkleProof, Error>), World) -> bool {
    |done: (Overlay, Result<MerkleProof, Error>), after: World|
        done.1 matches Ok(proof) ==> {
            &&& after.trees == before
            &&& match known_at(o, first.index, before.output.size, commit) {
                Some(pos) => (answers.merkle)(before.output, pos) == Ok::<MerkleProof, String>(
                    proof,
                ),
                None => false,
            }
        }
}

proof fn lemma_proved(
    answers: Answers,
    o: Overlay,
    later: Overlay,
    commit: Commitment,
    pos: u64,
    before: Trees,
    first: World,
    world: World,
)
    requires
        world.trees == before,
        known_at(o, first.index, before.output.size, commit) == Some(pos),
    ensures
        keeps_when(
            merkle_at(later, pos),
            world,
            answers.given(),
            proves_position(answers, o, commit, before, first),
        ),
{
    let course = answers.given();
    let post = proves_position(answers, o, commit, before, first);
    let program = merkle_at(later, pos);
    assert forall|reply: Reply, after: World| #[trigger]
        world.allows(program->Ask_0, reply, after) && program->Ask_1.met_by(reply) && course(
            world,
            program->Ask_0,
            reply,
        ) implies keeps_when((program->Ask_2)(reply), after, course, post) by {
        assert(reply->Proof_0 == (answers.merkle)(before.output, pos));
    }
}

proof fn lemma_found_and_proved(
    answers: Answers,
    o: Overlay,
    commit: Commitment,
    before: Trees,
    first: World,
    done: (Overlay, Result<(), Error>),
    world: World,
)
    requires
        restores(o, before)(done, world),
        world.index == first.index,
    ensures
        keeps_when(
            after_rewind(commit)(done),
            world,
            answers.given(),
            proves_position(answers, o, commit, before, first),
        ),
{
    let course = answers.given();
    let post = proves_position(answers, o, commit, before, first);
    if done.1 is Ok {
        match done.0.commits.get(commit) {
            Some(pos) => lemma_proved(answers, o, done.0, commit, pos, before, first, world),
            None => {
                let program = merkle_lookup(done.0, commit);
                assert(o.commits.contains_key(commit) ==> o.commits[commit] > before.output.size);
                assert forall|reply: Reply, last: World| #[trigger]
                    world.allows(program->Ask_0, reply, last) && program->Ask_1.met_by(reply)
                        && course(world, program->Ask_0, reply) implies keeps_when(
                    (program->Ask_2)(reply),
                    last,
                    course,
                    post,
                ) by {
                    if let Ok(pos) = reply->Pos_0 {
                        lemma_proved(answers, o, done.0, commit, pos, before, first, last);
                    }
                }
            },
        }
    }
}

/// A Merkle proof for an output and a block is the proof of the position of that
/// output in the output tree as it was at the end of that block.
pub proof fn law_proofs_are_of_the_position(
    answers: Answers,
    o: Overlay,
    commit: Commitment,
    block: Hash256,
    before: Trees,
    world: World,
)
    requires
        rewindable(before, world, block, world.head.hash),
    ensures
        keeps_when(
            merkle_program(o, commit, block),
            world,
            answers.given(),
            proves_position(answers, o, commit, before, world),
        ),
{
    let course = answers.given();
    let post = proves_position(answers, o, commit, before, world);
    let program = merkle_program(o, commit, block);
    assert forall|reply: Reply, after: World| #[trigger]
        world.allows(program->Ask_0, reply, after) && program->Ask_1.met_by(reply) && course(
            world,
            program->Ask_0,
            reply,
        ) implies keeps_when((program->Ask_2)(reply), after, course, post) by {
        if let Ok(head) = reply->Header_0 {
            let rewinding = rewind_program(o, block, head.hash);
            let middle = |done: (Overlay, Result<(), Error>), now: World|
                restores(o, before)(done, now) && now.index == world.index;
            law_rewind_restores(o, before, after, block, head.hash);
            law_rewinds_go_by_the_marker(o, block, head.hash, after);
            lemma_keeps_both(
                rewinding,
                after,
                restores(o, before),
                rewound_to_block(o, block, head.hash, after),
                middle,
            );
            lemma_keeps_when(rewinding, after, course, middle);
            assert forall|done: (Overlay, Result<(), Error>), now: World| #[trigger]
                middle(done, now) implies keeps_when(
                after_rewind(commit)(done),
                now,
                course,
                post,
            ) by {
                lemma_found_and_proved(answers, o, commit, before, world, done, now);
            }
            lemma_when_bind(rewinding, after_rewind(commit), after, course, middle, post);
        }
    }
}

/// A Merkle proof is the one after a rewind to the block.
pub open spec fn proves_after_rewind(
    answers: Answers,
    o: Overlay,
    commit: Commitment,
    block: Hash256,
    first: World,
) -> spec_fn((Overlay, Result<MerkleProof, Error>), World) -> bool {
    |done: (Overlay, Result<MerkleProof, Error>), after: World|
        done.1 matches Ok(proof) ==> exists|now: World, left: World|
            {
                &&& same_but_log(first, now)
                &&& #[trigger] may_end(
                    rewind_program(o, block, first.head.hash),
                    now,
                    (done.0, Ok::<(), Error>(())),
                    left,
                )
                &&& same_but_log(left, after)
                &&& match known(done.0, left.index, commit) {
                    Some(pos) => (answers.merkle)(left.trees.output, pos) == Ok::<
                        MerkleProof,
                        String,
                    >(proof),
                    None => false,
                }
            }
}

/// A Merkle proof for an output and a block is the proof of the position of that
/// output after a rewind to that block, however that rewind leaves the trees.
pub proof fn law_proofs_follow_a_rewind(
    answers: Answers,
    o: Overlay,
    commit: Commitment,
    block: Hash256,
    world: World,
)
    ensures
        keeps_when(
            merkle_program(o, commit, block),
            world,
            answers.given(),
            proves_after_rewind(answers, o, commit, block, world),
        ),
{
    let course = answers.given();
    let post = proves_after_rewind(answers, o, commit, block, world);
    let program = merkle_program(o, commit, block);
    lemma_starts(world);
    assert forall|reply: Reply, now: World| #[trigger]
        world.allows(program->Ask_0, reply, now) && program->Ask_1.met_by(reply) && course(
            world,
            program->Ask_0,
            reply,
        ) implies keeps_when((program->Ask_2)(reply), now, course, post) by {
        lemma_grows(world, world, program->Ask_0, now);
        if let Ok(head) = reply->Header_0 {
            let rewinding = rewind_program(o, block, head.hash);
            let middle = |done: (Overlay, Result<(), Error>), left: World|
                may_end(rewinding, now, done, left);
            lemma_may_end(rewinding, now);
            lemma_keeps_when(rewinding, now, course, middle);
            assert forall|done: (Overlay, Result<(), Error>), left: World| #[trigger]
                middle(done, left) implies keeps_when(
                after_rewind(commit)(done),
                left,
                course,
                post,
            ) by {
                if let Ok(unit) = done.1 {
                    assert(unit == ());
                    assert(may_end(rewinding, now, (done.0, Ok::<(), Error>(())), left));
                    lemma_starts(left);
                    lemma_proved_after(answers, o, commit, block, world, now, done, left);
                }
            }
            lemma_when_bind(rewinding, after_rewind(commit), now, course, middle, post);
        }
    }
}

proof fn lemma_proved_after(
    answers: Answers,
    o: Overlay,
    commit: Commitment,
    block: Hash256,
    first: World,
    now: World,
    done: (Overlay, Result<(), Error>),
    left: World,
)
    requires
        same_but_log(first, now),
        done.1 is Ok,
        may_end(
            rewind_program(o, block, first.head.hash),
            now,
            (done.0, Ok::<(), Error>(())),
            left,
        ),
    ensures
        keeps_when(
            after_rewind(commit)(done),
            left,
            answers.given(),
            proves_after_rewind(answers, o, commit, block, first),
        ),
{
    let course = answers.given();
    let post = proves_after_rewind(answers, o, commit, block, first);
    lemma_starts(left);
    assert forall|pos: u64, at: World|
        same_but_log(left, at) && known(done.0, left.index, commit) == Some(
            pos,
        ) implies #[trigger] keeps_when(merkle_at(done.0, pos), at, course, post) by {
        let program = merkle_at(done.0, pos);
        assert forall|reply: Reply, after: World| #[trigger]
            at.allows(program->Ask_0, reply, after) && program->Ask_1.met_by(reply) && course(
                at,
                program->Ask_0,
                reply,
            ) implies keeps_when((program->Ask_2)(reply), after, course, post) by {
            lemma_grows(left, at, program->Ask_0, after);
            assert(reply->Proof_0 == (answers.merkle)(left.trees.output, pos));
        }
    }
    match done.0.commits.get(commit) {
        Some(pos) => {
            assert(keeps_when(merkle_at(done.0, pos), left, course, post));
        },
        None => {
            let program = merkle_lookup(done.0, commit);
            assert forall|reply: Reply, at: World| #[trigger]
                left.allows(program->Ask_0, reply, at) && program->Ask_1.met_by(reply) && course(
                    left,
                    program->Ask_0,
                    reply,
                ) implies keeps_when((program->Ask_2)(reply), at, course, post) by {
                lemma_grows(left, left, program->Ask_0, at);
                if let Ok(pos) = reply->Pos_0 {
                    assert(keeps_when(merkle_at(done.0, pos), at, course, post));
                }
            }
        },
    }
}

/// A Merkle proof from the files is that of the position that the index has.
pub proof fn law_proofs_from_files_are_of_the_position(
    answers: Answers,
    last: u64,
    commit: Commitment,
    world: World,
)
    requires
        last == world.files.output.size,
    ensures
        keeps_when(
            proof_program(last, commit),
            world,
            answers.given(),
            |proof: Result<MerkleProof, String>, after: World|
                {
                    &&& same_but_log(world, after)
                    &&& world.index.contains_key(commit)
                    &&& proof == (answers.merkle)(world.files.output, world.index[commit])
                },
        ),
{
    let course = answers.given();
    let post = |proof: Result<MerkleProof, String>, after: World|
        {
            &&& same_but_log(world, after)
            &&& world.index.contains_key(commit)
            &&& proof == (answers.merkle)(world.files.output, world.index[commit])
        };
    let program = proof_program(last, commit);
    lemma_starts(world);
    assert forall|reply: Reply, after: World| #[trigger]
        world.allows(program->Ask_0, reply, after) && program->Ask_1.met_by(reply) && course(
            world,
            program->Ask_0,
            reply,
        ) implies keeps_when((program->Ask_2)(reply), after, course, post) by {
        let pos = reply->Pos_0->Ok_0;
        let next = proof_at(last, pos);
        lemma_grows(world, world, program->Ask_0, after);
        assert forall|reply: Reply, end: World| #[trigger]
            after.allows(next->Ask_0, reply, end) && next->Ask_1.met_by(reply) && course(
                after,
                next->Ask_0,
                reply,
            ) implies keeps_when((next->Ask_2)(reply), end, course, post) by {
            lemma_grows(world, after, next->Ask_0, end);
        }
    }
}

// ---- markers

/// The marker of a block is the one that the chain store has.
pub proof fn law_markers_are_found(block: Hash256, world: World)
    ensures
        keeps(
            query_program::<Result<BlockMarker, Error>>(Call::BlockMarker(block)),
            world,
            |found: Result<BlockMarker, Error>, after: World|
                {
                    &&& same_but_log(world, after)
                    &&& found matches Ok(marker) ==> world.markers.contains_key(block) && marker
                        == world.markers[block]
                },
        ),
        heeds(
            query_program::<Result<BlockMarker, Error>>(Call::BlockMarker(block)),
            failures(),
            ends_with(),
            succeeds(),
        ),
{
    let program = query_program::<Result<BlockMarker, Error>>(Call::BlockMarker(block));
    let post = |found: Result<BlockMarker, Error>, after: World|
        {
            &&& same_but_log(world, after)
            &&& found matches Ok(marker) ==> world.markers.contains_key(block) && marker
                == world.markers[block]
        };
    lemma_starts(world);
    assert forall|reply: Reply, after: World| #[trigger]
        world.allows(program->Ask_0, reply, after) && program->Ask_1.met_by(reply) implies keeps(
        (program->Ask_2)(reply),
        after,
        post,
    ) by {
        lemma_grows(world, world, program->Ask_0, after);
    }
    assert(heeds(program, failures(), ends_with(), succeeds())) by {
        reveal_with_fuel(heeds, 2);
    }
}

// ---- opening

/// The trees were opened: the output and the range proof tree with the header, the
/// kernel tree without, each in a directory of its own.
pub open spec fn opened_with(
    answers: Answers,
    header: Option<BlockHeader>,
    first: World,
) -> spec_fn(Result<Sizes, Error>, World) -> bool {
    |opened: Result<Sizes, Error>, after: World|
        {
            &&& same_but_log(first, after)
            &&& opened matches Ok(sizes) ==> {
                &&& sizes.output == (answers.opened)(Tree::Output, header)
                &&& sizes.rproof == (answers.opened)(Tree::RangeProof, header)
                &&& sizes.kernel == (answers.opened)(Tree::Kernel, None)
                &&& forall|tree: Tree| #[trigger] asked(after.log, Call::CreateDir(tree))
            }
        }
}

/// The sizes of the trees before one were taken down.
spec fn opened_so_far(
    answers: Answers,
    header: Option<BlockHeader>,
    tree: Tree,
    sizes: Sizes,
) -> bool {
    &&& tree != Tree::Output ==> sizes.output == (answers.opened)(Tree::Output, header)
    &&& tree == Tree::Kernel ==> sizes.rproof == (answers.opened)(Tree::RangeProof, header)
}

proof fn lemma_opened(
    answers: Answers,
    header: Option<BlockHeader>,
    tree: Tree,
    sizes: Sizes,
    first: World,
    world: World,
)
    requires
        same_but_log(first, world),
        opened_so_far(answers, header, tree, sizes),
        forall|tree: Tree| #[trigger] asked(world.log, Call::CreateDir(tree)),
    ensures
        keeps_when(
            open_dir(tree, header, sizes),
            world,
            answers.given(),
            opened_with(answers, header, first),
        ),
    decreases open_rank(tree),
{
    let course = answers.given();
    let post = opened_with(answers, header, first);
    let program = open_dir(tree, header, sizes);
    assert forall|reply: Reply, after: World| #[trigger]
        world.allows(program->Ask_0, reply, after) && program->Ask_1.met_by(reply) && course(
            world,
            program->Ask_0,
            reply,
        ) implies keeps_when((program->Ask_2)(reply), after, course, post) by {
        lemma_grows(first, world, program->Ask_0, after);
        lemma_starts(world);
        lemma_grows(world, world, program->Ask_0, after);
        lemma_asked(world, after);
        if reply->Done_0 is Ok {
            let next = open_files(tree, header, sizes);
            assert forall|reply: Reply, last: World| #[trigger]
                after.allows(next->Ask_0, reply, last) && next->Ask_1.met_by(reply) && course(
                    after,
                    next->Ask_0,
                    reply,
                ) implies keeps_when((next->Ask_2)(reply), last, course, post) by {
                lemma_grows(first, after, next->Ask_0, last);
                lemma_starts(after);
                lemma_grows(after, after, next->Ask_0, last);
                lemma_asked(after, last);
                assert forall|tree: Tree| #[trigger] asked(last.log, Call::CreateDir(tree)) by {
                    assert(asked(world.log, Call::CreateDir(tree)));
                }
                if let Ok(size) = reply->Opened_0 {
                    if let Some(later) = tree_after(tree) {
                        let more = with_size(sizes, tree, size);
                        lemma_opened(answers, header, later, more, first, last);
                    }
                }
            }
        }
    }
}

/// The directories before that of a tree were created.
spec fn created_before(tree: Tree, world: World) -> bool {
    &&& tree != Tree::Output ==> asked(world.log, Call::CreateDir(Tree::Output))
    &&& tree == Tree::Kernel ==> asked(world.log, Call::CreateDir(Tree::RangeProof))
}

proof fn lemma_created(
    answers: Answers,
    header: Option<BlockHeader>,
    tree: Tree,
    first: World,
    world: World,
)
    requires
        same_but_log(first, world),
        created_before(tree, world),
    ensures
        keeps_when(
            open_dirs(tree, header),
            world,
            answers.given(),
            opened_with(answers, header, first),
        ),
    decreases open_rank(tree),
{
    let course = answers.given();
    let post = opened_with(answers, header, first);
    let program = open_dirs(tree, header);
    assert forall|reply: Reply, after: World| #[trigger]
        world.allows(program->Ask_0, reply, after) && program->Ask_1.met_by(reply) && course(
            world,
            program->Ask_0,
            reply,
        ) implies keeps_when((program->Ask_2)(reply), after, course, post) by {
        lemma_grows(first, world, program->Ask_0, after);
        lemma_starts(world);
        lemma_grows(world, world, program->Ask_0, after);
        lemma_asked(world, after);
        assert(after.log[after.log.len() - 1] == Call::CreateDir(tree));
        if reply->Done_0 is Ok {
            match tree_after(tree) {
                Some(next) => lemma_created(answers, header, next, first, after),
                None => lemma_opened(
                    answers,
                    header,
                    Tree::Output,
                    Sizes { output: 0, rproof: 0, kernel: 0 },
                    first,
                    after,
                ),
            }
        }
    }
}

/// Trees that are opened with a header go as far as each of them was opened with
/// it; the kernel tree is opened without one.
pub proof fn law_opening_goes_by_the_header(
    answers: Answers,
    header: Option<BlockHeader>,
    world: World,
)
    ensures
        keeps_when(
            open_program(header),
            world,
            answers.given(),
            opened_with(answers, header, world),
        ),
{
    lemma_starts(world);
    lemma_created(answers, header, Tree::Output, world, world);
}

// ---- compaction

/// A compaction, if it succeeds, went up to a block that is as far below the head
/// of the chain as told, or to the first, if the chain is not that long.
pub proof fn law_compaction_keeps_the_distance(horizon: u32, world: World)
    ensures
        keeps(
            compact_program(horizon),
            world,
            |verdict: Result<(), Error>, after: World|
                verdict is Ok ==> exists|height: u64|
                    {
                        &&& #[trigger] world.heights.contains_key(height)
                        &&& height + horizon == world.head.height || (height == 0
                            && world.head.height < horizon)
                        &&& compacted_to(world.heights[height], world, after)
                    },
        ),
{
    let post = |verdict: Result<(), Error>, after: World|
        verdict is Ok ==> exists|height: u64|
            {
                &&& #[trigger] world.heights.contains_key(height)
                &&& height + horizon == world.head.height || (height == 0 && world.head.height
                    < horizon)
                &&& compacted_to(world.heights[height], world, after)
            };
    law_compaction_stops_at_the_horizon(horizon, world);
    lemma_keeps_less(
        compact_program(horizon),
        world,
        compacts_to_horizon(horizon, world),
        post,
    );
}

} // verus!
