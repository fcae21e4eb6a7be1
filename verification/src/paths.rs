//! Up to the point at which a tree is changed, the application of an output, of
//! an input or of a transaction only reads.
use crate::apply::{
    input_claim, input_compare, input_element, input_lookup, input_program, input_prune,
    input_read, output_compare, output_existing, output_lookup, output_program, output_push,
};
use crate::bitmap::low_bits;
use crate::extension::Overlay;
use crate::pmmr::leaf_at;
use crate::program::{bind, Call, Reply};
use crate::raw_tx::{
    after_tx_items, raw_tx_lookup, raw_tx_program, raw_tx_read, raw_tx_sized, raw_tx_spent,
    tx_items,
};
use crate::tasks::{after_item, item_program, items_program, Item};
use crate::types::{
    Commitment, Error, Hash256, Input, Output, OutputIdentifier, Transaction,
};
use crate::world::{keeps, lemma_keeps_bind, World};
use vstd::prelude::*;

verus! {

/// What is promised of a dialogue that changes what a unit of work knows.
pub type Promise = spec_fn((Overlay, Result<(), Error>), World) -> bool;

/// The requests that the application of an output or of an input makes before
/// it changes a tree.
pub open spec fn reads(call: Call) -> bool {
    match call {
        Call::OutputPos(_) => true,
        Call::OutputHash(_) => true,
        Call::OutputData(_) => true,
        Call::PlainHash(_) => true,
        Call::IdHash(..) => true,
        _ => false,
    }
}

/// A property of worlds that these requests do not affect.
pub open spec fn steady(inv: spec_fn(World) -> bool) -> bool {
    forall|world: World, call: Call, after: World|
        #![trigger world.keeps(call, after)]
        inv(world) && reads(call) && after.trees.sound() && world.keeps(call, after) ==> inv(after)
}

/// With a property that reading does not affect: an output may fail before it
/// is pushed, and it is pushed with the property still in place.
pub open spec fn pushes(
    inv: spec_fn(World) -> bool,
    post: Promise,
    o: Overlay,
    out: Output,
) -> bool {
    &&& steady(inv)
    &&& forall|world: World, e: Error| inv(world) ==> #[trigger] post((o, Err(e)), world)
    &&& forall|world: World| #[trigger]
        inv(world) ==> keeps(output_push(o, out), world, post)
}

proof fn lemma_output_compare(
    inv: spec_fn(World) -> bool,
    post: Promise,
    o: Overlay,
    world: World,
    out: Output,
    hash: Hash256,
)
    requires
        pushes(inv, post, o, out),
        inv(world),
    ensures
        keeps(output_compare(o, out, hash), world, post),
{
    let program = output_compare(o, out, hash);
    assert forall|reply: Reply, after: World| #[trigger]
        world.allows(program->Ask_0, reply, after) && program->Ask_1.met_by(reply) implies keeps(
        (program->Ask_2)(reply),
        after,
        post,
    ) by {
        assert(inv(after));
    }
}

proof fn lemma_output_existing(
    inv: spec_fn(World) -> bool,
    post: Promise,
    o: Overlay,
    world: World,
    out: Output,
    pos: u64,
)
    requires
        pushes(inv, post, o, out),
        inv(world),
    ensures
        keeps(output_existing(o, out, pos), world, post),
{
    let program = output_existing(o, out, pos);
    assert forall|reply: Reply, after: World| #[trigger]
        world.allows(program->Ask_0, reply, after) && program->Ask_1.met_by(reply) implies keeps(
        (program->Ask_2)(reply),
        after,
        post,
    ) by {
        assert(inv(after));
        if let Some(hash) = reply->MaybeHash_0 {
            lemma_output_compare(inv, post, o, after, out, hash);
        }
    }
}

/// What holds of the push of an output holds of its application.
pub proof fn lemma_output(
    inv: spec_fn(World) -> bool,
    post: Promise,
    o: Overlay,
    world: World,
    out: Output,
)
    requires
        pushes(inv, post, o, out),
        inv(world),
    ensures
        keeps(output_program(o, out), world, post),
{
    match o.commits.get(out.commit) {
        Some(pos) => lemma_output_existing(inv, post, o, world, out, pos),
        None => {
            let program = output_lookup(o, out);
            assert forall|reply: Reply, after: World| #[trigger]
                world.allows(program->Ask_0, reply, after) && program->Ask_1.met_by(
                    reply,
                ) implies keeps((program->Ask_2)(reply), after, post) by {
                assert(inv(after));
                if let Ok(pos) = reply->Pos_0 {
                    lemma_output_existing(inv, post, o, after, out, pos);
                }
            }
        },
    }
}

/// If the output tree has a hash for the leaf at a position, it is the one that
/// an input claims to spend.
pub open spec fn as_claimed(world: World, input: Input, pos: u64) -> bool {
    leaf_at(pos as nat) ==> match world.hash_in(world.trees.output, pos) {
        Some(hash) => hash == (world.hash_of)(OutputIdentifier::of_input(input), (pos - 1) as u64),
        None => true,
    }
}

/// With a property that reading does not affect: an input may fail before its
/// position is pruned, and it is pruned with the property still in place, if it
/// claims to spend what is there.
pub open spec fn prunes(
    inv: spec_fn(World) -> bool,
    post: Promise,
    o: Overlay,
    input: Input,
    pos: u64,
) -> bool {
    &&& steady(inv)
    &&& forall|world: World, e: Error| inv(world) ==> #[trigger] post((o, Err(e)), world)
    &&& forall|world: World| #[trigger]
        inv(world) && as_claimed(world, input, pos) ==> keeps(
            input_prune(o, input, pos),
            world,
            post,
        )
}

proof fn lemma_input_compare(
    inv: spec_fn(World) -> bool,
    post: Promise,
    o: Overlay,
    world: World,
    input: Input,
    pos: u64,
    claim: Hash256,
    hash: Hash256,
    element: OutputIdentifier,
)
    requires
        prunes(inv, post, o, input, pos),
        inv(world),
        claim == (world.hash_of)(OutputIdentifier::of_input(input), (pos - 1) as u64),
        leaf_at(pos as nat) ==> world.hash_in(world.trees.output, pos) == Some(hash),
    ensures
        keeps(input_compare(o, input, pos, claim, hash, element), world, post),
{
    let program = input_compare(o, input, pos, claim, hash, element);
    assert forall|reply: Reply, after: World| #[trigger]
        world.allows(program->Ask_0, reply, after) && program->Ask_1.met_by(reply) implies keeps(
        (program->Ask_2)(reply),
        after,
        post,
    ) by {
        assert(inv(after));
    }
}

proof fn lemma_input_read(
    inv: spec_fn(World) -> bool,
    post: Promise,
    o: Overlay,
    world: World,
    input: Input,
    pos: u64,
    claim: Hash256,
)
    requires
        prunes(inv, post, o, input, pos),
        inv(world),
        claim == (world.hash_of)(OutputIdentifier::of_input(input), (pos - 1) as u64),
    ensures
        keeps(input_read(o, input, pos, claim), world, post),
{
    let program = input_read(o, input, pos, claim);
    assert forall|reply: Reply, after: World| #[trigger]
        world.allows(program->Ask_0, reply, after) && program->Ask_1.met_by(reply) implies keeps(
        (program->Ask_2)(reply),
        after,
        post,
    ) by {
        assert(inv(after));
        if let Some(hash) = reply->MaybeHash_0 {
            let program = input_element(o, input, pos, claim, hash);
            assert forall|reply: Reply, last: World| #[trigger]
                after.allows(program->Ask_0, reply, last) && program->Ask_1.met_by(
                    reply,
                ) implies keeps((program->Ask_2)(reply), last, post) by {
                assert(inv(last));
                let element = reply->MaybeOutput_0->0;
                lemma_input_compare(inv, post, o, last, input, pos, claim, hash, element);
            }
        }
    }
}

/// What holds of the pruning of a position holds of the application of an
/// input whose output is there.
pub proof fn lemma_input_at(
    inv: spec_fn(World) -> bool,
    post: Promise,
    o: Overlay,
    world: World,
    input: Input,
    pos: u64,
)
    requires
        prunes(inv, post, o, input, pos),
        inv(world),
    ensures
        keeps(input_claim(o, input, pos), world, post),
{
    let program = input_claim(o, input, pos);
    assert forall|reply: Reply, after: World| #[trigger]
        world.allows(program->Ask_0, reply, after) && program->Ask_1.met_by(reply) implies keeps(
        (program->Ask_2)(reply),
        after,
        post,
    ) by {
        assert(inv(after));
        lemma_input_read(inv, post, o, after, input, pos, reply->Digest_0);
    }
}

/// The position of a commitment, as the unit of work or else the index has it.
pub open spec fn known(
    o: Overlay,
    index: Map<Commitment, u64>,
    commit: Commitment,
) -> Option<u64> {
    match o.commits.get(commit) {
        Some(pos) => Some(pos),
        None => index.get(commit),
    }
}

/// What holds of the pruning of a position holds of the application of an
/// input, whatever the position of its output is.
pub proof fn lemma_input(
    inv: spec_fn(World) -> bool,
    post: Promise,
    o: Overlay,
    world: World,
    input: Input,
)
    requires
        inv(world),
        steady(inv),
        forall|world: World, e: Error| inv(world) ==> #[trigger] post((o, Err(e)), world),
        known(o, world.index, input.commit) matches Some(pos) ==> prunes(inv, post, o, input, pos),
    ensures
        keeps(input_program(o, input), world, post),
{
    match o.commits.get(input.commit) {
        Some(pos) => lemma_input_at(inv, post, o, world, input, pos),
        None => {
            let program = input_lookup(o, input);
            assert forall|reply: Reply, after: World| #[trigger]
                world.allows(program->Ask_0, reply, after) && program->Ask_1.met_by(
                    reply,
                ) implies keeps((program->Ask_2)(reply), after, post) by {
                assert(inv(after));
                if let Ok(pos) = reply->Pos_0 {
                    lemma_input_at(inv, post, o, after, input, pos);
                }
            }
        },
    }
}

/// What holds whenever an item is about to be applied, and is kept by each
/// item, is kept by all of them.
pub proof fn lemma_items(post: Promise, o: Overlay, world: World, items: Seq<Item>)
    requires
        post((o, Ok(())), world),
        forall|i: int, o: Overlay, world: World|
            0 <= i < items.len() && #[trigger] post((o, Ok(())), world) ==> keeps(
                item_program(o, #[trigger] items[i]),
                world,
                post,
            ),
    ensures
        keeps(items_program(o, items), world, post),
    decreases items.len(),
{
    if items.len() > 0 {
        let rest = items.drop_first();
        assert(keeps(item_program(o, items[0]), world, post));
        assert forall|done: (Overlay, Result<(), Error>), after: World| #[trigger]
            post(done, after) implies keeps(after_item(rest)(done), after, post) by {
            if let Ok(unit) = done.1 {
                assert(unit == ());
                assert(done == (done.0, Ok::<(), Error>(())));
                assert forall|i: int, o: Overlay, world: World|
                    0 <= i < rest.len() && #[trigger] post((o, Ok(())), world) implies keeps(
                    item_program(o, #[trigger] rest[i]),
                    world,
                    post,
                ) by {
                    assert(rest[i] == items[i + 1]);
                }
                lemma_items(post, done.0, after, rest);
            }
        }
        lemma_keeps_bind(item_program(o, items[0]), after_item(rest), world, post, post);
    }
}

// ---- transactions

/// Before it applies anything, a transaction only reads: what is promised of its
/// items from any log on is promised of all of it.
pub proof fn lemma_raw_tx(o: Overlay, tx: Transaction, world: World, post: Promise)
    requires
        forall|now: World, spent: Set<u32>|
            now == (World { log: now.log, ..world }) ==> #[trigger] keeps_items(
                o,
                tx,
                world,
                spent,
                now,
                post,
            ),
    ensures
        keeps(raw_tx_program(o, tx), world, post),
{
    let program = raw_tx_program(o, tx);
    assert forall|reply: Reply, after: World| #[trigger]
        world.allows(program->Ask_0, reply, after) && program->Ask_1.met_by(reply) implies keeps(
        (program->Ask_2)(reply),
        after,
        post,
    ) by {
        let sized = raw_tx_sized(o, tx, reply->Size_0);
        assert forall|reply: Reply, last: World| #[trigger]
            after.allows(sized->Ask_0, reply, last) && sized->Ask_1.met_by(reply) implies keeps(
            (sized->Ask_2)(reply),
            last,
            post,
        ) by {
            lemma_raw_tx_spent(o, tx, world, 0, Set::empty(), last, post);
        }
    }
}

/// What is promised of the items of a transaction and of what follows them.
pub open spec fn keeps_items(
    o: Overlay,
    tx: Transaction,
    world: World,
    spent: Set<u32>,
    now: World,
    post: Promise,
) -> bool {
    keeps(
        bind(
            items_program(o, tx_items(tx)),
            after_tx_items(
                o.commits,
                world.trees.output.size,
                world.trees.kernel.size,
                spent,
            ),
        ),
        now,
        post,
    )
}

proof fn lemma_raw_tx_spent(
    o: Overlay,
    tx: Transaction,
    world: World,
    i: nat,
    spent: Set<u32>,
    now: World,
    post: Promise,
)
    requires
        i <= tx.inputs@.len(),
        now == (World { log: now.log, ..world }),
        forall|now: World, spent: Set<u32>|
            now == (World { log: now.log, ..world }) ==> #[trigger] keeps_items(
                o,
                tx,
                world,
                spent,
                now,
                post,
            ),
    ensures
        keeps(
            raw_tx_spent(
                o,
                tx,
                world.trees.output.size,
                world.trees.kernel.size,
                i,
                spent,
            ),
            now,
            post,
        ),
    decreases tx.inputs@.len() - i, 1nat,
{
    let pos = world.trees.output.size;
    let kernel_pos = world.trees.kernel.size;
    if i == tx.inputs@.len() {
        assert(keeps_items(o, tx, world, spent, now, post));
    } else {
        match o.commits.get(tx.inputs@[i as int].commit) {
            Some(at) => lemma_raw_tx_read(o, tx, world, i, spent, at, now, post),
            None => {
                let program = raw_tx_lookup(o, tx, pos, kernel_pos, i, spent);
                assert forall|reply: Reply, after: World| #[trigger]
                    now.allows(program->Ask_0, reply, after) && program->Ask_1.met_by(
                        reply,
                    ) implies keeps((program->Ask_2)(reply), after, post) by {
                    lemma_raw_tx_spent(o, tx, world, i + 1, spent, after, post);
                    if let Ok(at) = reply->Pos_0 {
                        lemma_raw_tx_read(o, tx, world, i, spent, at, after, post);
                    }
                }
            },
        }
    }
}

proof fn lemma_raw_tx_read(
    o: Overlay,
    tx: Transaction,
    world: World,
    i: nat,
    spent: Set<u32>,
    at: u64,
    now: World,
    post: Promise,
)
    requires
        i < tx.inputs@.len(),
        now == (World { log: now.log, ..world }),
        forall|now: World, spent: Set<u32>|
            now == (World { log: now.log, ..world }) ==> #[trigger] keeps_items(
                o,
                tx,
                world,
                spent,
                now,
                post,
            ),
    ensures
        keeps(
            raw_tx_read(
                o,
                tx,
                world.trees.output.size,
                world.trees.kernel.size,
                i,
                spent,
                at,
            ),
            now,
            post,
        ),
    decreases tx.inputs@.len() - i, 0nat,
{
    let program = raw_tx_read(
        o,
        tx,
        world.trees.output.size,
        world.trees.kernel.size,
        i,
        spent,
        at,
    );
    assert forall|reply: Reply, after: World| #[trigger]
        now.allows(program->Ask_0, reply, after) && program->Ask_1.met_by(reply) implies keeps(
        (program->Ask_2)(reply),
        after,
        post,
    ) by {
        let more = if reply->MaybeOutput_0 is Some {
            spent.insert(low_bits(at))
        } else {
            spent
        };
        lemma_raw_tx_spent(o, tx, world, i + 1, more, after, post);
    }
}

} // verus!
