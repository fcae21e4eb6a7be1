//! A unit of work takes effect as a whole or not at all.
use crate::extending::{
    after_discard, after_saved, after_sizes, after_sync, end_program, extend_program, sizes_kernel,
    sizes_program, sizes_rproof,
};
use crate::extension::Extension;
use crate::program::{Call, Reply};
use crate::script::{save_calls, script_program, tree_calls, Fault, TreeCall};
use crate::table::{has_key, key_index, keys_differ, map_of};
use crate::types::{BlockMarker, Commitment, Error, Hash256, Sizes};
use crate::world::{keeps, lemma_keeps_bind, lemma_keeps_less, World};
use vstd::prelude::*;

verus! {

/// How far the trees go.
pub open spec fn sizes_of(world: World) -> Sizes {
    Sizes {
        output: world.trees.output.size,
        rproof: world.trees.rproof.size,
        kernel: world.trees.kernel.size,
    }
}

proof fn lemma_sizes(world: World, post: spec_fn(Sizes, World) -> bool)
    requires
        forall|sizes: Sizes, after: World|
            sizes == sizes_of(world) && after == (World { log: after.log, ..world }) ==> #[trigger]
            post(sizes, after),
    ensures
        keeps(sizes_program(), world, post),
{
    let program = sizes_program();
    assert forall|reply: Reply, after: World| #[trigger]
        world.allows(program->Ask_0, reply, after) && program->Ask_1.met_by(reply) implies keeps(
        (program->Ask_2)(reply),
        after,
        post,
    ) by {
        let output = reply->Size_0;
        let program = sizes_rproof(output);
        assert forall|reply: Reply, now: World| #[trigger]
            after.allows(program->Ask_0, reply, now) && program->Ask_1.met_by(
                reply,
            ) implies keeps((program->Ask_2)(reply), now, post) by {
            let program = sizes_kernel(output, reply->Size_0);
            assert forall|reply: Reply, last: World| #[trigger]
                now.allows(program->Ask_0, reply, last) && program->Ask_1.met_by(
                    reply,
                ) implies keeps((program->Ask_2)(reply), last, post) by {}
        }
    }
}

/// A request of a script, and then the rest of it.
pub proof fn lemma_script(
    calls: Seq<Call>,
    fault: Fault,
    world: World,
    post: spec_fn(Result<(), Error>, World) -> bool,
)
    requires
        calls.len() > 0,
        forall|reply: Reply, after: World| #[trigger]
            world.allows(calls[0], reply, after) ==> match fault.judge(reply) {
                Ok(_) => keeps(script_program(calls.drop_first(), fault), after, post),
                Err(e) => post(Err(e), after),
            },
    ensures
        keeps(script_program(calls, fault), world, post),
{
    let program = script_program(calls, fault);
    assert forall|reply: Reply, after: World| #[trigger]
        world.allows(program->Ask_0, reply, after) && program->Ask_1.met_by(reply) implies keeps(
        (program->Ask_2)(reply),
        after,
        post,
    ) by {
        match fault.judge(reply) {
            Ok(_) => {},
            Err(e) => {
                assert(post(Err(e), after));
            },
        }
    }
}

/// The trees are as their files have them.
spec fn discarded(first: World) -> spec_fn(Result<(), Error>, World) -> bool {
    |verdict: Result<(), Error>, after: World|
        after == (World { trees: first.files, log: after.log, ..first })
}

proof fn lemma_discard(world: World)
    ensures
        keeps(
            script_program(tree_calls(TreeCall::Discard), Fault::Io),
            world,
            discarded(world),
        ),
{
    let post = discarded(world);
    let calls = tree_calls(TreeCall::Discard);
    let later = calls.drop_first();
    let latest = later.drop_first();
    assert(latest.drop_first().len() == 0);
    assert forall|reply: Reply, one: World| #[trigger] world.allows(calls[0], reply, one) implies {
        &&& Fault::Io.judge(reply) is Ok
        &&& keeps(script_program(later, Fault::Io), one, post)
    } by {
        assert forall|reply: Reply, two: World| #[trigger]
            one.allows(later[0], reply, two) implies {
            &&& Fault::Io.judge(reply) is Ok
            &&& keeps(script_program(latest, Fault::Io), two, post)
        } by {
            assert forall|reply: Reply, three: World| #[trigger]
                two.allows(latest[0], reply, three) implies {
                &&& Fault::Io.judge(reply) is Ok
                &&& keeps(script_program(latest.drop_first(), Fault::Io), three, post)
            } by {
                assert(three.trees =~= world.files);
            }
            lemma_script(latest, Fault::Io, two, post);
        }
        lemma_script(later, Fault::Io, one, post);
    }
    lemma_script(calls, Fault::Io, world, post);
}

/// The files are as the trees were, if they could be written.
spec fn written(first: World) -> spec_fn(Result<(), Error>, World) -> bool {
    |verdict: Result<(), Error>, after: World|
        verdict is Ok ==> after == (World { files: first.trees, log: after.log, ..first })
}

proof fn lemma_sync(world: World)
    ensures
        keeps(script_program(tree_calls(TreeCall::Sync), Fault::Io), world, written(world)),
{
    let post = written(world);
    let calls = tree_calls(TreeCall::Sync);
    let later = calls.drop_first();
    let latest = later.drop_first();
    assert(latest.drop_first().len() == 0);
    assert forall|reply: Reply, one: World| #[trigger] world.allows(calls[0], reply, one) implies (
    match Fault::Io.judge(reply) {
        Ok(_) => keeps(script_program(later, Fault::Io), one, post),
        Err(e) => post(Err(e), one),
    }) by {
        if reply->Done_0 is Ok {
            assert forall|reply: Reply, two: World| #[trigger]
                one.allows(later[0], reply, two) implies (match Fault::Io.judge(reply) {
                Ok(_) => keeps(script_program(latest, Fault::Io), two, post),
                Err(e) => post(Err(e), two),
            }) by {
                if reply->Done_0 is Ok {
                    assert forall|reply: Reply, three: World| #[trigger]
                        two.allows(latest[0], reply, three) implies (match Fault::Io.judge(reply) {
                        Ok(_) => keeps(
                            script_program(latest.drop_first(), Fault::Io),
                            three,
                            post,
                        ),
                        Err(e) => post(Err(e), three),
                    }) by {
                        if reply->Done_0 is Ok {
                            assert(three.files =~= world.trees);
                        }
                    }
                    lemma_script(latest, Fault::Io, two, post);
                }
            }
            lemma_script(later, Fault::Io, one, post);
        }
    }
    lemma_script(calls, Fault::Io, world, post);
}

// ---- abandoned units of work

/// A unit of work that was abandoned: its result comes back, the trees are as
/// their files have them, and neither the files nor the chain store changed.
pub open spec fn abandoned<T>(last: Sizes, result: Result<T, Error>, first: World) -> spec_fn(
    (Sizes, Result<T, Error>),
    World,
) -> bool {
    |done: (Sizes, Result<T, Error>), after: World|
        {
            &&& done == (last, result)
            &&& after == (World { trees: first.files, log: after.log, ..first })
        }
}

/// A read-only unit of work leaves no trace.
pub proof fn law_readonly_work_is_abandoned<T>(
    last: Sizes,
    result: Result<T, Error>,
    world: World,
)
    ensures
        keeps(end_program(last, false, result), world, abandoned(last, result, world)),
{
    let post = abandoned(last, result, world);
    let rest = after_sizes(last, false, result);
    let middle = |sizes: Sizes, after: World| after == (World { log: after.log, ..world });
    lemma_sizes(world, middle);
    assert forall|sizes: Sizes, after: World| #[trigger] middle(sizes, after) implies keeps(
        rest(sizes),
        after,
        post,
    ) by {
        let end = after_discard(last, result);
        lemma_discard(after);
        assert forall|verdict: Result<(), Error>, done: World| #[trigger]
            discarded(after)(verdict, done) implies keeps(end(verdict), done, post) by {}
        lemma_keeps_bind(
            script_program(tree_calls(TreeCall::Discard), Fault::Io),
            end,
            after,
            discarded(after),
            post,
        );
    }
    lemma_keeps_bind(sizes_program(), rest, world, middle, post);
}

/// A unit of work that failed, or whose rollback was forced, leaves no trace.
pub proof fn law_failed_work_is_abandoned<T>(
    last: Sizes,
    extension: Extension,
    result: Result<T, Error>,
    world: World,
)
    requires
        result is Err || extension@.rollback,
    ensures
        keeps(
            extend_program(
                last,
                extension.commit_entries(),
                extension.marker_entries(),
                extension@.rollback,
                result,
            ),
            world,
            abandoned(last, result, world),
        ),
{
    law_readonly_work_is_abandoned(last, result, world);
}

// ---- committed units of work

/// The index after requests to keep positions.
spec fn index_after(calls: Seq<Call>, index: Map<Commitment, u64>) -> Map<Commitment, u64>
    decreases calls.len(),
{
    if calls.len() == 0 {
        index
    } else {
        let next = match calls[0] {
            Call::SaveOutputPos(commit, pos) => index.insert(commit, pos),
            _ => index,
        };
        index_after(calls.drop_first(), next)
    }
}

/// The block markers after requests to keep them.
spec fn markers_after(calls: Seq<Call>, markers: Map<Hash256, BlockMarker>) -> Map<
    Hash256,
    BlockMarker,
>
    decreases calls.len(),
{
    if calls.len() == 0 {
        markers
    } else {
        let next = match calls[0] {
            Call::SaveBlockMarker(block, marker) => markers.insert(block, marker),
            _ => markers,
        };
        markers_after(calls.drop_first(), next)
    }
}

spec fn saves(call: Call) -> bool {
    call is SaveOutputPos || call is SaveBlockMarker
}

/// Everything was kept, if the chain store did not fail.
spec fn kept(calls: Seq<Call>, first: World) -> spec_fn(Result<(), Error>, World) -> bool {
    |verdict: Result<(), Error>, after: World|
        verdict is Ok ==> after == (World {
            index: index_after(calls, first.index),
            markers: markers_after(calls, first.markers),
            log: after.log,
            ..first
        })
}

proof fn lemma_save(calls: Seq<Call>, world: World)
    requires
        forall|i: int| 0 <= i < calls.len() ==> saves(#[trigger] calls[i]),
    ensures
        keeps(script_program(calls, Fault::Other), world, kept(calls, world)),
    decreases calls.len(),
{
    if calls.len() > 0 {
        let post = kept(calls, world);
        let later = calls.drop_first();
        assert(saves(calls[0]));
        assert forall|reply: Reply, after: World| #[trigger]
            world.allows(calls[0], reply, after) implies (match Fault::Other.judge(reply) {
            Ok(_) => keeps(script_program(later, Fault::Other), after, post),
            Err(e) => post(Err(e), after),
        }) by {
            if reply->Stored_0 is Ok {
                assert forall|i: int| 0 <= i < later.len() implies saves(#[trigger] later[i]) by {
                    assert(later[i] == calls[i + 1]);
                }
                lemma_save(later, after);
                assert forall|verdict: Result<(), Error>, done: World| #[trigger]
                    kept(later, after)(verdict, done) implies post(verdict, done) by {}
                lemma_keeps_less(
                    script_program(later, Fault::Other),
                    after,
                    kept(later, after),
                    post,
                );
            }
        }
        lemma_script(calls, Fault::Other, world, post);
    }
}

/// The entries of a list, taken one by one.
proof fn lemma_map_step<K, V>(entries: Seq<(K, V)>, base: Map<K, V>)
    requires
        entries.len() > 0,
        keys_differ(entries),
    ensures
        keys_differ(entries.drop_first()),
        base.insert(entries[0].0, entries[0].1).union_prefer_right(map_of(entries.drop_first()))
            == base.union_prefer_right(map_of(entries)),
{
    let rest = entries.drop_first();
    assert forall|i: int, j: int|
        0 <= i < rest.len() && 0 <= j < rest.len() && i != j implies (#[trigger] rest[i]).0 != (
    #[trigger] rest[j]).0 by {
        assert(rest[i] == entries[i + 1] && rest[j] == entries[j + 1]);
    }
    let one = base.insert(entries[0].0, entries[0].1).union_prefer_right(map_of(rest));
    let all = base.union_prefer_right(map_of(entries));
    assert forall|key: K| has_key(entries, key) <==> (key == entries[0].0 || has_key(rest, key)) by {
        if has_key(entries, key) {
            let i = key_index(entries, key);
            if i > 0 {
                assert(rest[i - 1] == entries[i]);
            }
        }
        if has_key(rest, key) {
            let i = key_index(rest, key);
            assert(rest[i] == entries[i + 1]);
        }
        if key == entries[0].0 {
            assert(entries[0].0 == key);
        }
    }
    assert forall|key: K| one.contains_key(key) implies one[key] == #[trigger] all[key] by {
        if has_key(rest, key) {
            let i = key_index(rest, key);
            let j = key_index(entries, key);
            assert(rest[i] == entries[i + 1]);
            assert(has_key(entries, key));
            assert(entries[j].0 == key);
            assert(j == i + 1);
        } else if key == entries[0].0 {
            let j = key_index(entries, key);
            assert(entries[0].0 == key);
            assert(entries[j].0 == key);
        }
    }
    assert(one.dom() =~= all.dom());
    assert(one =~= all);
}

proof fn lemma_saved(
    commits: Seq<(Commitment, u64)>,
    markers: Seq<(Hash256, BlockMarker)>,
    index: Map<Commitment, u64>,
    known: Map<Hash256, BlockMarker>,
)
    requires
        keys_differ(commits),
        keys_differ(markers),
    ensures
        index_after(save_calls(commits, markers), index) == index.union_prefer_right(
            map_of(commits),
        ),
        markers_after(save_calls(commits, markers), known) == known.union_prefer_right(
            map_of(markers),
        ),
    decreases commits.len() + markers.len(),
{
    let calls = save_calls(commits, markers);
    if commits.len() > 0 {
        let (commit, pos) = commits[0];
        assert(calls[0] == Call::SaveOutputPos(commit, pos));
        assert(calls.drop_first() =~= save_calls(commits.drop_first(), markers));
        lemma_map_step(commits, index);
        lemma_saved(commits.drop_first(), markers, index.insert(commit, pos), known);
    } else if markers.len() > 0 {
        let (block, marker) = markers[0];
        assert(calls[0] == Call::SaveBlockMarker(block, marker));
        assert(calls.drop_first() =~= save_calls(commits, markers.drop_first()));
        lemma_map_step(markers, known);
        lemma_saved(commits, markers.drop_first(), index, known.insert(block, marker));
    } else {
        assert(index =~= index.union_prefer_right(map_of(commits)));
        assert(known =~= known.union_prefer_right(map_of(markers)));
    }
}

/// A unit of work that was committed: the files have what it did to the trees,
/// which go as far as they went in it, and the chain store has what it knew.
pub open spec fn committed<T>(extension: Extension, result: Result<T, Error>, first: World) -> spec_fn(
    (Sizes, Result<T, Error>),
    World,
) -> bool {
    |done: (Sizes, Result<T, Error>), after: World|
        done.1 is Ok ==> {
            &&& done == (sizes_of(first), result)
            &&& after == (World {
                files: first.trees,
                index: first.index.union_prefer_right(extension@.commits),
                markers: first.markers.union_prefer_right(extension@.markers),
                log: after.log,
                ..first
            })
        }
}

/// A unit of work that succeeded takes effect as a whole, unless the chain store
/// or a tree fails to keep it, in which case the error comes back.
pub proof fn law_successful_work_is_committed<T>(
    last: Sizes,
    extension: Extension,
    result: Result<T, Error>,
    world: World,
)
    requires
        extension.valid(),
        result is Ok,
        !extension@.rollback,
    ensures
        keeps(
            extend_program(
                last,
                extension.commit_entries(),
                extension.marker_entries(),
                extension@.rollback,
                result,
            ),
            world,
            committed(extension, result, world),
        ),
{
    let post = committed(extension, result, world);
    let commits = extension.commit_entries();
    let markers = extension.marker_entries();
    let calls = save_calls(commits, markers);
    extension.lemma_entries();
    lemma_saved(commits, markers, world.index, world.markers);
    lemma_save(calls, world);
    let rest = after_saved(last, result);
    assert forall|verdict: Result<(), Error>, saved: World| #[trigger]
        kept(calls, world)(verdict, saved) implies keeps(rest(verdict), saved, post) by {
        if verdict is Ok {
            let middle = |sizes: Sizes, after: World|
                sizes == sizes_of(world) && after == (World { log: after.log, ..saved });
            let syncing = after_sizes(last, true, result);
            lemma_sizes(saved, middle);
            assert forall|sizes: Sizes, after: World| #[trigger] middle(sizes, after) implies keeps(
                syncing(sizes),
                after,
                post,
            ) by {
                let end = after_sync(last, sizes, result);
                lemma_sync(after);
                assert forall|verdict: Result<(), Error>, done: World| #[trigger]
                    written(after)(verdict, done) implies keeps(end(verdict), done, post) by {}
                lemma_keeps_bind(
                    script_program(tree_calls(TreeCall::Sync), Fault::Io),
                    end,
                    after,
                    written(after),
                    post,
                );
            }
            lemma_keeps_bind(sizes_program(), syncing, saved, middle, post);
        }
    }
    lemma_keeps_bind(
        script_program(calls, Fault::Other),
        rest,
        world,
        kept(calls, world),
        post,
    );
}

} // verus!
