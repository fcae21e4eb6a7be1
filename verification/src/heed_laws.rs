//! Operations end at the first reply that tells of a failure, with that failure,
//! and otherwise only with what is their own to find out.
use crate::apply::{input_program, kernel_program, output_program};
use crate::block::{after_items, block_items, block_program};
use crate::compact::{compact_program, compact_span};
use crate::courses::{
    failures, failures_and_misses, heeds, keeps_when, lemma_heeds_bind, lemma_heeds_less,
    lemma_keeps_when, lemma_smooth, lemma_when_both, smooth, Blame,
};
use crate::extend_laws::{committed, law_successful_work_is_committed};
use crate::extending::{after_saved, after_sizes, after_sync, extend_program, sizes_program};
use crate::extension::{Extension, Overlay};
use crate::leaves::{index_from, index_program, index_save};
use crate::merkle::{after_rewind, merkle_find, merkle_program};
use crate::pmmr::leaf_at;
use crate::program::{bind, Call, Program, Reply};
use crate::raw_tx::rewind_raw_tx_program;
use crate::rewind::{
    added_program, after_added, after_removed, after_span, removed_program, rewind_program,
    rewind_to_program, span_program,
};
use crate::script::{save_calls, script_program, tree_calls, Fault, TreeCall};
use crate::tasks::{after_item, item_program, items_program, outputs_that, Item};
use crate::txhashset::{
    open_dir, open_dirs, open_files, open_program, open_rank, tree_after, unspent_program,
    with_size,
};
use crate::types::{
    Block, BlockHeader, BlockMarker, BlockSums, Commitment, Error, Hash256, Input, MerkleProof,
    Message, Output, OutputIdentifier, Sizes, StoreError, Tree, TxKernel,
};
use crate::world::World;
use vstd::prelude::*;

verus! {

/// An operation ended with an error.
pub open spec fn ends_with<T>() -> spec_fn(Error, Result<T, Error>) -> bool {
    |e: Error, result: Result<T, Error>| result == Err::<T, Error>(e)
}

/// An operation on a unit of work ended with an error.
pub open spec fn work_ends_with<T>() -> spec_fn(Error, (Overlay, Result<T, Error>)) -> bool {
    |e: Error, done: (Overlay, Result<T, Error>)| done.1 == Err::<T, Error>(e)
}

/// An operation succeeded.
pub open spec fn succeeds<T>() -> spec_fn(Result<T, Error>) -> bool {
    |result: Result<T, Error>| result is Ok
}

/// An operation on a unit of work succeeded.
pub open spec fn work_succeeds<T>() -> spec_fn((Overlay, Result<T, Error>)) -> bool {
    |done: (Overlay, Result<T, Error>)| done.1 is Ok
}

/// An operation without a result of its own to fail with.
pub open spec fn always<T>() -> spec_fn(T) -> bool {
    |t: T| true
}

pub open spec fn never<T>() -> spec_fn(Error, T) -> bool {
    |e: Error, t: T| false
}

// ---- outputs, inputs, kernels

/// What can be wrong with an output besides: there is one already.
pub open spec fn output_end(o: Overlay, out: Output) -> spec_fn(
    (Overlay, Result<(), Error>),
) -> bool {
    |done: (Overlay, Result<(), Error>)|
        done.1 is Ok || done == (o, Err::<(), Error>(Error::DuplicateCommitment(out.commit)))
}

/// An output fails as a tree does, or because it is a duplicate.
pub proof fn law_outputs_heed_failures(o: Overlay, out: Output)
    ensures
        heeds(output_program(o, out), failures(), work_ends_with(), output_end(o, out)),
{
    reveal_with_fuel(heeds, 6);
}

/// What can be wrong with an input besides: what it spends is spent, or is not
/// what it says.
pub open spec fn input_end(o: Overlay, input: Input) -> spec_fn(
    (Overlay, Result<(), Error>),
) -> bool {
    |done: (Overlay, Result<(), Error>)|
        {
            &&& done.0 == o
            &&& match done.1 {
                Ok(_) => true,
                Err(e) => e == Error::AlreadySpent(input.commit) || e == Error::TxHashSetErr(
                    Message::OutputHashMismatch,
                ),
            }
        }
}

/// An operation that changes nothing that the unit of work knows.
pub open spec fn fails_as_it_was(o: Overlay) -> spec_fn(
    Error,
    (Overlay, Result<(), Error>),
) -> bool {
    |e: Error, done: (Overlay, Result<(), Error>)| done == (o, Err::<(), Error>(e))
}

/// An input fails as a tree does, or because of what it spends. The unit of work
/// knows what it knew, whatever happens.
pub proof fn law_inputs_heed_failures(o: Overlay, input: Input)
    ensures
        heeds(input_program(o, input), failures(), fails_as_it_was(o), input_end(o, input)),
{
    reveal_with_fuel(heeds, 8);
}

/// A kernel fails only as the kernel tree does.
pub proof fn law_kernels_heed_failures(o: Overlay, kernel: TxKernel)
    ensures
        heeds(
            kernel_program(o, kernel),
            failures(),
            fails_as_it_was(o),
            |done: (Overlay, Result<(), Error>)| done == (o, Ok::<(), Error>(())),
        ),
{
    reveal_with_fuel(heeds, 2);
}

// ---- blocks

/// What can be wrong with an item.
pub open spec fn item_fault(item: Item, e: Error) -> bool {
    match item {
        Item::Output(out) => e == Error::DuplicateCommitment(out.commit),
        Item::Input(input) => e == Error::AlreadySpent(input.commit) || e == Error::TxHashSetErr(
            Message::OutputHashMismatch,
        ),
        Item::Kernel(_) => false,
    }
}

/// Items end well, or one of them is at fault.
pub open spec fn items_end(items: Seq<Item>) -> spec_fn((Overlay, Result<(), Error>)) -> bool {
    |done: (Overlay, Result<(), Error>)|
        done.1 matches Err(e) ==> exists|i: int|
            0 <= i < items.len() && item_fault(#[trigger] items[i], e)
}

proof fn lemma_item_heeds(o: Overlay, item: Item)
    ensures
        heeds(item_program(o, item), failures(), work_ends_with(), items_end(seq![item])),
{
    let end = items_end(seq![item]);
    assert(seq![item][0] == item);
    match item {
        Item::Output(out) => {
            law_outputs_heed_failures(o, out);
            lemma_heeds_less(
                item_program(o, item),
                failures(),
                work_ends_with(),
                output_end(o, out),
                work_ends_with(),
                end,
            );
        },
        Item::Input(input) => {
            law_inputs_heed_failures(o, input);
            lemma_heeds_less(
                item_program(o, item),
                failures(),
                fails_as_it_was(o),
                input_end(o, input),
                work_ends_with(),
                end,
            );
        },
        Item::Kernel(kernel) => {
            law_kernels_heed_failures(o, kernel);
            lemma_heeds_less(
                item_program(o, item),
                failures(),
                fails_as_it_was(o),
                |done: (Overlay, Result<(), Error>)| done == (o, Ok::<(), Error>(())),
                work_ends_with(),
                end,
            );
        },
    }
}

pub proof fn lemma_items_heed(o: Overlay, items: Seq<Item>)
    ensures
        heeds(items_program(o, items), failures(), work_ends_with(), items_end(items)),
    decreases items.len(),
{
    if items.len() > 0 {
        let item = items[0];
        let rest = items.drop_first();
        lemma_item_heeds(o, item);
        assert forall|done: (Overlay, Result<(), Error>)| #[trigger]
            items_end(seq![item])(done) implies heeds(
            after_item(rest)(done),
            failures(),
            work_ends_with(),
            items_end(items),
        ) by {
            match done.1 {
                Ok(_) => {
                    lemma_items_heed(done.0, rest);
                    assert forall|end: (Overlay, Result<(), Error>)| #[trigger]
                        items_end(rest)(end) implies items_end(items)(end) by {
                        if let Err(e) = end.1 {
                            let i = choose|i: int|
                                0 <= i < rest.len() && item_fault(#[trigger] rest[i], e);
                            assert(rest[i] == items[i + 1]);
                        }
                    }
                    lemma_heeds_less(
                        items_program(done.0, rest),
                        failures(),
                        work_ends_with(),
                        items_end(rest),
                        work_ends_with(),
                        items_end(items),
                    );
                },
                Err(e) => {
                    let i = choose|i: int|
                        0 <= i < seq![item].len() && item_fault(#[trigger] seq![item][i], e);
                    assert(item_fault(items[0], e));
                },
            }
        }
        lemma_heeds_bind(
            item_program(o, item),
            after_item(rest),
            failures(),
            work_ends_with(),
            items_end(seq![item]),
            work_ends_with(),
            items_end(items),
        );
    }
}

/// What can be wrong with a block: one of its outputs is there already, or one
/// of its inputs spends what is spent or is not what it says.
pub open spec fn block_end(block: Block) -> spec_fn((Overlay, Result<(), Error>)) -> bool {
    |done: (Overlay, Result<(), Error>)|
        match done.1 {
            Ok(_) => true,
            Err(Error::DuplicateCommitment(commit)) => exists|i: int|
                0 <= i < block.outputs@.len() && #[trigger] block.outputs@[i].commit == commit,
            Err(Error::AlreadySpent(commit)) => exists|i: int|
                0 <= i < block.inputs@.len() && #[trigger] block.inputs@[i].commit == commit,
            Err(e) => block.inputs@.len() > 0 && e == Error::TxHashSetErr(
                Message::OutputHashMismatch,
            ),
        }
}

/// A block fails as a tree does, or because of an output or an input of its own.
pub proof fn law_blocks_heed_failures(o: Overlay, block: Block)
    ensures
        heeds(block_program(o, block), failures(), work_ends_with(), block_end(block)),
{
    let items = block_items(block);
    let end = block_end(block);
    lemma_items_heed(o, items);
    assert forall|done: (Overlay, Result<(), Error>)| #[trigger]
        items_end(items)(done) implies heeds(
        after_items(block.hash)(done),
        failures(),
        work_ends_with(),
        end,
    ) by {
        match done.1 {
            Ok(_) => {
                reveal_with_fuel(heeds, 3);
            },
            Err(e) => {
                let i = choose|i: int| 0 <= i < items.len() && item_fault(#[trigger] items[i], e);
                lemma_block_item(block, i);
            },
        }
    }
    lemma_heeds_bind(
        items_program(o, items),
        after_items(block.hash),
        failures(),
        work_ends_with(),
        items_end(items),
        work_ends_with(),
        end,
    );
}

/// Every item of a block is an output, an input or a kernel of it.
pub proof fn lemma_block_item(block: Block, i: int)
    requires
        0 <= i < block_items(block).len(),
    ensures
        match block_items(block)[i] {
            Item::Output(out) => exists|k: int|
                0 <= k < block.outputs@.len() && #[trigger] block.outputs@[k] == out,
            Item::Input(input) => exists|k: int|
                0 <= k < block.inputs@.len() && #[trigger] block.inputs@[k] == input,
            Item::Kernel(kernel) => exists|k: int|
                0 <= k < block.kernels@.len() && #[trigger] block.kernels@[k] == kernel,
        },
{
    let mined = outputs_that(block.outputs@, true);
    let other = outputs_that(block.outputs@, false);
    let items = block_items(block);
    let spent = mined.len() + block.inputs@.len();
    if i < mined.len() {
        assert(items[i] == Item::Output(mined[i]));
        assert(mined.contains(mined[i]));
        block.outputs@.lemma_filter_contains_rev(|out: Output| out.coinbase == true, mined[i]);
    } else if i < spent {
        assert(items[i] == Item::Input(block.inputs@[i - mined.len()]));
    } else if i < spent + other.len() {
        assert(items[i] == Item::Output(other[i - spent]));
        assert(other.contains(other[i - spent]));
        block.outputs@.lemma_filter_contains_rev(
            |out: Output| out.coinbase == false,
            other[i - spent],
        );
    } else {
        assert(items[i] == Item::Kernel(block.kernels@[i - spent - other.len()]));
    }
}

// ---- rewinding

/// A rewind to positions fails only as a tree does.
pub proof fn law_rewinds_to_positions_heed_failures(
    o: Overlay,
    pos: u64,
    kernel_pos: u64,
    added: Set<u32>,
    removed: Set<u32>,
)
    ensures
        heeds(
            rewind_to_program(o, pos, kernel_pos, added, removed),
            failures(),
            work_ends_with(),
            work_succeeds(),
        ),
{
    reveal_with_fuel(heeds, 4);
}

/// So does the undoing of a transaction.
pub proof fn law_undoing_heeds_failures(o: Overlay, pos: u64, kernel_pos: u64, spent: Set<u32>)
    ensures
        heeds(
            rewind_raw_tx_program(o, pos, kernel_pos, spent),
            failures(),
            work_ends_with(),
            work_succeeds(),
        ),
{
    reveal_with_fuel(heeds, 5);
}

/// The positions added and removed since a block are found, unless the chain
/// store fails.
pub proof fn law_spans_heed_failures(block: Hash256, head: Hash256)
    ensures
        heeds(added_program(block, head), failures(), ends_with(), succeeds()),
        heeds(removed_program(block, head), failures(), ends_with(), succeeds()),
        heeds(span_program(block, head), failures(), ends_with(), succeeds()),
{
    assert(heeds(added_program(block, head), failures(), ends_with(), succeeds())) by {
        reveal_with_fuel(heeds, 3);
    }
    assert(heeds(removed_program(block, head), failures(), ends_with(), succeeds())) by {
        reveal_with_fuel(heeds, 2);
    }
    assert forall|found: Result<Set<u32>, Error>| #[trigger]
        succeeds::<Set<u32>>()(found) implies heeds(
        after_added(block, head)(found),
        failures(),
        ends_with(),
        succeeds(),
    ) by {
        lemma_heeds_bind(
            removed_program(block, head),
            after_removed(found->Ok_0),
            failures(),
            ends_with(),
            succeeds(),
            ends_with(),
            succeeds(),
        );
    }
    lemma_heeds_bind(
        added_program(block, head),
        after_added(block, head),
        failures(),
        ends_with(),
        succeeds(),
        ends_with(),
        succeeds(),
    );
}

/// A rewind to a block succeeds, unless the chain store or a tree fails.
pub proof fn law_rewinds_heed_failures(o: Overlay, block: Hash256, head: Hash256)
    ensures
        heeds(rewind_program(o, block, head), failures(), work_ends_with(), work_succeeds()),
{
    let program = rewind_program(o, block, head);
    law_spans_heed_failures(block, head);
    assert forall|marker: BlockMarker, found: Result<(Set<u32>, Set<u32>), Error>|
        succeeds::<(Set<u32>, Set<u32>)>()(found) implies heeds(
        #[trigger] after_span(o, marker)(found),
        failures(),
        work_ends_with(),
        work_succeeds(),
    ) by {
        let span = found->Ok_0;
        law_rewinds_to_positions_heed_failures(
            o,
            marker.output_pos,
            marker.kernel_pos,
            span.0,
            span.1,
        );
    }
    let rest = program->Ask_2;
    assert forall|reply: Reply|
        #![trigger rest(reply)]
        reply.kind() == program->Ask_0.kind() && reply->Marker_0 is Ok implies heeds(
        rest(reply),
        failures(),
        work_ends_with(),
        work_succeeds(),
    ) by {
        let marker = reply->Marker_0->Ok_0;
        assert(rest(reply) == bind(span_program(block, head), after_span(o, marker)));
        lemma_heeds_bind(
            span_program(block, head),
            after_span(o, marker),
            failures(),
            ends_with(),
            succeeds(),
            work_ends_with(),
            work_succeeds(),
        );
    }
}

// ---- requests in a row

/// The failures of a request are told as a script tells them.
pub open spec fn suits(call: Call, fault: Fault, blame: Blame) -> bool {
    forall|reply: Reply|
        reply.kind() == call.kind() ==> match #[trigger] fault.judge(reply) {
            Ok(_) => blame(call, reply) is None,
            Err(e) => blame(call, reply) == Some(e),
        }
}

pub proof fn lemma_script_heeds(calls: Seq<Call>, fault: Fault, blame: Blame)
    requires
        forall|i: int| 0 <= i < calls.len() ==> suits(#[trigger] calls[i], fault, blame),
    ensures
        heeds(script_program(calls, fault), blame, ends_with(), succeeds()),
    decreases calls.len(),
{
    if calls.len() > 0 {
        let later = calls.drop_first();
        assert(suits(calls[0], fault, blame));
        assert forall|i: int| 0 <= i < later.len() implies suits(
            #[trigger] later[i],
            fault,
            blame,
        ) by {
            assert(later[i] == calls[i + 1]);
        }
        lemma_script_heeds(later, fault, blame);
        let rest = script_program(calls, fault)->Ask_2;
        assert forall|reply: Reply|
            #![trigger rest(reply)]
            reply.kind() == calls[0].kind() implies (match blame(calls[0], reply) {
            Some(e) => rest(reply) is Ret && ends_with::<()>()(e, rest(reply)->Ret_0),
            None => heeds(rest(reply), blame, ends_with(), succeeds()),
        }) by {
            match fault.judge(reply) {
                Ok(_) => {
                    assert(rest(reply) == script_program(later, fault));
                },
                Err(e) => {
                    assert(rest(reply) == Program::<Result<(), Error>>::Ret(Err(e)));
                },
            }
        }
    }
}

/// What a unit of work knows is kept in the chain store up to the first failure.
pub proof fn law_saving_heeds_failures(
    commits: Seq<(Commitment, u64)>,
    markers: Seq<(Hash256, BlockMarker)>,
)
    ensures
        heeds(
            script_program(save_calls(commits, markers), Fault::Other),
            failures(),
            ends_with(),
            succeeds(),
        ),
{
    let saves = save_calls(commits, markers);
    assert forall|i: int| 0 <= i < saves.len() implies suits(
        #[trigger] saves[i],
        Fault::Other,
        failures(),
    ) by {
        if i < commits.len() {
            assert(saves[i] == Call::SaveOutputPos(commits[i].0, commits[i].1));
        } else {
            let k = i - commits.len();
            assert(saves[i] == Call::SaveBlockMarker(markers[k].0, markers[k].1));
        }
    }
    lemma_script_heeds(saves, Fault::Other, failures());
}

/// Trees are written to their files, checked and set aside, and sums are kept, up
/// to the first failure.
pub proof fn law_scripts_heed_failures(header: BlockHeader, sums: BlockSums)
    ensures
        heeds(
            script_program(tree_calls(TreeCall::Sync), Fault::Io),
            failures(),
            ends_with(),
            succeeds(),
        ),
        heeds(
            script_program(tree_calls(TreeCall::Validate), Fault::Invalid),
            failures(),
            ends_with(),
            succeeds(),
        ),
        heeds(
            script_program(seq![Call::SaveBlockSums(header.hash, sums)], Fault::Other),
            failures(),
            ends_with(),
            succeeds(),
        ),
        heeds(
            script_program(
                seq![
                    Call::Snapshot(Tree::Output, header),
                    Call::Snapshot(Tree::RangeProof, header),
                ],
                Fault::Other,
            ),
            failures(),
            ends_with(),
            succeeds(),
        ),
{
    lemma_script_heeds(tree_calls(TreeCall::Sync), Fault::Io, failures());
    lemma_script_heeds(tree_calls(TreeCall::Validate), Fault::Invalid, failures());
    lemma_script_heeds(
        seq![Call::SaveBlockSums(header.hash, sums)],
        Fault::Other,
        failures(),
    );
    lemma_script_heeds(
        seq![Call::Snapshot(Tree::Output, header), Call::Snapshot(Tree::RangeProof, header)],
        Fault::Other,
        failures(),
    );
}

// ---- units of work

/// A unit of work that cannot be kept: the trees count as they were, and the
/// failure comes back.
pub open spec fn not_kept<T>(last: Sizes) -> spec_fn(Error, (Sizes, Result<T, Error>)) -> bool {
    |e: Error, done: (Sizes, Result<T, Error>)| done == (last, Err::<T, Error>(e))
}

/// A unit of work ends with its result.
pub open spec fn ends_as<T>(result: Result<T, Error>) -> spec_fn(
    (Sizes, Result<T, Error>),
) -> bool {
    |done: (Sizes, Result<T, Error>)| done.1 == result
}

/// A unit of work that succeeded and is not rolled back ends with its result,
/// unless something cannot be kept in the chain store or written to a file: at
/// the first such failure it ends with that failure, and the trees count as they
/// were.
pub proof fn law_units_of_work_heed_failures<T>(
    last: Sizes,
    commits: Seq<(Commitment, u64)>,
    markers: Seq<(Hash256, BlockMarker)>,
    result: Result<T, Error>,
)
    requires
        result is Ok,
    ensures
        heeds(
            extend_program(last, commits, markers, false, result),
            failures(),
            not_kept(last),
            ends_as(result),
        ),
{
    let ended = not_kept::<T>(last);
    let own = ends_as(result);
    let saves = script_program(save_calls(commits, markers), Fault::Other);
    let syncs = script_program(tree_calls(TreeCall::Sync), Fault::Io);
    law_saving_heeds_failures(commits, markers);
    lemma_script_heeds(tree_calls(TreeCall::Sync), Fault::Io, failures());
    assert(heeds(sizes_program(), failures(), never(), always())) by {
        reveal_with_fuel(heeds, 4);
    }
    assert forall|sizes: Sizes| #[trigger] always::<Sizes>()(sizes) implies heeds(
        after_sizes(last, true, result)(sizes),
        failures(),
        ended,
        own,
    ) by {
        lemma_heeds_bind(
            syncs,
            after_sync(last, sizes, result),
            failures(),
            ends_with(),
            succeeds(),
            ended,
            own,
        );
    }
    lemma_heeds_bind(
        sizes_program(),
        after_sizes(last, true, result),
        failures(),
        never(),
        always(),
        ended,
        own,
    );
    lemma_heeds_bind(
        saves,
        after_saved(last, result),
        failures(),
        ends_with(),
        succeeds(),
        ended,
        own,
    );
}

/// A unit of work that was committed as it should.
pub open spec fn ends_well<T>(
    extension: Extension,
    result: Result<T, Error>,
    first: World,
) -> spec_fn((Sizes, Result<T, Error>), World) -> bool {
    |done: (Sizes, Result<T, Error>), after: World|
        {
            &&& done.0 == (Sizes {
                output: first.trees.output.size,
                rproof: first.trees.rproof.size,
                kernel: first.trees.kernel.size,
            })
            &&& done.1 == result
            &&& after.files == first.trees
            &&& after.trees == first.trees
            &&& after.index == first.index.union_prefer_right(extension@.commits)
            &&& after.markers == first.markers.union_prefer_right(extension@.markers)
        }
}

/// Where neither the chain store nor a tree fails, a unit of work that succeeded
/// and is not rolled back ends with its result, the trees go as far as they went
/// in it, be that further or less far than before, and everything is kept.
pub proof fn law_successful_work_ends_well<T>(
    last: Sizes,
    extension: Extension,
    result: Result<T, Error>,
    world: World,
)
    requires
        extension.valid(),
        result is Ok,
        !extension@.rollback,
    ensures
        keeps_when(
            extend_program(
                last,
                extension.commit_entries(),
                extension.marker_entries(),
                extension@.rollback,
                result,
            ),
            world,
            smooth(failures()),
            ends_well(extension, result, world),
        ),
{
    let commits = extension.commit_entries();
    let markers = extension.marker_entries();
    let program = extend_program(last, commits, markers, extension@.rollback, result);
    let course = smooth(failures());
    let own = ends_as(result);
    law_units_of_work_heed_failures(last, commits, markers, result);
    lemma_smooth(program, world, failures(), not_kept(last), own);
    law_successful_work_is_committed(last, extension, result, world);
    lemma_keeps_when(program, world, course, committed(extension, result, world));
    lemma_when_both(
        program,
        world,
        course,
        |t: (Sizes, Result<T, Error>), after: World| own(t),
        committed(extension, result, world),
        ends_well(extension, result, world),
    );
}

// ---- opening

proof fn lemma_open_heeds(tree: Tree, header: Option<BlockHeader>, sizes: Sizes)
    ensures
        heeds(open_dir(tree, header, sizes), failures(), ends_with(), succeeds()),
    decreases open_rank(tree),
{
    let program = open_dir(tree, header, sizes);
    let rest = program->Ask_2;
    assert forall|reply: Reply|
        #![trigger rest(reply)]
        reply.kind() == program->Ask_0.kind() implies (match failures()(program->Ask_0, reply) {
        Some(e) => rest(reply) is Ret && ends_with::<Sizes>()(e, rest(reply)->Ret_0),
        None => heeds(rest(reply), failures(), ends_with(), succeeds()),
    }) by {
        if reply->Done_0 is Ok {
            let program = open_files(tree, header, sizes);
            let rest = program->Ask_2;
            assert forall|reply: Reply|
                #![trigger rest(reply)]
                reply.kind() == program->Ask_0.kind() implies (match failures()(
                program->Ask_0,
                reply,
            ) {
                Some(e) => rest(reply) is Ret && ends_with::<Sizes>()(e, rest(reply)->Ret_0),
                None => heeds(rest(reply), failures(), ends_with(), succeeds()),
            }) by {
                if let Ok(size) = reply->Opened_0 {
                    if let Some(next) = tree_after(tree) {
                        lemma_open_heeds(next, header, with_size(sizes, tree, size));
                    }
                }
            }
        }
    }
}

proof fn lemma_open_dirs_heeds(tree: Tree, header: Option<BlockHeader>)
    ensures
        heeds(open_dirs(tree, header), failures(), ends_with(), succeeds()),
    decreases open_rank(tree),
{
    let program = open_dirs(tree, header);
    let rest = program->Ask_2;
    assert forall|reply: Reply|
        #![trigger rest(reply)]
        reply.kind() == program->Ask_0.kind() implies (match failures()(program->Ask_0, reply) {
        Some(e) => rest(reply) is Ret && ends_with::<Sizes>()(e, rest(reply)->Ret_0),
        None => heeds(rest(reply), failures(), ends_with(), succeeds()),
    }) by {
        if reply->Done_0 is Ok {
            match tree_after(tree) {
                Some(next) => lemma_open_dirs_heeds(next, header),
                None => lemma_open_heeds(
                    Tree::Output,
                    header,
                    Sizes { output: 0, rproof: 0, kernel: 0 },
                ),
            }
        }
    }
}

/// Trees are opened, unless a directory or a file fails.
pub proof fn law_opening_heeds_failures(header: Option<BlockHeader>)
    ensures
        heeds(open_program(header), failures(), ends_with(), succeeds()),
{
    lemma_open_dirs_heeds(Tree::Output, header);
}

// ---- compaction, Merkle proofs, the index

/// A compaction succeeds, unless the chain store or a tree fails.
pub proof fn law_compactions_heed_failures(horizon: u32)
    ensures
        heeds(compact_program(horizon), failures(), ends_with(), succeeds()),
{
    assert forall|pos: u64, block: Hash256, head: Hash256| heeds(
        #[trigger] bind(span_program(block, head), compact_span(pos)),
        failures(),
        ends_with(),
        succeeds(),
    ) by {
        law_spans_heed_failures(block, head);
        assert forall|found: Result<(Set<u32>, Set<u32>), Error>| #[trigger]
            succeeds::<(Set<u32>, Set<u32>)>()(found) implies heeds(
            compact_span(pos)(found),
            failures(),
            ends_with(),
            succeeds(),
        ) by {
            reveal_with_fuel(heeds, 3);
        }
        lemma_heeds_bind(
            span_program(block, head),
            compact_span(pos),
            failures(),
            ends_with(),
            succeeds(),
            ends_with(),
            succeeds(),
        );
    }
    reveal_with_fuel(heeds, 4);
}

/// The rebuilding of the index fails only as the chain store does.
pub proof fn law_rebuilding_heeds_failures()
    ensures
        heeds(index_program(), failures(), ends_with(), succeeds()),
{
    let rest = index_program()->Ask_2;
    assert forall|reply: Reply|
        #![trigger rest(reply)]
        reply.kind() == index_program()->Ask_0.kind() implies heeds(
        rest(reply),
        failures(),
        ends_with(),
        succeeds(),
    ) by {
        lemma_index_heeds(1, reply->Size_0);
    }
}

proof fn lemma_index_heeds(n: nat, size: u64)
    ensures
        heeds(index_from(n, size), failures(), ends_with(), succeeds()),
    decreases size + 1 - n,
{
    if n <= size {
        lemma_index_heeds(n + 1, size);
        if leaf_at(n) {
            let rest = index_from(n, size)->Ask_2;
            assert forall|reply: Reply|
                #![trigger rest(reply)]
                reply.kind() == Call::OutputData(n as u64).kind() implies heeds(
                rest(reply),
                failures(),
                ends_with(),
                succeeds(),
            ) by {
                if let Some(id) = reply->MaybeOutput_0 {
                    let rest = index_save(n, size, id.commit)->Ask_2;
                    assert forall|reply: Reply|
                        #![trigger rest(reply)]
                        reply.kind() == Call::SaveOutputPos(id.commit, n as u64).kind() implies (
                    match failures()(Call::SaveOutputPos(id.commit, n as u64), reply) {
                        Some(e) => rest(reply) is Ret && ends_with::<()>()(e, rest(reply)->Ret_0),
                        None => heeds(rest(reply), failures(), ends_with(), succeeds()),
                    }) by {}
                }
            }
        }
    }
}

/// A Merkle proof is built, unless the chain store or a tree fails, or the index
/// does not have the output.
pub proof fn law_proofs_heed_failures(o: Overlay, commit: Commitment, block: Hash256)
    ensures
        heeds(
            merkle_program(o, commit, block),
            failures_and_misses(),
            work_ends_with(),
            work_succeeds(),
        ),
{
    let program = merkle_program(o, commit, block);
    let rest = program->Ask_2;
    let ended = work_ends_with::<MerkleProof>();
    let own = work_succeeds::<MerkleProof>();
    assert forall|reply: Reply|
        #![trigger rest(reply)]
        reply.kind() == program->Ask_0.kind() implies (match failures_and_misses()(
        program->Ask_0,
        reply,
    ) {
        Some(e) => rest(reply) is Ret && ended(e, rest(reply)->Ret_0),
        None => heeds(rest(reply), failures_and_misses(), ended, own),
    }) by {
        if let Ok(head) = reply->Header_0 {
            lemma_rewind_misses(o, block, head.hash);
            assert forall|done: (Overlay, Result<(), Error>)| #[trigger]
                work_succeeds::<()>()(done) implies heeds(
                after_rewind(commit)(done),
                failures_and_misses(),
                ended,
                own,
            ) by {
                assert(after_rewind(commit)(done) == merkle_find(done.0, commit));
                reveal_with_fuel(heeds, 3);
            }
            lemma_heeds_bind(
                rewind_program(o, block, head.hash),
                after_rewind(commit),
                failures_and_misses(),
                work_ends_with(),
                work_succeeds(),
                ended,
                own,
            );
        }
    }
}

/// A rewind does not look into the index.
proof fn lemma_rewind_misses(o: Overlay, block: Hash256, head: Hash256)
    ensures
        heeds(
            rewind_program(o, block, head),
            failures_and_misses(),
            work_ends_with(),
            work_succeeds(),
        ),
{
    let blame = failures_and_misses();
    assert(heeds(added_program(block, head), blame, ends_with(), succeeds())) by {
        reveal_with_fuel(heeds, 3);
    }
    assert(heeds(removed_program(block, head), blame, ends_with(), succeeds())) by {
        reveal_with_fuel(heeds, 2);
    }
    assert forall|found: Result<Set<u32>, Error>| #[trigger]
        succeeds::<Set<u32>>()(found) implies heeds(
        after_added(block, head)(found),
        blame,
        ends_with(),
        succeeds(),
    ) by {
        lemma_heeds_bind(
            removed_program(block, head),
            after_removed(found->Ok_0),
            blame,
            ends_with(),
            succeeds(),
            ends_with(),
            succeeds(),
        );
    }
    lemma_heeds_bind(
        added_program(block, head),
        after_added(block, head),
        blame,
        ends_with(),
        succeeds(),
        ends_with(),
        succeeds(),
    );
    let program = rewind_program(o, block, head);
    let rest = program->Ask_2;
    assert forall|reply: Reply|
        #![trigger rest(reply)]
        reply.kind() == program->Ask_0.kind() && reply->Marker_0 is Ok implies heeds(
        rest(reply),
        blame,
        work_ends_with(),
        work_succeeds(),
    ) by {
        let marker = reply->Marker_0->Ok_0;
        assert(rest(reply) == bind(span_program(block, head), after_span(o, marker)));
        assert forall|found: Result<(Set<u32>, Set<u32>), Error>| #[trigger]
            succeeds::<(Set<u32>, Set<u32>)>()(found) implies heeds(
            after_span(o, marker)(found),
            blame,
            work_ends_with(),
            work_succeeds(),
        ) by {
            reveal_with_fuel(heeds, 4);
        }
        lemma_heeds_bind(
            span_program(block, head),
            after_span(o, marker),
            blame,
            ends_with(),
            succeeds(),
            work_ends_with(),
            work_succeeds(),
        );
    }
}

// ---- unspent outputs

/// What the search for an unspent output comes to if it fails: an output that
/// the index or the output tree does not have is not found.
pub open spec fn unspent_failures() -> Blame {
    |call: Call, reply: Reply|
        match reply {
            Reply::Pos(Err(StoreError::NotFound)) => Some(Error::OutputNotFound),
            Reply::Pos(Err(e)) => Some(Error::StoreErr(e, Message::UnspentCheck)),
            Reply::MaybeHash(None) => Some(Error::OutputNotFound),
            _ => None,
        }
}

/// An output that is neither in the index nor in the output tree is not found,
/// and any other trouble with the index is told as such.
pub proof fn law_unspent_checks_heed_failures(last: u64, id: OutputIdentifier)
    ensures
        heeds(
            unspent_program(last, id),
            unspent_failures(),
            ends_with(),
            |found: Result<Hash256, Error>|
                found is Ok || found == Err::<Hash256, Error>(
                    Error::TxHashSetErr(Message::HashMismatch),
                ),
        ),
{
    reveal_with_fuel(heeds, 4);
}

} // verus!
