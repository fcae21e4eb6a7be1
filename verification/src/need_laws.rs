//! Operations go on with every reply that makes sense.
use crate::apply::{input_program, kernel_program, output_program};
use crate::bitmap::low_bits;
use crate::block::{after_items, block_items, block_program};
use crate::compact::{compact_header, compact_marker, compact_program, compact_span};
use crate::extending::{
    after_discard, after_saved, after_sizes, after_sync, end_program, extend_program, sizes_program,
};
use crate::extension::Overlay;
use crate::leaves::{
    commitments_from, commitments_program, index_from, index_program, index_save, Committer,
};
use crate::maturity::{
    maturity_hash, maturity_header, maturity_pos, maturity_program, maturity_verify,
};
use crate::merkle::{after_rewind, merkle_find, merkle_program};
use crate::pmmr::leaf_at;
use crate::program::{bind, Call, Need, Program, Reply};
use crate::rangeproofs::{
    rangeproofs_check, rangeproofs_from, rangeproofs_next, rangeproofs_program, rangeproofs_read,
};
use crate::raw_tx::{
    after_pre_tx, after_tx, after_tx_items, after_undo, raw_tx_lookup, raw_tx_program, raw_tx_read,
    raw_tx_sized, raw_tx_spent, rewind_raw_tx_program, tx_items, txs_program, validate_txs_program,
};
use crate::rewind::{
    added_program, after_added, after_removed, after_span, removed_program, rewind_program,
    rewind_to_program, span_program,
};
use crate::script::{save_calls, script_program, tree_calls, Fault, TreeCall};
use crate::signatures::{signatures_check, signatures_from, signatures_next, signatures_program};
use crate::tasks::{after_item, item_program, items_program, Item};
use crate::txhashset::{
    open_dir, open_dirs, open_files, open_program, open_rank, proof_program, roots_at_program,
    tree_after, unspent_program, with_size,
};
use crate::types::{
    Block, BlockHeader, BlockMarker, Commitment, Error, Hash256, Input, Output, OutputIdentifier,
    Sizes, Transaction, Tree, TxKernel,
};
use crate::validation::{
    after_kernels, after_mmrs, after_outputs, after_rangeproofs, after_roots, after_signatures,
    compare_roots, roots_program, validate_program, validate_roots_program, verify_sums, zero_sums,
};
use vstd::prelude::*;

verus! {

/// A reply that makes sense: positions count from one, and no tree is so large
/// that it could not grow.
pub open spec fn sane(reply: Reply) -> bool {
    match reply {
        Reply::Pos(Ok(pos)) => pos >= 1,
        Reply::Pushed(Ok(pos)) => pos >= 1,
        Reply::Size(size) => size < u64::MAX,
        Reply::Marker(Ok(marker)) => marker.output_pos < u64::MAX,
        _ => true,
    }
}

/// A need that every reply that makes sense meets.
pub open spec fn modest(need: Need) -> bool {
    need == Need::Any || need == Need::Positive || need == Need::BelowMax
}

/// Every reply that makes sense meets a modest need.
pub proof fn law_modest_needs_are_met(need: Need, reply: Reply)
    requires
        modest(need),
        sane(reply),
    ensures
        need.met_by(reply),
{
}

/// The requests that a dialogue may make, and what it may need of the replies.
pub type Terms = spec_fn(Call, Need) -> bool;

/// A dialogue keeps to its terms, with every reply that makes sense.
pub open spec fn takes_any<T>(program: Program<T>, terms: Terms) -> bool
    decreases program,
{
    match program {
        Program::Ret(_) => true,
        Program::Ask(call, need, rest) => {
            &&& terms(call, need)
            &&& forall|reply: Reply|
                #![trigger rest(reply)]
                reply.kind() == call.kind() && need.met_by(reply) && sane(reply) ==> takes_any(
                    rest(reply),
                    terms,
                )
        },
        Program::Walk(trail, rest) => forall|found: Result<Set<u32>, Error>|
            #![trigger rest(found)]
            takes_any(rest(found), terms),
    }
}

/// A request that neither prints nor reports, leaves the files alone but for their
/// being written or discarded as a whole, and keeps no sums.
pub open spec fn ordinary(call: Call) -> bool {
    match call {
        Call::Snapshot(..) => false,
        Call::Dump(..) => false,
        Call::DumpFromFile(_) => false,
        Call::DumpStats => false,
        Call::CheckCompact(..) => false,
        Call::CreateDir(_) => false,
        Call::OpenBackend(..) => false,
        Call::SaveBlockSums(..) => false,
        Call::Report(..) => false,
        _ => true,
    }
}

/// Ordinary requests with modest needs.
pub open spec fn plain_terms() -> Terms {
    |call: Call, need: Need| ordinary(call) && modest(need)
}

/// Ordinary requests with modest needs are within the terms.
spec fn includes_plain(terms: Terms) -> bool {
    forall|call: Call, need: Need| #[trigger]
        terms(call, need) <== ordinary(call) && modest(need)
}

/// Besides, where the output tree has a hash, it has to have an element.
pub open spec fn terms_of_items() -> Terms {
    |call: Call, need: Need|
        ordinary(call) && (modest(need) || call is OutputData && need == Need::Present)
}

/// Besides, what is asked for by its commitment has to be in the index.
pub open spec fn terms_of_proofs() -> Terms {
    |call: Call, need: Need|
        ordinary(call) && (modest(need) || call is OutputPos && need == Need::Found)
}

/// Besides, the files of the output and of the range proof tree may be compacted.
/// Those of the kernel tree may not.
pub open spec fn terms_of_compaction() -> Terms {
    |call: Call, need: Need|
        modest(need) && (ordinary(call) || match call {
            Call::CheckCompact(tree, _, _, _, clean) => tree != Tree::Kernel && (clean == (tree
                == Tree::Output)),
            _ => false,
        })
}

/// Only directories and files are opened.
pub open spec fn terms_of_opening() -> Terms {
    |call: Call, need: Need|
        modest(need) && (call is CreateDir || call is OpenBackend)
}

/// Nothing is changed, and there may be reports.
pub open spec fn terms_of_verification() -> Terms {
    |call: Call, need: Need|
        modest(need) && match call {
            Call::Size(_) => true,
            Call::OutputData(_) => true,
            Call::RproofData(_) => true,
            Call::KernelData(_) => true,
            Call::Root(_) => true,
            Call::Validate(_) => true,
            Call::VerifyKernel(_) => true,
            Call::VerifyProof(..) => true,
            Call::KernelSums(..) => true,
            Call::ZeroCommit => true,
            Call::Report(..) => true,
            _ => false,
        }
}

/// The requests of a list.
pub open spec fn terms_of_script(calls: Seq<Call>) -> Terms {
    |call: Call, need: Need| need == Need::Any && calls.contains(call)
}

proof fn lemma_bind_takes<A, B>(
    first: Program<A>,
    rest: spec_fn(A) -> Program<B>,
    terms: Terms,
)
    requires
        takes_any(first, terms),
        forall|a: A| takes_any(#[trigger] rest(a), terms),
    ensures
        takes_any(bind(first, rest), terms),
    decreases first,
{
    match first {
        Program::Ret(_) => {},
        Program::Ask(call, need, later) => {
            let next = bind(first, rest)->Ask_2;
            assert forall|reply: Reply|
                #![trigger next(reply)]
                reply.kind() == call.kind() && need.met_by(reply) && sane(
                    reply,
                ) implies takes_any(next(reply), terms) by {
                assert(next(reply) == bind(later(reply), rest));
                lemma_bind_takes(later(reply), rest, terms);
            }
        },
        Program::Walk(trail, later) => {
            let next = bind(first, rest)->Walk_1;
            assert forall|found: Result<Set<u32>, Error>|
                #![trigger next(found)]
                takes_any(next(found), terms) by {
                assert(next(found) == bind(later(found), rest));
                lemma_bind_takes(later(found), rest, terms);
            }
        },
    }
}

// ---- outputs, inputs, kernels, blocks

/// An output, an input and a kernel go on with any reply.
pub proof fn law_items_take_any_reply(o: Overlay, out: Output, input: Input, kernel: TxKernel)
    ensures
        takes_any(output_program(o, out), plain_terms()),
        takes_any(input_program(o, input), terms_of_items()),
        takes_any(kernel_program(o, kernel), plain_terms()),
{
    assert(takes_any(output_program(o, out), plain_terms())) by {
        reveal_with_fuel(takes_any, 6);
    }
    assert(takes_any(input_program(o, input), terms_of_items())) by {
        reveal_with_fuel(takes_any, 8);
    }
    assert(takes_any(kernel_program(o, kernel), plain_terms())) by {
        reveal_with_fuel(takes_any, 2);
    }
}

proof fn lemma_items_take(o: Overlay, items: Seq<Item>)
    ensures
        takes_any(items_program(o, items), terms_of_items()),
    decreases items.len(),
{
    if items.len() > 0 {
        let rest = items.drop_first();
        assert(takes_any(item_program(o, items[0]), terms_of_items())) by {
            reveal_with_fuel(takes_any, 8);
        }
        assert forall|done: (Overlay, Result<(), Error>)| takes_any(
            #[trigger] after_item(rest)(done),
            terms_of_items(),
        ) by {
            if done.1 is Ok {
                lemma_items_take(done.0, rest);
            }
        }
        lemma_bind_takes(item_program(o, items[0]), after_item(rest), terms_of_items());
    }
}

/// A block goes on with any reply.
pub proof fn law_blocks_take_any_reply(o: Overlay, block: Block)
    ensures
        takes_any(block_program(o, block), terms_of_items()),
{
    let items = block_items(block);
    lemma_items_take(o, items);
    assert forall|done: (Overlay, Result<(), Error>)| takes_any(
        #[trigger] after_items(block.hash)(done),
        terms_of_items(),
    ) by {
        reveal_with_fuel(takes_any, 3);
    }
    lemma_bind_takes(items_program(o, items), after_items(block.hash), terms_of_items());
}

// ---- rewinding

proof fn lemma_span_takes(block: Hash256, head: Hash256, terms: Terms)
    requires
        includes_plain(terms),
    ensures
        takes_any(added_program(block, head), terms),
        takes_any(removed_program(block, head), terms),
        takes_any(span_program(block, head), terms),
{
    assert(takes_any(added_program(block, head), terms)) by {
        reveal_with_fuel(takes_any, 3);
    }
    assert(takes_any(removed_program(block, head), terms)) by {
        reveal_with_fuel(takes_any, 2);
    }
    assert forall|found: Result<Set<u32>, Error>| takes_any(
        #[trigger] after_added(block, head)(found),
        terms,
    ) by {
        if let Ok(added) = found {
            lemma_bind_takes(removed_program(block, head), after_removed(added), terms);
        }
    }
    lemma_bind_takes(added_program(block, head), after_added(block, head), terms);
}

proof fn lemma_rewind_takes(
    o: Overlay,
    block: Hash256,
    head: Hash256,
    terms: Terms,
)
    requires
        includes_plain(terms),
    ensures
        takes_any(rewind_program(o, block, head), terms),
{
    let program = rewind_program(o, block, head);
    let rest = program->Ask_2;
    lemma_span_takes(block, head, terms);
    assert forall|reply: Reply|
        #![trigger rest(reply)]
        reply.kind() == program->Ask_0.kind() implies takes_any(rest(reply), terms) by {
        if let Ok(marker) = reply->Marker_0 {
            assert forall|found: Result<(Set<u32>, Set<u32>), Error>| takes_any(
                #[trigger] after_span(o, marker)(found),
                terms,
            ) by {
                reveal_with_fuel(takes_any, 4);
            }
            lemma_bind_takes(span_program(block, head), after_span(o, marker), terms);
        }
    }
}

/// A rewind, to a block or to positions, and the undoing of a transaction go on
/// with any reply, and so do the searches for what to undo.
pub proof fn law_rewinds_take_any_reply(
    o: Overlay,
    block: Hash256,
    head: Hash256,
    pos: u64,
    kernel_pos: u64,
    added: Set<u32>,
    removed: Set<u32>,
)
    ensures
        takes_any(added_program(block, head), plain_terms()),
        takes_any(removed_program(block, head), plain_terms()),
        takes_any(rewind_program(o, block, head), plain_terms()),
        takes_any(rewind_to_program(o, pos, kernel_pos, added, removed), plain_terms()),
        takes_any(rewind_raw_tx_program(o, pos, kernel_pos, removed), plain_terms()),
{
    lemma_span_takes(block, head, plain_terms());
    lemma_rewind_takes(o, block, head, plain_terms());
    assert(takes_any(rewind_to_program(o, pos, kernel_pos, added, removed), plain_terms())) by {
        reveal_with_fuel(takes_any, 4);
    }
    assert(takes_any(rewind_raw_tx_program(o, pos, kernel_pos, removed), plain_terms())) by {
        reveal_with_fuel(takes_any, 5);
    }
}

// ---- transactions

proof fn lemma_tx_spent_takes(
    o: Overlay,
    tx: Transaction,
    pos: u64,
    kernel_pos: u64,
    i: nat,
    spent: Set<u32>,
)
    ensures
        takes_any(raw_tx_spent(o, tx, pos, kernel_pos, i, spent), terms_of_items()),
    decreases tx.inputs@.len() - i, 1nat,
{
    let terms = terms_of_items();
    if i >= tx.inputs@.len() {
        let rest = after_tx_items(o.commits, pos, kernel_pos, spent);
        lemma_items_take(o, tx_items(tx));
        assert forall|done: (Overlay, Result<(), Error>)| takes_any(
            #[trigger] rest(done),
            terms,
        ) by {
            if let Err(e) = done.1 {
                let undo = rewind_raw_tx_program(done.0, pos, kernel_pos, spent);
                assert(takes_any(undo, terms)) by {
                    reveal_with_fuel(takes_any, 5);
                }
                lemma_bind_takes(undo, after_undo(o.commits, e), terms);
            }
        }
        lemma_bind_takes(items_program(o, tx_items(tx)), rest, terms);
    } else {
        match o.commits.get(tx.inputs@[i as int].commit) {
            Some(at) => lemma_tx_read_takes(o, tx, pos, kernel_pos, i, spent, at),
            None => {
                let program = raw_tx_lookup(o, tx, pos, kernel_pos, i, spent);
                let rest = program->Ask_2;
                assert forall|reply: Reply|
                    #![trigger rest(reply)]
                    reply.kind() == program->Ask_0.kind() implies takes_any(
                    rest(reply),
                    terms,
                ) by {
                    lemma_tx_spent_takes(o, tx, pos, kernel_pos, i + 1, spent);
                    if let Ok(at) = reply->Pos_0 {
                        lemma_tx_read_takes(o, tx, pos, kernel_pos, i, spent, at);
                    }
                }
            },
        }
    }
}

proof fn lemma_tx_read_takes(
    o: Overlay,
    tx: Transaction,
    pos: u64,
    kernel_pos: u64,
    i: nat,
    spent: Set<u32>,
    at: u64,
)
    requires
        i < tx.inputs@.len(),
    ensures
        takes_any(raw_tx_read(o, tx, pos, kernel_pos, i, spent, at), terms_of_items()),
        raw_tx_read(o, tx, pos, kernel_pos, i, spent, at)->Ask_1 == Need::Any,
    decreases tx.inputs@.len() - i, 0nat,
{
    let program = raw_tx_read(o, tx, pos, kernel_pos, i, spent, at);
    let rest = program->Ask_2;
    assert forall|reply: Reply|
        #![trigger rest(reply)]
        reply.kind() == program->Ask_0.kind() implies takes_any(
        rest(reply),
        terms_of_items(),
    ) by {
        let more = if reply->MaybeOutput_0 is Some {
            spent.insert(low_bits(at))
        } else {
            spent
        };
        lemma_tx_spent_takes(o, tx, pos, kernel_pos, i + 1, more);
    }
}

proof fn lemma_tx_takes(o: Overlay, tx: Transaction)
    ensures
        takes_any(raw_tx_program(o, tx), terms_of_items()),
{
    let program = raw_tx_program(o, tx);
    let rest = program->Ask_2;
    assert forall|reply: Reply|
        #![trigger rest(reply)]
        reply.kind() == program->Ask_0.kind() implies takes_any(
        rest(reply),
        terms_of_items(),
    ) by {
        let pos = reply->Size_0;
        let sized = raw_tx_sized(o, tx, pos);
        let next = sized->Ask_2;
        assert forall|reply: Reply|
            #![trigger next(reply)]
            reply.kind() == sized->Ask_0.kind() implies takes_any(
            next(reply),
            terms_of_items(),
        ) by {
            lemma_tx_spent_takes(o, tx, pos, reply->Size_0, 0, Set::empty());
        }
    }
}

proof fn lemma_txs_take(o: Overlay, txs: Seq<Transaction>, selected: Seq<Transaction>)
    ensures
        takes_any(txs_program(o, txs, selected), terms_of_items()),
    decreases txs.len(),
{
    if txs.len() > 0 {
        let later = after_tx(txs[0], txs.drop_first(), selected);
        lemma_tx_takes(o, txs[0]);
        assert forall|done: (Overlay, Result<(), Error>)| takes_any(
            #[trigger] later(done),
            terms_of_items(),
        ) by {
            match done.1 {
                Ok(_) => lemma_txs_take(done.0, txs.drop_first(), selected.push(txs[0])),
                Err(_) => lemma_txs_take(done.0, txs.drop_first(), selected),
            }
        }
        lemma_bind_takes(raw_tx_program(o, txs[0]), later, terms_of_items());
    }
}

/// A transaction, and the validation of many, go on with any reply.
pub proof fn law_transactions_take_any_reply(
    o: Overlay,
    tx: Transaction,
    txs: Seq<Transaction>,
    pre_tx: Option<Transaction>,
)
    ensures
        takes_any(raw_tx_program(o, tx), terms_of_items()),
        takes_any(validate_txs_program(o, txs, pre_tx), terms_of_items()),
{
    let none = Seq::<Transaction>::empty();
    lemma_tx_takes(o, tx);
    match pre_tx {
        Some(pre) => {
            lemma_tx_takes(o, pre);
            assert forall|done: (Overlay, Result<(), Error>)| takes_any(
                #[trigger] after_pre_tx(txs)(done),
                terms_of_items(),
            ) by {
                if done.1 is Ok {
                    lemma_txs_take(done.0, txs, none);
                }
            }
            lemma_bind_takes(raw_tx_program(o, pre), after_pre_tx(txs), terms_of_items());
        },
        None => lemma_txs_take(o, txs, none),
    }
}

// ---- requests in a row, units of work

proof fn lemma_script_takes(calls: Seq<Call>, fault: Fault, terms: Terms)
    requires
        forall|i: int| 0 <= i < calls.len() ==> terms(#[trigger] calls[i], Need::Any),
    ensures
        takes_any(script_program(calls, fault), terms),
    decreases calls.len(),
{
    if calls.len() > 0 {
        let later = calls.drop_first();
        let program = script_program(calls, fault);
        let rest = program->Ask_2;
        assert forall|i: int| 0 <= i < later.len() implies terms(
            #[trigger] later[i],
            Need::Any,
        ) by {
            assert(later[i] == calls[i + 1]);
        }
        lemma_script_takes(later, fault, terms);
        assert(terms(calls[0], Need::Any));
        assert forall|reply: Reply|
            #![trigger rest(reply)]
            reply.kind() == calls[0].kind() implies takes_any(rest(reply), terms) by {
            if fault.judge(reply) is Ok {
                assert(rest(reply) == script_program(later, fault));
            }
        }
    }
}

/// Requests in a row are only those of the list, and go on with any reply.
pub proof fn law_scripts_take_any_reply(calls: Seq<Call>, fault: Fault)
    ensures
        takes_any(script_program(calls, fault), terms_of_script(calls)),
{
    lemma_script_takes(calls, fault, terms_of_script(calls));
}

/// The end of a unit of work goes on with any reply.
pub proof fn law_units_of_work_take_any_reply<T>(
    last: Sizes,
    commits: Seq<(Commitment, u64)>,
    markers: Seq<(Hash256, BlockMarker)>,
    rollback: bool,
    result: Result<T, Error>,
)
    ensures
        takes_any(
            extend_program(last, commits, markers, rollback, result),
            plain_terms(),
        ),
        takes_any(end_program(last, false, result), plain_terms()),
{
    let terms = plain_terms();
    assert(takes_any(sizes_program(), terms)) by {
        reveal_with_fuel(takes_any, 4);
    }
    assert forall|commit: bool| takes_any(#[trigger] end_program(last, commit, result), terms) by {
        assert forall|sizes: Sizes| takes_any(
            #[trigger] after_sizes(last, commit, result)(sizes),
            terms,
        ) by {
            if commit {
                lemma_script_takes(tree_calls(TreeCall::Sync), Fault::Io, terms);
                lemma_bind_takes(
                    script_program(tree_calls(TreeCall::Sync), Fault::Io),
                    after_sync(last, sizes, result),
                    terms,
                );
            } else {
                lemma_script_takes(tree_calls(TreeCall::Discard), Fault::Io, terms);
                lemma_bind_takes(
                    script_program(tree_calls(TreeCall::Discard), Fault::Io),
                    after_discard(last, result),
                    terms,
                );
            }
        }
        lemma_bind_takes(sizes_program(), after_sizes(last, commit, result), terms);
    }
    if result is Ok && !rollback {
        let saves = save_calls(commits, markers);
        assert forall|i: int| 0 <= i < saves.len() implies terms(
            #[trigger] saves[i],
            Need::Any,
        ) by {
            if i < commits.len() {
                assert(saves[i] == Call::SaveOutputPos(commits[i].0, commits[i].1));
            } else {
                let k = i - commits.len();
                assert(saves[i] == Call::SaveBlockMarker(markers[k].0, markers[k].1));
            }
        }
        lemma_script_takes(saves, Fault::Other, terms);
        assert forall|verdict: Result<(), Error>| takes_any(
            #[trigger] after_saved(last, result)(verdict),
            terms,
        ) by {
            assert(takes_any(end_program(last, true, result), terms));
        }
        lemma_bind_takes(
            script_program(saves, Fault::Other),
            after_saved(last, result),
            terms,
        );
    } else {
        assert(takes_any(end_program(last, false, result), terms));
    }
}

// ---- opening, reading, compacting

proof fn lemma_open_takes(tree: Tree, header: Option<BlockHeader>, sizes: Sizes)
    ensures
        takes_any(open_dir(tree, header, sizes), terms_of_opening()),
    decreases open_rank(tree),
{
    let program = open_dir(tree, header, sizes);
    let rest = program->Ask_2;
    assert forall|reply: Reply|
        #![trigger rest(reply)]
        reply.kind() == program->Ask_0.kind() implies takes_any(
        rest(reply),
        terms_of_opening(),
    ) by {
        let next = open_files(tree, header, sizes);
        let later = next->Ask_2;
        assert forall|reply: Reply|
            #![trigger later(reply)]
            reply.kind() == next->Ask_0.kind() implies takes_any(
            later(reply),
            terms_of_opening(),
        ) by {
            if let Ok(size) = reply->Opened_0 {
                if let Some(following) = tree_after(tree) {
                    lemma_open_takes(following, header, with_size(sizes, tree, size));
                }
            }
        }
    }
}

proof fn lemma_open_dirs_take(tree: Tree, header: Option<BlockHeader>)
    ensures
        takes_any(open_dirs(tree, header), terms_of_opening()),
    decreases open_rank(tree),
{
    let program = open_dirs(tree, header);
    let rest = program->Ask_2;
    assert forall|reply: Reply|
        #![trigger rest(reply)]
        reply.kind() == program->Ask_0.kind() implies takes_any(
        rest(reply),
        terms_of_opening(),
    ) by {
        if reply->Done_0 is Ok {
            match tree_after(tree) {
                Some(next) => lemma_open_dirs_take(next, header),
                None => lemma_open_takes(
                    Tree::Output,
                    header,
                    Sizes { output: 0, rproof: 0, kernel: 0 },
                ),
            }
        }
    }
}

/// Opening, the search for an unspent output and the roots go on with any reply,
/// and so does a Merkle proof, if what it is for is in the index.
pub proof fn law_readers_take_any_reply(
    header: Option<BlockHeader>,
    last: Sizes,
    id: OutputIdentifier,
    commit: Commitment,
)
    ensures
        takes_any(open_program(header), terms_of_opening()),
        takes_any(unspent_program(last.output, id), plain_terms()),
        takes_any(roots_at_program(last), plain_terms()),
        takes_any(proof_program(last.output, commit), terms_of_proofs()),
{
    lemma_open_dirs_take(Tree::Output, header);
    assert(takes_any(unspent_program(last.output, id), plain_terms())) by {
        reveal_with_fuel(takes_any, 4);
    }
    assert(takes_any(roots_at_program(last), plain_terms())) by {
        reveal_with_fuel(takes_any, 4);
    }
    assert(takes_any(proof_program(last.output, commit), terms_of_proofs())) by {
        reveal_with_fuel(takes_any, 3);
    }
}

/// A compaction goes on with any reply.
pub proof fn law_compactions_take_any_reply(horizon: u32)
    ensures
        takes_any(compact_program(horizon), terms_of_compaction()),
{
    let terms = terms_of_compaction();
    assert forall|block: Hash256, head: Hash256| takes_any(
        #[trigger] compact_marker(block, head),
        terms,
    ) by {
        let program = compact_marker(block, head);
        let rest = program->Ask_2;
        lemma_span_takes(block, head, terms);
        assert forall|reply: Reply|
            #![trigger rest(reply)]
            reply.kind() == program->Ask_0.kind() implies takes_any(rest(reply), terms) by {
            if let Ok(marker) = reply->Marker_0 {
                let later = compact_span(marker.output_pos);
                assert forall|found: Result<(Set<u32>, Set<u32>), Error>| takes_any(
                    #[trigger] later(found),
                    terms,
                ) by {
                    reveal_with_fuel(takes_any, 3);
                }
                lemma_bind_takes(span_program(block, head), later, terms);
            }
        }
    }
    let program = compact_program(horizon);
    let rest = program->Ask_2;
    assert forall|reply: Reply|
        #![trigger rest(reply)]
        reply.kind() == program->Ask_0.kind() implies takes_any(rest(reply), terms) by {
        if let Ok(head) = reply->Header_0 {
            let program = compact_header(horizon, head);
            let rest = program->Ask_2;
            assert forall|reply: Reply|
                #![trigger rest(reply)]
                reply.kind() == program->Ask_0.kind() implies takes_any(rest(reply), terms) by {
                if let Ok(block) = reply->Header_0 {
                    assert(takes_any(compact_marker(block.hash, head.hash), terms));
                }
            }
        }
    }
}

/// A dialogue makes a request of a sort at most so many times.
pub open spec fn asks_at_most<T>(
    program: Program<T>,
    sort: spec_fn(Call) -> bool,
    times: nat,
) -> bool
    decreases program,
{
    match program {
        Program::Ret(_) => true,
        Program::Ask(call, need, rest) => {
            &&& sort(call) ==> times > 0
            &&& forall|reply: Reply|
                #![trigger rest(reply)]
                reply.kind() == call.kind() && need.met_by(reply) && sane(reply)
                    ==> asks_at_most(
                    rest(reply),
                    sort,
                    if sort(call) {
                        (times - 1) as nat
                    } else {
                        times
                    },
                )
        },
        Program::Walk(trail, rest) => forall|found: Result<Set<u32>, Error>|
            #![trigger rest(found)]
            asks_at_most(rest(found), sort, times),
    }
}

/// What comes after a dialogue that does not make such a request.
proof fn lemma_bind_asks<A, B>(
    first: Program<A>,
    rest: spec_fn(A) -> Program<B>,
    terms: Terms,
    sort: spec_fn(Call) -> bool,
    times: nat,
)
    requires
        takes_any(first, terms),
        forall|call: Call, need: Need| #[trigger] terms(call, need) ==> !sort(call),
        forall|a: A| asks_at_most(#[trigger] rest(a), sort, times),
    ensures
        asks_at_most(bind(first, rest), sort, times),
    decreases first,
{
    match first {
        Program::Ret(_) => {},
        Program::Ask(call, need, later) => {
            let next = bind(first, rest)->Ask_2;
            assert(terms(call, need));
            assert forall|reply: Reply|
                #![trigger next(reply)]
                reply.kind() == call.kind() && need.met_by(reply) && sane(
                    reply,
                ) implies asks_at_most(next(reply), sort, times) by {
                assert(next(reply) == bind(later(reply), rest));
                lemma_bind_asks(later(reply), rest, terms, sort, times);
            }
        },
        Program::Walk(trail, later) => {
            let next = bind(first, rest)->Walk_1;
            assert forall|found: Result<Set<u32>, Error>|
                #![trigger next(found)]
                asks_at_most(next(found), sort, times) by {
                assert(next(found) == bind(later(found), rest));
                lemma_bind_asks(later(found), rest, terms, sort, times);
            }
        },
    }
}

/// Requests to compact the files of a tree.
pub open spec fn compacts(tree: Tree) -> spec_fn(Call) -> bool {
    |call: Call|
        match call {
            Call::CheckCompact(of, ..) => of == tree,
            _ => false,
        }
}

/// A compaction compacts the files of each tree at most once.
pub proof fn law_compactions_compact_once(horizon: u32, tree: Tree)
    ensures
        asks_at_most(compact_program(horizon), compacts(tree), 1),
{
    let sort = compacts(tree);
    assert forall|block: Hash256, head: Hash256| asks_at_most(
        #[trigger] compact_marker(block, head),
        sort,
        1,
    ) by {
        let program = compact_marker(block, head);
        let rest = program->Ask_2;
        lemma_span_takes(block, head, plain_terms());
        assert forall|reply: Reply|
            #![trigger rest(reply)]
            reply.kind() == program->Ask_0.kind() implies asks_at_most(rest(reply), sort, 1) by {
            if let Ok(marker) = reply->Marker_0 {
                let later = compact_span(marker.output_pos);
                assert forall|found: Result<(Set<u32>, Set<u32>), Error>| asks_at_most(
                    #[trigger] later(found),
                    sort,
                    1,
                ) by {
                    reveal_with_fuel(asks_at_most, 3);
                }
                lemma_bind_asks(span_program(block, head), later, plain_terms(), sort, 1);
            }
        }
    }
    let program = compact_program(horizon);
    let rest = program->Ask_2;
    assert forall|reply: Reply|
        #![trigger rest(reply)]
        reply.kind() == program->Ask_0.kind() implies asks_at_most(rest(reply), sort, 1) by {
        if let Ok(head) = reply->Header_0 {
            let program = compact_header(horizon, head);
            let rest = program->Ask_2;
            assert forall|reply: Reply|
                #![trigger rest(reply)]
                reply.kind() == program->Ask_0.kind() implies asks_at_most(
                rest(reply),
                sort,
                1,
            ) by {
                if let Ok(block) = reply->Header_0 {
                    assert(asks_at_most(compact_marker(block.hash, head.hash), sort, 1));
                }
            }
        }
    }
}

/// A Merkle proof for a block goes on with any reply.
pub proof fn law_proofs_take_any_reply(o: Overlay, commit: Commitment, block: Hash256)
    ensures
        takes_any(merkle_program(o, commit, block), plain_terms()),
{
    let terms = plain_terms();
    let program = merkle_program(o, commit, block);
    let rest = program->Ask_2;
    assert forall|reply: Reply|
        #![trigger rest(reply)]
        reply.kind() == program->Ask_0.kind() implies takes_any(rest(reply), terms) by {
        if let Ok(head) = reply->Header_0 {
            lemma_rewind_takes(o, block, head.hash, terms);
            assert forall|done: (Overlay, Result<(), Error>)| takes_any(
                #[trigger] after_rewind(commit)(done),
                terms,
            ) by {
                if done.1 is Ok {
                    assert(after_rewind(commit)(done) == merkle_find(done.0, commit));
                    reveal_with_fuel(takes_any, 3);
                }
            }
            lemma_bind_takes(
                rewind_program(o, block, head.hash),
                after_rewind(commit),
                terms,
            );
        }
    }
}

// ---- leaves

proof fn lemma_index_takes(n: nat, size: u64)
    ensures
        takes_any(index_from(n, size), plain_terms()),
    decreases size + 1 - n,
{
    if n <= size {
        lemma_index_takes(n + 1, size);
        if leaf_at(n) {
            let program = index_from(n, size);
            let rest = program->Ask_2;
            assert forall|reply: Reply|
                #![trigger rest(reply)]
                reply.kind() == program->Ask_0.kind() implies takes_any(
                rest(reply),
                plain_terms(),
            ) by {
                if let Some(id) = reply->MaybeOutput_0 {
                    let next = index_save(n, size, id.commit);
                    let later = next->Ask_2;
                    assert forall|reply: Reply|
                        #![trigger later(reply)]
                        reply.kind() == next->Ask_0.kind() implies takes_any(
                        later(reply),
                        plain_terms(),
                    ) by {}
                }
            }
        }
    }
}

proof fn lemma_commitments_take(of: Committer, n: nat, size: u64, found: Seq<Commitment>)
    ensures
        takes_any(commitments_from(of, n, size, found), terms_of_verification()),
    decreases size + 1 - n,
{
    if n <= size {
        if leaf_at(n) {
            let program = commitments_from(of, n, size, found);
            let rest = program->Ask_2;
            assert forall|reply: Reply|
                #![trigger rest(reply)]
                reply.kind() == program->Ask_0.kind() implies takes_any(
                rest(reply),
                terms_of_verification(),
            ) by {
                match of.commitment(reply) {
                    Some(commit) => lemma_commitments_take(of, n + 1, size, found.push(commit)),
                    None => lemma_commitments_take(of, n + 1, size, found),
                }
            }
        } else {
            lemma_commitments_take(of, n + 1, size, found);
        }
    }
}

proof fn lemma_all_commitments_take(of: Committer)
    ensures
        takes_any(commitments_program(of), terms_of_verification()),
{
    let program = commitments_program(of);
    let rest = program->Ask_2;
    assert forall|reply: Reply|
        #![trigger rest(reply)]
        reply.kind() == program->Ask_0.kind() implies takes_any(
        rest(reply),
        terms_of_verification(),
    ) by {
        lemma_commitments_take(of, 1, reply->Size_0, Seq::empty());
    }
}

/// The rebuilding of the index goes on with any reply.
pub proof fn law_rebuilding_takes_any_reply()
    ensures
        takes_any(index_program(), plain_terms()),
{
    let program = index_program();
    let rest = program->Ask_2;
    assert forall|reply: Reply|
        #![trigger rest(reply)]
        reply.kind() == program->Ask_0.kind() implies takes_any(rest(reply), plain_terms()) by {
        lemma_index_takes(1, reply->Size_0);
    }
}

// ---- validation

proof fn lemma_signatures_take(n: nat, size: u64, count: nat)
    ensures
        takes_any(signatures_from(n, size, count), terms_of_verification()),
    decreases size + 1 - n, 1nat,
{
    if n <= size {
        lemma_signatures_next_take(n, size, count);
        if leaf_at(n) {
            let program = signatures_from(n, size, count);
            let rest = program->Ask_2;
            assert forall|reply: Reply|
                #![trigger rest(reply)]
                reply.kind() == program->Ask_0.kind() implies takes_any(
                rest(reply),
                terms_of_verification(),
            ) by {
                if let Some(kernel) = reply->MaybeKernel_0 {
                    let next = signatures_check(n, size, count, kernel);
                    let later = next->Ask_2;
                    lemma_signatures_next_take(n, size, count + 1);
                    assert forall|reply: Reply|
                        #![trigger later(reply)]
                        reply.kind() == next->Ask_0.kind() implies takes_any(
                        later(reply),
                        terms_of_verification(),
                    ) by {}
                }
            }
        }
    }
}

proof fn lemma_signatures_next_take(n: nat, size: u64, count: nat)
    requires
        n <= size,
    ensures
        takes_any(signatures_next(n, size, count), terms_of_verification()),
    decreases size + 1 - n, 0nat,
{
    lemma_signatures_take(n + 1, size, count);
    if n % 20 == 0 {
        let program = signatures_next(n, size, count);
        let rest = program->Ask_2;
        assert forall|reply: Reply|
            #![trigger rest(reply)]
            reply.kind() == program->Ask_0.kind() implies takes_any(
            rest(reply),
            terms_of_verification(),
        ) by {}
    }
}

proof fn lemma_rangeproofs_take(n: nat, size: u64, count: nat)
    ensures
        takes_any(rangeproofs_from(n, size, count), terms_of_verification()),
    decreases size + 1 - n, 1nat,
{
    if n <= size {
        lemma_rangeproofs_next_take(n, size, count);
        if leaf_at(n) {
            let program = rangeproofs_from(n, size, count);
            let rest = program->Ask_2;
            assert forall|reply: Reply|
                #![trigger rest(reply)]
                reply.kind() == program->Ask_0.kind() implies takes_any(
                rest(reply),
                terms_of_verification(),
            ) by {
                if let Some(id) = reply->MaybeOutput_0 {
                    let reading = rangeproofs_read(n, size, count, id);
                    let found = reading->Ask_2;
                    assert forall|reply: Reply|
                        #![trigger found(reply)]
                        reply.kind() == reading->Ask_0.kind() implies takes_any(
                        found(reply),
                        terms_of_verification(),
                    ) by {
                        if let Some(rproof) = reply->MaybeProof_0 {
                            let next = rangeproofs_check(n, size, count, id, rproof);
                            let later = next->Ask_2;
                            lemma_rangeproofs_next_take(n, size, count + 1);
                            assert forall|reply: Reply|
                                #![trigger later(reply)]
                                reply.kind() == next->Ask_0.kind() implies takes_any(
                                later(reply),
                                terms_of_verification(),
                            ) by {}
                        }
                    }
                }
            }
        }
    }
}

proof fn lemma_rangeproofs_next_take(n: nat, size: u64, count: nat)
    requires
        n <= size,
    ensures
        takes_any(rangeproofs_next(n, size, count), terms_of_verification()),
    decreases size + 1 - n, 0nat,
{
    lemma_rangeproofs_take(n + 1, size, count);
    if n % 20 == 0 {
        let program = rangeproofs_next(n, size, count);
        let rest = program->Ask_2;
        assert forall|reply: Reply|
            #![trigger rest(reply)]
            reply.kind() == program->Ask_0.kind() implies takes_any(
            rest(reply),
            terms_of_verification(),
        ) by {}
    }
}

/// The verification of signatures and of range proofs, the roots and their
/// comparison go on with any reply.
pub proof fn law_verifications_take_any_reply(header: BlockHeader)
    ensures
        takes_any(signatures_program(), terms_of_verification()),
        takes_any(rangeproofs_program(), terms_of_verification()),
        takes_any(roots_program(), terms_of_verification()),
        takes_any(validate_roots_program(header), terms_of_verification()),
{
    let terms = terms_of_verification();
    let signing = signatures_program()->Ask_2;
    assert forall|reply: Reply|
        #![trigger signing(reply)]
        reply is Size implies takes_any(signing(reply), terms) by {
        lemma_signatures_take(1, reply->Size_0, 0);
    }
    let proving = rangeproofs_program()->Ask_2;
    assert forall|reply: Reply|
        #![trigger proving(reply)]
        reply is Size implies takes_any(proving(reply), terms) by {
        lemma_rangeproofs_take(1, reply->Size_0, 0);
    }
    assert(takes_any(roots_program(), terms)) by {
        reveal_with_fuel(takes_any, 4);
    }
    lemma_bind_takes(roots_program(), compare_roots(header), terms);
}

/// A validation goes on with any reply.
pub proof fn law_validations_take_any_reply(header: BlockHeader, skip_rproofs: bool)
    ensures
        takes_any(validate_program(header, skip_rproofs), terms_of_verification()),
{
    let terms = terms_of_verification();
    let skip = skip_rproofs;
    law_verifications_take_any_reply(header);
    lemma_all_commitments_take(Committer::Outputs);
    lemma_all_commitments_take(Committer::Kernels);
    lemma_script_takes(tree_calls(TreeCall::Validate), Fault::Invalid, terms);
    assert forall|outputs: Seq<Commitment>, kernels: Seq<Commitment>| takes_any(
        #[trigger] verify_sums(header, skip, outputs, kernels),
        terms,
    ) by {
        let program = verify_sums(header, skip, outputs, kernels);
        let rest = program->Ask_2;
        assert forall|reply: Reply|
            #![trigger rest(reply)]
            reply.kind() == program->Ask_0.kind() implies takes_any(rest(reply), terms) by {
            if let Ok(sums) = reply->Sums_0 {
                assert forall|verdict: Result<(), Error>| takes_any(
                    #[trigger] after_signatures(skip, sums)(verdict),
                    terms,
                ) by {
                    if verdict is Ok && !skip {
                        lemma_bind_takes(rangeproofs_program(), after_rangeproofs(sums), terms);
                    }
                }
                lemma_bind_takes(signatures_program(), after_signatures(skip, sums), terms);
            }
        }
    }
    assert forall|outputs: Seq<Commitment>| takes_any(
        #[trigger] after_outputs(header, skip)(outputs),
        terms,
    ) by {
        let rest = after_kernels(header, skip, outputs);
        assert forall|kernels: Seq<Commitment>| takes_any(#[trigger] rest(kernels), terms) by {
            assert(takes_any(verify_sums(header, skip, outputs, kernels), terms));
        }
        lemma_bind_takes(commitments_program(Committer::Kernels), rest, terms);
    }
    lemma_bind_takes(
        commitments_program(Committer::Outputs),
        after_outputs(header, skip),
        terms,
    );
    assert(takes_any(zero_sums(), terms)) by {
        reveal_with_fuel(takes_any, 2);
    }
    assert forall|verdict: Result<(), Error>| takes_any(
        #[trigger] after_roots(header, skip)(verdict),
        terms,
    ) by {}
    lemma_bind_takes(validate_roots_program(header), after_roots(header, skip), terms);
    assert forall|verdict: Result<(), Error>| takes_any(
        #[trigger] after_mmrs(header, skip)(verdict),
        terms,
    ) by {}
    lemma_bind_takes(
        script_program(tree_calls(TreeCall::Validate), Fault::Invalid),
        after_mmrs(header, skip),
        terms,
    );
}

/// The verification of maturity goes on with any reply.
pub proof fn law_maturity_takes_any_reply(o: Overlay, inputs: Seq<Input>, height: u64)
    ensures
        takes_any(maturity_program(o, inputs, height), plain_terms()),
    decreases inputs.len(),
{
    let terms = plain_terms();
    if inputs.len() > 0 {
        law_maturity_takes_any_reply(o, inputs.drop_first(), height);
        if inputs[0].coinbase {
            let program = maturity_header(o, inputs, height);
            let rest = program->Ask_2;
            assert forall|reply: Reply|
                #![trigger rest(reply)]
                reply.kind() == program->Ask_0.kind() implies takes_any(rest(reply), terms) by {
                if let Ok(header) = reply->Header_0 {
                    let seeking = maturity_pos(o, inputs, height, header);
                    let found = seeking->Ask_2;
                    assert forall|reply: Reply|
                        #![trigger found(reply)]
                        reply.kind() == seeking->Ask_0.kind() implies takes_any(
                        found(reply),
                        terms,
                    ) by {
                        if let Ok(pos) = reply->Pos_0 {
                            lemma_maturity_hash_takes(o, inputs, height, header, pos);
                        }
                    }
                    if let Some(pos) = o.commits.get(inputs[0].commit) {
                        lemma_maturity_hash_takes(o, inputs, height, header, pos);
                    }
                }
            }
        }
    }
}

proof fn lemma_maturity_hash_takes(
    o: Overlay,
    inputs: Seq<Input>,
    height: u64,
    header: BlockHeader,
    pos: u64,
)
    requires
        inputs.len() > 0,
        takes_any(maturity_program(o, inputs.drop_first(), height), plain_terms()),
    ensures
        takes_any(maturity_hash(o, inputs, height, header, pos), plain_terms()),
{
    let terms = plain_terms();
    let program = maturity_hash(o, inputs, height, header, pos);
    let rest = program->Ask_2;
    assert forall|reply: Reply|
        #![trigger rest(reply)]
        reply.kind() == program->Ask_0.kind() implies takes_any(rest(reply), terms) by {
        if let Some(hash) = reply->MaybeHash_0 {
            let next = maturity_verify(o, inputs, height, header, hash);
            let later = next->Ask_2;
            assert forall|reply: Reply|
                #![trigger later(reply)]
                reply.kind() == next->Ask_0.kind() implies takes_any(later(reply), terms) by {}
        }
    }
}

} // verus!
