//! Transactions that are not part of a block, tried on top of the trees.
use crate::apply::Effect;
use crate::bitmap::{
    bitmap_between, bitmap_from_iter, bitmap_values, low_bits, positions_between,
};
use crate::extension::{positions, Extension, Outcome, Overlay};
use crate::program::{bind, lemma_bind, meets, Call, Need, Program, Reply, Request, Run, Step};
use crate::rewind::{rewind_to_program, RewindToRun};
use crate::table::Table;
use crate::tasks::{
    input_items, items_of, items_program, kernel_items, output_items, push_inputs, push_kernels,
    push_outputs, run_tasks, Item, Task, TasksRun,
};
use crate::types::{Commitment, Error, Transaction, Tree};
use croaring::Bitmap;
use vstd::prelude::*;

verus! {

// ---- undoing a transaction

/// Rewinds the trees to the positions that they had before a transaction:
/// everything added to the output tree after `pos` goes, and the positions in
/// `spent` come back.
pub open spec fn rewind_raw_tx_program(
    o: Overlay,
    pos: u64,
    kernel_pos: u64,
    spent: Set<u32>,
) -> Effect {
    Program::Ask(
        Call::Size(Tree::Output),
        Need::BelowMax,
        |reply: Reply|
            rewind_to_program(
                o,
                pos,
                kernel_pos,
                positions_between(pos, reply->Size_0),
                spent,
            ),
    )
}

enum UndoStage {
    Size(Extension, u64, u64, Bitmap),
    To(RewindToRun),
}

/// A transaction that is being undone.
pub struct RewindRawTxRun {
    stage: UndoStage,
}

impl Run for RewindRawTxRun {
    type Out = Outcome<()>;

    type Model = (Overlay, Result<(), Error>);

    open spec fn model(out: Outcome<()>) -> (Overlay, Result<(), Error>) {
        out@
    }

    open spec fn sound(out: Outcome<()>) -> bool {
        out.extension.valid()
    }

    closed spec fn program(&self) -> Effect {
        match self.stage {
            UndoStage::Size(extension, pos, kernel_pos, spent) => rewind_raw_tx_program(
                extension@,
                pos,
                kernel_pos,
                bitmap_values(spent),
            ),
            UndoStage::To(run) => run.program(),
        }
    }

    closed spec fn valid(&self) -> bool {
        match self.stage {
            UndoStage::Size(extension, _, _, _) => extension.valid(),
            UndoStage::To(run) => run.valid(),
        }
    }

    proof fn lemma_waits(&self) {
        if let UndoStage::To(run) = self.stage {
            run.lemma_waits();
        }
    }

    fn request(&self) -> (request: Request<'_>) {
        match &self.stage {
            UndoStage::Size(_, _, _, _) => Request::Size(Tree::Output),
            UndoStage::To(run) => run.request(),
        }
    }

    fn need(&self) -> (need: Need) {
        match &self.stage {
            UndoStage::Size(_, _, _, _) => Need::BelowMax,
            UndoStage::To(run) => run.need(),
        }
    }

    fn resume(self, reply: Reply) -> (step: Step<Self, Outcome<()>>) {
        let step = match self.stage {
            UndoStage::Size(extension, pos, kernel_pos, spent) => {
                let added = bitmap_between(pos, reply.into_size());
                extension.rewind_to_pos(pos, kernel_pos, added, spent)
            },
            UndoStage::To(run) => run.resume(reply),
        };
        match step {
            Step::Running(run) => Step::Running(RewindRawTxRun { stage: UndoStage::To(run) }),
            Step::Done(out) => Step::Done(out),
        }
    }
}

impl Extension {
    /// Rewinds the trees to undo applying a raw transaction. This is used
    /// during the validation of transactions, to undo an invalid one.
    pub fn rewind_raw_tx(self, output_pos: u64, kernel_pos: u64, rewind_rm_pos: Bitmap) -> (step:
        Step<RewindRawTxRun, Outcome<()>>)
        requires
            self.valid(),
            output_pos < u64::MAX,
        ensures
            meets(
                step,
                rewind_raw_tx_program(self@, output_pos, kernel_pos, bitmap_values(rewind_rm_pos)),
            ),
            step is Running,
    {
        Step::Running(
            RewindRawTxRun { stage: UndoStage::Size(self, output_pos, kernel_pos, rewind_rm_pos) },
        )
    }
}

// ---- applying a transaction

/// What a transaction applies, in order: its outputs, its inputs, its kernels.
pub open spec fn tx_items(tx: Transaction) -> Seq<Item> {
    output_items(tx.outputs@) + input_items(tx.inputs@) + kernel_items(tx.kernels@)
}

/// Applies a transaction: takes down the sizes of the trees and the positions
/// of the unspent outputs that it is going to spend, and then applies everything
/// in it. If that fails, the trees are rewound to where they were, and the unit
/// of work knows what it knew.
pub open spec fn raw_tx_program(o: Overlay, tx: Transaction) -> Effect {
    Program::Ask(
        Call::Size(Tree::Output),
        Need::BelowMax,
        |reply: Reply| raw_tx_sized(o, tx, reply->Size_0),
    )
}

pub open spec fn raw_tx_sized(o: Overlay, tx: Transaction, pos: u64) -> Effect {
    Program::Ask(
        Call::Size(Tree::Kernel),
        Need::Any,
        |reply: Reply| raw_tx_spent(o, tx, pos, reply->Size_0, 0, Set::empty()),
    )
}

/// Takes down the positions of the inputs from the one at `i` on. An input
/// without a position is passed over (nothing is at position zero), and so is
/// one whose output is not unspent: it is not for this transaction to bring that
/// back.
pub open spec fn raw_tx_spent(
    o: Overlay,
    tx: Transaction,
    pos: u64,
    kernel_pos: u64,
    i: nat,
    spent: Set<u32>,
) -> Effect
    decreases tx.inputs@.len() - i, 0nat,
{
    if i >= tx.inputs@.len() {
        bind(
            items_program(o, tx_items(tx)),
            after_tx_items(o.commits, pos, kernel_pos, spent),
        )
    } else {
        match o.commits.get(tx.inputs@[i as int].commit) {
            Some(at) => raw_tx_read(o, tx, pos, kernel_pos, i, spent, at),
            None => raw_tx_lookup(o, tx, pos, kernel_pos, i, spent),
        }
    }
}

pub open spec fn raw_tx_lookup(
    o: Overlay,
    tx: Transaction,
    pos: u64,
    kernel_pos: u64,
    i: nat,
    spent: Set<u32>,
) -> Effect
    decreases tx.inputs@.len() - i - 1, 2nat,
    when i < tx.inputs@.len()
{
    Program::Ask(
        Call::OutputPos(tx.inputs@[i as int].commit),
        Need::Any,
        |reply: Reply|
            match reply->Pos_0 {
                Ok(at) => if at == 0 {
                    raw_tx_spent(o, tx, pos, kernel_pos, i + 1, spent)
                } else {
                    raw_tx_read(o, tx, pos, kernel_pos, i, spent, at)
                },
                Err(_) => raw_tx_spent(o, tx, pos, kernel_pos, i + 1, spent),
            },
    )
}

pub open spec fn raw_tx_read(
    o: Overlay,
    tx: Transaction,
    pos: u64,
    kernel_pos: u64,
    i: nat,
    spent: Set<u32>,
    at: u64,
) -> Effect
    decreases tx.inputs@.len() - i - 1, 1nat,
    when i < tx.inputs@.len()
{
    Program::Ask(
        Call::OutputData(at),
        Need::Any,
        |reply: Reply|
            match reply->MaybeOutput_0 {
                Some(_) => raw_tx_spent(o, tx, pos, kernel_pos, i + 1, spent.insert(low_bits(at))),
                None => raw_tx_spent(o, tx, pos, kernel_pos, i + 1, spent),
            },
    )
}

/// What follows the items of a transaction, given what the unit of work knew of
/// outputs before them.
pub open spec fn after_tx_items(
    commits: Map<Commitment, u64>,
    pos: u64,
    kernel_pos: u64,
    spent: Set<u32>,
) -> spec_fn((Overlay, Result<(), Error>)) -> Effect {
    |done: (Overlay, Result<(), Error>)|
        match done.1 {
            Ok(_) => Program::Ret(done),
            Err(e) => bind(
                rewind_raw_tx_program(done.0, pos, kernel_pos, spent),
                after_undo(commits, e),
            ),
        }
}

pub open spec fn after_undo(commits: Map<Commitment, u64>, e: Error) -> spec_fn(
    (Overlay, Result<(), Error>),
) -> Effect {
    |done: (Overlay, Result<(), Error>)|
        match done.1 {
            Ok(_) => Program::Ret((done.0.with_commits(commits), Err(e))),
            Err(_) => Program::Ret(done),
        }
}

enum RawTxStage<'a> {
    OutputSize(Extension),
    KernelSize(Extension, u64),
    Lookup(Extension, u64, u64, usize, Vec<u32>),
    Read(Extension, u64, u64, usize, Vec<u32>, u64),
    Items(Table<Commitment, u64>, u64, u64, Bitmap, TasksRun<'a>),
    Undo(Table<Commitment, u64>, Error, RewindRawTxRun),
}

/// A transaction under way into the trees.
pub struct RawTxRun<'a> {
    tx: &'a Transaction,
    stage: RawTxStage<'a>,
}

proof fn lemma_push_to_set(values: Seq<u32>, value: u32)
    ensures
        values.push(value).to_set() == values.to_set().insert(value),
{
    let after = values.push(value);
    assert forall|x: u32| after.to_set().contains(x) == values.to_set().insert(value).contains(x) by {
        if values.contains(x) {
            let i = choose|i: int| 0 <= i < values.len() && values[i] == x;
            assert(after[i] == x);
        }
        assert(after[values.len() as int] == value);
        if after.contains(x) && x != value {
            let i = choose|i: int| 0 <= i < after.len() && after[i] == x;
            assert(values[i] == x);
        }
    }
    assert(after.to_set() =~= values.to_set().insert(value));
}

impl<'a> RawTxRun<'a> {
    spec fn here(&self) -> Effect {
        match self.stage {
            RawTxStage::OutputSize(extension) => raw_tx_program(extension@, *self.tx),
            RawTxStage::KernelSize(extension, pos) => raw_tx_sized(extension@, *self.tx, pos),
            RawTxStage::Lookup(extension, pos, kernel_pos, i, spent) => raw_tx_lookup(
                extension@,
                *self.tx,
                pos,
                kernel_pos,
                i as nat,
                spent@.to_set(),
            ),
            RawTxStage::Read(extension, pos, kernel_pos, i, spent, at) => raw_tx_read(
                extension@,
                *self.tx,
                pos,
                kernel_pos,
                i as nat,
                spent@.to_set(),
                at,
            ),
            RawTxStage::Items(saved, pos, kernel_pos, spent, run) => bind(
                run.program(),
                after_tx_items(saved.map(), pos, kernel_pos, bitmap_values(spent)),
            ),
            RawTxStage::Undo(saved, e, run) => bind(run.program(), after_undo(saved.map(), e)),
        }
    }

    spec fn good(&self) -> bool {
        match self.stage {
            RawTxStage::OutputSize(extension) => extension.valid(),
            RawTxStage::KernelSize(extension, pos) => extension.valid() && pos < u64::MAX,
            RawTxStage::Lookup(extension, pos, _, i, _) => extension.valid() && pos < u64::MAX && i
                < self.tx.inputs@.len(),
            RawTxStage::Read(extension, pos, _, i, _, _) => extension.valid() && pos < u64::MAX && i
                < self.tx.inputs@.len(),
            RawTxStage::Items(saved, pos, _, _, run) => positions(saved) && run.valid() && pos
                < u64::MAX,
            RawTxStage::Undo(saved, _, run) => positions(saved) && run.valid(),
        }
    }

    spec fn fits(step: Step<Self, Outcome<()>>, program: Effect) -> bool {
        match step {
            Step::Running(run) => run.good() && run.here() == program && program.waits(),
            Step::Done(out) => out.extension.valid() && program == Program::Ret(out@),
        }
    }

    proof fn lemma_inner(&self)
        requires
            self.good(),
        ensures
            self.here().waits(),
            self.stage matches RawTxStage::Items(saved, pos, kernel_pos, spent, run) ==> {
                &&& run.program().waits()
                &&& self.here().call() == run.program().call()
                &&& self.here().need() == run.program().need()
                &&& forall|reply: Reply| #[trigger]
                    self.here().next(reply) == bind(
                        run.program().next(reply),
                        after_tx_items(saved.map(), pos, kernel_pos, bitmap_values(spent)),
                    )
            },
            self.stage matches RawTxStage::Undo(saved, e, run) ==> {
                &&& run.program().waits()
                &&& self.here().call() == run.program().call()
                &&& self.here().need() == run.program().need()
                &&& forall|reply: Reply| #[trigger]
                    self.here().next(reply) == bind(
                        run.program().next(reply),
                        after_undo(saved.map(), e),
                    )
            },
    {
        match self.stage {
            RawTxStage::Items(saved, pos, kernel_pos, spent, run) => {
                run.lemma_waits();
                lemma_bind(
                    run.program(),
                    after_tx_items(saved.map(), pos, kernel_pos, bitmap_values(spent)),
                );
            },
            RawTxStage::Undo(saved, e, run) => {
                run.lemma_waits();
                lemma_bind(run.program(), after_undo(saved.map(), e));
            },
            _ => {},
        }
    }

    fn look_up(
        tx: &'a Transaction,
        extension: Extension,
        pos: u64,
        kernel_pos: u64,
        first: usize,
        known: Vec<u32>,
    ) -> (step: Step<Self, Outcome<()>>)
        requires
            extension.valid(),
            pos < u64::MAX,
            first <= tx.inputs@.len(),
        ensures
            Self::fits(
                step,
                raw_tx_spent(
                    extension@,
                    *tx,
                    pos,
                    kernel_pos,
                    first as nat,
                    known@.to_set(),
                ),
            ),
    {
        if first < tx.inputs.len() {
            let stage = match extension.find(&tx.inputs[first].commit) {
                Some(at) => RawTxStage::Read(extension, pos, kernel_pos, first, known, at),
                None => RawTxStage::Lookup(extension, pos, kernel_pos, first, known),
            };
            return Step::Running(RawTxRun { tx, stage });
        }
        let spent = bitmap_from_iter(known);
        let saved = extension.saved_commits();
        let mut tasks: Vec<Task<'a>> = Vec::new();
        push_outputs(&mut tasks, &tx.outputs);
        push_inputs(&mut tasks, &tx.inputs);
        push_kernels(&mut tasks, &tx.kernels);
        assert(items_of(tasks@) =~= tx_items(*tx));
        match run_tasks(extension, tasks) {
            Step::Running(run) => Step::Running(
                RawTxRun { tx, stage: RawTxStage::Items(saved, pos, kernel_pos, spent, run) },
            ),
            Step::Done(out) => Self::finish_items(tx, saved, pos, kernel_pos, spent, out),
        }
    }

    fn finish_items(
        tx: &'a Transaction,
        saved: Table<Commitment, u64>,
        pos: u64,
        kernel_pos: u64,
        spent: Bitmap,
        out: Outcome<()>,
    ) -> (step: Step<Self, Outcome<()>>)
        requires
            positions(saved),
            out.extension.valid(),
            pos < u64::MAX,
        ensures
            Self::fits(
                step,
                after_tx_items(saved.map(), pos, kernel_pos, bitmap_values(spent))(out@),
            ),
    {
        match out.result {
            Ok(_) => Step::Done(out),
            Err(e) => match out.extension.rewind_raw_tx(pos, kernel_pos, spent) {
                Step::Running(run) => Step::Running(
                    RawTxRun { tx, stage: RawTxStage::Undo(saved, e, run) },
                ),
                Step::Done(_) => unreached(),
            },
        }
    }

    fn begin(extension: Extension, tx: &'a Transaction) -> (run: Self)
        requires
            extension.valid(),
        ensures
            run.good(),
            run.here() == raw_tx_program(extension@, *tx),
    {
        RawTxRun { tx, stage: RawTxStage::OutputSize(extension) }
    }
}

impl<'a> Run for RawTxRun<'a> {
    type Out = Outcome<()>;

    type Model = (Overlay, Result<(), Error>);

    open spec fn model(out: Outcome<()>) -> (Overlay, Result<(), Error>) {
        out@
    }

    open spec fn sound(out: Outcome<()>) -> bool {
        out.extension.valid()
    }

    closed spec fn program(&self) -> Effect {
        self.here()
    }

    closed spec fn valid(&self) -> bool {
        self.good()
    }

    proof fn lemma_waits(&self) {
        self.lemma_inner();
    }

    fn request(&self) -> (request: Request<'_>) {
        proof {
            self.lemma_inner();
        }
        match &self.stage {
            RawTxStage::OutputSize(_) => Request::Size(Tree::Output),
            RawTxStage::KernelSize(_, _) => Request::Size(Tree::Kernel),
            RawTxStage::Lookup(_, _, _, i, _) => Request::OutputPos(self.tx.inputs[*i].commit),
            RawTxStage::Read(_, _, _, _, _, at) => Request::OutputData(*at),
            RawTxStage::Items(_, _, _, _, run) => run.request(),
            RawTxStage::Undo(_, _, run) => run.request(),
        }
    }

    fn need(&self) -> (need: Need) {
        proof {
            self.lemma_inner();
        }
        match &self.stage {
            RawTxStage::OutputSize(_) => Need::BelowMax,
            RawTxStage::Items(_, _, _, _, run) => run.need(),
            RawTxStage::Undo(_, _, run) => run.need(),
            _ => Need::Any,
        }
    }

    fn resume(self, reply: Reply) -> (step: Step<Self, Outcome<()>>) {
        proof {
            self.lemma_inner();
        }
        let tx = self.tx;
        match self.stage {
            RawTxStage::OutputSize(extension) => Step::Running(
                RawTxRun { tx, stage: RawTxStage::KernelSize(extension, reply.into_size()) },
            ),
            RawTxStage::KernelSize(extension, pos) => {
                let spent: Vec<u32> = Vec::new();
                assert(spent@.to_set() =~= Set::<u32>::empty());
                Self::look_up(tx, extension, pos, reply.into_size(), 0, spent)
            },
            RawTxStage::Lookup(extension, pos, kernel_pos, i, spent) => {
                assert(i < tx.inputs.len());
                match reply.into_pos() {
                    Ok(at) => if at == 0 {
                        Self::look_up(tx, extension, pos, kernel_pos, i + 1, spent)
                    } else {
                        Step::Running(
                            RawTxRun {
                                tx,
                                stage: RawTxStage::Read(extension, pos, kernel_pos, i, spent, at),
                            },
                        )
                    },
                    Err(_) => Self::look_up(tx, extension, pos, kernel_pos, i + 1, spent),
                }
            },
            RawTxStage::Read(extension, pos, kernel_pos, i, spent, at) => {
                let mut spent = spent;
                assert(i < tx.inputs.len());
                if reply.into_maybe_output().is_some() {
                    proof {
                        lemma_push_to_set(spent@, low_bits(at));
                    }
                    spent.push(#[verifier::truncate] (at as u32));
                }
                Self::look_up(tx, extension, pos, kernel_pos, i + 1, spent)
            },
            RawTxStage::Items(saved, pos, kernel_pos, spent, run) => match run.resume(reply) {
                Step::Running(run) => Step::Running(
                    RawTxRun { tx, stage: RawTxStage::Items(saved, pos, kernel_pos, spent, run) },
                ),
                Step::Done(out) => Self::finish_items(tx, saved, pos, kernel_pos, spent, out),
            },
            RawTxStage::Undo(saved, e, run) => match run.resume(reply) {
                Step::Running(run) => Step::Running(
                    RawTxRun { tx, stage: RawTxStage::Undo(saved, e, run) },
                ),
                Step::Done(out) => match out.result {
                    Ok(_) => {
                        let mut extension = out.extension;
                        extension.restore_commits(saved);
                        Step::Done(Outcome { extension, result: Err(e) })
                    },
                    Err(_) => Step::Done(out),
                },
            },
        }
    }
}

impl Extension {
    /// Applies a "raw" transaction to the trees.
    ///
    /// An extension that includes raw transactions is never committed: only one
    /// that is going to be rolled back takes them. They serve to validate the
    /// transactions of the pool: if a transaction can be added to the pool and
    /// the aggregate of the pool can be applied to the current chain state,
    /// then the pool is valid, the new transaction included.
    ///
    /// A transaction that fails is undone, and only that one: outputs that were
    /// spent before it stay spent, and outputs that were added before it stay
    /// known.
    pub fn apply_raw_tx<'a>(self, tx: &'a Transaction) -> (step: Step<RawTxRun<'a>, Outcome<()>>)
        requires
            self.valid(),
            self@.rollback,
        ensures
            meets(step, raw_tx_program(self@, *tx)),
    {
        Step::Running(RawTxRun::begin(self, tx))
    }
}

// ---- validating transactions

/// A dialogue that ends with a list of transactions.
pub type Selection = Program<(Overlay, Result<Seq<Transaction>, Error>)>;

/// Applies transactions in turn and selects those that could be applied, after
/// those in `selected`.
pub open spec fn txs_program(
    o: Overlay,
    txs: Seq<Transaction>,
    selected: Seq<Transaction>,
) -> Selection
    decreases txs.len(), 0nat,
{
    if txs.len() == 0 {
        Program::Ret((o, Ok(selected)))
    } else {
        bind(raw_tx_program(o, txs[0]), after_tx(txs[0], txs.drop_first(), selected))
    }
}

pub open spec fn after_tx(
    tx: Transaction,
    rest: Seq<Transaction>,
    selected: Seq<Transaction>,
) -> spec_fn((Overlay, Result<(), Error>)) -> Selection
    decreases rest.len(), 1nat,
{
    |done: (Overlay, Result<(), Error>)|
        match done.1 {
            Ok(_) => txs_program(done.0, rest, selected.push(tx)),
            Err(_) => txs_program(done.0, rest, selected),
        }
}

/// Applies a first transaction, if there is one, which has to succeed, and then
/// selects from a list of transactions those that can be applied.
pub open spec fn validate_txs_program(
    o: Overlay,
    txs: Seq<Transaction>,
    pre_tx: Option<Transaction>,
) -> Selection {
    match pre_tx {
        Some(tx) => bind(raw_tx_program(o, tx), after_pre_tx(txs)),
        None => txs_program(o, txs, Seq::empty()),
    }
}

pub open spec fn after_pre_tx(txs: Seq<Transaction>) -> spec_fn(
    (Overlay, Result<(), Error>),
) -> Selection {
    |done: (Overlay, Result<(), Error>)|
        match done.1 {
            Ok(_) => txs_program(done.0, txs, Seq::empty()),
            Err(e) => Program::Ret((done.0, Err(e))),
        }
}

/// The transactions that a list of references stands for.
pub open spec fn txs_of(txs: Seq<&Transaction>) -> Seq<Transaction> {
    txs.map_values(|tx: &Transaction| *tx)
}

/// The mathematical form of a selection.
pub open spec fn selection_of(out: Outcome<Vec<&Transaction>>) -> (
    Overlay,
    Result<Seq<Transaction>, Error>,
) {
    (
        out.extension@,
        match out.result {
            Ok(txs) => Ok(txs_of(txs@)),
            Err(e) => Err(e),
        },
    )
}

/// Transactions under validation.
pub struct RawTxsRun<'a> {
    txs: &'a Vec<Transaction>,
    /// The place of the transaction that is tried, or nothing while the
    /// transaction before all others is.
    trying: Option<usize>,
    selected: Vec<&'a Transaction>,
    run: RawTxRun<'a>,
}

impl<'a> RawTxsRun<'a> {
    spec fn later(&self) -> spec_fn((Overlay, Result<(), Error>)) -> Selection {
        match self.trying {
            Some(i) => after_tx(
                self.txs@[i as int],
                self.txs@.skip(i + 1),
                txs_of(self.selected@),
            ),
            None => after_pre_tx(self.txs@),
        }
    }

    spec fn here(&self) -> Selection {
        bind(self.run.program(), self.later())
    }

    spec fn good(&self) -> bool {
        &&& self.run.valid()
        &&& match self.trying {
            Some(i) => i < self.txs@.len(),
            None => self.selected@.len() == 0,
        }
    }

    spec fn fits(step: Step<Self, Outcome<Vec<&'a Transaction>>>, program: Selection) -> bool {
        match step {
            Step::Running(run) => run.good() && run.here() == program && program.waits(),
            Step::Done(out) => out.extension.valid() && program == Program::Ret(selection_of(out)),
        }
    }

    fn go_on(
        extension: Extension,
        txs: &'a Vec<Transaction>,
        next: usize,
        selected: Vec<&'a Transaction>,
    ) -> (step: Step<Self, Outcome<Vec<&'a Transaction>>>)
        requires
            extension.valid(),
            next <= txs@.len(),
        ensures
            Self::fits(
                step,
                txs_program(extension@, txs@.skip(next as int), txs_of(selected@)),
            ),
    {
        if next == txs.len() {
            return Step::Done(Outcome { extension, result: Ok(selected) });
        }
        proof {
            let rest = txs@.skip(next as int);
            assert(rest[0] == txs@[next as int]);
            assert(rest.drop_first() =~= txs@.skip(next + 1));
        }
        let run = RawTxRun::begin(extension, &txs[next]);
        Step::Running(RawTxsRun { txs, trying: Some(next), selected, run })
    }
}

impl<'a> Run for RawTxsRun<'a> {
    type Out = Outcome<Vec<&'a Transaction>>;

    type Model = (Overlay, Result<Seq<Transaction>, Error>);

    open spec fn model(out: Outcome<Vec<&'a Transaction>>) -> (
        Overlay,
        Result<Seq<Transaction>, Error>,
    ) {
        selection_of(out)
    }

    open spec fn sound(out: Outcome<Vec<&'a Transaction>>) -> bool {
        out.extension.valid()
    }

    closed spec fn program(&self) -> Selection {
        self.here()
    }

    closed spec fn valid(&self) -> bool {
        self.good()
    }

    proof fn lemma_waits(&self) {
        self.run.lemma_waits();
        lemma_bind(self.run.program(), self.later());
    }

    fn request(&self) -> (request: Request<'_>) {
        proof {
            self.run.lemma_waits();
            lemma_bind(self.run.program(), self.later());
        }
        self.run.request()
    }

    fn need(&self) -> (need: Need) {
        proof {
            self.run.lemma_waits();
            lemma_bind(self.run.program(), self.later());
        }
        self.run.need()
    }

    fn resume(self, reply: Reply) -> (step: Step<Self, Outcome<Vec<&'a Transaction>>>) {
        proof {
            self.run.lemma_waits();
            lemma_bind(self.run.program(), self.later());
        }
        let txs = self.txs;
        let mut selected = self.selected;
        match self.run.resume(reply) {
            Step::Running(run) => Step::Running(
                RawTxsRun { txs, trying: self.trying, selected, run },
            ),
            Step::Done(out) => match self.trying {
                Some(i) => {
                    assert(i < txs.len());
                    if out.result.is_ok() {
                        let ghost before = selected@;
                        selected.push(&txs[i]);
                        assert(txs_of(selected@) =~= txs_of(before).push(txs@[i as int]));
                    }
                    Self::go_on(out.extension, txs, i + 1, selected)
                },
                None => match out.result {
                    Ok(_) => {
                        assert(txs@.skip(0) =~= txs@);
                        assert(txs_of(selected@) =~= Seq::empty());
                        Self::go_on(out.extension, txs, 0, selected)
                    },
                    Err(e) => Step::Done(Outcome { extension: out.extension, result: Err(e) }),
                },
            },
        }
    }
}

impl Extension {
    /// Validates a list of "raw" transactions against the current chain state.
    ///
    /// Each transaction is applied in turn. One that is not valid is rewound,
    /// and the next one is tried. The result is the list of those that were
    /// applied.
    ///
    /// `pre_tx` is applied before all others and has to be valid. When the
    /// stem pool is validated it is the aggregate of the transaction pool, so
    /// that the transactions of the pool are accounted for.
    pub fn validate_raw_txs<'a>(
        self,
        txs: &'a Vec<Transaction>,
        pre_tx: Option<&'a Transaction>,
    ) -> (step: Step<RawTxsRun<'a>, Outcome<Vec<&'a Transaction>>>)
        requires
            self.valid(),
            self@.rollback || (txs@.len() == 0 && pre_tx is None),
        ensures
            meets(
                step,
                validate_txs_program(
                    self@,
                    txs@,
                    match pre_tx {
                        Some(tx) => Some(*tx),
                        None => None,
                    },
                ),
            ),
    {
        let selected: Vec<&'a Transaction> = Vec::new();
        match pre_tx {
            Some(tx) => Step::Running(
                RawTxsRun { txs, trying: None, selected, run: RawTxRun::begin(self, tx) },
            ),
            None => {
                assert(txs@.skip(0) =~= txs@);
                assert(txs_of(selected@) =~= Seq::empty());
                RawTxsRun::go_on(self, txs, 0, selected)
            },
        }
    }
}

} // verus!
