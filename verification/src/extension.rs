//! A unit of work on the trees.
use crate::table::{keys_differ, map_of, up_to, Table};
use crate::types::{BlockMarker, Commitment, Error, Hash256, Sizes};
use vstd::prelude::*;

verus! {

/// What a unit of work knows that the chain store does not know yet, and what
/// is to become of it.
pub ghost struct Overlay {
    /// Positions of the outputs that were added.
    pub commits: Map<Commitment, u64>,
    /// Markers of the blocks that were applied.
    pub markers: Map<Hash256, BlockMarker>,
    /// Whether the work will be discarded whatever comes of it.
    pub rollback: bool,
    /// Sizes of the trees when the work began.
    pub base: Sizes,
}

impl Overlay {
    /// The unit of work before anything is done, on trees of the given sizes.
    pub open spec fn fresh(base: Sizes) -> Overlay {
        Overlay { commits: Map::empty(), markers: Map::empty(), rollback: false, base }
    }

    /// After an output was added at a position.
    pub open spec fn with_output(self, commit: Commitment, pos: u64) -> Overlay {
        Overlay { commits: self.commits.insert(commit, pos), ..self }
    }

    /// After a block was applied.
    pub open spec fn with_marker(self, block: Hash256, marker: BlockMarker) -> Overlay {
        Overlay { markers: self.markers.insert(block, marker), ..self }
    }

    /// With other positions of the outputs that were added.
    pub open spec fn with_commits(self, commits: Map<Commitment, u64>) -> Overlay {
        Overlay { commits, ..self }
    }

    /// After the output tree was rewound to a position.
    pub open spec fn rewound(self, pos: u64) -> Overlay {
        Overlay { commits: up_to(self.commits, pos), ..self }
    }
}

/// A table of positions holds no key twice, and positions count from one.
pub open spec fn positions(table: Table<Commitment, u64>) -> bool {
    &&& table.valid()
    &&& forall|commit: Commitment| #[trigger]
        table.map().contains_key(commit) ==> table.map()[commit] >= 1
}

/// Allows the application of new blocks on top of the trees in a reversible
/// manner, within a unit of work provided by [`crate::extending::extending`].
///
/// The trees themselves stay with whoever drives the operations. An operation
/// that changes the extension takes it over and hands it back with its result.
pub struct Extension {
    commits: Table<Commitment, u64>,
    markers: Table<Hash256, BlockMarker>,
    rollback: bool,
    base: Sizes,
}

impl Extension {
    /// The tables hold no key twice, and positions count from one.
    pub closed spec fn valid(self) -> bool {
        &&& positions(self.commits)
        &&& self.markers.valid()
    }

    /// What the unit of work knows.
    pub closed spec fn view(self) -> Overlay {
        Overlay {
            commits: self.commits.map(),
            markers: self.markers.map(),
            rollback: self.rollback,
            base: self.base,
        }
    }

    /// The positions of the added outputs, in the order in which they will be
    /// kept.
    pub closed spec fn commit_entries(self) -> Seq<(Commitment, u64)> {
        self.commits.entries()
    }

    /// The markers of the applied blocks, in the order in which they will be
    /// kept.
    pub closed spec fn marker_entries(self) -> Seq<(Hash256, BlockMarker)> {
        self.markers.entries()
    }

    /// The entries that will be kept are what the unit of work knows.
    pub proof fn lemma_entries(self)
        requires
            self.valid(),
        ensures
            keys_differ(self.commit_entries()),
            map_of(self.commit_entries()) == self@.commits,
            keys_differ(self.marker_entries()),
            map_of(self.marker_entries()) == self@.markers,
    {
    }

    pub(crate) fn fresh(base: Sizes) -> (extension: Extension)
        ensures
            extension.valid(),
            extension@ == Overlay::fresh(base),
    {
        Extension { commits: Table::new(), markers: Table::new(), rollback: false, base }
    }

    /// Forces the rollback of this extension, no matter the result.
    pub fn force_rollback(&mut self)
        requires
            old(self).valid(),
        ensures
            final(self).valid(),
            final(self)@ == (Overlay { rollback: true, ..old(self)@ }),
    {
        self.rollback = true;
    }

    /// Whether the work will be discarded whatever comes of it.
    pub fn is_rollback(&self) -> (rollback: bool)
        ensures
            rollback == self@.rollback,
    {
        self.rollback
    }

    /// Sizes of the trees when the work began: the positions at which they are
    /// opened.
    pub fn base(&self) -> (base: Sizes)
        ensures
            base == self@.base,
    {
        self.base
    }

    pub(crate) fn find(&self, commit: &Commitment) -> (pos: Option<u64>)
        requires
            self.valid(),
        ensures
            pos == self@.commits.get(*commit),
            pos matches Some(at) ==> at >= 1,
    {
        self.commits.get(commit)
    }

    pub(crate) fn note_output(&mut self, commit: Commitment, pos: u64)
        requires
            old(self).valid(),
            pos >= 1,
        ensures
            final(self).valid(),
            final(self)@ == old(self)@.with_output(commit, pos),
    {
        self.commits.insert(commit, pos);
    }

    pub(crate) fn note_block(&mut self, block: Hash256, marker: BlockMarker)
        requires
            old(self).valid(),
        ensures
            final(self).valid(),
            final(self)@ == old(self)@.with_marker(block, marker),
    {
        self.markers.insert(block, marker);
    }

    pub(crate) fn forget_after(&mut self, pos: u64)
        requires
            old(self).valid(),
        ensures
            final(self).valid(),
            final(self)@ == old(self)@.rewound(pos),
    {
        self.commits.keep_up_to(pos);
    }

    /// A copy of the positions of the added outputs, to come back to.
    pub(crate) fn saved_commits(&self) -> (saved: Table<Commitment, u64>)
        requires
            self.valid(),
        ensures
            positions(saved),
            saved.map() == self@.commits,
    {
        self.commits.copy()
    }

    pub(crate) fn restore_commits(&mut self, saved: Table<Commitment, u64>)
        requires
            old(self).valid(),
            positions(saved),
        ensures
            final(self).valid(),
            final(self)@ == old(self)@.with_commits(saved.map()),
    {
        self.commits = saved;
    }

    pub(crate) fn commit_table(&self) -> (table: &Table<Commitment, u64>)
        requires
            self.valid(),
        ensures
            table.valid(),
            table.entries() == self.commit_entries(),
            table.map() == self@.commits,
    {
        &self.commits
    }

    pub(crate) fn marker_table(&self) -> (table: &Table<Hash256, BlockMarker>)
        requires
            self.valid(),
        ensures
            table.valid(),
            table.entries() == self.marker_entries(),
            table.map() == self@.markers,
    {
        &self.markers
    }
}

/// What an operation that took over an extension hands back.
pub struct Outcome<T> {
    pub extension: Extension,
    pub result: Result<T, Error>,
}

impl<T> Outcome<T> {
    /// The mathematical form of the outcome.
    pub open spec fn view(self) -> (Overlay, Result<T, Error>) {
        (self.extension@, self.result)
    }
}

} // verus!
