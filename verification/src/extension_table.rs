use vstd::prelude::*;
use crate::dependency_set::{DependencySetFactory, PermanentDependencySet};
use crate::object::TableauObject;
use crate::tuple_index::{
    has_prefix, indexed_after, is_block_start, is_insert_position, key_path, selected_path, selection_bound,
    keys_of, lemma_remove_after_indexing, without_path, EdgeKey, TupleIndex, TupleIndexRetrieval,
    NONE,
};
use crate::tuple_table::{TupleTable, PAGE_SIZE};

verus! {

/// The part of a table that a retrieval ranges over.
#[derive(Clone, Copy, Debug, PartialEq, Eq, Structural, Hash)]
pub enum ExtensionView {
    ExtensionThis,
    ExtensionOld,
    DeltaOld,
    Total,
}

/// The outcome of storing a tuple: where it was added, or where it already was.
#[derive(Clone, Copy, Debug, PartialEq, Eq, Structural, Hash)]
pub enum StoreOutcome {
    Added(usize),
    AlreadyPresent(usize),
}

/// The assertions of a tableau run of one arity: tuples are appended, indexed
/// by tries, and removed again from the end when the run backtracks. Each
/// tuple may carry a dependency set and a core flag.
pub struct ExtensionTable {
    arity: usize,
    tuple_table: TupleTable<TableauObject>,
    needs_dependency_sets: bool,
    tuple_indexes: Vec<TupleIndex<TableauObject>>,
    dependency_sets: Vec<Option<PermanentDependencySet>>,
    core_flags: Vec<bool>,
    is_real_core: bool,
    after_extension_old: usize,
    after_extension_this: usize,
    after_delta_new: usize,
    indices_by_branching_point: Vec<usize>,
}

/// The number of leading columns of `sequence` that `binding_positions` binds.
pub open spec fn bound_prefix_len(sequence: Seq<usize>, binding_positions: Seq<i32>, n: int) -> nat
    decreases n,
{
    if n <= 0 || n > sequence.len() {
        0
    } else if bound_prefix_len(sequence, binding_positions, n - 1) == n - 1
        && binding_positions[sequence[n - 1] as int] != -1 {
        n as nat
    } else {
        bound_prefix_len(sequence, binding_positions, n - 1)
    }
}

/// The index with the longest bound prefix among indexes `k..`, scanned from
/// the last one down, a later one kept on ties, with that length; `-1` and
/// `0` when none binds a column.
pub open spec fn best_index(sequences: Seq<Seq<usize>>, binding_positions: Seq<i32>, k: int) -> (
    int,
    nat,
)
    decreases sequences.len() - k,
{
    if k < 0 || k >= sequences.len() {
        (-1, 0)
    } else {
        let rest = best_index(sequences, binding_positions, k + 1);
        let l = bound_prefix_len(sequences[k], binding_positions, sequences[k].len() as int);
        if l > rest.1 {
            (k, l)
        } else {
            rest
        }
    }
}

/// The tuple indices recorded from position `j` on while the key paths start
/// with `r`, keeping those in `[first, after_last)`.
pub open spec fn collected(
    entries: Seq<(Seq<u64>, i32)>,
    r: Seq<u64>,
    first: int,
    after_last: int,
    j: int,
) -> Seq<usize>
    decreases entries.len() - j,
{
    if j < 0 || j >= entries.len() || !has_prefix(entries[j].0, r) {
        Seq::empty()
    } else {
        let v = entries[j].1;
        (if 0 <= v && first <= v < after_last {
            seq![v as usize]
        } else {
            Seq::empty()
        }) + collected(entries, r, first, after_last, j + 1)
    }
}

impl ExtensionTable {
    pub closed spec fn spec_arity(&self) -> nat {
        self.arity as nat
    }

    pub closed spec fn table(&self) -> TupleTable<TableauObject> {
        self.tuple_table
    }

    pub closed spec fn indexes(&self) -> Seq<TupleIndex<TableauObject>> {
        self.tuple_indexes@
    }

    pub closed spec fn dependency_sets(&self) -> Seq<Option<PermanentDependencySet>> {
        self.dependency_sets@
    }

    pub closed spec fn core_flags(&self) -> Seq<bool> {
        self.core_flags@
    }

    pub closed spec fn keeps_dependency_sets(&self) -> bool {
        self.needs_dependency_sets
    }

    pub closed spec fn keeps_core_flags(&self) -> bool {
        self.is_real_core
    }

    /// The ends of the old extension, of this extension and of the new delta.
    pub closed spec fn marks(&self) -> (nat, nat, nat) {
        (
            self.after_extension_old as nat,
            self.after_extension_this as nat,
            self.after_delta_new as nat,
        )
    }

    /// The marks saved at each branching point, three per level.
    pub closed spec fn saved_marks(&self) -> Seq<usize> {
        self.indices_by_branching_point@
    }

    /// `self` is `other` but for the core flags.
    pub closed spec fn agrees_but_core_flags(&self, other: Self) -> bool {
        *self == (ExtensionTable { core_flags: self.core_flags, ..other })
    }

    /// `self` is `other` but for the three marks.
    pub closed spec fn agrees_but_marks(&self, other: Self) -> bool {
        *self == (ExtensionTable {
            after_extension_old: self.after_extension_old,
            after_extension_this: self.after_extension_this,
            after_delta_new: self.after_delta_new,
            ..other
        })
    }

    /// `self` is `other` but for the saved marks.
    pub closed spec fn agrees_but_saved_marks(&self, other: Self) -> bool {
        *self == (ExtensionTable { indices_by_branching_point: self.indices_by_branching_point, ..other })
    }

    /// The tuple table and every index are well formed, the indexes read
    /// columns of the tuples, and the primary index exists.
    pub closed spec fn wf(&self) -> bool {
        &&& self.arity > 0
        &&& self.tuple_table.wf()
        &&& self.tuple_table.spec_arity() == self.arity
        &&& self.tuple_indexes@.len() >= 1
        &&& forall|k: int|
            0 <= k < self.tuple_indexes@.len() ==> (#[trigger] self.tuple_indexes@[k]).wf()
                && forall|j: int|
                0 <= j < self.tuple_indexes@[k].spec_indexing_sequence().len()
                    ==> #[trigger] self.tuple_indexes@[k].spec_indexing_sequence()[j] < self.arity
        &&& forall|k: int|
            0 <= k < self.tuple_indexes@.len() ==> nonnegative_indices(
                #[trigger] self.tuple_indexes@[k].entries(),
            )
    }

    /// Object `c` of a stored tuple `t` lies in a filled slot, which holds
    /// that object.
    pub proof fn lemma_stored_object(&self, t: int, c: int)
        requires
            self.wf(),
            occupied(self.table(), t),
            0 <= c < self.spec_arity(),
        ensures
            self.table().slot_of(t, c) < self.table().slots().len(),
            self.table().slots()[self.table().slot_of(t, c)] is Some,
            stored_tuple(self.table(), t)[c] == self.table().slots()[self.table().slot_of(t, c)]->Some_0,
    {
        let a = self.spec_arity() as int;
        assert(t * a + c < (t + 1) * a) by (nonlinear_arith)
            requires
                0 <= c < a,
                t >= 0,
        ;
        assert(self.table().slots()[t * a + c] is Some);
    }

    /// A table that agrees with `other` but for the core flags has its
    /// tuples, indexes, dependency sets, settings and marks.
    pub proof fn lemma_agrees_but_core_flags(&self, other: Self)
        requires
            self.agrees_but_core_flags(other),
        ensures
            self.spec_arity() == other.spec_arity(),
            self.table() == other.table(),
            self.indexes() == other.indexes(),
            self.dependency_sets() == other.dependency_sets(),
            self.keeps_dependency_sets() == other.keeps_dependency_sets(),
            self.keeps_core_flags() == other.keeps_core_flags(),
            self.marks() == other.marks(),
            self.saved_marks() == other.saved_marks(),
            self.wf() == other.wf(),
    {
    }

    /// A table that agrees with `other` but for the three marks has its
    /// tuples, indexes, dependency sets, core flags, settings and saved marks.
    pub proof fn lemma_agrees_but_marks(&self, other: Self)
        requires
            self.agrees_but_marks(other),
        ensures
            self.spec_arity() == other.spec_arity(),
            self.table() == other.table(),
            self.indexes() == other.indexes(),
            self.dependency_sets() == other.dependency_sets(),
            self.core_flags() == other.core_flags(),
            self.keeps_dependency_sets() == other.keeps_dependency_sets(),
            self.keeps_core_flags() == other.keeps_core_flags(),
            self.saved_marks() == other.saved_marks(),
            self.wf() == other.wf(),
    {
    }

    /// A table that agrees with `other` but for the saved marks has its
    /// tuples, indexes, dependency sets, core flags, settings and marks.
    pub proof fn lemma_agrees_but_saved_marks(&self, other: Self)
        requires
            self.agrees_but_saved_marks(other),
        ensures
            self.spec_arity() == other.spec_arity(),
            self.table() == other.table(),
            self.indexes() == other.indexes(),
            self.dependency_sets() == other.dependency_sets(),
            self.core_flags() == other.core_flags(),
            self.keeps_dependency_sets() == other.keeps_dependency_sets(),
            self.keeps_core_flags() == other.keeps_core_flags(),
            self.marks() == other.marks(),
            self.wf() == other.wf(),
    {
    }

    /// The marks are the table's own `usize` counters.
    pub proof fn lemma_marks_fit(&self)
        ensures
            self.marks().0 <= usize::MAX,
            self.marks().1 <= usize::MAX,
            self.marks().2 <= usize::MAX,
    {
    }

    /// The table holds nothing: no tuple (its slots all empty), empty indexes
    /// of a single root node each, no dependency sets or core flags, and all
    /// marks, current and saved, at zero.
    pub open spec fn is_fresh(&self) -> bool {
        &&& self.table().first_free() == 0
        &&& self.table().slots() == Seq::new((self.spec_arity() * PAGE_SIZE) as nat, |i: int| None::<TableauObject>)
        &&& forall|k: int|
            0 <= k < self.indexes().len() ==> (#[trigger] self.indexes()[k]).entries().len() == 0
                && self.indexes()[k].key_paths().len() == 0 && self.indexes()[k].node_count() == 1
        &&& self.dependency_sets().len() == 0
        &&& self.core_flags().len() == 0
        &&& self.marks() == (0nat, 0nat, 0nat)
        &&& self.saved_marks() == seq![0usize, 0usize, 0usize, 0usize, 0usize, 0usize]
    }

    /// The first `n` indexing sequences are proper: non-empty and naming
    /// columns below `arity`.
    pub open spec fn proper_sequences(sequences: Seq<Vec<usize>>, arity: nat) -> bool {
        forall|k: int|
            0 <= k < sequences.len() ==> (#[trigger] sequences[k])@.len() >= 1 && forall|j: int|
                0 <= j < sequences[k]@.len() ==> #[trigger] sequences[k]@[j] < arity
    }

    pub fn new(
        arity: usize,
        needs_dependency_sets: bool,
        indexing_sequences: Vec<Vec<usize>>,
        is_real_core: bool,
    ) -> (r: ExtensionTable)
        requires
            arity > 0,
            arity * PAGE_SIZE <= usize::MAX,
            indexing_sequences@.len() >= 1,
            Self::proper_sequences(indexing_sequences@, arity as nat),
        ensures
            r.wf(),
            r.spec_arity() == arity,
            r.table().first_free() == 0,
            r.indexes().len() == indexing_sequences@.len(),
            forall|k: int|
                0 <= k < indexing_sequences@.len() ==> (#[trigger] r.indexes()[k]).spec_indexing_sequence()
                    == indexing_sequences@[k]@ && r.indexes()[k].entries().len() == 0,
            r.keeps_dependency_sets() == needs_dependency_sets,
            r.keeps_core_flags() == is_real_core,
            r.dependency_sets().len() == 0,
            r.core_flags().len() == 0,
            r.marks() == (0nat, 0nat, 0nat),
            r.saved_marks() == seq![0usize, 0usize, 0usize, 0usize, 0usize, 0usize],
            r.is_fresh(),
    {
        let ghost sequences = indexing_sequences@;
        let mut tuple_indexes: Vec<TupleIndex<TableauObject>> = Vec::new();
        let mut remaining = indexing_sequences;
        let mut k: usize = 0;
        let n = remaining.len();
        // Build the indexes in the order of the sequences.
        let mut reversed: Vec<Vec<usize>> = Vec::new();
        while remaining.len() > 0
            invariant
                reversed@.len() + remaining@.len() == n,
                n == sequences.len(),
                forall|j: int| 0 <= j < remaining@.len() ==> #[trigger] remaining@[j] == sequences[j],
                forall|j: int|
                    0 <= j < reversed@.len() ==> #[trigger] reversed@[j] == sequences[n - 1 - j],
            decreases remaining@.len(),
        {
            let last = remaining.pop().unwrap();
            reversed.push(last);
        }
        while reversed.len() > 0
            invariant
                k + reversed@.len() == n,
                k == tuple_indexes@.len(),
                n == sequences.len(),
                n >= 1,
                arity > 0,
                Self::proper_sequences(sequences, arity as nat),
                forall|j: int|
                    0 <= j < reversed@.len() ==> #[trigger] reversed@[j] == sequences[n - 1 - j],
                forall|j: int|
                    0 <= j < k ==> (#[trigger] tuple_indexes@[j]).wf()
                        && tuple_indexes@[j].spec_indexing_sequence() == sequences[j]@
                        && tuple_indexes@[j].entries().len() == 0
                        && tuple_indexes@[j].key_paths().len() == 0
                        && tuple_indexes@[j].node_count() == 1,
            decreases reversed@.len(),
        {
            let sequence = reversed.pop().unwrap();
            assert(sequence == sequences[k as int]);
            tuple_indexes.push(TupleIndex::new(sequence));
            k = k + 1;
        }
        let mut indices_by_branching_point: Vec<usize> = Vec::new();
        let mut i: usize = 0;
        while i < 6
            invariant
                i <= 6,
                indices_by_branching_point@ == Seq::new(i as nat, |j: int| 0usize),
            decreases 6 - i,
        {
            indices_by_branching_point.push(0);
            i = i + 1;
        }
        let r = ExtensionTable {
            arity,
            tuple_table: TupleTable::new(arity),
            needs_dependency_sets,
            tuple_indexes,
            dependency_sets: Vec::new(),
            core_flags: Vec::new(),
            is_real_core,
            after_extension_old: 0,
            after_extension_this: 0,
            after_delta_new: 0,
            indices_by_branching_point,
        };
        proof {
            assert(r.indices_by_branching_point@ =~= seq![0usize, 0usize, 0usize, 0usize, 0usize, 0usize]);
            assert forall|k: int| 0 <= k < r.tuple_indexes@.len() implies (#[trigger] r.tuple_indexes@[k]).wf()
                && forall|j: int|
                0 <= j < r.tuple_indexes@[k].spec_indexing_sequence().len()
                    ==> #[trigger] r.tuple_indexes@[k].spec_indexing_sequence()[j] < r.arity by {
                assert(r.tuple_indexes@[k].spec_indexing_sequence() == sequences[k]@);
            }
        }
        r
    }

    pub fn arity(&self) -> (r: usize)
        ensures
            r == self.spec_arity(),
    {
        self.arity
    }

    /// Object `object_index` of the stored tuple `tuple_index`.
    pub fn get_tuple_object(&self, tuple_index: usize, object_index: usize) -> (r: &TableauObject)
        requires
            self.wf(),
            object_index < self.spec_arity(),
            self.table().slot_of(tuple_index as int, object_index as int) < self.table().slots().len(),
            self.table().slots()[self.table().slot_of(tuple_index as int, object_index as int)] is Some,
        ensures
            *r == self.table().slots()[self.table().slot_of(
                tuple_index as int,
                object_index as int,
            )]->Some_0,
    {
        self.tuple_table.get_tuple_object(tuple_index, object_index).unwrap()
    }

    /// The dependency set stored with tuple `tuple_index`; `empty_set` when the
    /// table keeps none or none is stored.
    pub fn get_dependency_set(&self, tuple_index: usize, empty_set: &PermanentDependencySet) -> (r:
        PermanentDependencySet)
        ensures
            r == if self.keeps_dependency_sets() && tuple_index < self.dependency_sets().len()
                && self.dependency_sets()[tuple_index as int] is Some {
                self.dependency_sets()[tuple_index as int]->Some_0
            } else {
                *empty_set
            },
    {
        if self.needs_dependency_sets && tuple_index < self.dependency_sets.len() {
            match &self.dependency_sets[tuple_index] {
                Some(d) => d.clone(),
                None => empty_set.clone(),
            }
        } else {
            empty_set.clone()
        }
    }

    /// Whether tuple `tuple_index` is core; every tuple is when the table
    /// keeps no core flags.
    pub fn is_core(&self, tuple_index: usize) -> (r: bool)
        ensures
            r == if self.keeps_core_flags() {
                tuple_index < self.core_flags().len() && self.core_flags()[tuple_index as int]
            } else {
                true
            },
    {
        if self.is_real_core {
            tuple_index < self.core_flags.len() && self.core_flags[tuple_index]
        } else {
            true
        }
    }

    /// Marks tuple `tuple_index` as core, growing the flags with `false`.
    fn add_core(&mut self, tuple_index: usize)
        requires
            tuple_index < usize::MAX,
        ensures
            *final(self) == (ExtensionTable { core_flags: final(self).core_flags, ..*old(self) }),
            final(self).core_flags() == if old(self).keeps_core_flags() {
                grown_flags(old(self).core_flags(), tuple_index as int).update(tuple_index as int, true)
            } else {
                old(self).core_flags()
            },
    {
        if self.is_real_core {
            self.grow_core_flags(tuple_index);
            self.core_flags.set(tuple_index, true);
        }
    }

    /// Grows the core flags with `false` until they cover `tuple_index`.
    fn grow_core_flags(&mut self, tuple_index: usize)
        requires
            tuple_index < usize::MAX,
        ensures
            *final(self) == (ExtensionTable { core_flags: final(self).core_flags, ..*old(self) }),
            final(self).core_flags() == grown_flags(old(self).core_flags(), tuple_index as int),
    {
        let ghost start = self.core_flags@;
        while self.core_flags.len() <= tuple_index
            invariant
                *self == (ExtensionTable { core_flags: self.core_flags, ..*old(self) }),
                start == old(self).core_flags@,
                start.len() <= self.core_flags@.len(),
                self.core_flags@.len() <= if start.len() > tuple_index + 1 {
                    start.len() as int
                } else {
                    tuple_index + 1
                },
                forall|j: int|
                    0 <= j < self.core_flags@.len() ==> #[trigger] self.core_flags@[j] == if j
                        < start.len() {
                        start[j]
                    } else {
                        false
                    },
            decreases tuple_index + 1 - self.core_flags@.len(),
        {
            self.core_flags.push(false);
        }
        assert(self.core_flags@ =~= grown_flags(start, tuple_index as int));
    }

    /// The tuple index that the primary index records for `tuple`, or `NONE`.
    pub fn get_tuple_index(&self, tuple: &[TableauObject]) -> (r: i32)
        requires
            self.wf(),
            tuple@.len() == self.spec_arity(),
        ensures
            r == crate::tuple_index::lookup(
                self.indexes()[0].entries(),
                key_path(self.indexes()[0].spec_indexing_sequence(), tuple@),
            ),
    {
        proof {
            assert(self.tuple_indexes@[0].wf());
        }
        self.tuple_indexes[0].get_tuple_index(tuple)
    }

    /// Makes tuple `tuple_index` core when `is_core` asks for it and it is
    /// not yet core; answers whether it changed.
    pub fn upgrade_core(&mut self, tuple_index: usize, is_core: bool) -> (r: bool)
        requires
            tuple_index < usize::MAX,
        ensures
            r == (is_core && !old(self).core_at(tuple_index as int)),
            core_upgraded(*old(self), *final(self), tuple_index as int, is_core),
            final(self).wf() == old(self).wf(),
            final(self).spec_arity() == old(self).spec_arity(),
            final(self).table() == old(self).table(),
            final(self).indexes() == old(self).indexes(),
            final(self).dependency_sets() == old(self).dependency_sets(),
            final(self).keeps_dependency_sets() == old(self).keeps_dependency_sets(),
            final(self).keeps_core_flags() == old(self).keeps_core_flags(),
            final(self).marks() == old(self).marks(),
            final(self).saved_marks() == old(self).saved_marks(),
            final(self).core_at(tuple_index as int) == (old(self).core_at(tuple_index as int) || is_core),
            forall|j: int| j != tuple_index ==> #[trigger] final(self).core_at(j) == old(self).core_at(j),
    {
        if is_core && !self.is_core(tuple_index) {
            self.add_core(tuple_index);
            true
        } else {
            false
        }
    }

    /// Moves the marks on: the old extension ends where this one ended, this
    /// one where the new delta ended, and the new delta at the first free
    /// tuple. Answers whether the new delta was non-empty.
    pub fn propagate_delta_new(&mut self) -> (r: bool)
        ensures
            r == (old(self).marks().1 != old(self).marks().2),
            delta_propagated(*old(self), *final(self)),
            final(self).wf() == old(self).wf(),
            final(self).spec_arity() == old(self).spec_arity(),
            same_contents(*old(self), *final(self)),
            final(self).saved_marks() == old(self).saved_marks(),
    {
        let delta_new_not_empty = self.after_extension_this != self.after_delta_new;
        self.after_extension_old = self.after_extension_this;
        self.after_extension_this = self.after_delta_new;
        self.after_delta_new = self.tuple_table.get_first_free_tuple_index();
        delta_new_not_empty
    }

    /// Saves the three marks for branching level `level`.
    pub fn branching_point_pushed(&mut self, level: usize)
        requires
            level * 3 + 3 <= usize::MAX,
        ensures
            marks_saved(*old(self), *final(self), level as int),
            final(self).wf() == old(self).wf(),
            final(self).spec_arity() == old(self).spec_arity(),
            same_contents(*old(self), *final(self)),
            final(self).marks() == old(self).marks(),
    {
        let start = level * 3;
        let required = start + 3;
        let ghost before = self.indices_by_branching_point@;
        while self.indices_by_branching_point.len() < required
            invariant
                *self == (ExtensionTable {
                    indices_by_branching_point: self.indices_by_branching_point,
                    ..*old(self)
                }),
                before == old(self).indices_by_branching_point@,
                before.len() <= self.indices_by_branching_point@.len(),
                self.indices_by_branching_point@.len() <= if before.len() >= required {
                    before.len() as int
                } else {
                    required as int
                },
                forall|j: int|
                    0 <= j < self.indices_by_branching_point@.len()
                        ==> #[trigger] self.indices_by_branching_point@[j] == if j < before.len() {
                        before[j]
                    } else {
                        0usize
                    },
            decreases required - self.indices_by_branching_point@.len(),
        {
            self.indices_by_branching_point.push(0);
        }
        let old_end = self.after_extension_old;
        let this_end = self.after_extension_this;
        let delta_end = self.after_delta_new;
        self.indices_by_branching_point.set(start, old_end);
        self.indices_by_branching_point.set(start + 1, this_end);
        self.indices_by_branching_point.set(start + 2, delta_end);
    }

    /// Each index has room for the nodes of one more key path.
    pub open spec fn indexes_have_room(&self) -> bool {
        forall|k: int|
            0 <= k < self.indexes().len() ==> (#[trigger] self.indexes()[k]).node_count()
                + self.indexes()[k].spec_indexing_sequence().len() + 1 < usize::MAX
    }

    /// Stores `tuple` unless the primary index already records it with
    /// another tuple index. A stored tuple goes to the first free tuple index,
    /// every index records it there, and it keeps `dependency_set` (whose use
    /// the factory counts) and `is_core` when the table keeps those.
    pub fn store_tuple(
        &mut self,
        tuple: &[TableauObject],
        dependency_set: PermanentDependencySet,
        is_core: bool,
        factory: &mut DependencySetFactory,
    ) -> (r: StoreOutcome)
        requires
            old(self).wf(),
            tuple@.len() == old(self).spec_arity(),
            old(self).indexes_have_room(),
            old(self).table().first_free() <= old(self).table().capacity(),
            old(self).table().first_free() < i32::MAX,
            old(self).table().slots().len() + old(self).spec_arity() * PAGE_SIZE <= usize::MAX,
            old(factory).wf(),
            old(factory).interned().contains_key(dependency_set.points()) ==> old(
                factory,
            ).interned()[dependency_set.points()] < usize::MAX,
        ensures
            final(self).wf(),
            final(self).table().first_free() <= final(self).table().capacity(),
            final(self).table().slots().len() == if old(self).table().first_free() == old(self).table().capacity()
                && final(self).table().first_free() != old(self).table().first_free() {
                old(self).table().slots().len() + old(self).spec_arity() * PAGE_SIZE
            } else {
                old(self).table().slots().len() as int
            },
            forall|k: int|
                0 <= k < old(self).indexes().len() ==> #[trigger] final(self).indexes()[k].node_count()
                    <= old(self).indexes()[k].node_count() + old(self).indexes()[k].spec_indexing_sequence().len(),
            tuple_stored(
                *old(self),
                *final(self),
                tuple@,
                dependency_set,
                is_core,
                *old(factory),
                *final(factory),
                r,
            ),
    {
        let ghost pre = *self;
        let first_free = self.tuple_table.get_first_free_tuple_index();
        proof {
            assert(self.tuple_indexes@[0].wf());
        }
        proof {
            assert(pre.indexes()[0] == pre.tuple_indexes@[0]);
            assert(forall|j: int|
                0 <= j < pre.tuple_indexes@[0].spec_indexing_sequence().len()
                    ==> #[trigger] pre.tuple_indexes@[0].spec_indexing_sequence()[j] < pre.arity);
        }
        let add_index = self.tuple_indexes[0].add_tuple(tuple, first_free as i32);
        proof {
            assert(indexed_after(
                pre.tuple_indexes@[0].entries(),
                pre.tuple_indexes@[0].key_paths(),
                key_path(pre.tuple_indexes@[0].spec_indexing_sequence(), tuple@),
                first_free as i32,
                self.tuple_indexes@[0].entries(),
                add_index,
            ));
        }
        if add_index == first_free as i32 {
            let count = self.tuple_indexes.len();
            let mut k: usize = 1;
            while k < count
                invariant
                    1 <= k <= count,
                    count == self.tuple_indexes@.len(),
                    count == pre.tuple_indexes@.len(),
                    tuple@.len() == pre.arity,
                    pre.wf(),
                    pre.indexes_have_room(),
                    add_index == first_free as i32,
                    first_free == pre.tuple_table.first_free(),
                    self.arity == pre.arity,
                    self.tuple_table == pre.tuple_table,
                    self.dependency_sets == pre.dependency_sets,
                    self.core_flags == pre.core_flags,
                    self.needs_dependency_sets == pre.needs_dependency_sets,
                    self.is_real_core == pre.is_real_core,
                    self.after_extension_old == pre.after_extension_old,
                    self.after_extension_this == pre.after_extension_this,
                    self.after_delta_new == pre.after_delta_new,
                    self.indices_by_branching_point == pre.indices_by_branching_point,
                    forall|j: int| k <= j < count ==> #[trigger] self.tuple_indexes@[j] == pre.tuple_indexes@[j],
                    forall|j: int|
                        0 <= j < k ==> #[trigger] self.tuple_indexes@[j].node_count()
                            <= pre.tuple_indexes@[j].node_count() + pre.tuple_indexes@[j].spec_indexing_sequence().len(),
                    forall|j: int|
                        0 <= j < count ==> (#[trigger] self.tuple_indexes@[j]).wf()
                            && self.tuple_indexes@[j].spec_indexing_sequence()
                            == pre.tuple_indexes@[j].spec_indexing_sequence(),
                    indexed_after(
                        pre.tuple_indexes@[0].entries(),
                        pre.tuple_indexes@[0].key_paths(),
                        key_path(pre.tuple_indexes@[0].spec_indexing_sequence(), tuple@),
                        first_free as i32,
                        self.tuple_indexes@[0].entries(),
                        add_index,
                    ),
                    forall|j: int|
                        1 <= j < k ==> records(
                            pre.tuple_indexes@[j],
                            #[trigger] self.tuple_indexes@[j],
                            tuple@,
                            first_free as i32,
                        ),
                decreases count - k,
            {
                proof {
                    assert(pre.tuple_indexes@[k as int].wf());
                    assert(self.tuple_indexes@[k as int] == pre.tuple_indexes@[k as int]);
                    assert(pre.indexes()[k as int] == pre.tuple_indexes@[k as int]);
                    assert(forall|j: int|
                        0 <= j < pre.tuple_indexes@[k as int].spec_indexing_sequence().len()
                            ==> #[trigger] pre.tuple_indexes@[k as int].spec_indexing_sequence()[j]
                            < pre.arity);
                }
                let ghost before = self.tuple_indexes@;
                let recorded = self.tuple_indexes[k].add_tuple(tuple, add_index);
                proof {
                    assert(self.tuple_indexes@ == before.update(k as int, self.tuple_indexes@[k as int]));
                    assert(indexed_after(
                        pre.tuple_indexes@[k as int].entries(),
                        pre.tuple_indexes@[k as int].key_paths(),
                        key_path(pre.tuple_indexes@[k as int].spec_indexing_sequence(), tuple@),
                        first_free as i32,
                        self.tuple_indexes@[k as int].entries(),
                        recorded,
                    ));
                    assert forall|j: int| 0 <= j < k + 1 implies #[trigger] self.tuple_indexes@[j].node_count()
                        <= pre.tuple_indexes@[j].node_count() + pre.tuple_indexes@[j].spec_indexing_sequence().len() by {
                        if j < k {
                            assert(before[j] == self.tuple_indexes@[j]);
                        }
                    }
                    assert forall|j: int| 1 <= j < k + 1 implies records(
                        pre.tuple_indexes@[j],
                        #[trigger] self.tuple_indexes@[j],
                        tuple@,
                        first_free as i32,
                    ) by {
                        if j < k {
                            assert(before[j] == self.tuple_indexes@[j]);
                        }
                    }
                }
                k = k + 1;
            }
            let ghost table_before = self.tuple_table;
            self.tuple_table.add_tuple(tuple);
            proof {
                assert(self.tuple_table.first_free() <= self.tuple_table.capacity());
                assert(self.tuple_table.capacity() == self.tuple_table.slots().len() / (pre.arity as nat));
            }
            let idx = first_free;
            if self.needs_dependency_sets {
                factory.add_usage(&dependency_set);
                grow_dependency_slots(&mut self.dependency_sets, idx);
                self.dependency_sets.set(idx, Some(dependency_set));
            }
            if self.is_real_core {
                self.grow_core_flags(idx);
                self.core_flags.set(idx, is_core);
            }
            self.after_delta_new = self.tuple_table.get_first_free_tuple_index();
            proof {
                assert forall|k: int| 0 <= k < self.tuple_indexes@.len() implies (
                #[trigger] self.tuple_indexes@[k]).wf() && forall|j: int|
                    0 <= j < self.tuple_indexes@[k].spec_indexing_sequence().len()
                        ==> #[trigger] self.tuple_indexes@[k].spec_indexing_sequence()[j] < self.arity by {
                    assert(pre.tuple_indexes@[k].wf());
                }
                lemma_slot_in_range(
                    first_free as int,
                    pre.arity as int,
                    self.tuple_table.slots().len() as int,
                );
                assert forall|k: int| 0 <= k < self.tuple_indexes@.len() implies nonnegative_indices(
                    #[trigger] self.tuple_indexes@[k].entries(),
                ) by {
                    let before = pre.tuple_indexes@[k];
                    assert(before.wf());
                    assert(nonnegative_indices(before.entries()));
                    before.lemma_wf_facts();
                    let p = key_path(before.spec_indexing_sequence(), tuple@);
                    if k == 0 {
                        lemma_indexed_nonnegative(
                            before.entries(),
                            before.key_paths(),
                            p,
                            first_free as i32,
                            self.tuple_indexes@[k].entries(),
                            add_index,
                        );
                    } else {
                        assert(records(before, self.tuple_indexes@[k], tuple@, first_free as i32));
                        let w = choose|w: i32|
                            #[trigger] indexed_after(
                                before.entries(),
                                before.key_paths(),
                                p,
                                first_free as i32,
                                self.tuple_indexes@[k].entries(),
                                w,
                            );
                        lemma_indexed_nonnegative(
                            before.entries(),
                            before.key_paths(),
                            p,
                            first_free as i32,
                            self.tuple_indexes@[k].entries(),
                            w,
                        );
                    }
                }
                assert forall|j: int| 0 <= j < pre.arity implies #[trigger] self.tuple_table.slots()[
                    first_free * pre.arity + j] == Some(tuple@[j]) by {
                    assert(first_free * pre.arity + j < self.tuple_table.slots().len());
                    assert(self.tuple_table.slots()[first_free * pre.arity + j] is Some);
                }
            }
            StoreOutcome::Added(idx)
        } else {
            proof {
                assert forall|k: int| 0 <= k < self.tuple_indexes@.len() implies (
                #[trigger] self.tuple_indexes@[k]).wf() && forall|j: int|
                    0 <= j < self.tuple_indexes@[k].spec_indexing_sequence().len()
                        ==> #[trigger] self.tuple_indexes@[k].spec_indexing_sequence()[j] < self.arity by {
                    assert(pre.tuple_indexes@[k].wf());
                }
                let e0 = pre.tuple_indexes@[0].entries();
                let p0 = key_path(pre.tuple_indexes@[0].spec_indexing_sequence(), tuple@);
                assert forall|k: int| 0 <= k < self.tuple_indexes@.len() implies nonnegative_indices(
                    #[trigger] self.tuple_indexes@[k].entries(),
                ) by {
                    assert(nonnegative_indices(pre.tuple_indexes@[k].entries()));
                }
                if exists|i: int| 0 <= i < e0.len() && (#[trigger] e0[i]).0 == p0 && e0[i].1 != NONE {
                    let i = choose|i: int| 0 <= i < e0.len() && (#[trigger] e0[i]).0 == p0 && e0[i].1 != NONE;
                    pre.tuple_indexes@[0].lemma_ordered_facts();
                    let paths = pre.tuple_indexes@[0].key_paths();
                    assert(keys_of(e0) == paths);
                    assert forall|a: int, b: int|
                        0 <= a < paths.len() && 0 <= b < paths.len() && a != b implies paths[a]
                        != paths[b] by {
                        if paths[a] == paths[b] {
                            assert(has_prefix(paths[a], paths[b]));
                        }
                    }
                    assert(keys_of(e0).no_duplicates());
                    crate::tuple_index::lemma_lookup_at(e0, p0, i);
                }
            }
            StoreOutcome::AlreadyPresent(add_index as usize)
        }
    }

    /// Empties the table and its indexes and resets the marks.
    pub fn clear(&mut self)
        requires
            old(self).wf(),
            old(self).spec_arity() * PAGE_SIZE <= usize::MAX,
        ensures
            final(self).wf(),
            final(self).table().first_free() == 0,
            final(self).indexes().len() == old(self).indexes().len(),
            forall|k: int|
                0 <= k < old(self).indexes().len() ==> (#[trigger] final(self).indexes()[k]).entries().len()
                    == 0 && final(self).indexes()[k].spec_indexing_sequence() == old(
                    self,
                ).indexes()[k].spec_indexing_sequence(),
            final(self).dependency_sets().len() == 0,
            final(self).core_flags().len() == 0,
            final(self).marks() == (0nat, 0nat, 0nat),
            final(self).saved_marks() == old(self).saved_marks(),
            final(self).spec_arity() == old(self).spec_arity(),
            final(self).keeps_dependency_sets() == old(self).keeps_dependency_sets(),
            final(self).keeps_core_flags() == old(self).keeps_core_flags(),
    {
        let ghost pre = *self;
        self.tuple_table.clear();
        clear_indexes(&mut self.tuple_indexes);
        self.dependency_sets.clear();
        self.core_flags.clear();
        self.after_extension_old = 0;
        self.after_extension_this = 0;
        self.after_delta_new = 0;
        proof {
            assert forall|k: int| 0 <= k < self.tuple_indexes@.len() implies (#[trigger] self.tuple_indexes@[k]).wf()
                && forall|j: int|
                0 <= j < self.tuple_indexes@[k].spec_indexing_sequence().len()
                    ==> #[trigger] self.tuple_indexes@[k].spec_indexing_sequence()[j] < self.arity by {
                assert(pre.tuple_indexes@[k].wf());
                assert(self.tuple_indexes@[k].spec_indexing_sequence()
                    == pre.tuple_indexes@[k].spec_indexing_sequence());
            }
        }
    }

    /// Whether tuple `t` is core: as flagged when the table keeps core flags,
    /// always otherwise.
    pub open spec fn core_at(&self, t: int) -> bool {
        if self.keeps_core_flags() {
            0 <= t < self.core_flags().len() && self.core_flags()[t]
        } else {
            true
        }
    }

    /// Backtracks to branching level `level`. The tuples stored since the end
    /// of the new delta saved for that level are removed, the most recent
    /// first: from every index, the last index first; from the dependency
    /// sets, whose uses the factory counts down; and from the tuple table,
    /// which ends there again. The marks return to those saved for the level.
    /// Answers the removed tuples, most recent first, each with its core flag.
    pub fn backtrack(&mut self, level: usize, factory: &mut DependencySetFactory) -> (r: Vec<
        (Vec<TableauObject>, bool),
    >)
        requires
            old(self).wf(),
            level * 3 + 2 < old(self).saved_marks().len(),
            forall|t: int|
                old(self).saved_marks()[level * 3 + 2] <= t < old(self).marks().2 ==> #[trigger] occupied(
                    old(self).table(),
                    t,
                ),
            old(factory).wf(),
        ensures
            final(self).wf(),
            backtracked(
                *old(self),
                *final(self),
                level as int,
                old(factory).interned(),
                final(factory).interned(),
            ),
            final(factory).wf(),
            ({
                let n = old(self).saved_marks()[level * 3 + 2] as int;
                let d = old(self).marks().2 as int;
                &&& r@.len() == if d > n {
                    d - n
                } else {
                    0
                }
                &&& forall|k: int|
                    0 <= k < r@.len() ==> (#[trigger] r@[k]).0@ == stored_tuple(old(self).table(), d - 1 - k)
                        && r@[k].1 == old(self).core_at(d - 1 - k)
            }),
    {
        let ghost pre = *self;
        let ghost fpre = *factory;
        let saved = self.indices_by_branching_point.len();
        assert(level * 3 + 2 < saved);
        let start = level * 3;
        let new_after_delta_new = self.indices_by_branching_point[start + 2];
        let ghost n = new_after_delta_new as int;
        let ghost d = pre.after_delta_new as int;
        let ghost a = pre.arity as int;
        let mut removed: Vec<(Vec<TableauObject>, bool)> = Vec::new();
        let mut tuple_index = self.after_delta_new;
        proof {
            assert(pre.saved_marks()[level * 3 + 2] == new_after_delta_new);
            assert(pre.marks().2 == d);
            assert forall|t: int| n <= t < d implies #[trigger] occupied(pre.tuple_table, t) by {
                assert(occupied(pre.table(), t));
            }
            assert forall|i: int| 0 <= i < pre.tuple_table.slots().len() implies pre.tuple_table.slots()[i]
                == if tuple_index * a <= i < d * a {
                None
            } else {
                pre.tuple_table.slots()[i]
            } by {}
            assert(self.dependency_sets@ =~= Seq::new(
                pre.dependency_sets@.len(),
                |t: int|
                    if pre.needs_dependency_sets && tuple_index <= t < d {
                        None
                    } else {
                        pre.dependency_sets@[t]
                    },
            ));
        }
        while tuple_index > new_after_delta_new
            invariant
                pre.wf(),
                fpre.wf(),
                n == new_after_delta_new,
                d == pre.after_delta_new,
                a == pre.arity,
                tuple_index <= d,
                tuple_index < n ==> tuple_index == d,
                forall|t: int| n <= t < d ==> #[trigger] occupied(pre.tuple_table, t),
                self.arity == pre.arity,
                self.needs_dependency_sets == pre.needs_dependency_sets,
                self.is_real_core == pre.is_real_core,
                self.core_flags == pre.core_flags,
                self.after_extension_old == pre.after_extension_old,
                self.after_extension_this == pre.after_extension_this,
                self.after_delta_new == pre.after_delta_new,
                self.indices_by_branching_point == pre.indices_by_branching_point,
                self.tuple_table.wf(),
                self.tuple_table.spec_arity() == pre.tuple_table.spec_arity(),
                self.tuple_table.first_free() == pre.tuple_table.first_free(),
                self.tuple_table.slots().len() == pre.tuple_table.slots().len(),
                forall|i: int|
                    0 <= i < pre.tuple_table.slots().len() ==> #[trigger] self.tuple_table.slots()[i]
                        == if tuple_index * a <= i < d * a {
                        None
                    } else {
                        pre.tuple_table.slots()[i]
                    },
                self.tuple_indexes@.len() == pre.tuple_indexes@.len(),
                forall|k: int|
                    0 <= k < pre.tuple_indexes@.len() ==> {
                        &&& (#[trigger] self.tuple_indexes@[k]).wf()
                        &&& self.tuple_indexes@[k].spec_indexing_sequence()
                            == pre.tuple_indexes@[k].spec_indexing_sequence()
                        &&& self.tuple_indexes@[k].entries() == entries_without_tuples(
                            pre.tuple_indexes@[k].entries(),
                            pre.tuple_indexes@[k].spec_indexing_sequence(),
                            pre.tuple_table,
                            tuple_index as int,
                            d,
                        )
                    },
                self.dependency_sets@ == Seq::new(
                    pre.dependency_sets@.len(),
                    |t: int|
                        if pre.needs_dependency_sets && tuple_index <= t < d {
                            None
                        } else {
                            pre.dependency_sets@[t]
                        },
                ),
                factory.wf(),
                factory.interned() == usages_released(
                    fpre.interned(),
                    pre.dependency_sets@,
                    pre.needs_dependency_sets,
                    tuple_index as int,
                    d,
                ),
                removed@.len() == d - tuple_index,
                forall|k: int|
                    0 <= k < removed@.len() ==> (#[trigger] removed@[k]).0@ == stored_tuple(
                        pre.tuple_table,
                        d - 1 - k,
                    ) && removed@[k].1 == pre.core_at(d - 1 - k),
            decreases tuple_index,
        {
            tuple_index = tuple_index - 1;
            let ghost t = tuple_index as int;
            proof {
                assert(occupied(pre.tuple_table, t));
                assert forall|j: int| 0 <= j < a implies #[trigger] self.tuple_table.slots()[t * a + j]
                    == pre.tuple_table.slots()[t * a + j] by {
                    assert(t * a + j < (t + 1) * a) by (nonlinear_arith)
                        requires
                            0 <= j < a,
                    ;
                    assert(0 <= t * a + j) by (nonlinear_arith)
                        requires
                            0 <= j,
                            0 <= t,
                            0 <= a,
                    ;
                }
            }
            let slots = self.tuple_table.retrieve_tuple(tuple_index);
            proof {
                assert forall|j: int| 0 <= j < slots@.len() implies (#[trigger] slots@[j])
                    == pre.tuple_table.slots()[t * a + j] by {
                    assert(pre.tuple_table.slots()[t * a + j] is Some);
                }
            }
            let tuple = occupied_objects(slots);
            proof {
                assert(tuple@ =~= stored_tuple(pre.tuple_table, t));
            }
            let is_core = self.is_core(tuple_index);
            proof {
                assert forall|k: int| 0 <= k < self.tuple_indexes@.len() implies (
                #[trigger] self.tuple_indexes@[k]).wf() && forall|j: int|
                    0 <= j < self.tuple_indexes@[k].spec_indexing_sequence().len()
                        ==> #[trigger] self.tuple_indexes@[k].spec_indexing_sequence()[j] < tuple@.len() by {
                    assert(pre.tuple_indexes@[k].wf());
                }
            }
            remove_from_indexes(&mut self.tuple_indexes, tuple.as_slice());
            if self.needs_dependency_sets && tuple_index < self.dependency_sets.len() {
                match &self.dependency_sets[tuple_index] {
                    Some(dependency_set) => {
                        factory.remove_usage(dependency_set);
                    },
                    None => {},
                }
                self.dependency_sets.set(tuple_index, None);
            }
            let ghost mid_slots = self.tuple_table.slots();
            self.tuple_table.nullify_tuple(tuple_index);
            removed.push((tuple, is_core));
            proof {
                assert(self.dependency_sets@ =~= Seq::new(
                    pre.dependency_sets@.len(),
                    |t2: int|
                        if pre.needs_dependency_sets && t <= t2 < d {
                            None
                        } else {
                            pre.dependency_sets@[t2]
                        },
                ));
                assert forall|i: int| 0 <= i < pre.tuple_table.slots().len() implies #[trigger] self.tuple_table.slots()[i]
                    == if t * a <= i < d * a {
                    None
                } else {
                    pre.tuple_table.slots()[i]
                } by {
                    assert((t + 1) * a == t * a + a) by (nonlinear_arith);
                    assert((t + 1) * a <= d * a) by (nonlinear_arith)
                        requires
                            t + 1 <= d,
                            a >= 0,
                    ;
                    assert(mid_slots[i] == if (t + 1) * a <= i < d * a {
                        None
                    } else {
                        pre.tuple_table.slots()[i]
                    });
                    assert(a == self.tuple_table.spec_arity());
                    assert(self.tuple_table.slots()[i] == if t * a <= i < (t + 1) * a {
                        None
                    } else {
                        mid_slots[i]
                    });
                }
            }
        }
        self.tuple_table.truncate(new_after_delta_new);
        self.after_extension_old = self.indices_by_branching_point[start];
        self.after_extension_this = self.indices_by_branching_point[start + 1];
        self.after_delta_new = new_after_delta_new;
        proof {
            if tuple_index < n {
                assert(d * a <= n * a) by (nonlinear_arith)
                    requires
                        d <= n,
                        a >= 0,
                ;
            }
            assert forall|k: int| 0 <= k < self.tuple_indexes@.len() implies (
            #[trigger] self.tuple_indexes@[k]).wf() && forall|j: int|
                0 <= j < self.tuple_indexes@[k].spec_indexing_sequence().len()
                    ==> #[trigger] self.tuple_indexes@[k].spec_indexing_sequence()[j] < self.arity by {
                assert(pre.tuple_indexes@[k].wf());
            }
            assert forall|k: int| 0 <= k < self.tuple_indexes@.len() implies nonnegative_indices(
                #[trigger] self.tuple_indexes@[k].entries(),
            ) by {
                assert(nonnegative_indices(pre.tuple_indexes@[k].entries()));
                lemma_removed_nonnegative(
                    pre.tuple_indexes@[k].entries(),
                    pre.tuple_indexes@[k].spec_indexing_sequence(),
                    pre.tuple_table,
                    tuple_index as int,
                    d,
                );
            }
        }
        removed
    }

    /// The tuple indices of a view that an indexed retrieval finds for the
    /// bound columns: the index with the longest bound prefix of its indexing
    /// sequence (the later index on ties) is walked along that prefix, and
    /// the tuple indices of the matching key paths that lie in the view's
    /// range come out in trie order. `None` when no index has a bound first
    /// column. `binding_positions[c]` is the slot of `bindings_buffer` bound
    /// to column `c`, or `-1`.
    pub fn indexed_tuple_indices(
        &self,
        binding_positions: &[i32],
        bindings_buffer: &[Option<TableauObject>],
        view: ExtensionView,
    ) -> (r: Option<Vec<usize>>)
        requires
            self.wf(),
            binding_positions@.len() >= self.spec_arity(),
            forall|c: int|
                0 <= c < self.spec_arity() && #[trigger] binding_positions@[c] != -1 ==> 0
                    <= binding_positions@[c] < bindings_buffer@.len()
                    && bindings_buffer@[binding_positions@[c] as int] is Some,
        ensures
            ({
                let sequences = self.indexes().map_values(
                    |t: TupleIndex<TableauObject>| t.spec_indexing_sequence(),
                );
                let best = best_index(sequences, binding_positions@, 0);
                let range = self.range_of(view);
                if best.1 == 0 {
                    r is None
                } else {
                    &&& r is Some
                    &&& r->Some_0@ == retrieved(
                        self.indexes()[best.0].entries(),
                        selected_path(
                            bindings_buffer@,
                            selection_of(sequences[best.0], binding_positions@, best.1 as int),
                        ),
                        range.0 as int,
                        range.1 as int,
                    )
                }
            }),
            r is Some ==> forall|i: int|
                0 <= i < r->Some_0@.len() ==> match view {
                    ExtensionView::ExtensionThis => #[trigger] r->Some_0@[i] < self.marks().1,
                    ExtensionView::ExtensionOld => r->Some_0@[i] < self.marks().0,
                    ExtensionView::DeltaOld => self.marks().0 <= r->Some_0@[i] < self.marks().1,
                    ExtensionView::Total => r->Some_0@[i] < self.marks().2,
                },
    {
        let ghost sequences = self.indexes().map_values(
            |t: TupleIndex<TableauObject>| t.spec_indexing_sequence(),
        );
        let count = self.tuple_indexes.len();
        let mut selected: usize = 0;
        let mut best_prefix: usize = 0;
        let mut k: usize = count;
        while k > 0
            invariant
                k <= count,
                count == self.tuple_indexes@.len(),
                sequences.len() == count,
                sequences == self.indexes().map_values(
                    |t: TupleIndex<TableauObject>| t.spec_indexing_sequence(),
                ),
                self.wf(),
                binding_positions@.len() >= self.spec_arity(),
                best_prefix == best_index(sequences, binding_positions@, k as int).1,
                best_prefix > 0 ==> selected == best_index(sequences, binding_positions@, k as int).0,
                best_prefix > 0 ==> selected < count,
                best_prefix > 0 ==> best_prefix == bound_prefix_len(
                    sequences[selected as int],
                    binding_positions@,
                    sequences[selected as int].len() as int,
                ),
            decreases k,
        {
            k = k - 1;
            let sequence = self.tuple_indexes[k].get_indexing_sequence();
            proof {
                assert(self.tuple_indexes@[k as int].wf());
                assert(sequences[k as int] == sequence@);
            }
            let prefix = self.bound_prefix(sequence, binding_positions);
            proof {
                lemma_best_index(sequences, binding_positions@, k + 1);
            }
            if prefix > best_prefix {
                best_prefix = prefix;
                selected = k;
            }
        }
        if best_prefix == 0 {
            return None;
        }
        let tuple_index = &self.tuple_indexes[selected];
        let sequence = tuple_index.get_indexing_sequence();
        proof {
            assert(self.tuple_indexes@[selected as int].wf());
            assert(sequences[selected as int] == sequence@);
            lemma_bound_prefix_facts(sequence@, binding_positions@, best_prefix as int);
        }
        let mut selection_indices: Vec<usize> = Vec::new();
        let mut i: usize = 0;
        while i < best_prefix
            invariant
                i <= best_prefix,
                best_prefix <= sequence@.len(),
                self.wf(),
                binding_positions@.len() >= self.spec_arity(),
                forall|j: int| 0 <= j < sequence@.len() ==> #[trigger] sequence@[j] < self.spec_arity(),
                forall|j: int| 0 <= j < best_prefix ==> binding_positions@[#[trigger] sequence@[j] as int] != -1,
                forall|c: int|
                    0 <= c < self.spec_arity() && #[trigger] binding_positions@[c] != -1 ==> 0
                        <= binding_positions@[c] < bindings_buffer@.len(),
                selection_indices@ == selection_of(sequence@, binding_positions@, i as int),
            decreases best_prefix - i,
        {
            let column = sequence[i];
            let slot = binding_positions[column] as usize;
            selection_indices.push(slot);
            i = i + 1;
            proof {
                assert(selection_indices@ =~= selection_of(sequence@, binding_positions@, i as int));
            }
        }
        let (first, after_last) = self.view_range(view);
        let ghost prefix = selected_path(bindings_buffer@, selection_indices@);
        let ghost entries = tuple_index.entries();
        proof {
            tuple_index.lemma_wf_facts();
            assert forall|j: int| 0 <= j < selection_indices@.len() implies (#[trigger] selection_indices@[j])
                < bindings_buffer@.len() && bindings_buffer@[selection_indices@[j] as int] is Some by {
                assert(sequence@[j] < self.spec_arity());
                assert(binding_positions@[sequence@[j] as int] != -1);
            }
        }
        let mut retrieval = TupleIndexRetrieval::new(tuple_index, bindings_buffer, selection_indices.as_slice());
        retrieval.open();
        let mut result: Vec<usize> = Vec::new();
        let ghost start = retrieval.position();
        proof {
            tuple_index.lemma_ordered_facts();
            let paths = entries.map_values(|e: (Seq<u64>, i32)| e.0);
            assert(paths == tuple_index.key_paths());
            if retrieval.exhausted() {
                assert(!exists|s: int| is_block_start(paths, prefix, s)) by {
                    if exists|s: int| is_block_start(paths, prefix, s) {
                        let s = choose|s: int| is_block_start(paths, prefix, s);
                        assert(has_prefix(tuple_index.key_paths()[s], prefix));
                    }
                }
                assert(result@ =~= retrieved(entries, prefix, first as int, after_last as int));
            } else {
                let s = choose|s: int| is_block_start(paths, prefix, s);
                crate::tuple_index::lemma_block_start_unique(paths, prefix, s, retrieval.position());
                assert(result@ + collected(
                    entries,
                    prefix,
                    first as int,
                    after_last as int,
                    retrieval.position(),
                ) =~= retrieved(entries, prefix, first as int, after_last as int));
            }
        }
        while !retrieval.after_last()
            invariant
                retrieval.wf(),
                retrieval.source() == *tuple_index,
                retrieval.prefix() == prefix,
                tuple_index.wf(),
                entries == tuple_index.entries(),
                !retrieval.exhausted() ==> result@ + collected(
                    entries,
                    prefix,
                    first as int,
                    after_last as int,
                    retrieval.position(),
                ) == retrieved(entries, prefix, first as int, after_last as int),
                retrieval.exhausted() ==> result@ == retrieved(
                    entries,
                    prefix,
                    first as int,
                    after_last as int,
                ),
            decreases (if retrieval.exhausted() {
                0
            } else {
                entries.len() - retrieval.position() + 1
            }),
        {
            let ghost pos = retrieval.position();
            proof {
                retrieval.lemma_position();
            }
            let ghost before = result@;
            let tuple = retrieval.get_current_tuple_index();
            if tuple >= 0 {
                let t = tuple as usize;
                if first <= t && t < after_last {
                    result.push(t);
                }
            }
            proof {
                tuple_index.lemma_wf_facts();
                assert(entries[pos].0 == tuple_index.key_paths()[pos]);
                assert(has_prefix(entries[pos].0, prefix));
                assert(result@ + collected(entries, prefix, first as int, after_last as int, pos + 1)
                    =~= before + collected(entries, prefix, first as int, after_last as int, pos));
            }
            retrieval.next();
            proof {
                if retrieval.exhausted() {
                    if pos + 1 < entries.len() {
                        assert(entries[pos + 1].0 == tuple_index.key_paths()[pos + 1]);
                    }
                    assert(collected(entries, prefix, first as int, after_last as int, pos + 1)
                        =~= Seq::<usize>::empty());
                    assert(result@ =~= result@ + collected(
                        entries,
                        prefix,
                        first as int,
                        after_last as int,
                        pos + 1,
                    ));
                }
            }
        }
        proof {
            lemma_retrieved_in_range(entries, prefix, first as int, after_last as int);
        }
        Some(result)
    }

    /// The number of leading columns of `sequence` that are bound.
    fn bound_prefix(&self, sequence: &[usize], binding_positions: &[i32]) -> (r: usize)
        requires
            binding_positions@.len() >= self.spec_arity(),
            forall|j: int| 0 <= j < sequence@.len() ==> #[trigger] sequence@[j] < self.spec_arity(),
        ensures
            r == bound_prefix_len(sequence@, binding_positions@, sequence@.len() as int),
            r <= sequence@.len(),
    {
        let mut prefix: usize = 0;
        while prefix < sequence.len()
            invariant
                prefix <= sequence@.len(),
                binding_positions@.len() >= self.spec_arity(),
                forall|j: int| 0 <= j < sequence@.len() ==> #[trigger] sequence@[j] < self.spec_arity(),
                bound_prefix_len(sequence@, binding_positions@, prefix as int) == prefix,
            decreases sequence@.len() - prefix,
        {
            if binding_positions[sequence[prefix]] == -1 {
                proof {
                    lemma_bound_prefix_stops(
                        sequence@,
                        binding_positions@,
                        prefix as int,
                        sequence@.len() as int,
                    );
                }
                return prefix;
            }
            prefix = prefix + 1;
        }
        prefix
    }

    /// The `[start, after_last)` range of a view.
    pub open spec fn range_of(&self, view: ExtensionView) -> (usize, usize) {
        match view {
            ExtensionView::ExtensionThis => (0usize, self.marks().1 as usize),
            ExtensionView::ExtensionOld => (0usize, self.marks().0 as usize),
            ExtensionView::DeltaOld => (self.marks().0 as usize, self.marks().1 as usize),
            ExtensionView::Total => (0usize, self.marks().2 as usize),
        }
    }

    /// The `[start, after_last)` range of tuple indices that a view covers.
    pub fn view_range(&self, view: ExtensionView) -> (r: (usize, usize))
        ensures
            r == match view {
                ExtensionView::ExtensionThis => (0usize, self.marks().1 as usize),
                ExtensionView::ExtensionOld => (0usize, self.marks().0 as usize),
                ExtensionView::DeltaOld => (self.marks().0 as usize, self.marks().1 as usize),
                ExtensionView::Total => (0usize, self.marks().2 as usize),
            },
    {
        match view {
            ExtensionView::ExtensionThis => (0, self.after_extension_this),
            ExtensionView::ExtensionOld => (0, self.after_extension_old),
            ExtensionView::DeltaOld => (self.after_extension_old, self.after_extension_this),
            ExtensionView::Total => (0, self.after_delta_new),
        }
    }
}

/// Every tuple index that the entries `e` record is non-negative.
pub open spec fn nonnegative_indices(e: Seq<(Seq<u64>, i32)>) -> bool {
    forall|i: int| 0 <= i < e.len() ==> (#[trigger] e[i]).1 >= 0
}

/// Indexing with a non-negative candidate records only non-negative tuple
/// indices where only such were recorded.
proof fn lemma_indexed_nonnegative(
    e: Seq<(Seq<u64>, i32)>,
    paths: Seq<Seq<u64>>,
    p: Seq<u64>,
    v: i32,
    post: Seq<(Seq<u64>, i32)>,
    r: i32,
)
    requires
        v >= 0,
        e.len() == paths.len(),
        nonnegative_indices(e),
        indexed_after(e, paths, p, v, post, r),
    ensures
        nonnegative_indices(post),
{
    if exists|i: int| 0 <= i < e.len() && (#[trigger] e[i]).0 == p && e[i].1 != NONE {
    } else if exists|i: int| 0 <= i < e.len() && (#[trigger] e[i]).0 == p {
        let i = choose|i: int| 0 <= i < e.len() && (#[trigger] e[i]).0 == p && post == e.update(
            i,
            (p, v),
        );
        assert forall|j: int| 0 <= j < post.len() implies (#[trigger] post[j]).1 >= 0 by {
            if j != i {
                assert(post[j] == e[j]);
            }
        }
    } else {
        let pos = choose|pos: int| is_insert_position(paths, p, pos) && post == e.insert(pos, (p, v));
        assert(pos <= e.len());
        assert forall|j: int| 0 <= j < post.len() implies (#[trigger] post[j]).1 >= 0 by {
            if j < pos {
                assert(post[j] == e[j]);
            } else if j > pos {
                assert(post[j] == e[j - 1]);
            }
        }
    }
}

/// Removing key paths keeps the recorded tuple indices non-negative.
proof fn lemma_removed_nonnegative(
    e: Seq<(Seq<u64>, i32)>,
    sequence: Seq<usize>,
    table: TupleTable<TableauObject>,
    from: int,
    to: int,
)
    requires
        nonnegative_indices(e),
    ensures
        nonnegative_indices(entries_without_tuples(e, sequence, table, from, to)),
    decreases to - from,
{
    if from < to {
        lemma_removed_nonnegative(e, sequence, table, from + 1, to);
        let rest = entries_without_tuples(e, sequence, table, from + 1, to);
        let p = key_path(sequence, stored_tuple(table, from));
        if exists|i: int| 0 <= i < rest.len() && (#[trigger] rest[i]).0 == p {
            let i = choose|i: int| 0 <= i < rest.len() && (#[trigger] rest[i]).0 == p;
            let post = rest.remove(i);
            assert forall|j: int| 0 <= j < post.len() implies (#[trigger] post[j]).1 >= 0 by {
                if j < i {
                    assert(post[j] == rest[j]);
                } else {
                    assert(post[j] == rest[j + 1]);
                }
            }
        }
    }
}

/// `post` is `pre` with tuple `t` made core when `is_core` asks for it and
/// it is not core yet, the core flags grown with `false` to hold it.
pub open spec fn core_upgraded(pre: ExtensionTable, post: ExtensionTable, t: int, is_core: bool) -> bool {
    let changed = is_core && !pre.core_at(t);
    &&& changed ==> post.core_flags() == grown_flags(pre.core_flags(), t).update(t, true)
    &&& !changed ==> post == pre
    &&& post.agrees_but_core_flags(pre)
}

/// Storing `tuple` with `dependency_set` and `is_core` took `pre` to `post`
/// and the factory `fpre` to `fpost`, answering `r`. When the primary index
/// already records the tuple's key path with a tuple index other than the
/// first free one, nothing changes and that index is the answer. Otherwise
/// the tuple goes to the first free tuple index, which every index records
/// for it, the new delta ends after it, and it keeps `dependency_set`, whose
/// use the factory counts, and `is_core`, when the table keeps those.
pub open spec fn tuple_stored(
    pre: ExtensionTable,
    post: ExtensionTable,
    tuple: Seq<TableauObject>,
    dependency_set: PermanentDependencySet,
    is_core: bool,
    fpre: DependencySetFactory,
    fpost: DependencySetFactory,
    r: StoreOutcome,
) -> bool {
    let ff = pre.table().first_free();
    let e0 = pre.indexes()[0].entries();
    let p0 = key_path(pre.indexes()[0].spec_indexing_sequence(), tuple);
    let found = crate::tuple_index::lookup(e0, p0);
    let present = exists|i: int| 0 <= i < e0.len() && (#[trigger] e0[i]).0 == p0 && e0[i].1 != NONE;
    &&& post.spec_arity() == pre.spec_arity()
    &&& post.keeps_dependency_sets() == pre.keeps_dependency_sets()
    &&& post.keeps_core_flags() == pre.keeps_core_flags()
    &&& post.saved_marks() == pre.saved_marks()
    &&& post.indexes().len() == pre.indexes().len()
    &&& forall|k: int|
        0 <= k < pre.indexes().len() ==> (#[trigger] post.indexes()[k]).spec_indexing_sequence()
            == pre.indexes()[k].spec_indexing_sequence()
    &&& if present && found != ff as i32 {
        &&& r == StoreOutcome::AlreadyPresent(found as usize)
        &&& found >= 0
        &&& post.indexes()[0].entries() == e0
        &&& forall|k: int| 1 <= k < pre.indexes().len() ==> #[trigger] post.indexes()[k] == pre.indexes()[k]
        &&& post.table() == pre.table()
        &&& post.dependency_sets() == pre.dependency_sets()
        &&& post.core_flags() == pre.core_flags()
        &&& post.marks() == pre.marks()
        &&& fpost == fpre
    } else {
        &&& r == StoreOutcome::Added(ff as usize)
        &&& indexed_after(
            e0,
            pre.indexes()[0].key_paths(),
            p0,
            ff as i32,
            post.indexes()[0].entries(),
            ff as i32,
        )
        &&& forall|k: int|
            1 <= k < pre.indexes().len() ==> records(
                pre.indexes()[k],
                #[trigger] post.indexes()[k],
                tuple,
                ff as i32,
            )
        &&& post.table().first_free() == ff + 1
        &&& forall|j: int|
            0 <= j < pre.spec_arity() ==> #[trigger] post.table().slots()[ff * pre.spec_arity() + j]
                == Some(tuple[j])
        &&& post.marks() == (pre.marks().0, pre.marks().1, ff + 1)
        &&& post.dependency_sets() == if pre.keeps_dependency_sets() {
            grown_slots(pre.dependency_sets(), ff as int).update(ff as int, Some(dependency_set))
        } else {
            pre.dependency_sets()
        }
        &&& post.core_flags() == if pre.keeps_core_flags() {
            grown_flags(pre.core_flags(), ff as int).update(ff as int, is_core)
        } else {
            pre.core_flags()
        }
        &&& fpost.wf()
        &&& pre.keeps_dependency_sets() ==> fpost.interned() == if fpre.interned().contains_key(
            dependency_set.points(),
        ) {
            fpre.interned().insert(dependency_set.points(), fpre.interned()[dependency_set.points()] + 1)
        } else {
            fpre.interned()
        }
        &&& !pre.keeps_dependency_sets() ==> fpost == fpre
    }
}

/// `post` is `pre` backtracked to branching level `level`, and the use
/// counts `fpre` became `fpost`: the tuples stored since the end of the new
/// delta saved for the level are gone from the tuple table, whose slots for
/// them are emptied and which ends there again, from every index, the
/// last-stored first, and from the dependency sets, whose uses are counted
/// down; the marks are those saved for the level.
pub open spec fn backtracked(
    pre: ExtensionTable,
    post: ExtensionTable,
    level: int,
    fpre: Map<Seq<i32>, nat>,
    fpost: Map<Seq<i32>, nat>,
) -> bool {
    let s = level * 3;
    let n = pre.saved_marks()[s + 2] as int;
    let d = pre.marks().2 as int;
    let a = pre.spec_arity();
    &&& post.marks() == (pre.saved_marks()[s] as nat, pre.saved_marks()[s + 1] as nat, n as nat)
    &&& post.table().first_free() == n
    &&& post.table().slots().len() == pre.table().slots().len()
    &&& forall|i: int|
        0 <= i < pre.table().slots().len() ==> #[trigger] post.table().slots()[i] == if n * a <= i
            < d * a {
            None
        } else {
            pre.table().slots()[i]
        }
    &&& post.indexes().len() == pre.indexes().len()
    &&& forall|k: int|
        0 <= k < pre.indexes().len() ==> {
            &&& (#[trigger] post.indexes()[k]).spec_indexing_sequence()
                == pre.indexes()[k].spec_indexing_sequence()
            &&& post.indexes()[k].entries() == entries_without_tuples(
                pre.indexes()[k].entries(),
                pre.indexes()[k].spec_indexing_sequence(),
                pre.table(),
                n,
                d,
            )
        }
    &&& post.dependency_sets().len() == pre.dependency_sets().len()
    &&& forall|t: int|
        0 <= t < pre.dependency_sets().len() ==> #[trigger] post.dependency_sets()[t] == if pre.keeps_dependency_sets()
            && n <= t < d {
            None
        } else {
            pre.dependency_sets()[t]
        }
    &&& fpost == usages_released(fpre, pre.dependency_sets(), pre.keeps_dependency_sets(), n, d)
    &&& post.spec_arity() == pre.spec_arity()
    &&& post.keeps_dependency_sets() == pre.keeps_dependency_sets()
    &&& post.keeps_core_flags() == pre.keeps_core_flags()
    &&& post.core_flags() == pre.core_flags()
    &&& post.saved_marks() == pre.saved_marks()
}

/// `post` is `pre` with the marks moved on: the old extension ends where
/// this one ended, this one where the new delta ended, and the new delta at
/// the first free tuple.
pub open spec fn delta_propagated(pre: ExtensionTable, post: ExtensionTable) -> bool {
    &&& post.marks() == (pre.marks().1, pre.marks().2, pre.table().first_free())
    &&& post.agrees_but_marks(pre)
}

/// The dependency set that tuple `t` of `table` keeps, if any.
pub open spec fn kept_set(table: ExtensionTable, t: int) -> Option<PermanentDependencySet> {
    if table.keeps_dependency_sets() && 0 <= t < table.dependency_sets().len() {
        table.dependency_sets()[t]
    } else {
        None
    }
}

/// A store that added tuple `t` makes `t` core as asked (every tuple is core
/// in a table without core flags) and gives it its dependency set when the
/// table keeps them; no other tuple's core flag or dependency set changes.
pub proof fn lemma_store_sets_flag_and_set(
    pre: ExtensionTable,
    post: ExtensionTable,
    tuple: Seq<TableauObject>,
    dependency_set: PermanentDependencySet,
    is_core: bool,
    fpre: DependencySetFactory,
    fpost: DependencySetFactory,
    t: usize,
)
    requires
        tuple_stored(pre, post, tuple, dependency_set, is_core, fpre, fpost, StoreOutcome::Added(t)),
    ensures
        post.core_at(t as int) == (!pre.keeps_core_flags() || is_core),
        forall|j: int| j != t ==> #[trigger] post.core_at(j) == pre.core_at(j),
        kept_set(post, t as int) == if pre.keeps_dependency_sets() {
            Some(dependency_set)
        } else {
            None::<PermanentDependencySet>
        },
        forall|j: int| j != t ==> #[trigger] kept_set(post, j) == kept_set(pre, j),
{
}

/// `post` holds what `pre` holds: the same tuples, indexes, dependency sets,
/// core flags and settings.
pub open spec fn same_contents(pre: ExtensionTable, post: ExtensionTable) -> bool {
    &&& post.spec_arity() == pre.spec_arity()
    &&& post.table() == pre.table()
    &&& post.indexes() == pre.indexes()
    &&& post.dependency_sets() == pre.dependency_sets()
    &&& post.core_flags() == pre.core_flags()
    &&& post.keeps_dependency_sets() == pre.keeps_dependency_sets()
    &&& post.keeps_core_flags() == pre.keeps_core_flags()
}

/// `post` is `pre` with its three marks saved for branching level `level`,
/// the saved marks grown with zeros to hold them.
pub open spec fn marks_saved(pre: ExtensionTable, post: ExtensionTable, level: int) -> bool {
    &&& post.saved_marks().len() == if pre.saved_marks().len() >= level * 3 + 3 {
        pre.saved_marks().len() as int
    } else {
        level * 3 + 3
    }
    &&& forall|j: int|
        0 <= j < post.saved_marks().len() ==> #[trigger] post.saved_marks()[j] == if j == level * 3 {
            pre.marks().0 as usize
        } else if j == level * 3 + 1 {
            pre.marks().1 as usize
        } else if j == level * 3 + 2 {
            pre.marks().2 as usize
        } else if j < pre.saved_marks().len() {
            pre.saved_marks()[j]
        } else {
            0usize
        }
    &&& post.agrees_but_saved_marks(pre)
}

/// Indexing `tuple` with candidate `v` took index `pre` to `post`, whatever
/// it answered.
pub open spec fn records(
    pre: TupleIndex<TableauObject>,
    post: TupleIndex<TableauObject>,
    tuple: Seq<TableauObject>,
    v: i32,
) -> bool {
    exists|w: i32|
        #[trigger] indexed_after(
            pre.entries(),
            pre.key_paths(),
            key_path(pre.spec_indexing_sequence(), tuple),
            v,
            post.entries(),
            w,
        )
}

/// The buffer slots bound to the first `n` columns of `sequence`.
pub open spec fn selection_of(sequence: Seq<usize>, binding_positions: Seq<i32>, n: int) -> Seq<usize> {
    Seq::new(n as nat, |i: int| binding_positions[sequence[i] as int] as usize)
}

/// The tuple indices that a retrieval over `entries` along `r` yields within
/// `[first, after_last)`: those of the run of key paths starting with `r`.
pub open spec fn retrieved(entries: Seq<(Seq<u64>, i32)>, r: Seq<u64>, first: int, after_last: int) -> Seq<
    usize,
> {
    let paths = entries.map_values(|e: (Seq<u64>, i32)| e.0);
    if exists|s: int| is_block_start(paths, r, s) {
        collected(entries, r, first, after_last, choose|s: int| is_block_start(paths, r, s))
    } else {
        Seq::empty()
    }
}

/// Every tuple index collected from position `j` on lies in
/// `[first, after_last)`.
pub proof fn lemma_collected_in_range(
    entries: Seq<(Seq<u64>, i32)>,
    r: Seq<u64>,
    first: int,
    after_last: int,
    j: int,
)
    ensures
        forall|k: int|
            0 <= k < collected(entries, r, first, after_last, j).len() ==> first
                <= #[trigger] collected(entries, r, first, after_last, j)[k] < after_last,
    decreases entries.len() - j,
{
    if j < 0 || j >= entries.len() || !has_prefix(entries[j].0, r) {
    } else {
        lemma_collected_in_range(entries, r, first, after_last, j + 1);
        let v = entries[j].1;
        let head: Seq<usize> = if 0 <= v && first <= v < after_last {
            seq![v as usize]
        } else {
            Seq::empty()
        };
        let tail = collected(entries, r, first, after_last, j + 1);
        assert(collected(entries, r, first, after_last, j) == head + tail);
        assert forall|k: int|
            0 <= k < (head + tail).len() implies first <= #[trigger] (head + tail)[k] < after_last by {
            if k >= head.len() {
                assert((head + tail)[k] == tail[k - head.len()]);
            }
        }
    }
}

/// Every tuple index that a retrieval yields lies in `[first, after_last)`.
pub proof fn lemma_retrieved_in_range(
    entries: Seq<(Seq<u64>, i32)>,
    r: Seq<u64>,
    first: int,
    after_last: int,
)
    ensures
        forall|k: int|
            0 <= k < retrieved(entries, r, first, after_last).len() ==> first
                <= #[trigger] retrieved(entries, r, first, after_last)[k] < after_last,
{
    let paths = entries.map_values(|e: (Seq<u64>, i32)| e.0);
    if exists|s: int| is_block_start(paths, r, s) {
        lemma_collected_in_range(
            entries,
            r,
            first,
            after_last,
            choose|s: int| is_block_start(paths, r, s),
        );
    }
}

/// The best index found from `k` on lies in `k..` and has the bound prefix
/// length it reports.
proof fn lemma_best_index(sequences: Seq<Seq<usize>>, binding_positions: Seq<i32>, k: int)
    requires
        0 <= k <= sequences.len(),
    ensures
        best_index(sequences, binding_positions, k).1 > 0 ==> {
            let b = best_index(sequences, binding_positions, k);
            &&& k <= b.0 < sequences.len()
            &&& b.1 == bound_prefix_len(sequences[b.0], binding_positions, sequences[b.0].len() as int)
        },
    decreases sequences.len() - k,
{
    if k < sequences.len() {
        lemma_best_index(sequences, binding_positions, k + 1);
    }
}

/// A bound prefix of length `n` binds each of its columns.
proof fn lemma_bound_prefix_facts(sequence: Seq<usize>, binding_positions: Seq<i32>, n: int)
    requires
        0 < n,
        n == bound_prefix_len(sequence, binding_positions, sequence.len() as int),
    ensures
        n <= sequence.len(),
        forall|j: int| 0 <= j < n ==> binding_positions[#[trigger] sequence[j] as int] != -1,
{
    lemma_bound_prefix_shape(sequence, binding_positions, sequence.len() as int);
}

/// The bound prefix of the first `m` columns is at most `m` long and binds
/// each of its columns; when it is shorter than `m`, its next column is free.
proof fn lemma_bound_prefix_shape(sequence: Seq<usize>, binding_positions: Seq<i32>, m: int)
    requires
        0 <= m <= sequence.len(),
    ensures
        bound_prefix_len(sequence, binding_positions, m) <= m,
        forall|j: int|
            0 <= j < bound_prefix_len(sequence, binding_positions, m) ==> binding_positions[
                #[trigger] sequence[j] as int] != -1,
    decreases m,
{
    if m > 0 {
        lemma_bound_prefix_shape(sequence, binding_positions, m - 1);
    }
}

/// Past a free column the bound prefix stops growing.
proof fn lemma_bound_prefix_stops(sequence: Seq<usize>, binding_positions: Seq<i32>, j: int, m: int)
    requires
        0 <= j < m <= sequence.len(),
        bound_prefix_len(sequence, binding_positions, j) == j,
        binding_positions[sequence[j] as int] == -1,
    ensures
        bound_prefix_len(sequence, binding_positions, m) == j,
    decreases m - j,
{
    if m > j + 1 {
        lemma_bound_prefix_stops(sequence, binding_positions, j, m - 1);
    }
}

/// `slots` grown with `None` until they cover position `t`.
pub open spec fn grown_slots(slots: Seq<Option<PermanentDependencySet>>, t: int) -> Seq<
    Option<PermanentDependencySet>,
> {
    if slots.len() > t {
        slots
    } else {
        slots + Seq::new((t + 1 - slots.len()) as nat, |j: int| None::<PermanentDependencySet>)
    }
}

/// `slots` grown with `None` until they cover position `t`.
fn grow_dependency_slots(slots: &mut Vec<Option<PermanentDependencySet>>, t: usize)
    requires
        t < usize::MAX,
    ensures
        final(slots)@ == grown_slots(old(slots)@, t as int),
{
    let ghost start = slots@;
    while slots.len() <= t
        invariant
            start == old(slots)@,
            start.len() <= slots@.len() <= if start.len() > t {
                start.len() as int
            } else {
                t + 1
            },
            forall|j: int|
                0 <= j < slots@.len() ==> #[trigger] slots@[j] == if j < start.len() {
                    start[j]
                } else {
                    None
                },
        decreases t + 1 - slots@.len(),
    {
        slots.push(None);
    }
    assert(slots@ =~= grown_slots(start, t as int));
}

/// Empties every index, keeping its indexing sequence.
fn clear_indexes(indexes: &mut Vec<TupleIndex<TableauObject>>)
    requires
        forall|k: int| 0 <= k < old(indexes)@.len() ==> (#[trigger] old(indexes)@[k]).wf(),
    ensures
        final(indexes)@.len() == old(indexes)@.len(),
        forall|k: int|
            0 <= k < old(indexes)@.len() ==> (#[trigger] final(indexes)@[k]).wf()
                && final(indexes)@[k].entries().len() == 0 && final(indexes)@[k].spec_indexing_sequence()
                == old(indexes)@[k].spec_indexing_sequence(),
{
    let ghost start = indexes@;
    let count = indexes.len();
    let mut k: usize = 0;
    while k < count
        invariant
            k <= count,
            count == indexes@.len(),
            count == start.len(),
            start == old(indexes)@,
            forall|j: int| 0 <= j < start.len() ==> (#[trigger] start[j]).wf(),
            forall|j: int| k <= j < count ==> #[trigger] indexes@[j] == start[j],
            forall|j: int|
                0 <= j < k ==> (#[trigger] indexes@[j]).wf() && indexes@[j].entries().len() == 0
                    && indexes@[j].spec_indexing_sequence() == start[j].spec_indexing_sequence(),
        decreases count - k,
    {
        proof {
            assert(start[k as int].wf());
            reveal_wf_sequence(start[k as int]);
        }
        let ghost before = indexes@;
        indexes[k].clear();
        assert(indexes@ == before.update(k as int, indexes@[k as int]));
        k = k + 1;
    }
}

/// The slots of tuple `t` lie below `len` when the tuples up to `t` fit.
proof fn lemma_slot_in_range(t: int, arity: int, len: int)
    requires
        arity > 0,
        t >= 0,
        len >= 0,
        t + 1 <= len / arity,
    ensures
        t * arity + arity <= len,
{
    assert(t * arity + arity <= len) by (nonlinear_arith)
        requires
            arity > 0,
            t >= 0,
            len >= 0,
            t + 1 <= len / arity,
    ;
}

/// A well-formed index has a non-empty indexing sequence.
proof fn reveal_wf_sequence(index: TupleIndex<TableauObject>)
    requires
        index.wf(),
    ensures
        index.spec_indexing_sequence().len() >= 1,
{
    index.lemma_wf_facts();
}

/// The objects of tuple `t` of `table`, its slots taken as filled.
pub open spec fn stored_tuple(table: TupleTable<TableauObject>, t: int) -> Seq<TableauObject> {
    Seq::new(table.spec_arity(), |j: int| table.slots()[t * table.spec_arity() + j]->Some_0)
}

/// Tuple `t` of `table` lies within its slots, and they are all filled.
pub open spec fn occupied(table: TupleTable<TableauObject>, t: int) -> bool {
    &&& 0 <= t
    &&& (t + 1) * table.spec_arity() <= table.slots().len()
    &&& forall|j: int|
        0 <= j < table.spec_arity() ==> (#[trigger] table.slots()[t * table.spec_arity() + j]) is Some
}

/// The entries `e` of an index with indexing sequence `sequence` once the
/// key paths of the tuples `to - 1` down to `from` of `table` are removed,
/// in that order.
pub open spec fn entries_without_tuples(
    e: Seq<(Seq<u64>, i32)>,
    sequence: Seq<usize>,
    table: TupleTable<TableauObject>,
    from: int,
    to: int,
) -> Seq<(Seq<u64>, i32)>
    decreases to - from,
{
    if from >= to {
        e
    } else {
        without_path(
            entries_without_tuples(e, sequence, table, from + 1, to),
            key_path(sequence, stored_tuple(table, from)),
        )
    }
}

/// Tuples `n .. d` of `table` were stored one after the other: each entered
/// the index entries `chain[k]`, whose key paths are distinct, under a key
/// path of `sequence` that was new there, recording its own tuple index, and
/// gave `chain[k + 1]`.
pub open spec fn stored_in_turn(
    chain: Seq<Seq<(Seq<u64>, i32)>>,
    sequence: Seq<usize>,
    table: TupleTable<TableauObject>,
    n: int,
    d: int,
) -> bool {
    &&& n <= d
    &&& chain.len() == d - n + 1
    &&& forall|k: int|
        0 <= k < d - n ==> {
            let e = #[trigger] chain[k];
            let p = key_path(sequence, stored_tuple(table, n + k));
            &&& keys_of(e).no_duplicates()
            &&& forall|i: int| 0 <= i < e.len() ==> (#[trigger] e[i]).0 != p
            &&& exists|w: i32|
                #[trigger] indexed_after(e, keys_of(e), p, (n + k) as i32, chain[k + 1], w)
        }
}

/// Backtracking undoes storing: removing the key paths of tuples `d - 1`
/// down to `n` from an index into which they were stored in turn gives back
/// its entries from before the first of them was stored.
pub proof fn lemma_backtrack_undoes_stores(
    chain: Seq<Seq<(Seq<u64>, i32)>>,
    sequence: Seq<usize>,
    table: TupleTable<TableauObject>,
    n: int,
    d: int,
)
    requires
        stored_in_turn(chain, sequence, table, n, d),
    ensures
        entries_without_tuples(chain[d - n], sequence, table, n, d) == chain[0],
    decreases d - n,
{
    if n < d {
        let rest = chain.subrange(1, chain.len() as int);
        assert forall|k: int| 0 <= k < d - (n + 1) implies {
            let e = #[trigger] rest[k];
            let p = key_path(sequence, stored_tuple(table, (n + 1) + k));
            &&& keys_of(e).no_duplicates()
            &&& forall|i: int| 0 <= i < e.len() ==> (#[trigger] e[i]).0 != p
            &&& exists|w: i32|
                #[trigger] indexed_after(e, keys_of(e), p, ((n + 1) + k) as i32, rest[k + 1], w)
        } by {
            let e = chain[k + 1];
            assert(rest[k] == e);
            assert(rest[k + 1] == chain[k + 2]);
            assert(n + (k + 1) == (n + 1) + k);
        }
        lemma_backtrack_undoes_stores(rest, sequence, table, n + 1, d);
        assert(rest[d - (n + 1)] == chain[d - n]);
        let e = chain[0];
        let p = key_path(sequence, stored_tuple(table, n));
        assert(n + 0 == n);
        let w = choose|w: i32| #[trigger] indexed_after(e, keys_of(e), p, n as i32, chain[1], w);
        lemma_remove_after_indexing(e, keys_of(e), p, n as i32, chain[1], w);
    }
}

/// The use counts `m` with one use less of the set of points `p`, a count of
/// zero staying zero.
pub open spec fn usage_removed(m: Map<Seq<i32>, nat>, p: Seq<i32>) -> Map<Seq<i32>, nat> {
    if m.contains_key(p) && m[p] > 0 {
        m.insert(p, (m[p] - 1) as nat)
    } else {
        m
    }
}

/// The use counts `m` once the dependency sets in `slots` of the tuples
/// `to - 1` down to `from` are released, when the table keeps them.
pub open spec fn usages_released(
    m: Map<Seq<i32>, nat>,
    slots: Seq<Option<PermanentDependencySet>>,
    keeps: bool,
    from: int,
    to: int,
) -> Map<Seq<i32>, nat>
    decreases to - from,
{
    if from >= to {
        m
    } else {
        let rest = usages_released(m, slots, keeps, from + 1, to);
        if keeps && 0 <= from < slots.len() && slots[from] is Some {
            usage_removed(rest, slots[from]->Some_0.points())
        } else {
            rest
        }
    }
}

/// The objects of the filled slots `slots`, in order.
fn occupied_objects(slots: Vec<Option<TableauObject>>) -> (r: Vec<TableauObject>)
    requires
        forall|j: int| 0 <= j < slots@.len() ==> (#[trigger] slots@[j]) is Some,
    ensures
        r@.len() == slots@.len(),
        forall|j: int| 0 <= j < slots@.len() ==> #[trigger] r@[j] == slots@[j]->Some_0,
{
    let mut r: Vec<TableauObject> = Vec::new();
    let mut j: usize = 0;
    while j < slots.len()
        invariant
            j <= slots@.len(),
            forall|k: int| 0 <= k < slots@.len() ==> (#[trigger] slots@[k]) is Some,
            r@.len() == j,
            forall|k: int| 0 <= k < j ==> #[trigger] r@[k] == slots@[k]->Some_0,
        decreases slots@.len() - j,
    {
        match &slots[j] {
            Some(object) => {
                r.push(*object);
            },
            None => {
                assert(false);
            },
        }
        j = j + 1;
    }
    r
}

/// Removes the key path of `tuple` from every index, the last index first.
fn remove_from_indexes(indexes: &mut Vec<TupleIndex<TableauObject>>, tuple: &[TableauObject])
    requires
        forall|k: int|
            0 <= k < old(indexes)@.len() ==> (#[trigger] old(indexes)@[k]).wf() && forall|j: int|
                0 <= j < old(indexes)@[k].spec_indexing_sequence().len()
                    ==> #[trigger] old(indexes)@[k].spec_indexing_sequence()[j] < tuple@.len(),
    ensures
        final(indexes)@.len() == old(indexes)@.len(),
        forall|k: int|
            0 <= k < old(indexes)@.len() ==> {
                &&& (#[trigger] final(indexes)@[k]).wf()
                &&& final(indexes)@[k].spec_indexing_sequence()
                    == old(indexes)@[k].spec_indexing_sequence()
                &&& final(indexes)@[k].entries() == without_path(
                    old(indexes)@[k].entries(),
                    key_path(old(indexes)@[k].spec_indexing_sequence(), tuple@),
                )
            },
{
    let ghost start = indexes@;
    let mut k: usize = indexes.len();
    while k > 0
        invariant
            k <= start.len(),
            indexes@.len() == start.len(),
            start == old(indexes)@,
            forall|j: int|
                0 <= j < start.len() ==> (#[trigger] start[j]).wf() && forall|c: int|
                    0 <= c < start[j].spec_indexing_sequence().len()
                        ==> #[trigger] start[j].spec_indexing_sequence()[c] < tuple@.len(),
            forall|j: int| 0 <= j < k ==> #[trigger] indexes@[j] == start[j],
            forall|j: int|
                k <= j < start.len() ==> {
                    &&& (#[trigger] indexes@[j]).wf()
                    &&& indexes@[j].spec_indexing_sequence() == start[j].spec_indexing_sequence()
                    &&& indexes@[j].entries() == without_path(
                        start[j].entries(),
                        key_path(start[j].spec_indexing_sequence(), tuple@),
                    )
                },
        decreases k,
    {
        k = k - 1;
        proof {
            assert(start[k as int].wf());
        }
        let ghost before = indexes@;
        indexes[k].remove_tuple(tuple);
        assert(indexes@ == before.update(k as int, indexes@[k as int]));
    }
}

/// `flags` grown with `false` until they cover position `t`.
pub open spec fn grown_flags(flags: Seq<bool>, t: int) -> Seq<bool> {
    if flags.len() > t {
        flags
    } else {
        flags + Seq::new((t + 1 - flags.len()) as nat, |j: int| false)
    }
}

/// The binary (concept, node) table.
pub fn new_binary_extension_table(needs_dependency_sets: bool) -> (r: ExtensionTable)
    ensures
        r.wf(),
        r.spec_arity() == 2,
        r.indexes().len() == 2,
        r.indexes()[0].spec_indexing_sequence() == seq![1usize, 0usize],
        r.indexes()[1].spec_indexing_sequence() == seq![0usize, 1usize],
        r.keeps_dependency_sets() == needs_dependency_sets,
        r.keeps_core_flags(),
        r.is_fresh(),
{
    let mut sequences: Vec<Vec<usize>> = Vec::new();
    sequences.push(vec![1, 0]);
    sequences.push(vec![0, 1]);
    assert(sequences@[0]@ =~= seq![1usize, 0usize]);
    assert(sequences@[1]@ =~= seq![0usize, 1usize]);
    ExtensionTable::new(2, needs_dependency_sets, sequences, true)
}

/// The ternary (predicate, node, node) table.
pub fn new_ternary_extension_table(needs_dependency_sets: bool) -> (r: ExtensionTable)
    ensures
        r.wf(),
        r.spec_arity() == 3,
        r.indexes().len() == 3,
        r.indexes()[0].spec_indexing_sequence() == seq![0usize, 1usize, 2usize],
        r.indexes()[1].spec_indexing_sequence() == seq![1usize, 2usize, 0usize],
        r.indexes()[2].spec_indexing_sequence() == seq![2usize, 0usize, 1usize],
        r.keeps_dependency_sets() == needs_dependency_sets,
        !r.keeps_core_flags(),
        r.is_fresh(),
{
    let mut sequences: Vec<Vec<usize>> = Vec::new();
    sequences.push(vec![0, 1, 2]);
    sequences.push(vec![1, 2, 0]);
    sequences.push(vec![2, 0, 1]);
    assert(sequences@[0]@ =~= seq![0usize, 1usize, 2usize]);
    assert(sequences@[1]@ =~= seq![1usize, 2usize, 0usize]);
    assert(sequences@[2]@ =~= seq![2usize, 0usize, 1usize]);
    ExtensionTable::new(3, needs_dependency_sets, sequences, false)
}

/// The matching tuple indices of a view, computed up front, with a cursor.
pub struct Retrieval {
    pub tuple_indices: Vec<usize>,
    pub position: usize,
    pub view: ExtensionView,
}

impl Retrieval {
    pub fn after_last(&self) -> (r: bool)
        ensures
            r == (self.position >= self.tuple_indices@.len()),
    {
        self.position >= self.tuple_indices.len()
    }

    pub fn get_current_tuple_index(&self) -> (r: usize)
        requires
            self.position < self.tuple_indices@.len(),
        ensures
            r == self.tuple_indices@[self.position as int],
    {
        self.tuple_indices[self.position]
    }

    pub fn next(&mut self)
        requires
            old(self).position < usize::MAX,
        ensures
            *final(self) == (Retrieval { position: (old(self).position + 1) as usize, ..*old(self) }),
    {
        self.position = self.position + 1;
    }

    pub fn view(&self) -> (r: ExtensionView)
        ensures
            r == self.view,
    {
        self.view
    }
}

} // verus!
