use vstd::prelude::*;
use crate::ground_disjunction_header::{arity_sum, GroundDisjunctionHeader};
use crate::object::DLPredicate;
use rustc_hash::FxBuildHasher;
use std::collections::HashMap;

verus! {

/// What the intern table holds: each interned sequence of head predicates,
/// with the index of its header.
pub uninterp spec fn header_indexes(
    index: HashMap<Vec<DLPredicate>, usize, FxBuildHasher>,
) -> Map<Seq<DLPredicate>, usize>;

/// The contents of an empty intern table.
pub open spec fn no_header_indexes() -> Map<Seq<DLPredicate>, usize> {
    Map::empty()
}

/// A fresh empty intern table (`HashMap::default`).
#[verifier::external_body]
fn new_header_index() -> (r: HashMap<Vec<DLPredicate>, usize, FxBuildHasher>)
    ensures
        header_indexes(r) == no_header_indexes(),
{
    HashMap::default()
}

/// The index recorded for `dl_predicates`, if any (`HashMap::get`).
#[verifier::external_body]
fn header_index_of(
    index: &HashMap<Vec<DLPredicate>, usize, FxBuildHasher>,
    dl_predicates: &Vec<DLPredicate>,
) -> (r: Option<usize>)
    ensures
        r == if header_indexes(*index).contains_key(dl_predicates@) {
            Some(header_indexes(*index)[dl_predicates@])
        } else {
            None
        },
{
    index.get(dl_predicates).copied()
}

/// Records `header` as the index for `dl_predicates` (`HashMap::insert`).
#[verifier::external_body]
fn set_header_index(
    index: &mut HashMap<Vec<DLPredicate>, usize, FxBuildHasher>,
    dl_predicates: Vec<DLPredicate>,
    header: usize,
)
    ensures
        header_indexes(*final(index)) == header_indexes(*old(index)).insert(
            dl_predicates@,
            header,
        ),
{
    index.insert(dl_predicates, header);
}

/// A copy of a predicate sequence.
fn copy_predicates(dl_predicates: &Vec<DLPredicate>) -> (r: Vec<DLPredicate>)
    ensures
        r@ == dl_predicates@,
{
    let mut r: Vec<DLPredicate> = Vec::with_capacity(dl_predicates.len());
    let mut i: usize = 0;
    while i < dl_predicates.len()
        invariant
            i <= dl_predicates@.len(),
            r@ == dl_predicates@.subrange(0, i as int),
        decreases dl_predicates@.len() - i,
    {
        r.push(dl_predicates[i]);
        i = i + 1;
    }
    assert(r@ =~= dl_predicates@);
    r
}

/// Interns ground-disjunction headers by their head predicates: each
/// sequence of head predicates gets one header, which callers refer to by its
/// index (the header is mutable: its disjunct order adapts to backtracking).
pub struct GroundDisjunctionHeaderManager {
    headers: Vec<GroundDisjunctionHeader>,
    index: HashMap<Vec<DLPredicate>, usize, FxBuildHasher>,
}

impl GroundDisjunctionHeaderManager {
    /// How many headers have been interned.
    pub closed spec fn count(&self) -> nat {
        self.headers@.len()
    }

    /// The header with index `i`.
    pub closed spec fn header_at(&self, i: int) -> GroundDisjunctionHeader {
        self.headers@[i]
    }

    /// The intern table: each interned predicate sequence, with its header's
    /// index.
    pub closed spec fn indexes(&self) -> Map<Seq<DLPredicate>, usize> {
        header_indexes(self.index)
    }

    /// The head predicates of each header, by index.
    pub open spec fn interned(&self) -> Seq<Seq<DLPredicate>> {
        Seq::new(self.count(), |i: int| self.header_at(i).predicates())
    }

    /// Every header is well formed, and the intern table maps exactly the
    /// interned predicate sequences to their headers' indexes.
    pub open spec fn wf(&self) -> bool {
        &&& forall|i: int| 0 <= i < self.count() ==> (#[trigger] self.header_at(i)).wf()
        &&& forall|i: int|
            0 <= i < self.count() ==> self.indexes().contains_key(#[trigger] self.interned()[i])
                && self.indexes()[self.interned()[i]] == i
        &&& forall|p: Seq<DLPredicate>| #[trigger]
            self.indexes().contains_key(p) ==> self.indexes()[p] < self.count()
                && self.interned()[self.indexes()[p] as int] == p
    }

    pub fn new() -> (r: GroundDisjunctionHeaderManager)
        ensures
            r.wf(),
            r.count() == 0,
            r.indexes() == no_header_indexes(),
    {
        GroundDisjunctionHeaderManager { headers: Vec::new(), index: new_header_index() }
    }

    /// The index of the header for `dl_predicates`, interned now if it was
    /// not yet.
    pub fn get(&mut self, dl_predicates: Vec<DLPredicate>) -> (r: usize)
        requires
            old(self).wf(),
            arity_sum(dl_predicates@, dl_predicates@.len() as int) <= usize::MAX,
        ensures
            final(self).wf(),
            r < final(self).count(),
            final(self).interned()[r as int] == dl_predicates@,
            final(self).indexes() == old(self).indexes().insert(dl_predicates@, r),
            old(self).indexes().contains_key(dl_predicates@) ==> {
                &&& r == old(self).indexes()[dl_predicates@]
                &&& *final(self) == *old(self)
            },
            !old(self).indexes().contains_key(dl_predicates@) ==> {
                &&& r == old(self).count()
                &&& final(self).count() == old(self).count() + 1
                &&& forall|j: int|
                    0 <= j < old(self).count() ==> #[trigger] final(self).header_at(j)
                        == old(self).header_at(j)
                &&& final(self).header_at(r as int).is_initial_for(dl_predicates@)
            },
    {
        match header_index_of(&self.index, &dl_predicates) {
            Some(existing) => {
                assert(old(self).indexes().insert(dl_predicates@, existing) =~= old(
                    self,
                ).indexes());
                existing
            },
            None => {
                let key = copy_predicates(&dl_predicates);
                let header = GroundDisjunctionHeader::new(dl_predicates);
                let idx = self.headers.len();
                self.headers.push(header);
                set_header_index(&mut self.index, key, idx);
                proof {
                    assert forall|i: int| 0 <= i < self.count() implies (#[trigger] self.header_at(
                        i,
                    )).wf() by {
                        if i < idx {
                            assert(old(self).header_at(i) == self.header_at(i));
                        }
                    }
                    assert forall|i: int| 0 <= i < self.count() implies self.indexes().contains_key(
                        #[trigger] self.interned()[i],
                    ) && self.indexes()[self.interned()[i]] == i by {
                        if i < idx {
                            assert(old(self).interned()[i] == self.interned()[i]);
                            assert(old(self).interned()[i] != key@);
                        }
                    }
                    assert forall|p: Seq<DLPredicate>| #[trigger]
                        self.indexes().contains_key(p) implies self.indexes()[p] < self.count()
                        && self.interned()[self.indexes()[p] as int] == p by {
                        if p != key@ {
                            assert(old(self).indexes().contains_key(p));
                            assert(old(self).interned()[old(self).indexes()[p] as int] == p);
                        }
                    }
                }
                idx
            },
        }
    }

    /// The header with index `index`.
    pub fn header(&self, index: usize) -> (r: &GroundDisjunctionHeader)
        requires
            index < self.count(),
        ensures
            *r == self.header_at(index as int),
    {
        &self.headers[index]
    }

    /// The header with index `index`, to be changed in place.
    pub fn header_mut(&mut self, index: usize) -> (r: &mut GroundDisjunctionHeader)
        requires
            index < old(self).count(),
        ensures
            *r == old(self).header_at(index as int),
            final(self).count() == old(self).count(),
            final(self).indexes() == old(self).indexes(),
            final(self).header_at(index as int) == *final(r),
            forall|j: int|
                0 <= j < old(self).count() && j != index ==> #[trigger] final(self).header_at(j)
                    == old(self).header_at(j),
    {
        &mut self.headers[index]
    }

    /// How many headers have been interned.
    pub fn len(&self) -> (r: usize)
        ensures
            r == self.count(),
    {
        self.headers.len()
    }

    /// Whether no header has been interned.
    pub fn is_empty(&self) -> (r: bool)
        ensures
            r == (self.count() == 0),
    {
        self.headers.len() == 0
    }
}

/// Each sequence of head predicates has at most one header: two headers of
/// a well-formed manager for the same predicates are the same header.
pub proof fn lemma_one_header_per_predicates(m: GroundDisjunctionHeaderManager, i: int, j: int)
    requires
        m.wf(),
        0 <= i < m.count(),
        0 <= j < m.count(),
        m.interned()[i] == m.interned()[j],
    ensures
        i == j,
{
    assert(m.indexes()[m.interned()[i]] == i);
    assert(m.indexes()[m.interned()[j]] == j);
}

} // verus!
