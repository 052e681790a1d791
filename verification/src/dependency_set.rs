use vstd::prelude::*;
use rustc_hash::FxBuildHasher;
use std::collections::HashMap;
use std::sync::Arc;
use crate::text::{push_char, push_signed_decimal, signed_decimal};

verus! {

broadcast use vstd::std_specs::vec::axiom_vec_index_decreases;

/// Another handle to the value `a` points to.
#[verifier::external_body]
pub(crate) fn share<T>(a: &Arc<T>) -> (r: Arc<T>)
    ensures
        r == *a,
{
    Arc::clone(a)
}

/// Whether `a` and `b` point to one allocation (which then holds one value).
#[verifier::external_body]
fn same_allocation<T>(a: &Arc<T>, b: &Arc<T>) -> (r: bool)
    ensures
        r ==> *a == *b,
{
    Arc::ptr_eq(a, b)
}

/// `s` is sorted in strictly descending order.
pub open spec fn strictly_descending(s: Seq<i32>) -> bool {
    forall|i: int, j: int| 0 <= i < j < s.len() ==> s[i] > s[j]
}

/// The operations every dependency set offers. A dependency set records the
/// branching points a derived fact depends on.
pub trait DependencySetOps {
    /// Whether the set answers that it contains `branching_point`.
    spec fn contains_spec(&self, branching_point: i32) -> bool;

    spec fn empty_spec(&self) -> bool;

    /// The largest branching point, `-1` for an empty set.
    spec fn maximum_spec(&self) -> i32;

    fn contains_branching_point(&self, branching_point: i32) -> (r: bool)
        ensures
            r == self.contains_spec(branching_point),
    ;

    fn is_empty(&self) -> (r: bool)
        ensures
            r == self.empty_spec(),
    ;

    fn get_maximum_branching_point(&self) -> (r: i32)
        ensures
            r == self.maximum_spec(),
    ;
}

/// The first `n` of `points` in decimal, joined by commas.
pub open spec fn points_text(points: Seq<i32>, n: int) -> Seq<char>
    decreases n,
{
    if n <= 0 {
        Seq::empty()
    } else if n == 1 {
        signed_decimal(points[0] as int)
    } else {
        points_text(points, n - 1) + seq![','] + signed_decimal(points[n - 1] as int)
    }
}

/// A permanent dependency set: an immutable set of branching points, kept in
/// strictly descending order (so the maximum comes first) and shared between
/// its holders.
#[derive(Hash)]
pub struct PermanentDependencySet(Arc<Vec<i32>>);

impl Eq for PermanentDependencySet {

}

impl PartialEq for PermanentDependencySet {
    fn eq(&self, other: &Self) -> (r: bool) {
        if same_allocation(&self.0, &other.0) {
            return true;
        }
        let a = self.points_vec();
        let b = other.points_vec();
        if a.len() != b.len() {
            return false;
        }
        let mut i: usize = 0;
        while i < a.len()
            invariant
                i <= a@.len(),
                a@ == self.points(),
                b@ == other.points(),
                a@.len() == b@.len(),
                forall|k: int| 0 <= k < i ==> a@[k] == b@[k],
            decreases a@.len() - i,
        {
            if a[i] != b[i] {
                return false;
            }
            i = i + 1;
        }
        assert(a@ =~= b@);
        true
    }
}

impl vstd::std_specs::cmp::PartialEqSpecImpl for PermanentDependencySet {
    open spec fn obeys_eq_spec() -> bool {
        true
    }

    /// Two permanent sets are equal when they hold the same points.
    open spec fn eq_spec(&self, other: &Self) -> bool {
        self.points() == other.points()
    }
}

impl Clone for PermanentDependencySet {
    fn clone(&self) -> (r: Self)
        ensures
            r == *self,
    {
        proof {
            use_type_invariant(self);
        }
        PermanentDependencySet(share(&self.0))
    }
}

impl PermanentDependencySet {
    /// The branching points, largest first.
    pub closed spec fn points(&self) -> Seq<i32> {
        self.0@
    }

    /// The branching points are kept in strictly descending order.
    #[verifier::type_invariant]
    spec fn descending(self) -> bool {
        strictly_descending(self.points())
    }

    pub(crate) fn from_descending(points: Vec<i32>) -> (r: PermanentDependencySet)
        requires
            strictly_descending(points@),
        ensures
            r.points() == points@,
    {
        PermanentDependencySet(Arc::new(points))
    }

    pub(crate) fn points_vec(&self) -> (r: &Vec<i32>)
        ensures
            r@ == self.points(),
    {
        &*self.0
    }

    /// The text of the set: `{ `, the branching points largest first, joined
    /// by commas, then ` }`.
    pub fn debug_text(&self) -> (r: String)
        ensures
            r@ == "{ "@ + points_text(self.points(), self.points().len() as int) + " }"@,
    {
        let points = self.points_vec();
        let mut text = String::new();
        push_char(&mut text, '{');
        push_char(&mut text, ' ');
        proof {
            reveal_strlit("{ ");
            assert(text@ =~= "{ "@ + points_text(points@, 0));
        }
        let mut i: usize = 0;
        while i < points.len()
            invariant
                i <= points@.len(),
                points@ == self.points(),
                text@ == "{ "@ + points_text(points@, i as int),
            decreases points@.len() - i,
        {
            let ghost before = text@;
            if i != 0 {
                push_char(&mut text, ',');
            }
            push_signed_decimal(&mut text, points[i] as i64);
            proof {
                assert(text@ =~= "{ "@ + points_text(points@, i + 1));
            }
            i = i + 1;
        }
        push_char(&mut text, ' ');
        push_char(&mut text, '}');
        proof {
            reveal_strlit("{ ");
            reveal_strlit(" }");
            assert(text@ =~= "{ "@ + points_text(points@, points@.len() as int) + " }"@);
        }
        text
    }

    /// Whether the two handles share one allocation; sets that one factory
    /// interned are shared exactly when they are equal.
    pub fn ptr_eq(&self, other: &Self) -> (r: bool)
        ensures
            r ==> self.points() == other.points(),
    {
        same_allocation(&self.0, &other.0)
    }
}

impl DependencySetOps for PermanentDependencySet {
    /// `-1`, the branching point of the empty set's terminator, is always
    /// reported as contained.
    open spec fn contains_spec(&self, branching_point: i32) -> bool {
        branching_point == -1 || self.points().contains(branching_point)
    }

    open spec fn empty_spec(&self) -> bool {
        self.points().len() == 0
    }

    open spec fn maximum_spec(&self) -> i32 {
        if self.points().len() == 0 {
            -1i32
        } else {
            self.points()[0]
        }
    }

    fn contains_branching_point(&self, branching_point: i32) -> (r: bool) {
        if branching_point == -1 {
            return true;
        }
        let points = self.points_vec();
        let mut i: usize = 0;
        while i < points.len()
            invariant
                0 <= i <= points@.len(),
                points@ == self.points(),
                forall|k: int| 0 <= k < i ==> points@[k] != branching_point,
            decreases points@.len() - i,
        {
            if points[i] == branching_point {
                return true;
            }
            i = i + 1;
        }
        false
    }

    fn is_empty(&self) -> (r: bool) {
        self.points_vec().len() == 0
    }

    fn get_maximum_branching_point(&self) -> (r: i32) {
        let points = self.points_vec();
        if points.len() == 0 {
            -1
        } else {
            points[0]
        }
    }
}

/// A temporary union of dependency sets.
pub struct UnionDependencySet {
    dependency_sets: Vec<DependencySet>,
}

/// A dependency set, either permanent or a temporary union.
pub enum DependencySet {
    Permanent(PermanentDependencySet),
    Union(UnionDependencySet),
}

impl From<PermanentDependencySet> for DependencySet {
    fn from(s: PermanentDependencySet) -> (r: Self) {
        DependencySet::Permanent(s)
    }
}

impl vstd::std_specs::convert::FromSpecImpl<PermanentDependencySet> for DependencySet {
    open spec fn obeys_from_spec() -> bool {
        true
    }

    open spec fn from_spec(s: PermanentDependencySet) -> DependencySet {
        DependencySet::Permanent(s)
    }
}

impl From<UnionDependencySet> for DependencySet {
    fn from(s: UnionDependencySet) -> (r: Self) {
        DependencySet::Union(s)
    }
}

impl vstd::std_specs::convert::FromSpecImpl<UnionDependencySet> for DependencySet {
    open spec fn obeys_from_spec() -> bool {
        true
    }

    open spec fn from_spec(s: UnionDependencySet) -> DependencySet {
        DependencySet::Union(s)
    }
}

impl UnionDependencySet {
    pub closed spec fn constituents(&self) -> Seq<DependencySet> {
        self.dependency_sets@
    }

    pub fn new(number_of_constituents: usize) -> (r: UnionDependencySet)
        ensures
            r.constituents() == Seq::<DependencySet>::empty(),
            forall|bp: i32| !r.contains_spec(bp),
            r.empty_spec(),
            r.maximum_spec() == -1,
    {
        let r = UnionDependencySet { dependency_sets: Vec::with_capacity(number_of_constituents) };
        proof {
            lemma_union_answers(r);
        }
        r
    }

    pub fn number_of_constituents(&self) -> (r: usize)
        ensures
            r == self.constituents().len(),
    {
        self.dependency_sets.len()
    }

    pub fn constituent(&self, index: usize) -> (r: &DependencySet)
        requires
            index < self.constituents().len(),
        ensures
            *r == self.constituents()[index as int],
    {
        &self.dependency_sets[index]
    }

    pub fn set_constituent(&mut self, index: usize, constituent: DependencySet)
        requires
            index < old(self).constituents().len(),
        ensures
            final(self).constituents() == old(self).constituents().update(index as int, constituent),
    {
        self.dependency_sets.set(index, constituent);
    }

    pub fn clear_constituents(&mut self)
        ensures
            final(self).constituents() == Seq::<DependencySet>::empty(),
    {
        self.dependency_sets.clear();
    }

    pub fn add_constituent(&mut self, constituent: DependencySet)
        ensures
            final(self).constituents() == old(self).constituents().push(constituent),
            forall|bp: i32|
                #[trigger] final(self).contains_spec(bp) == (old(self).contains_spec(bp)
                    || constituent.contains_spec(bp)),
            final(self).empty_spec() == (old(self).empty_spec() && constituent.empty_spec()),
            final(self).maximum_spec() == if old(self).constituents().len() == 0 {
                constituent.maximum_spec()
            } else if old(self).maximum_spec() >= constituent.maximum_spec() {
                old(self).maximum_spec()
            } else {
                constituent.maximum_spec()
            },
    {
        self.dependency_sets.push(constituent);
        proof {
            let pre = *old(self);
            let post = *self;
            lemma_union_answers(pre);
            lemma_union_answers(post);
            lemma_union_maximum_after_add(pre, constituent, post);
            let n = pre.constituents().len() as int;
            assert(post.constituents()[n] == constituent);
            assert forall|bp: i32|
                #[trigger] post.contains_spec(bp) == (pre.contains_spec(bp) || constituent.contains_spec(bp)) by {
                if pre.contains_spec(bp) {
                    let i = choose|i: int|
                        0 <= i < pre.constituents().len() && (#[trigger] pre.constituents()[i]).contains_spec(bp);
                    assert(post.constituents()[i] == pre.constituents()[i]);
                }
                if post.contains_spec(bp) {
                    let i = choose|i: int|
                        0 <= i < post.constituents().len() && (#[trigger] post.constituents()[i]).contains_spec(bp);
                    if i < n {
                        assert(post.constituents()[i] == pre.constituents()[i]);
                    }
                }
            }
            if pre.empty_spec() && constituent.empty_spec() {
                assert forall|i: int| 0 <= i < post.constituents().len() implies (#[trigger] post.constituents()[i]).empty_spec() by {
                    if i < n {
                        assert(post.constituents()[i] == pre.constituents()[i]);
                    }
                }
            }
            if post.empty_spec() {
                assert forall|i: int| 0 <= i < pre.constituents().len() implies (#[trigger] pre.constituents()[i]).empty_spec() by {
                    assert(post.constituents()[i] == pre.constituents()[i]);
                }
            }
        }
    }
}

/// What a dependency set answers to a membership query.
pub closed spec fn set_contains(d: DependencySet, bp: i32) -> bool
    decreases d,
{
    match d {
        DependencySet::Permanent(p) => bp == -1 || p.points().contains(bp),
        DependencySet::Union(u) => union_contains_spec(u, bp),
    }
}

/// Some constituent of the union answers that it contains `bp`.
pub closed spec fn union_contains_spec(u: UnionDependencySet, bp: i32) -> bool
    decreases u,
{
    exists|i: int|
        0 <= i < u.dependency_sets@.len() && set_contains(#[trigger] u.dependency_sets@[i], bp)
}

pub closed spec fn set_empty(d: DependencySet) -> bool
    decreases d,
{
    match d {
        DependencySet::Permanent(p) => p.points().len() == 0,
        DependencySet::Union(u) => union_empty_spec(u),
    }
}

/// Every constituent of the union is empty.
pub closed spec fn union_empty_spec(u: UnionDependencySet) -> bool
    decreases u,
{
    forall|i: int| 0 <= i < u.dependency_sets@.len() ==> set_empty(#[trigger] u.dependency_sets@[i])
}

/// The branching points a dependency set holds.
pub closed spec fn set_points(d: DependencySet) -> Set<i32>
    decreases d,
{
    match d {
        DependencySet::Permanent(p) => Set::new(|bp: i32| p.points().contains(bp)),
        DependencySet::Union(u) => Set::new(|bp: i32| union_holds_point(u, bp)),
    }
}

/// Some constituent of the union holds `bp`.
pub closed spec fn union_holds_point(u: UnionDependencySet, bp: i32) -> bool
    decreases u,
{
    exists|i: int|
        #![trigger u.dependency_sets@[i]]
        0 <= i < u.dependency_sets@.len() && set_points(u.dependency_sets@[i]).contains(bp)
}

/// The largest branching point a dependency set reports, `-1` when empty.
pub closed spec fn set_maximum(d: DependencySet) -> i32
    decreases d, 0int,
{
    match d {
        DependencySet::Permanent(p) => if p.points().len() == 0 {
            -1i32
        } else {
            p.points()[0]
        },
        DependencySet::Union(u) => {
            proof {
                assert(decreases_to!(d => u.dependency_sets@));
            }
            maximum_of(u.dependency_sets@, u.dependency_sets@.len() as int)
        },
    }
}

/// The largest maximum among the first `n` sets of `s`, `-1` when `n` is 0.
pub closed spec fn maximum_of(s: Seq<DependencySet>, n: int) -> i32
    decreases s, n,
{
    if n <= 0 || n > s.len() {
        -1i32
    } else if n == 1 {
        set_maximum(s[0])
    } else {
        let a = maximum_of(s, n - 1);
        let b = set_maximum(s[n - 1]);
        if a >= b {
            a
        } else {
            b
        }
    }
}

/// A dependency set answers as the permanent set or the union it holds.
pub proof fn lemma_dependency_set_answers(d: DependencySet)
    ensures
        d matches DependencySet::Permanent(p) ==> {
            &&& forall|bp: i32| #[trigger] d.contains_spec(bp) == p.contains_spec(bp)
            &&& d.empty_spec() == p.empty_spec()
            &&& d.maximum_spec() == p.maximum_spec()
        },
        d matches DependencySet::Union(u) ==> {
            &&& forall|bp: i32| #[trigger] d.contains_spec(bp) == u.contains_spec(bp)
            &&& d.empty_spec() == u.empty_spec()
            &&& d.maximum_spec() == u.maximum_spec()
        },
{
}

/// A union answers as its constituents do: it contains a branching point
/// when one of them does, it is empty when all of them are, and without
/// constituents its maximum is `-1`.
pub proof fn lemma_union_answers(u: UnionDependencySet)
    ensures
        forall|bp: i32|
            #[trigger] u.contains_spec(bp) <==> exists|i: int|
                0 <= i < u.constituents().len() && (#[trigger] u.constituents()[i]).contains_spec(bp),
        u.empty_spec() <==> forall|i: int|
            0 <= i < u.constituents().len() ==> (#[trigger] u.constituents()[i]).empty_spec(),
        u.constituents().len() == 0 ==> u.maximum_spec() == -1,
{
    assert forall|bp: i32|
        #[trigger] u.contains_spec(bp) <==> exists|i: int|
            0 <= i < u.constituents().len() && (#[trigger] u.constituents()[i]).contains_spec(bp) by {
        assert(u.contains_spec(bp) == union_contains_spec(u, bp));
        if union_contains_spec(u, bp) {
            let i = choose|i: int|
                0 <= i < u.dependency_sets@.len() && set_contains(#[trigger] u.dependency_sets@[i], bp);
            assert(u.constituents()[i].contains_spec(bp));
        }
        if exists|i: int| 0 <= i < u.constituents().len() && (#[trigger] u.constituents()[i]).contains_spec(bp) {
            let i = choose|i: int| 0 <= i < u.constituents().len() && (#[trigger] u.constituents()[i]).contains_spec(bp);
            assert(set_contains(u.dependency_sets@[i], bp));
        }
    }
    assert(u.empty_spec() == union_empty_spec(u));
    assert(u.empty_spec() <==> forall|i: int|
        0 <= i < u.constituents().len() ==> (#[trigger] u.constituents()[i]).empty_spec()) by {
        if union_empty_spec(u) {
            assert forall|i: int| 0 <= i < u.constituents().len() implies (#[trigger] u.constituents()[i]).empty_spec() by {
                assert(set_empty(u.dependency_sets@[i]));
            }
        }
        if forall|i: int| 0 <= i < u.constituents().len() ==> (#[trigger] u.constituents()[i]).empty_spec() {
            assert forall|i: int| 0 <= i < u.dependency_sets@.len() implies set_empty(#[trigger] u.dependency_sets@[i]) by {
                assert(u.constituents()[i].empty_spec());
            }
        }
    }
}

/// Adding constituent `c` makes the union's maximum the larger of its old
/// maximum and that of `c`, or that of `c` for a union without constituents.
pub proof fn lemma_union_maximum_after_add(u: UnionDependencySet, c: DependencySet, post: UnionDependencySet)
    requires
        post.constituents() == u.constituents().push(c),
    ensures
        post.maximum_spec() == if u.constituents().len() == 0 {
            c.maximum_spec()
        } else if u.maximum_spec() >= c.maximum_spec() {
            u.maximum_spec()
        } else {
            c.maximum_spec()
        },
{
    let s = u.constituents();
    let t = post.constituents();
    let n = s.len() as int;
    assert forall|k: int| 0 <= k <= n implies maximum_of(t, k) == maximum_of(s, k) by {
        lemma_maximum_of_prefix(s, t, k);
    }
}

/// The maximum of a prefix does not look past it.
proof fn lemma_maximum_of_prefix(s: Seq<DependencySet>, t: Seq<DependencySet>, k: int)
    requires
        0 <= k <= s.len(),
        s.len() <= t.len(),
        forall|j: int| 0 <= j < s.len() ==> t[j] == s[j],
    ensures
        maximum_of(t, k) == maximum_of(s, k),
    decreases k,
{
    if k > 1 {
        lemma_maximum_of_prefix(s, t, k - 1);
    }
}

fn dependency_set_contains(d: &DependencySet, branching_point: i32) -> (r: bool)
    ensures
        r == set_contains(*d, branching_point),
    decreases d,
{
    match d {
        DependencySet::Permanent(p) => p.contains_branching_point(branching_point),
        DependencySet::Union(u) => union_contains(u, branching_point),
    }
}

/// Asks the constituents from the last one back.
fn union_contains(u: &UnionDependencySet, branching_point: i32) -> (r: bool)
    ensures
        r == union_contains_spec(*u, branching_point),
    decreases u,
{
    let mut i: usize = u.dependency_sets.len();
    while i > 0
        invariant
            i <= u.dependency_sets.len(),
            forall|k: int|
                i <= k < u.dependency_sets.len() ==> !set_contains(
                    #[trigger] u.dependency_sets@[k],
                    branching_point,
                ),
        decreases i,
    {
        i = i - 1;
        proof {
            assert(decreases_to!(u => u.dependency_sets@));
        }
        if dependency_set_contains(&u.dependency_sets[i], branching_point) {
            return true;
        }
    }
    false
}

fn dependency_set_is_empty(d: &DependencySet) -> (r: bool)
    ensures
        r == set_empty(*d),
    decreases d,
{
    match d {
        DependencySet::Permanent(p) => p.is_empty(),
        DependencySet::Union(u) => union_is_empty(u),
    }
}

fn union_is_empty(u: &UnionDependencySet) -> (r: bool)
    ensures
        r == union_empty_spec(*u),
    decreases u,
{
    let mut i: usize = 0;
    while i < u.dependency_sets.len()
        invariant
            i <= u.dependency_sets.len(),
            forall|k: int| 0 <= k < i ==> set_empty(#[trigger] u.dependency_sets@[k]),
        decreases u.dependency_sets.len() - i,
    {
        proof {
            assert(decreases_to!(u => u.dependency_sets@));
        }
        if !dependency_set_is_empty(&u.dependency_sets[i]) {
            return false;
        }
        i = i + 1;
    }
    true
}

fn dependency_set_maximum(d: &DependencySet) -> (r: i32)
    ensures
        r == set_maximum(*d),
    decreases d,
{
    match d {
        DependencySet::Permanent(p) => p.get_maximum_branching_point(),
        DependencySet::Union(u) => union_maximum(u),
    }
}

fn union_maximum(u: &UnionDependencySet) -> (r: i32)
    ensures
        r == maximum_of(u.dependency_sets@, u.dependency_sets@.len() as int),
    decreases u,
{
    let mut maximum: i32 = -1;
    let mut i: usize = 0;
    while i < u.dependency_sets.len()
        invariant
            i <= u.dependency_sets.len(),
            maximum == maximum_of(u.dependency_sets@, i as int),
        decreases u.dependency_sets.len() - i,
    {
        proof {
            assert(decreases_to!(u => u.dependency_sets@));
        }
        let m = dependency_set_maximum(&u.dependency_sets[i]);
        if i == 0 || m > maximum {
            maximum = m;
        }
        i = i + 1;
    }
    maximum
}

impl DependencySetOps for UnionDependencySet {
    /// A union answers as its constituents do.
    open spec fn contains_spec(&self, branching_point: i32) -> bool {
        union_contains_spec(*self, branching_point)
    }

    open spec fn empty_spec(&self) -> bool {
        union_empty_spec(*self)
    }

    open spec fn maximum_spec(&self) -> i32 {
        maximum_of(self.constituents(), self.constituents().len() as int)
    }

    fn contains_branching_point(&self, branching_point: i32) -> (r: bool) {
        union_contains(self, branching_point)
    }

    fn is_empty(&self) -> (r: bool) {
        union_is_empty(self)
    }

    fn get_maximum_branching_point(&self) -> (r: i32) {
        union_maximum(self)
    }
}

impl DependencySetOps for DependencySet {
    open spec fn contains_spec(&self, branching_point: i32) -> bool {
        set_contains(*self, branching_point)
    }

    open spec fn empty_spec(&self) -> bool {
        set_empty(*self)
    }

    open spec fn maximum_spec(&self) -> i32 {
        set_maximum(*self)
    }

    fn contains_branching_point(&self, branching_point: i32) -> (r: bool) {
        dependency_set_contains(self, branching_point)
    }

    fn is_empty(&self) -> (r: bool) {
        dependency_set_is_empty(self)
    }

    fn get_maximum_branching_point(&self) -> (r: i32) {
        dependency_set_maximum(self)
    }
}

/// The hasher that the interning table is built with.
#[verifier::external_type_specification]
#[verifier::external_body]
pub struct ExFxBuildHasher(FxBuildHasher);

/// An interned set with the number of its recorded uses.
pub struct CanonicalEntry {
    set: PermanentDependencySet,
    usage: usize,
}

impl CanonicalEntry {
    pub closed spec fn entry_view(&self) -> (Seq<i32>, nat) {
        (self.set.points(), self.usage as nat)
    }

    fn duplicate(&self) -> (r: CanonicalEntry)
        ensures
            r.entry_view() == self.entry_view(),
    {
        CanonicalEntry { set: self.set.clone(), usage: self.usage }
    }
}

/// What the interning table holds: for each key (a set's branching points,
/// largest first), the interned set's points and its usage count.
pub uninterp spec fn canonical_sets(table: HashMap<Vec<i32>, CanonicalEntry, FxBuildHasher>) -> Map<
    Seq<i32>,
    (Seq<i32>, nat),
>;

/// The view of a table without entries.
pub open spec fn no_entries() -> Map<Seq<i32>, (Seq<i32>, nat)> {
    Map::empty()
}

/// A fresh empty table (`HashMap::default`).
#[verifier::external_body]
fn new_table() -> (r: HashMap<Vec<i32>, CanonicalEntry, FxBuildHasher>)
    ensures
        canonical_sets(r) == no_entries(),
{
    HashMap::default()
}

/// The entry under `key`, if any (`HashMap::get`, the entry duplicated).
#[verifier::external_body]
fn table_get(
    table: &HashMap<Vec<i32>, CanonicalEntry, FxBuildHasher>,
    key: &Vec<i32>,
) -> (r: Option<CanonicalEntry>)
    ensures
        match r {
            Some(entry) => canonical_sets(*table).contains_key(key@) && entry.entry_view()
                == canonical_sets(*table)[key@],
            None => !canonical_sets(*table).contains_key(key@),
        },
{
    table.get(key).map(|entry| entry.duplicate())
}

/// Puts `entry` under `key`, replacing what was there (`HashMap::insert`).
#[verifier::external_body]
fn table_insert(
    table: &mut HashMap<Vec<i32>, CanonicalEntry, FxBuildHasher>,
    key: Vec<i32>,
    entry: CanonicalEntry,
)
    ensures
        canonical_sets(*final(table)) == canonical_sets(*old(table)).insert(
            key@,
            entry.entry_view(),
        ),
{
    table.insert(key, entry);
}

/// Removes every entry (`HashMap::clear`).
#[verifier::external_body]
fn table_clear(table: &mut HashMap<Vec<i32>, CanonicalEntry, FxBuildHasher>)
    ensures
        canonical_sets(*final(table)) == no_entries(),
{
    table.clear();
}

/// The number of entries (`HashMap::len`).
#[verifier::external_body]
fn table_len(table: &HashMap<Vec<i32>, CanonicalEntry, FxBuildHasher>) -> (r: usize)
    ensures
        r == canonical_sets(*table).len(),
{
    table.len()
}

/// An entry stays when its key is the empty set or its usage is positive.
pub open spec fn keeps(key: Seq<i32>, entry: (Seq<i32>, nat)) -> bool {
    key.len() == 0 || entry.1 > 0
}

fn keeps_entry(key: &Vec<i32>, entry: &CanonicalEntry) -> (r: bool)
    ensures
        r == keeps(key@, entry.entry_view()),
{
    key.len() == 0 || entry.usage > 0
}

/// Keeps the entries that `keeps` accepts (`HashMap::retain`).
#[verifier::external_body]
fn table_retain_used(table: &mut HashMap<Vec<i32>, CanonicalEntry, FxBuildHasher>)
    ensures
        canonical_sets(*final(table)) == canonical_sets(*old(table)).restrict(
            Set::new(|k: Seq<i32>| keeps(k, canonical_sets(*old(table))[k])),
        ),
{
    table.retain(|key, entry| keeps_entry(key, entry));
}

/// The capacity that an open-addressed table of initial capacity `c` grows to
/// by doubling while it holds at least three quarters of `m` entries.
pub open spec fn grown_capacity(c: nat, m: nat) -> nat
    decreases (if c > 0 && 4 * m >= 3 * c {
        4 * m + 1 - 3 * c
    } else {
        0
    }),
{
    if c > 0 && 4 * m >= 3 * c {
        grown_capacity(2 * c, m)
    } else {
        c
    }
}

/// `v` holds the same values as `s`, in the same order.
fn copy_points(s: &Vec<i32>) -> (v: Vec<i32>)
    ensures
        v@ == s@,
{
    let mut v: Vec<i32> = Vec::with_capacity(s.len());
    let mut i: usize = 0;
    while i < s.len()
        invariant
            i <= s@.len(),
            v@ == s@.take(i as int),
        decreases s@.len() - i,
    {
        v.push(s[i]);
        i = i + 1;
        assert(v@ =~= s@.take(i as int));
    }
    assert(v@ =~= s@);
    v
}

/// Puts `x` into the strictly descending `points` unless it is there.
#[verifier::spinoff_prover]
fn insert_descending(points: &mut Vec<i32>, x: i32)
    requires
        strictly_descending(old(points)@),
    ensures
        strictly_descending(final(points)@),
        forall|v: i32| final(points)@.contains(v) <==> (old(points)@.contains(v) || v == x),
{
    let mut j: usize = 0;
    while j < points.len() && points[j] > x
        invariant
            j <= points@.len(),
            points@ == old(points)@,
            forall|k: int| 0 <= k < j ==> points@[k] > x,
        decreases points@.len() - j,
    {
        j = j + 1;
    }
    if j < points.len() && points[j] == x {
        assert forall|v: i32| points@.contains(v) <==> (old(points)@.contains(v) || v == x) by {
            if v == x {
                assert(points@[j as int] == x);
            }
        }
        return;
    }
    let ghost pre = points@;
    assert(pre == old(points)@);
    points.insert(j, x);
    assert forall|a: int, b: int| 0 <= a < b < points@.len() implies points@[a] > points@[b] by {
        if b < j {
        } else if b == j {
        } else if a < j {
            assert(pre[a] > pre[b - 1] || a == b - 1);
        } else if a == j {
            assert(pre[j as int] < x);
            assert(pre[j as int] >= pre[b - 1]);
        } else {
        }
    }
    assert forall|v: i32| points@.contains(v) <==> (pre.contains(v) || v == x) by {
        if points@.contains(v) {
            let k = choose|k: int| 0 <= k < points@.len() && points@[k] == v;
            if k < j {
                assert(pre[k] == v);
            } else if k > j {
                assert(pre[k - 1] == v);
            }
        }
        if pre.contains(v) {
            let k = choose|k: int| 0 <= k < pre.len() && pre[k] == v;
            if k < j {
                assert(points@[k] == v);
            } else {
                assert(points@[k + 1] == v);
            }
        }
        if v == x {
            assert(points@[j as int] == x);
        }
    }
    assert(pre == old(points)@);
    assert(forall|v: i32| points@.contains(v) <==> (old(points)@.contains(v) || v == x));
}

/// The branching points of `points`, strictly descending and without
/// repetitions.
fn canonical_form(points: &Vec<i32>) -> (r: Vec<i32>)
    ensures
        strictly_descending(r@),
        forall|v: i32| r@.contains(v) <==> points@.contains(v),
{
    let mut r: Vec<i32> = Vec::new();
    let mut i: usize = 0;
    while i < points.len()
        invariant
            i <= points@.len(),
            strictly_descending(r@),
            forall|v: i32| r@.contains(v) <==> points@.take(i as int).contains(v),
        decreases points@.len() - i,
    {
        let x = points[i];
        insert_descending(&mut r, x);
        proof {
            let t1 = points@.take(i + 1);
            let t0 = points@.take(i as int);
            assert forall|v: i32| t1.contains(v) <==> (t0.contains(v) || v == x) by {
                if t1.contains(v) {
                    let k = choose|k: int| 0 <= k < t1.len() && t1[k] == v;
                    if k < i {
                        assert(t0[k] == v);
                    }
                }
                if t0.contains(v) {
                    let k = choose|k: int| 0 <= k < t0.len() && t0[k] == v;
                    assert(t1[k] == v);
                }
                if v == x {
                    assert(t1[i as int] == x);
                }
            }
        }
        i = i + 1;
    }
    assert(points@.take(points@.len() as int) =~= points@);
    r
}

/// The interned sets after `points` was interned: an absent key enters with
/// no recorded use.
/// The branching points of `d` in strictly descending order: the points of
/// its canonical permanent set.
pub open spec fn canonical_points(d: DependencySet) -> Seq<i32> {
    choose|s: Seq<i32>| strictly_descending(s) && forall|v: i32| s.contains(v) <==> set_points(d).contains(v)
}

/// The interned sets once `d` is made permanent: a permanent set is taken
/// as it is, a union is interned under its canonical points.
pub open spec fn input_interned(interned: Map<Seq<i32>, nat>, d: DependencySet) -> Map<Seq<i32>, nat> {
    match d {
        DependencySet::Permanent(_) => interned,
        DependencySet::Union(_) => interned_after(interned, canonical_points(d)),
    }
}

/// A strictly descending sequence with the points of `d` is its canonical
/// points.
proof fn lemma_canonical_points(d: DependencySet, s: Seq<i32>)
    requires
        strictly_descending(s),
        forall|v: i32| s.contains(v) <==> set_points(d).contains(v),
    ensures
        canonical_points(d) == s,
{
    let c = canonical_points(d);
    assert(strictly_descending(c) && forall|v: i32| c.contains(v) <==> set_points(d).contains(v));
    lemma_descending_unique(c, s);
}

pub open spec fn interned_after(interned: Map<Seq<i32>, nat>, points: Seq<i32>) -> Map<
    Seq<i32>,
    nat,
> {
    if interned.contains_key(points) {
        interned
    } else {
        interned.insert(points, 0)
    }
}

/// `post` keeps every set of `pre` with its usage; the sets it adds are
/// unused.
pub open spec fn only_adds_unused(pre: Map<Seq<i32>, nat>, post: Map<Seq<i32>, nat>) -> bool {
    &&& forall|k: Seq<i32>| #[trigger]
        pre.contains_key(k) ==> post.contains_key(k) && post[k] == pre[k]
    &&& forall|k: Seq<i32>| #[trigger] post.contains_key(k) && !pre.contains_key(k) ==> post[k] == 0
}

/// `r` is the canonical form of the branching points that `holds` accepts.
pub open spec fn canonical_of(r: PermanentDependencySet, holds: spec_fn(i32) -> bool) -> bool {
    &&& strictly_descending(r.points())
    &&& forall|v: i32| r.points().contains(v) <==> #[trigger] holds(v)
}

/// Interns permanent dependency sets, so that equal sets share one
/// allocation, and computes the unions, additions and removals of branching
/// points that backtracking needs.
pub struct DependencySetFactory {
    canonical: HashMap<Vec<i32>, CanonicalEntry, FxBuildHasher>,
    empty_set: PermanentDependencySet,
}

impl DependencySetFactory {
    /// The interned sets, with their usage counts.
    pub closed spec fn interned(&self) -> Map<Seq<i32>, nat> {
        canonical_sets(self.canonical).map_values(|e: (Seq<i32>, nat)| e.1)
    }

    /// Every key is the points of its interned set, the table is finite and
    /// holds the empty set.
    pub closed spec fn wf(&self) -> bool {
        let m = canonical_sets(self.canonical);
        &&& m.dom().finite()
        &&& m.contains_key(Seq::empty())
        &&& forall|k: Seq<i32>| #[trigger] m.contains_key(k) ==> m[k].0 == k
        &&& self.empty_set.points() == Seq::<i32>::empty()
    }

    pub fn new() -> (r: DependencySetFactory)
        ensures
            r.wf(),
            r.interned() == map![Seq::<i32>::empty() => 1nat],
    {
        let empty_set = PermanentDependencySet::from_descending(Vec::new());
        let mut canonical = new_table();
        table_insert(&mut canonical, Vec::new(), CanonicalEntry { set: empty_set.clone(), usage: 1 });
        let r = DependencySetFactory { canonical, empty_set };
        proof {
            assert(canonical_sets(r.canonical).dom() =~= set![Seq::<i32>::empty()]);
            assert(r.interned() =~= map![Seq::<i32>::empty() => 1nat]);
        }
        r
    }

    pub fn empty_set(&self) -> (r: PermanentDependencySet)
        requires
            self.wf(),
        ensures
            r.points() == Seq::<i32>::empty(),
    {
        self.empty_set.clone()
    }

    /// Forgets every interned set but the empty one, whose usage is one.
    pub fn clear(&mut self)
        ensures
            final(self).wf(),
            final(self).interned() == map![Seq::<i32>::empty() => 1nat],
    {
        let empty_set = PermanentDependencySet::from_descending(Vec::new());
        self.empty_set = empty_set.clone();
        table_clear(&mut self.canonical);
        table_insert(&mut self.canonical, Vec::new(), CanonicalEntry { set: empty_set, usage: 1 });
        proof {
            assert(canonical_sets(self.canonical).dom() =~= set![Seq::<i32>::empty()]);
            assert(self.interned() =~= map![Seq::<i32>::empty() => 1nat]);
        }
    }

    /// The memory an open-addressed table of the interned non-empty sets would
    /// take: four bytes per slot of a capacity that starts at 16 and doubles
    /// while three quarters of it are in use, and twenty bytes per set.
    pub fn size_in_memory(&self) -> (r: usize)
        requires
            self.wf(),
            self.interned().len() * 32 + 64 <= usize::MAX,
        ensures
            r == grown_capacity(16, (self.interned().len() - 1) as nat) * 4 + (
            self.interned().len() - 1) * 20,
    {
        let length = table_len(&self.canonical);
        proof {
            assert(self.interned().dom() =~= canonical_sets(self.canonical).dom());
        }
        let m_size = length - 1;
        let mut capacity: usize = 16;
        while 4 * m_size >= 3 * capacity
            invariant
                m_size * 32 + 96 <= usize::MAX,
                16 <= capacity <= 3 * m_size + 16,
                grown_capacity(capacity as nat, m_size as nat) == grown_capacity(16, m_size as nat),
            decreases 3 * m_size + 16 - capacity,
        {
            capacity = capacity * 2;
        }
        capacity * 4 + m_size * 20
    }

    proof fn lemma_insert_keeps_wf(&self, pre: Self, key: Seq<i32>, usage: nat)
        requires
            pre.wf(),
            canonical_sets(self.canonical) == canonical_sets(pre.canonical).insert(key, (key, usage)),
            self.empty_set == pre.empty_set,
        ensures
            self.wf(),
            self.interned() == pre.interned().insert(key, usage),
    {
        let m = canonical_sets(self.canonical);
        assert(m.dom() =~= canonical_sets(pre.canonical).dom().insert(key));
        assert(self.interned() =~= pre.interned().insert(key, usage));
    }

    /// The interned set with the branching points of `branching_points`.
    fn intern(&mut self, branching_points: Vec<i32>) -> (r: PermanentDependencySet)
        requires
            old(self).wf(),
        ensures
            final(self).wf(),
            canonical_of(r, |v: i32| branching_points@.contains(v)),
            final(self).interned() == interned_after(old(self).interned(), r.points()),
    {
        let key = canonical_form(&branching_points);
        let found = table_get(&self.canonical, &key);
        match found {
            Some(entry) => {
                return entry.set;
            },
            None => {},
        }
        let set = PermanentDependencySet::from_descending(copy_points(&key));
        let ghost pre = *self;
        table_insert(&mut self.canonical, key, CanonicalEntry { set: set.clone(), usage: 0 });
        proof {
            self.lemma_insert_keeps_wf(pre, set.points(), 0);
        }
        set
    }

    /// The interned union of the sets that are present among `constituents`.
    pub fn permanent_union_of(&mut self, constituents: &[Option<PermanentDependencySet>]) -> (r:
        PermanentDependencySet)
        requires
            old(self).wf(),
        ensures
            final(self).wf(),
            canonical_of(r, |v: i32| present_in(constituents@, constituents@.len() as int, v)),
            final(self).interned() == interned_after(old(self).interned(), r.points()),
    {
        let mut branching_points: Vec<i32> = Vec::new();
        let mut i: usize = 0;
        while i < constituents.len()
            invariant
                i <= constituents@.len(),
                forall|v: i32|
                    #[trigger] branching_points@.contains(v) <==> present_in(
                        constituents@,
                        i as int,
                        v,
                    ),
            decreases constituents@.len() - i,
        {
            let ghost before = branching_points@;
            match &constituents[i] {
                Some(dependency_set) => {
                    let points = dependency_set.points_vec();
                    let mut j: usize = 0;
                    while j < points.len()
                        invariant
                            j <= points@.len(),
                            branching_points@ == before + points@.take(j as int),
                        decreases points@.len() - j,
                    {
                        branching_points.push(points[j]);
                        j = j + 1;
                        assert(branching_points@ =~= before + points@.take(j as int));
                    }
                    assert(points@.take(j as int) =~= points@);
                },
                None => {},
            }
            proof {
                lemma_present_step(constituents@, i as int, before, branching_points@);
            }
            i = i + 1;
        }
        let ghost points = branching_points@;
        let r = self.intern(branching_points);
        proof {
            assert forall|v: i32| r.points().contains(v) <==> present_in(
                constituents@,
                constituents@.len() as int,
                v,
            ) by {
                let f = |v: i32| points.contains(v);
                assert(r.points().contains(v) <==> f(v));
            }
        }
        r
    }
}

impl DependencySetFactory {
    /// The interned permanent set with the branching points of `dependency_set`;
    /// a permanent set is returned as it is.
    pub fn get_permanent(&mut self, dependency_set: &DependencySet) -> (r: PermanentDependencySet)
        requires
            old(self).wf(),
        ensures
            final(self).wf(),
            match *dependency_set {
                DependencySet::Permanent(s) => r == s && final(self).interned() == old(
                    self,
                ).interned(),
                DependencySet::Union(_) => canonical_of(
                    r,
                    |v: i32| set_points(*dependency_set).contains(v),
                ) && final(self).interned() == interned_after(old(self).interned(), r.points()),
            },
            strictly_descending(r.points()),
            final(self).interned() == input_interned(old(self).interned(), *dependency_set),
    {
        match dependency_set {
            DependencySet::Permanent(s) => {
                let r = s.clone();
                proof {
                    use_type_invariant(&r);
                }
                r
            },
            DependencySet::Union(_) => {
                let mut branching_points: Vec<i32> = Vec::new();
                collect_branching_points(dependency_set, &mut branching_points);
                let ghost points = branching_points@;
                let r = self.intern(branching_points);
                proof {
                    assert forall|v: i32| r.points().contains(v) <==> set_points(
                        *dependency_set,
                    ).contains(v) by {
                        let f = |v: i32| points.contains(v);
                        assert(r.points().contains(v) <==> f(v));
                    }
                    lemma_canonical_points(*dependency_set, r.points());
                }
                r
            },
        }
    }

    /// The interned set of `dependency_set`'s points with `branching_point`
    /// added; `-1` is taken as already contained.
    pub fn add_branching_point(&mut self, dependency_set: &DependencySet, branching_point: i32) -> (r:
        PermanentDependencySet)
        requires
            old(self).wf(),
        ensures
            final(self).wf(),
            canonical_of(
                r,
                |v: i32|
                    set_points(*dependency_set).contains(v) || (v == branching_point
                        && branching_point != -1),
            ),
            only_adds_unused(old(self).interned(), final(self).interned()),
            final(self).interned() == if branching_point == -1 || set_points(*dependency_set).contains(
                branching_point,
            ) {
                input_interned(old(self).interned(), *dependency_set)
            } else {
                interned_after(input_interned(old(self).interned(), *dependency_set), r.points())
            },
    {
        let permanent = self.get_permanent(dependency_set);
        proof {
            use_type_invariant(&permanent);
            lemma_permanent_points(*dependency_set, permanent);
        }
        if permanent.contains_branching_point(branching_point) {
            return permanent;
        }
        let mut branching_points = copy_points(permanent.points_vec());
        branching_points.push(branching_point);
        let ghost points = branching_points@;
        let r = self.intern(branching_points);
        proof {
            assert forall|v: i32| r.points().contains(v) <==> (set_points(*dependency_set).contains(v)
                || (v == branching_point && branching_point != -1)) by {
                assert(set_points(*dependency_set).contains(v) == permanent.points().contains(v));
                let f = |v: i32| points.contains(v);
                assert(r.points().contains(v) <==> f(v));
                if v == branching_point {
                    assert(points[points.len() - 1] == v);
                }
                if points.contains(v) && v != branching_point {
                    let n = choose|n: int| 0 <= n < points.len() && points[n] == v;
                    assert(permanent.points()[n] == v);
                }
                if permanent.points().contains(v) {
                    let n = choose|n: int| 0 <= n < permanent.points().len() && permanent.points()[n] == v;
                    assert(points[n] == v);
                }
            }
        }
        r
    }
}

impl DependencySetFactory {
    /// The interned set of `dependency_set`'s points without `branching_point`.
    pub fn remove_branching_point(&mut self, dependency_set: &DependencySet, branching_point: i32) -> (r:
        PermanentDependencySet)
        requires
            old(self).wf(),
        ensures
            final(self).wf(),
            canonical_of(
                r,
                |v: i32| set_points(*dependency_set).contains(v) && v != branching_point,
            ),
            only_adds_unused(old(self).interned(), final(self).interned()),
            final(self).interned() == if !(branching_point == -1 || set_points(
                *dependency_set,
            ).contains(branching_point)) {
                input_interned(old(self).interned(), *dependency_set)
            } else {
                interned_after(input_interned(old(self).interned(), *dependency_set), r.points())
            },
    {
        let permanent = self.get_permanent(dependency_set);
        proof {
            use_type_invariant(&permanent);
            lemma_permanent_points(*dependency_set, permanent);
        }
        if !permanent.contains_branching_point(branching_point) {
            return permanent;
        }
        let points = permanent.points_vec();
        let mut branching_points: Vec<i32> = Vec::new();
        let mut i: usize = 0;
        while i < points.len()
            invariant
                i <= points@.len(),
                forall|v: i32|
                    #[trigger] branching_points@.contains(v) <==> (points@.take(i as int).contains(v)
                        && v != branching_point),
            decreases points@.len() - i,
        {
            let ghost before = branching_points@;
            let x = points[i];
            if x != branching_point {
                branching_points.push(x);
            }
            proof {
                let t1 = points@.take(i + 1);
                let t0 = points@.take(i as int);
                assert forall|v: i32| #[trigger] branching_points@.contains(v) <==> (t1.contains(v)
                    && v != branching_point) by {
                    if t1.contains(v) {
                        let k = choose|k: int| 0 <= k < t1.len() && t1[k] == v;
                        if k < i {
                            assert(t0[k] == v);
                        }
                    }
                    if t0.contains(v) {
                        let k = choose|k: int| 0 <= k < t0.len() && t0[k] == v;
                        assert(t1[k] == v);
                    }
                    if v == x {
                        assert(t1[i as int] == x);
                    }
                    if branching_points@.contains(v) && x != branching_point {
                        let k = choose|k: int|
                            0 <= k < branching_points@.len() && branching_points@[k] == v;
                        if k < before.len() {
                            assert(before[k] == v);
                        }
                    }
                    if before.contains(v) && x != branching_point {
                        let k = choose|k: int| 0 <= k < before.len() && before[k] == v;
                        assert(branching_points@[k] == v);
                    }
                    if v == x && x != branching_point {
                        assert(branching_points@[before.len() as int] == v);
                    }
                }
            }
            i = i + 1;
        }
        assert(points@.take(points@.len() as int) =~= points@);
        let ghost collected = branching_points@;
        let r = self.intern(branching_points);
        proof {
            assert forall|v: i32| r.points().contains(v) <==> (set_points(*dependency_set).contains(v)
                && v != branching_point) by {
                assert(set_points(*dependency_set).contains(v) == permanent.points().contains(v));
                let f = |v: i32| collected.contains(v);
                assert(r.points().contains(v) <==> f(v));
            }
        }
        r
    }

    /// The interned union of the two sets' points.
    pub fn union_with(&mut self, set1: &DependencySet, set2: &DependencySet) -> (r:
        PermanentDependencySet)
        requires
            old(self).wf(),
        ensures
            final(self).wf(),
            canonical_of(
                r,
                |v: i32| set_points(*set1).contains(v) || set_points(*set2).contains(v),
            ),
            only_adds_unused(old(self).interned(), final(self).interned()),
            final(self).interned() == if forall|v: i32|
                set_points(*set1).contains(v) <==> set_points(*set2).contains(v) {
                input_interned(input_interned(old(self).interned(), *set1), *set2)
            } else {
                interned_after(input_interned(input_interned(old(self).interned(), *set1), *set2), r.points())
            },
    {
        let permanent1 = self.get_permanent(set1);
        let permanent2 = self.get_permanent(set2);
        proof {
            use_type_invariant(&permanent1);
            use_type_invariant(&permanent2);
            lemma_permanent_points(*set1, permanent1);
            lemma_permanent_points(*set2, permanent2);
        }
        if permanent1 == permanent2 {
            proof {
                assert forall|v: i32| permanent1.points().contains(v) <==> (set_points(
                    *set1,
                ).contains(v) || set_points(*set2).contains(v)) by {
                    assert(set_points(*set1).contains(v) == permanent1.points().contains(v));
                    assert(set_points(*set2).contains(v) == permanent2.points().contains(v));
                }
            }
            return permanent1;
        }
        proof {
            if forall|v: i32| set_points(*set1).contains(v) <==> set_points(*set2).contains(v) {
                lemma_descending_unique(permanent1.points(), permanent2.points());
            }
        }
        let mut branching_points = copy_points(permanent1.points_vec());
        let points2 = permanent2.points_vec();
        let ghost first = branching_points@;
        let mut j: usize = 0;
        while j < points2.len()
            invariant
                j <= points2@.len(),
                branching_points@ == first + points2@.take(j as int),
            decreases points2@.len() - j,
        {
            branching_points.push(points2[j]);
            j = j + 1;
            assert(branching_points@ =~= first + points2@.take(j as int));
        }
        assert(points2@.take(j as int) =~= points2@);
        let ghost collected = branching_points@;
        let r = self.intern(branching_points);
        proof {
            assert forall|v: i32| r.points().contains(v) <==> (set_points(*set1).contains(v)
                || set_points(*set2).contains(v)) by {
                assert(set_points(*set1).contains(v) == permanent1.points().contains(v));
                assert(set_points(*set2).contains(v) == permanent2.points().contains(v));
                let f = |v: i32| collected.contains(v);
                assert(r.points().contains(v) <==> f(v));
                if collected.contains(v) {
                    let n = choose|n: int| 0 <= n < collected.len() && collected[n] == v;
                    if n < first.len() {
                        assert(permanent1.points()[n] == v);
                    } else {
                        assert(points2@[n - first.len()] == v);
                    }
                }
                if permanent1.points().contains(v) {
                    let n = choose|n: int| 0 <= n < first.len() && first[n] == v;
                    assert(collected[n] == v);
                }
                if permanent2.points().contains(v) {
                    let n = choose|n: int| 0 <= n < points2@.len() && points2@[n] == v;
                    assert(collected[first.len() + n] == v);
                }
            }
        }
        r
    }

    /// Records one more use of an interned set; a set that is not interned is
    /// ignored.
    pub fn add_usage(&mut self, dependency_set: &PermanentDependencySet)
        requires
            old(self).wf(),
            old(self).interned().contains_key(dependency_set.points()) ==> old(self).interned()[dependency_set.points()] < usize::MAX,
        ensures
            final(self).wf(),
            final(self).interned() == if old(self).interned().contains_key(dependency_set.points()) {
                old(self).interned().insert(
                    dependency_set.points(),
                    old(self).interned()[dependency_set.points()] + 1,
                )
            } else {
                old(self).interned()
            },
    {
        let key = copy_points(dependency_set.points_vec());
        let found = table_get(&self.canonical, &key);
        match found {
            Some(entry) => {
                let usage = entry.usage + 1;
                let ghost pre = *self;
                table_insert(&mut self.canonical, key, CanonicalEntry { set: entry.set, usage });
                proof {
                    self.lemma_insert_keeps_wf(pre, dependency_set.points(), usage as nat);
                }
            },
            None => {},
        }
    }

    /// Records one use less of an interned set; a count of zero stays zero.
    pub fn remove_usage(&mut self, dependency_set: &PermanentDependencySet)
        requires
            old(self).wf(),
        ensures
            final(self).wf(),
            final(self).interned() == if old(self).interned().contains_key(dependency_set.points())
                && old(self).interned()[dependency_set.points()] > 0 {
                old(self).interned().insert(
                    dependency_set.points(),
                    (old(self).interned()[dependency_set.points()] - 1) as nat,
                )
            } else {
                old(self).interned()
            },
    {
        let key = copy_points(dependency_set.points_vec());
        let found = table_get(&self.canonical, &key);
        match found {
            Some(entry) => {
                if entry.usage > 0 {
                    let usage = entry.usage - 1;
                    let ghost pre = *self;
                    table_insert(&mut self.canonical, key, CanonicalEntry { set: entry.set, usage });
                    proof {
                        self.lemma_insert_keeps_wf(pre, dependency_set.points(), usage as nat);
                    }
                }
            },
            None => {},
        }
    }

    /// Drops every interned set without recorded uses, but the empty set.
    pub fn remove_unused_sets(&mut self)
        requires
            old(self).wf(),
        ensures
            final(self).wf(),
            final(self).interned() == old(self).interned().restrict(
                Set::new(|k: Seq<i32>| k.len() == 0 || old(self).interned()[k] > 0),
            ),
    {
        let ghost pre = *self;
        table_retain_used(&mut self.canonical);
        proof {
            let m0 = canonical_sets(pre.canonical);
            let m1 = canonical_sets(self.canonical);
            assert(m1.dom() =~= m0.dom().filter(|k: Seq<i32>| keeps(k, m0[k])));
            assert(m1.dom().finite()) by {
                m0.dom().lemma_len_filter(|k: Seq<i32>| keeps(k, m0[k]));
            }
            assert(self.interned() =~= pre.interned().restrict(
                Set::new(|k: Seq<i32>| k.len() == 0 || pre.interned()[k] > 0),
            ));
        }
    }
}

impl Default for DependencySetFactory {
    fn default() -> (r: DependencySetFactory)
        ensures
            r.wf(),
            r.interned() == map![Seq::<i32>::empty() => 1nat],
    {
        DependencySetFactory::new()
    }
}

/// Two strictly descending sequences with the same elements are equal.
pub proof fn lemma_descending_unique(a: Seq<i32>, b: Seq<i32>)
    requires
        strictly_descending(a),
        strictly_descending(b),
        forall|v: i32| a.contains(v) <==> b.contains(v),
    ensures
        a == b,
    decreases a.len() + b.len(),
{
    if a.len() == 0 || b.len() == 0 {
        if b.len() > 0 {
            assert(b.contains(b[0]));
        }
        if a.len() > 0 {
            assert(a.contains(a[0]));
        }
        assert(a =~= b);
    } else {
        assert(a.contains(a[0]));
        assert(b.contains(b[0]));
        let i = choose|i: int| 0 <= i < a.len() && a[i] == b[0];
        let j = choose|j: int| 0 <= j < b.len() && b[j] == a[0];
        assert(a[0] == b[0]) by {
            if i > 0 {
                assert(a[0] > a[i]);
            }
            if j > 0 {
                assert(b[0] > b[j]);
            }
        }
        let a1 = a.drop_first();
        let b1 = b.drop_first();
        assert forall|v: i32| a1.contains(v) <==> b1.contains(v) by {
            if a1.contains(v) {
                let k = choose|k: int| 0 <= k < a1.len() && a1[k] == v;
                assert(a[k + 1] == v);
                assert(a.contains(v));
                let m = choose|m: int| 0 <= m < b.len() && b[m] == v;
                assert(m != 0);
                assert(b1[m - 1] == v);
            }
            if b1.contains(v) {
                let k = choose|k: int| 0 <= k < b1.len() && b1[k] == v;
                assert(b[k + 1] == v);
                assert(b.contains(v));
                let m = choose|m: int| 0 <= m < a.len() && a[m] == v;
                assert(m != 0);
                assert(a1[m - 1] == v);
            }
        }
        lemma_descending_unique(a1, b1);
        assert(a =~= seq![a[0]] + a1);
        assert(b =~= seq![b[0]] + b1);
    }
}

/// Interning is canonical: sets interned for the same branching points have
/// the same points, in the same order.
pub proof fn lemma_canonical_sets_agree(
    r1: PermanentDependencySet,
    r2: PermanentDependencySet,
    holds1: spec_fn(i32) -> bool,
    holds2: spec_fn(i32) -> bool,
)
    requires
        canonical_of(r1, holds1),
        canonical_of(r2, holds2),
        forall|v: i32| #[trigger] holds1(v) == holds2(v),
    ensures
        r1.points() == r2.points(),
{
    assert forall|v: i32| r1.points().contains(v) <==> r2.points().contains(v) by {
        assert(r1.points().contains(v) <==> holds1(v));
        assert(r2.points().contains(v) <==> holds2(v));
    }
    lemma_descending_unique(r1.points(), r2.points());
}

/// Removing a branching point right after adding it gives back the set's
/// branching points; from a permanent set, its very points.
pub proof fn lemma_remove_after_add(
    d: DependencySet,
    b: i32,
    added: PermanentDependencySet,
    removed: PermanentDependencySet,
)
    requires
        !set_points(d).contains(b),
        canonical_of(
            added,
            |v: i32| set_points(d).contains(v) || (v == b && b != -1),
        ),
        canonical_of(
            removed,
            |v: i32| set_points(DependencySet::Permanent(added)).contains(v) && v != b,
        ),
    ensures
        forall|v: i32| #[trigger] removed.points().contains(v) <==> set_points(d).contains(v),
        d is Permanent && strictly_descending(d->Permanent_0.points()) ==> removed.points()
            == d->Permanent_0.points(),
{
    let f_add = |v: i32| set_points(d).contains(v) || (v == b && b != -1);
    let f_rm = |v: i32| set_points(DependencySet::Permanent(added)).contains(v) && v != b;
    assert forall|v: i32| #[trigger] removed.points().contains(v) <==> set_points(d).contains(v) by {
        assert(removed.points().contains(v) <==> f_rm(v));
        assert(added.points().contains(v) <==> f_add(v));
        assert(set_points(DependencySet::Permanent(added)).contains(v) <==> added.points().contains(v));
    }
    if d is Permanent && strictly_descending(d->Permanent_0.points()) {
        let p = d->Permanent_0;
        assert forall|v: i32| removed.points().contains(v) <==> p.points().contains(v) by {
            assert(set_points(d).contains(v) <==> p.points().contains(v));
        }
        lemma_descending_unique(removed.points(), p.points());
    }
}

/// The points of the permanent set for `d` are the points `d` holds.
/// The points of a permanent set taken as a dependency set are its points.
pub proof fn lemma_permanent_set_points(p: PermanentDependencySet)
    ensures
        forall|v: i32| #[trigger] set_points(DependencySet::Permanent(p)).contains(v) <==> p.points().contains(v),
{
}

proof fn lemma_permanent_points(d: DependencySet, p: PermanentDependencySet)
    requires
        d is Permanent ==> p == d->Permanent_0,
        d is Permanent ==> strictly_descending(p.points()),
        d is Union ==> canonical_of(p, |v: i32| set_points(d).contains(v)),
    ensures
        strictly_descending(p.points()),
        forall|v: i32| #[trigger] p.points().contains(v) <==> set_points(d).contains(v),
{
    assert forall|v: i32| #[trigger] p.points().contains(v) <==> set_points(d).contains(v) by {
        if d is Union {
            let f = |v: i32| set_points(d).contains(v);
            assert(p.points().contains(v) <==> f(v));
        }
    }
}

/// Appends the branching points that `dependency_set` holds to `out`.
fn collect_branching_points(dependency_set: &DependencySet, out: &mut Vec<i32>)
    ensures
        forall|v: i32|
            #[trigger] final(out)@.contains(v) <==> (old(out)@.contains(v) || set_points(
                *dependency_set,
            ).contains(v)),
    decreases dependency_set,
{
    match dependency_set {
        DependencySet::Permanent(s) => {
            let points = s.points_vec();
            let ghost before = out@;
            assert(before == old(out)@);
            let mut j: usize = 0;
            while j < points.len()
                invariant
                    j <= points@.len(),
                    out@ == before + points@.take(j as int),
                decreases points@.len() - j,
            {
                out.push(points[j]);
                j = j + 1;
                assert(out@ =~= before + points@.take(j as int));
            }
            assert(points@.take(j as int) =~= points@);
            assert forall|v: i32| #[trigger] out@.contains(v) <==> (before.contains(v)
                || set_points(*dependency_set).contains(v)) by {
                assert(set_points(*dependency_set).contains(v) == points@.contains(v));
                if out@.contains(v) {
                    let n = choose|n: int| 0 <= n < out@.len() && out@[n] == v;
                    if n >= before.len() {
                        assert(points@[n - before.len()] == v);
                    } else {
                        assert(before[n] == v);
                    }
                }
                if points@.contains(v) {
                    let n = choose|n: int| 0 <= n < points@.len() && points@[n] == v;
                    assert(out@[before.len() + n] == v);
                }
                if before.contains(v) {
                    let n = choose|n: int| 0 <= n < before.len() && before[n] == v;
                    assert(out@[n] == v);
                }
            }
        },
        DependencySet::Union(u) => collect_union_points(u, out),
    }
}

fn collect_union_points(u: &UnionDependencySet, out: &mut Vec<i32>)
    ensures
        forall|v: i32|
            #[trigger] final(out)@.contains(v) <==> (old(out)@.contains(v) || union_holds_point(
                *u,
                v,
            )),
    decreases u,
{
    let ghost before = out@;
    let mut i: usize = 0;
    while i < u.dependency_sets.len()
        invariant
            i <= u.dependency_sets@.len(),
            before == old(out)@,
            forall|v: i32|
                #[trigger] out@.contains(v) <==> (before.contains(v) || exists|k: int|
                    0 <= k < i && #[trigger] set_points(u.dependency_sets@[k]).contains(v)),
        decreases u.dependency_sets@.len() - i,
    {
        proof {
            assert(decreases_to!(u => u.dependency_sets@));
        }
        let ghost mid = out@;
        collect_branching_points(&u.dependency_sets[i], out);
        proof {
            assert forall|v: i32| #[trigger] out@.contains(v) <==> (before.contains(v) || exists|k: int|
                0 <= k < i + 1 && #[trigger] set_points(u.dependency_sets@[k]).contains(v)) by {
                if set_points(u.dependency_sets@[i as int]).contains(v) {
                    assert(0 <= i < i + 1);
                }
                if exists|k: int|
                    0 <= k < i + 1 && #[trigger] set_points(u.dependency_sets@[k]).contains(v) {
                    let k = choose|k: int|
                        0 <= k < i + 1 && #[trigger] set_points(u.dependency_sets@[k]).contains(v);
                    if k < i {
                        assert(mid.contains(v));
                    }
                }
            }
        }
        i = i + 1;
    }
    assert forall|v: i32| #[trigger] out@.contains(v) <==> (before.contains(v) || union_holds_point(
        *u,
        v,
    )) by {
        if exists|k: int|
            0 <= k < u.dependency_sets@.len() && #[trigger] set_points(
                u.dependency_sets@[k],
            ).contains(v) {
            let k = choose|k: int|
                0 <= k < u.dependency_sets@.len() && #[trigger] set_points(
                    u.dependency_sets@[k],
                ).contains(v);
            assert(union_holds_point(*u, v));
        }
        if union_holds_point(*u, v) {
            let k = choose|k: int|
                #![trigger u.dependency_sets@[k]]
                0 <= k < u.dependency_sets@.len() && set_points(u.dependency_sets@[k]).contains(v);
            assert(set_points(u.dependency_sets@[k]).contains(v));
        }
    }
}

/// Some constituent among the first `n` is present and holds `v`.
pub open spec fn present_in(constituents: Seq<Option<PermanentDependencySet>>, n: int, v: i32) -> bool {
    exists|k: int|
        0 <= k < n && (#[trigger] constituents[k] matches Some(s) && s.points().contains(v))
}

proof fn lemma_present_step(
    constituents: Seq<Option<PermanentDependencySet>>,
    i: int,
    before: Seq<i32>,
    after: Seq<i32>,
)
    requires
        0 <= i < constituents.len(),
        forall|v: i32| #[trigger] before.contains(v) <==> present_in(constituents, i, v),
        after == match constituents[i] {
            Some(s) => before + s.points(),
            None => before,
        },
    ensures
        forall|v: i32| #[trigger] after.contains(v) <==> present_in(constituents, i + 1, v),
{
    assert forall|v: i32| #[trigger] after.contains(v) <==> present_in(constituents, i + 1, v) by {
        if after.contains(v) {
            let n = choose|n: int| 0 <= n < after.len() && after[n] == v;
            if n >= before.len() {
                let s = constituents[i]->Some_0;
                assert(s.points()[n - before.len()] == v);
                assert(constituents[i] matches Some(s) && s.points().contains(v));
            } else {
                assert(before[n] == v);
                assert(before.contains(v));
                let k = choose|k: int|
                    0 <= k < i && (#[trigger] constituents[k] matches Some(s) && s.points().contains(
                        v,
                    ));
                assert(0 <= k < i + 1 && (constituents[k] matches Some(s) && s.points().contains(v)));
            }
        }
        if present_in(constituents, i + 1, v) {
            let k = choose|k: int|
                0 <= k < i + 1 && (#[trigger] constituents[k] matches Some(s) && s.points().contains(
                    v,
                ));
            if k == i {
                let s = constituents[i]->Some_0;
                let n = choose|n: int| 0 <= n < s.points().len() && s.points()[n] == v;
                assert(after[before.len() + n] == v);
            } else {
                assert(present_in(constituents, i, v));
                assert(before.contains(v));
                let n = choose|n: int| 0 <= n < before.len() && before[n] == v;
                assert(after[n] == v);
            }
        }
    }
}

} // verus!
