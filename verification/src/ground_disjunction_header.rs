use vstd::prelude::*;
use crate::object::{AtLeastKind, DLPredicate};

verus! {

/// A disjunct and how often backtracking left it.
struct DisjunctIndexWithBacktrackings {
    disjunct_index: usize,
    number_of_backtrackings: i32,
}

/// The indices `i < n` whose predicate is of at-least kind `kind`, ascending.
pub open spec fn indices_of(predicates: Seq<DLPredicate>, kind: AtLeastKind, n: int) -> Seq<usize>
    decreases n,
{
    if n <= 0 || n > predicates.len() {
        Seq::empty()
    } else if predicates[n - 1].at_least == kind {
        indices_of(predicates, kind, n - 1).push((n - 1) as usize)
    } else {
        indices_of(predicates, kind, n - 1)
    }
}

/// The sum of the arities of the first `n` predicates.
pub open spec fn arity_sum(predicates: Seq<DLPredicate>, n: int) -> nat
    decreases n,
{
    if n <= 0 || n > predicates.len() {
        0
    } else {
        arity_sum(predicates, n - 1) + predicates[n - 1].arity as nat
    }
}

/// The initial order of the disjuncts: the ones that are not at-least
/// concepts, then the at-least concepts over a negated atomic concept, then
/// the other at-least concepts, each group in the order of the predicates.
pub open spec fn initial_order(predicates: Seq<DLPredicate>) -> Seq<usize> {
    indices_of(predicates, AtLeastKind::NotAtLeast, predicates.len() as int) + indices_of(
        predicates,
        AtLeastKind::OverNegatedAtomic,
        predicates.len() as int,
    ) + indices_of(predicates, AtLeastKind::Other, predicates.len() as int)
}

/// One step of moving the entry at `cur` towards `end` while it was
/// backtracked more often than its successor.
pub open spec fn bubble(s: Seq<(usize, i32)>, cur: int, end: int) -> Seq<(usize, i32)>
    decreases end - cur,
{
    if 0 <= cur && cur + 1 < end && end <= s.len() && s[cur].1 > s[cur + 1].1 {
        bubble(s.update(cur, s[cur + 1]).update(cur + 1, s[cur]), cur + 1, end)
    } else {
        s
    }
}

/// Moving a disjunct on after a backtracking keeps it within its group: the
/// entry at `cur` passes exactly the entries after it, before `end`, that
/// were left less often than it, and those keep their order; no other entry
/// moves.
pub proof fn lemma_bubble_passes_less_backtracked(s: Seq<(usize, i32)>, cur: int, end: int) -> (m:
    int)
    requires
        0 <= cur < end <= s.len(),
    ensures
        cur <= m < end,
        bubble(s, cur, end) == s.take(cur) + s.subrange(cur + 1, m + 1) + seq![s[cur]] + s.skip(m + 1),
        forall|k: int| cur < k <= m ==> #[trigger] s[k].1 < s[cur].1,
        m + 1 < end ==> s[m + 1].1 >= s[cur].1,
    decreases end - cur,
{
    if cur + 1 < end && s[cur].1 > s[cur + 1].1 {
        let s2 = s.update(cur, s[cur + 1]).update(cur + 1, s[cur]);
        let m = lemma_bubble_passes_less_backtracked(s2, cur + 1, end);
        assert(s2.take(cur + 1) =~= s.take(cur).push(s[cur + 1]));
        assert(s2.subrange(cur + 2, m + 1) =~= s.subrange(cur + 2, m + 1));
        assert(s2.skip(m + 1) =~= s.skip(m + 1));
        assert(s.subrange(cur + 1, m + 1) =~= seq![s[cur + 1]] + s.subrange(cur + 2, m + 1));
        assert(bubble(s, cur, end) == bubble(s2, cur + 1, end));
        assert(bubble(s, cur, end) =~= s.take(cur) + s.subrange(cur + 1, m + 1) + seq![s[cur]]
            + s.skip(m + 1));
        assert forall|k: int| cur < k <= m implies #[trigger] s[k].1 < s[cur].1 by {
            if k > cur + 1 {
                assert(s2[k] == s[k]);
            }
        }
        if m + 1 < end {
            assert(s2[m + 1] == s[m + 1]);
        }
        m
    } else {
        assert(s =~= s.take(cur) + s.subrange(cur + 1, cur + 1) + seq![s[cur]] + s.skip(cur + 1));
        cur
    }
}

/// Moving an entry on reorders only the range `cur..end`: the result is a
/// permutation of `s`, every entry outside the range stays in place, and
/// every entry inside comes from inside.
pub proof fn lemma_bubble_permutes_within(s: Seq<(usize, i32)>, cur: int, end: int)
    requires
        0 <= cur < end <= s.len(),
    ensures
        bubble(s, cur, end).len() == s.len(),
        bubble(s, cur, end).to_multiset() == s.to_multiset(),
        forall|k: int| (0 <= k < cur || end <= k < s.len()) ==> #[trigger] bubble(s, cur, end)[k] == s[k],
        forall|k: int|
            cur <= k < end ==> exists|j: int| cur <= j < end && #[trigger] bubble(s, cur, end)[k] == s[j],
{
    let m = lemma_bubble_passes_less_backtracked(s, cur, end);
    let b = bubble(s, cur, end);
    let r = s.remove(cur);
    assert(b =~= r.insert(m, s[cur]));
    vstd::seq_lib::to_multiset_remove(s, cur);
    vstd::seq_lib::to_multiset_insert(r, m, s[cur]);
    vstd::seq_lib::to_multiset_contains(s, s[cur]);
    assert(s.contains(s[cur]));
    assert(b.to_multiset() =~= s.to_multiset()) by {
        broadcast use vstd::multiset::group_multiset_axioms;
    }
    assert forall|k: int| cur <= k < end implies exists|j: int| cur <= j < end && #[trigger] b[k] == s[j] by {
        if k < m {
            assert(b[k] == s[k + 1]);
        } else if k == m {
            assert(b[k] == s[cur]);
        } else {
            assert(b[k] == s[k]);
        }
    }
}

/// A backtracking of disjunct `d`, found at `pos`, reorders only the group
/// `pos..end`: the order after it is a permutation of the order with the
/// count of `d` raised by one, the entries outside the group stay in place,
/// and each entry of the group is one of the group's disjuncts with a count
/// no lower than before.
pub proof fn lemma_backtracking_reorders_within_group(order: Seq<(usize, i32)>, pos: int, end: int, d: usize)
    requires
        0 <= pos < end <= order.len(),
        order[pos].0 == d,
        order[pos].1 < i32::MAX,
    ensures
        ({
            let raised = order.update(pos, (d, (order[pos].1 + 1) as i32));
            let after = bubble(raised, pos, end);
            &&& after.len() == order.len()
            &&& after.to_multiset() == raised.to_multiset()
            &&& forall|k: int| (0 <= k < pos || end <= k < order.len()) ==> #[trigger] after[k] == order[k]
            &&& forall|k: int|
                pos <= k < end ==> exists|j: int|
                    pos <= j < end && #[trigger] after[k].0 == order[j].0 && after[k].1 >= order[j].1
        }),
{
    let raised = order.update(pos, (d, (order[pos].1 + 1) as i32));
    let after = bubble(raised, pos, end);
    lemma_bubble_permutes_within(raised, pos, end);
    assert forall|k: int| pos <= k < end implies exists|j: int|
        pos <= j < end && #[trigger] after[k].0 == order[j].0 && after[k].1 >= order[j].1 by {
        let j = choose|j: int| pos <= j < end && #[trigger] after[k] == raised[j];
        assert(after[k].0 == order[j].0 && after[k].1 >= order[j].1);
    }
}

/// The backtracking count of the first entry from `k` on for disjunct `d`.
pub open spec fn count_from(order: Seq<(usize, i32)>, d: usize, k: int) -> Option<i32>
    decreases order.len() - k,
{
    if k < 0 || k >= order.len() {
        None
    } else if order[k].0 == d {
        Some(order[k].1)
    } else {
        count_from(order, d, k + 1)
    }
}

/// The text of the first `n` disjuncts: each predicate's text followed by its
/// backtracking count in parentheses, separated by ` \/ `.
pub open spec fn header_text(texts: Seq<Seq<char>>, order: Seq<(usize, i32)>, n: int) -> Seq<char>
    decreases n,
{
    if n <= 0 {
        Seq::empty()
    } else {
        header_text(texts, order, n - 1) + (if n > 1 {
            " \\/ "@
        } else {
            Seq::empty()
        }) + texts[n - 1] + " ("@ + match count_from(order, (n - 1) as usize, 0) {
            Some(c) => crate::text::signed_decimal(c as int),
            None => Seq::empty(),
        } + ")"@
    }
}

/// The predicate structure shared by ground disjunctions with the same head
/// predicates: where each disjunct's arguments start, and an order of the
/// disjuncts that adapts to how often backtracking left each of them.
pub struct GroundDisjunctionHeader {
    dl_predicates: Vec<DLPredicate>,
    disjunct_start: Vec<usize>,
    disjunct_indexes_with_backtrackings: Vec<DisjunctIndexWithBacktrackings>,
    first_at_least_positive_index: usize,
    first_at_least_negative_index: usize,
}

impl GroundDisjunctionHeader {
    pub closed spec fn predicates(&self) -> Seq<DLPredicate> {
        self.dl_predicates@
    }

    pub closed spec fn starts(&self) -> Seq<usize> {
        self.disjunct_start@
    }

    /// The disjuncts in their current order, with their backtracking counts.
    pub closed spec fn order(&self) -> Seq<(usize, i32)> {
        self.disjunct_indexes_with_backtrackings@.map_values(
            |e: DisjunctIndexWithBacktrackings| (e.disjunct_index, e.number_of_backtrackings),
        )
    }

    /// Where the at-least concepts over a negated atomic concept start.
    pub closed spec fn negative_start(&self) -> int {
        self.first_at_least_negative_index as int
    }

    /// Where the other at-least concepts start.
    pub closed spec fn positive_start(&self) -> int {
        self.first_at_least_positive_index as int
    }

    /// The groups are nested in the order.
    pub closed spec fn wf(&self) -> bool {
        &&& 0 <= self.first_at_least_negative_index <= self.first_at_least_positive_index
            <= self.disjunct_indexes_with_backtrackings@.len()
        &&& self.disjunct_start@.len() == self.dl_predicates@.len()
    }

    /// The end of the group that holds position `pos`.
    pub open spec fn group_end(&self, pos: int) -> int {
        if pos < self.negative_start() {
            self.negative_start()
        } else if pos < self.positive_start() {
            self.positive_start()
        } else {
            self.order().len() as int
        }
    }

    /// What a header made for `dl_predicates` is before any backtracking.
    pub open spec fn is_initial_for(&self, dl_predicates: Seq<DLPredicate>) -> bool {
        &&& self.wf()
        &&& self.predicates() == dl_predicates
        &&& self.starts().len() == dl_predicates.len()
        &&& forall|i: int|
            0 <= i < dl_predicates.len() ==> #[trigger] self.starts()[i] == arity_sum(
                dl_predicates,
                i,
            )
        &&& self.order() == initial_order(dl_predicates).map_values(|d: usize| (d, 0i32))
        &&& self.negative_start() == indices_of(
            dl_predicates,
            AtLeastKind::NotAtLeast,
            dl_predicates.len() as int,
        ).len()
        &&& self.positive_start() == self.negative_start() + indices_of(
            dl_predicates,
            AtLeastKind::OverNegatedAtomic,
            dl_predicates.len() as int,
        ).len()
    }

    pub fn new(dl_predicates: Vec<DLPredicate>) -> (r: GroundDisjunctionHeader)
        requires
            arity_sum(dl_predicates@, dl_predicates@.len() as int) <= usize::MAX,
        ensures
            r.wf(),
            r.predicates() == dl_predicates@,
            r.starts().len() == dl_predicates@.len(),
            forall|i: int|
                0 <= i < dl_predicates@.len() ==> #[trigger] r.starts()[i] == arity_sum(
                    dl_predicates@,
                    i,
                ),
            r.order() == initial_order(dl_predicates@).map_values(|d: usize| (d, 0i32)),
            r.negative_start() == indices_of(
                dl_predicates@,
                AtLeastKind::NotAtLeast,
                dl_predicates@.len() as int,
            ).len(),
            r.positive_start() == r.negative_start() + indices_of(
                dl_predicates@,
                AtLeastKind::OverNegatedAtomic,
                dl_predicates@.len() as int,
            ).len(),
    {
        let n = dl_predicates.len();
        let ghost p = dl_predicates@;
        let mut disjunct_start: Vec<usize> = Vec::with_capacity(n);
        let mut arguments_size: usize = 0;
        let mut i: usize = 0;
        while i < n
            invariant
                n == p.len(),
                p == dl_predicates@,
                i <= n,
                arguments_size == arity_sum(p, i as int),
                arity_sum(p, n as int) <= usize::MAX,
                disjunct_start@.len() == i,
                forall|k: int| 0 <= k < i ==> #[trigger] disjunct_start@[k] == arity_sum(p, k),
            decreases n - i,
        {
            proof {
                lemma_arity_sum_monotonic(p, i + 1, n as int);
            }
            disjunct_start.push(arguments_size);
            arguments_size = arguments_size + dl_predicates[i].arity;
            i = i + 1;
        }
        let mut order: Vec<DisjunctIndexWithBacktrackings> = Vec::with_capacity(n);
        let ghost kinds = seq![
            AtLeastKind::NotAtLeast,
            AtLeastKind::OverNegatedAtomic,
            AtLeastKind::Other,
        ];
        let mut group: usize = 0;
        let mut first_at_least_negative_index: usize = 0;
        let mut first_at_least_positive_index: usize = 0;
        while group < 3
            invariant
                group <= 3,
                n == p.len(),
                p == dl_predicates@,
                kinds == seq![
                    AtLeastKind::NotAtLeast,
                    AtLeastKind::OverNegatedAtomic,
                    AtLeastKind::Other,
                ],
                fresh_order(order@, groups_order(p, group as int)),
                group >= 1 ==> first_at_least_negative_index == indices_of(
                    p,
                    AtLeastKind::NotAtLeast,
                    n as int,
                ).len(),
                group >= 2 ==> first_at_least_positive_index == indices_of(
                    p,
                    AtLeastKind::NotAtLeast,
                    n as int,
                ).len() + indices_of(p, AtLeastKind::OverNegatedAtomic, n as int).len(),
            decreases 3 - group,
        {
            let kind = if group == 0 {
                AtLeastKind::NotAtLeast
            } else if group == 1 {
                AtLeastKind::OverNegatedAtomic
            } else {
                AtLeastKind::Other
            };
            let mut j: usize = 0;
            while j < n
                invariant
                    n == p.len(),
                    p == dl_predicates@,
                    j <= n,
                    fresh_order(order@, groups_order(p, group as int) + indices_of(p, kind, j as int)),
                decreases n - j,
            {
                if dl_predicates[j].at_least == kind {
                    order.push(DisjunctIndexWithBacktrackings { disjunct_index: j, number_of_backtrackings: 0 });
                }
                j = j + 1;
                proof {
                    let g = groups_order(p, group as int) + indices_of(p, kind, j as int);
                    assert(order@.len() == g.len());
                    assert forall|k: int| 0 <= k < order@.len() implies (#[trigger] order@[k]).disjunct_index
                        == g[k] && order@[k].number_of_backtrackings == 0 by {
                        let g0 = groups_order(p, group as int) + indices_of(p, kind, j - 1);
                        if k < g0.len() {
                            assert(g[k] == g0[k]);
                        }
                    }
                }
            }
            proof {
                assert(groups_order(p, group + 1) =~= groups_order(p, group as int) + indices_of(
                    p,
                    kind,
                    n as int,
                ));
            }
            if group == 0 {
                first_at_least_negative_index = order.len();
            } else if group == 1 {
                first_at_least_positive_index = order.len();
            }
            group = group + 1;
        }
        proof {
            assert(groups_order(p, 3) =~= initial_order(p));
        }
        let r = GroundDisjunctionHeader {
            dl_predicates,
            disjunct_start,
            disjunct_indexes_with_backtrackings: order,
            first_at_least_positive_index,
            first_at_least_negative_index,
        };
        proof {
            assert(r.order() =~= initial_order(p).map_values(|d: usize| (d, 0i32)));
        }
        r
    }
}

impl GroundDisjunctionHeader {
    pub fn dl_predicates(&self) -> (r: &[DLPredicate])
        ensures
            r@ == self.predicates(),
    {
        self.dl_predicates.as_slice()
    }

    /// Where the arguments of disjunct `disjunct_index` start.
    pub fn disjunct_start(&self, disjunct_index: usize) -> (r: usize)
        requires
            self.wf(),
            disjunct_index < self.predicates().len(),
        ensures
            r == self.starts()[disjunct_index as int],
    {
        self.disjunct_start[disjunct_index]
    }

    /// Whether the header is for exactly these head predicates.
    pub fn is_equal(&self, dl_predicates: &[DLPredicate]) -> (r: bool)
        ensures
            r == (self.predicates() == dl_predicates@),
    {
        let mine = &self.dl_predicates;
        if mine.len() != dl_predicates.len() {
            return false;
        }
        let mut i: usize = 0;
        while i < mine.len()
            invariant
                i <= mine@.len(),
                mine@ == self.predicates(),
                mine@.len() == dl_predicates@.len(),
                forall|k: int| 0 <= k < i ==> mine@[k] == dl_predicates@[k],
            decreases mine@.len() - i,
        {
            if mine[i] != dl_predicates[i] {
                return false;
            }
            i = i + 1;
        }
        assert(mine@ =~= dl_predicates@);
        true
    }

    /// The disjuncts in the order in which they are to be tried.
    pub fn get_sorted_disjunct_indexes(&self) -> (r: Vec<usize>)
        ensures
            r@ == self.order().map_values(|e: (usize, i32)| e.0),
    {
        let entries = &self.disjunct_indexes_with_backtrackings;
        let mut r: Vec<usize> = Vec::with_capacity(entries.len());
        let mut i: usize = 0;
        while i < entries.len()
            invariant
                i <= entries@.len(),
                entries@ == self.disjunct_indexes_with_backtrackings@,
                r@.len() == i,
                forall|k: int| 0 <= k < i ==> r@[k] == (#[trigger] entries@[k]).disjunct_index,
            decreases entries@.len() - i,
        {
            r.push(entries[i].disjunct_index);
            i = i + 1;
        }
        assert(r@ =~= self.order().map_values(|e: (usize, i32)| e.0));
        r
    }

    /// Counts one more backtracking from `disjunct_index` and moves it later
    /// within its group while it was left more often than its successor. An
    /// unknown disjunct changes nothing.
    pub fn increase_number_of_backtrackings(&mut self, disjunct_index: usize)
        requires
            old(self).wf(),
            forall|k: int|
                0 <= k < old(self).order().len() && (#[trigger] old(self).order()[k]).0
                    == disjunct_index ==> old(self).order()[k].1 < i32::MAX,
        ensures
            final(self).wf(),
            final(self).predicates() == old(self).predicates(),
            final(self).starts() == old(self).starts(),
            final(self).negative_start() == old(self).negative_start(),
            final(self).positive_start() == old(self).positive_start(),
            forall|pos: int|
                0 <= pos < old(self).order().len() && (#[trigger] old(self).order()[pos]).0
                    == disjunct_index && (forall|k: int|
                    0 <= k < pos ==> (#[trigger] old(self).order()[k]).0 != disjunct_index)
                    ==> final(self).order() == bubble(
                    old(self).order().update(
                        pos,
                        (disjunct_index, (old(self).order()[pos].1 + 1) as i32),
                    ),
                    pos,
                    old(self).group_end(pos),
                ),
            (forall|k: int|
                0 <= k < old(self).order().len() ==> (#[trigger] old(self).order()[k]).0
                    != disjunct_index) ==> final(self).order() == old(self).order(),
    {
        let length = self.disjunct_indexes_with_backtrackings.len();
        let mut index: usize = 0;
        while index < length && self.disjunct_indexes_with_backtrackings[index].disjunct_index
            != disjunct_index
            invariant
                index <= length,
                length == self.disjunct_indexes_with_backtrackings@.len(),
                forall|k: int|
                    0 <= k < index ==> (#[trigger] self.order()[k]).0 != disjunct_index,
            decreases length - index,
        {
            index = index + 1;
        }
        if index == length {
            return;
        }
        let ghost pos = index as int;
        let ghost start = self.order().update(
            pos,
            (disjunct_index, (self.order()[pos].1 + 1) as i32),
        );
        let ghost end = self.group_end(pos);
        let count = self.disjunct_indexes_with_backtrackings[index].number_of_backtrackings;
        self.disjunct_indexes_with_backtrackings.set(
            index,
            DisjunctIndexWithBacktrackings { disjunct_index, number_of_backtrackings: count + 1 },
        );
        assert(self.order() =~= start);
        let partition_end = if index < self.first_at_least_negative_index {
            self.first_at_least_negative_index
        } else if index < self.first_at_least_positive_index {
            self.first_at_least_positive_index
        } else {
            length
        };
        let mut current_index = index;
        let mut next_index = current_index + 1;
        while next_index < partition_end
            && self.disjunct_indexes_with_backtrackings[current_index].number_of_backtrackings
            > self.disjunct_indexes_with_backtrackings[next_index].number_of_backtrackings
            invariant
                self.wf(),
                self.predicates() == old(self).predicates(),
                self.starts() == old(self).starts(),
                self.negative_start() == old(self).negative_start(),
                self.positive_start() == old(self).positive_start(),
                length == self.disjunct_indexes_with_backtrackings@.len(),
                partition_end == end,
                end <= length,
                pos <= current_index < length,
                next_index == current_index + 1,
                bubble(self.order(), current_index as int, end) == bubble(start, pos, end),
            decreases length - current_index,
        {
            let a = self.disjunct_indexes_with_backtrackings[current_index].disjunct_index;
            let ca = self.disjunct_indexes_with_backtrackings[current_index].number_of_backtrackings;
            let b = self.disjunct_indexes_with_backtrackings[next_index].disjunct_index;
            let cb = self.disjunct_indexes_with_backtrackings[next_index].number_of_backtrackings;
            let ghost before = self.order();
            self.disjunct_indexes_with_backtrackings.set(
                current_index,
                DisjunctIndexWithBacktrackings { disjunct_index: b, number_of_backtrackings: cb },
            );
            self.disjunct_indexes_with_backtrackings.set(
                next_index,
                DisjunctIndexWithBacktrackings { disjunct_index: a, number_of_backtrackings: ca },
            );
            assert(self.order() =~= before.update(current_index as int, before[next_index as int]).update(
                next_index as int,
                before[current_index as int],
            ));
            current_index = next_index;
            next_index = next_index + 1;
        }
    }

    /// The text of the header: each predicate's text (as `predicate_texts`
    /// renders it) with its backtracking count in parentheses, separated by
    /// ` \/ `.
    pub fn to_string_prefixes(&self, predicate_texts: &Vec<String>) -> (r: String)
        requires
            predicate_texts@.len() == self.predicates().len(),
        ensures
            r@ == header_text(
                predicate_texts@.map_values(|t: String| t@),
                self.order(),
                self.predicates().len() as int,
            ),
    {
        let ghost texts = predicate_texts@.map_values(|t: String| t@);
        let mut buffer = String::new();
        let mut disjunct_index: usize = 0;
        while disjunct_index < self.dl_predicates.len()
            invariant
                disjunct_index <= self.predicates().len(),
                predicate_texts@.len() == self.predicates().len(),
                texts == predicate_texts@.map_values(|t: String| t@),
                buffer@ == header_text(texts, self.order(), disjunct_index as int),
            decreases self.predicates().len() - disjunct_index,
        {
            if disjunct_index > 0 {
                buffer.append(" \\/ ");
            }
            buffer.append(predicate_texts[disjunct_index].as_str());
            buffer.append(" (");
            let count = self.count_of(disjunct_index);
            match count {
                Some(c) => crate::text::push_signed_decimal(&mut buffer, c as i64),
                None => {},
            }
            buffer.append(")");
            proof {
                assert(buffer@ =~= header_text(texts, self.order(), disjunct_index + 1));
            }
            disjunct_index = disjunct_index + 1;
        }
        buffer
    }

    /// The backtracking count of disjunct `d`, if the order holds it.
    fn count_of(&self, d: usize) -> (r: Option<i32>)
        ensures
            r == count_from(self.order(), d, 0),
    {
        let entries = &self.disjunct_indexes_with_backtrackings;
        let mut k: usize = 0;
        while k < entries.len()
            invariant
                k <= entries@.len(),
                entries@ == self.disjunct_indexes_with_backtrackings@,
                count_from(self.order(), d, 0) == count_from(self.order(), d, k as int),
            decreases entries@.len() - k,
        {
            if entries[k].disjunct_index == d {
                return Some(entries[k].number_of_backtrackings);
            }
            k = k + 1;
        }
        None
    }
}

/// `order` holds the disjuncts `g`, none of them backtracked yet.
spec fn fresh_order(order: Seq<DisjunctIndexWithBacktrackings>, g: Seq<usize>) -> bool {
    &&& order.len() == g.len()
    &&& forall|k: int|
        0 <= k < order.len() ==> (#[trigger] order[k]).disjunct_index == g[k]
            && order[k].number_of_backtrackings == 0
}

/// The first `g` groups of the initial order.
pub open spec fn groups_order(predicates: Seq<DLPredicate>, g: int) -> Seq<usize> {
    let n = predicates.len() as int;
    let a = indices_of(predicates, AtLeastKind::NotAtLeast, n);
    let b = indices_of(predicates, AtLeastKind::OverNegatedAtomic, n);
    let c = indices_of(predicates, AtLeastKind::Other, n);
    if g <= 0 {
        Seq::empty()
    } else if g == 1 {
        a
    } else if g == 2 {
        a + b
    } else {
        a + b + c
    }
}

proof fn lemma_arity_sum_monotonic(p: Seq<DLPredicate>, i: int, n: int)
    requires
        0 <= i <= n <= p.len(),
    ensures
        arity_sum(p, i) <= arity_sum(p, n),
    decreases n - i,
{
    if i < n {
        lemma_arity_sum_monotonic(p, i, n - 1);
    }
}

} // verus!
