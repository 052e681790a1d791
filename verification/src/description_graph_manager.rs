use vstd::prelude::*;
use crate::dependency_set::{DependencySetFactory, PermanentDependencySet};
use crate::extension_table::{
    backtracked, core_upgraded, delta_propagated, marks_saved, occupied, stored_tuple, tuple_stored,
    usages_released, ExtensionTable, StoreOutcome,
};
use crate::extension_manager::node_active;
use crate::node::Node;
use crate::tuple_table::TupleTable;
use crate::object::{DescriptionGraph, ExistsDescriptionGraph, TableauObject};
use crate::tuple_table::PAGE_SIZE;
use rustc_hash::FxBuildHasher;
use std::collections::HashMap;

verus! {

/// Offsets of the four components within an occurrence record.
pub const GRAPH_INDEX: usize = 0;
pub const TUPLE_INDEX: usize = 1;
pub const POSITION_IN_TUPLE: usize = 2;
pub const NEXT_NODE: usize = 3;
pub const LIST_NODE_SIZE: usize = 4;

/// The record store and free-list head after the record at `list_node`
/// returns to the head of the free list.
pub open spec fn freed(cells: Seq<i32>, head: int, list_node: int) -> (Seq<i32>, int) {
    (cells.update(list_node + NEXT_NODE, head as i32), list_node)
}

/// The record store and free-list head after the head record is taken: the
/// free list goes on at the record's link, or, where that is null, at the
/// next record, which the store is grown with zeros to hold and whose link is
/// set to null.
pub open spec fn taken(cells: Seq<i32>, head: int) -> (Seq<i32>, int) {
    let next = cells[head + NEXT_NODE];
    if next != -1 {
        (cells, (next as usize) as int)
    } else {
        let fresh = head + LIST_NODE_SIZE;
        let len = if fresh + LIST_NODE_SIZE > cells.len() {
            fresh + LIST_NODE_SIZE
        } else {
            cells.len() as int
        };
        (
            Seq::new(
                len as nat,
                |k: int|
                    if k == fresh + NEXT_NODE {
                        -1i32
                    } else if k < cells.len() {
                        cells[k]
                    } else {
                        0i32
                    },
            ),
            fresh,
        )
    }
}

/// Records are handed out in order once the free list is spent: taking a
/// head record whose link is null makes the next record the head, with a
/// null link in its turn. After `clear` the head is the first record with a
/// null link, so records come out first, second, third, and so on, until one
/// is freed.
pub proof fn lemma_fresh_records_follow(cells: Seq<i32>, head: int)
    requires
        0 <= head,
        head + NEXT_NODE < cells.len(),
        cells[head + NEXT_NODE] == -1,
    ensures
        taken(cells, head).1 == head + LIST_NODE_SIZE,
        head + LIST_NODE_SIZE + NEXT_NODE < taken(cells, head).0.len(),
        taken(cells, head).0[head + LIST_NODE_SIZE + NEXT_NODE] == -1,
        forall|k: int| 0 <= k < cells.len() && k != head + LIST_NODE_SIZE + NEXT_NODE ==> #[trigger] taken(cells, head).0[k] == cells[k],
{
}

/// A freed record is the next one taken, and the free list then goes on
/// where it went before the record was freed.
pub proof fn lemma_freed_record_taken_next(cells: Seq<i32>, head: int, list_node: int)
    requires
        0 <= head <= i32::MAX,
        0 <= list_node,
        list_node + NEXT_NODE < cells.len(),
    ensures
        freed(cells, head, list_node).1 == list_node,
        taken(freed(cells, head, list_node).0, list_node) == (freed(cells, head, list_node).0, head),
{
    let c = freed(cells, head, list_node).0;
    assert(c[list_node + NEXT_NODE] == head as i32);
    assert(head as i32 == head);
}

/// A store of occurrence records with a free list. A list node is the base
/// index of a record; `-1` is the null link.
pub struct OccurrenceManager {
    store: Vec<i32>,
    first_free_list_node: usize,
}

impl OccurrenceManager {
    /// The record store.
    pub closed spec fn cells(&self) -> Seq<i32> {
        self.store@
    }

    /// The head of the free list.
    pub closed spec fn free_head(&self) -> int {
        self.first_free_list_node as int
    }

    /// The store holds at least the first record; a new manager does, and no
    /// operation shrinks the store.
    pub open spec fn holds_first_record(&self) -> bool {
        self.cells().len() >= LIST_NODE_SIZE
    }

    pub fn new() -> (r: OccurrenceManager)
        ensures
            r.cells() == seq![0i32, 0i32, 0i32, -1i32],
            r.free_head() == 0,
            r.holds_first_record(),
    {
        let mut store: Vec<i32> = vec![0; LIST_NODE_SIZE];
        store.set(NEXT_NODE, -1);
        let r = OccurrenceManager { store, first_free_list_node: 0 };
        assert(r.store@ =~= seq![0i32, 0i32, 0i32, -1i32]);
        r
    }

    /// Forgets every record: the free list starts again at the first record.
    pub fn clear(&mut self)
        requires
            old(self).holds_first_record(),
        ensures
            final(self).free_head() == 0,
            final(self).cells() == old(self).cells().update(NEXT_NODE as int, -1i32),
            final(self).holds_first_record(),
    {
        self.first_free_list_node = 0;
        self.set_component(0, NEXT_NODE, -1);
    }

    pub fn get_component(&self, list_node: usize, component: usize) -> (r: i32)
        requires
            list_node + component < self.cells().len(),
        ensures
            r == self.cells()[list_node + component],
    {
        let length = self.store.len();
        assert(list_node + component < length);
        self.store[list_node + component]
    }

    pub fn set_component(&mut self, list_node: usize, component: usize, value: i32)
        requires
            list_node + component < old(self).cells().len(),
        ensures
            final(self).cells() == old(self).cells().update(list_node + component, value),
            final(self).free_head() == old(self).free_head(),
            final(self).cells().len() == old(self).cells().len(),
    {
        let length = self.store.len();
        assert(list_node + component < length);
        let index = list_node + component;
        self.store.set(index, value);
    }

    pub fn graph_index(&self, list_node: usize) -> (r: i32)
        requires
            list_node + GRAPH_INDEX < self.cells().len(),
        ensures
            r == self.cells()[list_node + GRAPH_INDEX],
    {
        self.get_component(list_node, GRAPH_INDEX)
    }

    pub fn tuple_index(&self, list_node: usize) -> (r: i32)
        requires
            list_node + TUPLE_INDEX < self.cells().len(),
        ensures
            r == self.cells()[list_node + TUPLE_INDEX],
    {
        self.get_component(list_node, TUPLE_INDEX)
    }

    pub fn position_in_tuple(&self, list_node: usize) -> (r: i32)
        requires
            list_node + POSITION_IN_TUPLE < self.cells().len(),
        ensures
            r == self.cells()[list_node + POSITION_IN_TUPLE],
    {
        self.get_component(list_node, POSITION_IN_TUPLE)
    }

    pub fn next_node(&self, list_node: usize) -> (r: i32)
        requires
            list_node + NEXT_NODE < self.cells().len(),
        ensures
            r == self.cells()[list_node + NEXT_NODE],
    {
        self.get_component(list_node, NEXT_NODE)
    }

    /// Writes the four components of the record at `list_node`.
    pub fn initialize_list_node(
        &mut self,
        list_node: usize,
        graph_index: i32,
        tuple_index: i32,
        position_in_tuple: i32,
        next_list_node: i32,
    )
        requires
            list_node + NEXT_NODE < old(self).cells().len(),
        ensures
            final(self).cells() == old(self).cells().update(list_node + GRAPH_INDEX, graph_index).update(
                list_node + TUPLE_INDEX,
                tuple_index,
            ).update(list_node + POSITION_IN_TUPLE, position_in_tuple).update(
                list_node + NEXT_NODE,
                next_list_node,
            ),
            final(self).free_head() == old(self).free_head(),
            final(self).cells().len() == old(self).cells().len(),
    {
        self.set_component(list_node, GRAPH_INDEX, graph_index);
        self.set_component(list_node, TUPLE_INDEX, tuple_index);
        self.set_component(list_node, POSITION_IN_TUPLE, position_in_tuple);
        self.set_component(list_node, NEXT_NODE, next_list_node);
    }

    /// Takes the record at the head of the free list. When the free list has
    /// no successor, the head moves to the next record, grown with zeros if
    /// the store ends there, and that record's link is set to null.
    pub fn new_list_node(&mut self) -> (r: usize)
        requires
            old(self).free_head() + NEXT_NODE < old(self).cells().len(),
            old(self).free_head() + 2 * LIST_NODE_SIZE <= usize::MAX,
        ensures
            r == old(self).free_head(),
            (final(self).cells(), final(self).free_head()) == taken(old(self).cells(), old(self).free_head()),
            final(self).cells().len() >= old(self).cells().len(),
    {
        let new_list_node = self.first_free_list_node;
        let next_free = self.get_component(self.first_free_list_node, NEXT_NODE);
        if next_free != -1 {
            self.first_free_list_node = next_free as usize;
        } else {
            self.first_free_list_node = self.first_free_list_node + LIST_NODE_SIZE;
            if self.first_free_list_node + LIST_NODE_SIZE > self.store.len() {
                let target = self.first_free_list_node + LIST_NODE_SIZE;
                self.store.resize(target, 0);
            }
            let head = self.first_free_list_node;
            self.set_component(head, NEXT_NODE, -1);
        }
        assert(self.store@ =~= taken(old(self).cells(), old(self).free_head()).0);
        new_list_node
    }

    /// Returns the record at `list_node` to the head of the free list.
    pub fn delete_list_node(&mut self, list_node: usize)
        requires
            list_node + NEXT_NODE < old(self).cells().len(),
        ensures
            (final(self).cells(), final(self).free_head()) == freed(
                old(self).cells(),
                old(self).free_head(),
                list_node as int,
            ),
            final(self).cells().len() == old(self).cells().len(),
    {
        let head = self.first_free_list_node as i32;
        self.set_component(list_node, NEXT_NODE, head);
        self.first_free_list_node = list_node;
    }
}

// ---------------------------------------------------------------------------
// The occurrence-head and graph-index tables.

/// What an occurrence-head table holds: the first record of each node's
/// occurrence list.
pub uninterp spec fn head_entries(heads: HashMap<usize, i32, FxBuildHasher>) -> Map<usize, i32>;

/// What a graph-index table holds: each graph's index, by graph id.
pub uninterp spec fn index_entries(indices: HashMap<usize, usize, FxBuildHasher>) -> Map<
    usize,
    usize,
>;

/// The contents of an empty occurrence-head table.
pub open spec fn no_heads() -> Map<usize, i32> {
    Map::empty()
}

/// A fresh empty occurrence-head table (`HashMap::default`).
#[verifier::external_body]
fn new_heads() -> (r: HashMap<usize, i32, FxBuildHasher>)
    ensures
        head_entries(r) == no_heads(),
{
    HashMap::default()
}

/// The head recorded for `node`, if any (`HashMap::get`).
#[verifier::external_body]
fn head_of(heads: &HashMap<usize, i32, FxBuildHasher>, node: usize) -> (r: Option<i32>)
    ensures
        r == if head_entries(*heads).contains_key(node) {
            Some(head_entries(*heads)[node])
        } else {
            None
        },
{
    heads.get(&node).copied()
}

/// Records `head` for `node` (`HashMap::insert`).
#[verifier::external_body]
fn set_head(heads: &mut HashMap<usize, i32, FxBuildHasher>, node: usize, head: i32)
    ensures
        head_entries(*final(heads)) == head_entries(*old(heads)).insert(node, head),
{
    heads.insert(node, head);
}

/// Forgets the head of `node` (`HashMap::remove`).
#[verifier::external_body]
fn drop_head(heads: &mut HashMap<usize, i32, FxBuildHasher>, node: usize)
    ensures
        head_entries(*final(heads)) == head_entries(*old(heads)).remove(node),
{
    heads.remove(&node);
}

/// Forgets every head (`HashMap::clear`).
#[verifier::external_body]
fn clear_heads(heads: &mut HashMap<usize, i32, FxBuildHasher>)
    ensures
        head_entries(*final(heads)) == no_heads(),
{
    heads.clear();
}

/// The contents of an empty graph-index table.
pub open spec fn no_indices() -> Map<usize, usize> {
    Map::empty()
}

/// A fresh empty graph-index table (`HashMap::default`).
#[verifier::external_body]
fn new_indices() -> (r: HashMap<usize, usize, FxBuildHasher>)
    ensures
        index_entries(r) == no_indices(),
{
    HashMap::default()
}

/// Records `index` for the graph with id `id` (`HashMap::insert`).
#[verifier::external_body]
fn set_index(indices: &mut HashMap<usize, usize, FxBuildHasher>, id: usize, index: usize)
    ensures
        index_entries(*final(indices)) == index_entries(*old(indices)).insert(id, index),
{
    indices.insert(id, index);
}

/// The index recorded for the graph with id `id`, if any (`HashMap::get`).
#[verifier::external_body]
fn index_of(indices: &HashMap<usize, usize, FxBuildHasher>, id: usize) -> (r: Option<usize>)
    ensures
        r == if index_entries(*indices).contains_key(id) {
            Some(index_entries(*indices)[id])
        } else {
            None
        },
{
    indices.get(&id).copied()
}

// ---------------------------------------------------------------------------
// Occurrence lists.

/// The occurrence held by record `r` of `cells`: graph index, tuple index and
/// position in the tuple.
pub open spec fn record_at(cells: Seq<i32>, r: int) -> (i32, i32, i32) {
    (cells[LIST_NODE_SIZE * r + GRAPH_INDEX], cells[LIST_NODE_SIZE * r + TUPLE_INDEX], cells[
        LIST_NODE_SIZE * r + POSITION_IN_TUPLE])
}

/// The graph indices by graph id that the first `n` of `graphs` give, a later
/// graph winning for a repeated id.
pub open spec fn positions_of(graphs: Seq<DescriptionGraph>, n: int) -> Map<usize, usize>
    decreases n,
{
    if n <= 0 || n > graphs.len() {
        Map::empty()
    } else {
        positions_of(graphs, n - 1).insert(graphs[n - 1].id, (n - 1) as usize)
    }
}

/// The link stored in record `r` of `cells`.
spec fn link_of(cells: Seq<i32>, r: int) -> i32 {
    cells[LIST_NODE_SIZE * r + NEXT_NODE]
}

/// The records, numbered by their base divided by the record size, form the
/// occurrence lists `lists` of the nodes that `heads` names and the free list
/// `free` starting at `free_head`, whose last record is the frontier beyond
/// which no record was ever taken; `owner` names for each list record its
/// node and its place counted from the list's end, so no record is in two
/// places.
spec fn occurrence_structure(
    cells: Seq<i32>,
    free_head: int,
    heads: Map<usize, i32>,
    lists: Map<usize, Seq<int>>,
    free: Seq<int>,
    owner: Map<int, (usize, int)>,
) -> bool {
    let fr = free.last();
    &&& free.len() >= 1
    &&& 0 <= fr
    &&& free_head == LIST_NODE_SIZE * free[0]
    &&& LIST_NODE_SIZE * fr + LIST_NODE_SIZE <= cells.len()
    &&& LIST_NODE_SIZE * fr + 2 * LIST_NODE_SIZE <= i32::MAX
    &&& link_of(cells, fr) == -1
    &&& forall|k: int|
        0 <= k < free.len() - 1 ==> 0 <= #[trigger] free[k] < fr && link_of(cells, free[k])
            == LIST_NODE_SIZE * free[k + 1]
    &&& forall|k: int| 0 <= k < free.len() ==> !owner.contains_key(#[trigger] free[k])
    &&& forall|r: int| #[trigger] owner.contains_key(r) ==> 0 <= r < fr
    &&& forall|k1: int, k2: int|
        0 <= k1 < free.len() && 0 <= k2 < free.len() && k1 != k2 ==> #[trigger] free[k1]
            != #[trigger] free[k2]
    &&& forall|n: usize| #[trigger] heads.contains_key(n) <==> lists.contains_key(n)
    &&& forall|n: usize|
        #[trigger] lists.contains_key(n) ==> lists[n].len() >= 1 && heads[n] == LIST_NODE_SIZE
            * lists[n][0]
    &&& forall|n: usize, k: int|
        lists.contains_key(n) && 0 <= k < lists[n].len() ==> {
            let r = #[trigger] lists[n][k];
            &&& 0 <= r < fr
            &&& owner.contains_key(r)
            &&& owner[r] == (n, lists[n].len() - 1 - k)
            &&& link_of(cells, r) == if k + 1 < lists[n].len() {
                LIST_NODE_SIZE * lists[n][k + 1]
            } else {
                -1
            }
        }
}

/// The list `lists[n]` with record `r` in front, or `r` alone.
spec fn with_front(lists: Map<usize, Seq<int>>, n: usize, r: int) -> Map<usize, Seq<int>> {
    lists.insert(
        n,
        seq![r] + if lists.contains_key(n) {
            lists[n]
        } else {
            Seq::empty()
        },
    )
}

/// The lists without the first record of `lists[n]`, `n` dropped when that
/// was its only record.
spec fn without_front(lists: Map<usize, Seq<int>>, n: usize) -> Map<usize, Seq<int>> {
    if lists[n].len() <= 1 {
        lists.remove(n)
    } else {
        lists.insert(n, lists[n].drop_first())
    }
}

/// Taking the first free record for the front of `n`'s list, writing the
/// occurrence `(g, t, p)` and the old head into it, keeps the structure.
proof fn lemma_take_record(
    cells: Seq<i32>,
    heads: Map<usize, i32>,
    lists: Map<usize, Seq<int>>,
    free: Seq<int>,
    owner: Map<int, (usize, int)>,
    n: usize,
    g: i32,
    t: i32,
    p: i32,
) -> (res: (Seq<i32>, Seq<int>))
    requires
        occurrence_structure(cells, LIST_NODE_SIZE * free[0], heads, lists, free, owner),
        LIST_NODE_SIZE * free.last() + 3 * LIST_NODE_SIZE <= i32::MAX,
    ensures
        ({
            let r0 = free[0];
            let (c1, fh1) = taken(cells, LIST_NODE_SIZE * r0);
            let head = if heads.contains_key(n) {
                heads[n]
            } else {
                -1i32
            };
            let c2 = c1.update(LIST_NODE_SIZE * r0 + GRAPH_INDEX, g).update(
                LIST_NODE_SIZE * r0 + TUPLE_INDEX,
                t,
            ).update(LIST_NODE_SIZE * r0 + POSITION_IN_TUPLE, p).update(
                LIST_NODE_SIZE * r0 + NEXT_NODE,
                head,
            );
            let new_lists = with_front(lists, n, r0);
            let old_len = if lists.contains_key(n) {
                lists[n].len() as int
            } else {
                0
            };
            &&& res.0 == c2
            &&& fh1 == LIST_NODE_SIZE * res.1[0]
            &&& 0 <= LIST_NODE_SIZE * r0 <= i32::MAX
            &&& LIST_NODE_SIZE * r0 + NEXT_NODE < c1.len()
            &&& occurrence_structure(
                c2,
                fh1,
                heads.insert(n, (LIST_NODE_SIZE * r0) as i32),
                new_lists,
                res.1,
                owner.insert(r0, (n, old_len)),
            )
            &&& res.1.last() <= free.last() + 1
            &&& occurrences_of(c2, new_lists) == occurrences_of(cells, lists).insert(
                n,
                seq![(g, t, p)] + if lists.contains_key(n) {
                    occurrences_of(cells, lists)[n]
                } else {
                    Seq::empty()
                },
            )
        }),
{
    let fr = free.last();
    let r0 = free[0];
    let x = LIST_NODE_SIZE * r0;
    let (c1, fh1) = taken(cells, x);
    let grow = free.len() == 1;
    let new_free = if grow {
        seq![r0 + 1]
    } else {
        free.drop_first()
    };
    if !grow {
        assert(link_of(cells, free[0]) == LIST_NODE_SIZE * free[1]);
        assert(c1 == cells);
        assert(fh1 == LIST_NODE_SIZE * free[1]);
        assert(new_free.last() == fr);
        assert(0 <= r0 < fr);
    } else {
        assert(r0 == fr);
        assert(fh1 == x + LIST_NODE_SIZE);
        assert(new_free.last() == r0 + 1);
    }
    let head = if heads.contains_key(n) {
        heads[n]
    } else {
        -1i32
    };
    let c2 = c1.update(x + GRAPH_INDEX, g).update(x + TUPLE_INDEX, t).update(
        x + POSITION_IN_TUPLE,
        p,
    ).update(x + NEXT_NODE, head);
    let new_lists = with_front(lists, n, r0);
    let old_len = if lists.contains_key(n) {
        lists[n].len() as int
    } else {
        0
    };
    let new_owner = owner.insert(r0, (n, old_len));
    let new_heads = heads.insert(n, x as i32);
    // Records other than the taken one (and, when growing, the new frontier)
    // keep their cells.
    assert forall|r: int| 0 <= r < fr && r != r0 implies #[trigger] link_of(c2, r) == link_of(
        cells,
        r,
    ) && record_at(c2, r) == record_at(cells, r) by {}
    assert(!owner.contains_key(r0));
    assert forall|m: usize, k: int|
        new_lists.contains_key(m) && 0 <= k < new_lists[m].len() implies {
        let r = #[trigger] new_lists[m][k];
        &&& 0 <= r < new_free.last()
        &&& new_owner.contains_key(r)
        &&& new_owner[r] == (m, new_lists[m].len() - 1 - k)
        &&& link_of(c2, r) == if k + 1 < new_lists[m].len() {
            LIST_NODE_SIZE * new_lists[m][k + 1]
        } else {
            -1
        }
    } by {
        if m == n {
            if k == 0 {
                assert(new_lists[m][k] == r0);
                assert(0 <= r0 < new_free.last());
                assert(new_owner[r0] == (m, new_lists[m].len() - 1 - k));
                assert(link_of(c2, r0) == head);
                if lists.contains_key(n) {
                    assert(new_lists[m][1] == lists[n][0]);
                }
            } else {
                assert(new_lists[m][k] == lists[n][k - 1]);
                let r = lists[n][k - 1];
                assert(owner.contains_key(r));
                assert(r != r0);
                assert(0 <= r < new_free.last());
                assert(new_owner[r] == (m, new_lists[m].len() - 1 - k));
                assert(link_of(c2, r) == link_of(cells, r));
                if k < new_lists[m].len() - 1 {
                    assert(new_lists[m][k + 1] == lists[n][k]);
                }
            }
        } else {
            assert(new_lists[m] == lists[m]);
            let r = lists[m][k];
            assert(owner.contains_key(r));
            assert(r != r0);
        }
    }
    assert forall|k1: int, k2: int|
        0 <= k1 < new_free.len() && 0 <= k2 < new_free.len() && k1 != k2 implies #[trigger] new_free[k1]
        != #[trigger] new_free[k2] by {
        if !grow {
            assert(new_free[k1] == free[k1 + 1]);
            assert(new_free[k2] == free[k2 + 1]);
        }
    }
    assert forall|k: int| 0 <= k < new_free.len() implies !new_owner.contains_key(#[trigger] new_free[k]) by {
        if !grow {
            assert(new_free[k] == free[k + 1]);
            assert(free[k + 1] != free[0]);
        } else {
            assert(new_free[k] == r0 + 1);
            if owner.contains_key(r0 + 1) {
                assert(r0 + 1 > fr);
            }
        }
    }
    assert forall|k: int| 0 <= k < new_free.len() - 1 implies 0 <= #[trigger] new_free[k]
        < new_free.last() && link_of(c2, new_free[k]) == LIST_NODE_SIZE * new_free[k + 1] by {
        assert(new_free[k] == free[k + 1]);
        assert(new_free[k + 1] == free[k + 2]);
    }
    assert forall|m: usize| #[trigger] new_heads.contains_key(m) <==> new_lists.contains_key(m) by {}
    assert forall|m: usize| #[trigger] new_lists.contains_key(m) implies new_lists[m].len() >= 1
        && new_heads[m] == LIST_NODE_SIZE * new_lists[m][0] by {}
    assert(occurrence_structure(c2, fh1, new_heads, new_lists, new_free, new_owner));
    let o = occurrences_of(cells, lists);
    let o2 = occurrences_of(c2, new_lists);
    let expected = o.insert(
        n,
        seq![(g, t, p)] + if lists.contains_key(n) {
            o[n]
        } else {
            Seq::empty()
        },
    );
    assert forall|m: usize| #[trigger] o2.contains_key(m) implies o2[m] == expected[m] by {
        if m == n {
            assert(o2[m] =~= expected[m]) by {
                assert(record_at(c2, r0) == (g, t, p));
                assert forall|k: int| 1 <= k < new_lists[n].len() implies record_at(
                    c2,
                    #[trigger] new_lists[n][k],
                ) == record_at(cells, lists[n][k - 1]) by {
                    assert(new_lists[n][k] == lists[n][k - 1]);
                    assert(owner.contains_key(lists[n][k - 1]));
                }
            }
        } else {
            assert(o2[m] =~= expected[m]) by {
                assert forall|k: int| 0 <= k < lists[m].len() implies record_at(
                    c2,
                    #[trigger] lists[m][k],
                ) == record_at(cells, lists[m][k]) by {
                    assert(owner.contains_key(lists[m][k]));
                }
            }
        }
    }
    assert(o2 =~= expected);
    (c2, new_free)
}

/// Returning the first record of `n`'s list to the front of the free list
/// keeps the structure and drops that record's occurrence from `n`'s list.
proof fn lemma_release_record(
    cells: Seq<i32>,
    heads: Map<usize, i32>,
    lists: Map<usize, Seq<int>>,
    free: Seq<int>,
    owner: Map<int, (usize, int)>,
    n: usize,
)
    requires
        occurrence_structure(cells, LIST_NODE_SIZE * free[0], heads, lists, free, owner),
        lists.contains_key(n),
    ensures
        ({
            let r0 = lists[n][0];
            let c1 = freed(cells, LIST_NODE_SIZE * free[0], LIST_NODE_SIZE * r0).0;
            let next = link_of(cells, r0);
            let new_heads = if next == -1 {
                heads.remove(n)
            } else {
                heads.insert(n, next)
            };
            let new_lists = without_front(lists, n);
            &&& heads.contains_key(n)
            &&& heads[n] == LIST_NODE_SIZE * r0
            &&& 0 <= LIST_NODE_SIZE * r0 <= i32::MAX
            &&& 0 <= LIST_NODE_SIZE * free[0] <= i32::MAX
            &&& LIST_NODE_SIZE * r0 + NEXT_NODE < cells.len()
            &&& (next == -1 <==> lists[n].len() == 1)
            &&& occurrence_structure(
                c1,
                LIST_NODE_SIZE * r0,
                new_heads,
                new_lists,
                seq![r0] + free,
                owner.remove(r0),
            )
            &&& (seq![r0] + free).last() == free.last()
            &&& occurrences_of(c1, new_lists) == if lists[n].len() <= 1 {
                occurrences_of(cells, lists).remove(n)
            } else {
                occurrences_of(cells, lists).insert(n, occurrences_of(cells, lists)[n].drop_first())
            }
        }),
{
    let fr = free.last();
    let r0 = lists[n][0];
    let fh = LIST_NODE_SIZE * free[0];
    let c1 = freed(cells, fh, LIST_NODE_SIZE * r0).0;
    let next = link_of(cells, r0);
    let new_heads = if next == -1 {
        heads.remove(n)
    } else {
        heads.insert(n, next)
    };
    let new_lists = without_front(lists, n);
    let new_free = seq![r0] + free;
    let new_owner = owner.remove(r0);
    assert(owner.contains_key(r0));
    assert(0 <= r0 < fr);
    if free.len() > 1 {
        assert(0 <= free[0] < fr);
    }
    assert(fh as i32 == fh);
    assert(new_free.last() == fr);
    assert forall|r: int| 0 <= r <= fr && r != r0 implies #[trigger] link_of(c1, r) == link_of(
        cells,
        r,
    ) by {}
    assert forall|r: int| 0 <= r <= fr implies #[trigger] record_at(c1, r) == record_at(cells, r) by {}
    assert forall|m: usize, k: int|
        new_lists.contains_key(m) && 0 <= k < new_lists[m].len() implies {
        let r = #[trigger] new_lists[m][k];
        &&& 0 <= r < new_free.last()
        &&& new_owner.contains_key(r)
        &&& new_owner[r] == (m, new_lists[m].len() - 1 - k)
        &&& link_of(c1, r) == if k + 1 < new_lists[m].len() {
            LIST_NODE_SIZE * new_lists[m][k + 1]
        } else {
            -1
        }
    } by {
        if m == n {
            assert(new_lists[m][k] == lists[n][k + 1]);
            let r = lists[n][k + 1];
            assert(owner[r] == (n, lists[n].len() - 1 - (k + 1)));
            assert(r != r0);
            if k + 1 < new_lists[m].len() {
                assert(new_lists[m][k + 1] == lists[n][k + 2]);
            }
        } else {
            assert(new_lists[m] == lists[m]);
            let r = lists[m][k];
            assert(owner[r] == (m, lists[m].len() - 1 - k));
            assert(r != r0);
        }
    }
    assert forall|k1: int, k2: int|
        0 <= k1 < new_free.len() && 0 <= k2 < new_free.len() && k1 != k2 implies #[trigger] new_free[k1]
        != #[trigger] new_free[k2] by {
        if k1 > 0 && k2 > 0 {
            assert(new_free[k1] == free[k1 - 1]);
            assert(new_free[k2] == free[k2 - 1]);
        } else if k1 == 0 {
            assert(new_free[k2] == free[k2 - 1]);
        } else {
            assert(new_free[k1] == free[k1 - 1]);
        }
    }
    assert forall|k: int| 0 <= k < new_free.len() implies !new_owner.contains_key(#[trigger] new_free[k]) by {
        if k > 0 {
            assert(new_free[k] == free[k - 1]);
        }
    }
    assert forall|k: int| 0 <= k < new_free.len() - 1 implies 0 <= #[trigger] new_free[k]
        < new_free.last() && link_of(c1, new_free[k]) == LIST_NODE_SIZE * new_free[k + 1] by {
        if k > 0 {
            assert(new_free[k] == free[k - 1]);
            assert(new_free[k + 1] == free[k]);
        } else {
            assert(new_free[1] == free[0]);
        }
    }
    if lists[n].len() > 1 {
        assert(lists[n][1] == new_lists[n][0]);
    }
    assert forall|m: usize| #[trigger] new_heads.contains_key(m) <==> new_lists.contains_key(m) by {}
    assert forall|m: usize| #[trigger] new_lists.contains_key(m) implies new_lists[m].len() >= 1
        && new_heads[m] == LIST_NODE_SIZE * new_lists[m][0] by {
        if m == n {
            assert(new_lists[m][0] == lists[n][1]);
        }
    }
    assert(occurrence_structure(c1, LIST_NODE_SIZE * r0, new_heads, new_lists, new_free, new_owner));
    let o = occurrences_of(cells, lists);
    let o1 = occurrences_of(c1, new_lists);
    let expected = if lists[n].len() <= 1 {
        o.remove(n)
    } else {
        o.insert(n, o[n].drop_first())
    };
    assert forall|m: usize| #[trigger] o1.contains_key(m) implies o1[m] == expected[m] by {
        if m == n {
            assert(o1[m] =~= expected[m]) by {
                assert forall|k: int| 0 <= k < new_lists[n].len() implies record_at(
                    c1,
                    #[trigger] new_lists[n][k],
                ) == record_at(cells, lists[n][k + 1]) by {
                    assert(new_lists[n][k] == lists[n][k + 1]);
                }
            }
        } else {
            assert(o1[m] =~= expected[m]) by {
                assert forall|k: int| 0 <= k < lists[m].len() implies record_at(
                    c1,
                    #[trigger] lists[m][k],
                ) == record_at(cells, lists[m][k]) by {}
            }
        }
    }
    assert(o1 =~= expected);
}

/// The occurrences that the record lists `lists` hold in `cells`.
pub open spec fn occurrences_of(cells: Seq<i32>, lists: Map<usize, Seq<int>>) -> Map<
    usize,
    Seq<(i32, i32, i32)>,
> {
    lists.map_values(|rs: Seq<int>| rs.map_values(|r: int| record_at(cells, r)))
}

/// Keeps, for every description graph, the tuples of the graph in an
/// extension table of arity one more than the graph's vertex count (the graph
/// itself first), and for every node the list of its occurrences in those
/// tuples: graph index, tuple index and position, most recent first.
pub struct DescriptionGraphManager {
    graphs: Vec<DescriptionGraph>,
    graph_indices: HashMap<usize, usize, FxBuildHasher>,
    tables: Vec<ExtensionTable>,
    occurrences: OccurrenceManager,
    occurrence_head: HashMap<usize, i32, FxBuildHasher>,
    /// The records of each node's occurrence list, first to last.
    lists: Ghost<Map<usize, Seq<int>>>,
    /// The records of the free list, first to last.
    free: Ghost<Seq<int>>,
    /// The node and the place from the end of each list record.
    owner: Ghost<Map<int, (usize, int)>>,
}

impl DescriptionGraphManager {
    pub closed spec fn graph_list(&self) -> Seq<DescriptionGraph> {
        self.graphs@
    }

    pub closed spec fn tables(&self) -> Seq<ExtensionTable> {
        self.tables@
    }

    /// The graph index of each graph id.
    pub closed spec fn graph_indices(&self) -> Map<usize, usize> {
        index_entries(self.graph_indices)
    }

    /// Each node's occurrences in the graph tuples, most recent first.
    pub closed spec fn occurrence_lists(&self) -> Map<usize, Seq<(i32, i32, i32)>> {
        occurrences_of(self.occurrences.cells(), self.lists@)
    }

    /// The first record never taken from the store.
    pub closed spec fn frontier(&self) -> int {
        self.free@.last()
    }

    spec fn structure(&self) -> bool {
        occurrence_structure(
            self.occurrences.cells(),
            self.occurrences.free_head(),
            head_entries(self.occurrence_head),
            self.lists@,
            self.free@,
            self.owner@,
        )
    }

    /// The tables fit the graphs, the graph indices are the graphs' positions,
    /// and the occurrence records form the node lists and the free list.
    pub closed spec fn wf(&self) -> bool {
        &&& self.tables@.len() == self.graphs@.len()
        &&& forall|g: int|
            0 <= g < self.tables@.len() ==> {
                &&& (#[trigger] self.tables@[g]).wf()
                &&& self.tables@[g].spec_arity() == self.graphs@[g].number_of_vertices + 1
                &&& self.tables@[g].spec_arity() * PAGE_SIZE <= usize::MAX
            }
        &&& index_entries(self.graph_indices) == positions_of(self.graphs@, self.graphs@.len() as int)
        &&& self.structure()
    }

    /// Whether there is any description graph.
    pub fn has_description_graphs(&self) -> (r: bool)
        ensures
            r == (self.graph_list().len() > 0),
    {
        self.graphs.len() > 0
    }

    /// The index of `graph`.
    fn graph_index(&self, graph: &DescriptionGraph) -> (r: usize)
        requires
            self.graph_indices().contains_key(graph.id),
        ensures
            r == self.graph_indices()[graph.id],
    {
        match index_of(&self.graph_indices, graph.id) {
            Some(index) => index,
            None => {
                assert(false);
                0
            },
        }
    }

    /// Forgets the occurrences of `node`, as a fresh node has none.
    pub fn initialize_node(&mut self, node: usize)
        requires
            old(self).wf(),
        ensures
            final(self).wf(),
            final(self).occurrence_lists() == old(self).occurrence_lists().remove(node),
            final(self).tables() == old(self).tables(),
            final(self).graph_list() == old(self).graph_list(),
            final(self).graph_indices() == old(self).graph_indices(),
            final(self).frontier() == old(self).frontier(),
    {
        drop_head(&mut self.occurrence_head, node);
        self.lists = Ghost(self.lists@.remove(node));
        proof {
            assert(occurrences_of(self.occurrences.cells(), self.lists@) =~= occurrences_of(
                old(self).occurrences.cells(),
                old(self).lists@,
            ).remove(node));
        }
    }
}

/// `t` is the fresh table of a graph with `vertices` vertices: arity one
/// more, one index over all columns in order, nothing stored, no core flags.
pub open spec fn fresh_graph_table(t: ExtensionTable, vertices: usize, needs_dependency_sets: bool) -> bool {
    &&& t.wf()
    &&& t.spec_arity() == vertices + 1
    &&& t.indexes().len() == 1
    &&& t.indexes()[0].spec_indexing_sequence() == Seq::new(
        (vertices + 1) as nat,
        |c: int| c as usize,
    )
    &&& t.indexes()[0].entries().len() == 0
    &&& t.table().first_free() == 0
    &&& t.keeps_dependency_sets() == needs_dependency_sets
    &&& !t.keeps_core_flags()
    &&& t.dependency_sets().len() == 0
    &&& t.core_flags().len() == 0
    &&& t.marks() == (0nat, 0nat, 0nat)
}

/// The fresh table of a graph with `vertices` vertices.
fn new_graph_table(vertices: usize, needs_dependency_sets: bool) -> (r: ExtensionTable)
    requires
        (vertices + 1) * PAGE_SIZE <= usize::MAX,
    ensures
        fresh_graph_table(r, vertices, needs_dependency_sets),
{
    let arity = vertices + 1;
    let mut full_index: Vec<usize> = Vec::new();
    let mut c: usize = 0;
    while c < arity
        invariant
            c <= arity,
            full_index@ == Seq::new(c as nat, |j: int| j as usize),
        decreases arity - c,
    {
        full_index.push(c);
        c = c + 1;
        assert(full_index@ =~= Seq::new(c as nat, |j: int| j as usize));
    }
    let ghost sequence = full_index@;
    let mut sequences: Vec<Vec<usize>> = Vec::new();
    sequences.push(full_index);
    assert(sequences@[0]@ == sequence);
    ExtensionTable::new(arity, needs_dependency_sets, sequences, false)
}

/// Moves the marks of every table on; answers whether any new delta was
/// non-empty.
fn propagate_tables(tables: &mut Vec<ExtensionTable>) -> (r: bool)
    ensures
        final(tables)@.len() == old(tables)@.len(),
        r == exists|g: int|
            0 <= g < old(tables)@.len() && (#[trigger] old(tables)@[g]).marks().1 != old(
                tables,
            )@[g].marks().2,
        forall|g: int|
            0 <= g < old(tables)@.len() ==> {
                &&& delta_propagated(old(tables)@[g], #[trigger] final(tables)@[g])
                &&& final(tables)@[g].wf() == old(tables)@[g].wf()
                &&& final(tables)@[g].spec_arity() == old(tables)@[g].spec_arity()
            },
{
    let ghost start = tables@;
    let mut any = false;
    let mut g: usize = 0;
    while g < tables.len()
        invariant
            g <= tables@.len(),
            tables@.len() == start.len(),
            start == old(tables)@,
            forall|j: int| g <= j < start.len() ==> #[trigger] tables@[j] == start[j],
            forall|j: int|
                0 <= j < g ==> {
                    &&& delta_propagated(start[j], #[trigger] tables@[j])
                    &&& tables@[j].wf() == start[j].wf()
                    &&& tables@[j].spec_arity() == start[j].spec_arity()
                },
            any == exists|j: int|
                0 <= j < g && (#[trigger] start[j]).marks().1 != start[j].marks().2,
        decreases start.len() - g,
    {
        let ghost before = tables@;
        let changed = tables[g].propagate_delta_new();
        assert(tables@ == before.update(g as int, tables@[g as int]));
        if changed {
            any = true;
        }
        proof {
            if !changed && any {
                let j = choose|j: int| 0 <= j < g && (#[trigger] start[j]).marks().1 != start[j].marks().2;
                assert(0 <= j < g + 1 && start[j].marks().1 != start[j].marks().2);
            }
            if changed {
                assert(start[g as int].marks().1 != start[g as int].marks().2);
            }
        }
        g = g + 1;
    }
    any
}

/// Saves the marks of every table for branching level `level`.
fn push_branching_point_tables(tables: &mut Vec<ExtensionTable>, level: usize)
    requires
        level * 3 + 3 <= usize::MAX,
    ensures
        final(tables)@.len() == old(tables)@.len(),
        forall|g: int|
            0 <= g < old(tables)@.len() ==> {
                &&& marks_saved(old(tables)@[g], #[trigger] final(tables)@[g], level as int)
                &&& final(tables)@[g].wf() == old(tables)@[g].wf()
                &&& final(tables)@[g].spec_arity() == old(tables)@[g].spec_arity()
            },
{
    let ghost start = tables@;
    let mut g: usize = 0;
    while g < tables.len()
        invariant
            g <= tables@.len(),
            tables@.len() == start.len(),
            start == old(tables)@,
            level * 3 + 3 <= usize::MAX,
            forall|j: int| g <= j < start.len() ==> #[trigger] tables@[j] == start[j],
            forall|j: int|
                0 <= j < g ==> {
                    &&& marks_saved(start[j], #[trigger] tables@[j], level as int)
                    &&& tables@[j].wf() == start[j].wf()
                    &&& tables@[j].spec_arity() == start[j].spec_arity()
                },
        decreases start.len() - g,
    {
        let ghost before = tables@;
        tables[g].branching_point_pushed(level);
        assert(tables@ == before.update(g as int, tables@[g as int]));
        g = g + 1;
    }
}

/// Empties every table.
fn clear_tables(tables: &mut Vec<ExtensionTable>)
    requires
        forall|g: int|
            0 <= g < old(tables)@.len() ==> (#[trigger] old(tables)@[g]).wf() && old(tables)@[g].spec_arity()
                * PAGE_SIZE <= usize::MAX,
    ensures
        final(tables)@.len() == old(tables)@.len(),
        forall|g: int|
            0 <= g < old(tables)@.len() ==> {
                &&& (#[trigger] final(tables)@[g]).wf()
                &&& final(tables)@[g].spec_arity() == old(tables)@[g].spec_arity()
                &&& final(tables)@[g].table().first_free() == 0
                &&& final(tables)@[g].indexes().len() == old(tables)@[g].indexes().len()
                &&& forall|k: int|
                    0 <= k < old(tables)@[g].indexes().len() ==> (
                    #[trigger] final(tables)@[g].indexes()[k]).entries().len() == 0
                        && final(tables)@[g].indexes()[k].spec_indexing_sequence() == old(
                        tables,
                    )@[g].indexes()[k].spec_indexing_sequence()
                &&& final(tables)@[g].dependency_sets().len() == 0
                &&& final(tables)@[g].core_flags().len() == 0
                &&& final(tables)@[g].marks() == (0nat, 0nat, 0nat)
                &&& final(tables)@[g].saved_marks() == old(tables)@[g].saved_marks()
                &&& final(tables)@[g].keeps_dependency_sets() == old(tables)@[g].keeps_dependency_sets()
                &&& final(tables)@[g].keeps_core_flags() == old(tables)@[g].keeps_core_flags()
            },
{
    let ghost start = tables@;
    let mut g: usize = 0;
    while g < tables.len()
        invariant
            g <= tables@.len(),
            tables@.len() == start.len(),
            start == old(tables)@,
            forall|j: int|
                0 <= j < start.len() ==> (#[trigger] start[j]).wf() && start[j].spec_arity() * PAGE_SIZE
                    <= usize::MAX,
            forall|j: int| g <= j < start.len() ==> #[trigger] tables@[j] == start[j],
            forall|j: int|
                0 <= j < g ==> {
                    &&& (#[trigger] tables@[j]).wf()
                    &&& tables@[j].spec_arity() == start[j].spec_arity()
                    &&& tables@[j].table().first_free() == 0
                    &&& tables@[j].indexes().len() == start[j].indexes().len()
                    &&& forall|k: int|
                        0 <= k < start[j].indexes().len() ==> (
                        #[trigger] tables@[j].indexes()[k]).entries().len() == 0
                            && tables@[j].indexes()[k].spec_indexing_sequence()
                            == start[j].indexes()[k].spec_indexing_sequence()
                    &&& tables@[j].dependency_sets().len() == 0
                    &&& tables@[j].core_flags().len() == 0
                    &&& tables@[j].marks() == (0nat, 0nat, 0nat)
                    &&& tables@[j].saved_marks() == start[j].saved_marks()
                    &&& tables@[j].keeps_dependency_sets() == start[j].keeps_dependency_sets()
                    &&& tables@[j].keeps_core_flags() == start[j].keeps_core_flags()
                },
        decreases start.len() - g,
    {
        proof {
            assert(start[g as int].wf());
        }
        let ghost before = tables@;
        tables[g].clear();
        assert(tables@ == before.update(g as int, tables@[g as int]));
        g = g + 1;
    }
}

impl DescriptionGraphManager {
    /// A manager for `graphs`, each with a fresh table, nothing stored and no
    /// occurrences.
    pub fn new(graphs: &[DescriptionGraph], needs_dependency_sets: bool) -> (r: DescriptionGraphManager)
        requires
            forall|g: int|
                0 <= g < graphs@.len() ==> ((#[trigger] graphs@[g]).number_of_vertices + 1)
                    * PAGE_SIZE <= usize::MAX,
        ensures
            r.wf(),
            r.graph_list() == graphs@,
            r.graph_indices() == positions_of(graphs@, graphs@.len() as int),
            r.tables().len() == graphs@.len(),
            forall|g: int|
                0 <= g < graphs@.len() ==> fresh_graph_table(
                    #[trigger] r.tables()[g],
                    graphs@[g].number_of_vertices,
                    needs_dependency_sets,
                ),
            r.occurrence_lists() == Map::<usize, Seq<(i32, i32, i32)>>::empty(),
            r.frontier() == 0,
    {
        let mut graph_list: Vec<DescriptionGraph> = Vec::new();
        let mut graph_indices = new_indices();
        let mut tables: Vec<ExtensionTable> = Vec::new();
        let mut index: usize = 0;
        while index < graphs.len()
            invariant
                index <= graphs@.len(),
                forall|g: int|
                    0 <= g < graphs@.len() ==> ((#[trigger] graphs@[g]).number_of_vertices + 1)
                        * PAGE_SIZE <= usize::MAX,
                graph_list@ == graphs@.take(index as int),
                index_entries(graph_indices) == positions_of(graphs@, index as int),
                tables@.len() == index,
                forall|g: int|
                    0 <= g < index ==> fresh_graph_table(
                        #[trigger] tables@[g],
                        graphs@[g].number_of_vertices,
                        needs_dependency_sets,
                    ),
            decreases graphs@.len() - index,
        {
            let graph = graphs[index];
            set_index(&mut graph_indices, graph.id, index);
            graph_list.push(graph);
            tables.push(new_graph_table(graph.number_of_vertices, needs_dependency_sets));
            index = index + 1;
            assert(graph_list@ =~= graphs@.take(index as int));
        }
        assert(graphs@.take(graphs@.len() as int) =~= graphs@);
        let r = DescriptionGraphManager {
            graphs: graph_list,
            graph_indices,
            tables,
            occurrences: OccurrenceManager::new(),
            occurrence_head: new_heads(),
            lists: Ghost(Map::empty()),
            free: Ghost(Seq::<int>::empty().push(0int)),
            owner: Ghost(Map::empty()),
        };
        proof {
            assert(r.occurrence_lists() =~= Map::<usize, Seq<(i32, i32, i32)>>::empty());
            assert forall|g: int| 0 <= g < r.tables@.len() implies {
                &&& (#[trigger] r.tables@[g]).wf()
                &&& r.tables@[g].spec_arity() == r.graphs@[g].number_of_vertices + 1
                &&& r.tables@[g].spec_arity() * PAGE_SIZE <= usize::MAX
            } by {
                assert(fresh_graph_table(r.tables@[g], graphs@[g].number_of_vertices, needs_dependency_sets));
            }
            assert(r.structure());
        }
        r
    }

    /// Moves the marks of every graph table on; answers whether any new delta
    /// was non-empty.
    pub fn propagate_delta_new(&mut self) -> (r: bool)
        requires
            old(self).wf(),
        ensures
            final(self).wf(),
            r == exists|g: int|
                0 <= g < old(self).tables().len() && (#[trigger] old(self).tables()[g]).marks().1
                    != old(self).tables()[g].marks().2,
            final(self).tables().len() == old(self).tables().len(),
            forall|g: int|
                0 <= g < old(self).tables().len() ==> delta_propagated(
                    old(self).tables()[g],
                    #[trigger] final(self).tables()[g],
                ),
            final(self).graph_list() == old(self).graph_list(),
            final(self).graph_indices() == old(self).graph_indices(),
            final(self).occurrence_lists() == old(self).occurrence_lists(),
            final(self).frontier() == old(self).frontier(),
    {
        let ghost before = self.tables@;
        let r = propagate_tables(&mut self.tables);
        proof {
            assert(before == old(self).tables());
            if r {
                let g = choose|g: int|
                    0 <= g < before.len() && (#[trigger] before[g]).marks().1 != before[g].marks().2;
                assert(old(self).tables()[g].marks().1 != old(self).tables()[g].marks().2);
            } else {
                assert forall|g: int| 0 <= g < old(self).tables().len() implies !((
                #[trigger] old(self).tables()[g]).marks().1 != old(self).tables()[g].marks().2) by {
                    assert(before[g] == old(self).tables()[g]);
                }
            }
            assert forall|g: int| 0 <= g < self.tables@.len() implies {
                &&& (#[trigger] self.tables@[g]).wf()
                &&& self.tables@[g].spec_arity() == self.graphs@[g].number_of_vertices + 1
                &&& self.tables@[g].spec_arity() * PAGE_SIZE <= usize::MAX
            } by {
                assert(old(self).tables@[g].wf());
            }
        }
        r
    }

    /// Saves the marks of every graph table for branching level `level`.
    pub fn branching_point_pushed(&mut self, level: usize)
        requires
            old(self).wf(),
            level * 3 + 3 <= usize::MAX,
        ensures
            final(self).wf(),
            final(self).tables().len() == old(self).tables().len(),
            forall|g: int|
                0 <= g < old(self).tables().len() ==> marks_saved(
                    old(self).tables()[g],
                    #[trigger] final(self).tables()[g],
                    level as int,
                ),
            final(self).graph_list() == old(self).graph_list(),
            final(self).graph_indices() == old(self).graph_indices(),
            final(self).occurrence_lists() == old(self).occurrence_lists(),
            final(self).frontier() == old(self).frontier(),
    {
        push_branching_point_tables(&mut self.tables, level);
        proof {
            assert forall|g: int| 0 <= g < self.tables@.len() implies {
                &&& (#[trigger] self.tables@[g]).wf()
                &&& self.tables@[g].spec_arity() == self.graphs@[g].number_of_vertices + 1
                &&& self.tables@[g].spec_arity() * PAGE_SIZE <= usize::MAX
            } by {
                assert(old(self).tables@[g].wf());
            }
        }
    }

    /// Empties every graph table and forgets every occurrence; the graphs stay.
    pub fn clear(&mut self)
        requires
            old(self).wf(),
        ensures
            final(self).wf(),
            final(self).tables().len() == old(self).tables().len(),
            forall|g: int|
                0 <= g < old(self).tables().len() ==> {
                    &&& (#[trigger] final(self).tables()[g]).table().first_free() == 0
                    &&& final(self).tables()[g].indexes().len() == old(self).tables()[g].indexes().len()
                    &&& forall|k: int|
                        0 <= k < old(self).tables()[g].indexes().len() ==> (
                        #[trigger] final(self).tables()[g].indexes()[k]).entries().len() == 0
                    &&& final(self).tables()[g].dependency_sets().len() == 0
                    &&& final(self).tables()[g].marks() == (0nat, 0nat, 0nat)
                },
            final(self).graph_list() == old(self).graph_list(),
            final(self).graph_indices() == old(self).graph_indices(),
            final(self).occurrence_lists() == Map::<usize, Seq<(i32, i32, i32)>>::empty(),
            final(self).frontier() == 0,
    {
        clear_tables(&mut self.tables);
        proof {
            assert(self.occurrences.cells().len() > NEXT_NODE);
        }
        self.occurrences.clear();
        clear_heads(&mut self.occurrence_head);
        self.lists = Ghost(Map::empty());
        self.free = Ghost(Seq::<int>::empty().push(0int));
        self.owner = Ghost(Map::empty());
        proof {
            assert(self.occurrence_lists() =~= Map::<usize, Seq<(i32, i32, i32)>>::empty());
            assert(self.structure());
        }
    }
}

/// Every object of `tuple` after the first is a node.
pub open spec fn nodes_after_first(tuple: Seq<TableauObject>) -> bool {
    forall|k: int| 1 <= k < tuple.len() ==> (#[trigger] tuple[k]) is Node
}

/// The occurrence lists once the nodes at positions `tuple.len() - 1` down to
/// `k` of tuple `t` of graph `g` have each been given, in front, their
/// occurrence at that position.
pub open spec fn occurrences_added(
    occ: Map<usize, Seq<(i32, i32, i32)>>,
    g: int,
    t: int,
    tuple: Seq<TableauObject>,
    k: int,
) -> Map<usize, Seq<(i32, i32, i32)>>
    decreases tuple.len() - k,
{
    if k < 1 || k >= tuple.len() {
        occ
    } else {
        let rest = occurrences_added(occ, g, t, tuple, k + 1);
        let n = tuple[k]->Node_0;
        rest.insert(
            n,
            seq![(g as i32, t as i32, k as i32)] + if rest.contains_key(n) {
                rest[n]
            } else {
                Seq::empty()
            },
        )
    }
}

/// The occurrence lists once the nodes at positions `tuple.len() - 1` down to
/// `k` of `tuple` have each lost the first occurrence of their list; `None`
/// when one of them has none left to lose.
pub open spec fn occurrences_removed(
    occ: Map<usize, Seq<(i32, i32, i32)>>,
    tuple: Seq<TableauObject>,
    k: int,
) -> Option<Map<usize, Seq<(i32, i32, i32)>>>
    decreases tuple.len() - k,
{
    if k < 1 || k >= tuple.len() {
        Some(occ)
    } else {
        match occurrences_removed(occ, tuple, k + 1) {
            Some(rest) => {
                let n = tuple[k]->Node_0;
                if rest.contains_key(n) {
                    Some(
                        if rest[n].len() <= 1 {
                            rest.remove(n)
                        } else {
                            rest.insert(n, rest[n].drop_first())
                        },
                    )
                } else {
                    None
                }
            },
            None => None,
        }
    }
}

/// Removal that succeeds from `k1` on succeeds from any later position.
proof fn lemma_removed_from_later(
    occ: Map<usize, Seq<(i32, i32, i32)>>,
    tuple: Seq<TableauObject>,
    k1: int,
    k2: int,
)
    requires
        1 <= k1 <= k2,
        occurrences_removed(occ, tuple, k1) is Some,
    ensures
        occurrences_removed(occ, tuple, k2) is Some,
    decreases k2 - k1,
{
    if k1 < k2 && k1 < tuple.len() {
        lemma_removed_from_later(occ, tuple, k1 + 1, k2);
    }
}

/// Node `n` occurs at position `position` of a tuple of graph `g`.
pub open spec fn occurs_at(occ: Map<usize, Seq<(i32, i32, i32)>>, n: usize, g: int, position: int) -> bool {
    occ.contains_key(n) && exists|k: int|
        0 <= k < occ[n].len() && (#[trigger] occ[n][k]).0 == g && occ[n][k].2 == position
}

impl DescriptionGraphManager {
    /// Gives each node of tuple `tuple_index` of graph `graph_index` the
    /// occurrence at its position, in front of its list, from the last
    /// position down to the first node.
    fn description_graph_tuple_added(&mut self, graph_index: usize, tuple_index: usize, tuple: &[TableauObject])
        requires
            old(self).wf(),
            nodes_after_first(tuple@),
            LIST_NODE_SIZE * (old(self).frontier() + tuple@.len()) + 2 * LIST_NODE_SIZE <= i32::MAX,
        ensures
            final(self).wf(),
            final(self).occurrence_lists() == occurrences_added(
                old(self).occurrence_lists(),
                graph_index as int,
                tuple_index as int,
                tuple@,
                1,
            ),
            final(self).frontier() <= old(self).frontier() + tuple@.len(),
            final(self).tables() == old(self).tables(),
            final(self).graph_list() == old(self).graph_list(),
            final(self).graph_indices() == old(self).graph_indices(),
    {
        let ghost start = *self;
        let mut position = tuple.len();
        while position > 1
            invariant
                start == *old(self),
                position <= tuple@.len(),
                position == 0 ==> tuple@.len() == 0,
                self.wf(),
                nodes_after_first(tuple@),
                LIST_NODE_SIZE * (start.frontier() + tuple@.len()) + 2 * LIST_NODE_SIZE <= i32::MAX,
                self.frontier() <= start.frontier() + (tuple@.len() - position),
                self.occurrence_lists() == occurrences_added(
                    start.occurrence_lists(),
                    graph_index as int,
                    tuple_index as int,
                    tuple@,
                    position as int,
                ),
                self.tables == start.tables,
                self.graphs == start.graphs,
                self.graph_indices == start.graph_indices,
            decreases position,
        {
            position = position - 1;
            let node = match tuple[position].as_node() {
                Some(n) => n,
                None => {
                    assert(tuple@[position as int] is Node);
                    0
                },
            };
            let head = match head_of(&self.occurrence_head, node) {
                Some(h) => h,
                None => -1,
            };
            let ghost pre = *self;
            let ghost r0 = pre.free@[0];
            let ghost old_len: int = if pre.lists@.contains_key(node) {
                pre.lists@[node].len() as int
            } else {
                0
            };
            let ghost res = lemma_take_record(
                pre.occurrences.cells(),
                head_entries(pre.occurrence_head),
                pre.lists@,
                pre.free@,
                pre.owner@,
                node,
                graph_index as i32,
                tuple_index as i32,
                position as i32,
            );
            let list_node = self.occurrences.new_list_node();
            self.occurrences.initialize_list_node(
                list_node,
                graph_index as i32,
                tuple_index as i32,
                position as i32,
                head,
            );
            set_head(&mut self.occurrence_head, node, list_node as i32);
            self.lists = Ghost(with_front(pre.lists@, node, r0));
            self.free = Ghost(res.1);
            self.owner = Ghost(pre.owner@.insert(r0, (node, old_len)));
            proof {
                assert(self.occurrences.cells() == res.0);
                assert(self.structure());
                assert(pre.occurrence_lists() == occurrences_of(pre.occurrences.cells(), pre.lists@));
                assert(tuple@[position as int]->Node_0 == node);
            }
        }
        proof {
            if position == 0 {
                assert(tuple@.len() == 0);
            }
        }
    }

    /// Drops the first occurrence from the list of each node of `tuple`, from
    /// the last position down to the first node, returning the records to
    /// the free list.
    fn description_graph_tuple_removed(&mut self, tuple: &[TableauObject])
        requires
            old(self).wf(),
            nodes_after_first(tuple@),
            occurrences_removed(old(self).occurrence_lists(), tuple@, 1) is Some,
        ensures
            final(self).wf(),
            final(self).occurrence_lists() == occurrences_removed(
                old(self).occurrence_lists(),
                tuple@,
                1,
            )->Some_0,
            final(self).frontier() == old(self).frontier(),
            final(self).tables() == old(self).tables(),
            final(self).graph_list() == old(self).graph_list(),
            final(self).graph_indices() == old(self).graph_indices(),
    {
        let ghost start = *self;
        let mut position = tuple.len();
        proof {
            if position >= 1 {
                lemma_removed_from_later(start.occurrence_lists(), tuple@, 1, position as int);
            }
        }
        while position > 1
            invariant
                start == *old(self),
                position <= tuple@.len(),
                position == 0 ==> tuple@.len() == 0,
                self.wf(),
                nodes_after_first(tuple@),
                occurrences_removed(start.occurrence_lists(), tuple@, 1) is Some,
                position >= 1 ==> occurrences_removed(start.occurrence_lists(), tuple@, position as int)
                    == Some(self.occurrence_lists()),
                position == 0 ==> self.occurrence_lists() == start.occurrence_lists(),
                self.frontier() == start.frontier(),
                self.tables == start.tables,
                self.graphs == start.graphs,
                self.graph_indices == start.graph_indices,
            decreases position,
        {
            position = position - 1;
            proof {
                lemma_removed_from_later(start.occurrence_lists(), tuple@, 1, position as int);
            }
            let node = match tuple[position].as_node() {
                Some(n) => n,
                None => {
                    assert(tuple@[position as int] is Node);
                    0
                },
            };
            let ghost pre = *self;
            proof {
                assert(tuple@[position as int]->Node_0 == node);
                assert(pre.occurrence_lists().contains_key(node));
                assert(pre.lists@.contains_key(node));
                lemma_release_record(
                    pre.occurrences.cells(),
                    head_entries(pre.occurrence_head),
                    pre.lists@,
                    pre.free@,
                    pre.owner@,
                    node,
                );
            }
            let ghost r0 = pre.lists@[node][0];
            let list_node = match head_of(&self.occurrence_head, node) {
                Some(h) => h,
                None => {
                    assert(false);
                    -1
                },
            };
            let next = self.occurrences.next_node(list_node as usize);
            if next == -1 {
                drop_head(&mut self.occurrence_head, node);
            } else {
                set_head(&mut self.occurrence_head, node, next);
            }
            self.occurrences.delete_list_node(list_node as usize);
            self.lists = Ghost(without_front(pre.lists@, node));
            self.free = Ghost(seq![r0] + pre.free@);
            self.owner = Ghost(pre.owner@.remove(r0));
            proof {
                assert(self.structure());
                assert(pre.occurrence_lists() == occurrences_of(pre.occurrences.cells(), pre.lists@));
            }
        }
        proof {
            if position == 0 {
                assert(tuple@.len() == 0);
            }
        }
    }

    /// Returns every record of `node`'s occurrence list to the free list and
    /// forgets its occurrences.
    pub fn destroy_node(&mut self, node: usize)
        requires
            old(self).wf(),
        ensures
            final(self).wf(),
            final(self).occurrence_lists() == old(self).occurrence_lists().remove(node),
            final(self).frontier() == old(self).frontier(),
            final(self).tables() == old(self).tables(),
            final(self).graph_list() == old(self).graph_list(),
            final(self).graph_indices() == old(self).graph_indices(),
    {
        let ghost start = *self;
        let ghost mut heads = head_entries(self.occurrence_head);
        let mut list_node = match head_of(&self.occurrence_head, node) {
            Some(h) => h,
            None => -1,
        };
        while list_node != -1
            invariant
                start == *old(self),
                start.wf(),
                occurrence_structure(
                    self.occurrences.cells(),
                    self.occurrences.free_head(),
                    heads,
                    self.lists@,
                    self.free@,
                    self.owner@,
                ),
                head_entries(self.occurrence_head) == head_entries(start.occurrence_head),
                heads.remove(node) == head_entries(start.occurrence_head).remove(node),
                list_node == if heads.contains_key(node) {
                    heads[node]
                } else {
                    -1i32
                },
                occurrences_of(self.occurrences.cells(), self.lists@).remove(node)
                    == start.occurrence_lists().remove(node),
                self.free@.last() == start.free@.last(),
                self.tables == start.tables,
                self.graphs == start.graphs,
                self.graph_indices == start.graph_indices,
            decreases if self.lists@.contains_key(node) {
                self.lists@[node].len() as int
            } else {
                0
            },
        {
            let ghost pre = *self;
            proof {
                assert(heads.contains_key(node));
                lemma_release_record(
                    pre.occurrences.cells(),
                    heads,
                    pre.lists@,
                    pre.free@,
                    pre.owner@,
                    node,
                );
            }
            let ghost r0 = pre.lists@[node][0];
            let next = self.occurrences.next_node(list_node as usize);
            self.occurrences.delete_list_node(list_node as usize);
            list_node = next;
            self.lists = Ghost(without_front(pre.lists@, node));
            self.free = Ghost(seq![r0] + pre.free@);
            self.owner = Ghost(pre.owner@.remove(r0));
            proof {
                heads = if next == -1 {
                    heads.remove(node)
                } else {
                    heads.insert(node, next)
                };
                let o = occurrences_of(pre.occurrences.cells(), pre.lists@);
                let o1 = occurrences_of(self.occurrences.cells(), self.lists@);
                assert(o1.remove(node) =~= o.remove(node));
                assert(heads.remove(node) =~= head_entries(start.occurrence_head).remove(node));
            }
        }
        drop_head(&mut self.occurrence_head, node);
        proof {
            assert(!self.lists@.contains_key(node));
            assert(head_entries(self.occurrence_head) =~= heads);
            let o = occurrences_of(self.occurrences.cells(), self.lists@);
            assert(o =~= o.remove(node));
            assert(self.structure());
        }
    }

    /// Whether `node` already plays the existential's vertex in a tuple of its
    /// graph: some occurrence of `node` is in that graph at the vertex's
    /// position (one past the vertex, the graph coming first). Never when
    /// there is no graph.
    pub fn is_satisfied(&self, exists: &ExistsDescriptionGraph, node: usize) -> (r: bool)
        requires
            self.wf(),
            self.graph_list().len() > 0 ==> self.graph_indices().contains_key(
                exists.description_graph.id,
            ),
            exists.vertex < i32::MAX,
        ensures
            r == (self.graph_list().len() > 0 && occurs_at(
                self.occurrence_lists(),
                node,
                (self.graph_indices()[exists.description_graph.id] as i32) as int,
                exists.vertex + 1,
            )),
    {
        if self.graphs.len() == 0 {
            return false;
        }
        let graph_index = self.graph_index(&exists.description_graph) as i32;
        let position = exists.vertex + 1;
        let ghost occ = self.occurrence_lists();
        let ghost rs: Seq<int> = if self.lists@.contains_key(node) {
            self.lists@[node]
        } else {
            Seq::empty()
        };
        let mut list_node = match head_of(&self.occurrence_head, node) {
            Some(h) => h,
            None => -1,
        };
        let ghost mut k: int = 0;
        while list_node != -1
            invariant
                self.wf(),
                self.graph_list().len() > 0,
                self.graph_indices().contains_key(exists.description_graph.id),
                graph_index == self.graph_indices()[exists.description_graph.id] as i32,
                position == exists.vertex + 1,
                occ == self.occurrence_lists(),
                rs == if self.lists@.contains_key(node) {
                    self.lists@[node]
                } else {
                    Seq::<int>::empty()
                },
                0 <= k <= rs.len(),
                list_node == if k < rs.len() {
                    (LIST_NODE_SIZE * rs[k]) as i32
                } else {
                    -1i32
                },
                forall|j: int|
                    0 <= j < k ==> !(record_at(self.occurrences.cells(), #[trigger] rs[j]).0
                        == graph_index && record_at(self.occurrences.cells(), rs[j]).2 == position),
            decreases rs.len() - k,
        {
            proof {
                assert(self.lists@.contains_key(node));
                assert(0 <= rs[k] < self.free@.last());
                assert(list_node as usize == LIST_NODE_SIZE * rs[k]);
            }
            let ghost r = rs[k];
            if self.occurrences.graph_index(list_node as usize) == graph_index
                && self.occurrences.position_in_tuple(list_node as usize) == position {
                proof {
                    assert(occ[node][k] == record_at(self.occurrences.cells(), r));
                    assert(occ[node][k].0 == graph_index && occ[node][k].2 == position);
                    assert(occ.contains_key(node));
                    assert(0 <= k < occ[node].len());
                    assert(graph_index as int == (self.graph_indices()[exists.description_graph.id] as i32) as int);
                    assert(occurs_at(occ, node, graph_index as int, position as int));
                }
                return true;
            }
            list_node = self.occurrences.next_node(list_node as usize);
            proof {
                k = k + 1;
            }
        }
        proof {
            if occ.contains_key(node) {
                assert forall|j: int| 0 <= j < occ[node].len() implies !((#[trigger] occ[node][j]).0
                    == graph_index && occ[node][j].2 == position) by {
                    assert(occ[node][j] == record_at(self.occurrences.cells(), rs[j]));
                }
            }
        }
        false
    }
}

impl DescriptionGraphManager {
    /// Stores `tuple` (the graph, then the nodes of its vertices) in the table
    /// of graph `graph_index`. A newly stored tuple gives each of its nodes its
    /// occurrence; an already stored one is only made core when `is_core` asks
    /// for it.
    pub fn add_tuple(
        &mut self,
        graph_index: usize,
        tuple: Vec<TableauObject>,
        dependency_set: PermanentDependencySet,
        is_core: bool,
        factory: &mut DependencySetFactory,
    )
        requires
            old(self).wf(),
            graph_index < old(self).tables().len(),
            tuple@.len() == old(self).tables()[graph_index as int].spec_arity(),
            nodes_after_first(tuple@),
            old(self).tables()[graph_index as int].indexes_have_room(),
            old(self).tables()[graph_index as int].table().first_free() <= old(self).tables()[graph_index as int].table().capacity(),
            old(self).tables()[graph_index as int].table().first_free() < i32::MAX,
            old(self).tables()[graph_index as int].table().slots().len() + old(self).tables()[graph_index as int].spec_arity()
                * PAGE_SIZE <= usize::MAX,
            old(factory).wf(),
            old(factory).interned().contains_key(dependency_set.points()) ==> old(
                factory,
            ).interned()[dependency_set.points()] < usize::MAX,
            LIST_NODE_SIZE * (old(self).frontier() + tuple@.len()) + 2 * LIST_NODE_SIZE <= i32::MAX,
        ensures
            final(self).wf(),
            final(self).tables().len() == old(self).tables().len(),
            forall|g: int|
                0 <= g < old(self).tables().len() && g != graph_index ==> #[trigger] final(self).tables()[g]
                    == old(self).tables()[g],
            exists|r: StoreOutcome, mid: ExtensionTable|
                #[trigger] tuple_stored(
                    old(self).tables()[graph_index as int],
                    mid,
                    tuple@,
                    dependency_set,
                    is_core,
                    *old(factory),
                    *final(factory),
                    r,
                ) && match r {
                    StoreOutcome::Added(t) => {
                        &&& final(self).tables()[graph_index as int] == mid
                        &&& final(self).occurrence_lists() == occurrences_added(
                            old(self).occurrence_lists(),
                            graph_index as int,
                            t as int,
                            tuple@,
                            1,
                        )
                    },
                    StoreOutcome::AlreadyPresent(t) => {
                        &&& core_upgraded(mid, final(self).tables()[graph_index as int], t as int, is_core)
                        &&& final(self).occurrence_lists() == old(self).occurrence_lists()
                    },
                },
            final(self).frontier() <= old(self).frontier() + tuple@.len(),
            final(self).graph_list() == old(self).graph_list(),
            final(self).graph_indices() == old(self).graph_indices(),
            final(self).tables()[graph_index as int].indexes().len() == old(self).tables()[graph_index as int].indexes().len(),
            forall|k: int|
                0 <= k < old(self).tables()[graph_index as int].indexes().len() ==> #[trigger] final(self).tables()[graph_index as int].indexes()[k].node_count() <= old(self).tables()[graph_index as int].indexes()[k].node_count()
                    + old(self).tables()[graph_index as int].indexes()[k].spec_indexing_sequence().len(),
            final(self).tables()[graph_index as int].table().slots().len() <= old(self).tables()[graph_index as int].table().slots().len()
                + old(self).tables()[graph_index as int].spec_arity() * PAGE_SIZE,
    {
        let ghost pre = *self;
        let ghost fpre = *factory;
        let outcome = self.tables[graph_index].store_tuple(
            tuple.as_slice(),
            dependency_set,
            is_core,
            factory,
        );
        let ghost mid = self.tables@[graph_index as int];
        proof {
            assert(self.tables@ == pre.tables@.update(graph_index as int, mid));
            assert forall|g: int| 0 <= g < self.tables@.len() implies {
                &&& (#[trigger] self.tables@[g]).wf()
                &&& self.tables@[g].spec_arity() == self.graphs@[g].number_of_vertices + 1
                &&& self.tables@[g].spec_arity() * PAGE_SIZE <= usize::MAX
            } by {
                assert(pre.tables@[g].wf());
            }
            assert(self.wf());
        }
        match outcome {
            StoreOutcome::Added(tuple_index) => {
                self.description_graph_tuple_added(graph_index, tuple_index, tuple.as_slice());
            },
            StoreOutcome::AlreadyPresent(tuple_index) => {
                proof {
                    let t = pre.tables@[graph_index as int];
                    let found = crate::tuple_index::lookup(
                        t.indexes()[0].entries(),
                        crate::tuple_index::key_path(t.indexes()[0].spec_indexing_sequence(), tuple@),
                    );
                    assert(tuple_index == found as usize);
                    assert(found >= 0);
                }
                let ghost before = self.tables@;
                self.tables[graph_index].upgrade_core(tuple_index, is_core);
                proof {
                    assert(self.tables@ == before.update(graph_index as int, self.tables@[graph_index as int]));
                    assert forall|g: int| 0 <= g < self.tables@.len() implies {
                        &&& (#[trigger] self.tables@[g]).wf()
                        &&& self.tables@[g].spec_arity() == self.graphs@[g].number_of_vertices + 1
                        &&& self.tables@[g].spec_arity() * PAGE_SIZE <= usize::MAX
                    } by {
                        assert(before[g].wf());
                    }
                }
            },
        }
        proof {
            assert(tuple_stored(pre.tables@[graph_index as int], mid, tuple@, dependency_set, is_core, fpre, *factory, outcome));
        }
    }
}

/// The occurrence lists once the tuples `to - 1` down to `from` of `table`
/// were removed in turn, each losing the first occurrence of each of its
/// nodes; `None` when a node has none left to lose.
pub open spec fn occurrences_without_tuples(
    occ: Map<usize, Seq<(i32, i32, i32)>>,
    table: TupleTable<TableauObject>,
    from: int,
    to: int,
) -> Option<Map<usize, Seq<(i32, i32, i32)>>>
    decreases to - from,
{
    if from >= to {
        Some(occ)
    } else {
        match occurrences_without_tuples(occ, table, from + 1, to) {
            Some(rest) => occurrences_removed(rest, stored_tuple(table, from), 1),
            None => None,
        }
    }
}

/// Where table `t` goes back to when backtracked to `level`, and where it
/// ends now.
pub open spec fn backtrack_range(t: ExtensionTable, level: int) -> (int, int) {
    (t.saved_marks()[level * 3 + 2] as int, t.marks().2 as int)
}

/// The occurrence lists once the first `g` of `tables` were backtracked to
/// `level`, one after the other.
pub open spec fn occurrences_through(
    occ: Map<usize, Seq<(i32, i32, i32)>>,
    tables: Seq<ExtensionTable>,
    level: int,
    g: int,
) -> Option<Map<usize, Seq<(i32, i32, i32)>>>
    decreases g,
{
    if g <= 0 {
        Some(occ)
    } else {
        match occurrences_through(occ, tables, level, g - 1) {
            Some(o) => occurrences_without_tuples(
                o,
                tables[g - 1].table(),
                backtrack_range(tables[g - 1], level).0,
                backtrack_range(tables[g - 1], level).1,
            ),
            None => None,
        }
    }
}

/// The use counts once the first `g` of `tables` were backtracked to
/// `level`, one after the other.
pub open spec fn usages_through(
    m: Map<Seq<i32>, nat>,
    tables: Seq<ExtensionTable>,
    level: int,
    g: int,
) -> Map<Seq<i32>, nat>
    decreases g,
{
    if g <= 0 {
        m
    } else {
        let t = tables[g - 1];
        usages_released(
            usages_through(m, tables, level, g - 1),
            t.dependency_sets(),
            t.keeps_dependency_sets(),
            backtrack_range(t, level).0,
            backtrack_range(t, level).1,
        )
    }
}

/// Backtracking the first `g` tables can be done when all of them can.
proof fn lemma_through_earlier(
    occ: Map<usize, Seq<(i32, i32, i32)>>,
    tables: Seq<ExtensionTable>,
    level: int,
    g1: int,
    g2: int,
)
    requires
        0 <= g1 <= g2,
        occurrences_through(occ, tables, level, g2) is Some,
    ensures
        occurrences_through(occ, tables, level, g1) is Some,
    decreases g2 - g1,
{
    if g1 < g2 {
        lemma_through_earlier(occ, tables, level, g1, g2 - 1);
    }
}

/// Removing the tuples from `from` on can be done when removing them from an
/// earlier one can.
proof fn lemma_without_later(
    occ: Map<usize, Seq<(i32, i32, i32)>>,
    table: TupleTable<TableauObject>,
    from1: int,
    from2: int,
    to: int,
)
    requires
        from1 <= from2,
        occurrences_without_tuples(occ, table, from1, to) is Some,
    ensures
        occurrences_without_tuples(occ, table, from2, to) is Some,
    decreases from2 - from1,
{
    if from1 < from2 && from1 < to {
        lemma_without_later(occ, table, from1 + 1, from2, to);
    }
}

impl DescriptionGraphManager {
    /// Backtracks every graph table to branching level `level`, the first
    /// graph first; each tuple a table removes, the most recent first, takes
    /// the first occurrence from the list of each of its nodes.
    pub fn backtrack(&mut self, level: usize, factory: &mut DependencySetFactory)
        requires
            old(self).wf(),
            forall|g: int|
                0 <= g < old(self).tables().len() ==> level * 3 + 2 < (
                #[trigger] old(self).tables()[g]).saved_marks().len(),
            forall|g: int, t: int|
                0 <= g < old(self).tables().len() && backtrack_range(old(self).tables()[g], level as int).0
                    <= t < backtrack_range(old(self).tables()[g], level as int).1 ==> {
                    &&& #[trigger] occupied(old(self).tables()[g].table(), t)
                    &&& nodes_after_first(stored_tuple(old(self).tables()[g].table(), t))
                },
            old(factory).wf(),
            occurrences_through(
                old(self).occurrence_lists(),
                old(self).tables(),
                level as int,
                old(self).tables().len() as int,
            ) is Some,
        ensures
            final(self).wf(),
            final(self).tables().len() == old(self).tables().len(),
            forall|g: int|
                0 <= g < old(self).tables().len() ==> backtracked(
                    old(self).tables()[g],
                    #[trigger] final(self).tables()[g],
                    level as int,
                    usages_through(old(factory).interned(), old(self).tables(), level as int, g),
                    usages_through(old(factory).interned(), old(self).tables(), level as int, g + 1),
                ),
            final(factory).wf(),
            final(factory).interned() == usages_through(
                old(factory).interned(),
                old(self).tables(),
                level as int,
                old(self).tables().len() as int,
            ),
            final(self).occurrence_lists() == occurrences_through(
                old(self).occurrence_lists(),
                old(self).tables(),
                level as int,
                old(self).tables().len() as int,
            )->Some_0,
            final(self).frontier() == old(self).frontier(),
            final(self).graph_list() == old(self).graph_list(),
            final(self).graph_indices() == old(self).graph_indices(),
    {
        let ghost pre = *self;
        let ghost fpre = factory.interned();
        let count = self.tables.len();
        let mut graph_index: usize = 0;
        while graph_index < count
            invariant
                pre == *old(self),
                fpre == old(factory).interned(),
                count == pre.tables@.len(),
                graph_index <= count,
                self.wf(),
                self.tables@.len() == count,
                forall|g: int|
                    0 <= g < count ==> level * 3 + 2 < (#[trigger] pre.tables@[g]).saved_marks().len(),
                forall|g: int, t: int|
                    0 <= g < count && backtrack_range(pre.tables@[g], level as int).0 <= t
                        < backtrack_range(pre.tables@[g], level as int).1 ==> {
                        &&& #[trigger] occupied(pre.tables@[g].table(), t)
                        &&& nodes_after_first(stored_tuple(pre.tables@[g].table(), t))
                    },
                forall|g: int|
                    0 <= g < graph_index ==> backtracked(
                        pre.tables@[g],
                        #[trigger] self.tables@[g],
                        level as int,
                        usages_through(fpre, pre.tables@, level as int, g),
                        usages_through(fpre, pre.tables@, level as int, g + 1),
                    ),
                forall|g: int| graph_index <= g < count ==> #[trigger] self.tables@[g] == pre.tables@[g],
                factory.wf(),
                factory.interned() == usages_through(fpre, pre.tables@, level as int, graph_index as int),
                occurrences_through(pre.occurrence_lists(), pre.tables@, level as int, count as int) is Some,
                occurrences_through(pre.occurrence_lists(), pre.tables@, level as int, graph_index as int)
                    == Some(self.occurrence_lists()),
                self.frontier() == pre.frontier(),
                self.graph_list() == pre.graph_list(),
                self.graph_indices() == pre.graph_indices(),
            decreases count - graph_index,
        {
            let ghost table = pre.tables@[graph_index as int];
            let ghost before = self.tables@;
            let ghost occ_before = self.occurrence_lists();
            let ghost range = backtrack_range(table, level as int);
            proof {
                assert(before[graph_index as int] == table);
                assert(table.wf());
                assert forall|t: int|
                    table.saved_marks()[level * 3 + 2] <= t < table.marks().2 implies #[trigger] occupied(
                    table.table(),
                    t,
                ) by {
                    assert(occupied(pre.tables@[graph_index as int].table(), t));
                }
            }
            let removed = self.tables[graph_index].backtrack(level, factory);
            proof {
                assert(self.tables@ == before.update(graph_index as int, self.tables@[graph_index as int]));
                assert forall|g: int| 0 <= g < self.tables@.len() implies {
                    &&& (#[trigger] self.tables@[g]).wf()
                    &&& self.tables@[g].spec_arity() == self.graphs@[g].number_of_vertices + 1
                    &&& self.tables@[g].spec_arity() * PAGE_SIZE <= usize::MAX
                } by {
                    assert(before[g].wf());
                }
                assert(self.wf());
                lemma_through_earlier(
                    pre.occurrence_lists(),
                    pre.tables@,
                    level as int,
                    graph_index + 1,
                    count as int,
                );
                assert(occurrences_without_tuples(occ_before, table.table(), range.0, range.1) is Some);
                assert forall|t: int| range.0 <= t < range.1 implies #[trigger] nodes_after_first(
                    stored_tuple(table.table(), t),
                ) by {
                    assert(occupied(pre.tables@[graph_index as int].table(), t));
                }
            }
            let ghost mid_tables = self.tables@;
            let mut k: usize = 0;
            while k < removed.len()
                invariant
                    self.wf(),
                    k <= removed@.len(),
                    removed@.len() == if range.1 > range.0 {
                        range.1 - range.0
                    } else {
                        0
                    },
                    forall|j: int|
                        0 <= j < removed@.len() ==> (#[trigger] removed@[j]).0@ == stored_tuple(
                            table.table(),
                            range.1 - 1 - j,
                        ),
                    forall|t: int|
                        range.0 <= t < range.1 ==> #[trigger] nodes_after_first(
                            stored_tuple(table.table(), t),
                        ),
                    occurrences_without_tuples(occ_before, table.table(), range.0, range.1) is Some,
                    occurrences_without_tuples(occ_before, table.table(), range.1 - k, range.1)
                        == Some(self.occurrence_lists()),
                    self.tables@ == mid_tables,
                    self.frontier() == pre.frontier(),
                    self.graph_list() == pre.graph_list(),
                    self.graph_indices() == pre.graph_indices(),
                decreases removed@.len() - k,
            {
                proof {
                    let t = range.1 - 1 - k;
                    assert(range.0 <= t);
                    lemma_without_later(occ_before, table.table(), range.0, t, range.1);
                    assert(nodes_after_first(stored_tuple(table.table(), t)));
                }
                self.description_graph_tuple_removed(removed[k].0.as_slice());
                k = k + 1;
            }
            proof {
                if range.1 <= range.0 {
                    assert(occurrences_without_tuples(occ_before, table.table(), range.0, range.1)
                        == Some(occ_before));
                }
                assert(range.1 - removed@.len() == range.0 || range.1 <= range.0);
            }
            graph_index = graph_index + 1;
        }
    }
}

/// How many of the positions `k` to `tuple.len() - 1` of `tuple` hold node `n`.
pub open spec fn positions_of_node(tuple: Seq<TableauObject>, n: usize, k: int) -> nat
    decreases tuple.len() - k,
{
    if k < 1 || k >= tuple.len() {
        0
    } else {
        positions_of_node(tuple, n, k + 1) + if tuple[k]->Node_0 == n {
            1nat
        } else {
            0nat
        }
    }
}

/// The list of `n` in `occ`, empty when `n` has none.
pub open spec fn list_or_empty(occ: Map<usize, Seq<(i32, i32, i32)>>, n: usize) -> Seq<
    (i32, i32, i32),
> {
    if occ.contains_key(n) {
        occ[n]
    } else {
        Seq::empty()
    }
}

/// Adding the occurrences from position `k` on puts, in front of each node's
/// list, one record per position of the node.
proof fn lemma_added_shape(
    occ: Map<usize, Seq<(i32, i32, i32)>>,
    g: int,
    t: int,
    tuple: Seq<TableauObject>,
    k: int,
)
    requires
        1 <= k,
    ensures
        forall|n: usize|
            #[trigger] occurrences_added(occ, g, t, tuple, k).contains_key(n) <==> (occ.contains_key(n)
                || positions_of_node(tuple, n, k) > 0),
        forall|n: usize| #[trigger]
            occurrences_added(occ, g, t, tuple, k).contains_key(n) ==> {
                &&& occurrences_added(occ, g, t, tuple, k)[n].len() == positions_of_node(tuple, n, k)
                    + list_or_empty(occ, n).len()
                &&& occurrences_added(occ, g, t, tuple, k)[n].skip(positions_of_node(tuple, n, k) as int)
                    == list_or_empty(occ, n)
            },
    decreases tuple.len() - k,
{
    if k < tuple.len() {
        lemma_added_shape(occ, g, t, tuple, k + 1);
        let rest = occurrences_added(occ, g, t, tuple, k + 1);
        let m = tuple[k]->Node_0;
        assert forall|n: usize| #[trigger]
            occurrences_added(occ, g, t, tuple, k).contains_key(n) implies {
                &&& occurrences_added(occ, g, t, tuple, k)[n].len() == positions_of_node(tuple, n, k)
                    + list_or_empty(occ, n).len()
                &&& occurrences_added(occ, g, t, tuple, k)[n].skip(positions_of_node(tuple, n, k) as int)
                    == list_or_empty(occ, n)
            } by {
            if n == m {
                let front = seq![(g as i32, t as i32, k as i32)];
                if rest.contains_key(n) {
                    let c = positions_of_node(tuple, n, k + 1) as int;
                    assert((front + rest[n]).skip(c + 1) =~= rest[n].skip(c));
                } else {
                    assert(positions_of_node(tuple, n, k + 1) == 0);
                    assert((front + Seq::<(i32, i32, i32)>::empty()).skip(1) =~= list_or_empty(occ, n));
                }
            }
        }
    }
}

/// Removing the first occurrence of each node at positions `k` on, from
/// lists that hold at least that many, drops that many records from the
/// front of each list, and the node itself when nothing is left.
proof fn lemma_removed_shape(
    x: Map<usize, Seq<(i32, i32, i32)>>,
    tuple: Seq<TableauObject>,
    k: int,
)
    requires
        1 <= k,
        forall|n: usize|
            #[trigger] positions_of_node(tuple, n, k) > 0 ==> x.contains_key(n) && x[n].len()
                >= positions_of_node(tuple, n, k),
    ensures
        occurrences_removed(x, tuple, k) == Some(
            Map::new(
                |n: usize|
                    x.contains_key(n) && !(positions_of_node(tuple, n, k) > 0 && x[n].len()
                        == positions_of_node(tuple, n, k)),
                |n: usize| x[n].skip(positions_of_node(tuple, n, k) as int),
            ),
        ),
    decreases tuple.len() - k,
{
    let target = Map::new(
        |n: usize|
            x.contains_key(n) && !(positions_of_node(tuple, n, k) > 0 && x[n].len()
                == positions_of_node(tuple, n, k)),
        |n: usize| x[n].skip(positions_of_node(tuple, n, k) as int),
    );
    if k >= tuple.len() {
        assert forall|n: usize| #[trigger] x.contains_key(n) implies x[n].skip(0) == x[n] by {
            assert(x[n].skip(0) =~= x[n]);
        }
        assert(target =~= x);
    } else {
        assert forall|n: usize| #[trigger] positions_of_node(tuple, n, k + 1) > 0 implies x.contains_key(n)
            && x[n].len() >= positions_of_node(tuple, n, k + 1) by {
            assert(positions_of_node(tuple, n, k) >= positions_of_node(tuple, n, k + 1));
        }
        lemma_removed_shape(x, tuple, k + 1);
        let rest = Map::new(
            |n: usize|
                x.contains_key(n) && !(positions_of_node(tuple, n, k + 1) > 0 && x[n].len()
                    == positions_of_node(tuple, n, k + 1)),
            |n: usize| x[n].skip(positions_of_node(tuple, n, k + 1) as int),
        );
        let m = tuple[k]->Node_0;
        assert(positions_of_node(tuple, m, k) == positions_of_node(tuple, m, k + 1) + 1);
        assert(rest.contains_key(m));
        let c = positions_of_node(tuple, m, k + 1) as int;
        if rest[m].len() <= 1 {
            assert(rest.remove(m) =~= target);
        } else {
            assert(rest[m].drop_first() =~= x[m].skip(c + 1));
            assert(rest.insert(m, rest[m].drop_first()) =~= target);
        }
    }
}

/// Taking back the occurrences that storing a tuple gave its nodes leaves
/// every node's occurrence list as it was before the tuple was stored.
pub proof fn lemma_removing_added_occurrences_restores(
    m: DescriptionGraphManager,
    g: int,
    t: int,
    tuple: Seq<TableauObject>,
)
    requires
        m.wf(),
    ensures
        occurrences_removed(
            occurrences_added(m.occurrence_lists(), g, t, tuple, 1),
            tuple,
            1,
        ) == Some(m.occurrence_lists()),
{
    let occ = m.occurrence_lists();
    m.lemma_lists_not_empty();
    lemma_added_shape(occ, g, t, tuple, 1);
    let x = occurrences_added(occ, g, t, tuple, 1);
    assert forall|n: usize| #[trigger] positions_of_node(tuple, n, 1) > 0 implies x.contains_key(n)
        && x[n].len() >= positions_of_node(tuple, n, 1) by {
        assert(x.contains_key(n));
    }
    lemma_removed_shape(x, tuple, 1);
    let target = Map::new(
        |n: usize|
            x.contains_key(n) && !(positions_of_node(tuple, n, 1) > 0 && x[n].len()
                == positions_of_node(tuple, n, 1)),
        |n: usize| x[n].skip(positions_of_node(tuple, n, 1) as int),
    );
    assert(target =~= occ);
}

impl DescriptionGraphManager {
    /// Every node with occurrences has at least one.
    pub proof fn lemma_lists_not_empty(&self)
        requires
            self.wf(),
        ensures
            forall|n: usize| #[trigger]
                self.occurrence_lists().contains_key(n) ==> self.occurrence_lists()[n].len() > 0,
    {
    }
}

/// The nodes at positions 1 up to `p` of `tuple` are active.
pub open spec fn active_before(nodes: Seq<Node>, tuple: Seq<TableauObject>, p: int) -> bool {
    forall|q: int| 1 <= q < p ==> node_active(nodes, #[trigger] tuple[q]->Node_0)
}

impl DescriptionGraphManager {
    /// Whether every node of tuple `tuple_index` of graph `graph_index` is
    /// active.
    pub fn tuple_is_active(&self, graph_index: usize, tuple_index: usize, nodes: &[Node]) -> (r: bool)
        requires
            self.wf(),
            graph_index < self.tables().len(),
            occupied(self.tables()[graph_index as int].table(), tuple_index as int),
            forall|p: int|
                1 <= p < self.tables()[graph_index as int].spec_arity() && active_before(
                    nodes@,
                    stored_tuple(self.tables()[graph_index as int].table(), tuple_index as int),
                    p,
                ) ==> {
                    &&& #[trigger] stored_tuple(self.tables()[graph_index as int].table(), tuple_index as int)[p] is Node
                    &&& stored_tuple(self.tables()[graph_index as int].table(), tuple_index as int)[p]->Node_0
                        < nodes@.len()
                },
        ensures
            r == active_before(
                nodes@,
                stored_tuple(self.tables()[graph_index as int].table(), tuple_index as int),
                self.tables()[graph_index as int].spec_arity() as int,
            ),
    {
        let ghost tuple = stored_tuple(self.tables()[graph_index as int].table(), tuple_index as int);
        proof {
            assert(self.tables@[graph_index as int].wf());
        }
        let table = &self.tables[graph_index];
        let arity = table.arity();
        let mut position: usize = 1;
        while position < arity
            invariant
                graph_index < self.tables().len(),
                *table == self.tables()[graph_index as int],
                table.wf(),
                arity == table.spec_arity(),
                tuple == stored_tuple(table.table(), tuple_index as int),
                occupied(table.table(), tuple_index as int),
                1 <= position,
                position <= arity || arity < 1,
                active_before(nodes@, tuple, position as int),
                forall|p: int|
                    1 <= p < arity && active_before(nodes@, tuple, p) ==> {
                        &&& #[trigger] tuple[p] is Node
                        &&& tuple[p]->Node_0 < nodes@.len()
                    },
            decreases arity - position,
        {
            proof {
                table.lemma_stored_object(tuple_index as int, position as int);
                assert(tuple[position as int] is Node);
            }
            let node = table.get_tuple_object(tuple_index, position).as_node().unwrap();
            if !nodes[node].is_active() {
                proof {
                    assert(tuple[position as int]->Node_0 == node);
                    assert(!node_active(nodes@, tuple[position as int]->Node_0));
                }
                return false;
            }
            proof {
                assert forall|q: int| 1 <= q < position + 1 implies node_active(nodes@, #[trigger] tuple[q]->Node_0) by {}
            }
            position = position + 1;
        }
        proof {
            if arity >= 1 {
                assert(position == arity);
            } else {
                assert forall|q: int| 1 <= q < arity implies node_active(nodes@, #[trigger] tuple[q]->Node_0) by {}
            }
        }
        true
    }
}

} // verus!
