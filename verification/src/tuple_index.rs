use vstd::prelude::*;

verus! {

/// The tuple index stored for "no tuple".
pub const NONE: i32 = -1;

/// The null link between trie nodes.
const NIL: usize = usize::MAX;

/// The bucket count of a freshly cleared index.
const INITIAL_BUCKETS: usize = 1024;

/// A collision-free integer key for a tuple-index edge object: distinct objects
/// map to distinct keys, so the trie matches an edge on `(parent, key)` alone.
pub trait EdgeKey {
    spec fn key_spec(&self) -> u64;

    fn unique_key(&self) -> (k: u64)
        ensures
            k == self.key_spec(),
    ;
}

/// Plain integer edge objects are their own key (the reinterpretation as `u32`
/// is a bijection).
impl EdgeKey for i32 {
    open spec fn key_spec(&self) -> u64 {
        (*self as u32) as u64
    }

    fn unique_key(&self) -> (k: u64) {
        *self as u32 as u64
    }
}

// ---------------------------------------------------------------------------
// Key paths.

/// `q` is a prefix of `p`.
pub open spec fn has_prefix(p: Seq<u64>, q: Seq<u64>) -> bool {
    &&& q.len() <= p.len()
    &&& forall|k: int| 0 <= k < q.len() ==> #[trigger] p[k] == q[k]
}

/// The key path under which a tuple is indexed: the keys of the columns named
/// by the indexing sequence, in that order.
pub open spec fn key_path<T: EdgeKey>(indexing_sequence: Seq<usize>, tuple: Seq<T>) -> Seq<u64> {
    Seq::new(indexing_sequence.len(), |j: int| tuple[indexing_sequence[j] as int].key_spec())
}

/// Paths in depth-first trie order: none is a prefix of another, and the paths
/// sharing any prefix stand next to each other.
pub open spec fn trie_ordered(paths: Seq<Seq<u64>>) -> bool {
    &&& forall|i: int, j: int|
        0 <= i < paths.len() && 0 <= j < paths.len() && i != j ==> !has_prefix(
            #[trigger] paths[i],
            #[trigger] paths[j],
        )
    &&& forall|i: int, j: int, k: int, q: Seq<u64>|
        0 <= i < j < k < paths.len() && #[trigger] has_prefix(paths[i], q) && #[trigger] has_prefix(
            paths[k],
            q,
        ) ==> #[trigger] has_prefix(paths[j], q)
}

/// Some path of `paths` starts with the first `k` keys of `p`.
pub open spec fn shares_prefix(paths: Seq<Seq<u64>>, p: Seq<u64>, k: int) -> bool {
    k == 0 || exists|i: int| 0 <= i < paths.len() && #[trigger] has_prefix(paths[i], p.take(k))
}

/// `d` is the length of the longest prefix of `p` that some path starts with.
pub open spec fn deepest_shared(paths: Seq<Seq<u64>>, p: Seq<u64>, d: int) -> bool {
    &&& 0 <= d <= p.len()
    &&& shares_prefix(paths, p, d)
    &&& d < p.len() ==> !shares_prefix(paths, p, d + 1)
}

/// `s` is the first index of the run of paths starting with `r`.
pub open spec fn is_block_start(paths: Seq<Seq<u64>>, r: Seq<u64>, s: int) -> bool {
    &&& 0 <= s < paths.len()
    &&& has_prefix(paths[s], r)
    &&& (s == 0 || !has_prefix(paths[s - 1], r))
}

/// The position at which a new path `p` enters the trie order: first in the
/// run of paths that share its longest shared prefix.
pub open spec fn is_insert_position(paths: Seq<Seq<u64>>, p: Seq<u64>, pos: int) -> bool {
    exists|d: int|
        #![trigger deepest_shared(paths, p, d)]
        deepest_shared(paths, p, d) && 0 <= pos <= paths.len() && (pos == 0 || !has_prefix(
            paths[pos - 1],
            p.take(d),
        )) && (pos == paths.len() || has_prefix(paths[pos], p.take(d)))
}

/// The tuple index recorded under key path `p` among `entries`, or `NONE`.
pub open spec fn lookup(entries: Seq<(Seq<u64>, i32)>, p: Seq<u64>) -> i32 {
    if exists|i: int| 0 <= i < entries.len() && (#[trigger] entries[i]).0 == p {
        entries[choose|i: int| 0 <= i < entries.len() && (#[trigger] entries[i]).0 == p].1
    } else {
        NONE
    }
}

/// What indexing key path `p` with candidate tuple index `v` does to the
/// entries `e` of an index whose paths are `paths`, giving `post` and
/// answering `r`: a path recorded with a tuple index keeps it and answers it;
/// a path present without one records `v`; a new path enters with `v` at its
/// insert position.
pub open spec fn indexed_after(
    e: Seq<(Seq<u64>, i32)>,
    paths: Seq<Seq<u64>>,
    p: Seq<u64>,
    v: i32,
    post: Seq<(Seq<u64>, i32)>,
    r: i32,
) -> bool {
    if exists|i: int| 0 <= i < e.len() && (#[trigger] e[i]).0 == p && e[i].1 != NONE {
        &&& r == lookup(e, p)
        &&& post == e
    } else if exists|i: int| 0 <= i < e.len() && (#[trigger] e[i]).0 == p {
        &&& r == v
        &&& exists|i: int| 0 <= i < e.len() && (#[trigger] e[i]).0 == p && post == e.update(i, (p, v))
    } else {
        &&& r == v
        &&& exists|pos: int| is_insert_position(paths, p, pos) && post == e.insert(pos, (p, v))
    }
}

/// The entries `e` without the entry of key path `p`, if there is one.
pub open spec fn without_path(e: Seq<(Seq<u64>, i32)>, p: Seq<u64>) -> Seq<(Seq<u64>, i32)> {
    if exists|i: int| 0 <= i < e.len() && (#[trigger] e[i]).0 == p {
        e.remove(choose|i: int| 0 <= i < e.len() && (#[trigger] e[i]).0 == p)
    } else {
        e
    }
}

/// The key paths of `e`, in order.
pub open spec fn keys_of(e: Seq<(Seq<u64>, i32)>) -> Seq<Seq<u64>> {
    e.map_values(|x: (Seq<u64>, i32)| x.0)
}

/// Reading back after indexing: once `p` was indexed with candidate `v`, the
/// entries record for `p` exactly what indexing answered.
pub proof fn lemma_lookup_after_indexing(
    e: Seq<(Seq<u64>, i32)>,
    paths: Seq<Seq<u64>>,
    p: Seq<u64>,
    v: i32,
    post: Seq<(Seq<u64>, i32)>,
    r: i32,
)
    requires
        keys_of(e) == paths,
        paths.no_duplicates(),
        indexed_after(e, paths, p, v, post, r),
    ensures
        lookup(post, p) == r,
{
    if exists|i: int| 0 <= i < e.len() && (#[trigger] e[i]).0 == p && e[i].1 != NONE {
        let i = choose|i: int| 0 <= i < e.len() && (#[trigger] e[i]).0 == p && e[i].1 != NONE;
        lemma_lookup_at(e, p, i);
    } else if exists|i: int| 0 <= i < e.len() && (#[trigger] e[i]).0 == p {
        let i = choose|i: int| 0 <= i < e.len() && (#[trigger] e[i]).0 == p && post == e.update(
            i,
            (p, v),
        );
        assert(keys_of(post) =~= keys_of(e).update(i, p));
        assert(keys_of(e)[i] == p);
        assert(keys_of(post) =~= keys_of(e));
        lemma_lookup_at(post, p, i);
    } else {
        let pos = choose|pos: int| is_insert_position(paths, p, pos) && post == e.insert(pos, (p, v));
        assert(pos <= e.len());
        assert(keys_of(post) =~= keys_of(e).insert(pos, p));
        assert forall|a: int, b: int|
            0 <= a < keys_of(post).len() && 0 <= b < keys_of(post).len() && a != b implies keys_of(
            post,
        )[a] != keys_of(post)[b] by {
            if a != pos && b != pos {
                let a0 = if a < pos {
                    a
                } else {
                    a - 1
                };
                let b0 = if b < pos {
                    b
                } else {
                    b - 1
                };
                assert(keys_of(e)[a0] != keys_of(e)[b0]);
            } else if a == pos {
                let b0 = if b < pos {
                    b
                } else {
                    b - 1
                };
                assert(e[b0].0 != p);
            } else {
                let a0 = if a < pos {
                    a
                } else {
                    a - 1
                };
                assert(e[a0].0 != p);
            }
        }
        lemma_lookup_at(post, p, pos);
    }
}

/// Undoing an indexing: removing a key path that indexing had just entered
/// gives back the entries from before.
pub proof fn lemma_remove_after_indexing(
    e: Seq<(Seq<u64>, i32)>,
    paths: Seq<Seq<u64>>,
    p: Seq<u64>,
    v: i32,
    post: Seq<(Seq<u64>, i32)>,
    r: i32,
)
    requires
        keys_of(e) == paths,
        paths.no_duplicates(),
        forall|i: int| 0 <= i < e.len() ==> (#[trigger] e[i]).0 != p,
        indexed_after(e, paths, p, v, post, r),
    ensures
        without_path(post, p) == e,
{
    let pos = choose|pos: int| is_insert_position(paths, p, pos) && post == e.insert(pos, (p, v));
    assert(pos <= e.len());
    assert(post[pos].0 == p);
    let i = choose|i: int| 0 <= i < post.len() && (#[trigger] post[i]).0 == p;
    if i != pos {
        let i0 = if i < pos {
            i
        } else {
            i - 1
        };
        assert(post[i] == e[i0]);
    }
    assert(post.remove(pos) =~= e);
}

/// Reading back after removal: a removed key path records nothing.
pub proof fn lemma_lookup_after_removal(e: Seq<(Seq<u64>, i32)>, p: Seq<u64>)
    requires
        keys_of(e).no_duplicates(),
    ensures
        lookup(without_path(e, p), p) == NONE,
{
    if exists|i: int| 0 <= i < e.len() && (#[trigger] e[i]).0 == p {
        let i = choose|i: int| 0 <= i < e.len() && (#[trigger] e[i]).0 == p;
        assert forall|j: int| 0 <= j < e.len() && (#[trigger] e[j]).0 == p implies j == i by {
            assert(keys_of(e)[j] == e[j].0);
            assert(keys_of(e)[i] == e[i].0);
        }
        let post = e.remove(i);
        assert(without_path(e, p) == post);
        assert forall|k: int| 0 <= k < post.len() implies (#[trigger] post[k]).0 != p by {
            let k0 = if k < i {
                k
            } else {
                k + 1
            };
            assert(post[k] == e[k0]);
            assert(keys_of(e)[k0] != keys_of(e)[i]);
        }
    }
}

/// Where the key paths are distinct, the entry at `i` is the one that
/// `lookup` reads for its path.
pub proof fn lemma_lookup_at(e: Seq<(Seq<u64>, i32)>, p: Seq<u64>, i: int)
    requires
        keys_of(e).no_duplicates(),
        0 <= i < e.len(),
        e[i].0 == p,
    ensures
        lookup(e, p) == e[i].1,
{
    assert(e[i].0 == p);
    assert forall|j: int| 0 <= j < e.len() && (#[trigger] e[j]).0 == p implies j == i by {
        assert(keys_of(e)[j] == e[j].0);
        assert(keys_of(e)[i] == e[i].0);
    }
}

/// The bucket hash of the edge `(key, parent)`.
pub open spec fn edge_hash(key: u64, parent: usize) -> usize {
    let h0 = (key as usize).wrapping_add(parent);
    let h1 = h0.wrapping_add(!(h0 << 9usize));
    let h2 = h1 ^ (h1 >> 14usize);
    let h3 = h2.wrapping_add(h2 << 4usize);
    h3 ^ (h3 >> 10usize)
}

/// A prefix of a prefix is a prefix.
pub proof fn lemma_prefix_trans(a: Seq<u64>, b: Seq<u64>, c: Seq<u64>)
    requires
        has_prefix(a, b),
        has_prefix(b, c),
    ensures
        has_prefix(a, c),
{
    assert forall|k: int| 0 <= k < c.len() implies a[k] == c[k] by {
        assert(b[k] == c[k]);
    }
}

/// Of two prefixes of one path, the shorter is a prefix of the longer.
pub proof fn lemma_prefix_total(p: Seq<u64>, a: Seq<u64>, b: Seq<u64>)
    requires
        has_prefix(p, a),
        has_prefix(p, b),
        a.len() <= b.len(),
    ensures
        has_prefix(b, a),
{
    assert forall|k: int| 0 <= k < a.len() implies b[k] == a[k] by {
        assert(p[k] == a[k]);
        assert(p[k] == b[k]);
    }
}

/// A path's own leading keys are a prefix of it.
pub proof fn lemma_take_prefix(p: Seq<u64>, k: int)
    requires
        0 <= k <= p.len(),
    ensures
        has_prefix(p, p.take(k)),
        p.take(k).len() == k,
{
}

/// A prefix as long as the path is the path.
pub proof fn lemma_prefix_full(p: Seq<u64>, q: Seq<u64>)
    requires
        has_prefix(p, q),
        q.len() == p.len(),
    ensures
        p == q,
{
    assert(p =~= q);
}

/// The prefixes of `q.push(x)`: those of `q`, and `q.push(x)` itself.
pub proof fn lemma_prefix_push(q: Seq<u64>, x: u64, t: Seq<u64>)
    ensures
        has_prefix(q.push(x), t) <==> ((t.len() <= q.len() && has_prefix(q, t)) || t == q.push(x)),
{
    if has_prefix(q.push(x), t) {
        if t.len() <= q.len() {
            assert forall|k: int| 0 <= k < t.len() implies q[k] == t[k] by {
                assert(q.push(x)[k] == t[k]);
            }
        } else {
            assert(t =~= q.push(x));
        }
    }
    if t.len() <= q.len() && has_prefix(q, t) {
        assert forall|k: int| 0 <= k < t.len() implies q.push(x)[k] == t[k] by {
            assert(q[k] == t[k]);
        }
    }
    if t == q.push(x) {
        assert forall|k: int| 0 <= k < t.len() implies q.push(x)[k] == t[k] by {}
    }
}

/// The first index of a run of paths sharing a prefix exists at or below any
/// member of the run.
pub proof fn lemma_block_start_exists(paths: Seq<Seq<u64>>, r: Seq<u64>, i: int) -> (s: int)
    requires
        0 <= i < paths.len(),
        has_prefix(paths[i], r),
    ensures
        s <= i,
        is_block_start(paths, r, s),
    decreases i,
{
    if i == 0 || !has_prefix(paths[i - 1], r) {
        i
    } else {
        lemma_block_start_exists(paths, r, i - 1)
    }
}

/// Inserting a new path at the start of the run of its parent's paths keeps
/// the trie order.
pub proof fn lemma_ordered_insert(paths: Seq<Seq<u64>>, s: int, r: Seq<u64>, key: u64)
    requires
        trie_ordered(paths),
        (paths.len() == 0 && s == 0) || is_block_start(paths, r, s),
        forall|i: int| 0 <= i < paths.len() ==> !has_prefix(#[trigger] paths[i], r.push(key)),
        forall|i: int| 0 <= i < paths.len() ==> !has_prefix(r, #[trigger] paths[i]),
    ensures
        trie_ordered(paths.insert(s, r.push(key))),
{
    let q = r.push(key);
    let np = paths.insert(s, q);
    assert forall|i: int, j: int|
        0 <= i < np.len() && 0 <= j < np.len() && i != j implies !has_prefix(
        #[trigger] np[i],
        #[trigger] np[j],
    ) by {
        let oi = if i < s { i } else { i - 1 };
        let oj = if j < s { j } else { j - 1 };
        if i == s {
            let pj = paths[oj];
            if has_prefix(q, pj) {
                lemma_prefix_push(r, key, pj);
                if pj == q {
                    lemma_take_prefix(pj, pj.len() as int);
                    assert(has_prefix(paths[oj], q));
                }
            }
        } else if j == s {
        } else {
            assert(np[i] == paths[oi] && np[j] == paths[oj]);
        }
    }
    assert forall|i: int, j: int, k: int, t: Seq<u64>|
        0 <= i < j < k < np.len() && #[trigger] has_prefix(np[i], t) && #[trigger] has_prefix(
            np[k],
            t,
        ) implies #[trigger] has_prefix(np[j], t) by {
        if j == s {
            let oi = i;
            let ok = k - 1;
            if s < ok {
                assert(has_prefix(paths[s], t));
            }
            assert(has_prefix(paths[s], t));
            if t.len() <= r.len() {
                lemma_prefix_total(paths[s], t, r);
                lemma_prefix_push(r, key, t);
            } else {
                lemma_prefix_total(paths[s], r, t);
                lemma_prefix_trans(paths[oi], t, r);
                if oi < s - 1 {
                    assert(has_prefix(paths[s - 1], r));
                }
            }
        } else if i == s {
            let ok = k - 1;
            let oj = j - 1;
            lemma_prefix_push(r, key, t);
            if t == q {
                assert(has_prefix(paths[ok], q));
            } else {
                lemma_prefix_trans(paths[s], r, t);
                if s < oj {
                    assert(has_prefix(paths[oj], t));
                }
            }
        } else if k == s {
            lemma_prefix_push(r, key, t);
            if t == q {
                assert(has_prefix(paths[i], q));
            } else {
                lemma_prefix_trans(paths[s], r, t);
                assert(has_prefix(paths[j], t));
            }
        } else {
            let oi = if i < s { i } else { i - 1 };
            let oj = if j < s { j } else { j - 1 };
            let ok = if k < s { k } else { k - 1 };
            assert(np[i] == paths[oi] && np[j] == paths[oj] && np[k] == paths[ok]);
            assert(has_prefix(paths[oj], t));
        }
    }
}

/// Extending a leaf path by one key keeps the trie order.
pub proof fn lemma_ordered_extend(paths: Seq<Seq<u64>>, s: int, key: u64)
    requires
        trie_ordered(paths),
        0 <= s < paths.len(),
    ensures
        trie_ordered(paths.update(s, paths[s].push(key))),
{
    let r = paths[s];
    let q = r.push(key);
    let np = paths.update(s, q);
    assert forall|i: int, j: int|
        0 <= i < np.len() && 0 <= j < np.len() && i != j implies !has_prefix(
        #[trigger] np[i],
        #[trigger] np[j],
    ) by {
        if i == s {
            if has_prefix(q, paths[j]) {
                lemma_prefix_push(r, key, paths[j]);
                if paths[j] == q {
                    lemma_take_prefix(q, r.len() as int);
                    assert(q.take(r.len() as int) =~= r);
                    lemma_prefix_trans(paths[j], q, r);
                } else {
                }
            }
        } else if j == s {
            if has_prefix(paths[i], q) {
                lemma_take_prefix(q, r.len() as int);
                assert(q.take(r.len() as int) =~= r);
                lemma_prefix_trans(paths[i], q, r);
            }
        }
    }
    assert forall|i: int, j: int, k: int, t: Seq<u64>|
        0 <= i < j < k < np.len() && #[trigger] has_prefix(np[i], t) && #[trigger] has_prefix(
            np[k],
            t,
        ) implies #[trigger] has_prefix(np[j], t) by {
        lemma_prefix_push(r, key, t);
        lemma_take_prefix(q, r.len() as int);
        assert(q.take(r.len() as int) =~= r);
        if t == q {
            if i != s {
                lemma_prefix_trans(paths[i], q, r);
            } else {
                lemma_prefix_trans(paths[k], q, r);
            }
        } else {
            if has_prefix(np[j], t) {
            } else {
                assert(has_prefix(paths[i], t));
                assert(has_prefix(paths[k], t));
                assert(has_prefix(paths[j], t));
            }
        }
    }
}

/// Two starts of the run of one prefix coincide.
pub proof fn lemma_block_start_unique(paths: Seq<Seq<u64>>, r: Seq<u64>, s1: int, s2: int)
    requires
        trie_ordered(paths),
        is_block_start(paths, r, s1),
        is_block_start(paths, r, s2),
    ensures
        s1 == s2,
{
    if s1 < s2 {
        lemma_in_block_after_start(paths, r, s2, s1);
    } else if s2 < s1 {
        lemma_in_block_after_start(paths, r, s1, s2);
    }
}

/// The paths sharing a prefix come at or after the start of its run.
pub proof fn lemma_in_block_after_start(paths: Seq<Seq<u64>>, r: Seq<u64>, s: int, i: int)
    requires
        trie_ordered(paths),
        is_block_start(paths, r, s),
        0 <= i < paths.len(),
        has_prefix(paths[i], r),
    ensures
        i >= s,
{
    if i < s {
        if i < s - 1 {
            assert(has_prefix(paths[s - 1], r));
        }
    }
}

/// In trie order the paths with a prefix form one run: a retrieval that
/// starts at the run's first path and steps on while the paths keep the
/// prefix, stopping at position `e`, has met every path with the prefix and
/// no other.
pub proof fn lemma_prefix_run(paths: Seq<Seq<u64>>, r: Seq<u64>, s: int, e: int)
    requires
        trie_ordered(paths),
        is_block_start(paths, r, s),
        s < e <= paths.len(),
        forall|j: int| s <= j < e ==> has_prefix(#[trigger] paths[j], r),
        e == paths.len() || !has_prefix(paths[e], r),
    ensures
        forall|i: int| 0 <= i < paths.len() ==> (has_prefix(#[trigger] paths[i], r) <==> s <= i < e),
{
    assert forall|i: int| 0 <= i < paths.len() implies (has_prefix(#[trigger] paths[i], r) <==> s <= i < e) by {
        if has_prefix(paths[i], r) {
            lemma_in_block_after_start(paths, r, s, i);
            if i > e {
                assert(has_prefix(paths[s], r));
                assert(has_prefix(paths[e], r));
            }
        }
    }
}

/// Dropping a path keeps the trie order.
pub proof fn lemma_ordered_remove(paths: Seq<Seq<u64>>, i: int)
    requires
        trie_ordered(paths),
        0 <= i < paths.len(),
    ensures
        trie_ordered(paths.remove(i)),
{
    let np = paths.remove(i);
    assert forall|a: int, b: int|
        0 <= a < np.len() && 0 <= b < np.len() && a != b implies !has_prefix(
        #[trigger] np[a],
        #[trigger] np[b],
    ) by {
        let oa = if a < i { a } else { a + 1 };
        let ob = if b < i { b } else { b + 1 };
        assert(np[a] == paths[oa] && np[b] == paths[ob]);
    }
    assert forall|a: int, b: int, c: int, t: Seq<u64>|
        0 <= a < b < c < np.len() && #[trigger] has_prefix(np[a], t) && #[trigger] has_prefix(
            np[c],
            t,
        ) implies #[trigger] has_prefix(np[b], t) by {
        let oa = if a < i { a } else { a + 1 };
        let ob = if b < i { b } else { b + 1 };
        let oc = if c < i { c } else { c + 1 };
        assert(np[a] == paths[oa] && np[b] == paths[ob] && np[c] == paths[oc]);
        assert(has_prefix(paths[ob], t));
    }
}

/// Replacing a leaf path that shares its parent with no neighbour by the
/// parent's path keeps the trie order.
pub proof fn lemma_ordered_shorten(paths: Seq<Seq<u64>>, i: int)
    requires
        trie_ordered(paths),
        0 <= i < paths.len(),
        paths[i].len() >= 2,
        !(i > 0 && has_prefix(paths[i - 1], paths[i].drop_last())),
        !(i + 1 < paths.len() && has_prefix(paths[i + 1], paths[i].drop_last())),
    ensures
        trie_ordered(paths.update(i, paths[i].drop_last())),
{
    let w = paths[i];
    let r = w.drop_last();
    let np = paths.update(i, r);
    assert(r =~= w.take(r.len() as int));
    lemma_take_prefix(w, r.len() as int);
    // No other path starts with r.
    assert forall|a: int| 0 <= a < paths.len() && a != i implies !has_prefix(#[trigger] paths[a], r) by {
        if has_prefix(paths[a], r) {
            if a < i - 1 {
                assert(has_prefix(paths[i - 1], r));
            } else if a > i + 1 {
                assert(has_prefix(paths[i + 1], r));
            }
        }
    }
    assert forall|a: int, b: int|
        0 <= a < np.len() && 0 <= b < np.len() && a != b implies !has_prefix(
        #[trigger] np[a],
        #[trigger] np[b],
    ) by {
        if a == i {
            if has_prefix(r, paths[b]) {
                lemma_prefix_trans(w, r, paths[b]);
            }
        } else if b == i {
        }
    }
    assert forall|a: int, b: int, c: int, t: Seq<u64>|
        0 <= a < b < c < np.len() && #[trigger] has_prefix(np[a], t) && #[trigger] has_prefix(
            np[c],
            t,
        ) implies #[trigger] has_prefix(np[b], t) by {
        if a == i {
            lemma_prefix_trans(w, r, t);
        }
        if c == i {
            lemma_prefix_trans(w, r, t);
        }
        if b == i {
            assert(has_prefix(paths[b], t));
            if t.len() > r.len() {
                lemma_prefix_total(w, r, t);
                lemma_prefix_trans(paths[a], t, r);
            } else {
                lemma_prefix_total(w, t, r);
            }
        } else {
            assert(has_prefix(paths[b], t));
        }
    }
}

// ---------------------------------------------------------------------------
// Trie nodes.

#[derive(Clone, Copy)]
struct TrieNode {
    parent: usize,
    first_child: usize,
    previous_sibling: usize,
    next_sibling: usize,
    tuple_index: i32,
    /// Next node in the same bucket's collision chain.
    next_entry: usize,
    /// The edge object's collision-free key.
    key: u64,
}

spec fn with_first_child(n: TrieNode, c: usize) -> TrieNode {
    TrieNode { first_child: c, ..n }
}

spec fn with_previous_sibling(n: TrieNode, c: usize) -> TrieNode {
    TrieNode { previous_sibling: c, ..n }
}

spec fn with_next_entry(n: TrieNode, c: usize) -> TrieNode {
    TrieNode { next_entry: c, ..n }
}

impl TrieNode {
    fn empty() -> (r: TrieNode)
        ensures
            r.parent == NIL,
            r.first_child == NIL,
            r.previous_sibling == NIL,
            r.next_sibling == NIL,
            r.tuple_index == NONE,
            r.next_entry == NIL,
            r.key == 0,
    {
        TrieNode {
            parent: NIL,
            first_child: NIL,
            previous_sibling: NIL,
            next_sibling: NIL,
            tuple_index: NONE,
            next_entry: NIL,
            key: 0,
        }
    }
}

/// A trie indexing tuples by the keys of a projection of their columns (the
/// indexing sequence). Each key path leads to one leaf that records a tuple
/// index. Children of a node are found through one open-hashed bucket array
/// over `(parent, key)`; siblings form a doubly linked list in which the most
/// recently added child comes first.
pub struct TupleIndex<T> {
    indexing_sequence: Vec<usize>,
    nodes: Vec<TrieNode>,
    free: Vec<usize>,
    root: usize,
    buckets: Vec<usize>,
    buckets_mask: usize,
    resize_threshold: usize,
    number_of_nodes: usize,
    /// The key paths of the leaves, in depth-first sibling order.
    paths: Ghost<Seq<Seq<u64>>>,
    /// The node reached by each key path that leads somewhere.
    node_of: Ghost<Map<Seq<u64>, int>>,
    /// The key path of each live node.
    path_of: Ghost<Map<int, Seq<u64>>>,
    /// The collision chain of each bucket.
    chains: Ghost<Seq<Seq<int>>>,
    marker: core::marker::PhantomData<T>,
}

impl<T: EdgeKey> TupleIndex<T> {
    spec fn nd(&self, n: int) -> TrieNode {
        self.nodes@[n]
    }

    spec fn bucket_of(&self, n: int) -> int {
        (edge_hash(self.nodes@[n].key, self.nodes@[n].parent) & self.buckets_mask) as int
    }

    /// A leaf that is first in the run of some prefix hangs below the first
    /// child chain, with no previous sibling.
    #[verifier::opaque]
    spec fn rule_first(&self) -> bool {
        let p = self.paths@;
        let n = self.node_of@;
        forall|i: int, e: int|
            #![trigger p[i].take(e)]
            0 <= i < p.len() && 1 <= e <= p[i].len() && (i == 0 || !has_prefix(
                p[i - 1],
                p[i].take(e - 1),
            )) ==> {
                &&& self.nd(n[p[i].take(e - 1)]).first_child == n[p[i].take(e)]
                &&& self.nd(n[p[i].take(e)]).previous_sibling == NIL
            }
    }

    /// Where two consecutive leaves part, their branches are adjacent siblings.
    #[verifier::opaque]
    spec fn rule_adjacent(&self) -> bool {
        let p = self.paths@;
        let n = self.node_of@;
        forall|i: int, e: int|
            #![trigger p[i].take(e)]
            0 < i < p.len() && 1 <= e <= p[i].len() && has_prefix(p[i - 1], p[i].take(e - 1))
                && !has_prefix(p[i - 1], p[i].take(e)) ==> {
                &&& e <= p[i - 1].len()
                &&& self.nd(n[p[i].take(e)]).previous_sibling == n[p[i - 1].take(e)]
                &&& self.nd(n[p[i - 1].take(e)]).next_sibling == n[p[i].take(e)]
            }
    }

    /// A leaf that is last in the run of some prefix has no next sibling there.
    #[verifier::opaque]
    spec fn rule_last(&self) -> bool {
        let p = self.paths@;
        let n = self.node_of@;
        forall|i: int, e: int|
            #![trigger p[i].take(e)]
            0 <= i < p.len() && 1 <= e <= p[i].len() && (i == p.len() - 1 || !has_prefix(
                p[i + 1],
                p[i].take(e - 1),
            )) ==> self.nd(n[p[i].take(e)]).next_sibling == NIL
    }

    /// Leaves have no children, and an empty trie's root neither.
    #[verifier::opaque]
    spec fn rule_leaf(&self) -> bool {
        let p = self.paths@;
        let n = self.node_of@;
        &&& forall|i: int| 0 <= i < p.len() ==> self.nd(n[#[trigger] p[i]]).first_child == NIL
        &&& p.len() == 0 ==> self.nd(self.root as int).first_child == NIL
    }

    /// The depth-first sibling structure between consecutive leaves.
    spec fn sibling_rules(&self) -> bool {
        &&& self.rule_first()
        &&& self.rule_adjacent()
        &&& self.rule_last()
        &&& self.rule_leaf()
    }

    #[verifier::opaque]
    spec fn chain_rules(&self) -> bool {
        let c = self.chains@;
        &&& c.len() == self.buckets@.len()
        &&& forall|b: int|
            0 <= b < c.len() ==> #[trigger] self.buckets@[b] == if c[b].len() == 0 {
                NIL
            } else {
                c[b][0] as usize
            }
        &&& forall|b: int, j: int|
            #![trigger c[b][j]]
            0 <= b < c.len() && 0 <= j < c[b].len() ==> {
                &&& self.path_of@.contains_key(c[b][j])
                &&& c[b][j] != self.root
                &&& self.bucket_of(c[b][j]) == b
                &&& self.nd(c[b][j]).next_entry == if j + 1 < c[b].len() {
                    c[b][j + 1] as usize
                } else {
                    NIL
                }
            }
        &&& forall|b: int, j1: int, j2: int|
            0 <= b < c.len() && 0 <= j1 < c[b].len() && 0 <= j2 < c[b].len() && #[trigger] c[b][j1]
                == #[trigger] c[b][j2] ==> j1 == j2
        &&& forall|m: int|
            #[trigger] self.path_of@.contains_key(m) && m != self.root ==> exists|j: int|
                0 <= j < c[self.bucket_of(m)].len() && #[trigger] c[self.bucket_of(m)][j] == m
    }

    #[verifier::opaque]
    spec fn node_rules(&self) -> bool {
        let p = self.paths@;
        let n = self.node_of@;
        let po = self.path_of@;
        &&& self.root < self.nodes@.len()
        &&& n.contains_key(Seq::empty()) && n[Seq::empty()] == self.root
        &&& self.nd(self.root as int).parent == NIL
        &&& forall|q: Seq<u64>|
            #[trigger] n.contains_key(q) ==> {
                &&& 0 <= n[q] < self.nodes@.len()
                &&& po.contains_key(n[q])
                &&& po[n[q]] == q
                &&& q.len() <= self.indexing_sequence@.len()
            }
        &&& forall|m: int| #[trigger] po.contains_key(m) ==> n.contains_key(po[m]) && n[po[m]] == m
        &&& forall|q: Seq<u64>|
            #[trigger] n.contains_key(q) && q.len() > 0 ==> {
                &&& n.contains_key(q.drop_last())
                &&& self.nd(n[q]).parent == n[q.drop_last()]
                &&& self.nd(n[q]).key == q.last()
            }
        &&& forall|i: int, q: Seq<u64>|
            0 <= i < p.len() && #[trigger] has_prefix(p[i], q) ==> n.contains_key(q)
        &&& forall|q: Seq<u64>|
            #[trigger] n.contains_key(q) && q.len() > 0 ==> exists|i: int|
                0 <= i < p.len() && #[trigger] has_prefix(p[i], q)
        &&& forall|i: int|
            0 <= i < p.len() ==> 1 <= (#[trigger] p[i]).len() <= self.indexing_sequence@.len()
        &&& trie_ordered(p)
    }

    #[verifier::opaque]
    spec fn free_rules(&self) -> bool {
        &&& self.free@.no_duplicates()
        &&& forall|k: int|
            0 <= k < self.free@.len() ==> {
                &&& #[trigger] self.free@[k] < self.nodes@.len()
                &&& !self.path_of@.contains_key(self.free@[k] as int)
            }
        &&& self.number_of_nodes + self.free@.len() + 1 == self.nodes@.len()
    }

    spec fn inv(&self) -> bool {
        &&& self.nodes@.len() < NIL
        &&& self.buckets@.len() > 0
        &&& self.buckets_mask == self.buckets@.len() - 1
        &&& self.node_rules()
        &&& self.sibling_rules()
        &&& self.chain_rules()
        &&& self.free_rules()
    }

    /// The index is well formed and every leaf lies at the full depth.
    pub closed spec fn wf(&self) -> bool {
        &&& self.inv()
        &&& self.indexing_sequence@.len() >= 1
        &&& forall|i: int|
            0 <= i < self.paths@.len() ==> (#[trigger] self.paths@[i]).len()
                == self.indexing_sequence@.len()
    }

    pub closed spec fn spec_indexing_sequence(&self) -> Seq<usize> {
        self.indexing_sequence@
    }

    /// The key paths of the indexed tuples, in trie order.
    pub closed spec fn key_paths(&self) -> Seq<Seq<u64>> {
        self.paths@
    }

    /// The tuple index recorded for each key path, in trie order.
    pub closed spec fn entries(&self) -> Seq<(Seq<u64>, i32)> {
        Seq::new(
            self.paths@.len(),
            |i: int| (self.paths@[i], self.nodes@[self.node_of@[self.paths@[i]]].tuple_index),
        )
    }

    proof fn lemma_node(&self, q: Seq<u64>)
        requires
            self.inv(),
            self.node_of@.contains_key(q),
        ensures
            0 <= self.node_of@[q] < self.nodes@.len(),
            self.path_of@.contains_key(self.node_of@[q]),
            self.path_of@[self.node_of@[q]] == q,
            q.len() <= self.indexing_sequence@.len(),
            q.len() == 0 ==> self.node_of@[q] == self.root,
            q.len() > 0 ==> {
                &&& self.node_of@.contains_key(q.drop_last())
                &&& self.nodes@[self.node_of@[q]].parent == self.node_of@[q.drop_last()]
                &&& self.nodes@[self.node_of@[q]].key == q.last()
                &&& self.node_of@[q] != self.root
            },
    {
        reveal(TupleIndex::node_rules);
        if q.len() == 0 {
            assert(q =~= Seq::<u64>::empty());
        } else {
            if self.node_of@[q] == self.root {
                assert(self.path_of@[self.root as int] == Seq::<u64>::empty());
            }
        }
    }

    proof fn lemma_live(&self, m: int)
        requires
            self.inv(),
            self.path_of@.contains_key(m),
        ensures
            self.node_of@.contains_key(self.path_of@[m]),
            self.node_of@[self.path_of@[m]] == m,
            0 <= m < self.nodes@.len(),
    {
        reveal(TupleIndex::node_rules);
    }

    proof fn lemma_chain_entry(&self, b: int, j: int)
        requires
            self.inv(),
            0 <= b < self.chains@.len(),
            0 <= j < self.chains@[b].len(),
        ensures
            self.path_of@.contains_key(self.chains@[b][j]),
            self.chains@[b][j] != self.root,
            self.bucket_of(self.chains@[b][j]) == b,
            self.nodes@[self.chains@[b][j]].next_entry == if j + 1 < self.chains@[b].len() {
                self.chains@[b][j + 1] as usize
            } else {
                NIL
            },
            0 <= self.chains@[b][j] < self.nodes@.len(),
    {
        reveal(TupleIndex::chain_rules);
        reveal(TupleIndex::node_rules);
    }

    proof fn lemma_chain_head(&self, b: int)
        requires
            self.inv(),
            0 <= b < self.buckets@.len(),
        ensures
            self.chains@.len() == self.buckets@.len(),
            self.buckets@[b] == if self.chains@[b].len() == 0 {
                NIL
            } else {
                self.chains@[b][0] as usize
            },
    {
        reveal(TupleIndex::chain_rules);
    }

    proof fn lemma_chain_member(&self, m: int) -> (j: int)
        requires
            self.inv(),
            self.path_of@.contains_key(m),
            m != self.root,
        ensures
            0 <= self.bucket_of(m) < self.chains@.len(),
            0 <= j < self.chains@[self.bucket_of(m)].len(),
            self.chains@[self.bucket_of(m)][j] == m,
    {
        reveal(TupleIndex::chain_rules);
        let b = self.bucket_of(m);
        let h = edge_hash(self.nodes@[m].key, self.nodes@[m].parent);
        let mask = self.buckets_mask;
        assert(h & mask <= mask) by (bit_vector);
        choose|j: int| 0 <= j < self.chains@[b].len() && #[trigger] self.chains@[b][j] == m
    }

    /// The bucket hash of the edge `(key, parent)`.
    fn edge_hash_key(key: u64, parent: usize) -> (h: usize)
        ensures
            h == edge_hash(key, parent),
    {
        let mut h = (key as usize).wrapping_add(parent);
        h = h.wrapping_add(!(h << 9usize));
        h = h ^ (h >> 14usize);
        h = h.wrapping_add(h << 4usize);
        h = h ^ (h >> 10usize);
        h
    }

    fn bucket_index(&self, key: u64, parent: usize) -> (b: usize)
        requires
            self.inv(),
        ensures
            b == (edge_hash(key, parent) & self.buckets_mask),
            b < self.buckets@.len(),
    {
        let h = Self::edge_hash_key(key, parent);
        let m = self.buckets_mask;
        let b = h & m;
        assert(b <= m) by (bit_vector)
            requires
                b == h & m,
        ;
        b
    }

    proof fn lemma_split_last(s: Seq<u64>)
        requires
            s.len() > 0,
        ensures
            s == s.drop_last().push(s.last()),
    {
        assert(s =~= s.drop_last().push(s.last()));
    }

    proof fn lemma_push_parts(q: Seq<u64>, key: u64)
        ensures
            q.push(key).drop_last() == q,
            q.push(key).last() == key,
            q.push(key).len() == q.len() + 1,
    {
        assert(q.push(key).drop_last() =~= q);
    }

    /// The child of `parent` along the edge `object`, or `NIL`.
    fn get_child_node(&self, parent: usize, object: &T) -> (r: usize)
        requires
            self.inv(),
            self.path_of@.contains_key(parent as int),
        ensures
            ({
                let q = self.path_of@[parent as int].push(object.key_spec());
                if self.node_of@.contains_key(q) {
                    r as int == self.node_of@[q]
                } else {
                    r == NIL
                }
            }),
    {
        let key = object.unique_key();
        self.find_child(parent, key)
    }

    fn find_child(&self, parent: usize, key: u64) -> (r: usize)
        requires
            self.inv(),
            self.path_of@.contains_key(parent as int),
        ensures
            ({
                let q = self.path_of@[parent as int].push(key);
                if self.node_of@.contains_key(q) {
                    r as int == self.node_of@[q]
                } else {
                    r == NIL
                }
            }),
    {
        let bucket = self.bucket_index(key, parent);
        let ghost chain = self.chains@[bucket as int];
        let ghost q = self.path_of@[parent as int].push(key);
        proof {
            Self::lemma_push_parts(self.path_of@[parent as int], key);
            self.lemma_chain_head(bucket as int);
            self.lemma_live(parent as int);
        }
        let mut child = self.buckets[bucket];
        let ghost mut j: int = 0;
        while child != NIL
            invariant
                self.inv(),
                self.path_of@.contains_key(parent as int),
                bucket < self.buckets@.len(),
                bucket == (edge_hash(key, parent) & self.buckets_mask),
                self.chains@.len() == self.buckets@.len(),
                chain == self.chains@[bucket as int],
                0 <= j <= chain.len(),
                child == if j < chain.len() {
                    chain[j] as usize
                } else {
                    NIL
                },
                forall|j2: int|
                    0 <= j2 < j ==> !(self.nodes@[#[trigger] chain[j2]].parent == parent
                        && self.nodes@[chain[j2]].key == key),
            decreases chain.len() - j,
        {
            proof {
                self.lemma_chain_entry(bucket as int, j);
            }
            let node = &self.nodes[child];
            if node.parent == parent && node.key == key {
                proof {
                    let c = chain[j];
                    self.lemma_live(c);
                    let pc = self.path_of@[c];
                    self.lemma_node(pc);
                    self.lemma_node(pc.drop_last());
                    assert(pc.drop_last() == self.path_of@[parent as int]);
                    Self::lemma_split_last(pc);
                    assert(child as int == c);
                    assert(self.node_of@[pc] == c);
                    assert(pc.last() == key);
                    assert(pc == self.path_of@[parent as int].push(key));
                }
                return child;
            }
            child = node.next_entry;
            proof {
                j = j + 1;
            }
        }
        proof {
            if j < chain.len() {
                self.lemma_chain_entry(bucket as int, j);
            }
            if self.node_of@.contains_key(q) {
                let m = self.node_of@[q];
                self.lemma_node(q);
                assert(self.bucket_of(m) == bucket);
                let j0 = self.lemma_chain_member(m);
                assert(chain[j0] == m);
                assert(!(self.nodes@[chain[j0]].parent == parent && self.nodes@[chain[j0]].key
                    == key));
                assert(false);
            }
        }
        NIL
    }

    pub fn new(indexing_sequence: Vec<usize>) -> (index: TupleIndex<T>)
        requires
            indexing_sequence@.len() >= 1,
        ensures
            index.wf(),
            index.spec_indexing_sequence() == indexing_sequence@,
            index.key_paths().len() == 0,
            index.entries().len() == 0,
            index.node_count() == 1,
    {
        let mut index = TupleIndex {
            indexing_sequence,
            nodes: Vec::new(),
            free: Vec::new(),
            root: 0,
            buckets: Vec::new(),
            buckets_mask: 0,
            resize_threshold: 0,
            number_of_nodes: 0,
            paths: Ghost(Seq::empty()),
            node_of: Ghost(Map::empty()),
            path_of: Ghost(Map::empty()),
            chains: Ghost(Seq::empty()),
            marker: core::marker::PhantomData,
        };
        index.clear();
        index
    }

    pub fn get_indexing_sequence(&self) -> (r: &[usize])
        ensures
            r@ == self.spec_indexing_sequence(),
    {
        self.indexing_sequence.as_slice()
    }

    /// The number of trie nodes held, live or free.
    pub closed spec fn node_count(&self) -> nat {
        self.nodes@.len()
    }

    /// Empties the index; the bucket array keeps its size (at least the initial
    /// size) so a hot index does not grow again after every reset.
    pub fn clear(&mut self)
        requires
            old(self).spec_indexing_sequence().len() >= 1,
        ensures
            final(self).wf(),
            final(self).spec_indexing_sequence() == old(self).spec_indexing_sequence(),
            final(self).key_paths().len() == 0,
            final(self).entries().len() == 0,
            final(self).node_count() == 1,
    {
        self.nodes.clear();
        self.free.clear();
        let len = if self.buckets.len() > INITIAL_BUCKETS {
            self.buckets.len()
        } else {
            INITIAL_BUCKETS
        };
        let mut buckets: Vec<usize> = Vec::new();
        let mut i: usize = 0;
        while i < len
            invariant
                i <= len,
                buckets@ == Seq::new(i as nat, |k: int| NIL),
            decreases len - i,
        {
            buckets.push(NIL);
            i += 1;
        }
        self.buckets = buckets;
        self.buckets_mask = len - 1;
        self.resize_threshold = len / 5 * 4 + (len % 5) * 4 / 5;
        self.number_of_nodes = 0;
        self.nodes.push(TrieNode::empty());
        self.root = 0;
        self.paths = Ghost(Seq::empty());
        self.node_of = Ghost(Map::empty().insert(Seq::empty(), 0));
        self.path_of = Ghost(Map::empty().insert(0, Seq::empty()));
        self.chains = Ghost(Seq::new(len as nat, |k: int| Seq::<int>::empty()));
        proof {
            reveal(TupleIndex::node_rules);
            reveal(TupleIndex::rule_first);
        reveal(TupleIndex::rule_adjacent);
        reveal(TupleIndex::rule_last);
        reveal(TupleIndex::rule_leaf);
            reveal(TupleIndex::chain_rules);
            reveal(TupleIndex::free_rules);
            assert(self.free@.no_duplicates());
            assert forall|q: Seq<u64>| #[trigger] self.node_of@.contains_key(q) implies q.len()
                == 0 by {
                if q.len() != 0 {
                    assert(q != Seq::<u64>::empty());
                }
            }
            assert forall|m: int|
                #[trigger] self.path_of@.contains_key(m) && m != self.root implies false by {}
        }
    }

    proof fn lemma_root(&self)
        requires
            self.inv(),
        ensures
            self.node_of@.contains_key(Seq::empty()),
            self.node_of@[Seq::empty()] == self.root,
            self.path_of@.contains_key(self.root as int),
            self.path_of@[self.root as int] == Seq::<u64>::empty(),
            self.root < self.nodes@.len(),
            self.nodes@[self.root as int].parent == NIL,
    {
        reveal(TupleIndex::node_rules);
    }

    proof fn lemma_ordered(&self)
        requires
            self.inv(),
        ensures
            trie_ordered(self.paths@),
            forall|i: int|
                0 <= i < self.paths@.len() ==> 1 <= (#[trigger] self.paths@[i]).len()
                    <= self.indexing_sequence@.len(),
    {
        reveal(TupleIndex::node_rules);
    }

    proof fn lemma_prefix_in_trie(&self, i: int, q: Seq<u64>)
        requires
            self.inv(),
            0 <= i < self.paths@.len(),
            has_prefix(self.paths@[i], q),
        ensures
            self.node_of@.contains_key(q),
    {
        reveal(TupleIndex::node_rules);
    }

    proof fn lemma_node_has_leaf(&self, q: Seq<u64>) -> (i: int)
        requires
            self.inv(),
            self.node_of@.contains_key(q),
            q.len() > 0,
        ensures
            0 <= i < self.paths@.len(),
            has_prefix(self.paths@[i], q),
    {
        reveal(TupleIndex::node_rules);
        choose|i: int| 0 <= i < self.paths@.len() && #[trigger] has_prefix(self.paths@[i], q)
    }

    proof fn lemma_leaf_facts(&self, i: int)
        requires
            self.inv(),
            0 <= i < self.paths@.len(),
        ensures
            1 <= self.paths@[i].len() <= self.indexing_sequence@.len(),
            trie_ordered(self.paths@),
            self.node_of@.contains_key(self.paths@[i]),
    {
        reveal(TupleIndex::node_rules);
        assert(has_prefix(self.paths@[i], self.paths@[i]));
    }

    proof fn lemma_take_push(p: Seq<u64>, k: int)
        requires
            0 <= k < p.len(),
        ensures
            p.take(k).push(p[k]) == p.take(k + 1),
    {
        assert(p.take(k).push(p[k]) =~= p.take(k + 1));
    }

    /// The leaf reached by the key path of `tuple`, or `NIL` when that key
    /// path is not indexed.
    fn find_leaf(&self, tuple: &[T]) -> (r: usize)
        requires
            self.wf(),
            forall|j: int|
                0 <= j < self.indexing_sequence@.len() ==> #[trigger] self.indexing_sequence@[j]
                    < tuple@.len(),
        ensures
            ({
                let p = key_path(self.indexing_sequence@, tuple@);
                if exists|i: int| 0 <= i < self.paths@.len() && #[trigger] self.paths@[i] == p {
                    &&& self.node_of@.contains_key(p)
                    &&& r as int == self.node_of@[p]
                    &&& r < self.nodes@.len()
                } else {
                    r == NIL
                }
            }),
    {
        let ghost p = key_path(self.indexing_sequence@, tuple@);
        let mut trie_node = self.root;
        let len = self.indexing_sequence.len();
        proof {
            self.lemma_root();
            assert(p.take(0) =~= Seq::<u64>::empty());
        }
        let mut seq_index: usize = 0;
        while seq_index < len
            invariant
                self.wf(),
                len == self.indexing_sequence@.len(),
                p == key_path(self.indexing_sequence@, tuple@),
                forall|j: int|
                    0 <= j < self.indexing_sequence@.len() ==> #[trigger] self.indexing_sequence@[j]
                        < tuple@.len(),
                seq_index <= len,
                self.node_of@.contains_key(p.take(seq_index as int)),
                trie_node as int == self.node_of@[p.take(seq_index as int)],
            decreases len - seq_index,
        {
            let column = self.indexing_sequence[seq_index];
            proof {
                self.lemma_node(p.take(seq_index as int));
                Self::lemma_take_push(p, seq_index as int);
            }
            let ghost prev = trie_node;
            proof {
                assert(p[seq_index as int] == tuple@[column as int].key_spec());
                assert(self.path_of@[prev as int] == p.take(seq_index as int));
            }
            trie_node = self.get_child_node(trie_node, &tuple[column]);
            if trie_node == NIL {
                proof {
                    if self.node_of@.contains_key(p.take(seq_index + 1)) {
                        self.lemma_node(p.take(seq_index + 1));
                    }
                    assert(!self.node_of@.contains_key(p.take(seq_index + 1)));
                    assert forall|i: int| 0 <= i < self.paths@.len() implies self.paths@[i] != p by {
                        if self.paths@[i] == p {
                            assert(has_prefix(self.paths@[i], p.take(seq_index + 1)));
                            self.lemma_prefix_in_trie(i, p.take(seq_index + 1));
                        }
                    }
                }
                return NIL;
            }
            seq_index += 1;
        }
        proof {
            assert(p.take(len as int) =~= p);
            let i = self.lemma_node_has_leaf(p);
            self.lemma_leaf_facts(i);
            assert(self.paths@[i] =~= p);
            self.lemma_node(p);
        }
        trie_node
    }

    /// The tuple index recorded under the key path of `tuple`, or `NONE`.
    pub fn get_tuple_index(&self, tuple: &[T]) -> (r: i32)
        requires
            self.wf(),
            forall|j: int|
                0 <= j < self.spec_indexing_sequence().len() ==> #[trigger] self.spec_indexing_sequence()[j]
                    < tuple@.len(),
        ensures
            r == lookup(self.entries(), key_path(self.spec_indexing_sequence(), tuple@)),
    {
        let ghost p = key_path(self.indexing_sequence@, tuple@);
        proof {
            assert(self.spec_indexing_sequence() == self.indexing_sequence@);
        }
        let leaf = self.find_leaf(tuple);
        if leaf == NIL {
            proof {
                if exists|i: int| 0 <= i < self.paths@.len() && #[trigger] self.paths@[i] == p {
                    assert(leaf < self.nodes@.len());
                    reveal(TupleIndex::free_rules);
                }
                assert forall|i: int| 0 <= i < self.entries().len() implies self.entries()[i].0
                    != p by {
                    assert(self.entries()[i].0 == self.paths@[i]);
                }
            }
            return NONE;
        }
        proof {
            let i = choose|i: int| 0 <= i < self.paths@.len() && #[trigger] self.paths@[i] == p;
            self.lemma_leaf_facts(i);
            assert(self.entries()[i].0 == p);
            assert forall|i2: int| 0 <= i2 < self.entries().len() && self.entries()[i2].0 == p
                implies i2 == i by {
                if i2 != i {
                    assert(has_prefix(self.paths@[i2], self.paths@[i]));
                }
            }
        }
        self.nodes[leaf].tuple_index
    }

    /// The paths after adding the child `r.push(key)` below the node of `r`:
    /// a leaf `r` at index `s` is extended, otherwise the new path is inserted
    /// at index `s`.
    spec fn paths_after_add(paths: Seq<Seq<u64>>, r: Seq<u64>, key: u64, leaf: bool, s: int) -> Seq<
        Seq<u64>,
    > {
        if leaf {
            paths.update(s, r.push(key))
        } else {
            paths.insert(s, r.push(key))
        }
    }

    /// Where the child `r.push(key)` enters the paths.
    spec fn add_position_ok(paths: Seq<Seq<u64>>, r: Seq<u64>, leaf: bool, s: int) -> bool {
        if leaf {
            0 <= s < paths.len() && paths[s] == r
        } else {
            &&& forall|i: int| 0 <= i < paths.len() ==> #[trigger] paths[i] != r
            &&& (paths.len() == 0 && s == 0) || is_block_start(paths, r, s)
        }
    }

    /// `post` is `pre` with the new node `x` linked in as the first child of
    /// `parent` along `key`, and at the head of bucket `b`.
    spec fn add_step(
        pre: Self,
        post: Self,
        parent: int,
        key: u64,
        x: int,
        b: int,
        leaf: bool,
        s: int,
    ) -> bool {
        let r = pre.path_of@[parent];
        let q = r.push(key);
        let c0 = pre.nodes@[parent].first_child;
        &&& post.indexing_sequence@ == pre.indexing_sequence@
        &&& post.root == pre.root
        &&& post.buckets_mask == pre.buckets_mask
        &&& 0 <= x < post.nodes@.len()
        &&& !pre.path_of@.contains_key(x)
        &&& post.nodes@.len() < NIL
        &&& ((x == pre.nodes@.len() && post.nodes@.len() == pre.nodes@.len() + 1 && post.free@
            == pre.free@) || (x < pre.nodes@.len() && post.nodes@.len() == pre.nodes@.len()
            && pre.free@.len() > 0 && x == pre.free@.last() && post.free@
            == pre.free@.drop_last()))
        &&& post.number_of_nodes == pre.number_of_nodes + 1
        &&& forall|m: int|
            0 <= m < pre.nodes@.len() && m != x && m != parent && m != c0 ==> #[trigger] post.nodes@[m]
                == pre.nodes@[m]
        &&& post.nodes@[parent] == with_first_child(pre.nodes@[parent], x as usize)
        &&& c0 != NIL ==> post.nodes@[c0 as int] == with_previous_sibling(
            pre.nodes@[c0 as int],
            x as usize,
        )
        &&& post.nodes@[x] == TrieNode {
            parent: parent as usize,
            first_child: NIL,
            previous_sibling: NIL,
            next_sibling: c0,
            tuple_index: NONE,
            next_entry: pre.buckets@[b],
            key,
        }
        &&& 0 <= b < pre.buckets@.len()
        &&& b == (edge_hash(key, parent as usize) & pre.buckets_mask)
        &&& post.buckets@ == pre.buckets@.update(b, x as usize)
        &&& post.chains@ == pre.chains@.update(b, seq![x] + pre.chains@[b])
        &&& post.node_of@ == pre.node_of@.insert(q, x)
        &&& post.path_of@ == pre.path_of@.insert(x, q)
        &&& Self::add_position_ok(pre.paths@, r, leaf, s)
        &&& post.paths@ == Self::paths_after_add(pre.paths@, r, key, leaf, s)
    }

    spec fn add_pre(pre: Self, parent: int, key: u64) -> bool {
        &&& pre.inv()
        &&& pre.path_of@.contains_key(parent)
        &&& !pre.node_of@.contains_key(pre.path_of@[parent].push(key))
        &&& pre.path_of@[parent].len() < pre.indexing_sequence@.len()
    }

    /// Every prefix of a node's path is itself a node's path.
    proof fn lemma_node_prefix(&self, r: Seq<u64>, t: Seq<u64>)
        requires
            self.inv(),
            self.node_of@.contains_key(r),
            has_prefix(r, t),
        ensures
            self.node_of@.contains_key(t),
    {
        if r.len() == 0 {
            assert(t =~= Seq::<u64>::empty());
            self.lemma_root();
        } else {
            let j = self.lemma_node_has_leaf(r);
            lemma_prefix_trans(self.paths@[j], r, t);
            self.lemma_prefix_in_trie(j, t);
        }
    }

    /// No leaf path is a prefix of the path of an inner node.
    proof fn lemma_inner_not_below_leaf(&self, r: Seq<u64>, i: int)
        requires
            self.inv(),
            self.node_of@.contains_key(r),
            0 <= i < self.paths@.len(),
            forall|j: int| 0 <= j < self.paths@.len() ==> #[trigger] self.paths@[j] != r,
        ensures
            !has_prefix(r, self.paths@[i]),
    {
        self.lemma_leaf_facts(i);
        if has_prefix(r, self.paths@[i]) {
            if r.len() == 0 {
            } else {
                let j = self.lemma_node_has_leaf(r);
                lemma_prefix_trans(self.paths@[j], r, self.paths@[i]);
                if j != i {
                    assert(!has_prefix(self.paths@[j], self.paths@[i]));
                } else {
                    lemma_prefix_full(r, self.paths@[i]);
                }
            }
        }
    }

    /// The first child of the node `r` before a child is added to it.
    proof fn lemma_add_first_child(pre: Self, parent: int, key: u64, leaf: bool, s: int)
        requires
            Self::add_pre(pre, parent, key),
            Self::add_position_ok(pre.paths@, pre.path_of@[parent], leaf, s),
        ensures
            ({
                let r = pre.path_of@[parent];
                let c0 = pre.nodes@[parent].first_child;
                if leaf || pre.paths@.len() == 0 {
                    c0 == NIL
                } else {
                    &&& pre.paths@[s].len() > r.len()
                    &&& pre.paths@[s].take(r.len() as int) == r
                    &&& pre.node_of@.contains_key(pre.paths@[s].take(r.len() as int + 1))
                    &&& c0 as int == pre.node_of@[pre.paths@[s].take(r.len() as int + 1)]
                    &&& pre.nodes@[c0 as int].previous_sibling == NIL
                    &&& pre.path_of@.contains_key(c0 as int)
                    &&& c0 as int != parent
                }
            }),
    {
        reveal(TupleIndex::rule_first);
        reveal(TupleIndex::rule_adjacent);
        reveal(TupleIndex::rule_last);
        reveal(TupleIndex::rule_leaf);
        let r = pre.path_of@[parent];
        pre.lemma_live(parent);
        if leaf {
            assert(pre.nodes@[pre.node_of@[pre.paths@[s]]].first_child == NIL);
        } else if pre.paths@.len() == 0 {
            if r.len() > 0 {
                pre.lemma_node_has_leaf(r);
            }
            pre.lemma_root();
            assert(r =~= Seq::<u64>::empty());
        } else {
            let ps = pre.paths@[s];
            pre.lemma_leaf_facts(s);
            if ps.len() == r.len() {
                lemma_prefix_full(ps, r);
            }
            assert(ps.take(r.len() as int) =~= r);
            lemma_take_prefix(ps, r.len() as int + 1);
            pre.lemma_prefix_in_trie(s, ps.take(r.len() as int + 1));
            assert(ps.take(r.len() as int + 1).take(r.len() as int) =~= r);
            assert(pre.nodes@[pre.node_of@[ps.take(r.len() as int)]].first_child
                == pre.node_of@[ps.take(r.len() as int + 1)]);
            pre.lemma_node(ps.take(r.len() as int + 1));
            assert(ps.take(r.len() as int + 1).drop_last() =~= r);
        }
    }

    #[verifier::rlimit(40)]
    #[verifier::spinoff_prover]
    proof fn lemma_add_node_rules(
        pre: Self,
        post: Self,
        parent: int,
        key: u64,
        x: int,
        b: int,
        leaf: bool,
        s: int,
    )
        requires
            Self::add_pre(pre, parent, key),
            Self::add_step(pre, post, parent, key, x, b, leaf, s),
        ensures
            post.node_rules(),
    {
        let r = pre.path_of@[parent];
        let q = r.push(key);
        let p = pre.paths@;
        let np = post.paths@;
        pre.lemma_live(parent);
        pre.lemma_root();
        pre.lemma_ordered();
        Self::lemma_push_parts(r, key);
        assert forall|i: int| 0 <= i < p.len() implies !has_prefix(#[trigger] p[i], q) by {
            if has_prefix(p[i], q) {
                pre.lemma_prefix_in_trie(i, q);
            }
        }
        if leaf {
            lemma_ordered_extend(p, s, key);
        } else {
            assert forall|i: int| 0 <= i < p.len() implies !has_prefix(r, #[trigger] p[i]) by {
                pre.lemma_inner_not_below_leaf(r, i);
            }
            lemma_ordered_insert(p, s, r, key);
        }
        reveal(TupleIndex::node_rules);
        let n = post.node_of@;
        let po = post.path_of@;
        assert forall|t: Seq<u64>| #[trigger] n.contains_key(t) implies {
            &&& 0 <= n[t] < post.nodes@.len()
            &&& po.contains_key(n[t])
            &&& po[n[t]] == t
            &&& t.len() <= post.indexing_sequence@.len()
        } by {
            if t != q {
                pre.lemma_node(t);
            }
        }
        assert forall|m: int| #[trigger] po.contains_key(m) implies n.contains_key(po[m]) && n[po[m]]
            == m by {
            if m != x {
                pre.lemma_live(m);
                pre.lemma_node(pre.path_of@[m]);
            }
        }
        assert forall|t: Seq<u64>| #[trigger] n.contains_key(t) && t.len() > 0 implies {
            &&& n.contains_key(t.drop_last())
            &&& post.nodes@[n[t]].parent == n[t.drop_last()]
            &&& post.nodes@[n[t]].key == t.last()
        } by {
            if t == q {
            } else {
                pre.lemma_node(t);
                pre.lemma_node(t.drop_last());
                let m = pre.node_of@[t];
                let c0 = pre.nodes@[parent].first_child;
                if m == parent {
                } else if c0 != NIL && m == c0 as int {
                } else {
                    assert(post.nodes@[m] == pre.nodes@[m]);
                }
            }
        }
        assert forall|i: int, t: Seq<u64>|
            0 <= i < np.len() && #[trigger] has_prefix(np[i], t) implies n.contains_key(t) by {
            if np[i] == q {
                lemma_prefix_push(r, key, t);
                if t != q {
                    pre.lemma_node_prefix(r, t);
                }
            } else {
                let oi = if leaf || i < s { i } else { i - 1 };
                assert(np[i] == p[oi]);
                pre.lemma_prefix_in_trie(oi, t);
            }
        }
        assert forall|t: Seq<u64>| #[trigger] n.contains_key(t) && t.len() > 0 implies exists|i: int|
            0 <= i < np.len() && #[trigger] has_prefix(np[i], t) by {
            if t == q {
                lemma_take_prefix(q, q.len() as int);
                assert(q.take(q.len() as int) =~= q);
                assert(np[s] == q);
                assert(has_prefix(np[s], t));
            } else {
                let j = pre.lemma_node_has_leaf(t);
                if leaf {
                    if j == s {
                        lemma_prefix_push(r, key, t);
                        assert(has_prefix(np[s], t));
                    } else {
                        assert(has_prefix(np[j], t));
                    }
                } else {
                    let nj = if j < s { j } else { j + 1 };
                    assert(np[nj] == p[j]);
                    assert(has_prefix(np[nj], t));
                }
            }
        }
        assert forall|i: int| 0 <= i < np.len() implies 1 <= (#[trigger] np[i]).len()
            <= post.indexing_sequence@.len() by {
            if np[i] != q {
                let oi = if leaf || i < s { i } else { i - 1 };
                assert(np[i] == p[oi]);
                pre.lemma_leaf_facts(oi);
            }
        }
    }

    /// How the fields of the nodes of `pre` read after an add step.
    proof fn lemma_add_fields(
        pre: Self,
        post: Self,
        parent: int,
        key: u64,
        x: int,
        b: int,
        leaf: bool,
        s: int,
    )
        requires
            Self::add_pre(pre, parent, key),
            Self::add_step(pre, post, parent, key, x, b, leaf, s),
        ensures
            ({
                let c0 = pre.nodes@[parent].first_child;
                &&& forall|t: Seq<u64>|
                    #[trigger] pre.node_of@.contains_key(t) ==> post.node_of@.contains_key(t)
                        && post.node_of@[t] == pre.node_of@[t]
                &&& post.node_of@[pre.path_of@[parent].push(key)] == x
                &&& forall|m: int|
                    #[trigger] pre.path_of@.contains_key(m) ==> {
                        &&& post.nodes@[m].first_child == if m == parent {
                            x as usize
                        } else {
                            pre.nodes@[m].first_child
                        }
                        &&& post.nodes@[m].previous_sibling == if c0 != NIL && m == c0 as int {
                            x as usize
                        } else {
                            pre.nodes@[m].previous_sibling
                        }
                        &&& post.nodes@[m].next_sibling == pre.nodes@[m].next_sibling
                        &&& post.nodes@[m].parent == pre.nodes@[m].parent
                        &&& post.nodes@[m].key == pre.nodes@[m].key
                        &&& post.nodes@[m].tuple_index == pre.nodes@[m].tuple_index
                        &&& post.nodes@[m].next_entry == pre.nodes@[m].next_entry
                    }
            }),
    {
        let c0 = pre.nodes@[parent].first_child;
        assert forall|m: int| #[trigger] pre.path_of@.contains_key(m) implies {
            &&& post.nodes@[m].first_child == if m == parent {
                x as usize
            } else {
                pre.nodes@[m].first_child
            }
            &&& post.nodes@[m].previous_sibling == if c0 != NIL && m == c0 as int {
                x as usize
            } else {
                pre.nodes@[m].previous_sibling
            }
            &&& post.nodes@[m].next_sibling == pre.nodes@[m].next_sibling
            &&& post.nodes@[m].parent == pre.nodes@[m].parent
            &&& post.nodes@[m].key == pre.nodes@[m].key
            &&& post.nodes@[m].tuple_index == pre.nodes@[m].tuple_index
            &&& post.nodes@[m].next_entry == pre.nodes@[m].next_entry
        } by {
            pre.lemma_live(m);
            if m == parent {
                if c0 != NIL && m == c0 as int {
                    Self::lemma_add_first_child(pre, parent, key, leaf, s);
                }
            } else if c0 != NIL && m == c0 as int {
            } else {
                assert(post.nodes@[m] == pre.nodes@[m]);
            }
        }
    }

    /// Common facts for the rule proofs of an add step.
    proof fn lemma_add_common(
        pre: Self,
        post: Self,
        parent: int,
        key: u64,
        x: int,
        b: int,
        leaf: bool,
        s: int,
    )
        requires
            Self::add_pre(pre, parent, key),
            Self::add_step(pre, post, parent, key, x, b, leaf, s),
        ensures
            ({
                let r = pre.path_of@[parent];
                let q = r.push(key);
                let p = pre.paths@;
                &&& trie_ordered(p)
                &&& pre.node_of@.contains_key(r)
                &&& pre.node_of@[r] == parent
                &&& q.len() == r.len() + 1
                &&& q.drop_last() == r
                &&& q.last() == key
                &&& q.take(r.len() as int) == r
                &&& q.take(q.len() as int) == q
                &&& forall|i: int| 0 <= i < p.len() ==> !has_prefix(#[trigger] p[i], q)
                &&& forall|i: int|
                    0 <= i < p.len() ==> 1 <= (#[trigger] p[i]).len()
                        <= pre.indexing_sequence@.len()
                &&& !leaf ==> forall|i: int| 0 <= i < p.len() ==> !has_prefix(r, #[trigger] p[i])
                &&& leaf ==> r.len() > 0
                &&& (!leaf && p.len() == 0) ==> r.len() == 0
            }),
    {
        let r = pre.path_of@[parent];
        let q = r.push(key);
        let p = pre.paths@;
        pre.lemma_live(parent);
        pre.lemma_ordered();
        Self::lemma_push_parts(r, key);
        assert(q.take(r.len() as int) =~= r);
        assert(q.take(q.len() as int) =~= q);
        assert forall|i: int| 0 <= i < p.len() implies !has_prefix(#[trigger] p[i], q) by {
            if has_prefix(p[i], q) {
                pre.lemma_prefix_in_trie(i, q);
            }
        }
        if !leaf {
            assert forall|i: int| 0 <= i < p.len() implies !has_prefix(r, #[trigger] p[i]) by {
                pre.lemma_inner_not_below_leaf(r, i);
            }
            if p.len() == 0 && r.len() > 0 {
                pre.lemma_node_has_leaf(r);
            }
        }
        if leaf {
            pre.lemma_root();
            if r.len() == 0 {
                assert(r =~= Seq::<u64>::empty());
                pre.lemma_leaf_facts(s);
            }
        }
    }

    /// Whether `q.push(key)` starts with `t`, for a `t` that is a node path.
    proof fn lemma_push_prefix_node(pre: Self, r: Seq<u64>, key: u64, t: Seq<u64>)
        requires
            pre.inv(),
            pre.node_of@.contains_key(t),
            !pre.node_of@.contains_key(r.push(key)),
        ensures
            has_prefix(r.push(key), t) <==> (t.len() <= r.len() && has_prefix(r, t)),
    {
        lemma_prefix_push(r, key, t);
    }

    #[verifier::rlimit(60)]
    proof fn lemma_add_rule_first(
        pre: Self,
        post: Self,
        parent: int,
        key: u64,
        x: int,
        b: int,
        leaf: bool,
        s: int,
    )
        requires
            Self::add_pre(pre, parent, key),
            Self::add_step(pre, post, parent, key, x, b, leaf, s),
        ensures
            post.rule_first(),
    {
        let r = pre.path_of@[parent];
        let q = r.push(key);
        let p = pre.paths@;
        let np = post.paths@;
        let n = pre.node_of@;
        let c0 = pre.nodes@[parent].first_child;
        Self::lemma_add_common(pre, post, parent, key, x, b, leaf, s);
        Self::lemma_add_fields(pre, post, parent, key, x, b, leaf, s);
        Self::lemma_add_first_child(pre, parent, key, leaf, s);
        reveal(TupleIndex::rule_first);
        assert forall|i: int, e: int|
            #![trigger np[i].take(e)]
            0 <= i < np.len() && 1 <= e <= np[i].len() && (i == 0 || !has_prefix(
                np[i - 1],
                np[i].take(e - 1),
            )) implies {
            &&& post.nodes@[post.node_of@[np[i].take(e - 1)]].first_child
                == post.node_of@[np[i].take(e)]
            &&& post.nodes@[post.node_of@[np[i].take(e)]].previous_sibling == NIL
        } by {
            if i == s && e == q.len() {
                assert(np[i] == q);
                assert(np[i].take(e - 1) == r);
                assert(np[i].take(e) == q);
            } else {
                // The leaf of the corresponding old path, and its prefixes.
                let oi = if leaf || i <= s { i } else { i - 1 };
                let op = p[oi];
                assert(np[i].take(e) == op.take(e) && np[i].take(e - 1) == op.take(e - 1)) by {
                    if i == s {
                        if leaf {
                            assert(op == r);
                            assert(q.take(e) =~= r.take(e));
                            assert(q.take(e - 1) =~= r.take(e - 1));
                        } else {
                            assert(p.len() > 0);
                            let ps = p[s];
                            assert(ps.take(r.len() as int) == r);
                            assert(q.take(e) =~= ps.take(e));
                            assert(q.take(e - 1) =~= ps.take(e - 1));
                        }
                    }
                }
                lemma_take_prefix(op, e);
                lemma_take_prefix(op, e - 1);
                pre.lemma_prefix_in_trie(oi, op.take(e));
                pre.lemma_prefix_in_trie(oi, op.take(e - 1));
                lemma_prefix_trans(op, op.take(e), op.take(e - 1));
                // The old neighbour condition.
                assert(oi == 0 || !has_prefix(p[oi - 1], op.take(e - 1))) by {
                    if i > 0 && oi > 0 {
                        if leaf {
                            if i - 1 == s {
                                Self::lemma_push_prefix_node(pre, r, key, op.take(e - 1));
                            }
                        } else if i - 1 == s {
                            // oi == s: the new path precedes the old first path.
                            Self::lemma_push_prefix_node(pre, r, key, op.take(e - 1));
                            let ps = p[s];
                            if e - 1 <= r.len() {
                                lemma_prefix_total(ps, op.take(e - 1), r);
                                assert(false);
                            } else {
                                if s > 0 && has_prefix(p[s - 1], op.take(e - 1)) {
                                    lemma_prefix_total(ps, r, op.take(e - 1));
                                    lemma_prefix_trans(p[s - 1], op.take(e - 1), r);
                                }
                            }
                        } else {
                            assert(np[i - 1] == p[oi - 1]);
                        }
                    }
                    if leaf && i == s && i > 0 {
                    }
                };
                assert(pre.nodes@[n[op.take(e - 1)]].first_child == n[op.take(e)]);
                assert(pre.nodes@[n[op.take(e)]].previous_sibling == NIL);
                pre.lemma_node(op.take(e));
                pre.lemma_node(op.take(e - 1));
                // Neither node is touched by the step.
                assert(n[op.take(e - 1)] != parent) by {
                    if n[op.take(e - 1)] == parent {
                        assert(op.take(e - 1) == r);
                        if leaf {
                            if oi != s {
                                assert(has_prefix(p[oi], p[s]));
                            } else {
                                assert(e - 1 == r.len());
                                assert(op.take(e) =~= op);
                            }
                        } else {
                            assert(is_block_start(p, r, oi));
                            lemma_block_start_unique(p, r, oi, s);
                            if i == s {
                                assert(np[i].take(e - 1) == r);
                                assert(e - 1 == r.len());
                            }
                        }
                    }
                }
                if c0 != NIL {
                    assert(n[op.take(e)] != c0 as int) by {
                        if n[op.take(e)] == c0 as int {
                            assert(!leaf && p.len() > 0);
                            let ps = p[s];
                            pre.lemma_node(ps.take(r.len() as int + 1));
                            assert(op.take(e) == ps.take(r.len() as int + 1));
                            assert(op.take(e - 1) =~= ps.take(r.len() as int + 1).drop_last());
                            assert(ps.take(r.len() as int + 1).drop_last() =~= r);
                        }
                    }
                }
            }
        }
    }

    /// For a node path `t` below the leaf `p[s - 1]` just before the run of
    /// `r` starting at `s`, `r.push(key)` starts with `t` exactly when `p[s]`
    /// does.
    proof fn lemma_push_prefix_at_start(pre: Self, r: Seq<u64>, key: u64, s: int, t: Seq<u64>)
        requires
            pre.inv(),
            trie_ordered(pre.paths@),
            is_block_start(pre.paths@, r, s),
            s > 0,
            has_prefix(pre.paths@[s - 1], t),
            pre.node_of@.contains_key(t),
            !pre.node_of@.contains_key(r.push(key)),
        ensures
            has_prefix(r.push(key), t) <==> has_prefix(pre.paths@[s], t),
    {
        let ps = pre.paths@[s];
        Self::lemma_push_prefix_node(pre, r, key, t);
        if t.len() <= r.len() {
            if has_prefix(r, t) {
                lemma_prefix_trans(ps, r, t);
            }
            if has_prefix(ps, t) {
                lemma_prefix_total(ps, t, r);
            }
        } else {
            if has_prefix(ps, t) {
                lemma_prefix_total(ps, r, t);
                lemma_prefix_trans(pre.paths@[s - 1], t, r);
            }
        }
    }

    spec fn adjacent_premise(np: Seq<Seq<u64>>, i: int, e: int) -> bool {
        0 < i < np.len() && 1 <= e <= np[i].len() && has_prefix(np[i - 1], np[i].take(e - 1))
            && !has_prefix(np[i - 1], np[i].take(e))
    }

    spec fn adjacent_conclusion(post: Self, i: int, e: int) -> bool {
        let np = post.paths@;
        &&& e <= np[i - 1].len()
        &&& post.nodes@[post.node_of@[np[i].take(e)]].previous_sibling == post.node_of@[np[i
            - 1].take(e)]
        &&& post.nodes@[post.node_of@[np[i - 1].take(e)]].next_sibling == post.node_of@[np[i].take(
            e,
        )]
    }

    proof fn lemma_add_adjacent_after_new(
        pre: Self,
        post: Self,
        parent: int,
        key: u64,
        x: int,
        b: int,
        leaf: bool,
        s: int,
        i: int,
        e: int,
    )
        requires
            Self::add_pre(pre, parent, key),
            Self::add_step(pre, post, parent, key, x, b, leaf, s),
            Self::adjacent_premise(post.paths@, i, e),
            !leaf && i == s + 1,
        ensures
            Self::adjacent_conclusion(post, i, e),
    {
        let r = pre.path_of@[parent];
        let q = r.push(key);
        let p = pre.paths@;
        let np = post.paths@;
        Self::lemma_add_common(pre, post, parent, key, x, b, leaf, s);
        Self::lemma_add_fields(pre, post, parent, key, x, b, leaf, s);
        Self::lemma_add_first_child(pre, parent, key, leaf, s);
        let ps = p[s];
        assert(np[i] == ps && np[i - 1] == q);
        lemma_take_prefix(ps, e);
        lemma_take_prefix(ps, e - 1);
        pre.lemma_prefix_in_trie(s, ps.take(e));
        pre.lemma_prefix_in_trie(s, ps.take(e - 1));
        Self::lemma_push_prefix_node(pre, r, key, ps.take(e));
        Self::lemma_push_prefix_node(pre, r, key, ps.take(e - 1));
        if e <= r.len() {
            lemma_prefix_total(ps, ps.take(e), r);
            assert(false);
        }
        assert(e == r.len() + 1);
        assert(np[i - 1].take(e) == q);
        assert(p.len() > 0);
        let c0 = pre.nodes@[parent].first_child;
        assert(c0 as int == pre.node_of@[ps.take(r.len() as int + 1)]);
        assert(post.node_of@[np[i].take(e)] == c0 as int);
        pre.lemma_node(ps.take(r.len() as int + 1));
        assert(post.nodes@[c0 as int].previous_sibling == x as usize);
        assert(post.node_of@[np[i - 1].take(e)] == x);
        assert(post.nodes@[x].next_sibling == c0);
    }

    #[verifier::rlimit(100)]
    proof fn lemma_add_adjacent_at_new(
        pre: Self,
        post: Self,
        parent: int,
        key: u64,
        x: int,
        b: int,
        leaf: bool,
        s: int,
        i: int,
        e: int,
    )
        requires
            Self::add_pre(pre, parent, key),
            Self::add_step(pre, post, parent, key, x, b, leaf, s),
            Self::adjacent_premise(post.paths@, i, e),
            i == s,
        ensures
            Self::adjacent_conclusion(post, i, e),
    {
        let r = pre.path_of@[parent];
        let q = r.push(key);
        let p = pre.paths@;
        let np = post.paths@;
        let n = pre.node_of@;
        let c0 = pre.nodes@[parent].first_child;
        Self::lemma_add_common(pre, post, parent, key, x, b, leaf, s);
        Self::lemma_add_fields(pre, post, parent, key, x, b, leaf, s);
        Self::lemma_add_first_child(pre, parent, key, leaf, s);
        assert(np[i - 1] == p[s - 1]);
        if e == q.len() {
            assert(np[i].take(e - 1) == r);
            if leaf {
                assert(has_prefix(p[s - 1], p[s]));
                assert(!has_prefix(p[s - 1], p[s]));
            } else {
                assert(is_block_start(p, r, s));
            }
            assert(false);
        } else {
            assert(p.len() > 0);
            let op = p[s];
            assert(op.take(r.len() as int) == r) by {
                if leaf {
                    assert(op =~= r.take(r.len() as int));
                }
            }
            assert(np[i].take(e) =~= op.take(e));
            assert(np[i].take(e - 1) =~= op.take(e - 1));
            assert(np[i - 1] == p[s - 1]);
            reveal(TupleIndex::rule_adjacent);
            assert(pre.nodes@[n[op.take(e)]].previous_sibling == n[p[s - 1].take(e)]);
            lemma_take_prefix(op, e);
            pre.lemma_prefix_in_trie(s, op.take(e));
            lemma_take_prefix(p[s - 1], e);
            pre.lemma_prefix_in_trie(s - 1, p[s - 1].take(e));
            pre.lemma_node(op.take(e));
            pre.lemma_node(p[s - 1].take(e));
            if c0 != NIL {
                pre.lemma_node(op.take(r.len() as int + 1));
                assert(n[op.take(e)] != c0 as int);
            }
            assert(e <= p[s - 1].len());
            assert(pre.nodes@[n[p[s - 1].take(e)]].next_sibling == n[op.take(e)]);
            assert(post.node_of@[np[i].take(e)] == n[op.take(e)]);
            assert(post.node_of@[np[i - 1].take(e)] == n[p[s - 1].take(e)]);
            assert(post.nodes@[n[op.take(e)]].previous_sibling == n[p[s - 1].take(e)]);
        }
    }

    proof fn lemma_add_adjacent_after_leaf(
        pre: Self,
        post: Self,
        parent: int,
        key: u64,
        x: int,
        b: int,
        leaf: bool,
        s: int,
        i: int,
        e: int,
    )
        requires
            Self::add_pre(pre, parent, key),
            Self::add_step(pre, post, parent, key, x, b, leaf, s),
            Self::adjacent_premise(post.paths@, i, e),
            leaf && i - 1 == s,
        ensures
            Self::adjacent_conclusion(post, i, e),
    {
        let r = pre.path_of@[parent];
        let q = r.push(key);
        let p = pre.paths@;
        let np = post.paths@;
        let n = pre.node_of@;
        Self::lemma_add_common(pre, post, parent, key, x, b, leaf, s);
        Self::lemma_add_fields(pre, post, parent, key, x, b, leaf, s);
        Self::lemma_add_first_child(pre, parent, key, leaf, s);
        let op = p[i];
        assert(np[i] == op && np[i - 1] == q);
        lemma_take_prefix(op, e);
        lemma_take_prefix(op, e - 1);
        pre.lemma_prefix_in_trie(i, op.take(e));
        pre.lemma_prefix_in_trie(i, op.take(e - 1));
        Self::lemma_push_prefix_node(pre, r, key, op.take(e));
        Self::lemma_push_prefix_node(pre, r, key, op.take(e - 1));
        assert(p[s] == r);
        reveal(TupleIndex::rule_adjacent);
        assert(pre.nodes@[n[op.take(e)]].previous_sibling == n[r.take(e)]);
        assert(q.take(e) =~= r.take(e));
        lemma_take_prefix(r, e);
        pre.lemma_prefix_in_trie(s, r.take(e));
        pre.lemma_node(op.take(e));
        pre.lemma_node(r.take(e));
    }

    #[verifier::rlimit(100)]
    #[verifier::spinoff_prover]
    proof fn lemma_add_adjacent_other(
        pre: Self,
        post: Self,
        parent: int,
        key: u64,
        x: int,
        b: int,
        leaf: bool,
        s: int,
        i: int,
        e: int,
    )
        requires
            Self::add_pre(pre, parent, key),
            Self::add_step(pre, post, parent, key, x, b, leaf, s),
            Self::adjacent_premise(post.paths@, i, e),
            i != s,
            !(!leaf && i == s + 1),
            !(leaf && i - 1 == s),
        ensures
            Self::adjacent_conclusion(post, i, e),
    {
        let r = pre.path_of@[parent];
        let q = r.push(key);
        let p = pre.paths@;
        let np = post.paths@;
        let n = pre.node_of@;
        let c0 = pre.nodes@[parent].first_child;
        Self::lemma_add_common(pre, post, parent, key, x, b, leaf, s);
        Self::lemma_add_fields(pre, post, parent, key, x, b, leaf, s);
        Self::lemma_add_first_child(pre, parent, key, leaf, s);
        let oi = if leaf || i < s { i } else { i - 1 };
        let op = p[oi];
        assert(np[i] == op);
        assert(np[i - 1] == p[oi - 1]);
        lemma_take_prefix(op, e);
        pre.lemma_prefix_in_trie(oi, op.take(e));
        reveal(TupleIndex::rule_adjacent);
        assert(pre.nodes@[n[op.take(e)]].previous_sibling == n[p[oi - 1].take(e)]);
        lemma_take_prefix(p[oi - 1], e);
        pre.lemma_prefix_in_trie(oi - 1, p[oi - 1].take(e));
        pre.lemma_node(op.take(e));
        pre.lemma_node(p[oi - 1].take(e));
        if c0 != NIL && n[op.take(e)] == c0 as int {
            assert(!leaf && p.len() > 0);
            let ps = p[s];
            pre.lemma_node(ps.take(r.len() as int + 1));
            assert(op.take(e) == ps.take(r.len() as int + 1));
            assert(op.take(e - 1) =~= ps.take(r.len() as int + 1).drop_last());
            assert(ps.take(r.len() as int + 1).drop_last() =~= r);
            lemma_take_prefix(ps, r.len() as int + 1);
            lemma_prefix_trans(op, op.take(e), op.take(e - 1));
            lemma_in_block_after_start(p, r, s, oi);
            if oi - 1 > s {
                assert(has_prefix(p[oi - 1], ps.take(r.len() as int + 1)));
            }
            assert(false);
        }
    }

    proof fn lemma_add_rule_adjacent(
        pre: Self,
        post: Self,
        parent: int,
        key: u64,
        x: int,
        b: int,
        leaf: bool,
        s: int,
    )
        requires
            Self::add_pre(pre, parent, key),
            Self::add_step(pre, post, parent, key, x, b, leaf, s),
        ensures
            post.rule_adjacent(),
    {
        let np = post.paths@;
        reveal(TupleIndex::rule_adjacent);
        assert forall|i: int, e: int|
            #![trigger np[i].take(e)]
            0 < i < np.len() && 1 <= e <= np[i].len() && has_prefix(np[i - 1], np[i].take(e - 1))
                && !has_prefix(np[i - 1], np[i].take(e)) implies {
            &&& e <= np[i - 1].len()
            &&& post.nodes@[post.node_of@[np[i].take(e)]].previous_sibling
                == post.node_of@[np[i - 1].take(e)]
            &&& post.nodes@[post.node_of@[np[i - 1].take(e)]].next_sibling
                == post.node_of@[np[i].take(e)]
        } by {
            assert(Self::adjacent_premise(np, i, e));
            if !leaf && i == s + 1 {
                Self::lemma_add_adjacent_after_new(pre, post, parent, key, x, b, leaf, s, i, e);
            } else if i == s {
                Self::lemma_add_adjacent_at_new(pre, post, parent, key, x, b, leaf, s, i, e);
            } else if leaf && i - 1 == s {
                Self::lemma_add_adjacent_after_leaf(pre, post, parent, key, x, b, leaf, s, i, e);
            } else {
                Self::lemma_add_adjacent_other(pre, post, parent, key, x, b, leaf, s, i, e);
            }
        }
    }

    #[verifier::rlimit(60)]
    proof fn lemma_add_rule_last(
        pre: Self,
        post: Self,
        parent: int,
        key: u64,
        x: int,
        b: int,
        leaf: bool,
        s: int,
    )
        requires
            Self::add_pre(pre, parent, key),
            Self::add_step(pre, post, parent, key, x, b, leaf, s),
        ensures
            post.rule_last(),
    {
        let r = pre.path_of@[parent];
        let q = r.push(key);
        let p = pre.paths@;
        let np = post.paths@;
        let n = pre.node_of@;
        let c0 = pre.nodes@[parent].first_child;
        Self::lemma_add_common(pre, post, parent, key, x, b, leaf, s);
        Self::lemma_add_fields(pre, post, parent, key, x, b, leaf, s);
        Self::lemma_add_first_child(pre, parent, key, leaf, s);
        reveal(TupleIndex::rule_last);
        assert forall|i: int, e: int|
            #![trigger np[i].take(e)]
            0 <= i < np.len() && 1 <= e <= np[i].len() && (i == np.len() - 1 || !has_prefix(
                np[i + 1],
                np[i].take(e - 1),
            )) implies post.nodes@[post.node_of@[np[i].take(e)]].next_sibling == NIL by {
            if i == s && e == q.len() {
                assert(np[i].take(e) == q);
                if !leaf && p.len() > 0 {
                    assert(np[i + 1] == p[s]);
                    assert(np[i].take(e - 1) == r);
                    assert(false);
                }
            } else if i == s && !leaf {
                assert(p.len() > 0);
                let op = p[s];
                assert(op.take(r.len() as int) == r);
                assert(np[i + 1] == op);
                assert(np[i].take(e - 1) =~= r.take(e - 1));
                lemma_take_prefix(r, e - 1);
                lemma_prefix_trans(op, r, r.take(e - 1));
                assert(false);
            } else {
                let oi = if leaf || i < s { i } else { i - 1 };
                let op = p[oi];
                assert(np[i].take(e) == op.take(e) && np[i].take(e - 1) == op.take(e - 1)) by {
                    if i == s {
                        assert(op == r);
                        assert(q.take(e) =~= r.take(e));
                        assert(q.take(e - 1) =~= r.take(e - 1));
                    }
                }
                lemma_take_prefix(op, e);
                lemma_take_prefix(op, e - 1);
                pre.lemma_prefix_in_trie(oi, op.take(e));
                pre.lemma_prefix_in_trie(oi, op.take(e - 1));
                assert(oi == p.len() - 1 || !has_prefix(p[oi + 1], op.take(e - 1))) by {
                    if i < np.len() - 1 {
                        if i + 1 == s {
                            Self::lemma_push_prefix_node(pre, r, key, op.take(e - 1));
                            if leaf {
                            } else {
                                Self::lemma_push_prefix_at_start(pre, r, key, s, op.take(e - 1));
                            }
                        } else {
                            assert(np[i + 1] == p[oi + 1]);
                        }
                    }
                }
                assert(pre.nodes@[n[op.take(e)]].next_sibling == NIL);
                pre.lemma_node(op.take(e));
            }
        }
    }

    proof fn lemma_add_rule_leaf(
        pre: Self,
        post: Self,
        parent: int,
        key: u64,
        x: int,
        b: int,
        leaf: bool,
        s: int,
    )
        requires
            Self::add_pre(pre, parent, key),
            Self::add_step(pre, post, parent, key, x, b, leaf, s),
        ensures
            post.rule_leaf(),
    {
        let r = pre.path_of@[parent];
        let q = r.push(key);
        let p = pre.paths@;
        let np = post.paths@;
        let n = pre.node_of@;
        Self::lemma_add_common(pre, post, parent, key, x, b, leaf, s);
        Self::lemma_add_fields(pre, post, parent, key, x, b, leaf, s);
        reveal(TupleIndex::rule_leaf);
        assert forall|i: int| 0 <= i < np.len() implies post.nodes@[post.node_of@[
            #[trigger] np[i]]].first_child == NIL by {
            if np[i] != q {
                let oi = if leaf || i < s { i } else { i - 1 };
                assert(np[i] == p[oi]);
                pre.lemma_leaf_facts(oi);
                pre.lemma_node(p[oi]);
                if n[p[oi]] == parent {
                    assert(p[oi] == r);
                    if leaf {
                        assert(has_prefix(p[oi], p[s]));
                    }
                }
            }
        }
        assert(np.len() > 0);
    }

    proof fn lemma_add_chain_rules(
        pre: Self,
        post: Self,
        parent: int,
        key: u64,
        x: int,
        b: int,
        leaf: bool,
        s: int,
    )
        requires
            Self::add_pre(pre, parent, key),
            Self::add_step(pre, post, parent, key, x, b, leaf, s),
        ensures
            post.chain_rules(),
    {
        Self::lemma_add_fields(pre, post, parent, key, x, b, leaf, s);
        pre.lemma_root();
        pre.lemma_chain_head(b);
        let c = post.chains@;
        let oc = pre.chains@;
        reveal(TupleIndex::chain_rules);
        assert forall|b2: int| 0 <= b2 < c.len() implies #[trigger] post.buckets@[b2] == if c[b2].len()
            == 0 {
            NIL
        } else {
            c[b2][0] as usize
        } by {
            if b2 != b {
                pre.lemma_chain_head(b2);
            }
        }
        assert forall|b2: int, j: int| #![trigger c[b2][j]] 0 <= b2 < c.len() && 0 <= j < c[b2].len() implies {
            &&& post.path_of@.contains_key(c[b2][j])
            &&& c[b2][j] != post.root
            &&& post.bucket_of(c[b2][j]) == b2
            &&& post.nodes@[c[b2][j]].next_entry == if j + 1 < c[b2].len() {
                c[b2][j + 1] as usize
            } else {
                NIL
            }
        } by {
            if b2 == b {
                if j == 0 {
                    assert(c[b2][j] == x);
                    if oc[b].len() > 0 {
                        assert(c[b2][1] == oc[b][0]);
                    }
                } else {
                    assert(c[b2][j] == oc[b][j - 1]);
                    pre.lemma_chain_entry(b, j - 1);
                    if j + 1 < c[b2].len() {
                        assert(c[b2][j + 1] == oc[b][j]);
                    }
                }
            } else {
                pre.lemma_chain_entry(b2, j);
            }
        }
        assert forall|b2: int, j1: int, j2: int|
            0 <= b2 < c.len() && 0 <= j1 < c[b2].len() && 0 <= j2 < c[b2].len() && #[trigger] c[b2][j1]
                == #[trigger] c[b2][j2] implies j1 == j2 by {
            if b2 == b {
                if j1 > 0 {
                    pre.lemma_chain_entry(b, j1 - 1);
                }
                if j2 > 0 {
                    pre.lemma_chain_entry(b, j2 - 1);
                }
                if j1 > 0 && j2 > 0 {
                    assert(oc[b][j1 - 1] == oc[b][j2 - 1]);
                }
            }
        }
        assert forall|m: int| #[trigger] post.path_of@.contains_key(m) && m != post.root implies exists|
            j: int,
        | 0 <= j < c[post.bucket_of(m)].len() && #[trigger] c[post.bucket_of(m)][j] == m by {
            if m == x {
                assert(c[b][0] == x);
            } else {
                let j0 = pre.lemma_chain_member(m);
                let bm = pre.bucket_of(m);
                assert(post.bucket_of(m) == bm);
                if bm == b {
                    assert(c[b][j0 + 1] == m);
                } else {
                    assert(c[bm][j0] == m);
                }
            }
        }
    }

    proof fn lemma_add_free_rules(
        pre: Self,
        post: Self,
        parent: int,
        key: u64,
        x: int,
        b: int,
        leaf: bool,
        s: int,
    )
        requires
            Self::add_pre(pre, parent, key),
            Self::add_step(pre, post, parent, key, x, b, leaf, s),
        ensures
            post.free_rules(),
    {
        reveal(TupleIndex::free_rules);
        if x < pre.nodes@.len() {
            let f = pre.free@;
            assert forall|k: int| 0 <= k < post.free@.len() implies {
                &&& #[trigger] post.free@[k] < post.nodes@.len()
                &&& !post.path_of@.contains_key(post.free@[k] as int)
            } by {
                assert(post.free@[k] == f[k]);
                assert(f[k] != f[f.len() - 1]);
            }
            assert(post.free@.no_duplicates()) by {
                assert forall|i: int, j: int|
                    0 <= i < post.free@.len() && 0 <= j < post.free@.len() && i != j implies post.free@[i]
                    != post.free@[j] by {
                    assert(post.free@[i] == f[i] && post.free@[j] == f[j]);
                }
            }
        } else {
            assert forall|k: int| 0 <= k < post.free@.len() implies {
                &&& #[trigger] post.free@[k] < post.nodes@.len()
                &&& !post.path_of@.contains_key(post.free@[k] as int)
            } by {
                assert(pre.free@[k] < pre.nodes@.len());
            }
        }
    }

    proof fn lemma_add_inv(
        pre: Self,
        post: Self,
        parent: int,
        key: u64,
        x: int,
        b: int,
        leaf: bool,
        s: int,
    )
        requires
            Self::add_pre(pre, parent, key),
            Self::add_step(pre, post, parent, key, x, b, leaf, s),
        ensures
            post.inv(),
    {
        Self::lemma_add_node_rules(pre, post, parent, key, x, b, leaf, s);
        Self::lemma_add_rule_first(pre, post, parent, key, x, b, leaf, s);
        Self::lemma_add_rule_adjacent(pre, post, parent, key, x, b, leaf, s);
        Self::lemma_add_rule_last(pre, post, parent, key, x, b, leaf, s);
        Self::lemma_add_rule_leaf(pre, post, parent, key, x, b, leaf, s);
        Self::lemma_add_chain_rules(pre, post, parent, key, x, b, leaf, s);
        Self::lemma_add_free_rules(pre, post, parent, key, x, b, leaf, s);
    }

    /// Where a new child of `parent` enters the paths.
    proof fn lemma_add_position(&self, parent: int, key: u64) -> (res: (bool, int))
        requires
            Self::add_pre(*self, parent, key),
        ensures
            Self::add_position_ok(self.paths@, self.path_of@[parent], res.0, res.1),
    {
        let r = self.path_of@[parent];
        let p = self.paths@;
        self.lemma_live(parent);
        self.lemma_ordered();
        if exists|i: int| 0 <= i < p.len() && #[trigger] p[i] == r {
            let i = choose|i: int| 0 <= i < p.len() && #[trigger] p[i] == r;
            (true, i)
        } else if p.len() == 0 {
            (false, 0)
        } else if r.len() == 0 {
            assert(has_prefix(p[0], r));
            (false, 0)
        } else {
            let i = self.lemma_node_has_leaf(r);
            let s = lemma_block_start_exists(p, r, i);
            (false, s)
        }
    }

    /// A node slot, reused from the free list or freshly allocated, reset to
    /// an empty node.
    fn new_trie_node(&mut self) -> (x: usize)
        requires
            old(self).inv(),
            old(self).nodes@.len() + 1 < NIL,
        ensures
            final(self).indexing_sequence@ == old(self).indexing_sequence@,
            final(self).root == old(self).root,
            final(self).buckets@ == old(self).buckets@,
            final(self).buckets_mask == old(self).buckets_mask,
            final(self).number_of_nodes == old(self).number_of_nodes,
            final(self).paths@ == old(self).paths@,
            final(self).node_of@ == old(self).node_of@,
            final(self).path_of@ == old(self).path_of@,
            final(self).chains@ == old(self).chains@,
            0 <= x < final(self).nodes@.len(),
            !old(self).path_of@.contains_key(x as int),
            (x == old(self).nodes@.len() && final(self).nodes@.len() == old(self).nodes@.len() + 1
                && final(self).free@ == old(self).free@) || (x < old(self).nodes@.len()
                && final(self).nodes@.len() == old(self).nodes@.len() && old(self).free@.len() > 0
                && x == old(self).free@.last() && final(self).free@ == old(self).free@.drop_last()),
            forall|m: int|
                0 <= m < old(self).nodes@.len() && m != x ==> #[trigger] final(self).nodes@[m]
                    == old(self).nodes@[m],
    {
        proof {
            reveal(TupleIndex::free_rules);
            reveal(TupleIndex::node_rules);
        }
        if let Some(reused) = self.free.pop() {
            proof {
                assert(old(self).free@[old(self).free@.len() - 1] == reused);
            }
            self.nodes.set(reused, TrieNode::empty());
            reused
        } else {
            self.nodes.push(TrieNode::empty());
            self.nodes.len() - 1
        }
    }

    /// Links a fresh node in as the first child of `parent` along `key`, at
    /// the head of `bucket`'s chain.
    fn add_child(
        &mut self,
        parent: usize,
        key: u64,
        bucket: usize,
        Ghost(leaf): Ghost<bool>,
        Ghost(s): Ghost<int>,
    ) -> (x: usize)
        requires
            Self::add_pre(*old(self), parent as int, key),
            Self::add_position_ok(old(self).paths@, old(self).path_of@[parent as int], leaf, s),
            old(self).nodes@.len() + 1 < NIL,
            bucket == (edge_hash(key, parent) & old(self).buckets_mask),
        ensures
            Self::add_step(*old(self), *final(self), parent as int, key, x as int, bucket as int, leaf, s),
            final(self).inv(),
    {
        let ghost pre = *self;
        let ghost r = self.path_of@[parent as int];
        let ghost q = r.push(key);
        proof {
            self.lemma_live(parent as int);
        }
        proof {
            let h = edge_hash(key, parent);
            let m = self.buckets_mask;
            assert(h & m <= m) by (bit_vector);
        }
        let child = self.new_trie_node();
        assert(parent != child);
        let next_sibling = self.nodes[parent].first_child;
        if next_sibling != NIL {
            proof {
                Self::lemma_add_first_child(pre, parent as int, key, leaf, s);
                pre.lemma_live(next_sibling as int);
            }
            let mut sibling = self.nodes[next_sibling];
            sibling.previous_sibling = child;
            self.nodes.set(next_sibling, sibling);
        }
        let mut parent_node = self.nodes[parent];
        parent_node.first_child = child;
        self.nodes.set(parent, parent_node);
        let bucket_head = self.buckets[bucket];
        let node = TrieNode {
            parent,
            first_child: NIL,
            previous_sibling: NIL,
            next_sibling,
            tuple_index: NONE,
            next_entry: bucket_head,
            key,
        };
        self.nodes.set(child, node);
        self.buckets.set(bucket, child);
        proof {
            reveal(TupleIndex::free_rules);
        }
        self.number_of_nodes = self.number_of_nodes + 1;
        self.node_of = Ghost(self.node_of@.insert(q, child as int));
        self.path_of = Ghost(self.path_of@.insert(child as int, q));
        self.chains = Ghost(
            self.chains@.update(bucket as int, seq![child as int] + self.chains@[bucket as int]),
        );
        self.paths = Ghost(Self::paths_after_add(self.paths@, r, key, leaf, s));
        proof {
            Self::lemma_add_first_child(pre, parent as int, key, leaf, s);
            assert(Self::add_step(pre, *self, parent as int, key, child as int, bucket as int, leaf, s));
            Self::lemma_add_inv(pre, *self, parent as int, key, child as int, bucket as int, leaf, s);
        }
        child
    }

    /// `post` is `pre` with only the bucket array, its chains and the chain
    /// links of the nodes changed.
    spec fn rehashed(pre: Self, post: Self) -> bool {
        &&& post.indexing_sequence@ == pre.indexing_sequence@
        &&& post.root == pre.root
        &&& post.free@ == pre.free@
        &&& post.number_of_nodes == pre.number_of_nodes
        &&& post.paths@ == pre.paths@
        &&& post.node_of@ == pre.node_of@
        &&& post.path_of@ == pre.path_of@
        &&& post.nodes@.len() == pre.nodes@.len()
        &&& forall|m: int|
            0 <= m < pre.nodes@.len() ==> #[trigger] post.nodes@[m] == with_next_entry(
                pre.nodes@[m],
                post.nodes@[m].next_entry,
            )
    }

    /// `post` keeps the ghost state, the free list and the tree links of
    /// `pre`; chain links and recorded tuple indices may differ.
    spec fn relinked(pre: Self, post: Self) -> bool {
        &&& post.indexing_sequence@ == pre.indexing_sequence@
        &&& post.root == pre.root
        &&& post.free@ == pre.free@
        &&& post.number_of_nodes == pre.number_of_nodes
        &&& post.paths@ == pre.paths@
        &&& post.node_of@ == pre.node_of@
        &&& post.path_of@ == pre.path_of@
        &&& post.nodes@.len() == pre.nodes@.len()
        &&& forall|m: int|
            0 <= m < pre.nodes@.len() ==> {
                &&& (#[trigger] post.nodes@[m]).parent == pre.nodes@[m].parent
                &&& post.nodes@[m].key == pre.nodes@[m].key
                &&& post.nodes@[m].first_child == pre.nodes@[m].first_child
                &&& post.nodes@[m].previous_sibling == pre.nodes@[m].previous_sibling
                &&& post.nodes@[m].next_sibling == pre.nodes@[m].next_sibling
            }
    }

    proof fn lemma_relinked_rules(pre: Self, post: Self)
        requires
            pre.inv(),
            Self::relinked(pre, post),
        ensures
            post.node_rules(),
            post.sibling_rules(),
            post.free_rules(),
    {
        reveal(TupleIndex::node_rules);
        reveal(TupleIndex::rule_first);
        reveal(TupleIndex::rule_adjacent);
        reveal(TupleIndex::rule_last);
        reveal(TupleIndex::rule_leaf);
        reveal(TupleIndex::free_rules);
        let p = pre.paths@;
        assert forall|i: int, e: int|
            #![trigger p[i].take(e)]
            0 <= i < p.len() && 0 <= e <= p[i].len() implies pre.node_of@.contains_key(p[i].take(e))
            && pre.node_of@[p[i].take(e)] < pre.nodes@.len() by {
            lemma_take_prefix(p[i], e);
        }
        assert forall|i: int| 0 <= i < p.len() implies pre.node_of@.contains_key(#[trigger] p[i])
            && pre.node_of@[p[i]] < pre.nodes@.len() by {
            assert(has_prefix(p[i], p[i]));
        }
    }

    proof fn lemma_rehashed_rules(pre: Self, post: Self)
        requires
            pre.inv(),
            Self::rehashed(pre, post),
        ensures
            post.node_rules(),
            post.sibling_rules(),
            post.free_rules(),
    {
        assert forall|m: int| 0 <= m < pre.nodes@.len() implies {
            &&& (#[trigger] post.nodes@[m]).parent == pre.nodes@[m].parent
            &&& post.nodes@[m].key == pre.nodes@[m].key
            &&& post.nodes@[m].first_child == pre.nodes@[m].first_child
            &&& post.nodes@[m].previous_sibling == pre.nodes@[m].previous_sibling
            &&& post.nodes@[m].next_sibling == pre.nodes@[m].next_sibling
        } by {
            assert(post.nodes@[m] == with_next_entry(pre.nodes@[m], post.nodes@[m].next_entry));
        }
        Self::lemma_relinked_rules(pre, post);
    }

    /// Recording a tuple index in a node keeps the invariant.
    proof fn lemma_retupled(pre: Self, post: Self, m0: int)
        requires
            pre.inv(),
            Self::relinked(pre, post),
            0 <= m0 < pre.nodes@.len(),
            post.buckets@ == pre.buckets@,
            post.buckets_mask == pre.buckets_mask,
            post.chains@ == pre.chains@,
            forall|m: int|
                0 <= m < pre.nodes@.len() ==> (#[trigger] post.nodes@[m]).next_entry
                    == pre.nodes@[m].next_entry,
        ensures
            post.inv(),
    {
        Self::lemma_relinked_rules(pre, post);
        reveal(TupleIndex::chain_rules);
        assert forall|b: int, j: int|
            #![trigger post.chains@[b][j]]
            0 <= b < post.chains@.len() && 0 <= j < post.chains@[b].len() implies {
            &&& post.path_of@.contains_key(post.chains@[b][j])
            &&& post.chains@[b][j] != post.root
            &&& post.bucket_of(post.chains@[b][j]) == b
            &&& post.nodes@[post.chains@[b][j]].next_entry == if j + 1 < post.chains@[b].len() {
                post.chains@[b][j + 1] as usize
            } else {
                NIL
            }
        } by {
            pre.lemma_chain_entry(b, j);
        }
        assert forall|m: int| #[trigger] post.path_of@.contains_key(m) && m != post.root implies exists|j: int|
            0 <= j < post.chains@[post.bucket_of(m)].len() && #[trigger] post.chains@[post.bucket_of(m)][j] == m by {
            pre.lemma_live(m);
            let j = pre.lemma_chain_member(m);
            assert(post.chains@[post.bucket_of(m)][j] == m);
        }
        pre.lemma_chain_head(0);
        assert(post.node_rules());
        assert(post.sibling_rules());
        assert(post.free_rules());
        assert(post.chain_rules());
    }

    /// The index of a live node within its bucket's chain.
    spec fn chain_index(&self, m: int) -> int {
        choose|j: int|
            0 <= j < self.chains@[self.bucket_of(m)].len() && #[trigger] self.chains@[self.bucket_of(
                m,
            )][j] == m
    }

    proof fn lemma_chain_index(&self, m: int)
        requires
            self.inv(),
            self.path_of@.contains_key(m),
            m != self.root,
        ensures
            0 <= self.bucket_of(m) < self.chains@.len(),
            0 <= self.chain_index(m) < self.chains@[self.bucket_of(m)].len(),
            self.chains@[self.bucket_of(m)][self.chain_index(m)] == m,
            forall|j: int|
                0 <= j < self.chains@[self.bucket_of(m)].len() && #[trigger] self.chains@[self.bucket_of(
                    m,
                )][j] == m ==> j == self.chain_index(m),
    {
        self.lemma_chain_member(m);
        reveal(TupleIndex::chain_rules);
    }

    /// Doubles the bucket array and rehashes every chain into it; the mask
    /// and the resize threshold follow the new length. A bucket array whose
    /// double length would not fit is left as it is.
    fn resize_buckets(&mut self)
        requires
            old(self).inv(),
        ensures
            final(self).inv(),
            Self::rehashed(*old(self), *final(self)),
            old(self).buckets@.len() * 2 <= usize::MAX ==> {
                &&& final(self).buckets@.len() == 2 * old(self).buckets@.len()
                &&& final(self).buckets_mask == final(self).buckets@.len() - 1
                &&& final(self).resize_threshold == final(self).buckets@.len() / 5 * 4 + (
                final(self).buckets@.len() % 5) * 4 / 5
            },
            old(self).buckets@.len() * 2 > usize::MAX ==> *final(self) == *old(self),
    {
        let ghost pre = *self;
        let old_len = self.buckets.len();
        let new_len = match old_len.checked_mul(2) {
            Some(n) => n,
            None => {
                return ;
            },
        };
        let new_mask = new_len - 1;
        let mut new_buckets: Vec<usize> = Vec::new();
        let mut k: usize = 0;
        while k < new_len
            invariant
                k <= new_len,
                new_buckets@ == Seq::new(k as nat, |i: int| NIL),
            decreases new_len - k,
        {
            new_buckets.push(NIL);
            k += 1;
        }
        let ghost mut nc: Seq<Seq<int>> = Seq::new(new_len as nat, |i: int| Seq::<int>::empty());
        let mut bucket: usize = 0;
        proof {
            pre.lemma_root();
            pre.lemma_chain_head(0);
        }
        while bucket < old_len
            invariant
                pre.inv(),
                old_len == pre.buckets@.len(),
                new_len == 2 * old_len,
                new_mask == new_len - 1,
                bucket <= old_len,
                pre.chains@.len() == old_len,
                self.buckets@ == pre.buckets@,
                self.buckets_mask == pre.buckets_mask,
                self.chains@ == pre.chains@,
                Self::rehashed(pre, *self),
                new_buckets@.len() == new_len,
                nc.len() == new_len,
                forall|k2: int|
                    0 <= k2 < new_len ==> #[trigger] new_buckets@[k2] == if nc[k2].len() == 0 {
                        NIL
                    } else {
                        nc[k2][0] as usize
                    },
                forall|k2: int, t: int|
                    #![trigger nc[k2][t]]
                    0 <= k2 < new_len && 0 <= t < nc[k2].len() ==> {
                        &&& pre.path_of@.contains_key(nc[k2][t])
                        &&& nc[k2][t] != pre.root
                        &&& pre.bucket_of(nc[k2][t]) < bucket
                        &&& (edge_hash(pre.nodes@[nc[k2][t]].key, pre.nodes@[nc[k2][t]].parent)
                            & new_mask) == k2
                        &&& self.nodes@[nc[k2][t]].next_entry == if t + 1 < nc[k2].len() {
                            nc[k2][t + 1] as usize
                        } else {
                            NIL
                        }
                    },
                forall|k2: int, t1: int, t2: int|
                    0 <= k2 < new_len && 0 <= t1 < nc[k2].len() && 0 <= t2 < nc[k2].len()
                        && #[trigger] nc[k2][t1] == #[trigger] nc[k2][t2] ==> t1 == t2,
                forall|m: int|
                    #[trigger] pre.path_of@.contains_key(m) && m != pre.root && pre.bucket_of(m)
                        < bucket ==> exists|t: int|
                        0 <= t < nc[(edge_hash(pre.nodes@[m].key, pre.nodes@[m].parent)
                            & new_mask) as int].len() && #[trigger] nc[(edge_hash(
                            pre.nodes@[m].key,
                            pre.nodes@[m].parent,
                        ) & new_mask) as int][t] == m,
                forall|m: int|
                    #[trigger] pre.path_of@.contains_key(m) && m != pre.root && pre.bucket_of(m)
                        >= bucket ==> self.nodes@[m].next_entry == pre.nodes@[m].next_entry,
            decreases old_len - bucket,
        {
            let mut node = self.buckets[bucket];
            let ghost chain = pre.chains@[bucket as int];
            let ghost mut j: int = 0;
            proof {
                pre.lemma_chain_head(bucket as int);
                assert forall|m: int|
                    #[trigger] pre.path_of@.contains_key(m) && m != pre.root && (pre.bucket_of(m)
                        < bucket || (pre.bucket_of(m) == bucket && pre.chain_index(m) < 0))
                        implies pre.bucket_of(m) < bucket by {
                    if pre.bucket_of(m) == bucket {
                        pre.lemma_chain_index(m);
                    }
                }
                assert forall|k2: int, t: int|
                    #![trigger nc[k2][t]]
                    0 <= k2 < new_len && 0 <= t < nc[k2].len() implies pre.bucket_of(nc[k2][t])
                        < bucket by {}
            }
            while node != NIL
                invariant
                    pre.inv(),
                    old_len == pre.buckets@.len(),
                    new_len == 2 * old_len,
                    new_mask == new_len - 1,
                    bucket < old_len,
                    pre.chains@.len() == old_len,
                    self.buckets@ == pre.buckets@,
                    self.buckets_mask == pre.buckets_mask,
                    self.chains@ == pre.chains@,
                    chain == pre.chains@[bucket as int],
                    0 <= j <= chain.len(),
                    node == if j < chain.len() {
                        chain[j] as usize
                    } else {
                        NIL
                    },
                    Self::rehashed(pre, *self),
                    new_buckets@.len() == new_len,
                    nc.len() == new_len,
                    forall|k2: int|
                        0 <= k2 < new_len ==> #[trigger] new_buckets@[k2] == if nc[k2].len() == 0 {
                            NIL
                        } else {
                            nc[k2][0] as usize
                        },
                    forall|k2: int, t: int|
                        #![trigger nc[k2][t]]
                        0 <= k2 < new_len && 0 <= t < nc[k2].len() ==> {
                            &&& pre.path_of@.contains_key(nc[k2][t])
                            &&& nc[k2][t] != pre.root
                            &&& (pre.bucket_of(nc[k2][t]) < bucket || (pre.bucket_of(nc[k2][t])
                                == bucket && pre.chain_index(nc[k2][t]) < j))
                            &&& (edge_hash(pre.nodes@[nc[k2][t]].key, pre.nodes@[nc[k2][t]].parent)
                                & new_mask) == k2
                            &&& self.nodes@[nc[k2][t]].next_entry == if t + 1 < nc[k2].len() {
                                nc[k2][t + 1] as usize
                            } else {
                                NIL
                            }
                        },
                    forall|k2: int, t1: int, t2: int|
                        0 <= k2 < new_len && 0 <= t1 < nc[k2].len() && 0 <= t2 < nc[k2].len()
                            && #[trigger] nc[k2][t1] == #[trigger] nc[k2][t2] ==> t1 == t2,
                    forall|m: int|
                        #[trigger] pre.path_of@.contains_key(m) && m != pre.root && (pre.bucket_of(
                            m,
                        ) < bucket || (pre.bucket_of(m) == bucket && pre.chain_index(m) < j))
                            ==> exists|t: int|
                            0 <= t < nc[(edge_hash(pre.nodes@[m].key, pre.nodes@[m].parent)
                                & new_mask) as int].len() && #[trigger] nc[(edge_hash(
                                pre.nodes@[m].key,
                                pre.nodes@[m].parent,
                            ) & new_mask) as int][t] == m,
                    forall|m: int|
                        #[trigger] pre.path_of@.contains_key(m) && m != pre.root && (pre.bucket_of(
                            m,
                        ) > bucket || (pre.bucket_of(m) == bucket && pre.chain_index(m) >= j))
                            ==> self.nodes@[m].next_entry == pre.nodes@[m].next_entry,
                decreases chain.len() - j,
            {
                proof {
                    pre.lemma_chain_entry(bucket as int, j);
                    pre.lemma_chain_index(chain[j]);
                }
                let ghost cur = chain[j];
                let current = self.nodes[node];
                let next = current.next_entry;
                let new_bucket = Self::edge_hash_key(current.key, current.parent) & new_mask;
                proof {
                    let h = edge_hash(current.key, current.parent);
                    assert(h & new_mask <= new_mask) by (bit_vector);
                    assert(self.nodes@[cur] == with_next_entry(pre.nodes@[cur], self.nodes@[cur].next_entry));
                }
                let ghost nodes_before = self.nodes@;
                let ghost nb_before = new_buckets@;
                let mut updated = current;
                updated.next_entry = new_buckets[new_bucket];
                self.nodes.set(node, updated);
                new_buckets.set(new_bucket, node);
                proof {
                    let ghost old_nc = nc;
                    nc = nc.update(new_bucket as int, seq![cur] + nc[new_bucket as int]);
                    assert(node as int == cur);
                    assert(new_bucket == (edge_hash(pre.nodes@[cur].key, pre.nodes@[cur].parent)
                        & new_mask));
                    assert(pre.bucket_of(cur) == bucket);
                    assert(pre.chain_index(cur) == j);
                    assert(self.nodes@[cur].next_entry == if old_nc[new_bucket as int].len() == 0 {
                        NIL
                    } else {
                        old_nc[new_bucket as int][0] as usize
                    });
                    assert(forall|x: int| 0 <= x < self.nodes@.len() && x != cur ==> #[trigger] self.nodes@[x] == nodes_before[x]);
                    // The node was not yet placed.
                    assert forall|t: int| 0 <= t < old_nc[new_bucket as int].len() implies #[trigger] old_nc[
                        new_bucket as int][t] != cur by {
                        if old_nc[new_bucket as int][t] == cur {
                            assert(pre.chain_index(cur) == j);
                        }
                    }
                    assert forall|k2: int, t: int|
                        #![trigger nc[k2][t]]
                        0 <= k2 < new_len && 0 <= t < nc[k2].len() implies {
                            &&& pre.path_of@.contains_key(nc[k2][t])
                            &&& nc[k2][t] != pre.root
                            &&& (pre.bucket_of(nc[k2][t]) < bucket || (pre.bucket_of(nc[k2][t])
                                == bucket && pre.chain_index(nc[k2][t]) < j + 1))
                            &&& (edge_hash(pre.nodes@[nc[k2][t]].key, pre.nodes@[nc[k2][t]].parent)
                                & new_mask) == k2
                            &&& self.nodes@[nc[k2][t]].next_entry == if t + 1 < nc[k2].len() {
                                nc[k2][t + 1] as usize
                            } else {
                                NIL
                            }
                        } by {
                        pre.lemma_live(nc[k2][t]);
                        if k2 == new_bucket as int {
                            if t == 0 {
                                assert(nc[k2][t] == cur);
                                if old_nc[k2].len() > 0 {
                                    assert(nc[k2][1] == old_nc[k2][0]);
                                }
                            } else {
                                assert(nc[k2][t] == old_nc[k2][t - 1]);
                                if t + 1 < nc[k2].len() {
                                    assert(nc[k2][t + 1] == old_nc[k2][t]);
                                }
                            }
                        } else {
                            assert(nc[k2] == old_nc[k2]);
                            assert(nc[k2][t] != cur);
                        }
                    }
                    assert forall|k2: int, t1: int, t2: int|
                        0 <= k2 < new_len && 0 <= t1 < nc[k2].len() && 0 <= t2 < nc[k2].len()
                            && #[trigger] nc[k2][t1] == #[trigger] nc[k2][t2] implies t1 == t2 by {
                        if k2 == new_bucket as int {
                            if t1 > 0 && t2 > 0 {
                                assert(old_nc[k2][t1 - 1] == old_nc[k2][t2 - 1]);
                            } else if t1 > 0 {
                                assert(old_nc[k2][t1 - 1] == cur);
                            } else if t2 > 0 {
                                assert(old_nc[k2][t2 - 1] == cur);
                            }
                        } else {
                            assert(nc[k2] == old_nc[k2]);
                        }
                    }
                    assert forall|m: int|
                        #[trigger] pre.path_of@.contains_key(m) && m != pre.root && (pre.bucket_of(
                            m,
                        ) < bucket || (pre.bucket_of(m) == bucket && pre.chain_index(m) < j + 1))
                            implies exists|t: int|
                            0 <= t < nc[(edge_hash(pre.nodes@[m].key, pre.nodes@[m].parent)
                                & new_mask) as int].len() && #[trigger] nc[(edge_hash(
                                pre.nodes@[m].key,
                                pre.nodes@[m].parent,
                            ) & new_mask) as int][t] == m by {
                        let hm = edge_hash(pre.nodes@[m].key, pre.nodes@[m].parent);
                        assert(hm & new_mask <= new_mask) by (bit_vector);
                        let km = (hm & new_mask) as int;
                        if m == cur {
                            assert(nc[km][0] == cur);
                        } else {
                            if pre.bucket_of(m) == bucket && pre.chain_index(m) == j {
                                pre.lemma_chain_index(m);
                                assert(m == cur);
                            }
                            let t0 = choose|t: int| 0 <= t < old_nc[km].len() && #[trigger] old_nc[km][t] == m;
                            if km == new_bucket as int {
                                assert(nc[km][t0 + 1] == m);
                            } else {
                                assert(nc[km] == old_nc[km]);
                                assert(nc[km][t0] == m);
                            }
                        }
                    }
                    assert forall|k2: int| 0 <= k2 < new_len implies #[trigger] new_buckets@[k2] == if nc[k2].len() == 0 {
                            NIL
                        } else {
                            nc[k2][0] as usize
                        } by {
                        if k2 != new_bucket as int {
                            assert(nc[k2] == old_nc[k2]);
                        }
                    }
                    assert forall|m: int| 0 <= m < pre.nodes@.len() implies #[trigger] self.nodes@[m] == with_next_entry(
                        pre.nodes@[m],
                        self.nodes@[m].next_entry,
                    ) by {}
                    assert forall|m: int|
                        #[trigger] pre.path_of@.contains_key(m) && m != pre.root && (pre.bucket_of(
                            m,
                        ) > bucket || (pre.bucket_of(m) == bucket && pre.chain_index(m) >= j + 1))
                            implies self.nodes@[m].next_entry == pre.nodes@[m].next_entry by {
                        pre.lemma_live(m);
                        if m == cur {
                            pre.lemma_chain_index(m);
                        }
                    }
                    j = j + 1;
                }
                node = next;
            }
            proof {
                if j < chain.len() {
                    pre.lemma_chain_entry(bucket as int, j);
                }
                assert forall|m: int|
                    #[trigger] pre.path_of@.contains_key(m) && m != pre.root && pre.bucket_of(m)
                        == bucket implies pre.chain_index(m) < j by {
                    pre.lemma_chain_index(m);
                }
            }
            bucket += 1;
        }
        self.buckets = new_buckets;
        self.buckets_mask = new_mask;
        self.resize_threshold = new_len / 5 * 4 + (new_len % 5) * 4 / 5;
        self.chains = Ghost(nc);
        proof {
            Self::lemma_rehashed_rules(pre, *self);
            reveal(TupleIndex::chain_rules);
            assert forall|m: int| #[trigger] self.path_of@.contains_key(m) && m != self.root implies exists|j: int|
                0 <= j < nc[self.bucket_of(m)].len() && #[trigger] nc[self.bucket_of(m)][j] == m by {
                pre.lemma_chain_member(m);
                pre.lemma_live(m);
                assert(self.nodes@[m] == with_next_entry(pre.nodes@[m], self.nodes@[m].next_entry));
                assert(self.bucket_of(m) == (edge_hash(pre.nodes@[m].key, pre.nodes@[m].parent) & new_mask));
            }
            assert forall|b2: int, j: int| #![trigger nc[b2][j]] 0 <= b2 < nc.len() && 0 <= j < nc[b2].len() implies {
                &&& self.path_of@.contains_key(nc[b2][j])
                &&& nc[b2][j] != self.root
                &&& self.bucket_of(nc[b2][j]) == b2
                &&& self.nodes@[nc[b2][j]].next_entry == if j + 1 < nc[b2].len() {
                    nc[b2][j + 1] as usize
                } else {
                    NIL
                }
            } by {
                let m = nc[b2][j];
                pre.lemma_live(m);
                assert(self.nodes@[m] == with_next_entry(pre.nodes@[m], self.nodes@[m].next_entry));
            }
            assert(self.chains@.len() == self.buckets@.len());
            assert(self.buckets@.len() > 0);
            assert(self.nodes@.len() < NIL) by {
                reveal(TupleIndex::node_rules);
            }
            assert(self.chain_rules());
        }
    }

    /// `post` is `pre` with the child `x` of `parent` along `key` added.
    spec fn grown(pre: Self, post: Self, parent: int, key: u64, x: int, leaf: bool, s: int) -> bool {
        let r = pre.path_of@[parent];
        &&& post.inv()
        &&& post.indexing_sequence@ == pre.indexing_sequence@
        &&& post.root == pre.root
        &&& 0 <= x < post.nodes@.len()
        &&& !pre.path_of@.contains_key(x)
        &&& post.nodes@.len() <= pre.nodes@.len() + 1
        &&& post.node_of@ == pre.node_of@.insert(r.push(key), x)
        &&& post.path_of@ == pre.path_of@.insert(x, r.push(key))
        &&& Self::add_position_ok(pre.paths@, r, leaf, s)
        &&& post.paths@ == Self::paths_after_add(pre.paths@, r, key, leaf, s)
        &&& forall|m: int|
            #[trigger] pre.path_of@.contains_key(m) ==> post.nodes@[m].tuple_index
                == pre.nodes@[m].tuple_index
        &&& post.nodes@[x].tuple_index == NONE
    }

    /// The child of `parent` along `object`, created (and linked first among
    /// its siblings) when there is none.
    fn get_child_node_add_if_necessary(&mut self, parent: usize, object: &T) -> (r: usize)
        requires
            old(self).inv(),
            old(self).path_of@.contains_key(parent as int),
            old(self).path_of@[parent as int].len() < old(self).indexing_sequence@.len(),
            old(self).nodes@.len() + 1 < NIL,
        ensures
            ({
                let q = old(self).path_of@[parent as int].push(object.key_spec());
                if old(self).node_of@.contains_key(q) {
                    &&& *final(self) == *old(self)
                    &&& r as int == old(self).node_of@[q]
                } else {
                    exists|leaf: bool, s: int|
                        Self::grown(*old(self), *final(self), parent as int, object.key_spec(), r as int, leaf, s)
                }
            }),
    {
        let key = object.unique_key();
        let found = self.find_child(parent, key);
        if found != NIL {
            return found;
        }
        let ghost pre = *self;
        if self.number_of_nodes >= self.resize_threshold {
            self.resize_buckets();
        }
        let ghost mid = *self;
        proof {
            reveal(TupleIndex::node_rules);
        }
        let bucket = self.bucket_index(key, parent);
        let ghost pos = self.lemma_add_position(parent as int, key);
        let x = self.add_child(parent, key, bucket, Ghost(pos.0), Ghost(pos.1));
        proof {
            let c0 = mid.nodes@[parent as int].first_child;
            assert forall|m: int| #[trigger] pre.path_of@.contains_key(m) implies self.nodes@[m].tuple_index
                == pre.nodes@[m].tuple_index by {
                pre.lemma_live(m);
                assert(mid.nodes@[m] == with_next_entry(pre.nodes@[m], mid.nodes@[m].next_entry));
                Self::lemma_add_fields(mid, *self, parent as int, key, x as int, bucket as int, pos.0, pos.1);
            }
            assert(Self::grown(pre, *self, parent as int, key, x as int, pos.0, pos.1));
        }
        x
    }

    /// No node lies below a leaf.
    proof fn lemma_leaf_has_no_child(&self, i: int, q: Seq<u64>)
        requires
            self.inv(),
            0 <= i < self.paths@.len(),
            self.node_of@.contains_key(q),
            has_prefix(q, self.paths@[i]),
        ensures
            q == self.paths@[i],
    {
        self.lemma_leaf_facts(i);
        let j = self.lemma_node_has_leaf(q);
        lemma_prefix_trans(self.paths@[j], q, self.paths@[i]);
        if j != i {
            assert(!has_prefix(self.paths@[j], self.paths@[i]));
        }
        lemma_prefix_total(self.paths@[i], self.paths@[i], q);
        lemma_prefix_full(q, self.paths@[i]);
    }

    /// Indexing a key path that leads to a leaf: the leaf keeps a recorded
    /// tuple index, or records `v` where it had none.
    proof fn lemma_add_existing(pre: Self, post: Self, p: Seq<u64>, leaf: int, current: i32, v: i32)
        requires
            pre.wf(),
            pre.node_of@.contains_key(p),
            leaf == pre.node_of@[p],
            p.len() == pre.indexing_sequence@.len(),
            current == pre.nodes@[leaf].tuple_index,
            post.paths@ == pre.paths@,
            post.node_of@ == pre.node_of@,
            post.nodes@.len() == pre.nodes@.len(),
            forall|m: int|
                0 <= m < pre.nodes@.len() && m != leaf ==> (#[trigger] post.nodes@[m]).tuple_index
                    == pre.nodes@[m].tuple_index,
            post.nodes@[leaf].tuple_index == if current == NONE {
                v
            } else {
                current
            },
        ensures
            indexed_after(
                pre.entries(),
                pre.key_paths(),
                p,
                v,
                post.entries(),
                if current == NONE {
                    v
                } else {
                    current
                },
            ),
    {
        pre.lemma_ordered();
        let e = pre.entries();
        let i = pre.lemma_node_has_leaf(p);
        pre.lemma_leaf_facts(i);
        lemma_prefix_full(pre.paths@[i], p);
        assert(e[i].0 == p);
        assert forall|i2: int| 0 <= i2 < e.len() && (#[trigger] e[i2]).0 == p implies i2 == i by {
            if i2 != i {
                assert(!has_prefix(pre.paths@[i2], pre.paths@[i]));
            }
        }
        if current == NONE {
            assert forall|i2: int| 0 <= i2 < post.entries().len() implies #[trigger] post.entries()[i2]
                == e.update(i, (p, v))[i2] by {
                if i2 != i {
                    pre.lemma_leaf_facts(i2);
                    pre.lemma_node(pre.paths@[i2]);
                    pre.lemma_node(pre.paths@[i]);
                }
            }
            assert(post.entries() =~= e.update(i, (p, v)));
        } else {
            assert forall|i2: int| 0 <= i2 < post.entries().len() implies #[trigger] post.entries()[i2]
                == e[i2] by {
                if i2 != i {
                    pre.lemma_leaf_facts(i2);
                    pre.lemma_node(pre.paths@[i2]);
                    pre.lemma_node(pre.paths@[i]);
                }
            }
            assert(post.entries() =~= e);
        }
    }

    /// Indexing a key path that branched off at depth `d`: its new leaf
    /// records `v`, and its entry enters at `pos`.
    proof fn lemma_add_new(pre: Self, post: Self, p: Seq<u64>, d: int, pos: int, leaf: int, v: i32)
        requires
            pre.wf(),
            p.len() == pre.indexing_sequence@.len(),
            0 <= d < p.len(),
            deepest_shared(pre.paths@, p, d),
            0 <= pos <= pre.paths@.len(),
            pos == 0 || !has_prefix(pre.paths@[pos - 1], p.take(d)),
            pos == pre.paths@.len() || has_prefix(pre.paths@[pos], p.take(d)),
            post.paths@ == pre.paths@.insert(pos, p),
            forall|t: Seq<u64>|
                #[trigger] pre.node_of@.contains_key(t) ==> post.node_of@.contains_key(t)
                    && post.node_of@[t] == pre.node_of@[t],
            forall|m: int|
                #[trigger] pre.path_of@.contains_key(m) ==> post.nodes@[m].tuple_index
                    == pre.nodes@[m].tuple_index,
            post.node_of@.contains_key(p),
            post.node_of@[p] == leaf,
            post.nodes@[leaf].tuple_index == v,
        ensures
            indexed_after(pre.entries(), pre.key_paths(), p, v, post.entries(), v),
    {
        pre.lemma_ordered();
        let e = pre.entries();
        assert forall|i2: int| 0 <= i2 < e.len() implies (#[trigger] e[i2]).0 != p by {
            if e[i2].0 == p {
                lemma_take_prefix(p, d + 1);
                pre.lemma_prefix_in_trie(i2, p.take(d + 1));
                assert(has_prefix(pre.paths@[i2], p.take(d + 1)));
            }
        }
        assert(is_insert_position(pre.key_paths(), p, pos));
        assert forall|i2: int| 0 <= i2 < post.entries().len() implies #[trigger] post.entries()[i2]
            == e.insert(pos, (p, v))[i2] by {
            if i2 != pos {
                let oi = if i2 < pos {
                    i2
                } else {
                    i2 - 1
                };
                pre.lemma_leaf_facts(oi);
                pre.lemma_node(pre.paths@[oi]);
            }
        }
        assert(post.entries() =~= e.insert(pos, (p, v)));
    }

    /// Indexes `tuple` under its key path. When the path already leads to a
    /// recorded tuple index, that index is returned and nothing changes;
    /// otherwise `potential_tuple_index` is recorded for the path and returned.
    #[verifier::rlimit(100)]
    #[verifier::spinoff_prover]
    pub fn add_tuple(&mut self, tuple: &[T], potential_tuple_index: i32) -> (r: i32)
        requires
            old(self).wf(),
            forall|j: int|
                0 <= j < old(self).spec_indexing_sequence().len() ==> #[trigger] old(
                    self,
                ).spec_indexing_sequence()[j] < tuple@.len(),
            old(self).node_count() + old(self).spec_indexing_sequence().len() + 1 < usize::MAX,
        ensures
            final(self).wf(),
            final(self).spec_indexing_sequence() == old(self).spec_indexing_sequence(),
            final(self).node_count() <= old(self).node_count() + old(
                self,
            ).spec_indexing_sequence().len(),
            indexed_after(
                old(self).entries(),
                old(self).key_paths(),
                key_path(old(self).spec_indexing_sequence(), tuple@),
                potential_tuple_index,
                final(self).entries(),
                r,
            ),
    {
        let ghost pre = *self;
        let ghost p = key_path(self.indexing_sequence@, tuple@);
        let len = self.indexing_sequence.len();
        let mut trie_node = self.root;
        let ghost mut created = false;
        let ghost mut d: int = 0;
        let ghost mut pos: int = 0;
        proof {
            self.lemma_root();
            assert(p.take(0) =~= Seq::<u64>::empty());
            assert(self.spec_indexing_sequence() == self.indexing_sequence@);
            reveal(TupleIndex::node_rules);
        }
        let mut seq_index: usize = 0;
        while seq_index < len
            invariant
                pre.wf(),
                self.inv(),
                len == self.indexing_sequence@.len(),
                len == pre.indexing_sequence@.len(),
                self.indexing_sequence@ == pre.indexing_sequence@,
                self.root == pre.root,
                p == key_path(self.indexing_sequence@, tuple@),
                p.len() == len,
                forall|j: int|
                    0 <= j < self.indexing_sequence@.len() ==> #[trigger] self.indexing_sequence@[j]
                        < tuple@.len(),
                pre.nodes@.len() + len + 1 < usize::MAX,
                seq_index <= len,
                self.nodes@.len() <= pre.nodes@.len() + seq_index,
                self.node_of@.contains_key(p.take(seq_index as int)),
                trie_node as int == self.node_of@[p.take(seq_index as int)],
                !created ==> *self == pre,
                created ==> {
                    &&& 0 <= d < seq_index
                    &&& deepest_shared(pre.paths@, p, d)
                    &&& 0 <= pos <= pre.paths@.len()
                    &&& (pos == 0 || !has_prefix(pre.paths@[pos - 1], p.take(d)))
                    &&& (pos == pre.paths@.len() || has_prefix(pre.paths@[pos], p.take(d)))
                    &&& self.paths@ == pre.paths@.insert(pos, p.take(seq_index as int))
                    &&& forall|t: Seq<u64>|
                        #[trigger] pre.node_of@.contains_key(t) ==> self.node_of@.contains_key(t)
                            && self.node_of@[t] == pre.node_of@[t]
                    &&& forall|m: int|
                        #[trigger] pre.path_of@.contains_key(m) ==> self.path_of@.contains_key(m)
                            && self.nodes@[m].tuple_index == pre.nodes@[m].tuple_index
                    &&& !pre.path_of@.contains_key(trie_node as int)
                    &&& self.nodes@[trie_node as int].tuple_index == NONE
                },
            decreases len - seq_index,
        {
            let column = self.indexing_sequence[seq_index];
            let ghost before = *self;
            proof {
                self.lemma_node(p.take(seq_index as int));
                Self::lemma_take_push(p, seq_index as int);
                assert(p[seq_index as int] == tuple@[column as int].key_spec());
            }
            trie_node = self.get_child_node_add_if_necessary(trie_node, &tuple[column]);
            proof {
                let k = seq_index as int;
                let r = p.take(k);
                let q = p.take(k + 1);
                if before.node_of@.contains_key(q) {
                    if created {
                        // A leaf has no child.
                        assert(before.paths@[pos] == r);
                        lemma_take_prefix(q, k);
                        assert(q.take(k) =~= r);
                        before.lemma_leaf_has_no_child(pos, q);
                        assert(false);
                    }
                } else {
                    let (leaf, s) = choose|leaf: bool, s: int|
                        Self::grown(before, *self, before.node_of@[r], p[k], trie_node as int, leaf, s);
                    if !created {
                        if leaf {
                            pre.lemma_leaf_facts(s);
                            assert(false);
                        }
                        // The first node added: the run of the longest shared prefix.
                        created = true;
                        d = k;
                        pos = s;
                        assert(self.paths@ =~= pre.paths@.insert(pos, p.take(k + 1)));
                        assert forall|t: Seq<u64>| #[trigger] pre.node_of@.contains_key(t) implies
                            self.node_of@.contains_key(t) && self.node_of@[t] == pre.node_of@[t] by {}
                        assert(shares_prefix(pre.paths@, p, d)) by {
                            if d > 0 {
                                let i = pre.lemma_node_has_leaf(r);
                                assert(has_prefix(pre.paths@[i], p.take(d)));
                            }
                        }
                        assert(!shares_prefix(pre.paths@, p, d + 1)) by {
                            if exists|i: int| 0 <= i < pre.paths@.len() && #[trigger] has_prefix(pre.paths@[i], p.take(d + 1)) {
                                let i = choose|i: int| 0 <= i < pre.paths@.len() && #[trigger] has_prefix(pre.paths@[i], p.take(d + 1));
                                pre.lemma_prefix_in_trie(i, p.take(d + 1));
                            }
                        }
                        if pre.paths@.len() > 0 {
                            assert(is_block_start(pre.paths@, r, s));
                        }
                    } else {
                        assert(before.paths@[pos] == r);
                        if !leaf {
                            assert(false);
                        }
                        before.lemma_ordered();
                        if s != pos {
                            assert(!has_prefix(before.paths@[s], before.paths@[pos]));
                        }
                        assert(self.paths@ =~= pre.paths@.insert(pos, p.take(k + 1)));
                    }
                }
            }
            seq_index += 1;
        }
        proof {
            assert(p.take(len as int) =~= p);
        }
        let ghost mid = *self;
        let current = self.nodes[trie_node].tuple_index;
        proof {
            self.lemma_node(p);
        }
        if current == NONE {
            let mut leaf = self.nodes[trie_node];
            leaf.tuple_index = potential_tuple_index;
            self.nodes.set(trie_node, leaf);
            proof {
                Self::lemma_retupled(mid, *self, trie_node as int);
            }
        }
        proof {
            if !created {
                Self::lemma_add_existing(pre, *self, p, trie_node as int, current, potential_tuple_index);
            } else {
                Self::lemma_add_new(pre, *self, p, d, pos, trie_node as int, potential_tuple_index);
            }
        }
        if current == NONE {
            potential_tuple_index
        } else {
            current
        }
    }

    /// Some neighbour of leaf `i` shares its parent's path `r`, or `r` is the
    /// root's path: removing the leaf then removes its entry.
    spec fn shared_at(paths: Seq<Seq<u64>>, i: int, r: Seq<u64>) -> bool {
        ||| r.len() == 0
        ||| (i > 0 && has_prefix(paths[i - 1], r))
        ||| (i + 1 < paths.len() && has_prefix(paths[i + 1], r))
    }

    /// The paths after removing leaf `i`: its entry goes, or its parent
    /// becomes a leaf in its place.
    spec fn paths_after_remove(paths: Seq<Seq<u64>>, i: int) -> Seq<Seq<u64>> {
        let r = paths[i].drop_last();
        if Self::shared_at(paths, i, r) {
            paths.remove(i)
        } else {
            paths.update(i, r)
        }
    }

    /// `post` is `pre` with the leaf node `t` of path `i`, at position `j` of
    /// chain `b`, unlinked and freed.
    spec fn remove_step(pre: Self, post: Self, i: int, t: int, b: int, j: int) -> bool {
        let w = pre.paths@[i];
        let r = w.drop_last();
        let parent = pre.node_of@[r];
        let prev = pre.nodes@[t].previous_sibling;
        let next = pre.nodes@[t].next_sibling;
        &&& post.indexing_sequence@ == pre.indexing_sequence@
        &&& post.root == pre.root
        &&& post.buckets_mask == pre.buckets_mask
        &&& post.nodes@.len() == pre.nodes@.len()
        &&& post.free@ == pre.free@.push(t as usize)
        &&& post.number_of_nodes + 1 == pre.number_of_nodes
        &&& post.paths@ == Self::paths_after_remove(pre.paths@, i)
        &&& post.node_of@ == pre.node_of@.remove(w)
        &&& post.path_of@ == pre.path_of@.remove(t)
        &&& post.chains@ == pre.chains@.update(b, pre.chains@[b].remove(j))
        &&& post.buckets@ == if j == 0 {
            pre.buckets@.update(b, pre.nodes@[t].next_entry)
        } else {
            pre.buckets@
        }
        &&& forall|m: int|
            0 <= m < pre.nodes@.len() && m != t ==> {
                &&& (#[trigger] post.nodes@[m]).first_child == if m == parent && prev == NIL {
                    next
                } else {
                    pre.nodes@[m].first_child
                }
                &&& post.nodes@[m].next_sibling == if prev != NIL && m == prev as int {
                    next
                } else {
                    pre.nodes@[m].next_sibling
                }
                &&& post.nodes@[m].previous_sibling == if next != NIL && m == next as int {
                    prev
                } else {
                    pre.nodes@[m].previous_sibling
                }
                &&& post.nodes@[m].next_entry == if j > 0 && m == pre.chains@[b][j - 1] {
                    pre.nodes@[t].next_entry
                } else {
                    pre.nodes@[m].next_entry
                }
                &&& post.nodes@[m].parent == pre.nodes@[m].parent
                &&& post.nodes@[m].key == pre.nodes@[m].key
                &&& post.nodes@[m].tuple_index == pre.nodes@[m].tuple_index
            }
    }

    spec fn remove_pre(pre: Self, i: int, t: int, b: int, j: int) -> bool {
        &&& pre.inv()
        &&& 0 <= i < pre.paths@.len()
        &&& pre.node_of@[pre.paths@[i]] == t
        &&& 0 <= b < pre.chains@.len()
        &&& 0 <= j < pre.chains@[b].len()
        &&& pre.chains@[b][j] == t
    }

    /// The sibling links around leaf `i` before it is removed.
    proof fn lemma_remove_links(pre: Self, i: int, t: int, b: int, j: int)
        requires
            Self::remove_pre(pre, i, t, b, j),
        ensures
            ({
                let p = pre.paths@;
                let w = p[i];
                let l = w.len() as int;
                let r = w.drop_last();
                let parent = pre.node_of@[r];
                let prev = pre.nodes@[t].previous_sibling;
                let next = pre.nodes@[t].next_sibling;
                &&& l >= 1
                &&& r == w.take(l - 1)
                &&& pre.node_of@.contains_key(r)
                &&& pre.nodes@[t].parent == parent
                &&& t != pre.root
                &&& pre.path_of@.contains_key(t)
                &&& pre.path_of@[t] == w
                &&& pre.nodes@[t].first_child == NIL
                &&& (prev == NIL <==> !(i > 0 && has_prefix(p[i - 1], r)))
                &&& (prev == NIL ==> pre.nodes@[parent].first_child == t)
                &&& (prev != NIL ==> {
                    &&& p[i - 1].len() >= l
                    &&& pre.node_of@.contains_key(p[i - 1].take(l))
                    &&& prev as int == pre.node_of@[p[i - 1].take(l)]
                    &&& pre.nodes@[prev as int].next_sibling == t
                    &&& pre.path_of@.contains_key(prev as int)
                    &&& prev as int != t
                })
                &&& (next == NIL <==> !(i + 1 < p.len() && has_prefix(p[i + 1], r)))
                &&& (next != NIL ==> {
                    &&& p[i + 1].len() >= l
                    &&& pre.node_of@.contains_key(p[i + 1].take(l))
                    &&& next as int == pre.node_of@[p[i + 1].take(l)]
                    &&& pre.nodes@[next as int].previous_sibling == t
                    &&& pre.path_of@.contains_key(next as int)
                    &&& next as int != t
                })
            }),
    {
        let p = pre.paths@;
        let w = p[i];
        let l = w.len() as int;
        let r = w.drop_last();
        pre.lemma_leaf_facts(i);
        pre.lemma_ordered();
        pre.lemma_node(w);
        assert(r =~= w.take(l - 1));
        assert(w.take(l) =~= w);
        lemma_take_prefix(w, l - 1);
        pre.lemma_prefix_in_trie(i, r);
        reveal(TupleIndex::rule_first);
        reveal(TupleIndex::rule_adjacent);
        reveal(TupleIndex::rule_last);
        reveal(TupleIndex::rule_leaf);
        assert(pre.nodes@[pre.node_of@[p[i]]].first_child == NIL);
        if i > 0 && has_prefix(p[i - 1], r) {
            assert(!has_prefix(p[i - 1], w));
            assert(has_prefix(p[i - 1], w.take(l - 1)));
            assert(!has_prefix(p[i - 1], w.take(l)));
            assert(pre.nodes@[pre.node_of@[w.take(l)]].previous_sibling == pre.node_of@[p[i
                - 1].take(l)]);
            lemma_take_prefix(p[i - 1], l);
            pre.lemma_prefix_in_trie(i - 1, p[i - 1].take(l));
            pre.lemma_node(p[i - 1].take(l));
            if p[i - 1].take(l) == w {
                assert(has_prefix(p[i - 1], w));
            }
        } else {
            assert(pre.nodes@[pre.node_of@[w.take(l - 1)]].first_child == pre.node_of@[w.take(l)]);
        }
        if i + 1 < p.len() && has_prefix(p[i + 1], r) {
            let bb = p[i + 1];
            pre.lemma_leaf_facts(i + 1);
            if bb.len() < l {
                lemma_prefix_full(bb, r.take(bb.len() as int));
                assert(false) by {
                    if bb.len() == r.len() {
                        lemma_prefix_full(bb, r);
                        assert(has_prefix(w, bb));
                    }
                }
            }
            lemma_take_prefix(bb, l);
            lemma_take_prefix(bb, l - 1);
            assert(bb.take(l - 1) =~= r);
            if has_prefix(w, bb.take(l)) {
                lemma_prefix_full(w, bb.take(l));
                assert(has_prefix(bb, w));
            }
            assert(pre.nodes@[pre.node_of@[bb.take(l)]].previous_sibling == pre.node_of@[w.take(l)]);
            pre.lemma_prefix_in_trie(i + 1, bb.take(l));
            pre.lemma_node(bb.take(l));
            if bb.take(l) == w {
                assert(has_prefix(bb, w));
            }
        } else {
            assert(pre.nodes@[pre.node_of@[w.take(l)]].next_sibling == NIL);
        }
        if i > 0 && has_prefix(p[i - 1], r) {
            let aa = p[i - 1];
            if aa.len() < l {
                assert(false) by {
                    if aa.len() == r.len() {
                        lemma_prefix_full(aa, r);
                        assert(has_prefix(w, aa));
                    }
                }
            }
        }
    }

    /// The node maps after a removal stay consistent with the nodes.
    #[verifier::spinoff_prover]
    proof fn lemma_remove_nodes_consistent(pre: Self, post: Self, i: int, t: int, b: int, j: int)
        requires
            Self::remove_pre(pre, i, t, b, j),
            Self::remove_step(pre, post, i, t, b, j),
        ensures
            forall|q: Seq<u64>|
                #[trigger] post.node_of@.contains_key(q) ==> {
                    &&& 0 <= post.node_of@[q] < post.nodes@.len()
                    &&& post.path_of@.contains_key(post.node_of@[q])
                    &&& post.path_of@[post.node_of@[q]] == q
                    &&& q.len() <= post.indexing_sequence@.len()
                },
            forall|m: int| #[trigger]
                post.path_of@.contains_key(m) ==> post.node_of@.contains_key(post.path_of@[m])
                    && post.node_of@[post.path_of@[m]] == m,
            forall|q: Seq<u64>|
                #[trigger] post.node_of@.contains_key(q) && q.len() > 0 ==> {
                    &&& post.node_of@.contains_key(q.drop_last())
                    &&& post.nodes@[post.node_of@[q]].parent == post.node_of@[q.drop_last()]
                    &&& post.nodes@[post.node_of@[q]].key == q.last()
                },
            post.root < post.nodes@.len(),
            post.node_of@.contains_key(Seq::empty()),
            post.node_of@[Seq::empty()] == post.root,
            post.nodes@[post.root as int].parent == NIL,
    {
        let p = pre.paths@;
        let w = p[i];
        Self::lemma_remove_links(pre, i, t, b, j);
        pre.lemma_root();
        pre.lemma_leaf_facts(i);
        pre.lemma_node(w);
        let n = post.node_of@;
        let po = post.path_of@;
        assert(w != Seq::<u64>::empty());
        assert forall|q: Seq<u64>| #[trigger] n.contains_key(q) implies {
            &&& 0 <= n[q] < post.nodes@.len()
            &&& po.contains_key(n[q])
            &&& po[n[q]] == q
            &&& q.len() <= post.indexing_sequence@.len()
        } by {
            pre.lemma_node(q);
        }
        assert forall|m: int| #[trigger] po.contains_key(m) implies n.contains_key(po[m]) && n[po[m]]
            == m by {
            pre.lemma_live(m);
        }
        assert forall|q: Seq<u64>| #[trigger] n.contains_key(q) && q.len() > 0 implies {
            &&& n.contains_key(q.drop_last())
            &&& post.nodes@[n[q]].parent == n[q.drop_last()]
            &&& post.nodes@[n[q]].key == q.last()
        } by {
            pre.lemma_node(q);
            pre.lemma_node(q.drop_last());
            if q.drop_last() == w {
                Self::lemma_split_last(q);
                lemma_prefix_push(w, q.last(), w);
                lemma_take_prefix(w, w.len() as int);
                assert(w.take(w.len() as int) =~= w);
                pre.lemma_leaf_has_no_child(i, q);
                assert(q.len() == w.len());
            }
        }
        assert(post.root != t);
    }

    /// The prefixes of the paths after a removal still lead to nodes.
    #[verifier::spinoff_prover]
    proof fn lemma_remove_prefixes_in_trie(pre: Self, post: Self, i: int, t: int, b: int, j: int)
        requires
            Self::remove_pre(pre, i, t, b, j),
            Self::remove_step(pre, post, i, t, b, j),
        ensures
            forall|i2: int, q: Seq<u64>|
                0 <= i2 < post.paths@.len() && #[trigger] has_prefix(post.paths@[i2], q)
                    ==> post.node_of@.contains_key(q),
    {
        let p = pre.paths@;
        let np = post.paths@;
        let w = p[i];
        let r = w.drop_last();
        let shared = Self::shared_at(p, i, r);
        Self::lemma_remove_links(pre, i, t, b, j);
        pre.lemma_ordered();
        let n = post.node_of@;
        assert forall|i2: int, q: Seq<u64>|
            0 <= i2 < np.len() && #[trigger] has_prefix(np[i2], q) implies n.contains_key(q) by {
            if !shared && i2 == i {
                lemma_prefix_trans(w, r, q);
                pre.lemma_prefix_in_trie(i, q);
            } else {
                let oi = if shared && i2 >= i {
                    i2 + 1
                } else {
                    i2
                };
                assert(np[i2] == p[oi]);
                pre.lemma_prefix_in_trie(oi, q);
                if q == w {
                    lemma_prefix_trans(p[oi], q, w);
                    lemma_take_prefix(w, w.len() as int);
                    assert(w.take(w.len() as int) =~= w);
                    assert(has_prefix(p[oi], p[i]));
                }
            }
        }
    }

    /// After a removal every node but the root lies on some path.
    #[verifier::spinoff_prover]
    proof fn lemma_remove_nodes_on_paths(pre: Self, post: Self, i: int, t: int, b: int, j: int)
        requires
            Self::remove_pre(pre, i, t, b, j),
            Self::remove_step(pre, post, i, t, b, j),
        ensures
            forall|q: Seq<u64>|
                #[trigger] post.node_of@.contains_key(q) && q.len() > 0 ==> exists|i2: int|
                    0 <= i2 < post.paths@.len() && #[trigger] has_prefix(post.paths@[i2], q),
    {
        let p = pre.paths@;
        let np = post.paths@;
        let w = p[i];
        let r = w.drop_last();
        let shared = Self::shared_at(p, i, r);
        Self::lemma_remove_links(pre, i, t, b, j);
        let n = post.node_of@;
        assert forall|q: Seq<u64>| #[trigger] n.contains_key(q) && q.len() > 0 implies exists|i2: int|
            0 <= i2 < np.len() && #[trigger] has_prefix(np[i2], q) by {
            let k = pre.lemma_node_has_leaf(q);
            if k != i {
                let nk = if shared && k > i {
                    k - 1
                } else {
                    k
                };
                assert(np[nk] == p[k]);
                assert(has_prefix(np[nk], q));
            } else {
                lemma_take_prefix(w, w.len() - 1);
                if q.len() == w.len() {
                    lemma_prefix_full(w, q);
                }
                lemma_prefix_total(w, q, r);
                if !shared {
                    assert(has_prefix(np[i], q));
                } else if i > 0 && has_prefix(p[i - 1], r) {
                    lemma_prefix_trans(p[i - 1], r, q);
                    assert(np[i - 1] == p[i - 1]);
                    assert(has_prefix(np[i - 1], q));
                } else {
                    assert(i + 1 < p.len() && has_prefix(p[i + 1], r));
                    lemma_prefix_trans(p[i + 1], r, q);
                    assert(np[i] == p[i + 1]);
                    assert(has_prefix(np[i], q));
                }
            }
        }
    }

    /// After a removal the paths keep their lengths and their trie order.
    #[verifier::spinoff_prover]
    #[verifier::rlimit(30)]
    proof fn lemma_remove_paths_ordered(pre: Self, post: Self, i: int, t: int, b: int, j: int)
        requires
            Self::remove_pre(pre, i, t, b, j),
            Self::remove_step(pre, post, i, t, b, j),
        ensures
            forall|i2: int|
                0 <= i2 < post.paths@.len() ==> 1 <= (#[trigger] post.paths@[i2]).len()
                    <= post.indexing_sequence@.len(),
            trie_ordered(post.paths@),
    {
        let p = pre.paths@;
        let np = post.paths@;
        let w = p[i];
        let r = w.drop_last();
        let shared = Self::shared_at(p, i, r);
        Self::lemma_remove_links(pre, i, t, b, j);
        pre.lemma_ordered();
        if shared {
            lemma_ordered_remove(p, i);
        } else {
            lemma_ordered_shorten(p, i);
        }
        assert forall|i2: int| 0 <= i2 < np.len() implies 1 <= (#[trigger] np[i2]).len()
            <= post.indexing_sequence@.len() by {
            if !(!shared && i2 == i) {
                let oi = if shared && i2 >= i {
                    i2 + 1
                } else {
                    i2
                };
                assert(np[i2] == p[oi]);
            }
        }
    }

    /// After a removal the freed node joins the free list.
    proof fn lemma_remove_free_rules(pre: Self, post: Self, i: int, t: int, b: int, j: int)
        requires
            Self::remove_pre(pre, i, t, b, j),
            Self::remove_step(pre, post, i, t, b, j),
        ensures
            post.free_rules(),
    {
        Self::lemma_remove_links(pre, i, t, b, j);
        pre.lemma_leaf_facts(i);
        pre.lemma_node(pre.paths@[i]);
        reveal(TupleIndex::free_rules);
        assert forall|k: int| 0 <= k < pre.free@.len() implies pre.free@[k] != t as usize by {
            assert(!pre.path_of@.contains_key(pre.free@[k] as int));
        }
        assert(post.free@.no_duplicates()) by {
            assert forall|k1: int, k2: int|
                0 <= k1 < post.free@.len() && 0 <= k2 < post.free@.len() && k1 != k2 implies post.free@[k1]
                != post.free@[k2] by {
                if k1 < pre.free@.len() && k2 < pre.free@.len() {
                } else if k1 < pre.free@.len() {
                    assert(pre.free@[k1] != t as usize);
                } else if k2 < pre.free@.len() {
                    assert(pre.free@[k2] != t as usize);
                }
            }
        }
        assert forall|k: int| 0 <= k < post.free@.len() implies {
            &&& #[trigger] post.free@[k] < post.nodes@.len()
            &&& !post.path_of@.contains_key(post.free@[k] as int)
        } by {
            if k < pre.free@.len() {
                assert(post.free@[k] == pre.free@[k]);
            }
        }
    }

    /// After a removal the bucket heads are the heads of the chains.
    #[verifier::spinoff_prover]
    proof fn lemma_remove_chain_heads(pre: Self, post: Self, i: int, t: int, b: int, j: int)
        requires
            Self::remove_pre(pre, i, t, b, j),
            Self::remove_step(pre, post, i, t, b, j),
        ensures
            post.chains@.len() == post.buckets@.len(),
            forall|b2: int|
                0 <= b2 < post.chains@.len() ==> #[trigger] post.buckets@[b2] == if post.chains@[b2].len()
                    == 0 {
                    NIL
                } else {
                    post.chains@[b2][0] as usize
                },
    {
        reveal(TupleIndex::chain_rules);
        pre.lemma_chain_entry(b, j);
        let c = post.chains@;
        let oc = pre.chains@;
        assert forall|b2: int| 0 <= b2 < c.len() implies #[trigger] post.buckets@[b2] == if c[b2].len()
            == 0 {
            NIL
        } else {
            c[b2][0] as usize
        } by {
            pre.lemma_chain_head(b2);
            if b2 == b && j == 0 {
                if oc[b].len() > 1 {
                    assert(c[b][0] == oc[b][1]);
                }
            }
        }
    }

    /// After a removal the chains list live nodes of their buckets, linked in
    /// order.
    #[verifier::spinoff_prover]
    #[verifier::rlimit(30)]
    proof fn lemma_remove_chain_entries(pre: Self, post: Self, i: int, t: int, b: int, j: int)
        requires
            Self::remove_pre(pre, i, t, b, j),
            Self::remove_step(pre, post, i, t, b, j),
        ensures
            forall|b2: int, jj: int|
                #![trigger post.chains@[b2][jj]]
                0 <= b2 < post.chains@.len() && 0 <= jj < post.chains@[b2].len() ==> {
                    &&& post.path_of@.contains_key(post.chains@[b2][jj])
                    &&& post.chains@[b2][jj] != post.root
                    &&& post.bucket_of(post.chains@[b2][jj]) == b2
                    &&& post.nodes@[post.chains@[b2][jj]].next_entry == if jj + 1
                        < post.chains@[b2].len() {
                        post.chains@[b2][jj + 1] as usize
                    } else {
                        NIL
                    }
                },
    {
        reveal(TupleIndex::chain_rules);
        pre.lemma_root();
        pre.lemma_chain_entry(b, j);
        let c = post.chains@;
        let oc = pre.chains@;
        assert forall|b2: int, jj: int| #![trigger c[b2][jj]] 0 <= b2 < c.len() && 0 <= jj < c[b2].len() implies {
            &&& post.path_of@.contains_key(c[b2][jj])
            &&& c[b2][jj] != post.root
            &&& post.bucket_of(c[b2][jj]) == b2
            &&& post.nodes@[c[b2][jj]].next_entry == if jj + 1 < c[b2].len() {
                c[b2][jj + 1] as usize
            } else {
                NIL
            }
        } by {
            if b2 == b {
                let oj = if jj < j {
                    jj
                } else {
                    jj + 1
                };
                assert(c[b2][jj] == oc[b][oj]);
                pre.lemma_chain_entry(b, oj);
                assert(oc[b][oj] != t);
                if jj + 1 < c[b2].len() {
                    let oj1 = if jj + 1 < j {
                        jj + 1
                    } else {
                        jj + 2
                    };
                    assert(c[b2][jj + 1] == oc[b][oj1]);
                }
                if j > 0 && jj != j - 1 {
                    assert(oc[b][oj] != oc[b][j - 1]);
                }
                if jj == j - 1 && j + 1 < oc[b].len() {
                    assert(c[b2][jj + 1] == oc[b][j + 1]);
                }
            } else {
                pre.lemma_chain_entry(b2, jj);
                assert(c[b2][jj] != t);
                if j > 0 {
                    pre.lemma_chain_entry(b, j - 1);
                    assert(c[b2][jj] != oc[b][j - 1]);
                }
            }
        }
    }

    /// After a removal each chain lists a node once and every live node but the
    /// root is in the chain of its bucket.
    #[verifier::spinoff_prover]
    proof fn lemma_remove_chain_members(pre: Self, post: Self, i: int, t: int, b: int, j: int)
        requires
            Self::remove_pre(pre, i, t, b, j),
            Self::remove_step(pre, post, i, t, b, j),
        ensures
            forall|b2: int, j1: int, j2: int|
                0 <= b2 < post.chains@.len() && 0 <= j1 < post.chains@[b2].len() && 0 <= j2
                    < post.chains@[b2].len() && #[trigger] post.chains@[b2][j1]
                    == #[trigger] post.chains@[b2][j2] ==> j1 == j2,
            forall|m: int| #[trigger]
                post.path_of@.contains_key(m) && m != post.root ==> exists|jm: int|
                    0 <= jm < post.chains@[post.bucket_of(m)].len()
                        && #[trigger] post.chains@[post.bucket_of(m)][jm] == m,
    {
        reveal(TupleIndex::chain_rules);
        let c = post.chains@;
        let oc = pre.chains@;
        assert forall|b2: int, j1: int, j2: int|
            0 <= b2 < c.len() && 0 <= j1 < c[b2].len() && 0 <= j2 < c[b2].len() && #[trigger] c[b2][j1]
                == #[trigger] c[b2][j2] implies j1 == j2 by {
            if b2 == b {
                let o1 = if j1 < j {
                    j1
                } else {
                    j1 + 1
                };
                let o2 = if j2 < j {
                    j2
                } else {
                    j2 + 1
                };
                assert(oc[b][o1] == oc[b][o2]);
            }
        }
        assert forall|m: int| #[trigger] post.path_of@.contains_key(m) && m != post.root implies exists|
            jm: int,
        | 0 <= jm < c[post.bucket_of(m)].len() && #[trigger] c[post.bucket_of(m)][jm] == m by {
            let j0 = pre.lemma_chain_member(m);
            let bm = pre.bucket_of(m);
            pre.lemma_live(m);
            assert(post.bucket_of(m) == bm);
            if bm == b {
                if j0 < j {
                    assert(c[b][j0] == m);
                } else {
                    assert(j0 != j);
                    assert(c[b][j0 - 1] == m);
                }
            } else {
                assert(c[bm][j0] == m);
            }
        }
    }

    proof fn lemma_remove_chain_rules(pre: Self, post: Self, i: int, t: int, b: int, j: int)
        requires
            Self::remove_pre(pre, i, t, b, j),
            Self::remove_step(pre, post, i, t, b, j),
        ensures
            post.chain_rules(),
    {
        Self::lemma_remove_chain_heads(pre, post, i, t, b, j);
        Self::lemma_remove_chain_entries(pre, post, i, t, b, j);
        Self::lemma_remove_chain_members(pre, post, i, t, b, j);
        reveal(TupleIndex::chain_rules);
    }

    /// After a removal leaves still have no children.
    #[verifier::spinoff_prover]
    proof fn lemma_remove_rule_leaf(pre: Self, post: Self, i: int, t: int, b: int, j: int)
        requires
            Self::remove_pre(pre, i, t, b, j),
            Self::remove_step(pre, post, i, t, b, j),
        ensures
            post.rule_leaf(),
    {
        let p = pre.paths@;
        let np = post.paths@;
        let w = p[i];
        let l = w.len() as int;
        let r = w.drop_last();
        let shared = Self::shared_at(p, i, r);
        let parent = pre.node_of@[r];
        Self::lemma_remove_links(pre, i, t, b, j);
        Self::lemma_remove_nodes_consistent(pre, post, i, t, b, j);
        pre.lemma_ordered();
        pre.lemma_root();
        lemma_take_prefix(w, l - 1);
        assert(r =~= w.take(l - 1));
        pre.lemma_prefix_in_trie(i, r);
        pre.lemma_node(r);
        pre.lemma_leaf_facts(i);
        pre.lemma_node(w);
        reveal(TupleIndex::rule_leaf);
        assert forall|i2: int| 0 <= i2 < np.len() implies post.nodes@[post.node_of@[
            #[trigger] np[i2]]].first_child == NIL by {
            if !shared && i2 == i {
                assert(np[i] == r);
                pre.lemma_node(r);
                assert(post.node_of@[r] == parent);
            } else {
                let oi = if shared && i2 >= i {
                    i2 + 1
                } else {
                    i2
                };
                assert(np[i2] == p[oi]);
                pre.lemma_leaf_facts(oi);
                pre.lemma_node(p[oi]);
                assert(p[oi] != w);
                assert(pre.node_of@[p[oi]] != t);
                assert(p[oi] != r) by {
                    if p[oi] == r {
                        assert(has_prefix(w, p[oi]));
                    }
                }
                assert(pre.nodes@[pre.node_of@[p[oi]]].first_child == NIL);
            }
        }
        if np.len() == 0 {
            assert(p.len() == 1);
            assert(shared);
            assert(r.len() == 0);
            assert(r == Seq::<u64>::empty());
        }
    }

    /// After a removal the last leaf of each run has no next sibling there.
    #[verifier::spinoff_prover]
    #[verifier::rlimit(30)]
    proof fn lemma_remove_rule_last(pre: Self, post: Self, i: int, t: int, b: int, j: int)
        requires
            Self::remove_pre(pre, i, t, b, j),
            Self::remove_step(pre, post, i, t, b, j),
        ensures
            post.rule_last(),
    {
        let p = pre.paths@;
        let np = post.paths@;
        let w = p[i];
        let l = w.len() as int;
        let r = w.drop_last();
        let shared = Self::shared_at(p, i, r);
        let prev = pre.nodes@[t].previous_sibling;
        let next = pre.nodes@[t].next_sibling;
        Self::lemma_remove_links(pre, i, t, b, j);
        Self::lemma_remove_nodes_consistent(pre, post, i, t, b, j);
        pre.lemma_ordered();
        lemma_take_prefix(w, l - 1);
        reveal(TupleIndex::rule_last);
        assert forall|i2: int, e: int|
            #![trigger np[i2].take(e)]
            0 <= i2 < np.len() && 1 <= e <= np[i2].len() && (i2 == np.len() - 1 || !has_prefix(
                np[i2 + 1],
                np[i2].take(e - 1),
            )) implies post.nodes@[post.node_of@[np[i2].take(e)]].next_sibling == NIL by {
            Self::lemma_remove_last_case(pre, post, i, t, b, j, i2, e);
        }
    }

    proof fn lemma_remove_last_case(
        pre: Self,
        post: Self,
        i: int,
        t: int,
        b: int,
        j: int,
        i2: int,
        e: int,
    )
        requires
            Self::remove_pre(pre, i, t, b, j),
            Self::remove_step(pre, post, i, t, b, j),
            0 <= i2 < post.paths@.len(),
            1 <= e <= post.paths@[i2].len(),
            i2 == post.paths@.len() - 1 || !has_prefix(
                post.paths@[i2 + 1],
                post.paths@[i2].take(e - 1),
            ),
        ensures
            post.node_of@.contains_key(post.paths@[i2].take(e)),
            post.nodes@[post.node_of@[post.paths@[i2].take(e)]].next_sibling == NIL,
    {
        let p = pre.paths@;
        let w = p[i];
        if !Self::shared_at(p, i, w.drop_last()) {
            Self::lemma_remove_last_unshared(pre, post, i, t, b, j, i2, e);
        } else {
            Self::lemma_remove_last_shared(pre, post, i, t, b, j, i2, e);
        }
    }

    #[verifier::spinoff_prover]
    proof fn lemma_remove_last_unshared(
        pre: Self,
        post: Self,
        i: int,
        t: int,
        b: int,
        j: int,
        i2: int,
        e: int,
    )
        requires
            Self::remove_pre(pre, i, t, b, j),
            Self::remove_step(pre, post, i, t, b, j),
            0 <= i2 < post.paths@.len(),
            1 <= e <= post.paths@[i2].len(),
            i2 == post.paths@.len() - 1 || !has_prefix(
                post.paths@[i2 + 1],
                post.paths@[i2].take(e - 1),
            ),
            !Self::shared_at(pre.paths@, i, pre.paths@[i].drop_last()),
        ensures
            post.node_of@.contains_key(post.paths@[i2].take(e)),
            post.nodes@[post.node_of@[post.paths@[i2].take(e)]].next_sibling == NIL,
    {
        let p = pre.paths@;
        let np = post.paths@;
        let w = p[i];
        let l = w.len() as int;
        let r = w.drop_last();
        let shared = Self::shared_at(p, i, r);
        let prev = pre.nodes@[t].previous_sibling;
        let next = pre.nodes@[t].next_sibling;
        Self::lemma_remove_links(pre, i, t, b, j);
        pre.lemma_ordered();
        lemma_take_prefix(w, l - 1);
        reveal(TupleIndex::rule_last);
        reveal(TupleIndex::rule_adjacent);
        let q = np[i2];
        lemma_take_prefix(q, e);
        lemma_take_prefix(q, e - 1);
            if i2 == i {
                // The shortened path: its prefixes are those of `w`.
                assert(q == r);
                assert(q.take(e) =~= w.take(e));
                assert(q.take(e - 1) =~= w.take(e - 1));
                lemma_take_prefix(w, e);
                pre.lemma_prefix_in_trie(i, w.take(e));
                pre.lemma_node(w.take(e));
                assert(p[i].take(e) == w.take(e));
                assert(w.take(e) != w);
            } else {
                assert(q == p[i2]);
                if i2 + 1 == i {
                    if has_prefix(w, q.take(e - 1)) {
                        if q.take(e - 1).len() < l {
                            lemma_prefix_total(w, q.take(e - 1), r);
                        } else {
                            lemma_prefix_full(w, q.take(e - 1));
                            lemma_prefix_trans(q, q.take(e - 1), w);
                        }
                    }
                }
                pre.lemma_prefix_in_trie(i2, q.take(e));
                pre.lemma_node(q.take(e));
                assert(q.take(e) != w) by {
                    if q.take(e) == w {
                        lemma_prefix_trans(q, q.take(e), w);
                    }
                }
            }
    }

    proof fn lemma_remove_last_shared(
        pre: Self,
        post: Self,
        i: int,
        t: int,
        b: int,
        j: int,
        i2: int,
        e: int,
    )
        requires
            Self::remove_pre(pre, i, t, b, j),
            Self::remove_step(pre, post, i, t, b, j),
            0 <= i2 < post.paths@.len(),
            1 <= e <= post.paths@[i2].len(),
            i2 == post.paths@.len() - 1 || !has_prefix(
                post.paths@[i2 + 1],
                post.paths@[i2].take(e - 1),
            ),
            Self::shared_at(pre.paths@, i, pre.paths@[i].drop_last()),
        ensures
            post.node_of@.contains_key(post.paths@[i2].take(e)),
            post.nodes@[post.node_of@[post.paths@[i2].take(e)]].next_sibling == NIL,
    {
        let oi = if i2 >= i {
            i2 + 1
        } else {
            i2
        };
        if oi == i - 1 {
            Self::lemma_remove_last_at(pre, post, i, t, b, j, i2, e);
        } else {
            Self::lemma_remove_last_elsewhere(pre, post, i, t, b, j, i2, e);
        }
    }

    #[verifier::spinoff_prover]
    proof fn lemma_remove_last_elsewhere(
        pre: Self,
        post: Self,
        i: int,
        t: int,
        b: int,
        j: int,
        i2: int,
        e: int,
    )
        requires
            Self::remove_pre(pre, i, t, b, j),
            Self::remove_step(pre, post, i, t, b, j),
            0 <= i2 < post.paths@.len(),
            1 <= e <= post.paths@[i2].len(),
            i2 == post.paths@.len() - 1 || !has_prefix(
                post.paths@[i2 + 1],
                post.paths@[i2].take(e - 1),
            ),
            Self::shared_at(pre.paths@, i, pre.paths@[i].drop_last()),
            i2 != i - 1,
        ensures
            post.node_of@.contains_key(post.paths@[i2].take(e)),
            post.nodes@[post.node_of@[post.paths@[i2].take(e)]].next_sibling == NIL,
    {
        let p = pre.paths@;
        let np = post.paths@;
        let w = p[i];
        let l = w.len() as int;
        let r = w.drop_last();
        let prev = pre.nodes@[t].previous_sibling;
        let next = pre.nodes@[t].next_sibling;
        Self::lemma_remove_links(pre, i, t, b, j);
        pre.lemma_ordered();
        lemma_take_prefix(w, l - 1);
        let q = np[i2];
        lemma_take_prefix(q, e);
        lemma_take_prefix(q, e - 1);
        reveal(TupleIndex::rule_last);
        let oi = if i2 >= i {
            i2 + 1
        } else {
            i2
        };
        assert(q == p[oi]);
        assert(p[oi].take(e) == q.take(e));
        assert(p[oi].take(e - 1) == q.take(e - 1));
        if i2 < np.len() - 1 {
            assert(np[i2 + 1] == p[oi + 1]);
        }
        if i2 == np.len() - 1 {
            assert(oi == p.len() - 1);
        }
        pre.lemma_prefix_in_trie(oi, q.take(e));
        pre.lemma_node(q.take(e));
        assert(q.take(e) != w) by {
            if q.take(e) == w {
                lemma_prefix_trans(q, q.take(e), w);
            }
        }
        let m = pre.node_of@[q.take(e)];
        assert(post.node_of@[q.take(e)] == m);
        pre.lemma_leaf_facts(i);
        pre.lemma_node(w);
        assert(m != t);
        assert(0 <= m < pre.nodes@.len());
        assert(pre.nodes@[m].next_sibling == NIL);
        if prev != NIL && m == prev as int {
            pre.lemma_node(p[i - 1].take(l));
            assert(q.take(e) == p[i - 1].take(l));
            if oi > i {
                lemma_take_prefix(p[i - 1], l);
                assert(has_prefix(p[i - 1], q.take(e)));
                assert(has_prefix(w, q.take(e)));
                lemma_prefix_full(w, q.take(e));
            }
        }
    }

    #[verifier::spinoff_prover]
    #[verifier::rlimit(30)]
    proof fn lemma_remove_last_at(
        pre: Self,
        post: Self,
        i: int,
        t: int,
        b: int,
        j: int,
        i2: int,
        e: int,
    )
        requires
            Self::remove_pre(pre, i, t, b, j),
            Self::remove_step(pre, post, i, t, b, j),
            0 <= i2 < post.paths@.len(),
            1 <= e <= post.paths@[i2].len(),
            i2 == post.paths@.len() - 1 || !has_prefix(
                post.paths@[i2 + 1],
                post.paths@[i2].take(e - 1),
            ),
            Self::shared_at(pre.paths@, i, pre.paths@[i].drop_last()),
            i2 == i - 1,
        ensures
            post.node_of@.contains_key(post.paths@[i2].take(e)),
            post.nodes@[post.node_of@[post.paths@[i2].take(e)]].next_sibling == NIL,
    {
        let p = pre.paths@;
        let np = post.paths@;
        let w = p[i];
        let l = w.len() as int;
        let r = w.drop_last();
        let prev = pre.nodes@[t].previous_sibling;
        let next = pre.nodes@[t].next_sibling;
        Self::lemma_remove_links(pre, i, t, b, j);
        pre.lemma_ordered();
        lemma_take_prefix(w, l - 1);
        let q = np[i2];
        lemma_take_prefix(q, e);
        lemma_take_prefix(q, e - 1);
        reveal(TupleIndex::rule_last);
        reveal(TupleIndex::rule_adjacent);
        assert(q == p[i - 1]);
        if i2 < np.len() - 1 {
            assert(np[i2 + 1] == p[i + 1]);
        }
        pre.lemma_prefix_in_trie(i - 1, q.take(e));
        pre.lemma_node(q.take(e));
        assert(q.take(e) != w) by {
            if q.take(e) == w {
                lemma_prefix_trans(q, q.take(e), w);
            }
        }
        let m = pre.node_of@[q.take(e)];
        if prev != NIL && m == prev as int {
            pre.lemma_node(p[i - 1].take(l));
            assert(q.take(e) == p[i - 1].take(l));
            assert(e == l);
            assert(q.take(e - 1) =~= r) by {
                lemma_take_prefix(p[i - 1], l - 1);
                assert(p[i - 1].take(l).take(l - 1) =~= p[i - 1].take(l - 1));
            }
        } else if has_prefix(w, q.take(e)) {
            // `w` continues the run of `q.take(e)`: the last leaf rule for `w`.
            assert(q.take(e) =~= w.take(e));
            assert(q.take(e - 1) =~= w.take(e - 1));
            assert(w.take(e) != w);
            assert(p[i].take(e) == w.take(e));
        } else if has_prefix(w, q.take(e - 1)) {
            // `q` and `w` part at `e`, which cannot happen here.
            lemma_prefix_total(w, q.take(e - 1), r);
            if e < l {
                if has_prefix(q, r) {
                    lemma_prefix_total(q, q.take(e), r);
                    lemma_prefix_trans(w, r, q.take(e));
                } else {
                    assert(i + 1 < p.len() && has_prefix(p[i + 1], r));
                    lemma_prefix_trans(p[i + 1], r, q.take(e - 1));
                    assert(np[i2 + 1] == p[i + 1]);
                }
            } else {
                lemma_prefix_full(r, q.take(e - 1));
                lemma_take_prefix(q, e - 1);
                assert(has_prefix(q, r));
                pre.lemma_node(p[i - 1].take(l));
                assert(q.take(e) == p[i - 1].take(l));
            }
        } else {
            assert(!has_prefix(p[i], q.take(e - 1)));
        }
    }

    /// After a removal the first leaf of each run hangs below first children.
    proof fn lemma_remove_rule_first(pre: Self, post: Self, i: int, t: int, b: int, j: int)
        requires
            Self::remove_pre(pre, i, t, b, j),
            Self::remove_step(pre, post, i, t, b, j),
        ensures
            post.rule_first(),
    {
        let np = post.paths@;
        reveal(TupleIndex::rule_first);
        assert forall|i2: int, e: int|
            #![trigger np[i2].take(e)]
            0 <= i2 < np.len() && 1 <= e <= np[i2].len() && (i2 == 0 || !has_prefix(
                np[i2 - 1],
                np[i2].take(e - 1),
            )) implies {
            &&& post.nodes@[post.node_of@[np[i2].take(e - 1)]].first_child == post.node_of@[np[i2].take(e)]
            &&& post.nodes@[post.node_of@[np[i2].take(e)]].previous_sibling == NIL
        } by {
            let p = pre.paths@;
            let w = p[i];
            if !Self::shared_at(p, i, w.drop_last()) {
                Self::lemma_remove_first_unshared(pre, post, i, t, b, j, i2, e);
            } else if i2 == i {
                Self::lemma_remove_first_at(pre, post, i, t, b, j, i2, e);
            } else {
                Self::lemma_remove_first_elsewhere(pre, post, i, t, b, j, i2, e);
            }
        }
    }

    #[verifier::spinoff_prover]
    proof fn lemma_remove_first_unshared(
        pre: Self,
        post: Self,
        i: int,
        t: int,
        b: int,
        j: int,
        i2: int,
        e: int,
    )
        requires
            Self::remove_pre(pre, i, t, b, j),
            Self::remove_step(pre, post, i, t, b, j),
            0 <= i2 < post.paths@.len(),
            1 <= e <= post.paths@[i2].len(),
            i2 == 0 || !has_prefix(post.paths@[i2 - 1], post.paths@[i2].take(e - 1)),
            !Self::shared_at(pre.paths@, i, pre.paths@[i].drop_last()),
        ensures
            post.node_of@.contains_key(post.paths@[i2].take(e - 1)),
            post.node_of@.contains_key(post.paths@[i2].take(e)),
            post.nodes@[post.node_of@[post.paths@[i2].take(e - 1)]].first_child
                == post.node_of@[post.paths@[i2].take(e)],
            post.nodes@[post.node_of@[post.paths@[i2].take(e)]].previous_sibling == NIL,
    {
        let p = pre.paths@;
        let np = post.paths@;
        let w = p[i];
        let l = w.len() as int;
        let r = w.drop_last();
        let prev = pre.nodes@[t].previous_sibling;
        let next = pre.nodes@[t].next_sibling;
        Self::lemma_remove_links(pre, i, t, b, j);
        pre.lemma_ordered();
        pre.lemma_leaf_facts(i);
        pre.lemma_node(w);
        lemma_take_prefix(w, l - 1);
        let q = np[i2];
        lemma_take_prefix(q, e);
        lemma_take_prefix(q, e - 1);
        reveal(TupleIndex::rule_first);
        pre.lemma_prefix_in_trie(i, r);
        pre.lemma_node(r);
        if i2 == i {
            assert(q == r);
            assert(q.take(e) =~= w.take(e));
            assert(q.take(e - 1) =~= w.take(e - 1));
            lemma_take_prefix(w, e);
            pre.lemma_prefix_in_trie(i, w.take(e));
            pre.lemma_prefix_in_trie(i, w.take(e - 1));
            pre.lemma_node(w.take(e));
            pre.lemma_node(w.take(e - 1));
            assert(p[i].take(e) == w.take(e));
            assert(p[i].take(e - 1) == w.take(e - 1));
            assert(w.take(e) != w);
            assert(w.take(e - 1) != r);
        } else {
            assert(q == p[i2]);
            assert(p[i2].take(e) == q.take(e));
            assert(p[i2].take(e - 1) == q.take(e - 1));
            if i2 - 1 == i {
                if has_prefix(w, q.take(e - 1)) {
                    if q.take(e - 1).len() < l {
                        lemma_prefix_total(w, q.take(e - 1), r);
                    } else {
                        lemma_prefix_full(w, q.take(e - 1));
                        lemma_prefix_trans(q, q.take(e - 1), w);
                    }
                }
            } else if i2 > 0 {
                assert(np[i2 - 1] == p[i2 - 1]);
            }
            pre.lemma_prefix_in_trie(i2, q.take(e));
            pre.lemma_prefix_in_trie(i2, q.take(e - 1));
            pre.lemma_node(q.take(e));
            pre.lemma_node(q.take(e - 1));
            assert(q.take(e) != w) by {
                if q.take(e) == w {
                    lemma_prefix_trans(q, q.take(e), w);
                }
            }
            assert(q.take(e - 1) != w) by {
                if q.take(e - 1) == w {
                    lemma_prefix_trans(q, q.take(e - 1), w);
                }
            }
            assert(q.take(e - 1) != r) by {
                if q.take(e - 1) == r {
                    lemma_prefix_trans(q, q.take(e - 1), r);
                    if i2 < i - 1 {
                        assert(has_prefix(p[i - 1], r));
                    } else if i2 > i + 1 {
                        assert(has_prefix(p[i + 1], r));
                    }
                }
            }
        }
    }

    #[verifier::spinoff_prover]
    proof fn lemma_remove_first_elsewhere(
        pre: Self,
        post: Self,
        i: int,
        t: int,
        b: int,
        j: int,
        i2: int,
        e: int,
    )
        requires
            Self::remove_pre(pre, i, t, b, j),
            Self::remove_step(pre, post, i, t, b, j),
            0 <= i2 < post.paths@.len(),
            1 <= e <= post.paths@[i2].len(),
            i2 == 0 || !has_prefix(post.paths@[i2 - 1], post.paths@[i2].take(e - 1)),
            Self::shared_at(pre.paths@, i, pre.paths@[i].drop_last()),
            i2 != i,
        ensures
            post.node_of@.contains_key(post.paths@[i2].take(e - 1)),
            post.node_of@.contains_key(post.paths@[i2].take(e)),
            post.nodes@[post.node_of@[post.paths@[i2].take(e - 1)]].first_child
                == post.node_of@[post.paths@[i2].take(e)],
            post.nodes@[post.node_of@[post.paths@[i2].take(e)]].previous_sibling == NIL,
    {
        let p = pre.paths@;
        let np = post.paths@;
        let w = p[i];
        let l = w.len() as int;
        let r = w.drop_last();
        let prev = pre.nodes@[t].previous_sibling;
        let next = pre.nodes@[t].next_sibling;
        Self::lemma_remove_links(pre, i, t, b, j);
        pre.lemma_ordered();
        pre.lemma_leaf_facts(i);
        pre.lemma_node(w);
        lemma_take_prefix(w, l - 1);
        let q = np[i2];
        lemma_take_prefix(q, e);
        lemma_take_prefix(q, e - 1);
        reveal(TupleIndex::rule_first);
        let oi = if i2 > i {
            i2 + 1
        } else {
            i2
        };
        assert(q == p[oi]);
        assert(p[oi].take(e) == q.take(e));
        assert(p[oi].take(e - 1) == q.take(e - 1));
        if i2 > 0 {
            assert(np[i2 - 1] == p[oi - 1]);
        }
        pre.lemma_prefix_in_trie(oi, q.take(e));
        pre.lemma_prefix_in_trie(oi, q.take(e - 1));
        pre.lemma_node(q.take(e));
        pre.lemma_node(q.take(e - 1));
        assert(q.take(e) != w) by {
            if q.take(e) == w {
                lemma_prefix_trans(q, q.take(e), w);
            }
        }
        assert(q.take(e - 1) != w) by {
            if q.take(e - 1) == w {
                lemma_prefix_trans(q, q.take(e - 1), w);
            }
        }
        let m1 = pre.node_of@[q.take(e - 1)];
        let m2 = pre.node_of@[q.take(e)];
        assert(m1 != t && m2 != t);
        if prev == NIL && m1 == pre.node_of@[r] {
            pre.lemma_prefix_in_trie(i, r);
            pre.lemma_node(r);
            assert(q.take(e - 1) == r);
            if oi < i {
                lemma_prefix_trans(q, q.take(e - 1), r);
                assert(has_prefix(p[i - 1], r));
            }
        }
        if next != NIL && m2 == next as int {
            pre.lemma_node(p[i + 1].take(l));
            assert(q.take(e) == p[i + 1].take(l));
            if oi < i {
                lemma_take_prefix(p[i + 1], l);
                lemma_prefix_trans(q, q.take(e), p[i + 1].take(l));
                assert(has_prefix(w, p[i + 1].take(l)));
                lemma_prefix_full(w, p[i + 1].take(l));
                lemma_prefix_trans(p[i + 1], p[i + 1].take(l), w);
            }
        }
    }

    #[verifier::spinoff_prover]
    #[verifier::rlimit(30)]
    proof fn lemma_remove_first_at(
        pre: Self,
        post: Self,
        i: int,
        t: int,
        b: int,
        j: int,
        i2: int,
        e: int,
    )
        requires
            Self::remove_pre(pre, i, t, b, j),
            Self::remove_step(pre, post, i, t, b, j),
            0 <= i2 < post.paths@.len(),
            1 <= e <= post.paths@[i2].len(),
            i2 == 0 || !has_prefix(post.paths@[i2 - 1], post.paths@[i2].take(e - 1)),
            Self::shared_at(pre.paths@, i, pre.paths@[i].drop_last()),
            i2 == i,
        ensures
            post.node_of@.contains_key(post.paths@[i2].take(e - 1)),
            post.node_of@.contains_key(post.paths@[i2].take(e)),
            post.nodes@[post.node_of@[post.paths@[i2].take(e - 1)]].first_child
                == post.node_of@[post.paths@[i2].take(e)],
            post.nodes@[post.node_of@[post.paths@[i2].take(e)]].previous_sibling == NIL,
    {
        let p = pre.paths@;
        let np = post.paths@;
        let w = p[i];
        let l = w.len() as int;
        let r = w.drop_last();
        let prev = pre.nodes@[t].previous_sibling;
        let next = pre.nodes@[t].next_sibling;
        Self::lemma_remove_links(pre, i, t, b, j);
        pre.lemma_ordered();
        pre.lemma_leaf_facts(i);
        pre.lemma_node(w);
        lemma_take_prefix(w, l - 1);
        let q = np[i2];
        lemma_take_prefix(q, e);
        lemma_take_prefix(q, e - 1);
        reveal(TupleIndex::rule_first);
        reveal(TupleIndex::rule_adjacent);
        assert(q == p[i + 1]);
        assert(p[i + 1].take(e) == q.take(e));
        assert(p[i + 1].take(e - 1) == q.take(e - 1));
        if i > 0 {
            assert(np[i - 1] == p[i - 1]);
        }
        pre.lemma_prefix_in_trie(i + 1, q.take(e));
        pre.lemma_prefix_in_trie(i + 1, q.take(e - 1));
        pre.lemma_node(q.take(e));
        pre.lemma_node(q.take(e - 1));
        assert(q.take(e) != w) by {
            if q.take(e) == w {
                lemma_prefix_trans(q, q.take(e), w);
            }
        }
        assert(q.take(e - 1) != w) by {
            if q.take(e - 1) == w {
                lemma_prefix_trans(q, q.take(e - 1), w);
            }
        }
        let m1 = pre.node_of@[q.take(e - 1)];
        let m2 = pre.node_of@[q.take(e)];
        assert(m1 != t && m2 != t);
        if !has_prefix(w, q.take(e - 1)) {
            if prev == NIL && m1 == pre.node_of@[r] {
                pre.lemma_prefix_in_trie(i, r);
                pre.lemma_node(r);
                assert(q.take(e - 1) == r);
            }
            if next != NIL && m2 == next as int {
                pre.lemma_node(p[i + 1].take(l));
                assert(q.take(e) == p[i + 1].take(l));
                assert(e == l);
                assert(q.take(e - 1) =~= r) by {
                    lemma_take_prefix(q, l - 1);
                    assert(q.take(l).take(l - 1) =~= q.take(l - 1));
                }
            }
        } else {
            lemma_take_prefix(w, e - 1);
            lemma_prefix_total(w, q.take(e - 1), w.take(e - 1));
            lemma_prefix_full(w.take(e - 1), q.take(e - 1));
            assert(p[i].take(e - 1) == w.take(e - 1));
            if has_prefix(w, q.take(e)) {
                lemma_take_prefix(w, e);
                lemma_prefix_total(w, q.take(e), w.take(e));
                lemma_prefix_full(w.take(e), q.take(e));
                assert(p[i].take(e) == w.take(e));
                if e == l {
                    assert(w.take(e) =~= w);
                }
                pre.lemma_prefix_in_trie(i, r);
                pre.lemma_node(r);
                if m1 == pre.node_of@[r] {
                    assert(q.take(e - 1) == r);
                }
                if next != NIL && m2 == next as int {
                    pre.lemma_node(p[i + 1].take(l));
                    assert(q.take(e) == p[i + 1].take(l));
                }
            } else if e == l {
                lemma_prefix_total(w, q.take(e - 1), r);
                lemma_prefix_full(r, q.take(e - 1));
                assert(has_prefix(q, r));
                pre.lemma_prefix_in_trie(i, r);
                pre.lemma_node(r);
                pre.lemma_node(p[i + 1].take(l));
                assert(q.take(e) == p[i + 1].take(l));
                assert(w.take(e - 1) == r);
            } else {
                lemma_prefix_total(w, q.take(e - 1), r);
                if has_prefix(q, r) {
                    lemma_prefix_total(q, q.take(e), r);
                    lemma_prefix_trans(w, r, q.take(e));
                } else {
                    assert(i > 0 && has_prefix(p[i - 1], r));
                    lemma_prefix_trans(p[i - 1], r, q.take(e - 1));
                }
            }
        }
    }

    /// After a removal consecutive leaves are still adjacent siblings where
    /// they part.
    proof fn lemma_remove_rule_adjacent(pre: Self, post: Self, i: int, t: int, b: int, j: int)
        requires
            Self::remove_pre(pre, i, t, b, j),
            Self::remove_step(pre, post, i, t, b, j),
        ensures
            post.rule_adjacent(),
    {
        let np = post.paths@;
        reveal(TupleIndex::rule_adjacent);
        assert forall|i2: int, e: int|
            #![trigger np[i2].take(e)]
            0 < i2 < np.len() && 1 <= e <= np[i2].len() && has_prefix(np[i2 - 1], np[i2].take(e - 1))
                && !has_prefix(np[i2 - 1], np[i2].take(e)) implies {
            &&& e <= np[i2 - 1].len()
            &&& post.nodes@[post.node_of@[np[i2].take(e)]].previous_sibling == post.node_of@[np[i2
                - 1].take(e)]
            &&& post.nodes@[post.node_of@[np[i2 - 1].take(e)]].next_sibling == post.node_of@[np[i2].take(
                e,
            )]
        } by {
            let p = pre.paths@;
            let w = p[i];
            if !Self::shared_at(p, i, w.drop_last()) {
                Self::lemma_remove_adjacent_unshared(pre, post, i, t, b, j, i2, e);
            } else if i2 == i {
                Self::lemma_remove_adjacent_span(pre, post, i, t, b, j, i2, e);
            } else {
                Self::lemma_remove_adjacent_elsewhere(pre, post, i, t, b, j, i2, e);
            }
        }
    }

    proof fn lemma_remove_adjacent_unshared(
        pre: Self,
        post: Self,
        i: int,
        t: int,
        b: int,
        j: int,
        i2: int,
        e: int,
    )
        requires
            Self::remove_pre(pre, i, t, b, j),
            Self::remove_step(pre, post, i, t, b, j),
            0 < i2 < post.paths@.len(),
            1 <= e <= post.paths@[i2].len(),
            has_prefix(post.paths@[i2 - 1], post.paths@[i2].take(e - 1)),
            !has_prefix(post.paths@[i2 - 1], post.paths@[i2].take(e)),
            !Self::shared_at(pre.paths@, i, pre.paths@[i].drop_last()),
        ensures
            e <= post.paths@[i2 - 1].len(),
            post.node_of@.contains_key(post.paths@[i2].take(e)),
            post.node_of@.contains_key(post.paths@[i2 - 1].take(e)),
            post.nodes@[post.node_of@[post.paths@[i2].take(e)]].previous_sibling
                == post.node_of@[post.paths@[i2 - 1].take(e)],
            post.nodes@[post.node_of@[post.paths@[i2 - 1].take(e)]].next_sibling
                == post.node_of@[post.paths@[i2].take(e)],
    {
        if i2 == i {
            Self::lemma_remove_adjacent_unshared_at(pre, post, i, t, b, j, i2, e);
        } else if i2 - 1 == i {
            Self::lemma_remove_adjacent_unshared_after(pre, post, i, t, b, j, i2, e);
        } else {
            Self::lemma_remove_adjacent_unshared_other(pre, post, i, t, b, j, i2, e);
        }
    }

    #[verifier::spinoff_prover]
    #[verifier::rlimit(30)]
    proof fn lemma_remove_adjacent_unshared_at(
        pre: Self,
        post: Self,
        i: int,
        t: int,
        b: int,
        j: int,
        i2: int,
        e: int,
    )
        requires
            Self::remove_pre(pre, i, t, b, j),
            Self::remove_step(pre, post, i, t, b, j),
            0 < i2 < post.paths@.len(),
            1 <= e <= post.paths@[i2].len(),
            has_prefix(post.paths@[i2 - 1], post.paths@[i2].take(e - 1)),
            !has_prefix(post.paths@[i2 - 1], post.paths@[i2].take(e)),
            !Self::shared_at(pre.paths@, i, pre.paths@[i].drop_last()),
            i2 == i,
        ensures
            e <= post.paths@[i2 - 1].len(),
            post.node_of@.contains_key(post.paths@[i2].take(e)),
            post.node_of@.contains_key(post.paths@[i2 - 1].take(e)),
            post.nodes@[post.node_of@[post.paths@[i2].take(e)]].previous_sibling
                == post.node_of@[post.paths@[i2 - 1].take(e)],
            post.nodes@[post.node_of@[post.paths@[i2 - 1].take(e)]].next_sibling
                == post.node_of@[post.paths@[i2].take(e)],
    {
        let p = pre.paths@;
        let np = post.paths@;
        let w = p[i];
        let l = w.len() as int;
        let r = w.drop_last();
        let prev = pre.nodes@[t].previous_sibling;
        let next = pre.nodes@[t].next_sibling;
        Self::lemma_remove_links(pre, i, t, b, j);
        pre.lemma_ordered();
        pre.lemma_leaf_facts(i);
        pre.lemma_node(w);
        lemma_take_prefix(w, l - 1);
        let q = np[i2];
        let a = np[i2 - 1];
        lemma_take_prefix(q, e);
        lemma_take_prefix(q, e - 1);
        reveal(TupleIndex::rule_adjacent);
        pre.lemma_prefix_in_trie(i, r);
        pre.lemma_node(r);
            assert(q == r);
            assert(a == p[i - 1]);
            assert(q.take(e) =~= w.take(e));
            assert(q.take(e - 1) =~= w.take(e - 1));
            lemma_take_prefix(w, e);
            assert(p[i].take(e) == w.take(e));
            assert(p[i].take(e - 1) == w.take(e - 1));
            lemma_take_prefix(a, e);
            pre.lemma_prefix_in_trie(i, w.take(e));
            pre.lemma_node(w.take(e));
            assert(w.take(e) != w);
            assert(p[i - 1].take(e) == a.take(e));
            pre.lemma_prefix_in_trie(i - 1, a.take(e));
            pre.lemma_node(a.take(e));
            assert(a.take(e) != w) by {
                if a.take(e) == w {
                    lemma_prefix_trans(a, a.take(e), w);
                }
            }
    }

    #[verifier::spinoff_prover]
    #[verifier::rlimit(30)]
    proof fn lemma_remove_adjacent_unshared_after(
        pre: Self,
        post: Self,
        i: int,
        t: int,
        b: int,
        j: int,
        i2: int,
        e: int,
    )
        requires
            Self::remove_pre(pre, i, t, b, j),
            Self::remove_step(pre, post, i, t, b, j),
            0 < i2 < post.paths@.len(),
            1 <= e <= post.paths@[i2].len(),
            has_prefix(post.paths@[i2 - 1], post.paths@[i2].take(e - 1)),
            !has_prefix(post.paths@[i2 - 1], post.paths@[i2].take(e)),
            !Self::shared_at(pre.paths@, i, pre.paths@[i].drop_last()),
            i2 - 1 == i,
        ensures
            e <= post.paths@[i2 - 1].len(),
            post.node_of@.contains_key(post.paths@[i2].take(e)),
            post.node_of@.contains_key(post.paths@[i2 - 1].take(e)),
            post.nodes@[post.node_of@[post.paths@[i2].take(e)]].previous_sibling
                == post.node_of@[post.paths@[i2 - 1].take(e)],
            post.nodes@[post.node_of@[post.paths@[i2 - 1].take(e)]].next_sibling
                == post.node_of@[post.paths@[i2].take(e)],
    {
        let p = pre.paths@;
        let np = post.paths@;
        let w = p[i];
        let l = w.len() as int;
        let r = w.drop_last();
        let prev = pre.nodes@[t].previous_sibling;
        let next = pre.nodes@[t].next_sibling;
        Self::lemma_remove_links(pre, i, t, b, j);
        pre.lemma_ordered();
        pre.lemma_leaf_facts(i);
        pre.lemma_node(w);
        lemma_take_prefix(w, l - 1);
        let q = np[i2];
        let a = np[i2 - 1];
        lemma_take_prefix(q, e);
        lemma_take_prefix(q, e - 1);
        reveal(TupleIndex::rule_adjacent);
        pre.lemma_prefix_in_trie(i, r);
        pre.lemma_node(r);
            assert(a == r);
            assert(q == p[i + 1]);
            assert(p[i + 1].take(e) == q.take(e));
            assert(p[i + 1].take(e - 1) == q.take(e - 1));
            lemma_prefix_trans(w, r, q.take(e - 1));
            if has_prefix(w, q.take(e)) {
                if e <= l - 1 {
                    lemma_prefix_total(w, q.take(e), r);
                } else {
                    lemma_prefix_full(w, q.take(e));
                    lemma_prefix_trans(q, q.take(e), w);
                }
            }
            if e == l {
                lemma_prefix_full(r, q.take(e - 1));
                lemma_prefix_trans(q, q.take(e - 1), r);
            }
            assert(r.take(e) =~= w.take(e));
            lemma_take_prefix(w, e);
            assert(p[i].take(e) == w.take(e));
            pre.lemma_prefix_in_trie(i, w.take(e));
            pre.lemma_node(w.take(e));
            pre.lemma_prefix_in_trie(i + 1, q.take(e));
            pre.lemma_node(q.take(e));
            assert(q.take(e) != w) by {
                if q.take(e) == w {
                    lemma_prefix_trans(q, q.take(e), w);
                }
            }
    }

    #[verifier::spinoff_prover]
    #[verifier::rlimit(30)]
    proof fn lemma_remove_adjacent_unshared_other(
        pre: Self,
        post: Self,
        i: int,
        t: int,
        b: int,
        j: int,
        i2: int,
        e: int,
    )
        requires
            Self::remove_pre(pre, i, t, b, j),
            Self::remove_step(pre, post, i, t, b, j),
            0 < i2 < post.paths@.len(),
            1 <= e <= post.paths@[i2].len(),
            has_prefix(post.paths@[i2 - 1], post.paths@[i2].take(e - 1)),
            !has_prefix(post.paths@[i2 - 1], post.paths@[i2].take(e)),
            !Self::shared_at(pre.paths@, i, pre.paths@[i].drop_last()),
            i2 != i,
            i2 - 1 != i,
        ensures
            e <= post.paths@[i2 - 1].len(),
            post.node_of@.contains_key(post.paths@[i2].take(e)),
            post.node_of@.contains_key(post.paths@[i2 - 1].take(e)),
            post.nodes@[post.node_of@[post.paths@[i2].take(e)]].previous_sibling
                == post.node_of@[post.paths@[i2 - 1].take(e)],
            post.nodes@[post.node_of@[post.paths@[i2 - 1].take(e)]].next_sibling
                == post.node_of@[post.paths@[i2].take(e)],
    {
        let p = pre.paths@;
        let np = post.paths@;
        let w = p[i];
        let l = w.len() as int;
        let r = w.drop_last();
        let prev = pre.nodes@[t].previous_sibling;
        let next = pre.nodes@[t].next_sibling;
        Self::lemma_remove_links(pre, i, t, b, j);
        pre.lemma_ordered();
        pre.lemma_leaf_facts(i);
        pre.lemma_node(w);
        lemma_take_prefix(w, l - 1);
        let q = np[i2];
        let a = np[i2 - 1];
        lemma_take_prefix(q, e);
        lemma_take_prefix(q, e - 1);
        reveal(TupleIndex::rule_adjacent);
        pre.lemma_prefix_in_trie(i, r);
        pre.lemma_node(r);
            assert(q == p[i2]);
            assert(a == p[i2 - 1]);
            assert(p[i2].take(e) == q.take(e));
            assert(p[i2].take(e - 1) == q.take(e - 1));
            lemma_take_prefix(a, e);
            assert(p[i2 - 1].take(e) == a.take(e));
            pre.lemma_prefix_in_trie(i2, q.take(e));
            pre.lemma_node(q.take(e));
            pre.lemma_prefix_in_trie(i2 - 1, a.take(e));
            pre.lemma_node(a.take(e));
            assert(q.take(e) != w) by {
                if q.take(e) == w {
                    lemma_prefix_trans(q, q.take(e), w);
                }
            }
            assert(a.take(e) != w) by {
                if a.take(e) == w {
                    lemma_prefix_trans(a, a.take(e), w);
                }
            }
    }

    #[verifier::spinoff_prover]
    #[verifier::rlimit(30)]
    proof fn lemma_remove_adjacent_elsewhere(
        pre: Self,
        post: Self,
        i: int,
        t: int,
        b: int,
        j: int,
        i2: int,
        e: int,
    )
        requires
            Self::remove_pre(pre, i, t, b, j),
            Self::remove_step(pre, post, i, t, b, j),
            0 < i2 < post.paths@.len(),
            1 <= e <= post.paths@[i2].len(),
            has_prefix(post.paths@[i2 - 1], post.paths@[i2].take(e - 1)),
            !has_prefix(post.paths@[i2 - 1], post.paths@[i2].take(e)),
            Self::shared_at(pre.paths@, i, pre.paths@[i].drop_last()),
            i2 != i,
        ensures
            e <= post.paths@[i2 - 1].len(),
            post.node_of@.contains_key(post.paths@[i2].take(e)),
            post.node_of@.contains_key(post.paths@[i2 - 1].take(e)),
            post.nodes@[post.node_of@[post.paths@[i2].take(e)]].previous_sibling
                == post.node_of@[post.paths@[i2 - 1].take(e)],
            post.nodes@[post.node_of@[post.paths@[i2 - 1].take(e)]].next_sibling
                == post.node_of@[post.paths@[i2].take(e)],
    {
        let p = pre.paths@;
        let np = post.paths@;
        let w = p[i];
        let l = w.len() as int;
        let r = w.drop_last();
        let prev = pre.nodes@[t].previous_sibling;
        let next = pre.nodes@[t].next_sibling;
        Self::lemma_remove_links(pre, i, t, b, j);
        pre.lemma_ordered();
        pre.lemma_leaf_facts(i);
        pre.lemma_node(w);
        lemma_take_prefix(w, l - 1);
        let q = np[i2];
        let a = np[i2 - 1];
        lemma_take_prefix(q, e);
        lemma_take_prefix(q, e - 1);
        reveal(TupleIndex::rule_adjacent);
        let oi = if i2 > i {
            i2 + 1
        } else {
            i2
        };
        assert(q == p[oi]);
        assert(a == p[oi - 1]);
        assert(oi != i && oi - 1 != i);
        assert(p[oi].take(e) == q.take(e));
        assert(p[oi].take(e - 1) == q.take(e - 1));
        lemma_take_prefix(a, e);
        assert(p[oi - 1].take(e) == a.take(e));
        pre.lemma_prefix_in_trie(oi, q.take(e));
        pre.lemma_node(q.take(e));
        pre.lemma_prefix_in_trie(oi - 1, a.take(e));
        pre.lemma_node(a.take(e));
        assert(q.take(e) != w) by {
            if q.take(e) == w {
                lemma_prefix_trans(q, q.take(e), w);
            }
        }
        assert(a.take(e) != w) by {
            if a.take(e) == w {
                lemma_prefix_trans(a, a.take(e), w);
            }
        }
        let mq = pre.node_of@[q.take(e)];
        let ma = pre.node_of@[a.take(e)];
        assert(mq != t && ma != t);
        assert(pre.nodes@[mq].previous_sibling == ma);
        assert(pre.nodes@[ma].next_sibling == mq);
    }

    #[verifier::spinoff_prover]
    #[verifier::rlimit(40)]
    proof fn lemma_remove_adjacent_span(
        pre: Self,
        post: Self,
        i: int,
        t: int,
        b: int,
        j: int,
        i2: int,
        e: int,
    )
        requires
            Self::remove_pre(pre, i, t, b, j),
            Self::remove_step(pre, post, i, t, b, j),
            0 < i2 < post.paths@.len(),
            1 <= e <= post.paths@[i2].len(),
            has_prefix(post.paths@[i2 - 1], post.paths@[i2].take(e - 1)),
            !has_prefix(post.paths@[i2 - 1], post.paths@[i2].take(e)),
            Self::shared_at(pre.paths@, i, pre.paths@[i].drop_last()),
            i2 == i,
        ensures
            e <= post.paths@[i2 - 1].len(),
            post.node_of@.contains_key(post.paths@[i2].take(e)),
            post.node_of@.contains_key(post.paths@[i2 - 1].take(e)),
            post.nodes@[post.node_of@[post.paths@[i2].take(e)]].previous_sibling
                == post.node_of@[post.paths@[i2 - 1].take(e)],
            post.nodes@[post.node_of@[post.paths@[i2 - 1].take(e)]].next_sibling
                == post.node_of@[post.paths@[i2].take(e)],
    {
        let p = pre.paths@;
        let np = post.paths@;
        let w = p[i];
        let l = w.len() as int;
        let r = w.drop_last();
        let prev = pre.nodes@[t].previous_sibling;
        let next = pre.nodes@[t].next_sibling;
        Self::lemma_remove_links(pre, i, t, b, j);
        pre.lemma_ordered();
        pre.lemma_leaf_facts(i);
        pre.lemma_node(w);
        lemma_take_prefix(w, l - 1);
        let q = np[i2];
        let a = np[i2 - 1];
        lemma_take_prefix(q, e);
        lemma_take_prefix(q, e - 1);
        reveal(TupleIndex::rule_adjacent);
        assert(q == p[i + 1]);
        assert(a == p[i - 1]);
        assert(p[i + 1].take(e) == q.take(e));
        assert(p[i + 1].take(e - 1) == q.take(e - 1));
        lemma_take_prefix(a, e);
        assert(p[i - 1].take(e) == a.take(e));
        if e > a.len() {
            lemma_prefix_full(a, q.take(e - 1));
            lemma_prefix_trans(q, q.take(e - 1), a);
        }
        // `w` lies between `a` and `q`, so it shares their common prefix.
        assert(has_prefix(w, q.take(e - 1)));
        lemma_take_prefix(w, e - 1);
        pre.lemma_prefix_in_trie(i + 1, q.take(e));
        pre.lemma_node(q.take(e));
        pre.lemma_prefix_in_trie(i - 1, a.take(e));
        pre.lemma_node(a.take(e));
        assert(q.take(e) != w) by {
            if q.take(e) == w {
                lemma_prefix_trans(q, q.take(e), w);
            }
        }
        assert(a.take(e) != w) by {
            if a.take(e) == w {
                lemma_prefix_trans(a, a.take(e), w);
            }
        }
        let mq = pre.node_of@[q.take(e)];
        let ma = pre.node_of@[a.take(e)];
        assert(mq != t && ma != t);
        if e > l {
            lemma_prefix_full(w, w.take(e - 1));
        }
        lemma_take_prefix(w, e);
        assert(p[i].take(e) == w.take(e));
        assert(p[i].take(e - 1) == w.take(e - 1));
        lemma_prefix_total(w, q.take(e - 1), w.take(e - 1));
        lemma_prefix_full(w.take(e - 1), q.take(e - 1));
        assert(has_prefix(a, w.take(e - 1)));
        if has_prefix(w, a.take(e)) {
            // `w` goes on with `a`: it parts from `q` at `e`.
            lemma_prefix_total(w, a.take(e), w.take(e));
            lemma_prefix_full(w.take(e), a.take(e));
            assert(!has_prefix(w, q.take(e)));
            assert(pre.nodes@[mq].previous_sibling == pre.node_of@[w.take(e)]);
            assert(pre.nodes@[pre.node_of@[w.take(e)]].next_sibling == mq);
            if e == l {
                assert(w.take(e) =~= w);
                lemma_prefix_trans(a, a.take(e), w);
            }
            if prev != NIL && ma == prev as int {
                pre.lemma_node(p[i - 1].take(l));
                assert(a.take(e) == p[i - 1].take(l));
            }
            if next != NIL && mq == next as int {
                pre.lemma_node(p[i + 1].take(l));
                assert(q.take(e) == p[i + 1].take(l));
            }
        } else if has_prefix(w, q.take(e)) {
            // `w` goes on with `q`: it parts from `a` at `e`.
            lemma_prefix_total(w, q.take(e), w.take(e));
            lemma_prefix_full(w.take(e), q.take(e));
            assert(pre.nodes@[pre.node_of@[w.take(e)]].previous_sibling == ma);
            assert(pre.nodes@[ma].next_sibling == pre.node_of@[w.take(e)]);
            if e == l {
                assert(w.take(e) =~= w);
                lemma_prefix_trans(q, q.take(e), w);
            }
            if prev != NIL && ma == prev as int {
                pre.lemma_node(p[i - 1].take(l));
                assert(a.take(e) == p[i - 1].take(l));
            }
            if next != NIL && mq == next as int {
                pre.lemma_node(p[i + 1].take(l));
                assert(q.take(e) == p[i + 1].take(l));
            }
        } else {
            // `a`, `w` and `q` part at `e`: `w` is the leaf removed between them.
            assert(pre.nodes@[ma].next_sibling == pre.node_of@[w.take(e)]);
            assert(pre.nodes@[mq].previous_sibling == pre.node_of@[w.take(e)]);
            if e == l {
                assert(w.take(e) =~= w);
                assert(w.take(e - 1) == r);
                pre.lemma_node(p[i - 1].take(l));
                pre.lemma_node(p[i + 1].take(l));
            } else {
                pre.lemma_prefix_in_trie(i, w.take(e));
                pre.lemma_node(w.take(e));
                assert(w.take(e) != w);
                lemma_prefix_total(w, w.take(e - 1), r);
                if has_prefix(a, r) {
                    lemma_prefix_total(a, a.take(e), r);
                    lemma_prefix_trans(w, r, a.take(e));
                } else if has_prefix(q, r) {
                    lemma_prefix_total(q, q.take(e), r);
                    lemma_prefix_trans(w, r, q.take(e));
                }
            }
        }
    }

    proof fn lemma_remove_node_rules(pre: Self, post: Self, i: int, t: int, b: int, j: int)
        requires
            Self::remove_pre(pre, i, t, b, j),
            Self::remove_step(pre, post, i, t, b, j),
        ensures
            post.node_rules(),
    {
        Self::lemma_remove_nodes_consistent(pre, post, i, t, b, j);
        Self::lemma_remove_prefixes_in_trie(pre, post, i, t, b, j);
        Self::lemma_remove_nodes_on_paths(pre, post, i, t, b, j);
        Self::lemma_remove_paths_ordered(pre, post, i, t, b, j);
        reveal(TupleIndex::node_rules);
    }

    proof fn lemma_remove_inv(pre: Self, post: Self, i: int, t: int, b: int, j: int)
        requires
            Self::remove_pre(pre, i, t, b, j),
            Self::remove_step(pre, post, i, t, b, j),
        ensures
            post.inv(),
    {
        reveal(TupleIndex::chain_rules);
        Self::lemma_remove_node_rules(pre, post, i, t, b, j);
        Self::lemma_remove_rule_first(pre, post, i, t, b, j);
        Self::lemma_remove_rule_adjacent(pre, post, i, t, b, j);
        Self::lemma_remove_rule_last(pre, post, i, t, b, j);
        Self::lemma_remove_rule_leaf(pre, post, i, t, b, j);
        Self::lemma_remove_chain_rules(pre, post, i, t, b, j);
        Self::lemma_remove_free_rules(pre, post, i, t, b, j);
    }

    /// A live node other than the root is counted: the free slots, the root
    /// and that node are distinct slots.
    proof fn lemma_free_bound(&self, t: int)
        requires
            self.inv(),
            self.path_of@.contains_key(t),
            t != self.root,
        ensures
            self.number_of_nodes >= 1,
    {
        reveal(TupleIndex::free_rules);
        self.lemma_live(t);
        self.lemma_root();
        let n = self.nodes@.len() as int;
        let root = self.root as int;
        let fs = self.free@.map_values(|x: usize| x as int);
        assert forall|a: int, c: int| 0 <= a < fs.len() && 0 <= c < fs.len() && a != c implies fs[a]
            != fs[c] by {
            assert(self.free@[a] != self.free@[c]);
        }
        assert(fs.no_duplicates());
        fs.unique_seq_to_set();
        let range = vstd::set_lib::set_int_range(0, n).remove(t).remove(root);
        vstd::set_lib::lemma_int_range(0, n);
        assert forall|x: int| fs.to_set().contains(x) implies range.contains(x) by {
            let k = choose|k: int| 0 <= k < fs.len() && fs[k] == x;
            assert(self.free@[k] < self.nodes@.len());
            assert(!self.path_of@.contains_key(self.free@[k] as int));
        }
        vstd::set_lib::lemma_len_subset(fs.to_set(), range);
    }

    /// `post` is `pre` with the node of path `i` removed: the path goes, or is
    /// cut back to its parent's when no neighbour shares that.
    spec fn removed(pre: Self, post: Self, i: int) -> bool {
        let w = pre.paths@[i];
        &&& post.indexing_sequence@ == pre.indexing_sequence@
        &&& post.root == pre.root
        &&& post.nodes@.len() == pre.nodes@.len()
        &&& post.paths@ == Self::paths_after_remove(pre.paths@, i)
        &&& post.node_of@ == pre.node_of@.remove(w)
        &&& forall|m: int|
            0 <= m < pre.nodes@.len() && m != pre.node_of@[w] ==> (#[trigger] post.nodes@[m]).tuple_index
                == pre.nodes@[m].tuple_index
    }

    /// After removing the node of path `i`, its parent is the root or keeps a
    /// child exactly when the path's entry went; otherwise the parent is the
    /// new leaf of path `i`.
    proof fn lemma_remove_outcome(pre: Self, post: Self, i: int)
        requires
            pre.inv(),
            post.inv(),
            0 <= i < pre.paths@.len(),
            Self::removed(pre, post, i),
        ensures
            ({
                let w = pre.paths@[i];
                let r = w.drop_last();
                let parent = pre.node_of@[r];
                &&& w.len() >= 1
                &&& pre.node_of@.contains_key(r)
                &&& post.node_of@.contains_key(r)
                &&& post.node_of@[r] == parent
                &&& pre.nodes@[pre.node_of@[w]].parent == parent
                &&& 0 <= parent < post.nodes@.len()
                &&& Self::shared_at(pre.paths@, i, r) ==> (parent == pre.root
                    || post.nodes@[parent].first_child != NIL)
                &&& !Self::shared_at(pre.paths@, i, r) ==> {
                    &&& parent != pre.root
                    &&& post.paths@[i] == r
                    &&& post.nodes@[parent].first_child == NIL
                }
            }),
    {
        let p = pre.paths@;
        let np = post.paths@;
        let w = p[i];
        let r = w.drop_last();
        pre.lemma_leaf_facts(i);
        pre.lemma_node(w);
        assert(r.len() < w.len());
        assert(r != w);
        post.lemma_node(r);
        let parent = pre.node_of@[r];
        if Self::shared_at(p, i, r) {
            assert(np == p.remove(i));
            if r.len() == 0 {
                assert(r =~= Seq::<u64>::empty());
                pre.lemma_root();
            } else {
                let k = if i > 0 && has_prefix(p[i - 1], r) {
                    assert(np[i - 1] == p[i - 1]);
                    i - 1
                } else {
                    assert(np[i] == p[i + 1]);
                    i
                };
                assert(has_prefix(np[k], r));
                let s = lemma_block_start_exists(np, r, k);
                let d = r.len() as int;
                let si = if s < i {
                    s
                } else {
                    s + 1
                };
                assert(np[s] == p[si]);
                assert(si != i);
                if np[s].len() == d {
                    lemma_prefix_full(np[s], r);
                    assert(has_prefix(w, r)) by {
                        lemma_take_prefix(w, d);
                        assert(w.take(d) =~= r);
                    }
                    assert(has_prefix(p[i], p[si]));
                }
                assert(np[s].take(d) =~= r);
                post.lemma_first_child_step(s, d);
                post.lemma_node(np[s].take(d + 1));
            }
        } else {
            assert(np == p.update(i, r));
            reveal(TupleIndex::rule_leaf);
            assert(post.nodes@[post.node_of@[np[i]]].first_child == NIL);
        }
    }

    /// Unlinks the node of path `i`, a leaf, from its siblings and from its
    /// bucket's collision chain, and frees its slot.
    #[verifier::rlimit(40)]
    fn remove_trie_node(&mut self, trie_node: usize, Ghost(i): Ghost<int>)
        requires
            old(self).inv(),
            0 <= i < old(self).paths@.len(),
            old(self).node_of@[old(self).paths@[i]] == trie_node as int,
        ensures
            final(self).inv(),
            Self::removed(*old(self), *final(self), i),
    {
        let ghost pre = *self;
        let ghost t = trie_node as int;
        let ghost w = pre.paths@[i];
        proof {
            pre.lemma_leaf_facts(i);
            pre.lemma_node(w);
            pre.lemma_free_bound(t);
        }
        let ghost j0 = pre.lemma_chain_member(t);
        let parent = self.nodes[trie_node].parent;
        let key = self.nodes[trie_node].key;
        let bucket = self.bucket_index(key, parent);
        let ghost b = bucket as int;
        let ghost chain = pre.chains@[b];
        proof {
            pre.lemma_chain_head(b);
            pre.lemma_chain_entry(b, 0);
        }
        let mut child = self.buckets[bucket];
        let mut previous_child = NIL;
        let ghost mut jj: int = 0;
        while child != trie_node
            invariant
                *self == pre,
                pre.inv(),
                0 <= b < pre.chains@.len(),
                chain == pre.chains@[b],
                0 <= j0 < chain.len(),
                chain[j0] == t,
                t == trie_node as int,
                b == bucket as int,
                0 <= jj <= j0,
                child as int == chain[jj],
                previous_child == if jj == 0 {
                    NIL
                } else {
                    chain[jj - 1] as usize
                },
            decreases j0 - jj,
        {
            proof {
                pre.lemma_chain_entry(b, jj);
                pre.lemma_chain_entry(b, jj + 1);
            }
            let next = self.nodes[child].next_entry;
            previous_child = child;
            child = next;
            proof {
                jj = jj + 1;
            }
        }
        proof {
            reveal(TupleIndex::chain_rules);
            assert(chain[jj] == chain[j0]);
            assert(jj == j0);
            Self::lemma_remove_links(pre, i, t, b, j0);
            pre.lemma_node(w.drop_last());
            pre.lemma_chain_entry(b, j0);
            if j0 > 0 {
                pre.lemma_chain_entry(b, j0 - 1);
            }
        }
        let previous_sibling = self.nodes[trie_node].previous_sibling;
        let next_sibling = self.nodes[trie_node].next_sibling;
        let next_entry = self.nodes[trie_node].next_entry;
        proof {
            if previous_sibling != NIL {
                pre.lemma_live(previous_sibling as int);
            }
            if next_sibling != NIL {
                pre.lemma_live(next_sibling as int);
            }
        }
        if previous_sibling == NIL {
            let mut node = self.nodes[parent];
            node.first_child = next_sibling;
            self.nodes.set(parent, node);
        } else {
            let mut node = self.nodes[previous_sibling];
            node.next_sibling = next_sibling;
            self.nodes.set(previous_sibling, node);
        }
        if next_sibling != NIL {
            let mut node = self.nodes[next_sibling];
            node.previous_sibling = previous_sibling;
            self.nodes.set(next_sibling, node);
        }
        if previous_child == NIL {
            self.buckets.set(bucket, next_entry);
        } else {
            let mut node = self.nodes[previous_child];
            node.next_entry = next_entry;
            self.nodes.set(previous_child, node);
        }
        self.free.push(trie_node);
        self.number_of_nodes = self.number_of_nodes - 1;
        self.paths = Ghost(Self::paths_after_remove(pre.paths@, i));
        self.node_of = Ghost(pre.node_of@.remove(w));
        self.path_of = Ghost(pre.path_of@.remove(t));
        self.chains = Ghost(pre.chains@.update(b, pre.chains@[b].remove(j0)));
        proof {
            assert(Self::remove_step(pre, *self, i, t, b, j0));
            Self::lemma_remove_inv(pre, *self, i, t, b, j0);
        }
    }

    /// Removes the key path of `tuple` from the index, pruning the nodes that
    /// led to it alone, and returns the tuple index recorded for it, or `NONE`
    /// when the key path is not indexed.
    #[verifier::rlimit(40)]
    pub fn remove_tuple(&mut self, tuple: &[T]) -> (r: i32)
        requires
            old(self).wf(),
            forall|j: int|
                0 <= j < old(self).spec_indexing_sequence().len() ==> #[trigger] old(
                    self,
                ).spec_indexing_sequence()[j] < tuple@.len(),
        ensures
            final(self).wf(),
            final(self).spec_indexing_sequence() == old(self).spec_indexing_sequence(),
            final(self).entries() == without_path(
                old(self).entries(),
                key_path(old(self).spec_indexing_sequence(), tuple@),
            ),
            r == lookup(old(self).entries(), key_path(old(self).spec_indexing_sequence(), tuple@)),
    {
        let ghost pre = *self;
        let ghost p = key_path(self.indexing_sequence@, tuple@);
        proof {
            assert(self.spec_indexing_sequence() == self.indexing_sequence@);
        }
        let leaf = self.find_leaf(tuple);
        if leaf == NIL {
            proof {
                if exists|i: int| 0 <= i < self.paths@.len() && #[trigger] self.paths@[i] == p {
                    assert(leaf < self.nodes@.len());
                    reveal(TupleIndex::free_rules);
                }
                assert forall|i: int| 0 <= i < self.entries().len() implies self.entries()[i].0
                    != p by {
                    assert(self.entries()[i].0 == self.paths@[i]);
                }
            }
            return NONE;
        }
        let ghost i = choose|i: int| 0 <= i < pre.paths@.len() && #[trigger] pre.paths@[i] == p;
        let tuple_index = self.nodes[leaf].tuple_index;
        let mut trie_node = leaf;
        let ghost mut d: int = p.len() as int;
        proof {
            pre.lemma_leaf_facts(i);
            assert(p.take(d) =~= p);
            assert(pre.paths@.update(i, p.take(d)) =~= pre.paths@);
            assert forall|k: int| 0 <= k < pre.paths@.len() && k != i implies self.node_of@.contains_key(
                #[trigger] pre.paths@[k],
            ) by {
                pre.lemma_leaf_facts(k);
            }
        }
        loop
            invariant_except_break
                pre.wf(),
                self.inv(),
                self.indexing_sequence@ == pre.indexing_sequence@,
                self.root == pre.root,
                self.nodes@.len() == pre.nodes@.len(),
                0 <= i < pre.paths@.len(),
                pre.paths@[i] == p,
                p.len() == pre.indexing_sequence@.len(),
                1 <= d <= p.len(),
                self.paths@ == pre.paths@.update(i, p.take(d)),
                self.node_of@.contains_key(p.take(d)),
                trie_node as int == self.node_of@[p.take(d)],
                forall|k: int|
                    0 <= k < pre.paths@.len() && k != i ==> {
                        &&& self.node_of@.contains_key(#[trigger] pre.paths@[k])
                        &&& self.node_of@[pre.paths@[k]] == pre.node_of@[pre.paths@[k]]
                        &&& self.nodes@[self.node_of@[pre.paths@[k]]].tuple_index
                            == pre.nodes@[pre.node_of@[pre.paths@[k]]].tuple_index
                    },
            ensures
                pre.wf(),
                self.inv(),
                self.indexing_sequence@ == pre.indexing_sequence@,
                self.root == pre.root,
                0 <= i < pre.paths@.len(),
                self.paths@ == pre.paths@.remove(i),
                forall|k: int|
                    0 <= k < pre.paths@.len() && k != i ==> {
                        &&& self.node_of@.contains_key(#[trigger] pre.paths@[k])
                        &&& self.nodes@[self.node_of@[pre.paths@[k]]].tuple_index
                            == pre.nodes@[pre.node_of@[pre.paths@[k]]].tuple_index
                    },
            decreases d,
        {
            let ghost mid = *self;
            let ghost w = p.take(d);
            proof {
                assert(mid.paths@[i] == w);
                mid.lemma_node(w);
            }
            let parent = self.nodes[trie_node].parent;
            self.remove_trie_node(trie_node, Ghost(i));
            proof {
                Self::lemma_remove_outcome(mid, *self, i);
                lemma_take_prefix(p, d);
                pre.lemma_ordered();
                assert forall|k: int| 0 <= k < pre.paths@.len() && k != i implies {
                    &&& self.node_of@.contains_key(#[trigger] pre.paths@[k])
                    &&& self.node_of@[pre.paths@[k]] == pre.node_of@[pre.paths@[k]]
                    &&& self.nodes@[self.node_of@[pre.paths@[k]]].tuple_index
                        == pre.nodes@[pre.node_of@[pre.paths@[k]]].tuple_index
                } by {
                    let q = pre.paths@[k];
                    if q == w {
                        assert(has_prefix(pre.paths@[i], pre.paths@[k]));
                    }
                    assert(q != w);
                    assert(mid.node_of@.contains_key(q));
                    mid.lemma_node(q);
                    if mid.node_of@[q] == mid.node_of@[w] {
                        assert(q == w);
                    }
                    assert(self.node_of@.contains_key(q));
                    assert(self.node_of@[q] == mid.node_of@[q]);
                    assert(self.nodes@[mid.node_of@[q]].tuple_index == mid.nodes@[mid.node_of@[q]].tuple_index);
                }
            }
            if parent == self.root || self.nodes[parent].first_child != NIL {
                proof {
                    assert(mid.paths@.remove(i) =~= pre.paths@.remove(i));
                }
                break;
            }
            trie_node = parent;
            proof {
                assert(w.drop_last() =~= p.take(d - 1));
                d = d - 1;
                assert(pre.paths@.update(i, p.take(d)) =~= mid.paths@.update(i, p.take(d)));
            }
        }
        proof {
            let e = pre.entries();
            let ne = self.entries();
            assert(ne =~= e.remove(i)) by {
                assert forall|k: int| 0 <= k < ne.len() implies ne[k] == e.remove(i)[k] by {
                    let kk = if k < i {
                        k
                    } else {
                        k + 1
                    };
                    assert(self.paths@[k] == pre.paths@[kk]);
                }
            }
            assert(e[i].0 == p);
            assert(e[i].1 == tuple_index);
            pre.lemma_ordered();
            assert forall|i2: int| 0 <= i2 < e.len() && e[i2].0 == p implies i2 == i by {
                if i2 != i {
                    assert(has_prefix(pre.paths@[i2], pre.paths@[i]));
                }
            }
        }
        tuple_index
    }

    fn first_child(&self, node: usize) -> (r: usize)
        requires
            node < self.nodes@.len(),
        ensures
            r == self.nodes@[node as int].first_child,
    {
        self.nodes[node].first_child
    }

    fn next_sibling(&self, node: usize) -> (r: usize)
        requires
            node < self.nodes@.len(),
        ensures
            r == self.nodes@[node as int].next_sibling,
    {
        self.nodes[node].next_sibling
    }

    fn parent(&self, node: usize) -> (r: usize)
        requires
            node < self.nodes@.len(),
        ensures
            r == self.nodes@[node as int].parent,
    {
        self.nodes[node].parent
    }

    fn tuple_index_at(&self, node: usize) -> (r: i32)
        requires
            node < self.nodes@.len(),
        ensures
            r == self.nodes@[node as int].tuple_index,
    {
        self.nodes[node].tuple_index
    }

    /// Below the first path of a run, each node's first child leads on along
    /// that path.
    proof fn lemma_first_child_step(&self, i: int, d: int)
        requires
            self.inv(),
            0 <= i < self.paths@.len(),
            0 <= d < self.paths@[i].len(),
            i == 0 || !has_prefix(self.paths@[i - 1], self.paths@[i].take(d)),
        ensures
            self.node_of@.contains_key(self.paths@[i].take(d)),
            self.node_of@.contains_key(self.paths@[i].take(d + 1)),
            0 <= self.node_of@[self.paths@[i].take(d)] < self.nodes@.len(),
            0 <= self.node_of@[self.paths@[i].take(d + 1)] < self.nodes@.len(),
            self.nodes@[self.node_of@[self.paths@[i].take(d)]].first_child
                == self.node_of@[self.paths@[i].take(d + 1)],
    {
        let p = self.paths@;
        lemma_take_prefix(p[i], d);
        lemma_take_prefix(p[i], d + 1);
        self.lemma_prefix_in_trie(i, p[i].take(d));
        self.lemma_prefix_in_trie(i, p[i].take(d + 1));
        self.lemma_node(p[i].take(d));
        self.lemma_node(p[i].take(d + 1));
        assert(p[i].take(d + 1).take(d) =~= p[i].take(d));
        reveal(TupleIndex::rule_first);
        assert(p[i].take((d + 1) - 1) == p[i].take(d));
    }

    /// Where path `i` parts from the next path, or at the end of a run, a node
    /// has no next sibling.
    proof fn lemma_last_step(&self, i: int, d: int)
        requires
            self.inv(),
            0 <= i < self.paths@.len(),
            1 <= d <= self.paths@[i].len(),
            i == self.paths@.len() - 1 || !has_prefix(self.paths@[i + 1], self.paths@[i].take(d - 1)),
        ensures
            self.node_of@.contains_key(self.paths@[i].take(d)),
            0 <= self.node_of@[self.paths@[i].take(d)] < self.nodes@.len(),
            self.nodes@[self.node_of@[self.paths@[i].take(d)]].next_sibling == NIL,
    {
        let p = self.paths@;
        lemma_take_prefix(p[i], d);
        self.lemma_prefix_in_trie(i, p[i].take(d));
        self.lemma_node(p[i].take(d));
        reveal(TupleIndex::rule_last);
    }

    /// Where two consecutive paths part, the earlier one's node has the later
    /// one's as next sibling.
    proof fn lemma_adjacent_step(&self, i: int, e: int)
        requires
            self.inv(),
            0 < i < self.paths@.len(),
            1 <= e <= self.paths@[i].len(),
            has_prefix(self.paths@[i - 1], self.paths@[i].take(e - 1)),
            !has_prefix(self.paths@[i - 1], self.paths@[i].take(e)),
        ensures
            e <= self.paths@[i - 1].len(),
            self.node_of@.contains_key(self.paths@[i - 1].take(e)),
            self.node_of@.contains_key(self.paths@[i].take(e)),
            0 <= self.node_of@[self.paths@[i - 1].take(e)] < self.nodes@.len(),
            0 <= self.node_of@[self.paths@[i].take(e)] < self.nodes@.len(),
            self.nodes@[self.node_of@[self.paths@[i - 1].take(e)]].next_sibling
                == self.node_of@[self.paths@[i].take(e)],
    {
        let p = self.paths@;
        reveal(TupleIndex::rule_adjacent);
        lemma_take_prefix(p[i], e);
        lemma_take_prefix(p[i - 1], e);
        self.lemma_prefix_in_trie(i, p[i].take(e));
        self.lemma_prefix_in_trie(i - 1, p[i - 1].take(e));
        self.lemma_node(p[i].take(e));
        self.lemma_node(p[i - 1].take(e));
    }

    /// The node of a non-empty prefix of a path has the node of the prefix one
    /// shorter as parent.
    proof fn lemma_parent_step(&self, i: int, d: int)
        requires
            self.inv(),
            0 <= i < self.paths@.len(),
            1 <= d <= self.paths@[i].len(),
        ensures
            self.node_of@.contains_key(self.paths@[i].take(d)),
            self.node_of@.contains_key(self.paths@[i].take(d - 1)),
            0 <= self.node_of@[self.paths@[i].take(d)] < self.nodes@.len(),
            0 <= self.node_of@[self.paths@[i].take(d - 1)] < self.nodes@.len(),
            self.nodes@[self.node_of@[self.paths@[i].take(d)]].parent
                == self.node_of@[self.paths@[i].take(d - 1)],
    {
        let p = self.paths@;
        lemma_take_prefix(p[i], d);
        self.lemma_prefix_in_trie(i, p[i].take(d));
        self.lemma_node(p[i].take(d));
        assert(p[i].take(d).drop_last() =~= p[i].take(d - 1));
        self.lemma_node(p[i].take(d - 1));
    }

    /// The entries' key paths are the key paths, in trie order.
    pub proof fn lemma_ordered_facts(&self)
        requires
            self.wf(),
        ensures
            trie_ordered(self.key_paths()),
            self.entries().map_values(|e: (Seq<u64>, i32)| e.0) == self.key_paths(),
    {
        reveal(TupleIndex::node_rules);
        assert(self.entries().map_values(|e: (Seq<u64>, i32)| e.0) =~= self.key_paths());
    }

    pub broadcast proof fn lemma_wf_facts(&self)
        requires
            #[trigger] self.wf(),
        ensures
            trie_ordered(self.key_paths()),
            self.entries().len() == self.key_paths().len(),
            forall|i: int|
                0 <= i < self.entries().len() ==> (#[trigger] self.entries()[i]).0
                    == self.key_paths()[i],
            forall|i: int|
                0 <= i < self.key_paths().len() ==> (#[trigger] self.key_paths()[i]).len()
                    == self.spec_indexing_sequence().len(),
            self.spec_indexing_sequence().len() >= 1,
    {
        reveal(TupleIndex::node_rules);
    }
}

/// The key path of the bound prefix: the keys of the bindings that the
/// selection names, in order.
pub open spec fn selected_path<T: EdgeKey>(bindings: Seq<Option<T>>, selection: Seq<usize>) -> Seq<u64> {
    Seq::new(selection.len(), |i: int| bindings[selection[i] as int]->Some_0.key_spec())
}

/// The selection names bound slots of the bindings.
pub open spec fn selection_bound<T>(bindings: Seq<Option<T>>, selection: Seq<usize>) -> bool {
    forall|i: int|
        0 <= i < selection.len() ==> (#[trigger] selection[i]) < bindings.len()
            && bindings[selection[i] as int] is Some
}

/// A cursor over the indexed tuples whose key paths start with the keys of a
/// bound prefix, in trie order.
pub struct TupleIndexRetrieval<'a, T> {
    tuple_index: &'a TupleIndex<T>,
    bindings_buffer: &'a [Option<T>],
    selection_indices: &'a [usize],
    indexing_sequence_length: usize,
    current_trie_node: usize,
    /// The position of the current key path among the index's paths.
    position: Ghost<int>,
}

impl<'a, T: EdgeKey> TupleIndexRetrieval<'a, T> {
    /// The index walked.
    pub closed spec fn source(&self) -> TupleIndex<T> {
        *self.tuple_index
    }

    /// The key path that the retrieved paths start with.
    pub closed spec fn prefix(&self) -> Seq<u64> {
        selected_path(self.bindings_buffer@, self.selection_indices@)
    }

    /// The position of the current entry among the index's entries.
    pub closed spec fn position(&self) -> int {
        self.position@
    }

    pub closed spec fn exhausted(&self) -> bool {
        self.current_trie_node == NIL
    }

    pub closed spec fn wf(&self) -> bool {
        let t = *self.tuple_index;
        let p = t.paths@;
        &&& t.wf()
        &&& self.indexing_sequence_length == t.indexing_sequence@.len()
        &&& self.selection_indices@.len() <= t.indexing_sequence@.len()
        &&& selection_bound(self.bindings_buffer@, self.selection_indices@)
        &&& !self.exhausted() ==> {
            &&& 0 <= self.position@ < p.len()
            &&& has_prefix(p[self.position@], self.prefix())
            &&& t.node_of@.contains_key(p[self.position@])
            &&& self.current_trie_node == t.node_of@[p[self.position@]]
        }
    }

    /// A cursor that is not yet open (it stands after the last tuple).
    pub fn new(
        tuple_index: &'a TupleIndex<T>,
        bindings_buffer: &'a [Option<T>],
        selection_indices: &'a [usize],
    ) -> (r: TupleIndexRetrieval<'a, T>)
        requires
            tuple_index.wf(),
            selection_indices@.len() <= tuple_index.spec_indexing_sequence().len(),
            selection_bound(bindings_buffer@, selection_indices@),
        ensures
            r.wf(),
            r.source() == *tuple_index,
            r.prefix() == selected_path(bindings_buffer@, selection_indices@),
            r.exhausted(),
    {
        let indexing_sequence_length = tuple_index.indexing_sequence.len();
        TupleIndexRetrieval {
            tuple_index,
            bindings_buffer,
            selection_indices,
            indexing_sequence_length,
            current_trie_node: NIL,
            position: Ghost(0),
        }
    }

    /// Moves to the first indexed tuple whose key path starts with the
    /// prefix, or after the last tuple when there is none.
    pub fn open(&mut self)
        requires
            old(self).wf(),
        ensures
            final(self).wf(),
            final(self).source() == old(self).source(),
            final(self).prefix() == old(self).prefix(),
            (exists|i: int|
                0 <= i < old(self).source().key_paths().len() && has_prefix(
                    #[trigger] old(self).source().key_paths()[i],
                    old(self).prefix(),
                )) ==> !final(self).exhausted() && is_block_start(
                old(self).source().key_paths(),
                old(self).prefix(),
                final(self).position(),
            ),
            !(exists|i: int|
                0 <= i < old(self).source().key_paths().len() && has_prefix(
                    #[trigger] old(self).source().key_paths()[i],
                    old(self).prefix(),
                )) ==> final(self).exhausted(),
    {
        let t = self.tuple_index;
        let ghost p = t.paths@;
        let ghost r = self.prefix();
        let selection_len = self.selection_indices.len();
        proof {
            t.lemma_root();
            reveal(TupleIndex::node_rules);
        }
        let mut node = t.root;
        let mut position: usize = 0;
        assert(r.take(0) =~= Seq::<u64>::empty());
        while position < selection_len
            invariant
                *self == *old(self),
                self.tuple_index == t,
                old(self).wf(),
                t.wf(),
                p == t.paths@,
                r == self.prefix(),
                selection_len == self.selection_indices@.len(),
                selection_len <= t.indexing_sequence@.len(),
                selection_bound(self.bindings_buffer@, self.selection_indices@),
                position <= selection_len,
                t.node_of@.contains_key(r.take(position as int)),
                node as int == t.node_of@[r.take(position as int)],
                t.path_of@.contains_key(node as int),
                t.path_of@[node as int] == r.take(position as int),
            decreases selection_len - position,
        {
            let slot = self.selection_indices[position];
            let object = match &self.bindings_buffer[slot] {
                Some(o) => o,
                None => {
                    assert(false);
                    return;
                },
            };
            proof {
                t.lemma_node(r.take(position as int));
                assert(r.take(position as int).push(object.key_spec()) =~= r.take(position + 1));
            }
            let child = t.get_child_node(node, object);
            if child == NIL {
                self.current_trie_node = NIL;
                proof {
                    assert forall|i: int| 0 <= i < p.len() implies !has_prefix(
                        #[trigger] p[i],
                        r,
                    ) by {
                        if has_prefix(p[i], r) {
                            lemma_take_prefix(r, position + 1);
                            lemma_prefix_trans(p[i], r, r.take(position + 1));
                            t.lemma_prefix_in_trie(i, r.take(position + 1));
                            t.lemma_node(r.take(position + 1));
                        }
                    }
                }
                return;
            }
            proof {
                t.lemma_node(r.take(position + 1));
            }
            node = child;
            position = position + 1;
        }
        proof {
            assert(r.take(selection_len as int) =~= r);
        }
        if selection_len == 0 && t.first_child(t.root) == NIL {
            self.current_trie_node = NIL;
            proof {
                if p.len() > 0 {
                    t.lemma_first_child_step(0, 0);
                    assert(p[0].take(0) =~= Seq::<u64>::empty());
                    t.lemma_root();
                }
            }
            return;
        }
        // Some path starts with the prefix: find the first one.
        let ghost s: int = if selection_len == 0 {
            0
        } else {
            let i = t.lemma_node_has_leaf(r);
            lemma_block_start_exists(p, r, i)
        };
        proof {
            if selection_len == 0 {
                if p.len() == 0 {
                    reveal(TupleIndex::rule_leaf);
                    t.lemma_root();
                }
                assert(has_prefix(p[0], r));
            } else {
                t.lemma_node_has_leaf(r);
            }
            assert(is_block_start(p, r, s));
            t.lemma_leaf_facts(s);
            lemma_take_prefix(p[s], selection_len as int);
            lemma_prefix_total(p[s], r, p[s].take(selection_len as int));
            lemma_prefix_full(p[s].take(selection_len as int), r);
        }
        let length = self.indexing_sequence_length;
        let mut depth: usize = selection_len;
        while depth < length
            invariant
                *self == *old(self),
                self.tuple_index == t,
                old(self).wf(),
                t.wf(),
                p == t.paths@,
                r == self.prefix(),
                length == t.indexing_sequence@.len(),
                selection_len <= depth <= length,
                r.len() == selection_len,
                is_block_start(p, r, s),
                p[s].len() == length,
                t.node_of@.contains_key(p[s].take(depth as int)),
                node as int == t.node_of@[p[s].take(depth as int)],
            decreases length - depth,
        {
            proof {
                if s > 0 && has_prefix(p[s - 1], p[s].take(depth as int)) {
                    lemma_take_prefix(p[s], depth as int);
                    lemma_take_prefix(p[s], selection_len as int);
                    lemma_prefix_total(p[s], r, p[s].take(depth as int));
                    lemma_prefix_trans(p[s - 1], p[s].take(depth as int), r);
                }
                t.lemma_first_child_step(s, depth as int);
            }
            node = t.first_child(node);
            depth = depth + 1;
        }
        proof {
            assert(p[s].take(length as int) =~= p[s]);
            t.lemma_node(p[s]);
            assert(has_prefix(old(self).source().key_paths()[s], r));
        }
        self.current_trie_node = node;
        self.position = Ghost(s);
    }

    /// An open cursor stands on a key path that starts with the prefix.
    pub proof fn lemma_position(&self)
        requires
            self.wf(),
            !self.exhausted(),
        ensures
            0 <= self.position() < self.source().key_paths().len(),
            has_prefix(self.source().key_paths()[self.position()], self.prefix()),
    {
    }

    pub fn after_last(&self) -> (r: bool)
        ensures
            r == self.exhausted(),
    {
        self.current_trie_node == NIL
    }

    /// The tuple index recorded for the current key path.
    pub fn get_current_tuple_index(&self) -> (r: i32)
        requires
            self.wf(),
            !self.exhausted(),
        ensures
            r == self.source().entries()[self.position()].1,
    {
        proof {
            self.tuple_index.lemma_node(self.tuple_index.paths@[self.position@]);
        }
        self.tuple_index.tuple_index_at(self.current_trie_node)
    }

    /// Moves to the next indexed tuple whose key path starts with the prefix,
    /// or after the last one.
    pub fn next(&mut self)
        requires
            old(self).wf(),
            !old(self).exhausted(),
        ensures
            final(self).wf(),
            final(self).source() == old(self).source(),
            final(self).prefix() == old(self).prefix(),
            ({
                let p = old(self).source().key_paths();
                let k = old(self).position() + 1;
                if k < p.len() && has_prefix(p[k], old(self).prefix()) {
                    !final(self).exhausted() && final(self).position() == k
                } else {
                    final(self).exhausted()
                }
            }),
    {
        let t = self.tuple_index;
        let ghost p = t.paths@;
        let ghost r = self.prefix();
        let ghost pos = self.position@;
        let selection_len = self.selection_indices.len();
        let length = self.indexing_sequence_length;
        let mut node = self.current_trie_node;
        let mut depth = length;
        proof {
            t.lemma_leaf_facts(pos);
            assert(p[pos].take(length as int) =~= p[pos]);
            t.lemma_node(p[pos]);
        }
        while depth != selection_len && t.next_sibling(node) == NIL
            invariant
                *self == *old(self),
                self.tuple_index == t,
                old(self).wf(),
                t.wf(),
                (node as int) < t.nodes@.len(),
                p == t.paths@,
                r == self.prefix(),
                r.len() == selection_len,
                length == t.indexing_sequence@.len(),
                0 <= pos < p.len(),
                p[pos].len() == length,
                has_prefix(p[pos], r),
                selection_len <= depth <= length,
                t.node_of@.contains_key(p[pos].take(depth as int)),
                node as int == t.node_of@[p[pos].take(depth as int)],
                forall|d: int|
                    depth < d <= length ==> t.nodes@[t.node_of@[#[trigger] p[pos].take(d)]].next_sibling
                        == NIL,
            decreases depth,
        {
            proof {
                t.lemma_parent_step(pos, depth as int);
            }
            node = t.parent(node);
            depth = depth - 1;
        }
        let ghost k = pos + 1;
        if depth == selection_len {
            self.current_trie_node = NIL;
            proof {
                if k < p.len() && has_prefix(p[k], r) {
                    let e = lemma_first_difference(p, k, r);
                    t.lemma_adjacent_step(k, e);
                    t.lemma_leaf_facts(k);
                    assert(t.nodes@[t.node_of@[p[pos].take(e)]].next_sibling == NIL);
                }
            }
            return;
        }
        proof {
            // The node has a next sibling, so the next path continues the run.
            if k >= p.len() || !has_prefix(p[k], p[pos].take(depth - 1)) {
                t.lemma_last_step(pos, depth as int);
            }
            t.lemma_leaf_facts(k);
            lemma_take_prefix(p[pos], depth - 1);
            lemma_take_prefix(p[pos], selection_len as int);
            lemma_prefix_total(p[pos], r, p[pos].take(depth - 1));
            lemma_prefix_trans(p[k], p[pos].take(depth - 1), r);
            let e = lemma_first_difference(p, k, r);
            assert(e >= depth) by {
                if e < depth {
                    lemma_prefix_trans(p[k], p[pos].take(depth - 1), p[pos].take(e));
                    assert(has_prefix(p[k], p[pos].take(e)));
                    assert(p[pos].take(e) =~= p[k].take(e));
                }
            }
            assert(e == depth) by {
                if e > depth {
                    t.lemma_adjacent_step(k, e);
                    assert(p[k - 1].take(e) =~= p[pos].take(e));
                }
            }
            t.lemma_adjacent_step(k, e);
            assert(p[k - 1] == p[pos]);
        }
        node = t.next_sibling(node);
        while depth < length
            invariant
                *self == *old(self),
                self.tuple_index == t,
                old(self).wf(),
                t.wf(),
                p == t.paths@,
                length == t.indexing_sequence@.len(),
                0 < k < p.len(),
                p[k].len() == length,
                p[k - 1].len() == length,
                1 <= depth <= length,
                !has_prefix(p[k - 1], p[k].take(depth as int)),
                t.node_of@.contains_key(p[k].take(depth as int)),
                node as int == t.node_of@[p[k].take(depth as int)],
            decreases length - depth,
        {
            proof {
                t.lemma_first_child_step(k, depth as int);
                if has_prefix(p[k - 1], p[k].take(depth + 1)) {
                    lemma_take_prefix(p[k], depth + 1);
                    lemma_take_prefix(p[k], depth as int);
                    lemma_prefix_total(p[k], p[k].take(depth as int), p[k].take(depth + 1));
                    lemma_prefix_trans(p[k - 1], p[k].take(depth + 1), p[k].take(depth as int));
                }
            }
            node = t.first_child(node);
            depth = depth + 1;
        }
        proof {
            assert(p[k].take(length as int) =~= p[k]);
            t.lemma_node(p[k]);
            lemma_take_prefix(p[pos], selection_len as int);
            lemma_prefix_total(p[pos], r, p[pos].take(selection_len as int));
        }
        self.current_trie_node = node;
        self.position = Ghost(k);
    }
}

/// Two consecutive paths that share a prefix `r` part at some position
/// `e - 1` at or after its end: they agree before it and differ there.
proof fn lemma_first_difference(p: Seq<Seq<u64>>, k: int, r: Seq<u64>) -> (e: int)
    requires
        trie_ordered(p),
        0 < k < p.len(),
        p[k].len() == p[k - 1].len(),
        has_prefix(p[k], r),
        has_prefix(p[k - 1], r),
    ensures
        r.len() < e <= p[k].len(),
        has_prefix(p[k - 1], p[k].take(e - 1)),
        !has_prefix(p[k - 1], p[k].take(e)),
{
    let a = p[k - 1];
    let b = p[k];
    assert(!has_prefix(a, b));
    let d = lemma_differ_from(a, b, r.len() as int);
    assert(has_prefix(a, b.take(d)));
    assert(!has_prefix(a, b.take(d + 1))) by {
        assert(b.take(d + 1)[d] == b[d]);
    }
    d + 1
}

/// The first position at or after `e` where two equally long sequences that
/// agree before `e` differ, when they are not equal.
proof fn lemma_differ_from(a: Seq<u64>, b: Seq<u64>, e: int) -> (d: int)
    requires
        a.len() == b.len(),
        0 <= e <= b.len(),
        forall|j: int| 0 <= j < e ==> a[j] == b[j],
        !has_prefix(a, b),
    ensures
        e <= d < b.len(),
        a[d] != b[d],
        forall|j: int| 0 <= j < d ==> a[j] == b[j],
    decreases b.len() - e,
{
    if e == b.len() {
        assert(has_prefix(a, b));
        e
    } else if a[e] != b[e] {
        e
    } else {
        lemma_differ_from(a, b, e + 1)
    }
}

} // verus!
