//! Rendering the bounded neighbourhood of a symbol as Mermaid `flowchart`
//! text.
//!
//! The neighbourhood is every workspace symbol within `depth` undirected hops
//! of the focus, collected ring by ring. A symbol outside the workspace (one
//! that names no indexed symbol, or a `foreign` one) is a leaf: it may be
//! drawn, but the walk does not grow past it.
//!
//! The output is safe for Mermaid's strict parser by construction: node ids are
//! always the generated forms `n<i>`, `b<i>` or `trunc_note`, never a path; a
//! path only ever appears inside a quoted label, with `&`, `<`, `>` and `"`
//! escaped, and no label holds a line break.

use vstd::prelude::*;

use crate::order::{
    keyed_view, lemma_lex_asymmetric, lemma_lex_irreflexive, lemma_lex_total, lemma_sort_keyed_props,
    lex_lt, sort_by_key, sort_keyed, unkey, Keyed,
};
use crate::query::{
    contains_id, id_key, is_boundary, is_boundary_target, key_of_id, known, lookup, path_of, reason_is,
    symbol_of, truncate, marks, Marks, DYN_TRAIT_MARKER,
};
use crate::envelope::{Envelope, Reason};
use crate::schema::{Edge, EdgeKind, Index, SymbolId};
use crate::text::{chars_of, decimal, decimal_of, push_char, push_chars, push_decimal, push_str};

verus! {

broadcast use vstd::seq_lib::group_to_multiset_ensures;

// ── the neighbourhood ───────────────────────────────────────────────────────

/// Edge `e` joins `x` and `y`, in either direction.
pub open spec fn links(e: Edge, x: u64, y: u64) -> bool {
    (e.from.0 == x && e.to.0 == y) || (e.to.0 == x && e.from.0 == y)
}

/// Some edge of the index joins `x` and `y`, in either direction.
pub open spec fn joined(idx: Index, x: u64, y: u64) -> bool {
    exists|j: int| 0 <= j < idx.edges@.len() && #[trigger] links(idx.edges@[j], x, y)
}

/// The ids one hop past `frontier` that are not yet `seen`: every id naming a
/// symbol that an edge joins to a workspace symbol of the frontier.
pub open spec fn grown(idx: Index, frontier: Set<u64>, seen: Set<u64>) -> Set<u64> {
    Set::new(
        |y: u64|
            known(idx, y) && !seen.contains(y) && exists|x: u64|
                #[trigger] frontier.contains(x) && !is_boundary(idx, x) && joined(idx, x, y),
    )
}

/// The rings around `focus`: `.0` holds the ids first reached at exactly `d`
/// undirected hops, `.1` every id within `d` hops.
pub open spec fn rings(idx: Index, focus: u64, d: nat) -> (Set<u64>, Set<u64>)
    decreases d,
{
    if d == 0 {
        (set![focus], set![focus])
    } else {
        let prev = rings(idx, focus, (d - 1) as nat);
        let ring = grown(idx, prev.0, prev.1);
        (ring, prev.1 + ring)
    }
}

/// `s` lists the ids of `ids` once each, ordered by path, then id.
pub open spec fn sorted_listing(idx: Index, s: Seq<u64>, ids: Set<u64>) -> bool {
    &&& s.no_duplicates()
    &&& s.to_set() == ids
    &&& forall|i: int, j: int|
        0 <= i < j < s.len() ==> lex_lt(id_key(idx, #[trigger] s[i]), id_key(idx, #[trigger] s[j]))
}

/// The neighbourhood in drawing order: the focus, then each ring out to
/// `depth` hops, every ring ordered by path, then id.
pub open spec fn neighborhood(idx: Index, focus: u64, depth: nat) -> Seq<u64>
    decreases depth,
{
    if depth == 0 {
        seq![focus]
    } else {
        neighborhood(idx, focus, (depth - 1) as nat) + choose|s: Seq<u64>|
            sorted_listing(idx, s, rings(idx, focus, depth).0)
    }
}

/// A set has at most one sorted listing.
pub proof fn lemma_listing_unique(idx: Index, s: Seq<u64>, t: Seq<u64>, ids: Set<u64>)
    requires
        sorted_listing(idx, s, ids),
        sorted_listing(idx, t, ids),
    ensures
        s == t,
    decreases s.len(),
{
    s.unique_seq_to_set();
    t.unique_seq_to_set();
    if s.len() > 0 {
        if s[0] != t[0] {
            assert(ids.contains(t[0]));
            assert(s.contains(t[0]));
            let k = choose|k: int| 0 <= k < s.len() && s[k] == t[0];
            assert(k != 0);
            assert(lex_lt(id_key(idx, s[0]), id_key(idx, s[k])));
            assert(s[0] == s[0]);
            assert(s.to_set().contains(s[0]));
            assert(t.to_set().contains(s[0]));
            assert(t.contains(s[0]));
            let m = choose|m: int| 0 <= m < t.len() && t[m] == s[0];
            assert(m != 0);
            assert(lex_lt(id_key(idx, t[0]), id_key(idx, t[m])));
            lemma_lex_asymmetric(id_key(idx, s[0]), id_key(idx, t[0]));
        }
        let rest = ids.remove(s[0]);
        let s1 = s.drop_first();
        let t1 = t.drop_first();
        assert forall|x: u64| s1.to_set().contains(x) <==> rest.contains(x) by {
            if s1.contains(x) {
                let k = choose|k: int| 0 <= k < s1.len() && s1[k] == x;
                assert(s[k + 1] == x);
            }
            if rest.contains(x) {
                assert(s.contains(x));
                let k = choose|k: int| 0 <= k < s.len() && s[k] == x;
                assert(s1[k - 1] == x);
            }
        }
        assert forall|x: u64| t1.to_set().contains(x) <==> rest.contains(x) by {
            if t1.contains(x) {
                let k = choose|k: int| 0 <= k < t1.len() && t1[k] == x;
                assert(t[k + 1] == x);
            }
            if rest.contains(x) {
                assert(t.contains(x));
                let k = choose|k: int| 0 <= k < t.len() && t[k] == x;
                assert(t1[k - 1] == x);
            }
        }
        assert(s1.to_set() =~= rest);
        assert(t1.to_set() =~= rest);
        assert forall|i: int, j: int| 0 <= i < j < s1.len() implies lex_lt(id_key(idx, #[trigger] s1[i]), id_key(idx, #[trigger] s1[j])) by {
            assert(s1[i] == s[i + 1] && s1[j] == s[j + 1]);
        }
        assert forall|i: int, j: int| 0 <= i < j < t1.len() implies lex_lt(id_key(idx, #[trigger] t1[i]), id_key(idx, #[trigger] t1[j])) by {
            assert(t1[i] == t[i + 1] && t1[j] == t[j + 1]);
        }
        lemma_listing_unique(idx, s1, t1, rest);
        assert forall|i: int| 0 <= i < s.len() implies s[i] == t[i] by {
            if i > 0 {
                assert(s[i] == s1[i - 1]);
                assert(t[i] == t1[i - 1]);
            }
        }
        assert(s =~= t);
    } else {
        assert(s =~= t);
    }
}

/// A sorted listing is the one the neighbourhood chooses for its set.
proof fn lemma_listing_chosen(idx: Index, s: Seq<u64>, ids: Set<u64>)
    requires
        sorted_listing(idx, s, ids),
    ensures
        s == choose|t: Seq<u64>| sorted_listing(idx, t, ids),
{
    let t = choose|t: Seq<u64>| sorted_listing(idx, t, ids);
    lemma_listing_unique(idx, s, t, ids);
}

/// Once a ring comes out empty, every later ring is empty and the
/// neighbourhood stops growing.
proof fn lemma_rings_settle(idx: Index, focus: u64, d: nat, e: nat)
    requires
        d <= e,
        rings(idx, focus, d).0 =~= Set::<u64>::empty(),
    ensures
        rings(idx, focus, e).0 =~= Set::<u64>::empty(),
        rings(idx, focus, e).1 == rings(idx, focus, d).1,
        neighborhood(idx, focus, e) == neighborhood(idx, focus, d),
    decreases e - d,
{
    if d < e {
        lemma_rings_settle(idx, focus, d, (e - 1) as nat);
        let prev = rings(idx, focus, (e - 1) as nat);
        assert(grown(idx, prev.0, prev.1) =~= Set::<u64>::empty());
        assert(rings(idx, focus, e).1 =~= prev.1);
        let empty = Seq::<u64>::empty();
        assert(empty.to_set() =~= Set::<u64>::empty());
        assert(sorted_listing(idx, empty, Set::<u64>::empty()));
        lemma_listing_chosen(idx, empty, Set::<u64>::empty());
        assert(neighborhood(idx, focus, e) =~= neighborhood(idx, focus, (e - 1) as nat));
    }
}

/// An id paired with its order key.
pub open spec fn id_entry(idx: Index) -> spec_fn(u64) -> (Seq<u64>, u64) {
    |x: u64| (id_key(idx, x), x)
}

/// Sorting distinct ids by key lists them in order.
proof fn lemma_sorted_ids(idx: Index, ids: Seq<u64>)
    requires
        ids.no_duplicates(),
    ensures
        sorted_listing(
            idx,
            sort_keyed(ids.map_values(id_entry(idx))).map_values(|p: (Seq<u64>, u64)| p.1),
            ids.to_set(),
        ),
{
    let src = ids.map_values(id_entry(idx));
    let sorted = sort_keyed(src);
    let r = sorted.map_values(|p: (Seq<u64>, u64)| p.1);
    lemma_sort_keyed_props(src);
    assert forall|i: int| 0 <= i < sorted.len() implies #[trigger] sorted[i] == (id_key(idx, r[i]), r[i]) && ids.contains(r[i]) by {
        assert(sorted.to_multiset().count(sorted[i]) > 0);
        assert(src.contains(sorted[i]));
        let k = choose|k: int| 0 <= k < src.len() && src[k] == sorted[i];
        assert(src[k] == (id_key(idx, ids[k]), ids[k]));
    }
    assert forall|a: int, b: int| 0 <= a < src.len() && 0 <= b < src.len() && a != b implies src[a] != src[b] by {
        assert(src[a].1 == ids[a]);
        assert(src[b].1 == ids[b]);
    }
    assert(src.no_duplicates());
    src.lemma_multiset_has_no_duplicates();
    sorted.lemma_multiset_has_no_duplicates_conv();
    assert forall|a: int, b: int| 0 <= a < r.len() && 0 <= b < r.len() && a != b implies r[a] != r[b] by {
        assert(sorted[a] != sorted[b]);
        assert(sorted[a] == (id_key(idx, r[a]), r[a]));
        assert(sorted[b] == (id_key(idx, r[b]), r[b]));
    }
    assert forall|x: u64| r.to_set().contains(x) <==> ids.to_set().contains(x) by {
        if r.contains(x) {
            let i = choose|i: int| 0 <= i < r.len() && r[i] == x;
            assert(sorted[i] == (id_key(idx, r[i]), r[i]));
        }
        if ids.contains(x) {
            let k = choose|k: int| 0 <= k < ids.len() && ids[k] == x;
            assert(src[k] == (id_key(idx, x), x));
            assert(src.to_multiset().count(src[k]) > 0);
            assert(sorted.contains(src[k]));
            let i = choose|i: int| 0 <= i < sorted.len() && sorted[i] == src[k];
            assert(sorted[i] == (id_key(idx, r[i]), r[i]));
            assert(r[i] == x);
        }
    }
    assert(r.to_set() =~= ids.to_set());
    assert forall|i: int, j: int| 0 <= i < j < r.len() implies lex_lt(id_key(idx, #[trigger] r[i]), id_key(idx, #[trigger] r[j])) by {
        assert(sorted[i] == (id_key(idx, r[i]), r[i]));
        assert(sorted[j] == (id_key(idx, r[j]), r[j]));
        assert(!lex_lt(sorted[j].0, sorted[i].0));
        lemma_lex_total(id_key(idx, r[i]), id_key(idx, r[j]));
        if id_key(idx, r[i]) =~= id_key(idx, r[j]) {
            assert(id_key(idx, r[i]).last() == r[i]);
            assert(id_key(idx, r[j]).last() == r[j]);
        }
    }
}

/// Orders distinct ids by path, then id.
fn sort_ids(index: &Index, ids: Vec<u64>) -> (r: Vec<u64>)
    requires
        ids@.no_duplicates(),
    ensures
        sorted_listing(*index, r@, ids@.to_set()),
{
    let ghost idx = *index;
    let mut items: Vec<Keyed<u64>> = Vec::new();
    let mut i: usize = 0;
    while i < ids.len()
        invariant
            idx == *index,
            i <= ids@.len(),
            keyed_view(items@) == ids@.take(i as int).map_values(id_entry(idx)),
        decreases ids.len() - i,
    {
        let x = ids[i];
        let k = key_of_id(index, x);
        let ghost before = items@;
        items.push(Keyed { key: k, item: x });
        proof {
            assert(ids@.take(i + 1) =~= ids@.take(i as int).push(x));
            assert(keyed_view(items@) =~= keyed_view(before).push((k@, x)));
            assert(ids@.take(i + 1).map_values(id_entry(idx)) =~= ids@.take(i as int).map_values(id_entry(idx)).push((k@, x)));
        }
        i = i + 1;
    }
    assert(ids@.take(ids.len() as int) =~= ids@);
    let sorted = sort_by_key(items);
    let r = unkey(sorted);
    proof {
        lemma_sorted_ids(idx, ids@);
        assert(r@ =~= sort_keyed(ids@.map_values(id_entry(idx))).map_values(|p: (Seq<u64>, u64)| p.1));
    }
    r
}

/// Some workspace symbol among the first `i` of `frontier` is joined to `y`.
pub open spec fn reached_by(idx: Index, frontier: Seq<u64>, i: int, y: u64) -> bool {
    exists|a: int| 0 <= a < i && !is_boundary(idx, frontier[a]) && #[trigger] joined(idx, frontier[a], y)
}

/// One of the first `j` edges joins `node` to `y`.
pub open spec fn reached_via(idx: Index, node: u64, j: int, y: u64) -> bool {
    exists|jj: int| 0 <= jj < j && #[trigger] links(idx.edges@[jj], node, y)
}

/// Adds `y` to both `visited` and `ring` when it names a symbol and was not
/// visited yet.
fn visit(index: &Index, y: u64, visited: &mut Vec<u64>, ring: &mut Vec<u64>)
    requires
        old(ring)@.no_duplicates(),
        forall|x: u64| #![trigger old(ring)@.contains(x)] old(ring)@.contains(x) ==> old(visited)@.contains(x),
    ensures
        final(ring)@.no_duplicates(),
        forall|x: u64| #![trigger final(ring)@.contains(x)] final(ring)@.contains(x) ==> final(visited)@.contains(x),
        forall|x: u64| #![trigger final(visited)@.contains(x)] final(visited)@.contains(x) <==> (old(visited)@.contains(x) || (x == y && known(*index, y))),
        forall|x: u64| #![trigger final(ring)@.contains(x)] final(ring)@.contains(x) <==> (old(ring)@.contains(x) || (x == y && known(*index, y) && !old(visited)@.contains(y))),
{
    if lookup(index, y).is_some() && !contains_id(visited, y) {
        let ghost v0 = visited@;
        let ghost r0 = ring@;
        visited.push(y);
        ring.push(y);
        assert(!r0.contains(y));
        assert forall|a: int, b: int| 0 <= a < ring@.len() && 0 <= b < ring@.len() && a != b implies ring@[a] != ring@[b] by {
            if a == r0.len() {
                assert(ring@[b] == r0[b]);
            } else if b == r0.len() {
                assert(ring@[a] == r0[a]);
            } else {
                assert(ring@[a] == r0[a] && ring@[b] == r0[b]);
            }
        }
        assert forall|x: u64| visited@.contains(x) <==> (v0.contains(x) || x == y) by {
            if v0.contains(x) {
                let k = choose|k: int| 0 <= k < v0.len() && v0[k] == x;
                assert(visited@[k] == x);
            }
            if x == y {
                assert(visited@[v0.len() as int] == y);
            }
        }
        assert forall|x: u64| ring@.contains(x) <==> (r0.contains(x) || x == y) by {
            if r0.contains(x) {
                let k = choose|k: int| 0 <= k < r0.len() && r0[k] == x;
                assert(ring@[k] == x);
            }
            if x == y {
                assert(ring@[r0.len() as int] == y);
            }
        }
        assert forall|x: u64| ring@.contains(x) implies visited@.contains(x) by {
            if r0.contains(x) {
                assert(v0.contains(x));
            }
        }
    }
}

/// The next ring: every id past `frontier` that `visited` does not hold yet,
/// in the order found; `visited` gains them.
fn next_ring(index: &Index, frontier: &Vec<u64>, visited: &mut Vec<u64>) -> (ring: Vec<u64>)
    ensures
        ring@.no_duplicates(),
        ring@.to_set() == grown(*index, frontier@.to_set(), old(visited)@.to_set()),
        final(visited)@.to_set() == old(visited)@.to_set() + ring@.to_set(),
{
    let ghost idx = *index;
    let ghost v0 = visited@;
    let mut ring: Vec<u64> = Vec::new();
    let mut i: usize = 0;
    while i < frontier.len()
        invariant
            idx == *index,
            i <= frontier@.len(),
            ring@.no_duplicates(),
            forall|x: u64| #![trigger visited@.contains(x)] #![trigger ring@.contains(x)] visited@.contains(x) <==> (v0.contains(x) || ring@.contains(x)),
            forall|y: u64| #![trigger ring@.contains(y)] ring@.contains(y) <==> (known(idx, y) && !v0.contains(y) && reached_by(idx, frontier@, i as int, y)),
        decreases frontier.len() - i,
    {
        assert(forall|x: u64| #![trigger visited@.contains(x)] #![trigger ring@.contains(x)] visited@.contains(x) <==> (v0.contains(x) || ring@.contains(x)));
        let node = frontier[i];
        let inside = !is_boundary_target(index, node);
        let mut j: usize = 0;
        assert(forall|x: u64| #![trigger visited@.contains(x)] #![trigger ring@.contains(x)] visited@.contains(x) <==> (v0.contains(x) || ring@.contains(x)));
        while j < index.edges.len()
            invariant
                idx == *index,
                i < frontier@.len(),
                node == frontier@[i as int],
                inside == !is_boundary(idx, node),
                j <= idx.edges@.len(),
                ring@.no_duplicates(),
                forall|x: u64| #![trigger visited@.contains(x)] #![trigger ring@.contains(x)] visited@.contains(x) <==> (v0.contains(x) || ring@.contains(x)),
                forall|y: u64| #![trigger ring@.contains(y)] ring@.contains(y) <==> (known(idx, y) && !v0.contains(y) && (reached_by(idx, frontier@, i as int, y)
                    || (inside && reached_via(idx, node, j as int, y)))),
            decreases idx.edges@.len() - j,
        {
            let e = index.edges[j];
            let ghost r0 = ring@;
            let ghost w0 = visited@;
            if inside {
                if e.to.0 == node {
                    visit(index, e.from.0, visited, &mut ring);
                }
                let ghost r1 = ring@;
                let ghost w1 = visited@;
                if e.from.0 == node {
                    visit(index, e.to.0, visited, &mut ring);
                }
                assert forall|y: u64| #![trigger ring@.contains(y)] ring@.contains(y) <==> (r0.contains(y)
                    || (links(e, node, y) && known(idx, y) && !w0.contains(y))) by {
                    if e.to.0 == node {
                        assert(r1.contains(y) <==> (r0.contains(y) || (y == e.from.0 && known(idx, y) && !w0.contains(y))));
                        assert(w1.contains(y) <==> (w0.contains(y) || (y == e.from.0 && known(idx, y))));
                    } else {
                        assert(r1 == r0 && w1 == w0);
                    }
                    if e.from.0 == node {
                        assert(ring@.contains(y) <==> (r1.contains(y) || (y == e.to.0 && known(idx, y) && !w1.contains(y))));
                    } else {
                        assert(ring@ == r1);
                    }
                }
            } else {
                assert(ring@ == r0);
            }
            proof {
                assert(idx.edges@[j as int] == e);
                assert forall|y: u64| inside && reached_via(idx, node, j + 1, y) <==> (inside && (reached_via(idx, node, j as int, y) || links(e, node, y))) by {
                    if reached_via(idx, node, j + 1, y) {
                        let jj = choose|jj: int| 0 <= jj < j + 1 && #[trigger] links(idx.edges@[jj], node, y);
                        if jj < j {
                            assert(reached_via(idx, node, j as int, y));
                        }
                    }
                    if reached_via(idx, node, j as int, y) {
                        let jj = choose|jj: int| 0 <= jj < j && #[trigger] links(idx.edges@[jj], node, y);
                        assert(reached_via(idx, node, j + 1, y));
                    }
                    if links(e, node, y) {
                        assert(links(idx.edges@[j as int], node, y));
                    }
                }
            }
            j = j + 1;
        }
        proof {
            assert forall|y: u64| reached_by(idx, frontier@, i + 1, y) <==> (reached_by(idx, frontier@, i as int, y)
                || (inside && reached_via(idx, node, idx.edges@.len() as int, y))) by {
                if reached_by(idx, frontier@, i + 1, y) {
                    let a = choose|a: int| 0 <= a < i + 1 && !is_boundary(idx, frontier@[a]) && #[trigger] joined(idx, frontier@[a], y);
                    if a == i {
                        let jj = choose|jj: int| 0 <= jj < idx.edges@.len() && #[trigger] links(idx.edges@[jj], node, y);
                    }
                }
                if inside && reached_via(idx, node, idx.edges@.len() as int, y) {
                    let jj = choose|jj: int| 0 <= jj < idx.edges@.len() && #[trigger] links(idx.edges@[jj], node, y);
                    assert(joined(idx, frontier@[i as int], y));
                }
                if reached_by(idx, frontier@, i as int, y) {
                    let a = choose|a: int| 0 <= a < i && !is_boundary(idx, frontier@[a]) && #[trigger] joined(idx, frontier@[a], y);
                    assert(reached_by(idx, frontier@, i + 1, y));
                }
            }
        }
        i = i + 1;
    }
    proof {
        let g = grown(idx, frontier@.to_set(), v0.to_set());
        assert forall|y: u64| ring@.to_set().contains(y) <==> g.contains(y) by {
            if reached_by(idx, frontier@, frontier@.len() as int, y) {
                let a = choose|a: int| 0 <= a < frontier@.len() && !is_boundary(idx, frontier@[a]) && #[trigger] joined(idx, frontier@[a], y);
                assert(frontier@.to_set().contains(frontier@[a]));
            }
            if g.contains(y) {
                let x = choose|x: u64| #[trigger] frontier@.to_set().contains(x) && !is_boundary(idx, x) && joined(idx, x, y);
                let a = choose|a: int| 0 <= a < frontier@.len() && frontier@[a] == x;
                assert(reached_by(idx, frontier@, frontier@.len() as int, y));
            }
        }
        assert(ring@.to_set() =~= g);
        assert(visited@.to_set() =~= v0.to_set() + ring@.to_set());
    }
    ring
}

/// Joining two sequences without duplicates and without a common element
/// gives one without duplicates, holding both.
proof fn lemma_concat_disjoint(a: Seq<u64>, b: Seq<u64>)
    requires
        a.no_duplicates(),
        b.no_duplicates(),
        forall|x: u64| a.contains(x) ==> !b.contains(x),
    ensures
        (a + b).no_duplicates(),
        (a + b).to_set() == a.to_set() + b.to_set(),
{
    let c = a + b;
    assert forall|i: int, j: int| 0 <= i < c.len() && 0 <= j < c.len() && i != j implies c[i] != c[j] by {
        if i < a.len() && j >= a.len() {
            assert(a.contains(c[i]));
            assert(b[j - a.len()] == c[j]);
            assert(b.contains(c[j]));
        } else if j < a.len() && i >= a.len() {
            assert(a.contains(c[j]));
            assert(b[i - a.len()] == c[i]);
            assert(b.contains(c[i]));
        } else if i < a.len() {
            assert(c[i] == a[i] && c[j] == a[j]);
        } else {
            assert(c[i] == b[i - a.len()] && c[j] == b[j - a.len()]);
        }
    }
    assert forall|x: u64| c.to_set().contains(x) <==> (a.to_set() + b.to_set()).contains(x) by {
        if c.contains(x) {
            let k = choose|k: int| 0 <= k < c.len() && c[k] == x;
            if k < a.len() {
                assert(a[k] == x);
            } else {
                assert(b[k - a.len()] == x);
            }
        }
        if a.contains(x) {
            let k = choose|k: int| 0 <= k < a.len() && a[k] == x;
            assert(c[k] == x);
        }
        if b.contains(x) {
            let k = choose|k: int| 0 <= k < b.len() && b[k] == x;
            assert(c[k + a.len()] == x);
        }
    }
    assert(c.to_set() =~= a.to_set() + b.to_set());
}

/// Collects the neighbourhood of `focus` out to `depth` undirected hops, in
/// drawing order.
fn collect_neighborhood(index: &Index, focus: u64, depth: usize) -> (order: Vec<u64>)
    ensures
        order@ == neighborhood(*index, focus, depth as nat),
        order@.no_duplicates(),
        order@.to_set() == rings(*index, focus, depth as nat).1,
{
    let ghost idx = *index;
    let mut order: Vec<u64> = Vec::new();
    order.push(focus);
    let mut visited: Vec<u64> = Vec::new();
    visited.push(focus);
    let mut frontier: Vec<u64> = Vec::new();
    frontier.push(focus);
    proof {
        assert(order@ =~= seq![focus]);
        assert forall|x: u64| order@.to_set().contains(x) <==> set![focus].contains(x) by {
            if x == focus {
                assert(order@[0] == x);
            }
        }
        assert(order@.to_set() =~= set![focus]);
        assert forall|x: u64| visited@.to_set().contains(x) <==> set![focus].contains(x) by {
            if x == focus {
                assert(visited@[0] == x);
            }
        }
        assert forall|x: u64| frontier@.to_set().contains(x) <==> set![focus].contains(x) by {
            if x == focus {
                assert(frontier@[0] == x);
            }
        }
        assert(visited@.to_set() =~= set![focus]);
        assert(frontier@.to_set() =~= set![focus]);
    }
    let mut d: usize = 0;
    while d < depth
        invariant
            idx == *index,
            d <= depth,
            order@ == neighborhood(idx, focus, d as nat),
            order@.no_duplicates(),
            order@.to_set() == rings(idx, focus, d as nat).1,
            visited@.to_set() == rings(idx, focus, d as nat).1,
            frontier@.to_set() == rings(idx, focus, d as nat).0,
        ensures
            order@ == neighborhood(idx, focus, depth as nat),
            order@.no_duplicates(),
            order@.to_set() == rings(idx, focus, depth as nat).1,
        decreases depth - d,
    {
        let ring = next_ring(index, &frontier, &mut visited);
        let sorted = sort_ids(index, ring);
        let ghost before = order@;
        let mut k: usize = 0;
        while k < sorted.len()
            invariant
                k <= sorted@.len(),
                order@ == before + sorted@.take(k as int),
            decreases sorted.len() - k,
        {
            order.push(sorted[k]);
            assert(sorted@.take(k + 1) =~= sorted@.take(k as int).push(sorted@[k as int]));
            k = k + 1;
        }
        d = d + 1;
        proof {
            assert(sorted@.take(sorted@.len() as int) =~= sorted@);
            lemma_listing_chosen(idx, sorted@, rings(idx, focus, d as nat).0);
            assert forall|x: u64| before.contains(x) implies !sorted@.contains(x) by {
                assert(before.to_set().contains(x));
                assert(rings(idx, focus, (d - 1) as nat).1.contains(x));
                assert(!rings(idx, focus, d as nat).0.contains(x));
                assert(!sorted@.to_set().contains(x));
            }
            lemma_concat_disjoint(before, sorted@);
        }
        let done = sorted.len() == 0;
        frontier = sorted;
        if done {
            proof {
                assert(rings(idx, focus, d as nat).0 =~= Set::<u64>::empty());
                lemma_rings_settle(idx, focus, d as nat, depth as nat);
            }
            break;
        }
    }
    order
}

// ── text pieces ─────────────────────────────────────────────────────────────

/// One character of a label, HTML-escaped: `&`, `<`, `>` and `"` become
/// their entities, every other character stands for itself.
pub open spec fn escaped_char(c: char) -> Seq<char> {
    if c == '&' {
        seq!['&', 'a', 'm', 'p', ';']
    } else if c == '<' {
        seq!['&', 'l', 't', ';']
    } else if c == '>' {
        seq!['&', 'g', 't', ';']
    } else if c == '"' {
        seq!['&', 'q', 'u', 'o', 't', ';']
    } else {
        seq![c]
    }
}

/// A label, HTML-escaped character by character.
pub open spec fn escape_label(s: Seq<char>) -> Seq<char>
    decreases s.len(),
{
    if s.len() == 0 {
        seq![]
    } else {
        escape_label(s.drop_last()) + escaped_char(s.last())
    }
}

/// Appends `s`, HTML-escaped.
fn push_escaped(out: &mut String, s: &str)
    ensures
        final(out)@ == old(out)@ + escape_label(s@),
{
    let cs = chars_of(s);
    let ghost start = out@;
    let mut i: usize = 0;
    while i < cs.len()
        invariant
            i <= cs@.len(),
            cs@ == s@,
            out@ == start + escape_label(cs@.take(i as int)),
        decreases cs.len() - i,
    {
        let c = cs[i];
        if c == '&' {
            push_str(out, "&amp;");
        } else if c == '<' {
            push_str(out, "&lt;");
        } else if c == '>' {
            push_str(out, "&gt;");
        } else if c == '"' {
            push_str(out, "&quot;");
        } else {
            push_char(out, c);
        }
        proof {
            reveal_strlit("&amp;");
            reveal_strlit("&lt;");
            reveal_strlit("&gt;");
            reveal_strlit("&quot;");
            assert(cs@.take(i + 1).drop_last() =~= cs@.take(i as int));
            assert(out@ =~= start + escape_label(cs@.take(i + 1)));
        }
        i = i + 1;
    }
    assert(cs@.take(cs.len() as int) =~= cs@);
}

/// A generated node id: a letter followed by a position in decimal.
pub open spec fn node_name(letter: char, i: nat) -> Seq<char> {
    seq![letter] + decimal(i)
}

/// Appends a generated node id.
fn push_node_name(out: &mut String, letter: char, i: usize)
    ensures
        final(out)@ == old(out)@ + node_name(letter, i as nat),
{
    let mut cs: Vec<char> = Vec::new();
    cs.push(letter);
    push_decimal(&mut cs, i as u64);
    assert(cs@ =~= node_name(letter, i as nat));
    push_chars(out, &cs);
}

/// The declaration line of a node: its id, its quoted escaped label, and a
/// class marker (possibly empty).
pub open spec fn node_line(name: Seq<char>, label: Seq<char>, class: Seq<char>) -> Seq<char> {
    "    "@ + name + "[\""@ + escape_label(label) + "\"]"@ + class + "\n"@
}

/// One edge line, styled by kind and boundary status. A boundary crossing is
/// drawn thick and labelled `boundary`, whatever its kind; otherwise a virtual
/// edge is dashed and labelled `dyn`, and a static one is a solid arrow.
pub open spec fn edge_line(from: Seq<char>, to: Seq<char>, kind: EdgeKind, boundary: bool) -> Seq<char> {
    if boundary {
        "    "@ + from + " ==>|boundary| "@ + to + "\n"@
    } else if kind == EdgeKind::Virtual {
        "    "@ + from + " -.->|dyn| "@ + to + "\n"@
    } else {
        "    "@ + from + " --> "@ + to + "\n"@
    }
}

/// Appends one edge line between two generated node ids.
fn push_edge_line(out: &mut String, fl: char, fi: usize, tl: char, ti: usize, kind: EdgeKind, boundary: bool)
    ensures
        final(out)@ == old(out)@ + edge_line(node_name(fl, fi as nat), node_name(tl, ti as nat), kind, boundary),
{
    let ghost start = out@;
    push_str(out, "    ");
    push_node_name(out, fl, fi);
    if boundary {
        push_str(out, " ==>|boundary| ");
    } else if kind == EdgeKind::Virtual {
        push_str(out, " -.->|dyn| ");
    } else {
        push_str(out, " --> ");
    }
    push_node_name(out, tl, ti);
    push_str(out, "\n");
    assert(out@ =~= start + edge_line(node_name(fl, fi as nat), node_name(tl, ti as nat), kind, boundary));
}

// ── the drawing ─────────────────────────────────────────────────────────────

/// The rank of an edge kind in the edge order: static before virtual.
pub open spec fn kind_rank(k: EdgeKind) -> u64 {
    match k {
        EdgeKind::Static => 0,
        EdgeKind::Virtual => 1,
    }
}

/// The order key of an edge: its source's path and id, its target's path and
/// id (an id naming no symbol has the empty path), then its kind.
pub open spec fn edge_key(idx: Index, e: Edge) -> Seq<u64> {
    id_key(idx, e.from.0) + id_key(idx, e.to.0) + seq![kind_rank(e.kind)]
}

/// An edge paired with its order key.
pub open spec fn edge_entry(idx: Index) -> spec_fn(Edge) -> (Seq<u64>, Edge) {
    |e: Edge| (edge_key(idx, e), e)
}

/// Every edge of the index, stably sorted by [`edge_key`]: the order edges
/// are drawn in.
pub open spec fn sorted_edges(idx: Index) -> Seq<Edge> {
    sort_keyed(idx.edges@.map_values(edge_entry(idx))).map_values(|p: (Seq<u64>, Edge)| p.1)
}

/// What drawing edges accumulates: the edge lines, the ids given a synthetic
/// boundary node (in first-seen order), whether a drawn edge is virtual, and
/// whether a drawn edge leaves the workspace.
pub type EdgeDrawing = (Seq<char>, Seq<u64>, bool, bool);

/// Drawing one edge among the `kept` symbols. An edge is drawn when its
/// source is kept and its target is either kept or outside the workspace; an
/// outside target that is not kept lands on a synthetic `b<i>` node, one per
/// distinct target. Only drawn edges raise the flags.
pub open spec fn draw_edge(idx: Index, kept: Seq<u64>, st: EdgeDrawing, e: Edge) -> EdgeDrawing {
    if !kept.contains(e.from.0) {
        st
    } else {
        let from = node_name('n', kept.index_of(e.from.0) as nat);
        let tb = is_boundary(idx, e.to.0);
        let v = e.kind == EdgeKind::Virtual;
        if kept.contains(e.to.0) {
            (st.0 + edge_line(from, node_name('n', kept.index_of(e.to.0) as nat), e.kind, tb), st.1, st.2 || v, st.3 || tb)
        } else if tb {
            let seen = st.1.contains(e.to.0);
            let b = if seen { st.1.index_of(e.to.0) } else { st.1.len() as int };
            (
                st.0 + edge_line(from, node_name('b', b as nat), e.kind, true),
                if seen { st.1 } else { st.1.push(e.to.0) },
                st.2 || v,
                true,
            )
        } else {
            st
        }
    }
}

/// Drawing the edges `es`, in order.
pub open spec fn draw_edges(idx: Index, kept: Seq<u64>, es: Seq<Edge>) -> EdgeDrawing
    decreases es.len(),
{
    if es.len() == 0 {
        (seq![], seq![], false, false)
    } else {
        draw_edge(idx, kept, draw_edges(idx, kept, es.drop_last()), es.last())
    }
}

/// The class marker of a drawn symbol.
pub open spec fn node_class(idx: Index, focus: u64, id: u64) -> Seq<char> {
    if id == focus {
        ":::focus"@
    } else if is_boundary(idx, id) {
        ":::boundary"@
    } else {
        seq![]
    }
}

/// The declarations of the first `n` kept symbols, `n<i>` for the `i`-th.
pub open spec fn node_lines(idx: Index, focus: u64, kept: Seq<u64>, n: nat) -> Seq<char>
    decreases n,
{
    if n == 0 || n > kept.len() {
        seq![]
    } else {
        node_lines(idx, focus, kept, (n - 1) as nat) + node_line(
            node_name('n', (n - 1) as nat),
            path_of(idx, kept[n - 1]),
            node_class(idx, focus, kept[n - 1]),
        )
    }
}

/// The label of a synthetic boundary node: the path of the symbol its id
/// names, or `external` for an id that names none.
pub open spec fn boundary_label(idx: Index, id: u64) -> Seq<char> {
    if known(idx, id) {
        symbol_of(idx, id).fq_path@
    } else {
        "external"@
    }
}

/// The declarations of the first `n` synthetic boundary nodes.
pub open spec fn boundary_lines(idx: Index, bs: Seq<u64>, n: nat) -> Seq<char>
    decreases n,
{
    if n == 0 || n > bs.len() {
        seq![]
    } else {
        boundary_lines(idx, bs, (n - 1) as nat) + node_line(
            node_name('b', (n - 1) as nat),
            boundary_label(idx, bs[n - 1]),
            ":::boundary"@,
        )
    }
}

/// The note drawn when the node cap hides `hidden` of `total` symbols.
pub open spec fn trunc_line(hidden: nat, total: nat) -> Seq<char> {
    "    trunc_note[\"+"@ + decimal(hidden) + " more not shown (total "@ + decimal(total)
        + ")\"]:::trunc\n"@
}

/// The style classes the markers refer to.
pub open spec fn class_defs() -> Seq<char> {
    "    classDef focus fill:#ffd54f,stroke:#333,stroke-width:2px;\n"@
        + "    classDef boundary fill:#eeeeee,stroke:#999,stroke-dasharray:4 3;\n"@
        + "    classDef trunc fill:#ffffff,stroke:#c62828,stroke-dasharray:2 2;\n"@
}

/// The drawn symbols: the neighbourhood, cut to the first `node_limit`.
pub open spec fn kept_ids(idx: Index, focus: u64, depth: nat, node_limit: nat) -> Seq<u64> {
    let order = neighborhood(idx, focus, depth);
    if order.len() > node_limit {
        order.take(node_limit as int)
    } else {
        order
    }
}

/// The flowchart drawn for a focus that names a symbol: a header, the kept
/// symbols, the synthetic boundary nodes, the truncation note when the cap
/// cut the neighbourhood, the edges, and the class definitions.
pub open spec fn flowchart(idx: Index, focus: u64, depth: nat, node_limit: nat) -> Seq<char> {
    let order = neighborhood(idx, focus, depth);
    let kept = kept_ids(idx, focus, depth, node_limit);
    let drawn = draw_edges(idx, kept, sorted_edges(idx));
    "flowchart TD\n"@ + node_lines(idx, focus, kept, kept.len()) + boundary_lines(idx, drawn.1, drawn.1.len())
        + (if order.len() > node_limit {
        trunc_line((order.len() - kept.len()) as nat, order.len())
    } else {
        seq![]
    }) + drawn.0 + class_defs()
}

/// The flowchart drawn for a focus that names no symbol: a header and a
/// comment, nothing else.
pub open spec fn missing_focus(id: u64) -> Seq<char> {
    "flowchart TD\n    %% focus symbol id "@ + decimal(id as nat) + " not found in index\n"@
}

/// An edge is drawn when it leaves a kept symbol for a kept symbol or for a
/// target outside the workspace.
pub open spec fn drawn_edge(idx: Index, kept: Seq<u64>, e: Edge) -> bool {
    kept.contains(e.from.0) && (kept.contains(e.to.0) || is_boundary(idx, e.to.0))
}

/// The distinct targets of the drawn virtual edges.
pub open spec fn virtual_targets(idx: Index, kept: Seq<u64>) -> Set<u64> {
    Set::new(
        |t: u64|
            exists|j: int|
                0 <= j < idx.edges@.len() && (#[trigger] idx.edges@[j]).kind == EdgeKind::Virtual
                    && drawn_edge(idx, kept, idx.edges@[j]) && idx.edges@[j].to.0 == t,
    )
}

/// In a sequence without duplicates, an element's position is the one it is
/// found at.
proof fn lemma_index_of(s: Seq<u64>, i: int)
    requires
        s.no_duplicates(),
        0 <= i < s.len(),
    ensures
        s.contains(s[i]),
        s.index_of(s[i]) == i,
{
    assert(s[i] == s[i]);
    let k = s.index_of(s[i]);
    assert(0 <= k < s.len() && s[k] == s[i]);
}

/// The first position of `x` in `v`.
fn position(v: &Vec<u64>, x: u64) -> (r: Option<usize>)
    ensures
        match r {
            Some(p) => p < v@.len() && v@[p as int] == x,
            None => !v@.contains(x),
        },
{
    let mut i: usize = 0;
    while i < v.len()
        invariant
            i <= v@.len(),
            forall|k: int| 0 <= k < i ==> v@[k] != x,
        decreases v.len() - i,
    {
        if v[i] == x {
            return Some(i);
        }
        i = i + 1;
    }
    None
}

/// The order key of an edge.
fn edge_key_of(index: &Index, e: &Edge) -> (k: Vec<u64>)
    ensures
        k@ == edge_key(*index, *e),
{
    let mut k = key_of_id(index, e.from.0);
    let t = key_of_id(index, e.to.0);
    let ghost k0 = k@;
    let mut i: usize = 0;
    while i < t.len()
        invariant
            i <= t@.len(),
            k@ == k0 + t@.take(i as int),
        decreases t.len() - i,
    {
        k.push(t[i]);
        assert(t@.take(i + 1) =~= t@.take(i as int).push(t@[i as int]));
        i = i + 1;
    }
    assert(t@.take(t.len() as int) =~= t@);
    let rank: u64 = match e.kind {
        EdgeKind::Static => 0,
        EdgeKind::Virtual => 1,
    };
    k.push(rank);
    assert(k@ =~= edge_key(*index, *e));
    k
}

/// Every edge of the index in drawing order.
fn sort_edges(index: &Index) -> (r: Vec<Edge>)
    ensures
        r@ == sorted_edges(*index),
{
    let ghost idx = *index;
    let mut items: Vec<Keyed<Edge>> = Vec::new();
    let mut i: usize = 0;
    while i < index.edges.len()
        invariant
            idx == *index,
            i <= idx.edges@.len(),
            keyed_view(items@) == idx.edges@.take(i as int).map_values(edge_entry(idx)),
        decreases idx.edges@.len() - i,
    {
        let e = index.edges[i];
        let k = edge_key_of(index, &e);
        let ghost before = items@;
        items.push(Keyed { key: k, item: e });
        proof {
            assert(idx.edges@.take(i + 1) =~= idx.edges@.take(i as int).push(e));
            assert(keyed_view(items@) =~= keyed_view(before).push((k@, e)));
            assert(idx.edges@.take(i + 1).map_values(edge_entry(idx)) =~= idx.edges@.take(i as int).map_values(edge_entry(idx)).push((k@, e)));
        }
        i = i + 1;
    }
    assert(idx.edges@.take(idx.edges@.len() as int) =~= idx.edges@);
    let sorted = sort_by_key(items);
    let r = unkey(sorted);
    assert(r@ =~= sorted_edges(idx));
    r
}

/// Draws the edges among the `kept` symbols.
fn draw(index: &Index, kept: &Vec<u64>, es: &Vec<Edge>) -> (r: (String, Vec<u64>, bool, bool))
    requires
        kept@.no_duplicates(),
    ensures
        (r.0@, r.1@, r.2, r.3) == draw_edges(*index, kept@, es@),
        r.1@.no_duplicates(),
{
    let ghost idx = *index;
    let mut lines = String::new();
    let mut bnodes: Vec<u64> = Vec::new();
    let mut over = false;
    let mut bound = false;
    let mut i: usize = 0;
    proof {
        assert(es@.take(0) =~= Seq::<Edge>::empty());
        assert(lines@ =~= Seq::<char>::empty());
        assert(bnodes@ =~= Seq::<u64>::empty());
    }
    while i < es.len()
        invariant
            idx == *index,
            kept@.no_duplicates(),
            i <= es@.len(),
            bnodes@.no_duplicates(),
            (lines@, bnodes@, over, bound) == draw_edges(idx, kept@, es@.take(i as int)),
        decreases es.len() - i,
    {
        let e = es[i];
        let ghost st = (lines@, bnodes@, over, bound);
        proof {
            assert(es@.take(i + 1).drop_last() =~= es@.take(i as int));
            assert(es@.take(i + 1).last() == e);
        }
        match position(kept, e.from.0) {
            None => {},
            Some(fp) => {
                proof { lemma_index_of(kept@, fp as int); }
                let tb = is_boundary_target(index, e.to.0);
                match position(kept, e.to.0) {
                    Some(tp) => {
                        proof { lemma_index_of(kept@, tp as int); }
                        push_edge_line(&mut lines, 'n', fp, 'n', tp, e.kind, tb);
                        if e.kind == EdgeKind::Virtual {
                            over = true;
                        }
                        if tb {
                            bound = true;
                        }
                    },
                    None => {
                        if tb {
                            let b = match position(&bnodes, e.to.0) {
                                Some(b) => {
                                    proof { lemma_index_of(bnodes@, b as int); }
                                    b
                                },
                                None => {
                                    let ghost b0 = bnodes@;
                                    bnodes.push(e.to.0);
                                    assert forall|a: int, c: int| 0 <= a < bnodes@.len() && 0 <= c < bnodes@.len() && a != c
                                        implies bnodes@[a] != bnodes@[c] by {
                                        if a == b0.len() {
                                            assert(bnodes@[c] == b0[c]);
                                        } else if c == b0.len() {
                                            assert(bnodes@[a] == b0[a]);
                                        } else {
                                            assert(bnodes@[a] == b0[a] && bnodes@[c] == b0[c]);
                                        }
                                    }
                                    bnodes.len() - 1
                                },
                            };
                            push_edge_line(&mut lines, 'n', fp, 'b', b, e.kind, true);
                            if e.kind == EdgeKind::Virtual {
                                over = true;
                            }
                            bound = true;
                        }
                    },
                }
            },
        }
        assert((lines@, bnodes@, over, bound) == draw_edge(idx, kept@, st, e));
        i = i + 1;
    }
    assert(es@.take(es@.len() as int) =~= es@);
    (lines, bnodes, over, bound)
}

/// The number of distinct targets of the drawn virtual edges.
fn count_virtual_targets(index: &Index, kept: &Vec<u64>) -> (n: usize)
    ensures
        n == virtual_targets(*index, kept@).len(),
{
    let ghost idx = *index;
    let mut targets: Vec<u64> = Vec::new();
    let mut j: usize = 0;
    while j < index.edges.len()
        invariant
            idx == *index,
            j <= idx.edges@.len(),
            targets@.no_duplicates(),
            forall|t: u64| #![trigger targets@.contains(t)] targets@.contains(t) <==> exists|jj: int|
                0 <= jj < j && (#[trigger] idx.edges@[jj]).kind == EdgeKind::Virtual
                    && drawn_edge(idx, kept@, idx.edges@[jj]) && idx.edges@[jj].to.0 == t,
        decreases idx.edges@.len() - j,
    {
        let e = index.edges[j];
        let ghost t0 = targets@;
        let drawn = position(kept, e.from.0).is_some() && (position(kept, e.to.0).is_some() || is_boundary_target(index, e.to.0));
        if e.kind == EdgeKind::Virtual && drawn && !contains_id(&targets, e.to.0) {
            targets.push(e.to.0);
            assert forall|a: int, c: int| 0 <= a < targets@.len() && 0 <= c < targets@.len() && a != c
                implies targets@[a] != targets@[c] by {
                if a == t0.len() {
                    assert(targets@[c] == t0[c]);
                } else if c == t0.len() {
                    assert(targets@[a] == t0[a]);
                } else {
                    assert(targets@[a] == t0[a] && targets@[c] == t0[c]);
                }
            }
        }
        proof {
            assert(idx.edges@[j as int] == e);
            assert forall|t: u64| #![trigger targets@.contains(t)] targets@.contains(t) <==> exists|jj: int|
                0 <= jj < j + 1 && (#[trigger] idx.edges@[jj]).kind == EdgeKind::Virtual
                    && drawn_edge(idx, kept@, idx.edges@[jj]) && idx.edges@[jj].to.0 == t by {
                if targets@.contains(t) {
                    let k = choose|k: int| 0 <= k < targets@.len() && targets@[k] == t;
                    if k < t0.len() {
                        assert(t0[k] == t);
                        assert(t0.contains(t));
                    }
                }
                if t0.contains(t) {
                    let k = choose|k: int| 0 <= k < t0.len() && t0[k] == t;
                    assert(targets@[k] == t);
                }
                if e.kind == EdgeKind::Virtual && drawn_edge(idx, kept@, e) && e.to.0 == t {
                    if !t0.contains(t) {
                        assert(targets@[t0.len() as int] == t);
                    }
                }
            }
        }
        j = j + 1;
    }
    proof {
        let vt = virtual_targets(idx, kept@);
        assert forall|t: u64| targets@.to_set().contains(t) <==> vt.contains(t) by {
            if targets@.contains(t) {
                let jj = choose|jj: int| 0 <= jj < idx.edges@.len() && (#[trigger] idx.edges@[jj]).kind == EdgeKind::Virtual
                    && drawn_edge(idx, kept@, idx.edges@[jj]) && idx.edges@[jj].to.0 == t;
                assert(vt.contains(t));
            }
        }
        assert(targets@.to_set() =~= vt);
        targets@.unique_seq_to_set();
    }
    targets.len()
}

/// The neighbourhood answer for `focus`. A focus that names no symbol gets
/// the comment-only flowchart with a total of 0 and no flag raised. Otherwise
/// the text is [`flowchart`], `total` counts the whole neighbourhood (every
/// symbol within `depth` hops), `truncated` says whether the cap cut it, and
/// the flags reflect the drawn edges: over-approximated (counting the distinct
/// targets of the drawn virtual edges) when one is virtual, across the
/// boundary when one leaves the workspace.
pub open spec fn rendered(idx: Index, focus: u64, depth: usize, node_limit: usize, text: Seq<char>, m: Marks) -> bool {
    if !known(idx, focus) {
        &&& text == missing_focus(focus)
        &&& m.3 == 0
        &&& !m.2
        &&& m.0 is None
        &&& m.1 is None
        &&& !m.4
    } else {
        let order = neighborhood(idx, focus, depth as nat);
        let kept = kept_ids(idx, focus, depth as nat, node_limit as nat);
        let drawn = draw_edges(idx, kept, sorted_edges(idx));
        &&& text == flowchart(idx, focus, depth as nat, node_limit as nat)
        &&& m.3 == order.len()
        &&& m.3 == rings(idx, focus, depth as nat).1.len()
        &&& m.2 == (order.len() > node_limit)
        &&& m.0 is None
        &&& reason_is(m.1, drawn.2, virtual_targets(idx, kept).len() as int)
        &&& m.4 == drawn.3
    }
}

/// Render the bounded neighbourhood around `focus`, out to `depth` hops of
/// callers and callees, as Mermaid `flowchart` text, drawing at most
/// `node_limit` workspace symbols.
///
/// `total` is the full neighbourhood size, `truncated` is set when the cap
/// cut it, `over_approximated` when a drawn edge is virtual (counting the
/// distinct targets of the drawn virtual edges) and `boundary_applies` when
/// a drawn edge leaves the workspace. A focus that names no symbol yields a
/// valid flowchart holding only a comment, with a total of 0.
pub fn render_neighborhood(index: &Index, focus: SymbolId, depth: usize, node_limit: usize) -> (r: Envelope<String>)
    ensures
        rendered(*index, focus.0, depth, node_limit, r.data@, marks(r)),
{
    let ghost idx = *index;
    if lookup(index, focus.0).is_none() {
        let mut text = String::new();
        push_str(&mut text, "flowchart TD\n    %% focus symbol id ");
        let digits = decimal_of(focus.0);
        push_chars(&mut text, &digits);
        push_str(&mut text, " not found in index\n");
        assert(text@ =~= missing_focus(focus.0));
        return Envelope::exact(text).with_total(0);
    }
    let order = collect_neighborhood(index, focus.0, depth);
    proof {
        order@.unique_seq_to_set();
    }
    let total = order.len();
    let truncated = total > node_limit;
    let (kept, _) = truncate(order, node_limit);
    assert(kept@ == kept_ids(idx, focus.0, depth as nat, node_limit as nat));
    proof {
        if truncated {
            let o = neighborhood(idx, focus.0, depth as nat);
            assert forall|a: int, c: int| 0 <= a < kept@.len() && 0 <= c < kept@.len() && a != c implies kept@[a] != kept@[c] by {
                assert(kept@[a] == o[a] && kept@[c] == o[c]);
            }
        }
    }
    let es = sort_edges(index);
    let (lines, bnodes, over, bound) = draw(index, &kept, &es);

    let mut out = String::new();
    push_str(&mut out, "flowchart TD\n");
    let ghost head = out@;
    let mut i: usize = 0;
    while i < kept.len()
        invariant
            idx == *index,
            i <= kept@.len(),
            out@ == head + node_lines(idx, focus.0, kept@, i as nat),
        decreases kept.len() - i,
    {
        let id = kept[i];
        let ghost before = out@;
        push_str(&mut out, "    ");
        push_node_name(&mut out, 'n', i);
        push_str(&mut out, "[\"");
        match lookup(index, id) {
            Some(p) => {
                push_escaped(&mut out, index.symbols[p].fq_path.as_str());
            },
            None => {
                assert(escape_label(path_of(idx, id)) =~= Seq::<char>::empty());
            },
        }
        push_str(&mut out, "\"]");
        if id == focus.0 {
            push_str(&mut out, ":::focus");
        } else if is_boundary_target(index, id) {
            push_str(&mut out, ":::boundary");
        }
        push_str(&mut out, "\n");
        assert(out@ =~= before + node_line(node_name('n', i as nat), path_of(idx, id), node_class(idx, focus.0, id)));
        i = i + 1;
    }
    let ghost after_nodes = out@;
    let mut k: usize = 0;
    while k < bnodes.len()
        invariant
            idx == *index,
            k <= bnodes@.len(),
            out@ == after_nodes + boundary_lines(idx, bnodes@, k as nat),
        decreases bnodes.len() - k,
    {
        let id = bnodes[k];
        let ghost before = out@;
        push_str(&mut out, "    ");
        push_node_name(&mut out, 'b', k);
        push_str(&mut out, "[\"");
        match lookup(index, id) {
            Some(p) => {
                push_escaped(&mut out, index.symbols[p].fq_path.as_str());
            },
            None => {
                push_escaped(&mut out, "external");
            },
        }
        push_str(&mut out, "\"]");
        push_str(&mut out, ":::boundary");
        push_str(&mut out, "\n");
        assert(out@ =~= before + node_line(node_name('b', k as nat), boundary_label(idx, id), ":::boundary"@));
        k = k + 1;
    }
    let ghost after_bnodes = out@;
    if truncated {
        push_str(&mut out, "    trunc_note[\"+");
        let hidden = decimal_of((total - kept.len()) as u64);
        push_chars(&mut out, &hidden);
        push_str(&mut out, " more not shown (total ");
        let all = decimal_of(total as u64);
        push_chars(&mut out, &all);
        push_str(&mut out, ")\"]:::trunc\n");
        assert(out@ =~= after_bnodes + trunc_line((total - kept@.len()) as nat, total as nat));
    }
    let ghost after_trunc = out@;
    push_str(&mut out, lines.as_str());
    push_str(&mut out, "    classDef focus fill:#ffd54f,stroke:#333,stroke-width:2px;\n");
    push_str(&mut out, "    classDef boundary fill:#eeeeee,stroke:#999,stroke-dasharray:4 3;\n");
    push_str(&mut out, "    classDef trunc fill:#ffffff,stroke:#c62828,stroke-dasharray:2 2;\n");
    assert(out@ =~= after_trunc + lines@ + class_defs());
    assert(out@ =~= flowchart(idx, focus.0, depth as nat, node_limit as nat));

    let env = Envelope::exact(out).with_total(total).with_truncated(truncated).with_boundary(bound);
    if over {
        let count = count_virtual_targets(index, &kept);
        env.with_over_approximation(Reason::dyn_dispatch(DYN_TRAIT_MARKER, count))
    } else {
        env
    }
}

// ── laws ────────────────────────────────────────────────────────────────────

/// An escaped label cannot break its quoting: it holds no `<`, `>` or `"`,
/// and escaping adds no line break that the label did not have.
pub proof fn lemma_escaped_label_safe(s: Seq<char>)
    ensures
        forall|i: int|
            0 <= i < escape_label(s).len() ==> #[trigger] escape_label(s)[i] != '<' && escape_label(s)[i] != '>'
                && escape_label(s)[i] != '"' && (escape_label(s)[i] == '\n' ==> s.contains('\n')),
    decreases s.len(),
{
    if s.len() > 0 {
        let t = s.drop_last();
        lemma_escaped_label_safe(t);
        let e = escape_label(s);
        let et = escape_label(t);
        let ec = escaped_char(s.last());
        assert(e == et + ec);
        assert forall|i: int| 0 <= i < e.len() implies #[trigger] e[i] != '<' && e[i] != '>' && e[i] != '"' && (e[i]
            == '\n' ==> s.contains('\n')) by {
            if i < et.len() {
                assert(e[i] == et[i]);
                if et[i] == '\n' {
                    let k = choose|k: int| 0 <= k < t.len() && t[k] == '\n';
                    assert(s[k] == '\n');
                }
            } else {
                assert(e[i] == ec[i - et.len()]);
                if ec[i - et.len()] == '\n' {
                    assert(s[s.len() - 1] == '\n');
                }
            }
        }
    }
}

/// The focus is always the first symbol of its neighbourhood, so any
/// non-zero node cap draws it.
pub proof fn lemma_focus_first(idx: Index, focus: u64, depth: nat)
    ensures
        neighborhood(idx, focus, depth).len() >= 1,
        neighborhood(idx, focus, depth)[0] == focus,
    decreases depth,
{
    if depth > 0 {
        lemma_focus_first(idx, focus, (depth - 1) as nat);
    }
}

/// A deeper neighbourhood extends a shallower one: drawing order never
/// changes what a smaller radius already showed.
pub proof fn lemma_neighborhood_grows(idx: Index, focus: u64, d: nat, e: nat)
    requires
        d <= e,
    ensures
        neighborhood(idx, focus, d).is_prefix_of(neighborhood(idx, focus, e)),
    decreases e - d,
{
    if d < e {
        lemma_neighborhood_grows(idx, focus, d, (e - 1) as nat);
        let a = neighborhood(idx, focus, d);
        let b = neighborhood(idx, focus, (e - 1) as nat);
        let c = neighborhood(idx, focus, e);
        assert(c.subrange(0, b.len() as int) =~= b);
        assert(c.subrange(0, a.len() as int) =~= b.subrange(0, a.len() as int));
    } else {
        assert(neighborhood(idx, focus, d).subrange(0, neighborhood(idx, focus, d).len() as int) =~= neighborhood(idx, focus, d));
    }
}

// ── laws on the drawing ─────────────────────────────────────────────────────

/// `piece` occurs in `text`.
pub open spec fn holds_text(text: Seq<char>, piece: Seq<char>) -> bool {
    exists|i: int| 0 <= i && i + piece.len() <= text.len() && #[trigger] text.subrange(i, i + piece.len()) == piece
}

/// A text made of a head, a piece and a tail holds the piece.
proof fn lemma_holds_split(a: Seq<char>, piece: Seq<char>, b: Seq<char>)
    ensures
        holds_text(a + piece + b, piece),
{
    let t = a + piece + b;
    assert(t.subrange(a.len() as int, (a.len() + piece.len()) as int) =~= piece);
}

/// Drawing one more edge only appends to the lines drawn so far.
proof fn lemma_draw_edge_appends(idx: Index, kept: Seq<u64>, st: EdgeDrawing, e: Edge)
    ensures
        draw_edge(idx, kept, st, e).0 =~= st.0 + draw_edge(idx, kept, st, e).0.skip(st.0.len() as int),
{
}

/// The line of a drawn edge between two kept symbols is among the edge lines.
proof fn lemma_drawn_line(idx: Index, kept: Seq<u64>, es: Seq<Edge>, j: int) -> (ab: (Seq<char>, Seq<char>))
    requires
        0 <= j < es.len(),
        kept.contains(es[j].from.0),
        kept.contains(es[j].to.0),
    ensures
        draw_edges(idx, kept, es).0 == ab.0 + edge_line(
            node_name('n', kept.index_of(es[j].from.0) as nat),
            node_name('n', kept.index_of(es[j].to.0) as nat),
            es[j].kind,
            is_boundary(idx, es[j].to.0),
        ) + ab.1,
    decreases es.len(),
{
    let dl = es.drop_last();
    let st = draw_edges(idx, kept, dl);
    let r = draw_edges(idx, kept, es);
    assert(r == draw_edge(idx, kept, st, es.last()));
    if j == es.len() - 1 {
        (st.0, seq![])
    } else {
        assert(dl[j] == es[j]);
        let ab0 = lemma_drawn_line(idx, kept, dl, j);
        lemma_draw_edge_appends(idx, kept, st, es.last());
        let rest = r.0.skip(st.0.len() as int);
        let line = edge_line(
            node_name('n', kept.index_of(es[j].from.0) as nat),
            node_name('n', kept.index_of(es[j].to.0) as nat),
            es[j].kind,
            is_boundary(idx, es[j].to.0),
        );
        assert(r.0 =~= ab0.0 + line + (ab0.1 + rest));
        (ab0.0, ab0.1 + rest)
    }
}

/// The declaration of the first `n` kept symbols holds that of the `i`-th.
proof fn lemma_node_declared(idx: Index, focus: u64, kept: Seq<u64>, n: nat, i: int) -> (ab: (Seq<char>, Seq<char>))
    requires
        0 <= i < n <= kept.len(),
    ensures
        node_lines(idx, focus, kept, n) == ab.0 + node_line(node_name('n', i as nat), path_of(idx, kept[i]),
            node_class(idx, focus, kept[i])) + ab.1,
    decreases n,
{
    let prev = node_lines(idx, focus, kept, (n - 1) as nat);
    let last = node_line(node_name('n', (n - 1) as nat), path_of(idx, kept[n - 1]), node_class(idx, focus, kept[n - 1]));
    assert(node_lines(idx, focus, kept, n) == prev + last);
    if i == n - 1 {
        assert(prev + last =~= prev + last + seq![]);
        (prev, seq![])
    } else {
        let ab0 = lemma_node_declared(idx, focus, kept, (n - 1) as nat, i);
        let line = node_line(node_name('n', i as nat), path_of(idx, kept[i]), node_class(idx, focus, kept[i]));
        assert(prev + last =~= ab0.0 + line + (ab0.1 + last));
        (ab0.0, ab0.1 + last)
    }
}

/// Every edge of the index is among the edges in drawing order.
proof fn lemma_sorted_edges_hold(idx: Index, e: Edge)
    requires
        idx.edges@.contains(e),
    ensures
        sorted_edges(idx).contains(e),
{
    let src = idx.edges@.map_values(edge_entry(idx));
    lemma_sort_keyed_props(src);
    let sk = sort_keyed(src);
    let q = choose|q: int| 0 <= q < idx.edges@.len() && idx.edges@[q] == e;
    assert(src[q] == (edge_key(idx, e), e));
    assert(src.to_multiset().count(src[q]) > 0);
    assert(sk.to_multiset().count(src[q]) > 0);
    assert(sk.contains(src[q]));
    let i = choose|i: int| 0 <= i < sk.len() && sk[i] == src[q];
    assert(sorted_edges(idx)[i] == e);
}

/// In the rendered flowchart the `i`-th drawn symbol is the node `n<i>`: it
/// is declared under that id with its own path as the label, the focus
/// marked `focus` and a symbol outside the workspace marked `boundary`.
pub proof fn lemma_drawn_symbol_declared(
    idx: Index,
    focus: u64,
    depth: usize,
    node_limit: usize,
    text: Seq<char>,
    m: Marks,
    i: int,
)
    requires
        rendered(idx, focus, depth, node_limit, text, m),
        known(idx, focus),
        0 <= i < kept_ids(idx, focus, depth as nat, node_limit as nat).len(),
    ensures
        ({
            let kept = kept_ids(idx, focus, depth as nat, node_limit as nat);
            let class = if kept[i] == focus {
                ":::focus"@
            } else if is_boundary(idx, kept[i]) {
                ":::boundary"@
            } else {
                seq![]
            };
            holds_text(
                text,
                "    "@ + node_name('n', i as nat) + "[\""@ + escape_label(path_of(idx, kept[i])) + "\"]"@ + class
                    + "\n"@,
            )
        }),
{
    let order = neighborhood(idx, focus, depth as nat);
    let kept = kept_ids(idx, focus, depth as nat, node_limit as nat);
    let drawn = draw_edges(idx, kept, sorted_edges(idx));
    let ab = lemma_node_declared(idx, focus, kept, kept.len(), i);
    let line = node_line(node_name('n', i as nat), path_of(idx, kept[i]), node_class(idx, focus, kept[i]));
    let tail = boundary_lines(idx, drawn.1, drawn.1.len()) + (if order.len() > node_limit {
        trunc_line((order.len() - kept.len()) as nat, order.len())
    } else {
        seq![]
    }) + drawn.0 + class_defs();
    assert(text =~= ("flowchart TD\n"@ + ab.0) + line + (ab.1 + tail));
    lemma_holds_split("flowchart TD\n"@ + ab.0, line, ab.1 + tail);
}

/// In the rendered flowchart every drawn call between two drawn symbols is an
/// arrow that leaves the caller's node and ends at the callee's node: a
/// solid `-->` for a static call, a dashed `-.->|dyn|` for a dyn-dispatch
/// call, and a thick `==>|boundary|` when the callee lies outside the
/// workspace.
pub proof fn lemma_drawn_call_points_to_callee(
    idx: Index,
    focus: u64,
    depth: usize,
    node_limit: usize,
    text: Seq<char>,
    m: Marks,
    e: Edge,
)
    requires
        rendered(idx, focus, depth, node_limit, text, m),
        known(idx, focus),
        idx.edges@.contains(e),
        kept_ids(idx, focus, depth as nat, node_limit as nat).contains(e.from.0),
        kept_ids(idx, focus, depth as nat, node_limit as nat).contains(e.to.0),
    ensures
        ({
            let kept = kept_ids(idx, focus, depth as nat, node_limit as nat);
            let caller = node_name('n', kept.index_of(e.from.0) as nat);
            let callee = node_name('n', kept.index_of(e.to.0) as nat);
            let arrow = if is_boundary(idx, e.to.0) {
                " ==>|boundary| "@
            } else if e.kind == EdgeKind::Virtual {
                " -.->|dyn| "@
            } else {
                " --> "@
            };
            holds_text(text, "    "@ + caller + arrow + callee + "\n"@)
        }),
{
    let order = neighborhood(idx, focus, depth as nat);
    let kept = kept_ids(idx, focus, depth as nat, node_limit as nat);
    let es = sorted_edges(idx);
    lemma_sorted_edges_hold(idx, e);
    let j = choose|j: int| 0 <= j < es.len() && es[j] == e;
    let drawn = draw_edges(idx, kept, es);
    let ab = lemma_drawn_line(idx, kept, es, j);
    let caller = node_name('n', kept.index_of(e.from.0) as nat);
    let callee = node_name('n', kept.index_of(e.to.0) as nat);
    let line = edge_line(caller, callee, e.kind, is_boundary(idx, e.to.0));
    let head = "flowchart TD\n"@ + node_lines(idx, focus, kept, kept.len()) + boundary_lines(idx, drawn.1, drawn.1.len())
        + (if order.len() > node_limit {
        trunc_line((order.len() - kept.len()) as nat, order.len())
    } else {
        seq![]
    });
    assert(text =~= (head + ab.0) + line + (ab.1 + class_defs()));
    lemma_holds_split(head + ab.0, line, ab.1 + class_defs());
}

/// Drawing one more edge keeps the synthetic nodes given so far, in place.
proof fn lemma_draw_edge_keeps_nodes(idx: Index, kept: Seq<u64>, st: EdgeDrawing, e: Edge)
    ensures
        st.1.len() <= draw_edge(idx, kept, st, e).1.len(),
        forall|k: int| 0 <= k < st.1.len() ==> #[trigger] draw_edge(idx, kept, st, e).1[k] == st.1[k],
{
}

/// The line of a drawn edge from a kept symbol to an undrawn symbol outside
/// the workspace is among the edge lines, pointing at the synthetic node of
/// its target.
proof fn lemma_drawn_boundary_line(idx: Index, kept: Seq<u64>, es: Seq<Edge>, j: int) -> (r: (Seq<char>, Seq<char>, int))
    requires
        0 <= j < es.len(),
        kept.contains(es[j].from.0),
        !kept.contains(es[j].to.0),
        is_boundary(idx, es[j].to.0),
    ensures
        0 <= r.2 < draw_edges(idx, kept, es).1.len(),
        draw_edges(idx, kept, es).1[r.2] == es[j].to.0,
        draw_edges(idx, kept, es).0 == r.0 + edge_line(
            node_name('n', kept.index_of(es[j].from.0) as nat),
            node_name('b', r.2 as nat),
            es[j].kind,
            true,
        ) + r.1,
    decreases es.len(),
{
    let dl = es.drop_last();
    let st = draw_edges(idx, kept, dl);
    let d = draw_edges(idx, kept, es);
    assert(d == draw_edge(idx, kept, st, es.last()));
    lemma_draw_edge_keeps_nodes(idx, kept, st, es.last());
    if j == es.len() - 1 {
        let t = es[j].to.0;
        if st.1.contains(t) {
            let k = st.1.index_of(t);
            (st.0, seq![], k)
        } else {
            (st.0, seq![], st.1.len() as int)
        }
    } else {
        assert(dl[j] == es[j]);
        let r0 = lemma_drawn_boundary_line(idx, kept, dl, j);
        lemma_draw_edge_appends(idx, kept, st, es.last());
        let rest = d.0.skip(st.0.len() as int);
        let line = edge_line(node_name('n', kept.index_of(es[j].from.0) as nat), node_name('b', r0.2 as nat), es[j].kind, true);
        assert(d.0 =~= r0.0 + line + (r0.1 + rest));
        assert(d.1[r0.2] == st.1[r0.2]);
        (r0.0, r0.1 + rest, r0.2)
    }
}

/// The declaration of the first `n` synthetic nodes holds that of the `k`-th.
proof fn lemma_boundary_declared(idx: Index, bs: Seq<u64>, n: nat, k: int) -> (ab: (Seq<char>, Seq<char>))
    requires
        0 <= k < n <= bs.len(),
    ensures
        boundary_lines(idx, bs, n) == ab.0 + node_line(node_name('b', k as nat), boundary_label(idx, bs[k]), ":::boundary"@)
            + ab.1,
    decreases n,
{
    let prev = boundary_lines(idx, bs, (n - 1) as nat);
    let last = node_line(node_name('b', (n - 1) as nat), boundary_label(idx, bs[n - 1]), ":::boundary"@);
    assert(boundary_lines(idx, bs, n) == prev + last);
    if k == n - 1 {
        assert(prev + last =~= prev + last + seq![]);
        (prev, seq![])
    } else {
        let ab0 = lemma_boundary_declared(idx, bs, (n - 1) as nat, k);
        let line = node_line(node_name('b', k as nat), boundary_label(idx, bs[k]), ":::boundary"@);
        assert(prev + last =~= ab0.0 + line + (ab0.1 + last));
        (ab0.0, ab0.1 + last)
    }
}

/// The arrow of a boundary call, in the flowchart text.
proof fn lemma_boundary_arrow_held(idx: Index, focus: u64, depth: nat, node_limit: nat, e: Edge, j: int) -> (k: int)
    requires
        0 <= j < sorted_edges(idx).len(),
        sorted_edges(idx)[j] == e,
        kept_ids(idx, focus, depth, node_limit).contains(e.from.0),
        !kept_ids(idx, focus, depth, node_limit).contains(e.to.0),
        is_boundary(idx, e.to.0),
    ensures
        ({
            let kept = kept_ids(idx, focus, depth, node_limit);
            let drawn = draw_edges(idx, kept, sorted_edges(idx));
            &&& 0 <= k < drawn.1.len()
            &&& drawn.1[k] == e.to.0
            &&& holds_text(
                flowchart(idx, focus, depth, node_limit),
                "    "@ + node_name('n', kept.index_of(e.from.0) as nat) + " ==>|boundary| "@ + node_name('b', k as nat)
                    + "\n"@,
            )
        }),
{
    let order = neighborhood(idx, focus, depth);
    let kept = kept_ids(idx, focus, depth, node_limit);
    let es = sorted_edges(idx);
    let drawn = draw_edges(idx, kept, es);
    let r = lemma_drawn_boundary_line(idx, kept, es, j);
    let caller = node_name('n', kept.index_of(e.from.0) as nat);
    let line = edge_line(caller, node_name('b', r.2 as nat), e.kind, true);
    let head = "flowchart TD\n"@ + node_lines(idx, focus, kept, kept.len()) + boundary_lines(idx, drawn.1, drawn.1.len())
        + (if order.len() > node_limit {
        trunc_line((order.len() - kept.len()) as nat, order.len())
    } else {
        seq![]
    });
    assert(flowchart(idx, focus, depth, node_limit) =~= (head + r.0) + line + (r.1 + class_defs()));
    lemma_holds_split(head + r.0, line, r.1 + class_defs());
    r.2
}

/// The declaration of the `k`-th synthetic node, in the flowchart text.
proof fn lemma_boundary_node_held(idx: Index, focus: u64, depth: nat, node_limit: nat, k: int)
    requires
        0 <= k < draw_edges(idx, kept_ids(idx, focus, depth, node_limit), sorted_edges(idx)).1.len(),
    ensures
        holds_text(
            flowchart(idx, focus, depth, node_limit),
            node_line(
                node_name('b', k as nat),
                boundary_label(idx, draw_edges(idx, kept_ids(idx, focus, depth, node_limit), sorted_edges(idx)).1[k]),
                ":::boundary"@,
            ),
        ),
{
    let order = neighborhood(idx, focus, depth);
    let kept = kept_ids(idx, focus, depth, node_limit);
    let drawn = draw_edges(idx, kept, sorted_edges(idx));
    let nl = node_lines(idx, focus, kept, kept.len());
    let tl = if order.len() > node_limit {
        trunc_line((order.len() - kept.len()) as nat, order.len())
    } else {
        seq![]
    };
    let ab = lemma_boundary_declared(idx, drawn.1, drawn.1.len(), k);
    let decl = node_line(node_name('b', k as nat), boundary_label(idx, drawn.1[k]), ":::boundary"@);
    assert(flowchart(idx, focus, depth, node_limit) =~= ("flowchart TD\n"@ + nl + ab.0) + decl + (ab.1 + tl + drawn.0
        + class_defs()));
    lemma_holds_split("flowchart TD\n"@ + nl + ab.0, decl, ab.1 + tl + drawn.0 + class_defs());
}

/// `text` draws a thick `==>|boundary|` arrow from node `caller` to the
/// synthetic node `b<k>`, and declares `b<k>` with `label`, marked `boundary`.
pub open spec fn points_to_boundary_node(text: Seq<char>, caller: Seq<char>, label: Seq<char>, k: nat) -> bool {
    &&& holds_text(text, "    "@ + caller + " ==>|boundary| "@ + node_name('b', k) + "\n"@)
    &&& holds_text(text, "    "@ + node_name('b', k) + "[\""@ + escape_label(label) + "\"]"@ + ":::boundary"@ + "\n"@)
}

/// In the rendered flowchart a drawn call from a drawn symbol to one outside
/// the workspace that is not itself drawn is a thick `==>|boundary|` arrow
/// that leaves the caller's node and ends at a synthetic node `b<k>`,
/// declared with the callee's path (or `external` for an id that names no
/// symbol) and marked `boundary`.
pub proof fn lemma_boundary_call_points_outward(
    idx: Index,
    focus: u64,
    depth: usize,
    node_limit: usize,
    text: Seq<char>,
    m: Marks,
    e: Edge,
)
    requires
        rendered(idx, focus, depth, node_limit, text, m),
        known(idx, focus),
        idx.edges@.contains(e),
        kept_ids(idx, focus, depth as nat, node_limit as nat).contains(e.from.0),
        !kept_ids(idx, focus, depth as nat, node_limit as nat).contains(e.to.0),
        is_boundary(idx, e.to.0),
    ensures
        ({
            let kept = kept_ids(idx, focus, depth as nat, node_limit as nat);
            let caller = node_name('n', kept.index_of(e.from.0) as nat);
            let label = if known(idx, e.to.0) {
                symbol_of(idx, e.to.0).fq_path@
            } else {
                "external"@
            };
            exists|k: nat| #![trigger node_name('b', k)] points_to_boundary_node(text, caller, label, k)
        }),
{
    let es = sorted_edges(idx);
    lemma_sorted_edges_hold(idx, e);
    let j = choose|j: int| 0 <= j < es.len() && es[j] == e;
    let k = lemma_boundary_arrow_held(idx, focus, depth as nat, node_limit as nat, e, j);
    lemma_boundary_node_held(idx, focus, depth as nat, node_limit as nat, k);
    let label = if known(idx, e.to.0) {
        symbol_of(idx, e.to.0).fq_path@
    } else {
        "external"@
    };
    let kept = kept_ids(idx, focus, depth as nat, node_limit as nat);
    let caller = node_name('n', kept.index_of(e.from.0) as nat);
    let kn = k as nat;
    assert(text == flowchart(idx, focus, depth as nat, node_limit as nat));
    assert(holds_text(text, "    "@ + caller + " ==>|boundary| "@ + node_name('b', kn) + "\n"@));
    assert(holds_text(text, "    "@ + node_name('b', kn) + "[\""@ + escape_label(label) + "\"]"@ + ":::boundary"@ + "\n"@));
    assert(points_to_boundary_node(text, caller, label, kn));
}

} // verus!
