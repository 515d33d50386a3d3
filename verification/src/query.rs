//! Graph queries over a loaded [`Index`]: resolution, direct calls,
//! reachability, call paths, affected tests, reachable unsafe code and combined
//! impact.
//!
//! Every query returns an [`Envelope`] that carries its own uncertainty:
//!
//! - A walk that crosses a [`EdgeKind::Virtual`] (dyn-dispatch) edge sets
//!   `over_approximated` to a [`Reason::DynDispatch`] whose
//!   `implementor_count` is the number of distinct virtual targets folded in;
//!   its `trait_path` is the generic [`DYN_TRAIT_MARKER`].
//! - A walk that reaches an edge whose target is absent from the symbol table,
//!   or present but `foreign`, sets `boundary_applies`; such a target is a leaf.
//! - Queries that can return a large set take a `limit`, report the full
//!   `total`, and set `truncated` when the limit cut the answer short.
//!
//! Results are ordered by fully-qualified path, then id.

use std::collections::HashMap;
use vstd::prelude::*;

use crate::envelope::{Envelope, Reason, StaleInfo};
use crate::order::{encode_text, keyed_view, lex_lt, map_items, push_encoded, sort_by_key, sort_keyed, unkey, Keyed};
use crate::schema::{Edge, EdgeKind, Index, Symbol, SymbolId};
use crate::text::{chars_of, contains_chars, has_infix, lowercase_of, to_lowercase};

verus! {

broadcast use vstd::seq_lib::group_to_multiset_ensures;

/// The `trait_path` recorded on a [`Reason::DynDispatch`] produced by a walk:
/// an edge does not carry the dispatched trait's identity.
pub const DYN_TRAIT_MARKER: &'static str = "<dyn dispatch>";

/// Which way a walk runs.
#[derive(Debug, Clone, Copy, PartialEq, Eq, Structural)]
pub enum Direction {
    /// Successors: what the start symbol calls.
    Forward,
    /// Predecessors: what calls the start symbol.
    Backward,
}

/// The direct callers and direct callees of one symbol.
#[derive(Debug, Clone, PartialEq, Eq)]
pub struct DirectCalls {
    /// Symbols with a direct edge into the queried symbol.
    pub callers: Vec<Symbol>,
    /// Symbols the queried symbol has a direct edge to.
    pub callees: Vec<Symbol>,
}

/// One enumerated call path, from its `from` end to its `to` end.
#[derive(Debug, Clone, PartialEq, Eq)]
pub struct CallPath {
    pub nodes: Vec<Symbol>,
}

/// The combined change-impact answer for one symbol.
#[derive(Debug, Clone, PartialEq, Eq)]
pub struct Impact {
    /// Direct callers: who to check first.
    pub direct_callers: Vec<Symbol>,
    /// Tests that transitively reach the symbol: what to run.
    pub affected_tests: Vec<Symbol>,
}

// ── the model ────────────────────────────────────────────────────────────

/// The position of the last symbol among the first `n` that carries `id`, or
/// -1 when none does. A later symbol with the same id shadows earlier ones.
pub open spec fn last_pos(syms: Seq<Symbol>, id: u64, n: int) -> int
    decreases n,
{
    if n <= 0 {
        -1
    } else if syms[n - 1].id.0 == id {
        n - 1
    } else {
        last_pos(syms, id, n - 1)
    }
}

/// Where `id` is found in the index (the last symbol carrying it), or -1.
pub open spec fn pos_of(idx: Index, id: u64) -> int {
    last_pos(idx.symbols@, id, idx.symbols@.len() as int)
}

/// `id` names a symbol of the index.
pub open spec fn known(idx: Index, id: u64) -> bool {
    pos_of(idx, id) >= 0
}

/// The symbol that `id` names.
pub open spec fn symbol_of(idx: Index, id: u64) -> Symbol {
    idx.symbols@[pos_of(idx, id)]
}

/// Crossing to `id` leaves the workspace: it names no symbol, or a foreign one.
pub open spec fn is_boundary(idx: Index, id: u64) -> bool {
    !known(idx, id) || symbol_of(idx, id).characteristics.foreign
}

/// The path of the symbol `id` names, or the empty path for an unknown id.
pub open spec fn path_of(idx: Index, id: u64) -> Seq<char> {
    if known(idx, id) {
        symbol_of(idx, id).fq_path@
    } else {
        seq![]
    }
}

/// The order key of an id: its symbol's path, then the id itself.
pub open spec fn id_key(idx: Index, id: u64) -> Seq<u64> {
    encode_text(path_of(idx, id)).push(id)
}

/// The order key of a symbol: its path, then its id.
pub open spec fn sym_key(s: Symbol) -> Seq<u64> {
    encode_text(s.fq_path@).push(s.id.0)
}

/// The end of an edge that a walk in `dir` leaves from.
pub open spec fn src_of(e: Edge, dir: Direction) -> u64 {
    match dir {
        Direction::Forward => e.from.0,
        Direction::Backward => e.to.0,
    }
}

/// The end of an edge that a walk in `dir` arrives at.
pub open spec fn nbr_of(e: Edge, dir: Direction) -> u64 {
    match dir {
        Direction::Forward => e.to.0,
        Direction::Backward => e.from.0,
    }
}

/// Edges paired with the order key of their far end.
pub open spec fn keyed_edges(idx: Index, es: Seq<Edge>, dir: Direction) -> Seq<(Seq<u64>, Edge)> {
    es.map_values(|e: Edge| (id_key(idx, nbr_of(e, dir)), e))
}

/// The edges leaving `u` in direction `dir`, in index order.
pub open spec fn edges_from(idx: Index, u: u64, dir: Direction) -> Seq<Edge> {
    idx.edges@.filter(|e: Edge| src_of(e, dir) == u)
}

/// The adjacency of `u` in `dir`: its edges, stably sorted by the far end's
/// path and id. This order drives path enumeration.
pub open spec fn adj(idx: Index, u: u64, dir: Direction) -> Seq<Edge> {
    sort_keyed(keyed_edges(idx, edges_from(idx, u, dir), dir)).map_values(
        |p: (Seq<u64>, Edge)| p.1,
    )
}

/// A known id's symbol, paired with its order key.
pub open spec fn sym_entry(idx: Index, id: u64) -> (Seq<u64>, Symbol) {
    (sym_key(symbol_of(idx, id)), symbol_of(idx, id))
}

/// The known ids among `ids`, in order.
pub open spec fn known_ids(idx: Index, ids: Seq<u64>) -> Seq<u64> {
    ids.filter(|id: u64| known(idx, id))
}

/// The symbols named by `ids` (unknown ids dropped), sorted by path then id.
pub open spec fn materialized(idx: Index, ids: Seq<u64>) -> Seq<Symbol> {
    sort_keyed(known_ids(idx, ids).map_values(|id: u64| sym_entry(idx, id))).map_values(
        |p: (Seq<u64>, Symbol)| p.1,
    )
}

pub proof fn lemma_last_pos(syms: Seq<Symbol>, id: u64, n: int)
    requires
        0 <= n <= syms.len(),
    ensures
        -1 <= last_pos(syms, id, n) < n,
        last_pos(syms, id, n) >= 0 ==> syms[last_pos(syms, id, n)].id.0 == id,
        forall|k: int| last_pos(syms, id, n) < k < n ==> syms[k].id.0 != id,
    decreases n,
{
    if n > 0 && syms[n - 1].id.0 != id {
        lemma_last_pos(syms, id, n - 1);
    }
}

/// The symbol an id names carries that id.
pub proof fn lemma_symbol_of(idx: Index, id: u64)
    requires
        known(idx, id),
    ensures
        symbol_of(idx, id).id.0 == id,
        0 <= pos_of(idx, id) < idx.symbols@.len(),
{
    lemma_last_pos(idx.symbols@, id, idx.symbols@.len() as int);
}

// ── executable lookups ──────────────────────────────────────────────────────

/// Position of the last symbol carrying `id`.
pub fn lookup(index: &Index, id: u64) -> (r: Option<usize>)
    ensures
        match r {
            Some(p) => p == pos_of(*index, id) && known(*index, id) && p < index.symbols@.len(),
            None => !known(*index, id),
        },
{
    let mut n = index.symbols.len();
    proof {
        lemma_last_pos(index.symbols@, id, n as int);
    }
    while n > 0
        invariant
            n <= index.symbols@.len(),
            pos_of(*index, id) == last_pos(index.symbols@, id, n as int),
        decreases n,
    {
        if index.symbols[n - 1].id.0 == id {
            return Some(n - 1);
        }
        n = n - 1;
    }
    None
}

/// Whether crossing to `id` leaves the workspace.
pub fn is_boundary_target(index: &Index, id: u64) -> (r: bool)
    ensures
        r == is_boundary(*index, id),
{
    match lookup(index, id) {
        None => true,
        Some(p) => index.symbols[p].characteristics.foreign,
    }
}

/// The order key of a symbol.
pub fn symbol_key(s: &Symbol) -> (k: Vec<u64>)
    ensures
        k@ == sym_key(*s),
{
    let cs = chars_of(s.fq_path.as_str());
    let mut k: Vec<u64> = Vec::new();
    push_encoded(&mut k, &cs);
    k.push(s.id.0);
    assert(k@ =~= sym_key(*s));
    k
}

/// The order key of an id.
pub fn key_of_id(index: &Index, id: u64) -> (k: Vec<u64>)
    ensures
        k@ == id_key(*index, id),
{
    let mut k: Vec<u64> = Vec::new();
    match lookup(index, id) {
        Some(p) => {
            let cs = chars_of(index.symbols[p].fq_path.as_str());
            push_encoded(&mut k, &cs);
        },
        None => {
            let cs: Vec<char> = Vec::new();
            push_encoded(&mut k, &cs);
        },
    }
    k.push(id);
    assert(k@ =~= id_key(*index, id));
    k
}

/// The symbols named by `ids`, unknown ids dropped, sorted by path then id.
pub fn materialize(index: &Index, ids: &Vec<u64>) -> (r: Vec<Symbol>)
    ensures
        r@ == materialized(*index, ids@),
{
    let mut items: Vec<Keyed<Symbol>> = Vec::new();
    let mut i: usize = 0;
    while i < ids.len()
        invariant
            i <= ids.len(),
            keyed_view(items@) == known_ids(*index, ids@.take(i as int)).map_values(|id: u64| sym_entry(*index, id)),
        decreases ids.len() - i,
    {
        let id = ids[i];
        proof {
            assert(ids@.take(i + 1) =~= ids@.take(i as int).push(id));
            ids@.take(i as int).lemma_filter_push(id, |id: u64| known(*index, id));
        }
        match lookup(index, id) {
            Some(p) => {
                let s = index.symbols[p].duplicate();
                let k = symbol_key(&s);
                let ghost prev = items@;
                assert(s == symbol_of(*index, id));
                assert((k@, s) == sym_entry(*index, id));
                items.push(Keyed { key: k, item: s });
                assert(items@ =~= prev.push(Keyed { key: k, item: s }));
                assert(keyed_view(items@) =~= keyed_view(prev).push(sym_entry(*index, id)));
            },
            None => {},
        }
        i = i + 1;
    }
    assert(ids@.take(ids.len() as int) =~= ids@);
    assert(keyed_view(items@) == known_ids(*index, ids@).map_values(|id: u64| sym_entry(*index, id)));
    let sorted = sort_by_key(items);
    unkey(sorted)
}

/// No element of `s` satisfies `pred`, so filtering by it leaves nothing.
pub proof fn lemma_filter_none<A>(s: Seq<A>, pred: spec_fn(A) -> bool)
    requires
        forall|i: int| 0 <= i < s.len() ==> !pred(#[trigger] s[i]),
    ensures
        s.filter(pred).len() == 0,
    decreases s.len(),
{
    reveal(Seq::filter);
    if s.len() > 0 {
        lemma_filter_none(s.drop_last(), pred);
        assert(!pred(s[s.len() - 1]));
    }
}

/// `m` holds, under every source of an edge in `dir`, that source's adjacency,
/// and under any key it holds, that key's adjacency.
pub open spec fn adjacency_ok(idx: Index, m: Map<u64, Vec<Edge>>, dir: Direction) -> bool {
    &&& forall|u: u64| #[trigger] m.contains_key(u) ==> m[u]@ == adj(idx, u, dir)
    &&& forall|j: int| 0 <= j < idx.edges@.len() ==> m.contains_key(src_of(#[trigger] idx.edges@[j], dir))
}

fn src_id(e: &Edge, dir: Direction) -> (r: u64)
    ensures
        r == src_of(*e, dir),
{
    match dir {
        Direction::Forward => e.from.0,
        Direction::Backward => e.to.0,
    }
}

fn nbr_id(e: &Edge, dir: Direction) -> (r: u64)
    ensures
        r == nbr_of(*e, dir),
{
    match dir {
        Direction::Forward => e.to.0,
        Direction::Backward => e.from.0,
    }
}

/// Whether `v` holds `x`.
pub fn contains_id(v: &Vec<u64>, x: u64) -> (r: bool)
    ensures
        r == v@.contains(x),
{
    let mut i: usize = 0;
    while i < v.len()
        invariant
            i <= v.len(),
            forall|k: int| 0 <= k < i ==> v@[k] != x,
        decreases v.len() - i,
    {
        if v[i] == x {
            return true;
        }
        i = i + 1;
    }
    false
}

/// The adjacency of `u` in `dir`, computed from the edge list.
fn adjacency_of(index: &Index, u: u64, dir: Direction) -> (r: Vec<Edge>)
    ensures
        r@ == adj(*index, u, dir),
{
    let mut items: Vec<Keyed<Edge>> = Vec::new();
    let mut j: usize = 0;
    while j < index.edges.len()
        invariant
            j <= index.edges@.len(),
            keyed_view(items@) == keyed_edges(*index, index.edges@.take(j as int).filter(|e: Edge| src_of(e, dir) == u), dir),
        decreases index.edges.len() - j,
    {
        let e = index.edges[j];
        proof {
            assert(index.edges@.take(j + 1) =~= index.edges@.take(j as int).push(e));
            index.edges@.take(j as int).lemma_filter_push(e, |e: Edge| src_of(e, dir) == u);
        }
        if src_id(&e, dir) == u {
            let k = key_of_id(index, nbr_id(&e, dir));
            let ghost prev = items@;
            items.push(Keyed { key: k, item: e });
            assert(items@ =~= prev.push(Keyed { key: k, item: e }));
            assert(keyed_view(items@) =~= keyed_view(prev).push((id_key(*index, nbr_of(e, dir)), e)));
        }
        j = j + 1;
    }
    assert(index.edges@.take(index.edges.len() as int) =~= index.edges@);
    let sorted = sort_by_key(items);
    unkey(sorted)
}

/// Every source of an edge in `dir`, keyed by its id, with its adjacency.
fn build_adjacency(index: &Index, dir: Direction) -> (r: HashMap<u64, Vec<Edge>>)
    ensures
        adjacency_ok(*index, r@, dir),
{
    let mut m: HashMap<u64, Vec<Edge>> = HashMap::new();
    let mut j: usize = 0;
    while j < index.edges.len()
        invariant
            j <= index.edges@.len(),
            forall|u: u64| #[trigger] m@.contains_key(u) ==> m@[u]@ == adj(*index, u, dir),
            forall|k: int| 0 <= k < j ==> m@.contains_key(src_of(#[trigger] index.edges@[k], dir)),
        decreases index.edges.len() - j,
    {
        proof {
            broadcast use vstd::std_specs::hash::group_hash_axioms;
        }
        let u = src_id(&index.edges[j], dir);
        if !m.contains_key(&u) {
            let l = adjacency_of(index, u, dir);
            m.insert(u, l);
        }
        j = j + 1;
    }
    m
}

/// A queryable view over a loaded [`Index`], with the forward and backward
/// adjacency of every symbol precomputed and sorted by the neighbour's path,
/// which makes path enumeration and every result deterministic.
pub struct Graph<'a> {
    index: &'a Index,
    fwd: HashMap<u64, Vec<Edge>>,
    bwd: HashMap<u64, Vec<Edge>>,
    no_edges: Vec<Edge>,
}

impl<'a> Graph<'a> {
    /// The index this view answers for.
    pub closed spec fn model(&self) -> Index {
        *self.index
    }

    /// The precomputed adjacency agrees with the index.
    pub closed spec fn wf(&self) -> bool {
        &&& self.no_edges@.len() == 0
        &&& adjacency_ok(*self.index, self.fwd@, Direction::Forward)
        &&& adjacency_ok(*self.index, self.bwd@, Direction::Backward)
    }

    /// Build the queryable view.
    pub fn new(index: &'a Index) -> (g: Graph<'a>)
        ensures
            g.model() == *index,
            g.wf(),
    {
        let fwd = build_adjacency(index, Direction::Forward);
        let bwd = build_adjacency(index, Direction::Backward);
        Graph { index, fwd, bwd, no_edges: Vec::new() }
    }

    /// The index this view answers for.
    pub fn index(&self) -> (r: &'a Index)
        ensures
            *r == self.model(),
    {
        self.index
    }

    /// The adjacency of `id` in `dir`.
    pub fn edges(&self, id: u64, dir: Direction) -> (r: &Vec<Edge>)
        requires
            self.wf(),
        ensures
            r@ == adj(self.model(), id, dir),
    {
        let m = match dir {
            Direction::Forward => &self.fwd,
            Direction::Backward => &self.bwd,
        };
        proof {
            broadcast use vstd::std_specs::hash::group_hash_axioms;
        }
        if let Some(l) = m.get(&id) {
            return l;
        }
        proof {
            let idx = *self.index;
            assert forall|k: int| 0 <= k < idx.edges@.len() implies !(src_of(#[trigger] idx.edges@[k], dir) == id) by {
                assert(m@.contains_key(src_of(idx.edges@[k], dir)));
            }
            lemma_filter_none(idx.edges@, |e: Edge| src_of(e, dir) == id);
            assert(keyed_edges(idx, edges_from(idx, id, dir), dir).len() == 0);
            assert(adj(idx, id, dir) =~= Seq::<Edge>::empty());
        }
        &self.no_edges
    }
}


// ── walks ───────────────────────────────────────────────────────────────────

/// Some edge leads from `u` to `v` in direction `dir`.
pub open spec fn step(idx: Index, dir: Direction, u: u64, v: u64) -> bool {
    exists|j: int|
        0 <= j < idx.edges@.len() && src_of(#[trigger] idx.edges@[j], dir) == u && nbr_of(
            idx.edges@[j],
            dir,
        ) == v
}

/// The `i`-th and `i+1`-th nodes of `p` are joined by an edge.
pub open spec fn linked(idx: Index, dir: Direction, p: Seq<u64>, i: int) -> bool {
    step(idx, dir, p[i], p[i + 1])
}

/// `p` is a walk of at least one edge whose every node after the first stays
/// inside the workspace.
pub open spec fn is_walk(idx: Index, dir: Direction, p: Seq<u64>) -> bool {
    &&& p.len() >= 2
    &&& forall|i: int| 0 <= i < p.len() - 1 ==> #[trigger] linked(idx, dir, p, i)
    &&& forall|i: int| 1 <= i < p.len() ==> !is_boundary(idx, #[trigger] p[i])
}

/// `x` is reachable from `start` in direction `dir` by at least one edge,
/// without passing through (or ending at) a boundary target.
pub open spec fn reaches(idx: Index, start: u64, dir: Direction, x: u64) -> bool {
    exists|p: Seq<u64>| #[trigger] is_walk(idx, dir, p) && p[0] == start && p.last() == x
}

/// A node the walk from `start` expands: the start itself and everything it
/// reaches.
pub open spec fn walk_src(idx: Index, start: u64, dir: Direction, u: u64) -> bool {
    u == start || reaches(idx, start, dir, u)
}

/// The uncertainty that noting the edges chosen by `done` accumulates:
/// whether one of them is virtual, the distinct targets of the virtual ones,
/// and whether one of them ends at a boundary target.
pub open spec fn flags_cover(
    over: bool,
    targets: Set<u64>,
    boundary: bool,
    idx: Index,
    done: spec_fn(int) -> bool,
) -> bool {
    &&& over == exists|jj: int|
        0 <= jj < idx.edges@.len() && #[trigger] done(jj) && idx.edges@[jj].kind
            == EdgeKind::Virtual
    &&& targets == Set::new(
        |t: u64|
            exists|jj: int|
                0 <= jj < idx.edges@.len() && #[trigger] done(jj) && idx.edges@[jj].kind
                    == EdgeKind::Virtual && idx.edges@[jj].to.0 == t,
    )
    &&& boundary == exists|jj: int|
        0 <= jj < idx.edges@.len() && #[trigger] done(jj) && is_boundary(idx, idx.edges@[jj].to.0)
}

/// The over-approximation reason an answer carries: none unless `over`, and
/// then the dyn-dispatch marker with `count` implementors.
pub open spec fn reason_is(r: Option<Reason>, over: bool, count: int) -> bool {
    if over {
        r matches Some(Reason::DynDispatch { trait_path, implementor_count })
            && trait_path@ == DYN_TRAIT_MARKER@ && implementor_count == count
    } else {
        r is None
    }
}

pub proof fn lemma_extend_walk(idx: Index, start: u64, dir: Direction, u: u64, v: u64)
    requires
        walk_src(idx, start, dir, u),
        step(idx, dir, u, v),
        !is_boundary(idx, v),
    ensures
        reaches(idx, start, dir, v),
{
    if u == start {
        let p = seq![start, v];
        assert(linked(idx, dir, p, 0));
        assert(is_walk(idx, dir, p));
    } else {
        let p = choose|p: Seq<u64>| #[trigger] is_walk(idx, dir, p) && p[0] == start && p.last() == u;
        let q = p.push(v);
        assert forall|i: int| 0 <= i < q.len() - 1 implies #[trigger] linked(idx, dir, q, i) by {
            if i < p.len() - 1 {
                assert(linked(idx, dir, p, i));
            }
        }
        assert forall|i: int| 1 <= i < q.len() implies !is_boundary(idx, #[trigger] q[i]) by {
            if i < p.len() {
                assert(!is_boundary(idx, p[i]));
            }
        }
        assert(is_walk(idx, dir, q));
    }
}

proof fn lemma_closed_complete(
    idx: Index,
    dir: Direction,
    start: u64,
    q: Seq<u64>,
    res: Seq<u64>,
    p: Seq<u64>,
    k: int,
)
    requires
        forall|jj: int|
            0 <= jj < idx.edges@.len() && q.contains(src_of(#[trigger] idx.edges@[jj], dir))
                && !is_boundary(idx, nbr_of(idx.edges@[jj], dir)) ==> res.contains(
                nbr_of(idx.edges@[jj], dir),
            ),
        forall|x: u64| res.contains(x) ==> q.contains(x),
        is_walk(idx, dir, p),
        p[0] == start,
        q.contains(start),
        0 <= k < p.len(),
    ensures
        q.contains(p[k]),
        k >= 1 ==> res.contains(p[k]),
    decreases k,
{
    if k > 0 {
        lemma_closed_complete(idx, dir, start, q, res, p, k - 1);
        assert(linked(idx, dir, p, k - 1));
        let jj = choose|jj: int|
            0 <= jj < idx.edges@.len() && src_of(#[trigger] idx.edges@[jj], dir) == p[k - 1]
                && nbr_of(idx.edges@[jj], dir) == p[k];
        assert(!is_boundary(idx, p[k]));
        assert(res.contains(p[k]));
    }
}

proof fn lemma_queue_bound(idx: Index, dir: Direction, start: u64, q: Seq<u64>)
    requires
        q.no_duplicates(),
        forall|k: int|
            0 <= k < q.len() ==> #[trigger] q[k] == start || exists|jj: int|
                0 <= jj < idx.edges@.len() && nbr_of(#[trigger] idx.edges@[jj], dir) == q[k],
    ensures
        q.len() <= idx.edges@.len() + 1,
{
    let cand = seq![start] + idx.edges@.map_values(|e: Edge| nbr_of(e, dir));
    assert forall|x: u64| q.to_set().contains(x) implies cand.to_set().contains(x) by {
        let k = choose|k: int| 0 <= k < q.len() && q[k] == x;
        if q[k] == start {
            assert(cand[0] == x);
        } else {
            let jj = choose|jj: int| 0 <= jj < idx.edges@.len() && nbr_of(#[trigger] idx.edges@[jj], dir) == q[k];
            assert(cand[jj + 1] == x);
        }
    }
    q.unique_seq_to_set();
    cand.lemma_cardinality_of_set();
    vstd::seq_lib::seq_to_set_is_finite(cand);
    vstd::set_lib::lemma_len_subset(q.to_set(), cand.to_set());
}


/// Nothing noted yet: no flag is raised.
proof fn lemma_flags_cover_none(idx: Index, d: spec_fn(int) -> bool)
    requires
        forall|jj: int| 0 <= jj < idx.edges@.len() ==> !#[trigger] d(jj),
    ensures
        flags_cover(false, Set::empty(), false, idx, d),
{
    assert(Set::new(
        |t: u64|
            exists|jj: int|
                0 <= jj < idx.edges@.len() && #[trigger] d(jj) && idx.edges@[jj].kind
                    == EdgeKind::Virtual && idx.edges@[jj].to.0 == t,
    ) =~= Set::<u64>::empty());
}

/// The flags depend only on which edges were noted.
proof fn lemma_flags_cover_ext(
    over: bool,
    targets: Set<u64>,
    boundary: bool,
    idx: Index,
    d1: spec_fn(int) -> bool,
    d2: spec_fn(int) -> bool,
)
    requires
        flags_cover(over, targets, boundary, idx, d1),
        forall|jj: int| 0 <= jj < idx.edges@.len() ==> #[trigger] d1(jj) == d2(jj),
    ensures
        flags_cover(over, targets, boundary, idx, d2),
{
    if over {
        let jj = choose|jj: int|
            0 <= jj < idx.edges@.len() && #[trigger] d1(jj) && idx.edges@[jj].kind
                == EdgeKind::Virtual;
        assert(d2(jj));
    }
    if boundary {
        let jj = choose|jj: int|
            0 <= jj < idx.edges@.len() && #[trigger] d1(jj) && is_boundary(
                idx,
                idx.edges@[jj].to.0,
            );
        assert(d2(jj));
    }
    if exists|jj: int|
        0 <= jj < idx.edges@.len() && #[trigger] d2(jj) && idx.edges@[jj].kind
            == EdgeKind::Virtual {
        let jj = choose|jj: int|
            0 <= jj < idx.edges@.len() && #[trigger] d2(jj) && idx.edges@[jj].kind
                == EdgeKind::Virtual;
        assert(d1(jj));
    }
    if exists|jj: int|
        0 <= jj < idx.edges@.len() && #[trigger] d2(jj) && is_boundary(idx, idx.edges@[jj].to.0) {
        let jj = choose|jj: int|
            0 <= jj < idx.edges@.len() && #[trigger] d2(jj) && is_boundary(
                idx,
                idx.edges@[jj].to.0,
            );
        assert(d1(jj));
    }
    let t2 = Set::new(
        |t: u64|
            exists|jj: int|
                0 <= jj < idx.edges@.len() && #[trigger] d2(jj) && idx.edges@[jj].kind
                    == EdgeKind::Virtual && idx.edges@[jj].to.0 == t,
    );
    assert forall|t: u64| t2.contains(t) <==> targets.contains(t) by {
        if t2.contains(t) {
            let jj = choose|jj: int|
                0 <= jj < idx.edges@.len() && #[trigger] d2(jj) && idx.edges@[jj].kind
                    == EdgeKind::Virtual && idx.edges@[jj].to.0 == t;
            assert(d1(jj));
        }
        if targets.contains(t) {
            let jj = choose|jj: int|
                0 <= jj < idx.edges@.len() && #[trigger] d1(jj) && idx.edges@[jj].kind
                    == EdgeKind::Virtual && idx.edges@[jj].to.0 == t;
            assert(d2(jj));
        }
    }
    assert(t2 =~= targets);
}

/// Noting edge `j` (when `hit`) extends the flags by exactly that edge.
proof fn lemma_flags_cover_step(
    over: bool,
    targets: Set<u64>,
    boundary: bool,
    idx: Index,
    dold: spec_fn(int) -> bool,
    dnew: spec_fn(int) -> bool,
    j: int,
    hit: bool,
)
    requires
        0 <= j < idx.edges@.len(),
        flags_cover(over, targets, boundary, idx, dold),
        forall|jj: int| 0 <= jj < idx.edges@.len() && jj != j ==> #[trigger] dnew(jj) == dold(jj),
        hit ==> !dold(j) && dnew(j),
        !hit ==> dnew(j) == dold(j),
    ensures
        ({
            let e = idx.edges@[j];
            let v = hit && e.kind == EdgeKind::Virtual;
            flags_cover(
                over || v,
                if v { targets.insert(e.to.0) } else { targets },
                boundary || (hit && is_boundary(idx, e.to.0)),
                idx,
                dnew,
            )
        }),
{
    let e = idx.edges@[j];
    let v = hit && e.kind == EdgeKind::Virtual;
    if !hit {
        lemma_flags_cover_ext(over, targets, boundary, idx, dold, dnew);
    } else {
        let nover = over || v;
        if v {
            assert(dnew(j));
        }
        if exists|jj: int|
            0 <= jj < idx.edges@.len() && #[trigger] dnew(jj) && idx.edges@[jj].kind
                == EdgeKind::Virtual {
            let jj = choose|jj: int|
                0 <= jj < idx.edges@.len() && #[trigger] dnew(jj) && idx.edges@[jj].kind
                    == EdgeKind::Virtual;
            if jj != j {
                assert(dold(jj));
            }
        }
        if over {
            let jj = choose|jj: int|
                0 <= jj < idx.edges@.len() && #[trigger] dold(jj) && idx.edges@[jj].kind
                    == EdgeKind::Virtual;
            assert(jj != j);
            assert(dnew(jj));
        }
        if is_boundary(idx, e.to.0) {
            assert(dnew(j));
        }
        if exists|jj: int|
            0 <= jj < idx.edges@.len() && #[trigger] dnew(jj) && is_boundary(
                idx,
                idx.edges@[jj].to.0,
            ) {
            let jj = choose|jj: int|
                0 <= jj < idx.edges@.len() && #[trigger] dnew(jj) && is_boundary(
                    idx,
                    idx.edges@[jj].to.0,
                );
            if jj != j {
                assert(dold(jj));
            }
        }
        if boundary {
            let jj = choose|jj: int|
                0 <= jj < idx.edges@.len() && #[trigger] dold(jj) && is_boundary(
                    idx,
                    idx.edges@[jj].to.0,
                );
            assert(jj != j);
            assert(dnew(jj));
        }
        let nt = if v { targets.insert(e.to.0) } else { targets };
        let t2 = Set::new(
            |t: u64|
                exists|jj: int|
                    0 <= jj < idx.edges@.len() && #[trigger] dnew(jj) && idx.edges@[jj].kind
                        == EdgeKind::Virtual && idx.edges@[jj].to.0 == t,
        );
        assert forall|t: u64| t2.contains(t) <==> nt.contains(t) by {
            if t2.contains(t) {
                let jj = choose|jj: int|
                    0 <= jj < idx.edges@.len() && #[trigger] dnew(jj) && idx.edges@[jj].kind
                        == EdgeKind::Virtual && idx.edges@[jj].to.0 == t;
                if jj != j {
                    assert(dold(jj));
                    assert(targets.contains(t));
                }
            }
            if nt.contains(t) {
                if targets.contains(t) {
                    let jj = choose|jj: int|
                        0 <= jj < idx.edges@.len() && #[trigger] dold(jj) && idx.edges@[jj].kind
                            == EdgeKind::Virtual && idx.edges@[jj].to.0 == t;
                    assert(jj != j);
                    assert(dnew(jj));
                } else {
                    assert(dnew(j));
                }
            }
        }
        assert(t2 =~= nt);
    }
}

/// Uncertainty accumulated while walking edges. Order-independent: crossing
/// the same edges in any order produces the same flags.
struct WalkFlags {
    over_approximated: bool,
    /// Distinct targets reached across a virtual edge.
    virtual_targets: Vec<u64>,
    boundary: bool,
}

impl WalkFlags {
    fn new() -> (r: WalkFlags)
        ensures
            !r.over_approximated,
            r.virtual_targets@.len() == 0,
            !r.boundary,
    {
        WalkFlags { over_approximated: false, virtual_targets: Vec::new(), boundary: false }
    }

    /// Note one traversed edge.
    fn note_edge(&mut self, index: &Index, e: &Edge)
        requires
            old(self).virtual_targets@.no_duplicates(),
        ensures
            final(self).virtual_targets@.no_duplicates(),
            final(self).over_approximated == (old(self).over_approximated || e.kind
                == EdgeKind::Virtual),
            final(self).virtual_targets@.to_set() == (if e.kind == EdgeKind::Virtual {
                old(self).virtual_targets@.to_set().insert(e.to.0)
            } else {
                old(self).virtual_targets@.to_set()
            }),
            final(self).boundary == (old(self).boundary || is_boundary(*index, e.to.0)),
    {
        if e.kind == EdgeKind::Virtual {
            self.over_approximated = true;
            let ghost before = self.virtual_targets@;
            if !contains_id(&self.virtual_targets, e.to.0) {
                self.virtual_targets.push(e.to.0);
                proof { before.lemma_push_to_set_commute(e.to.0); }
            } else {
                assert(before.to_set().insert(e.to.0) =~= before.to_set());
            }
        }
        if is_boundary_target(index, e.to.0) {
            self.boundary = true;
        }
    }
}

impl<'a> Graph<'a> {
    /// The full set reachable from `start` in `dir` (`start` itself only when
    /// a cycle leads back to it), with the uncertainty seen on the way.
    fn reachable_set(&self, start: u64, dir: Direction) -> (r: (Vec<u64>, WalkFlags))
        ensures
            r.0@.no_duplicates(),
            forall|x: u64| r.0@.contains(x) <==> reaches(self.model(), start, dir, x),
            r.1.virtual_targets@.no_duplicates(),
            flags_cover(
                r.1.over_approximated,
                r.1.virtual_targets@.to_set(),
                r.1.boundary,
                self.model(),
                walk_done(self.model(), start, dir),
            ),
    {
        let index = self.index;
        let ghost idx = *index;
        let ghost nedges = idx.edges@.len();
        let mut queue: Vec<u64> = Vec::new();
        queue.push(start);
        let mut result: Vec<u64> = Vec::new();
        let mut flags = WalkFlags::new();
        let mut head: usize = 0;
        proof {
            assert(queue@.take(0) =~= Seq::<u64>::empty());
            assert(flags.virtual_targets@.to_set() =~= Set::<u64>::empty());
            lemma_flags_cover_none(idx, |jj: int| queue@.take(0).contains(src_of(idx.edges@[jj], dir)));
        }
        while head < queue.len()
            invariant
                idx == *index,
                nedges == index.edges@.len(),
                queue@.len() >= 1,
                queue@[0] == start,
                queue@.no_duplicates(),
                head <= queue@.len(),
                queue@.len() <= nedges + 1,
                forall|k: int| 1 <= k < queue@.len() ==> reaches(idx, start, dir, #[trigger] queue@[k]),
                result@.no_duplicates(),
                forall|x: u64| result@.contains(x) ==> reaches(idx, start, dir, x) && queue@.contains(x),
                forall|k: int| 1 <= k < queue@.len() ==> result@.contains(#[trigger] queue@[k]),
                forall|k: int, jj: int|
                    0 <= k < head && 0 <= jj < nedges && src_of(#[trigger] idx.edges@[jj], dir)
                        == #[trigger] queue@[k] && !is_boundary(idx, nbr_of(idx.edges@[jj], dir))
                        ==> result@.contains(nbr_of(idx.edges@[jj], dir)),
                forall|k: int|
                    0 <= k < queue@.len() ==> #[trigger] queue@[k] == start || exists|jj: int|
                        0 <= jj < idx.edges@.len() && nbr_of(#[trigger] idx.edges@[jj], dir)
                            == queue@[k],
                flags.virtual_targets@.no_duplicates(),
                flags_cover(
                    flags.over_approximated,
                    flags.virtual_targets@.to_set(),
                    flags.boundary,
                    idx,
                    |jj: int| queue@.take(head as int).contains(src_of(idx.edges@[jj], dir)),
                ),
            decreases nedges + 1 - head,
        {
            let node = queue[head];
            let ghost q0 = queue@;
            let mut j: usize = 0;
            proof {
                assert(queue@.take(head as int) =~= q0.take(head as int));
                lemma_flags_cover_ext(
                    flags.over_approximated,
                    flags.virtual_targets@.to_set(),
                    flags.boundary,
                    idx,
                    |jj: int| queue@.take(head as int).contains(src_of(idx.edges@[jj], dir)),
                    |jj: int|
                        q0.take(head as int).contains(src_of(idx.edges@[jj], dir)) || (jj < 0
                            && src_of(idx.edges@[jj], dir) == node),
                );
                if head > 0 {
                    assert(reaches(idx, start, dir, queue@[head as int]));
                }
            }
            while j < index.edges.len()
                invariant
                    idx == *index,
                    nedges == index.edges@.len(),
                    j <= nedges,
                    head < q0.len(),
                    node == q0[head as int],
                    q0.no_duplicates(),
                    queue@.len() >= q0.len(),
                    forall|k: int| 0 <= k < q0.len() ==> queue@[k] == q0[k],
                    queue@[0] == start,
                    queue@.no_duplicates(),
                    queue@.len() <= nedges + 1,
                    walk_src(idx, start, dir, node),
                    forall|k: int| 1 <= k < queue@.len() ==> reaches(idx, start, dir, #[trigger] queue@[k]),
                    result@.no_duplicates(),
                    forall|x: u64| result@.contains(x) ==> reaches(idx, start, dir, x) && queue@.contains(x),
                    forall|k: int| 1 <= k < queue@.len() ==> result@.contains(#[trigger] queue@[k]),
                    forall|k: int, jj: int|
                        0 <= k < head && 0 <= jj < nedges && src_of(#[trigger] idx.edges@[jj], dir)
                            == #[trigger] q0[k] && !is_boundary(idx, nbr_of(idx.edges@[jj], dir))
                            ==> result@.contains(nbr_of(idx.edges@[jj], dir)),
                    forall|jj: int|
                        0 <= jj < j && src_of(#[trigger] idx.edges@[jj], dir) == node
                            && !is_boundary(idx, nbr_of(idx.edges@[jj], dir))
                            ==> result@.contains(nbr_of(idx.edges@[jj], dir)),
                    forall|k: int|
                        0 <= k < queue@.len() ==> #[trigger] queue@[k] == start || exists|jj: int|
                            0 <= jj < idx.edges@.len() && nbr_of(#[trigger] idx.edges@[jj], dir)
                                == queue@[k],
                    flags.virtual_targets@.no_duplicates(),
                    flags_cover(
                        flags.over_approximated,
                        flags.virtual_targets@.to_set(),
                        flags.boundary,
                        idx,
                        |jj: int|
                            q0.take(head as int).contains(src_of(idx.edges@[jj], dir)) || (jj < j
                                && src_of(idx.edges@[jj], dir) == node),
                    ),
                decreases nedges - j,
            {
                let e = index.edges[j];
                let ghost fo = flags.over_approximated;
                let ghost ft = flags.virtual_targets@.to_set();
                let ghost fb = flags.boundary;
                let hit = src_id(&e, dir) == node;
                if hit {
                    flags.note_edge(index, &e);
                    let next = nbr_id(&e, dir);
                    if !is_boundary_target(index, next) {
                        proof {
                            assert(step(idx, dir, node, next));
                            lemma_extend_walk(idx, start, dir, node, next);
                        }
                        let ghost rb = result@;
                        if !contains_id(&result, next) {
                            result.push(next);
                            assert(result@[result@.len() - 1] == next);
                        }
                        assert(result@.contains(next));
                        assert forall|x: u64| rb.contains(x) implies result@.contains(x) by {
                            let w = choose|w: int| 0 <= w < rb.len() && rb[w] == x;
                            assert(result@[w] == x);
                        }
                        let ghost qb = queue@;
                        if !contains_id(&queue, next) {
                            queue.push(next);
                            proof {
                                assert forall|k: int|
                                    0 <= k < queue@.len() implies #[trigger] queue@[k] == start
                                        || exists|jj: int|
                                        0 <= jj < idx.edges@.len() && nbr_of(
                                            #[trigger] idx.edges@[jj],
                                            dir,
                                        ) == queue@[k] by {
                                    if k < qb.len() {
                                        assert(queue@[k] == qb[k]);
                                    } else {
                                        assert(nbr_of(idx.edges@[j as int], dir) == queue@[k]);
                                    }
                                }
                                lemma_queue_bound(idx, dir, start, queue@);
                                assert(queue@[queue@.len() - 1] == next);
                            }
                        }
                        assert(queue@.contains(next));
                        assert forall|x: u64| qb.contains(x) implies queue@.contains(x) by {
                            let w = choose|w: int| 0 <= w < qb.len() && qb[w] == x;
                            assert(queue@[w] == x);
                        }
                        assert forall|x: u64| result@.contains(x) implies reaches(idx, start, dir, x)
                            && queue@.contains(x) by {
                            if x != next {
                                assert(rb.contains(x));
                            }
                        }
                        assert forall|k: int| 1 <= k < queue@.len() implies result@.contains(
                            #[trigger] queue@[k],
                        ) by {
                            if k < qb.len() {
                                assert(rb.contains(qb[k]));
                            }
                        }
                    }
                }
                proof {
                    let dold = |jj: int|
                        q0.take(head as int).contains(src_of(idx.edges@[jj], dir)) || (jj < j
                            && src_of(idx.edges@[jj], dir) == node);
                    let dnew = |jj: int|
                        q0.take(head as int).contains(src_of(idx.edges@[jj], dir)) || (jj < j + 1
                            && src_of(idx.edges@[jj], dir) == node);
                    assert(idx.edges@[j as int] == e);
                    if hit && q0.take(head as int).contains(node) {
                        let w = choose|w: int| 0 <= w < head && #[trigger] q0.take(head as int)[w] == node;
                        assert(q0[w] == q0[head as int]);
                    }
                    lemma_flags_cover_step(fo, ft, fb, idx, dold, dnew, j as int, hit);
                    if hit && e.kind == EdgeKind::Virtual {
                        assert(flags.virtual_targets@.to_set() == ft.insert(e.to.0));
                    }
                }
                j = j + 1;
            }
            proof {
                assert(q0.take(head + 1) =~= q0.take(head as int).push(node));
                let dfin = |jj: int|
                    q0.take(head as int).contains(src_of(idx.edges@[jj], dir)) || (jj < nedges
                        && src_of(idx.edges@[jj], dir) == node);
                let dnext = |jj: int| queue@.take(head + 1).contains(src_of(idx.edges@[jj], dir));
                assert(queue@.take(head + 1) =~= q0.take(head + 1));
                assert forall|jj: int| 0 <= jj < nedges implies #[trigger] dfin(jj) == dnext(jj) by {
                    let u = src_of(idx.edges@[jj], dir);
                    if q0.take(head + 1).contains(u) {
                        let w = choose|w: int| 0 <= w < head + 1 && #[trigger] q0.take(head + 1)[w] == u;
                        if w < head {
                            assert(q0.take(head as int)[w] == u);
                        }
                    }
                    if q0.take(head as int).contains(u) {
                        let w = choose|w: int| 0 <= w < head && #[trigger] q0.take(head as int)[w] == u;
                        assert(q0.take(head + 1)[w] == u);
                    }
                    if u == node {
                        assert(q0.take(head + 1)[head as int] == u);
                    }
                }
                lemma_flags_cover_ext(
                    flags.over_approximated,
                    flags.virtual_targets@.to_set(),
                    flags.boundary,
                    idx,
                    dfin,
                    dnext,
                );
                assert forall|k: int, jj: int|
                    0 <= k < head + 1 && 0 <= jj < nedges && src_of(#[trigger] idx.edges@[jj], dir)
                        == #[trigger] queue@[k] && !is_boundary(idx, nbr_of(idx.edges@[jj], dir))
                        implies result@.contains(nbr_of(idx.edges@[jj], dir)) by {
                    assert(queue@[k] == q0[k]);
                }
            }
            head = head + 1;
        }
        proof {
            let q = queue@;
            let res = result@;
            assert(q.take(head as int) =~= q);
            assert forall|jj: int|
                0 <= jj < idx.edges@.len() && q.contains(src_of(#[trigger] idx.edges@[jj], dir))
                    && !is_boundary(idx, nbr_of(idx.edges@[jj], dir)) implies res.contains(
                    nbr_of(idx.edges@[jj], dir),
                ) by {
                let u = src_of(idx.edges@[jj], dir);
                let k = choose|k: int| 0 <= k < q.len() && q[k] == u;
                assert(src_of(idx.edges@[jj], dir) == q[k]);
            }
            assert forall|x: u64| reaches(idx, start, dir, x) implies res.contains(x) by {
                let p = choose|p: Seq<u64>| #[trigger] is_walk(idx, dir, p) && p[0] == start && p.last() == x;
                assert(q[0] == start);
                lemma_closed_complete(idx, dir, start, q, res, p, p.len() - 1);
            }
            let dq = |jj: int| q.take(head as int).contains(src_of(idx.edges@[jj], dir));
            let dw = walk_done(idx, start, dir);
            assert forall|jj: int| 0 <= jj < nedges implies #[trigger] dq(jj) == dw(jj) by {
                let u = src_of(idx.edges@[jj], dir);
                if q.contains(u) {
                    let k = choose|k: int| 0 <= k < q.len() && q[k] == u;
                    if k > 0 {
                        assert(reaches(idx, start, dir, q[k]));
                    }
                }
                if walk_src(idx, start, dir, u) {
                    if u == start {
                        assert(q[0] == u);
                    } else {
                        assert(res.contains(u));
                    }
                }
            }
            lemma_flags_cover_ext(
                flags.over_approximated,
                flags.virtual_targets@.to_set(),
                flags.boundary,
                idx,
                dq,
                dw,
            );
        }
        (result, flags)
    }
}


// ── set-valued answers ──────────────────────────────────────────────────────

/// `r` lists, strictly ordered by path then id, exactly the symbols of the
/// known ids satisfying `pred`, each as the index records it.
pub open spec fn lists_exactly(idx: Index, r: Seq<Symbol>, pred: spec_fn(u64) -> bool) -> bool {
    &&& forall|i: int, j: int| 0 <= i < j < r.len() ==> lex_lt(sym_key(#[trigger] r[i]), sym_key(#[trigger] r[j]))
    &&& forall|i: int| 0 <= i < r.len() ==> known(idx, (#[trigger] r[i]).id.0) && r[i] == symbol_of(idx, r[i].id.0)
    &&& forall|x: u64| (known(idx, x) && #[trigger] pred(x)) <==> exists|i: int| 0 <= i < r.len() && (#[trigger] r[i]).id.0 == x
}

proof fn lemma_filter_no_dup<A>(s: Seq<A>, pred: spec_fn(A) -> bool)
    requires
        s.no_duplicates(),
    ensures
        s.filter(pred).no_duplicates(),
    decreases s.len(),
{
    reveal(Seq::filter);
    if s.len() > 0 {
        let t = s.drop_last();
        assert(t.no_duplicates());
        lemma_filter_no_dup(t, pred);
        if pred(s.last()) {
            if t.filter(pred).contains(s.last()) {
                t.lemma_filter_contains_rev(pred, s.last());
                let k = choose|k: int| 0 <= k < t.len() && t[k] == s.last();
                assert(s[k] == s[s.len() - 1]);
            }
            let f = t.filter(pred);
            assert forall|i: int, j: int| 0 <= i < f.push(s.last()).len() && 0 <= j < f.push(s.last()).len() && i != j
                implies f.push(s.last())[i] != f.push(s.last())[j] by {
                if i == f.len() {
                    assert(!f.contains(s.last()));
                    assert(f[j] != s.last());
                } else if j == f.len() {
                    assert(f[i] != s.last());
                }
            }
        }
    }
}

/// Materializing ids without duplicates lists exactly the known ones among
/// them.
pub proof fn lemma_materialized_set(idx: Index, ids: Seq<u64>)
    requires
        ids.no_duplicates(),
    ensures
        lists_exactly(idx, materialized(idx, ids), |x: u64| ids.contains(x)),
{
    let kn = known_ids(idx, ids);
    let src = kn.map_values(|id: u64| sym_entry(idx, id));
    let sorted = sort_keyed(src);
    let m = materialized(idx, ids);
    lemma_filter_no_dup(ids, |id: u64| known(idx, id));
    ids.filter_lemma(|id: u64| known(idx, id));
    crate::order::lemma_sort_keyed_props(src);
    assert(m.len() == sorted.len());
    // every listed entry comes from a known id
    assert forall|i: int| 0 <= i < sorted.len() implies exists|k: int| 0 <= k < kn.len() && #[trigger] sorted[i] == sym_entry(idx, kn[k]) by {
        assert(sorted.to_multiset().count(sorted[i]) > 0);
        assert(src.contains(sorted[i]));
        let k = choose|k: int| 0 <= k < src.len() && src[k] == sorted[i];
        assert(src[k] == sym_entry(idx, kn[k]));
    }
    assert forall|k: int| 0 <= k < kn.len() implies known(idx, #[trigger] kn[k]) && ids.contains(kn[k]) by {
        assert(known(idx, kn[k]));
        ids.lemma_filter_contains_rev(|id: u64| known(idx, id), kn[k]);
    }
    assert forall|i: int| 0 <= i < m.len() implies known(idx, (#[trigger] m[i]).id.0) && m[i] == symbol_of(idx, m[i].id.0) && ids.contains(m[i].id.0) && sorted[i].0 == sym_key(m[i]) by {
        let k = choose|k: int| 0 <= k < kn.len() && #[trigger] sorted[i] == sym_entry(idx, kn[k]);
        lemma_symbol_of(idx, kn[k]);
        assert(m[i] == sorted[i].1);
    }
    // src has no duplicates, so neither does the sorted list
    assert forall|a: int, b: int| 0 <= a < src.len() && 0 <= b < src.len() && a != b implies src[a] != src[b] by {
        lemma_symbol_of(idx, kn[a]);
        lemma_symbol_of(idx, kn[b]);
        assert(src[a].1.id.0 == kn[a]);
        assert(src[b].1.id.0 == kn[b]);
    }
    assert(src.no_duplicates());
    src.lemma_multiset_has_no_duplicates();
    sorted.lemma_multiset_has_no_duplicates_conv();
    // strict order
    assert forall|i: int, j: int| 0 <= i < j < m.len() implies lex_lt(sym_key(#[trigger] m[i]), sym_key(#[trigger] m[j])) by {
        assert(!lex_lt(sorted[j].0, sorted[i].0));
        crate::order::lemma_lex_total(sym_key(m[i]), sym_key(m[j]));
        if sym_key(m[i]) =~= sym_key(m[j]) {
            assert(sym_key(m[i]).last() == m[i].id.0);
            assert(sym_key(m[j]).last() == m[j].id.0);
            assert(m[i].id.0 == m[j].id.0);
            assert(sorted[i] == sorted[j]);
        }
    }
    // every known id of `ids` is listed
    assert forall|x: u64| (known(idx, x) && ids.contains(x)) implies exists|i: int| 0 <= i < m.len() && (#[trigger] m[i]).id.0 == x by {
        let w = choose|w: int| 0 <= w < ids.len() && ids[w] == x;
        assert(kn.contains(x));
        let k = choose|k: int| 0 <= k < kn.len() && kn[k] == x;
        assert(src[k] == sym_entry(idx, x));
        assert(src.to_multiset().count(src[k]) > 0);
        assert(sorted.contains(src[k]));
        let i = choose|i: int| 0 <= i < sorted.len() && sorted[i] == src[k];
        lemma_symbol_of(idx, x);
        assert(m[i] == sorted[i].1);
    }
}


/// Pointwise-equivalent conditions (on known ids) list the same symbols.
pub proof fn lemma_lists_exactly_ext(idx: Index, r: Seq<Symbol>, p1: spec_fn(u64) -> bool, p2: spec_fn(u64) -> bool)
    requires
        lists_exactly(idx, r, p1),
        forall|x: u64| known(idx, x) ==> (#[trigger] p1(x) <==> p2(x)),
    ensures
        lists_exactly(idx, r, p2),
{
    assert forall|x: u64| (known(idx, x) && #[trigger] p2(x)) <==> exists|i: int| 0 <= i < r.len() && (#[trigger] r[i]).id.0 == x by {
        if known(idx, x) {
            assert(p1(x) <==> p2(x));
        }
        assert((known(idx, x) && p1(x)) <==> exists|i: int| 0 <= i < r.len() && (#[trigger] r[i]).id.0 == x);
    }
}

/// Materializing never lists more symbols than ids.
pub proof fn lemma_materialized_len(idx: Index, ids: Seq<u64>)
    ensures
        materialized(idx, ids).len() <= ids.len(),
{
    ids.filter_lemma(|id: u64| known(idx, id));
    crate::order::lemma_sort_keyed_props(known_ids(idx, ids).map_values(|id: u64| sym_entry(idx, id)));
}

/// An adjacency list holds at most every edge.
pub proof fn lemma_adj_len(idx: Index, u: u64, dir: Direction)
    ensures
        adj(idx, u, dir).len() <= idx.edges@.len(),
{
    idx.edges@.filter_lemma(|e: Edge| src_of(e, dir) == u);
    crate::order::lemma_sort_keyed_props(keyed_edges(idx, edges_from(idx, u, dir), dir));
}

/// Drops everything past the first `limit` items, reporting whether anything
/// was dropped.
pub fn truncate<T>(items: Vec<T>, limit: usize) -> (r: (Vec<T>, bool))
    ensures
        r.1 == (items@.len() > limit),
        r.0@ == (if items@.len() > limit { items@.take(limit as int) } else { items@ }),
{
    let mut items = items;
    if items.len() > limit {
        items.truncate(limit);
        (items, true)
    } else {
        (items, false)
    }
}

/// The answer lists, bounded to `limit`, exactly the symbols of the known ids
/// satisfying `pred`, and reports their full count.
pub open spec fn bounded_listing(
    idx: Index,
    data: Seq<Symbol>,
    total: usize,
    truncated: bool,
    pred: spec_fn(u64) -> bool,
    limit: usize,
) -> bool {
    exists|full: Seq<Symbol>|
        #[trigger] lists_exactly(idx, full, pred) && total == full.len() && truncated == (full.len()
            > limit) && data == (if full.len() > limit { full.take(limit as int) } else { full })
}

/// The uncertainty stamped on an answer is what noting the edges chosen by
/// `done` accumulates.
pub open spec fn flags_stamped(
    idx: Index,
    over_approximated: Option<Reason>,
    boundary_applies: bool,
    done: spec_fn(int) -> bool,
) -> bool {
    exists|o: bool, t: Set<u64>|
        #[trigger] flags_cover(o, t, boundary_applies, idx, done) && reason_is(over_approximated, o, t.len() as int)
}

/// The edges a walk from `start` in `dir` notes.
pub open spec fn walk_done(idx: Index, start: u64, dir: Direction) -> spec_fn(int) -> bool {
    |jj: int| walk_src(idx, start, dir, src_of(idx.edges@[jj], dir))
}

proof fn lemma_flags_merge(
    o1: bool, t1: Set<u64>, b1: bool, d1: spec_fn(int) -> bool,
    o2: bool, t2: Set<u64>, b2: bool, d2: spec_fn(int) -> bool,
    idx: Index,
)
    requires
        flags_cover(o1, t1, b1, idx, d1),
        flags_cover(o2, t2, b2, idx, d2),
    ensures
        flags_cover(o1 || o2, t1 + t2, b1 || b2, idx, |jj: int| d1(jj) || d2(jj)),
{
    let d = |jj: int| d1(jj) || d2(jj);
    if o1 {
        let jj = choose|jj: int| 0 <= jj < idx.edges@.len() && #[trigger] d1(jj) && idx.edges@[jj].kind == EdgeKind::Virtual;
        assert(d(jj));
    }
    if o2 {
        let jj = choose|jj: int| 0 <= jj < idx.edges@.len() && #[trigger] d2(jj) && idx.edges@[jj].kind == EdgeKind::Virtual;
        assert(d(jj));
    }
    if exists|jj: int| 0 <= jj < idx.edges@.len() && #[trigger] d(jj) && idx.edges@[jj].kind == EdgeKind::Virtual {
        let jj = choose|jj: int| 0 <= jj < idx.edges@.len() && #[trigger] d(jj) && idx.edges@[jj].kind == EdgeKind::Virtual;
        if d1(jj) { } else { assert(d2(jj)); }
    }
    if b1 {
        let jj = choose|jj: int| 0 <= jj < idx.edges@.len() && #[trigger] d1(jj) && is_boundary(idx, idx.edges@[jj].to.0);
        assert(d(jj));
    }
    if b2 {
        let jj = choose|jj: int| 0 <= jj < idx.edges@.len() && #[trigger] d2(jj) && is_boundary(idx, idx.edges@[jj].to.0);
        assert(d(jj));
    }
    if exists|jj: int| 0 <= jj < idx.edges@.len() && #[trigger] d(jj) && is_boundary(idx, idx.edges@[jj].to.0) {
        let jj = choose|jj: int| 0 <= jj < idx.edges@.len() && #[trigger] d(jj) && is_boundary(idx, idx.edges@[jj].to.0);
        if d1(jj) { } else { assert(d2(jj)); }
    }
    let t = Set::new(|t: u64| exists|jj: int| 0 <= jj < idx.edges@.len() && #[trigger] d(jj) && idx.edges@[jj].kind == EdgeKind::Virtual && idx.edges@[jj].to.0 == t);
    assert forall|x: u64| t.contains(x) <==> (t1 + t2).contains(x) by {
        if t.contains(x) {
            let jj = choose|jj: int| 0 <= jj < idx.edges@.len() && #[trigger] d(jj) && idx.edges@[jj].kind == EdgeKind::Virtual && idx.edges@[jj].to.0 == x;
            if d1(jj) { assert(t1.contains(x)); } else { assert(d2(jj)); assert(t2.contains(x)); }
        }
        if t1.contains(x) {
            let jj = choose|jj: int| 0 <= jj < idx.edges@.len() && #[trigger] d1(jj) && idx.edges@[jj].kind == EdgeKind::Virtual && idx.edges@[jj].to.0 == x;
            assert(d(jj));
        }
        if t2.contains(x) {
            let jj = choose|jj: int| 0 <= jj < idx.edges@.len() && #[trigger] d2(jj) && idx.edges@[jj].kind == EdgeKind::Virtual && idx.edges@[jj].to.0 == x;
            assert(d(jj));
        }
    }
    assert(t =~= t1 + t2);
}

impl WalkFlags {
    /// Fold another walk's flags into this one.
    fn merge(&mut self, other: &WalkFlags)
        requires
            old(self).virtual_targets@.no_duplicates(),
        ensures
            final(self).virtual_targets@.no_duplicates(),
            final(self).over_approximated == (old(self).over_approximated || other.over_approximated),
            final(self).virtual_targets@.to_set() == old(self).virtual_targets@.to_set() + other.virtual_targets@.to_set(),
            final(self).boundary == (old(self).boundary || other.boundary),
    {
        self.over_approximated = self.over_approximated || other.over_approximated;
        self.boundary = self.boundary || other.boundary;
        let ghost start = self.virtual_targets@.to_set();
        let mut i: usize = 0;
        while i < other.virtual_targets.len()
            invariant
                i <= other.virtual_targets@.len(),
                self.virtual_targets@.no_duplicates(),
                self.over_approximated == (old(self).over_approximated || other.over_approximated),
                self.boundary == (old(self).boundary || other.boundary),
                self.virtual_targets@.to_set() == start + other.virtual_targets@.take(i as int).to_set(),
            decreases other.virtual_targets.len() - i,
        {
            let t = other.virtual_targets[i];
            let ghost before = self.virtual_targets@;
            if !contains_id(&self.virtual_targets, t) {
                self.virtual_targets.push(t);
                proof { before.lemma_push_to_set_commute(t); }
            }
            proof {
                let o = other.virtual_targets@;
                assert(o.take(i + 1) =~= o.take(i as int).push(t));
                o.take(i as int).lemma_push_to_set_commute(t);
                assert(self.virtual_targets@.to_set() =~= start + o.take(i + 1).to_set());
            }
            i = i + 1;
        }
        assert(other.virtual_targets@.take(other.virtual_targets@.len() as int) =~= other.virtual_targets@);
    }

    /// Stamp the accumulated uncertainty onto an envelope.
    fn apply_to<T>(&self, env: Envelope<T>) -> (r: Envelope<T>)
        requires
            self.virtual_targets@.no_duplicates(),
        ensures
            r.data == env.data,
            r.stale == env.stale,
            r.truncated == env.truncated,
            r.total == env.total,
            r.boundary_applies == self.boundary,
            self.over_approximated ==> reason_is(r.over_approximated, true, self.virtual_targets@.to_set().len() as int),
            !self.over_approximated ==> r.over_approximated == env.over_approximated,
    {
        let env = env.with_boundary(self.boundary);
        if self.over_approximated {
            proof { self.virtual_targets@.unique_seq_to_set(); }
            env.with_over_approximation(Reason::dyn_dispatch(DYN_TRAIT_MARKER, self.virtual_targets.len()))
        } else {
            env
        }
    }
}

/// The edges that end at `u` and, when `outgoing`, those that leave it.
pub open spec fn touching(idx: Index, u: u64, outgoing: bool) -> spec_fn(int) -> bool {
    |jj: int| idx.edges@[jj].to.0 == u || (outgoing && idx.edges@[jj].from.0 == u)
}

/// Notes every edge that ends at `u` and, when `outgoing`, every edge that
/// leaves it.
fn scan_touching(index: &Index, u: u64, outgoing: bool) -> (r: WalkFlags)
    ensures
        r.virtual_targets@.no_duplicates(),
        flags_cover(r.over_approximated, r.virtual_targets@.to_set(), r.boundary, *index,
            touching(*index, u, outgoing)),
{
    let ghost idx = *index;
    let mut flags = WalkFlags::new();
    proof {
        assert(flags.virtual_targets@.to_set() =~= Set::<u64>::empty());
        lemma_flags_cover_none(idx, |jj: int| jj < 0 && (idx.edges@[jj].to.0 == u || (outgoing && idx.edges@[jj].from.0 == u)));
    }
    let mut j: usize = 0;
    while j < index.edges.len()
        invariant
            idx == *index,
            j <= idx.edges@.len(),
            flags.virtual_targets@.no_duplicates(),
            flags_cover(flags.over_approximated, flags.virtual_targets@.to_set(), flags.boundary, idx,
                |jj: int| jj < j && (idx.edges@[jj].to.0 == u || (outgoing && idx.edges@[jj].from.0 == u))),
        decreases idx.edges@.len() - j,
    {
        let e = index.edges[j];
        let ghost fo = flags.over_approximated;
        let ghost ft = flags.virtual_targets@.to_set();
        let ghost fb = flags.boundary;
        let hit = e.to.0 == u || (outgoing && e.from.0 == u);
        if hit {
            flags.note_edge(index, &e);
        }
        proof {
            assert(idx.edges@[j as int] == e);
            lemma_flags_cover_step(fo, ft, fb, idx,
                |jj: int| jj < j && (idx.edges@[jj].to.0 == u || (outgoing && idx.edges@[jj].from.0 == u)),
                |jj: int| jj < j + 1 && (idx.edges@[jj].to.0 == u || (outgoing && idx.edges@[jj].from.0 == u)),
                j as int, hit);
            if hit && e.kind == EdgeKind::Virtual {
                assert(flags.virtual_targets@.to_set() == ft.insert(e.to.0));
            }
        }
        j = j + 1;
    }
    proof {
        lemma_flags_cover_ext(flags.over_approximated, flags.virtual_targets@.to_set(), flags.boundary, idx,
            |jj: int| jj < j && (idx.edges@[jj].to.0 == u || (outgoing && idx.edges@[jj].from.0 == u)),
            touching(idx, u, outgoing));
    }
    flags
}

/// The far ends of a list of edges.
fn far_ends(es: &Vec<Edge>, dir: Direction) -> (r: Vec<u64>)
    ensures
        r@ == es@.map_values(|e: Edge| nbr_of(e, dir)),
{
    let mut r: Vec<u64> = Vec::new();
    let mut i: usize = 0;
    while i < es.len()
        invariant
            i <= es@.len(),
            r@ == es@.take(i as int).map_values(|e: Edge| nbr_of(e, dir)),
        decreases es.len() - i,
    {
        r.push(nbr_id(&es[i], dir));
        assert(es@.take(i + 1).map_values(|e: Edge| nbr_of(e, dir)) =~= es@.take(i as int).map_values(|e: Edge| nbr_of(e, dir)).push(nbr_of(es@[i as int], dir)));
        i = i + 1;
    }
    assert(es@.take(es@.len() as int) =~= es@);
    r
}

/// The ids of `v`, each once, in order of first occurrence.
fn distinct_ids(v: &Vec<u64>) -> (r: Vec<u64>)
    ensures
        r@.no_duplicates(),
        r@.len() <= v@.len(),
        forall|x: u64| r@.contains(x) <==> v@.contains(x),
{
    let mut r: Vec<u64> = Vec::new();
    let mut i: usize = 0;
    while i < v.len()
        invariant
            i <= v@.len(),
            r@.no_duplicates(),
            r@.len() <= i,
            forall|x: u64| r@.contains(x) <==> v@.take(i as int).contains(x),
        decreases v.len() - i,
    {
        let x = v[i];
        let ghost before = r@;
        if !contains_id(&r, x) {
            r.push(x);
        }
        let ghost t0 = v@.take(i as int);
        let ghost t1 = v@.take(i + 1);
        assert(t1 =~= t0.push(x));
        assert forall|y: u64| r@.contains(y) <==> t1.contains(y) by {
            if r@.contains(y) && !before.contains(y) {
                assert(y == x);
                assert(t1[i as int] == x);
            }
            if t1.contains(y) && !t0.contains(y) {
                let k = choose|k: int| 0 <= k < t1.len() && t1[k] == y;
                if k < i {
                    assert(t0[k] == y);
                }
                assert(y == x);
                if !before.contains(x) {
                    assert(r@[before.len() as int] == x);
                }
            }
            if t0.contains(y) {
                let k = choose|k: int| 0 <= k < t0.len() && t0[k] == y;
                assert(t1[k] == y);
            }
            if before.contains(y) {
                let k = choose|k: int| 0 <= k < before.len() && before[k] == y;
                assert(r@[k] == y);
            }
        }
        i = i + 1;
    }
    assert(v@.take(v@.len() as int) =~= v@);
    r
}

/// Any list of exactly the neighbours of `u` in `dir` is the one the
/// callers and callees are chosen as.
proof fn lemma_neighbours_chosen(idx: Index, u: u64, r: Seq<Symbol>)
    ensures
        lists_exactly(idx, r, neighbours(idx, u, Direction::Backward)) ==> callers_of(idx, u) == r
            && lists_exactly(idx, callers_of(idx, u), neighbours(idx, u, Direction::Backward)),
        lists_exactly(idx, r, neighbours(idx, u, Direction::Forward)) ==> callees_of(idx, u) == r
            && lists_exactly(idx, callees_of(idx, u), neighbours(idx, u, Direction::Forward)),
{
    if lists_exactly(idx, r, neighbours(idx, u, Direction::Backward)) {
        lemma_lists_exactly_unique(idx, callers_of(idx, u), r, neighbours(idx, u, Direction::Backward));
    }
    if lists_exactly(idx, r, neighbours(idx, u, Direction::Forward)) {
        lemma_lists_exactly_unique(idx, callees_of(idx, u), r, neighbours(idx, u, Direction::Forward));
    }
}

/// Whether an edge of `es` before the `k`-th leads to `x`.
fn tried_before(es: &Vec<Edge>, k: usize, x: u64) -> (r: bool)
    requires
        k <= es@.len(),
    ensures
        r == earlier_to(es@, k as int, x),
{
    let mut j: usize = 0;
    while j < k
        invariant
            j <= k <= es@.len(),
            forall|i: int| 0 <= i < j ==> (#[trigger] es@[i]).to.0 != x,
        decreases k - j,
    {
        if es[j].to.0 == x {
            assert(es@[j as int].to.0 == x);
            return true;
        }
        j = j + 1;
    }
    false
}

impl<'a> Graph<'a> {
    /// The symbols one edge away from `u` in `dir`, each once, sorted.
    fn neighbour_symbols(&self, u: u64, dir: Direction) -> (r: Vec<Symbol>)
        requires
            self.wf(),
        ensures
            lists_exactly(self.model(), r@, neighbours(self.model(), u, dir)),
            r@.len() <= self.model().edges@.len(),
    {
        let index = self.index;
        let ghost idx = *index;
        let ids = far_ends(self.edges(u, dir), dir);
        let d = distinct_ids(&ids);
        let m = materialize(index, &d);
        proof {
            lemma_materialized_set(idx, d@);
            assert forall|x: u64| #[trigger] known(idx, x) implies (d@.contains(x) <==> step(idx, dir, u, x)) by {
                lemma_far_end_member(idx, u, dir, x);
            }
            lemma_lists_exactly_ext(idx, m@, |y: u64| d@.contains(y), neighbours(idx, u, dir));
            lemma_materialized_len(idx, d@);
            lemma_adj_len(idx, u, dir);
        }
        m
    }
}

/// The ids of the symbols whose lowercased path (`lowered[i]` for the `i`-th
/// symbol) contains `needle`, among the first `n` symbols, in index order.
pub open spec fn matching_ids(syms: Seq<Symbol>, lowered: Seq<Seq<char>>, needle: Seq<char>, n: int) -> Seq<u64>
    decreases n,
{
    if n <= 0 {
        seq![]
    } else if has_infix(lowered[n - 1], needle) {
        matching_ids(syms, lowered, needle, n - 1).push(syms[n - 1].id.0)
    } else {
        matching_ids(syms, lowered, needle, n - 1)
    }
}

/// The lowercase forms of every symbol path.
pub open spec fn lowered_paths(idx: Index) -> Seq<Seq<char>> {
    Seq::new(idx.symbols@.len(), |i: int| lowercase_of(idx.symbols@[i].fq_path@))
}

/// The ids a search for `needle` (already lowercased) selects: none for an
/// empty needle, else every symbol whose lowercased path contains it.
pub open spec fn resolve_ids(idx: Index, lowered: Seq<Seq<char>>, needle: Seq<char>) -> Seq<u64> {
    if needle.len() == 0 {
        seq![]
    } else {
        matching_ids(idx.symbols@, lowered, needle, idx.symbols@.len() as int)
    }
}

/// The answer lists `full`, bounded to `limit`, with its full count.
pub open spec fn bounded(data: Seq<Symbol>, total: usize, truncated: bool, full: Seq<Symbol>, limit: usize) -> bool {
    &&& total == full.len()
    &&& truncated == (full.len() > limit)
    &&& data == (if full.len() > limit { full.take(limit as int) } else { full })
}


// ── answers ─────────────────────────────────────────────────────────────────

/// The uncertainty fields of an answer: `stale`, `over_approximated`,
/// `truncated`, `total` and `boundary_applies`.
pub type Marks = (Option<StaleInfo>, Option<Reason>, bool, usize, bool);

/// The uncertainty fields of an envelope.
pub open spec fn marks<T>(e: Envelope<T>) -> Marks {
    (e.stale, e.over_approximated, e.truncated, e.total, e.boundary_applies)
}

/// The search answer for `query`: the symbols whose lowercased path holds the
/// lowercased query (none for an empty query), sorted, bounded to `limit`
/// with their full count, and carrying no uncertainty.
pub open spec fn resolve_answer(idx: Index, query: Seq<char>, limit: usize, data: Seq<Symbol>, m: Marks) -> bool {
    &&& bounded(data, m.3, m.2, materialized(idx, resolve_ids(idx, lowered_paths(idx), lowercase_of(query))), limit)
    &&& m.0 is None
    &&& m.1 is None
    &&& !m.4
}

/// A listing answer: exactly the symbols of the known ids satisfying `pred`,
/// sorted, bounded to `limit` with their full count, not stale, and stamped
/// with the uncertainty of the edges `done` chooses.
pub open spec fn listing_answer(
    idx: Index,
    data: Seq<Symbol>,
    m: Marks,
    pred: spec_fn(u64) -> bool,
    done: spec_fn(int) -> bool,
    limit: usize,
) -> bool {
    &&& bounded_listing(idx, data, m.3, m.2, pred, limit)
    &&& m.0 is None
    &&& flags_stamped(idx, m.1, m.4, done)
}

/// The ids an edge leads to from `u` in `dir`: its direct callees forward,
/// its direct callers backward.
pub open spec fn neighbours(idx: Index, u: u64, dir: Direction) -> spec_fn(u64) -> bool {
    |x: u64| step(idx, dir, u, x)
}

/// The direct callers of `u`, each symbol once, sorted by path then id
/// (callers outside the index dropped).
pub open spec fn callers_of(idx: Index, u: u64) -> Seq<Symbol> {
    choose|r: Seq<Symbol>| lists_exactly(idx, r, neighbours(idx, u, Direction::Backward))
}

/// The direct callees of `u`, each symbol once, sorted by path then id
/// (callees outside the index dropped).
pub open spec fn callees_of(idx: Index, u: u64) -> Seq<Symbol> {
    choose|r: Seq<Symbol>| lists_exactly(idx, r, neighbours(idx, u, Direction::Forward))
}

/// The direct-calls answer for `symbol`: its distinct callers and callees,
/// each sorted and bounded to `limit`, the combined count of distinct
/// callers and callees, truncation when either list was cut, and the
/// uncertainty of every edge touching it.
pub open spec fn direct_calls_answer(
    idx: Index,
    symbol: u64,
    limit: usize,
    callers: Seq<Symbol>,
    callees: Seq<Symbol>,
    m: Marks,
) -> bool {
    let all_callers = callers_of(idx, symbol);
    let all_callees = callees_of(idx, symbol);
    &&& lists_exactly(idx, all_callers, neighbours(idx, symbol, Direction::Backward))
    &&& lists_exactly(idx, all_callees, neighbours(idx, symbol, Direction::Forward))
    &&& m.3 == all_callers.len() + all_callees.len()
    &&& callers == (if all_callers.len() > limit { all_callers.take(limit as int) } else { all_callers })
    &&& callees == (if all_callees.len() > limit { all_callees.take(limit as int) } else { all_callees })
    &&& m.2 == (all_callers.len() > limit || all_callees.len() > limit)
    &&& m.0 is None
    &&& flags_stamped(idx, m.1, m.4, touching(idx, symbol, true))
}

/// The impact answer for `symbol`: its distinct direct callers and the tests reaching
/// it, each bounded to `limit`, their combined count, truncation when either
/// was cut, and the union of both halves' uncertainty.
pub open spec fn impact_answer(
    idx: Index,
    symbol: u64,
    limit: usize,
    direct_callers: Seq<Symbol>,
    affected_tests: Seq<Symbol>,
    m: Marks,
) -> bool {
    let callers = callers_of(idx, symbol);
    &&& lists_exactly(idx, callers, neighbours(idx, symbol, Direction::Backward))
    &&& direct_callers == (if callers.len() > limit { callers.take(limit as int) } else { callers })
    &&& exists|tests: Seq<Symbol>|
        #[trigger] lists_exactly(idx, tests, reached_marked(idx, symbol, Direction::Backward, true))
            && affected_tests == (if tests.len() > limit { tests.take(limit as int) } else { tests })
            && m.3 == callers.len() + tests.len()
            && m.2 == (callers.len() > limit || tests.len() > limit)
    &&& m.0 is None
    &&& flags_stamped(idx, m.1, m.4, impact_done(idx, symbol))
}

impl<'a> Graph<'a> {
    // ── C1 ────────────────────────────────────────────────────────────────

    /// Resolve a fragment to the candidate set, given the fragment and every
    /// symbol path already lowercased (`lowered[i]` for the `i`-th symbol).
    /// Every symbol whose lowercased path contains the fragment is returned,
    /// sorted by path, bounded by `limit` with the full `total` reported. An
    /// empty fragment matches nothing.
    pub fn resolve_lowered(&self, needle: &Vec<char>, lowered: &Vec<Vec<char>>, limit: usize) -> (r: Envelope<Vec<Symbol>>)
        requires
            lowered@.len() == self.model().symbols@.len(),
        ensures
            bounded(r.data@, r.total, r.truncated,
                materialized(self.model(), resolve_ids(self.model(), lowered@.map_values(|v: Vec<char>| v@), needle@)), limit),
            r.stale is None,
            r.over_approximated is None,
            !r.boundary_applies,
    {
        let index = self.index;
        let ghost low = lowered@.map_values(|v: Vec<char>| v@);
        let mut ids: Vec<u64> = Vec::new();
        if needle.len() > 0 {
            let mut i: usize = 0;
            while i < index.symbols.len()
                invariant
                    i <= index.symbols@.len(),
                    lowered@.len() == index.symbols@.len(),
                    low == lowered@.map_values(|v: Vec<char>| v@),
                    ids@ == matching_ids(index.symbols@, low, needle@, i as int),
                decreases index.symbols.len() - i,
            {
                if contains_chars(&lowered[i], needle) {
                    ids.push(index.symbols[i].id.0);
                }
                i = i + 1;
            }
        }
        let all = materialize(index, &ids);
        let total = all.len();
        let (data, truncated) = truncate(all, limit);
        Envelope::exact(data).with_total(total).with_truncated(truncated)
    }

    /// Resolve a name or fragment to the candidate set of matching symbols.
    /// Never picks one: every symbol whose path contains the query,
    /// case-insensitively, is returned, sorted by path, bounded by `limit`
    /// with the full `total` reported. An empty query matches nothing.
    pub fn resolve(&self, query: &str, limit: usize) -> (r: Envelope<Vec<Symbol>>)
        ensures
            resolve_answer(self.model(), query@, limit, r.data@, marks(r)),
            query@.len() == 0 ==> r.total == 0 && r.data@.len() == 0 && !r.truncated,
    {
        let index = self.index;
        let needle_s = to_lowercase(query);
        let needle = chars_of(needle_s.as_str());
        let mut lowered: Vec<Vec<char>> = Vec::new();
        let mut i: usize = 0;
        while i < index.symbols.len()
            invariant
                i <= index.symbols@.len(),
                lowered@.len() == i,
                forall|k: int| 0 <= k < i ==> (#[trigger] lowered@[k])@ == lowercase_of(index.symbols@[k].fq_path@),
            decreases index.symbols.len() - i,
        {
            let l = to_lowercase(index.symbols[i].fq_path.as_str());
            lowered.push(chars_of(l.as_str()));
            i = i + 1;
        }
        assert(lowered@.map_values(|v: Vec<char>| v@) =~= lowered_paths(*index));
        proof {
            if query@.len() == 0 {
                assert(resolve_ids(*index, lowered_paths(*index), needle@) =~= Seq::<u64>::empty());
                lemma_materialized_len(*index, Seq::<u64>::empty());
            }
        }
        self.resolve_lowered(&needle, &lowered, limit)
    }

    // ── C2 ────────────────────────────────────────────────────────────────

    /// Direct callers and direct callees of `symbol`, one hop each way.
    /// `total` is the combined count before truncation; each list is bounded
    /// to `limit` independently and `truncated` is set if either was cut.
    /// Virtual and boundary edges among the direct neighbours raise their flags.
    pub fn direct_calls(&self, symbol: SymbolId, limit: usize) -> (r: Envelope<DirectCalls>)
        requires
            self.wf(),
            self.model().edges@.len() <= usize::MAX / 2,
        ensures
            direct_calls_answer(self.model(), symbol.0, limit, r.data.callers@, r.data.callees@, marks(r)),
    {
        let index = self.index;
        let flags = scan_touching(index, symbol.0, true);
        let callers_full = self.neighbour_symbols(symbol.0, Direction::Backward);
        let callees_full = self.neighbour_symbols(symbol.0, Direction::Forward);
        proof {
            lemma_neighbours_chosen(*index, symbol.0, callers_full@);
            lemma_neighbours_chosen(*index, symbol.0, callees_full@);
        }
        let total = callers_full.len() + callees_full.len();
        let (callers, callers_trunc) = truncate(callers_full, limit);
        let (callees, callees_trunc) = truncate(callees_full, limit);
        let env = Envelope::exact(DirectCalls { callers, callees })
            .with_total(total)
            .with_truncated(callers_trunc || callees_trunc);
        proof { flags.virtual_targets@.unique_seq_to_set(); }
        let r = flags.apply_to(env);
        proof {
            assert(flags_cover(flags.over_approximated, flags.virtual_targets@.to_set(), r.boundary_applies, *index,
                touching(*index, symbol.0, true))
                && reason_is(r.over_approximated, flags.over_approximated, flags.virtual_targets@.to_set().len() as int));
        }
        r
    }
}


/// Everything reachable from `start` in `dir`.
pub open spec fn reached(idx: Index, start: u64, dir: Direction) -> spec_fn(u64) -> bool {
    |x: u64| reaches(idx, start, dir, x)
}

/// `id` names a symbol that is a test (when `tests`) or uses `unsafe`
/// (otherwise).
pub open spec fn marked(idx: Index, id: u64, tests: bool) -> bool {
    known(idx, id) && if tests {
        symbol_of(idx, id).characteristics.test
    } else {
        symbol_of(idx, id).characteristics.uses_unsafe
    }
}

/// The reachable symbols from `start` in `dir` that are marked as `tests`
/// selects.
pub open spec fn reached_marked(idx: Index, start: u64, dir: Direction, tests: bool) -> spec_fn(u64) -> bool {
    |x: u64| reaches(idx, start, dir, x) && marked(idx, x, tests)
}

/// The edges a combined impact answer notes: those into `u` and those a
/// backward walk from `u` notes.
pub open spec fn impact_done(idx: Index, u: u64) -> spec_fn(int) -> bool {
    |jj: int| touching(idx, u, false)(jj) || walk_done(idx, u, Direction::Backward)(jj)
}

/// Every node a walk reaches is the far end of some edge.
proof fn lemma_reached_is_far_end(idx: Index, start: u64, dir: Direction, x: u64)
    requires
        reaches(idx, start, dir, x),
    ensures
        exists|jj: int| 0 <= jj < idx.edges@.len() && nbr_of(#[trigger] idx.edges@[jj], dir) == x,
{
    let p = choose|p: Seq<u64>| #[trigger] is_walk(idx, dir, p) && p[0] == start && p.last() == x;
    assert(linked(idx, dir, p, p.len() - 2));
}

/// Keeps the ids that name a marked symbol.
fn select_marked(index: &Index, ids: &Vec<u64>, tests: bool) -> (r: Vec<u64>)
    ensures
        r@ == ids@.filter(|id: u64| marked(*index, id, tests)),
{
    let mut r: Vec<u64> = Vec::new();
    let mut i: usize = 0;
    while i < ids.len()
        invariant
            i <= ids@.len(),
            r@ == ids@.take(i as int).filter(|id: u64| marked(*index, id, tests)),
        decreases ids.len() - i,
    {
        let id = ids[i];
        proof {
            assert(ids@.take(i + 1) =~= ids@.take(i as int).push(id));
            ids@.take(i as int).lemma_filter_push(id, |id: u64| marked(*index, id, tests));
        }
        match lookup(index, id) {
            Some(p) => {
                let c = index.symbols[p].characteristics;
                if (tests && c.test) || (!tests && c.uses_unsafe) {
                    r.push(id);
                }
            },
            None => {},
        }
        i = i + 1;
    }
    assert(ids@.take(ids.len() as int) =~= ids@);
    r
}

impl<'a> Graph<'a> {
    /// The marked symbols among everything reachable from `start` in `dir`,
    /// as a full sorted list, with the walk's uncertainty.
    fn reachable_marked(&self, start: u64, dir: Direction, tests: bool) -> (r: (Vec<Symbol>, WalkFlags))
        ensures
            lists_exactly(self.model(), r.0@, reached_marked(self.model(), start, dir, tests)),
            r.0@.len() <= self.model().edges@.len() + 1,
            r.1.virtual_targets@.no_duplicates(),
            flags_cover(r.1.over_approximated, r.1.virtual_targets@.to_set(), r.1.boundary, self.model(),
                walk_done(self.model(), start, dir)),
    {
        let index = self.index;
        let ghost idx = *index;
        let (set, flags) = self.reachable_set(start, dir);
        let picked = select_marked(index, &set, tests);
        let all = materialize(index, &picked);
        proof {
            let pr = |id: u64| marked(idx, id, tests);
            lemma_filter_no_dup(set@, pr);
            set@.filter_lemma(pr);
            lemma_materialized_set(idx, picked@);
            assert forall|x: u64| known(idx, x) implies (#[trigger] picked@.contains(x) <==> reached_marked(idx, start, dir, tests)(x)) by {
                if picked@.contains(x) {
                    set@.lemma_filter_contains_rev(pr, x);
                    let k = choose|k: int| 0 <= k < picked@.len() && picked@[k] == x;
                    assert(pr(picked@[k]));
                }
                if reached_marked(idx, start, dir, tests)(x) {
                    assert(set@.contains(x));
                    let k = choose|k: int| 0 <= k < set@.len() && set@[k] == x;
                    assert(pr(set@[k]));
                }
            }
            lemma_lists_exactly_ext(idx, all@, |x: u64| picked@.contains(x), reached_marked(idx, start, dir, tests));
            assert forall|k: int| 0 <= k < set@.len() implies #[trigger] set@[k] == start || exists|jj: int|
                0 <= jj < idx.edges@.len() && nbr_of(#[trigger] idx.edges@[jj], dir) == set@[k] by {
                assert(set@.contains(set@[k]));
                lemma_reached_is_far_end(idx, start, dir, set@[k]);
            }
            lemma_queue_bound(idx, dir, start, set@);
            lemma_materialized_len(idx, picked@);
        }
        (all, flags)
    }

    // ── C3 ────────────────────────────────────────────────────────────────

    /// Transitive reachability from `symbol` in `dir`. The full reachable
    /// set is walked (cycle-safe), so `total` is exact; the output is sorted
    /// and bounded to `limit` with `truncated` set when the limit cut it.
    pub fn reachability(&self, symbol: SymbolId, dir: Direction, limit: usize) -> (r: Envelope<Vec<Symbol>>)
        ensures
            listing_answer(self.model(), r.data@, marks(r), reached(self.model(), symbol.0, dir),
                walk_done(self.model(), symbol.0, dir), limit),
    {
        let index = self.index;
        let ghost idx = *index;
        let (set, flags) = self.reachable_set(symbol.0, dir);
        let all = materialize(index, &set);
        let ghost full = all@;
        proof {
            lemma_materialized_set(idx, set@);
            lemma_lists_exactly_ext(idx, all@, |x: u64| set@.contains(x), reached(idx, symbol.0, dir));
        }
        let total = all.len();
        let (data, truncated) = truncate(all, limit);
        let env = Envelope::exact(data).with_total(total).with_truncated(truncated);
        let r = flags.apply_to(env);
        proof {
            assert(lists_exactly(idx, full, reached(idx, symbol.0, dir)) && r.total == full.len()
                && r.truncated == (full.len() > limit) && r.data@ == (if full.len() > limit { full.take(limit as int) } else { full }));
            assert(flags_cover(flags.over_approximated, flags.virtual_targets@.to_set(), r.boundary_applies, idx,
                walk_done(idx, symbol.0, dir))
                && reason_is(r.over_approximated, flags.over_approximated, flags.virtual_targets@.to_set().len() as int));
        }
        r
    }

    // ── C5 ────────────────────────────────────────────────────────────────

    /// Tests that transitively reach `symbol`: backward reachability filtered
    /// to symbols marked as tests. A test reaching the symbol only through a
    /// dyn-dispatch edge still appears, and the answer is over-approximated.
    pub fn affected_tests(&self, symbol: SymbolId, limit: usize) -> (r: Envelope<Vec<Symbol>>)
        ensures
            listing_answer(self.model(), r.data@, marks(r), reached_marked(self.model(), symbol.0, Direction::Backward, true),
                walk_done(self.model(), symbol.0, Direction::Backward), limit),
    {
        self.marked_answer(symbol.0, Direction::Backward, true, limit)
    }

    // ── C6 ────────────────────────────────────────────────────────────────

    /// Unsafe-using symbols reachable forward from `symbol`.
    pub fn reachable_unsafe(&self, symbol: SymbolId, limit: usize) -> (r: Envelope<Vec<Symbol>>)
        ensures
            listing_answer(self.model(), r.data@, marks(r), reached_marked(self.model(), symbol.0, Direction::Forward, false),
                walk_done(self.model(), symbol.0, Direction::Forward), limit),
    {
        self.marked_answer(symbol.0, Direction::Forward, false, limit)
    }

    fn marked_answer(&self, start: u64, dir: Direction, tests: bool, limit: usize) -> (r: Envelope<Vec<Symbol>>)
        ensures
            listing_answer(self.model(), r.data@, marks(r), reached_marked(self.model(), start, dir, tests),
                walk_done(self.model(), start, dir), limit),
    {
        let ghost idx = *self.index;
        let (all, flags) = self.reachable_marked(start, dir, tests);
        let ghost full = all@;
        let total = all.len();
        let (data, truncated) = truncate(all, limit);
        let env = Envelope::exact(data).with_total(total).with_truncated(truncated);
        let r = flags.apply_to(env);
        proof {
            assert(lists_exactly(idx, full, reached_marked(idx, start, dir, tests)) && r.total == full.len()
                && r.truncated == (full.len() > limit) && r.data@ == (if full.len() > limit { full.take(limit as int) } else { full }));
            assert(flags_cover(flags.over_approximated, flags.virtual_targets@.to_set(), r.boundary_applies, idx,
                walk_done(idx, start, dir))
                && reason_is(r.over_approximated, flags.over_approximated, flags.virtual_targets@.to_set().len() as int));
        }
        r
    }

    // ── C7 ────────────────────────────────────────────────────────────────

    /// Combined change impact for `symbol`: its direct callers plus the tests
    /// that transitively reach it. `total` is the combined count before
    /// truncation; each list is bounded to `limit`. The uncertainty is the
    /// union of the one-hop caller scan and the full backward test walk.
    pub fn impact(&self, symbol: SymbolId, limit: usize) -> (r: Envelope<Impact>)
        requires
            self.wf(),
            self.model().edges@.len() < usize::MAX / 2,
        ensures
            impact_answer(self.model(), symbol.0, limit, r.data.direct_callers@, r.data.affected_tests@, marks(r)),
    {
        let index = self.index;
        let ghost idx = *index;
        let mut flags = scan_touching(index, symbol.0, false);
        let callers_full = self.neighbour_symbols(symbol.0, Direction::Backward);
        proof {
            lemma_neighbours_chosen(idx, symbol.0, callers_full@);
        }
        let (tests_full, walk_flags) = self.reachable_marked(symbol.0, Direction::Backward, true);
        let ghost f1 = (flags.over_approximated, flags.virtual_targets@.to_set(), flags.boundary);
        flags.merge(&walk_flags);
        proof {
            lemma_flags_merge(f1.0, f1.1, f1.2, touching(idx, symbol.0, false),
                walk_flags.over_approximated, walk_flags.virtual_targets@.to_set(), walk_flags.boundary,
                walk_done(idx, symbol.0, Direction::Backward), idx);
            lemma_flags_cover_ext(flags.over_approximated, flags.virtual_targets@.to_set(), flags.boundary, idx,
                |jj: int| touching(idx, symbol.0, false)(jj) || walk_done(idx, symbol.0, Direction::Backward)(jj),
                impact_done(idx, symbol.0));
        }
        let ghost tests = tests_full@;
        let total = callers_full.len() + tests_full.len();
        let (direct_callers, callers_trunc) = truncate(callers_full, limit);
        let (affected_tests, tests_trunc) = truncate(tests_full, limit);
        let env = Envelope::exact(Impact { direct_callers, affected_tests })
            .with_total(total)
            .with_truncated(callers_trunc || tests_trunc);
        let r = flags.apply_to(env);
        proof {
            assert(lists_exactly(idx, tests, reached_marked(idx, symbol.0, Direction::Backward, true)));
            assert(flags_cover(flags.over_approximated, flags.virtual_targets@.to_set(), r.boundary_applies, idx,
                impact_done(idx, symbol.0))
                && reason_is(r.over_approximated, flags.over_approximated, flags.virtual_targets@.to_set().len() as int));
        }
        r
    }
}


// ── call paths ──────────────────────────────────────────────────────────────

/// The state of a path enumeration: the paths found so far (as id
/// sequences), whether a branch was cut at the depth bound, and the
/// uncertainty noted so far (any virtual edge, the distinct virtual targets,
/// any boundary target).
pub type SearchState = (Seq<Seq<u64>>, bool, bool, Set<u64>, bool);

/// Noting one traversed edge.
pub open spec fn note_spec(idx: Index, st: SearchState, e: Edge) -> SearchState {
    let v = e.kind == EdgeKind::Virtual;
    (st.0, st.1, st.2 || v, if v { st.3.insert(e.to.0) } else { st.3 }, st.4 || is_boundary(idx, e.to.0))
}

/// Depth-first enumeration of the simple paths from the start to `target`,
/// extending the path `current` (which ends at `node`). Neighbours are tried
/// in adjacency order, each once; a path never revisits a node nor passes through an id
/// that names no symbol; a path is complete when it reaches `target` (having
/// at least one edge); a path of `max_depth` edges is not extended, and the
/// cut is recorded if `node` has an edge to another node; once `cap` paths
/// are found the enumeration stops. Every edge tried is noted.
pub open spec fn dfs(
    idx: Index,
    node: u64,
    target: u64,
    max_depth: nat,
    cap: nat,
    current: Seq<u64>,
    st: SearchState,
) -> SearchState
    decreases max_depth + 1 - current.len(), 1int, 0int,
{
    if current.len() == 0 || current.len() > max_depth + 1 {
        st
    } else if st.0.len() >= cap {
        st
    } else if node == target && current.len() > 1 {
        (st.0.push(current), st.1, st.2, st.3, st.4)
    } else if current.len() - 1 >= max_depth {
        let es = adj(idx, node, Direction::Forward);
        (st.0, st.1 || exists|k: int| 0 <= k < es.len() && (#[trigger] es[k]).to.0 != node, st.2, st.3, st.4)
    } else {
        dfs_children(idx, node, target, max_depth, cap, current, 0, st)
    }
}

/// Some edge of `es` before the `k`-th leads to `x`.
pub open spec fn earlier_to(es: Seq<Edge>, k: int, x: u64) -> bool {
    exists|j: int| 0 <= j < k && (#[trigger] es[j]).to.0 == x
}

/// The part of [`dfs`] that tries the neighbours of `node` from the `k`-th on.
/// A neighbour already tried through an earlier edge (one of another kind) is
/// not tried again, so each path is found once.
pub open spec fn dfs_children(
    idx: Index,
    node: u64,
    target: u64,
    max_depth: nat,
    cap: nat,
    current: Seq<u64>,
    k: int,
    st: SearchState,
) -> SearchState
    decreases max_depth + 1 - current.len(), 0int, adj(idx, node, Direction::Forward).len() - k,
{
    let es = adj(idx, node, Direction::Forward);
    if current.len() == 0 || current.len() > max_depth || k < 0 || k >= es.len() {
        st
    } else {
        let e = es[k];
        let st1 = note_spec(idx, st, e);
        let next = e.to.0;
        if current.contains(next) || !known(idx, next) || earlier_to(es, k, next) {
            dfs_children(idx, node, target, max_depth, cap, current, k + 1, st1)
        } else {
            let st2 = dfs(idx, next, target, max_depth, cap, current.push(next), st1);
            if st2.0.len() >= cap {
                st2
            } else {
                dfs_children(idx, node, target, max_depth, cap, current, k + 1, st2)
            }
        }
    }
}

/// The order key of a path: the key of each node's path, in order.
pub open spec fn path_key(idx: Index, p: Seq<u64>) -> Seq<u64>
    decreases p.len(),
{
    if p.len() == 0 {
        seq![]
    } else {
        path_key(idx, p.drop_last()) + encode_text(path_of(idx, p.last()))
    }
}

/// The symbols along a path (ids naming no symbol dropped).
pub open spec fn path_nodes(idx: Index, p: Seq<u64>) -> Seq<Symbol> {
    p.filter(|id: u64| known(idx, id)).map_values(|id: u64| symbol_of(idx, id))
}

/// The enumeration a call-path query runs: from `from`, collecting one path
/// beyond `max_paths` so that a result of exactly `max_paths` paths can be
/// told from one that was cut.
pub open spec fn path_search(idx: Index, from: u64, to: u64, max_depth: nat, max_paths: nat) -> SearchState {
    let cap = if max_paths < usize::MAX { max_paths + 1 } else { usize::MAX as nat };
    dfs(idx, from, to, max_depth, cap, seq![from], (seq![], false, false, Set::empty(), false))
}

/// A path paired with its order key.
pub open spec fn keyed_path(idx: Index) -> spec_fn(Seq<u64>) -> (Seq<u64>, Seq<u64>) {
    |p: Seq<u64>| (path_key(idx, p), p)
}

/// The ids a path vector holds.
pub open spec fn ids_of() -> spec_fn(Vec<u64>) -> Seq<u64> {
    |v: Vec<u64>| v@
}

/// The paths found, sorted by their key.
pub open spec fn sorted_paths(idx: Index, found: Seq<Seq<u64>>) -> Seq<Seq<u64>> {
    sort_keyed(found.map_values(keyed_path(idx))).map_values(|x: (Seq<u64>, Seq<u64>)| x.1)
}


/// The symbols along a path, as a function of the path.
pub open spec fn nodes_of(idx: Index) -> spec_fn(Seq<u64>) -> Seq<Symbol> {
    |p: Seq<u64>| path_nodes(idx, p)
}

/// The call-paths answer: the paths the enumeration from `from` to `to`
/// found, in path order, at most `max_paths` of them, each as the symbols
/// along it. `total` is the number returned; `truncated` is set when more
/// than `max_paths` paths were found or a branch was cut at the depth bound;
/// the uncertainty covers every edge the enumeration tried.
pub open spec fn call_paths_answer(
    idx: Index,
    from: u64,
    to: u64,
    max_depth: usize,
    max_paths: usize,
    paths: Seq<Seq<Symbol>>,
    m: Marks,
) -> bool {
    let st = path_search(idx, from, to, max_depth as nat, max_paths as nat);
    let sorted = sorted_paths(idx, st.0);
    let kept = if sorted.len() > max_paths { sorted.take(max_paths as int) } else { sorted };
    &&& paths == kept.map_values(nodes_of(idx))
    &&& m.3 == kept.len()
    &&& m.2 == (st.0.len() > max_paths || st.1)
    &&& m.0 is None
    &&& reason_is(m.1, st.2, st.3.len() as int)
    &&& m.4 == st.4
}

/// The exec search state, viewed.
spec fn search_view(paths: Seq<Vec<u64>>, cut: bool, flags: WalkFlags) -> SearchState {
    (paths.map_values(|p: Vec<u64>| p@), cut, flags.over_approximated, flags.virtual_targets@.to_set(), flags.boundary)
}

/// The symbols along a path.
fn path_symbols(index: &Index, p: &Vec<u64>) -> (r: Vec<Symbol>)
    ensures
        r@ == path_nodes(*index, p@),
{
    let mut r: Vec<Symbol> = Vec::new();
    let mut i: usize = 0;
    while i < p.len()
        invariant
            i <= p@.len(),
            r@ == path_nodes(*index, p@.take(i as int)),
        decreases p.len() - i,
    {
        let id = p[i];
        proof {
            assert(p@.take(i + 1) =~= p@.take(i as int).push(id));
            p@.take(i as int).lemma_filter_push(id, |id: u64| known(*index, id));
        }
        match lookup(index, id) {
            Some(k) => {
                let ghost before = r@;
                r.push(index.symbols[k].duplicate());
                assert(r@ =~= path_nodes(*index, p@.take(i + 1)));
            },
            None => {
                assert(r@ =~= path_nodes(*index, p@.take(i + 1)));
            },
        }
        i = i + 1;
    }
    assert(p@.take(p.len() as int) =~= p@);
    r
}

/// The order key of a path.
fn path_key_of(index: &Index, p: &Vec<u64>) -> (k: Vec<u64>)
    ensures
        k@ == path_key(*index, p@),
{
    let mut k: Vec<u64> = Vec::new();
    let mut i: usize = 0;
    while i < p.len()
        invariant
            i <= p@.len(),
            k@ == path_key(*index, p@.take(i as int)),
        decreases p.len() - i,
    {
        let id = p[i];
        match lookup(index, id) {
            Some(j) => {
                let cs = chars_of(index.symbols[j].fq_path.as_str());
                push_encoded(&mut k, &cs);
            },
            None => {
                let cs: Vec<char> = Vec::new();
                push_encoded(&mut k, &cs);
            },
        }
        assert(p@.take(i + 1).drop_last() =~= p@.take(i as int));
        i = i + 1;
    }
    assert(p@.take(p.len() as int) =~= p@);
    k
}

/// Copies a path.
fn copy_ids(p: &Vec<u64>) -> (r: Vec<u64>)
    ensures
        r@ == p@,
{
    let mut r: Vec<u64> = Vec::new();
    let mut i: usize = 0;
    while i < p.len()
        invariant
            i <= p@.len(),
            r@ == p@.take(i as int),
        decreases p.len() - i,
    {
        r.push(p[i]);
        assert(p@.take(i + 1) =~= p@.take(i as int).push(p@[i as int]));
        i = i + 1;
    }
    assert(p@.take(p.len() as int) =~= p@);
    r
}

impl<'a> Graph<'a> {
    #[verifier::rlimit(50)]
    fn dfs_paths(
        &self,
        node: u64,
        target: u64,
        max_depth: usize,
        cap: usize,
        current: &mut Vec<u64>,
        paths: &mut Vec<Vec<u64>>,
        cut: &mut bool,
        flags: &mut WalkFlags,
    )
        requires
            self.wf(),
            1 <= old(current)@.len() <= max_depth + 1,
            old(current)@.last() == node,
            old(paths)@.len() <= cap,
            old(flags).virtual_targets@.no_duplicates(),
        ensures
            final(current)@ == old(current)@,
            final(flags).virtual_targets@.no_duplicates(),
            final(paths)@.len() <= cap,
            search_view(final(paths)@, *final(cut), *final(flags)) == dfs(
                self.model(),
                node,
                target,
                max_depth as nat,
                cap as nat,
                old(current)@,
                search_view(old(paths)@, *old(cut), *old(flags)),
            ),
        decreases max_depth + 1 - old(current)@.len(),
    {
        let ghost idx = *self.index;
        if paths.len() >= cap {
            return;
        }
        if node == target && current.len() > 1 {
            let ghost before = paths@;
            paths.push(copy_ids(current));
            assert(search_view(paths@, *cut, *flags).0 =~= search_view(before, *cut, *flags).0.push(current@));
            return;
        }
        let es = self.edges(node, Direction::Forward);
        if current.len() - 1 >= max_depth {
            let mut k: usize = 0;
            let mut found = false;
            while k < es.len()
                invariant
                    k <= es@.len(),
                    es@ == adj(idx, node, Direction::Forward),
                    found == exists|kk: int| 0 <= kk < k && (#[trigger] es@[kk]).to.0 != node,
                decreases es.len() - k,
            {
                if es[k].to.0 != node {
                    found = true;
                }
                k = k + 1;
            }
            if found {
                *cut = true;
            }
            return;
        }
        let ghost cur0 = current@;
        let ghost st0 = search_view(paths@, *cut, *flags);
        let ghost whole = dfs(idx, node, target, max_depth as nat, cap as nat, cur0, st0);
        assert(whole == dfs_children(idx, node, target, max_depth as nat, cap as nat, cur0, 0, st0));
        let mut k: usize = 0;
        while k < es.len()
            invariant_except_break
                paths@.len() < cap,
                whole == dfs_children(idx, node, target, max_depth as nat, cap as nat, cur0, k as int,
                    search_view(paths@, *cut, *flags)),
            invariant
                self.wf(),
                idx == self.model(),
                es@ == adj(idx, node, Direction::Forward),
                k <= es@.len(),
                cur0 == old(current)@,
                current@ == cur0,
                1 <= cur0.len() <= max_depth,
                cur0.last() == node,
                paths@.len() <= cap,
                flags.virtual_targets@.no_duplicates(),
                whole == dfs(idx, node, target, max_depth as nat, cap as nat, cur0,
                    search_view(old(paths)@, *old(cut), *old(flags))),
            ensures
                current@ == cur0,
                paths@.len() <= cap,
                flags.virtual_targets@.no_duplicates(),
                whole == search_view(paths@, *cut, *flags),
            decreases es.len() - k,
        {
            let e = es[k];
            let ghost stk = search_view(paths@, *cut, *flags);
            flags.note_edge(self.index, &e);
            let ghost st1 = search_view(paths@, *cut, *flags);
            assert(st1 == note_spec(idx, stk, e));
            let next = e.to.0;
            let on_path = contains_id(current, next);
            let unknown = lookup(self.index, next).is_none();
            let earlier = tried_before(es, k, next);
            if on_path || unknown || earlier {
                k = k + 1;
            } else {
                current.push(next);
                assert(current@ == cur0.push(next));
                self.dfs_paths(next, target, max_depth, cap, current, paths, cut, flags);
                let ghost st2 = search_view(paths@, *cut, *flags);
                assert(st2 == dfs(idx, next, target, max_depth as nat, cap as nat, cur0.push(next), st1));
                let _ = current.pop();
                assert(current@ =~= cur0);
                if paths.len() >= cap {
                    assert(whole == st2);
                    break;
                }
                k = k + 1;
            }
        }
    }

    // ── C4 ────────────────────────────────────────────────────────────────

    /// Enumerate simple call paths from `from` to `to`, each at most
    /// `max_depth` edges long, returning at most `max_paths` of them in path
    /// order. `total` is the number of paths returned; `truncated` is set when
    /// more than `max_paths` paths exist or a branch was cut at the depth
    /// bound. The uncertainty covers every edge the enumeration tried, also
    /// those on paths the cap dropped.
    pub fn call_paths(&self, from: SymbolId, to: SymbolId, max_depth: usize, max_paths: usize) -> (r: Envelope<Vec<CallPath>>)
        requires
            self.wf(),
        ensures
            call_paths_answer(self.model(), from.0, to.0, max_depth, max_paths,
                r.data@.map_values(|c: CallPath| c.nodes@), marks(r)),
    {
        let index = self.index;
        let ghost idx = *index;
        let mut paths: Vec<Vec<u64>> = Vec::new();
        let mut current: Vec<u64> = Vec::new();
        current.push(from.0);
        let mut cut = false;
        let mut flags = WalkFlags::new();
        let cap = if max_paths < usize::MAX { max_paths + 1 } else { usize::MAX };
        assert(search_view(paths@, cut, flags) =~= (Seq::<Seq<u64>>::empty(), false, false, Set::<u64>::empty(), false));
        assert(flags.virtual_targets@.to_set() =~= Set::<u64>::empty());
        assert(current@ =~= seq![from.0]);
        if max_depth == usize::MAX {
            // a path can never be longer than the ids a machine can hold
            assert(current@.len() <= max_depth + 1);
        }
        self.dfs_paths(from.0, to.0, max_depth, cap, &mut current, &mut paths, &mut cut, &mut flags);
        let ghost st = search_view(paths@, cut, flags);
        let hit_cap = paths.len() > max_paths;
        // sort the found paths by key
        let mut items: Vec<Keyed<Vec<u64>>> = Vec::new();
        let mut i: usize = 0;
        let ghost found = st.0;
        let n = paths.len();
        while i < n
            invariant
                idx == *index,
                n == paths@.len(),
                i <= n,
                found == paths@.map_values(|p: Vec<u64>| p@),
                map_items(keyed_view(items@), ids_of()) == found.take(i as int).map_values(keyed_path(idx)),
            decreases n - i,
        {
            let k = path_key_of(index, &paths[i]);
            let c = copy_ids(&paths[i]);
            let ghost before = items@;
            items.push(Keyed { key: k, item: c });
            proof {
                assert(found[i as int] == paths@[i as int]@);
                assert(found.take(i + 1) =~= found.take(i as int).push(found[i as int]));
                assert(items@ == before.push(Keyed { key: k, item: c }));
                assert(keyed_view(items@) =~= keyed_view(before).push((k@, c)));
                assert(map_items(keyed_view(items@), ids_of()) =~= map_items(keyed_view(before), ids_of()).push((k@, c@)));
                assert(found.take(i + 1).map_values(keyed_path(idx)) =~= found.take(i as int).map_values(keyed_path(idx)).push((k@, c@)));
            }
            i = i + 1;
        }
        assert(found.take(n as int) =~= found);
        let ghost kv = keyed_view(items@);
        let sorted = sort_by_key(items);
        let sorted = unkey(sorted);
        proof {
            crate::order::lemma_sort_keyed_map(kv, ids_of());
            let sp = sorted_paths(idx, found);
            assert(sp.len() == sorted@.len());
            assert forall|q: int| 0 <= q < sp.len() implies #[trigger] sp[q] == sorted@[q]@ by {
                assert(sort_keyed(map_items(kv, ids_of()))[q] == map_items(sort_keyed(kv), ids_of())[q]);
            }
        }
        let (kept, _) = truncate(sorted, max_paths);
        let mut data: Vec<CallPath> = Vec::new();
        let mut j: usize = 0;
        while j < kept.len()
            invariant
                idx == *index,
                j <= kept@.len(),
                data@.len() == j,
                forall|q: int| 0 <= q < j ==> (#[trigger] data@[q]).nodes@ == path_nodes(idx, kept@[q]@),
            decreases kept.len() - j,
        {
            let nodes = path_symbols(index, &kept[j]);
            data.push(CallPath { nodes });
            j = j + 1;
        }
        let total = data.len();
        let env = Envelope::exact(data).with_total(total).with_truncated(hit_cap || cut);
        proof { flags.virtual_targets@.unique_seq_to_set(); }
        let r = flags.apply_to(env);
        proof {
            let sp = sorted_paths(idx, st.0);
            let kept_spec = if sp.len() > max_paths { sp.take(max_paths as int) } else { sp };
            assert(kept@.len() == kept_spec.len());
            assert forall|q: int| 0 <= q < kept@.len() implies kept@[q]@ == kept_spec[q] by {
                assert(sp[q] == sorted@[q]@);
            }
            assert(r.data@.map_values(|c: CallPath| c.nodes@) =~= kept_spec.map_values(nodes_of(idx)));
        }
        r
    }
}

// ── laws ────────────────────────────────────────────────────────────────────

/// A set-valued answer is determined: two lists that both list exactly the
/// symbols satisfying `pred` are the same list.
pub proof fn lemma_lists_exactly_unique(idx: Index, a: Seq<Symbol>, b: Seq<Symbol>, pred: spec_fn(u64) -> bool)
    requires
        lists_exactly(idx, a, pred),
        lists_exactly(idx, b, pred),
    ensures
        a == b,
    decreases a.len(),
{
    if a.len() == 0 {
        if b.len() > 0 {
            let x = b[0].id.0;
            assert(exists|i: int| 0 <= i < b.len() && (#[trigger] b[i]).id.0 == x);
            assert(known(idx, x) && pred(x));
        }
        assert(a =~= b);
    } else {
        let x = a[0].id.0;
        assert(exists|i: int| 0 <= i < a.len() && (#[trigger] a[i]).id.0 == x);
        assert(known(idx, x) && pred(x));
        let k = choose|i: int| 0 <= i < b.len() && (#[trigger] b[i]).id.0 == x;
        let y = b[0].id.0;
        assert(exists|i: int| 0 <= i < b.len() && (#[trigger] b[i]).id.0 == y);
        assert(known(idx, y) && pred(y));
        let m = choose|i: int| 0 <= i < a.len() && (#[trigger] a[i]).id.0 == y;
        if k != 0 {
            assert(lex_lt(sym_key(b[0]), sym_key(b[k])));
            assert(b[k] == a[0]);
            if m != 0 {
                assert(lex_lt(sym_key(a[0]), sym_key(a[m])));
                assert(a[m] == b[0]);
                crate::order::lemma_lex_asymmetric(sym_key(a[0]), sym_key(b[0]));
            } else {
                assert(a[0] == b[0]);
                crate::order::lemma_lex_irreflexive(sym_key(a[0]));
            }
        }
        assert(a[0] == b[0]);
        let a1 = a.drop_first();
        let b1 = b.drop_first();
        let p1 = |z: u64| pred(z) && z != x;
        assert forall|z: u64| (known(idx, z) && #[trigger] p1(z)) <==> exists|i: int| 0 <= i < a1.len() && (#[trigger] a1[i]).id.0 == z by {
            if known(idx, z) && p1(z) {
                let i = choose|i: int| 0 <= i < a.len() && (#[trigger] a[i]).id.0 == z;
                assert(i != 0);
                assert(a1[i - 1].id.0 == z);
            }
            if exists|i: int| 0 <= i < a1.len() && (#[trigger] a1[i]).id.0 == z {
                let i = choose|i: int| 0 <= i < a1.len() && (#[trigger] a1[i]).id.0 == z;
                assert(a[i + 1].id.0 == z);
                assert(lex_lt(sym_key(a[0]), sym_key(a[i + 1])));
                if z == x {
                    assert(a[i + 1] == symbol_of(idx, z) && a[0] == symbol_of(idx, z));
                    crate::order::lemma_lex_irreflexive(sym_key(a[0]));
                }
            }
        }
        assert forall|z: u64| (known(idx, z) && #[trigger] p1(z)) <==> exists|i: int| 0 <= i < b1.len() && (#[trigger] b1[i]).id.0 == z by {
            if known(idx, z) && p1(z) {
                let i = choose|i: int| 0 <= i < b.len() && (#[trigger] b[i]).id.0 == z;
                assert(i != 0);
                assert(b1[i - 1].id.0 == z);
            }
            if exists|i: int| 0 <= i < b1.len() && (#[trigger] b1[i]).id.0 == z {
                let i = choose|i: int| 0 <= i < b1.len() && (#[trigger] b1[i]).id.0 == z;
                assert(b[i + 1].id.0 == z);
                assert(lex_lt(sym_key(b[0]), sym_key(b[i + 1])));
                if z == x {
                    assert(b[i + 1] == symbol_of(idx, z) && b[0] == symbol_of(idx, z));
                    crate::order::lemma_lex_irreflexive(sym_key(b[0]));
                }
            }
        }
        assert forall|i: int, j: int| 0 <= i < j < a1.len() implies lex_lt(sym_key(#[trigger] a1[i]), sym_key(#[trigger] a1[j])) by {
            assert(a1[i] == a[i + 1] && a1[j] == a[j + 1]);
        }
        assert forall|i: int| 0 <= i < a1.len() implies known(idx, (#[trigger] a1[i]).id.0) && a1[i] == symbol_of(idx, a1[i].id.0) by {
            assert(a1[i] == a[i + 1]);
        }
        assert forall|i: int, j: int| 0 <= i < j < b1.len() implies lex_lt(sym_key(#[trigger] b1[i]), sym_key(#[trigger] b1[j])) by {
            assert(b1[i] == b[i + 1] && b1[j] == b[j + 1]);
        }
        assert forall|i: int| 0 <= i < b1.len() implies known(idx, (#[trigger] b1[i]).id.0) && b1[i] == symbol_of(idx, b1[i].id.0) by {
            assert(b1[i] == b[i + 1]);
        }
        lemma_lists_exactly_unique(idx, a1, b1, p1);
        assert forall|i: int| 0 <= i < a.len() implies a[i] == b[i] by {
            if i > 0 {
                assert(a[i] == a1[i - 1] && b[i] == b1[i - 1]);
            }
        }
        assert(a =~= b);
    }
}

/// The tests an answer lists (or the unsafe-using symbols) are among the
/// symbols reachability lists from the same start in the same direction.
pub proof fn lemma_marked_within_reached(
    idx: Index,
    start: u64,
    dir: Direction,
    tests: bool,
    marked_list: Seq<Symbol>,
    reached_list: Seq<Symbol>,
)
    requires
        lists_exactly(idx, marked_list, reached_marked(idx, start, dir, tests)),
        lists_exactly(idx, reached_list, reached(idx, start, dir)),
    ensures
        forall|i: int| 0 <= i < marked_list.len() ==> reached_list.contains(#[trigger] marked_list[i]),
{
    assert forall|i: int| 0 <= i < marked_list.len() implies reached_list.contains(#[trigger] marked_list[i]) by {
        let x = marked_list[i].id.0;
        assert(exists|k: int| 0 <= k < marked_list.len() && (#[trigger] marked_list[k]).id.0 == x);
        assert(known(idx, x) && reached_marked(idx, start, dir, tests)(x));
        assert(known(idx, x) && reached(idx, start, dir)(x));
        let j = choose|j: int| 0 <= j < reached_list.len() && (#[trigger] reached_list[j]).id.0 == x;
        assert(reached_list[j] == marked_list[i]);
    }
}

/// Without virtual edges nothing is over-approximated: the uncertainty an
/// answer over such an index carries never names a dyn-dispatch reason.
pub proof fn lemma_static_graph_exact(idx: Index, over: Option<Reason>, boundary: bool, done: spec_fn(int) -> bool)
    requires
        forall|j: int| 0 <= j < idx.edges@.len() ==> (#[trigger] idx.edges@[j]).kind == EdgeKind::Static,
        flags_stamped(idx, over, boundary, done),
    ensures
        over is None,
{
    let (o, t) = choose|o: bool, t: Set<u64>| #[trigger] flags_cover(o, t, boundary, idx, done) && reason_is(over, o, t.len() as int);
    if o {
        let jj = choose|jj: int| 0 <= jj < idx.edges@.len() && #[trigger] done(jj) && idx.edges@[jj].kind == EdgeKind::Virtual;
        assert(idx.edges@[jj].kind == EdgeKind::Static);
    }
}

/// A forward edge from `u` to `v` is a backward edge from `v` to `u`.
proof fn lemma_step_flip(idx: Index, u: u64, v: u64)
    ensures
        step(idx, Direction::Forward, u, v) <==> step(idx, Direction::Backward, v, u),
{
    if step(idx, Direction::Forward, u, v) {
        let j = choose|j: int| 0 <= j < idx.edges@.len() && src_of(#[trigger] idx.edges@[j], Direction::Forward) == u
            && nbr_of(idx.edges@[j], Direction::Forward) == v;
        assert(src_of(idx.edges@[j], Direction::Backward) == v && nbr_of(idx.edges@[j], Direction::Backward) == u);
    }
    if step(idx, Direction::Backward, v, u) {
        let j = choose|j: int| 0 <= j < idx.edges@.len() && src_of(#[trigger] idx.edges@[j], Direction::Backward) == v
            && nbr_of(idx.edges@[j], Direction::Backward) == u;
        assert(src_of(idx.edges@[j], Direction::Forward) == u && nbr_of(idx.edges@[j], Direction::Forward) == v);
    }
}

/// A walk read backwards is a walk in the other direction, provided the node
/// it now leaves from lies inside the workspace.
proof fn lemma_walk_reversed(idx: Index, d: Direction, p: Seq<u64>)
    requires
        is_walk(idx, d, p),
        !is_boundary(idx, p[0]),
    ensures
        is_walk(idx, flip(d), p.reverse()),
        p.reverse()[0] == p.last(),
        p.reverse().last() == p[0],
{
    let q = p.reverse();
    let n = p.len() as int;
    assert forall|i: int| 0 <= i < q.len() - 1 implies #[trigger] linked(idx, flip(d), q, i) by {
        assert(linked(idx, d, p, n - 2 - i));
        assert(q[i] == p[n - 1 - i] && q[i + 1] == p[n - 2 - i]);
        match d {
            Direction::Forward => lemma_step_flip(idx, p[n - 2 - i], p[n - 1 - i]),
            Direction::Backward => lemma_step_flip(idx, p[n - 1 - i], p[n - 2 - i]),
        }
    }
    assert forall|i: int| 1 <= i < q.len() implies !is_boundary(idx, #[trigger] q[i]) by {
        assert(q[i] == p[n - 1 - i]);
        if n - 1 - i >= 1 {
            assert(!is_boundary(idx, p[n - 1 - i]));
        }
    }
}

/// The other direction.
pub open spec fn flip(d: Direction) -> Direction {
    match d {
        Direction::Forward => Direction::Backward,
        Direction::Backward => Direction::Forward,
    }
}

/// Forward and backward reachability are converse: between two workspace
/// symbols, `b` is among what `a` reaches exactly when `a` is among what
/// reaches `b`.
pub proof fn lemma_reachability_converse(idx: Index, a: u64, b: u64)
    requires
        !is_boundary(idx, a),
        !is_boundary(idx, b),
    ensures
        reached(idx, a, Direction::Forward)(b) <==> reached(idx, b, Direction::Backward)(a),
{
    if reaches(idx, a, Direction::Forward, b) {
        let p = choose|p: Seq<u64>| #[trigger] is_walk(idx, Direction::Forward, p) && p[0] == a && p.last() == b;
        lemma_walk_reversed(idx, Direction::Forward, p);
        assert(is_walk(idx, Direction::Backward, p.reverse()));
    }
    if reaches(idx, b, Direction::Backward, a) {
        let p = choose|p: Seq<u64>| #[trigger] is_walk(idx, Direction::Backward, p) && p[0] == b && p.last() == a;
        lemma_walk_reversed(idx, Direction::Backward, p);
        assert(is_walk(idx, Direction::Forward, p.reverse()));
    }
}

/// The symbol a known id names is among the materialized symbols exactly when
/// the id is among the ids materialized.
proof fn lemma_materialized_member(idx: Index, ids: Seq<u64>, x: u64)
    requires
        known(idx, x),
    ensures
        materialized(idx, ids).contains(symbol_of(idx, x)) <==> ids.contains(x),
{
    let kn = known_ids(idx, ids);
    let src = kn.map_values(|id: u64| sym_entry(idx, id));
    let sorted = sort_keyed(src);
    let m = materialized(idx, ids);
    ids.filter_lemma(|id: u64| known(idx, id));
    crate::order::lemma_sort_keyed_props(src);
    lemma_symbol_of(idx, x);
    if ids.contains(x) {
        let k = choose|k: int| 0 <= k < ids.len() && ids[k] == x;
        assert(kn.contains(x));
        let j = choose|j: int| 0 <= j < kn.len() && kn[j] == x;
        assert(src[j] == sym_entry(idx, x));
        assert(src.to_multiset().count(src[j]) > 0);
        assert(sorted.to_multiset().count(src[j]) > 0);
        assert(sorted.contains(src[j]));
        let i = choose|i: int| 0 <= i < sorted.len() && sorted[i] == src[j];
        assert(m[i] == symbol_of(idx, x));
    }
    if m.contains(symbol_of(idx, x)) {
        let i = choose|i: int| 0 <= i < m.len() && m[i] == symbol_of(idx, x);
        assert(sorted.to_multiset().count(sorted[i]) > 0);
        assert(src.contains(sorted[i]));
        let j = choose|j: int| 0 <= j < src.len() && src[j] == sorted[i];
        assert(kn.contains(kn[j]));
        ids.lemma_filter_contains_rev(|id: u64| known(idx, id), kn[j]);
        assert(known(idx, kn[j]) && ids.contains(kn[j]));
        lemma_symbol_of(idx, kn[j]);
        assert(symbol_of(idx, kn[j]) == symbol_of(idx, x));
    }
}

/// An edge is in the adjacency of `u` exactly when the index holds it and it
/// leaves `u` in that direction.
proof fn lemma_adj_contains(idx: Index, u: u64, dir: Direction, e: Edge)
    ensures
        adj(idx, u, dir).contains(e) <==> (idx.edges@.contains(e) && src_of(e, dir) == u),
{
    let es = edges_from(idx, u, dir);
    let src = keyed_edges(idx, es, dir);
    let sorted = sort_keyed(src);
    idx.edges@.filter_lemma(|e: Edge| src_of(e, dir) == u);
    crate::order::lemma_sort_keyed_props(src);
    if adj(idx, u, dir).contains(e) {
        let i = choose|i: int| 0 <= i < adj(idx, u, dir).len() && adj(idx, u, dir)[i] == e;
        assert(sorted.to_multiset().count(sorted[i]) > 0);
        assert(src.contains(sorted[i]));
        let j = choose|j: int| 0 <= j < src.len() && src[j] == sorted[i];
        assert(es[j] == e);
        assert(es.contains(e));
        idx.edges@.lemma_filter_contains_rev(|e: Edge| src_of(e, dir) == u, e);
    }
    if idx.edges@.contains(e) && src_of(e, dir) == u {
        let w = choose|w: int| 0 <= w < idx.edges@.len() && idx.edges@[w] == e;
        assert(es.contains(idx.edges@[w]));
        let j = choose|j: int| 0 <= j < es.len() && es[j] == e;
        assert(src[j] == (id_key(idx, nbr_of(e, dir)), e));
        assert(src.to_multiset().count(src[j]) > 0);
        assert(sorted.contains(src[j]));
        let i = choose|i: int| 0 <= i < sorted.len() && sorted[i] == src[j];
        assert(adj(idx, u, dir)[i] == e);
    }
}

/// `x` is at the far end of some edge of `u`'s adjacency in `dir` exactly
/// when an edge leads from `u` to `x` in that direction.
proof fn lemma_far_end_member(idx: Index, u: u64, dir: Direction, x: u64)
    ensures
        adj(idx, u, dir).map_values(|e: Edge| nbr_of(e, dir)).contains(x) <==> step(idx, dir, u, x),
{
    let a = adj(idx, u, dir);
    let f = a.map_values(|e: Edge| nbr_of(e, dir));
    if f.contains(x) {
        let i = choose|i: int| 0 <= i < f.len() && f[i] == x;
        lemma_adj_contains(idx, u, dir, a[i]);
        assert(a.contains(a[i]));
        let j = choose|j: int| 0 <= j < idx.edges@.len() && idx.edges@[j] == a[i];
        assert(src_of(idx.edges@[j], dir) == u && nbr_of(idx.edges@[j], dir) == x);
    }
    if step(idx, dir, u, x) {
        let j = choose|j: int| 0 <= j < idx.edges@.len() && src_of(#[trigger] idx.edges@[j], dir) == u
            && nbr_of(idx.edges@[j], dir) == x;
        let e = idx.edges@[j];
        lemma_adj_contains(idx, u, dir, e);
        assert(idx.edges@.contains(e));
        let i = choose|i: int| 0 <= i < a.len() && a[i] == e;
        assert(f[i] == x);
    }
}

/// The items of `s`, each once, in order of first occurrence.
pub open spec fn dedup(s: Seq<u64>) -> Seq<u64>
    decreases s.len(),
{
    if s.len() == 0 {
        s
    } else {
        let d = dedup(s.drop_last());
        if d.contains(s.last()) {
            d
        } else {
            d.push(s.last())
        }
    }
}

proof fn lemma_dedup(s: Seq<u64>)
    ensures
        dedup(s).no_duplicates(),
        forall|x: u64| dedup(s).contains(x) <==> s.contains(x),
    decreases s.len(),
{
    if s.len() > 0 {
        let t = s.drop_last();
        lemma_dedup(t);
        let d = dedup(t);
        assert forall|x: u64| dedup(s).contains(x) <==> s.contains(x) by {
            assert(s =~= t.push(s.last()));
            if t.contains(x) {
                let k = choose|k: int| 0 <= k < t.len() && t[k] == x;
                assert(s[k] == x);
            }
            if s.contains(x) && !t.contains(x) {
                let k = choose|k: int| 0 <= k < s.len() && s[k] == x;
                if k < t.len() {
                    assert(t[k] == x);
                }
                assert(x == s.last());
            }
            if !d.contains(s.last()) {
                if dedup(s).contains(x) && !d.contains(x) {
                    let k = choose|k: int| 0 <= k < dedup(s).len() && dedup(s)[k] == x;
                    if k < d.len() {
                        assert(d[k] == x);
                    }
                    assert(x == s.last());
                }
                if d.contains(x) {
                    let k = choose|k: int| 0 <= k < d.len() && d[k] == x;
                    assert(dedup(s)[k] == x);
                }
                if x == s.last() {
                    assert(dedup(s)[d.len() as int] == x);
                }
            }
        }
    }
}

/// The neighbours of `u` in `dir` can always be listed: the callers and
/// callees chosen are such lists.
pub proof fn lemma_neighbours_listed(idx: Index, u: u64)
    ensures
        lists_exactly(idx, callers_of(idx, u), neighbours(idx, u, Direction::Backward)),
        lists_exactly(idx, callees_of(idx, u), neighbours(idx, u, Direction::Forward)),
{
    let fb = dedup(adj(idx, u, Direction::Backward).map_values(|e: Edge| nbr_of(e, Direction::Backward)));
    let ff = dedup(adj(idx, u, Direction::Forward).map_values(|e: Edge| nbr_of(e, Direction::Forward)));
    lemma_dedup(adj(idx, u, Direction::Backward).map_values(|e: Edge| nbr_of(e, Direction::Backward)));
    lemma_dedup(adj(idx, u, Direction::Forward).map_values(|e: Edge| nbr_of(e, Direction::Forward)));
    lemma_materialized_set(idx, fb);
    lemma_materialized_set(idx, ff);
    assert forall|x: u64| #[trigger] known(idx, x) implies (fb.contains(x) <==> step(idx, Direction::Backward, u, x)) by {
        lemma_far_end_member(idx, u, Direction::Backward, x);
    }
    assert forall|x: u64| #[trigger] known(idx, x) implies (ff.contains(x) <==> step(idx, Direction::Forward, u, x)) by {
        lemma_far_end_member(idx, u, Direction::Forward, x);
    }
    lemma_lists_exactly_ext(idx, materialized(idx, fb), |y: u64| fb.contains(y), neighbours(idx, u, Direction::Backward));
    lemma_lists_exactly_ext(idx, materialized(idx, ff), |y: u64| ff.contains(y), neighbours(idx, u, Direction::Forward));
    lemma_neighbours_chosen(idx, u, materialized(idx, fb));
    lemma_neighbours_chosen(idx, u, materialized(idx, ff));
}

/// A list of exactly the known ids satisfying `pred` holds a known id's
/// symbol exactly when the id satisfies `pred`.
proof fn lemma_listed_member(idx: Index, r: Seq<Symbol>, pred: spec_fn(u64) -> bool, x: u64)
    requires
        lists_exactly(idx, r, pred),
        known(idx, x),
    ensures
        r.contains(symbol_of(idx, x)) <==> pred(x),
{
    lemma_symbol_of(idx, x);
    if r.contains(symbol_of(idx, x)) {
        let i = choose|i: int| 0 <= i < r.len() && r[i] == symbol_of(idx, x);
        assert((#[trigger] r[i]).id.0 == x);
    }
    if pred(x) {
        let i = choose|i: int| 0 <= i < r.len() && (#[trigger] r[i]).id.0 == x;
        assert(r[i] == symbol_of(idx, r[i].id.0));
    }
}

/// Callers and callees are converse: between two symbols of the index, `s`
/// is among the direct callers of `t` exactly when `t` is among the direct
/// callees of `s`, and that is when the index records an edge from `s` to `t`.
pub proof fn lemma_direct_calls_converse(idx: Index, s: u64, t: u64)
    requires
        known(idx, s),
        known(idx, t),
    ensures
        callers_of(idx, t).contains(symbol_of(idx, s)) <==> callees_of(idx, s).contains(symbol_of(idx, t)),
        callers_of(idx, t).contains(symbol_of(idx, s)) <==> step(idx, Direction::Forward, s, t),
{
    lemma_neighbours_listed(idx, t);
    lemma_neighbours_listed(idx, s);
    lemma_listed_member(idx, callers_of(idx, t), neighbours(idx, t, Direction::Backward), s);
    lemma_listed_member(idx, callees_of(idx, s), neighbours(idx, s, Direction::Forward), t);
    lemma_step_flip(idx, s, t);
}

/// The combined impact answer agrees with its two halves asked on their own:
/// for the same symbol, its callers are the first `limit` callers of a
/// direct-calls answer asked with any limit at least as large (all of them,
/// when that limit does not cut them), its tests are the affected-tests
/// answer's tests for `limit`, its total adds every direct caller to the tests'
/// total, and its truncation and uncertainty are the two halves' combined.
pub proof fn lemma_impact_composes(
    idx: Index,
    symbol: u64,
    limit: usize,
    calls_limit: usize,
    callers: Seq<Symbol>,
    callees: Seq<Symbol>,
    calls_marks: Marks,
    tests: Seq<Symbol>,
    tests_marks: Marks,
    impact_callers: Seq<Symbol>,
    impact_tests: Seq<Symbol>,
    impact_marks: Marks,
)
    requires
        limit <= calls_limit,
        direct_calls_answer(idx, symbol, calls_limit, callers, callees, calls_marks),
        listing_answer(idx, tests, tests_marks, reached_marked(idx, symbol, Direction::Backward, true),
            walk_done(idx, symbol, Direction::Backward), limit),
        impact_answer(idx, symbol, limit, impact_callers, impact_tests, impact_marks),
    ensures
        impact_callers == (if callers.len() > limit { callers.take(limit as int) } else { callers }),
        callers_of(idx, symbol).len() <= calls_limit ==> callers == callers_of(idx, symbol),
        impact_tests == tests,
        impact_marks.3 == callers_of(idx, symbol).len() + tests_marks.3,
        impact_marks.2 == (callers_of(idx, symbol).len() > limit || tests_marks.2),
        impact_marks.0 == tests_marks.0,
        impact_marks.4 == tests_marks.4,
        same_reason(impact_marks.1, tests_marks.1),
{
    let pred = reached_marked(idx, symbol, Direction::Backward, true);
    let full = choose|full: Seq<Symbol>|
        #[trigger] lists_exactly(idx, full, pred) && tests_marks.3 == full.len() && tests_marks.2 == (full.len()
            > limit) && tests == (if full.len() > limit { full.take(limit as int) } else { full });
    let mine = choose|t: Seq<Symbol>|
        #[trigger] lists_exactly(idx, t, pred)
            && impact_tests == (if t.len() > limit { t.take(limit as int) } else { t })
            && impact_marks.3 == callers_of(idx, symbol).len() + t.len()
            && impact_marks.2 == (callers_of(idx, symbol).len() > limit || t.len() > limit);
    lemma_lists_exactly_unique(idx, full, mine, pred);
    assert forall|jj: int| 0 <= jj < idx.edges@.len() implies #[trigger] impact_done(idx, symbol)(jj)
        == walk_done(idx, symbol, Direction::Backward)(jj) by {
        if touching(idx, symbol, false)(jj) {
            assert(src_of(idx.edges@[jj], Direction::Backward) == symbol);
            assert(walk_src(idx, symbol, Direction::Backward, symbol));
        }
    }
    lemma_flags_determined(idx, impact_marks.1, impact_marks.4, impact_done(idx, symbol), tests_marks.1,
        tests_marks.4, walk_done(idx, symbol, Direction::Backward));
}

/// Two uncertainty reasons are the same: both absent, or both the
/// dyn-dispatch marker with the same trait text and implementor count.
pub open spec fn same_reason(a: Option<Reason>, b: Option<Reason>) -> bool {
    match a {
        None => b is None,
        Some(Reason::DynDispatch { trait_path: p, implementor_count: n }) => b matches Some(
            Reason::DynDispatch { trait_path: q, implementor_count: k },
        ) && p@ == q@ && n == k,
    }
}

/// The uncertainty stamped for the same edges is the same.
proof fn lemma_flags_determined(
    idx: Index,
    o1: Option<Reason>,
    b1: bool,
    d1: spec_fn(int) -> bool,
    o2: Option<Reason>,
    b2: bool,
    d2: spec_fn(int) -> bool,
)
    requires
        flags_stamped(idx, o1, b1, d1),
        flags_stamped(idx, o2, b2, d2),
        forall|jj: int| 0 <= jj < idx.edges@.len() ==> #[trigger] d1(jj) == d2(jj),
    ensures
        b1 == b2,
        same_reason(o1, o2),
{
    let (oa, ta) = choose|o: bool, t: Set<u64>| #[trigger] flags_cover(o, t, b1, idx, d1) && reason_is(o1, o, t.len() as int);
    let (ob, tb) = choose|o: bool, t: Set<u64>| #[trigger] flags_cover(o, t, b2, idx, d2) && reason_is(o2, o, t.len() as int);
    lemma_flags_cover_ext(oa, ta, b1, idx, d1, d2);
    assert(ta =~= tb);
}

/// An answer of direct calls is determined by the index, the symbol and the
/// limit: any two (the graph's, the loaded state's) agree in every field.
pub proof fn lemma_direct_calls_determined(
    idx: Index,
    symbol: u64,
    limit: usize,
    callers1: Seq<Symbol>,
    callees1: Seq<Symbol>,
    m1: Marks,
    callers2: Seq<Symbol>,
    callees2: Seq<Symbol>,
    m2: Marks,
)
    requires
        direct_calls_answer(idx, symbol, limit, callers1, callees1, m1),
        direct_calls_answer(idx, symbol, limit, callers2, callees2, m2),
    ensures
        callers1 == callers2,
        callees1 == callees2,
        m1.0 == m2.0,
        m1.2 == m2.2,
        m1.3 == m2.3,
        m1.4 == m2.4,
        same_reason(m1.1, m2.1),
{
    lemma_flags_determined(idx, m1.1, m1.4, touching(idx, symbol, true), m2.1, m2.4, touching(idx, symbol, true));
}

/// An impact answer is determined by the index, the symbol and the limit:
/// any two (the graph's, the loaded state's) agree in every field.
pub proof fn lemma_impact_determined(
    idx: Index,
    symbol: u64,
    limit: usize,
    callers1: Seq<Symbol>,
    tests1: Seq<Symbol>,
    m1: Marks,
    callers2: Seq<Symbol>,
    tests2: Seq<Symbol>,
    m2: Marks,
)
    requires
        impact_answer(idx, symbol, limit, callers1, tests1, m1),
        impact_answer(idx, symbol, limit, callers2, tests2, m2),
    ensures
        callers1 == callers2,
        tests1 == tests2,
        m1.0 == m2.0,
        m1.2 == m2.2,
        m1.3 == m2.3,
        m1.4 == m2.4,
        same_reason(m1.1, m2.1),
{
    let pred = reached_marked(idx, symbol, Direction::Backward, true);
    let n = callers_of(idx, symbol).len();
    let t1 = choose|t: Seq<Symbol>| #[trigger] lists_exactly(idx, t, pred)
        && tests1 == (if t.len() > limit { t.take(limit as int) } else { t }) && m1.3 == n + t.len()
        && m1.2 == (n > limit || t.len() > limit);
    let t2 = choose|t: Seq<Symbol>| #[trigger] lists_exactly(idx, t, pred)
        && tests2 == (if t.len() > limit { t.take(limit as int) } else { t }) && m2.3 == n + t.len()
        && m2.2 == (n > limit || t.len() > limit);
    lemma_lists_exactly_unique(idx, t1, t2, pred);
    lemma_flags_determined(idx, m1.1, m1.4, impact_done(idx, symbol), m2.1, m2.4, impact_done(idx, symbol));
}

/// A listing answer is determined by the index, the condition, the walk and
/// the limit: any two (the graph's, the loaded state's) agree in every field.
pub proof fn lemma_listing_determined(
    idx: Index,
    pred: spec_fn(u64) -> bool,
    done: spec_fn(int) -> bool,
    limit: usize,
    data1: Seq<Symbol>,
    m1: Marks,
    data2: Seq<Symbol>,
    m2: Marks,
)
    requires
        listing_answer(idx, data1, m1, pred, done, limit),
        listing_answer(idx, data2, m2, pred, done, limit),
    ensures
        data1 == data2,
        m1.0 == m2.0,
        m1.2 == m2.2,
        m1.3 == m2.3,
        m1.4 == m2.4,
        same_reason(m1.1, m2.1),
{
    let f1 = choose|full: Seq<Symbol>| #[trigger] lists_exactly(idx, full, pred) && m1.3 == full.len()
        && m1.2 == (full.len() > limit) && data1 == (if full.len() > limit { full.take(limit as int) } else { full });
    let f2 = choose|full: Seq<Symbol>| #[trigger] lists_exactly(idx, full, pred) && m2.3 == full.len()
        && m2.2 == (full.len() > limit) && data2 == (if full.len() > limit { full.take(limit as int) } else { full });
    lemma_lists_exactly_unique(idx, f1, f2, pred);
    lemma_flags_determined(idx, m1.1, m1.4, done, m2.1, m2.4, done);
}

/// Whether a symbol carries the mark `tests` selects: it is a test, or (when
/// not `tests`) it uses `unsafe`.
pub open spec fn carries_mark(tests: bool) -> spec_fn(Symbol) -> bool {
    |s: Symbol| if tests { s.characteristics.test } else { s.characteristics.uses_unsafe }
}

/// Keeping some items of a list sorted by path then id keeps it sorted.
proof fn lemma_filter_sorted(r: Seq<Symbol>, q: spec_fn(Symbol) -> bool)
    requires
        forall|i: int, j: int| 0 <= i < j < r.len() ==> lex_lt(sym_key(#[trigger] r[i]), sym_key(#[trigger] r[j])),
    ensures
        forall|i: int, j: int|
            0 <= i < j < r.filter(q).len() ==> lex_lt(sym_key(#[trigger] r.filter(q)[i]), sym_key(#[trigger] r.filter(q)[j])),
    decreases r.len(),
{
    reveal(Seq::filter);
    if r.len() > 0 {
        let t = r.drop_last();
        assert forall|i: int, j: int| 0 <= i < j < t.len() implies lex_lt(sym_key(#[trigger] t[i]), sym_key(#[trigger] t[j])) by {
            assert(t[i] == r[i] && t[j] == r[j]);
        }
        lemma_filter_sorted(t, q);
        let ft = t.filter(q);
        t.filter_lemma(q);
        if q(r.last()) {
            assert(r.filter(q) == ft.push(r.last()));
            assert forall|i: int, j: int| 0 <= i < j < r.filter(q).len() implies lex_lt(
                sym_key(#[trigger] r.filter(q)[i]), sym_key(#[trigger] r.filter(q)[j])) by {
                if j < ft.len() {
                    assert(r.filter(q)[i] == ft[i] && r.filter(q)[j] == ft[j]);
                } else {
                    assert(r.filter(q)[i] == ft[i]);
                    assert(ft.contains(ft[i]));
                    t.lemma_filter_contains_rev(q, ft[i]);
                    let k = choose|k: int| 0 <= k < t.len() && t[k] == ft[i];
                    assert(r[k] == ft[i]);
                    assert(r.filter(q)[j] == r[r.len() - 1]);
                }
            }
        } else {
            assert(r.filter(q) == ft);
        }
    }
}

/// The marked symbols a walk reaches are the symbols it reaches, kept when
/// they carry the mark, in the same order.
pub proof fn lemma_marked_list_is_filtered(
    idx: Index,
    start: u64,
    dir: Direction,
    tests: bool,
    reach: Seq<Symbol>,
    marked_list: Seq<Symbol>,
)
    requires
        lists_exactly(idx, reach, reached(idx, start, dir)),
        lists_exactly(idx, marked_list, reached_marked(idx, start, dir, tests)),
    ensures
        marked_list == reach.filter(carries_mark(tests)),
{
    let q = carries_mark(tests);
    let f = reach.filter(q);
    let pred = reached_marked(idx, start, dir, tests);
    reach.filter_lemma(q);
    lemma_filter_sorted(reach, q);
    assert forall|i: int| 0 <= i < f.len() implies known(idx, (#[trigger] f[i]).id.0) && f[i] == symbol_of(idx, f[i].id.0) by {
        assert(f.contains(f[i]));
        reach.lemma_filter_contains_rev(q, f[i]);
        let k = choose|k: int| 0 <= k < reach.len() && reach[k] == f[i];
        assert(known(idx, reach[k].id.0));
    }
    assert forall|x: u64| (known(idx, x) && #[trigger] pred(x)) <==> exists|i: int| 0 <= i < f.len() && (#[trigger] f[i]).id.0 == x by {
        if known(idx, x) && pred(x) {
            assert(known(idx, x) && reached(idx, start, dir)(x));
            let k = choose|k: int| 0 <= k < reach.len() && (#[trigger] reach[k]).id.0 == x;
            assert(reach[k] == symbol_of(idx, x));
            assert(q(reach[k]));
            assert(f.contains(reach[k]));
            let i = choose|i: int| 0 <= i < f.len() && f[i] == reach[k];
            assert(f[i].id.0 == x);
        }
        if exists|i: int| 0 <= i < f.len() && (#[trigger] f[i]).id.0 == x {
            let i = choose|i: int| 0 <= i < f.len() && (#[trigger] f[i]).id.0 == x;
            assert(f.contains(f[i]));
            reach.lemma_filter_contains_rev(q, f[i]);
            let k = choose|k: int| 0 <= k < reach.len() && reach[k] == f[i];
            assert(exists|m: int| 0 <= m < reach.len() && (#[trigger] reach[m]).id.0 == x);
            assert(known(idx, x) && reached(idx, start, dir)(x));
            assert(q(f[i]));
            assert(f[i] == symbol_of(idx, x));
        }
    }
    assert(lists_exactly(idx, f, pred));
    lemma_lists_exactly_unique(idx, marked_list, f, pred);
}

/// Affected tests are backward reachability kept to tests, and reachable
/// unsafe is forward reachability kept to `unsafe` users: given a
/// reachability answer that was not cut, the marked answer for the same
/// start and direction lists its marked symbols in order, bounded to its own
/// limit with their full count, and carries the same uncertainty.
pub proof fn lemma_marked_filters_reachability(
    idx: Index,
    start: u64,
    dir: Direction,
    tests: bool,
    reach_data: Seq<Symbol>,
    reach_marks: Marks,
    reach_limit: usize,
    data: Seq<Symbol>,
    m: Marks,
    limit: usize,
)
    requires
        listing_answer(idx, reach_data, reach_marks, reached(idx, start, dir), walk_done(idx, start, dir), reach_limit),
        !reach_marks.2,
        listing_answer(idx, data, m, reached_marked(idx, start, dir, tests), walk_done(idx, start, dir), limit),
    ensures
        ({
            let kept = reach_data.filter(carries_mark(tests));
            &&& data == (if kept.len() > limit { kept.take(limit as int) } else { kept })
            &&& m.3 == kept.len()
            &&& m.2 == (kept.len() > limit)
            &&& m.0 == reach_marks.0
            &&& m.4 == reach_marks.4
            &&& same_reason(m.1, reach_marks.1)
        }),
{
    let fr = choose|full: Seq<Symbol>| #[trigger] lists_exactly(idx, full, reached(idx, start, dir)) && reach_marks.3
        == full.len() && reach_marks.2 == (full.len() > reach_limit) && reach_data == (if full.len() > reach_limit {
        full.take(reach_limit as int)
    } else {
        full
    });
    let fm = choose|full: Seq<Symbol>| #[trigger] lists_exactly(idx, full, reached_marked(idx, start, dir, tests))
        && m.3 == full.len() && m.2 == (full.len() > limit) && data == (if full.len() > limit {
        full.take(limit as int)
    } else {
        full
    });
    lemma_marked_list_is_filtered(idx, start, dir, tests, fr, fm);
    lemma_flags_determined(idx, m.1, m.4, walk_done(idx, start, dir), reach_marks.1, reach_marks.4,
        walk_done(idx, start, dir));
}

// ── order independence ──────────────────────────────────────────────────────

/// No two symbols of the index carry the same id.
pub open spec fn ids_distinct(idx: Index) -> bool {
    forall|i: int, j: int|
        0 <= i < j < idx.symbols@.len() ==> (#[trigger] idx.symbols@[i]).id.0 != (#[trigger] idx.symbols@[j]).id.0
}

/// Two indexes hold the same symbols (each id once) and the same edges,
/// whatever their order.
pub open spec fn same_contents(a: Index, b: Index) -> bool {
    &&& ids_distinct(a)
    &&& ids_distinct(b)
    &&& forall|s: Symbol|
        #![trigger a.symbols@.contains(s)]
        #![trigger b.symbols@.contains(s)]
        a.symbols@.contains(s) <==> b.symbols@.contains(s)
    &&& forall|e: Edge|
        #![trigger a.edges@.contains(e)]
        #![trigger b.edges@.contains(e)]
        a.edges@.contains(e) <==> b.edges@.contains(e)
}

proof fn lemma_known_at(idx: Index, x: u64, i: int)
    requires
        ids_distinct(idx),
        0 <= i < idx.symbols@.len(),
        idx.symbols@[i].id.0 == x,
    ensures
        known(idx, x),
        symbol_of(idx, x) == idx.symbols@[i],
{
    lemma_last_pos(idx.symbols@, x, idx.symbols@.len() as int);
    let p = pos_of(idx, x);
    if p < 0 {
        assert(idx.symbols@[i].id.0 != x);
    }
    if p != i {
        if p < i {
            assert(idx.symbols@[p].id.0 != idx.symbols@[i].id.0);
        } else {
            assert(idx.symbols@[i].id.0 != idx.symbols@[p].id.0);
        }
    }
}

/// Indexes with the same contents name the same symbols.
proof fn lemma_same_symbols(a: Index, b: Index, x: u64)
    requires
        same_contents(a, b),
    ensures
        known(a, x) == known(b, x),
        known(a, x) ==> symbol_of(a, x) == symbol_of(b, x),
        is_boundary(a, x) == is_boundary(b, x),
{
    if known(a, x) {
        lemma_symbol_of(a, x);
        let s = symbol_of(a, x);
        assert(a.symbols@.contains(s));
        assert(b.symbols@.contains(s));
        let k = choose|k: int| 0 <= k < b.symbols@.len() && b.symbols@[k] == s;
        lemma_known_at(b, x, k);
    }
    if known(b, x) {
        lemma_symbol_of(b, x);
        let s = symbol_of(b, x);
        assert(b.symbols@.contains(s));
        assert(a.symbols@.contains(s));
        let k = choose|k: int| 0 <= k < a.symbols@.len() && a.symbols@[k] == s;
        lemma_known_at(a, x, k);
    }
}

proof fn lemma_same_step(a: Index, b: Index, d: Direction, u: u64, v: u64)
    requires
        same_contents(a, b),
    ensures
        step(a, d, u, v) == step(b, d, u, v),
{
    if step(a, d, u, v) {
        let j = choose|j: int| 0 <= j < a.edges@.len() && src_of(#[trigger] a.edges@[j], d) == u && nbr_of(a.edges@[j], d) == v;
        assert(a.edges@.contains(a.edges@[j]));
        let k = choose|k: int| 0 <= k < b.edges@.len() && b.edges@[k] == a.edges@[j];
        assert(src_of(b.edges@[k], d) == u && nbr_of(b.edges@[k], d) == v);
    }
    if step(b, d, u, v) {
        let j = choose|j: int| 0 <= j < b.edges@.len() && src_of(#[trigger] b.edges@[j], d) == u && nbr_of(b.edges@[j], d) == v;
        assert(b.edges@.contains(b.edges@[j]));
        let k = choose|k: int| 0 <= k < a.edges@.len() && a.edges@[k] == b.edges@[j];
        assert(src_of(a.edges@[k], d) == u && nbr_of(a.edges@[k], d) == v);
    }
}

proof fn lemma_walk_across(a: Index, b: Index, d: Direction, p: Seq<u64>)
    requires
        same_contents(a, b),
        is_walk(a, d, p),
    ensures
        is_walk(b, d, p),
{
    assert forall|i: int| 0 <= i < p.len() - 1 implies #[trigger] linked(b, d, p, i) by {
        assert(linked(a, d, p, i));
        lemma_same_step(a, b, d, p[i], p[i + 1]);
    }
    assert forall|i: int| 1 <= i < p.len() implies !is_boundary(b, #[trigger] p[i]) by {
        lemma_same_symbols(a, b, p[i]);
    }
}

proof fn lemma_same_reaches(a: Index, b: Index, s: u64, d: Direction, x: u64)
    requires
        same_contents(a, b),
    ensures
        reaches(a, s, d, x) == reaches(b, s, d, x),
{
    assert(same_contents(b, a));
    if reaches(a, s, d, x) {
        let p = choose|p: Seq<u64>| #[trigger] is_walk(a, d, p) && p[0] == s && p.last() == x;
        lemma_walk_across(a, b, d, p);
    }
    if reaches(b, s, d, x) {
        let p = choose|p: Seq<u64>| #[trigger] is_walk(b, d, p) && p[0] == s && p.last() == x;
        lemma_walk_across(b, a, d, p);
    }
}

/// A list of exactly the symbols satisfying `p` in one index is such a list
/// in an index with the same contents.
proof fn lemma_lists_across(a: Index, b: Index, r: Seq<Symbol>, p: spec_fn(u64) -> bool)
    requires
        same_contents(a, b),
        lists_exactly(b, r, p),
    ensures
        lists_exactly(a, r, p),
{
    assert forall|i: int| 0 <= i < r.len() implies known(a, (#[trigger] r[i]).id.0) && r[i] == symbol_of(a, r[i].id.0) by {
        lemma_same_symbols(a, b, r[i].id.0);
    }
    assert forall|x: u64| (known(a, x) && #[trigger] p(x)) <==> exists|i: int| 0 <= i < r.len() && (#[trigger] r[i]).id.0 == x by {
        lemma_same_symbols(a, b, x);
    }
}

/// The uncertainty noted over the edges a condition on edges chooses is the
/// same in indexes with the same contents.
proof fn lemma_flags_across(
    a: Index,
    b: Index,
    oa: bool,
    ta: Set<u64>,
    ba: bool,
    pa: spec_fn(Edge) -> bool,
    ob: bool,
    tb: Set<u64>,
    bb: bool,
    pb: spec_fn(Edge) -> bool,
)
    requires
        same_contents(a, b),
        flags_cover(oa, ta, ba, a, |jj: int| pa(a.edges@[jj])),
        flags_cover(ob, tb, bb, b, |jj: int| pb(b.edges@[jj])),
        forall|e: Edge| #[trigger] pa(e) == pb(e),
    ensures
        oa == ob,
        ta == tb,
        ba == bb,
{
    let da = |jj: int| pa(a.edges@[jj]);
    let db = |jj: int| pb(b.edges@[jj]);
    // every edge of one index is an edge of the other
    assert forall|jj: int| 0 <= jj < a.edges@.len() implies exists|kk: int| 0 <= kk < b.edges@.len() && b.edges@[kk] == #[trigger] a.edges@[jj] by {
        assert(a.edges@.contains(a.edges@[jj]));
    }
    assert forall|kk: int| 0 <= kk < b.edges@.len() implies exists|jj: int| 0 <= jj < a.edges@.len() && a.edges@[jj] == #[trigger] b.edges@[kk] by {
        assert(b.edges@.contains(b.edges@[kk]));
    }
    if oa {
        let jj = choose|jj: int| 0 <= jj < a.edges@.len() && #[trigger] da(jj) && a.edges@[jj].kind == EdgeKind::Virtual;
        let kk = choose|kk: int| 0 <= kk < b.edges@.len() && b.edges@[kk] == a.edges@[jj];
        assert(db(kk));
    }
    if ob {
        let kk = choose|kk: int| 0 <= kk < b.edges@.len() && #[trigger] db(kk) && b.edges@[kk].kind == EdgeKind::Virtual;
        let jj = choose|jj: int| 0 <= jj < a.edges@.len() && a.edges@[jj] == b.edges@[kk];
        assert(da(jj));
    }
    if ba {
        let jj = choose|jj: int| 0 <= jj < a.edges@.len() && #[trigger] da(jj) && is_boundary(a, a.edges@[jj].to.0);
        let kk = choose|kk: int| 0 <= kk < b.edges@.len() && b.edges@[kk] == a.edges@[jj];
        lemma_same_symbols(a, b, a.edges@[jj].to.0);
        assert(db(kk));
    }
    if bb {
        let kk = choose|kk: int| 0 <= kk < b.edges@.len() && #[trigger] db(kk) && is_boundary(b, b.edges@[kk].to.0);
        let jj = choose|jj: int| 0 <= jj < a.edges@.len() && a.edges@[jj] == b.edges@[kk];
        lemma_same_symbols(a, b, b.edges@[kk].to.0);
        assert(da(jj));
    }
    assert forall|t: u64| ta.contains(t) <==> tb.contains(t) by {
        if ta.contains(t) {
            let jj = choose|jj: int| 0 <= jj < a.edges@.len() && #[trigger] da(jj) && a.edges@[jj].kind == EdgeKind::Virtual
                && a.edges@[jj].to.0 == t;
            let kk = choose|kk: int| 0 <= kk < b.edges@.len() && b.edges@[kk] == a.edges@[jj];
            assert(db(kk));
        }
        if tb.contains(t) {
            let kk = choose|kk: int| 0 <= kk < b.edges@.len() && #[trigger] db(kk) && b.edges@[kk].kind == EdgeKind::Virtual
                && b.edges@[kk].to.0 == t;
            let jj = choose|jj: int| 0 <= jj < a.edges@.len() && a.edges@[jj] == b.edges@[kk];
            assert(da(jj));
        }
    }
    assert(ta =~= tb);
}

/// Stamped uncertainty over edges chosen by the same condition on edges is
/// the same in indexes with the same contents.
proof fn lemma_stamped_across(
    a: Index,
    b: Index,
    o1: Option<Reason>,
    b1: bool,
    d1: spec_fn(int) -> bool,
    pa: spec_fn(Edge) -> bool,
    o2: Option<Reason>,
    b2: bool,
    d2: spec_fn(int) -> bool,
    pb: spec_fn(Edge) -> bool,
)
    requires
        same_contents(a, b),
        flags_stamped(a, o1, b1, d1),
        flags_stamped(b, o2, b2, d2),
        forall|jj: int| 0 <= jj < a.edges@.len() ==> #[trigger] d1(jj) == pa(a.edges@[jj]),
        forall|jj: int| 0 <= jj < b.edges@.len() ==> #[trigger] d2(jj) == pb(b.edges@[jj]),
        forall|e: Edge| #[trigger] pa(e) == pb(e),
    ensures
        b1 == b2,
        same_reason(o1, o2),
{
    let (oa, ta) = choose|o: bool, t: Set<u64>| #[trigger] flags_cover(o, t, b1, a, d1) && reason_is(o1, o, t.len() as int);
    let (ob, tb) = choose|o: bool, t: Set<u64>| #[trigger] flags_cover(o, t, b2, b, d2) && reason_is(o2, o, t.len() as int);
    lemma_flags_cover_ext(oa, ta, b1, a, d1, |jj: int| pa(a.edges@[jj]));
    lemma_flags_cover_ext(ob, tb, b2, b, d2, |jj: int| pb(b.edges@[jj]));
    lemma_flags_across(a, b, oa, ta, b1, pa, ob, tb, b2, pb);
}

/// Listing answers do not depend on the order of the index: over two indexes
/// holding the same symbols (each id once) and the same edges, the
/// reachability answers from the same start in the same direction with the
/// same limit are the same, and so are the affected-tests and
/// reachable-unsafe answers (`marked` selects them, with `tests`).
pub proof fn lemma_walk_answers_order_independent(
    a: Index,
    b: Index,
    start: u64,
    dir: Direction,
    marked: bool,
    tests: bool,
    limit: usize,
    data1: Seq<Symbol>,
    m1: Marks,
    data2: Seq<Symbol>,
    m2: Marks,
)
    requires
        same_contents(a, b),
        listing_answer(a, data1, m1, if marked { reached_marked(a, start, dir, tests) } else { reached(a, start, dir) },
            walk_done(a, start, dir), limit),
        listing_answer(b, data2, m2, if marked { reached_marked(b, start, dir, tests) } else { reached(b, start, dir) },
            walk_done(b, start, dir), limit),
    ensures
        data1 == data2,
        m1.0 == m2.0,
        m1.2 == m2.2,
        m1.3 == m2.3,
        m1.4 == m2.4,
        same_reason(m1.1, m2.1),
{
    let pa = if marked { reached_marked(a, start, dir, tests) } else { reached(a, start, dir) };
    let pb = if marked { reached_marked(b, start, dir, tests) } else { reached(b, start, dir) };
    assert forall|x: u64| #[trigger] pa(x) == pb(x) by {
        lemma_same_reaches(a, b, start, dir, x);
        lemma_same_symbols(a, b, x);
    }
    let f1 = choose|full: Seq<Symbol>| #[trigger] lists_exactly(a, full, pa) && m1.3 == full.len()
        && m1.2 == (full.len() > limit) && data1 == (if full.len() > limit { full.take(limit as int) } else { full });
    let f2 = choose|full: Seq<Symbol>| #[trigger] lists_exactly(b, full, pb) && m2.3 == full.len()
        && m2.2 == (full.len() > limit) && data2 == (if full.len() > limit { full.take(limit as int) } else { full });
    lemma_lists_exactly_ext(b, f2, pb, pa);
    lemma_lists_across(a, b, f2, pa);
    lemma_lists_exactly_unique(a, f1, f2, pa);
    let ea = |e: Edge| walk_src(a, start, dir, src_of(e, dir));
    let eb = |e: Edge| walk_src(b, start, dir, src_of(e, dir));
    assert forall|e: Edge| #[trigger] ea(e) == eb(e) by {
        lemma_same_reaches(a, b, start, dir, src_of(e, dir));
    }
    lemma_stamped_across(a, b, m1.1, m1.4, walk_done(a, start, dir), ea, m2.1, m2.4, walk_done(b, start, dir), eb);
}

/// Direct-calls answers do not depend on the order of the index: over two
/// indexes holding the same symbols (each id once) and the same edges, the
/// answers for the same symbol and limit are the same.
pub proof fn lemma_direct_calls_order_independent(
    a: Index,
    b: Index,
    symbol: u64,
    limit: usize,
    callers1: Seq<Symbol>,
    callees1: Seq<Symbol>,
    m1: Marks,
    callers2: Seq<Symbol>,
    callees2: Seq<Symbol>,
    m2: Marks,
)
    requires
        same_contents(a, b),
        direct_calls_answer(a, symbol, limit, callers1, callees1, m1),
        direct_calls_answer(b, symbol, limit, callers2, callees2, m2),
    ensures
        callers1 == callers2,
        callees1 == callees2,
        m1.0 == m2.0,
        m1.2 == m2.2,
        m1.3 == m2.3,
        m1.4 == m2.4,
        same_reason(m1.1, m2.1),
{
    let nb_a = neighbours(a, symbol, Direction::Backward);
    let nf_a = neighbours(a, symbol, Direction::Forward);
    assert forall|x: u64| #[trigger] nb_a(x) == neighbours(b, symbol, Direction::Backward)(x) by {
        lemma_same_step(a, b, Direction::Backward, symbol, x);
    }
    assert forall|x: u64| #[trigger] nf_a(x) == neighbours(b, symbol, Direction::Forward)(x) by {
        lemma_same_step(a, b, Direction::Forward, symbol, x);
    }
    lemma_lists_exactly_ext(b, callers_of(b, symbol), neighbours(b, symbol, Direction::Backward), nb_a);
    lemma_lists_exactly_ext(b, callees_of(b, symbol), neighbours(b, symbol, Direction::Forward), nf_a);
    lemma_lists_across(a, b, callers_of(b, symbol), nb_a);
    lemma_lists_across(a, b, callees_of(b, symbol), nf_a);
    lemma_lists_exactly_unique(a, callers_of(a, symbol), callers_of(b, symbol), nb_a);
    lemma_lists_exactly_unique(a, callees_of(a, symbol), callees_of(b, symbol), nf_a);
    let e = |e: Edge| e.to.0 == symbol || e.from.0 == symbol;
    lemma_stamped_across(a, b, m1.1, m1.4, touching(a, symbol, true), e, m2.1, m2.4, touching(b, symbol, true), e);
}

/// Impact answers do not depend on the order of the index: over two indexes
/// holding the same symbols (each id once) and the same edges, the answers
/// for the same symbol and limit are the same.
pub proof fn lemma_impact_order_independent(
    a: Index,
    b: Index,
    symbol: u64,
    limit: usize,
    callers1: Seq<Symbol>,
    tests1: Seq<Symbol>,
    m1: Marks,
    callers2: Seq<Symbol>,
    tests2: Seq<Symbol>,
    m2: Marks,
)
    requires
        same_contents(a, b),
        impact_answer(a, symbol, limit, callers1, tests1, m1),
        impact_answer(b, symbol, limit, callers2, tests2, m2),
    ensures
        callers1 == callers2,
        tests1 == tests2,
        m1.0 == m2.0,
        m1.2 == m2.2,
        m1.3 == m2.3,
        m1.4 == m2.4,
        same_reason(m1.1, m2.1),
{
    let nb_a = neighbours(a, symbol, Direction::Backward);
    assert forall|x: u64| #[trigger] nb_a(x) == neighbours(b, symbol, Direction::Backward)(x) by {
        lemma_same_step(a, b, Direction::Backward, symbol, x);
    }
    lemma_lists_exactly_ext(b, callers_of(b, symbol), neighbours(b, symbol, Direction::Backward), nb_a);
    lemma_lists_across(a, b, callers_of(b, symbol), nb_a);
    lemma_lists_exactly_unique(a, callers_of(a, symbol), callers_of(b, symbol), nb_a);
    let pa = reached_marked(a, symbol, Direction::Backward, true);
    let pb = reached_marked(b, symbol, Direction::Backward, true);
    assert forall|x: u64| #[trigger] pa(x) == pb(x) by {
        lemma_same_reaches(a, b, symbol, Direction::Backward, x);
        lemma_same_symbols(a, b, x);
    }
    let na = callers_of(a, symbol).len();
    let t1 = choose|t: Seq<Symbol>| #[trigger] lists_exactly(a, t, pa)
        && tests1 == (if t.len() > limit { t.take(limit as int) } else { t }) && m1.3 == na + t.len()
        && m1.2 == (na > limit || t.len() > limit);
    let t2 = choose|t: Seq<Symbol>| #[trigger] lists_exactly(b, t, pb)
        && tests2 == (if t.len() > limit { t.take(limit as int) } else { t }) && m2.3 == na + t.len()
        && m2.2 == (na > limit || t.len() > limit);
    lemma_lists_exactly_ext(b, t2, pb, pa);
    lemma_lists_across(a, b, t2, pa);
    lemma_lists_exactly_unique(a, t1, t2, pa);
    let ea = |e: Edge| e.to.0 == symbol || walk_src(a, symbol, Direction::Backward, src_of(e, Direction::Backward));
    let eb = |e: Edge| e.to.0 == symbol || walk_src(b, symbol, Direction::Backward, src_of(e, Direction::Backward));
    assert forall|e: Edge| #[trigger] ea(e) == eb(e) by {
        lemma_same_reaches(a, b, symbol, Direction::Backward, src_of(e, Direction::Backward));
    }
    lemma_stamped_across(a, b, m1.1, m1.4, impact_done(a, symbol), ea, m2.1, m2.4, impact_done(b, symbol), eb);
}

proof fn lemma_matching_ids(syms: Seq<Symbol>, lowered: Seq<Seq<char>>, needle: Seq<char>, n: int)
    requires
        0 <= n <= syms.len(),
    ensures
        forall|x: u64| matching_ids(syms, lowered, needle, n).contains(x) <==> exists|i: int|
            0 <= i < n && (#[trigger] syms[i]).id.0 == x && has_infix(lowered[i], needle),
        (forall|i: int, j: int| 0 <= i < j < syms.len() ==> (#[trigger] syms[i]).id.0 != (#[trigger] syms[j]).id.0)
            ==> matching_ids(syms, lowered, needle, n).no_duplicates(),
    decreases n,
{
    if n > 0 {
        lemma_matching_ids(syms, lowered, needle, n - 1);
        let prev = matching_ids(syms, lowered, needle, n - 1);
        let cur = matching_ids(syms, lowered, needle, n);
        assert forall|x: u64| cur.contains(x) <==> exists|i: int|
            0 <= i < n && (#[trigger] syms[i]).id.0 == x && has_infix(lowered[i], needle) by {
            if has_infix(lowered[n - 1], needle) {
                assert(cur == prev.push(syms[n - 1].id.0));
                if cur.contains(x) && !prev.contains(x) {
                    let k = choose|k: int| 0 <= k < cur.len() && cur[k] == x;
                    if k < prev.len() {
                        assert(prev[k] == x);
                    }
                }
                if prev.contains(x) {
                    let k = choose|k: int| 0 <= k < prev.len() && prev[k] == x;
                    assert(cur[k] == x);
                }
                if exists|i: int| 0 <= i < n && (#[trigger] syms[i]).id.0 == x && has_infix(lowered[i], needle) {
                    let i = choose|i: int| 0 <= i < n && (#[trigger] syms[i]).id.0 == x && has_infix(lowered[i], needle);
                    if i == n - 1 {
                        assert(cur[prev.len() as int] == x);
                    }
                }
            } else {
                if exists|i: int| 0 <= i < n && (#[trigger] syms[i]).id.0 == x && has_infix(lowered[i], needle) {
                    let i = choose|i: int| 0 <= i < n && (#[trigger] syms[i]).id.0 == x && has_infix(lowered[i], needle);
                    assert(i != n - 1);
                }
            }
        }
        if (forall|i: int, j: int| 0 <= i < j < syms.len() ==> (#[trigger] syms[i]).id.0 != (#[trigger] syms[j]).id.0)
            && has_infix(lowered[n - 1], needle) {
            assert(cur == prev.push(syms[n - 1].id.0));
            if prev.contains(syms[n - 1].id.0) {
                let i = choose|i: int| 0 <= i < n - 1 && (#[trigger] syms[i]).id.0 == syms[n - 1].id.0 && has_infix(lowered[i], needle);
                assert(syms[i].id.0 != syms[n - 1].id.0);
            }
            assert forall|a: int, c: int| 0 <= a < c < cur.len() implies cur[a] != cur[c] by {
                if c == prev.len() {
                    assert(prev.contains(cur[a]));
                } else {
                    assert(cur[a] == prev[a] && cur[c] == prev[c]);
                }
            }
        }
    }
}

/// The candidates for a needle: the symbols whose lowercased path holds it.
pub open spec fn matches_needle(idx: Index, needle: Seq<char>) -> spec_fn(u64) -> bool {
    |x: u64| needle.len() > 0 && has_infix(lowercase_of(path_of(idx, x)), needle)
}

/// With each id carried once, the search candidates are exactly the symbols
/// whose lowercased path holds the needle.
pub(crate) proof fn lemma_candidates_listed(idx: Index, needle: Seq<char>)
    requires
        ids_distinct(idx),
    ensures
        lists_exactly(idx, materialized(idx, resolve_ids(idx, lowered_paths(idx), needle)), matches_needle(idx, needle)),
{
    let syms = idx.symbols@;
    let low = lowered_paths(idx);
    let ids = resolve_ids(idx, low, needle);
    lemma_matching_ids(syms, low, needle, syms.len() as int);
    if needle.len() == 0 {
        assert(ids =~= Seq::<u64>::empty());
    }
    assert(ids.no_duplicates());
    lemma_materialized_set(idx, ids);
    assert forall|x: u64| #[trigger] known(idx, x) implies (ids.contains(x) <==> matches_needle(idx, needle)(x)) by {
        lemma_symbol_of(idx, x);
        if needle.len() > 0 {
            if ids.contains(x) {
                let i = choose|i: int| 0 <= i < syms.len() && (#[trigger] syms[i]).id.0 == x && has_infix(low[i], needle);
                lemma_known_at(idx, x, i);
            }
            if matches_needle(idx, needle)(x) {
                let p = pos_of(idx, x);
                assert(syms[p].id.0 == x);
                assert(low[p] == lowercase_of(path_of(idx, x)));
            }
        }
    }
    lemma_lists_exactly_ext(idx, materialized(idx, ids), |y: u64| ids.contains(y), matches_needle(idx, needle));
}

/// Search answers do not depend on the order of the index: over two indexes
/// holding the same symbols (each id once) and the same edges, the answers
/// to the same query with the same limit are the same.
pub proof fn lemma_resolve_order_independent(
    a: Index,
    b: Index,
    query: Seq<char>,
    limit: usize,
    data1: Seq<Symbol>,
    m1: Marks,
    data2: Seq<Symbol>,
    m2: Marks,
)
    requires
        same_contents(a, b),
        resolve_answer(a, query, limit, data1, m1),
        resolve_answer(b, query, limit, data2, m2),
    ensures
        data1 == data2,
        m1 == m2,
{
    let needle = lowercase_of(query);
    lemma_candidates_listed(a, needle);
    lemma_candidates_listed(b, needle);
    let fa = materialized(a, resolve_ids(a, lowered_paths(a), needle));
    let fb = materialized(b, resolve_ids(b, lowered_paths(b), needle));
    assert forall|x: u64| #[trigger] matches_needle(a, needle)(x) == matches_needle(b, needle)(x) by {
        lemma_same_symbols(a, b, x);
    }
    lemma_lists_exactly_ext(b, fb, matches_needle(b, needle), matches_needle(a, needle));
    lemma_lists_across(a, b, fb, matches_needle(a, needle));
    lemma_lists_exactly_unique(a, fa, fb, matches_needle(a, needle));
}

/// No two edges of the index join the same pair of symbols.
pub open spec fn edges_simple(idx: Index) -> bool {
    forall|i: int, j: int|
        0 <= i < j < idx.edges@.len() ==> !((#[trigger] idx.edges@[i]).from == (#[trigger] idx.edges@[j]).from
            && idx.edges@[i].to == idx.edges@[j].to)
}

/// Two lists strictly ordered by `key` that hold the same edges are the same.
proof fn lemma_sorted_edges_unique(x: Seq<Edge>, y: Seq<Edge>, key: spec_fn(Edge) -> Seq<u64>)
    requires
        forall|i: int, j: int| 0 <= i < j < x.len() ==> lex_lt(key(#[trigger] x[i]), key(#[trigger] x[j])),
        forall|i: int, j: int| 0 <= i < j < y.len() ==> lex_lt(key(#[trigger] y[i]), key(#[trigger] y[j])),
        forall|e: Edge| #![trigger x.contains(e)] #![trigger y.contains(e)] x.contains(e) <==> y.contains(e),
    ensures
        x == y,
    decreases x.len() + y.len(),
{
    if x.len() == 0 || y.len() == 0 {
        if x.len() > 0 {
            assert(x.contains(x[0]));
        }
        if y.len() > 0 {
            assert(y.contains(y[0]));
        }
        assert(x =~= y);
    } else {
        assert(x.contains(x[0]));
        assert(y.contains(y[0]));
        let k = choose|k: int| 0 <= k < y.len() && y[k] == x[0];
        let m = choose|m: int| 0 <= m < x.len() && x[m] == y[0];
        if k != 0 {
            assert(lex_lt(key(y[0]), key(y[k])));
            if m != 0 {
                assert(lex_lt(key(x[0]), key(x[m])));
                crate::order::lemma_lex_asymmetric(key(x[0]), key(y[0]));
            } else {
                crate::order::lemma_lex_irreflexive(key(x[0]));
            }
        }
        assert(x[0] == y[0]);
        let x1 = x.drop_first();
        let y1 = y.drop_first();
        assert forall|i: int, j: int| 0 <= i < j < x1.len() implies lex_lt(key(#[trigger] x1[i]), key(#[trigger] x1[j])) by {
            assert(x1[i] == x[i + 1] && x1[j] == x[j + 1]);
        }
        assert forall|i: int, j: int| 0 <= i < j < y1.len() implies lex_lt(key(#[trigger] y1[i]), key(#[trigger] y1[j])) by {
            assert(y1[i] == y[i + 1] && y1[j] == y[j + 1]);
        }
        assert forall|e: Edge| #![trigger x1.contains(e)] #![trigger y1.contains(e)] x1.contains(e) <==> y1.contains(e) by {
            if x1.contains(e) {
                let i = choose|i: int| 0 <= i < x1.len() && x1[i] == e;
                assert(x[i + 1] == e);
                assert(lex_lt(key(x[0]), key(x[i + 1])));
                if e == x[0] {
                    crate::order::lemma_lex_irreflexive(key(e));
                }
                assert(x.contains(e));
                let j = choose|j: int| 0 <= j < y.len() && y[j] == e;
                assert(j != 0);
                assert(y1[j - 1] == e);
            }
            if y1.contains(e) {
                let i = choose|i: int| 0 <= i < y1.len() && y1[i] == e;
                assert(y[i + 1] == e);
                assert(lex_lt(key(y[0]), key(y[i + 1])));
                if e == y[0] {
                    crate::order::lemma_lex_irreflexive(key(e));
                }
                assert(y.contains(e));
                let j = choose|j: int| 0 <= j < x.len() && x[j] == e;
                assert(j != 0);
                assert(x1[j - 1] == e);
            }
        }
        lemma_sorted_edges_unique(x1, y1, key);
        assert(x =~= seq![x[0]] + x1);
        assert(y =~= seq![y[0]] + y1);
    }
}

/// With no two edges joining the same pair, a forward adjacency list is
/// strictly ordered by the key of the far end, and holds exactly the edges
/// leaving its node.
proof fn lemma_adj_strict(idx: Index, u: u64)
    requires
        edges_simple(idx),
    ensures
        forall|i: int, j: int|
            0 <= i < j < adj(idx, u, Direction::Forward).len() ==> lex_lt(
                id_key(idx, (#[trigger] adj(idx, u, Direction::Forward)[i]).to.0),
                id_key(idx, (#[trigger] adj(idx, u, Direction::Forward)[j]).to.0),
            ),
        forall|e: Edge| #[trigger] adj(idx, u, Direction::Forward).contains(e) <==> (idx.edges@.contains(e) && e.from.0 == u),
{
    let es = adj(idx, u, Direction::Forward);
    let ke = keyed_edges(idx, edges_from(idx, u, Direction::Forward), Direction::Forward);
    let sorted = sort_keyed(ke);
    crate::order::lemma_sort_keyed_props(ke);
    assert forall|e: Edge| #[trigger] es.contains(e) <==> (idx.edges@.contains(e) && e.from.0 == u) by {
        lemma_adj_contains(idx, u, Direction::Forward, e);
    }
    assert forall|i: int, j: int| 0 <= i < j < es.len() implies lex_lt(id_key(idx, (#[trigger] es[i]).to.0),
        id_key(idx, (#[trigger] es[j]).to.0)) by {
        assert(sorted.to_multiset().count(sorted[i]) > 0);
        assert(sorted.to_multiset().count(sorted[j]) > 0);
        assert(ke.contains(sorted[i]));
        assert(ke.contains(sorted[j]));
        let mi = choose|m: int| 0 <= m < ke.len() && ke[m] == sorted[i];
        let mj = choose|m: int| 0 <= m < ke.len() && ke[m] == sorted[j];
        assert(es[i] == sorted[i].1 && es[j] == sorted[j].1);
        assert(sorted[i].0 == id_key(idx, es[i].to.0));
        assert(sorted[j].0 == id_key(idx, es[j].to.0));
        assert(!lex_lt(sorted[j].0, sorted[i].0));
        assert(es.contains(es[i]) && es.contains(es[j]));
        // the two edges are different edges of the index leaving `u`
        if es[i].to.0 == es[j].to.0 {
            // then they are the same edge, found twice in the sorted list
            let pi = choose|p: int| 0 <= p < idx.edges@.len() && idx.edges@[p] == es[i];
            let pj = choose|p: int| 0 <= p < idx.edges@.len() && idx.edges@[p] == es[j];
            if pi != pj {
                if pi < pj {
                    assert(!(idx.edges@[pi].from == idx.edges@[pj].from && idx.edges@[pi].to == idx.edges@[pj].to));
                } else {
                    assert(!(idx.edges@[pj].from == idx.edges@[pi].from && idx.edges@[pj].to == idx.edges@[pi].to));
                }
            }
            lemma_adj_no_dup(idx, u);
            assert(false);
        }
        crate::order::lemma_lex_total(sorted[i].0, sorted[j].0);
        if sorted[i].0 =~= sorted[j].0 {
            assert(sorted[i].0.last() == es[i].to.0);
            assert(sorted[j].0.last() == es[j].to.0);
        }
    }
}

/// With no two edges joining the same pair, an adjacency list repeats no edge.
proof fn lemma_adj_no_dup(idx: Index, u: u64)
    requires
        edges_simple(idx),
    ensures
        adj(idx, u, Direction::Forward).no_duplicates(),
{
    let f = |e: Edge| src_of(e, Direction::Forward) == u;
    let es0 = edges_from(idx, u, Direction::Forward);
    assert(idx.edges@.no_duplicates()) by {
        assert forall|i: int, j: int| 0 <= i < idx.edges@.len() && 0 <= j < idx.edges@.len() && i != j
            implies idx.edges@[i] != idx.edges@[j] by {
            if i < j {
                assert(!(idx.edges@[i].from == idx.edges@[j].from && idx.edges@[i].to == idx.edges@[j].to));
            } else {
                assert(!(idx.edges@[j].from == idx.edges@[i].from && idx.edges@[j].to == idx.edges@[i].to));
            }
        }
    }
    lemma_filter_no_dup(idx.edges@, f);
    let ke = keyed_edges(idx, es0, Direction::Forward);
    assert(ke.no_duplicates()) by {
        assert forall|i: int, j: int| 0 <= i < ke.len() && 0 <= j < ke.len() && i != j implies ke[i] != ke[j] by {
            assert(ke[i].1 == es0[i] && ke[j].1 == es0[j]);
        }
    }
    crate::order::lemma_sort_keyed_props(ke);
    let sorted = sort_keyed(ke);
    ke.lemma_multiset_has_no_duplicates();
    sorted.lemma_multiset_has_no_duplicates_conv();
    let es = adj(idx, u, Direction::Forward);
    assert forall|i: int, j: int| 0 <= i < es.len() && 0 <= j < es.len() && i != j implies es[i] != es[j] by {
        assert(sorted.to_multiset().count(sorted[i]) > 0);
        assert(sorted.to_multiset().count(sorted[j]) > 0);
        assert(ke.contains(sorted[i]));
        assert(ke.contains(sorted[j]));
        let mi = choose|m: int| 0 <= m < ke.len() && ke[m] == sorted[i];
        let mj = choose|m: int| 0 <= m < ke.len() && ke[m] == sorted[j];
        assert(sorted[i] != sorted[j]);
        assert(es[i] == sorted[i].1 && es[j] == sorted[j].1);
    }
}

/// Indexes with the same contents and no two edges joining the same pair
/// have the same forward adjacency lists.
proof fn lemma_same_adj(a: Index, b: Index, u: u64)
    requires
        same_contents(a, b),
        edges_simple(a),
        edges_simple(b),
    ensures
        adj(a, u, Direction::Forward) == adj(b, u, Direction::Forward),
{
    lemma_adj_strict(a, u);
    lemma_adj_strict(b, u);
    let x = adj(a, u, Direction::Forward);
    let y = adj(b, u, Direction::Forward);
    let key = |e: Edge| id_key(a, e.to.0);
    assert forall|i: int, j: int| 0 <= i < j < y.len() implies lex_lt(key(#[trigger] y[i]), key(#[trigger] y[j])) by {
        lemma_same_symbols(a, b, y[i].to.0);
        lemma_same_symbols(a, b, y[j].to.0);
        assert(id_key(a, y[i].to.0) == id_key(b, y[i].to.0));
        assert(id_key(a, y[j].to.0) == id_key(b, y[j].to.0));
    }
    assert forall|i: int, j: int| 0 <= i < j < x.len() implies lex_lt(key(#[trigger] x[i]), key(#[trigger] x[j])) by {
    }
    assert forall|e: Edge| #![trigger x.contains(e)] #![trigger y.contains(e)] x.contains(e) <==> y.contains(e) by {
    }
    lemma_sorted_edges_unique(x, y, key);
}

proof fn lemma_same_dfs(a: Index, b: Index, node: u64, target: u64, max_depth: nat, cap: nat, current: Seq<u64>, st: SearchState)
    requires
        same_contents(a, b),
        edges_simple(a),
        edges_simple(b),
    ensures
        dfs(a, node, target, max_depth, cap, current, st) == dfs(b, node, target, max_depth, cap, current, st),
    decreases max_depth + 1 - current.len(), 1int, 0int,
{
    lemma_same_adj(a, b, node);
    if current.len() == 0 || current.len() > max_depth + 1 || st.0.len() >= cap {
    } else if node == target && current.len() > 1 {
    } else if current.len() - 1 >= max_depth {
    } else {
        lemma_same_children(a, b, node, target, max_depth, cap, current, 0, st);
    }
}

proof fn lemma_same_children(
    a: Index,
    b: Index,
    node: u64,
    target: u64,
    max_depth: nat,
    cap: nat,
    current: Seq<u64>,
    k: int,
    st: SearchState,
)
    requires
        same_contents(a, b),
        edges_simple(a),
        edges_simple(b),
    ensures
        dfs_children(a, node, target, max_depth, cap, current, k, st) == dfs_children(b, node, target, max_depth, cap,
            current, k, st),
    decreases max_depth + 1 - current.len(), 0int, adj(a, node, Direction::Forward).len() - k,
{
    lemma_same_adj(a, b, node);
    let es = adj(a, node, Direction::Forward);
    if current.len() == 0 || current.len() > max_depth || k < 0 || k >= es.len() {
    } else {
        let e = es[k];
        lemma_same_symbols(a, b, e.to.0);
        let st1 = note_spec(a, st, e);
        assert(st1 == note_spec(b, st, e));
        let next = e.to.0;
        if current.contains(next) || !known(a, next) || earlier_to(es, k, next) {
            lemma_same_children(a, b, node, target, max_depth, cap, current, k + 1, st1);
        } else {
            lemma_same_dfs(a, b, next, target, max_depth, cap, current.push(next), st1);
            let st2 = dfs(a, next, target, max_depth, cap, current.push(next), st1);
            if st2.0.len() < cap {
                lemma_same_children(a, b, node, target, max_depth, cap, current, k + 1, st2);
            }
        }
    }
}

proof fn lemma_same_path_key(a: Index, b: Index, p: Seq<u64>)
    requires
        same_contents(a, b),
    ensures
        path_key(a, p) == path_key(b, p),
    decreases p.len(),
{
    if p.len() > 0 {
        lemma_same_path_key(a, b, p.drop_last());
        lemma_same_symbols(a, b, p.last());
    }
}

proof fn lemma_same_nodes(a: Index, b: Index, p: Seq<u64>)
    requires
        same_contents(a, b),
    ensures
        path_nodes(a, p) == path_nodes(b, p),
{
    let fa = |id: u64| known(a, id);
    let fb = |id: u64| known(b, id);
    assert forall|id: u64| #[trigger] fa(id) == fb(id) by {
        lemma_same_symbols(a, b, id);
    }
    assert(fa =~= fb);
    let kept = p.filter(fa);
    p.filter_lemma(fa);
    assert forall|i: int| 0 <= i < kept.len() implies symbol_of(a, #[trigger] kept[i]) == symbol_of(b, kept[i]) by {
        lemma_same_symbols(a, b, kept[i]);
    }
    assert(path_nodes(a, p) =~= path_nodes(b, p));
}

/// Call-path answers do not depend on the order of the index: over two
/// indexes holding the same symbols (each id once) and the same edges, no two
/// joining the same pair of symbols, the answers for the same ends and bounds
/// are the same.
pub proof fn lemma_call_paths_order_independent(
    a: Index,
    b: Index,
    from: u64,
    to: u64,
    max_depth: usize,
    max_paths: usize,
    paths1: Seq<Seq<Symbol>>,
    m1: Marks,
    paths2: Seq<Seq<Symbol>>,
    m2: Marks,
)
    requires
        same_contents(a, b),
        edges_simple(a),
        edges_simple(b),
        call_paths_answer(a, from, to, max_depth, max_paths, paths1, m1),
        call_paths_answer(b, from, to, max_depth, max_paths, paths2, m2),
    ensures
        paths1 == paths2,
        m1.0 == m2.0,
        m1.2 == m2.2,
        m1.3 == m2.3,
        m1.4 == m2.4,
        same_reason(m1.1, m2.1),
{
    let md = max_depth as nat;
    let mp = max_paths as nat;
    let cap = if mp < usize::MAX { mp + 1 } else { usize::MAX as nat };
    let st0: SearchState = (seq![], false, false, Set::empty(), false);
    lemma_same_dfs(a, b, from, to, md, cap, seq![from], st0);
    let st = path_search(a, from, to, md, mp);
    assert(st == path_search(b, from, to, md, mp));
    let found = st.0;
    let sa = found.map_values(keyed_path(a));
    let sb = found.map_values(keyed_path(b));
    assert forall|i: int| 0 <= i < found.len() implies sa[i] == sb[i] by {
        lemma_same_path_key(a, b, found[i]);
    }
    assert(sa =~= sb);
    let sorted = sorted_paths(a, found);
    assert(sorted == sorted_paths(b, found));
    let kept = if sorted.len() > max_paths { sorted.take(max_paths as int) } else { sorted };
    assert forall|i: int| 0 <= i < kept.len() implies nodes_of(a)(kept[i]) == nodes_of(b)(kept[i]) by {
        lemma_same_nodes(a, b, kept[i]);
    }
    assert(kept.map_values(nodes_of(a)) =~= kept.map_values(nodes_of(b)));
}

/// `p` is a simple call path from `from` to `to` of at most `max_depth`
/// edges: it has at least one edge, follows forward edges, never repeats a
/// node, and passes only through ids that name symbols.
pub open spec fn simple_path(idx: Index, from: u64, to: u64, max_depth: nat, p: Seq<u64>) -> bool {
    &&& 2 <= p.len() <= max_depth + 1
    &&& p[0] == from
    &&& p.last() == to
    &&& p.no_duplicates()
    &&& forall|i: int| 0 <= i < p.len() - 1 ==> #[trigger] linked(idx, Direction::Forward, p, i)
    &&& forall|i: int| 1 <= i < p.len() ==> known(idx, #[trigger] p[i])
}

/// A path under way: a prefix of a simple path from `from`.
spec fn partial_path(idx: Index, from: u64, max_depth: nat, p: Seq<u64>) -> bool {
    &&& 1 <= p.len() <= max_depth + 1
    &&& p[0] == from
    &&& p.no_duplicates()
    &&& forall|i: int| 0 <= i < p.len() - 1 ==> #[trigger] linked(idx, Direction::Forward, p, i)
    &&& forall|i: int| 1 <= i < p.len() ==> known(idx, #[trigger] p[i])
}

/// Every found path is simple.
spec fn all_simple(idx: Index, from: u64, to: u64, max_depth: nat, found: Seq<Seq<u64>>) -> bool {
    forall|i: int| 0 <= i < found.len() ==> simple_path(idx, from, to, max_depth, #[trigger] found[i])
}

/// An edge of an adjacency list is an edge of the index, leaving `u`.
proof fn lemma_adj_member(idx: Index, u: u64, dir: Direction, k: int)
    requires
        0 <= k < adj(idx, u, dir).len(),
    ensures
        exists|j: int| 0 <= j < idx.edges@.len() && #[trigger] idx.edges@[j] == adj(idx, u, dir)[k],
        src_of(adj(idx, u, dir)[k], dir) == u,
{
    let es = edges_from(idx, u, dir);
    let ke = keyed_edges(idx, es, dir);
    let sorted = sort_keyed(ke);
    crate::order::lemma_sort_keyed_props(ke);
    assert(sorted.to_multiset().count(sorted[k]) > 0);
    assert(ke.contains(sorted[k]));
    let m = choose|m: int| 0 <= m < ke.len() && ke[m] == sorted[k];
    assert(ke[m].1 == es[m]);
    idx.edges@.filter_lemma(|e: Edge| src_of(e, dir) == u);
    assert(es.contains(es[m]));
    idx.edges@.lemma_filter_contains_rev(|e: Edge| src_of(e, dir) == u, es[m]);
}

proof fn lemma_dfs_simple(
    idx: Index,
    from: u64,
    node: u64,
    target: u64,
    max_depth: nat,
    cap: nat,
    current: Seq<u64>,
    st: SearchState,
)
    requires
        partial_path(idx, from, max_depth, current),
        current.last() == node,
        all_simple(idx, from, target, max_depth, st.0),
    ensures
        all_simple(idx, from, target, max_depth, dfs(idx, node, target, max_depth, cap, current, st).0),
    decreases max_depth + 1 - current.len(), 1int, 0int,
{
    if current.len() == 0 || current.len() > max_depth + 1 {
    } else if st.0.len() >= cap {
    } else if node == target && current.len() > 1 {
        let r = st.0.push(current);
        assert forall|i: int| 0 <= i < r.len() implies simple_path(idx, from, target, max_depth, #[trigger] r[i]) by {
            if i < st.0.len() {
                assert(r[i] == st.0[i]);
            }
        }
    } else if current.len() - 1 >= max_depth {
    } else {
        lemma_dfs_children_simple(idx, from, node, target, max_depth, cap, current, 0, st);
    }
}

proof fn lemma_dfs_children_simple(
    idx: Index,
    from: u64,
    node: u64,
    target: u64,
    max_depth: nat,
    cap: nat,
    current: Seq<u64>,
    k: int,
    st: SearchState,
)
    requires
        partial_path(idx, from, max_depth, current),
        current.last() == node,
        all_simple(idx, from, target, max_depth, st.0),
    ensures
        all_simple(idx, from, target, max_depth, dfs_children(idx, node, target, max_depth, cap, current, k, st).0),
    decreases max_depth + 1 - current.len(), 0int, adj(idx, node, Direction::Forward).len() - k,
{
    let es = adj(idx, node, Direction::Forward);
    if current.len() == 0 || current.len() > max_depth || k < 0 || k >= es.len() {
    } else {
        let e = es[k];
        let st1 = note_spec(idx, st, e);
        let next = e.to.0;
        if current.contains(next) || !known(idx, next) || earlier_to(es, k, next) {
            lemma_dfs_children_simple(idx, from, node, target, max_depth, cap, current, k + 1, st1);
        } else {
            let c2 = current.push(next);
            lemma_adj_member(idx, node, Direction::Forward, k);
            let j = choose|j: int| 0 <= j < idx.edges@.len() && #[trigger] idx.edges@[j] == es[k];
            assert(step(idx, Direction::Forward, node, next)) by {
                assert(src_of(idx.edges@[j], Direction::Forward) == node);
            }
            assert(partial_path(idx, from, max_depth, c2)) by {
                assert forall|i: int| 0 <= i < c2.len() - 1 implies #[trigger] linked(idx, Direction::Forward, c2, i) by {
                    if i < current.len() - 1 {
                        assert(linked(idx, Direction::Forward, current, i));
                    } else {
                        assert(c2[i] == node && c2[i + 1] == next);
                    }
                }
                assert forall|i: int| 1 <= i < c2.len() implies known(idx, #[trigger] c2[i]) by {
                    if i < current.len() {
                        assert(c2[i] == current[i]);
                    }
                }
                assert forall|a: int, b: int| 0 <= a < c2.len() && 0 <= b < c2.len() && a != b implies c2[a] != c2[b] by {
                    if a == current.len() {
                        assert(c2[b] == current[b]);
                    } else if b == current.len() {
                        assert(c2[a] == current[a]);
                    } else {
                        assert(c2[a] == current[a] && c2[b] == current[b]);
                    }
                }
            }
            lemma_dfs_simple(idx, from, next, target, max_depth, cap, c2, st1);
            let st2 = dfs(idx, next, target, max_depth, cap, c2, st1);
            if st2.0.len() < cap {
                lemma_dfs_children_simple(idx, from, node, target, max_depth, cap, current, k + 1, st2);
            }
        }
    }
}

/// `q` continues the path `c`.
pub open spec fn extends(q: Seq<u64>, c: Seq<u64>) -> bool {
    c.len() <= q.len() && q.take(c.len() as int) == c
}

proof fn lemma_dfs_grows(idx: Index, node: u64, target: u64, max_depth: nat, cap: nat, current: Seq<u64>, st: SearchState)
    ensures
        forall|p: Seq<u64>| st.0.contains(p) ==> #[trigger] dfs(idx, node, target, max_depth, cap, current, st).0.contains(p),
    decreases max_depth + 1 - current.len(), 1int, 0int,
{
    let r = dfs(idx, node, target, max_depth, cap, current, st);
    if current.len() == 0 || current.len() > max_depth + 1 || st.0.len() >= cap {
        assert(r == st);
    } else if node == target && current.len() > 1 {
        assert(r.0 == st.0.push(current));
        assert forall|p: Seq<u64>| st.0.contains(p) implies #[trigger] r.0.contains(p) by {
            let i = choose|i: int| 0 <= i < st.0.len() && st.0[i] == p;
            assert(r.0[i] == p);
        }
    } else if current.len() - 1 >= max_depth {
        assert(r.0 == st.0);
    } else {
        assert(r == dfs_children(idx, node, target, max_depth, cap, current, 0, st));
        lemma_children_grow(idx, node, target, max_depth, cap, current, 0, st);
        assert forall|p: Seq<u64>| st.0.contains(p) implies #[trigger] r.0.contains(p) by {
            assert(dfs_children(idx, node, target, max_depth, cap, current, 0, st).0.contains(p));
        }
    }
}

proof fn lemma_children_grow(
    idx: Index,
    node: u64,
    target: u64,
    max_depth: nat,
    cap: nat,
    current: Seq<u64>,
    k: int,
    st: SearchState,
)
    ensures
        forall|p: Seq<u64>| st.0.contains(p) ==> #[trigger] dfs_children(idx, node, target, max_depth, cap, current, k, st).0.contains(p),
    decreases max_depth + 1 - current.len(), 0int, adj(idx, node, Direction::Forward).len() - k,
{
    let es = adj(idx, node, Direction::Forward);
    let r = dfs_children(idx, node, target, max_depth, cap, current, k, st);
    if current.len() == 0 || current.len() > max_depth || k < 0 || k >= es.len() {
        assert(r == st);
    } else {
        let e = es[k];
        let st1 = note_spec(idx, st, e);
        let next = e.to.0;
        assert(st1.0 == st.0);
        if current.contains(next) || !known(idx, next) || earlier_to(es, k, next) {
            assert(r == dfs_children(idx, node, target, max_depth, cap, current, k + 1, st1));
            lemma_children_grow(idx, node, target, max_depth, cap, current, k + 1, st1);
            assert forall|p: Seq<u64>| st.0.contains(p) implies #[trigger] r.0.contains(p) by {
                assert(dfs_children(idx, node, target, max_depth, cap, current, k + 1, st1).0.contains(p));
            }
        } else {
            lemma_dfs_grows(idx, next, target, max_depth, cap, current.push(next), st1);
            let st2 = dfs(idx, next, target, max_depth, cap, current.push(next), st1);
            if st2.0.len() < cap {
                assert(r == dfs_children(idx, node, target, max_depth, cap, current, k + 1, st2));
                lemma_children_grow(idx, node, target, max_depth, cap, current, k + 1, st2);
                assert forall|p: Seq<u64>| st.0.contains(p) implies #[trigger] r.0.contains(p) by {
                    assert(st2.0.contains(p));
                    assert(dfs_children(idx, node, target, max_depth, cap, current, k + 1, st2).0.contains(p));
                }
            } else {
                assert(r == st2);
                assert forall|p: Seq<u64>| st.0.contains(p) implies #[trigger] r.0.contains(p) by {
                    assert(st2.0.contains(p));
                }
            }
        }
    }
}

/// The first edge of `es` leading to `x`, at or before the `i`-th.
proof fn lemma_first_to(es: Seq<Edge>, x: u64, i: int) -> (f: int)
    requires
        0 <= i < es.len(),
        es[i].to.0 == x,
    ensures
        0 <= f <= i,
        es[f].to.0 == x,
        !earlier_to(es, f, x),
    decreases i,
{
    if earlier_to(es, i, x) {
        let j = choose|j: int| 0 <= j < i && (#[trigger] es[j]).to.0 == x;
        lemma_first_to(es, x, j)
    } else {
        i
    }
}

proof fn lemma_dfs_complete(idx: Index, node: u64, target: u64, max_depth: nat, cap: nat, current: Seq<u64>, st: SearchState)
    requires
        1 <= current.len(),
        current.last() == node,
    ensures
        dfs(idx, node, target, max_depth, cap, current, st).0.len() < cap ==> forall|q: Seq<u64>|
            simple_path(idx, current[0], target, max_depth, q) && extends(q, current)
                ==> #[trigger] dfs(idx, node, target, max_depth, cap, current, st).0.contains(q),
    decreases max_depth + 1 - current.len(), 1int, 0int,
{
    let r = dfs(idx, node, target, max_depth, cap, current, st);
    let cl = current.len() as int;
    if current.len() > max_depth + 1 {
    } else if st.0.len() >= cap {
    } else if node == target && current.len() > 1 {
        assert forall|q: Seq<u64>| simple_path(idx, current[0], target, max_depth, q) && extends(q, current)
            implies #[trigger] r.0.contains(q) by {
            if q.len() > cl {
                assert(q[cl - 1] == current[cl - 1]);
                assert(q[cl - 1] == q[q.len() - 1]);
            }
            assert(q =~= current);
            assert(r.0[st.0.len() as int] == current);
        }
    } else if current.len() - 1 >= max_depth {
        assert forall|q: Seq<u64>| simple_path(idx, current[0], target, max_depth, q) && extends(q, current)
            implies #[trigger] r.0.contains(q) by {
            assert(q =~= current);
            assert(q.last() == node);
        }
    } else {
        lemma_children_complete(idx, node, target, max_depth, cap, current, 0, st);
        assert(r == dfs_children(idx, node, target, max_depth, cap, current, 0, st));
        assert forall|q: Seq<u64>| simple_path(idx, current[0], target, max_depth, q) && extends(q, current) && r.0.len() < cap
            implies #[trigger] r.0.contains(q) by {
            if q.len() == cl {
                assert(q =~= current);
                assert(q.last() == node);
            } else {
                assert(linked(idx, Direction::Forward, q, cl - 1));
                assert(q[cl - 1] == current[cl - 1]);
                let j = choose|j: int| 0 <= j < idx.edges@.len() && src_of(#[trigger] idx.edges@[j], Direction::Forward) == node
                    && nbr_of(idx.edges@[j], Direction::Forward) == q[cl];
                let e = idx.edges@[j];
                assert(idx.edges@.contains(e));
                lemma_adj_contains(idx, node, Direction::Forward, e);
                let es = adj(idx, node, Direction::Forward);
                let i0 = choose|i: int| 0 <= i < es.len() && es[i] == e;
                let i = lemma_first_to(es, q[cl], i0);
                assert(es[i].to.0 == q[cl]);
                assert(dfs_children(idx, node, target, max_depth, cap, current, 0, st).0.contains(q));
            }
        }
    }
}

proof fn lemma_children_complete(
    idx: Index,
    node: u64,
    target: u64,
    max_depth: nat,
    cap: nat,
    current: Seq<u64>,
    k: int,
    st: SearchState,
)
    requires
        1 <= current.len() <= max_depth,
        current.last() == node,
        0 <= k,
    ensures
        ({
            let r = dfs_children(idx, node, target, max_depth, cap, current, k, st);
            let es = adj(idx, node, Direction::Forward);
            r.0.len() < cap ==> forall|q: Seq<u64>|
                simple_path(idx, current[0], target, max_depth, q) && extends(q, current) && q.len() > current.len()
                    && (exists|i: int| k <= i < es.len() && (#[trigger] es[i]).to.0 == q[current.len() as int]
                        && !earlier_to(es, i, q[current.len() as int]))
                    ==> #[trigger] r.0.contains(q)
        }),
    decreases max_depth + 1 - current.len(), 0int, adj(idx, node, Direction::Forward).len() - k,
{
    let es = adj(idx, node, Direction::Forward);
    let r = dfs_children(idx, node, target, max_depth, cap, current, k, st);
    let cl = current.len() as int;
    if k >= es.len() {
    } else {
        let e = es[k];
        let st1 = note_spec(idx, st, e);
        let next = e.to.0;
        if current.contains(next) || !known(idx, next) || earlier_to(es, k, next) {
            lemma_children_complete(idx, node, target, max_depth, cap, current, k + 1, st1);
            assert(r == dfs_children(idx, node, target, max_depth, cap, current, k + 1, st1));
            assert forall|q: Seq<u64>|
                simple_path(idx, current[0], target, max_depth, q) && extends(q, current) && q.len() > current.len()
                    && (exists|i: int| k <= i < es.len() && (#[trigger] es[i]).to.0 == q[cl] && !earlier_to(es, i, q[cl]))
                    && r.0.len() < cap
                implies #[trigger] r.0.contains(q) by {
                let i = choose|i: int| k <= i < es.len() && (#[trigger] es[i]).to.0 == q[cl] && !earlier_to(es, i, q[cl]);
                if q[cl] == next {
                    if current.contains(next) {
                        let m = choose|m: int| 0 <= m < current.len() && current[m] == next;
                        assert(q[m] == current[m]);
                    } else if !known(idx, next) {
                        assert(known(idx, q[cl]));
                    } else {
                        if i > k {
                            assert(es[k].to.0 == q[cl]);
                        }
                    }
                }
                assert(i != k);
                assert(dfs_children(idx, node, target, max_depth, cap, current, k + 1, st1).0.contains(q));
            }
        } else {
            let c2 = current.push(next);
            lemma_dfs_complete(idx, next, target, max_depth, cap, c2, st1);
            let st2 = dfs(idx, next, target, max_depth, cap, c2, st1);
            if st2.0.len() < cap {
                lemma_children_complete(idx, node, target, max_depth, cap, current, k + 1, st2);
                lemma_children_grow(idx, node, target, max_depth, cap, current, k + 1, st2);
                assert(r == dfs_children(idx, node, target, max_depth, cap, current, k + 1, st2));
                assert forall|q: Seq<u64>|
                    simple_path(idx, current[0], target, max_depth, q) && extends(q, current) && q.len() > current.len()
                        && (exists|i: int| k <= i < es.len() && (#[trigger] es[i]).to.0 == q[cl] && !earlier_to(es, i, q[cl]))
                    && r.0.len() < cap
                    implies #[trigger] r.0.contains(q) by {
                    if q[cl] == next {
                        assert(q.take(cl + 1) =~= c2);
                        assert(c2[0] == current[0]);
                        assert(st2.0.contains(q));
                        assert(dfs_children(idx, node, target, max_depth, cap, current, k + 1, st2).0.contains(q));
                    } else {
                        let i = choose|i: int| k <= i < es.len() && (#[trigger] es[i]).to.0 == q[cl] && !earlier_to(es, i, q[cl]);
                        assert(i != k);
                        assert(dfs_children(idx, node, target, max_depth, cap, current, k + 1, st2).0.contains(q));
                    }
                }
            }
        }
    }
}

/// No two symbols of the index share a path (as ids derived from paths
/// ensure, barring a hash collision).
pub open spec fn paths_distinct(idx: Index) -> bool {
    forall|x: u64, y: u64|
        #![trigger known(idx, x), known(idx, y)]
        known(idx, x) && known(idx, y) && x != y ==> path_of(idx, x) != path_of(idx, y)
}

/// The key of a path is the key of any beginning of it, then more.
proof fn lemma_path_key_split(idx: Index, q: Seq<u64>, m: int) -> (rest: Seq<u64>)
    requires
        0 <= m <= q.len(),
    ensures
        path_key(idx, q) == path_key(idx, q.take(m)) + rest,
    decreases q.len(),
{
    if m == q.len() {
        assert(q.take(m) =~= q);
        assert(path_key(idx, q) + seq![] =~= path_key(idx, q));
        seq![]
    } else {
        let d = q.drop_last();
        assert(d.take(m) =~= q.take(m));
        let r = lemma_path_key_split(idx, d, m);
        let e = encode_text(path_of(idx, q.last()));
        assert(path_key(idx, q) == path_key(idx, d) + e);
        assert(path_key(idx, q) =~= path_key(idx, q.take(m)) + (r + e));
        r + e
    }
}

/// Paths that leave a common beginning `c` through nodes whose paths are in
/// order are in that order.
proof fn lemma_blocks(idx: Index, c: Seq<u64>, n1: u64, n2: u64, p: Seq<u64>, q: Seq<u64>)
    requires
        extends(p, c.push(n1)),
        extends(q, c.push(n2)),
        lex_lt(encode_text(path_of(idx, n1)), encode_text(path_of(idx, n2))),
    ensures
        lex_lt(path_key(idx, p), path_key(idx, q)),
{
    let cl = c.len() as int;
    let r1 = lemma_path_key_split(idx, p, cl + 1);
    let r2 = lemma_path_key_split(idx, q, cl + 1);
    assert(c.push(n1).drop_last() =~= c);
    assert(c.push(n2).drop_last() =~= c);
    let e1 = encode_text(path_of(idx, n1));
    let e2 = encode_text(path_of(idx, n2));
    assert(path_key(idx, c.push(n1)) == path_key(idx, c) + e1);
    assert(path_key(idx, c.push(n2)) == path_key(idx, c) + e2);
    assert(path_key(idx, p) =~= path_key(idx, c) + (e1 + r1));
    assert(path_key(idx, q) =~= path_key(idx, c) + (e2 + r2));
    crate::order::lemma_text_before(path_of(idx, n1), path_of(idx, n2), r1, r2);
    crate::order::lemma_lex_common_prefix(path_key(idx, c), e1 + r1, e2 + r2);
}

/// In an adjacency list, edges to different symbols come in the order of the
/// symbols' paths.
proof fn lemma_adj_text_order(idx: Index, node: u64, i: int, j: int)
    requires
        paths_distinct(idx),
        0 <= i < j < adj(idx, node, Direction::Forward).len(),
        known(idx, adj(idx, node, Direction::Forward)[i].to.0),
        known(idx, adj(idx, node, Direction::Forward)[j].to.0),
        adj(idx, node, Direction::Forward)[i].to.0 != adj(idx, node, Direction::Forward)[j].to.0,
    ensures
        lex_lt(encode_text(path_of(idx, adj(idx, node, Direction::Forward)[i].to.0)),
            encode_text(path_of(idx, adj(idx, node, Direction::Forward)[j].to.0))),
{
    let es = adj(idx, node, Direction::Forward);
    let ke = keyed_edges(idx, edges_from(idx, node, Direction::Forward), Direction::Forward);
    let sorted = sort_keyed(ke);
    crate::order::lemma_sort_keyed_props(ke);
    assert(sorted.to_multiset().count(sorted[i]) > 0);
    assert(sorted.to_multiset().count(sorted[j]) > 0);
    assert(ke.contains(sorted[i]));
    assert(ke.contains(sorted[j]));
    let mi = choose|m: int| 0 <= m < ke.len() && ke[m] == sorted[i];
    let mj = choose|m: int| 0 <= m < ke.len() && ke[m] == sorted[j];
    let a = es[i].to.0;
    let b = es[j].to.0;
    assert(es[i] == sorted[i].1 && es[j] == sorted[j].1);
    assert(sorted[i].0 == id_key(idx, a));
    assert(sorted[j].0 == id_key(idx, b));
    assert(!lex_lt(sorted[j].0, sorted[i].0));
    assert(path_of(idx, a) != path_of(idx, b));
    crate::order::lemma_text_order(path_of(idx, a), path_of(idx, b));
    if lex_lt(encode_text(path_of(idx, b)), encode_text(path_of(idx, a))) {
        crate::order::lemma_text_before(path_of(idx, b), path_of(idx, a), seq![b], seq![a]);
        assert(id_key(idx, b) =~= encode_text(path_of(idx, b)) + seq![b]);
        assert(id_key(idx, a) =~= encode_text(path_of(idx, a)) + seq![a]);
    }
}

/// `r` keeps `s` as its beginning, and everything after it continues `c`.
spec fn grows_from(r: Seq<Seq<u64>>, s: Seq<Seq<u64>>, c: Seq<u64>) -> bool {
    &&& r.len() >= s.len()
    &&& forall|i: int| 0 <= i < s.len() ==> #[trigger] r[i] == s[i]
    &&& forall|i: int| s.len() <= i < r.len() ==> extends(#[trigger] r[i], c)
}

proof fn lemma_dfs_shape(idx: Index, node: u64, target: u64, max_depth: nat, cap: nat, current: Seq<u64>, st: SearchState)
    requires
        1 <= current.len(),
    ensures
        grows_from(dfs(idx, node, target, max_depth, cap, current, st).0, st.0, current),
    decreases max_depth + 1 - current.len(), 1int, 0int,
{
    let r = dfs(idx, node, target, max_depth, cap, current, st);
    if current.len() > max_depth + 1 || st.0.len() >= cap {
        assert(r == st);
    } else if node == target && current.len() > 1 {
        assert(r.0 == st.0.push(current));
        assert(current.take(current.len() as int) =~= current);
        assert(extends(r.0[st.0.len() as int], current));
    } else if current.len() - 1 >= max_depth {
        assert(r.0 == st.0);
    } else {
        assert(r == dfs_children(idx, node, target, max_depth, cap, current, 0, st));
        lemma_children_shape(idx, node, target, max_depth, cap, current, 0, st);
    }
}

proof fn lemma_children_shape(
    idx: Index,
    node: u64,
    target: u64,
    max_depth: nat,
    cap: nat,
    current: Seq<u64>,
    k: int,
    st: SearchState,
)
    requires
        1 <= current.len(),
    ensures
        grows_from(dfs_children(idx, node, target, max_depth, cap, current, k, st).0, st.0, current),
    decreases max_depth + 1 - current.len(), 0int, adj(idx, node, Direction::Forward).len() - k,
{
    let es = adj(idx, node, Direction::Forward);
    let r = dfs_children(idx, node, target, max_depth, cap, current, k, st);
    if current.len() > max_depth || k < 0 || k >= es.len() {
        assert(r == st);
    } else {
        let e = es[k];
        let st1 = note_spec(idx, st, e);
        let next = e.to.0;
        assert(st1.0 == st.0);
        if current.contains(next) || !known(idx, next) || earlier_to(es, k, next) {
            lemma_children_shape(idx, node, target, max_depth, cap, current, k + 1, st1);
        } else {
            let c2 = current.push(next);
            lemma_dfs_shape(idx, next, target, max_depth, cap, c2, st1);
            let st2 = dfs(idx, next, target, max_depth, cap, c2, st1);
            assert forall|i: int| st.0.len() <= i < st2.0.len() implies extends(#[trigger] st2.0[i], current) by {
                assert(extends(st2.0[i], c2));
                assert(st2.0[i].take(current.len() as int) =~= c2.take(current.len() as int));
                assert(c2.take(current.len() as int) =~= current);
            }
            if st2.0.len() < cap {
                lemma_children_shape(idx, node, target, max_depth, cap, current, k + 1, st2);
                assert(r == dfs_children(idx, node, target, max_depth, cap, current, k + 1, st2));
                assert forall|i: int| st.0.len() <= i < r.0.len() implies extends(#[trigger] r.0[i], current) by {
                    if i < st2.0.len() {
                        assert(r.0[i] == st2.0[i]);
                    }
                }
            } else {
                assert(r == st2);
            }
        }
    }
}

/// The depth-first search finds paths smallest first: no continuation of
/// `current` that it left unfound comes before one it found.
proof fn lemma_dfs_first(idx: Index, node: u64, target: u64, max_depth: nat, cap: nat, current: Seq<u64>, st: SearchState)
    requires
        paths_distinct(idx),
        1 <= current.len(),
        current.last() == node,
    ensures
        ({
            let r = dfs(idx, node, target, max_depth, cap, current, st);
            forall|i: int, q: Seq<u64>|
                #![trigger lex_lt(path_key(idx, q), path_key(idx, r.0[i]))]
                st.0.len() <= i < r.0.len() && simple_path(idx, current[0], target, max_depth, q) && extends(q, current)
                    && !r.0.contains(q) ==> !lex_lt(path_key(idx, q), path_key(idx, r.0[i]))
        }),
    decreases max_depth + 1 - current.len(), 1int, 0int,
{
    let r = dfs(idx, node, target, max_depth, cap, current, st);
    let cl = current.len() as int;
    if current.len() > max_depth + 1 || st.0.len() >= cap {
        assert(r == st);
    } else if node == target && current.len() > 1 {
        assert forall|i: int, q: Seq<u64>|
            #![trigger lex_lt(path_key(idx, q), path_key(idx, r.0[i]))]
            st.0.len() <= i < r.0.len() && simple_path(idx, current[0], target, max_depth, q) && extends(q, current)
                && !r.0.contains(q) implies !lex_lt(path_key(idx, q), path_key(idx, r.0[i])) by {
            if q.len() > cl {
                assert(q[cl - 1] == current[cl - 1]);
                assert(q[cl - 1] == q[q.len() - 1]);
            }
            assert(q =~= current);
            assert(r.0 == st.0.push(current));
            assert(r.0[st.0.len() as int] == current);
        }
    } else if current.len() - 1 >= max_depth {
        assert(r.0 == st.0);
    } else {
        assert(r == dfs_children(idx, node, target, max_depth, cap, current, 0, st));
        lemma_children_first(idx, node, target, max_depth, cap, current, 0, st);
        assert forall|i: int, q: Seq<u64>|
            #![trigger lex_lt(path_key(idx, q), path_key(idx, r.0[i]))]
            st.0.len() <= i < r.0.len() && simple_path(idx, current[0], target, max_depth, q) && extends(q, current)
                && !r.0.contains(q) implies !lex_lt(path_key(idx, q), path_key(idx, r.0[i])) by {
            if q.len() == cl {
                assert(q =~= current);
                assert(q.last() == node);
            } else {
                assert(linked(idx, Direction::Forward, q, cl - 1));
                assert(q[cl - 1] == current[cl - 1]);
                let j = choose|j: int| 0 <= j < idx.edges@.len() && src_of(#[trigger] idx.edges@[j], Direction::Forward) == node
                    && nbr_of(idx.edges@[j], Direction::Forward) == q[cl];
                let e = idx.edges@[j];
                assert(idx.edges@.contains(e));
                lemma_adj_contains(idx, node, Direction::Forward, e);
                let es = adj(idx, node, Direction::Forward);
                let i0 = choose|i: int| 0 <= i < es.len() && es[i] == e;
                let iq = lemma_first_to(es, q[cl], i0);
                assert(es[iq].to.0 == q[cl]);
                assert(!lex_lt(path_key(idx, q), path_key(idx, dfs_children(idx, node, target, max_depth, cap, current, 0, st).0[i])));
            }
        }
    }
}

proof fn lemma_children_first(
    idx: Index,
    node: u64,
    target: u64,
    max_depth: nat,
    cap: nat,
    current: Seq<u64>,
    k: int,
    st: SearchState,
)
    requires
        paths_distinct(idx),
        1 <= current.len() <= max_depth,
        current.last() == node,
        0 <= k,
    ensures
        ({
            let r = dfs_children(idx, node, target, max_depth, cap, current, k, st);
            let es = adj(idx, node, Direction::Forward);
            forall|i: int, q: Seq<u64>|
                #![trigger lex_lt(path_key(idx, q), path_key(idx, r.0[i]))]
                st.0.len() <= i < r.0.len() && simple_path(idx, current[0], target, max_depth, q) && extends(q, current)
                    && q.len() > current.len() && (exists|iq: int| k <= iq < es.len() && (#[trigger] es[iq]).to.0
                    == q[current.len() as int] && !earlier_to(es, iq, q[current.len() as int])) && !r.0.contains(q)
                    ==> !lex_lt(path_key(idx, q), path_key(idx, r.0[i]))
        }),
    decreases max_depth + 1 - current.len(), 0int, adj(idx, node, Direction::Forward).len() - k,
{
    let es = adj(idx, node, Direction::Forward);
    let r = dfs_children(idx, node, target, max_depth, cap, current, k, st);
    let cl = current.len() as int;
    if k >= es.len() {
        assert(r == st);
    } else {
        let e = es[k];
        let st1 = note_spec(idx, st, e);
        let next = e.to.0;
        assert(st1.0 == st.0);
        if current.contains(next) || !known(idx, next) || earlier_to(es, k, next) {
            lemma_children_first(idx, node, target, max_depth, cap, current, k + 1, st1);
            assert(r == dfs_children(idx, node, target, max_depth, cap, current, k + 1, st1));
            assert forall|i: int, q: Seq<u64>|
                #![trigger lex_lt(path_key(idx, q), path_key(idx, r.0[i]))]
                st.0.len() <= i < r.0.len() && simple_path(idx, current[0], target, max_depth, q) && extends(q, current)
                    && q.len() > current.len() && (exists|iq: int| k <= iq < es.len() && (#[trigger] es[iq]).to.0 == q[cl]
                    && !earlier_to(es, iq, q[cl])) && !r.0.contains(q)
                implies !lex_lt(path_key(idx, q), path_key(idx, r.0[i])) by {
                let iq = choose|iq: int| k <= iq < es.len() && (#[trigger] es[iq]).to.0 == q[cl] && !earlier_to(es, iq, q[cl]);
                if q[cl] == next {
                    if current.contains(next) {
                        let m = choose|m: int| 0 <= m < current.len() && current[m] == next;
                        assert(q[m] == current[m]);
                    } else if !known(idx, next) {
                        assert(known(idx, q[cl]));
                    } else {
                        if iq > k {
                            assert(es[k].to.0 == q[cl]);
                        }
                    }
                }
                assert(iq != k);
            }
        } else {
            let c2 = current.push(next);
            lemma_dfs_first(idx, next, target, max_depth, cap, c2, st1);
            lemma_dfs_shape(idx, next, target, max_depth, cap, c2, st1);
            lemma_dfs_complete(idx, next, target, max_depth, cap, c2, st1);
            let st2 = dfs(idx, next, target, max_depth, cap, c2, st1);
            assert(c2[0] == current[0]);
            // a path found below `next` comes before every continuation through a
            // later neighbour
            assert forall|i: int, q: Seq<u64>|
                #![trigger lex_lt(path_key(idx, st2.0[i]), path_key(idx, q))]
                st.0.len() <= i < st2.0.len() && simple_path(idx, current[0], target, max_depth, q) && extends(q, current)
                    && q.len() > current.len() && (exists|iq: int| k <= iq < es.len() && (#[trigger] es[iq]).to.0 == q[cl]
                    && !earlier_to(es, iq, q[cl])) && q[cl] != next
                implies lex_lt(path_key(idx, st2.0[i]), path_key(idx, q)) by {
                let iq = choose|iq: int| k <= iq < es.len() && (#[trigger] es[iq]).to.0 == q[cl] && !earlier_to(es, iq, q[cl]);
                assert(iq != k);
                assert(known(idx, q[cl]));
                lemma_adj_text_order(idx, node, k, iq);
                assert(q.take(cl + 1) =~= current.push(q[cl]));
                assert(extends(q, current.push(q[cl])));
                lemma_blocks(idx, current, next, q[cl], st2.0[i], q);
            }
            if st2.0.len() < cap {
                lemma_children_first(idx, node, target, max_depth, cap, current, k + 1, st2);
                lemma_children_shape(idx, node, target, max_depth, cap, current, k + 1, st2);
                assert(r == dfs_children(idx, node, target, max_depth, cap, current, k + 1, st2));
                assert forall|i: int, q: Seq<u64>|
                    #![trigger lex_lt(path_key(idx, q), path_key(idx, r.0[i]))]
                    st.0.len() <= i < r.0.len() && simple_path(idx, current[0], target, max_depth, q) && extends(q, current)
                        && q.len() > current.len() && (exists|iq: int| k <= iq < es.len() && (#[trigger] es[iq]).to.0 == q[cl]
                        && !earlier_to(es, iq, q[cl])) && !r.0.contains(q)
                    implies !lex_lt(path_key(idx, q), path_key(idx, r.0[i])) by {
                    if q[cl] == next {
                        assert(q.take(cl + 1) =~= c2);
                        assert(extends(q, c2));
                        assert(st2.0.contains(q));
                        let m = choose|m: int| 0 <= m < st2.0.len() && st2.0[m] == q;
                        assert(r.0[m] == q);
                    } else {
                        let iq = choose|iq: int| k <= iq < es.len() && (#[trigger] es[iq]).to.0 == q[cl] && !earlier_to(es, iq, q[cl]);
                        assert(iq != k);
                        if i < st2.0.len() {
                            assert(r.0[i] == st2.0[i]);
                            assert(lex_lt(path_key(idx, st2.0[i]), path_key(idx, q)));
                            crate::order::lemma_lex_asymmetric(path_key(idx, q), path_key(idx, r.0[i]));
                        } else {
                            assert(!lex_lt(path_key(idx, q), path_key(idx, dfs_children(idx, node, target, max_depth, cap, current, k + 1, st2).0[i])));
                        }
                    }
                }
            } else {
                assert(r == st2);
                assert forall|i: int, q: Seq<u64>|
                    #![trigger lex_lt(path_key(idx, q), path_key(idx, r.0[i]))]
                    st.0.len() <= i < r.0.len() && simple_path(idx, current[0], target, max_depth, q) && extends(q, current)
                        && q.len() > current.len() && (exists|iq: int| k <= iq < es.len() && (#[trigger] es[iq]).to.0 == q[cl]
                        && !earlier_to(es, iq, q[cl])) && !r.0.contains(q)
                    implies !lex_lt(path_key(idx, q), path_key(idx, r.0[i])) by {
                    if q[cl] == next {
                        assert(q.take(cl + 1) =~= c2);
                        assert(extends(q, c2));
                        assert(!lex_lt(path_key(idx, q), path_key(idx, st2.0[i])));
                    } else {
                        assert(lex_lt(path_key(idx, st2.0[i]), path_key(idx, q)));
                        crate::order::lemma_lex_asymmetric(path_key(idx, q), path_key(idx, r.0[i]));
                    }
                }
            }
        }
    }
}

/// A walk the path search expands: it starts at `from`, follows call edges
/// through ids that name symbols without revisiting a node, leaves room for
/// one more edge within `max_depth`, and meets `to` nowhere after its start
/// (the search stops at `to`).
pub open spec fn expanded_walk(idx: Index, from: u64, to: u64, max_depth: nat, p: Seq<u64>) -> bool {
    &&& 1 <= p.len() <= max_depth
    &&& p[0] == from
    &&& p.no_duplicates()
    &&& forall|i: int| 0 <= i < p.len() - 1 ==> #[trigger] linked(idx, Direction::Forward, p, i)
    &&& forall|i: int| 1 <= i < p.len() ==> known(idx, #[trigger] p[i]) && p[i] != to
}

/// What trying `e` leaves in the search state: a target across the boundary
/// is noted as such, and a dyn-dispatch edge is noted with its target.
spec fn edge_noted(idx: Index, st: SearchState, e: Edge) -> bool {
    &&& is_boundary(idx, e.to.0) ==> st.4
    &&& e.kind == EdgeKind::Virtual ==> st.2 && st.3.contains(e.to.0)
}

/// What the search has noted stays noted.
spec fn keeps_notes(st: SearchState, r: SearchState) -> bool {
    &&& st.4 ==> r.4
    &&& st.2 ==> r.2
    &&& st.3.subset_of(r.3)
}

proof fn lemma_dfs_keeps_notes(idx: Index, node: u64, target: u64, max_depth: nat, cap: nat, current: Seq<u64>, st: SearchState)
    ensures
        keeps_notes(st, dfs(idx, node, target, max_depth, cap, current, st)),
    decreases max_depth + 1 - current.len(), 1int, 0int,
{
    if current.len() == 0 || current.len() > max_depth + 1 || st.0.len() >= cap {
    } else if node == target && current.len() > 1 {
    } else if current.len() - 1 >= max_depth {
    } else {
        lemma_children_keep_notes(idx, node, target, max_depth, cap, current, 0, st);
    }
}

proof fn lemma_children_keep_notes(
    idx: Index,
    node: u64,
    target: u64,
    max_depth: nat,
    cap: nat,
    current: Seq<u64>,
    k: int,
    st: SearchState,
)
    ensures
        keeps_notes(st, dfs_children(idx, node, target, max_depth, cap, current, k, st)),
    decreases max_depth + 1 - current.len(), 0int, adj(idx, node, Direction::Forward).len() - k,
{
    let es = adj(idx, node, Direction::Forward);
    if current.len() == 0 || current.len() > max_depth || k < 0 || k >= es.len() {
    } else {
        let e = es[k];
        let st1 = note_spec(idx, st, e);
        let next = e.to.0;
        if current.contains(next) || !known(idx, next) || earlier_to(es, k, next) {
            lemma_children_keep_notes(idx, node, target, max_depth, cap, current, k + 1, st1);
        } else {
            lemma_dfs_keeps_notes(idx, next, target, max_depth, cap, current.push(next), st1);
            let st2 = dfs(idx, next, target, max_depth, cap, current.push(next), st1);
            if st2.0.len() < cap {
                lemma_children_keep_notes(idx, node, target, max_depth, cap, current, k + 1, st2);
                assert(st.3.subset_of(st2.3));
            }
        }
    }
}

/// Noted edges stay noted.
proof fn lemma_noted_kept(idx: Index, st: SearchState, r: SearchState, e: Edge)
    requires
        edge_noted(idx, st, e),
        keeps_notes(st, r),
    ensures
        edge_noted(idx, r, e),
{
}

/// A search not stopped by its count notes every edge out of any walk it
/// expands.
proof fn lemma_dfs_notes_edges(idx: Index, node: u64, target: u64, max_depth: nat, cap: nat, current: Seq<u64>, st: SearchState)
    requires
        1 <= current.len(),
        current.last() == node,
    ensures
        dfs(idx, node, target, max_depth, cap, current, st).0.len() < cap ==> forall|p: Seq<u64>, i: int|
            #[trigger] expanded_walk(idx, current[0], target, max_depth, p) && extends(p, current)
                && 0 <= i < adj(idx, p.last(), Direction::Forward).len() ==> edge_noted(
                idx,
                dfs(idx, node, target, max_depth, cap, current, st),
                #[trigger] adj(idx, p.last(), Direction::Forward)[i],
            ),
    decreases max_depth + 1 - current.len(), 1int, 0int,
{
    let r = dfs(idx, node, target, max_depth, cap, current, st);
    let cl = current.len() as int;
    if current.len() > max_depth + 1 {
    } else if st.0.len() >= cap {
    } else if node == target && current.len() > 1 {
        assert forall|p: Seq<u64>, i: int|
            #[trigger] expanded_walk(idx, current[0], target, max_depth, p) && extends(p, current)
                && 0 <= i < adj(idx, p.last(), Direction::Forward).len()
            implies edge_noted(idx, r, #[trigger] adj(idx, p.last(), Direction::Forward)[i]) by {
            assert(p[cl - 1] == current[cl - 1]);
        }
    } else if current.len() - 1 >= max_depth {
    } else {
        lemma_children_notes_edges(idx, node, target, max_depth, cap, current, 0, st);
        assert(r == dfs_children(idx, node, target, max_depth, cap, current, 0, st));
        let es = adj(idx, node, Direction::Forward);
        assert forall|p: Seq<u64>, i: int|
            #[trigger] expanded_walk(idx, current[0], target, max_depth, p) && extends(p, current)
                && 0 <= i < adj(idx, p.last(), Direction::Forward).len() && r.0.len() < cap
            implies edge_noted(idx, r, #[trigger] adj(idx, p.last(), Direction::Forward)[i]) by {
            if p.len() == cl {
                assert(p =~= current);
                assert(p.last() == node);
                assert(edge_noted(idx, r, es[i]));
            } else {
                assert(linked(idx, Direction::Forward, p, cl - 1));
                assert(p[cl - 1] == current[cl - 1]);
                let j = choose|j: int| 0 <= j < idx.edges@.len() && src_of(#[trigger] idx.edges@[j], Direction::Forward) == node
                    && nbr_of(idx.edges@[j], Direction::Forward) == p[cl];
                let e = idx.edges@[j];
                assert(idx.edges@.contains(e));
                lemma_adj_contains(idx, node, Direction::Forward, e);
                let i0 = choose|i: int| 0 <= i < es.len() && es[i] == e;
                let f = lemma_first_to(es, p[cl], i0);
                assert(es[f].to.0 == p[cl]);
            }
        }
    }
}

proof fn lemma_children_notes_edges(
    idx: Index,
    node: u64,
    target: u64,
    max_depth: nat,
    cap: nat,
    current: Seq<u64>,
    k: int,
    st: SearchState,
)
    requires
        1 <= current.len() <= max_depth,
        current.last() == node,
        0 <= k,
    ensures
        ({
            let r = dfs_children(idx, node, target, max_depth, cap, current, k, st);
            let es = adj(idx, node, Direction::Forward);
            r.0.len() < cap ==> {
                &&& forall|i: int| k <= i < es.len() ==> edge_noted(idx, r, #[trigger] es[i])
                &&& forall|p: Seq<u64>, i: int|
                    #[trigger] expanded_walk(idx, current[0], target, max_depth, p) && extends(p, current)
                        && p.len() > current.len() && 0 <= i < adj(idx, p.last(), Direction::Forward).len()
                        && (exists|j: int| k <= j < es.len() && (#[trigger] es[j]).to.0 == p[current.len() as int]
                        && !earlier_to(es, j, p[current.len() as int])) ==> edge_noted(
                        idx,
                        r,
                        #[trigger] adj(idx, p.last(), Direction::Forward)[i],
                    )
            }
        }),
    decreases max_depth + 1 - current.len(), 0int, adj(idx, node, Direction::Forward).len() - k,
{
    let es = adj(idx, node, Direction::Forward);
    let r = dfs_children(idx, node, target, max_depth, cap, current, k, st);
    let cl = current.len() as int;
    if k >= es.len() {
    } else {
        let e = es[k];
        let st1 = note_spec(idx, st, e);
        let next = e.to.0;
        assert(edge_noted(idx, st1, e));
        if current.contains(next) || !known(idx, next) || earlier_to(es, k, next) {
            lemma_children_notes_edges(idx, node, target, max_depth, cap, current, k + 1, st1);
            lemma_children_keep_notes(idx, node, target, max_depth, cap, current, k + 1, st1);
            assert(r == dfs_children(idx, node, target, max_depth, cap, current, k + 1, st1));
            if r.0.len() < cap {
                lemma_noted_kept(idx, st1, r, e);
                assert forall|i: int| k <= i < es.len() implies edge_noted(idx, r, #[trigger] es[i]) by {
                    if i > k {
                        assert(edge_noted(idx, r, es[i]));
                    }
                }
            }
            assert forall|p: Seq<u64>, i: int|
                #[trigger] expanded_walk(idx, current[0], target, max_depth, p) && extends(p, current)
                    && p.len() > current.len() && 0 <= i < adj(idx, p.last(), Direction::Forward).len()
                    && (exists|j: int| k <= j < es.len() && (#[trigger] es[j]).to.0 == p[cl] && !earlier_to(es, j, p[cl]))
                    && r.0.len() < cap
                implies edge_noted(idx, r, #[trigger] adj(idx, p.last(), Direction::Forward)[i]) by {
                let j = choose|j: int| k <= j < es.len() && (#[trigger] es[j]).to.0 == p[cl] && !earlier_to(es, j, p[cl]);
                if j == k {
                    if current.contains(next) {
                        let m = choose|m: int| 0 <= m < current.len() && current[m] == next;
                        assert(p[m] == current[m]);
                    } else if !known(idx, next) {
                        assert(known(idx, p[cl]));
                    }
                }
                assert(k + 1 <= j);
            }
        } else {
            let c2 = current.push(next);
            lemma_dfs_notes_edges(idx, next, target, max_depth, cap, c2, st1);
            lemma_dfs_keeps_notes(idx, next, target, max_depth, cap, c2, st1);
            let st2 = dfs(idx, next, target, max_depth, cap, c2, st1);
            if st2.0.len() < cap {
                lemma_children_notes_edges(idx, node, target, max_depth, cap, current, k + 1, st2);
                lemma_children_keep_notes(idx, node, target, max_depth, cap, current, k + 1, st2);
                assert(r == dfs_children(idx, node, target, max_depth, cap, current, k + 1, st2));
                if r.0.len() < cap {
                    lemma_noted_kept(idx, st1, st2, e);
                    lemma_noted_kept(idx, st2, r, e);
                    assert forall|i: int| k <= i < es.len() implies edge_noted(idx, r, #[trigger] es[i]) by {
                        if i > k {
                            assert(edge_noted(idx, r, es[i]));
                        }
                    }
                }
                assert forall|p: Seq<u64>, i: int|
                    #[trigger] expanded_walk(idx, current[0], target, max_depth, p) && extends(p, current)
                        && p.len() > current.len() && 0 <= i < adj(idx, p.last(), Direction::Forward).len()
                        && (exists|j: int| k <= j < es.len() && (#[trigger] es[j]).to.0 == p[cl] && !earlier_to(es, j, p[cl]))
                        && r.0.len() < cap
                    implies edge_noted(idx, r, #[trigger] adj(idx, p.last(), Direction::Forward)[i]) by {
                    let x = adj(idx, p.last(), Direction::Forward)[i];
                    if p[cl] == next {
                        assert(p.take(cl + 1) =~= c2);
                        assert(c2[0] == current[0]);
                        assert(extends(p, c2));
                        assert(edge_noted(idx, st2, x));
                        lemma_noted_kept(idx, st2, r, x);
                    } else {
                        let j = choose|j: int| k <= j < es.len() && (#[trigger] es[j]).to.0 == p[cl] && !earlier_to(es, j, p[cl]);
                        assert(j != k);
                    }
                }
            }
        }
    }
}

/// Every edge the path search tries is noted, whether or not its target names
/// a symbol: when a call-paths answer is not cut short, an edge out of any
/// node the search expands (the start, or the end of a walk it extends) that
/// leaves the workspace sets `boundary_applies`, and one that is a
/// dyn-dispatch call marks the answer over-approximated.
pub proof fn lemma_call_paths_note_edges(
    idx: Index,
    from: u64,
    to: u64,
    max_depth: usize,
    max_paths: usize,
    paths: Seq<Seq<Symbol>>,
    m: Marks,
    p: Seq<u64>,
    e: Edge,
)
    requires
        call_paths_answer(idx, from, to, max_depth, max_paths, paths, m),
        !m.2,
        m.3 < usize::MAX,
        expanded_walk(idx, from, to, max_depth as nat, p),
        idx.edges@.contains(e),
        e.from.0 == p.last(),
    ensures
        is_boundary(idx, e.to.0) ==> m.4,
        e.kind == EdgeKind::Virtual ==> m.1 is Some,
{
    let md = max_depth as nat;
    let cap: nat = if max_paths < usize::MAX { (max_paths + 1) as nat } else { usize::MAX as nat };
    let st0: SearchState = (seq![], false, false, Set::empty(), false);
    let st = path_search(idx, from, to, md, max_paths as nat);
    assert(st == dfs(idx, from, to, md, cap, seq![from], st0));
    let src = st.0.map_values(keyed_path(idx));
    crate::order::lemma_sort_keyed_props(src);
    assert(sorted_paths(idx, st.0).len() == st.0.len());
    assert(st.0.len() < cap);
    lemma_dfs_notes_edges(idx, from, to, md, cap, seq![from], st0);
    lemma_adj_contains(idx, p.last(), Direction::Forward, e);
    let es = adj(idx, p.last(), Direction::Forward);
    let i = choose|i: int| 0 <= i < es.len() && es[i] == e;
    assert(p.take(1) =~= seq![from]);
    assert(extends(p, seq![from]));
    assert(seq![from][0] == from);
    assert(edge_noted(idx, st, es[i]));
}

/// When a call-paths answer is not cut by its count, it lists every simple
/// call path: every simple path from `from` to `to` of at most `max_depth`
/// edges through ids that name symbols is among the paths found. (Together
/// with [`lemma_call_paths_simple`], the sorted answer is then exactly the
/// simple paths.)
pub proof fn lemma_call_paths_complete(idx: Index, from: u64, to: u64, max_depth: nat, max_paths: nat)
    requires
        max_paths < usize::MAX,
    ensures
        ({
            let st = path_search(idx, from, to, max_depth, max_paths);
            st.0.len() <= max_paths ==> forall|q: Seq<u64>|
                simple_path(idx, from, to, max_depth, q) ==> #[trigger] sorted_paths(idx, st.0).contains(q)
        }),
{
    let cap = max_paths + 1;
    let st0: SearchState = (seq![], false, false, Set::empty(), false);
    let st = path_search(idx, from, to, max_depth, max_paths);
    lemma_dfs_complete(idx, from, to, max_depth, cap, seq![from], st0);
    if st.0.len() <= max_paths {
        let src = st.0.map_values(keyed_path(idx));
        crate::order::lemma_sort_keyed_props(src);
        let sk = sort_keyed(src);
        assert forall|q: Seq<u64>| simple_path(idx, from, to, max_depth, q) implies #[trigger] sorted_paths(idx, st.0).contains(q) by {
            assert(q.take(1) =~= seq![from]);
            assert(extends(q, seq![from]));
            assert(st.0.contains(q));
            let m = choose|m: int| 0 <= m < st.0.len() && st.0[m] == q;
            assert(src[m] == (path_key(idx, q), q));
            assert(src.to_multiset().count(src[m]) > 0);
            assert(sk.to_multiset().count(src[m]) > 0);
            assert(sk.contains(src[m]));
            let i = choose|i: int| 0 <= i < sk.len() && sk[i] == src[m];
            assert(sorted_paths(idx, st.0)[i] == q);
        }
    }
}

/// A call-paths answer keeps the smallest paths: when no two symbols share a
/// path, no simple call path the answer leaves out (because the count cap
/// was hit) comes before, in path order, one it keeps.
pub proof fn lemma_call_paths_smallest_first(idx: Index, from: u64, to: u64, max_depth: nat, max_paths: nat)
    requires
        paths_distinct(idx),
    ensures
        ({
            let st = path_search(idx, from, to, max_depth, max_paths);
            let sorted = sorted_paths(idx, st.0);
            let kept = if sorted.len() > max_paths { sorted.take(max_paths as int) } else { sorted };
            forall|p: Seq<u64>, q: Seq<u64>|
                #![trigger kept.contains(p), simple_path(idx, from, to, max_depth, q)]
                kept.contains(p) && simple_path(idx, from, to, max_depth, q) && !kept.contains(q)
                    ==> !lex_lt(path_key(idx, q), path_key(idx, p))
        }),
{
    let cap = if max_paths < usize::MAX { max_paths + 1 } else { usize::MAX as nat };
    let st0: SearchState = (seq![], false, false, Set::empty(), false);
    let st = path_search(idx, from, to, max_depth, max_paths);
    assert(st == dfs(idx, from, to, max_depth, cap, seq![from], st0));
    lemma_dfs_first(idx, from, to, max_depth, cap, seq![from], st0);
    let found = st.0;
    let src = found.map_values(keyed_path(idx));
    crate::order::lemma_sort_keyed_props(src);
    let sk = sort_keyed(src);
    let sorted = sorted_paths(idx, found);
    let kept = if sorted.len() > max_paths { sorted.take(max_paths as int) } else { sorted };
    assert forall|p: Seq<u64>, q: Seq<u64>|
        #![trigger kept.contains(p), simple_path(idx, from, to, max_depth, q)]
        kept.contains(p) && simple_path(idx, from, to, max_depth, q) && !kept.contains(q)
        implies !lex_lt(path_key(idx, q), path_key(idx, p)) by {
        let a = choose|a: int| 0 <= a < kept.len() && kept[a] == p;
        assert(sorted[a] == p && sk[a].1 == p);
        assert(sk.to_multiset().count(sk[a]) > 0);
        assert(src.contains(sk[a]));
        let m = choose|m: int| 0 <= m < src.len() && src[m] == sk[a];
        assert(found[m] == p);
        assert(sk[a].0 == path_key(idx, p));
        if found.contains(q) {
            let m2 = choose|m2: int| 0 <= m2 < found.len() && found[m2] == q;
            assert(src[m2] == (path_key(idx, q), q));
            assert(src.to_multiset().count(src[m2]) > 0);
            assert(sk.contains(src[m2]));
            let b = choose|b: int| 0 <= b < sk.len() && sk[b] == src[m2];
            assert(sorted[b] == q);
            if b < kept.len() {
                assert(kept[b] == q);
            }
            assert(a < b);
            assert(!lex_lt(sk[b].0, sk[a].0));
        } else {
            assert(q.take(1) =~= seq![from]);
            assert(extends(q, seq![from]));
            assert(seq![from][0] == from);
            assert(!lex_lt(path_key(idx, q), path_key(idx, found[m])));
        }
    }
}

/// Every path a call-paths answer returns is a simple call path from `from`
/// to `to` of at most `max_depth` edges: cycles can never make the
/// enumeration repeat a node.
pub proof fn lemma_call_paths_simple(idx: Index, from: u64, to: u64, max_depth: nat, max_paths: nat)
    ensures
        ({
            let sorted = sorted_paths(idx, path_search(idx, from, to, max_depth, max_paths).0);
            forall|i: int| 0 <= i < sorted.len() ==> simple_path(idx, from, to, max_depth, #[trigger] sorted[i])
        }),
{
    let cap = if max_paths < usize::MAX { max_paths + 1 } else { usize::MAX as nat };
    let st0: SearchState = (seq![], false, false, Set::empty(), false);
    assert(partial_path(idx, from, max_depth, seq![from]));
    lemma_dfs_simple(idx, from, from, to, max_depth, cap, seq![from], st0);
    let found = path_search(idx, from, to, max_depth, max_paths).0;
    let src = found.map_values(keyed_path(idx));
    crate::order::lemma_sort_keyed_props(src);
    let sk = sort_keyed(src);
    let sorted = sorted_paths(idx, found);
    assert forall|i: int| 0 <= i < sorted.len() implies simple_path(idx, from, to, max_depth, #[trigger] sorted[i]) by {
        assert(sk.to_multiset().count(sk[i]) > 0);
        assert(src.contains(sk[i]));
        let m = choose|m: int| 0 <= m < src.len() && src[m] == sk[i];
        assert(sorted[i] == sk[i].1);
        assert(src[m].1 == found[m]);
    }
}

} // verus!
