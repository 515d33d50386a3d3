//! The loaded index and the query handlers behind the eight tools.
//!
//! This is everything that is not the wire protocol nor the disk: checking a
//! loaded index, running the staleness fingerprint over the current sources,
//! resolving a symbol name to a [`SymbolId`] and calling the queries. The
//! handlers answer with the same envelopes the queries build; the payloads
//! that carry more than one list are moved into their own answer shapes
//! ([`DirectCallsOut`], [`CallPathOut`], [`ImpactOut`]) with every
//! uncertainty field carried across unchanged.

use vstd::prelude::*;

use crate::envelope::{Envelope, StaleInfo};
use crate::fingerprint::{
    diverged_files, divergence, insert_entry, lock_hash, source_map, sorted_texts, texts, SourceFile,
};
use crate::mermaid::{render_neighborhood, rendered};
use crate::query::{
    call_paths_answer, direct_calls_answer, impact_answer, listing_answer, marks, reached,
    reached_marked, resolve_answer, walk_done, CallPath, DirectCalls, Direction, Graph, Impact,
};
use crate::schema::{entries_map, sorted_entries, Index, Manifest, Symbol, SymbolId, SCHEMA_VERSION};
use crate::text::{chars_equal, chars_of, decimal, decimal_of, push_chars, push_str};

verus! {

/// Default cap on candidate and result-set size when the caller gives no
/// `limit`.
pub const DEFAULT_LIMIT: usize = 200;

/// Default maximum edges per enumerated call path.
pub const DEFAULT_MAX_DEPTH: usize = 8;

/// Default cap on the number of enumerated call paths.
pub const DEFAULT_MAX_PATHS: usize = 64;

/// Default undirected radius of the neighbourhood graph.
pub const DEFAULT_GRAPH_DEPTH: usize = 2;

/// Default cap on drawn nodes in the neighbourhood graph.
pub const DEFAULT_NODE_LIMIT: usize = 60;

// ── answer shapes ───────────────────────────────────────────────────────────

/// The direct callers and callees of a symbol.
#[derive(Debug, Clone)]
pub struct DirectCallsOut {
    pub callers: Vec<Symbol>,
    pub callees: Vec<Symbol>,
}

/// One enumerated call path.
#[derive(Debug, Clone)]
pub struct CallPathOut {
    pub nodes: Vec<Symbol>,
}

/// The combined change impact of a symbol.
#[derive(Debug, Clone)]
pub struct ImpactOut {
    pub direct_callers: Vec<Symbol>,
    pub affected_tests: Vec<Symbol>,
}

/// Rebuild an envelope over a new payload, carrying `stale`,
/// `over_approximated`, `truncated`, `total` and `boundary_applies` across
/// unchanged.
fn remap_envelope<A, B>(env: Envelope<A>, data: B) -> (r: Envelope<B>)
    ensures
        r.data == data,
        marks(r) == marks(env),
{
    Envelope {
        data,
        stale: env.stale,
        over_approximated: env.over_approximated,
        truncated: env.truncated,
        total: env.total,
        boundary_applies: env.boundary_applies,
    }
}

// ── parsing a symbol id ─────────────────────────────────────────────────────

/// `c` is an ASCII decimal digit.
pub open spec fn is_digit(c: char) -> bool {
    48 <= (c as u32) <= 57
}

/// The value of a run of decimal digits.
pub open spec fn digits_value(s: Seq<char>) -> nat
    decreases s.len(),
{
    if s.len() == 0 {
        0
    } else {
        digits_value(s.drop_last()) * 10 + ((s.last() as u32) - 48) as nat
    }
}

/// `s` without the one `+` it may begin with.
pub open spec fn unsigned_part(s: Seq<char>) -> Seq<char> {
    if s.len() > 0 && s[0] == '+' {
        s.drop_first()
    } else {
        s
    }
}

/// The value of `d` when it is one or more decimal digits whose value fits
/// in 64 bits.
pub open spec fn digits_u64(d: Seq<char>) -> Option<u64> {
    if d.len() > 0 && (forall|i: int| 0 <= i < d.len() ==> is_digit(#[trigger] d[i])) && digits_value(d) <= u64::MAX {
        Some(digits_value(d) as u64)
    } else {
        None
    }
}

/// What parsing `s` as a `u64` gives: an optional `+`, then one or more
/// decimal digits whose value fits in 64 bits; anything else is no number.
pub open spec fn parsed_u64(s: Seq<char>) -> Option<u64> {
    digits_u64(unsigned_part(s))
}

/// A longer run of digits is worth at least as much as its prefix.
proof fn lemma_digits_grow(s: Seq<char>, i: int)
    requires
        0 <= i <= s.len(),
        forall|k: int| 0 <= k < s.len() ==> is_digit(#[trigger] s[k]),
    ensures
        digits_value(s.take(i)) <= digits_value(s),
    decreases s.len() - i,
{
    if i < s.len() {
        lemma_digits_grow(s, i + 1);
        assert(s.take(i + 1).drop_last() =~= s.take(i));
    } else {
        assert(s.take(i) =~= s);
    }
}

/// Parse a decimal `u64`, as `str::parse` does.
pub fn parse_u64(s: &str) -> (r: Option<u64>)
    ensures
        r == parsed_u64(s@),
{
    let cs = chars_of(s);
    let mut start: usize = 0;
    if cs.len() > 0 && cs[0] == '+' {
        start = 1;
    }
    let ghost d = unsigned_part(s@);
    assert(d =~= cs@.skip(start as int));
    if start >= cs.len() {
        assert(d.len() == 0);
        assert(digits_u64(d) is None);
        assert(d == unsigned_part(s@));
        assert(parsed_u64(s@) is None);
        return None;
    }
    let mut acc: u64 = 0;
    let mut i: usize = start;
    while i < cs.len()
        invariant
            cs@ == s@,
            d == unsigned_part(s@),
            d == cs@.skip(start as int),
            start <= i <= cs@.len(),
            forall|k: int| 0 <= k < i - start ==> is_digit(#[trigger] d[k]),
            acc as nat == digits_value(d.take(i - start)),
        decreases cs.len() - i,
    {
        let c = cs[i];
        assert(d[i - start] == c);
        let u = c as u32;
        if u < 48 || u > 57 {
            assert(!is_digit(d[i - start]));
            return None;
        }
        let digit = (u - 48) as u64;
        proof {
            assert(d.take(i - start + 1).drop_last() =~= d.take(i - start));
            assert(d.take(i - start + 1).last() == c);
            assert(digits_value(d.take(i - start + 1)) == digits_value(d.take(i - start)) * 10 + digit);
        }
        match acc.checked_mul(10) {
            None => {
                proof {
                    assert(forall|k: int| 0 <= k < i - start + 1 ==> is_digit(#[trigger] d[k]));
                    if forall|k: int| 0 <= k < d.len() ==> is_digit(#[trigger] d[k]) {
                        lemma_digits_grow(d, i - start + 1);
                    }
                }
                return None;
            },
            Some(t) => match t.checked_add(digit) {
                None => {
                    proof {
                        if forall|k: int| 0 <= k < d.len() ==> is_digit(#[trigger] d[k]) {
                            lemma_digits_grow(d, i - start + 1);
                        }
                    }
                    return None;
                },
                Some(v) => {
                    acc = v;
                },
            },
        }
        i = i + 1;
    }
    assert(d.take(d.len() as int) =~= d);
    Some(acc)
}

// ── resolution ──────────────────────────────────────────────────────────────

/// The outcome of resolving a symbol name or fragment to a single target.
///
/// An ambiguous name is never guessed: the candidate set comes back instead,
/// and the caller disambiguates with a more specific fragment, the exact
/// fully-qualified path or the numeric id.
pub enum Resolved {
    /// Exactly one symbol matched.
    One(SymbolId),
    /// More than one symbol matched; the envelope carries the candidates.
    Ambiguous(Envelope<Vec<Symbol>>),
    /// No symbol matched; the envelope's data is the empty candidate list.
    NotFound(Envelope<Vec<Symbol>>),
}

/// `s` parses as an id that some symbol carries.
pub open spec fn names_id(idx: Index, s: Seq<char>) -> bool {
    parsed_u64(s) matches Some(v) && exists|i: int| 0 <= i < idx.symbols@.len() && (#[trigger] idx.symbols@[i]).id.0 == v
}

/// The position of the first symbol whose path is exactly `s`, or -1.
pub open spec fn first_path(idx: Index, s: Seq<char>, n: int) -> int
    decreases n,
{
    if n <= 0 {
        -1
    } else if first_path(idx, s, n - 1) >= 0 {
        first_path(idx, s, n - 1)
    } else if idx.symbols@[n - 1].fq_path@ == s {
        n - 1
    } else {
        -1
    }
}

/// Every symbol a fragment search for `s` matches, sorted, before any limit
/// is applied.
pub open spec fn candidates(idx: Index, s: Seq<char>) -> Seq<Symbol> {
    crate::query::materialized(
        idx,
        crate::query::resolve_ids(idx, crate::query::lowered_paths(idx), crate::text::lowercase_of(s)),
    )
}

/// The id a name resolves to, most specific first: a numeric id that names
/// a symbol; else the first symbol whose path is exactly the name; else the
/// one symbol a fragment search matches. None when the search matches no
/// symbol or several: however few candidates an answer may show, an
/// ambiguous name is never resolved.
pub open spec fn resolution(idx: Index, s: Seq<char>) -> Option<u64> {
    let p = first_path(idx, s, idx.symbols@.len() as int);
    if names_id(idx, s) {
        Some(parsed_u64(s)->0)
    } else if p >= 0 {
        Some(idx.symbols@[p].id.0)
    } else if candidates(idx, s).len() == 1 {
        Some(candidates(idx, s)[0].id.0)
    } else {
        None
    }
}

proof fn lemma_first_path(idx: Index, s: Seq<char>, n: int)
    requires
        0 <= n <= idx.symbols@.len(),
    ensures
        -1 <= first_path(idx, s, n) < n,
        first_path(idx, s, n) >= 0 ==> idx.symbols@[first_path(idx, s, n)].fq_path@ == s,
        first_path(idx, s, n) < 0 ==> forall|k: int| 0 <= k < n ==> (#[trigger] idx.symbols@[k]).fq_path@ != s,
    decreases n,
{
    if n > 0 {
        lemma_first_path(idx, s, n - 1);
    }
}

// ── the loaded state ────────────────────────────────────────────────────────

/// The error text for an index stamped with another schema version.
pub open spec fn schema_error(version: u32) -> Seq<char> {
    "index schema version "@ + decimal(version as nat) + " does not match this build's "@ + decimal(
        SCHEMA_VERSION as nat,
    ) + " — re-index with a matching callscope-index"@
}

/// The error text for an index with more edges than this machine can count.
pub open spec fn size_error() -> Seq<char> {
    "index holds more edges than this machine can count"@
}

/// Check that an index carries this build's schema version: one stamped with
/// another is rejected rather than misread.
pub fn schema_check(index: &Index) -> (r: Result<(), String>)
    ensures
        match r {
            Ok(()) => index.schema_version == SCHEMA_VERSION,
            Err(e) => index.schema_version != SCHEMA_VERSION && e@ == schema_error(index.schema_version),
        },
{
    if index.schema_version != SCHEMA_VERSION {
        let mut e = String::new();
        push_str(&mut e, "index schema version ");
        let v = decimal_of(index.schema_version as u64);
        push_chars(&mut e, &v);
        push_str(&mut e, " does not match this build's ");
        let w = decimal_of(SCHEMA_VERSION as u64);
        push_chars(&mut e, &w);
        push_str(&mut e, " — re-index with a matching callscope-index");
        assert(e@ =~= schema_error(index.schema_version));
        return Err(e);
    }
    Ok(())
}

/// The loaded index, its staleness manifest, and the workspace it describes.
pub struct IndexState {
    index: Index,
    manifest: Manifest,
    workspace_root: String,
}

impl IndexState {
    /// The manifest lists its file hashes in path order, and the edges can be
    /// counted twice over without overflow.
    #[verifier::type_invariant]
    spec fn inv(self) -> bool {
        &&& self.manifest.wf()
        &&& self.index.edges@.len() < usize::MAX / 2
    }

    /// The loaded index.
    pub closed spec fn model(self) -> Index {
        self.index
    }

    /// The loaded manifest.
    pub closed spec fn recorded(self) -> Manifest {
        self.manifest
    }

    /// The workspace root.
    pub closed spec fn root(self) -> Seq<char> {
        self.workspace_root@
    }

    /// The loaded index.
    pub fn index(&self) -> (r: &Index)
        ensures
            *r == self.model(),
    {
        &self.index
    }

    /// The loaded manifest.
    pub fn manifest(&self) -> (r: &Manifest)
        ensures
            *r == self.recorded(),
            r.wf(),
    {
        proof {
            use_type_invariant(self);
        }
        &self.manifest
    }

    /// The workspace root, as given at load.
    pub fn workspace_root(&self) -> (r: &str)
        ensures
            r@ == self.root(),
    {
        self.workspace_root.as_str()
    }

    /// Check a parsed index and manifest and hold them for `workspace_root`.
    ///
    /// An index stamped with another schema version than [`SCHEMA_VERSION`]
    /// is rejected rather than misread; so is one with more edges than this
    /// machine can count. The manifest's file hashes are kept as a map (a
    /// later entry for a path replacing an earlier one), listed in path
    /// order.
    pub fn load(index: Index, manifest: Manifest, workspace_root: String) -> (r: Result<IndexState, String>)
        ensures
            match r {
                Ok(s) => {
                    &&& index.schema_version == SCHEMA_VERSION
                    &&& index.edges@.len() < usize::MAX / 2
                    &&& s.model() == index
                    &&& s.root() == workspace_root@
                    &&& s.recorded().hashes() == manifest.hashes()
                    &&& s.recorded().schema_version == manifest.schema_version
                    &&& s.recorded().toolchain == manifest.toolchain
                    &&& s.recorded().cargo_lock_hash == manifest.cargo_lock_hash
                    &&& s.recorded().indexed_at == manifest.indexed_at
                },
                Err(e) => if index.schema_version != SCHEMA_VERSION {
                    e@ == schema_error(index.schema_version)
                } else {
                    index.edges@.len() >= usize::MAX / 2 && e@ == size_error()
                },
            },
    {
        if let Err(e) = schema_check(&index) {
            return Err(e);
        }
        if index.edges.len() >= usize::MAX / 2 {
            let mut e = String::new();
            push_str(&mut e, "index holds more edges than this machine can count");
            assert(e@ =~= size_error());
            return Err(e);
        }
        let Manifest { schema_version, toolchain, file_hashes, cargo_lock_hash, indexed_at } = manifest;
        let ghost given = file_hashes@;
        let mut entries: Vec<(String, String)> = Vec::new();
        let mut rest = file_hashes;
        let mut i: usize = 0;
        let n = rest.len();
        proof {
            assert(entries_map(entries@) =~= entries_map(given.take(0)));
        }
        while rest.len() > 0
            invariant
                n == given.len(),
                i + rest@.len() == n,
                rest@ =~= given.skip(i as int),
                sorted_entries(entries@),
                entries_map(entries@) == entries_map(given.take(i as int)),
            decreases rest.len(),
        {
            let ghost rb = rest@;
            let (k, h) = rest.remove(0);
            assert(rest@ =~= rb.skip(1));
            proof {
                assert(given.take(i + 1).drop_last() =~= given.take(i as int));
                assert(given.take(i + 1).last() == rb[0]);
            }
            insert_entry(&mut entries, k, h);
            i = i + 1;
        }
        assert(given.take(n as int) =~= given);
        let manifest = Manifest { schema_version, toolchain, file_hashes: entries, cargo_lock_hash, indexed_at };
        Ok(IndexState { index, manifest, workspace_root })
    }

    /// Run the staleness fingerprint: which indexed sources diverged from the
    /// manifest, given the workspace's current files and lockfile. `None`
    /// when the index is current.
    pub fn compute_stale(&self, files: &Vec<SourceFile>, cargo_lock: &Option<Vec<u8>>) -> (r: Option<StaleInfo>)
        ensures
            ({
                let d = divergence(self.recorded().hashes(), self.recorded().cargo_lock_hash@, source_map(files@),
                    lock_hash(*cargo_lock));
                match r {
                    None => d == Set::<Seq<char>>::empty(),
                    Some(info) => {
                        &&& sorted_texts(info.diverged_files@)
                        &&& texts(info.diverged_files@).to_set() == d
                        &&& d != Set::<Seq<char>>::empty()
                    },
                }
            }),
    {
        proof {
            use_type_invariant(self);
        }
        let diverged = diverged_files(&self.manifest, files, cargo_lock);
        if diverged.len() == 0 {
            assert(texts(diverged@).to_set() =~= Set::<Seq<char>>::empty());
            None
        } else {
            proof {
                let t = texts(diverged@);
                assert(t.to_set().contains(t[0]));
            }
            Some(StaleInfo::new(diverged))
        }
    }

    // ── resolution ──────────────────────────────────────────────────────────

    /// Resolve a name or fragment to the candidate set.
    pub fn resolve_symbol(&self, query: &str, limit: usize) -> (r: Envelope<Vec<Symbol>>)
        ensures
            resolve_answer(self.model(), query@, limit, r.data@, marks(r)),
            query@.len() == 0 ==> r.total == 0 && r.data@.len() == 0 && !r.truncated,
    {
        Graph::new(&self.index).resolve(query, limit)
    }

    /// Resolve a name to a single id, or hand back the candidates: a numeric
    /// id naming a symbol wins, then an exact fully-qualified path, then the
    /// fragment search (one match resolves, none is not found, several are
    /// ambiguous), its matches counted before `limit` cuts the candidates.
    fn resolve_one(&self, name: &str, limit: usize) -> (r: Resolved)
        ensures
            ({
                let idx = self.model();
                match r {
                    Resolved::One(id) => resolution(idx, name@) == Some(id.0),
                    Resolved::Ambiguous(env) => {
                        &&& resolution(idx, name@) is None
                        &&& resolve_answer(idx, name@, limit, env.data@, marks(env))
                        &&& env.total > 1
                    },
                    Resolved::NotFound(env) => {
                        &&& resolution(idx, name@) is None
                        &&& resolve_answer(idx, name@, limit, env.data@, marks(env))
                        &&& env.data@.len() == 0
                    },
                }
            }),
    {
        let ghost idx = self.index;
        let syms = &self.index.symbols;
        match parse_u64(name) {
            Some(raw) => {
                let mut i: usize = 0;
                while i < syms.len()
                    invariant
                        idx == self.model(),
                        syms@ == idx.symbols@,
                        parsed_u64(name@) == Some(raw),
                        i <= syms@.len(),
                        forall|k: int| 0 <= k < i ==> (#[trigger] syms@[k]).id.0 != raw,
                    decreases syms.len() - i,
                {
                    if syms[i].id.0 == raw {
                        assert(idx.symbols@[i as int].id.0 == raw);
                        assert(names_id(idx, name@));
                        return Resolved::One(SymbolId(raw));
                    }
                    i = i + 1;
                }
            },
            None => {},
        }
        assert(!names_id(idx, name@));
        let target = chars_of(name);
        let mut i: usize = 0;
        proof {
            lemma_first_path(idx, name@, idx.symbols@.len() as int);
        }
        while i < syms.len()
            invariant
                idx == self.model(),
                syms@ == idx.symbols@,
                !names_id(idx, name@),
                target@ == name@,
                i <= syms@.len(),
                forall|k: int| 0 <= k < i ==> (#[trigger] syms@[k]).fq_path@ != name@,
            decreases syms.len() - i,
        {
            let p = chars_of(syms[i].fq_path.as_str());
            if chars_equal(&p, &target) {
                proof {
                    lemma_first_path(idx, name@, idx.symbols@.len() as int);
                    lemma_first_path_at(idx, name@, i as int, idx.symbols@.len() as int);
                    assert(first_path(idx, name@, idx.symbols@.len() as int) == i);
                    assert(!names_id(idx, name@));
                    assert(resolution(idx, name@) == Some(idx.symbols@[i as int].id.0));
                }
                return Resolved::One(syms[i].id);
            }
            i = i + 1;
        }
        let env = Graph::new(&self.index).resolve(name, limit);
        proof {
            lemma_first_path(idx, name@, idx.symbols@.len() as int);
            if first_path(idx, name@, idx.symbols@.len() as int) >= 0 {
                let q = first_path(idx, name@, idx.symbols@.len() as int);
                assert(syms@[q].fq_path@ != name@);
            }
        }
        if env.total == 1 {
            if env.data.len() == 1 {
                Resolved::One(env.data[0].id)
            } else {
                let one = Graph::new(&self.index).resolve(name, 1);
                Resolved::One(one.data[0].id)
            }
        } else if env.total == 0 {
            Resolved::NotFound(env)
        } else {
            Resolved::Ambiguous(env)
        }
    }

    // ── per-capability handlers ─────────────────────────────────────────────

    /// The direct callers and callees of `symbol`.
    pub fn direct_calls(&self, symbol: SymbolId, limit: usize) -> (r: Envelope<DirectCallsOut>)
        ensures
            direct_calls_answer(self.model(), symbol.0, limit, r.data.callers@, r.data.callees@, marks(r)),
    {
        proof {
            use_type_invariant(self);
        }
        let env = Graph::new(&self.index).direct_calls(symbol, limit);
        let ghost m = marks(env);
        let Envelope { data, stale, over_approximated, truncated, total, boundary_applies } = env;
        let DirectCalls { callers, callees } = data;
        Envelope {
            data: DirectCallsOut { callers, callees },
            stale,
            over_approximated,
            truncated,
            total,
            boundary_applies,
        }
    }

    /// Transitive reachability from `symbol` in `dir`.
    pub fn reachability(&self, symbol: SymbolId, dir: Direction, limit: usize) -> (r: Envelope<Vec<Symbol>>)
        ensures
            listing_answer(self.model(), r.data@, marks(r), reached(self.model(), symbol.0, dir),
                walk_done(self.model(), symbol.0, dir), limit),
    {
        Graph::new(&self.index).reachability(symbol, dir, limit)
    }

    /// The simple call paths from `from` to `to`.
    pub fn call_paths(&self, from: SymbolId, to: SymbolId, max_depth: usize, max_paths: usize) -> (r: Envelope<Vec<CallPathOut>>)
        ensures
            call_paths_answer(self.model(), from.0, to.0, max_depth, max_paths,
                r.data@.map_values(|c: CallPathOut| c.nodes@), marks(r)),
    {
        let env = Graph::new(&self.index).call_paths(from, to, max_depth, max_paths);
        let ghost found = env.data@.map_values(|c: CallPath| c.nodes@);
        let Envelope { data, stale, over_approximated, truncated, total, boundary_applies } = env;
        let ghost paths0 = data@;
        let mut rest = data;
        let mut out: Vec<CallPathOut> = Vec::new();
        let mut i: usize = 0;
        let n = rest.len();
        while rest.len() > 0
            invariant
                n == paths0.len(),
                i + rest@.len() == n,
                rest@ =~= paths0.skip(i as int),
                found == paths0.map_values(|c: CallPath| c.nodes@),
                out@.map_values(|c: CallPathOut| c.nodes@) == found.take(i as int),
            decreases rest.len(),
        {
            let ghost rb = rest@;
            let p = rest.remove(0);
            assert(rest@ =~= rb.skip(1));
            assert(p == paths0[i as int]);
            assert(found[i as int] == p.nodes@);
            let ghost ob = out@;
            let ghost pn = p.nodes@;
            out.push(CallPathOut { nodes: p.nodes });
            assert(out@.map_values(|c: CallPathOut| c.nodes@) =~= ob.map_values(|c: CallPathOut| c.nodes@).push(pn));
            assert(found.take(i + 1) =~= found.take(i as int).push(found[i as int]));
            assert(out@.map_values(|c: CallPathOut| c.nodes@) =~= found.take(i + 1));
            i = i + 1;
        }
        assert(found.take(n as int) =~= found);
        Envelope { data: out, stale, over_approximated, truncated, total, boundary_applies }
    }

    /// The tests that transitively reach `symbol`.
    pub fn affected_tests(&self, symbol: SymbolId, limit: usize) -> (r: Envelope<Vec<Symbol>>)
        ensures
            listing_answer(self.model(), r.data@, marks(r), reached_marked(self.model(), symbol.0, Direction::Backward, true),
                walk_done(self.model(), symbol.0, Direction::Backward), limit),
    {
        Graph::new(&self.index).affected_tests(symbol, limit)
    }

    /// The unsafe-using symbols reachable forward from `symbol`.
    pub fn reachable_unsafe(&self, symbol: SymbolId, limit: usize) -> (r: Envelope<Vec<Symbol>>)
        ensures
            listing_answer(self.model(), r.data@, marks(r), reached_marked(self.model(), symbol.0, Direction::Forward, false),
                walk_done(self.model(), symbol.0, Direction::Forward), limit),
    {
        Graph::new(&self.index).reachable_unsafe(symbol, limit)
    }

    /// The combined change impact of `symbol`.
    pub fn impact(&self, symbol: SymbolId, limit: usize) -> (r: Envelope<ImpactOut>)
        ensures
            impact_answer(self.model(), symbol.0, limit, r.data.direct_callers@, r.data.affected_tests@, marks(r)),
    {
        proof {
            use_type_invariant(self);
        }
        let env = Graph::new(&self.index).impact(symbol, limit);
        let Envelope { data, stale, over_approximated, truncated, total, boundary_applies } = env;
        let Impact { direct_callers, affected_tests } = data;
        Envelope {
            data: ImpactOut { direct_callers, affected_tests },
            stale,
            over_approximated,
            truncated,
            total,
            boundary_applies,
        }
    }

    /// The Mermaid neighbourhood graph around `symbol`.
    pub fn neighborhood_graph(&self, symbol: SymbolId, depth: usize, node_limit: usize) -> (r: Envelope<String>)
        ensures
            rendered(self.model(), symbol.0, depth, node_limit, r.data@, marks(r)),
    {
        render_neighborhood(&self.index, symbol, depth, node_limit)
    }

    /// The call paths between two names: both ends are resolved first, and an
    /// end that is ambiguous or unknown answers with its candidates instead,
    /// the `from` end first.
    pub fn call_paths_by_name(&self, from: &str, to: &str, max_depth: usize, max_paths: usize, limit: usize)
        -> (r: Result<Envelope<Vec<CallPathOut>>, Envelope<Vec<Symbol>>>)
        ensures
            ({
                let idx = self.model();
                let f = resolution(idx, from@);
                let t = resolution(idx, to@);
                match r {
                    Ok(env) => f is Some && t is Some && call_paths_answer(idx, f->0, t->0, max_depth, max_paths,
                        env.data@.map_values(|c: CallPathOut| c.nodes@), marks(env)),
                    Err(env) => if f is None {
                        resolve_answer(idx, from@, limit, env.data@, marks(env))
                    } else {
                        t is None && resolve_answer(idx, to@, limit, env.data@, marks(env))
                    },
                }
            }),
    {
        let from_id = match self.resolve_one(from, limit) {
            Resolved::One(id) => id,
            Resolved::Ambiguous(env) => return Err(env),
            Resolved::NotFound(env) => return Err(env),
        };
        let to_id = match self.resolve_one(to, limit) {
            Resolved::One(id) => id,
            Resolved::Ambiguous(env) => return Err(env),
            Resolved::NotFound(env) => return Err(env),
        };
        Ok(self.call_paths(from_id, to_id, max_depth, max_paths))
    }

    /// Resolve a name and run `f` on the single matching id, or hand back the
    /// candidate set when the name is ambiguous or unknown.
    pub fn resolve_then<T, F: FnOnce(SymbolId) -> Envelope<T>>(&self, name: &str, limit: usize, f: F)
        -> (r: Result<Envelope<T>, Envelope<Vec<Symbol>>>)
        requires
            forall|id: SymbolId| f.requires((id,)),
        ensures
            ({
                let idx = self.model();
                match r {
                    Ok(env) => resolution(idx, name@) matches Some(v) && f.ensures((SymbolId(v),), env),
                    Err(env) => resolution(idx, name@) is None && resolve_answer(idx, name@, limit,
                        env.data@, marks(env)),
                }
            }),
    {
        match self.resolve_one(name, limit) {
            Resolved::One(id) => Ok(f(id)),
            Resolved::Ambiguous(env) => Err(env),
            Resolved::NotFound(env) => Err(env),
        }
    }
}

/// The first symbol with path `s` is at `i`, when `i` is the first position
/// holding it.
proof fn lemma_first_path_at(idx: Index, s: Seq<char>, i: int, n: int)
    requires
        0 <= i < n <= idx.symbols@.len(),
        idx.symbols@[i].fq_path@ == s,
        forall|k: int| 0 <= k < i ==> (#[trigger] idx.symbols@[k]).fq_path@ != s,
    ensures
        first_path(idx, s, n) == i,
    decreases n,
{
    if n > i + 1 {
        lemma_first_path_at(idx, s, i, n - 1);
    } else {
        lemma_first_path(idx, s, i);
    }
}

/// An exact path resolves: when the name is no symbol's numeric id but some
/// symbol's fully-qualified path is exactly the name, the name resolves to
/// the first such symbol, however many other paths contain the name.
pub proof fn lemma_exact_path_resolves(idx: Index, name: Seq<char>, i: int)
    requires
        0 <= i < idx.symbols@.len(),
        idx.symbols@[i].fq_path@ == name,
        !names_id(idx, name),
    ensures
        exists|j: int|
            #![trigger idx.symbols@[j]]
            0 <= j <= i && idx.symbols@[j].fq_path@ == name && resolution(idx, name) == Some(idx.symbols@[j].id.0)
                && forall|k: int| 0 <= k < j ==> (#[trigger] idx.symbols@[k]).fq_path@ != name,
{
    let n = idx.symbols@.len() as int;
    lemma_first_path(idx, name, n);
    let j = first_path(idx, name, n);
    if j < 0 {
        assert(idx.symbols@[i].fq_path@ != name);
    }
    lemma_first_path_is_first(idx, name, n);
    if j > i {
        assert(idx.symbols@[i].fq_path@ != name);
    }
    assert(0 <= j <= i && idx.symbols@[j].fq_path@ == name && resolution(idx, name) == Some(idx.symbols@[j].id.0));
}

/// The first symbol with a path is the first: none before it has that path.
proof fn lemma_first_path_is_first(idx: Index, s: Seq<char>, n: int)
    requires
        0 <= n <= idx.symbols@.len(),
    ensures
        first_path(idx, s, n) >= 0 ==> forall|k: int| 0 <= k < first_path(idx, s, n) ==> (#[trigger] idx.symbols@[k]).fq_path@ != s,
    decreases n,
{
    if n > 0 {
        lemma_first_path_is_first(idx, s, n - 1);
        lemma_first_path(idx, s, n - 1);
    }
}

/// A numeric id that names a symbol resolves to that id, whatever paths
/// contain its digits.
pub proof fn lemma_numeric_id_resolves(idx: Index, name: Seq<char>, i: int)
    requires
        0 <= i < idx.symbols@.len(),
        parsed_u64(name) == Some(idx.symbols@[i].id.0),
    ensures
        resolution(idx, name) == Some(idx.symbols@[i].id.0),
{
    assert(names_id(idx, name));
}

/// A name that is neither a symbol's numeric id nor any symbol's exact path
/// resolves by fragment only when exactly one symbol's lowercased path holds
/// the lowercased name, and then to that symbol: an ambiguous name (two or
/// more such symbols) or one matching nothing is never resolved.
pub proof fn lemma_fragment_resolves_only_when_unique(idx: Index, name: Seq<char>)
    requires
        crate::query::ids_distinct(idx),
        !names_id(idx, name),
        forall|k: int| 0 <= k < idx.symbols@.len() ==> (#[trigger] idx.symbols@[k]).fq_path@ != name,
    ensures
        ({
            let needle = crate::text::lowercase_of(name);
            let hit = |x: u64|
                crate::query::known(idx, x) && needle.len() > 0 && crate::text::has_infix(
                    crate::text::lowercase_of(crate::query::path_of(idx, x)),
                    needle,
                );
            &&& resolution(idx, name) matches Some(v) ==> hit(v) && forall|x: u64| #[trigger] hit(x) ==> x == v
            &&& (exists|v: u64| #[trigger] hit(v) && forall|x: u64| #[trigger] hit(x) ==> x == v) ==> resolution(
                idx,
                name,
            ) is Some
        }),
{
    let needle = crate::text::lowercase_of(name);
    let pred = crate::query::matches_needle(idx, needle);
    let c = candidates(idx, name);
    crate::query::lemma_candidates_listed(idx, needle);
    lemma_first_path(idx, name, idx.symbols@.len() as int);
    let hit = |x: u64|
        crate::query::known(idx, x) && needle.len() > 0 && crate::text::has_infix(
            crate::text::lowercase_of(crate::query::path_of(idx, x)),
            needle,
        );
    assert forall|x: u64| #[trigger] hit(x) <==> (crate::query::known(idx, x) && pred(x)) by {}
    if c.len() == 1 {
        let v = c[0].id.0;
        assert(resolution(idx, name) == Some(v));
        assert(pred(v));
        assert forall|x: u64| #[trigger] hit(x) implies x == v by {
            assert(crate::query::known(idx, x) && pred(x));
        }
    } else if c.len() == 0 {
        assert forall|v: u64| #[trigger] hit(v) implies false by {
            assert(crate::query::known(idx, v) && pred(v));
        }
    } else {
        let a = c[0].id.0;
        let b = c[1].id.0;
        assert(crate::order::lex_lt(crate::query::sym_key(c[0]), crate::query::sym_key(c[1])));
        crate::order::lemma_lex_irreflexive(crate::query::sym_key(c[0]));
        assert(c[0] == crate::query::symbol_of(idx, a));
        assert(c[1] == crate::query::symbol_of(idx, b));
        assert(a != b);
        assert(hit(a) && hit(b));
        assert forall|v: u64| #[trigger] hit(v) implies !(forall|x: u64| #[trigger] hit(x) ==> x == v) by {
            if v == a {
                assert(hit(b));
            } else {
                assert(hit(a));
            }
        }
    }
}

/// Attach staleness to an answer, when the check found any: the one step
/// every answer takes before it is sent.
pub fn with_staleness<T>(env: Envelope<T>, stale: Option<StaleInfo>) -> (r: Envelope<T>)
    ensures
        r.data == env.data,
        r.over_approximated == env.over_approximated,
        r.truncated == env.truncated,
        r.total == env.total,
        r.boundary_applies == env.boundary_applies,
        r.stale == (match stale {
            Some(info) => Some(info),
            None => env.stale,
        }),
{
    match stale {
        Some(info) => env.with_stale(info),
        None => env,
    }
}

} // verus!
