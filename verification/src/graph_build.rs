//! The part of the call graph that one crate compilation can see, and how it
//! is built.
//!
//! Symbols are kept once per fully-qualified path (the first one recorded
//! stays): keying by path rather than by id keeps two distinct paths that
//! happen to share a hash, so the collision can surface when fragments are
//! merged. Edges are kept once per (source, target, kind), and a call from a
//! symbol to itself (which folding a closure body into its owner can produce)
//! is dropped.
//!
//! The [`Builder`] walks the crate's functions from its non-generic roots:
//! each resolved call becomes a static edge to the concrete callee, a `dyn`
//! (or unresolved trait-method) call is widened to a virtual edge to every
//! implementor of the trait in the crate, and the bodies of closures and
//! coroutines found in a function's local types are folded into that
//! function. The compiler's answers (how a call resolved, which impls exist,
//! what a type is built from) are handed to it as plain facts.

use std::collections::{HashSet, VecDeque};

use vstd::prelude::*;

use crate::fingerprint::texts;
use crate::schema::{path_id, Characteristics, Edge, EdgeKind, Span, Symbol, SymbolId};
use crate::text::{chars_equal, chars_of, ends_with_chars};

verus! {

/// The symbols and edges extracted from one crate compilation.
#[derive(Debug)]
pub struct Fragment {
    pub symbols: Vec<Symbol>,
    pub edges: Vec<Edge>,
}

impl Fragment {
    /// An empty fragment.
    pub fn new() -> (r: Fragment)
        ensures
            r.symbols@.len() == 0,
            r.edges@.len() == 0,
    {
        Fragment { symbols: Vec::new(), edges: Vec::new() }
    }

    /// No two symbols share a path, no edge is recorded twice, and no edge
    /// leads from a symbol to itself.
    pub open spec fn wf(&self) -> bool {
        &&& forall|i: int, j: int|
            0 <= i < j < self.symbols@.len() ==> (#[trigger] self.symbols@[i]).fq_path@ != (#[trigger] self.symbols@[j]).fq_path@
        &&& self.edges@.no_duplicates()
        &&& forall|i: int| 0 <= i < self.edges@.len() ==> (#[trigger] self.edges@[i]).from != self.edges@[i].to
    }

    /// Record a symbol, unless one with the same path is already recorded.
    pub fn add_symbol(&mut self, sym: Symbol)
        requires
            old(self).wf(),
        ensures
            final(self).wf(),
            final(self).edges == old(self).edges,
            final(self).symbols@ == (if exists|i: int| 0 <= i < old(self).symbols@.len() && (#[trigger] old(self).symbols@[i]).fq_path@ == sym.fq_path@ {
                old(self).symbols@
            } else {
                old(self).symbols@.push(sym)
            }),
    {
        let path = chars_of(sym.fq_path.as_str());
        let mut i: usize = 0;
        while i < self.symbols.len()
            invariant
                self.wf(),
                self.symbols@ == old(self).symbols@,
                self.edges == old(self).edges,
                path@ == sym.fq_path@,
                i <= self.symbols@.len(),
                forall|k: int| 0 <= k < i ==> (#[trigger] self.symbols@[k]).fq_path@ != sym.fq_path@,
            decreases self.symbols.len() - i,
        {
            let p = chars_of(self.symbols[i].fq_path.as_str());
            if chars_equal(&p, &path) {
                return;
            }
            i = i + 1;
        }
        self.symbols.push(sym);
    }

    /// Record the edge `from -> to` of `kind`, unless it leads from a symbol
    /// to itself or is already recorded.
    pub fn add_edge(&mut self, from: SymbolId, to: SymbolId, kind: EdgeKind)
        requires
            old(self).wf(),
        ensures
            final(self).wf(),
            final(self).symbols == old(self).symbols,
            final(self).edges@ == (if from == to || old(self).edges@.contains(Edge { from, to, kind }) {
                old(self).edges@
            } else {
                old(self).edges@.push(Edge { from, to, kind })
            }),
    {
        if from == to {
            return;
        }
        let e = Edge { from, to, kind };
        let mut i: usize = 0;
        while i < self.edges.len()
            invariant
                self.wf(),
                self.edges@ == old(self).edges@,
                self.symbols == old(self).symbols,
                e == (Edge { from, to, kind }),
                from != to,
                i <= self.edges@.len(),
                forall|k: int| 0 <= k < i ==> self.edges@[k] != e,
            decreases self.edges.len() - i,
        {
            let x = self.edges[i];
            if x.from == from && x.to == to && x.kind == kind {
                assert(self.edges@[i as int] == e);
                return;
            }
            i = i + 1;
        }
        let ghost before = self.edges@;
        assert(!before.contains(e));
        self.edges.push(e);
        assert forall|a: int, b: int| 0 <= a < self.edges@.len() && 0 <= b < self.edges@.len() && a != b implies self.edges@[a]
            != self.edges@[b] by {
            if a == before.len() {
                assert(self.edges@[b] == before[b]);
            } else if b == before.len() {
                assert(self.edges@[a] == before[a]);
            } else {
                assert(self.edges@[a] == before[a] && self.edges@[b] == before[b]);
            }
        }
    }
}


/// A symbol with its unsafety flag raised.
pub open spec fn flagged_unsafe(s: Symbol) -> Symbol {
    Symbol { characteristics: Characteristics { uses_unsafe: true, ..s.characteristics }, ..s }
}

impl Fragment {
    /// Raise the unsafety flag of the symbol recorded for `path`, if any.
    pub fn mark_unsafe(&mut self, path: &str)
        requires
            old(self).wf(),
        ensures
            final(self).wf(),
            final(self).edges == old(self).edges,
            final(self).symbols@ == old(self).symbols@.map_values(
                |s: Symbol| if s.fq_path@ == path@ { flagged_unsafe(s) } else { s },
            ),
    {
        let p = chars_of(path);
        let ghost before = self.symbols@;
        let mut i: usize = 0;
        while i < self.symbols.len()
            invariant
                self.wf(),
                self.edges == old(self).edges,
                before == old(self).symbols@,
                p@ == path@,
                i <= self.symbols@.len(),
                self.symbols@.len() == before.len(),
                forall|k: int| 0 <= k < self.symbols@.len() ==> (#[trigger] self.symbols@[k]).fq_path == before[k].fq_path,
                forall|k: int| 0 <= k < i ==> #[trigger] self.symbols@[k] == (if before[k].fq_path@ == path@ {
                    flagged_unsafe(before[k])
                } else {
                    before[k]
                }),
                forall|k: int| i <= k < self.symbols@.len() ==> #[trigger] self.symbols@[k] == before[k],
            decreases self.symbols.len() - i,
        {
            let q = chars_of(self.symbols[i].fq_path.as_str());
            if chars_equal(&q, &p) {
                let mut sym = self.symbols[i].duplicate();
                sym.characteristics.uses_unsafe = true;
                self.symbols.set(i, sym);
            }
            i = i + 1;
        }
        assert(self.symbols@ =~= before.map_values(
            |s: Symbol| if s.fq_path@ == path@ { flagged_unsafe(s) } else { s },
        ));
    }
}

/// What the compiler reports about one function instance.
pub struct InstanceFacts {
    /// The instance's fully-qualified (specialized) path.
    pub name: String,
    /// It is an ordinary function item, not a shim, intrinsic or vtable slot.
    pub is_item: bool,
    /// It has a body to walk.
    pub has_body: bool,
    /// It is defined in the crate being compiled.
    pub is_local: bool,
}

/// Walks the call graph of one crate compilation: instances are queued once
/// they are found, walked once each, and their calls recorded into a
/// [`Fragment`]. `H` is how the compiler refers to an instance.
pub struct Builder<H> {
    fragment: Fragment,
    /// Paths of the instances already walked.
    walked: Vec<String>,
    /// Closure and coroutine definitions already folded into their owner.
    folded: HashSet<u64>,
    /// Instances waiting to be walked, oldest first.
    queue: VecDeque<H>,
    /// Paths of every test function of the crate.
    test_paths: Vec<String>,
}

/// A queued instance is walked only when it is a function item with a body
/// that has not been walked yet.
pub open spec fn walkable(facts: InstanceFacts, walked: Seq<Seq<char>>) -> bool {
    facts.is_item && facts.has_body && !walked.contains(facts.name@)
}

/// The harness describes each test by a constant whose type is
/// `test::TestDescAndFn` and whose path is the test function's own.
pub open spec fn is_test_marker(is_const: bool, ty_path: Option<Seq<char>>) -> bool {
    &&& is_const
    &&& ty_path matches Some(t) && "test::TestDescAndFn"@.is_suffix_of(t)
}

/// Whether `v` holds a string with the characters `s`.
fn has_text(v: &Vec<String>, s: &Vec<char>) -> (r: bool)
    ensures
        r == texts(v@).contains(s@),
{
    let mut i: usize = 0;
    while i < v.len()
        invariant
            i <= v@.len(),
            forall|k: int| 0 <= k < i ==> v@[k]@ != s@,
        decreases v.len() - i,
    {
        let c = chars_of(v[i].as_str());
        if chars_equal(&c, s) {
            assert(texts(v@)[i as int] == s@);
            return true;
        }
        i = i + 1;
    }
    assert forall|k: int| 0 <= k < texts(v@).len() implies texts(v@)[k] != s@ by {
        assert(texts(v@)[k] == v@[k]@);
    }
    false
}

impl<H> Builder<H> {
    /// The symbols and edges recorded so far.
    pub closed spec fn recorded(&self) -> Fragment {
        self.fragment
    }

    /// Paths of the instances walked so far.
    pub closed spec fn walked_paths(&self) -> Seq<Seq<char>> {
        texts(self.walked@)
    }

    /// Closure and coroutine definitions folded so far.
    pub closed spec fn folded_keys(&self) -> Set<u64> {
        self.folded@
    }

    /// Instances waiting to be walked, oldest first.
    pub closed spec fn queued(&self) -> Seq<H> {
        self.queue@
    }

    /// Paths of the test functions found so far.
    pub closed spec fn test_names(&self) -> Seq<Seq<char>> {
        texts(self.test_paths@)
    }

    /// The recorded symbols and edges keep their invariant.
    pub closed spec fn wf(&self) -> bool {
        self.fragment.wf()
    }

    /// A builder that has seen nothing yet.
    pub fn new() -> (b: Builder<H>)
        ensures
            b.wf(),
            b.recorded().symbols@.len() == 0,
            b.recorded().edges@.len() == 0,
            b.walked_paths().len() == 0,
            b.folded_keys() == Set::<u64>::empty(),
            b.queued().len() == 0,
            b.test_names().len() == 0,
    {
        Builder {
            fragment: Fragment::new(),
            walked: Vec::new(),
            folded: HashSet::new(),
            queue: VecDeque::new(),
            test_paths: Vec::new(),
        }
    }

    /// Look at one item of the crate: a test-marker constant contributes its
    /// path to the test functions.
    pub fn note_item(&mut self, is_const: bool, ty_path: Option<&str>, path: String)
        ensures
            final(self).recorded() == old(self).recorded(),
            final(self).walked_paths() == old(self).walked_paths(),
            final(self).folded_keys() == old(self).folded_keys(),
            final(self).queued() == old(self).queued(),
            final(self).test_names() == (if is_test_marker(is_const, match ty_path {
                Some(t) => Some(t@),
                None => None,
            }) {
                old(self).test_names().push(path@)
            } else {
                old(self).test_names()
            }),
    {
        if !is_const {
            return;
        }
        let t = match ty_path {
            Some(t) => t,
            None => {
                return;
            },
        };
        let tc = chars_of(t);
        let suffix = chars_of("test::TestDescAndFn");
        if ends_with_chars(&tc, &suffix) {
            self.test_paths.push(path);
            assert(self.test_names() =~= old(self).test_names().push(path@));
        }
    }

    /// Whether `path` is a test function: the harness left a marker for it.
    pub fn is_test(&self, path: &str) -> (r: bool)
        ensures
            r == self.test_names().contains(path@),
    {
        let p = chars_of(path);
        has_text(&self.test_paths, &p)
    }

    /// Queue an instance for walking, unless it is no function item, has no
    /// body, or was walked already.
    pub fn enqueue(&mut self, inst: H, facts: &InstanceFacts)
        ensures
            final(self).recorded() == old(self).recorded(),
            final(self).walked_paths() == old(self).walked_paths(),
            final(self).folded_keys() == old(self).folded_keys(),
            final(self).test_names() == old(self).test_names(),
            final(self).queued() == (if walkable(*facts, old(self).walked_paths()) {
                old(self).queued().push(inst)
            } else {
                old(self).queued()
            }),
    {
        if !facts.is_item || !facts.has_body {
            return;
        }
        let n = chars_of(facts.name.as_str());
        if has_text(&self.walked, &n) {
            return;
        }
        self.queue.push_back(inst);
    }

    /// The oldest queued instance, taken off the queue.
    pub fn next_instance(&mut self) -> (r: Option<H>)
        ensures
            final(self).recorded() == old(self).recorded(),
            final(self).walked_paths() == old(self).walked_paths(),
            final(self).folded_keys() == old(self).folded_keys(),
            final(self).test_names() == old(self).test_names(),
            old(self).queued().len() == 0 ==> r is None && final(self).queued() == old(self).queued(),
            old(self).queued().len() > 0 ==> r == Some(old(self).queued()[0]) && final(self).queued()
                == old(self).queued().drop_first(),
    {
        let r = self.queue.pop_front();
        assert(old(self).queue@.len() > 0 ==> old(self).queue@.subrange(1, old(self).queue@.len() as int)
            =~= old(self).queue@.drop_first());
        r
    }

    /// Start walking the instance at `path`: false when it was walked
    /// already, else it is marked as walked.
    pub fn begin_walk(&mut self, path: &str) -> (r: bool)
        ensures
            r == !old(self).walked_paths().contains(path@),
            final(self).walked_paths() == (if r { old(self).walked_paths().push(path@) } else { old(self).walked_paths() }),
            final(self).recorded() == old(self).recorded(),
            final(self).folded_keys() == old(self).folded_keys(),
            final(self).queued() == old(self).queued(),
            final(self).test_names() == old(self).test_names(),
    {
        let p = chars_of(path);
        if has_text(&self.walked, &p) {
            return false;
        }
        let s = string_of_str(path);
        self.walked.push(s);
        assert(self.walked_paths() =~= old(self).walked_paths().push(path@));
        true
    }
}

/// Where the first `::` at or after `i` begins, or the end of `s`.
pub open spec fn segment_end(s: Seq<char>, i: int) -> int
    decreases s.len() - i,
{
    if i < 0 || i + 2 > s.len() {
        s.len() as int
    } else if s[i] == ':' && s[i + 1] == ':' {
        i
    } else {
        segment_end(s, i + 1)
    }
}

/// The part of a path before its first `::` (the whole path when it has none).
pub open spec fn first_segment(s: Seq<char>) -> Seq<char> {
    s.take(segment_end(s, 0))
}

proof fn lemma_segment_end_bounds(s: Seq<char>, i: int)
    requires
        0 <= i,
    ensures
        i <= s.len() ==> i <= segment_end(s, i) <= s.len(),
        i > s.len() ==> segment_end(s, i) == s.len(),
    decreases s.len() - i,
{
    if i + 2 <= s.len() && !(s[i] == ':' && s[i + 1] == ':') {
        lemma_segment_end_bounds(s, i + 1);
    }
}

/// The edges after recording `e`: unchanged when `e` is a call from a symbol
/// to itself or is already there, else `e` appended.
pub open spec fn with_edge(edges: Seq<Edge>, e: Edge) -> Seq<Edge> {
    if e.from == e.to || edges.contains(e) {
        edges
    } else {
        edges.push(e)
    }
}

/// The queue after offering it `inst`, given what was walked.
pub open spec fn with_queued<H>(queue: Seq<H>, walked: Seq<Seq<char>>, inst: H, facts: InstanceFacts) -> Seq<H> {
    if walkable(facts, walked) {
        queue.push(inst)
    } else {
        queue
    }
}

/// What the compiler reports about a function a symbol is built for.
pub struct SymbolFacts {
    /// The crate the function belongs to, when the compiler names it.
    pub crate_name: Option<String>,
    pub span: Span,
    pub public: bool,
    pub is_async: bool,
    /// Its definition has to be monomorphized.
    pub generic: bool,
    /// It is an `extern`/FFI item.
    pub foreign: bool,
    /// Its own signature is `unsafe`.
    pub unsafe_sig: bool,
}

/// How a call's callee resolved.
pub enum CallOutcome<H> {
    /// To one concrete, non-virtual instance.
    Concrete(H, InstanceFacts),
    /// To a vtable slot: a `dyn` call.
    Virtual,
    /// Not to one instance; `trait_method` says whether the callee is a
    /// trait method.
    Unresolved { trait_method: bool },
}

/// One associated item of a trait impl of the crate: its name when it is a
/// function, and the instance it resolves to without generic arguments.
pub struct ImplFn<H> {
    pub name: Option<String>,
    pub resolved: Option<(H, InstanceFacts)>,
}

/// One trait impl of the crate: the trait it implements and its items.
pub struct TraitImpl<H> {
    pub trait_def: u64,
    pub fns: Vec<ImplFn<H>>,
}

/// The resolved functions named `method` among `fns`, in order.
pub open spec fn fn_targets<H>(method: Seq<char>, fns: Seq<ImplFn<H>>) -> Seq<(H, InstanceFacts)>
    decreases fns.len(),
{
    if fns.len() == 0 {
        seq![]
    } else {
        let f = fns.last();
        fn_targets(method, fns.drop_last()) + (if f.name matches Some(n) && n@ == method && f.resolved is Some {
            seq![f.resolved->0]
        } else {
            seq![]
        })
    }
}

/// The resolved functions named `method` in every impl of the trait
/// `trait_def`, impl by impl: the implementors a `dyn` call may reach.
pub open spec fn impl_targets<H>(method: Seq<char>, trait_def: u64, impls: Seq<TraitImpl<H>>) -> Seq<(H, InstanceFacts)>
    decreases impls.len(),
{
    if impls.len() == 0 {
        seq![]
    } else {
        impl_targets(method, trait_def, impls.drop_last()) + (if impls.last().trait_def == trait_def {
            fn_targets(method, impls.last().fns@)
        } else {
            seq![]
        })
    }
}

/// The edges after recording a virtual call from `owner` to each target.
pub open spec fn edges_after<H>(edges: Seq<Edge>, owner: SymbolId, ts: Seq<(H, InstanceFacts)>) -> Seq<Edge>
    decreases ts.len(),
{
    if ts.len() == 0 {
        edges
    } else {
        with_edge(
            edges_after(edges, owner, ts.drop_last()),
            Edge { from: owner, to: SymbolId(path_id(ts.last().1.name@)), kind: EdgeKind::Virtual },
        )
    }
}

/// The queue after offering it each local target.
pub open spec fn queue_after<H>(queue: Seq<H>, walked: Seq<Seq<char>>, ts: Seq<(H, InstanceFacts)>) -> Seq<H>
    decreases ts.len(),
{
    if ts.len() == 0 {
        queue
    } else {
        let q = queue_after(queue, walked, ts.drop_last());
        if ts.last().1.is_local {
            with_queued(q, walked, ts.last().0, ts.last().1)
        } else {
            q
        }
    }
}

/// The key a closure or coroutine definition is folded under: its crate
/// number in the high 32 bits, its index in the low 32.
pub open spec fn fold_key(krate: u32, index: u32) -> u64 {
    (krate as int * 0x1_0000_0000 + index as int) as u64
}

/// The key of the definition `(krate, index)`: its crate number in the high
/// 32 bits and its index in the low 32.
pub fn def_key(krate: u32, index: u32) -> (k: u64)
    ensures
        k == fold_key(krate, index),
{
    let key: u64 = ((krate as u64) << 32u64) | (index as u64);
    assert(key == fold_key(krate, index)) by {
        assert(((krate as u64) << 32u64) | (index as u64) == (krate as u64) * 0x1_0000_0000u64 + (index as u64)
            && (krate as u64) * 0x1_0000_0000u64 + (index as u64) == krate as int * 0x1_0000_0000 + index as int)
            by (bit_vector);
    }
    key
}

impl<H> Builder<H> {
    /// The symbol for the function at `path`: its id derived from the path,
    /// the crate the compiler names (else the path's first segment), and the
    /// characteristics reported, tested against the harness's markers.
    pub fn symbol_for(&self, path: &str, facts: SymbolFacts) -> (sym: Symbol)
        ensures
            sym.id.0 == path_id(path@),
            sym.fq_path@ == path@,
            sym.crate_name@ == (match facts.crate_name {
                Some(c) => c@,
                None => first_segment(path@),
            }),
            sym.span == facts.span,
            sym.characteristics == (Characteristics {
                test: self.test_names().contains(path@),
                public: facts.public,
                is_async: facts.is_async,
                generic: facts.generic,
                foreign: facts.foreign,
                uses_unsafe: facts.unsafe_sig,
            }),
    {
        let id = SymbolId::from_fq_path(path);
        let crate_name = match facts.crate_name {
            Some(c) => c,
            None => first_segment_of(path),
        };
        let test = self.is_test(path);
        Symbol {
            id,
            fq_path: string_of_str(path),
            crate_name,
            span: facts.span,
            characteristics: Characteristics {
                test,
                public: facts.public,
                is_async: facts.is_async,
                generic: facts.generic,
                foreign: facts.foreign,
                uses_unsafe: facts.unsafe_sig,
            },
        }
    }

    /// Record the symbol of a walked instance, unless one with its path is
    /// recorded already.
    pub fn record_symbol(&mut self, sym: Symbol)
        requires
            old(self).wf(),
        ensures
            final(self).wf(),
            final(self).recorded().edges == old(self).recorded().edges,
            final(self).recorded().symbols@ == (if exists|i: int|
                0 <= i < old(self).recorded().symbols@.len() && (#[trigger] old(self).recorded().symbols@[i]).fq_path@
                    == sym.fq_path@ {
                old(self).recorded().symbols@
            } else {
                old(self).recorded().symbols@.push(sym)
            }),
            final(self).walked_paths() == old(self).walked_paths(),
            final(self).folded_keys() == old(self).folded_keys(),
            final(self).queued() == old(self).queued(),
            final(self).test_names() == old(self).test_names(),
    {
        self.fragment.add_symbol(sym);
    }

    /// The walked body of the instance at `path` uses `unsafe`: raise the
    /// flag on its symbol.
    pub fn note_unsafe(&mut self, path: &str)
        requires
            old(self).wf(),
        ensures
            final(self).wf(),
            final(self).recorded().edges == old(self).recorded().edges,
            final(self).recorded().symbols@ == old(self).recorded().symbols@.map_values(
                |s: Symbol| if s.fq_path@ == path@ { flagged_unsafe(s) } else { s },
            ),
            final(self).walked_paths() == old(self).walked_paths(),
            final(self).folded_keys() == old(self).folded_keys(),
            final(self).queued() == old(self).queued(),
            final(self).test_names() == old(self).test_names(),
    {
        self.fragment.mark_unsafe(path);
    }

    /// Start folding the closure or coroutine definition `(krate, index)`
    /// into its owner: false when it was folded already.
    pub fn begin_fold(&mut self, krate: u32, index: u32) -> (r: bool)
        ensures
            r == !old(self).folded_keys().contains(fold_key(krate, index)),
            final(self).folded_keys() == old(self).folded_keys().insert(fold_key(krate, index)),
            final(self).recorded() == old(self).recorded(),
            final(self).walked_paths() == old(self).walked_paths(),
            final(self).queued() == old(self).queued(),
            final(self).test_names() == old(self).test_names(),
    {
        let key = def_key(krate, index);
        proof {
            broadcast use vstd::std_specs::hash::group_hash_axioms;
        }
        self.folded.insert(key)
    }

    /// Record one call made by `owner`'s body. A callee whose own signature
    /// is `unsafe` shows the body uses `unsafe`. A concrete function item
    /// gets a static edge and, when local, is queued; the answer says whether
    /// the call must be widened to every implementor of its trait instead (a
    /// `dyn` call, or an unresolved trait-method call).
    pub fn handle_call(&mut self, owner: SymbolId, unsafe_sig: bool, outcome: CallOutcome<H>, uses_unsafe: &mut bool)
        -> (widen: bool)
        requires
            old(self).wf(),
        ensures
            final(self).wf(),
            *final(uses_unsafe) == (*old(uses_unsafe) || unsafe_sig),
            final(self).recorded().symbols == old(self).recorded().symbols,
            final(self).walked_paths() == old(self).walked_paths(),
            final(self).folded_keys() == old(self).folded_keys(),
            final(self).test_names() == old(self).test_names(),
            match outcome {
                CallOutcome::Concrete(inst, facts) => {
                    &&& !widen
                    &&& final(self).recorded().edges@ == (if facts.is_item {
                        with_edge(old(self).recorded().edges@,
                            Edge { from: owner, to: SymbolId(path_id(facts.name@)), kind: EdgeKind::Static })
                    } else {
                        old(self).recorded().edges@
                    })
                    &&& final(self).queued() == (if facts.is_item && facts.is_local {
                        with_queued(old(self).queued(), old(self).walked_paths(), inst, facts)
                    } else {
                        old(self).queued()
                    })
                },
                CallOutcome::Virtual => widen && final(self).recorded() == old(self).recorded()
                    && final(self).queued() == old(self).queued(),
                CallOutcome::Unresolved { trait_method } => widen == trait_method
                    && final(self).recorded() == old(self).recorded() && final(self).queued() == old(self).queued(),
            },
    {
        if unsafe_sig {
            *uses_unsafe = true;
        }
        match outcome {
            CallOutcome::Concrete(inst, facts) => {
                if facts.is_item {
                    let to = SymbolId::from_fq_path(facts.name.as_str());
                    self.fragment.add_edge(owner, to, EdgeKind::Static);
                    if facts.is_local {
                        self.enqueue(inst, &facts);
                    }
                }
                false
            },
            CallOutcome::Virtual => true,
            CallOutcome::Unresolved { trait_method } => trait_method,
        }
    }

    /// The symbols and edges recorded.
    pub fn into_fragment(self) -> (f: Fragment)
        ensures
            f == self.recorded(),
    {
        self.fragment
    }
}

impl<H> Builder<H> {
    /// Offer one item of the crate as a root: a function whose definition
    /// needs no monomorphization and that forms an instance is queued (as
    /// [`Builder::enqueue`] decides). Generic definitions enter the graph
    /// only as the concrete instances their callers resolve.
    pub fn seed_root(&mut self, is_fn: bool, generic: bool, root: Option<(H, InstanceFacts)>)
        ensures
            final(self).recorded() == old(self).recorded(),
            final(self).walked_paths() == old(self).walked_paths(),
            final(self).folded_keys() == old(self).folded_keys(),
            final(self).test_names() == old(self).test_names(),
            final(self).queued() == (match root {
                Some(r) => if is_fn && !generic {
                    with_queued(old(self).queued(), old(self).walked_paths(), r.0, r.1)
                } else {
                    old(self).queued()
                },
                None => old(self).queued(),
            }),
    {
        if !is_fn || generic {
            return;
        }
        match root {
            Some(r) => self.enqueue(r.0, &r.1),
            None => {},
        }
    }
}

impl<H: Copy> Builder<H> {
    /// Widen a `dyn` (or unresolved trait-method) call made by `owner` to
    /// every implementor: for each impl of the trait `trait_def`, each of its
    /// functions named `method` that resolves gets a virtual edge from
    /// `owner` and, when local, is queued. Nothing happens when the callee is
    /// no trait function (`method` or `trait_def` absent).
    pub fn emit_virtual(&mut self, owner: SymbolId, method: Option<&str>, trait_def: Option<u64>, impls: &Vec<TraitImpl<H>>)
        requires
            old(self).wf(),
        ensures
            final(self).wf(),
            final(self).recorded().symbols == old(self).recorded().symbols,
            final(self).walked_paths() == old(self).walked_paths(),
            final(self).folded_keys() == old(self).folded_keys(),
            final(self).test_names() == old(self).test_names(),
            match (method, trait_def) {
                (Some(m), Some(t)) => {
                    &&& final(self).recorded().edges@ == edges_after(old(self).recorded().edges@, owner,
                        impl_targets(m@, t, impls@))
                    &&& final(self).queued() == queue_after(old(self).queued(), old(self).walked_paths(),
                        impl_targets(m@, t, impls@))
                },
                _ => final(self).recorded() == old(self).recorded() && final(self).queued() == old(self).queued(),
            },
    {
        let m = match method {
            Some(m) => m,
            None => {
                return;
            },
        };
        let t = match trait_def {
            Some(t) => t,
            None => {
                return;
            },
        };
        let mc = chars_of(m);
        let ghost e0 = self.fragment.edges@;
        let ghost q0 = self.queue@;
        let ghost w0 = self.walked_paths();
        let mut i: usize = 0;
        while i < impls.len()
            invariant
                self.wf(),
                i <= impls@.len(),
                mc@ == m@,
                self.fragment.symbols == old(self).fragment.symbols,
                texts(self.walked@) == texts(old(self).walked@),
                self.folded@ == old(self).folded@,
                texts(self.test_paths@) == texts(old(self).test_paths@),
                e0 == old(self).fragment.edges@,
                q0 == old(self).queue@,
                w0 == texts(old(self).walked@),
                self.fragment.edges@ == edges_after(e0, owner, impl_targets(m@, t, impls@.take(i as int))),
                self.queue@ == queue_after(q0, w0, impl_targets(m@, t, impls@.take(i as int))),
            decreases impls.len() - i,
        {
            let imp = &impls[i];
            let ghost before = impl_targets(m@, t, impls@.take(i as int));
            assert(impls@.take(i + 1).drop_last() =~= impls@.take(i as int));
            if imp.trait_def == t {
                let mut j: usize = 0;
                while j < imp.fns.len()
                    invariant
                        self.wf(),
                        j <= imp.fns@.len(),
                        mc@ == m@,
                        self.fragment.symbols == old(self).fragment.symbols,
                        texts(self.walked@) == texts(old(self).walked@),
                        self.folded@ == old(self).folded@,
                        texts(self.test_paths@) == texts(old(self).test_paths@),
                        w0 == texts(old(self).walked@),
                        self.fragment.edges@ == edges_after(e0, owner, before + fn_targets(m@, imp.fns@.take(j as int))),
                        self.queue@ == queue_after(q0, w0, before + fn_targets(m@, imp.fns@.take(j as int))),
                    decreases imp.fns.len() - j,
                {
                    let f = &imp.fns[j];
                    let ghost acc = before + fn_targets(m@, imp.fns@.take(j as int));
                    assert(imp.fns@.take(j + 1).drop_last() =~= imp.fns@.take(j as int));
                    let hit = match &f.name {
                        Some(n) => {
                            let nc = chars_of(n.as_str());
                            chars_equal(&nc, &mc)
                        },
                        None => false,
                    };
                    if hit {
                        match &f.resolved {
                            Some(pair) => {
                                let ghost x = (pair.0, pair.1);
                                assert(fn_targets(m@, imp.fns@.take(j + 1)) =~= fn_targets(m@, imp.fns@.take(j as int)).push(x));
                                assert(acc.push(x) =~= before + fn_targets(m@, imp.fns@.take(j + 1)));
                                assert(acc.push(x).drop_last() =~= acc);
                                let to = SymbolId::from_fq_path(pair.1.name.as_str());
                                self.fragment.add_edge(owner, to, EdgeKind::Virtual);
                                if pair.1.is_local {
                                    self.enqueue(pair.0, &pair.1);
                                }
                            },
                            None => {
                                assert(fn_targets(m@, imp.fns@.take(j + 1)) =~= fn_targets(m@, imp.fns@.take(j as int)));
                            },
                        }
                    } else {
                        assert(fn_targets(m@, imp.fns@.take(j + 1)) =~= fn_targets(m@, imp.fns@.take(j as int)));
                    }
                    j = j + 1;
                }
                assert(imp.fns@.take(imp.fns@.len() as int) =~= imp.fns@);
                assert(impl_targets(m@, t, impls@.take(i + 1)) =~= before + fn_targets(m@, imp.fns@));
            } else {
                assert(impl_targets(m@, t, impls@.take(i + 1)) =~= before);
            }
            i = i + 1;
        }
        assert(impls@.take(impls@.len() as int) =~= impls@);
    }
}

/// A type, as far as finding the closures inside it goes: its interned
/// identity, the closure or coroutine definition it is (if it is one), and
/// the types it is built from (generic arguments, the pointee or element, the
/// tuple's fields).
pub struct TyNode {
    pub id: u64,
    pub closure: Option<u64>,
    pub parts: Vec<TyNode>,
}

/// The types seen and the closure definitions found after visiting `ty`
/// from the state `st`: a type seen before is skipped whole; otherwise it is
/// marked seen, its own definition (if a closure) is listed, and its parts
/// are visited in order.
pub open spec fn visit_ty(ty: TyNode, st: (Seq<u64>, Seq<u64>)) -> (Seq<u64>, Seq<u64>)
    decreases ty, ty.parts@.len() + 1,
{
    if st.0.contains(ty.id) {
        st
    } else {
        let marked = (st.0.push(ty.id), match ty.closure {
            Some(d) => st.1.push(d),
            None => st.1,
        });
        visit_parts(ty, ty.parts@.len() as int, marked)
    }
}

/// The state after visiting the first `k` parts of `ty`.
pub open spec fn visit_parts(ty: TyNode, k: int, st: (Seq<u64>, Seq<u64>)) -> (Seq<u64>, Seq<u64>)
    decreases ty, if k < 0 { 0 } else { k },
{
    if k <= 0 || k > ty.parts@.len() {
        st
    } else {
        visit_ty(ty.parts@[k - 1], visit_parts(ty, k - 1, st))
    }
}

/// The state after visiting each of `tys` in turn.
pub open spec fn visit_all(tys: Seq<TyNode>, st: (Seq<u64>, Seq<u64>)) -> (Seq<u64>, Seq<u64>)
    decreases tys.len(),
{
    if tys.len() == 0 {
        st
    } else {
        visit_ty(tys.last(), visit_all(tys.drop_last(), st))
    }
}

/// `ty` is, or is built (at any depth) from, the closure or coroutine
/// definition `d`.
pub open spec fn holds_closure(ty: TyNode, d: u64) -> bool
    decreases ty, ty.parts@.len() + 1,
{
    ty.closure == Some(d) || parts_hold_closure(ty, ty.parts@.len() as int, d)
}

/// One of the first `k` parts of `ty` holds the definition `d`.
pub open spec fn parts_hold_closure(ty: TyNode, k: int, d: u64) -> bool
    decreases ty, if k < 0 { 0 } else { k },
{
    if k <= 0 || k > ty.parts@.len() {
        false
    } else {
        parts_hold_closure(ty, k - 1, d) || holds_closure(ty.parts@[k - 1], d)
    }
}

/// A type built from a part holds the closures the part holds.
proof fn lemma_part_holds(ty: TyNode, i: int, d: u64)
    requires
        0 <= i < ty.parts@.len(),
        holds_closure(ty.parts@[i], d),
    ensures
        holds_closure(ty, d),
{
    lemma_parts_hold(ty, i, ty.parts@.len() as int, d);
}

proof fn lemma_parts_hold(ty: TyNode, i: int, k: int, d: u64)
    requires
        0 <= i < k <= ty.parts@.len(),
        holds_closure(ty.parts@[i], d),
    ensures
        parts_hold_closure(ty, k, d),
    decreases k,
{
    if k > i + 1 {
        lemma_parts_hold(ty, i, k - 1, d);
    }
}

proof fn lemma_visit_sound(ty: TyNode, st: (Seq<u64>, Seq<u64>))
    ensures
        forall|d: u64| #[trigger] visit_ty(ty, st).1.contains(d) ==> st.1.contains(d) || holds_closure(ty, d),
    decreases ty, ty.parts@.len() + 1,
{
    if !st.0.contains(ty.id) {
        let marked = (st.0.push(ty.id), match ty.closure {
            Some(d) => st.1.push(d),
            None => st.1,
        });
        lemma_parts_sound(ty, ty.parts@.len() as int, marked);
        assert(visit_ty(ty, st) == visit_parts(ty, ty.parts@.len() as int, marked));
        assert forall|d: u64| #[trigger] visit_ty(ty, st).1.contains(d) implies st.1.contains(d) || holds_closure(ty, d) by {
            assert(visit_parts(ty, ty.parts@.len() as int, marked).1.contains(d));
            if marked.1.contains(d) && !st.1.contains(d) {
                let k = choose|k: int| 0 <= k < marked.1.len() && marked.1[k] == d;
                match ty.closure {
                    Some(c) => {
                        assert(marked.1 == st.1.push(c));
                        if k < st.1.len() {
                            assert(st.1[k] == d);
                        }
                        assert(c == d);
                    },
                    None => {
                        assert(marked.1 == st.1);
                    },
                }
            }
        }
    }
}

proof fn lemma_parts_sound(ty: TyNode, k: int, st: (Seq<u64>, Seq<u64>))
    ensures
        forall|d: u64| #[trigger] visit_parts(ty, k, st).1.contains(d) ==> st.1.contains(d) || holds_closure(ty, d),
    decreases ty, if k < 0 { 0 } else { k },
{
    if 0 < k <= ty.parts@.len() {
        lemma_parts_sound(ty, k - 1, st);
        let c = ty.parts@[k - 1];
        assert(decreases_to!(ty => c));
        lemma_visit_sound(c, visit_parts(ty, k - 1, st));
        let prev = visit_parts(ty, k - 1, st);
        assert(visit_parts(ty, k, st) == visit_ty(c, prev));
        assert forall|d: u64| #[trigger] visit_parts(ty, k, st).1.contains(d) implies st.1.contains(d) || holds_closure(ty, d) by {
            assert(visit_ty(c, prev).1.contains(d));
            if prev.1.contains(d) {
                assert(visit_parts(ty, k - 1, st).1.contains(d));
            } else {
                assert(holds_closure(c, d));
                assert(holds_closure(ty.parts@[k - 1], d));
                lemma_part_holds(ty, k - 1, d);
            }
        }
    }
}

/// Only closures are found: every definition listed for a body's locals is
/// a closure or coroutine that one of their types is built from.
pub proof fn lemma_closures_found_are_held(tys: Seq<TyNode>)
    ensures
        forall|d: u64| #[trigger] visit_all(tys, (seq![], seq![])).1.contains(d) ==> exists|i: int|
            0 <= i < tys.len() && holds_closure(#[trigger] tys[i], d),
    decreases tys.len(),
{
    if tys.len() > 0 {
        let rest = tys.drop_last();
        lemma_closures_found_are_held(rest);
        lemma_visit_sound(tys.last(), visit_all(rest, (seq![], seq![])));
        assert forall|d: u64| #[trigger] visit_all(tys, (seq![], seq![])).1.contains(d) implies exists|i: int|
            0 <= i < tys.len() && holds_closure(#[trigger] tys[i], d) by {
            if visit_all(rest, (seq![], seq![])).1.contains(d) {
                let i = choose|i: int| 0 <= i < rest.len() && holds_closure(#[trigger] rest[i], d);
                assert(tys[i] == rest[i]);
            } else {
                assert(holds_closure(tys[tys.len() - 1], d));
            }
        }
    }
}

/// `x` is `ty` or one of the types `ty` is built from, at any depth.
pub open spec fn within(ty: TyNode, x: TyNode) -> bool
    decreases ty, ty.parts@.len() + 1,
{
    ty == x || parts_within(ty, ty.parts@.len() as int, x)
}

/// `x` is within one of the first `k` parts of `ty`.
pub open spec fn parts_within(ty: TyNode, k: int, x: TyNode) -> bool
    decreases ty, if k < 0 { 0 } else { k },
{
    if k <= 0 || k > ty.parts@.len() {
        false
    } else {
        parts_within(ty, k - 1, x) || within(ty.parts@[k - 1], x)
    }
}

/// The number of type nodes in `ty`.
pub open spec fn ty_size(ty: TyNode) -> nat
    decreases ty, ty.parts@.len() + 1,
{
    1 + parts_size(ty, ty.parts@.len() as int)
}

/// The number of type nodes in the first `k` parts of `ty`.
pub open spec fn parts_size(ty: TyNode, k: int) -> nat
    decreases ty, if k < 0 { 0 } else { k },
{
    if k <= 0 || k > ty.parts@.len() {
        0
    } else {
        parts_size(ty, k - 1) + ty_size(ty.parts@[k - 1])
    }
}

/// `x` is one of the types of `tys` or within one.
pub open spec fn in_forest(tys: Seq<TyNode>, x: TyNode) -> bool {
    exists|i: int| 0 <= i < tys.len() && #[trigger] within(tys[i], x)
}

/// Interned identities name types: two types within `tys` with the same
/// identity are the same type.
pub open spec fn ids_consistent(tys: Seq<TyNode>) -> bool {
    forall|a: TyNode, b: TyNode| #[trigger] in_forest(tys, a) && #[trigger] in_forest(tys, b) && a.id == b.id ==> a == b
}

proof fn lemma_parts_within(ty: TyNode, i: int, k: int, x: TyNode)
    requires
        0 <= i < k <= ty.parts@.len(),
        within(ty.parts@[i], x),
    ensures
        parts_within(ty, k, x),
    decreases k,
{
    if k > i + 1 {
        lemma_parts_within(ty, i, k - 1, x);
    }
}

/// What lies within a part lies within the whole.
proof fn lemma_within_part(ty: TyNode, i: int, x: TyNode)
    requires
        0 <= i < ty.parts@.len(),
        within(ty.parts@[i], x),
    ensures
        within(ty, x),
{
    lemma_parts_within(ty, i, ty.parts@.len() as int, x);
}

/// What lies within the first `k` parts lies within one of them.
proof fn lemma_parts_within_some(ty: TyNode, k: int, x: TyNode) -> (i: int)
    requires
        parts_within(ty, k, x),
    ensures
        0 <= i < k <= ty.parts@.len(),
        within(ty.parts@[i], x),
    decreases k,
{
    if parts_within(ty, k - 1, x) {
        lemma_parts_within_some(ty, k - 1, x)
    } else {
        k - 1
    }
}

proof fn lemma_within_trans(a: TyNode, b: TyNode, c: TyNode)
    requires
        within(a, b),
        within(b, c),
    ensures
        within(a, c),
    decreases a, a.parts@.len() + 1,
{
    if a != b {
        let i = lemma_parts_within_some(a, a.parts@.len() as int, b);
        assert(decreases_to!(a => a.parts@[i]));
        lemma_within_trans(a.parts@[i], b, c);
        lemma_within_part(a, i, c);
    }
}

proof fn lemma_parts_size_ge(ty: TyNode, i: int, k: int)
    requires
        0 <= i < k <= ty.parts@.len(),
    ensures
        ty_size(ty.parts@[i]) <= parts_size(ty, k),
    decreases k,
{
    if k > i + 1 {
        lemma_parts_size_ge(ty, i, k - 1);
    }
}

/// What lies within a type is no larger than it.
proof fn lemma_within_size(ty: TyNode, x: TyNode)
    requires
        within(ty, x),
    ensures
        ty_size(x) <= ty_size(ty),
        x != ty ==> ty_size(x) < ty_size(ty),
    decreases ty, ty.parts@.len() + 1,
{
    if ty != x {
        let i = lemma_parts_within_some(ty, ty.parts@.len() as int, x);
        assert(decreases_to!(ty => ty.parts@[i]));
        lemma_within_size(ty.parts@[i], x);
        lemma_parts_size_ge(ty, i, ty.parts@.len() as int);
    }
}

/// Visiting only adds to what was seen and found.
proof fn lemma_visit_grows(ty: TyNode, st: (Seq<u64>, Seq<u64>))
    ensures
        forall|d: u64| st.1.contains(d) ==> #[trigger] visit_ty(ty, st).1.contains(d),
        forall|d: u64| st.0.contains(d) ==> #[trigger] visit_ty(ty, st).0.contains(d),
    decreases ty, ty.parts@.len() + 1,
{
    if !st.0.contains(ty.id) {
        let marked = (st.0.push(ty.id), match ty.closure {
            Some(d) => st.1.push(d),
            None => st.1,
        });
        lemma_parts_grow(ty, ty.parts@.len() as int, marked);
        assert(visit_ty(ty, st) == visit_parts(ty, ty.parts@.len() as int, marked));
        assert forall|d: u64| st.1.contains(d) implies #[trigger] visit_ty(ty, st).1.contains(d) by {
            let k = choose|k: int| 0 <= k < st.1.len() && st.1[k] == d;
            assert(marked.1[k] == d);
            assert(marked.1.contains(d));
        }
        assert forall|d: u64| st.0.contains(d) implies #[trigger] visit_ty(ty, st).0.contains(d) by {
            let k = choose|k: int| 0 <= k < st.0.len() && st.0[k] == d;
            assert(marked.0[k] == d);
            assert(marked.0.contains(d));
        }
    }
}

proof fn lemma_parts_grow(ty: TyNode, k: int, st: (Seq<u64>, Seq<u64>))
    ensures
        forall|d: u64| st.1.contains(d) ==> #[trigger] visit_parts(ty, k, st).1.contains(d),
        forall|d: u64| st.0.contains(d) ==> #[trigger] visit_parts(ty, k, st).0.contains(d),
    decreases ty, if k < 0 { 0 } else { k },
{
    if 0 < k <= ty.parts@.len() {
        lemma_parts_grow(ty, k - 1, st);
        let c = ty.parts@[k - 1];
        assert(decreases_to!(ty => c));
        let prev = visit_parts(ty, k - 1, st);
        lemma_visit_grows(c, prev);
        assert(visit_parts(ty, k, st) == visit_ty(c, prev));
        assert forall|d: u64| st.1.contains(d) implies #[trigger] visit_parts(ty, k, st).1.contains(d) by {
            assert(prev.1.contains(d));
        }
        assert forall|d: u64| st.0.contains(d) implies #[trigger] visit_parts(ty, k, st).0.contains(d) by {
            assert(prev.0.contains(d));
        }
    }
}

/// The definition held by one of the first `k` parts is held by one of them.
proof fn lemma_parts_hold_some(ty: TyNode, k: int, d: u64) -> (i: int)
    requires
        parts_hold_closure(ty, k, d),
    ensures
        0 <= i < k <= ty.parts@.len(),
        holds_closure(ty.parts@[i], d),
    decreases k,
{
    if parts_hold_closure(ty, k - 1, d) {
        lemma_parts_hold_some(ty, k - 1, d)
    } else {
        k - 1
    }
}

/// Every type of `tys` already seen, apart from those whose visit is under
/// way (`busy`), has had all its closures found.
pub open spec fn settled(tys: Seq<TyNode>, st: (Seq<u64>, Seq<u64>), busy: Set<u64>) -> bool {
    forall|x: TyNode, d: u64|
        #![trigger in_forest(tys, x), holds_closure(x, d)]
        in_forest(tys, x) && st.0.contains(x.id) && !busy.contains(x.id) && holds_closure(x, d) ==> st.1.contains(d)
}

/// No type within `ty` is under way.
pub open spec fn none_busy(ty: TyNode, busy: Set<u64>) -> bool {
    forall|x: TyNode| #[trigger] within(ty, x) ==> !busy.contains(x.id)
}

/// A part of a type of `tys` is a type of `tys` too.
proof fn lemma_part_in_forest(tys: Seq<TyNode>, ty: TyNode, i: int)
    requires
        in_forest(tys, ty),
        0 <= i < ty.parts@.len(),
    ensures
        in_forest(tys, ty.parts@[i]),
{
    let j = choose|j: int| 0 <= j < tys.len() && #[trigger] within(tys[j], ty);
    let c = ty.parts@[i];
    assert(within(c, c));
    lemma_within_part(ty, i, c);
    lemma_within_trans(tys[j], ty, c);
}

proof fn lemma_visit_complete(tys: Seq<TyNode>, ty: TyNode, st: (Seq<u64>, Seq<u64>), busy: Set<u64>)
    requires
        ids_consistent(tys),
        in_forest(tys, ty),
        settled(tys, st, busy),
        none_busy(ty, busy),
    ensures
        settled(tys, visit_ty(ty, st), busy),
        forall|d: u64| #[trigger] holds_closure(ty, d) ==> visit_ty(ty, st).1.contains(d),
    decreases ty, ty.parts@.len() + 1,
{
    assert(within(ty, ty));
    if st.0.contains(ty.id) {
        assert forall|d: u64| #[trigger] holds_closure(ty, d) implies visit_ty(ty, st).1.contains(d) by {
            assert(in_forest(tys, ty) && holds_closure(ty, d));
        }
    } else {
        let marked = (st.0.push(ty.id), match ty.closure {
            Some(d) => st.1.push(d),
            None => st.1,
        });
        let busy2 = busy.insert(ty.id);
        let n = ty.parts@.len() as int;
        let res = visit_parts(ty, n, marked);
        assert(visit_ty(ty, st) == res);
        assert forall|x: TyNode, d: u64|
            #![trigger in_forest(tys, x), holds_closure(x, d)]
            in_forest(tys, x) && marked.0.contains(x.id) && !busy2.contains(x.id) && holds_closure(x, d)
            implies marked.1.contains(d) by {
            let k = choose|k: int| 0 <= k < marked.0.len() && marked.0[k] == x.id;
            assert(k < st.0.len());
            assert(st.0[k] == x.id);
            assert(st.1.contains(d));
            let m = choose|m: int| 0 <= m < st.1.len() && st.1[m] == d;
            assert(marked.1[m] == d);
        }
        assert(settled(tys, marked, busy2));
        assert forall|i: int| 0 <= i < n implies #[trigger] none_busy(ty.parts@[i], busy2) by {
            assert forall|x: TyNode| #[trigger] within(ty.parts@[i], x) implies !busy2.contains(x.id) by {
                lemma_within_part(ty, i, x);
                if x.id == ty.id {
                    let j = choose|j: int| 0 <= j < tys.len() && #[trigger] within(tys[j], ty);
                    lemma_within_trans(tys[j], ty, x);
                    assert(in_forest(tys, x));
                    assert(x == ty);
                    lemma_within_size(ty.parts@[i], x);
                    lemma_parts_size_ge(ty, i, n);
                }
            }
        }
        lemma_parts_complete(tys, ty, n, marked, busy2);
        lemma_parts_grow(ty, n, marked);
        assert forall|d: u64| #[trigger] holds_closure(ty, d) implies res.1.contains(d) by {
            if ty.closure == Some(d) {
                assert(marked.1 == st.1.push(d));
                assert(marked.1[st.1.len() as int] == d);
                assert(marked.1.contains(d));
            } else {
                let i = lemma_parts_hold_some(ty, n, d);
                assert(holds_closure(ty.parts@[i], d));
            }
        }
        assert forall|x: TyNode, d: u64|
            #![trigger in_forest(tys, x), holds_closure(x, d)]
            in_forest(tys, x) && res.0.contains(x.id) && !busy.contains(x.id) && holds_closure(x, d)
            implies res.1.contains(d) by {
            if x.id == ty.id {
                assert(x == ty);
            } else {
                assert(!busy2.contains(x.id));
            }
        }
    }
}

proof fn lemma_parts_complete(tys: Seq<TyNode>, ty: TyNode, k: int, st: (Seq<u64>, Seq<u64>), busy: Set<u64>)
    requires
        ids_consistent(tys),
        in_forest(tys, ty),
        settled(tys, st, busy),
        forall|i: int| 0 <= i < ty.parts@.len() ==> #[trigger] none_busy(ty.parts@[i], busy),
    ensures
        settled(tys, visit_parts(ty, k, st), busy),
        forall|i: int, d: u64|
            0 <= i < k <= ty.parts@.len() && #[trigger] holds_closure(ty.parts@[i], d) ==> visit_parts(ty, k, st).1.contains(d),
    decreases ty, if k < 0 { 0 } else { k },
{
    if 0 < k <= ty.parts@.len() {
        lemma_parts_complete(tys, ty, k - 1, st, busy);
        let c = ty.parts@[k - 1];
        assert(decreases_to!(ty => c));
        let prev = visit_parts(ty, k - 1, st);
        lemma_part_in_forest(tys, ty, k - 1);
        assert(none_busy(ty.parts@[k - 1], busy));
        lemma_visit_complete(tys, c, prev, busy);
        lemma_visit_grows(c, prev);
        assert(visit_parts(ty, k, st) == visit_ty(c, prev));
        assert forall|i: int, d: u64|
            0 <= i < k <= ty.parts@.len() && #[trigger] holds_closure(ty.parts@[i], d) implies visit_parts(ty, k, st).1.contains(d) by {
            if i < k - 1 {
                assert(prev.1.contains(d));
            } else {
                assert(holds_closure(c, d));
            }
        }
    }
}

/// No closure is missed: when interned identities name types, every closure
/// or coroutine definition that a type of a body's locals is built from, at
/// any depth, is among the definitions found.
pub proof fn lemma_closures_held_are_found(tys: Seq<TyNode>)
    requires
        ids_consistent(tys),
    ensures
        forall|i: int, d: u64|
            0 <= i < tys.len() && #[trigger] holds_closure(tys[i], d) ==> visit_all(tys, (seq![], seq![])).1.contains(d),
{
    lemma_all_complete(tys, tys.len() as int);
    assert(tys.take(tys.len() as int) =~= tys);
}

proof fn lemma_all_complete(tys: Seq<TyNode>, n: int)
    requires
        ids_consistent(tys),
        0 <= n <= tys.len(),
    ensures
        settled(tys, visit_all(tys.take(n), (seq![], seq![])), Set::empty()),
        forall|i: int, d: u64|
            0 <= i < n && #[trigger] holds_closure(tys[i], d) ==> visit_all(tys.take(n), (seq![], seq![])).1.contains(d),
    decreases n,
{
    let empty: (Seq<u64>, Seq<u64>) = (seq![], seq![]);
    if n == 0 {
        assert(tys.take(0) =~= Seq::<TyNode>::empty());
        assert(settled(tys, visit_all(tys.take(0), empty), Set::empty()));
    } else {
        lemma_all_complete(tys, n - 1);
        let prev = visit_all(tys.take(n - 1), empty);
        assert(tys.take(n).drop_last() =~= tys.take(n - 1));
        assert(tys.take(n).last() == tys[n - 1]);
        assert(visit_all(tys.take(n), empty) == visit_ty(tys[n - 1], prev));
        assert(within(tys[n - 1], tys[n - 1]));
        assert(in_forest(tys, tys[n - 1]));
        lemma_visit_complete(tys, tys[n - 1], prev, Set::empty());
        lemma_visit_grows(tys[n - 1], prev);
        assert forall|i: int, d: u64|
            0 <= i < n && #[trigger] holds_closure(tys[i], d) implies visit_all(tys.take(n), empty).1.contains(d) by {
            if i < n - 1 {
                assert(prev.1.contains(d));
            }
        }
    }
}

/// Whether `v` holds `x`.
fn has_key(v: &Vec<u64>, x: u64) -> (r: bool)
    ensures
        r == v@.contains(x),
{
    let mut i: usize = 0;
    while i < v.len()
        invariant
            i <= v@.len(),
            forall|k: int| 0 <= k < i ==> v@[k] != x,
        decreases v.len() - i,
    {
        if v[i] == x {
            assert(v@[i as int] == x);
            return true;
        }
        i = i + 1;
    }
    false
}

/// Visit `ty`: list every closure or coroutine definition found in it,
/// including inside generic arguments, skipping types already seen.
pub fn collect_closures(ty: &TyNode, seen: &mut Vec<u64>, out: &mut Vec<u64>)
    ensures
        (final(seen)@, final(out)@) == visit_ty(*ty, (old(seen)@, old(out)@)),
    decreases ty, ty.parts@.len() + 1,
{
    if has_key(seen, ty.id) {
        return;
    }
    seen.push(ty.id);
    match ty.closure {
        Some(d) => out.push(d),
        None => {},
    }
    let ghost marked = (seen@, out@);
    let mut k: usize = 0;
    while k < ty.parts.len()
        invariant
            k <= ty.parts@.len(),
            (seen@, out@) == visit_parts(*ty, k as int, marked),
        decreases ty.parts.len() - k,
    {
        let part = &ty.parts[k];
        assert(decreases_to!(ty => ty.parts@[k as int]));
        collect_closures(part, seen, out);
        k = k + 1;
    }
}

/// Every closure or coroutine definition the types of a body's locals hold,
/// each type visited once across all of them.
pub fn closures_in(tys: &Vec<TyNode>) -> (defs: Vec<u64>)
    ensures
        defs@ == visit_all(tys@, (seq![], seq![])).1,
{
    let mut seen: Vec<u64> = Vec::new();
    let mut out: Vec<u64> = Vec::new();
    let mut i: usize = 0;
    while i < tys.len()
        invariant
            i <= tys@.len(),
            (seen@, out@) == visit_all(tys@.take(i as int), (seq![], seq![])),
        decreases tys.len() - i,
    {
        assert(tys@.take(i + 1).drop_last() =~= tys@.take(i as int));
        collect_closures(&tys[i], &mut seen, &mut out);
        i = i + 1;
    }
    assert(tys@.take(tys@.len() as int) =~= tys@);
    out
}

/// The part of `path` before its first `::`.
fn first_segment_of(path: &str) -> (r: String)
    ensures
        r@ == first_segment(path@),
{
    let cs = chars_of(path);
    let mut i: usize = 0;
    proof {
        lemma_segment_end_bounds(cs@, 0);
    }
    while cs.len() - i >= 2 && !(cs[i] == ':' && cs[i + 1] == ':')
        invariant
            i <= cs@.len(),
            cs@ == path@,
            segment_end(cs@, 0) == segment_end(cs@, i as int),
        decreases cs.len() - i,
    {
        i = i + 1;
    }
    let mut out = String::new();
    let mut k: usize = 0;
    proof {
        lemma_segment_end_bounds(cs@, i as int);
    }
    let end: usize = if cs.len() - i >= 2 { i } else { cs.len() };
    assert(end == segment_end(cs@, 0));
    while k < end
        invariant
            k <= end <= cs@.len(),
            out@ == cs@.take(k as int),
        decreases end - k,
    {
        crate::text::push_char(&mut out, cs[k]);
        assert(cs@.take(k + 1) =~= cs@.take(k as int).push(cs@[k as int]));
        k = k + 1;
    }
    out
}

/// An owned copy of a string slice.
fn string_of_str(s: &str) -> (r: String)
    ensures
        r@ == s@,
{
    let cs = chars_of(s);
    crate::text::string_of(&cs)
}

} // verus!
