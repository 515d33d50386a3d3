//! The index schema: the call graph that the indexer writes and the query
//! layer reads.
//!
//! The graph is two flat vectors: [`Symbol`]s (functions and methods the
//! indexer resolved) and directed call [`Edge`]s between them. Edges refer to
//! symbols by [`SymbolId`] rather than by position, so the two vectors can be
//! reordered, filtered or grown across re-indexing without invalidating them.

use vstd::prelude::*;

use crate::order::{encode_text, lex_lt};

verus! {

/// On-disk schema version; a loaded artifact stamped otherwise is rejected.
pub const SCHEMA_VERSION: u32 = 1;

/// The 64-bit FNV-1a offset basis.
pub const FNV_OFFSET_BASIS: u64 = 0xcbf2_9ce4_8422_2325;

/// The 64-bit FNV-1a prime.
pub const FNV_PRIME: u64 = 0x0000_0100_0000_01b3;

/// One FNV-1a round: fold a byte in, then multiply by the prime modulo 2^64.
pub open spec fn fnv1a_step(h: u64, b: u8) -> u64 {
    (((h ^ (b as u64)) as nat * FNV_PRIME as nat) % 0x1_0000_0000_0000_0000nat) as u64
}

/// The 64-bit FNV-1a hash of a byte sequence.
pub open spec fn fnv1a(bytes: Seq<u8>) -> u64
    decreases bytes.len(),
{
    if bytes.len() == 0 {
        FNV_OFFSET_BASIS
    } else {
        fnv1a_step(fnv1a(bytes.drop_last()), bytes.last())
    }
}

/// FNV-1a (64-bit) over raw bytes.
pub fn fnv1a_64(bytes: &[u8]) -> (h: u64)
    ensures
        h == fnv1a(bytes@),
{
    let mut hash: u64 = FNV_OFFSET_BASIS;
    let mut i: usize = 0;
    while i < bytes.len()
        invariant
            i <= bytes@.len(),
            hash == fnv1a(bytes@.take(i as int)),
        decreases bytes.len() - i,
    {
        let b = bytes[i];
        hash = hash ^ (b as u64);
        hash = hash.wrapping_mul(FNV_PRIME);
        assert(bytes@.take(i + 1).drop_last() =~= bytes@.take(i as int));
        i = i + 1;
    }
    assert(bytes@.take(bytes@.len() as int) =~= bytes@);
    hash
}

/// Stable identifier of a [`Symbol`]: the 64-bit FNV-1a hash of its
/// fully-qualified path, so the id stays fixed across re-indexing as long as
/// the path is unchanged, on every platform and toolchain.
#[derive(Debug, Clone, Copy, PartialEq, Eq, Hash, PartialOrd, Ord, Structural)]
pub struct SymbolId(pub u64);

/// The id of the path with characters `p`: FNV-1a over its UTF-8 bytes.
pub open spec fn path_id(p: Seq<char>) -> u64 {
    fnv1a(vstd::utf8::encode_utf8(p))
}

/// The id that [`SymbolId::from_fq_path`] derives from a path: FNV-1a over the
/// path's UTF-8 bytes.
pub open spec fn id_of_path(path: &str) -> u64 {
    path_id(path@)
}

impl SymbolId {
    /// Derive the stable id from a fully-qualified path via FNV-1a (64-bit).
    pub fn from_fq_path(fq_path: &str) -> (id: SymbolId)
        ensures
            id.0 == id_of_path(fq_path),
    {
        SymbolId(fnv1a_64(fq_path.as_bytes()))
    }
}

/// Source location of a symbol. Line numbers are 1-based.
#[derive(Debug, Clone, PartialEq, Eq)]
pub struct Span {
    /// Path to the source file, workspace-relative.
    pub file: String,
    pub line_start: u32,
    pub line_end: u32,
}

/// The plain facts the indexer records about each function itself.
#[derive(Debug, Clone, Copy, PartialEq, Eq, Structural)]
pub struct Characteristics {
    /// Carries `#[test]` (or a test-framework attribute).
    pub test: bool,
    /// Visible outside its defining module.
    pub public: bool,
    /// Declared `async`.
    pub is_async: bool,
    /// Declared with generic parameters.
    pub generic: bool,
    /// `extern`/foreign function (FFI).
    pub foreign: bool,
    /// Contains an `unsafe` block or is an `unsafe fn`.
    pub uses_unsafe: bool,
}

/// A function or method the indexer resolved.
#[derive(Debug, Clone, PartialEq, Eq)]
pub struct Symbol {
    pub id: SymbolId,
    /// Fully-qualified path, e.g. `parser::normalize_token`.
    pub fq_path: String,
    pub crate_name: String,
    pub span: Span,
    pub characteristics: Characteristics,
}

impl Span {
    /// An identical copy of this span.
    pub fn duplicate(&self) -> (r: Span)
        ensures
            r == *self,
    {
        Span { file: self.file.clone(), line_start: self.line_start, line_end: self.line_end }
    }
}

impl Symbol {
    /// An identical copy of this symbol.
    pub fn duplicate(&self) -> (r: Symbol)
        ensures
            r == *self,
    {
        Symbol {
            id: self.id,
            fq_path: self.fq_path.clone(),
            crate_name: self.crate_name.clone(),
            span: self.span.duplicate(),
            characteristics: self.characteristics,
        }
    }
}

/// How a call edge was resolved.
#[derive(Debug, Clone, Copy, PartialEq, Eq, Structural)]
pub enum EdgeKind {
    /// A statically resolved call: the concrete callee is known exactly.
    Static,
    /// A `dyn`-dispatch call, widened to every workspace implementor of the
    /// trait: the origin of over-approximation.
    Virtual,
}

/// A directed call edge: `from` calls `to`, resolved as `kind`.
#[derive(Debug, Clone, Copy, PartialEq, Eq, Structural)]
pub struct Edge {
    pub from: SymbolId,
    pub to: SymbolId,
    pub kind: EdgeKind,
}

/// The whole resolved call graph.
#[derive(Debug, Clone, PartialEq, Eq)]
pub struct Index {
    pub schema_version: u32,
    pub symbols: Vec<Symbol>,
    pub edges: Vec<Edge>,
}

impl Index {
    /// An empty index stamped with the current [`SCHEMA_VERSION`].
    pub fn empty() -> (r: Index)
        ensures
            r.schema_version == SCHEMA_VERSION,
            r.symbols@.len() == 0,
            r.edges@.len() == 0,
    {
        Index { schema_version: SCHEMA_VERSION, symbols: Vec::new(), edges: Vec::new() }
    }
}

/// The keys of `v` strictly increase, in the order of their text: the order
/// a sorted map of strings walks them in.
pub open spec fn sorted_entries(v: Seq<(String, String)>) -> bool {
    forall|i: int, j: int|
        0 <= i < j < v.len() ==> lex_lt(encode_text(#[trigger] v[i].0@), encode_text(#[trigger] v[j].0@))
}

/// The map that the entries `v` describe: each key to its value, a later
/// entry replacing an earlier one with the same key.
pub open spec fn entries_map(v: Seq<(String, String)>) -> Map<Seq<char>, Seq<char>>
    decreases v.len(),
{
    if v.len() == 0 {
        Map::empty()
    } else {
        entries_map(v.drop_last()).insert(v.last().0@, v.last().1@)
    }
}

/// The staleness manifest.
///
/// `file_hashes` maps each indexed `.rs` file (workspace-relative, `/`
/// separated) to its content hash. It is kept as a list of entries with
/// strictly increasing keys (see [`Manifest::wf`]), so the same workspace state
/// always yields the same manifest.
#[derive(Debug, Clone, PartialEq, Eq)]
pub struct Manifest {
    pub schema_version: u32,
    /// The exact toolchain used to build the index.
    pub toolchain: String,
    /// Per-file content hash of every indexed `.rs` file, keyed by path.
    pub file_hashes: Vec<(String, String)>,
    pub cargo_lock_hash: String,
    /// When the index was built (RFC-3339 UTC).
    pub indexed_at: String,
}

impl Manifest {
    /// The file hashes are listed once per path, in path order.
    pub open spec fn wf(&self) -> bool {
        sorted_entries(self.file_hashes@)
    }

    /// The file hashes, as a map from path to hash.
    pub open spec fn hashes(&self) -> Map<Seq<char>, Seq<char>> {
        entries_map(self.file_hashes@)
    }
}

} // verus!
