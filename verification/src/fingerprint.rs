//! The workspace source fingerprint and the staleness check.
//!
//! A fingerprint records, for every indexed `.rs` file, an FNV-1a content hash
//! keyed by its workspace-relative path, plus a hash of `Cargo.lock`. The
//! staleness check recomputes the hashes of the current sources and reports
//! every path whose hash changed, appeared or disappeared, and `Cargo.lock`
//! when its hash changed. Both sides go through the same hashing, so they
//! cannot drift on what "the same workspace state" means.
//!
//! The sources are handed in as plain values: each file's path components
//! relative to the workspace root, and its bytes. Which directories a walk
//! descends into and which files it indexes is decided here
//! ([`should_descend`], [`is_indexed_source`]).

use vstd::prelude::*;

use crate::order::{
    encode_text, lemma_lex_irreflexive, lemma_lex_transitive, lemma_text_order, lex_less, lex_lt,
    text_key,
};
pub use crate::calendar::unix_secs_to_rfc3339;
use crate::calendar::{civil, rfc3339, timestamp_shaped};
use crate::schema::{entries_map, fnv1a, fnv1a_64, sorted_entries, Manifest, SCHEMA_VERSION};
use crate::text::{chars_equal, chars_of, hex_digits, push_char, push_hex_digits, push_str, string_of};

verus! {

// ── content hashes ──────────────────────────────────────────────────────────

/// The rendering of a content hash: FNV-1a (64-bit) over the bytes, as 16
/// lowercase hexadecimal digits.
pub open spec fn hash_text(bytes: Seq<u8>) -> Seq<char> {
    hex_digits(fnv1a(bytes) as nat, 16)
}

/// FNV-1a over raw bytes, rendered as 16 lowercase hex digits.
pub fn fnv1a_64_hex(bytes: &[u8]) -> (r: String)
    ensures
        r@ == hash_text(bytes@),
{
    let hash = fnv1a_64(bytes);
    let mut digits: Vec<char> = Vec::new();
    push_hex_digits(&mut digits, hash, 16);
    assert(digits@ =~= hash_text(bytes@));
    string_of(&digits)
}

/// The hash of a lockfile, or the empty text when there is none: two states
/// both without a lockfile compare equal.
pub open spec fn lock_hash(lock: Option<Vec<u8>>) -> Seq<char> {
    match lock {
        Some(bytes) => hash_text(bytes@),
        None => seq![],
    }
}

/// Hash `Cargo.lock`'s contents; a missing lockfile yields the empty string.
pub fn hash_cargo_lock(lock: &Option<Vec<u8>>) -> (r: String)
    ensures
        r@ == lock_hash(*lock),
{
    match lock {
        Some(bytes) => fnv1a_64_hex(bytes.as_slice()),
        None => String::new(),
    }
}

// ── which files are indexed ─────────────────────────────────────────────────

/// The texts of a sequence of strings.
pub open spec fn texts(v: Seq<String>) -> Seq<Seq<char>> {
    v.map_values(|s: String| s@)
}

/// Path components joined by `/`.
pub open spec fn joined_path(cs: Seq<Seq<char>>) -> Seq<char>
    decreases cs.len(),
{
    if cs.len() == 0 {
        seq![]
    } else if cs.len() == 1 {
        cs[0]
    } else {
        joined_path(cs.drop_last()) + seq!['/'] + cs.last()
    }
}

/// The workspace-relative key of a path: its components joined by `/`, the
/// same on every platform.
pub fn relative_key(components: &Vec<String>) -> (r: String)
    ensures
        r@ == joined_path(texts(components@)),
{
    let mut out = String::new();
    let mut i: usize = 0;
    while i < components.len()
        invariant
            i <= components@.len(),
            out@ == joined_path(texts(components@.take(i as int))),
        decreases components.len() - i,
    {
        if i > 0 {
            push_char(&mut out, '/');
        }
        push_str(&mut out, components[i].as_str());
        proof {
            let t = texts(components@.take(i + 1));
            assert(texts(components@.take(i as int)) =~= t.drop_last());
            assert(t.last() == components@[i as int]@);
            if i == 0 {
                assert(out@ =~= joined_path(t));
            } else {
                assert(out@ =~= joined_path(t));
            }
        }
        i = i + 1;
    }
    assert(components@.take(components@.len() as int) =~= components@);
    out
}

/// A directory the walk descends into: neither `target` nor dot-prefixed, so
/// build output and VCS metadata never enter the fingerprint.
pub open spec fn descended(name: Seq<char>) -> bool {
    name != seq!['t', 'a', 'r', 'g', 'e', 't'] && !(name.len() > 0 && name[0] == '.')
}

/// Whether the walk descends into a directory of this name.
pub fn should_descend(name: &str) -> (r: bool)
    ensures
        r == descended(name@),
{
    let cs = chars_of(name);
    if cs.len() > 0 && cs[0] == '.' {
        return false;
    }
    let mut target: Vec<char> = Vec::new();
    target.push('t');
    target.push('a');
    target.push('r');
    target.push('g');
    target.push('e');
    target.push('t');
    assert(target@ =~= seq!['t', 'a', 'r', 'g', 'e', 't']);
    !chars_equal(&cs, &target)
}

/// A file whose extension is `rs`: a name ending in `.rs` that is more than
/// just `.rs`.
pub open spec fn is_rs_name(name: Seq<char>) -> bool {
    name.len() > 3 && name[name.len() - 3] == '.' && name[name.len() - 2] == 'r' && name[name.len() - 1] == 's'
}

/// Whether a file of this name is indexed.
pub fn is_indexed_source(name: &str) -> (r: bool)
    ensures
        r == is_rs_name(name@),
{
    let cs = chars_of(name);
    let n = cs.len();
    n > 3 && cs[n - 3] == '.' && cs[n - 2] == 'r' && cs[n - 1] == 's'
}

/// A file of the workspace: its path components relative to the workspace
/// root (directories first, its own name last), and its contents.
pub struct SourceFile {
    pub components: Vec<String>,
    pub bytes: Vec<u8>,
}

/// The file is indexed: every directory on its path is descended into, and
/// its name has the `rs` extension.
pub open spec fn indexed(f: SourceFile) -> bool {
    let cs = texts(f.components@);
    &&& cs.len() >= 1
    &&& forall|i: int| 0 <= i < cs.len() - 1 ==> descended(#[trigger] cs[i])
    &&& is_rs_name(cs.last())
}

/// The key a file is recorded under.
pub open spec fn file_key(f: SourceFile) -> Seq<char> {
    joined_path(texts(f.components@))
}

/// The source state of a workspace: each indexed file's key mapped to its
/// content hash. A later file with the same key replaces an earlier one.
pub open spec fn source_map(files: Seq<SourceFile>) -> Map<Seq<char>, Seq<char>>
    decreases files.len(),
{
    if files.len() == 0 {
        Map::empty()
    } else if indexed(files.last()) {
        source_map(files.drop_last()).insert(file_key(files.last()), hash_text(files.last().bytes@))
    } else {
        source_map(files.drop_last())
    }
}

/// Whether a file is indexed.
fn is_indexed(f: &SourceFile) -> (r: bool)
    ensures
        r == indexed(*f),
{
    let n = f.components.len();
    if n == 0 {
        return false;
    }
    let mut i: usize = 0;
    while i < n - 1
        invariant
            n == f.components@.len(),
            n >= 1,
            i <= n - 1,
            forall|k: int| 0 <= k < i ==> descended(#[trigger] texts(f.components@)[k]),
        decreases n - 1 - i,
    {
        if !should_descend(f.components[i].as_str()) {
            assert(!descended(texts(f.components@)[i as int]));
            return false;
        }
        i = i + 1;
    }
    is_indexed_source(f.components[n - 1].as_str())
}

// ── sorted entries ──────────────────────────────────────────────────────────

/// Every key the entries map holds is the key of one of them.
pub proof fn lemma_entries_dom(v: Seq<(String, String)>, x: Seq<char>)
    ensures
        entries_map(v).contains_key(x) <==> exists|i: int| 0 <= i < v.len() && #[trigger] v[i].0@ == x,
    decreases v.len(),
{
    if v.len() > 0 {
        let u = v.drop_last();
        lemma_entries_dom(u, x);
        if exists|i: int| 0 <= i < u.len() && #[trigger] u[i].0@ == x {
            let i = choose|i: int| 0 <= i < u.len() && #[trigger] u[i].0@ == x;
            assert(v[i].0@ == x);
        }
        if exists|i: int| 0 <= i < v.len() && #[trigger] v[i].0@ == x {
            let i = choose|i: int| 0 <= i < v.len() && #[trigger] v[i].0@ == x;
            if i < v.len() - 1 {
                assert(u[i].0@ == x);
            }
        }
    }
}

/// In entries with strictly increasing keys, the entry at `i` is what the
/// map holds for its key.
pub proof fn lemma_entry_at(v: Seq<(String, String)>, i: int)
    requires
        sorted_entries(v),
        0 <= i < v.len(),
    ensures
        entries_map(v).contains_key(v[i].0@),
        entries_map(v)[v[i].0@] == v[i].1@,
    decreases v.len(),
{
    if i < v.len() - 1 {
        let u = v.drop_last();
        assert(sorted_entries(u)) by {
            assert forall|a: int, b: int| 0 <= a < b < u.len() implies lex_lt(encode_text(#[trigger] u[a].0@), encode_text(#[trigger] u[b].0@)) by {
                assert(u[a] == v[a] && u[b] == v[b]);
            }
        }
        lemma_entry_at(u, i);
        assert(u[i] == v[i]);
        assert(lex_lt(encode_text(v[i].0@), encode_text(v[v.len() - 1].0@)));
        lemma_lex_irreflexive(encode_text(v[i].0@));
        assert(v[i].0@ != v.last().0@);
    }
}

/// Records `h` under `k` in entries with strictly increasing keys, replacing
/// the entry already there.
pub(crate) fn insert_entry(v: &mut Vec<(String, String)>, k: String, h: String)
    requires
        sorted_entries(old(v)@),
    ensures
        sorted_entries(final(v)@),
        entries_map(final(v)@) == entries_map(old(v)@).insert(k@, h@),
{
    let ghost v0 = v@;
    let kk = text_key(k.as_str());
    let mut p: usize = 0;
    while p < v.len() && lex_less(&text_key(v[p].0.as_str()), &kk)
        invariant
            v@ == v0,
            kk@ == encode_text(k@),
            p <= v@.len(),
            forall|i: int| 0 <= i < p ==> lex_lt(encode_text(#[trigger] v@[i].0@), encode_text(k@)),
        decreases v@.len() - p,
    {
        p = p + 1;
    }
    let replace = p < v.len() && !lex_less(&kk, &text_key(v[p].0.as_str()));
    proof {
        // every key from `p` on is at least `k`, and past an equal key strictly more
        assert forall|j: int| p <= j < v0.len() implies !lex_lt(encode_text(#[trigger] v0[j].0@), encode_text(k@)) by {
            if j > p as int {
                assert(lex_lt(encode_text(v0[p as int].0@), encode_text(v0[j].0@)));
                if lex_lt(encode_text(v0[j].0@), encode_text(k@)) {
                    lemma_lex_transitive(encode_text(v0[p as int].0@), encode_text(v0[j].0@), encode_text(k@));
                }
            }
        }
    }
    if replace {
        proof {
            lemma_text_order(v0[p as int].0@, k@);
        }
        v.set(p, (k, h));
        proof {
            let w = v@;
            assert forall|i: int, j: int| 0 <= i < j < w.len() implies lex_lt(encode_text(#[trigger] w[i].0@), encode_text(#[trigger] w[j].0@)) by {
                if i == p as int {
                    assert(lex_lt(encode_text(v0[i].0@), encode_text(v0[j].0@)));
                } else if j == p as int {
                    assert(lex_lt(encode_text(v0[i].0@), encode_text(v0[j].0@)));
                } else {
                    assert(w[i] == v0[i] && w[j] == v0[j]);
                }
            }
            lemma_entries_replace(v0, w, p as int, k@, h@);
        }
    } else {
        v.insert(p, (k, h));
        proof {
            let w = v@;
            assert forall|j: int| p <= j < v0.len() implies lex_lt(encode_text(k@), encode_text(#[trigger] v0[j].0@)) by {
                lemma_text_order(v0[j].0@, k@);
                if j > p as int {
                    assert(lex_lt(encode_text(v0[p as int].0@), encode_text(v0[j].0@)));
                    lemma_text_order(v0[p as int].0@, k@);
                    if v0[p as int].0@ != k@ {
                        lemma_lex_transitive(encode_text(k@), encode_text(v0[p as int].0@), encode_text(v0[j].0@));
                    } else {
                        assert(encode_text(v0[p as int].0@) == encode_text(k@));
                    }
                } else {
                    assert(!lex_lt(encode_text(k@), encode_text(v0[p as int].0@)) ==> false);
                }
            }
            assert forall|i: int, j: int| 0 <= i < j < w.len() implies lex_lt(encode_text(#[trigger] w[i].0@), encode_text(#[trigger] w[j].0@)) by {
                if i < p && j < p {
                    assert(w[i] == v0[i] && w[j] == v0[j]);
                } else if i < p && j == p {
                    assert(w[i] == v0[i]);
                } else if i < p {
                    assert(w[i] == v0[i] && w[j] == v0[j - 1]);
                    assert(lex_lt(encode_text(v0[i].0@), encode_text(k@)));
                    assert(lex_lt(encode_text(k@), encode_text(v0[j - 1].0@)));
                    lemma_lex_transitive(encode_text(v0[i].0@), encode_text(k@), encode_text(v0[j - 1].0@));
                } else if i == p {
                    assert(w[j] == v0[j - 1]);
                } else {
                    assert(w[i] == v0[i - 1] && w[j] == v0[j - 1]);
                }
            }
            lemma_entries_insert(v0, w, p as int, k@, h@);
        }
    }
}

/// Replacing the entry at `p` (whose key is `k`) by `(k, h)` records `h`
/// under `k`.
proof fn lemma_entries_replace(v: Seq<(String, String)>, w: Seq<(String, String)>, p: int, k: Seq<char>, h: Seq<char>)
    requires
        sorted_entries(v),
        sorted_entries(w),
        0 <= p < v.len(),
        w.len() == v.len(),
        v[p].0@ == k,
        w[p].0@ == k,
        w[p].1@ == h,
        forall|i: int| 0 <= i < v.len() && i != p ==> w[i] == v[i],
    ensures
        entries_map(w) == entries_map(v).insert(k, h),
{
    let mv = entries_map(v);
    let mw = entries_map(w);
    assert forall|x: Seq<char>| mw.contains_key(x) <==> mv.insert(k, h).contains_key(x) by {
        lemma_entries_dom(v, x);
        lemma_entries_dom(w, x);
        if mw.contains_key(x) {
            let i = choose|i: int| 0 <= i < w.len() && #[trigger] w[i].0@ == x;
            if i != p {
                assert(v[i].0@ == x);
            }
        }
        if mv.contains_key(x) {
            let i = choose|i: int| 0 <= i < v.len() && #[trigger] v[i].0@ == x;
            if i != p {
                assert(w[i].0@ == x);
            } else {
                assert(w[p].0@ == x);
            }
        }
        if x == k {
            assert(w[p].0@ == x);
        }
    }
    assert forall|x: Seq<char>| #[trigger] mw.contains_key(x) implies mw[x] == mv.insert(k, h)[x] by {
        lemma_entries_dom(w, x);
        let i = choose|i: int| 0 <= i < w.len() && #[trigger] w[i].0@ == x;
        lemma_entry_at(w, i);
        if i != p {
            lemma_entry_at(v, i);
            assert(x != k) by {
                if x == k {
                    lemma_entry_at(w, p);
                    lemma_lex_irreflexive(encode_text(k));
                    if i < p {
                        assert(lex_lt(encode_text(w[i].0@), encode_text(w[p].0@)));
                    } else {
                        assert(lex_lt(encode_text(w[p].0@), encode_text(w[i].0@)));
                    }
                }
            }
        }
    }
    assert(mw =~= mv.insert(k, h));
}

/// Inserting `(k, h)` at `p`, where no entry has key `k`, records `h` under
/// `k`.
proof fn lemma_entries_insert(v: Seq<(String, String)>, w: Seq<(String, String)>, p: int, k: Seq<char>, h: Seq<char>)
    requires
        sorted_entries(v),
        sorted_entries(w),
        0 <= p <= v.len(),
        w.len() == v.len() + 1,
        w[p].0@ == k,
        w[p].1@ == h,
        forall|i: int| 0 <= i < p ==> w[i] == v[i],
        forall|i: int| p < i < w.len() ==> w[i] == v[i - 1],
    ensures
        entries_map(w) == entries_map(v).insert(k, h),
{
    let mv = entries_map(v);
    let mw = entries_map(w);
    assert forall|x: Seq<char>| mw.contains_key(x) <==> mv.insert(k, h).contains_key(x) by {
        lemma_entries_dom(v, x);
        lemma_entries_dom(w, x);
        if mw.contains_key(x) {
            let i = choose|i: int| 0 <= i < w.len() && #[trigger] w[i].0@ == x;
            if i < p {
                assert(v[i].0@ == x);
            } else if i > p {
                assert(v[i - 1].0@ == x);
            }
        }
        if mv.contains_key(x) {
            let i = choose|i: int| 0 <= i < v.len() && #[trigger] v[i].0@ == x;
            if i < p {
                assert(w[i].0@ == x);
            } else {
                assert(w[i + 1].0@ == x);
            }
        }
        if x == k {
            assert(w[p].0@ == x);
        }
    }
    assert forall|x: Seq<char>| #[trigger] mw.contains_key(x) implies mw[x] == mv.insert(k, h)[x] by {
        lemma_entries_dom(w, x);
        let i = choose|i: int| 0 <= i < w.len() && #[trigger] w[i].0@ == x;
        lemma_entry_at(w, i);
        if i != p {
            let iv = if i < p { i } else { i - 1 };
            assert(w[i] == v[iv]);
            lemma_entry_at(v, iv);
            assert(x != k) by {
                if x == k {
                    lemma_lex_irreflexive(encode_text(k));
                    if i < p {
                        assert(lex_lt(encode_text(w[i].0@), encode_text(w[p].0@)));
                    } else {
                        assert(lex_lt(encode_text(w[p].0@), encode_text(w[i].0@)));
                    }
                }
            }
        }
    }
    assert(mw =~= mv.insert(k, h));
}

/// Hash every indexed file, keyed by its workspace-relative path, in path
/// order. A later file with the same key replaces an earlier one.
pub fn hash_sources(files: &Vec<SourceFile>) -> (r: Vec<(String, String)>)
    ensures
        sorted_entries(r@),
        entries_map(r@) == source_map(files@),
{
    let mut out: Vec<(String, String)> = Vec::new();
    let mut i: usize = 0;
    proof {
        assert(entries_map(out@) =~= Map::<Seq<char>, Seq<char>>::empty());
    }
    while i < files.len()
        invariant
            i <= files@.len(),
            sorted_entries(out@),
            entries_map(out@) == source_map(files@.take(i as int)),
        decreases files.len() - i,
    {
        let f = &files[i];
        proof {
            assert(files@.take(i + 1).drop_last() =~= files@.take(i as int));
            assert(files@.take(i + 1).last() == *f);
        }
        if is_indexed(f) {
            let key = relative_key(&f.components);
            let hash = fnv1a_64_hex(f.bytes.as_slice());
            insert_entry(&mut out, key, hash);
        }
        i = i + 1;
    }
    assert(files@.take(files@.len() as int) =~= files@);
    out
}

// ── staleness ───────────────────────────────────────────────────────────────

/// `v` lists texts in strictly increasing order.
pub open spec fn sorted_texts(v: Seq<String>) -> bool {
    forall|i: int, j: int|
        0 <= i < j < v.len() ==> lex_lt(encode_text(#[trigger] v[i]@), encode_text(#[trigger] v[j]@))
}

/// Adds `x` to texts listed in strictly increasing order, unless it is
/// already there.
fn insert_text(v: &mut Vec<String>, x: String)
    requires
        sorted_texts(old(v)@),
    ensures
        sorted_texts(final(v)@),
        texts(final(v)@).to_set() == texts(old(v)@).to_set().insert(x@),
{
    let ghost v0 = v@;
    let kx = text_key(x.as_str());
    let mut p: usize = 0;
    while p < v.len() && lex_less(&text_key(v[p].as_str()), &kx)
        invariant
            v@ == v0,
            kx@ == encode_text(x@),
            p <= v@.len(),
            forall|i: int| 0 <= i < p ==> lex_lt(encode_text(#[trigger] v@[i]@), encode_text(x@)),
        decreases v@.len() - p,
    {
        p = p + 1;
    }
    let present = p < v.len() && !lex_less(&kx, &text_key(v[p].as_str()));
    if present {
        proof {
            lemma_text_order(v0[p as int]@, x@);
            assert(texts(v0)[p as int] == x@);
            assert(texts(v0).to_set().insert(x@) =~= texts(v0).to_set());
        }
    } else {
        v.insert(p, x);
        proof {
            let w = v@;
            assert forall|j: int| p <= j < v0.len() implies lex_lt(encode_text(x@), encode_text(#[trigger] v0[j]@)) by {
                lemma_text_order(v0[p as int]@, x@);
                if j > p as int {
                    assert(lex_lt(encode_text(v0[p as int]@), encode_text(v0[j]@)));
                    lemma_lex_transitive(encode_text(x@), encode_text(v0[p as int]@), encode_text(v0[j]@));
                }
            }
            assert forall|i: int, j: int| 0 <= i < j < w.len() implies lex_lt(encode_text(#[trigger] w[i]@), encode_text(#[trigger] w[j]@)) by {
                if i < p && j < p {
                    assert(w[i] == v0[i] && w[j] == v0[j]);
                } else if i < p && j == p {
                    assert(w[i] == v0[i]);
                } else if i < p {
                    assert(w[i] == v0[i] && w[j] == v0[j - 1]);
                    lemma_lex_transitive(encode_text(v0[i]@), encode_text(x@), encode_text(v0[j - 1]@));
                } else if i == p {
                    assert(w[j] == v0[j - 1]);
                } else {
                    assert(w[i] == v0[i - 1] && w[j] == v0[j - 1]);
                }
            }
            assert forall|t: Seq<char>| texts(w).to_set().contains(t) <==> texts(v0).to_set().insert(x@).contains(t) by {
                if texts(w).contains(t) {
                    let k = choose|k: int| 0 <= k < texts(w).len() && texts(w)[k] == t;
                    if k < p {
                        assert(texts(v0)[k] == t);
                    } else if k > p {
                        assert(texts(v0)[k - 1] == t);
                    }
                }
                if texts(v0).contains(t) {
                    let k = choose|k: int| 0 <= k < texts(v0).len() && texts(v0)[k] == t;
                    if k < p {
                        assert(texts(w)[k] == t);
                    } else {
                        assert(texts(w)[k + 1] == t);
                    }
                }
                if t == x@ {
                    assert(texts(w)[p as int] == t);
                }
            }
            assert(texts(w).to_set() =~= texts(v0).to_set().insert(x@));
        }
    }
}

/// The paths whose state diverged between the recorded file hashes `man`
/// (with lockfile hash `man_lock`) and the current ones `cur` (with lockfile
/// hash `lock`): a file whose hash changed or that was added, a file that was
/// removed, and `Cargo.lock` when its hash changed.
pub open spec fn divergence(
    man: Map<Seq<char>, Seq<char>>,
    man_lock: Seq<char>,
    cur: Map<Seq<char>, Seq<char>>,
    lock: Seq<char>,
) -> Set<Seq<char>> {
    Set::new(
        |k: Seq<char>|
            (cur.contains_key(k) && !(man.contains_key(k) && man[k] == cur[k])) || (man.contains_key(k)
                && !cur.contains_key(k)) || (k == "Cargo.lock"@ && lock != man_lock),
    )
}

/// The position of the entry with key `k`.
fn find_entry(v: &Vec<(String, String)>, k: &str) -> (r: Option<usize>)
    ensures
        match r {
            Some(i) => i < v@.len() && v@[i as int].0@ == k@,
            None => forall|i: int| 0 <= i < v@.len() ==> (#[trigger] v@[i]).0@ != k@,
        },
{
    let kc = chars_of(k);
    let mut i: usize = 0;
    while i < v.len()
        invariant
            kc@ == k@,
            i <= v@.len(),
            forall|j: int| 0 <= j < i ==> (#[trigger] v@[j]).0@ != k@,
        decreases v.len() - i,
    {
        let c = chars_of(v[i].0.as_str());
        if chars_equal(&c, &kc) {
            return Some(i);
        }
        i = i + 1;
    }
    None
}

/// Whether two strings are equal.
fn same_text(a: &str, b: &str) -> (r: bool)
    ensures
        r == (a@ == b@),
{
    let ca = chars_of(a);
    let cb = chars_of(b);
    chars_equal(&ca, &cb)
}

/// Which indexed inputs diverged from `manifest`: every file whose content
/// hash changed, every file added and every file removed since the manifest
/// was written, and `Cargo.lock` when its hash changed. Paths are listed
/// once each, sorted. An empty answer means the index is up to date.
pub fn diverged_files(manifest: &Manifest, files: &Vec<SourceFile>, cargo_lock: &Option<Vec<u8>>) -> (r: Vec<String>)
    requires
        manifest.wf(),
    ensures
        sorted_texts(r@),
        texts(r@).to_set() == divergence(manifest.hashes(), manifest.cargo_lock_hash@, source_map(files@),
            lock_hash(*cargo_lock)),
{
    let ghost man = manifest.hashes();
    let ghost me = manifest.file_hashes@;
    let current = hash_sources(files);
    let ghost cur = entries_map(current@);
    let mut out: Vec<String> = Vec::new();
    proof {
        assert(texts(out@).to_set() =~= Set::<Seq<char>>::empty());
    }
    // changed or added: present now, but absent or different in the manifest
    let mut i: usize = 0;
    while i < current.len()
        invariant
            man == entries_map(me),
            me == manifest.file_hashes@,
            sorted_entries(me),
            i <= current@.len(),
            sorted_texts(out@),
            forall|k: Seq<char>| #[trigger] texts(out@).to_set().contains(k) <==> exists|j: int|
                0 <= j < i && (#[trigger] current@[j]).0@ == k && !(man.contains_key(k) && man[k] == current@[j].1@),
        decreases current.len() - i,
    {
        let key = current[i].0.as_str();
        let found = find_entry(&manifest.file_hashes, key);
        let differs = match found {
            None => true,
            Some(m) => !same_text(manifest.file_hashes[m].1.as_str(), current[i].1.as_str()),
        };
        let ghost before = texts(out@).to_set();
        proof {
            let k = current@[i as int].0@;
            lemma_entries_dom(me, k);
            match found {
                Some(m) => { lemma_entry_at(me, m as int); },
                None => {},
            }
        }
        if differs {
            insert_text(&mut out, current[i].0.clone());
        }
        proof {
            let k = current@[i as int].0@;
            lemma_entries_dom(me, k);
            assert(differs == !(man.contains_key(k) && man[k] == current@[i as int].1@)) by {
                if man.contains_key(k) {
                    let m = choose|m: int| 0 <= m < me.len() && #[trigger] me[m].0@ == k;
                    lemma_entry_at(me, m);
                }
            }
            assert forall|x: Seq<char>| #[trigger] texts(out@).to_set().contains(x) <==> exists|j: int|
                0 <= j < i + 1 && (#[trigger] current@[j]).0@ == x && !(man.contains_key(x) && man[x] == current@[j].1@) by {
                if exists|j: int| 0 <= j < i + 1 && (#[trigger] current@[j]).0@ == x && !(man.contains_key(x) && man[x] == current@[j].1@) {
                    let j = choose|j: int| 0 <= j < i + 1 && (#[trigger] current@[j]).0@ == x && !(man.contains_key(x) && man[x] == current@[j].1@);
                    if j < i {
                        assert(before.contains(x));
                    }
                }
                if before.contains(x) {
                    let j = choose|j: int| 0 <= j < i && (#[trigger] current@[j]).0@ == x && !(man.contains_key(x) && man[x] == current@[j].1@);
                    assert(0 <= j < i + 1);
                }
            }
        }
        i = i + 1;
    }
    let ghost after_changed = texts(out@).to_set();
    // removed: recorded in the manifest, gone now
    let mut m: usize = 0;
    while m < manifest.file_hashes.len()
        invariant
            me == manifest.file_hashes@,
            cur == entries_map(current@),
            m <= me.len(),
            sorted_texts(out@),
            forall|k: Seq<char>| #[trigger] texts(out@).to_set().contains(k) <==> (after_changed.contains(k)
                || exists|j: int| 0 <= j < m && (#[trigger] me[j]).0@ == k && !cur.contains_key(k)),
        decreases me.len() - m,
    {
        let key = manifest.file_hashes[m].0.as_str();
        let gone = find_entry(&current, key).is_none();
        let ghost before = texts(out@).to_set();
        if gone {
            insert_text(&mut out, manifest.file_hashes[m].0.clone());
        }
        proof {
            let k = me[m as int].0@;
            lemma_entries_dom(current@, k);
            assert(gone == !cur.contains_key(k));
            assert forall|x: Seq<char>| #[trigger] texts(out@).to_set().contains(x) <==> (after_changed.contains(x)
                || exists|j: int| 0 <= j < m + 1 && (#[trigger] me[j]).0@ == x && !cur.contains_key(x)) by {
                if exists|j: int| 0 <= j < m + 1 && (#[trigger] me[j]).0@ == x && !cur.contains_key(x) {
                    let j = choose|j: int| 0 <= j < m + 1 && (#[trigger] me[j]).0@ == x && !cur.contains_key(x);
                    if j < m {
                        assert(before.contains(x));
                    }
                }
                if before.contains(x) && !after_changed.contains(x) {
                    let j = choose|j: int| 0 <= j < m && (#[trigger] me[j]).0@ == x && !cur.contains_key(x);
                    assert(0 <= j < m + 1);
                }
            }
        }
        m = m + 1;
    }
    let ghost after_removed = texts(out@).to_set();
    // dependency drift: Cargo.lock's content changed
    let lock = hash_cargo_lock(cargo_lock);
    let lock_changed = !same_text(lock.as_str(), manifest.cargo_lock_hash.as_str());
    if lock_changed {
        let name = "Cargo.lock".to_string();
        insert_text(&mut out, name);
    }
    proof {
        let d = divergence(man, manifest.cargo_lock_hash@, cur, lock_hash(*cargo_lock));
        assert forall|k: Seq<char>| texts(out@).to_set().contains(k) <==> d.contains(k) by {
            lemma_entries_dom(current@, k);
            lemma_entries_dom(me, k);
            if after_changed.contains(k) {
                let j = choose|j: int| 0 <= j < current@.len() && (#[trigger] current@[j]).0@ == k && !(man.contains_key(k) && man[k] == current@[j].1@);
                lemma_entry_at(current@, j);
            }
            if cur.contains_key(k) && !(man.contains_key(k) && man[k] == cur[k]) {
                let j = choose|j: int| 0 <= j < current@.len() && #[trigger] current@[j].0@ == k;
                lemma_entry_at(current@, j);
                assert(after_changed.contains(k));
            }
            if man.contains_key(k) && !cur.contains_key(k) {
                let j = choose|j: int| 0 <= j < me.len() && #[trigger] me[j].0@ == k;
                assert(after_removed.contains(k));
            }
        }
        assert(texts(out@).to_set() =~= d);
    }
    out
}

// ── the fingerprint ─────────────────────────────────────────────────────────

/// `m` fingerprints the files `files` and lockfile `lock` built with
/// `toolchain`: this build's schema version, the toolchain verbatim, every
/// indexed file's hash keyed by its path in path order, and the lockfile's
/// hash.
pub open spec fn fingerprints(m: Manifest, files: Seq<SourceFile>, lock: Option<Vec<u8>>, toolchain: Seq<char>) -> bool {
    &&& m.schema_version == SCHEMA_VERSION
    &&& m.toolchain@ == toolchain
    &&& m.wf()
    &&& m.hashes() == source_map(files)
    &&& m.cargo_lock_hash@ == lock_hash(lock)
}

/// The texts of a list of entries.
pub open spec fn entry_texts(v: Seq<(String, String)>) -> Seq<(Seq<char>, Seq<char>)> {
    v.map_values(|p: (String, String)| (p.0@, p.1@))
}

/// Entries in strictly increasing key order are determined by the map they
/// describe.
proof fn lemma_sorted_entries_unique(a: Seq<(String, String)>, b: Seq<(String, String)>)
    requires
        sorted_entries(a),
        sorted_entries(b),
        entries_map(a) == entries_map(b),
    ensures
        entry_texts(a) == entry_texts(b),
    decreases a.len() + b.len(),
{
    if a.len() == 0 && b.len() == 0 {
        assert(entry_texts(a) =~= entry_texts(b));
    } else if a.len() == 0 {
        lemma_entry_at(b, b.len() - 1);
        assert(entries_map(a) =~= Map::<Seq<char>, Seq<char>>::empty());
    } else if b.len() == 0 {
        lemma_entry_at(a, a.len() - 1);
        assert(entries_map(b) =~= Map::<Seq<char>, Seq<char>>::empty());
    } else {
        let la = a.len() - 1;
        let lb = b.len() - 1;
        let ka = a[la].0@;
        let kb = b[lb].0@;
        lemma_entry_at(a, la);
        lemma_entry_at(b, lb);
        lemma_entries_dom(b, ka);
        lemma_entries_dom(a, kb);
        if ka != kb {
            let i = choose|i: int| 0 <= i < b.len() && #[trigger] b[i].0@ == ka;
            let j = choose|j: int| 0 <= j < a.len() && #[trigger] a[j].0@ == kb;
            assert(i < lb);
            assert(j < la);
            assert(lex_lt(encode_text(b[i].0@), encode_text(b[lb].0@)));
            assert(lex_lt(encode_text(a[j].0@), encode_text(a[la].0@)));
            crate::order::lemma_lex_asymmetric(encode_text(ka), encode_text(kb));
        }
        let a1 = a.drop_last();
        let b1 = b.drop_last();
        assert(sorted_entries(a1)) by {
            assert forall|x: int, y: int| 0 <= x < y < a1.len() implies lex_lt(encode_text(#[trigger] a1[x].0@), encode_text(#[trigger] a1[y].0@)) by {
                assert(a1[x] == a[x] && a1[y] == a[y]);
            }
        }
        assert(sorted_entries(b1)) by {
            assert forall|x: int, y: int| 0 <= x < y < b1.len() implies lex_lt(encode_text(#[trigger] b1[x].0@), encode_text(#[trigger] b1[y].0@)) by {
                assert(b1[x] == b[x] && b1[y] == b[y]);
            }
        }
        lemma_entries_dom(a1, ka);
        lemma_entries_dom(b1, ka);
        if entries_map(a1).contains_key(ka) {
            let i = choose|i: int| 0 <= i < a1.len() && #[trigger] a1[i].0@ == ka;
            assert(a[i] == a1[i]);
            assert(lex_lt(encode_text(a[i].0@), encode_text(a[la].0@)));
            crate::order::lemma_lex_irreflexive(encode_text(ka));
        }
        if entries_map(b1).contains_key(ka) {
            let i = choose|i: int| 0 <= i < b1.len() && #[trigger] b1[i].0@ == ka;
            assert(b[i] == b1[i]);
            assert(lex_lt(encode_text(b[i].0@), encode_text(b[lb].0@)));
            crate::order::lemma_lex_irreflexive(encode_text(ka));
        }
        assert(entries_map(a1) =~= entries_map(a).remove(ka));
        assert(entries_map(b1) =~= entries_map(b).remove(ka));
        lemma_sorted_entries_unique(a1, b1);
        assert(entry_texts(a) =~= entry_texts(a1).push((ka, a[la].1@)));
        assert(entry_texts(b) =~= entry_texts(b1).push((kb, b[lb].1@)));
    }
}

/// Fingerprinting is repeatable: two fingerprints of the same files and
/// lockfile with the same toolchain agree in everything, the file hashes
/// entry for entry, but the build time.
pub proof fn lemma_fingerprint_repeatable(
    m1: Manifest,
    m2: Manifest,
    files: Seq<SourceFile>,
    lock: Option<Vec<u8>>,
    toolchain: Seq<char>,
)
    requires
        fingerprints(m1, files, lock, toolchain),
        fingerprints(m2, files, lock, toolchain),
    ensures
        m1.schema_version == m2.schema_version,
        m1.toolchain@ == m2.toolchain@,
        entry_texts(m1.file_hashes@) == entry_texts(m2.file_hashes@),
        m1.cargo_lock_hash@ == m2.cargo_lock_hash@,
{
    lemma_sorted_entries_unique(m1.file_hashes@, m2.file_hashes@);
}

/// Compute the full source fingerprint of a workspace: every indexed file's
/// content hash keyed by its path, the hash of `Cargo.lock`, the toolchain
/// verbatim and the build time `now_secs` (seconds since the Unix epoch) in
/// RFC-3339. Identical content gives an identical fingerprint but for the
/// build time.
pub fn fingerprint_workspace(files: &Vec<SourceFile>, cargo_lock: &Option<Vec<u8>>, toolchain: &str, now_secs: i64) -> (m: Manifest)
    ensures
        fingerprints(m, files@, *cargo_lock, toolchain@),
        m.indexed_at@ == rfc3339(now_secs as int),
        0 <= civil(now_secs as int / 86400).0 <= 9999 ==> timestamp_shaped(m.indexed_at@),
{
    let file_hashes = hash_sources(files);
    let cargo_lock_hash = hash_cargo_lock(cargo_lock);
    Manifest {
        schema_version: SCHEMA_VERSION,
        toolchain: toolchain.to_owned(),
        file_hashes,
        cargo_lock_hash,
        indexed_at: unix_secs_to_rfc3339(now_secs),
    }
}

/// A workspace compared with its own fingerprint has diverged nowhere: the
/// staleness check of an unchanged workspace is empty.
pub proof fn lemma_unchanged_not_stale(hashes: Map<Seq<char>, Seq<char>>, lock: Seq<char>)
    ensures
        divergence(hashes, lock, hashes, lock) == Set::<Seq<char>>::empty(),
{
    assert(divergence(hashes, lock, hashes, lock) =~= Set::<Seq<char>>::empty());
}

/// Editing one recorded file is reported as exactly that file.
pub proof fn lemma_edit_reported(hashes: Map<Seq<char>, Seq<char>>, lock: Seq<char>, k: Seq<char>, h: Seq<char>)
    requires
        hashes.contains_key(k),
        hashes[k] != h,
        k != "Cargo.lock"@,
    ensures
        divergence(hashes, lock, hashes.insert(k, h), lock) == set![k],
{
    assert(divergence(hashes, lock, hashes.insert(k, h), lock) =~= set![k]);
}

/// Adding a file is reported as exactly that file.
pub proof fn lemma_addition_reported(hashes: Map<Seq<char>, Seq<char>>, lock: Seq<char>, k: Seq<char>, h: Seq<char>)
    requires
        !hashes.contains_key(k),
        k != "Cargo.lock"@,
    ensures
        divergence(hashes, lock, hashes.insert(k, h), lock) == set![k],
{
    assert(divergence(hashes, lock, hashes.insert(k, h), lock) =~= set![k]);
}

/// Removing a recorded file is reported as exactly that file.
pub proof fn lemma_removal_reported(hashes: Map<Seq<char>, Seq<char>>, lock: Seq<char>, k: Seq<char>)
    requires
        hashes.contains_key(k),
        k != "Cargo.lock"@,
    ensures
        divergence(hashes, lock, hashes.remove(k), lock) == set![k],
{
    assert(divergence(hashes, lock, hashes.remove(k), lock) =~= set![k]);
}

/// A changed lockfile alone is reported as `Cargo.lock` alone.
pub proof fn lemma_lock_change_reported(hashes: Map<Seq<char>, Seq<char>>, lock: Seq<char>, new_lock: Seq<char>)
    requires
        lock != new_lock,
    ensures
        divergence(hashes, lock, hashes, new_lock) == set!["Cargo.lock"@],
{
    assert(divergence(hashes, lock, hashes, new_lock) =~= set!["Cargo.lock"@]);
}


/// On files: writing one indexed file (a new one, or a later entry for a
/// recorded path) whose content hashes differently from what is recorded is
/// reported as exactly that file.
pub proof fn lemma_file_write_reported(files: Seq<SourceFile>, lock: Seq<char>, f: SourceFile)
    requires
        indexed(f),
        file_key(f) != "Cargo.lock"@,
        !(source_map(files).contains_key(file_key(f)) && source_map(files)[file_key(f)] == hash_text(f.bytes@)),
    ensures
        divergence(source_map(files), lock, source_map(files.push(f)), lock) == set![file_key(f)],
{
    assert(files.push(f).drop_last() =~= files);
    assert(source_map(files.push(f)) == source_map(files).insert(file_key(f), hash_text(f.bytes@)));
    let m = source_map(files);
    let k = file_key(f);
    let h = hash_text(f.bytes@);
    if m.contains_key(k) {
        lemma_edit_reported(m, lock, k, h);
    } else {
        lemma_addition_reported(m, lock, k, h);
    }
}

/// Leaving out every file recorded under `k` takes `k` out of the source state.
proof fn lemma_source_map_without(files: Seq<SourceFile>, k: Seq<char>)
    ensures
        source_map(files.filter(|g: SourceFile| !(indexed(g) && file_key(g) == k))) == source_map(files).remove(k),
    decreases files.len(),
{
    let keep = |g: SourceFile| !(indexed(g) && file_key(g) == k);
    reveal(Seq::filter);
    if files.len() == 0 {
        assert(source_map(files.filter(keep)) =~= source_map(files).remove(k));
    } else {
        let d = files.drop_last();
        let g = files.last();
        lemma_source_map_without(d, k);
        if keep(g) {
            assert(files.filter(keep) == d.filter(keep).push(g));
            assert(d.filter(keep).push(g).drop_last() =~= d.filter(keep));
            assert(source_map(files.filter(keep)) =~= source_map(files).remove(k));
        } else {
            assert(files.filter(keep) == d.filter(keep));
            assert(source_map(files.filter(keep)) =~= source_map(files).remove(k));
        }
    }
}

/// On files: deleting the recorded file at `k` is reported as exactly that
/// file.
pub proof fn lemma_file_removal_reported(files: Seq<SourceFile>, lock: Seq<char>, k: Seq<char>)
    requires
        source_map(files).contains_key(k),
        k != "Cargo.lock"@,
    ensures
        divergence(source_map(files), lock, source_map(files.filter(|g: SourceFile| !(indexed(g) && file_key(g) == k))), lock)
            == set![k],
{
    lemma_source_map_without(files, k);
    lemma_removal_reported(source_map(files), lock, k);
}

/// On files: rewriting only the lockfile, so that its hash changes, is
/// reported as `Cargo.lock` alone.
pub proof fn lemma_file_lock_change_reported(files: Seq<SourceFile>, old_lock: Option<Vec<u8>>, new_lock: Option<Vec<u8>>)
    requires
        lock_hash(old_lock) != lock_hash(new_lock),
    ensures
        divergence(source_map(files), lock_hash(old_lock), source_map(files), lock_hash(new_lock)) == set!["Cargo.lock"@],
{
    lemma_lock_change_reported(source_map(files), lock_hash(old_lock), lock_hash(new_lock));
}

// ── laws on keys and on which files are indexed ─────────────────────────────

/// A key splits at any component boundary: the key of the first `i`
/// components, a `/`, then the key of the rest. With a one-component key
/// being that component, this fixes every key as all components joined by `/`.
pub proof fn lemma_joined_path_split(cs: Seq<Seq<char>>, i: int)
    requires
        0 < i < cs.len(),
    ensures
        joined_path(cs) == joined_path(cs.take(i)) + seq!['/'] + joined_path(cs.skip(i)),
        joined_path(seq![cs[0]]) == cs[0],
    decreases cs.len(),
{
    assert(joined_path(seq![cs[0]]) == seq![cs[0]][0]);
    let dl = cs.drop_last();
    if i == cs.len() - 1 {
        assert(cs.take(i) =~= dl);
        assert(cs.skip(i) =~= seq![cs.last()]);
        assert(joined_path(cs.skip(i)) == cs.skip(i)[0]);
    } else {
        lemma_joined_path_split(dl, i);
        assert(dl.take(i) =~= cs.take(i));
        let r = cs.skip(i);
        assert(r.drop_last() =~= dl.skip(i));
        assert(r.last() == cs.last());
        assert(joined_path(r) == joined_path(r.drop_last()) + seq!['/'] + r.last());
        assert(joined_path(cs) =~= joined_path(cs.take(i)) + seq!['/'] + joined_path(cs.skip(i)));
    }
}

/// A path component as a directory walk yields it: not empty, and free of
/// the `/` separator.
pub open spec fn plain_component(c: Seq<char>) -> bool {
    c.len() > 0 && !c.contains('/')
}

/// The key of plain components holds no `/` but the separators: the text
/// after its last `/` is the last component, and it is at least as long as
/// that component.
proof fn lemma_joined_path_tail(cs: Seq<Seq<char>>)
    requires
        cs.len() >= 1,
        forall|i: int| 0 <= i < cs.len() ==> plain_component(#[trigger] cs[i]),
    ensures
        joined_path(cs).len() >= cs.last().len() > 0,
        cs.len() == 1 ==> !joined_path(cs).contains('/'),
        cs.len() >= 2 ==> joined_path(cs) == joined_path(cs.drop_last()) + seq!['/'] + cs.last(),
{
}

/// Distinct paths get distinct keys: two sequences of plain components with
/// the same key are the same sequence.
pub proof fn lemma_joined_path_injective(a: Seq<Seq<char>>, b: Seq<Seq<char>>)
    requires
        forall|i: int| 0 <= i < a.len() ==> plain_component(#[trigger] a[i]),
        forall|i: int| 0 <= i < b.len() ==> plain_component(#[trigger] b[i]),
        joined_path(a) == joined_path(b),
    ensures
        a == b,
    decreases a.len() + b.len(),
{
    if a.len() == 0 && b.len() == 0 {
        assert(a =~= b);
    } else if a.len() == 0 {
        lemma_joined_path_tail(b);
    } else if b.len() == 0 {
        lemma_joined_path_tail(a);
    } else {
        lemma_joined_path_tail(a);
        lemma_joined_path_tail(b);
        let j = joined_path(a);
        if a.len() == 1 && b.len() == 1 {
            assert(a =~= b);
        } else if a.len() == 1 {
            let p = joined_path(b.drop_last());
            assert(j[p.len() as int] == '/');
            assert(j.contains('/'));
        } else if b.len() == 1 {
            let p = joined_path(a.drop_last());
            assert(j[p.len() as int] == '/');
            assert(j.contains('/'));
        } else {
            let pa = joined_path(a.drop_last());
            let pb = joined_path(b.drop_last());
            let la = a.last();
            let lb = b.last();
            assert(j =~= pa + seq!['/'] + la);
            assert(j =~= pb + seq!['/'] + lb);
            // the last separator sits just before the last component
            if pa.len() < pb.len() {
                assert(j[pb.len() as int] == '/');
                assert(la[pb.len() - pa.len() - 1] == j[pb.len() as int]);
                assert(la.contains('/'));
            } else if pb.len() < pa.len() {
                assert(j[pa.len() as int] == '/');
                assert(lb[pa.len() - pb.len() - 1] == j[pa.len() as int]);
                assert(lb.contains('/'));
            }
            assert(pa =~= j.take(pa.len() as int));
            assert(pb =~= j.take(pb.len() as int));
            assert(la =~= j.skip(pa.len() as int + 1));
            assert(lb =~= j.skip(pb.len() as int + 1));
            lemma_joined_path_injective(a.drop_last(), b.drop_last());
            assert(a =~= a.drop_last().push(la));
            assert(b =~= b.drop_last().push(lb));
        }
    }
}

/// Two files whose path components are plain are recorded under the same key
/// only when they have the same path.
pub proof fn lemma_file_keys_distinct(f: SourceFile, g: SourceFile)
    requires
        forall|i: int| 0 <= i < f.components@.len() ==> plain_component(#[trigger] f.components@[i]@),
        forall|i: int| 0 <= i < g.components@.len() ==> plain_component(#[trigger] g.components@[i]@),
        texts(f.components@) != texts(g.components@),
    ensures
        file_key(f) != file_key(g),
{
    let a = texts(f.components@);
    let b = texts(g.components@);
    assert forall|i: int| 0 <= i < a.len() implies plain_component(#[trigger] a[i]) by {
        assert(a[i] == f.components@[i]@);
    }
    assert forall|i: int| 0 <= i < b.len() implies plain_component(#[trigger] b[i]) by {
        assert(b[i] == g.components@[i]@);
    }
    if file_key(f) == file_key(g) {
        lemma_joined_path_injective(a, b);
    }
}

/// Which files are indexed: exactly those named `*.rs` (more than just
/// `.rs`) none of whose directories is `target` or starts with `.`; a `.rs`
/// file under any other directory (`tests/`, `benches/`, `crates/...`) is
/// indexed.
pub proof fn lemma_indexed_exactly(f: SourceFile)
    ensures
        indexed(f) <==> ({
            let cs = texts(f.components@);
            &&& cs.len() >= 1
            &&& forall|i: int| 0 <= i < cs.len() - 1 ==> (#[trigger] cs[i]) != "target"@ && !(cs[i].len() > 0
                && cs[i][0] == '.')
            &&& cs.last().len() > 3
            &&& cs.last().subrange(cs.last().len() - 3, cs.last().len() as int) == ".rs"@
        }),
{
    reveal_strlit("target");
    reveal_strlit(".rs");
    let cs = texts(f.components@);
    assert(seq!['t', 'a', 'r', 'g', 'e', 't'] =~= "target"@);
    if cs.len() >= 1 && cs.last().len() > 3 {
        let l = cs.last();
        let t = l.subrange(l.len() - 3, l.len() as int);
        if t == ".rs"@ {
            assert(t[0] == '.' && t[1] == 'r' && t[2] == 's');
        }
        if is_rs_name(l) {
            assert(t =~= ".rs"@);
        }
    }
}

/// An edit to any indexed file, wherever it lies outside `target` and hidden
/// directories, is reported as exactly that file.
pub proof fn lemma_edit_outside_skipped_dirs_reported(files: Seq<SourceFile>, lock: Seq<char>, f: SourceFile)
    requires
        texts(f.components@).len() >= 1,
        forall|i: int| 0 <= i < texts(f.components@).len() - 1 ==> (#[trigger] texts(f.components@)[i]) != "target"@
            && !(texts(f.components@)[i].len() > 0 && texts(f.components@)[i][0] == '.'),
        is_rs_name(texts(f.components@).last()),
        file_key(f) != "Cargo.lock"@,
        !(source_map(files).contains_key(file_key(f)) && source_map(files)[file_key(f)] == hash_text(f.bytes@)),
    ensures
        divergence(source_map(files), lock, source_map(files.push(f)), lock) == set![file_key(f)],
{
    reveal_strlit("target");
    assert(seq!['t', 'a', 'r', 'g', 'e', 't'] =~= "target"@);
    assert(indexed(f));
    lemma_file_write_reported(files, lock, f);
}

} // verus!
