//! A small tokenizer library, laid out so that its call graph exercises what
//! a change-impact index has to see through: a function reached through a
//! closure body, through generic dispatch and through `dyn` dispatch.
//!
//! The target everything leads to is [`normalize_token`].

use vstd::prelude::*;

use crate::fingerprint::texts;
use crate::text::{chars_of, is_white_space, is_whitespace, lowercase_of, push_char, to_lowercase, trim, trimmed};

verus! {

/// The normal form of a token: lowercased, then trimmed.
pub open spec fn normalized(t: Seq<char>) -> Seq<char> {
    trimmed(lowercase_of(t))
}

/// Lowercases and trims a single token.
pub fn normalize_token(t: &str) -> (r: String)
    ensures
        r@ == normalized(t@),
{
    let lowered = to_lowercase(t);
    let round_tripped = ensure_round_trip(lowered.as_str());
    trim(round_tripped.as_str())
}

/// Rebuilds a string from its own characters: the identity.
fn ensure_round_trip(s: &str) -> (r: String)
    ensures
        r@ == s@,
{
    let cs = chars_of(s);
    let mut out = String::new();
    let mut i: usize = 0;
    while i < cs.len()
        invariant
            cs@ == s@,
            i <= cs@.len(),
            out@ == cs@.take(i as int),
        decreases cs.len() - i,
    {
        push_char(&mut out, cs[i]);
        assert(cs@.take(i + 1) =~= cs@.take(i as int).push(cs@[i as int]));
        i = i + 1;
    }
    assert(cs@.take(cs@.len() as int) =~= cs@);
    out
}

/// Splitting `s` at the separators `sep` accepts: the fields completed so
/// far, and the field under way.
pub open spec fn split_state(s: Seq<char>, sep: spec_fn(char) -> bool) -> (Seq<Seq<char>>, Seq<char>)
    decreases s.len(),
{
    if s.len() == 0 {
        (seq![], seq![])
    } else {
        let st = split_state(s.drop_last(), sep);
        if sep(s.last()) {
            (if st.1.len() > 0 { st.0.push(st.1) } else { st.0 }, seq![])
        } else {
            (st.0, st.1.push(s.last()))
        }
    }
}

/// The maximal runs of characters of `s` that are not separators, in order.
pub open spec fn fields(s: Seq<char>, sep: spec_fn(char) -> bool) -> Seq<Seq<char>> {
    let st = split_state(s, sep);
    if st.1.len() > 0 {
        st.0.push(st.1)
    } else {
        st.0
    }
}

/// Unicode white space separates.
pub open spec fn white_space() -> spec_fn(char) -> bool {
    |c: char| is_white_space(c)
}

/// Unicode white space and commas separate.
pub open spec fn white_space_or_comma() -> spec_fn(char) -> bool {
    |c: char| is_white_space(c) || c == ','
}

/// Normalizing each token.
pub open spec fn normalize_each() -> spec_fn(Seq<char>) -> Seq<char> {
    |t: Seq<char>| normalized(t)
}

/// The non-empty fields of `input` between separators: white space, and
/// also commas when `commas` is set.
fn split_fields(input: &str, commas: bool) -> (r: Vec<String>)
    ensures
        texts(r@) == fields(input@, if commas { white_space_or_comma() } else { white_space() }),
{
    let ghost sep = if commas { white_space_or_comma() } else { white_space() };
    let cs = chars_of(input);
    let mut done: Vec<String> = Vec::new();
    let mut cur = String::new();
    let mut cur_len: usize = 0;
    let mut i: usize = 0;
    while i < cs.len()
        invariant
            cs@ == input@,
            cur_len == cur@.len(),
            cur_len <= i,
            sep == (if commas { white_space_or_comma() } else { white_space() }),
            i <= cs@.len(),
            (texts(done@), cur@) == split_state(cs@.take(i as int), sep),
        decreases cs.len() - i,
    {
        let c = cs[i];
        proof {
            assert(cs@.take(i + 1).drop_last() =~= cs@.take(i as int));
            assert(cs@.take(i + 1).last() == c);
        }
        let is_sep = is_whitespace(c) || (commas && c == ',');
        assert(is_sep == sep(c));
        if is_sep {
            if cur_len > 0 {
                let ghost d0 = done@;
                let ghost c0 = cur@;
                done.push(cur);
                assert(texts(done@) =~= texts(d0).push(c0));
            }
            cur = String::new();
            cur_len = 0;
        } else {
            push_char(&mut cur, c);
            cur_len = cur_len + 1;
        }
        i = i + 1;
    }
    assert(cs@.take(cs@.len() as int) =~= cs@);
    if cur_len > 0 {
        let ghost d0 = done@;
        let ghost c0 = cur@;
        done.push(cur);
        assert(texts(done@) =~= texts(d0).push(c0));
    }
    done
}

/// Normalizes every token.
fn normalize_all(tokens: &Vec<String>) -> (r: Vec<String>)
    ensures
        texts(r@) == texts(tokens@).map_values(normalize_each()),
{
    let mut out: Vec<String> = Vec::new();
    let mut i: usize = 0;
    while i < tokens.len()
        invariant
            i <= tokens@.len(),
            texts(out@) == texts(tokens@).take(i as int).map_values(normalize_each()),
        decreases tokens.len() - i,
    {
        let n = normalize_token(tokens[i].as_str());
        let ghost o0 = out@;
        out.push(n);
        proof {
            assert(texts(tokens@).take(i + 1) =~= texts(tokens@).take(i as int).push(tokens@[i as int]@));
            assert(texts(out@) =~= texts(o0).push(n@));
        }
        i = i + 1;
    }
    assert(texts(tokens@).take(tokens@.len() as int) =~= texts(tokens@));
    out
}

/// Splits an input into tokens.
pub trait Tokenizer {
    /// The tokens `tokenize` gives for `input`.
    spec fn tokens(&self, input: Seq<char>) -> Seq<Seq<char>>;

    fn tokenize(&self, input: &str) -> (r: Vec<String>)
        ensures
            texts(r@) == self.tokens(input@),
    ;
}

/// Splits on white space and normalizes each token.
pub struct Simple;

impl Tokenizer for Simple {
    open spec fn tokens(&self, input: Seq<char>) -> Seq<Seq<char>> {
        fields(input, white_space()).map_values(normalize_each())
    }

    fn tokenize(&self, input: &str) -> (r: Vec<String>) {
        let parts = split_fields(input, false);
        normalize_all(&parts)
    }
}

/// Splits on white space and commas, skips empty pieces, and normalizes each
/// token.
pub struct Fancy;

impl Tokenizer for Fancy {
    open spec fn tokens(&self, input: Seq<char>) -> Seq<Seq<char>> {
        fields(input, white_space_or_comma()).map_values(normalize_each())
    }

    fn tokenize(&self, input: &str) -> (r: Vec<String>) {
        let parts = split_fields(input, true);
        normalize_all(&parts)
    }
}

/// Tokenizes through a statically dispatched tokenizer.
pub fn run_generic<T: Tokenizer>(t: &T, input: &str) -> (r: Vec<String>)
    ensures
        texts(r@) == t.tokens(input@),
{
    t.tokenize(input)
}

/// Tokenizes through a trait object.
pub fn run_dyn(t: &dyn Tokenizer, input: &str) -> (r: Vec<String>)
    ensures
        texts(r@) == t.tokens(input@),
{
    t.tokenize(input)
}

} // verus!
