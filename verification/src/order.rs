//! Lexicographic order on integer keys, and a stable sort of keyed items.
//!
//! Every ordering the library promises (symbols by path then id, call paths by
//! their path sequence, edges by their endpoints) is reduced to comparing
//! sequences of `u64` lexicographically. A string enters a key through
//! [`encode_text`], which shifts each code point up by one and closes it with a
//! `0`, so that a shorter string sorts before every extension of it, exactly as
//! `String`'s own order does.

use vstd::prelude::*;

use crate::text::chars_of;

verus! {

broadcast use vstd::seq_lib::group_to_multiset_ensures;

/// Strict lexicographic order on sequences of `u64`.
pub open spec fn lex_lt(a: Seq<u64>, b: Seq<u64>) -> bool
    decreases a.len(),
{
    if a.len() == 0 {
        b.len() > 0
    } else if b.len() == 0 {
        false
    } else if a[0] < b[0] {
        true
    } else if a[0] > b[0] {
        false
    } else {
        lex_lt(a.drop_first(), b.drop_first())
    }
}

/// The key of a text: each code point plus one, then a closing zero.
pub open spec fn encode_text(cs: Seq<char>) -> Seq<u64> {
    cs.map_values(|c: char| ((c as u32) as u64 + 1) as u64).push(0u64)
}

pub proof fn lemma_lex_irreflexive(a: Seq<u64>)
    ensures
        !lex_lt(a, a),
    decreases a.len(),
{
    if a.len() > 0 {
        lemma_lex_irreflexive(a.drop_first());
    }
}

pub proof fn lemma_lex_asymmetric(a: Seq<u64>, b: Seq<u64>)
    ensures
        !(lex_lt(a, b) && lex_lt(b, a)),
    decreases a.len(),
{
    if a.len() > 0 && b.len() > 0 && a[0] == b[0] {
        lemma_lex_asymmetric(a.drop_first(), b.drop_first());
    }
}

pub proof fn lemma_lex_transitive(a: Seq<u64>, b: Seq<u64>, c: Seq<u64>)
    requires
        lex_lt(a, b),
        lex_lt(b, c),
    ensures
        lex_lt(a, c),
    decreases a.len(),
{
    if a.len() > 0 && b.len() > 0 && c.len() > 0 && a[0] == b[0] && b[0] == c[0] {
        lemma_lex_transitive(a.drop_first(), b.drop_first(), c.drop_first());
    }
}

pub proof fn lemma_lex_total(a: Seq<u64>, b: Seq<u64>)
    ensures
        lex_lt(a, b) || lex_lt(b, a) || a =~= b,
    decreases a.len(),
{
    if a.len() > 0 && b.len() > 0 && a[0] == b[0] {
        lemma_lex_total(a.drop_first(), b.drop_first());
        if a.drop_first() =~= b.drop_first() {
            assert(a =~= seq![a[0]] + a.drop_first());
            assert(b =~= seq![b[0]] + b.drop_first());
        }
    }
}

/// A lexicographic comparison of two keys.
pub fn lex_less(a: &Vec<u64>, b: &Vec<u64>) -> (r: bool)
    ensures
        r == lex_lt(a@, b@),
{
    let mut i: usize = 0;
    assert(a@.skip(0) =~= a@);
    assert(b@.skip(0) =~= b@);
    while i < a.len() && i < b.len()
        invariant
            i <= a.len(),
            i <= b.len(),
            forall|k: int| 0 <= k < i ==> a@[k] == b@[k],
            lex_lt(a@, b@) == lex_lt(a@.skip(i as int), b@.skip(i as int)),
        decreases a.len() - i,
    {
        if a[i] < b[i] {
            return true;
        }
        if a[i] > b[i] {
            return false;
        }
        assert(a@.skip(i as int).drop_first() =~= a@.skip(i + 1));
        assert(b@.skip(i as int).drop_first() =~= b@.skip(i + 1));
        i = i + 1;
    }
    i < b.len()
}

/// Appends the key encoding of a text.
pub fn push_encoded(out: &mut Vec<u64>, cs: &Vec<char>)
    ensures
        final(out)@ == old(out)@ + encode_text(cs@),
{
    let ghost start = out@;
    let mut i: usize = 0;
    while i < cs.len()
        invariant
            i <= cs.len(),
            out@ == start + cs@.take(i as int).map_values(|c: char| ((c as u32) as u64 + 1) as u64),
        decreases cs.len() - i,
    {
        let c = cs[i];
        out.push((c as u32) as u64 + 1);
        assert(cs@.take(i + 1).map_values(|c: char| ((c as u32) as u64 + 1) as u64) =~= cs@.take(
            i as int,
        ).map_values(|c: char| ((c as u32) as u64 + 1) as u64).push(((c as u32) as u64 + 1) as u64));
        i = i + 1;
    }
    out.push(0);
    assert(cs@.take(cs.len() as int) =~= cs@);
    assert(out@ =~= start + encode_text(cs@));
}

/// The order key of a text.
pub fn text_key(s: &str) -> (k: Vec<u64>)
    ensures
        k@ == encode_text(s@),
{
    let cs = chars_of(s);
    let mut k: Vec<u64> = Vec::new();
    push_encoded(&mut k, &cs);
    assert(k@ =~= encode_text(s@));
    k
}

/// A comparison decided before either side ends is kept whatever follows.
pub proof fn lemma_lex_append(u: Seq<u64>, v: Seq<u64>, x: Seq<u64>, y: Seq<u64>)
    requires
        lex_lt(u, v),
        !u.is_prefix_of(v),
    ensures
        lex_lt(u + x, v + y),
    decreases u.len(),
{
    if u.len() == 0 {
        assert(u.is_prefix_of(v));
    } else {
        assert((u + x)[0] == u[0] && (v + y)[0] == v[0]);
        if u[0] == v[0] {
            assert((u + x).drop_first() =~= u.drop_first() + x);
            assert((v + y).drop_first() =~= v.drop_first() + y);
            if u.drop_first().is_prefix_of(v.drop_first()) {
                assert forall|i: int| 0 <= i < u.len() implies u[i] == v[i] by {
                    if i > 0 {
                        assert(u.drop_first()[i - 1] == v.drop_first()[i - 1]);
                    }
                }
                assert(u.is_prefix_of(v));
            }
            lemma_lex_append(u.drop_first(), v.drop_first(), x, y);
        }
    }
}

/// A common beginning does not change a comparison.
pub proof fn lemma_lex_common_prefix(a: Seq<u64>, x: Seq<u64>, y: Seq<u64>)
    ensures
        lex_lt(a + x, a + y) == lex_lt(x, y),
    decreases a.len(),
{
    if a.len() == 0 {
        assert(a + x =~= x);
        assert(a + y =~= y);
    } else {
        assert((a + x)[0] == a[0] && (a + y)[0] == a[0]);
        assert((a + x).drop_first() =~= a.drop_first() + x);
        assert((a + y).drop_first() =~= a.drop_first() + y);
        lemma_lex_common_prefix(a.drop_first(), x, y);
    }
}

/// The key of one text is never a beginning of the key of another.
pub proof fn lemma_encode_not_prefix(a: Seq<char>, b: Seq<char>)
    requires
        a != b,
    ensures
        !encode_text(a).is_prefix_of(encode_text(b)),
{
    let ea = encode_text(a);
    let eb = encode_text(b);
    if ea.is_prefix_of(eb) {
        if a.len() == b.len() {
            assert(ea =~= eb);
            lemma_encode_injective(a, b);
        } else {
            let n = a.len() as int;
            assert(ea[n] == 0);
            assert(eb[n] == ea[n]);
            assert(n < b.len());
            assert(eb[n] == ((b[n] as u32) as u64 + 1) as u64);
            assert((b[n] as u32) <= 0x10FFFF);
        }
    }
}

/// Of two different texts, the one whose key comes first keeps coming first
/// whatever follows either key.
pub proof fn lemma_text_before(a: Seq<char>, b: Seq<char>, x: Seq<u64>, y: Seq<u64>)
    requires
        lex_lt(encode_text(a), encode_text(b)),
    ensures
        lex_lt(encode_text(a) + x, encode_text(b) + y),
{
    if a == b {
        lemma_lex_irreflexive(encode_text(a));
    }
    lemma_encode_not_prefix(a, b);
    lemma_lex_append(encode_text(a), encode_text(b), x, y);
}

/// Texts with the same key are the same text.
pub proof fn lemma_encode_injective(a: Seq<char>, b: Seq<char>)
    requires
        encode_text(a) == encode_text(b),
    ensures
        a == b,
{
    assert(encode_text(a).len() == a.len() + 1);
    assert(encode_text(b).len() == b.len() + 1);
    assert forall|i: int| 0 <= i < a.len() implies a[i] == b[i] by {
        let x = a[i];
        let y = b[i];
        assert(encode_text(a)[i] == encode_text(b)[i]);
        assert(encode_text(a)[i] == ((x as u32) as u64 + 1) as u64);
        assert(encode_text(b)[i] == ((y as u32) as u64 + 1) as u64);
        assert((x as u32) as u64 + 1 <= u64::MAX);
        assert((y as u32) as u64 + 1 <= u64::MAX);
        assert((x as u32) == (y as u32));
        vstd::utf8::char_u32_cast(x, x as u32);
        vstd::utf8::char_u32_cast(y, y as u32);
    }
    assert(a =~= b);
}

/// Distinct texts are strictly ordered one way or the other.
pub proof fn lemma_text_order(a: Seq<char>, b: Seq<char>)
    ensures
        a != b ==> (lex_lt(encode_text(a), encode_text(b)) || lex_lt(encode_text(b), encode_text(a))),
        !lex_lt(encode_text(a), encode_text(a)),
{
    lemma_lex_irreflexive(encode_text(a));
    lemma_lex_total(encode_text(a), encode_text(b));
    if encode_text(a) =~= encode_text(b) {
        lemma_encode_injective(a, b);
    }
}

/// An item carried together with its sort key.
pub struct Keyed<T> {
    pub key: Vec<u64>,
    pub item: T,
}

/// The mathematical view of keyed items: key sequences paired with items.
pub open spec fn keyed_view<T>(s: Seq<Keyed<T>>) -> Seq<(Seq<u64>, T)> {
    s.map_values(|k: Keyed<T>| (k.key@, k.item))
}

/// Places `x` behind every element whose key is not greater than its own,
/// scanning from the back: the step of a stable insertion sort.
pub open spec fn insert_sorted<T>(s: Seq<(Seq<u64>, T)>, x: (Seq<u64>, T)) -> Seq<(Seq<u64>, T)>
    decreases s.len(),
{
    if s.len() == 0 {
        seq![x]
    } else if lex_lt(x.0, s.last().0) {
        insert_sorted(s.drop_last(), x).push(s.last())
    } else {
        s.push(x)
    }
}

/// The stable sort of `s` by key: items with equal keys keep their order.
pub open spec fn sort_keyed<T>(s: Seq<(Seq<u64>, T)>) -> Seq<(Seq<u64>, T)>
    decreases s.len(),
{
    if s.len() == 0 {
        seq![]
    } else {
        insert_sorted(sort_keyed(s.drop_last()), s.last())
    }
}

/// Keys never decrease along `s`.
pub open spec fn keys_sorted<T>(s: Seq<(Seq<u64>, T)>) -> bool {
    forall|i: int, j: int| 0 <= i < j < s.len() ==> !lex_lt(#[trigger] s[j].0, #[trigger] s[i].0)
}

proof fn lemma_insert_at<T>(s: Seq<(Seq<u64>, T)>, x: (Seq<u64>, T), p: int)
    requires
        0 <= p <= s.len(),
        forall|j: int| p <= j < s.len() ==> lex_lt(x.0, #[trigger] s[j].0),
        p == 0 || !lex_lt(x.0, s[p - 1].0),
    ensures
        insert_sorted(s, x) =~= s.insert(p, x),
    decreases s.len(),
{
    if s.len() > 0 {
        if p < s.len() {
            lemma_insert_at(s.drop_last(), x, p);
            assert(s.drop_last().insert(p, x).push(s.last()) =~= s.insert(p, x));
        }
    }
}

proof fn lemma_insert_sorted_props<T>(s: Seq<(Seq<u64>, T)>, x: (Seq<u64>, T))
    requires
        keys_sorted(s),
    ensures
        keys_sorted(insert_sorted(s, x)),
        insert_sorted(s, x).to_multiset() =~= s.to_multiset().insert(x),
        insert_sorted(s, x).len() == s.len() + 1,
    decreases s.len(),
{
    if s.len() == 0 {
        assert(seq![x] =~= Seq::<(Seq<u64>, T)>::empty().push(x));
    } else if lex_lt(x.0, s.last().0) {
        let t = s.drop_last();
        assert(keys_sorted(t));
        lemma_insert_sorted_props(t, x);
        let u = insert_sorted(t, x);
        assert(s =~= t.push(s.last()));
        assert forall|i: int, j: int| 0 <= i < j < u.push(s.last()).len() implies
            !lex_lt(#[trigger] u.push(s.last())[j].0, #[trigger] u.push(s.last())[i].0) by {
            if j == u.len() {
                let e = u[i];
                assert(u.to_multiset().count(e) > 0);
                assert(t.to_multiset().insert(x).count(e) > 0);
                if e == x {
                    lemma_lex_asymmetric(x.0, s.last().0);
                } else {
                    assert(t.to_multiset().count(e) > 0);
                    assert(t.contains(e));
                    let k = choose|k: int| 0 <= k < t.len() && t[k] == e;
                    assert(!lex_lt(s[s.len() - 1].0, s[k].0));
                }
            }
        }
    } else {
        assert forall|i: int, j: int| 0 <= i < j < s.push(x).len() implies
            !lex_lt(#[trigger] s.push(x)[j].0, #[trigger] s.push(x)[i].0) by {
            if j == s.len() {
                if i < s.len() - 1 {
                    assert(!lex_lt(s.last().0, s[i].0));
                    lemma_lex_total(s.last().0, s[i].0);
                    if lex_lt(x.0, s[i].0) {
                        lemma_lex_total(x.0, s.last().0);
                        if s.last().0 =~= s[i].0 {
                        } else if lex_lt(s[i].0, s.last().0) {
                            lemma_lex_transitive(x.0, s[i].0, s.last().0);
                        } else {
                            lemma_lex_transitive(s.last().0, x.0, s[i].0);
                            lemma_lex_total(x.0, s.last().0);
                            if x.0 =~= s.last().0 {
                                lemma_lex_irreflexive(x.0);
                            } else {
                                lemma_lex_asymmetric(x.0, s.last().0);
                            }
                        }
                    }
                }
            }
        }
    }
}

/// The stable sort orders the keys and keeps exactly the same items.
pub proof fn lemma_sort_keyed_props<T>(s: Seq<(Seq<u64>, T)>)
    ensures
        keys_sorted(sort_keyed(s)),
        sort_keyed(s).to_multiset() =~= s.to_multiset(),
        sort_keyed(s).len() == s.len(),
    decreases s.len(),
{
    if s.len() > 0 {
        lemma_sort_keyed_props(s.drop_last());
        lemma_insert_sorted_props(sort_keyed(s.drop_last()), s.last());
        assert(s =~= s.drop_last().push(s.last()));
    }
}

/// Sorts items by key, keeping the order of items whose keys are equal.
pub fn sort_by_key<T>(items: Vec<Keyed<T>>) -> (r: Vec<Keyed<T>>)
    ensures
        keyed_view(r@) == sort_keyed(keyed_view(items@)),
{
    let ghost orig = keyed_view(items@);
    let mut rest = items;
    let mut out: Vec<Keyed<T>> = Vec::new();
    let mut i: usize = 0;
    let n = rest.len();
    while rest.len() > 0
        invariant
            n == orig.len(),
            i + rest.len() == n,
            keyed_view(rest@) =~= orig.skip(i as int),
            keyed_view(out@) == sort_keyed(orig.take(i as int)),
        decreases rest.len(),
    {
        let ghost rest_before = rest@;
        let x = rest.remove(0);
        assert(keyed_view(rest@) =~= keyed_view(rest_before).skip(1));
        assert(keyed_view(rest_before)[0] == (x.key@, x.item));
        let ghost before = keyed_view(out@);
        let mut p: usize = out.len();
        while p > 0 && lex_less(&x.key, &out[p - 1].key)
            invariant
                p <= out.len(),
                keyed_view(out@) == before,
                forall|j: int| p <= j < out.len() ==> lex_lt(x.key@, #[trigger] before[j].0),
            decreases p,
        {
            p = p - 1;
        }
        proof {
            lemma_insert_at(before, (x.key@, x.item), p as int);
            assert(orig.take(i + 1).drop_last() =~= orig.take(i as int));
            assert(orig.take(i + 1).last() == (x.key@, x.item));
        }
        let ghost out_before = out@;
        out.insert(p, x);
        assert(keyed_view(out@) =~= before.insert(p as int, (x.key@, x.item)));
        i = i + 1;
    }
    assert(orig.take(n as int) =~= orig);
    out
}

/// Transforms the items of keyed entries, keeping their keys.
pub open spec fn map_items<T, U>(s: Seq<(Seq<u64>, T)>, g: spec_fn(T) -> U) -> Seq<(Seq<u64>, U)> {
    s.map_values(|x: (Seq<u64>, T)| (x.0, g(x.1)))
}

/// Sorting commutes with transforming the items, since only keys decide.
pub proof fn lemma_sort_keyed_map<T, U>(s: Seq<(Seq<u64>, T)>, g: spec_fn(T) -> U)
    ensures
        sort_keyed(map_items(s, g)) =~= map_items(sort_keyed(s), g),
    decreases s.len(),
{
    if s.len() > 0 {
        lemma_sort_keyed_map(s.drop_last(), g);
        assert(map_items(s, g).drop_last() =~= map_items(s.drop_last(), g));
        lemma_insert_sorted_map(sort_keyed(s.drop_last()), s.last(), g);
    }
}

proof fn lemma_insert_sorted_map<T, U>(s: Seq<(Seq<u64>, T)>, x: (Seq<u64>, T), g: spec_fn(T) -> U)
    ensures
        insert_sorted(map_items(s, g), (x.0, g(x.1))) =~= map_items(insert_sorted(s, x), g),
    decreases s.len(),
{
    if s.len() > 0 {
        assert(map_items(s, g).drop_last() =~= map_items(s.drop_last(), g));
        assert(map_items(s, g).last() == (s.last().0, g(s.last().1)));
        if lex_lt(x.0, s.last().0) {
            lemma_insert_sorted_map(s.drop_last(), x, g);
            assert(map_items(insert_sorted(s.drop_last(), x).push(s.last()), g) =~= map_items(insert_sorted(s.drop_last(), x), g).push((s.last().0, g(s.last().1))));
        } else {
            assert(map_items(s.push(x), g) =~= map_items(s, g).push((x.0, g(x.1))));
        }
    } else {
        assert(map_items(seq![x], g) =~= seq![(x.0, g(x.1))]);
    }
}

/// The items of keyed entries, in order.
pub fn unkey<T>(v: Vec<Keyed<T>>) -> (r: Vec<T>)
    ensures
        r@ == keyed_view(v@).map_values(|p: (Seq<u64>, T)| p.1),
{
    let ghost sv = keyed_view(v@);
    let mut out: Vec<T> = Vec::new();
    let mut rest = v;
    let n = rest.len();
    let mut j: usize = 0;
    while rest.len() > 0
        invariant
            j + rest.len() == n,
            n == sv.len(),
            keyed_view(rest@) =~= sv.skip(j as int),
            out@ =~= sv.take(j as int).map_values(|p: (Seq<u64>, T)| p.1),
        decreases rest.len(),
    {
        let ghost rb = rest@;
        let x = rest.remove(0);
        assert(keyed_view(rest@) =~= keyed_view(rb).skip(1));
        assert(keyed_view(rb)[0] == (x.key@, x.item));
        out.push(x.item);
        assert(sv.take(j + 1) =~= sv.take(j as int).push(sv[j as int]));
        j = j + 1;
    }
    assert(sv.take(n as int) =~= sv);
    out
}

} // verus!
