//! A tokenizer defined apart from the [`Tokenizer`] trait it implements, as
//! another crate of a workspace would define it.

use vstd::prelude::*;

use crate::parser::{fields, normalize_each, normalize_token, white_space, Tokenizer};
use crate::fingerprint::texts;
use crate::text::{chars_of, is_whitespace, push_char};

verus! {

/// Splits on white space and normalizes each token, through
/// [`normalize_token`].
pub struct Shouty;

impl Tokenizer for Shouty {
    open spec fn tokens(&self, input: Seq<char>) -> Seq<Seq<char>> {
        fields(input, white_space()).map_values(normalize_each())
    }

    fn tokenize(&self, input: &str) -> (r: Vec<String>) {
        let cs = chars_of(input);
        let mut out: Vec<String> = Vec::new();
        let mut cur = String::new();
        let mut cur_len: usize = 0;
        let mut i: usize = 0;
        let ghost sep = white_space();
        while i < cs.len()
            invariant
                cs@ == input@,
                sep == white_space(),
                cur_len == cur@.len(),
                cur_len <= i <= cs@.len(),
                ({
                    let st = crate::parser::split_state(cs@.take(i as int), sep);
                    texts(out@) == st.0.map_values(normalize_each()) && cur@ == st.1
                }),
            decreases cs.len() - i,
        {
            let c = cs[i];
            proof {
                assert(cs@.take(i + 1).drop_last() =~= cs@.take(i as int));
                assert(cs@.take(i + 1).last() == c);
            }
            if is_whitespace(c) {
                if cur_len > 0 {
                    let n = normalize_token(cur.as_str());
                    let ghost o0 = out@;
                    let ghost c0 = cur@;
                    out.push(n);
                    proof {
                        let st = crate::parser::split_state(cs@.take(i as int), sep);
                        assert(texts(out@) =~= texts(o0).push(n@));
                        assert(st.0.push(c0).map_values(normalize_each()) =~= st.0.map_values(normalize_each()).push(n@));
                    }
                }
                cur = String::new();
                cur_len = 0;
            } else {
                push_char(&mut cur, c);
                cur_len = cur_len + 1;
            }
            i = i + 1;
        }
        assert(cs@.take(cs@.len() as int) =~= cs@);
        if cur_len > 0 {
            let n = normalize_token(cur.as_str());
            let ghost o0 = out@;
            let ghost c0 = cur@;
            out.push(n);
            proof {
                let st = crate::parser::split_state(cs@, sep);
                assert(texts(out@) =~= texts(o0).push(n@));
                assert(st.0.push(c0).map_values(normalize_each()) =~= st.0.map_values(normalize_each()).push(n@));
            }
        }
        out
    }
}

} // verus!
