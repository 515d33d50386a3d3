//! Tokenizer scenarios: direct, generic, trait-object and the tokenizer
//! defined apart from its trait.

use callscope::ext_tokenizer::Shouty;
use callscope::parser::{normalize_token, run_dyn, run_generic, Fancy, Simple, Tokenizer};

#[test]
fn normalizes_directly() {
    assert_eq!(normalize_token("  Hello "), "hello");
}

#[test]
fn reaches_via_generic_dispatch() {
    let out = run_generic(&Simple, "Foo Bar");
    assert_eq!(out, vec!["foo", "bar"]);
}

#[test]
fn reaches_via_dyn_dispatch() {
    let boxed: &dyn Tokenizer = &Fancy;
    let out = run_dyn(boxed, "Foo, Bar");
    assert_eq!(out, vec!["foo", "bar"]);
}

#[test]
fn integration_reaches_via_generic() {
    let out = run_generic(&Simple, "Alpha Beta");
    assert_eq!(out, vec!["alpha", "beta"]);
}

#[test]
fn integration_reaches_via_dyn() {
    let t: &dyn Tokenizer = &Fancy;
    let out = run_dyn(t, "Gamma, Delta");
    assert_eq!(out, vec!["gamma", "delta"]);
}

#[test]
fn cross_crate_reaches_via_dyn() {
    let boxed: &dyn Tokenizer = &Shouty;
    let out = run_dyn(boxed, "Foo Bar");
    assert_eq!(out, vec!["foo", "bar"]);
}

#[test]
fn normalize_trims_unicode_white_space_after_lowercasing() {
    assert_eq!(normalize_token("\u{3000}ÄBC\t\n"), "äbc");
    assert_eq!(normalize_token("   "), "");
    assert_eq!(normalize_token(""), "");
}

#[test]
fn simple_splits_only_on_white_space() {
    assert_eq!(Simple.tokenize("  a,b  C\u{2003}d "), vec!["a,b", "c", "d"]);
    assert!(Simple.tokenize(" \t ").is_empty());
}

#[test]
fn fancy_splits_on_commas_and_skips_empty_pieces() {
    assert_eq!(Fancy.tokenize(",,A ,b,, c,"), vec!["a", "b", "c"]);
    assert!(Fancy.tokenize(", ,").is_empty());
}
