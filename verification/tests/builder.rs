//! Walking one crate's call graph from the compiler's answers.

use callscope::graph_build::{
    closures_in, collect_closures, Builder, CallOutcome, ImplFn, InstanceFacts, SymbolFacts, TraitImpl, TyNode,
};
use callscope::schema::{EdgeKind, Span, SymbolId};

fn inst(name: &str, is_local: bool) -> InstanceFacts {
    InstanceFacts { name: name.to_string(), is_item: true, has_body: true, is_local }
}

fn facts(unsafe_sig: bool) -> SymbolFacts {
    SymbolFacts {
        crate_name: None,
        span: Span { file: "src/lib.rs".to_string(), line_start: 3, line_end: 5 },
        public: true,
        is_async: false,
        generic: false,
        foreign: false,
        unsafe_sig,
    }
}

fn id(p: &str) -> SymbolId {
    SymbolId::from_fq_path(p)
}

#[test]
fn roots_are_walked_once_and_calls_become_edges() {
    let mut b: Builder<u32> = Builder::new();
    b.note_item(true, Some("test::TestDescAndFn"), "parser::tests::t".to_string());
    b.note_item(true, Some("core::option::Option"), "parser::NOT_A_TEST".to_string());
    b.note_item(false, Some("test::TestDescAndFn"), "parser::tests::u".to_string());
    assert!(b.is_test("parser::tests::t"));
    assert!(!b.is_test("parser::NOT_A_TEST"));
    assert!(!b.is_test("parser::tests::u"));

    b.seed_root(true, false, Some((1, inst("parser::tests::t", true))));
    b.seed_root(true, true, Some((2, inst("parser::run_generic", true))));
    b.seed_root(false, false, Some((3, inst("parser::CONST", true))));
    b.seed_root(true, false, None);

    assert_eq!(b.next_instance(), Some(1));
    assert!(b.begin_walk("parser::tests::t"));
    let sym = b.symbol_for("parser::tests::t", facts(false));
    assert_eq!(sym.id, id("parser::tests::t"));
    assert_eq!(sym.crate_name, "parser");
    assert!(sym.characteristics.test);
    assert!(sym.characteristics.public);
    assert!(!sym.characteristics.uses_unsafe);
    b.record_symbol(sym);

    let owner = id("parser::tests::t");
    let mut uses_unsafe = false;
    // a concrete local call: an edge, and the callee is queued
    assert!(!b.handle_call(owner, false, CallOutcome::Concrete(4, inst("parser::normalize_token", true)), &mut uses_unsafe));
    // a concrete call into another crate: an edge, nothing queued
    assert!(!b.handle_call(owner, true, CallOutcome::Concrete(5, inst("std::str::trim", false)), &mut uses_unsafe));
    assert!(uses_unsafe);
    // a shim is no workspace symbol: nothing at all
    let shim = InstanceFacts { name: "shim".to_string(), is_item: false, has_body: true, is_local: true };
    assert!(!b.handle_call(owner, false, CallOutcome::Concrete(6, shim), &mut uses_unsafe));
    // dyn and unresolved trait-method calls are widened; other unresolved calls are dropped
    assert!(b.handle_call(owner, false, CallOutcome::Virtual, &mut uses_unsafe));
    assert!(b.handle_call(owner, false, CallOutcome::Unresolved { trait_method: true }, &mut uses_unsafe));
    assert!(!b.handle_call(owner, false, CallOutcome::Unresolved { trait_method: false }, &mut uses_unsafe));
    b.note_unsafe("parser::tests::t");

    assert_eq!(b.next_instance(), Some(4));
    assert!(b.begin_walk("parser::normalize_token"));
    // queued again after it was walked: ignored
    b.enqueue(4, &inst("parser::normalize_token", true));
    assert_eq!(b.next_instance(), None);
    assert!(!b.begin_walk("parser::tests::t"));

    let f = b.into_fragment();
    assert_eq!(f.symbols.len(), 1);
    assert!(f.symbols[0].characteristics.uses_unsafe);
    let edges: Vec<(SymbolId, SymbolId, EdgeKind)> = f.edges.iter().map(|e| (e.from, e.to, e.kind)).collect();
    assert_eq!(
        edges,
        vec![
            (owner, id("parser::normalize_token"), EdgeKind::Static),
            (owner, id("std::str::trim"), EdgeKind::Static),
        ]
    );
}

#[test]
fn dyn_calls_reach_every_implementor_of_the_trait() {
    let mut b: Builder<u32> = Builder::new();
    let owner = id("parser::run_dyn");
    let impls = vec![
        TraitImpl {
            trait_def: 7,
            fns: vec![
                ImplFn { name: Some("tokenize".to_string()), resolved: Some((10, inst("<parser::Simple as parser::Tokenizer>::tokenize", true))) },
                ImplFn { name: Some("other".to_string()), resolved: Some((11, inst("<parser::Simple as parser::Tokenizer>::other", true))) },
            ],
        },
        TraitImpl {
            trait_def: 8,
            fns: vec![ImplFn { name: Some("tokenize".to_string()), resolved: Some((12, inst("<parser::Simple as parser::Other>::tokenize", true))) }],
        },
        TraitImpl {
            trait_def: 7,
            fns: vec![
                ImplFn { name: None, resolved: None },
                ImplFn { name: Some("tokenize".to_string()), resolved: None },
                ImplFn { name: Some("tokenize".to_string()), resolved: Some((13, inst("<ext::Shouty as parser::Tokenizer>::tokenize", false))) },
            ],
        },
    ];
    b.emit_virtual(owner, Some("tokenize"), Some(7), &impls);
    // a repeated widening adds nothing
    b.emit_virtual(owner, Some("tokenize"), Some(7), &impls);
    // no trait function: nothing
    b.emit_virtual(owner, None, Some(7), &impls);
    b.emit_virtual(owner, Some("tokenize"), None, &impls);

    assert_eq!(b.next_instance(), Some(10));
    assert_eq!(b.next_instance(), Some(10));
    assert_eq!(b.next_instance(), None);
    let f = b.into_fragment();
    let edges: Vec<(SymbolId, SymbolId, EdgeKind)> = f.edges.iter().map(|e| (e.from, e.to, e.kind)).collect();
    assert_eq!(
        edges,
        vec![
            (owner, id("<parser::Simple as parser::Tokenizer>::tokenize"), EdgeKind::Virtual),
            (owner, id("<ext::Shouty as parser::Tokenizer>::tokenize"), EdgeKind::Virtual),
        ]
    );
}

#[test]
fn closure_bodies_are_folded_once() {
    let mut b: Builder<u32> = Builder::new();
    assert!(b.begin_fold(1, 2));
    assert!(!b.begin_fold(1, 2));
    assert!(b.begin_fold(2, 1));
    assert!(b.begin_fold(0, 2));
}

fn leaf(id: u64) -> TyNode {
    TyNode { id, closure: None, parts: vec![] }
}

#[test]
fn closures_are_found_inside_generic_arguments() {
    // std::iter::Map<SplitWhitespace, {closure#11}>
    let map = TyNode {
        id: 100,
        closure: None,
        parts: vec![leaf(101), TyNode { id: 102, closure: Some(11), parts: vec![leaf(103)] }],
    };
    // (&{coroutine#12}, u8)
    let tuple = TyNode {
        id: 200,
        closure: None,
        parts: vec![TyNode { id: 201, closure: None, parts: vec![TyNode { id: 202, closure: Some(12), parts: vec![] }] }, leaf(203)],
    };
    // the map type again, in another local: seen already
    let again = TyNode {
        id: 100,
        closure: None,
        parts: vec![leaf(101), TyNode { id: 102, closure: Some(11), parts: vec![leaf(103)] }],
    };
    assert_eq!(closures_in(&vec![map, leaf(300), tuple, again]), vec![11, 12]);

    let mut seen = vec![102];
    let mut out = vec![];
    let map2 = TyNode {
        id: 100,
        closure: None,
        parts: vec![TyNode { id: 102, closure: Some(11), parts: vec![] }, TyNode { id: 104, closure: Some(14), parts: vec![] }],
    };
    collect_closures(&map2, &mut seen, &mut out);
    assert_eq!(out, vec![14]);
    assert_eq!(seen, vec![102, 100, 104]);
}
