//! Graph query scenarios over small hand-built indexes.

use callscope::envelope::Reason;
use callscope::query::{Direction, Graph, DYN_TRAIT_MARKER};
use callscope::schema::{Characteristics, Edge, EdgeKind, Index, Span, Symbol, SymbolId, SCHEMA_VERSION};

fn chars() -> Characteristics {
    Characteristics {
        test: false,
        public: true,
        is_async: false,
        generic: false,
        foreign: false,
        uses_unsafe: false,
    }
}

fn sym(fq: &str) -> Symbol {
    Symbol {
        id: SymbolId::from_fq_path(fq),
        fq_path: fq.to_string(),
        crate_name: fq.split("::").next().unwrap_or("").to_string(),
        span: Span {
            file: "src/lib.rs".to_string(),
            line_start: 1,
            line_end: 2,
        },
        characteristics: chars(),
    }
}

fn sym_with(fq: &str, mutate: impl FnOnce(&mut Characteristics)) -> Symbol {
    let mut s = sym(fq);
    mutate(&mut s.characteristics);
    s
}

fn id(fq: &str) -> SymbolId {
    SymbolId::from_fq_path(fq)
}

fn edge(from: &str, to: &str, kind: EdgeKind) -> Edge {
    Edge {
        from: id(from),
        to: id(to),
        kind,
    }
}

fn stat(from: &str, to: &str) -> Edge {
    edge(from, to, EdgeKind::Static)
}

fn index(symbols: Vec<Symbol>, edges: Vec<Edge>) -> Index {
    Index {
        schema_version: SCHEMA_VERSION,
        symbols,
        edges,
    }
}

fn fq_paths(syms: &[Symbol]) -> Vec<String> {
    syms.iter().map(|s| s.fq_path.clone()).collect()
}

// ── C1 resolve ───────────────────────────────────────────────────────────

#[test]
fn resolve_returns_all_candidates_never_picks_one() {
    let idx = index(
        vec![
            sym("parser::normalize_token"),
            sym("parser::normalize_line"),
            sym("parser::run_generic"),
        ],
        vec![],
    );
    let g = Graph::new(&idx);
    let env = g.resolve("normalize", 100);
    assert_eq!(
        fq_paths(&env.data),
        vec!["parser::normalize_line", "parser::normalize_token"],
        "both normalize_* candidates returned, sorted by fq_path",
    );
    assert_eq!(env.total, 2);
    assert!(!env.truncated);
}

#[test]
fn resolve_is_case_insensitive_and_empty_query_matches_nothing() {
    let idx = index(vec![sym("parser::NormalizeToken")], vec![]);
    let g = Graph::new(&idx);
    assert_eq!(g.resolve("normalizetoken", 10).data.len(), 1);
    assert_eq!(g.resolve("", 10).data.len(), 0);
    assert_eq!(g.resolve("", 10).total, 0);
}

#[test]
fn resolve_reports_total_when_truncated() {
    let idx = index(
        vec![
            sym("a::foo1"),
            sym("a::foo2"),
            sym("a::foo3"),
            sym("a::foo4"),
        ],
        vec![],
    );
    let g = Graph::new(&idx);
    let env = g.resolve("foo", 2);
    assert_eq!(env.data.len(), 2, "output bounded to limit");
    assert_eq!(env.total, 4, "total reports the full match count");
    assert!(env.truncated);
}

// ── C2 direct calls ───────────────────────────────────────────────────────

#[test]
fn direct_calls_finds_callers_and_callees() {
    // a -> b -> c ;  d -> b
    let idx = index(
        vec![sym("k::a"), sym("k::b"), sym("k::c"), sym("k::d")],
        vec![stat("k::a", "k::b"), stat("k::b", "k::c"), stat("k::d", "k::b")],
    );
    let g = Graph::new(&idx);
    let env = g.direct_calls(id("k::b"), 100);
    assert_eq!(fq_paths(&env.data.callers), vec!["k::a", "k::d"]);
    assert_eq!(fq_paths(&env.data.callees), vec!["k::c"]);
    assert_eq!(env.total, 3);
    assert!(!env.truncated);
    assert!(env.over_approximated.is_none());
    assert!(!env.boundary_applies);
}

// ── C3 reachability ───────────────────────────────────────────────────────

#[test]
fn reachability_forward_is_transitive_and_excludes_start() {
    // a -> b -> c -> d
    let idx = index(
        vec![sym("k::a"), sym("k::b"), sym("k::c"), sym("k::d")],
        vec![stat("k::a", "k::b"), stat("k::b", "k::c"), stat("k::c", "k::d")],
    );
    let g = Graph::new(&idx);
    let env = g.reachability(id("k::a"), Direction::Forward, 100);
    assert_eq!(fq_paths(&env.data), vec!["k::b", "k::c", "k::d"]);
    assert_eq!(env.total, 3);
}

#[test]
fn reachability_backward_is_transitive() {
    // a -> b -> c -> d ; who reaches d? a, b, c
    let idx = index(
        vec![sym("k::a"), sym("k::b"), sym("k::c"), sym("k::d")],
        vec![stat("k::a", "k::b"), stat("k::b", "k::c"), stat("k::c", "k::d")],
    );
    let g = Graph::new(&idx);
    let env = g.reachability(id("k::d"), Direction::Backward, 100);
    assert_eq!(fq_paths(&env.data), vec!["k::a", "k::b", "k::c"]);
    assert_eq!(env.total, 3);
}

#[test]
fn reachability_reports_total_when_truncated() {
    let idx = index(
        vec![sym("k::a"), sym("k::b"), sym("k::c"), sym("k::d")],
        vec![stat("k::a", "k::b"), stat("k::a", "k::c"), stat("k::a", "k::d")],
    );
    let g = Graph::new(&idx);
    let env = g.reachability(id("k::a"), Direction::Forward, 2);
    assert_eq!(env.data.len(), 2, "output bounded to limit");
    assert_eq!(env.total, 3, "total is the full reachable count");
    assert!(env.truncated);
}

// ── over-approximation (Q2) ────────────────────────────────────────────────

#[test]
fn virtual_edge_flips_over_approximation() {
    // a --virtual--> b : reaching b crosses dyn dispatch
    let idx = index(
        vec![sym("k::a"), sym("k::b")],
        vec![edge("k::a", "k::b", EdgeKind::Virtual)],
    );
    let g = Graph::new(&idx);
    let env = g.reachability(id("k::a"), Direction::Forward, 100);
    match env.over_approximated {
        Some(Reason::DynDispatch {
            ref trait_path,
            implementor_count,
        }) => {
            assert_eq!(trait_path, DYN_TRAIT_MARKER);
            assert_eq!(implementor_count, 1, "one distinct virtual callee");
        }
        other => panic!("expected DynDispatch over-approximation, got {other:?}"),
    }
}

#[test]
fn static_only_walk_is_not_over_approximated() {
    let idx = index(
        vec![sym("k::a"), sym("k::b")],
        vec![stat("k::a", "k::b")],
    );
    let g = Graph::new(&idx);
    let env = g.reachability(id("k::a"), Direction::Forward, 100);
    assert!(env.over_approximated.is_none());
}

// ── boundary ────────────────────────────────────────────────────────────

#[test]
fn edge_to_foreign_symbol_flips_boundary() {
    let idx = index(
        vec![
            sym("k::a"),
            sym_with("libc::write", |c| c.foreign = true),
        ],
        vec![stat("k::a", "libc::write")],
    );
    let g = Graph::new(&idx);
    let env = g.reachability(id("k::a"), Direction::Forward, 100);
    assert!(env.boundary_applies, "crossing into a foreign symbol is a boundary");
}

#[test]
fn edge_to_absent_symbol_flips_boundary_and_is_a_leaf() {
    // Edge targets an id with no Symbol in the table (third-party crate the
    // index filtered out). It is a boundary and cannot be walked into.
    let idx = index(vec![sym("k::a")], vec![stat("k::a", "external::thing")]);
    let g = Graph::new(&idx);
    let env = g.reachability(id("k::a"), Direction::Forward, 100);
    assert!(env.boundary_applies);
    assert!(env.data.is_empty(), "absent target yields no walkable symbol");
    assert_eq!(env.total, 0);
}

// ── C4 call paths ─────────────────────────────────────────────────────────

#[test]
fn call_paths_enumerates_both_routes() {
    // a -> b -> d ; a -> c -> d : two distinct paths a..d
    let idx = index(
        vec![sym("k::a"), sym("k::b"), sym("k::c"), sym("k::d")],
        vec![
            stat("k::a", "k::b"),
            stat("k::b", "k::d"),
            stat("k::a", "k::c"),
            stat("k::c", "k::d"),
        ],
    );
    let g = Graph::new(&idx);
    let env = g.call_paths(id("k::a"), id("k::d"), 10, 100);
    assert_eq!(env.total, 2, "two paths a->d");
    let routes: Vec<Vec<String>> = env
        .data
        .iter()
        .map(|p| p.nodes.iter().map(|s| s.fq_path.clone()).collect())
        .collect();
    assert_eq!(
        routes,
        vec![
            vec!["k::a", "k::b", "k::d"],
            vec!["k::a", "k::c", "k::d"],
        ],
    );
    assert!(!env.truncated);
}

#[test]
fn call_paths_caps_count_and_reports_truncation() {
    let idx = index(
        vec![sym("k::a"), sym("k::b"), sym("k::c"), sym("k::d")],
        vec![
            stat("k::a", "k::b"),
            stat("k::b", "k::d"),
            stat("k::a", "k::c"),
            stat("k::c", "k::d"),
        ],
    );
    let g = Graph::new(&idx);
    let env = g.call_paths(id("k::a"), id("k::d"), 10, 1);
    assert_eq!(env.data.len(), 1);
    assert!(env.truncated, "path count cap hit");
}

#[test]
fn call_paths_depth_bound_reports_truncation() {
    // a -> b -> c -> d ; depth 1 cannot reach d, and a branch is cut
    let idx = index(
        vec![sym("k::a"), sym("k::b"), sym("k::c"), sym("k::d")],
        vec![stat("k::a", "k::b"), stat("k::b", "k::c"), stat("k::c", "k::d")],
    );
    let g = Graph::new(&idx);
    let env = g.call_paths(id("k::a"), id("k::d"), 1, 100);
    assert!(env.data.is_empty());
    assert!(env.truncated, "depth bound cut a branch before reaching target");
}

#[test]
fn call_paths_carries_virtual_flag_from_used_edge() {
    let idx = index(
        vec![sym("k::a"), sym("k::b")],
        vec![edge("k::a", "k::b", EdgeKind::Virtual)],
    );
    let g = Graph::new(&idx);
    let env = g.call_paths(id("k::a"), id("k::b"), 10, 100);
    assert_eq!(env.total, 1);
    assert!(env.over_approximated.is_some());
}

#[test]
fn call_paths_exactly_max_paths_is_not_truncated() {
    // Exactly two paths a..d; asking for max_paths=2 must return both and
    // report truncated=false — the count equals the cap, nothing was dropped.
    let idx = index(
        vec![sym("k::a"), sym("k::b"), sym("k::c"), sym("k::d")],
        vec![
            stat("k::a", "k::b"),
            stat("k::b", "k::d"),
            stat("k::a", "k::c"),
            stat("k::c", "k::d"),
        ],
    );
    let g = Graph::new(&idx);
    let env = g.call_paths(id("k::a"), id("k::d"), 10, 2);
    assert_eq!(env.data.len(), 2, "both paths returned");
    assert_eq!(env.total, 2);
    assert!(
        !env.truncated,
        "count equals the cap but nothing was dropped, so not truncated",
    );
}

#[test]
fn call_paths_over_max_paths_truncates_and_returns_exactly_cap() {
    // Three paths a..d (via b, c, e); max_paths=2 must return exactly 2 and
    // report truncated=true.
    let idx = index(
        vec![
            sym("k::a"),
            sym("k::b"),
            sym("k::c"),
            sym("k::d"),
            sym("k::e"),
        ],
        vec![
            stat("k::a", "k::b"),
            stat("k::b", "k::d"),
            stat("k::a", "k::c"),
            stat("k::c", "k::d"),
            stat("k::a", "k::e"),
            stat("k::e", "k::d"),
        ],
    );
    let g = Graph::new(&idx);
    let env = g.call_paths(id("k::a"), id("k::d"), 10, 2);
    assert_eq!(env.data.len(), 2, "returns exactly max_paths");
    assert_eq!(env.total, 2, "total is the returned count");
    assert!(env.truncated, "a third path exists beyond the cap");
}

#[test]
fn call_paths_truncated_still_flags_virtual_edge_on_dropped_path() {
    // Two paths a..d. The kept path (a->b->d, sorts first) is all-static; the
    // dropped path (a->c->d) crosses a Virtual edge c->d. With max_paths=1 the
    // virtual-carrying path is dropped, yet over-approximation must still be
    // reported — flags are accumulated during the walk, not off survivors.
    let idx = index(
        vec![sym("k::a"), sym("k::b"), sym("k::c"), sym("k::d")],
        vec![
            stat("k::a", "k::b"),
            stat("k::b", "k::d"),
            stat("k::a", "k::c"),
            edge("k::c", "k::d", EdgeKind::Virtual),
        ],
    );
    let g = Graph::new(&idx);
    let env = g.call_paths(id("k::a"), id("k::d"), 10, 1);
    assert_eq!(env.data.len(), 1, "only max_paths returned");
    assert_eq!(
        fq_paths(&env.data[0].nodes),
        vec!["k::a", "k::b", "k::d"],
        "the kept path is the all-static one",
    );
    assert!(env.truncated, "a second path was dropped");
    assert!(
        env.over_approximated.is_some(),
        "the dropped path's virtual edge must still surface as over-approximation",
    );
}

// ── cycles ────────────────────────────────────────────────────────────────

#[test]
fn cycle_does_not_infinite_loop_reachability() {
    // a -> b -> c -> a  (cycle)
    let idx = index(
        vec![sym("k::a"), sym("k::b"), sym("k::c")],
        vec![stat("k::a", "k::b"), stat("k::b", "k::c"), stat("k::c", "k::a")],
    );
    let g = Graph::new(&idx);
    let env = g.reachability(id("k::a"), Direction::Forward, 100);
    // From a, the whole cycle is reachable, including a itself via the loop.
    assert_eq!(fq_paths(&env.data), vec!["k::a", "k::b", "k::c"]);
}

#[test]
fn cycle_does_not_infinite_loop_paths() {
    // a -> b -> a (cycle) and a -> b is the only route to b.
    let idx = index(
        vec![sym("k::a"), sym("k::b")],
        vec![stat("k::a", "k::b"), stat("k::b", "k::a")],
    );
    let g = Graph::new(&idx);
    let env = g.call_paths(id("k::a"), id("k::b"), 10, 100);
    // Exactly one simple path a->b; the back-edge cannot extend it.
    assert_eq!(env.total, 1);
    assert_eq!(
        env.data[0].nodes.iter().map(|s| s.fq_path.clone()).collect::<Vec<_>>(),
        vec!["k::a", "k::b"],
    );
}

// ── C5 affected tests ───────────────────────────────────────────────────────

#[test]
fn affected_tests_picks_only_test_symbols() {
    // test_a -> mid -> target ; plain_b -> target ; other_test -> elsewhere
    let idx = index(
        vec![
            sym_with("k::test_a", |c| c.test = true),
            sym("k::mid"),
            sym("k::target"),
            sym("k::plain_b"),
            sym_with("k::other_test", |c| c.test = true),
            sym("k::elsewhere"),
        ],
        vec![
            stat("k::test_a", "k::mid"),
            stat("k::mid", "k::target"),
            stat("k::plain_b", "k::target"),
            stat("k::other_test", "k::elsewhere"),
        ],
    );
    let g = Graph::new(&idx);
    let env = g.affected_tests(id("k::target"), 100);
    assert_eq!(
        fq_paths(&env.data),
        vec!["k::test_a"],
        "only the test that transitively reaches target, not plain_b nor other_test",
    );
    assert_eq!(env.total, 1);
}

#[test]
fn affected_tests_through_virtual_edge_is_over_approximated() {
    // The guiding-example shape: a test reaches the target only through a
    // dyn-dispatch (virtual) edge. It must appear AND be flagged Q2.
    let idx = index(
        vec![
            sym_with("k::dyn_test", |c| c.test = true),
            sym("k::run_generic"),
            sym("k::normalize_token"),
        ],
        vec![
            stat("k::dyn_test", "k::run_generic"),
            edge("k::run_generic", "k::normalize_token", EdgeKind::Virtual),
        ],
    );
    let g = Graph::new(&idx);
    let env = g.affected_tests(id("k::normalize_token"), 100);
    assert_eq!(fq_paths(&env.data), vec!["k::dyn_test"]);
    assert!(
        env.over_approximated.is_some(),
        "reaching through dyn dispatch over-approximates the answer",
    );
}

// ── C6 reachable unsafe ─────────────────────────────────────────────────────

#[test]
fn reachable_unsafe_picks_only_unsafe_symbols() {
    // a -> b(unsafe) -> c ; a -> d
    let idx = index(
        vec![
            sym("k::a"),
            sym_with("k::b", |c| c.uses_unsafe = true),
            sym("k::c"),
            sym("k::d"),
        ],
        vec![stat("k::a", "k::b"), stat("k::b", "k::c"), stat("k::a", "k::d")],
    );
    let g = Graph::new(&idx);
    let env = g.reachable_unsafe(id("k::a"), 100);
    assert_eq!(fq_paths(&env.data), vec!["k::b"]);
    assert_eq!(env.total, 1);
}

// ── C7 impact ─────────────────────────────────────────────────────────────

#[test]
fn impact_combines_direct_callers_and_affected_tests() {
    // caller -> target ; test_x -> caller -> target
    let idx = index(
        vec![
            sym("k::caller"),
            sym("k::target"),
            sym_with("k::test_x", |c| c.test = true),
        ],
        vec![stat("k::caller", "k::target"), stat("k::test_x", "k::caller")],
    );
    let g = Graph::new(&idx);
    let env = g.impact(id("k::target"), 100);
    assert_eq!(fq_paths(&env.data.direct_callers), vec!["k::caller"]);
    assert_eq!(fq_paths(&env.data.affected_tests), vec!["k::test_x"]);
    assert_eq!(env.total, 2, "one caller + one test");
}

#[test]
fn impact_merges_flags_from_both_halves() {
    // A virtual edge on the backward test walk must surface on the impact
    // envelope even though the direct-caller scan is all static.
    let idx = index(
        vec![
            sym("k::caller"),
            sym("k::target"),
            sym_with("k::dyn_test", |c| c.test = true),
        ],
        vec![
            stat("k::caller", "k::target"),
            edge("k::dyn_test", "k::caller", EdgeKind::Virtual),
        ],
    );
    let g = Graph::new(&idx);
    let env = g.impact(id("k::target"), 100);
    assert!(env.over_approximated.is_some());
}

#[test]
fn a_caller_with_two_edges_is_listed_once() {
    let idx = index(
        vec![sym("k::a"), sym("k::b")],
        vec![stat("k::a", "k::b"), edge("k::a", "k::b", EdgeKind::Virtual)],
    );
    let g = Graph::new(&idx);
    let to_b = g.direct_calls(id("k::b"), 100);
    assert_eq!(fq_paths(&to_b.data.callers), vec!["k::a"]);
    assert!(to_b.data.callees.is_empty());
    assert_eq!(to_b.total, 1);
    assert!(to_b.over_approximated.is_some());
    let from_a = g.direct_calls(id("k::a"), 100);
    assert_eq!(fq_paths(&from_a.data.callees), vec!["k::b"]);
    assert_eq!(from_a.total, 1);
    let imp = g.impact(id("k::b"), 100);
    assert_eq!(fq_paths(&imp.data.direct_callers), vec!["k::a"]);
    assert_eq!(imp.total, 1);
}

#[test]
fn a_path_over_parallel_edges_is_enumerated_once() {
    let idx = index(
        vec![sym("k::a"), sym("k::b"), sym("k::c")],
        vec![stat("k::a", "k::b"), edge("k::a", "k::b", EdgeKind::Virtual), stat("k::b", "k::c")],
    );
    let g = Graph::new(&idx);
    let env = g.call_paths(id("k::a"), id("k::c"), 8, 64);
    assert_eq!(env.data.len(), 1);
    assert_eq!(fq_paths(&env.data[0].nodes), vec!["k::a", "k::b", "k::c"]);
    assert_eq!(env.total, 1);
    assert!(!env.truncated);
    assert!(env.over_approximated.is_some());
}
