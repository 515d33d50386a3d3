//! Whole-graph properties checked on concrete indexes: reachability and
//! direct calls read the same edges in both directions, the impact answer is
//! its two halves, and call paths never repeat a node.

use callscope::query::{Direction, Graph};
use callscope::schema::{Characteristics, Edge, EdgeKind, Index, Span, Symbol, SymbolId, SCHEMA_VERSION};

fn plain() -> Characteristics {
    Characteristics {
        test: false,
        public: true,
        is_async: false,
        generic: false,
        foreign: false,
        uses_unsafe: false,
    }
}

fn node(fq: &str, test: bool) -> Symbol {
    let mut c = plain();
    c.test = test;
    Symbol {
        id: SymbolId::from_fq_path(fq),
        fq_path: fq.to_string(),
        crate_name: "g".to_string(),
        span: Span {
            file: "src/lib.rs".to_string(),
            line_start: 1,
            line_end: 1,
        },
        characteristics: c,
    }
}

fn call(from: &str, to: &str) -> Edge {
    Edge {
        from: SymbolId::from_fq_path(from),
        to: SymbolId::from_fq_path(to),
        kind: EdgeKind::Static,
    }
}

fn paths(syms: &[Symbol]) -> Vec<String> {
    syms.iter().map(|s| s.fq_path.clone()).collect()
}

/// A small graph with a diamond, a cycle and two tests.
///
/// t1 -> a -> b -> d, a -> c -> d, d -> b (cycle b <-> d), t2 -> c
fn diamond() -> Index {
    Index {
        schema_version: SCHEMA_VERSION,
        symbols: vec![
            node("g::a", false),
            node("g::b", false),
            node("g::c", false),
            node("g::d", false),
            node("g::t1", true),
            node("g::t2", true),
        ],
        edges: vec![
            call("g::t1", "g::a"),
            call("g::a", "g::b"),
            call("g::b", "g::d"),
            call("g::a", "g::c"),
            call("g::c", "g::d"),
            call("g::d", "g::b"),
            call("g::t2", "g::c"),
        ],
    }
}

const NAMES: [&str; 6] = ["g::a", "g::b", "g::c", "g::d", "g::t1", "g::t2"];

#[test]
fn forward_and_backward_reachability_are_converse() {
    let idx = diamond();
    let g = Graph::new(&idx);
    for from in NAMES {
        let fwd = paths(&g.reachability(SymbolId::from_fq_path(from), Direction::Forward, 100).data);
        for to in NAMES {
            let bwd = paths(&g.reachability(SymbolId::from_fq_path(to), Direction::Backward, 100).data);
            assert_eq!(
                fwd.contains(&to.to_string()),
                bwd.contains(&from.to_string()),
                "{from} -> {to}"
            );
        }
    }
    // the cycle makes b reach itself, and a reaches everything below it
    let from_b = paths(&g.reachability(SymbolId::from_fq_path("g::b"), Direction::Forward, 100).data);
    assert_eq!(from_b, vec!["g::b", "g::d"]);
    let from_a = paths(&g.reachability(SymbolId::from_fq_path("g::a"), Direction::Forward, 100).data);
    assert_eq!(from_a, vec!["g::b", "g::c", "g::d"]);
}

#[test]
fn callers_and_callees_are_converse() {
    let idx = diamond();
    let g = Graph::new(&idx);
    for s in NAMES {
        let callees = paths(&g.direct_calls(SymbolId::from_fq_path(s), 100).data.callees);
        for t in NAMES {
            let callers = paths(&g.direct_calls(SymbolId::from_fq_path(t), 100).data.callers);
            let edge = idx.edges.iter().any(|e| e.from == SymbolId::from_fq_path(s) && e.to == SymbolId::from_fq_path(t));
            assert_eq!(callers.contains(&s.to_string()), callees.contains(&t.to_string()), "{s} -> {t}");
            assert_eq!(callers.contains(&s.to_string()), edge, "{s} -> {t}");
        }
    }
}

#[test]
fn impact_is_direct_callers_plus_affected_tests() {
    let idx = diamond();
    let g = Graph::new(&idx);
    for s in NAMES {
        for limit in [0usize, 1, 100] {
            let id = SymbolId::from_fq_path(s);
            let imp = g.impact(id, limit);
            let calls = g.direct_calls(id, limit);
            let tests = g.affected_tests(id, limit);
            assert_eq!(imp.data.direct_callers, calls.data.callers, "{s} / {limit}");
            assert_eq!(imp.data.affected_tests, tests.data, "{s} / {limit}");
        }
    }
    let d = g.impact(SymbolId::from_fq_path("g::d"), 100);
    assert_eq!(paths(&d.data.direct_callers), vec!["g::b", "g::c"]);
    assert_eq!(paths(&d.data.affected_tests), vec!["g::t1", "g::t2"]);
    assert_eq!(d.total, 4);
}

#[test]
fn call_paths_are_simple_even_through_a_cycle() {
    let idx = diamond();
    let g = Graph::new(&idx);
    let env = g.call_paths(SymbolId::from_fq_path("g::t1"), SymbolId::from_fq_path("g::d"), 8, 64);
    let found: Vec<Vec<String>> = env.data.iter().map(|p| paths(&p.nodes)).collect();
    assert_eq!(
        found,
        vec![
            vec!["g::t1", "g::a", "g::b", "g::d"],
            vec!["g::t1", "g::a", "g::c", "g::d"],
        ]
    );
    for p in &found {
        for i in 0..p.len() {
            for j in (i + 1)..p.len() {
                assert_ne!(p[i], p[j]);
            }
        }
    }
    assert!(!env.truncated);
}

#[test]
fn impact_totals_truncation_and_flags_compose() {
    let idx = diamond();
    let g = Graph::new(&idx);
    for s in NAMES {
        for limit in [0usize, 1, 100] {
            let id = SymbolId::from_fq_path(s);
            let imp = g.impact(id, limit);
            let all_callers = g.direct_calls(id, usize::MAX).data.callers;
            let tests = g.affected_tests(id, limit);
            assert_eq!(imp.total, all_callers.len() + tests.total, "{s} / {limit}");
            assert_eq!(imp.truncated, all_callers.len() > limit || tests.truncated, "{s} / {limit}");
            assert_eq!(imp.over_approximated, tests.over_approximated);
            assert_eq!(imp.boundary_applies, tests.boundary_applies);
        }
    }
}

#[test]
fn marked_answers_are_reachability_kept_to_the_mark() {
    let mut idx = diamond();
    idx.symbols[3].characteristics.uses_unsafe = true; // g::d
    let g = Graph::new(&idx);
    for s in NAMES {
        let id = SymbolId::from_fq_path(s);
        let back = g.reachability(id, Direction::Backward, usize::MAX);
        let tests: Vec<Symbol> = back.data.iter().filter(|x| x.characteristics.test).cloned().collect();
        let affected = g.affected_tests(id, usize::MAX);
        assert_eq!(affected.data, tests, "{s}");
        assert_eq!(affected.over_approximated, back.over_approximated);
        assert_eq!(affected.boundary_applies, back.boundary_applies);
        let fwd = g.reachability(id, Direction::Forward, usize::MAX);
        let unsafe_users: Vec<Symbol> = fwd.data.iter().filter(|x| x.characteristics.uses_unsafe).cloned().collect();
        assert_eq!(g.reachable_unsafe(id, usize::MAX).data, unsafe_users, "{s}");
    }
}

#[test]
fn answers_do_not_depend_on_the_order_of_the_index() {
    let idx = diamond();
    let mut rev = diamond();
    rev.symbols.reverse();
    rev.edges.reverse();
    let g1 = Graph::new(&idx);
    let g2 = Graph::new(&rev);
    for s in NAMES {
        let id = SymbolId::from_fq_path(s);
        for dir in [Direction::Forward, Direction::Backward] {
            assert_eq!(g1.reachability(id, dir, 100), g2.reachability(id, dir, 100));
        }
        assert_eq!(g1.affected_tests(id, 1), g2.affected_tests(id, 1));
        assert_eq!(g1.reachable_unsafe(id, 100), g2.reachable_unsafe(id, 100));
        assert_eq!(g1.direct_calls(id, 100), g2.direct_calls(id, 100));
        assert_eq!(g1.impact(id, 100), g2.impact(id, 100));
        for to in NAMES {
            let t = SymbolId::from_fq_path(to);
            for cap in [1usize, 64] {
                assert_eq!(g1.call_paths(id, t, 8, cap), g2.call_paths(id, t, 8, cap));
            }
        }
    }
    for query in ["g::", "B", "t", "", "zzz"] {
        for limit in [1usize, 100] {
            assert_eq!(g1.resolve(query, limit), g2.resolve(query, limit));
        }
    }
}

#[test]
fn a_capped_path_answer_keeps_the_smallest_paths() {
    // a reaches d through x, b and m; the paths in path order go through b, m, x
    let idx = Index {
        schema_version: SCHEMA_VERSION,
        symbols: vec![node("g::a", false), node("g::x", false), node("g::b", false), node("g::m", false), node("g::d", false)],
        edges: vec![
            call("g::a", "g::x"),
            call("g::x", "g::d"),
            call("g::a", "g::m"),
            call("g::m", "g::d"),
            call("g::a", "g::b"),
            call("g::b", "g::d"),
        ],
    };
    let g = Graph::new(&idx);
    let env = g.call_paths(SymbolId::from_fq_path("g::a"), SymbolId::from_fq_path("g::d"), 8, 2);
    let found: Vec<Vec<String>> = env.data.iter().map(|p| paths(&p.nodes)).collect();
    assert_eq!(found, vec![vec!["g::a", "g::b", "g::d"], vec!["g::a", "g::m", "g::d"]]);
    assert!(env.truncated);
    let one = g.call_paths(SymbolId::from_fq_path("g::a"), SymbolId::from_fq_path("g::d"), 8, 1);
    assert_eq!(paths(&one.data[0].nodes), vec!["g::a", "g::b", "g::d"]);
}
