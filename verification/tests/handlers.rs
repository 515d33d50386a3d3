//! The answer path behind the tools, over a small hand-built index and an
//! in-memory workspace whose fingerprint matches it.

use callscope::fingerprint::{fingerprint_workspace, SourceFile};
use callscope::query::{Direction, Graph};
use callscope::schema::{Characteristics, Edge, EdgeKind, Index, Manifest, Span, Symbol, SymbolId, SCHEMA_VERSION};
use callscope::state::{IndexState, DEFAULT_LIMIT};

fn chars() -> Characteristics {
    Characteristics {
        test: false,
        public: true,
        is_async: false,
        generic: false,
        foreign: false,
        uses_unsafe: false,
    }
}

fn sym_with(fq: &str, mutate: impl FnOnce(&mut Characteristics)) -> Symbol {
    let mut c = chars();
    mutate(&mut c);
    Symbol {
        id: SymbolId::from_fq_path(fq),
        fq_path: fq.to_string(),
        crate_name: fq.split("::").next().unwrap_or("").to_string(),
        span: Span {
            file: "src/lib.rs".to_string(),
            line_start: 1,
            line_end: 2,
        },
        characteristics: c,
    }
}

fn sym(fq: &str) -> Symbol {
    sym_with(fq, |_| {})
}

fn edge(from: &str, to: &str, kind: EdgeKind) -> Edge {
    Edge {
        from: SymbolId::from_fq_path(from),
        to: SymbolId::from_fq_path(to),
        kind,
    }
}

fn sample_index() -> Index {
    Index {
        schema_version: SCHEMA_VERSION,
        symbols: vec![
            sym("parser::normalize_token"),
            sym("parser::normalize_line"),
            sym("parser::run_generic"),
            sym_with("parser::tests::dyn_test", |c| c.test = true),
            sym_with("parser::danger", |c| c.uses_unsafe = true),
        ],
        edges: vec![
            edge("parser::tests::dyn_test", "parser::run_generic", EdgeKind::Static),
            edge("parser::run_generic", "parser::normalize_token", EdgeKind::Virtual),
            edge("parser::normalize_token", "parser::danger", EdgeKind::Static),
        ],
    }
}

fn source(path: &str, content: &str) -> SourceFile {
    SourceFile {
        components: path.split('/').map(|c| c.to_string()).collect(),
        bytes: content.as_bytes().to_vec(),
    }
}

/// The workspace: one source file and a lockfile.
fn workspace_files() -> (Vec<SourceFile>, Option<Vec<u8>>) {
    (vec![source("src/lib.rs", "pub fn normalize_token() {}\n")], Some(b"# lock\n".to_vec()))
}

/// A loaded state whose manifest matches the workspace.
fn load(index: Index) -> IndexState {
    let (files, lock) = workspace_files();
    let manifest: Manifest = fingerprint_workspace(&files, &lock, "test-toolchain", 0);
    IndexState::load(index, manifest, "/workspace".to_string()).expect("load")
}

#[test]
fn loads_from_disk_and_round_trips_the_index() {
    let idx = sample_index();
    let state = load(idx.clone());
    assert_eq!(state.index(), &idx);

    let env = state.resolve_symbol("normalize", DEFAULT_LIMIT);
    let names: Vec<String> = env.data.iter().map(|s| s.fq_path.clone()).collect();
    assert_eq!(names, vec!["parser::normalize_line", "parser::normalize_token"]);
    assert_eq!(env.total, 2);
    assert!(!env.truncated);
}

#[test]
fn affected_tests_crosses_dyn_dispatch_and_flags_over_approximation() {
    let state = load(sample_index());
    let target = SymbolId::from_fq_path("parser::normalize_token");
    let env = state.affected_tests(target, DEFAULT_LIMIT);

    let names: Vec<String> = env.data.iter().map(|s| s.fq_path.clone()).collect();
    assert_eq!(names, vec!["parser::tests::dyn_test"]);
    assert!(env.over_approximated.is_some(), "reaching through dyn dispatch must over-approximate");
}

#[test]
fn impact_and_direct_calls_serialize_to_well_formed_envelopes() {
    let state = load(sample_index());
    let target = SymbolId::from_fq_path("parser::normalize_token");

    let impact = state.impact(target, DEFAULT_LIMIT);
    let callers: Vec<String> = impact.data.direct_callers.iter().map(|s| s.fq_path.clone()).collect();
    let tests: Vec<String> = impact.data.affected_tests.iter().map(|s| s.fq_path.clone()).collect();
    assert_eq!(callers, vec!["parser::run_generic"]);
    assert_eq!(tests, vec!["parser::tests::dyn_test"]);
    assert!(!impact.truncated);
    assert!(!impact.boundary_applies);

    let dc = state.direct_calls(target, DEFAULT_LIMIT);
    assert_eq!(dc.data.callers.iter().map(|s| s.fq_path.clone()).collect::<Vec<_>>(), vec!["parser::run_generic"]);
    assert_eq!(dc.data.callees.iter().map(|s| s.fq_path.clone()).collect::<Vec<_>>(), vec!["parser::danger"]);
}

#[test]
fn reachable_unsafe_and_neighborhood_and_reachability() {
    let state = load(sample_index());
    let target = SymbolId::from_fq_path("parser::normalize_token");

    let unsafe_env = state.reachable_unsafe(target, DEFAULT_LIMIT);
    assert_eq!(unsafe_env.data.iter().map(|s| s.fq_path.clone()).collect::<Vec<_>>(), vec!["parser::danger"]);

    let back = state.reachability(target, Direction::Backward, DEFAULT_LIMIT);
    assert_eq!(back.total, 2);

    let graph = state.neighborhood_graph(target, 2, 60);
    assert!(graph.data.starts_with("flowchart"), "expected mermaid flowchart, got: {}", graph.data);
}

#[test]
fn staleness_flips_when_a_source_file_diverges() {
    let state = load(sample_index());
    let (files, lock) = workspace_files();
    assert!(state.compute_stale(&files, &lock).is_none());

    let edited = vec![source("src/lib.rs", "pub fn normalize_token() { /* edited */ }\n")];
    let info = state.compute_stale(&edited, &lock).expect("index must be stale after an edit");
    assert!(
        info.diverged_files.iter().any(|f| f.contains("lib.rs")),
        "diverged files should name lib.rs: {:?}",
        info.diverged_files
    );
}

#[test]
fn load_rejects_another_schema_version() {
    let mut idx = sample_index();
    idx.schema_version = 7;
    let (files, lock) = workspace_files();
    let manifest = fingerprint_workspace(&files, &lock, "tc", 0);
    match IndexState::load(idx, manifest, "/w".to_string()) {
        Err(e) => assert_eq!(
            e,
            "index schema version 7 does not match this build's 1 — re-index with a matching callscope-index"
        ),
        Ok(_) => panic!("a mismatched schema version must be rejected"),
    }
}

#[test]
fn resolution_prefers_id_then_exact_path_then_fragment() {
    let state = load(sample_index());
    let danger = SymbolId::from_fq_path("parser::danger");
    let by_id = state.resolve_then(&danger.0.to_string(), DEFAULT_LIMIT, |id| state.reachability(id, Direction::Forward, 10));
    assert!(by_id.is_ok());

    // "parser::normalize_token" is also a fragment of nothing else, but the
    // fragment "normalize" is ambiguous.
    let exact = state.resolve_then("parser::normalize_token", DEFAULT_LIMIT, |id| state.affected_tests(id, 10));
    assert_eq!(exact.expect("exact path resolves").data.len(), 1);

    match state.resolve_then("normalize", DEFAULT_LIMIT, |id| state.affected_tests(id, 10)) {
        Err(candidates) => {
            assert_eq!(candidates.total, 2);
            assert_eq!(candidates.data.len(), 2);
        },
        Ok(_) => panic!("an ambiguous fragment must hand back its candidates"),
    }
    match state.resolve_then("nothing_like_this", DEFAULT_LIMIT, |id| state.affected_tests(id, 10)) {
        Err(candidates) => assert!(candidates.data.is_empty()),
        Ok(_) => panic!("an unknown name must hand back no candidates"),
    }
}

#[test]
fn call_paths_by_name_resolves_both_ends() {
    let state = load(sample_index());
    let paths = state
        .call_paths_by_name("dyn_test", "danger", 8, 64, DEFAULT_LIMIT)
        .expect("both ends resolve");
    assert_eq!(paths.total, 1);
    let nodes: Vec<String> = paths.data[0].nodes.iter().map(|s| s.fq_path.clone()).collect();
    assert_eq!(
        nodes,
        vec!["parser::tests::dyn_test", "parser::run_generic", "parser::normalize_token", "parser::danger"]
    );
    assert!(paths.over_approximated.is_some());

    let err = state
        .call_paths_by_name("normalize", "danger", 8, 64, DEFAULT_LIMIT)
        .err()
        .expect("ambiguous start");
    assert_eq!(err.total, 2);
}

#[test]
fn an_ambiguous_name_is_never_resolved_however_small_the_limit() {
    let state = load(sample_index());
    for limit in [0usize, 1] {
        match state.resolve_then("normalize", limit, |id| state.affected_tests(id, 10)) {
            Err(candidates) => {
                assert_eq!(candidates.total, 2);
                assert!(candidates.truncated);
                assert_eq!(candidates.data.len(), limit);
            },
            Ok(_) => panic!("an ambiguous fragment must hand back its candidates"),
        }
    }
    // a single match resolves even when the limit shows none of it
    let one = state.resolve_then("danger", 0, |id| state.reachable_unsafe(id, 10));
    assert!(one.is_ok());
}

#[test]
fn the_state_answers_as_the_graph_does() {
    let idx = sample_index();
    let state = load(sample_index());
    let t = SymbolId::from_fq_path("parser::normalize_token");
    let r = state.direct_calls(t, DEFAULT_LIMIT);
    let g = Graph::new(&idx).direct_calls(t, DEFAULT_LIMIT);
    let names = |v: &Vec<Symbol>| v.iter().map(|s| s.fq_path.clone()).collect::<Vec<String>>();
    assert_eq!(names(&r.data.callers), vec!["parser::run_generic"]);
    assert_eq!(names(&r.data.callees), vec!["parser::danger"]);
    assert_eq!(r.data.callers, g.data.callers);
    assert_eq!(r.data.callees, g.data.callees);
    assert_eq!(r.stale, g.stale);
    assert_eq!(r.over_approximated, g.over_approximated);
    assert_eq!(r.truncated, g.truncated);
    assert_eq!(r.total, g.total);
    assert_eq!(r.boundary_applies, g.boundary_applies);
    let imp = state.impact(t, DEFAULT_LIMIT);
    let gi = Graph::new(&idx).impact(t, DEFAULT_LIMIT);
    assert_eq!(imp.data.direct_callers, gi.data.direct_callers);
    assert_eq!(imp.data.affected_tests, gi.data.affected_tests);
    assert_eq!(imp.total, gi.total);
}
