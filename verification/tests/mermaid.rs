//! Neighbourhood rendering scenarios.

use callscope::envelope::Reason;
use callscope::mermaid::render_neighborhood;
use callscope::schema::{Characteristics, Edge, EdgeKind, Index, Span, Symbol, SymbolId, SCHEMA_VERSION};

/// Mermaid v11 reserved words that must never appear as a node id.
const RESERVED: [&str; 12] = [
    "graph", "end", "subgraph", "class", "classDef", "state", "flowchart", "style", "click",
    "linkStyle", "direction", "default",
];

fn chars() -> Characteristics {
    Characteristics {
        test: false,
        public: true,
        is_async: false,
        generic: false,
        foreign: false,
        uses_unsafe: false,
    }
}

fn sym(fq: &str) -> Symbol {
    Symbol {
        id: SymbolId::from_fq_path(fq),
        fq_path: fq.to_string(),
        crate_name: fq.split("::").next().unwrap_or("").to_string(),
        span: Span {
            file: "src/lib.rs".to_string(),
            line_start: 1,
            line_end: 2,
        },
        characteristics: chars(),
    }
}

fn sym_with(fq: &str, mutate: impl FnOnce(&mut Characteristics)) -> Symbol {
    let mut s = sym(fq);
    mutate(&mut s.characteristics);
    s
}

fn id(fq: &str) -> SymbolId {
    SymbolId::from_fq_path(fq)
}

fn edge(from: &str, to: &str, kind: EdgeKind) -> Edge {
    Edge {
        from: id(from),
        to: id(to),
        kind,
    }
}

fn index(symbols: Vec<Symbol>, edges: Vec<Edge>) -> Index {
    Index {
        schema_version: SCHEMA_VERSION,
        symbols,
        edges,
    }
}

/// Extract the node id from every declaration line (`    <id>["..."]...`).
fn declared_ids(mermaid: &str) -> Vec<String> {
    mermaid
        .lines()
        .filter_map(|line| {
            let t = line.trim_start();
            let brace = t.find("[\"")?;
            Some(t[..brace].to_string())
        })
        .collect()
}

// The guiding-example shape: a test reaches normalize_token only through a
// dyn-dispatch (virtual) edge, and normalize_token also calls out to a
// filtered third-party crate (a boundary edge).
fn guiding_index() -> Index {
    index(
        vec![
            sym_with("parser::dyn_test", |c| c.test = true),
            sym("parser::run_generic"),
            sym("parser::normalize_token"),
        ],
        vec![
            edge("parser::dyn_test", "parser::run_generic", EdgeKind::Static),
            edge("parser::run_generic", "parser::normalize_token", EdgeKind::Virtual),
            // normalize_token -> a symbol absent from the table (third-party
            // crate the index filtered out): a boundary crossing.
            edge("parser::normalize_token", "regex::Regex::new", EdgeKind::Static),
        ],
    )
}

#[test]
fn renders_a_flowchart_with_safe_ids_and_visible_edge_kinds() {
    let idx = guiding_index();
    let env = render_neighborhood(&idx, id("parser::normalize_token"), 2, 50);
    let out = &env.data;

    // It is a flowchart.
    assert!(out.contains("flowchart"), "output must be a mermaid flowchart:\n{out}");

    // Node ids are the safe generated form, and NONE is a reserved word.
    let ids = declared_ids(out);
    assert!(!ids.is_empty(), "expected node declarations:\n{out}");
    for node_id in &ids {
        let safe = (node_id.starts_with('n') || node_id.starts_with('b'))
            && node_id[1..].chars().all(|c| c.is_ascii_digit())
            || node_id == "trunc_note";
        assert!(safe, "node id `{node_id}` is not the safe generated form:\n{out}");
        assert!(
            !RESERVED.contains(&node_id.as_str()),
            "node id `{node_id}` is a mermaid reserved word:\n{out}",
        );
    }

    // The focus symbol is drawn with the focus class, its path only inside
    // the quoted label (never as a bare id).
    assert!(
        out.contains("[\"parser::normalize_token\"]:::focus"),
        "focus node must carry its path in a quoted label and the focus class:\n{out}",
    );

    // A virtual (dyn) edge renders in the dashed, labelled form.
    assert!(
        out.contains("-.->|dyn|"),
        "virtual edge must render dashed and labelled `dyn`:\n{out}",
    );
    // ...and that flips over-approximation on the envelope (Q2).
    assert!(
        env.over_approximated.is_some(),
        "a drawn virtual edge must over-approximate the answer",
    );

    // The boundary crossing renders distinctly and flips the flag.
    assert!(
        out.contains("==>|boundary|"),
        "boundary edge must render thick and labelled `boundary`:\n{out}",
    );
    assert!(env.boundary_applies, "a drawn boundary edge sets boundary_applies");

    // No label contains a literal `\n` (a v11 syntax error): the two-char
    // backslash-n sequence must not appear anywhere in the output.
    assert!(
        !out.contains("\\n"),
        "labels must use no literal `\\n` (v11 breaks on it):\n{out}",
    );

    // classDefs are present so the marker classes resolve.
    assert!(out.contains("classDef focus"), "{out}");
    assert!(out.contains("classDef boundary"), "{out}");
}

#[test]
fn caps_nodes_and_reports_true_total() {
    // A star: focus with five callees. depth 1 collects focus + 5 = 6 nodes.
    let mut symbols = vec![sym("k::focus")];
    let mut edges = Vec::new();
    for i in 0..5 {
        let callee = format!("k::callee{i}");
        symbols.push(sym(&callee));
        edges.push(edge("k::focus", &callee, EdgeKind::Static));
    }
    let idx = index(symbols, edges);

    let env = render_neighborhood(&idx, id("k::focus"), 1, 3);
    assert_eq!(env.total, 6, "true neighborhood size reported even when capped");
    assert!(env.truncated, "cap of 3 against 6 nodes must set truncated");
    assert!(
        env.data.contains("trunc_note"),
        "a truncation note must be drawn when capped:\n{}",
        env.data,
    );
    // Only the capped number of workspace symbols are drawn (plus the note).
    let drawn = declared_ids(&env.data);
    let symbol_nodes = drawn.iter().filter(|i| i.starts_with('n')).count();
    assert_eq!(symbol_nodes, 3, "exactly node_limit workspace symbols drawn");
}

#[test]
fn depth_bounds_the_neighborhood() {
    // a -> b -> c -> d, focus at a. depth 1 sees {a, b}; depth 2 sees {a,b,c}.
    let idx = index(
        vec![sym("k::a"), sym("k::b"), sym("k::c"), sym("k::d")],
        vec![
            edge("k::a", "k::b", EdgeKind::Static),
            edge("k::b", "k::c", EdgeKind::Static),
            edge("k::c", "k::d", EdgeKind::Static),
        ],
    );
    assert_eq!(render_neighborhood(&idx, id("k::a"), 1, 50).total, 2);
    assert_eq!(render_neighborhood(&idx, id("k::a"), 2, 50).total, 3);
    assert_eq!(render_neighborhood(&idx, id("k::a"), 3, 50).total, 4);
}

#[test]
fn generic_path_label_is_escaped_not_a_bare_id() {
    // A path with `<`/`>` must stay inside a quoted, escaped label.
    let idx = index(
        vec![sym("k::focus"), sym("k::wrap::<Vec<String>>")],
        vec![edge("k::focus", "k::wrap::<Vec<String>>", EdgeKind::Static)],
    );
    let out = render_neighborhood(&idx, id("k::focus"), 1, 50).data;
    assert!(out.contains("&lt;Vec&lt;String&gt;&gt;"), "angle brackets escaped:\n{out}");
    assert!(!out.contains("::<Vec"), "raw generic path must not leak into an id:\n{out}");
}

#[test]
fn missing_focus_yields_valid_empty_flowchart() {
    let idx = index(vec![sym("k::a")], vec![]);
    let env = render_neighborhood(&idx, id("k::does_not_exist"), 2, 50);
    assert!(env.data.contains("flowchart"));
    assert_eq!(env.total, 0);
    assert!(env.data.contains("not found"));
}

#[test]
fn implementor_count_counts_only_drawn_virtual_edges() {
    let idx = index(
        vec![sym("k::a"), sym("k::b"), sym("k::c")],
        vec![edge("k::a", "k::b", EdgeKind::Virtual), edge("k::b", "k::c", EdgeKind::Virtual)],
    );
    let r = render_neighborhood(&idx, id("k::a"), 1, 50);
    assert_eq!(r.total, 2);
    assert!(r.data.contains("-.->|dyn|"));
    assert_eq!(r.over_approximated, Some(Reason::dyn_dispatch("<dyn dispatch>", 1)));
    // at depth 2 both virtual edges are drawn
    let r2 = render_neighborhood(&idx, id("k::a"), 2, 50);
    assert_eq!(r2.over_approximated, Some(Reason::dyn_dispatch("<dyn dispatch>", 2)));
}
