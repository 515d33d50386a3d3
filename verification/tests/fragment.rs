//! Accumulating one compilation's symbols and edges.

use callscope::graph_build::Fragment;
use callscope::schema::{Characteristics, EdgeKind, Span, Symbol, SymbolId};

fn symbol(fq: &str, line: u32) -> Symbol {
    Symbol {
        id: SymbolId::from_fq_path(fq),
        fq_path: fq.to_string(),
        crate_name: "parser".to_string(),
        span: Span {
            file: "src/lib.rs".to_string(),
            line_start: line,
            line_end: line,
        },
        characteristics: Characteristics {
            test: false,
            public: true,
            is_async: false,
            generic: false,
            foreign: false,
            uses_unsafe: false,
        },
    }
}

#[test]
fn the_first_symbol_recorded_for_a_path_stays() {
    let mut f = Fragment::new();
    f.add_symbol(symbol("parser::a", 1));
    f.add_symbol(symbol("parser::b", 2));
    f.add_symbol(symbol("parser::a", 9));
    assert_eq!(f.symbols.len(), 2);
    assert_eq!(f.symbols[0].fq_path, "parser::a");
    assert_eq!(f.symbols[0].span.line_start, 1);
    assert_eq!(f.symbols[1].fq_path, "parser::b");
    assert!(f.edges.is_empty());
}

#[test]
fn edges_are_kept_once_and_self_calls_dropped() {
    let a = SymbolId::from_fq_path("parser::a");
    let b = SymbolId::from_fq_path("parser::b");
    let mut f = Fragment::new();
    f.add_edge(a, b, EdgeKind::Static);
    f.add_edge(a, b, EdgeKind::Static);
    f.add_edge(a, b, EdgeKind::Virtual);
    f.add_edge(a, a, EdgeKind::Static);
    f.add_edge(b, a, EdgeKind::Static);
    assert_eq!(f.edges.len(), 3);
    assert_eq!((f.edges[0].from, f.edges[0].to, f.edges[0].kind), (a, b, EdgeKind::Static));
    assert_eq!((f.edges[1].from, f.edges[1].to, f.edges[1].kind), (a, b, EdgeKind::Virtual));
    assert_eq!((f.edges[2].from, f.edges[2].to, f.edges[2].kind), (b, a, EdgeKind::Static));
    assert!(f.symbols.is_empty());
}
