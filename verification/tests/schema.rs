//! Symbol identity scenarios.

use callscope::schema::{fnv1a_64, Index, SymbolId, SCHEMA_VERSION};

#[test]
fn symbol_id_is_stable_for_same_path() {
    assert_eq!(
        SymbolId::from_fq_path("parser::normalize_token"),
        SymbolId::from_fq_path("parser::normalize_token"),
    );
}

#[test]
fn symbol_id_differs_for_different_paths() {
    assert_ne!(
        SymbolId::from_fq_path("parser::normalize_token"),
        SymbolId::from_fq_path("parser::denormalize_token"),
    );
}

#[test]
fn symbol_id_is_fnv1a_of_the_path_bytes() {
    assert_eq!(SymbolId::from_fq_path("").0, 0xcbf2_9ce4_8422_2325);
    assert_eq!(SymbolId::from_fq_path("a").0, 0xaf63_dc4c_8601_ec8c);
    assert_eq!(SymbolId::from_fq_path("k::a").0, fnv1a_64("k::a".as_bytes()));
}

#[test]
fn empty_index_has_the_current_schema() {
    let idx = Index::empty();
    assert_eq!(idx.schema_version, SCHEMA_VERSION);
    assert!(idx.symbols.is_empty());
    assert!(idx.edges.is_empty());
}
