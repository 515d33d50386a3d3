//! Tool argument defaults and the choice of workspace root.

use callscope::query::Direction;
use callscope::state::parse_u64;
use callscope::tools::{choose_workspace, direction_of, DirectionArg};

#[test]
fn direction_defaults_to_forward() {
    assert_eq!(direction_of(None), Direction::Forward);
    assert_eq!(direction_of(Some(DirectionArg::Forward)), Direction::Forward);
    assert_eq!(direction_of(Some(DirectionArg::Backward)), Direction::Backward);
    assert_eq!(DirectionArg::default(), DirectionArg::Forward);
}

#[test]
fn workspace_is_the_argument_then_the_setting_then_the_current_directory() {
    assert_eq!(choose_workspace(Some("/w".to_string()), Some("/env".to_string())), "/w");
    assert_eq!(choose_workspace(None, Some("/env".to_string())), "/env");
    assert_eq!(choose_workspace(None, Some(String::new())), ".");
    assert_eq!(choose_workspace(None, None), ".");
}

#[test]
fn numeric_ids_parse_as_str_parse_does() {
    assert_eq!(parse_u64("0"), Some(0));
    assert_eq!(parse_u64("12345"), Some(12345));
    assert_eq!(parse_u64("+7"), Some(7));
    assert_eq!(parse_u64("18446744073709551615"), Some(u64::MAX));
    assert_eq!(parse_u64("18446744073709551616"), None);
    assert_eq!(parse_u64(""), None);
    assert_eq!(parse_u64("+"), None);
    assert_eq!(parse_u64("-1"), None);
    assert_eq!(parse_u64("12a"), None);
    assert_eq!(parse_u64(" 1"), None);
    for s in ["0", "42", "+42", "007", "99999999999999999999", "x"] {
        assert_eq!(parse_u64(s), s.parse::<u64>().ok(), "{s}");
    }
}
