//! The arguments the eight tools take, and the defaults they fall back on.
//!
//! Each tool runs the staleness check, resolves its symbol name(s) (handing
//! back the candidates instead of guessing when a name is ambiguous), and
//! answers with an envelope; the handlers behind them are in
//! [`crate::state`].

use vstd::prelude::*;

use crate::query::Direction;

verus! {

/// Which way a reachability question runs, as a tool argument.
#[derive(Debug, Clone, Copy, PartialEq, Eq, Structural)]
pub enum DirectionArg {
    /// What the symbol can reach (its transitive callees).
    Forward,
    /// What can reach the symbol (its transitive callers).
    Backward,
}

impl Default for DirectionArg {
    fn default() -> (r: DirectionArg)
        ensures
            r == DirectionArg::Forward,
    {
        DirectionArg::Forward
    }
}

impl From<DirectionArg> for Direction {
    fn from(d: DirectionArg) -> (r: Direction) {
        match d {
            DirectionArg::Forward => Direction::Forward,
            DirectionArg::Backward => Direction::Backward,
        }
    }
}

impl vstd::std_specs::convert::FromSpecImpl<DirectionArg> for Direction {
    open spec fn obeys_from_spec() -> bool {
        true
    }

    open spec fn from_spec(d: DirectionArg) -> Direction {
        match d {
            DirectionArg::Forward => Direction::Forward,
            DirectionArg::Backward => Direction::Backward,
        }
    }
}

/// Arguments of the symbol search.
pub struct ResolveArgs {
    /// A symbol name or path fragment to search for (case-insensitive).
    pub name: String,
    /// Maximum candidates to return.
    pub limit: Option<usize>,
}

/// Arguments of the tools that take one symbol.
pub struct SymbolArgs {
    /// A symbol name, fully-qualified path, or numeric id.
    pub symbol: String,
    /// Maximum results to return.
    pub limit: Option<usize>,
}

/// Arguments of the reachability tool.
pub struct ReachabilityArgs {
    /// A symbol name, fully-qualified path, or numeric id.
    pub symbol: String,
    /// `forward` (callees) or `backward` (callers); forward when absent.
    pub direction: Option<DirectionArg>,
    /// Maximum results to return.
    pub limit: Option<usize>,
}

/// Arguments of the call-paths tool.
pub struct CallPathsArgs {
    /// The path's start symbol.
    pub from: String,
    /// The path's end symbol.
    pub to: String,
    /// Maximum edges per enumerated path.
    pub max_depth: Option<usize>,
    /// Maximum number of paths to enumerate.
    pub max_paths: Option<usize>,
}

/// Arguments of the neighbourhood-graph tool.
pub struct NeighborhoodArgs {
    /// The focus symbol.
    pub symbol: String,
    /// Undirected radius (hops) around the focus.
    pub depth: Option<usize>,
    /// Maximum nodes drawn before the graph is truncated.
    pub node_limit: Option<usize>,
}

/// The direction a reachability question runs: the one given, or forward.
pub fn direction_of(d: Option<DirectionArg>) -> (r: Direction)
    ensures
        r == match d {
            Some(DirectionArg::Backward) => Direction::Backward,
            _ => Direction::Forward,
        },
{
    let arg = match d {
        Some(a) => a,
        None => DirectionArg::default(),
    };
    Direction::from(arg)
}

/// The workspace root the server serves: the first command-line argument
/// when one is given, else the `CALLSCOPE_WORKSPACE` setting when it is not
/// empty, else the current directory `.`.
pub fn choose_workspace(arg: Option<String>, setting: Option<String>) -> (r: String)
    ensures
        r@ == match arg {
            Some(a) => a@,
            None => match setting {
                Some(s) => if s@.len() > 0 { s@ } else { "."@ },
                None => "."@,
            },
        },
{
    if let Some(a) = arg {
        return a;
    }
    if let Some(s) = setting {
        let cs = crate::text::chars_of(s.as_str());
        if cs.len() > 0 {
            return s;
        }
    }
    ".".to_string()
}

} // verus!
