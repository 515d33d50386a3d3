//! The single answer shape every query returns.
//!
//! Visible uncertainty, bounded output with totals, staleness and the
//! dependency boundary are fields on one [`Envelope`] that every answer
//! carries. Nothing here decides *whether* a result is stale or
//! over-approximated; the query and staleness modules fill the fields in.

use vstd::prelude::*;

verus! {

/// What the staleness check found changed since the index was built.
#[derive(Debug, Clone, PartialEq, Eq)]
pub struct StaleInfo {
    pub diverged_files: Vec<String>,
}

impl StaleInfo {
    pub fn new(diverged_files: Vec<String>) -> (r: StaleInfo)
        ensures
            r.diverged_files == diverged_files,
    {
        StaleInfo { diverged_files }
    }
}

/// Why a result over-approximates.
#[derive(Debug, Clone, PartialEq, Eq)]
#[non_exhaustive]
pub enum Reason {
    /// A `dyn`-dispatch call was widened to all workspace implementors of the
    /// trait; `implementor_count` is how many the answer folds in.
    DynDispatch { trait_path: String, implementor_count: usize },
}

impl Reason {
    /// Convenience constructor for the `dyn`-dispatch case.
    pub fn dyn_dispatch(trait_path: &str, implementor_count: usize) -> (r: Reason)
        ensures
            r matches Reason::DynDispatch { trait_path: p, implementor_count: n } && p@
                == trait_path@ && n == implementor_count,
    {
        Reason::DynDispatch { trait_path: trait_path.to_owned(), implementor_count }
    }
}

/// The one shape every query returns.
#[derive(Debug, Clone, PartialEq, Eq)]
pub struct Envelope<T> {
    /// The query's actual result.
    pub data: T,
    /// Present when the index is stale relative to the current sources.
    pub stale: Option<StaleInfo>,
    /// Present when the answer includes more than what provably executes.
    pub over_approximated: Option<Reason>,
    /// True when a size bound cut the result short; `total` still reports the
    /// full count.
    pub truncated: bool,
    /// Total number of results before any truncation.
    pub total: usize,
    /// True when the answer's walk crossed the workspace boundary.
    pub boundary_applies: bool,
}

impl<T> Envelope<T> {
    /// An exact answer: no staleness, no over-approximation, not truncated, no
    /// boundary crossing, and a total of 0.
    pub fn exact(data: T) -> (r: Envelope<T>)
        ensures
            r.data == data,
            r.stale is None,
            r.over_approximated is None,
            !r.truncated,
            r.total == 0,
            !r.boundary_applies,
    {
        Envelope {
            data,
            stale: None,
            over_approximated: None,
            truncated: false,
            total: 0,
            boundary_applies: false,
        }
    }

    /// Set the total result count.
    pub fn with_total(self, total: usize) -> (r: Envelope<T>)
        ensures
            r == (Envelope { total, ..self }),
    {
        Envelope { total, ..self }
    }

    /// Attach staleness information.
    pub fn with_stale(self, info: StaleInfo) -> (r: Envelope<T>)
        ensures
            r == (Envelope { stale: Some(info), ..self }),
    {
        Envelope { stale: Some(info), ..self }
    }

    /// Attach an over-approximation reason.
    pub fn with_over_approximation(self, reason: Reason) -> (r: Envelope<T>)
        ensures
            r == (Envelope { over_approximated: Some(reason), ..self }),
    {
        Envelope { over_approximated: Some(reason), ..self }
    }

    /// Set the truncation flag.
    pub fn with_truncated(self, truncated: bool) -> (r: Envelope<T>)
        ensures
            r == (Envelope { truncated, ..self }),
    {
        Envelope { truncated, ..self }
    }

    /// Set the boundary-crossing flag.
    pub fn with_boundary(self, boundary_applies: bool) -> (r: Envelope<T>)
        ensures
            r == (Envelope { boundary_applies, ..self }),
    {
        Envelope { boundary_applies, ..self }
    }
}

} // verus!
