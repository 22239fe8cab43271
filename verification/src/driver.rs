//! The search strategy selector: one entry point over the three
//! enumeration policies, plus the round-bound schedule that an external
//! driver steps through between rounds.

use vstd::prelude::*;
use crate::domain::seq_views;
use crate::search::anchored_round_results;
use crate::search::exhaustive_round_results;
use crate::search::search_m_square;
use crate::search::search_m_square_iterative;

verus! {

/// The three mutually exclusive enumeration policies.
#[derive(Clone, Copy, PartialEq, Eq, Structural, Debug)]
pub enum SearchMode {
    /// One round over every candidate set from `{1 .. domain_bound}`.
    Exhaustive,
    /// Open-ended rounds, each exhaustive, with the bound raised by one
    /// between rounds.
    Climbing,
    /// Open-ended rounds, each testing only the candidate sets that force
    /// the new bound in, with the bound raised by one between rounds.
    AnchoredIncremental,
}

/// A configuration the search must reject before enumerating anything.
#[derive(Clone, Copy, PartialEq, Eq, Structural, Debug)]
pub enum ConfigError {
    /// A side length of zero leaves the grid size degenerate.
    ZeroSide,
}

/// Runs one complete round of the selected strategy at the given domain
/// bound and reports every magic square record it finds, each as a
/// row-major sequence of `side * side` values; a domain too small for a
/// single candidate set gives an empty, non-erroneous round. A zero side
/// is the one rejected configuration.
pub fn find_magic_squares(domain_bound: u32, side: usize, mode: SearchMode) -> (r: Result<
    Vec<Vec<u32>>,
    ConfigError,
>)
    requires
        side * side <= usize::MAX,
    ensures
        r is Err <==> side == 0,
        r is Err ==> r->Err_0 == ConfigError::ZeroSide,
        r is Ok && (mode == SearchMode::Exhaustive || mode == SearchMode::Climbing)
            ==> exhaustive_round_results(seq_views(r->Ok_0@), side as int, domain_bound),
        r is Ok && mode == SearchMode::AnchoredIncremental ==> anchored_round_results(
            seq_views(r->Ok_0@),
            side as int,
            domain_bound,
        ),
{
    if side == 0 {
        return Err(ConfigError::ZeroSide);
    }
    match mode {
        SearchMode::Exhaustive => Ok(search_m_square(domain_bound, side)),
        SearchMode::Climbing => Ok(search_m_square(domain_bound, side)),
        SearchMode::AnchoredIncremental => Ok(search_m_square_iterative(domain_bound, side)),
    }
}

/// The bound of the first round: the requested bound, except that the
/// open-ended modes skip ahead to `side * side`, the least bound any
/// square can use, when the request lies below it.
pub fn initial_bound(domain_bound: u32, side: usize, mode: SearchMode) -> (b: u32)
    requires
        1 <= side,
        side * side <= u32::MAX,
    ensures
        mode == SearchMode::Exhaustive ==> b == domain_bound,
        mode != SearchMode::Exhaustive ==> b as int == if domain_bound >= side * side {
            domain_bound as int
        } else {
            side * side
        },
{
    match mode {
        SearchMode::Exhaustive => domain_bound,
        _ => {
            let floor = (side * side) as u32;
            proof {
                assert(side * side == floor as int) by (nonlinear_arith)
                    requires
                        side * side <= u32::MAX,
                        floor == ((side * side) as u32),
                ;
            }
            if domain_bound >= floor {
                domain_bound
            } else {
                floor
            }
        },
    }
}

/// The bound of the round after one at `bound`: the exhaustive strategy is
/// terminal after its single round, the open-ended strategies raise the
/// bound by one until the value domain is spent.
pub fn next_bound(bound: u32, mode: SearchMode) -> (b: Option<u32>)
    ensures
        mode == SearchMode::Exhaustive ==> b is None,
        mode != SearchMode::Exhaustive && bound < u32::MAX ==> b == Some((bound + 1) as u32),
        mode != SearchMode::Exhaustive && bound == u32::MAX ==> b is None,
{
    match mode {
        SearchMode::Exhaustive => None,
        _ => {
            if bound < u32::MAX {
                Some(bound + 1)
            } else {
                None
            }
        },
    }
}

} // verus!
