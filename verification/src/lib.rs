//! Brute-force search for magic squares: arrangements of distinct positive
//! integers in an n-by-n grid whose rows, columns and both diagonals share
//! one sum. Candidate value-sets are drawn from an integer domain `{1 .. max}`,
//! every ordering of each set is laid out as a grid and checked, and the
//! work is fanned out across parallel workers. Three strategies drive the
//! rounds: a single exhaustive pass at a fixed bound, an open-ended climb
//! that raises the bound each round, and an anchored-incremental climb that
//! tests only the candidate sets each new bound makes possible.

mod checker;
mod domain;
mod driver;
mod laws;
mod enumerate;
mod search;

pub use checker::anti_diag_sum;
pub use checker::anti_diag_sum_upto;
pub use checker::check_square;
pub use checker::col_sum;
pub use checker::col_sum_upto;
pub use checker::diag_sum;
pub use checker::diag_sum_upto;
pub use checker::is_magic;
pub use checker::row_sum;
pub use checker::row_sum_upto;

pub use domain::in_domain;
pub use domain::increasing;
pub use domain::is_combination;
pub use domain::lemma_domain_bound_floor;
pub use domain::magic_record;
pub use domain::seq_views;

pub use search::candidate_results;
pub use search::check_permutations;
pub use search::split_combos;

pub use driver::ConfigError;
pub use driver::SearchMode;
pub use driver::find_magic_squares;
pub use driver::initial_bound;
pub use driver::next_bound;
pub use search::anchored_round_results;
pub use search::exhaustive_round_results;
pub use search::search_m_square;
pub use search::search_m_square_iterative;

pub use laws::anchored_set;
pub use laws::anchored_union;
pub use laws::exhaustive_set;
pub use laws::lemma_anchored_rounds_disjoint;
pub use laws::lemma_anchored_union_is_exhaustive;
pub use laws::lemma_exhaustive_idempotent;
pub use laws::lemma_small_domain_empty;
