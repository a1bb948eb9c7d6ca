//! Exhaustive search over Latin squares of a fixed order: a backtracking
//! generator for all reduced Latin squares, an orthogonality tester, and a
//! permutation-driven search that looks for an orthogonal pair — the
//! computational route to showing that no projective plane of a given order
//! exists (no pair of orthogonal Latin squares of that order).

pub mod generate;
pub mod grid;
pub mod orth;
pub mod scan;
pub mod search;

pub use orth::is_orthogonal;
pub use search::find_orthogonal_pair;
pub use search::generate_semi_reduced_and_orth_check;
pub use search::row_orderings;

pub use generate::generate_all_reduced_latin_squares;
pub use generate::generate_next_values;

pub use grid::InvalidOrder;
pub use grid::LatinSquare;
pub use scan::AllowedValues;
pub use scan::get_bits;
pub use scan::get_next_allowed;
pub use scan::scan_for_first_zero;
