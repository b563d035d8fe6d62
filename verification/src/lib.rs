//! A verified solver for the Queens placement puzzle: on an R x C grid split
//! into colored regions, place one marker per row, column and region such
//! that no two markers touch diagonally.

pub mod bitboard;
pub mod bits64;
pub mod board;
pub mod grid;
pub mod parse;
pub mod place;
pub mod product;
pub mod solver;
pub mod text;

pub use bitboard::BOARD_CAPACITY;
pub use bits64::build_bit_set_from_inds;
pub use bits64::render_u64;
pub use board::build_queen_board_from_inds;
pub use board::BoardModel;
pub use board::DimensionMismatchError;
pub use board::QueenBoard;
pub use parse::parse_color_region_boards;
pub use parse::parse_color_region_inds;
pub use place::place;
pub use place::BoardPlacementResult;
pub use solver::solve;
pub use solver::solve_regions;
pub use solver::solve_regions_bounded;
pub use solver::SolveOutcome;
pub use text::format_thousands;
