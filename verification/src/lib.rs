//! Verified solvers for a set of small text-puzzle programs.
//!
//! Each module holds the computational core of one puzzle: parsing a
//! line-based input format into plain value types and computing numeric
//! answers.  The centrepiece is [`almanac`], an interval-based
//! range-translation pipeline whose behaviour is pinned down by
//! specifications and proved correct.

pub mod almanac;
pub mod almanac_laws;
pub mod calibration;
pub mod cube_game;
pub mod schematic;
pub mod scratchcards;
pub mod text;
