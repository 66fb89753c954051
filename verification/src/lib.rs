//! Verified solutions to a series of small text puzzles: depth scans,
//! course plotting, diagnostics, bingo, vent maps, fish populations,
//! crab alignment, seven-segment decoding, smoke basins, bracket
//! syntax,
//! octopus flashes, cave paths, transparent origami, polymer growth,
//! chiton paths, a binary packet decoder, and probe trajectories.
//!
//! Each module states and proves functional contracts for its
//! algorithms; reading input files and printing answers is left to
//! callers.

pub mod bingo;
pub mod caves;
pub mod chiton;
pub mod crabs;
pub mod diagnostic;
pub mod dive;
pub mod lanternfish;
pub mod octopus;
pub mod origami;
pub mod packets;
pub mod polymer;
pub mod segments;
pub mod smoke;
pub mod sonar;
pub mod syntax;
pub mod text;
pub mod trickshot;
pub mod vents;
