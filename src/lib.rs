//! Light beams on a grid of mirrors and splitters: how many tiles a beam lights up.
pub mod grid;
pub mod rules;
pub mod count;
pub mod trace;
pub mod scan;
pub mod solve;
