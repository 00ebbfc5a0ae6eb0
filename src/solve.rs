//! Answers computed straight from a grid's text.
use vstd::prelude::*;
use crate::grid::{grid_error, text_rows, Beam, BeamError, Dir, Grid};
use crate::scan::{best_illumination, max_illumination, max_illumination_memo, scan_fails};
use crate::trace::{fails, illumination, illumination_count};

verus! {

/// The state of a beam that enters the top-left cell heading right.
pub open spec fn top_left_entry() -> Beam {
    Beam { row: 0, col: 0, dir: Dir::Right }
}

/// What `part1` owes on a text: the grid's error, else the trace's error, else the
/// illumination count from the top-left corner heading right.
pub open spec fn part1_result(s: Seq<char>, r: Result<usize, BeamError>) -> bool {
    let g = text_rows(s);
    match grid_error(g) {
        Some(e) => r == Err::<usize, BeamError>(e),
        None => if fails(g, top_left_entry()) {
            r == Err::<usize, BeamError>(BeamError::InvalidTile)
        } else {
            r == Ok::<usize, BeamError>(illumination(g, top_left_entry()) as usize)
        },
    }
}

/// What the scans owe on a text: the grid's error, else the error of an entry, else
/// the maximum illumination over all entries on the edge.
pub open spec fn part2_result(s: Seq<char>, r: Result<usize, BeamError>) -> bool {
    let g = text_rows(s);
    match grid_error(g) {
        Some(e) => r == Err::<usize, BeamError>(e),
        None => if scan_fails(g) {
            r == Err::<usize, BeamError>(BeamError::InvalidTile)
        } else {
            r == Ok::<usize, BeamError>(best_illumination(g) as usize)
        },
    }
}

/// The number of cells lit by a beam entering the top-left cell heading right.
pub fn part1(input: &str) -> (r: Result<usize, BeamError>)
    ensures
        part1_result(input@, r),
{
    let grid = Grid::from_text(input)?;
    illumination_count(&grid, (0, 0), Dir::Right)
}

/// The largest number of cells lit by a beam entering anywhere over the edge.
pub fn part2(input: &str) -> (r: Result<usize, BeamError>)
    ensures
        part2_result(input@, r),
{
    let grid = Grid::from_text(input)?;
    max_illumination(&grid)
}

/// As `part2`, through the scan that reuses counts of exit states.
pub fn part2_opt(input: &str) -> (r: Result<usize, BeamError>)
    ensures
        part2_result(input@, r),
{
    let grid = Grid::from_text(input)?;
    max_illumination_memo(&grid)
}

} // verus!
