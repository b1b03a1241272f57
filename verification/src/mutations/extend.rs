//! Extending a run by one tile at either end.

use vstd::prelude::*;

use crate::structures::{Run, Tile};

verus! {

/// The run obtained by adding `tile` at the tail of `run`: defined
/// exactly when the colors match and the tile's value is one past the
/// run's end.
pub open spec fn extend_tail_spec(run: Run, tile: Tile) -> Option<Run> {
    if run.color == tile.color && run.end + 1 == tile.value {
        Some(Run { start: run.start, end: tile.value, color: run.color })
    } else {
        None
    }
}

/// The run obtained by adding `tile` at the head of `run`: defined
/// exactly when the colors match and the tile's value is one below the
/// run's start.
pub open spec fn extend_head_spec(run: Run, tile: Tile) -> Option<Run> {
    if run.color == tile.color && run.start == tile.value + 1 {
        Some(Run { start: tile.value, end: run.end, color: run.color })
    } else {
        None
    }
}

/// The run obtained by adding `tile` at either end of `run`, the head
/// tried first.
pub open spec fn extend_spec(run: Run, tile: Tile) -> Option<Run> {
    match extend_head_spec(run, tile) {
        Some(r) => Some(r),
        None => extend_tail_spec(run, tile),
    }
}

/// Extend a run by adding a tile at the end. Succeeds exactly when the
/// tile has the run's color and the value one greater than the run's
/// end.
pub fn extend_run_tail(run: &Run, tile: &Tile) -> (r: Option<Run>)
    ensures
        r == extend_tail_spec(*run, *tile),
{
    if run.color == tile.color && (run.end as u16) + 1 == tile.value as u16 {
        Some(Run { start: run.start, end: tile.value, color: run.color })
    } else {
        None
    }
}

/// Extend a run by adding a tile at the beginning. Succeeds exactly
/// when the tile has the run's color and the value one less than the
/// run's start.
pub fn extend_run_head(run: &Run, tile: &Tile) -> (r: Option<Run>)
    ensures
        r == extend_head_spec(*run, *tile),
{
    if run.color == tile.color && run.start as u16 == (tile.value as u16) + 1 {
        Some(Run { start: tile.value, end: run.end, color: run.color })
    } else {
        None
    }
}

/// Extend a run by adding a tile at either end, trying the head first
/// and then the tail.
pub fn extend_run(run: &Run, tile: &Tile) -> (r: Option<Run>)
    ensures
        r == extend_spec(*run, *tile),
{
    match extend_run_head(run, tile) {
        Some(r) => Some(r),
        None => extend_run_tail(run, tile),
    }
}

} // verus!
