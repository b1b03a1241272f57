//! The placement search: one tile, an ordered sequence, and the
//! permutation-driven optimizer.

use vstd::prelude::*;

use itertools::Itertools;

use crate::mutations::compress::{compress_runs, compress_spec, lemma_compress_valid};
use crate::mutations::extend::{extend_run, extend_spec};
use crate::mutations::split::{
    is_partition_of, lemma_split_run_spec_parts, run_splittable, split_run, split_run_spec,
};
use crate::structures::{
    copy_board, copy_groups, copy_runs, groups_all_valid, groups_view, lemma_groups_view_valid,
    runs_all_valid, Board, Run, Tile,
};

verus! {

broadcast use {
    vstd::seq_lib::group_to_multiset_ensures,
    vstd::multiset::group_multiset_axioms,
    vstd::seq_lib::lemma_multiset_commutative,
};

/// Every run on the board is well formed, with room to grow by
/// `margin` more values while staying narrow enough to split.
pub open spec fn runs_within(runs: Seq<Run>, margin: int) -> bool {
    forall|i: int| 0 <= i < runs.len() ==> (#[trigger] runs[i]).start <= runs[i].end
        && runs[i].end - runs[i].start + margin <= 30
}

/// The tile extends the run at index `k` directly.
pub open spec fn can_extend_at(runs: Seq<Run>, tile: Tile, k: int) -> bool {
    0 <= k < runs.len() && extend_spec(runs[k], tile) is Some
}

/// Some run extends directly with the tile.
pub open spec fn direct_possible(runs: Seq<Run>, tile: Tile) -> bool {
    exists|k: int| can_extend_at(runs, tile, k)
}

/// The lowest run index at which the tile extends directly.
pub open spec fn first_direct(runs: Seq<Run>, tile: Tile) -> int {
    choose|k: int| can_extend_at(runs, tile, k)
        && (forall|j: int| 0 <= j < k ==> !can_extend_at(runs, tile, j))
}

/// The tile extends sub-run `j` of the partition `parts`.
pub open spec fn parts_hit(parts: Seq<Run>, tile: Tile, j: int) -> bool {
    0 <= j < parts.len() && extend_spec(parts[j], tile) is Some
}

/// Some sub-run of the partition extends with the tile.
pub open spec fn parts_extendable(parts: Seq<Run>, tile: Tile) -> bool {
    exists|j: int| parts_hit(parts, tile, j)
}

/// The lowest sub-run index of the partition that the tile extends.
pub open spec fn first_part_hit(parts: Seq<Run>, tile: Tile) -> int {
    choose|j: int| parts_hit(parts, tile, j)
        && (forall|j2: int| 0 <= j2 < j ==> !parts_hit(parts, tile, j2))
}

/// The tile extends some sub-run of partition `m` in the list `ls`.
pub open spec fn list_hit(ls: Seq<Seq<Run>>, tile: Tile, m: int) -> bool {
    0 <= m < ls.len() && parts_extendable(ls[m], tile)
}

/// Some partition in the list has an extendable sub-run.
pub open spec fn list_extendable(ls: Seq<Seq<Run>>, tile: Tile) -> bool {
    exists|m: int| list_hit(ls, tile, m)
}

/// The lowest partition index in the list with an extendable sub-run.
pub open spec fn first_list_hit(ls: Seq<Seq<Run>>, tile: Tile) -> int {
    choose|m: int| list_hit(ls, tile, m)
        && (forall|m2: int| 0 <= m2 < m ==> !list_hit(ls, tile, m2))
}

/// Some split of the run at index `k` has an extendable sub-run.
pub open spec fn split_hit(runs: Seq<Run>, tile: Tile, k: int) -> bool {
    0 <= k < runs.len() && list_extendable(split_run_spec(runs[k]), tile)
}

/// Some run on the board can be split so that the tile extends one of
/// the pieces.
pub open spec fn split_possible(runs: Seq<Run>, tile: Tile) -> bool {
    exists|k: int| split_hit(runs, tile, k)
}

/// The lowest run index whose splits admit the tile.
pub open spec fn first_split_hit(runs: Seq<Run>, tile: Tile) -> int {
    choose|k: int| split_hit(runs, tile, k)
        && (forall|k2: int| 0 <= k2 < k ==> !split_hit(runs, tile, k2))
}

/// The partition with its first extendable sub-run extended by the
/// tile.
pub open spec fn extended_parts(parts: Seq<Run>, tile: Tile) -> Seq<Run> {
    let j = first_part_hit(parts, tile);
    parts.update(j, extend_spec(parts[j], tile).unwrap())
}

/// What placing one tile does to the board's runs. The first run that
/// the tile extends directly is extended in place; failing that, the
/// first run, first partition and first sub-run (in enumeration
/// order) that admit the tile are substituted for the original run;
/// failing both, nothing is placed.
pub open spec fn place_tile_runs(runs: Seq<Run>, tile: Tile) -> Option<Seq<Run>> {
    if direct_possible(runs, tile) {
        let k = first_direct(runs, tile);
        Some(runs.update(k, extend_spec(runs[k], tile).unwrap()))
    } else if split_possible(runs, tile) {
        let k = first_split_hit(runs, tile);
        let ls = split_run_spec(runs[k]);
        let m = first_list_hit(ls, tile);
        Some(runs.take(k) + extended_parts(ls[m], tile) + runs.skip(k + 1))
    } else {
        None
    }
}

/// A bounded nonempty range with a hit has a least hit.
proof fn lemma_first_exists(p: spec_fn(int) -> bool, n: int)
    requires
        exists|i: int| 0 <= i < n && #[trigger] p(i),
    ensures
        exists|i: int| (0 <= i < n && #[trigger] p(i)) && (forall|j: int| 0 <= j < i ==> !(#[trigger] p(j))),
    decreases n,
{
    let w = choose|i: int| 0 <= i < n && #[trigger] p(i);
    if forall|j: int| 0 <= j < w ==> !(#[trigger] p(j)) {
        assert((0 <= w < n && p(w)) && (forall|j: int| 0 <= j < w ==> !(#[trigger] p(j))));
    } else {
        assert(exists|j: int| 0 <= j < w && #[trigger] p(j));
        lemma_first_exists(p, w);
        let i = choose|i: int| (0 <= i < w && #[trigger] p(i))
            && (forall|j: int| 0 <= j < i ==> !(#[trigger] p(j)));
        assert((0 <= i < n && p(i)) && (forall|j: int| 0 <= j < i ==> !(#[trigger] p(j))));
    }
}

/// The first direct extension index is a hit and is least.
pub proof fn lemma_first_direct(runs: Seq<Run>, tile: Tile)
    requires
        direct_possible(runs, tile),
    ensures
        can_extend_at(runs, tile, first_direct(runs, tile)),
        forall|j: int| 0 <= j < first_direct(runs, tile) ==> !can_extend_at(runs, tile, j),
{
    let p = |i: int| can_extend_at(runs, tile, i);
    let k0 = choose|k: int| can_extend_at(runs, tile, k);
    assert(0 <= k0 < runs.len() && p(k0));
    lemma_first_exists(p, runs.len() as int);
    let i = choose|i: int| (0 <= i < runs.len() && #[trigger] p(i))
        && (forall|j: int| 0 <= j < i ==> !(#[trigger] p(j)));
    assert(can_extend_at(runs, tile, i));
    assert forall|j: int| 0 <= j < i implies !can_extend_at(runs, tile, j) by {
        assert(!p(j));
    }
}

/// The first extendable sub-run index of a partition is a hit and is
/// least.
pub proof fn lemma_first_part_hit(parts: Seq<Run>, tile: Tile)
    requires
        parts_extendable(parts, tile),
    ensures
        parts_hit(parts, tile, first_part_hit(parts, tile)),
        forall|j2: int| 0 <= j2 < first_part_hit(parts, tile) ==> !parts_hit(parts, tile, j2),
{
    let p = |i: int| parts_hit(parts, tile, i);
    let k0 = choose|j: int| parts_hit(parts, tile, j);
    assert(0 <= k0 < parts.len() && p(k0));
    lemma_first_exists(p, parts.len() as int);
    let i = choose|i: int| (0 <= i < parts.len() && #[trigger] p(i))
        && (forall|j: int| 0 <= j < i ==> !(#[trigger] p(j)));
    assert(parts_hit(parts, tile, i));
    assert forall|j2: int| 0 <= j2 < i implies !parts_hit(parts, tile, j2) by {
        assert(!p(j2));
    }
}

/// The first partition index with an extendable sub-run is a hit and
/// is least.
pub proof fn lemma_first_list_hit(ls: Seq<Seq<Run>>, tile: Tile)
    requires
        list_extendable(ls, tile),
    ensures
        list_hit(ls, tile, first_list_hit(ls, tile)),
        forall|m2: int| 0 <= m2 < first_list_hit(ls, tile) ==> !list_hit(ls, tile, m2),
{
    let p = |i: int| list_hit(ls, tile, i);
    let k0 = choose|m: int| list_hit(ls, tile, m);
    assert(0 <= k0 < ls.len() && p(k0));
    lemma_first_exists(p, ls.len() as int);
    let i = choose|i: int| (0 <= i < ls.len() && #[trigger] p(i))
        && (forall|j: int| 0 <= j < i ==> !(#[trigger] p(j)));
    assert(list_hit(ls, tile, i));
    assert forall|m2: int| 0 <= m2 < i implies !list_hit(ls, tile, m2) by {
        assert(!p(m2));
    }
}

/// The first run index whose splits admit the tile is a hit and is
/// least.
pub proof fn lemma_first_split_hit(runs: Seq<Run>, tile: Tile)
    requires
        split_possible(runs, tile),
    ensures
        split_hit(runs, tile, first_split_hit(runs, tile)),
        forall|k2: int| 0 <= k2 < first_split_hit(runs, tile) ==> !split_hit(runs, tile, k2),
{
    let p = |i: int| split_hit(runs, tile, i);
    let k0 = choose|k: int| split_hit(runs, tile, k);
    assert(0 <= k0 < runs.len() && p(k0));
    lemma_first_exists(p, runs.len() as int);
    let i = choose|i: int| (0 <= i < runs.len() && #[trigger] p(i))
        && (forall|j: int| 0 <= j < i ==> !(#[trigger] p(j)));
    assert(split_hit(runs, tile, i));
    assert forall|k2: int| 0 <= k2 < i implies !split_hit(runs, tile, k2) by {
        assert(!p(k2));
    }
}

/// Every sub-run of a partition starts no earlier than the whole run.
proof fn lemma_partition_low(parts: Seq<Run>, whole: Run, j: int)
    requires
        is_partition_of(parts, whole),
        0 <= j < parts.len(),
    ensures
        whole.start <= parts[j].start,
    decreases j,
{
    if j > 0 {
        lemma_partition_low(parts, whole, j - 1);
        let jm = j - 1;
        assert(parts[jm + 1].start == parts[jm].end + 1);
    }
}

/// Every sub-run of a partition ends no later than the whole run.
proof fn lemma_partition_high(parts: Seq<Run>, whole: Run, j: int)
    requires
        is_partition_of(parts, whole),
        0 <= j < parts.len(),
    ensures
        parts[j].end <= whole.end,
    decreases parts.len() - j,
{
    if j < parts.len() - 1 {
        lemma_partition_high(parts, whole, j + 1);
        let jm = j;
        assert(parts[jm + 1].start == parts[jm].end + 1);
    }
}

/// A proper partition's sub-runs sit inside the whole run and are
/// strictly narrower than it.
pub proof fn lemma_partition_part_bounds(parts: Seq<Run>, whole: Run, j: int)
    requires
        is_partition_of(parts, whole),
        parts.len() >= 2,
        0 <= j < parts.len(),
    ensures
        whole.start <= parts[j].start,
        parts[j].end <= whole.end,
        parts[j].end - parts[j].start <= whole.end - whole.start - 1,
{
    lemma_partition_low(parts, whole, j);
    lemma_partition_high(parts, whole, j);
    if j < parts.len() - 1 {
        lemma_partition_high(parts, whole, j + 1);
        let jm = j;
        assert(parts[jm + 1].start == parts[jm].end + 1);
    } else {
        lemma_partition_low(parts, whole, j - 1);
        let jm = j - 1;
        assert(parts[jm + 1].start == parts[jm].end + 1);
    }
}

/// Placing a tile keeps every run well formed and consumes one value
/// of growing room.
pub proof fn lemma_place_tile_within(runs: Seq<Run>, tile: Tile, margin: int)
    requires
        runs_within(runs, margin),
        margin >= 1,
        place_tile_runs(runs, tile) is Some,
    ensures
        runs_within(place_tile_runs(runs, tile).unwrap(), margin - 1),
{
    let out = place_tile_runs(runs, tile).unwrap();
    if direct_possible(runs, tile) {
        lemma_first_direct(runs, tile);
        let k = first_direct(runs, tile);
        let e = extend_spec(runs[k], tile).unwrap();
        assert(e.start <= e.end && e.end - e.start == runs[k].end - runs[k].start + 1);
        assert(out == runs.update(k, e));
        assert forall|i: int| 0 <= i < out.len() implies (#[trigger] out[i]).start <= out[i].end
            && out[i].end - out[i].start + (margin - 1) <= 30 by {
            if i != k {
                assert(out[i] == runs[i]);
            }
        }
    } else {
        lemma_first_split_hit(runs, tile);
        let k = first_split_hit(runs, tile);
        let ls = split_run_spec(runs[k]);
        lemma_first_list_hit(ls, tile);
        let m = first_list_hit(ls, tile);
        let parts = ls[m];
        assert(run_splittable(runs[k]));
        lemma_split_run_spec_parts(runs[k]);
        assert(is_partition_of(parts, runs[k]) && parts.len() >= 2);
        lemma_first_part_hit(parts, tile);
        let j = first_part_hit(parts, tile);
        let e = extend_spec(parts[j], tile).unwrap();
        lemma_partition_part_bounds(parts, runs[k], j);
        assert(e.start <= e.end && e.end - e.start == parts[j].end - parts[j].start + 1);
        assert(out == runs.take(k) + parts.update(j, e) + runs.skip(k + 1));
        assert forall|i: int| 0 <= i < out.len() implies (#[trigger] out[i]).start <= out[i].end
            && out[i].end - out[i].start + (margin - 1) <= 30 by {
            if i < k {
                assert(out[i] == runs[i]);
            } else if i < k + parts.len() {
                let t = i - k;
                assert(out[i] == parts.update(j, e)[t]);
                if t == j {
                    assert(out[i] == e);
                } else {
                    assert(out[i] == parts[t]);
                    lemma_partition_part_bounds(parts, runs[k], t);
                }
            } else {
                assert(out[i] == runs[i - parts.len() + 1]);
            }
        }
    }
}

/// Build the run list that replaces run `k` by the partition `parts`
/// with sub-run `j` replaced by `e`.
fn assemble_runs(runs: &Vec<Run>, k: usize, parts: &Vec<Run>, j: usize, e: Run) -> (r: Vec<Run>)
    requires
        k < runs@.len(),
        j < parts@.len(),
    ensures
        r@ == runs@.take(k as int) + parts@.update(j as int, e) + runs@.skip(k as int + 1),
{
    let total = runs.len();
    let mut out: Vec<Run> = Vec::new();
    let mut i: usize = 0;
    while i < k
        invariant
            i <= k,
            k < runs@.len(),
            out@ == runs@.take(i as int),
        decreases k - i,
    {
        out.push(runs[i]);
        proof {
            assert(runs@.take(i + 1 as int) =~= runs@.take(i as int).push(runs@[i as int]));
        }
        i += 1;
    }
    let mut t: usize = 0;
    while t < parts.len()
        invariant
            t <= parts@.len(),
            j < parts@.len(),
            k < runs@.len(),
            out@ == runs@.take(k as int) + parts@.update(j as int, e).take(t as int),
        decreases parts@.len() - t,
    {
        let piece = if t == j { e } else { parts[t] };
        out.push(piece);
        proof {
            assert(parts@.update(j as int, e).take(t + 1 as int)
                =~= parts@.update(j as int, e).take(t as int).push(parts@.update(j as int, e)[t as int]));
            assert(out@ =~= runs@.take(k as int) + parts@.update(j as int, e).take(t + 1 as int));
        }
        t += 1;
    }
    proof {
        assert(parts@.update(j as int, e).take(parts@.len() as int) =~= parts@.update(j as int, e));
    }
    let mut u: usize = k + 1;
    while u < total
        invariant
            total == runs@.len(),
            k + 1 <= u <= runs@.len(),
            j < parts@.len(),
            out@ == runs@.take(k as int) + parts@.update(j as int, e)
                + runs@.subrange(k as int + 1, u as int),
        decreases runs@.len() - u,
    {
        out.push(runs[u]);
        proof {
            assert(runs@.subrange(k as int + 1, u + 1 as int)
                =~= runs@.subrange(k as int + 1, u as int).push(runs@[u as int]));
            assert(out@ =~= runs@.take(k as int) + parts@.update(j as int, e)
                + runs@.subrange(k as int + 1, u + 1 as int));
        }
        u += 1;
    }
    proof {
        assert(runs@.subrange(k as int + 1, runs@.len() as int) =~= runs@.skip(k as int + 1));
    }
    out
}

/// Attempt to place a single tile on the board.
///
/// The board's runs are scanned in order for a direct extension; if
/// none succeeds, each run's splits are tried in enumeration order and
/// the first split piece that the tile extends replaces the original
/// run together with its partition. Returns the new board on the
/// first success, and nothing when the tile fits nowhere.
///
/// Every run on the board must be well formed and narrow enough for
/// the bitmask that enumerates its splits (at most 31 values wide).
pub fn place_tile(board: &Board, tile: &Tile) -> (r: Option<Board>)
    requires
        runs_within(board.runs@, 0),
    ensures
        match r {
            Some(b2) => place_tile_runs(board.runs@, *tile) == Some(b2.runs@)
                && groups_view(b2.groups@) == groups_view(board.groups@),
            None => place_tile_runs(board.runs@, *tile) is None,
        },
{
    let n = board.runs.len();
    let mut k: usize = 0;
    while k < n
        invariant
            n == board.runs@.len(),
            k <= n,
            forall|j: int| 0 <= j < k ==> !can_extend_at(board.runs@, *tile, j),
        decreases n - k,
    {
        match extend_run(&board.runs[k], tile) {
            Some(e) => {
                let mut new_runs = copy_runs(&board.runs);
                new_runs[k] = e;
                let b2 = Board { groups: copy_groups(&board.groups), runs: new_runs };
                proof {
                    assert(can_extend_at(board.runs@, *tile, k as int));
                    lemma_first_direct(board.runs@, *tile);
                    let k0 = first_direct(board.runs@, *tile);
                    if k0 < k as int {
                        assert(!can_extend_at(board.runs@, *tile, k0));
                        assert(false);
                    }
                    if k0 > k as int {
                        assert(!can_extend_at(board.runs@, *tile, k as int));
                        assert(false);
                    }
                    assert(b2.runs@ == board.runs@.update(
                        k as int,
                        extend_spec(board.runs@[k as int], *tile).unwrap(),
                    ));
                }
                return Some(b2);
            }
            None => {
                k += 1;
            }
        }
    }
    proof {
        if direct_possible(board.runs@, *tile) {
            let k0 = choose|k0: int| can_extend_at(board.runs@, *tile, k0);
            assert(!can_extend_at(board.runs@, *tile, k0));
        }
    }
    let mut k2: usize = 0;
    while k2 < n
        invariant
            n == board.runs@.len(),
            k2 <= n,
            runs_within(board.runs@, 0),
            !direct_possible(board.runs@, *tile),
            forall|j: int| 0 <= j < k2 ==> !split_hit(board.runs@, *tile, j),
        decreases n - k2,
    {
        proof {
            assert(run_splittable(board.runs@[k2 as int]));
        }
        let splits = split_run(&board.runs[k2]);
        let ghost ls = split_run_spec(board.runs@[k2 as int]);
        let mut m: usize = 0;
        while m < splits.len()
            invariant
                n == board.runs@.len(),
                k2 < n,
                runs_within(board.runs@, 0),
                !direct_possible(board.runs@, *tile),
                forall|j: int| 0 <= j < k2 ==> !split_hit(board.runs@, *tile, j),
                ls == split_run_spec(board.runs@[k2 as int]),
                splits@.map_values(|v: Vec<Run>| v@) == ls,
                m <= splits@.len(),
                forall|m2: int| 0 <= m2 < m ==> !list_hit(ls, *tile, m2),
            decreases splits@.len() - m,
        {
            let parts = &splits[m];
            proof {
                assert((#[trigger] splits@[m as int])@ == ls[m as int]);
            }
            let mut j: usize = 0;
            while j < parts.len()
                invariant
                    n == board.runs@.len(),
                    k2 < n,
                    m < splits@.len(),
                    runs_within(board.runs@, 0),
                    !direct_possible(board.runs@, *tile),
                    forall|jj: int| 0 <= jj < k2 ==> !split_hit(board.runs@, *tile, jj),
                    ls == split_run_spec(board.runs@[k2 as int]),
                    splits@.map_values(|v: Vec<Run>| v@) == ls,
                    forall|m2: int| 0 <= m2 < m ==> !list_hit(ls, *tile, m2),
                    parts == &splits[m as int],
                    parts@ == ls[m as int],
                    j <= parts@.len(),
                    forall|j2: int| 0 <= j2 < j ==> !parts_hit(ls[m as int], *tile, j2),
                decreases parts@.len() - j,
            {
                match extend_run(&parts[j], tile) {
                    Some(e) => {
                        let new_runs = assemble_runs(&board.runs, k2, parts, j, e);
                        let b2 = Board { groups: copy_groups(&board.groups), runs: new_runs };
                        proof {
                            assert(parts_hit(ls[m as int], *tile, j as int));
                            lemma_first_part_hit(ls[m as int], *tile);
                            let j0 = first_part_hit(ls[m as int], *tile);
                            if j0 < j as int {
                                assert(!parts_hit(ls[m as int], *tile, j0));
                                assert(false);
                            }
                            if j0 > j as int {
                                assert(!parts_hit(ls[m as int], *tile, j as int));
                                assert(false);
                            }
                            assert(list_hit(ls, *tile, m as int));
                            lemma_first_list_hit(ls, *tile);
                            let m0 = first_list_hit(ls, *tile);
                            if m0 < m as int {
                                assert(!list_hit(ls, *tile, m0));
                                assert(false);
                            }
                            if m0 > m as int {
                                assert(!list_hit(ls, *tile, m as int));
                                assert(false);
                            }
                            assert(split_hit(board.runs@, *tile, k2 as int));
                            lemma_first_split_hit(board.runs@, *tile);
                            let k0 = first_split_hit(board.runs@, *tile);
                            if k0 < k2 as int {
                                assert(!split_hit(board.runs@, *tile, k0));
                                assert(false);
                            }
                            if k0 > k2 as int {
                                assert(!split_hit(board.runs@, *tile, k2 as int));
                                assert(false);
                            }
                            assert(extended_parts(ls[m as int], *tile)
                                == parts@.update(j as int, e));
                            assert(place_tile_runs(board.runs@, *tile) == Some(b2.runs@));
                        }
                        return Some(b2);
                    }
                    None => {
                        proof {
                            assert(!parts_hit(ls[m as int], *tile, j as int));
                        }
                        j += 1;
                    }
                }
            }
            proof {
                if list_hit(ls, *tile, m as int) {
                    let j0 = choose|j0: int| parts_hit(ls[m as int], *tile, j0);
                    assert(!parts_hit(ls[m as int], *tile, j0));
                }
            }
            m += 1;
        }
        proof {
            if split_hit(board.runs@, *tile, k2 as int) {
                let m0 = choose|m0: int| list_hit(ls, *tile, m0);
                assert(!list_hit(ls, *tile, m0));
            }
        }
        k2 += 1;
    }
    proof {
        if split_possible(board.runs@, *tile) {
            let k0 = choose|k0: int| split_hit(board.runs@, *tile, k0);
            assert(!split_hit(board.runs@, *tile, k0));
        }
    }
    None
}

/// What a greedy left-to-right pass does to the board's runs: each
/// tile is placed where `place_tile_runs` puts it, and a tile that
/// fits nowhere is skipped and never retried.
pub open spec fn place_tiles_runs(runs: Seq<Run>, tiles: Seq<Tile>) -> (Seq<Run>, Seq<Tile>)
    decreases tiles.len(),
{
    if tiles.len() == 0 {
        (runs, Seq::empty())
    } else {
        match place_tile_runs(runs, tiles[0]) {
            Some(r2) => {
                let rec = place_tiles_runs(r2, tiles.drop_first());
                (rec.0, seq![tiles[0]] + rec.1)
            },
            None => place_tiles_runs(runs, tiles.drop_first()),
        }
    }
}

/// A greedy pass places no tile more often than it is offered, never
/// more tiles than offered, and places everything only by placing the
/// sequence itself.
pub proof fn lemma_place_tiles_counts(runs: Seq<Run>, tiles: Seq<Tile>)
    ensures
        place_tiles_runs(runs, tiles).1.len() <= tiles.len(),
        forall|t: Tile| #[trigger] place_tiles_runs(runs, tiles).1.to_multiset().count(t)
            <= tiles.to_multiset().count(t),
        place_tiles_runs(runs, tiles).1.len() == tiles.len()
            ==> place_tiles_runs(runs, tiles).1 == tiles,
    decreases tiles.len(),
{
    let placed = place_tiles_runs(runs, tiles).1;
    if tiles.len() == 0 {
        assert(placed =~= tiles);
    } else {
        let d = tiles.drop_first();
        assert(tiles =~= seq![tiles[0]] + d);
        assert((seq![tiles[0]] + d).to_multiset()
            == seq![tiles[0]].to_multiset().add(d.to_multiset()));
        assert(seq![tiles[0]] =~= Seq::<Tile>::empty().push(tiles[0]));
        assert(Seq::<Tile>::empty().push(tiles[0]).to_multiset()
            =~= Seq::<Tile>::empty().to_multiset().insert(tiles[0]));
        match place_tile_runs(runs, tiles[0]) {
            Some(r2) => {
                lemma_place_tiles_counts(r2, d);
                let sub = place_tiles_runs(r2, d).1;
                assert(placed == seq![tiles[0]] + sub);
                assert((seq![tiles[0]] + sub).to_multiset()
                    == seq![tiles[0]].to_multiset().add(sub.to_multiset()));
                assert forall|t: Tile| #[trigger] placed.to_multiset().count(t)
                    <= tiles.to_multiset().count(t) by {
                    assert(sub.to_multiset().count(t) <= d.to_multiset().count(t));
                }
                if placed.len() == tiles.len() {
                    assert(sub.len() == d.len());
                    assert(sub == d);
                    assert(placed =~= tiles);
                }
            },
            None => {
                lemma_place_tiles_counts(runs, d);
                assert forall|t: Tile| #[trigger] placed.to_multiset().count(t)
                    <= tiles.to_multiset().count(t) by {
                    assert(placed.to_multiset().count(t) <= d.to_multiset().count(t));
                }
            },
        }
    }
}

/// The greedy pass starting at position `i` of the tile list.
fn place_tiles_from(board: &Board, tiles: &Vec<Tile>, i: usize) -> (r: (Board, Vec<Tile>))
    requires
        i <= tiles@.len(),
        runs_within(board.runs@, tiles@.len() - i),
    ensures
        r.0.runs@ == place_tiles_runs(board.runs@, tiles@.skip(i as int)).0,
        r.1@ == place_tiles_runs(board.runs@, tiles@.skip(i as int)).1,
        groups_view(r.0.groups@) == groups_view(board.groups@),
    decreases tiles@.len() - i,
{
    if i == tiles.len() {
        proof {
            assert(tiles@.skip(i as int) =~= Seq::<Tile>::empty());
        }
        (copy_board(board), Vec::new())
    } else {
        proof {
            assert(runs_within(board.runs@, 0));
        }
        let t = tiles[i];
        let ghost rest = tiles@.skip(i as int);
        proof {
            assert(rest[0] == tiles@[i as int]);
            assert(rest.drop_first() =~= tiles@.skip(i as int + 1));
        }
        match place_tile(board, &t) {
            Some(b2) => {
                proof {
                    lemma_place_tile_within(board.runs@, t, tiles@.len() - i);
                    assert(runs_within(b2.runs@, tiles@.len() - (i + 1)));
                }
                let (final_board, sub_placed) = place_tiles_from(&b2, tiles, i + 1);
                let mut placed: Vec<Tile> = Vec::new();
                placed.push(t);
                let mut sub = sub_placed;
                placed.append(&mut sub);
                proof {
                    assert(placed@ =~= seq![t]
                        + place_tiles_runs(b2.runs@, tiles@.skip(i as int + 1)).1);
                }
                (final_board, placed)
            },
            None => {
                proof {
                    assert(runs_within(board.runs@, tiles@.len() - (i + 1)));
                }
                let r = place_tiles_from(board, tiles, i + 1);
                proof {
                    assert(place_tiles_runs(board.runs@, rest)
                        == place_tiles_runs(board.runs@, rest.drop_first()));
                }
                r
            },
        }
    }
}

/// Recursively place multiple tiles on the board, in order.
///
/// Each tile in turn is placed where `place_tile` puts it; a tile
/// that cannot be placed is skipped and not retried within this pass.
/// Returns the final board and the tiles that were placed, in the
/// order they were placed.
///
/// Every run on the board must leave room to grow by one value per
/// tile while staying narrow enough to split (`runs_within`).
pub fn place_tiles(board: &Board, tiles: &Vec<Tile>) -> (r: (Board, Vec<Tile>))
    requires
        runs_within(board.runs@, tiles@.len() as int),
    ensures
        r.0.runs@ == place_tiles_runs(board.runs@, tiles@).0,
        r.1@ == place_tiles_runs(board.runs@, tiles@).1,
        groups_view(r.0.groups@) == groups_view(board.groups@),
{
    proof {
        assert(tiles@.skip(0) =~= tiles@);
    }
    place_tiles_from(board, tiles, 0)
}

/// `q` lays out exactly the tiles of `tiles`, in some order.
pub open spec fn is_reordering(q: Seq<Tile>, tiles: Seq<Tile>) -> bool {
    q.to_multiset() == tiles.to_multiset()
}

/// A greedy pass over `q` leaves the board fully valid.
pub open spec fn attempt_valid(board: Board, q: Seq<Tile>) -> bool {
    groups_all_valid(board.groups@) && runs_all_valid(place_tiles_runs(board.runs@, q).0)
}

/// The tiles of `tiles` that do not occur among `placed`, in their
/// original order.
pub open spec fn unplaced_of(tiles: Seq<Tile>, placed: Seq<Tile>) -> Seq<Tile>
    decreases tiles.len(),
{
    if tiles.len() == 0 {
        tiles
    } else if placed.contains(tiles.last()) {
        unplaced_of(tiles.drop_last(), placed)
    } else {
        unplaced_of(tiles.drop_last(), placed).push(tiles.last())
    }
}

/// `q` explains the best attempt seen so far: the permutation, the
/// board it produced, and the tiles it placed.
spec fn best_witness(
    board: Board,
    tiles: Seq<Tile>,
    best_runs: Seq<Run>,
    best: Seq<Tile>,
    q: Seq<Tile>,
) -> bool {
    &&& is_reordering(q, tiles)
    &&& attempt_valid(board, q)
    &&& place_tiles_runs(board.runs@, q).1 == best
    &&& place_tiles_runs(board.runs@, q).0 == best_runs
}

/// How often each tile occurs among the leftovers: never when it was
/// placed, else as often as it was offered.
proof fn lemma_unplaced_count(tiles: Seq<Tile>, placed: Seq<Tile>, x: Tile)
    ensures
        unplaced_of(tiles, placed).to_multiset().count(x) == if placed.contains(x) {
            0nat
        } else {
            tiles.to_multiset().count(x)
        },
    decreases tiles.len(),
{
    if tiles.len() == 0 {
        assert(unplaced_of(tiles, placed) == tiles);
    } else {
        let last = tiles.last();
        lemma_unplaced_count(tiles.drop_last(), placed, x);
        assert(tiles =~= tiles.drop_last().push(last));
        assert(tiles.drop_last().push(last).to_multiset()
            =~= tiles.drop_last().to_multiset().insert(last));
        if !placed.contains(last) {
            assert(unplaced_of(tiles, placed)
                == unplaced_of(tiles.drop_last(), placed).push(last));
            assert(unplaced_of(tiles.drop_last(), placed).push(last).to_multiset()
                =~= unplaced_of(tiles.drop_last(), placed).to_multiset().insert(last));
        } else {
            assert(unplaced_of(tiles, placed) == unplaced_of(tiles.drop_last(), placed));
        }
    }
}

/// When every offered tile was placed, nothing is left over.
proof fn lemma_unplaced_empty(tiles: Seq<Tile>, placed: Seq<Tile>)
    requires
        forall|i: int| 0 <= i < tiles.len() ==> placed.contains(#[trigger] tiles[i]),
    ensures
        unplaced_of(tiles, placed) == Seq::<Tile>::empty(),
    decreases tiles.len(),
{
    if tiles.len() == 0 {
        assert(unplaced_of(tiles, placed) =~= Seq::<Tile>::empty());
    } else {
        assert(placed.contains(tiles[tiles.len() - 1]));
        assert(unplaced_of(tiles, placed) == unplaced_of(tiles.drop_last(), placed));
        assert forall|i: int| 0 <= i < tiles.drop_last().len()
            implies placed.contains(#[trigger] tiles.drop_last()[i]) by {
            assert(tiles.drop_last()[i] == tiles[i]);
        }
        lemma_unplaced_empty(tiles.drop_last(), placed);
    }
}

/// The placed tiles and the leftovers are disjoint, and together they
/// are exactly the input tiles when those were pairwise distinct.
proof fn lemma_complement_props(tiles: Seq<Tile>, placed: Seq<Tile>)
    requires
        forall|t: Tile| #[trigger] placed.to_multiset().count(t) <= tiles.to_multiset().count(t),
    ensures
        forall|t: Tile| #[trigger] placed.contains(t)
            ==> !unplaced_of(tiles, placed).contains(t),
        tiles.no_duplicates() ==> placed.to_multiset().add(unplaced_of(tiles, placed).to_multiset())
            == tiles.to_multiset(),
{
    let unp = unplaced_of(tiles, placed);
    assert forall|t: Tile| #[trigger] placed.contains(t) implies !unp.contains(t) by {
        lemma_unplaced_count(tiles, placed, t);
        assert(unp.to_multiset().count(t) == 0);
    }
    if tiles.no_duplicates() {
        tiles.lemma_multiset_has_no_duplicates();
        assert forall|t: Tile| #[trigger] placed.to_multiset().add(unp.to_multiset()).count(t)
            == tiles.to_multiset().count(t) by {
            lemma_unplaced_count(tiles, placed, t);
            if placed.contains(t) {
                assert(placed.to_multiset().count(t) > 0);
                assert(tiles.to_multiset().count(t) >= 1);
                assert(tiles.to_multiset().contains(t));
                assert(tiles.to_multiset().count(t) == 1);
                assert(placed.to_multiset().count(t) == 1);
            } else {
                assert(placed.to_multiset().count(t) == 0);
            }
        }
        assert(placed.to_multiset().add(unp.to_multiset()) =~= tiles.to_multiset());
    }
}

/// Whether a tile occurs in a vector of tiles.
fn contains_tile(v: &Vec<Tile>, t: Tile) -> (r: bool)
    ensures
        r == v@.contains(t),
{
    let mut i: usize = 0;
    while i < v.len()
        invariant
            i <= v@.len(),
            forall|j: int| 0 <= j < i ==> v@[j] != t,
        decreases v@.len() - i,
    {
        if v[i] == t {
            proof {
                assert(v@[i as int] == t);
            }
            return true;
        }
        i += 1;
    }
    proof {
        if v@.contains(t) {
            let j = choose|j: int| 0 <= j < v@.len() && v@[j] == t;
            assert(v@[j] != t);
        }
    }
    false
}

/// Relies on itertools' `permutations` over the whole input followed
/// by `unique`: the result lists the distinct reorderings of the
/// input. Each entry rearranges exactly the input tiles, and every
/// rearrangement of them appears among the entries.
#[verifier::external_body]
fn distinct_permutations(tiles: &Vec<Tile>) -> (r: Vec<Vec<Tile>>)
    ensures
        forall|i: int| 0 <= i < r@.len()
            ==> (#[trigger] r@[i])@.to_multiset() == tiles@.to_multiset(),
        forall|q: Seq<Tile>| #[trigger] q.to_multiset() == tiles@.to_multiset()
            ==> exists|i: int| 0 <= i < r@.len() && (#[trigger] r@[i])@ == q,
{
    tiles
        .iter()
        .permutations(tiles.len())
        .unique()
        .map(|p| p.into_iter().copied().collect())
        .collect()
}

/// Find the best tile placement by trying every distinct order of the
/// tiles.
///
/// Each order is played through `place_tiles`; attempts that leave an
/// invalid board are discarded. The best valid attempt - the one that
/// places the most tiles, the earliest such attempt winning ties - is
/// returned with its runs compressed, together with the placed tiles
/// and the tiles that did not occur among them. When no valid attempt
/// places anything (and some tile was offered), there is no result.
///
/// Every run on the board must leave room to grow by one value per
/// tile while staying narrow enough to split (`runs_within`).
pub fn place_tiles_best(board: &Board, tiles: &Vec<Tile>) -> (r: Option<(Board, Vec<Tile>, Vec<Tile>)>)
    requires
        runs_within(board.runs@, tiles@.len() as int),
    ensures
        r is None ==> (forall|q: Seq<Tile>| #[trigger] is_reordering(q, tiles@)
            ==> !(attempt_valid(*board, q) && place_tiles_runs(board.runs@, q).1.len() > 0)),
        r matches Some((b, placed, unplaced)) ==> {
            &&& placed@.len() >= 1 || tiles@.len() == 0
            &&& exists|q: Seq<Tile>| #[trigger] is_reordering(q, tiles@)
                && attempt_valid(*board, q)
                && place_tiles_runs(board.runs@, q).1 == placed@
                && b.runs@ == compress_spec(place_tiles_runs(board.runs@, q).0)
            &&& forall|q: Seq<Tile>| #[trigger] is_reordering(q, tiles@)
                && attempt_valid(*board, q)
                ==> place_tiles_runs(board.runs@, q).1.len() <= placed@.len()
            &&& groups_view(b.groups@) == groups_view(board.groups@)
            &&& b.valid_spec()
            &&& unplaced@ == unplaced_of(tiles@, placed@)
            &&& forall|t: Tile| #[trigger] placed@.contains(t) ==> !unplaced@.contains(t)
            &&& (tiles@.no_duplicates() ==> placed@.to_multiset().add(unplaced@.to_multiset())
                == tiles@.to_multiset())
        },
{
    let perms = distinct_permutations(tiles);
    let mut best_board = copy_board(board);
    let mut best_tiles: Vec<Tile> = Vec::new();
    let mut pi: usize = 0;
    while pi < perms.len()
        invariant
            runs_within(board.runs@, tiles@.len() as int),
            pi <= perms@.len(),
            forall|i2: int| 0 <= i2 < perms@.len()
                ==> (#[trigger] perms@[i2])@.to_multiset() == tiles@.to_multiset(),
            groups_view(best_board.groups@) == groups_view(board.groups@),
            forall|ii: int| 0 <= ii < pi ==> (attempt_valid(*board, (#[trigger] perms@[ii])@)
                ==> place_tiles_runs(board.runs@, perms@[ii]@).1.len() <= best_tiles@.len()),
            best_tiles@.len() > 0 ==> exists|q: Seq<Tile>|
                #[trigger] best_witness(*board, tiles@, best_board.runs@, best_tiles@, q),
            best_tiles@.len() == 0 ==> best_board.runs@ == board.runs@,
        decreases perms@.len() - pi,
    {
        let perm = &perms[pi];
        proof {
            assert(perm@.to_multiset() == tiles@.to_multiset());
            assert(perm@.to_multiset().len() == perm@.len());
            assert(tiles@.to_multiset().len() == tiles@.len());
        }
        let (attempt_board, placed_tiles) = place_tiles(board, perm);
        let ghost a_runs = attempt_board.runs@;
        let ghost a_placed = placed_tiles@;
        if attempt_board.valid() {
            proof {
                lemma_groups_view_valid(attempt_board.groups@, board.groups@);
                assert(attempt_valid(*board, perm@));
            }
            if placed_tiles.len() > best_tiles.len() {
                best_board = attempt_board;
                best_tiles = placed_tiles;
                proof {
                    assert(best_witness(*board, tiles@, best_board.runs@, best_tiles@, perm@));
                }
            }
            if best_tiles.len() == tiles.len() {
                let ghost bruns = best_board.runs@;
                let ghost bgroups = best_board.groups@;
                let compressed = compress_runs(&best_board.runs);
                let final_board = Board { groups: best_board.groups, runs: compressed };
                let unplaced: Vec<Tile> = Vec::new();
                proof {
                    let q: Seq<Tile> = if best_tiles@.len() > 0 {
                        choose|q: Seq<Tile>|
                            best_witness(*board, tiles@, bruns, best_tiles@, q)
                    } else {
                        tiles@
                    };
                    if best_tiles@.len() == 0 {
                        assert(perm@.len() == 0);
                        assert(perm@ =~= tiles@);
                        assert(place_tiles_runs(board.runs@, tiles@).1 =~= best_tiles@);
                        assert(best_witness(*board, tiles@, bruns, best_tiles@, q));
                    }
                    assert(best_witness(*board, tiles@, bruns, best_tiles@, q));
                    assert(is_reordering(q, tiles@)
                        && attempt_valid(*board, q)
                        && place_tiles_runs(board.runs@, q).1 == best_tiles@
                        && final_board.runs@
                            == compress_spec(place_tiles_runs(board.runs@, q).0));
                    lemma_place_tiles_counts(board.runs@, q);
                    assert(q.to_multiset().len() == q.len());
                    assert(tiles@.to_multiset().len() == tiles@.len());
                    assert(q.len() == tiles@.len());
                    assert(best_tiles@.len() == tiles@.len());
                    assert(best_tiles@.len() == q.len());
                    assert(best_tiles@ == q);
                    assert forall|i2: int| 0 <= i2 < tiles@.len()
                        implies best_tiles@.contains(#[trigger] tiles@[i2]) by {
                        assert(tiles@.contains(tiles@[i2]));
                        assert(tiles@.to_multiset().count(tiles@[i2]) > 0);
                        assert(q.to_multiset().count(tiles@[i2]) > 0);
                        assert(q.contains(tiles@[i2]));
                    }
                    lemma_unplaced_empty(tiles@, best_tiles@);
                    assert(unplaced@ =~= unplaced_of(tiles@, best_tiles@));
                    assert forall|t: Tile| #[trigger] best_tiles@.to_multiset().count(t)
                        <= tiles@.to_multiset().count(t) by {
                        assert(place_tiles_runs(board.runs@, q).1.to_multiset().count(t)
                            <= q.to_multiset().count(t));
                    }
                    lemma_complement_props(tiles@, best_tiles@);
                    assert forall|q2: Seq<Tile>| #[trigger] is_reordering(q2, tiles@)
                        && attempt_valid(*board, q2)
                        implies place_tiles_runs(board.runs@, q2).1.len()
                            <= best_tiles@.len() by {
                        lemma_place_tiles_counts(board.runs@, q2);
                        assert(q2.to_multiset().len() == q2.len());
                    }
                    assert(runs_all_valid(bruns));
                    assert forall|i2: int| 0 <= i2 < bruns.len()
                        implies (#[trigger] bruns[i2]).valid_spec() by {}
                    lemma_compress_valid(bruns);
                    assert(runs_all_valid(final_board.runs@)) by {
                        assert(forall|i2: int| 0 <= i2 < compress_spec(bruns).len()
                            ==> (#[trigger] compress_spec(bruns)[i2]).valid_spec());
                    }
                    lemma_groups_view_valid(bgroups, board.groups@);
                    assert(groups_all_valid(final_board.groups@));
                }
                return Some((final_board, best_tiles, unplaced));
            }
        } else {
            proof {
                lemma_groups_view_valid(attempt_board.groups@, board.groups@);
                assert(!attempt_valid(*board, perm@));
            }
        }
        pi += 1;
    }
    if best_tiles.len() > 0 {
        let ghost bruns = best_board.runs@;
        let ghost bgroups = best_board.groups@;
        let compressed = compress_runs(&best_board.runs);
        let final_board = Board { groups: best_board.groups, runs: compressed };
        let mut unplaced: Vec<Tile> = Vec::new();
        let mut ti: usize = 0;
        while ti < tiles.len()
            invariant
                ti <= tiles@.len(),
                unplaced@ == unplaced_of(tiles@.take(ti as int), best_tiles@),
            decreases tiles@.len() - ti,
        {
            let t = tiles[ti];
            proof {
                assert(tiles@.take(ti + 1 as int).drop_last() =~= tiles@.take(ti as int));
                assert(tiles@.take(ti + 1 as int).last() == tiles@[ti as int]);
            }
            if !contains_tile(&best_tiles, t) {
                unplaced.push(t);
            }
            ti += 1;
        }
        proof {
            assert(tiles@.take(tiles@.len() as int) =~= tiles@);
            let q = choose|q: Seq<Tile>| best_witness(*board, tiles@, bruns, best_tiles@, q);
            assert(is_reordering(q, tiles@)
                && attempt_valid(*board, q)
                && place_tiles_runs(board.runs@, q).1 == best_tiles@
                && final_board.runs@ == compress_spec(place_tiles_runs(board.runs@, q).0));
            lemma_place_tiles_counts(board.runs@, q);
            assert forall|t: Tile| #[trigger] best_tiles@.to_multiset().count(t)
                <= tiles@.to_multiset().count(t) by {
                assert(place_tiles_runs(board.runs@, q).1.to_multiset().count(t)
                    <= q.to_multiset().count(t));
            }
            lemma_complement_props(tiles@, best_tiles@);
            assert forall|q2: Seq<Tile>| #[trigger] is_reordering(q2, tiles@)
                && attempt_valid(*board, q2)
                implies place_tiles_runs(board.runs@, q2).1.len() <= best_tiles@.len() by {
                let i2 = choose|i2: int| 0 <= i2 < perms@.len() && (#[trigger] perms@[i2])@ == q2;
                assert(attempt_valid(*board, perms@[i2]@));
            }
            assert(runs_all_valid(bruns));
            lemma_compress_valid(bruns);
            assert(runs_all_valid(final_board.runs@)) by {
                assert(forall|i2: int| 0 <= i2 < compress_spec(bruns).len()
                    ==> (#[trigger] compress_spec(bruns)[i2]).valid_spec());
            }
            lemma_groups_view_valid(bgroups, board.groups@);
            assert(groups_all_valid(final_board.groups@));
        }
        return Some((final_board, best_tiles, unplaced));
    }
    proof {
        assert forall|q: Seq<Tile>| #[trigger] is_reordering(q, tiles@)
            implies !(attempt_valid(*board, q)
                && place_tiles_runs(board.runs@, q).1.len() > 0) by {
            let i2 = choose|i2: int| 0 <= i2 < perms@.len() && (#[trigger] perms@[i2])@ == q;
            if attempt_valid(*board, q) {
                assert(attempt_valid(*board, perms@[i2]@));
                assert(place_tiles_runs(board.runs@, perms@[i2]@).1.len()
                    <= best_tiles@.len());
            }
        }
    }
    None
}

} // verus!
