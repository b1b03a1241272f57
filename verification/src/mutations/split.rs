//! Splitting one run into every possible sequence of contiguous
//! sub-runs.

use vstd::prelude::*;

use crate::structures::Run;

verus! {

/// Whether bit `i` of `mask` is set.
pub open spec fn bit_set(mask: u32, i: u32) -> bool {
    i < 32 && (mask >> i) & 1 == 1
}

/// The number of internal cut points of `run`: one less than the
/// number of values the run spans.
pub open spec fn cut_count(run: Run) -> int {
    run.end - run.start
}

/// A run is narrow enough to split: its ends are ordered and the cut
/// points fit in the bitmask that enumerates partitions.
pub open spec fn run_splittable(run: Run) -> bool {
    run.start <= run.end && cut_count(run) <= 30
}

/// The sub-runs that `mask` selects from cut point `i` on, the next
/// sub-run starting at value `cur`. A set bit at position `j` cuts the
/// run between values `run.start + j` and `run.start + j + 1`.
pub open spec fn parts_from(run: Run, mask: u32, i: u32, cur: int) -> Seq<Run>
    decreases cut_count(run) - i,
{
    if i < 32 && i < cut_count(run) {
        if bit_set(mask, i) {
            seq![Run { start: cur as u8, end: (run.start + i) as u8, color: run.color }]
                + parts_from(run, mask, (i + 1) as u32, run.start + i + 1)
        } else {
            parts_from(run, mask, (i + 1) as u32, cur)
        }
    } else {
        seq![Run { start: cur as u8, end: run.end, color: run.color }]
    }
}

/// The partition of `run` that cut mask `mask` selects.
pub open spec fn mask_partition(run: Run, mask: u32) -> Seq<Run> {
    parts_from(run, mask, 0, run.start as int)
}

/// Every way to split `run` into two or more contiguous sub-runs, in
/// the order the cut masks `1, 2, ...` produce them.
pub open spec fn split_run_spec(run: Run) -> Seq<Seq<Run>> {
    if run_splittable(run) {
        Seq::new(
            ((1u32 << (cut_count(run) as u32)) - 1) as nat,
            |m: int| mask_partition(run, (m + 1) as u32),
        )
    } else {
        Seq::empty()
    }
}

/// `parts` cuts `whole` into contiguous, gapless, color-preserving
/// sub-runs whose concatenation is exactly `[whole.start, whole.end]`.
pub open spec fn is_partition_of(parts: Seq<Run>, whole: Run) -> bool {
    &&& parts.len() >= 1
    &&& parts[0].start == whole.start
    &&& parts[parts.len() - 1].end == whole.end
    &&& forall|j: int| 0 <= j < parts.len() ==> (#[trigger] parts[j]).color == whole.color
        && parts[j].start <= parts[j].end
    &&& forall|j: int| 0 <= j < parts.len() - 1 ==> #[trigger] parts[j + 1].start == parts[j].end + 1
}

/// What `parts_from` yields: a partition of the remainder of the run,
/// with a sub-run boundary at every set bit that is still to come.
pub proof fn lemma_parts_from_props(run: Run, mask: u32, i: u32, cur: int)
    requires
        run.start <= run.end,
        cut_count(run) <= 30,
        i <= cut_count(run),
        run.start <= cur,
        cur <= run.start + i,
    ensures
        ({
            let parts = parts_from(run, mask, i, cur);
            &&& parts.len() >= 1
            &&& parts[0].start == cur
            &&& parts[parts.len() - 1].end == run.end
            &&& forall|j: int| 0 <= j < parts.len() ==> (#[trigger] parts[j]).color == run.color
                && parts[j].start <= parts[j].end
            &&& forall|j: int| 0 <= j < parts.len() - 1 ==> #[trigger] parts[j + 1].start == parts[j].end + 1
            &&& (parts.len() >= 2 <==> exists|j: u32| i <= j < cut_count(run) && bit_set(mask, j))
        }),
    decreases cut_count(run) - i,
{
    let parts = parts_from(run, mask, i, cur);
    if i < 32 && i < cut_count(run) {
        if bit_set(mask, i) {
            let seg = Run { start: cur as u8, end: (run.start + i) as u8, color: run.color };
            let rest = parts_from(run, mask, (i + 1) as u32, run.start + i + 1);
            lemma_parts_from_props(run, mask, (i + 1) as u32, run.start + i + 1);
            assert(parts == seq![seg] + rest);
            assert(parts.len() == 1 + rest.len());
            assert(parts[0] == seg);
            assert(forall|j: int| 1 <= j < parts.len() ==> parts[j] == rest[j - 1]);
            assert forall|j: int| 0 <= j < parts.len() implies (#[trigger] parts[j]).color == run.color
                && parts[j].start <= parts[j].end by {
                if j >= 1 {
                    assert(parts[j] == rest[j - 1]);
                }
            }
            assert forall|j: int| 0 <= j < parts.len() - 1
                implies #[trigger] parts[j + 1].start == parts[j].end + 1 by {
                if j == 0 {
                    assert(parts[1] == rest[0]);
                    assert(rest[0].start == run.start + i + 1);
                } else {
                    assert(parts[j] == rest[j - 1]);
                    assert(parts[j + 1] == rest[j]);
                    let jm = j - 1;
                    assert(rest[jm + 1].start == rest[jm].end + 1);
                }
            }
            assert(parts[parts.len() - 1] == rest[rest.len() - 1]);
            assert(bit_set(mask, i) && i <= i < cut_count(run));
        } else {
            lemma_parts_from_props(run, mask, (i + 1) as u32, cur);
            assert(parts == parts_from(run, mask, (i + 1) as u32, cur));
            if parts.len() >= 2 {
                let j = choose|j: u32| i + 1 <= j < cut_count(run) && bit_set(mask, j);
                assert(i <= j < cut_count(run) && bit_set(mask, j));
            }
            if exists|j: u32| i <= j < cut_count(run) && bit_set(mask, j) {
                let j = choose|j: u32| i <= j < cut_count(run) && bit_set(mask, j);
                assert(j != i);
                assert(i + 1 <= j < cut_count(run) && bit_set(mask, j));
                assert(parts.len() >= 2);
            }
        }
    } else {
        assert(i == cut_count(run));
        assert(parts.len() == 1);
    }
}

/// Every nonzero mask below `1 << w` has a set bit below `w`.
pub proof fn lemma_low_bit_exists(mask: u32, w: u32)
    requires
        w <= 31,
        0 < mask,
        mask < (1u32 << w),
    ensures
        exists|j: u32| j < w && bit_set(mask, j),
    decreases w,
{
    if w == 0 {
        assert((1u32 << 0u32) == 1) by (bit_vector);
        assert(false);
    } else {
        let wm1 = (w - 1) as u32;
        if bit_set(mask, wm1) {
            assert(wm1 < w && bit_set(mask, wm1));
        } else {
            assert(w == wm1 + 1 && wm1 <= 30 && mask < (1u32 << w) && (mask >> wm1) & 1 != 1
                ==> mask < (1u32 << wm1)) by (bit_vector);
            lemma_low_bit_exists(mask, wm1);
            let j = choose|j: u32| j < wm1 && bit_set(mask, j);
            assert(j < w && bit_set(mask, j));
        }
    }
}

/// The mask count `1 << w` is between 1 and `2^30` for `w <= 30`.
proof fn lemma_shift_bounds(w: u32)
    requires
        w <= 30,
    ensures
        1 <= (1u32 << w),
        (1u32 << w) <= 0x4000_0000,
{
    assert(w <= 30 ==> (1u32 << w) >= 1 && (1u32 << w) <= 0x4000_0000) by (bit_vector);
}

/// Every entry of `split_run_spec` is a partition of the run into at
/// least two sub-runs.
pub proof fn lemma_split_run_spec_parts(run: Run)
    requires
        run_splittable(run),
    ensures
        forall|m: int| 0 <= m < split_run_spec(run).len()
            ==> is_partition_of(#[trigger] split_run_spec(run)[m], run)
                && split_run_spec(run)[m].len() >= 2,
{
    let w = cut_count(run) as u32;
    lemma_shift_bounds(w);
    assert forall|m: int| 0 <= m < split_run_spec(run).len()
        implies is_partition_of(#[trigger] split_run_spec(run)[m], run)
            && split_run_spec(run)[m].len() >= 2 by {
        let mask = (m + 1) as u32;
        assert(m + 1 <= (1u32 << w) - 1 < 0x4000_0000);
        assert(mask == m + 1);
        lemma_parts_from_props(run, mask, 0, run.start as int);
        assert(split_run_spec(run)[m] == mask_partition(run, mask));
        assert(0 < mask && mask < (1u32 << w));
        lemma_low_bit_exists(mask, w);
        let j = choose|j: u32| j < w && bit_set(mask, j);
        assert(0 <= j < cut_count(run) && bit_set(mask, j));
    }
}

/// Generate all possible ways to split a run into two or more shorter
/// runs. For a run spanning `n` values there are exactly `2^(n-1) - 1`
/// of them: one for each nonempty choice of internal cut points.
pub fn split_run(run: &Run) -> (r: Vec<Vec<Run>>)
    requires
        run_splittable(*run),
    ensures
        r@.map_values(|v: Vec<Run>| v@) == split_run_spec(*run),
        r@.len() == split_run_spec(*run).len(),
        r@.len() + 1 == (1u32 << ((run.end - run.start) as u32)),
        forall|m: int| 0 <= m < r@.len()
            ==> is_partition_of((#[trigger] r@[m])@, *run) && r@[m]@.len() >= 2,
{
    let w: u32 = (run.end - run.start) as u32;
    proof {
        lemma_shift_bounds(w);
    }
    let limit: u32 = 1u32 << w;
    let mut all_splits: Vec<Vec<Run>> = Vec::new();
    let mut mask: u32 = 1;
    while mask < limit
        invariant
            run_splittable(*run),
            w == cut_count(*run),
            limit == 1u32 << w,
            limit <= 0x4000_0000,
            1 <= mask <= limit,
            all_splits@.len() == mask - 1,
            forall|m: int| 0 <= m < mask - 1
                ==> (#[trigger] all_splits@[m])@ == mask_partition(*run, (m + 1) as u32),
        decreases limit - mask,
    {
        let mut current_split: Vec<Run> = Vec::new();
        let mut current_start: u8 = run.start;
        let mut i: u32 = 0;
        while i < w
            invariant
                run_splittable(*run),
                w == cut_count(*run),
                i <= w,
                run.start <= current_start,
                current_start as int <= run.start + i,
                mask_partition(*run, mask)
                    == current_split@ + parts_from(*run, mask, i, current_start as int),
            decreases w - i,
        {
            if (mask >> i) & 1 == 1 {
                let current_end: u8 = run.start + (i as u8);
                proof {
                    assert(bit_set(mask, i));
                    assert(parts_from(*run, mask, i, current_start as int)
                        == seq![Run { start: current_start, end: current_end, color: run.color }]
                            + parts_from(*run, mask, (i + 1) as u32, run.start + i + 1));
                }
                current_split.push(Run { start: current_start, end: current_end, color: run.color });
                current_start = current_end + 1;
                proof {
                    assert(mask_partition(*run, mask)
                        =~= current_split@ + parts_from(*run, mask, (i + 1) as u32, current_start as int));
                }
            } else {
                proof {
                    assert(!bit_set(mask, i));
                    assert(parts_from(*run, mask, i, current_start as int)
                        == parts_from(*run, mask, (i + 1) as u32, current_start as int));
                }
            }
            i += 1;
        }
        proof {
            assert(parts_from(*run, mask, i, current_start as int)
                == seq![Run { start: current_start, end: run.end, color: run.color }]);
        }
        current_split.push(Run { start: current_start, end: run.end, color: run.color });
        proof {
            assert(current_split@ =~= mask_partition(*run, mask));
        }
        all_splits.push(current_split);
        mask += 1;
    }
    proof {
        assert(all_splits@.map_values(|v: Vec<Run>| v@) =~= split_run_spec(*run));
        lemma_split_run_spec_parts(*run);
        assert(forall|m: int| 0 <= m < all_splits@.len()
            ==> (#[trigger] all_splits@[m])@ == all_splits@.map_values(|v: Vec<Run>| v@)[m]);
    }
    all_splits
}

} // verus!
