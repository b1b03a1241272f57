//! Merging adjacent same-color runs back into maximal runs.
//!
//! Compression sorts the runs by color and start value and then merges
//! every pair of neighbours that continue one another. It is the
//! inverse of splitting, applied once at the end of a search to
//! canonicalize the board.

use vstd::prelude::*;

use crate::structures::{Color, Run};

verus! {

/// The rank a color sorts by: its position in the declaration order.
pub open spec fn color_rank(c: Color) -> int {
    match c {
        Color::Blue => 0,
        Color::Red => 1,
        Color::Orange => 2,
        Color::Black => 3,
    }
}

/// `a` sorts no later than `b`: by color rank, then by start value.
pub open spec fn run_le(a: Run, b: Run) -> bool {
    color_rank(a.color) < color_rank(b.color)
        || (color_rank(a.color) == color_rank(b.color) && a.start <= b.start)
}

/// `a` sorts strictly before `b`: by color rank, then by start value.
pub open spec fn run_before(a: Run, b: Run) -> bool {
    color_rank(a.color) < color_rank(b.color)
        || (color_rank(a.color) == color_rank(b.color) && a.start < b.start)
}

/// The runs are sorted by color rank, then by start value.
pub open spec fn sorted_runs(s: Seq<Run>) -> bool {
    forall|i: int, j: int| 0 <= i < j < s.len() ==> run_le(s[i], s[j])
}

/// `x` placed into the sorted sequence `s`, before every entry it does
/// not sort strictly after.
pub open spec fn insert_sorted(x: Run, s: Seq<Run>) -> Seq<Run>
    decreases s.len(),
{
    if s.len() == 0 {
        seq![x]
    } else if run_before(s[0], x) {
        seq![s[0]] + insert_sorted(x, s.drop_first())
    } else {
        seq![x] + s
    }
}

/// The runs sorted stably by color rank, then by start value.
pub open spec fn sort_runs(s: Seq<Run>) -> Seq<Run>
    decreases s.len(),
{
    if s.len() == 0 {
        s
    } else {
        insert_sorted(s[0], sort_runs(s.drop_first()))
    }
}

/// `b` continues `a`: same color, starting right after `a` ends.
pub open spec fn can_merge(a: Run, b: Run) -> bool {
    b.color == a.color && b.start == a.end + 1
}

/// The single run covering `a` followed by `b`.
pub open spec fn merge_two(a: Run, b: Run) -> Run {
    Run { start: a.start, end: b.end, color: a.color }
}

/// Adjacent runs merged left to right: each run absorbs its successor
/// as long as the successor continues it.
pub open spec fn merge_adjacent(s: Seq<Run>) -> Seq<Run>
    decreases s.len(),
{
    if s.len() <= 1 {
        s
    } else if can_merge(s[0], s[1]) {
        merge_adjacent(seq![merge_two(s[0], s[1])] + s.skip(2))
    } else {
        seq![s[0]] + merge_adjacent(s.drop_first())
    }
}

/// No run in `s` continues its predecessor.
pub open spec fn fully_merged(s: Seq<Run>) -> bool {
    forall|i: int| 0 <= i < s.len() - 1 ==> !can_merge(#[trigger] s[i], s[i + 1])
}

/// The compressed form of `s`: sorted by color and start, with every
/// adjacent continuation merged.
pub open spec fn compress_spec(s: Seq<Run>) -> Seq<Run> {
    merge_adjacent(sort_runs(s))
}

/// Inserting into a sorted sequence keeps it sorted, adds exactly the
/// new run, and grows the length by one.
pub proof fn lemma_insert_sorted(x: Run, s: Seq<Run>)
    requires
        sorted_runs(s),
    ensures
        sorted_runs(insert_sorted(x, s)),
        insert_sorted(x, s).len() == s.len() + 1,
        insert_sorted(x, s).contains(x),
        forall|y: Run| #[trigger] insert_sorted(x, s).contains(y) ==> (y == x || s.contains(y)),
        forall|y: Run| #[trigger] s.contains(y) ==> insert_sorted(x, s).contains(y),
    decreases s.len(),
{
    let out = insert_sorted(x, s);
    if s.len() == 0 {
        assert(out == seq![x]);
        assert forall|y: Run| out.contains(y) implies (y == x || s.contains(y)) by {
            let k = choose|k: int| 0 <= k < out.len() && out[k] == y;
            assert(out[0] == x);
        }
        assert(out.contains(x)) by {
            assert(out[0] == x);
        }
    } else if run_before(s[0], x) {
        let inner = insert_sorted(x, s.drop_first());
        assert(sorted_runs(s.drop_first())) by {
            assert(forall|i: int, j: int| 0 <= i < j < s.drop_first().len()
                ==> s.drop_first()[i] == s[i + 1] && s.drop_first()[j] == s[j + 1]);
        }
        lemma_insert_sorted(x, s.drop_first());
        assert(out == seq![s[0]] + inner);
        assert forall|i: int, j: int| 0 <= i < j < out.len() implies run_le(out[i], out[j]) by {
            if i == 0 {
                assert(out[j] == inner[j - 1]);
                assert(inner.contains(inner[j - 1])) by {
                    assert(inner[j - 1] == inner[j - 1]);
                }
                if inner[j - 1] == x {
                    assert(run_le(s[0], x));
                } else {
                    assert(s.drop_first().contains(inner[j - 1]));
                    let k = choose|k: int| 0 <= k < s.drop_first().len() && s.drop_first()[k] == inner[j - 1];
                    assert(s[k + 1] == inner[j - 1]);
                    assert(run_le(s[0], s[k + 1]));
                }
            } else {
                assert(out[i] == inner[i - 1] && out[j] == inner[j - 1]);
            }
        }
        assert forall|y: Run| out.contains(y) implies (y == x || s.contains(y)) by {
            let k = choose|k: int| 0 <= k < out.len() && out[k] == y;
            if k == 0 {
                assert(s[0] == y);
            } else {
                assert(inner[k - 1] == y);
                assert(inner.contains(y));
                if y != x {
                    assert(s.drop_first().contains(y));
                    let k2 = choose|k2: int| 0 <= k2 < s.drop_first().len() && s.drop_first()[k2] == y;
                    assert(s[k2 + 1] == y);
                }
            }
        }
        assert forall|y: Run| (y == x || s.contains(y)) implies out.contains(y) by {
            if y == x {
                assert(inner.contains(x));
                let k = choose|k: int| 0 <= k < inner.len() && inner[k] == x;
                assert(out[k + 1] == x);
            } else {
                let k = choose|k: int| 0 <= k < s.len() && s[k] == y;
                if k == 0 {
                    assert(out[0] == y);
                } else {
                    assert(s.drop_first()[k - 1] == y);
                    assert(s.drop_first().contains(y));
                    assert(inner.contains(y));
                    let k2 = choose|k2: int| 0 <= k2 < inner.len() && inner[k2] == y;
                    assert(out[k2 + 1] == y);
                }
            }
        }
    } else {
        assert(out == seq![x] + s);
        assert forall|i: int, j: int| 0 <= i < j < out.len() implies run_le(out[i], out[j]) by {
            if i == 0 {
                assert(out[j] == s[j - 1]);
                assert(run_le(x, s[0]));
                if j > 1 {
                    assert(run_le(s[0], s[j - 1]));
                }
            } else {
                assert(out[i] == s[i - 1] && out[j] == s[j - 1]);
            }
        }
        assert forall|y: Run| out.contains(y) implies (y == x || s.contains(y)) by {
            let k = choose|k: int| 0 <= k < out.len() && out[k] == y;
            if k > 0 {
                assert(s[k - 1] == y);
            }
        }
        assert forall|y: Run| (y == x || s.contains(y)) implies out.contains(y) by {
            if y == x {
                assert(out[0] == x);
            } else {
                let k = choose|k: int| 0 <= k < s.len() && s[k] == y;
                assert(out[k + 1] == y);
            }
        }
    }
}

/// Sorting sorts, keeps the length, and keeps exactly the runs that
/// were there.
pub proof fn lemma_sort_runs(s: Seq<Run>)
    ensures
        sorted_runs(sort_runs(s)),
        sort_runs(s).len() == s.len(),
        forall|y: Run| #[trigger] sort_runs(s).contains(y) ==> s.contains(y),
        forall|y: Run| #[trigger] s.contains(y) ==> sort_runs(s).contains(y),
    decreases s.len(),
{
    if s.len() == 0 {
    } else {
        let d = s.drop_first();
        lemma_sort_runs(d);
        lemma_insert_sorted(s[0], sort_runs(d));
        assert(sort_runs(s) == insert_sorted(s[0], sort_runs(d)));
        assert forall|y: Run| #[trigger] sort_runs(s).contains(y) implies s.contains(y) by {
            if y == s[0] {
                assert(s.contains(y)) by {
                    assert(s[0] == y);
                }
            } else {
                assert(sort_runs(d).contains(y));
                assert(d.contains(y));
                let k = choose|k: int| 0 <= k < d.len() && d[k] == y;
                assert(s[k + 1] == y);
            }
        }
        assert forall|y: Run| #[trigger] s.contains(y) implies sort_runs(s).contains(y) by {
            let k = choose|k: int| 0 <= k < s.len() && s[k] == y;
            if k == 0 {
                assert(y == s[0]);
                assert(insert_sorted(s[0], sort_runs(d)).contains(s[0]));
            } else {
                assert(d[k - 1] == y);
                assert(d.contains(y));
                assert(sort_runs(d).contains(y));
                assert(insert_sorted(s[0], sort_runs(d)).contains(y));
            }
        }
    }
}

/// Sorting an already sorted sequence leaves it unchanged.
pub proof fn lemma_sort_of_sorted(s: Seq<Run>)
    requires
        sorted_runs(s),
    ensures
        sort_runs(s) == s,
    decreases s.len(),
{
    if s.len() == 0 {
    } else {
        assert(sorted_runs(s.drop_first())) by {
            assert(forall|i: int, j: int| 0 <= i < j < s.drop_first().len()
                ==> s.drop_first()[i] == s[i + 1] && s.drop_first()[j] == s[j + 1]);
        }
        lemma_sort_of_sorted(s.drop_first());
        let d = s.drop_first();
        if d.len() == 0 {
            assert(insert_sorted(s[0], d) =~= s);
        } else {
            assert(run_le(s[0], s[1]));
            assert(d[0] == s[1]);
            assert(!run_before(d[0], s[0]));
            assert(insert_sorted(s[0], d) == seq![s[0]] + d);
            assert(seq![s[0]] + d =~= s);
        }
    }
}

/// The first run that merging yields keeps the color and start of the
/// first input run.
pub proof fn lemma_merge_adjacent_head(s: Seq<Run>)
    requires
        s.len() > 0,
    ensures
        merge_adjacent(s).len() > 0,
        merge_adjacent(s)[0].color == s[0].color,
        merge_adjacent(s)[0].start == s[0].start,
    decreases s.len(),
{
    if s.len() <= 1 {
    } else if can_merge(s[0], s[1]) {
        let t = seq![merge_two(s[0], s[1])] + s.skip(2);
        lemma_merge_adjacent_head(t);
        assert(t[0] == merge_two(s[0], s[1]));
    } else {
        assert(merge_adjacent(s)[0] == s[0]);
    }
}

/// Each run that merging yields keeps the color and start of some
/// input run.
pub proof fn lemma_merge_adjacent_keys(s: Seq<Run>)
    ensures
        forall|j: int| 0 <= j < merge_adjacent(s).len()
            ==> exists|i: int| 0 <= i < s.len()
                && (#[trigger] merge_adjacent(s)[j]).color == s[i].color
                && merge_adjacent(s)[j].start == s[i].start,
    decreases s.len(),
{
    let out = merge_adjacent(s);
    if s.len() <= 1 {
        assert forall|j: int| 0 <= j < out.len()
            implies exists|i: int| 0 <= i < s.len()
                && (#[trigger] out[j]).color == s[i].color && out[j].start == s[i].start by {
            assert(out[j] == s[j]);
            assert(0 <= j < s.len() && out[j].color == s[j].color && out[j].start == s[j].start);
        }
    } else if can_merge(s[0], s[1]) {
        let t = seq![merge_two(s[0], s[1])] + s.skip(2);
        lemma_merge_adjacent_keys(t);
        assert forall|j: int| 0 <= j < out.len()
            implies exists|i: int| 0 <= i < s.len()
                && (#[trigger] out[j]).color == s[i].color && out[j].start == s[i].start by {
            assert(out == merge_adjacent(t));
            let i0 = choose|i0: int| 0 <= i0 < t.len()
                && (#[trigger] out[j]).color == t[i0].color && out[j].start == t[i0].start;
            if i0 == 0 {
                assert(t[0].color == s[0].color && t[0].start == s[0].start);
                assert(0 <= 0 < s.len() && out[j].color == s[0].color && out[j].start == s[0].start);
            } else {
                assert(t[i0] == s[i0 + 1]);
                assert(0 <= i0 + 1 < s.len() && out[j].color == s[i0 + 1].color
                    && out[j].start == s[i0 + 1].start);
            }
        }
    } else {
        lemma_merge_adjacent_keys(s.drop_first());
        let inner = merge_adjacent(s.drop_first());
        assert(out == seq![s[0]] + inner);
        assert forall|j: int| 0 <= j < out.len()
            implies exists|i: int| 0 <= i < s.len()
                && (#[trigger] out[j]).color == s[i].color && out[j].start == s[i].start by {
            if j == 0 {
                assert(out[0] == s[0]);
                assert(0 <= 0 < s.len() && out[j].color == s[0].color && out[j].start == s[0].start);
            } else {
                assert(out[j] == inner[j - 1]);
                let i0 = choose|i0: int| 0 <= i0 < s.drop_first().len()
                    && (#[trigger] inner[j - 1]).color == s.drop_first()[i0].color
                    && inner[j - 1].start == s.drop_first()[i0].start;
                assert(s.drop_first()[i0] == s[i0 + 1]);
                assert(0 <= i0 + 1 < s.len() && out[j].color == s[i0 + 1].color
                    && out[j].start == s[i0 + 1].start);
            }
        }
    }
}

/// Merging a sorted sequence yields a sorted sequence in which no run
/// continues its predecessor.
pub proof fn lemma_merge_adjacent_props(s: Seq<Run>)
    requires
        sorted_runs(s),
    ensures
        sorted_runs(merge_adjacent(s)),
        fully_merged(merge_adjacent(s)),
    decreases s.len(),
{
    let out = merge_adjacent(s);
    if s.len() <= 1 {
    } else if can_merge(s[0], s[1]) {
        let m = merge_two(s[0], s[1]);
        let t = seq![m] + s.skip(2);
        assert forall|i: int, j: int| 0 <= i < j < t.len() implies run_le(t[i], t[j]) by {
            if i == 0 {
                assert(t[j] == s[j + 1]);
                assert(run_le(s[0], s[j + 1]));
            } else {
                assert(t[i] == s[i + 1] && t[j] == s[j + 1]);
            }
        }
        lemma_merge_adjacent_props(t);
    } else {
        assert(sorted_runs(s.drop_first())) by {
            assert(forall|i: int, j: int| 0 <= i < j < s.drop_first().len()
                ==> s.drop_first()[i] == s[i + 1] && s.drop_first()[j] == s[j + 1]);
        }
        lemma_merge_adjacent_props(s.drop_first());
        let inner = merge_adjacent(s.drop_first());
        lemma_merge_adjacent_keys(s.drop_first());
        assert(out == seq![s[0]] + inner);
        assert forall|i: int, j: int| 0 <= i < j < out.len() implies run_le(out[i], out[j]) by {
            if i == 0 {
                assert(out[j] == inner[j - 1]);
                let i0 = choose|i0: int| 0 <= i0 < s.drop_first().len()
                    && (#[trigger] inner[j - 1]).color == s.drop_first()[i0].color
                    && inner[j - 1].start == s.drop_first()[i0].start;
                assert(s.drop_first()[i0] == s[i0 + 1]);
                assert(run_le(s[0], s[i0 + 1]));
            } else {
                assert(out[i] == inner[i - 1] && out[j] == inner[j - 1]);
            }
        }
        assert forall|i: int| 0 <= i < out.len() - 1 implies !can_merge(out[i], #[trigger] out[i + 1]) by {
            if i == 0 {
                if s.drop_first().len() > 0 {
                    lemma_merge_adjacent_head(s.drop_first());
                    assert(out[1] == inner[0]);
                    assert(inner[0].color == s[1].color && inner[0].start == s[1].start);
                    assert(!can_merge(s[0], s[1]));
                }
            } else {
                assert(out[i] == inner[i - 1] && out[i + 1] == inner[i]);
                assert(!can_merge(inner[i - 1], inner[(i - 1) + 1]));
            }
        }
    }
}

/// Merging leaves a sequence with no adjacent continuations unchanged.
pub proof fn lemma_merge_of_merged(s: Seq<Run>)
    requires
        fully_merged(s),
    ensures
        merge_adjacent(s) == s,
    decreases s.len(),
{
    if s.len() <= 1 {
    } else {
        assert(!can_merge(s[0], s[0int + 1]));
        let d = s.drop_first();
        assert forall|i: int| 0 <= i < d.len() - 1
            implies !can_merge(#[trigger] d[i], d[i + 1]) by {
            assert(d[i] == s[i + 1]);
            assert(d[i + 1] == s[i + 2]);
            assert(!can_merge(s[i + 1], s[(i + 1) + 1]));
        }
        lemma_merge_of_merged(d);
        assert(seq![s[0]] + d =~= s);
    }
}

/// Merging keeps every run valid: a merged run only grows.
pub proof fn lemma_merge_adjacent_valid(s: Seq<Run>)
    requires
        forall|i: int| 0 <= i < s.len() ==> (#[trigger] s[i]).valid_spec(),
    ensures
        forall|j: int| 0 <= j < merge_adjacent(s).len()
            ==> (#[trigger] merge_adjacent(s)[j]).valid_spec(),
    decreases s.len(),
{
    let out = merge_adjacent(s);
    if s.len() <= 1 {
        assert forall|j: int| 0 <= j < out.len() implies (#[trigger] out[j]).valid_spec() by {
            assert(out[j] == s[j]);
        }
    } else if can_merge(s[0], s[1]) {
        let m = merge_two(s[0], s[1]);
        let t = seq![m] + s.skip(2);
        assert(m.valid_spec()) by {
            assert(s[0].valid_spec() && s[1].valid_spec());
        }
        assert forall|i: int| 0 <= i < t.len() implies (#[trigger] t[i]).valid_spec() by {
            if i == 0 {
                assert(t[0] == m);
            } else {
                assert(t[i] == s[i + 1]);
                assert(s[i + 1].valid_spec());
            }
        }
        lemma_merge_adjacent_valid(t);
        assert forall|j: int| 0 <= j < out.len() implies (#[trigger] out[j]).valid_spec() by {
            assert(out == merge_adjacent(t));
            assert(merge_adjacent(t)[j].valid_spec());
        }
    } else {
        let d = s.drop_first();
        assert forall|i: int| 0 <= i < d.len() implies (#[trigger] d[i]).valid_spec() by {
            assert(d[i] == s[i + 1]);
        }
        lemma_merge_adjacent_valid(d);
        let inner = merge_adjacent(d);
        assert(out == seq![s[0]] + inner);
        assert forall|j: int| 0 <= j < out.len() implies (#[trigger] out[j]).valid_spec() by {
            if j == 0 {
                assert(out[0] == s[0]);
            } else {
                assert(out[j] == inner[j - 1]);
            }
        }
    }
}

/// Compressing twice is the same as compressing once.
pub proof fn lemma_compress_idempotent(s: Seq<Run>)
    ensures
        compress_spec(compress_spec(s)) == compress_spec(s),
{
    lemma_sort_runs(s);
    lemma_merge_adjacent_props(sort_runs(s));
    let c = compress_spec(s);
    lemma_sort_of_sorted(c);
    lemma_merge_of_merged(c);
}

/// Compression keeps every run valid.
pub proof fn lemma_compress_valid(s: Seq<Run>)
    requires
        forall|i: int| 0 <= i < s.len() ==> (#[trigger] s[i]).valid_spec(),
    ensures
        forall|j: int| 0 <= j < compress_spec(s).len()
            ==> (#[trigger] compress_spec(s)[j]).valid_spec(),
{
    lemma_sort_runs(s);
    assert forall|i: int| 0 <= i < sort_runs(s).len()
        implies (#[trigger] sort_runs(s)[i]).valid_spec() by {
        assert(sort_runs(s).contains(sort_runs(s)[i]));
        assert(s.contains(sort_runs(s)[i]));
        let k = choose|k: int| 0 <= k < s.len() && s[k] == sort_runs(s)[i];
        assert(s[k].valid_spec());
    }
    lemma_merge_adjacent_valid(sort_runs(s));
}

/// Compare two runs by color rank, then by start value.
fn run_sorts_before(a: &Run, b: &Run) -> (r: bool)
    ensures
        r == run_before(*a, *b),
{
    let ra: u8 = match a.color {
        Color::Blue => 0,
        Color::Red => 1,
        Color::Orange => 2,
        Color::Black => 3,
    };
    let rb: u8 = match b.color {
        Color::Blue => 0,
        Color::Red => 1,
        Color::Orange => 2,
        Color::Black => 3,
    };
    ra < rb || (ra == rb && a.start < b.start)
}

/// Where `insert_sorted` puts the new run: right before the first
/// entry that does not sort strictly before it.
proof fn lemma_insert_sorted_at(x: Run, s: Seq<Run>, j: int)
    requires
        0 <= j <= s.len(),
        forall|k: int| 0 <= k < j ==> run_before(#[trigger] s[k], x),
        j == s.len() || !run_before(s[j], x),
    ensures
        insert_sorted(x, s) == s.take(j) + seq![x] + s.skip(j),
    decreases j,
{
    if j == 0 {
        if s.len() == 0 {
            assert(insert_sorted(x, s) =~= s.take(0) + seq![x] + s.skip(0));
        } else {
            assert(!run_before(s[0], x));
            assert(insert_sorted(x, s) == seq![x] + s);
            assert(seq![x] + s =~= s.take(0) + seq![x] + s.skip(0));
        }
    } else {
        assert(run_before(s[0], x));
        let d = s.drop_first();
        assert(forall|k: int| 0 <= k < j - 1 ==> #[trigger] d[k] == s[k + 1]);
        lemma_insert_sorted_at(x, d, j - 1);
        assert(insert_sorted(x, s) == seq![s[0]] + (d.take(j - 1) + seq![x] + d.skip(j - 1)));
        assert(seq![s[0]] + (d.take(j - 1) + seq![x] + d.skip(j - 1))
            =~= s.take(j) + seq![x] + s.skip(j));
    }
}

/// Insert one run into an already sorted vector of runs.
fn insert_run(x: Run, v: Vec<Run>) -> (r: Vec<Run>)
    ensures
        r@ == insert_sorted(x, v@),
{
    let ghost s = v@;
    let mut j: usize = 0;
    while j < v.len() && run_sorts_before(&v[j], &x)
        invariant
            s == v@,
            j <= v@.len(),
            forall|k: int| 0 <= k < j ==> run_before(#[trigger] v@[k], x),
        decreases v@.len() - j,
    {
        j += 1;
    }
    proof {
        lemma_insert_sorted_at(x, v@, j as int);
    }
    let mut r = v;
    r.insert(j, x);
    proof {
        assert(r@ =~= s.take(j as int) + seq![x] + s.skip(j as int));
    }
    r
}

/// Compress adjacent runs of the same color into larger runs: sort by
/// color and start, then merge every run into its predecessor while it
/// continues it.
pub fn compress_runs(runs: &Vec<Run>) -> (r: Vec<Run>)
    ensures
        r@ == compress_spec(runs@),
{
    if runs.len() == 0 {
        let r: Vec<Run> = Vec::new();
        proof {
            assert(r@ =~= compress_spec(runs@));
        }
        return r;
    }
    let mut sorted_v: Vec<Run> = Vec::new();
    let mut i: usize = runs.len();
    while i > 0
        invariant
            i <= runs@.len(),
            sorted_v@ == sort_runs(runs@.skip(i as int)),
        decreases i,
    {
        i -= 1;
        sorted_v = insert_run(runs[i], sorted_v);
        proof {
            assert(runs@.skip(i as int).drop_first() =~= runs@.skip(i as int + 1));
            assert(runs@.skip(i as int)[0] == runs@[i as int]);
        }
    }
    proof {
        assert(runs@.skip(0) =~= runs@);
    }
    let mut compressed: Vec<Run> = Vec::new();
    let mut current: Run = sorted_v[0];
    let mut i2: usize = 1;
    proof {
        assert(seq![current] + sorted_v@.skip(1) =~= sorted_v@);
        assert(compressed@ + merge_adjacent(seq![current] + sorted_v@.skip(1))
            =~= merge_adjacent(sorted_v@));
    }
    while i2 < sorted_v.len()
        invariant
            1 <= i2 <= sorted_v@.len(),
            merge_adjacent(sorted_v@)
                == compressed@ + merge_adjacent(seq![current] + sorted_v@.skip(i2 as int)),
        decreases sorted_v@.len() - i2,
    {
        let run = sorted_v[i2];
        let ghost s0 = seq![current] + sorted_v@.skip(i2 as int);
        proof {
            assert(s0.len() >= 2);
            assert(s0[0] == current);
            assert(s0[1] == sorted_v@[i2 as int]);
        }
        let ghost oldc = compressed@;
        let ghost oldcur = current;
        if run.color == current.color && (run.start as u16) == (current.end as u16) + 1 {
            proof {
                assert(can_merge(current, run));
                assert(merge_adjacent(s0)
                    == merge_adjacent(seq![merge_two(current, run)] + s0.skip(2)));
                assert(seq![merge_two(current, run)] + s0.skip(2)
                    =~= seq![Run { start: current.start, end: run.end, color: current.color }]
                        + sorted_v@.skip(i2 as int + 1));
            }
            current = Run { start: current.start, end: run.end, color: current.color };
        } else {
            proof {
                assert(!can_merge(current, run));
                assert(merge_adjacent(s0) == seq![current] + merge_adjacent(s0.drop_first()));
                assert(s0.drop_first() =~= sorted_v@.skip(i2 as int));
                assert(seq![run] + sorted_v@.skip(i2 as int + 1) =~= sorted_v@.skip(i2 as int));
            }
            compressed.push(current);
            current = run;
            proof {
                assert(compressed@ =~= oldc.push(oldcur));
                assert(oldc.push(oldcur)
                    + merge_adjacent(seq![current] + sorted_v@.skip(i2 as int + 1))
                    =~= oldc + (seq![oldcur]
                        + merge_adjacent(seq![current] + sorted_v@.skip(i2 as int + 1))));
            }
        }
        i2 += 1;
    }
    proof {
        assert(seq![current] + sorted_v@.skip(i2 as int) =~= seq![current]);
        assert(merge_adjacent(seq![current]) == seq![current]);
    }
    compressed.push(current);
    compressed
}

} // verus!
