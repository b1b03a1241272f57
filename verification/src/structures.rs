//! The data model: colors, tiles, groups, runs and the board.

use vstd::prelude::*;
use vstd::string::StringExecFns;

verus! {

/// The characters of `s` after lowercasing. The mapping is involved
/// (Unicode case folding), so it is only named here; the trusted
/// `lowercase` below produces it.
pub uninterp spec fn lower_of(s: Seq<char>) -> Seq<char>;

/// Relies on str::to_lowercase: the result depends on the characters alone.
#[verifier::external_body]
fn lowercase(s: &str) -> (r: String)
    ensures
        r@ == lower_of(s@),
{
    s.to_lowercase()
}

/// One of the four tile colors. A color is a discrete tag: there is no
/// ordering among colors beyond identity.
#[derive(Clone, Copy, PartialEq, Eq, Structural, Hash, Debug)]
pub enum Color {
    Blue,
    Red,
    Orange,
    Black,
}

/// The color named by a lowercased color word, if any.
pub open spec fn color_from_lower(t: Seq<char>) -> Option<Color> {
    if t == "blue"@ {
        Some(Color::Blue)
    } else if t == "red"@ {
        Some(Color::Red)
    } else if t == "orange"@ {
        Some(Color::Orange)
    } else if t == "black"@ {
        Some(Color::Black)
    } else {
        None
    }
}

impl Color {
    /// Parse a color name, ignoring case.
    pub fn from_str(s: &str) -> (r: Option<Color>)
        ensures
            r == color_from_lower(lower_of(s@)),
    {
        let low = lowercase(s);
        if low == String::from_str("blue") {
            Some(Color::Blue)
        } else if low == String::from_str("red") {
            Some(Color::Red)
        } else if low == String::from_str("orange") {
            Some(Color::Orange)
        } else if low == String::from_str("black") {
            Some(Color::Black)
        } else {
            None
        }
    }
}

/// A single tile: a color and a value.
#[derive(Clone, Copy, PartialEq, Eq, Structural, Hash, Debug)]
pub struct Tile {
    pub color: Color,
    pub value: u8,
}

/// A set of same-valued tiles across distinct colors.
#[derive(Clone, PartialEq, Eq, Hash, Debug)]
pub struct Group {
    pub value: u8,
    pub colors: Vec<Color>,
}

/// Whether a sequence of colors is pairwise distinct.
pub open spec fn colors_distinct(cs: Seq<Color>) -> bool {
    forall|i: int, j: int| 0 <= i < j < cs.len() ==> cs[i] != cs[j]
}

impl Group {
    /// A group is valid when its colors are pairwise distinct.
    pub open spec fn valid_spec(self) -> bool {
        colors_distinct(self.colors@)
    }

    /// A group is valid when its colors are pairwise distinct.
    pub fn valid(&self) -> (r: bool)
        ensures
            r == self.valid_spec(),
    {
        let n = self.colors.len();
        let mut i: usize = 0;
        while i < n
            invariant
                n == self.colors@.len(),
                i <= n,
                forall|a: int, b: int| 0 <= a < b < n && a < i ==> self.colors@[a] != self.colors@[b],
            decreases n - i,
        {
            let mut j: usize = i + 1;
            while j < n
                invariant
                    n == self.colors@.len(),
                    i < n,
                    i < j <= n,
                    forall|b: int| i < b < j ==> self.colors@[i as int] != self.colors@[b],
                decreases n - j,
            {
                if self.colors[i] == self.colors[j] {
                    return false;
                }
                j += 1;
            }
            i += 1;
        }
        true
    }
}

/// A contiguous same-colored range of values `[start, end]`, all tiled
/// in `color`.
#[derive(Clone, Copy, PartialEq, Eq, Structural, Hash, Debug)]
pub struct Run {
    pub start: u8,
    pub end: u8,
    pub color: Color,
}

impl Run {
    /// A run is valid when it covers at least three consecutive values.
    pub open spec fn valid_spec(self) -> bool {
        self.start < self.end && self.end - self.start >= 2
    }

    /// A run is valid when it covers at least three consecutive values.
    pub fn valid(&self) -> (r: bool)
        ensures
            r == self.valid_spec(),
    {
        self.start < self.end && self.end - self.start >= 2
    }
}

/// A board: the groups and runs currently laid out.
#[derive(Clone, PartialEq, Eq, Hash, Debug)]
pub struct Board {
    pub groups: Vec<Group>,
    pub runs: Vec<Run>,
}

/// Every group in the sequence is valid.
pub open spec fn groups_all_valid(gs: Seq<Group>) -> bool {
    forall|i: int| 0 <= i < gs.len() ==> (#[trigger] gs[i]).valid_spec()
}

/// Every run in the sequence is valid.
pub open spec fn runs_all_valid(rs: Seq<Run>) -> bool {
    forall|i: int| 0 <= i < rs.len() ==> (#[trigger] rs[i]).valid_spec()
}

impl Board {
    /// A board is valid when every group and every run on it is valid.
    pub open spec fn valid_spec(self) -> bool {
        groups_all_valid(self.groups@) && runs_all_valid(self.runs@)
    }

    /// A board is valid when every group and every run on it is valid.
    pub fn valid(&self) -> (r: bool)
        ensures
            r == self.valid_spec(),
    {
        let mut i: usize = 0;
        while i < self.groups.len()
            invariant
                i <= self.groups@.len(),
                forall|k: int| 0 <= k < i ==> (#[trigger] self.groups@[k]).valid_spec(),
            decreases self.groups@.len() - i,
        {
            if !self.groups[i].valid() {
                return false;
            }
            i += 1;
        }
        let mut j: usize = 0;
        while j < self.runs.len()
            invariant
                forall|k: int| 0 <= k < self.groups@.len() ==> (#[trigger] self.groups@[k]).valid_spec(),
                j <= self.runs@.len(),
                forall|k: int| 0 <= k < j ==> (#[trigger] self.runs@[k]).valid_spec(),
            decreases self.runs@.len() - j,
        {
            if !self.runs[j].valid() {
                return false;
            }
            j += 1;
        }
        true
    }
}

/// A player's hand of tiles.
pub struct Player {
    pub tiles: Vec<Tile>,
}

/// The part of a group that its contracts speak of: its value and its
/// colors.
pub open spec fn group_view(g: Group) -> (u8, Seq<Color>) {
    (g.value, g.colors@)
}

/// The groups of a board, as values.
pub open spec fn groups_view(gs: Seq<Group>) -> Seq<(u8, Seq<Color>)> {
    gs.map_values(|g: Group| group_view(g))
}

/// Two group sequences with the same view are valid together.
pub proof fn lemma_groups_view_valid(g1: Seq<Group>, g2: Seq<Group>)
    requires
        groups_view(g1) == groups_view(g2),
    ensures
        groups_all_valid(g1) == groups_all_valid(g2),
{
    assert(groups_view(g1).len() == g1.len());
    assert(groups_view(g2).len() == g2.len());
    assert forall|i: int| 0 <= i < g1.len()
        implies (#[trigger] g1[i]).valid_spec() == g2[i].valid_spec() by {
        assert(groups_view(g1)[i] == groups_view(g2)[i]);
        assert(group_view(g1[i]) == group_view(g2[i]));
        assert(g1[i].colors@ == g2[i].colors@);
    }
    if groups_all_valid(g1) {
        assert forall|i: int| 0 <= i < g2.len() implies (#[trigger] g2[i]).valid_spec() by {
            assert(g1[i].valid_spec());
        }
    }
    if groups_all_valid(g2) {
        assert forall|i: int| 0 <= i < g1.len() implies (#[trigger] g1[i]).valid_spec() by {
            assert(g2[i].valid_spec());
        }
    }
}

/// Copy a vector of colors element by element.
pub(crate) fn copy_colors(v: &Vec<Color>) -> (r: Vec<Color>)
    ensures
        r@ == v@,
{
    let mut r: Vec<Color> = Vec::new();
    let mut i: usize = 0;
    while i < v.len()
        invariant
            i <= v@.len(),
            r@ == v@.take(i as int),
        decreases v@.len() - i,
    {
        r.push(v[i]);
        proof {
            assert(v@.take(i + 1 as int) =~= v@.take(i as int).push(v@[i as int]));
        }
        i += 1;
    }
    proof {
        assert(v@.take(v@.len() as int) =~= v@);
    }
    r
}

/// Copy a vector of groups, preserving each group's value and colors.
pub(crate) fn copy_groups(v: &Vec<Group>) -> (r: Vec<Group>)
    ensures
        groups_view(r@) == groups_view(v@),
{
    let mut r: Vec<Group> = Vec::new();
    let mut i: usize = 0;
    while i < v.len()
        invariant
            i <= v@.len(),
            r@.len() == i,
            forall|j: int| 0 <= j < i ==> group_view(#[trigger] r@[j]) == group_view(v@[j]),
        decreases v@.len() - i,
    {
        let g = Group { value: v[i].value, colors: copy_colors(&v[i].colors) };
        r.push(g);
        i += 1;
    }
    proof {
        assert(groups_view(r@) =~= groups_view(v@));
    }
    r
}

/// Copy a vector of runs element by element.
pub(crate) fn copy_runs(v: &Vec<Run>) -> (r: Vec<Run>)
    ensures
        r@ == v@,
{
    let mut r: Vec<Run> = Vec::new();
    let mut i: usize = 0;
    while i < v.len()
        invariant
            i <= v@.len(),
            r@ == v@.take(i as int),
        decreases v@.len() - i,
    {
        r.push(v[i]);
        proof {
            assert(v@.take(i + 1 as int) =~= v@.take(i as int).push(v@[i as int]));
        }
        i += 1;
    }
    proof {
        assert(v@.take(v@.len() as int) =~= v@);
    }
    r
}

/// Copy a board, preserving its runs and the values of its groups.
pub(crate) fn copy_board(b: &Board) -> (r: Board)
    ensures
        r.runs@ == b.runs@,
        groups_view(r.groups@) == groups_view(b.groups@),
{
    Board { groups: copy_groups(&b.groups), runs: copy_runs(&b.runs) }
}

} // verus!
