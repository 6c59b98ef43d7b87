//! The rooms a stage can be, and how much their walls absorb.

use vstd::prelude::*;

verus! {

/// The hall the sections play in.
#[derive(Clone, Copy, Debug, PartialEq, Eq, Structural)]
pub enum RoomPreset {
    Studio,
    ChamberHall,
    ConcertHall,
    ScoringStage,
}

impl RoomPreset {
    /// Every room, in the order the editor lists them (and the stage file
    /// numbers them).
    pub const ALL: [RoomPreset; 4] = [
        RoomPreset::Studio,
        RoomPreset::ChamberHall,
        RoomPreset::ConcertHall,
        RoomPreset::ScoringStage,
    ];

    /// The name the editor shows.
    pub open spec fn title(self) -> Seq<char> {
        match self {
            RoomPreset::Studio => "Studio"@,
            RoomPreset::ChamberHall => "Chamber hall"@,
            RoomPreset::ConcertHall => "Concert hall"@,
            RoomPreset::ScoringStage => "Scoring stage"@,
        }
    }

    pub fn name(self) -> (s: &'static str)
        ensures
            s@ == self.title(),
    {
        match self {
            RoomPreset::Studio => "Studio",
            RoomPreset::ChamberHall => "Chamber hall",
            RoomPreset::ConcertHall => "Concert hall",
            RoomPreset::ScoringStage => "Scoring stage",
        }
    }
}

impl Default for RoomPreset {
    /// A chamber hall.
    fn default() -> (r: Self)
        ensures
            r == RoomPreset::ChamberHall,
    {
        RoomPreset::ChamberHall
    }
}

/// How much of the sound the walls absorb.
#[derive(Clone, Copy, Debug, PartialEq, Eq, Structural)]
pub enum Absorption {
    Low,
    Medium,
    High,
}

impl Absorption {
    /// Every absorption, least first (as the stage file numbers them).
    pub const ALL: [Absorption; 3] = [Absorption::Low, Absorption::Medium, Absorption::High];

    /// The name the editor shows.
    pub open spec fn title(self) -> Seq<char> {
        match self {
            Absorption::Low => "Low"@,
            Absorption::Medium => "Medium"@,
            Absorption::High => "High"@,
        }
    }

    pub fn name(self) -> (s: &'static str)
        ensures
            s@ == self.title(),
    {
        match self {
            Absorption::Low => "Low",
            Absorption::Medium => "Medium",
            Absorption::High => "High",
        }
    }
}

impl Default for Absorption {
    /// Medium.
    fn default() -> (a: Self)
        ensures
            a == Absorption::Medium,
    {
        Absorption::Medium
    }
}

/// Where player `i` of `n` sits in a section's grid of `cols` columns: its
/// row, its column, and how many players its row holds (the last row may
/// hold fewer, spread across the whole width).
#[derive(Clone, Copy, Debug, PartialEq, Eq, Structural)]
pub struct Cell {
    pub row: usize,
    pub col: usize,
    pub in_row: usize,
    pub rows: usize,
}

/// Player `i`'s cell in a grid of `cols` columns for `n` players, filled row
/// by row from the front.
pub fn cell(i: usize, n: usize, cols: usize) -> (c: Cell)
    requires
        i < n,
        1 <= cols,
    ensures
        c.rows == (n + cols - 1) / (cols as int),
        c.row == i / cols,
        c.col == i % cols,
        c.in_row == (if cols < n - c.row * cols {
            cols as int
        } else {
            n - c.row * cols
        }),
        c.row < c.rows,
        c.col < c.in_row,
{
    let q = n / cols;
    let rows = if n % cols == 0 {
        q
    } else {
        assert(q < usize::MAX) by (nonlinear_arith)
            requires
                q == n / cols,
                n % cols != 0,
                cols >= 1,
                n <= usize::MAX,
        ;
        q + 1
    };
    let row = i / cols;
    let col = i % cols;
    proof {
        assert(row * cols + col == i) by (nonlinear_arith)
            requires
                row == i / cols,
                col == i % cols,
                cols >= 1,
        ;
        assert(rows == (n + cols - 1) / (cols as int)) by (nonlinear_arith)
            requires
                rows == n / cols + if n % cols == 0 { 0int } else { 1int },
                cols >= 1,
                n >= 0,
        ;
        assert(row < rows) by (nonlinear_arith)
            requires
                row == i / cols,
                rows == n / cols + if n % cols == 0 { 0int } else { 1int },
                i < n,
                cols >= 1,
        ;
    }
    let left = n - row * cols;
    let in_row = if cols < left { cols } else { left };
    Cell { row, col, in_row, rows }
}

/// Each room has a name of its own.
pub proof fn lemma_room_names_differ(a: RoomPreset, b: RoomPreset)
    requires
        a != b,
    ensures
        a.title() != b.title(),
{
    reveal_strlit("Studio");
    reveal_strlit("Chamber hall");
    reveal_strlit("Concert hall");
    reveal_strlit("Scoring stage");
    let x = a.title();
    let y = b.title();
    assert(x.len() != y.len() || x[1] != y[1]);
}

/// Each absorption has a name of its own.
pub proof fn lemma_absorption_names_differ(a: Absorption, b: Absorption)
    requires
        a != b,
    ensures
        a.title() != b.title(),
{
    reveal_strlit("Low");
    reveal_strlit("Medium");
    reveal_strlit("High");
    let x = a.title();
    let y = b.title();
    assert(x.len() != y.len());
}

} // verus!
