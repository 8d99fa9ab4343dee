//! The grid engine: pure win detection over an immutable snapshot of the
//! board, plus the grid helpers the game operations build on.
//!
//! A grid is a rectangular `Vec` of rows; a cell holds the identity of the
//! player who filled it, or nothing.  [`detect_win`] scans horizontal runs,
//! then vertical runs, then both diagonal directions, each with a sliding
//! window of exactly [`STREAK_REQUIRED`] cells, and returns the first
//! qualifying run in that fixed order; the scan order is the deterministic
//! tie-break when several streaks exist at once.

use vstd::prelude::*;

use crate::records::COLS;
use crate::records::Coord;
use crate::records::ROWS;
use crate::records::STREAK_REQUIRED;

verus! {

/// Every row has the same length as row 0.
pub open spec fn grid_rect(t: Seq<Vec<Option<u64>>>) -> bool {
    forall|i: int| 0 <= i < t.len() ==> (#[trigger] t[i])@.len() == t[0]@.len()
}

/// The grid has the fixed dimensions of a game table.
pub open spec fn grid_dims(t: Seq<Vec<Option<u64>>>) -> bool {
    &&& t.len() == ROWS
    &&& forall|i: int| 0 <= i < t.len() ==> (#[trigger] t[i])@.len() == COLS
}

/// A game-sized grid with every cell empty.
pub open spec fn grid_blank(t: Seq<Vec<Option<u64>>>) -> bool {
    &&& grid_dims(t)
    &&& forall|i: int, j: int| 0 <= i < t.len() && 0 <= j < COLS ==> (#[trigger] t[i]@[j]) is None
}

/// Every cell of the grid is occupied.
pub open spec fn grid_full(t: Seq<Vec<Option<u64>>>) -> bool {
    forall|i: int, j: int|
        0 <= i < t.len() && 0 <= j < t[i]@.len() ==> (#[trigger] t[i]@[j]) is Some
}

/// A horizontal streak of `o`'s cells starts at row `r`, column `c`.
pub open spec fn horiz_win(t: Seq<Vec<Option<u64>>>, o: u64, r: int, c: int) -> bool {
    &&& 0 <= r < t.len()
    &&& 0 <= c && c + STREAK_REQUIRED <= t[0]@.len()
    &&& t[r]@[c] == Some(o)
    &&& t[r]@[c + 1] == Some(o)
    &&& t[r]@[c + 2] == Some(o)
    &&& t[r]@[c + 3] == Some(o)
}

/// A vertical streak of `o`'s cells starts at row `r`, column `c`.
pub open spec fn vert_win(t: Seq<Vec<Option<u64>>>, o: u64, r: int, c: int) -> bool {
    &&& 0 <= r && r + STREAK_REQUIRED <= t.len()
    &&& 0 <= c < t[0]@.len()
    &&& t[r]@[c] == Some(o)
    &&& t[r + 1]@[c] == Some(o)
    &&& t[r + 2]@[c] == Some(o)
    &&& t[r + 3]@[c] == Some(o)
}

/// A top-left to bottom-right diagonal streak starts at row `r`, column `c`.
pub open spec fn diag_down_win(t: Seq<Vec<Option<u64>>>, o: u64, r: int, c: int) -> bool {
    &&& 0 <= r && r + STREAK_REQUIRED <= t.len()
    &&& 0 <= c && c + STREAK_REQUIRED <= t[0]@.len()
    &&& t[r]@[c] == Some(o)
    &&& t[r + 1]@[c + 1] == Some(o)
    &&& t[r + 2]@[c + 2] == Some(o)
    &&& t[r + 3]@[c + 3] == Some(o)
}

/// A bottom-left to top-right diagonal streak starts at row `r`, column `c`.
pub open spec fn diag_up_win(t: Seq<Vec<Option<u64>>>, o: u64, r: int, c: int) -> bool {
    &&& STREAK_REQUIRED - 1 <= r < t.len()
    &&& 0 <= c && c + STREAK_REQUIRED <= t[0]@.len()
    &&& t[r]@[c] == Some(o)
    &&& t[r - 1]@[c + 1] == Some(o)
    &&& t[r - 2]@[c + 2] == Some(o)
    &&& t[r - 3]@[c + 3] == Some(o)
}

pub open spec fn has_horiz(t: Seq<Vec<Option<u64>>>, o: u64) -> bool {
    exists|r: int, c: int| #[trigger] horiz_win(t, o, r, c)
}

pub open spec fn has_vert(t: Seq<Vec<Option<u64>>>, o: u64) -> bool {
    exists|r: int, c: int| #[trigger] vert_win(t, o, r, c)
}

pub open spec fn has_diag_down(t: Seq<Vec<Option<u64>>>, o: u64) -> bool {
    exists|r: int, c: int| #[trigger] diag_down_win(t, o, r, c)
}

pub open spec fn has_diag_up(t: Seq<Vec<Option<u64>>>, o: u64) -> bool {
    exists|r: int, c: int| #[trigger] diag_up_win(t, o, r, c)
}

/// Four same-owner cells are aligned somewhere: horizontally, vertically, or
/// along one of the two diagonal directions.
pub open spec fn has_win(t: Seq<Vec<Option<u64>>>, o: u64) -> bool {
    ||| has_horiz(t, o)
    ||| has_vert(t, o)
    ||| has_diag_down(t, o)
    ||| has_diag_up(t, o)
}

/// `(r, c)` is the first horizontal streak in scan order: rows top to
/// bottom, columns left to right within a row.
pub open spec fn first_horiz(t: Seq<Vec<Option<u64>>>, o: u64, r: int, c: int) -> bool {
    &&& horiz_win(t, o, r, c)
    &&& forall|r2: int, c2: int|
        r2 < r || (r2 == r && c2 < c) ==> !(#[trigger] horiz_win(t, o, r2, c2))
}

/// `(r, c)` is the first vertical streak in scan order: columns left to
/// right, rows top to bottom within a column.
pub open spec fn first_vert(t: Seq<Vec<Option<u64>>>, o: u64, r: int, c: int) -> bool {
    &&& vert_win(t, o, r, c)
    &&& forall|r2: int, c2: int|
        c2 < c || (c2 == c && r2 < r) ==> !(#[trigger] vert_win(t, o, r2, c2))
}

/// `(r, c)` is the first top-left to bottom-right streak in scan order:
/// rows top to bottom, columns left to right within a row.
pub open spec fn first_diag_down(t: Seq<Vec<Option<u64>>>, o: u64, r: int, c: int) -> bool {
    &&& diag_down_win(t, o, r, c)
    &&& forall|r2: int, c2: int|
        r2 < r || (r2 == r && c2 < c) ==> !(#[trigger] diag_down_win(t, o, r2, c2))
}

/// `(r, c)` is the first bottom-left to top-right streak in scan order:
/// rows top to bottom, columns left to right within a row.
pub open spec fn first_diag_up(t: Seq<Vec<Option<u64>>>, o: u64, r: int, c: int) -> bool {
    &&& diag_up_win(t, o, r, c)
    &&& forall|r2: int, c2: int|
        r2 < r || (r2 == r && c2 < c) ==> !(#[trigger] diag_up_win(t, o, r2, c2))
}

/// The four coordinates of a streak starting at `(r, c)` and stepping by
/// `(dr, dc)`, in step order.
pub open spec fn streak_coords(r: int, c: int, dr: int, dc: int) -> Seq<Coord> {
    Seq::new(
        STREAK_REQUIRED as nat,
        |k: int| (Coord { x: (r + k * dr) as u32, y: (c + k * dc) as u32 }),
    )
}

/// The winning coordinates as the scan reports them, lifted to a view.
pub open spec fn coords_view(res: Option<Vec<Coord>>) -> Option<Seq<Coord>> {
    match res {
        Some(v) => Some(v@),
        None => None,
    }
}

/// What [`detect_win`] returns: nothing exactly when no streak exists, and
/// otherwise the first streak of the first direction (horizontal, vertical,
/// downward diagonal, upward diagonal) that has one, in that direction's
/// scan order.
pub open spec fn detect_ok(t: Seq<Vec<Option<u64>>>, o: u64, res: Option<Seq<Coord>>) -> bool {
    match res {
        None => !has_win(t, o),
        Some(w) => {
            ||| (exists|r: int, c: int|
                #[trigger] first_horiz(t, o, r, c) && w == streak_coords(r, c, 0, 1))
            ||| (!has_horiz(t, o) && exists|r: int, c: int|
                #[trigger] first_vert(t, o, r, c) && w == streak_coords(r, c, 1, 0))
            ||| (!has_horiz(t, o) && !has_vert(t, o) && exists|r: int, c: int|
                #[trigger] first_diag_down(t, o, r, c) && w == streak_coords(r, c, 1, 1))
            ||| (!has_horiz(t, o) && !has_vert(t, o) && !has_diag_down(t, o) && exists|r: int, c: int|
                #[trigger] first_diag_up(t, o, r, c) && w == streak_coords(r, c, -1, 1))
        },
    }
}

/// Whether the cell at `(r, c)` is occupied by `o`.
fn cell_is(t: &Vec<Vec<Option<u64>>>, r: usize, c: usize, o: u64) -> (b: bool)
    requires
        r < t@.len(),
        c < t@[r as int]@.len(),
    ensures
        b == (t@[r as int]@[c as int] == Some(o)),
{
    match t[r][c] {
        Some(v) => v == o,
        None => false,
    }
}

/// Scan for the first horizontal streak, rows outer, columns inner.
fn scan_horiz(t: &Vec<Vec<Option<u64>>>, o: u64) -> (res: Option<(usize, usize)>)
    requires
        grid_rect(t@),
        t@.len() >= 1,
        t@[0]@.len() >= STREAK_REQUIRED,
    ensures
        match res {
            Some(rc) => first_horiz(t@, o, rc.0 as int, rc.1 as int),
            None => !has_horiz(t@, o),
        },
{
    let rows = t.len();
    let cols = t[0].len();
    let mut r: usize = 0;
    while r < rows
        invariant
            grid_rect(t@),
            rows == t@.len(),
            1 <= rows,
            cols == t@[0]@.len(),
            STREAK_REQUIRED <= cols,
            r <= rows,
            forall|r2: int, c2: int| r2 < r ==> !(#[trigger] horiz_win(t@, o, r2, c2)),
        decreases rows - r,
    {
        let mut c: usize = 0;
        while c <= cols - STREAK_REQUIRED
            invariant
                grid_rect(t@),
                rows == t@.len(),
                cols == t@[0]@.len(),
                STREAK_REQUIRED <= cols,
                r < rows,
                c <= cols,
                forall|r2: int, c2: int| r2 < r ==> !(#[trigger] horiz_win(t@, o, r2, c2)),
                forall|c2: int| c2 < c ==> !(#[trigger] horiz_win(t@, o, r as int, c2)),
            decreases cols - c,
        {
            if cell_is(t, r, c, o) && cell_is(t, r, c + 1, o) && cell_is(t, r, c + 2, o)
                && cell_is(t, r, c + 3, o) {
                return Some((r, c));
            }
            assert(!horiz_win(t@, o, r as int, c as int));
            c = c + 1;
        }
        assert forall|c2: int| !(#[trigger] horiz_win(t@, o, r as int, c2)) by {
            if 0 <= c2 && c2 + STREAK_REQUIRED <= cols {
                assert(c2 < c);
            }
        }
        r = r + 1;
    }
    None
}

/// Scan for the first vertical streak, columns outer, rows inner.
fn scan_vert(t: &Vec<Vec<Option<u64>>>, o: u64) -> (res: Option<(usize, usize)>)
    requires
        grid_rect(t@),
        t@.len() >= STREAK_REQUIRED,
        t@[0]@.len() >= 1,
    ensures
        match res {
            Some(rc) => first_vert(t@, o, rc.0 as int, rc.1 as int),
            None => !has_vert(t@, o),
        },
{
    let rows = t.len();
    let cols = t[0].len();
    let mut c: usize = 0;
    while c < cols
        invariant
            grid_rect(t@),
            rows == t@.len(),
            STREAK_REQUIRED <= rows,
            cols == t@[0]@.len(),
            1 <= cols,
            c <= cols,
            forall|r2: int, c2: int| c2 < c ==> !(#[trigger] vert_win(t@, o, r2, c2)),
        decreases cols - c,
    {
        let mut r: usize = 0;
        while r <= rows - STREAK_REQUIRED
            invariant
                grid_rect(t@),
                rows == t@.len(),
                STREAK_REQUIRED <= rows,
                cols == t@[0]@.len(),
                c < cols,
                r <= rows,
                forall|r2: int, c2: int| c2 < c ==> !(#[trigger] vert_win(t@, o, r2, c2)),
                forall|r2: int| r2 < r ==> !(#[trigger] vert_win(t@, o, r2, c as int)),
            decreases rows - r,
        {
            if cell_is(t, r, c, o) && cell_is(t, r + 1, c, o) && cell_is(t, r + 2, c, o)
                && cell_is(t, r + 3, c, o) {
                return Some((r, c));
            }
            assert(!vert_win(t@, o, r as int, c as int));
            r = r + 1;
        }
        assert forall|r2: int| !(#[trigger] vert_win(t@, o, r2, c as int)) by {
            if 0 <= r2 && r2 + STREAK_REQUIRED <= rows {
                assert(r2 < r);
            }
        }
        c = c + 1;
    }
    None
}

/// Scan for the first top-left to bottom-right streak, row-major.
fn scan_diag_down(t: &Vec<Vec<Option<u64>>>, o: u64) -> (res: Option<(usize, usize)>)
    requires
        grid_rect(t@),
        t@.len() >= STREAK_REQUIRED,
        t@[0]@.len() >= STREAK_REQUIRED,
    ensures
        match res {
            Some(rc) => first_diag_down(t@, o, rc.0 as int, rc.1 as int),
            None => !has_diag_down(t@, o),
        },
{
    let rows = t.len();
    let cols = t[0].len();
    let mut r: usize = 0;
    while r <= rows - STREAK_REQUIRED
        invariant
            grid_rect(t@),
            rows == t@.len(),
            STREAK_REQUIRED <= rows,
            cols == t@[0]@.len(),
            STREAK_REQUIRED <= cols,
            r <= rows,
            forall|r2: int, c2: int| r2 < r ==> !(#[trigger] diag_down_win(t@, o, r2, c2)),
        decreases rows - r,
    {
        let mut c: usize = 0;
        while c <= cols - STREAK_REQUIRED
            invariant
                grid_rect(t@),
                rows == t@.len(),
                STREAK_REQUIRED <= rows,
                cols == t@[0]@.len(),
                STREAK_REQUIRED <= cols,
                r + STREAK_REQUIRED <= rows,
                c <= cols,
                forall|r2: int, c2: int| r2 < r ==> !(#[trigger] diag_down_win(t@, o, r2, c2)),
                forall|c2: int| c2 < c ==> !(#[trigger] diag_down_win(t@, o, r as int, c2)),
            decreases cols - c,
        {
            if cell_is(t, r, c, o) && cell_is(t, r + 1, c + 1, o) && cell_is(t, r + 2, c + 2, o)
                && cell_is(t, r + 3, c + 3, o) {
                return Some((r, c));
            }
            assert(!diag_down_win(t@, o, r as int, c as int));
            c = c + 1;
        }
        assert forall|c2: int| !(#[trigger] diag_down_win(t@, o, r as int, c2)) by {
            if 0 <= c2 && c2 + STREAK_REQUIRED <= cols {
                assert(c2 < c);
            }
        }
        r = r + 1;
    }
    assert forall|r2: int, c2: int| !(#[trigger] diag_down_win(t@, o, r2, c2)) by {
        if 0 <= r2 && r2 + STREAK_REQUIRED <= rows {
            assert(r2 < r);
        }
    }
    None
}

/// Scan for the first bottom-left to top-right streak: starting rows from
/// the lowest possible upward-streak row, top to bottom, columns inner.
fn scan_diag_up(t: &Vec<Vec<Option<u64>>>, o: u64) -> (res: Option<(usize, usize)>)
    requires
        grid_rect(t@),
        t@.len() >= STREAK_REQUIRED,
        t@[0]@.len() >= STREAK_REQUIRED,
    ensures
        match res {
            Some(rc) => first_diag_up(t@, o, rc.0 as int, rc.1 as int),
            None => !has_diag_up(t@, o),
        },
{
    let rows = t.len();
    let cols = t[0].len();
    let mut r: usize = STREAK_REQUIRED - 1;
    while r < rows
        invariant
            grid_rect(t@),
            rows == t@.len(),
            STREAK_REQUIRED <= rows,
            cols == t@[0]@.len(),
            STREAK_REQUIRED <= cols,
            STREAK_REQUIRED - 1 <= r,
            r <= rows,
            forall|r2: int, c2: int| r2 < r ==> !(#[trigger] diag_up_win(t@, o, r2, c2)),
        decreases rows - r,
    {
        let mut c: usize = 0;
        while c <= cols - STREAK_REQUIRED
            invariant
                grid_rect(t@),
                rows == t@.len(),
                STREAK_REQUIRED <= rows,
                cols == t@[0]@.len(),
                STREAK_REQUIRED <= cols,
                STREAK_REQUIRED - 1 <= r,
                r < rows,
                c <= cols,
                forall|r2: int, c2: int| r2 < r ==> !(#[trigger] diag_up_win(t@, o, r2, c2)),
                forall|c2: int| c2 < c ==> !(#[trigger] diag_up_win(t@, o, r as int, c2)),
            decreases cols - c,
        {
            if cell_is(t, r, c, o) && cell_is(t, r - 1, c + 1, o) && cell_is(t, r - 2, c + 2, o)
                && cell_is(t, r - 3, c + 3, o) {
                return Some((r, c));
            }
            assert(!diag_up_win(t@, o, r as int, c as int));
            c = c + 1;
        }
        assert forall|c2: int| !(#[trigger] diag_up_win(t@, o, r as int, c2)) by {
            if 0 <= c2 && c2 + STREAK_REQUIRED <= cols {
                assert(c2 < c);
            }
        }
        r = r + 1;
    }
    None
}

/// The four coordinates of a horizontal streak at `(r, c)`.
fn horiz_coords(r: usize, c: usize) -> (w: Vec<Coord>)
    requires
        r <= u32::MAX,
        c + 3 <= u32::MAX,
    ensures
        w@ == streak_coords(r as int, c as int, 0, 1),
{
    let mut w: Vec<Coord> = Vec::new();
    w.push(Coord { x: r as u32, y: c as u32 });
    w.push(Coord { x: r as u32, y: (c + 1) as u32 });
    w.push(Coord { x: r as u32, y: (c + 2) as u32 });
    w.push(Coord { x: r as u32, y: (c + 3) as u32 });
    proof {
        assert(w@ =~= streak_coords(r as int, c as int, 0, 1));
    }
    w
}

/// The four coordinates of a vertical streak at `(r, c)`.
fn vert_coords(r: usize, c: usize) -> (w: Vec<Coord>)
    requires
        r + 3 <= u32::MAX,
        c <= u32::MAX,
    ensures
        w@ == streak_coords(r as int, c as int, 1, 0),
{
    let mut w: Vec<Coord> = Vec::new();
    w.push(Coord { x: r as u32, y: c as u32 });
    w.push(Coord { x: (r + 1) as u32, y: c as u32 });
    w.push(Coord { x: (r + 2) as u32, y: c as u32 });
    w.push(Coord { x: (r + 3) as u32, y: c as u32 });
    proof {
        assert(w@ =~= streak_coords(r as int, c as int, 1, 0));
    }
    w
}

/// The four coordinates of a top-left to bottom-right streak at `(r, c)`.
fn diag_down_coords(r: usize, c: usize) -> (w: Vec<Coord>)
    requires
        r + 3 <= u32::MAX,
        c + 3 <= u32::MAX,
    ensures
        w@ == streak_coords(r as int, c as int, 1, 1),
{
    let mut w: Vec<Coord> = Vec::new();
    w.push(Coord { x: r as u32, y: c as u32 });
    w.push(Coord { x: (r + 1) as u32, y: (c + 1) as u32 });
    w.push(Coord { x: (r + 2) as u32, y: (c + 2) as u32 });
    w.push(Coord { x: (r + 3) as u32, y: (c + 3) as u32 });
    proof {
        assert(w@ =~= streak_coords(r as int, c as int, 1, 1));
    }
    w
}

/// The four coordinates of a bottom-left to top-right streak at `(r, c)`.
fn diag_up_coords(r: usize, c: usize) -> (w: Vec<Coord>)
    requires
        3 <= r <= u32::MAX,
        c + 3 <= u32::MAX,
    ensures
        w@ == streak_coords(r as int, c as int, -1, 1),
{
    let mut w: Vec<Coord> = Vec::new();
    w.push(Coord { x: r as u32, y: c as u32 });
    w.push(Coord { x: (r - 1) as u32, y: (c + 1) as u32 });
    w.push(Coord { x: (r - 2) as u32, y: (c + 2) as u32 });
    w.push(Coord { x: (r - 3) as u32, y: (c + 3) as u32 });
    proof {
        assert(w@ =~= streak_coords(r as int, c as int, -1, 1));
    }
    w
}

/// Scan the grid for a streak of `o`'s cells and return the first one in
/// scan order: horizontal runs first, then vertical, then top-left to
/// bottom-right diagonals, then bottom-left to top-right diagonals.
///
/// Returns nothing exactly when no four of `o`'s cells are aligned in any
/// of the four directions.
pub fn detect_win(t: &Vec<Vec<Option<u64>>>, o: u64) -> (res: Option<Vec<Coord>>)
    requires
        grid_rect(t@),
        STREAK_REQUIRED <= t@.len() <= u32::MAX,
        STREAK_REQUIRED <= t@[0]@.len() <= u32::MAX,
    ensures
        detect_ok(t@, o, coords_view(res)),
        res is Some <==> has_win(t@, o),
{
    if let Some((r, c)) = scan_horiz(t, o) {
        return Some(horiz_coords(r, c));
    }
    if let Some((r, c)) = scan_vert(t, o) {
        return Some(vert_coords(r, c));
    }
    if let Some((r, c)) = scan_diag_down(t, o) {
        return Some(diag_down_coords(r, c));
    }
    if let Some((r, c)) = scan_diag_up(t, o) {
        return Some(diag_up_coords(r, c));
    }
    None
}

/// Scan-order tie-break: whenever a horizontal streak exists anywhere (for
/// example beside a vertical one), the scan reports the first horizontal
/// streak, never one of another direction.
pub proof fn lemma_horizontal_priority(t: Seq<Vec<Option<u64>>>, o: u64, res: Option<Seq<Coord>>)
    requires
        detect_ok(t, o, res),
        has_horiz(t, o),
    ensures
        res is Some,
        exists|r: int, c: int|
            #[trigger] first_horiz(t, o, r, c) && res == Some(streak_coords(r, c, 0, 1)),
{
}

/// Whether every cell of the grid is occupied.
pub fn grid_is_full(t: &Vec<Vec<Option<u64>>>) -> (b: bool)
    ensures
        b == grid_full(t@),
{
    let mut i: usize = 0;
    while i < t.len()
        invariant
            i <= t@.len(),
            forall|i2: int, j2: int|
                0 <= i2 < i && 0 <= j2 < t@[i2]@.len() ==> (#[trigger] t@[i2]@[j2]) is Some,
        decreases t@.len() - i,
    {
        let mut j: usize = 0;
        while j < t[i].len()
            invariant
                i < t@.len(),
                j <= t@[i as int]@.len(),
                forall|i2: int, j2: int|
                    0 <= i2 < i && 0 <= j2 < t@[i2]@.len() ==> (#[trigger] t@[i2]@[j2]) is Some,
                forall|j2: int| 0 <= j2 < j ==> (#[trigger] t@[i as int]@[j2]) is Some,
            decreases t@[i as int]@.len() - j,
        {
            if t[i][j].is_none() {
                return false;
            }
            j = j + 1;
        }
        i = i + 1;
    }
    true
}

/// A fresh, empty game grid of `ROWS` by `COLS` cells.
pub fn new_grid() -> (t: Vec<Vec<Option<u64>>>)
    ensures
        grid_blank(t@),
{
    let mut t: Vec<Vec<Option<u64>>> = Vec::new();
    let mut i: usize = 0;
    while i < ROWS
        invariant
            t@.len() == i,
            i <= ROWS,
            forall|k: int| 0 <= k < i ==> (#[trigger] t@[k])@.len() == COLS,
            forall|k: int, j: int| 0 <= k < i && 0 <= j < COLS ==> (#[trigger] t@[k]@[j]) is None,
        decreases ROWS - i,
    {
        let mut row: Vec<Option<u64>> = Vec::new();
        let mut j: usize = 0;
        while j < COLS
            invariant
                row@.len() == j,
                j <= COLS,
                forall|k: int| 0 <= k < j ==> (#[trigger] row@[k]) is None,
            decreases COLS - j,
        {
            row.push(None);
            j = j + 1;
        }
        t.push(row);
        i = i + 1;
    }
    t
}

/// The row a piece dropped into column `c` lands in: the lowest empty row,
/// with every cell strictly below it already occupied.
pub open spec fn drop_row(t: Seq<Vec<Option<u64>>>, c: int) -> int {
    choose|i: int|
        0 <= i < t.len() && t[i]@[c] is None && (forall|k: int|
            i < k < t.len() ==> (#[trigger] t[k]@[c]) is Some)
}

/// Below any empty cell of a column there is a landing row: an empty row
/// with every row below it occupied.
pub proof fn lemma_exists_drop_row(t: Seq<Vec<Option<u64>>>, c: int, i: int)
    requires
        0 <= i < t.len(),
        t[i]@[c] is None,
    ensures
        exists|j: int|
            0 <= j < t.len() && (#[trigger] t[j]@[c]) is None && (forall|k: int|
                j < k < t.len() ==> (#[trigger] t[k]@[c]) is Some),
    decreases t.len() - i,
{
    if exists|k: int| i < k < t.len() && (#[trigger] t[k]@[c]) is None {
        let k = choose|k: int| i < k < t.len() && (#[trigger] t[k]@[c]) is None;
        lemma_exists_drop_row(t, c, k);
    } else {
        assert(t[i]@[c] is None && (forall|k: int|
            i < k < t.len() ==> (#[trigger] t[k]@[c]) is Some));
    }
}

/// The landing row is unique: any row that is empty with everything below
/// it occupied is `drop_row`.
pub proof fn lemma_drop_row_is(t: Seq<Vec<Option<u64>>>, c: int, i: int)
    requires
        0 <= i < t.len(),
        t[i]@[c] is None,
        forall|k: int| i < k < t.len() ==> (#[trigger] t[k]@[c]) is Some,
    ensures
        drop_row(t, c) == i,
{
    assert(0 <= i < t.len() && t[i]@[c] is None && (forall|k: int|
        i < k < t.len() ==> (#[trigger] t[k]@[c]) is Some));
    let j = drop_row(t, c);
    assert(0 <= j < t.len() && t[j]@[c] is None && (forall|k: int|
        j < k < t.len() ==> (#[trigger] t[k]@[c]) is Some));
    if i < j {
        assert(t[j]@[c] is Some);
    }
    if j < i {
        assert(t[i]@[c] is Some);
    }
}

/// The lowest (largest-index) empty row of `col`: the row a dropped piece
/// lands in, with every cell strictly below it already occupied.
pub fn lowest_empty_row(t: &Vec<Vec<Option<u64>>>, col: usize) -> (r: usize)
    requires
        grid_rect(t@),
        t@.len() >= 1,
        col < t@[0]@.len(),
        t@[0]@[col as int] is None,
    ensures
        r < t@.len(),
        t@[r as int]@[col as int] is None,
        forall|i: int| r < i < t@.len() ==> (#[trigger] t@[i]@[col as int]) is Some,
{
    let mut i: usize = t.len();
    while i > 1
        invariant
            grid_rect(t@),
            1 <= i <= t@.len(),
            col < t@[0]@.len(),
            forall|j: int| i <= j < t@.len() ==> (#[trigger] t@[j]@[col as int]) is Some,
        decreases i,
    {
        i = i - 1;
        if t[i][col].is_none() {
            return i;
        }
    }
    0
}

/// Occupy the cell at `(r, c)` for `o`, leaving every other cell unchanged.
pub fn set_cell(t: &mut Vec<Vec<Option<u64>>>, r: usize, c: usize, o: u64)
    requires
        r < old(t)@.len(),
        c < old(t)@[r as int]@.len(),
    ensures
        final(t)@.len() == old(t)@.len(),
        final(t)@[r as int]@ == old(t)@[r as int]@.update(c as int, Some(o)),
        forall|i: int| 0 <= i < old(t)@.len() && i != r ==> final(t)@[i] == old(t)@[i],
{
    let mut row = t.remove(r);
    row.set(c, Some(o));
    t.insert(r, row);
}

} // verus!
