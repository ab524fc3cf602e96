use vstd::prelude::*;

use vstd::arithmetic::div_mod::{lemma_fundamental_div_mod, lemma_mod_bound};

use crate::color::Color;
use crate::walk::Walk;

verus! {

/// Number of columns on the board.
pub const WIDTH: usize = 7;
/// Number of rows in each column.
pub const HEIGHT: usize = 6;
/// How many matching neighbors, beyond the cell just placed, make a winning
/// segment (together with the placed cell: four in a row).
pub const STEPS: usize = 3;

/// One cell of the grid: empty, or holding a disk of one color. A slot is
/// never cleared once occupied.
pub type Slot = Option<Color>;

/// What an insertion did to the game, beyond placing a disk: completed a
/// winning segment, or filled the last empty slot without a winner. An
/// insertion that does neither reports no effect.
#[derive(Debug, PartialEq, Eq, Structural)]
pub enum Effect {
    CompleteSegment,
    FullBoard,
}

/// A position (x, y) lies on the board.
pub open spec fn in_bounds(x: int, y: int) -> bool {
    0 <= x < WIDTH && 0 <= y < HEIGHT
}

/// The slot at column x, row y of a column-major grid (row 0 is the floor).
pub open spec fn slot_at(s: Seq<Slot>, x: int, y: int) -> Slot {
    s[x * (HEIGHT as int) + y]
}

/// How many slots of the whole grid are empty.
pub open spec fn count_empty(s: Seq<Slot>) -> nat
    decreases s.len(),
{
    if s.len() == 0 {
        0
    } else {
        count_empty(s.drop_last()) + (if s.last() is None { 1nat } else { 0nat })
    }
}

/// Gravity: within each column, the occupied slots sit at the bottom with no
/// gap — a disk at row y rests on a disk at row y - 1.
pub open spec fn gravity_ok(s: Seq<Slot>) -> bool {
    forall|x: int, y: int|
        0 <= x < WIDTH && 1 <= y < HEIGHT && #[trigger] slot_at(s, x, y) is Some
            ==> slot_at(s, x, y - 1) is Some
}

/// How many of the rows [0, y) of column x are occupied.
pub open spec fn occupied_below(s: Seq<Slot>, x: int, y: int) -> nat
    decreases y,
{
    if y <= 0 {
        0
    } else {
        occupied_below(s, x, y - 1) + (if slot_at(s, x, y - 1) is Some { 1nat } else { 0nat })
    }
}

/// The height of the stack of disks in column x.
pub open spec fn col_height(s: Seq<Slot>, x: int) -> nat {
    occupied_below(s, x, HEIGHT as int)
}

/// Column x has no empty slot left.
pub open spec fn col_full(s: Seq<Slot>, x: int) -> bool {
    col_height(s, x) == HEIGHT
}

/// A legal unit step vector: each component in {-1, 0, 1}, not both zero.
pub open spec fn is_step(dx: int, dy: int) -> bool {
    -1 <= dx <= 1 && -1 <= dy <= 1 && !(dx == 0 && dy == 0)
}

/// The length of the run of consecutive slots holding color c, starting at
/// the neighbor of (x, y) in direction (dx, dy) and walking that way. The
/// cell (x, y) itself is not counted. The run ends at the first cell that is
/// off the board, empty, or of the other color.
pub open spec fn run_len(s: Seq<Slot>, c: Color, x: int, y: int, dx: int, dy: int) -> nat
    decreases
        (if dx > 0 {
            WIDTH - x
        } else if dx < 0 {
            x + WIDTH
        } else if dy > 0 {
            HEIGHT - y
        } else {
            y + HEIGHT
        }),
{
    if !is_step(dx, dy) {
        0
    } else if in_bounds(x + dx, y + dy) && slot_at(s, x + dx, y + dy) == Some(c) {
        run_len(s, c, x + dx, y + dy, dx, dy) + 1
    } else {
        0
    }
}

/// The two runs along one axis through (x, y) — in direction (dx, dy) and in
/// its opposite — together reach the winning threshold.
pub open spec fn axis_win(s: Seq<Slot>, c: Color, x: int, y: int, dx: int, dy: int) -> bool {
    run_len(s, c, x, y, dx, dy) + run_len(s, c, x, y, -dx, -dy) >= STEPS
}

/// Placing a disk of color c at (x, y) completed a run of at least four along
/// one of the four axes: vertical, rising diagonal, horizontal, falling
/// diagonal.
pub open spec fn wins(s: Seq<Slot>, c: Color, x: int, y: int) -> bool {
    ||| axis_win(s, c, x, y, 0, 1)
    ||| axis_win(s, c, x, y, 1, 1)
    ||| axis_win(s, c, x, y, 1, 0)
    ||| axis_win(s, c, x, y, 1, -1)
}

/// The glyph that renders one slot.
pub open spec fn glyph(slot: Slot) -> Seq<char> {
    match slot {
        None => "⚫"@,
        Some(Color::Blue) => "🔵"@,
        Some(Color::Red) => "🔴"@,
    }
}

/// The first n cells of row y as text, left to right, single spaces between.
pub open spec fn row_text(s: Seq<Slot>, y: int, n: int) -> Seq<char>
    decreases n,
{
    if n <= 0 {
        Seq::empty()
    } else if n == 1 {
        glyph(slot_at(s, 0, y))
    } else {
        row_text(s, y, n - 1) + " "@ + glyph(slot_at(s, n - 1, y))
    }
}

/// Rows `top` down to `bottom` as text, one row per line: row `top` first,
/// row `bottom` last.
pub open spec fn rows_text(s: Seq<Slot>, top: int, bottom: int) -> Seq<char>
    decreases top - bottom,
{
    if top < bottom {
        Seq::empty()
    } else if top == bottom {
        row_text(s, top, WIDTH as int)
    } else {
        row_text(s, top, WIDTH as int) + "\n"@ + rows_text(s, top - 1, bottom)
    }
}

/// The whole board as text: the top row first, the floor row last.
pub open spec fn board_text(s: Seq<Slot>) -> Seq<char> {
    rows_text(s, HEIGHT - 1, 0)
}

/// The playing board: a WIDTH x HEIGHT grid of slots stored column-major
/// (index x * HEIGHT + y), and a count of the slots still empty.
pub struct Board {
    grid: Vec<Slot>,
    remaining: usize,
}

impl Board {
    /// The grid's contents, as a sequence of WIDTH * HEIGHT slots.
    pub closed spec fn cells(self) -> Seq<Slot> {
        self.grid@
    }

    /// How many empty slots the board says it has left.
    pub closed spec fn slots_left(self) -> nat {
        self.remaining as nat
    }

    /// The board's invariant: the grid has its fixed size, the counter agrees
    /// with the grid, and every column obeys gravity.
    pub open spec fn wf(self) -> bool {
        &&& self.cells().len() == WIDTH * HEIGHT
        &&& self.slots_left() == count_empty(self.cells())
        &&& gravity_ok(self.cells())
    }

    /// A fresh board: every slot empty, all WIDTH * HEIGHT slots remaining.
    pub fn new() -> (b: Board)
        ensures
            b.wf(),
            b.slots_left() == WIDTH * HEIGHT,
            forall|x: int, y: int| in_bounds(x, y) ==> slot_at(b.cells(), x, y) is None,
    {
        let grid: Vec<Slot> = vec![None; WIDTH * HEIGHT];
        proof {
            lemma_count_empty_all_none(grid@);
            assert forall|x: int, y: int| in_bounds(x, y) implies slot_at(grid@, x, y) is None by {
                lemma_cell_index_range(x, y);
            }
        }
        Board { grid, remaining: WIDTH * HEIGHT }
    }

    /// The slot at a position, or nothing if the position lies off the board.
    /// A caller can tell "no such cell" (None) apart from "cell is empty"
    /// (Some(None)).
    pub fn get(&self, position: (usize, usize)) -> (r: Option<&Slot>)
        requires
            self.wf(),
        ensures
            match r {
                Some(slot) => in_bounds(position.0 as int, position.1 as int) && *slot == slot_at(
                    self.cells(),
                    position.0 as int,
                    position.1 as int,
                ),
                None => !in_bounds(position.0 as int, position.1 as int),
            },
    {
        let (x, y) = position;
        if x < WIDTH && y < HEIGHT {
            proof {
                lemma_cell_index_range(x as int, y as int);
            }
            Some(&self.grid[x * HEIGHT + y])
        } else {
            None
        }
    }

    /// One row of the board as text, its cells left to right.
    #[verifier::loop_isolation(false)]
    fn render_row(&self, y: usize) -> (r: String)
        requires
            self.wf(),
            y < HEIGHT,
        ensures
            r@ == row_text(self.cells(), y as int, WIDTH as int),
    {
        let mut line = String::new();
        let mut x: usize = 0;
        while x < WIDTH
            invariant
                x <= WIDTH,
                line@ == row_text(self.cells(), y as int, x as int),
            decreases WIDTH - x,
        {
            if x > 0 {
                line.append(" ");
            }
            proof {
                lemma_cell_index_range(x as int, y as int);
            }
            let slot = self.grid[x * HEIGHT + y];
            match slot {
                None => line.append("⚫"),
                Some(Color::Blue) => line.append("🔵"),
                Some(Color::Red) => line.append("🔴"),
            }
            x += 1;
        }
        line
    }

    /// The board as text for a human: one line per row, the top row first so
    /// the floor ends up at the bottom, each slot as a distinct glyph.
    #[verifier::loop_isolation(false)]
    pub fn render(&self) -> (r: String)
        requires
            self.wf(),
        ensures
            r@ == board_text(self.cells()),
    {
        let mut out = String::new();
        let mut yi: usize = 0;
        while yi < HEIGHT
            invariant
                yi <= HEIGHT,
                yi == 0 ==> out@ == Seq::<char>::empty(),
                yi > 0 ==> out@ == rows_text(self.cells(), HEIGHT - 1, HEIGHT - yi),
            decreases HEIGHT - yi,
        {
            let y = HEIGHT - 1 - yi;
            let line = self.render_row(y);
            if yi > 0 {
                out.append("\n");
                proof {
                    lemma_rows_text_extend(self.cells(), HEIGHT - 1, HEIGHT - yi);
                }
            }
            out.append(line.as_str());
            yi += 1;
        }
        out
    }

    /// Count, but never beyond `budget`, the consecutive cells of `color`
    /// beyond (x, y) in direction (dx, dy).
    #[verifier::loop_isolation(false)]
    fn count_run(&self, color: Color, x: usize, y: usize, dx: isize, dy: isize, budget: usize) -> (n:
        usize)
        requires
            self.wf(),
            x < WIDTH,
            y < HEIGHT,
            is_step(dx as int, dy as int),
        ensures
            n == (if run_len(self.cells(), color, x as int, y as int, dx as int, dy as int)
                <= budget {
                run_len(self.cells(), color, x as int, y as int, dx as int, dy as int)
            } else {
                budget as nat
            }),
    {
        let ghost total = run_len(self.cells(), color, x as int, y as int, dx as int, dy as int);
        let mut walk = Walk::new(self, color, (x, y), (dx, dy));
        let mut n: usize = 0;
        let mut more = true;
        while more && n < budget
            invariant
                walk.wf(),
                n <= budget,
                more ==> n + walk.remaining() == total,
                !more ==> n == total,
            decreases budget - n + (if more {
                1int
            } else {
                0int
            }),
        {
            match walk.next() {
                Some(_) => {
                    n += 1;
                },
                None => {
                    more = false;
                },
            }
        }
        n
    }

    /// Does the axis through (x, y) with unit step (dx, dy) hold a winning
    /// segment for `color`? Probes first ahead, then behind, consuming at
    /// most STEPS cells in all, as one combined bounded walk.
    fn probe_axis(&self, color: Color, x: usize, y: usize, dx: isize, dy: isize) -> (b: bool)
        requires
            self.wf(),
            x < WIDTH,
            y < HEIGHT,
            is_step(dx as int, dy as int),
        ensures
            b == axis_win(self.cells(), color, x as int, y as int, dx as int, dy as int),
    {
        let ahead = self.count_run(color, x, y, dx, dy, STEPS);
        let behind = self.count_run(color, x, y, -dx, -dy, STEPS - ahead);
        ahead + behind == STEPS
    }

    /// Drop a disk of `color` into column x. If the column is full, fail with
    /// that column's index and change nothing. Otherwise the disk lands on
    /// the column's stack; the call reports a completed winning segment, a
    /// full board (last slot just taken, no winner), or — the common case —
    /// nothing.
    #[verifier::loop_isolation(false)]
    pub fn insert(&mut self, x: usize, color: Color) -> (r: Result<Option<Effect>, usize>)
        requires
            old(self).wf(),
            x < WIDTH,
        ensures
            final(self).wf(),
            col_full(old(self).cells(), x as int) ==> {
                &&& r == Err::<Option<Effect>, usize>(x)
                &&& final(self).cells() == old(self).cells()
                &&& final(self).slots_left() == old(self).slots_left()
            },
            !col_full(old(self).cells(), x as int) ==> {
                let y = col_height(old(self).cells(), x as int) as int;
                &&& final(self).cells() == old(self).cells().update(
                    (x as int) * (HEIGHT as int) + y,
                    Some(color),
                )
                &&& final(self).slots_left() + 1 == old(self).slots_left()
                &&& r == Ok::<Option<Effect>, usize>(
                    if wins(final(self).cells(), color, x as int, y) {
                        Some(Effect::CompleteSegment)
                    } else if final(self).slots_left() == 0 {
                        Some(Effect::FullBoard)
                    } else {
                        None
                    },
                )
            },
    {
        let ghost s0 = old(self).cells();
        // scan the column from the floor for its lowest empty slot
        let mut y: usize = 0;
        let mut searching = true;
        while searching && y < HEIGHT
            invariant
                y <= HEIGHT,
                forall|j: int| 0 <= j < y ==> slot_at(s0, x as int, j) is Some,
                !searching ==> y < HEIGHT && slot_at(s0, x as int, y as int) is None,
            decreases HEIGHT - y + (if searching {
                1int
            } else {
                0int
            }),
        {
            proof {
                lemma_cell_index_range(x as int, y as int);
            }
            if self.grid[x * HEIGHT + y].is_none() {
                searching = false;
            } else {
                y += 1;
            }
        }
        proof {
            lemma_col_height_from_scan(s0, x as int, y as int);
        }
        if y == HEIGHT {
            return Err(x);
        }
        // place the disk and adjust the counter
        let idx = x * HEIGHT + y;
        proof {
            lemma_cell_index_range(x as int, y as int);
            lemma_count_empty_update(s0, idx as int, color);
            lemma_gravity_after_place(s0, x as int, y as int, color);
        }
        self.grid[idx] = Some(color);
        self.remaining = self.remaining - 1;
        // probe the four axes through the placed cell for a winning segment
        let won = self.probe_axis(color, x, y, 0, 1) || self.probe_axis(color, x, y, 1, 1)
            || self.probe_axis(color, x, y, 1, 0) || self.probe_axis(color, x, y, 1, -1);
        if won {
            Ok(Some(Effect::CompleteSegment))
        } else if self.remaining == 0 {
            Ok(Some(Effect::FullBoard))
        } else {
            Ok(None)
        }
    }
}

/// A position on the board indexes into the grid's range.
proof fn lemma_cell_index_range(x: int, y: int)
    requires
        in_bounds(x, y),
    ensures
        0 <= x * (HEIGHT as int) + y < WIDTH * HEIGHT,
{
    assert(x * (HEIGHT as int) <= (WIDTH - 1) * (HEIGHT as int)) by (nonlinear_arith)
        requires 0 <= x <= WIDTH - 1;
    assert(0 <= x * (HEIGHT as int)) by (nonlinear_arith)
        requires 0 <= x;
}

/// Distinct positions on the board use distinct grid indices.
proof fn lemma_cell_index_injective(x1: int, y1: int, x2: int, y2: int)
    requires
        in_bounds(x1, y1),
        in_bounds(x2, y2),
        x1 * (HEIGHT as int) + y1 == x2 * (HEIGHT as int) + y2,
    ensures
        x1 == x2 && y1 == y2,
{
    assert(x1 == x2 && y1 == y2) by (nonlinear_arith)
        requires
            0 <= x1 < WIDTH,
            0 <= y1 < HEIGHT,
            0 <= x2 < WIDTH,
            0 <= y2 < HEIGHT,
            x1 * (HEIGHT as int) + y1 == x2 * (HEIGHT as int) + y2;
}

/// Filling one empty slot lowers the count of empty slots by exactly one.
proof fn lemma_count_empty_update(s: Seq<Slot>, i: int, c: Color)
    requires
        0 <= i < s.len(),
        s[i] is None,
    ensures
        count_empty(s) >= 1,
        count_empty(s.update(i, Some(c))) + 1 == count_empty(s),
    decreases s.len(),
{
    let s1 = s.update(i, Some(c));
    if i == s.len() - 1 {
        assert(s1.drop_last() =~= s.drop_last());
    } else {
        lemma_count_empty_update(s.drop_last(), i, c);
        assert(s1.drop_last() =~= s.drop_last().update(i, Some(c)));
        assert(s1.last() == s.last());
    }
}

/// Under gravity, everything above an empty slot in its column is empty too.
proof fn lemma_none_above(s: Seq<Slot>, x: int, y: int, j: int)
    requires
        gravity_ok(s),
        0 <= x < WIDTH,
        0 <= y <= j,
        j < HEIGHT,
        slot_at(s, x, y) is None,
    ensures
        slot_at(s, x, j) is None,
    decreases j - y,
{
    if j > y {
        lemma_none_above(s, x, y, j - 1);
        if slot_at(s, x, j) is Some {
            assert(slot_at(s, x, j - 1) is Some);
        }
    }
}

/// Under gravity, everything below an occupied slot in its column is occupied.
proof fn lemma_some_below(s: Seq<Slot>, x: int, y: int, j: int)
    requires
        gravity_ok(s),
        0 <= x < WIDTH,
        0 <= j <= y,
        y < HEIGHT,
        slot_at(s, x, y) is Some,
    ensures
        slot_at(s, x, j) is Some,
    decreases y - j,
{
    if j < y {
        assert(slot_at(s, x, y - 1) is Some);
        lemma_some_below(s, x, y - 1, j);
    }
}

/// Counting the occupied rows of a column whose stack has shape h: rows
/// [0, h) occupied, everything from h on empty.
proof fn lemma_occupied_below_of_stack(s: Seq<Slot>, x: int, h: int, k: int)
    requires
        0 <= h <= HEIGHT,
        0 <= k <= HEIGHT,
        forall|j: int| 0 <= j < h ==> slot_at(s, x, j) is Some,
        forall|j: int| h <= j < HEIGHT ==> slot_at(s, x, j) is None,
    ensures
        occupied_below(s, x, k) == (if k <= h {
            k
        } else {
            h
        }),
    decreases k,
{
    if k > 0 {
        lemma_occupied_below_of_stack(s, x, h, k - 1);
    }
}

/// A scan from the floor that found rows [0, y) occupied and (if y is still
/// on the board) row y empty has found the column's height.
proof fn lemma_col_height_from_scan(s: Seq<Slot>, x: int, y: int)
    requires
        gravity_ok(s),
        0 <= x < WIDTH,
        0 <= y <= HEIGHT,
        forall|j: int| 0 <= j < y ==> slot_at(s, x, j) is Some,
        y < HEIGHT ==> slot_at(s, x, y) is None,
    ensures
        col_height(s, x) == y,
{
    if y < HEIGHT {
        assert forall|j: int| y <= j < HEIGHT implies slot_at(s, x, j) is None by {
            lemma_none_above(s, x, y, j);
        }
    }
    lemma_occupied_below_of_stack(s, x, y, HEIGHT as int);
}

/// Placing a disk right on top of a column's stack keeps gravity intact.
proof fn lemma_gravity_after_place(s: Seq<Slot>, x: int, y: int, c: Color)
    requires
        s.len() == WIDTH * HEIGHT,
        gravity_ok(s),
        in_bounds(x, y),
        forall|j: int| 0 <= j < y ==> slot_at(s, x, j) is Some,
    ensures
        gravity_ok(s.update(x * (HEIGHT as int) + y, Some(c))),
{
    let i = x * (HEIGHT as int) + y;
    let s1 = s.update(i, Some(c));
    lemma_cell_index_range(x, y);
    assert forall|x2: int, y2: int|
        0 <= x2 < WIDTH && 1 <= y2 < HEIGHT && #[trigger] slot_at(s1, x2, y2) is Some implies slot_at(
        s1,
        x2,
        y2 - 1,
    ) is Some by {
        lemma_cell_index_range(x2, y2);
        lemma_cell_index_range(x2, y2 - 1);
        if x2 * (HEIGHT as int) + (y2 - 1) == i {
            // the cell below is the one just filled
            lemma_cell_index_injective(x2, y2 - 1, x, y);
        } else {
            // the cell below kept its old contents
            if x2 * (HEIGHT as int) + y2 == i {
                // the occupied cell is the one just filled: it rests on the
                // scanned stack
                lemma_cell_index_injective(x2, y2, x, y);
                assert(slot_at(s, x, y - 1) is Some);
            } else {
                // both cells kept their old contents: gravity held before
                assert(slot_at(s, x2, y2) is Some);
            }
        }
    }
}

/// A grid with only empty slots has as many empty slots as it has slots.
proof fn lemma_count_empty_all_none(s: Seq<Slot>)
    requires
        forall|i: int| 0 <= i < s.len() ==> s[i] is None,
    ensures
        count_empty(s) == s.len(),
    decreases s.len(),
{
    if s.len() > 0 {
        lemma_count_empty_all_none(s.drop_last());
    }
}

/// One more row of text under a block of rendered rows extends the block by
/// a line break and that row.
proof fn lemma_rows_text_extend(s: Seq<Slot>, top: int, b: int)
    requires
        b <= top,
    ensures
        rows_text(s, top, b) + "\n"@ + row_text(s, b - 1, WIDTH as int) == rows_text(
            s,
            top,
            b - 1,
        ),
    decreases top - b,
{
    if top == b {
        assert(rows_text(s, top - 1, b - 1) == row_text(s, b - 1, WIDTH as int));
        assert(rows_text(s, top, b - 1) == row_text(s, top, WIDTH as int) + "\n"@ + rows_text(
            s,
            top - 1,
            b - 1,
        ));
    } else {
        lemma_rows_text_extend(s, top - 1, b);
        let head = row_text(s, top, WIDTH as int) + "\n"@;
        let rest = rows_text(s, top - 1, b);
        let tail = "\n"@ + row_text(s, b - 1, WIDTH as int);
        vstd::seq_lib::lemma_concat_associative(head, rest, tail);
        assert(rest + tail =~= rest + "\n"@ + row_text(s, b - 1, WIDTH as int));
        assert(rows_text(s, top, b) + "\n"@ + row_text(s, b - 1, WIDTH as int) =~= head + (rest
            + tail));
    }
}

/// A column's occupied-row count never exceeds the rows counted.
proof fn lemma_occupied_below_le(s: Seq<Slot>, x: int, k: int)
    requires
        0 <= k,
    ensures
        occupied_below(s, x, k) <= k,
    decreases k,
{
    if k > 0 {
        lemma_occupied_below_le(s, x, k - 1);
    }
}

/// A column whose rows [0, m) are all occupied counts at least m occupied
/// rows.
proof fn lemma_occupied_lower_bound(s: Seq<Slot>, x: int, m: int, k: int)
    requires
        0 <= m <= k,
        forall|j: int| 0 <= j < m ==> slot_at(s, x, j) is Some,
    ensures
        occupied_below(s, x, k) >= m,
    decreases k,
{
    if k > 0 {
        if k > m {
            lemma_occupied_lower_bound(s, x, m, k - 1);
        } else {
            lemma_occupied_lower_bound(s, x, m - 1, k - 1);
        }
    }
}

/// The slot just above a stack that has not reached the ceiling is empty.
proof fn lemma_top_of_stack_empty(s: Seq<Slot>, x: int)
    requires
        gravity_ok(s),
        0 <= x < WIDTH,
        col_height(s, x) < HEIGHT,
    ensures
        slot_at(s, x, col_height(s, x) as int) is None,
{
    let h = col_height(s, x) as int;
    if slot_at(s, x, h) is Some {
        assert forall|j: int| 0 <= j < h + 1 implies slot_at(s, x, j) is Some by {
            lemma_some_below(s, x, h, j);
        }
        lemma_occupied_lower_bound(s, x, h + 1, HEIGHT as int);
    }
}

/// Filling the slot at (x, y) touches only column x's occupied count, and
/// that by exactly one.
proof fn lemma_occupied_below_update(s: Seq<Slot>, x: int, y: int, c: Color, x2: int, k: int)
    requires
        s.len() == WIDTH * HEIGHT,
        in_bounds(x, y),
        slot_at(s, x, y) is None,
        0 <= x2 < WIDTH,
        0 <= k <= HEIGHT,
    ensures
        occupied_below(s.update(x * (HEIGHT as int) + y, Some(c)), x2, k) == occupied_below(
            s,
            x2,
            k,
        ) + (if x2 == x && y < k {
            1nat
        } else {
            0nat
        }),
    decreases k,
{
    if k > 0 {
        lemma_occupied_below_update(s, x, y, c, x2, k - 1);
        lemma_cell_index_range(x, y);
        lemma_cell_index_range(x2, k - 1);
        if x2 * (HEIGHT as int) + (k - 1) == x * (HEIGHT as int) + y {
            lemma_cell_index_injective(x2, k - 1, x, y);
        }
    }
}

/// Dropping a disk into a column that is not full lands on an empty slot at
/// the column's current height: that column's height rises by exactly one,
/// and every other column's height is unchanged.
pub proof fn lemma_insert_raises_height(s: Seq<Slot>, x: int, c: Color)
    requires
        s.len() == WIDTH * HEIGHT,
        gravity_ok(s),
        0 <= x < WIDTH,
        !col_full(s, x),
    ensures
        slot_at(s, x, col_height(s, x) as int) is None,
        col_height(s.update(x * (HEIGHT as int) + col_height(s, x), Some(c)), x) == col_height(
            s,
            x,
        ) + 1,
        forall|x2: int|
            0 <= x2 < WIDTH && x2 != x ==> col_height(
                s.update(x * (HEIGHT as int) + col_height(s, x), Some(c)),
                x2,
            ) == col_height(s, x2),
{
    let h = col_height(s, x) as int;
    lemma_occupied_below_le(s, x, HEIGHT as int);
    lemma_top_of_stack_empty(s, x);
    lemma_occupied_below_update(s, x, h, c, x, HEIGHT as int);
    assert forall|x2: int| 0 <= x2 < WIDTH && x2 != x implies col_height(
        s.update(x * (HEIGHT as int) + h, Some(c)),
        x2,
    ) == col_height(s, x2) by {
        lemma_occupied_below_update(s, x, h, c, x2, HEIGHT as int);
    }
}

/// A grid has no empty slot exactly when each of its slots is occupied.
proof fn lemma_count_empty_zero_iff(s: Seq<Slot>)
    ensures
        (count_empty(s) == 0) <==> (forall|i: int| 0 <= i < s.len() ==> s[i] is Some),
    decreases s.len(),
{
    if s.len() > 0 {
        lemma_count_empty_zero_iff(s.drop_last());
        assert(forall|i: int| 0 <= i < s.len() - 1 ==> s.drop_last()[i] == s[i]);
    }
}

/// The board runs out of empty slots exactly when every one of its WIDTH x
/// HEIGHT positions is occupied.
pub proof fn lemma_board_full_means_all_occupied(s: Seq<Slot>)
    requires
        s.len() == WIDTH * HEIGHT,
    ensures
        (count_empty(s) == 0) <==> (forall|x: int, y: int|
            in_bounds(x, y) ==> slot_at(s, x, y) is Some),
{
    lemma_count_empty_zero_iff(s);
    if forall|x: int, y: int| in_bounds(x, y) ==> slot_at(s, x, y) is Some {
        assert forall|i: int| 0 <= i < s.len() implies s[i] is Some by {
            lemma_fundamental_div_mod(i, HEIGHT as int);
            lemma_mod_bound(i, HEIGHT as int);
            let xq = i / (HEIGHT as int);
            let yr = i % (HEIGHT as int);
            assert(in_bounds(xq, yr));
            assert(slot_at(s, xq, yr) is Some);
            assert(xq * (HEIGHT as int) + yr == i);
        }
    }
    if count_empty(s) == 0 {
        assert forall|x: int, y: int| in_bounds(x, y) implies slot_at(s, x, y) is Some by {
            lemma_cell_index_range(x, y);
        }
    }
}

/// Cell i of the line that starts at (x0, y0) and advances by (dx, dy) lies
/// on the board and holds a disk of color c.
pub open spec fn line_cell(
    s: Seq<Slot>,
    c: Color,
    x0: int,
    y0: int,
    dx: int,
    dy: int,
    i: int,
) -> bool {
    in_bounds(x0 + i * dx, y0 + i * dy) && slot_at(s, x0 + i * dx, y0 + i * dy) == Some(c)
}

/// Where the m cells beyond (x, y) in direction (dx, dy) all hold color c,
/// the run in that direction reaches at least m.
proof fn lemma_run_at_least(s: Seq<Slot>, c: Color, x: int, y: int, dx: int, dy: int, m: int)
    requires
        is_step(dx, dy),
        0 <= m,
        forall|i: int| 1 <= i <= m ==> #[trigger] line_cell(s, c, x, y, dx, dy, i),
    ensures
        run_len(s, c, x, y, dx, dy) >= m,
    decreases m,
{
    if m > 0 {
        assert(line_cell(s, c, x, y, dx, dy, 1));
        assert(in_bounds(x + dx, y + dy) && slot_at(s, x + dx, y + dy) == Some(c));
        assert forall|i: int| 1 <= i <= m - 1 implies #[trigger] line_cell(
            s,
            c,
            x + dx,
            y + dy,
            dx,
            dy,
            i,
        ) by {
            assert(line_cell(s, c, x, y, dx, dy, i + 1));
            assert((x + dx) + i * dx == x + (i + 1) * dx) by (nonlinear_arith);
            assert((y + dy) + i * dy == y + (i + 1) * dy) by (nonlinear_arith);
        }
        lemma_run_at_least(s, c, x + dx, y + dy, dx, dy, m - 1);
    }
}

/// A straight line of at least four same-color cells wins at whichever of
/// its cells was placed last — at an end or anywhere in the middle — and a
/// line of five or more wins just the same.
pub proof fn lemma_line_through_cell_wins(
    s: Seq<Slot>,
    c: Color,
    x0: int,
    y0: int,
    dx: int,
    dy: int,
    len: int,
    j: int,
)
    requires
        is_step(dx, dy),
        4 <= len,
        0 <= j < len,
        forall|i: int| 0 <= i < len ==> #[trigger] line_cell(s, c, x0, y0, dx, dy, i),
    ensures
        wins(s, c, x0 + j * dx, y0 + j * dy),
{
    let x = x0 + j * dx;
    let y = y0 + j * dy;
    assert forall|i: int| 1 <= i <= len - 1 - j implies #[trigger] line_cell(
        s,
        c,
        x,
        y,
        dx,
        dy,
        i,
    ) by {
        assert(line_cell(s, c, x0, y0, dx, dy, j + i));
        assert((x0 + j * dx) + i * dx == x0 + (j + i) * dx) by (nonlinear_arith);
        assert((y0 + j * dy) + i * dy == y0 + (j + i) * dy) by (nonlinear_arith);
    }
    lemma_run_at_least(s, c, x, y, dx, dy, len - 1 - j);
    assert forall|i: int| 1 <= i <= j implies #[trigger] line_cell(s, c, x, y, -dx, -dy, i) by {
        assert(line_cell(s, c, x0, y0, dx, dy, j - i));
        assert((x0 + j * dx) + i * (-dx) == x0 + (j - i) * dx) by (nonlinear_arith);
        assert((y0 + j * dy) + i * (-dy) == y0 + (j - i) * dy) by (nonlinear_arith);
    }
    lemma_run_at_least(s, c, x, y, -dx, -dy, j);
    assert(run_len(s, c, x, y, dx, dy) + run_len(s, c, x, y, -dx, -dy) >= len - 1);
    if dy == 0 {
        assert(axis_win(s, c, x, y, 1, 0));
    } else if dx == 0 {
        assert(axis_win(s, c, x, y, 0, 1));
    } else if dx == dy {
        assert(axis_win(s, c, x, y, 1, 1));
    } else {
        assert(axis_win(s, c, x, y, 1, -1));
    }
}

/// Completing a line of four at its one end, its other end or in the middle
/// behaves identically: whichever of the line's cells is the one placed
/// last, the placement wins.
pub proof fn lemma_completion_spot_immaterial(
    s: Seq<Slot>,
    c: Color,
    x0: int,
    y0: int,
    dx: int,
    dy: int,
    len: int,
    j1: int,
    j2: int,
)
    requires
        is_step(dx, dy),
        4 <= len,
        0 <= j1 < len,
        0 <= j2 < len,
        forall|i: int| 0 <= i < len ==> #[trigger] line_cell(s, c, x0, y0, dx, dy, i),
    ensures
        wins(s, c, x0 + j1 * dx, y0 + j1 * dy) <==> wins(s, c, x0 + j2 * dx, y0 + j2 * dy),
{
    lemma_line_through_cell_wins(s, c, x0, y0, dx, dy, len, j1);
    lemma_line_through_cell_wins(s, c, x0, y0, dx, dy, len, j2);
}

} // verus!
