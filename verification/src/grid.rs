//! The mathematical model of a board: what one generation does to it, and
//! which changes lead from one board to another.

use crate::life::{LifeStatus, LifeStatusDiff};
use vstd::prelude::*;

verus! {

/// A board as a mathematical value: `rows[y][x]` is the cell at `(x, y)`.
pub struct Grid {
    pub width: nat,
    pub height: nat,
    pub rows: Seq<Seq<LifeStatus>>,
}

impl Grid {
    /// There are `height` rows of `width` cells each.
    pub open spec fn wf(self) -> bool {
        &&& self.rows.len() == self.height
        &&& forall|y: int| 0 <= y < self.height ==> (#[trigger] self.rows[y]).len() == self.width
    }

    /// The cell at `(x, y)`.
    pub open spec fn at(self, x: int, y: int) -> LifeStatus {
        self.rows[y][x]
    }

    /// `(x, y)` addresses a cell of the board.
    pub open spec fn contains(self, x: int, y: int) -> bool {
        0 <= x < self.width && 0 <= y < self.height
    }

    /// The two boards have the same dimensions.
    pub open spec fn same_shape(self, other: Grid) -> bool {
        self.width == other.width && self.height == other.height
    }

    /// The board whose cells all have the given status.
    pub open spec fn filled(width: nat, height: nat, status: LifeStatus) -> Grid {
        Grid {
            width,
            height,
            rows: Seq::new(height, |y: int| Seq::new(width, |x: int| status)),
        }
    }

    /// The board on which nothing lives.
    pub open spec fn blank(width: nat, height: nat) -> Grid {
        Grid::filled(width, height, LifeStatus::Dead)
    }

    /// The board with every cell flipped.
    pub open spec fn inverted(self) -> Grid {
        Grid {
            width: self.width,
            height: self.height,
            rows: Seq::new(
                self.height,
                |y: int| Seq::new(self.width, |x: int| self.at(x, y).flipped()),
            ),
        }
    }

    /// The board with the cell at `(x, y)` replaced.
    pub open spec fn with_cell(self, x: int, y: int, status: LifeStatus) -> Grid {
        Grid {
            width: self.width,
            height: self.height,
            rows: self.rows.update(y, self.rows[y].update(x, status)),
        }
    }

    /// 1 if the cell that `(x, y)` wraps around to is alive, else 0. The
    /// board is a torus: coordinates are taken modulo its dimensions, so
    /// `-1` is the last column or row and `width` is the first again.
    pub open spec fn alive_at(self, x: int, y: int) -> int {
        if self.at(x % (self.width as int), y % (self.height as int)) == LifeStatus::Alive {
            1
        } else {
            0
        }
    }

    /// How many of the eight positions around `(x, y)` are alive.
    pub open spec fn neighbours(self, x: int, y: int) -> int {
        self.alive_at(x - 1, y - 1) + self.alive_at(x, y - 1) + self.alive_at(x + 1, y - 1)
            + self.alive_at(x - 1, y) + self.alive_at(x + 1, y) + self.alive_at(x - 1, y + 1)
            + self.alive_at(x, y + 1) + self.alive_at(x + 1, y + 1)
    }

    /// The status of the cell at `(x, y)` one generation later: alive with
    /// three living neighbours, unchanged with two, dead otherwise.
    pub open spec fn next_status(self, x: int, y: int) -> LifeStatus {
        let n = self.neighbours(x, y);
        if n == 3 {
            LifeStatus::Alive
        } else if n == 2 {
            self.at(x, y)
        } else {
            LifeStatus::Dead
        }
    }

    /// The board one generation later, every cell computed from this one.
    pub open spec fn next(self) -> Grid {
        Grid {
            width: self.width,
            height: self.height,
            rows: Seq::new(
                self.height,
                |y: int| Seq::new(self.width, |x: int| self.next_status(x, y)),
            ),
        }
    }

    /// The board after the changes have been written to it, one after the
    /// other.
    pub open spec fn apply(self, diffs: Seq<LifeStatusDiff>) -> Grid
        decreases diffs.len(),
    {
        if diffs.len() == 0 {
            self
        } else {
            let d = diffs.last();
            self.apply(diffs.drop_last()).with_cell(d.x as int, d.y as int, d.status)
        }
    }
}

/// The changes among the first `n` cells of row `y`, from left to right: one
/// for each cell whose status in `after` differs from that in `before`,
/// carrying the new status.
pub open spec fn row_changes(
    before: Seq<LifeStatus>,
    after: Seq<LifeStatus>,
    y: int,
    n: int,
) -> Seq<LifeStatusDiff>
    decreases n,
{
    if n <= 0 {
        Seq::empty()
    } else {
        let left = row_changes(before, after, y, n - 1);
        if before[n - 1] != after[n - 1] {
            left.push(LifeStatusDiff { x: (n - 1) as u16, y: y as u16, status: after[n - 1] })
        } else {
            left
        }
    }
}

/// The changes in the first `n` rows, row after row.
pub open spec fn changes_in_rows(before: Grid, after: Grid, n: int) -> Seq<LifeStatusDiff>
    decreases n,
{
    if n <= 0 {
        Seq::empty()
    } else {
        changes_in_rows(before, after, n - 1) + row_changes(
            before.rows[n - 1],
            after.rows[n - 1],
            n - 1,
            before.width as int,
        )
    }
}

/// The changes that lead from `before` to `after`, a board of the same
/// shape: exactly the cells that differ, in row-major order (`y` ascending,
/// then `x` ascending), each with its status in `after`.
pub open spec fn changes(before: Grid, after: Grid) -> Seq<LifeStatusDiff> {
    changes_in_rows(before, after, before.height as int)
}

/// Coordinates one step off a line of `n` cells wrap around to its other
/// end, and those on it stay.
pub proof fn lemma_wrap(i: int, n: int)
    requires
        n > 0,
        -1 <= i <= n,
    ensures
        i % n == if i == -1 {
            n - 1
        } else if i == n {
            0
        } else {
            i
        },
{
    if i == -1 {
        vstd::arithmetic::div_mod::lemma_fundamental_div_mod_converse(i, n, -1, n - 1);
    } else if i == n {
        vstd::arithmetic::div_mod::lemma_fundamental_div_mod_converse(i, n, 1, 0);
    } else {
        vstd::arithmetic::div_mod::lemma_fundamental_div_mod_converse(i, n, 0, i);
    }
}

/// Writing a list of changes and then one more is writing the longer list.
pub proof fn lemma_apply_push(grid: Grid, diffs: Seq<LifeStatusDiff>, d: LifeStatusDiff)
    ensures
        grid.apply(diffs.push(d)) == grid.apply(diffs).with_cell(d.x as int, d.y as int, d.status),
{
    assert(diffs.push(d).drop_last() =~= diffs);
}

/// `before` with its first `n` rows, and the first `m` cells of the row
/// after them, taken from `after`.
spec fn patched(before: Grid, after: Grid, n: int, m: int) -> Grid {
    Grid {
        width: before.width,
        height: before.height,
        rows: Seq::new(
            before.height,
            |y: int|
                Seq::new(
                    before.width,
                    |x: int|
                        if y < n || (y == n && x < m) {
                            after.at(x, y)
                        } else {
                            before.at(x, y)
                        },
                ),
        ),
    }
}

/// Two boards of one shape, neither wider nor higher than a coordinate can
/// say.
pub open spec fn comparable(before: Grid, after: Grid) -> bool {
    &&& before.wf()
    &&& after.wf()
    &&& before.same_shape(after)
    &&& before.width <= 0x1_0000
    &&& before.height <= 0x1_0000
}

/// Writing the changes of the first `n` rows and of the first `m` cells of
/// the next row turns `before` into `after` on exactly those cells.
proof fn lemma_apply_partial(before: Grid, after: Grid, n: int, m: int)
    requires
        comparable(before, after),
        0 <= n <= before.height,
        0 <= m <= before.width,
        n == before.height ==> m == 0,
    ensures
        before.apply(
            changes_in_rows(before, after, n) + row_changes(
                before.rows[n],
                after.rows[n],
                n,
                m,
            ),
        ) == patched(before, after, n, m),
    decreases n, m,
{
    let done = changes_in_rows(before, after, n);
    let row = row_changes(before.rows[n], after.rows[n], n, m);
    if m == 0 {
        assert(done + row =~= done);
        if n == 0 {
            assert(patched(before, after, 0, 0).rows =~~= before.rows);
        } else {
            lemma_apply_partial(before, after, n - 1, before.width as int);
            assert(patched(before, after, n - 1, before.width as int).rows =~~= patched(
                before,
                after,
                n,
                0,
            ).rows);
        }
    } else {
        lemma_apply_partial(before, after, n, m - 1);
        let left = row_changes(before.rows[n], after.rows[n], n, m - 1);
        let earlier = patched(before, after, n, m - 1);
        if before.rows[n][m - 1] != after.rows[n][m - 1] {
            let d = LifeStatusDiff { x: (m - 1) as u16, y: n as u16, status: after.rows[n][m - 1] };
            assert(done + row =~= (done + left).push(d));
            lemma_apply_push(before, done + left, d);
            assert(earlier.with_cell(m - 1, n, d.status).rows =~~= patched(
                before,
                after,
                n,
                m,
            ).rows);
        } else {
            assert(earlier.rows =~~= patched(before, after, n, m).rows);
        }
    }
}

/// Applying the changes between two boards to the first one yields the
/// second one.
pub proof fn lemma_apply_changes(before: Grid, after: Grid)
    requires
        comparable(before, after),
    ensures
        before.apply(changes(before, after)) == after,
{
    let h = before.height as int;
    lemma_apply_partial(before, after, h, 0);
    assert(changes(before, after) + row_changes(before.rows[h], after.rows[h], h, 0)
        =~= changes(before, after));
    assert(patched(before, after, h, 0).rows =~~= after.rows);
}

/// `(x1, y1)` comes before `(x2, y2)` in row-major order.
pub open spec fn precedes(x1: int, y1: int, x2: int, y2: int) -> bool {
    y1 < y2 || (y1 == y2 && x1 < x2)
}

/// `d` names a cell of the board whose status differs between the two
/// boards, and carries its status in `after`.
pub open spec fn is_change(before: Grid, after: Grid, d: LifeStatusDiff) -> bool {
    &&& before.contains(d.x as int, d.y as int)
    &&& before.at(d.x as int, d.y as int) != after.at(d.x as int, d.y as int)
    &&& d.status == after.at(d.x as int, d.y as int)
}

/// The change that gives the cell at `(x, y)` the status it has in `grid`.
pub open spec fn change_to(grid: Grid, x: int, y: int) -> LifeStatusDiff {
    LifeStatusDiff { x: x as u16, y: y as u16, status: grid.at(x, y) }
}

/// The place of `a` comes before that of `b` in row-major order.
pub open spec fn reported_before(a: LifeStatusDiff, b: LifeStatusDiff) -> bool {
    precedes(a.x as int, a.y as int, b.x as int, b.y as int)
}

/// The changes among the cells that come before `(m, n)`.
pub open spec fn changes_before(before: Grid, after: Grid, n: int, m: int) -> Seq<LifeStatusDiff> {
    changes_in_rows(before, after, n) + row_changes(before.rows[n], after.rows[n], n, m)
}

/// The changes among the cells before `(m, n)` are sound, ordered and
/// complete: each is a change of a cell before `(m, n)`, they ascend in
/// row-major order, and every differing cell before `(m, n)` has its
/// change.
proof fn lemma_changes_before(before: Grid, after: Grid, n: int, m: int)
    requires
        comparable(before, after),
        0 <= n <= before.height,
        0 <= m <= before.width,
        n == before.height ==> m == 0,
    ensures
        forall|k: int|
            0 <= k < changes_before(before, after, n, m).len() ==> is_change(
                before,
                after,
                #[trigger] changes_before(before, after, n, m)[k],
            ),
        forall|k: int|
            0 <= k < changes_before(before, after, n, m).len() ==> precedes(
                (#[trigger] changes_before(before, after, n, m)[k]).x as int,
                changes_before(before, after, n, m)[k].y as int,
                m,
                n,
            ),
        forall|i: int, j: int|
            0 <= i < j < changes_before(before, after, n, m).len() ==> reported_before(
                #[trigger] changes_before(before, after, n, m)[i],
                #[trigger] changes_before(before, after, n, m)[j],
            ),
        forall|x: int, y: int|
            before.contains(x, y) && precedes(x, y, m, n) && before.at(x, y) != after.at(x, y)
                ==> changes_before(before, after, n, m).contains(#[trigger] change_to(after, x, y)),
    decreases n, m,
{
    let now = changes_before(before, after, n, m);
    if m == 0 {
        if n == 0 {
            assert(now =~= Seq::empty());
        } else {
            lemma_changes_before(before, after, n - 1, before.width as int);
            assert(now =~= changes_before(before, after, n - 1, before.width as int));
        }
    } else {
        lemma_changes_before(before, after, n, m - 1);
        let earlier = changes_before(before, after, n, m - 1);
        if before.rows[n][m - 1] != after.rows[n][m - 1] {
            let d = LifeStatusDiff { x: (m - 1) as u16, y: n as u16, status: after.rows[n][m - 1] };
            assert(now =~= earlier.push(d));
            assert forall|x: int, y: int|
                before.contains(x, y) && precedes(x, y, m, n) && before.at(x, y) != after.at(
                    x,
                    y,
                ) implies now.contains(#[trigger] change_to(after, x, y)) by {
                let c = change_to(after, x, y);
                if x == m - 1 && y == n {
                    assert(now[earlier.len() as int] == c);
                } else {
                    let k = choose|k: int| 0 <= k < earlier.len() && earlier[k] == c;
                    assert(now[k] == c);
                }
            }
        } else {
            assert(now =~= earlier);
        }
    }
}

/// Every change that is reported names a cell of the board that differs
/// between the two boards and carries its new status; nothing else is
/// reported.
pub proof fn lemma_changes_sound(before: Grid, after: Grid)
    requires
        comparable(before, after),
    ensures
        forall|k: int|
            0 <= k < changes(before, after).len() ==> is_change(
                before,
                after,
                #[trigger] changes(before, after)[k],
            ),
{
    let h = before.height as int;
    lemma_changes_before(before, after, h, 0);
    assert(changes_before(before, after, h, 0) =~= changes(before, after));
}

/// Every cell that differs between the two boards has its change
/// reported.
pub proof fn lemma_changes_complete(before: Grid, after: Grid, x: int, y: int)
    requires
        comparable(before, after),
        before.contains(x, y),
        before.at(x, y) != after.at(x, y),
    ensures
        changes(before, after).contains(change_to(after, x, y)),
{
    let h = before.height as int;
    lemma_changes_before(before, after, h, 0);
    assert(changes_before(before, after, h, 0) =~= changes(before, after));
}

/// The changes are reported in row-major order, so no cell is reported
/// twice.
pub proof fn lemma_changes_ordered(before: Grid, after: Grid, i: int, j: int)
    requires
        comparable(before, after),
        0 <= i < j < changes(before, after).len(),
    ensures
        reported_before(changes(before, after)[i], changes(before, after)[j]),
{
    let h = before.height as int;
    lemma_changes_before(before, after, h, 0);
    assert(changes_before(before, after, h, 0) =~= changes(before, after));
}

/// Between a board and itself there are no changes.
pub proof fn lemma_no_changes(grid: Grid)
    requires
        comparable(grid, grid),
    ensures
        changes(grid, grid) == Seq::<LifeStatusDiff>::empty(),
{
    lemma_changes_sound(grid, grid);
    if changes(grid, grid).len() > 0 {
        assert(is_change(grid, grid, changes(grid, grid)[0]));
    }
    assert(changes(grid, grid) =~= Seq::empty());
}

/// The changes of a row depend only on the cells that were compared.
pub proof fn lemma_row_changes_frame(
    before1: Seq<LifeStatus>,
    after1: Seq<LifeStatus>,
    before2: Seq<LifeStatus>,
    after2: Seq<LifeStatus>,
    y: int,
    n: int,
)
    requires
        forall|x: int| 0 <= x < n ==> before1[x] == before2[x] && after1[x] == after2[x],
    ensures
        row_changes(before1, after1, y, n) == row_changes(before2, after2, y, n),
    decreases n,
{
    if n > 0 {
        lemma_row_changes_frame(before1, after1, before2, after2, y, n - 1);
    }
}

/// The changes of the first rows depend only on those rows.
pub proof fn lemma_changes_in_rows_frame(
    before1: Grid,
    after1: Grid,
    before2: Grid,
    after2: Grid,
    n: int,
)
    requires
        before1.width == before2.width,
        forall|y: int|
            0 <= y < n ==> before1.rows[y] == before2.rows[y] && after1.rows[y] == after2.rows[y],
    ensures
        changes_in_rows(before1, after1, n) == changes_in_rows(before2, after2, n),
    decreases n,
{
    if n > 0 {
        lemma_changes_in_rows_frame(before1, after1, before2, after2, n - 1);
    }
}

/// A board on which nothing lives stays as it is.
pub proof fn lemma_blank_is_still(width: nat, height: nat)
    ensures
        Grid::blank(width, height).next() == Grid::blank(width, height),
{
    let blank = Grid::blank(width, height);
    if width > 0 && height > 0 {
        assert forall|i: int, j: int| #[trigger] blank.alive_at(i, j) == 0 by {
            vstd::arithmetic::div_mod::lemma_mod_bound(i, width as int);
            vstd::arithmetic::div_mod::lemma_mod_bound(j, height as int);
            assert(blank.contains(i % (width as int), j % (height as int)));
        }
        assert forall|x: int, y: int| blank.contains(x, y) implies #[trigger] blank.next_status(
            x,
            y,
        ) == LifeStatus::Dead by {
            assert(blank.neighbours(x, y) == 0);
        }
    }
    assert(blank.next().rows =~~= blank.rows);
}

/// Where every cell before `(m, n)` differs between the two boards, each
/// of them has its change, at the position that row-major order gives it.
proof fn lemma_all_changed_before(before: Grid, after: Grid, n: int, m: int)
    requires
        comparable(before, after),
        0 <= n <= before.height,
        0 <= m <= before.width,
        n == before.height ==> m == 0,
        forall|x: int, y: int|
            before.contains(x, y) && precedes(x, y, m, n) ==> before.at(x, y) != #[trigger] after.at(
                x,
                y,
            ),
    ensures
        changes_before(before, after, n, m).len() == n * before.width + m,
        forall|x: int, y: int|
            before.contains(x, y) && precedes(x, y, m, n) ==> changes_before(before, after, n, m)[y
                * before.width + x] == #[trigger] change_to(after, x, y),
    decreases n, m,
{
    let w = before.width as int;
    let now = changes_before(before, after, n, m);
    if m == 0 {
        if n == 0 {
            assert(now =~= Seq::empty());
            assert(n * w == 0) by (nonlinear_arith)
                requires
                    n == 0,
            ;
        } else {
            lemma_all_changed_before(before, after, n - 1, w);
            assert(now =~= changes_before(before, after, n - 1, w));
            assert((n - 1) * w + w == n * w) by (nonlinear_arith);
        }
    } else {
        lemma_all_changed_before(before, after, n, m - 1);
        let earlier = changes_before(before, after, n, m - 1);
        assert(before.at(m - 1, n) != after.at(m - 1, n));
        let d = change_to(after, m - 1, n);
        assert(now =~= earlier.push(d));
        assert forall|x: int, y: int| before.contains(x, y) && precedes(x, y, m, n) implies now[y
            * w + x] == #[trigger] change_to(after, x, y) by {
            if y < n {
                assert((y + 1) * w <= n * w) by (nonlinear_arith)
                    requires
                        y + 1 <= n,
                        w >= 0,
                ;
                assert((y + 1) * w == y * w + w) by (nonlinear_arith);
            }
            assert(0 <= y * w) by (nonlinear_arith)
                requires
                    0 <= y,
                    0 <= w,
            ;
        }
    }
}

/// Where the two boards differ in every cell, there is exactly one change
/// for each cell: as many changes as cells, and that of the cell at
/// `(x, y)` stands at position `y * width + x`.
pub proof fn lemma_all_changed(before: Grid, after: Grid)
    requires
        comparable(before, after),
        forall|x: int, y: int|
            before.contains(x, y) ==> before.at(x, y) != #[trigger] after.at(x, y),
    ensures
        changes(before, after).len() == before.width * before.height,
        forall|x: int, y: int|
            before.contains(x, y) ==> changes(before, after)[y * before.width + x]
                == #[trigger] change_to(after, x, y),
{
    let h = before.height as int;
    lemma_all_changed_before(before, after, h, 0);
    assert(changes_before(before, after, h, 0) =~= changes(before, after));
    assert(h * before.width == before.width * before.height) by (nonlinear_arith)
        requires
            h == before.height,
    ;
}

/// Boards of one shape that agree in every cell are the same board.
pub proof fn lemma_same_cells(a: Grid, b: Grid)
    requires
        a.wf(),
        b.wf(),
        a.same_shape(b),
        forall|x: int, y: int| a.contains(x, y) ==> #[trigger] a.at(x, y) == b.at(x, y),
    ensures
        a == b,
{
    assert forall|y: int| 0 <= y < a.height implies #[trigger] a.rows[y] == b.rows[y] by {
        assert forall|x: int| 0 <= x < a.width implies #[trigger] a.rows[y][x] == b.rows[y][x] by {
            assert(a.at(x, y) == b.at(x, y));
        }
        assert(a.rows[y] =~= b.rows[y]);
    }
    assert(a.rows =~= b.rows);
}

/// Replacing one cell keeps the shape of the board and every other cell.
pub proof fn lemma_with_cell(grid: Grid, x: int, y: int, status: LifeStatus)
    requires
        grid.wf(),
        grid.contains(x, y),
    ensures
        grid.with_cell(x, y, status).wf(),
        grid.with_cell(x, y, status).same_shape(grid),
        grid.with_cell(x, y, status).at(x, y) == status,
        forall|i: int, j: int|
            grid.contains(i, j) && !(i == x && j == y) ==> #[trigger] grid.with_cell(
                x,
                y,
                status,
            ).at(i, j) == grid.at(i, j),
{
}

} // verus!
