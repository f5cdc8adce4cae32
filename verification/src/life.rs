//! The board of cells and the operations that change it: one generation,
//! random seeding and random mutation. Each operation reports the cells
//! it changed.

use crate::chance::{gen_ratio, thread_rng};
use crate::grid::{
    change_to, changes, changes_before, changes_in_rows, comparable, is_change, lemma_all_changed,
    lemma_apply_changes, lemma_apply_push, lemma_blank_is_still, lemma_changes_in_rows_frame,
    lemma_changes_sound, lemma_no_changes, lemma_row_changes_frame, lemma_same_cells,
    lemma_with_cell, lemma_wrap, precedes, Grid,
};
use crate::body::on_board;
use crate::rle::{decode, LifeRLEParseError, LifeRLEParser};
use rand::rngs::ThreadRng;
use vstd::prelude::*;

verus! {

/// The state of one cell.
#[derive(Copy, Clone, PartialEq, Eq, Debug, Structural)]
pub enum LifeStatus {
    Dead,
    Alive,
}

impl LifeStatus {
    /// The other status.
    pub open spec fn flipped(self) -> LifeStatus {
        match self {
            LifeStatus::Alive => LifeStatus::Dead,
            LifeStatus::Dead => LifeStatus::Alive,
        }
    }

    /// Maps each status to the other one.
    pub fn flip(self) -> (flipped: LifeStatus)
        ensures
            flipped == self.flipped(),
    {
        match self {
            LifeStatus::Alive => LifeStatus::Dead,
            LifeStatus::Dead => LifeStatus::Alive,
        }
    }
}

impl core::ops::Not for LifeStatus {
    type Output = LifeStatus;

    fn not(self) -> (flipped: LifeStatus) {
        self.flip()
    }
}

impl vstd::std_specs::ops::NotSpecImpl for LifeStatus {
    open spec fn obeys_not_spec() -> bool {
        true
    }

    open spec fn not_req(self) -> bool {
        true
    }

    open spec fn not_spec(self) -> LifeStatus {
        self.flipped()
    }
}

/// A change of one cell: where it is and what it has become.
#[derive(Copy, Clone, PartialEq, Eq, Debug, Structural)]
pub struct LifeStatusDiff {
    pub x: u16,
    pub y: u16,
    pub status: LifeStatus,
}

/// A draw with these odds never hits.
pub open spec fn never_hits(numerator: u32, denominator: u32) -> bool {
    numerator == 0
}

/// A draw with these odds always hits.
pub open spec fn always_hits(numerator: u32, denominator: u32) -> bool {
    numerator > 0 && numerator >= denominator
}

/// The status that seeding gives a cell: alive if its draw hit, dead if
/// not.
pub open spec fn seeded(hit: bool) -> LifeStatus {
    if hit {
        LifeStatus::Alive
    } else {
        LifeStatus::Dead
    }
}

/// The status that mutation gives a cell: flipped if its draw hit,
/// unchanged if not.
pub open spec fn mutated(status: LifeStatus, hit: bool) -> LifeStatus {
    if hit {
        status.flipped()
    } else {
        status
    }
}

/// The changes that bring the given cells to life, in their order.
pub open spec fn births(cells: Seq<(u32, u32)>) -> Seq<LifeStatusDiff> {
    cells.map_values(
        |cell: (u32, u32)|
            LifeStatusDiff { x: cell.0 as u16, y: cell.1 as u16, status: LifeStatus::Alive },
    )
}

/// Bringing cells to life makes each of them alive and leaves every other
/// cell as it is.
pub proof fn lemma_births(grid: Grid, cells: Seq<(u32, u32)>)
    requires
        grid.wf(),
        grid.width <= u16::MAX,
        grid.height <= u16::MAX,
        on_board(cells, grid.width as u32, grid.height as u32),
    ensures
        grid.apply(births(cells)).wf(),
        grid.apply(births(cells)).same_shape(grid),
        forall|x: int, y: int|
            grid.contains(x, y) ==> #[trigger] grid.apply(births(cells)).at(x, y) == if cells.contains(
                (x as u32, y as u32),
            ) {
                LifeStatus::Alive
            } else {
                grid.at(x, y)
            },
    decreases cells.len(),
{
    if cells.len() > 0 {
        let earlier = cells.drop_last();
        let last = cells.last();
        lemma_births(grid, earlier);
        assert(births(cells).drop_last() =~= births(earlier));
        let before = grid.apply(births(earlier));
        lemma_with_cell(before, last.0 as int, last.1 as int, LifeStatus::Alive);
        assert forall|x: int, y: int| grid.contains(x, y) implies #[trigger] grid.apply(
            births(cells),
        ).at(x, y) == if cells.contains((x as u32, y as u32)) {
            LifeStatus::Alive
        } else {
            grid.at(x, y)
        } by {
            let cell = (x as u32, y as u32);
            if cell == last {
                assert(cells[cells.len() - 1] == cell);
            } else if earlier.contains(cell) {
                let k = choose|k: int| 0 <= k < earlier.len() && earlier[k] == cell;
                assert(cells[k] == cell);
            } else if cells.contains(cell) {
                let k = choose|k: int| 0 <= k < cells.len() && cells[k] == cell;
                assert(earlier[k] == cell);
            }
        }
    }
}

/// The position one step of `d` away from `i` on a ring of `n` positions.
fn step_around(i: u16, d: i8, n: u16) -> (at: u16)
    requires
        i < n,
        -1 <= d <= 1,
    ensures
        at == (i + d) % (n as int),
        at < n,
{
    proof {
        lemma_wrap(i + d, n as int);
    }
    if d < 0 {
        if i == 0 {
            n - 1
        } else {
            i - 1
        }
    } else if d > 0 {
        if i == n - 1 {
            0
        } else {
            i + 1
        }
    } else {
        i
    }
}

/// A board of cells on a torus, with the generator that its random
/// operations draw from.
pub struct Life {
    board: Vec<Vec<LifeStatus>>,
    size_x: u16,
    size_y: u16,
    rng: ThreadRng,
}

impl View for Life {
    type V = Grid;

    closed spec fn view(&self) -> Grid {
        Grid {
            width: self.size_x as nat,
            height: self.size_y as nat,
            rows: Seq::new(self.board@.len(), |y: int| self.board@[y]@),
        }
    }
}

impl Life {
    /// The rows and their cells are as many as the dimensions say.
    pub closed spec fn wf(&self) -> bool {
        &&& self.board@.len() == self.size_y
        &&& forall|y: int|
            0 <= y < self.size_y ==> (#[trigger] self.board@[y])@.len() == self.size_x
    }

    /// A well-formed board has a well-formed model, whose coordinates fit
    /// in 16 bits.
    pub proof fn lemma_view_wf(&self)
        requires
            self.wf(),
        ensures
            comparable(self@, self@),
            self@.width <= u16::MAX,
            self@.height <= u16::MAX,
    {
    }

    /// A board of `size_x` by `size_y` cells, all of them dead.
    pub fn new(size_x: u16, size_y: u16) -> (life: Life)
        ensures
            life.wf(),
            life@ == Grid::blank(size_x as nat, size_y as nat),
    {
        let mut board: Vec<Vec<LifeStatus>> = Vec::new();
        let mut y: u16 = 0;
        while y < size_y
            invariant
                y <= size_y,
                board@.len() == y,
                forall|j: int|
                    0 <= j < y ==> (#[trigger] board@[j])@ == Seq::new(
                        size_x as nat,
                        |x: int| LifeStatus::Dead,
                    ),
            decreases size_y - y,
        {
            let mut row: Vec<LifeStatus> = Vec::new();
            let mut x: u16 = 0;
            while x < size_x
                invariant
                    x <= size_x,
                    row@.len() == x,
                    forall|i: int| 0 <= i < x ==> row@[i] == LifeStatus::Dead,
                decreases size_x - x,
            {
                row.push(LifeStatus::Dead);
                x += 1;
            }
            assert(row@ =~= Seq::new(size_x as nat, |x: int| LifeStatus::Dead));
            board.push(row);
            y += 1;
        }
        let life = Life { board, size_x, size_y, rng: thread_rng() };
        assert(life@.rows =~~= Grid::blank(size_x as nat, size_y as nat).rows);
        life
    }

    /// The number of cells in a row.
    pub fn width(&self) -> (width: u16)
        ensures
            width == self@.width,
    {
        self.size_x
    }

    /// The number of rows.
    pub fn height(&self) -> (height: u16)
        ensures
            height == self@.height,
    {
        self.size_y
    }

    /// The status of the cell at `(x, y)`.
    pub fn get(&self, x: u16, y: u16) -> (status: LifeStatus)
        requires
            self.wf(),
            self@.contains(x as int, y as int),
        ensures
            status == self@.at(x as int, y as int),
    {
        self.board[y as usize][x as usize]
    }

    /// Replaces the status of the cell at `(x, y)`.
    pub fn set(&mut self, x: u16, y: u16, status: LifeStatus)
        requires
            old(self).wf(),
            old(self)@.contains(x as int, y as int),
        ensures
            final(self).wf(),
            final(self)@ == old(self)@.with_cell(x as int, y as int, status),
    {
        self.board[y as usize][x as usize] = status;
        assert(self@.rows =~= old(self)@.with_cell(x as int, y as int, status).rows);
    }

    /// 1 if the cell one step of `(dx, dy)` away from `(x, y)` on the
    /// torus is alive, else 0.
    fn alive_beside(&self, x: u16, y: u16, dx: i8, dy: i8) -> (count: u8)
        requires
            self.wf(),
            self@.contains(x as int, y as int),
            -1 <= dx <= 1,
            -1 <= dy <= 1,
        ensures
            count == self@.alive_at(x + dx, y + dy),
            count <= 1,
    {
        let column = step_around(x, dx, self.size_x);
        let row = step_around(y, dy, self.size_y);
        if self.board[row as usize][column as usize] == LifeStatus::Alive {
            1
        } else {
            0
        }
    }

    /// The status that the cell at `(x, y)` has in the next generation,
    /// by the living cells among the eight around it on the torus.
    pub fn get_cell_status_next_round(&self, x: u16, y: u16) -> (status: LifeStatus)
        requires
            self.wf(),
            self@.contains(x as int, y as int),
        ensures
            status == self@.next_status(x as int, y as int),
    {
        let mut count: u8 = 0;
        count += self.alive_beside(x, y, -1, -1);
        count += self.alive_beside(x, y, 0, -1);
        count += self.alive_beside(x, y, 1, -1);
        count += self.alive_beside(x, y, -1, 0);
        count += self.alive_beside(x, y, 1, 0);
        count += self.alive_beside(x, y, -1, 1);
        count += self.alive_beside(x, y, 0, 1);
        count += self.alive_beside(x, y, 1, 1);
        assert(count == self@.neighbours(x as int, y as int));
        if count == 3 {
            LifeStatus::Alive
        } else if count == 2 {
            self.board[y as usize][x as usize]
        } else {
            LifeStatus::Dead
        }
    }

    /// Advances the board by one generation and reports the cells that
    /// changed. Every cell is computed from the board as it was before
    /// the call; the changes are written only after the whole board has
    /// been scanned.
    pub fn next_round(&mut self) -> (diffs: Vec<LifeStatusDiff>)
        requires
            old(self).wf(),
        ensures
            final(self).wf(),
            final(self)@ == old(self)@.next(),
            diffs@ == changes(old(self)@, old(self)@.next()),
            old(self)@.apply(diffs@) == old(self)@.next(),
            old(self)@ == Grid::blank(old(self)@.width, old(self)@.height) ==> diffs@.len() == 0,
    {
        let ghost before = self@;
        let ghost after = before.next();
        let mut diffs: Vec<LifeStatusDiff> = Vec::new();
        let mut y: u16 = 0;
        while y < self.size_y
            invariant
                self.wf(),
                self@ == before,
                after == before.next(),
                y <= self.size_y,
                diffs@ == changes_in_rows(before, after, y as int),
            decreases self.size_y - y,
        {
            let mut x: u16 = 0;
            while x < self.size_x
                invariant
                    self.wf(),
                    self@ == before,
                    after == before.next(),
                    y < self.size_y,
                    x <= self.size_x,
                    diffs@ == changes_before(before, after, y as int, x as int),
                decreases self.size_x - x,
            {
                let next = self.get_cell_status_next_round(x, y);
                if next != self.board[y as usize][x as usize] {
                    diffs.push(LifeStatusDiff { x, y, status: next });
                }
                x += 1;
            }
            y += 1;
        }
        proof {
            assert(diffs@ == changes(before, after));
            lemma_changes_sound(before, after);
        }
        let mut i: usize = 0;
        while i < diffs.len()
            invariant
                self.wf(),
                self@.same_shape(before),
                i <= diffs@.len(),
                self@ == before.apply(diffs@.take(i as int)),
                forall|k: int| 0 <= k < diffs@.len() ==> is_change(before, after, #[trigger] diffs@[k]),
            decreases diffs@.len() - i,
        {
            let d = diffs[i];
            self.set(d.x, d.y, d.status);
            proof {
                assert(diffs@.take(i + 1) =~= diffs@.take(i as int).push(d));
                lemma_apply_push(before, diffs@.take(i as int), d);
            }
            i += 1;
        }
        proof {
            assert(diffs@.take(diffs@.len() as int) =~= diffs@);
            lemma_apply_changes(before, after);
            if before == Grid::blank(before.width, before.height) {
                lemma_blank_is_still(before.width, before.height);
                lemma_no_changes(before);
            }
        }
        diffs
    }

    /// Draws once with odds of `numerator` in `denominator`. Odds of zero
    /// never hit, odds of one or more always do; in between the generator
    /// decides. The board is left as it is.
    fn draw(&mut self, numerator: u32, denominator: u32) -> (hit: bool)
        ensures
            final(self).wf() == old(self).wf(),
            final(self)@ == old(self)@,
            never_hits(numerator, denominator) ==> !hit,
            always_hits(numerator, denominator) ==> hit,
    {
        if denominator == 0 || numerator > denominator {
            numerator > 0
        } else {
            gen_ratio(&mut self.rng, numerator, denominator)
        }
    }

    /// Seeds the cell at `(x, y)` from the outcome of its draw: on a hit
    /// the cell becomes alive and the change is reported, otherwise it
    /// becomes dead and nothing is reported.
    pub fn seed_cell(&mut self, x: u16, y: u16, hit: bool) -> (diff: Option<LifeStatusDiff>)
        requires
            old(self).wf(),
            old(self)@.contains(x as int, y as int),
        ensures
            final(self).wf(),
            final(self)@ == old(self)@.with_cell(x as int, y as int, seeded(hit)),
            hit ==> diff == Some((LifeStatusDiff { x, y, status: LifeStatus::Alive })),
            !hit ==> diff.is_none(),
    {
        if hit {
            self.set(x, y, LifeStatus::Alive);
            Some(LifeStatusDiff { x, y, status: LifeStatus::Alive })
        } else {
            self.set(x, y, LifeStatus::Dead);
            None
        }
    }

    /// Mutates the cell at `(x, y)` by the outcome of its draw: on a hit
    /// the cell is flipped and the change is reported, otherwise it is
    /// left alone.
    pub fn mutate_cell(&mut self, x: u16, y: u16, hit: bool) -> (diff: Option<LifeStatusDiff>)
        requires
            old(self).wf(),
            old(self)@.contains(x as int, y as int),
        ensures
            final(self).wf(),
            final(self)@ == old(self)@.with_cell(
                x as int,
                y as int,
                mutated(old(self)@.at(x as int, y as int), hit),
            ),
            hit ==> diff == Some(
                (LifeStatusDiff { x, y, status: old(self)@.at(x as int, y as int).flipped() }),
            ),
            !hit ==> diff.is_none(),
    {
        if hit {
            let status = self.get(x, y).flip();
            self.set(x, y, status);
            Some(LifeStatusDiff { x, y, status })
        } else {
            proof {
                assert(self@.rows =~~= self@.with_cell(
                    x as int,
                    y as int,
                    self@.at(x as int, y as int),
                ).rows);
            }
            None
        }
    }

    /// Seeds the whole board at random: one draw per cell, in row-major
    /// order, each with odds of `numerator` in `denominator` to make the
    /// cell alive. Reported are the cells that are alive afterwards, which
    /// are the changes against a board on which nothing lives; a cell
    /// that the seeding left or made dead is never reported.
    pub fn initialize(&mut self, numerator: u32, denominator: u32) -> (diffs: Vec<LifeStatusDiff>)
        requires
            old(self).wf(),
        ensures
            final(self).wf(),
            final(self)@.same_shape(old(self)@),
            diffs@ == changes(
                Grid::blank(old(self)@.width, old(self)@.height),
                final(self)@,
            ),
            never_hits(numerator, denominator) ==> diffs@.len() == 0 && final(self)@ == Grid::blank(
                old(self)@.width,
                old(self)@.height,
            ),
            always_hits(numerator, denominator) ==> diffs@.len() == old(self)@.width * old(
                self,
            )@.height && final(self)@ == Grid::filled(
                old(self)@.width,
                old(self)@.height,
                LifeStatus::Alive,
            ),
            always_hits(numerator, denominator) ==> forall|x: int, y: int|
                old(self)@.contains(x, y) ==> diffs@[y * old(self)@.width + x]
                    == #[trigger] change_to(final(self)@, x, y),
    {
        let ghost blank = Grid::blank(self@.width, self@.height);
        let ghost full = Grid::filled(self@.width, self@.height, LifeStatus::Alive);
        let mut diffs: Vec<LifeStatusDiff> = Vec::new();
        let mut y: u16 = 0;
        while y < self.size_y
            invariant
                self.wf(),
                blank == Grid::blank(self@.width, self@.height),
                y <= self.size_y,
                diffs@ == changes_in_rows(blank, self@, y as int),
                forall|i: int, j: int|
                    self@.contains(i, j) && j < y ==> #[trigger] self@.at(i, j) == LifeStatus::Dead
                        || !never_hits(numerator, denominator),
                forall|i: int, j: int|
                    self@.contains(i, j) && j < y ==> #[trigger] self@.at(i, j)
                        == LifeStatus::Alive || !always_hits(numerator, denominator),
            decreases self.size_y - y,
        {
            let mut x: u16 = 0;
            while x < self.size_x
                invariant
                    self.wf(),
                    blank == Grid::blank(self@.width, self@.height),
                    y < self.size_y,
                    x <= self.size_x,
                    diffs@ == changes_before(blank, self@, y as int, x as int),
                    forall|i: int, j: int|
                        self@.contains(i, j) && precedes(i, j, x as int, y as int)
                            ==> #[trigger] self@.at(i, j) == LifeStatus::Dead || !never_hits(
                            numerator,
                            denominator,
                        ),
                    forall|i: int, j: int|
                        self@.contains(i, j) && precedes(i, j, x as int, y as int)
                            ==> #[trigger] self@.at(i, j) == LifeStatus::Alive || !always_hits(
                            numerator,
                            denominator,
                        ),
                decreases self.size_x - x,
            {
                let hit = self.draw(numerator, denominator);
                let ghost earlier = self@;
                let diff = self.seed_cell(x, y, hit);
                proof {
                    lemma_with_cell(earlier, x as int, y as int, seeded(hit));
                    lemma_changes_in_rows_frame(blank, earlier, blank, self@, y as int);
                    lemma_row_changes_frame(
                        blank.rows[y as int],
                        earlier.rows[y as int],
                        blank.rows[y as int],
                        self@.rows[y as int],
                        y as int,
                        x as int,
                    );
                }
                match diff {
                    Some(d) => {
                        diffs.push(d);
                    },
                    None => {},
                }
                x += 1;
            }
            y += 1;
        }
        proof {
            if never_hits(numerator, denominator) {
                lemma_same_cells(self@, blank);
                lemma_no_changes(blank);
            }
            if always_hits(numerator, denominator) {
                lemma_same_cells(self@, full);
                lemma_all_changed(blank, full);
            }
        }
        diffs
    }

    /// Mutates the board at random: one draw per cell, in row-major order,
    /// each with odds of `numerator` in `denominator` to flip the cell.
    /// Every flipped cell is reported with its new status.
    pub fn add_mutation(&mut self, numerator: u32, denominator: u32) -> (diffs: Vec<
        LifeStatusDiff,
    >)
        requires
            old(self).wf(),
        ensures
            final(self).wf(),
            final(self)@.same_shape(old(self)@),
            diffs@ == changes(old(self)@, final(self)@),
            never_hits(numerator, denominator) ==> diffs@.len() == 0 && final(self)@ == old(self)@,
            always_hits(numerator, denominator) ==> diffs@.len() == old(self)@.width * old(
                self,
            )@.height && final(self)@ == old(self)@.inverted(),
            always_hits(numerator, denominator) ==> forall|x: int, y: int|
                old(self)@.contains(x, y) ==> diffs@[y * old(self)@.width + x]
                    == #[trigger] change_to(final(self)@, x, y),
    {
        let ghost before = self@;
        let mut diffs: Vec<LifeStatusDiff> = Vec::new();
        let mut y: u16 = 0;
        while y < self.size_y
            invariant
                self.wf(),
                before.wf(),
                self@.same_shape(before),
                y <= self.size_y,
                diffs@ == changes_in_rows(before, self@, y as int),
                forall|i: int, j: int|
                    self@.contains(i, j) && j >= y ==> #[trigger] self@.at(i, j) == before.at(i, j),
                forall|i: int, j: int|
                    self@.contains(i, j) && j < y ==> #[trigger] self@.at(i, j) == before.at(i, j)
                        || !never_hits(numerator, denominator),
                forall|i: int, j: int|
                    self@.contains(i, j) && j < y ==> #[trigger] self@.at(i, j) == before.at(
                        i,
                        j,
                    ).flipped() || !always_hits(numerator, denominator),
            decreases self.size_y - y,
        {
            let mut x: u16 = 0;
            while x < self.size_x
                invariant
                    self.wf(),
                    before.wf(),
                    self@.same_shape(before),
                    y < self.size_y,
                    x <= self.size_x,
                    diffs@ == changes_before(before, self@, y as int, x as int),
                    forall|i: int, j: int|
                        self@.contains(i, j) && !precedes(i, j, x as int, y as int)
                            ==> #[trigger] self@.at(i, j) == before.at(i, j),
                    forall|i: int, j: int|
                        self@.contains(i, j) && precedes(i, j, x as int, y as int)
                            ==> #[trigger] self@.at(i, j) == before.at(i, j) || !never_hits(
                            numerator,
                            denominator,
                        ),
                    forall|i: int, j: int|
                        self@.contains(i, j) && precedes(i, j, x as int, y as int)
                            ==> #[trigger] self@.at(i, j) == before.at(i, j).flipped()
                            || !always_hits(numerator, denominator),
                decreases self.size_x - x,
            {
                let hit = self.draw(numerator, denominator);
                let ghost earlier = self@;
                let diff = self.mutate_cell(x, y, hit);
                proof {
                    assert(earlier.at(x as int, y as int) == before.at(x as int, y as int));
                    lemma_with_cell(
                        earlier,
                        x as int,
                        y as int,
                        mutated(earlier.at(x as int, y as int), hit),
                    );
                    lemma_changes_in_rows_frame(before, earlier, before, self@, y as int);
                    lemma_row_changes_frame(
                        before.rows[y as int],
                        earlier.rows[y as int],
                        before.rows[y as int],
                        self@.rows[y as int],
                        y as int,
                        x as int,
                    );
                }
                match diff {
                    Some(d) => {
                        diffs.push(d);
                    },
                    None => {},
                }
                x += 1;
            }
            y += 1;
        }
        proof {
            if never_hits(numerator, denominator) {
                lemma_same_cells(self@, before);
                lemma_no_changes(before);
            }
            if always_hits(numerator, denominator) {
                lemma_same_cells(self@, before.inverted());
                lemma_all_changed(before, before.inverted());
            }
        }
        diffs
    }

    /// Brings the given cells to life, one after the other, and reports
    /// each of them; all other cells are left as they are.
    pub fn initialize_cells(&mut self, cells: &Vec<(u32, u32)>) -> (diffs: Vec<LifeStatusDiff>)
        requires
            old(self).wf(),
            on_board(cells@, old(self)@.width as u32, old(self)@.height as u32),
        ensures
            final(self).wf(),
            final(self)@.same_shape(old(self)@),
            diffs@ == births(cells@),
            final(self)@ == old(self)@.apply(births(cells@)),
            forall|x: int, y: int|
                old(self)@.contains(x, y) ==> #[trigger] final(self)@.at(x, y) == if cells@.contains(
                    (x as u32, y as u32),
                ) {
                    LifeStatus::Alive
                } else {
                    old(self)@.at(x, y)
                },
    {
        proof {
            lemma_births(self@, cells@);
        }
        let ghost before = self@;
        let mut diffs: Vec<LifeStatusDiff> = Vec::new();
        let mut i: usize = 0;
        assert(births(cells@).take(0) =~= Seq::<LifeStatusDiff>::empty());
        while i < cells.len()
            invariant
                self.wf(),
                self@.same_shape(before),
                i <= cells@.len(),
                on_board(cells@, self.size_x as u32, self.size_y as u32),
                diffs@ == births(cells@).take(i as int),
                self@ == before.apply(diffs@),
            decreases cells@.len() - i,
        {
            let (x, y) = cells[i];
            let diff = LifeStatusDiff { x: x as u16, y: y as u16, status: LifeStatus::Alive };
            self.set(diff.x, diff.y, diff.status);
            proof {
                lemma_apply_push(before, diffs@, diff);
                assert(births(cells@).take(i + 1) =~= births(cells@).take(i as int).push(diff));
            }
            diffs.push(diff);
            i += 1;
        }
        assert(births(cells@).take(cells@.len() as int) =~= births(cells@));
        diffs
    }

    /// Seeds the board from a run-length-encoded pattern: every cell of
    /// the pattern that is alive and lies on the board becomes alive and
    /// is reported, in the order of the pattern; all other cells are left
    /// as they are. A pattern that cannot be decoded changes nothing.
    pub fn initialize_rle(&mut self, rle: &str) -> (result: Result<
        Vec<LifeStatusDiff>,
        LifeRLEParseError,
    >)
        requires
            old(self).wf(),
        ensures
            final(self).wf(),
            decode(rle@, old(self)@.width as u32, old(self)@.height as u32) matches Ok(cells)
                ==> result.is_ok() && result.unwrap()@ == births(cells) && final(self)@ == old(
                self,
            )@.apply(births(cells)),
            decode(rle@, old(self)@.width as u32, old(self)@.height as u32) matches Err(e)
                ==> result == Err::<Vec<LifeStatusDiff>, LifeRLEParseError>(e) && final(self)@
                == old(self)@,
    {
        let mut parser = LifeRLEParser::new(rle, self.size_x as usize, self.size_y as usize);
        match parser.parse_rle() {
            Ok(cells) => Ok(self.initialize_cells(&cells)),
            Err(e) => Err(e),
        }
    }
}

} // verus!
