//! The body of a pattern: runs of dead and living cells, row by row.
//!
//! `b` is a dead cell, `o` a living one, `$` ends a row and `!` ends the
//! pattern. Digits before `b`, `o` or `$` say how often it is meant.
//!
//! Counts of any size are decoded for what they say. Nothing overflows and
//! nothing wraps around: what lies `FAR` columns or rows from the
//! pattern's first cell lies beyond every board, so that from there on the
//! decoder counts no further, and what it yields is proved to be what
//! unbounded counting yields.

use crate::header::PatternHeader;
use crate::rle::LifeRLEParseError;
use crate::text::{digit_of, digit_value, is_digit};
use vstd::prelude::*;

verus! {

/// Where the decoder stands in a pattern: the column and the row, counted
/// from the pattern's first cell, of the cell that comes next, and the
/// run length that the digits since the last tag spell (0 where there are
/// none).
pub struct Cursor {
    pub x: nat,
    pub y: nat,
    pub run: nat,
}

impl Cursor {
    /// At the pattern's first cell, with no run length.
    pub open spec fn start() -> Cursor {
        Cursor { x: 0, y: 0, run: 0 }
    }

    /// How often the next tag is repeated: as often as the run length
    /// says, and once where there is none.
    pub open spec fn repeat(self) -> nat {
        if self.run == 0 {
            1
        } else {
            self.run
        }
    }

    /// After a digit: the run length has one digit more.
    pub open spec fn digit(self, value: nat) -> Cursor {
        Cursor { run: self.run * 10 + value, ..self }
    }

    /// After a run of cells, dead or alive: that many columns further.
    pub open spec fn across(self) -> Cursor {
        Cursor { x: self.x + self.repeat(), y: self.y, run: 0 }
    }

    /// After the end of a row: that many rows further, in the first
    /// column.
    pub open spec fn down(self) -> Cursor {
        Cursor { x: 0, y: self.y + self.repeat(), run: 0 }
    }
}

/// The cells of a run that lie on the board: of the `n` positions from
/// column `left` on in row `row`, those with a column in
/// `[0, board_width)`, if the row is in `[0, board_height)`. They go from
/// left to right.
pub open spec fn run_cells(left: int, row: int, n: nat, board_width: u32, board_height: u32) -> Seq<
    (u32, u32),
> {
    let from = if left < 0 {
        0
    } else {
        left
    };
    let to = if left + n < board_width {
        left + n
    } else {
        board_width as int
    };
    if 0 <= row < board_height && from < to {
        Seq::new((to - from) as nat, |k: int| ((from + k) as u32, row as u32))
    } else {
        Seq::empty()
    }
}

/// The result of decoding what follows, once `emitted` has come out.
pub open spec fn emitted_before(
    emitted: Seq<(u32, u32)>,
    rest: Result<Seq<(u32, u32)>, LifeRLEParseError>,
) -> Result<Seq<(u32, u32)>, LifeRLEParseError> {
    match rest {
        Ok(cells) => Ok(emitted + cells),
        Err(e) => Err(e),
    }
}

/// The living cells that the body spells from the cursor on, as
/// coordinates on the board, in the order in which they are met; or the
/// first error. A digit lengthens the run length. `b` moves the cursor
/// across a run of dead cells, `o` across a run of living ones, of which
/// those on the board come out; `$` moves it to the start of a later row.
/// `!` ends the pattern, whatever follows, and is an error right after a
/// run length. Any other character is an error. A body that ends without
/// `!` is complete.
pub open spec fn cells_from(
    body: Seq<char>,
    at: Cursor,
    header: PatternHeader,
    board_width: u32,
    board_height: u32,
) -> Result<Seq<(u32, u32)>, LifeRLEParseError>
    decreases body.len(),
{
    if body.len() == 0 {
        Ok(Seq::empty())
    } else {
        let c = body.first();
        let rest = body.drop_first();
        if is_digit(c) {
            cells_from(rest, at.digit(digit_value(c)), header, board_width, board_height)
        } else if c == 'b' {
            cells_from(rest, at.across(), header, board_width, board_height)
        } else if c == 'o' {
            emitted_before(
                run_cells(
                    header.base_x + at.x,
                    header.base_y + at.y,
                    at.repeat(),
                    board_width,
                    board_height,
                ),
                cells_from(rest, at.across(), header, board_width, board_height),
            )
        } else if c == '$' {
            cells_from(rest, at.down(), header, board_width, board_height)
        } else if c == '!' {
            if at.run != 0 {
                Err(LifeRLEParseError::DanglingLength)
            } else {
                Ok(Seq::empty())
            }
        } else {
            Err(LifeRLEParseError::InvalidChar(c))
        }
    }
}

/// The result holds what was expected: the same cells, or the same error.
pub open spec fn yields(
    result: Result<Vec<(u32, u32)>, LifeRLEParseError>,
    expected: Result<Seq<(u32, u32)>, LifeRLEParseError>,
) -> bool {
    match expected {
        Ok(cells) => result.is_ok() && result.unwrap()@ == cells,
        Err(e) => result == Err::<Vec<(u32, u32)>, LifeRLEParseError>(e),
    }
}

/// Every cell lies on a board of the given size.
pub open spec fn on_board(cells: Seq<(u32, u32)>, board_width: u32, board_height: u32) -> bool {
    forall|k: int|
        0 <= k < cells.len() ==> (#[trigger] cells[k]).0 < board_width && cells[k].1
            < board_height
}

/// `a` comes before `b` in row-major order: in an earlier row, or further
/// left in the same row.
pub open spec fn cell_before(a: (u32, u32), b: (u32, u32)) -> bool {
    a.1 < b.1 || (a.1 == b.1 && a.0 < b.0)
}

/// The cells go in row-major order, each one after the one before it.
pub open spec fn ascending(cells: Seq<(u32, u32)>) -> bool {
    forall|i: int, j: int|
        0 <= i < j < cells.len() ==> cell_before(#[trigger] cells[i], #[trigger] cells[j])
}

/// No cell lies before the place `(left, row)`.
pub open spec fn none_before(cells: Seq<(u32, u32)>, left: int, row: int) -> bool {
    forall|k: int|
        0 <= k < cells.len() ==> (#[trigger] cells[k]).1 > row || (cells[k].1 == row
            && cells[k].0 >= left)
}

/// The cells that come out from a cursor on lie on the board, none of
/// them before the place of the cursor, and they ascend in row-major
/// order.
pub proof fn lemma_cells_from(
    body: Seq<char>,
    at: Cursor,
    header: PatternHeader,
    board_width: u32,
    board_height: u32,
)
    ensures
        cells_from(body, at, header, board_width, board_height) matches Ok(cells) ==> on_board(
            cells,
            board_width,
            board_height,
        ) && ascending(cells) && none_before(cells, header.base_x + at.x, header.base_y + at.y),
    decreases body.len(),
{
    if body.len() > 0 {
        let c = body.first();
        let rest = body.drop_first();
        if is_digit(c) {
            lemma_cells_from(rest, at.digit(digit_value(c)), header, board_width, board_height);
        } else if c == 'b' || c == 'o' {
            lemma_cells_from(rest, at.across(), header, board_width, board_height);
        } else if c == '$' {
            lemma_cells_from(rest, at.down(), header, board_width, board_height);
        }
    }
}

/// A count from which on the decoder no longer tells columns, rows and
/// run lengths apart: all of them lie beyond every board, wherever the
/// pattern begins.
pub const FAR: u128 = 0x1_0000_0000_0000_0000_0000;

/// The count as the decoder holds it: itself below `FAR`, and `FAR` from
/// there on.
pub open spec fn capped(count: nat) -> u128 {
    if count < FAR {
        count as u128
    } else {
        FAR
    }
}

/// The cells of a run on the board are the same when the column and the
/// row of the cursor and the run length are capped.
pub proof fn lemma_run_cells_capped(
    at: Cursor,
    header: PatternHeader,
    board_width: u32,
    board_height: u32,
)
    ensures
        run_cells(
            header.base_x + at.x,
            header.base_y + at.y,
            at.repeat(),
            board_width,
            board_height,
        ) == run_cells(
            header.base_x + capped(at.x),
            header.base_y + capped(at.y),
            capped(at.repeat()) as nat,
            board_width,
            board_height,
        ),
{
    assert(run_cells(
        header.base_x + at.x,
        header.base_y + at.y,
        at.repeat(),
        board_width,
        board_height,
    ) =~= run_cells(
        header.base_x + capped(at.x),
        header.base_y + capped(at.y),
        capped(at.repeat()) as nat,
        board_width,
        board_height,
    ));
}

/// The smaller of `count` and `FAR`.
fn cap(count: u128) -> (capped: u128)
    ensures
        capped == if count < FAR {
            count
        } else {
            FAR
        },
{
    if count < FAR {
        count
    } else {
        FAR
    }
}

/// Appends the cells of a run that lie on the board.
fn push_run(
    cells: &mut Vec<(u32, u32)>,
    left: i128,
    row: i128,
    n: u128,
    board_width: u32,
    board_height: u32,
)
    requires
        n <= FAR,
        -FAR <= left <= 2 * FAR,
    ensures
        final(cells)@ == old(cells)@ + run_cells(
            left as int,
            row as int,
            n as nat,
            board_width,
            board_height,
        ),
{
    let ghost run = run_cells(left as int, row as int, n as nat, board_width, board_height);
    let from: i128 = if left < 0 {
        0
    } else {
        left
    };
    let to: i128 = if left + (n as i128) < board_width as i128 {
        left + (n as i128)
    } else {
        board_width as i128
    };
    if row < 0 || row >= board_height as i128 || from >= to {
        assert(cells@ + run =~= cells@);
        return ;
    }
    let mut column: i128 = from;
    assert(run.take(0) =~= Seq::<(u32, u32)>::empty());
    assert(cells@ + run.take(0) =~= cells@);
    while column < to
        invariant
            0 <= from <= column <= to <= board_width,
            0 <= row < board_height,
            run.len() == to - from,
            forall|k: int| 0 <= k < run.len() ==> run[k] == ((from + k) as u32, row as u32),
            cells@ == old(cells)@ + run.take(column - from),
        decreases to - column,
    {
        cells.push((column as u32, row as u32));
        assert(run.take(column - from + 1) =~= run.take(column - from).push(
            (column as u32, row as u32),
        ));
        column += 1;
    }
    assert(run.take(to - from) =~= run);
}

/// Decodes the body of a pattern whose header is given, for a board of
/// the given size.
pub fn decode_body(
    body: &[char],
    header: PatternHeader,
    board_width: u32,
    board_height: u32,
) -> (result: Result<Vec<(u32, u32)>, LifeRLEParseError>)
    ensures
        yields(result, cells_from(body@, Cursor::start(), header, board_width, board_height)),
{
    let ghost whole = cells_from(body@, Cursor::start(), header, board_width, board_height);
    let mut cells: Vec<(u32, u32)> = Vec::new();
    let mut x: u128 = 0;
    let mut y: u128 = 0;
    let mut run: u128 = 0;
    let ghost mut at = Cursor::start();
    let mut i: usize = 0;
    assert(body@.skip(0) =~= body@);
    assert(Seq::<(u32, u32)>::empty() + Seq::<(u32, u32)>::empty() =~= Seq::<(u32, u32)>::empty());
    while i < body.len()
        invariant
            i <= body@.len(),
            x == capped(at.x),
            y == capped(at.y),
            run == capped(at.run),
            whole == cells_from(body@, Cursor::start(), header, board_width, board_height),
            emitted_before(
                cells@,
                cells_from(body@.skip(i as int), at, header, board_width, board_height),
            ) == whole,
        decreases body@.len() - i,
    {
        let c = body[i];
        let repeat: u128 = if run == 0 {
            1
        } else {
            run
        };
        let ghost here = cells_from(body@.skip(i as int), at, header, board_width, board_height);
        let ghost emitted = cells@;
        proof {
            assert(body@.skip(i as int).drop_first() =~= body@.skip(i + 1));
            assert(body@.skip(i as int).first() == c);
            assert(repeat == capped(at.repeat()));
        }
        match digit_of(c) {
            Some(value) => {
                run = cap(run * 10 + value as u128);
                proof {
                    at = at.digit(value as nat);
                }
            },
            None => {
                if c == 'b' {
                    x = cap(x + repeat);
                    run = 0;
                    proof {
                        at = at.across();
                    }
                } else if c == 'o' {
                    proof {
                        lemma_run_cells_capped(at, header, board_width, board_height);
                    }
                    push_run(
                        &mut cells,
                        header.base_x as i128 + x as i128,
                        header.base_y as i128 + y as i128,
                        repeat,
                        board_width,
                        board_height,
                    );
                    x = cap(x + repeat);
                    run = 0;
                    proof {
                        let cells_of_run = run_cells(
                            header.base_x + at.x,
                            header.base_y + at.y,
                            at.repeat(),
                            board_width,
                            board_height,
                        );
                        at = at.across();
                        let after = cells_from(
                            body@.skip(i + 1),
                            at,
                            header,
                            board_width,
                            board_height,
                        );
                        assert(here == emitted_before(cells_of_run, after));
                        if after.is_ok() {
                            assert(emitted + (cells_of_run + after.unwrap()) =~= (emitted
                                + cells_of_run) + after.unwrap());
                        }
                    }
                } else if c == '$' {
                    x = 0;
                    y = cap(y + repeat);
                    run = 0;
                    proof {
                        at = at.down();
                    }
                } else if c == '!' {
                    if run != 0 {
                        return Err(LifeRLEParseError::DanglingLength);
                    }
                    assert(cells@ + Seq::<(u32, u32)>::empty() =~= cells@);
                    return Ok(cells);
                } else {
                    return Err(LifeRLEParseError::InvalidChar(c));
                }
            },
        }
        i += 1;
    }
    assert(cells@ + Seq::<(u32, u32)>::empty() =~= cells@);
    Ok(cells)
}

} // verus!
