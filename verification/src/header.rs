//! The header of a pattern: a line of `key=value` pairs between commas.
//!
//! ```text
//! x = 3, y = 3, rule = B3/S23, base_x = -1, center = true
//! ```
//!
//! `x` and `y` declare the size of the pattern and are read for what they
//! are worth. `base_x` and `base_y` move the pattern on the board, and
//! `center` moves it by half the board besides. Other keys are passed over.

use crate::rle::{HeaderField, LifeRLEParseError};
use crate::text::{
    after_first_field, find, first_field, flag_of, has_more, lemma_field_len, read_flag,
    read_signed, read_unsigned, signed_of, spells, trim, trimmed, unsigned_of,
};
use vstd::prelude::*;
use vstd::slice::slice_subrange;

verus! {

/// What a header says of its pattern. Width and height are as the pattern
/// declares them and serve no purpose in decoding; `base_x` and `base_y`
/// say where on the board the pattern's first cell goes.
#[derive(Copy, Clone, PartialEq, Eq, Debug, Structural)]
pub struct PatternHeader {
    pub width: u32,
    pub height: u32,
    pub base_x: i64,
    pub base_y: i64,
    pub center: bool,
}

impl PatternHeader {
    /// The header of a pattern that says nothing of itself.
    pub open spec fn blank() -> PatternHeader {
        PatternHeader { width: 0, height: 0, base_x: 0, base_y: 0, center: false }
    }

    /// Both offsets are such as a header can give: numbers of 32 bits.
    pub open spec fn is_plain(self) -> bool {
        &&& i32::MIN <= self.base_x <= i32::MAX
        &&& i32::MIN <= self.base_y <= i32::MAX
    }

    /// The header with half the board's width and height, rounded down,
    /// added to its offsets, if it asks for centring; else unchanged.
    pub open spec fn centered(self, board_width: u32, board_height: u32) -> PatternHeader {
        if self.center {
            PatternHeader {
                base_x: (self.base_x + board_width / 2) as i64,
                base_y: (self.base_y + board_height / 2) as i64,
                ..self
            }
        } else {
            self
        }
    }

    /// The header that nothing has been read into yet.
    pub fn new() -> (header: PatternHeader)
        ensures
            header == PatternHeader::blank(),
    {
        PatternHeader { width: 0, height: 0, base_x: 0, base_y: 0, center: false }
    }
}

/// The header after one of the pieces between the commas has been read
/// into it. A piece without `=` says nothing. Otherwise what stands before
/// the first `=`, trimmed, is the key, and what stands after it, trimmed,
/// the value. The keys `x`, `y`, `base_x`, `base_y` and `center` set their
/// field or fail on a value that cannot be read; any other key says
/// nothing.
pub open spec fn header_after_pair(header: PatternHeader, pair: Seq<char>) -> Result<
    PatternHeader,
    LifeRLEParseError,
> {
    let key = trim(first_field(pair, '='));
    let value = trim(after_first_field(pair, '='));
    if !has_more(pair, '=') {
        Ok(header)
    } else if key == "x"@ {
        match unsigned_of(value) {
            Some(width) => Ok(PatternHeader { width, ..header }),
            None => Err(LifeRLEParseError::InvalidField(HeaderField::Width)),
        }
    } else if key == "y"@ {
        match unsigned_of(value) {
            Some(height) => Ok(PatternHeader { height, ..header }),
            None => Err(LifeRLEParseError::InvalidField(HeaderField::Height)),
        }
    } else if key == "base_x"@ {
        match signed_of(value) {
            Some(base_x) => Ok(PatternHeader { base_x: base_x as i64, ..header }),
            None => Err(LifeRLEParseError::InvalidField(HeaderField::BaseX)),
        }
    } else if key == "base_y"@ {
        match signed_of(value) {
            Some(base_y) => Ok(PatternHeader { base_y: base_y as i64, ..header }),
            None => Err(LifeRLEParseError::InvalidField(HeaderField::BaseY)),
        }
    } else if key == "center"@ {
        match flag_of(value) {
            Some(center) => Ok(PatternHeader { center, ..header }),
            None => Err(LifeRLEParseError::InvalidField(HeaderField::Center)),
        }
    } else {
        Ok(header)
    }
}

/// The header after the pairs of a line have been read into it from left
/// to right. The first pair that fails ends the reading.
pub open spec fn header_after_line(header: PatternHeader, line: Seq<char>) -> Result<
    PatternHeader,
    LifeRLEParseError,
>
    decreases line.len(),
{
    match header_after_pair(header, first_field(line, ',')) {
        Err(e) => Err(e),
        Ok(next) => if has_more(line, ',') {
            proof {
                lemma_field_len(line, ',');
            }
            header_after_line(next, after_first_field(line, ','))
        } else {
            Ok(next)
        },
    }
}

/// What a header line says of its pattern on a board of the given size:
/// its pairs read into a blank header, and the offsets then centred if it
/// asks for that.
pub open spec fn header_of(line: Seq<char>, board_width: u32, board_height: u32) -> Result<
    PatternHeader,
    LifeRLEParseError,
> {
    match header_after_line(PatternHeader::blank(), line) {
        Ok(header) => Ok(header.centered(board_width, board_height)),
        Err(e) => Err(e),
    }
}

/// Reads one `key=value` pair into the header.
pub fn read_pair(header: PatternHeader, pair: &[char]) -> (result: Result<
    PatternHeader,
    LifeRLEParseError,
>)
    ensures
        result == header_after_pair(header, pair@),
        header.is_plain() && result.is_ok() ==> result.unwrap().is_plain(),
{
    let at = find(pair, '=');
    if at >= pair.len() {
        return Ok(header);
    }
    let key = trimmed(slice_subrange(pair, 0, at));
    let value = trimmed(slice_subrange(pair, at + 1, pair.len()));
    if spells(key, "x") {
        match read_unsigned(value) {
            Some(width) => Ok(PatternHeader { width, ..header }),
            None => Err(LifeRLEParseError::InvalidField(HeaderField::Width)),
        }
    } else if spells(key, "y") {
        match read_unsigned(value) {
            Some(height) => Ok(PatternHeader { height, ..header }),
            None => Err(LifeRLEParseError::InvalidField(HeaderField::Height)),
        }
    } else if spells(key, "base_x") {
        match read_signed(value) {
            Some(base_x) => Ok(PatternHeader { base_x: base_x as i64, ..header }),
            None => Err(LifeRLEParseError::InvalidField(HeaderField::BaseX)),
        }
    } else if spells(key, "base_y") {
        match read_signed(value) {
            Some(base_y) => Ok(PatternHeader { base_y: base_y as i64, ..header }),
            None => Err(LifeRLEParseError::InvalidField(HeaderField::BaseY)),
        }
    } else if spells(key, "center") {
        match read_flag(value) {
            Some(center) => Ok(PatternHeader { center, ..header }),
            None => Err(LifeRLEParseError::InvalidField(HeaderField::Center)),
        }
    } else {
        Ok(header)
    }
}

/// Reads the pairs of a line into the header, from left to right.
pub fn read_pairs(header: PatternHeader, line: &[char]) -> (result: Result<
    PatternHeader,
    LifeRLEParseError,
>)
    ensures
        result == header_after_line(header, line@),
        header.is_plain() && result.is_ok() ==> result.unwrap().is_plain(),
{
    let mut current = header;
    let mut rest = line;
    loop
        invariant
            header_after_line(current, rest@) == header_after_line(header, line@),
            header.is_plain() ==> current.is_plain(),
        decreases rest@.len(),
    {
        let at = find(rest, ',');
        match read_pair(current, slice_subrange(rest, 0, at)) {
            Err(e) => {
                return Err(e);
            },
            Ok(next) => {
                current = next;
            },
        }
        if at >= rest.len() {
            return Ok(current);
        }
        rest = slice_subrange(rest, at + 1, rest.len());
    }
}

/// Reads a header line for a board of the given size.
pub fn read_header(line: &[char], board_width: u32, board_height: u32) -> (result: Result<
    PatternHeader,
    LifeRLEParseError,
>)
    ensures
        result == header_of(line@, board_width, board_height),
{
    match read_pairs(PatternHeader::new(), line) {
        Ok(header) => {
            if header.center {
                Ok(
                    PatternHeader {
                        base_x: header.base_x + (board_width / 2) as i64,
                        base_y: header.base_y + (board_height / 2) as i64,
                        ..header
                    },
                )
            } else {
                Ok(header)
            }
        },
        Err(e) => Err(e),
    }
}

} // verus!
