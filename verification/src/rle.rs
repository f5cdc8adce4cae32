//! The decoder of run-length-encoded patterns.
//!
//! A pattern is text. Blank lines and lines that begin with `#` do not
//! count. The first line that counts is the header, a list of `key=value`
//! pairs between commas; the lines after it spell the cells, row by row:
//!
//! ```text
//! #C a glider
//! x = 3, y = 3
//! bob$2bo$3o!
//! ```
//!
//! In the body `b` is a dead cell, `o` one that is alive, `$` ends a row and
//! `!` ends the pattern; a number before `b`, `o` or `$` repeats it.

use crate::body::{ascending, cells_from, decode_body, lemma_cells_from, on_board, yields, Cursor};
use crate::header::{header_of, read_header, PatternHeader};
use crate::text::{
    after_first_field, chars_of, find, first_field, has_more, lemma_field_len, trim, trimmed,
};
use vstd::prelude::*;
use vstd::slice::{slice_subrange, slice_to_vec};
use vstd::string::StringExecFns;

verus! {

/// The header keys whose values are read.
#[derive(Copy, Clone, PartialEq, Eq, Debug, Structural)]
pub enum HeaderField {
    /// `x`, the width of the pattern.
    Width,
    /// `y`, the height of the pattern.
    Height,
    /// `base_x`, the column where the pattern begins.
    BaseX,
    /// `base_y`, the row where the pattern begins.
    BaseY,
    /// `center`, whether the pattern begins at the middle of the board.
    Center,
}

/// Why a pattern could not be decoded.
#[derive(Copy, Clone, PartialEq, Eq, Debug, Structural)]
pub enum LifeRLEParseError {
    /// No line of the text counts.
    Empty,
    /// The header gives this field a value that cannot be read.
    InvalidField(HeaderField),
    /// The body holds this character, which means nothing there.
    InvalidChar(char),
    /// The pattern ends right after a run length.
    DanglingLength,
}

/// `String::push` of the standard library: appends one character to the
/// end of the string.
#[verifier::external_body]
fn push_char(text: &mut String, c: char)
    ensures
        final(text)@ == old(text)@.push(c),
{
    text.push(c);
}

impl LifeRLEParseError {
    /// What is wrong, in words.
    pub open spec fn reason(self) -> Seq<char> {
        match self {
            LifeRLEParseError::Empty => "empty rle found"@,
            LifeRLEParseError::InvalidField(HeaderField::Width) => "invalid width found"@,
            LifeRLEParseError::InvalidField(HeaderField::Height) => "invalid height found"@,
            LifeRLEParseError::InvalidField(HeaderField::BaseX) => "invalid base x found"@,
            LifeRLEParseError::InvalidField(HeaderField::BaseY) => "invalid base y found"@,
            LifeRLEParseError::InvalidField(HeaderField::Center) => "invalid center value found"@,
            LifeRLEParseError::InvalidChar(c) => "invalid char `"@.push(c) + "` found"@,
            LifeRLEParseError::DanglingLength => "invalid length found"@,
        }
    }

    /// The error as a line for people to read: that there was an error in
    /// the pattern, and what is wrong.
    pub fn message(&self) -> (text: String)
        ensures
            text@ == "rle parse error, "@ + self.reason(),
    {
        let mut text = String::from_str("rle parse error, ");
        match self {
            LifeRLEParseError::Empty => text.append("empty rle found"),
            LifeRLEParseError::InvalidField(HeaderField::Width) => text.append(
                "invalid width found",
            ),
            LifeRLEParseError::InvalidField(HeaderField::Height) => text.append(
                "invalid height found",
            ),
            LifeRLEParseError::InvalidField(HeaderField::BaseX) => text.append(
                "invalid base x found",
            ),
            LifeRLEParseError::InvalidField(HeaderField::BaseY) => text.append(
                "invalid base y found",
            ),
            LifeRLEParseError::InvalidField(HeaderField::Center) => text.append(
                "invalid center value found",
            ),
            LifeRLEParseError::InvalidChar(c) => {
                text.append("invalid char `");
                push_char(&mut text, *c);
                text.append("` found");
                assert(text@ =~= "rle parse error, "@ + ("invalid char `"@.push(*c) + "` found"@));
            },
            LifeRLEParseError::DanglingLength => text.append("invalid length found"),
        }
        text
    }
}

/// A line is skipped if it is blank or a comment: if nothing is left of
/// it when it is trimmed, or what is left begins with `#`.
pub open spec fn is_skipped(line: Seq<char>) -> bool {
    trim(line).len() == 0 || trim(line).first() == '#'
}

/// The lines of the text that count, each of them trimmed, from first to
/// last. A line ends at a line feed or at the end of the text.
pub open spec fn usable_lines(text: Seq<char>) -> Seq<Seq<char>>
    decreases text.len(),
{
    let line = first_field(text, '\n');
    let kept = if is_skipped(line) {
        Seq::<Seq<char>>::empty()
    } else {
        seq![trim(line)]
    };
    if has_more(text, '\n') {
        proof {
            lemma_field_len(text, '\n');
        }
        kept + usable_lines(after_first_field(text, '\n'))
    } else {
        kept
    }
}

/// The lines as sequences of characters.
pub open spec fn line_views(lines: Seq<Vec<char>>) -> Seq<Seq<char>> {
    lines.map_values(|line: Vec<char>| line@)
}

/// Splits the text into its lines, trims each and drops those that are
/// blank or comments.
pub fn split_lines(text: &[char]) -> (lines: Vec<Vec<char>>)
    ensures
        line_views(lines@) == usable_lines(text@),
{
    let mut lines: Vec<Vec<char>> = Vec::new();
    let mut rest = text;
    loop
        invariant
            line_views(lines@) + usable_lines(rest@) == usable_lines(text@),
        decreases rest@.len(),
    {
        let at = find(rest, '\n');
        let line = trimmed(slice_subrange(rest, 0, at));
        let ghost before = lines@;
        if line.len() > 0 && line[0] != '#' {
            lines.push(slice_to_vec(line));
            assert(line_views(lines@) =~= line_views(before).push(line@));
        }
        if at >= rest.len() {
            assert(line_views(lines@) =~= line_views(before) + usable_lines(rest@));
            return lines;
        }
        assert(line_views(lines@) + usable_lines(rest@.skip(at + 1)) =~= line_views(before)
            + usable_lines(rest@));
        rest = slice_subrange(rest, at + 1, rest.len());
    }
}

/// The body of a pattern: its lines after the first, which is the header,
/// one after the other as one text.
pub open spec fn pattern_body(lines: Seq<Seq<char>>) -> Seq<char> {
    if lines.len() == 0 {
        Seq::empty()
    } else {
        lines.drop_first().flatten()
    }
}

/// Joins the lines after the first into one text.
pub fn join_body(lines: &Vec<Vec<char>>) -> (text: Vec<char>)
    ensures
        text@ == pattern_body(line_views(lines@)),
{
    let ghost all = line_views(lines@);
    let mut text: Vec<char> = Vec::new();
    if lines.len() == 0 {
        return text;
    }
    let mut i: usize = 1;
    assert(all.skip(1) =~= all.drop_first());
    while i < lines.len()
        invariant
            1 <= i <= lines@.len(),
            all == line_views(lines@),
            text@ + all.skip(i as int).flatten() == pattern_body(all),
        decreases lines@.len() - i,
    {
        let line = &lines[i];
        let ghost before = text@;
        let mut k: usize = 0;
        while k < line.len()
            invariant
                k <= line@.len(),
                text@ == before + line@.take(k as int),
            decreases line@.len() - k,
        {
            text.push(line[k]);
            assert(line@.take(k + 1) =~= line@.take(k as int).push(line@[k as int]));
            k += 1;
        }
        proof {
            assert(line@.take(line@.len() as int) =~= line@);
            assert(all.skip(i as int).first() == line@);
            assert(all.skip(i as int).drop_first() =~= all.skip(i + 1));
            assert(text@ + all.skip(i + 1).flatten() =~= before + all.skip(i as int).flatten());
        }
        i += 1;
    }
    assert(all.skip(lines@.len() as int).flatten() =~= Seq::<char>::empty());
    text
}

/// What decoding a pattern for a board of the given size yields: the
/// coordinates of its living cells that lie on the board, or the error.
/// The first line that counts is the header; the lines after it, one
/// after the other, are the body.
pub open spec fn decode(text: Seq<char>, board_width: u32, board_height: u32) -> Result<
    Seq<(u32, u32)>,
    LifeRLEParseError,
> {
    let lines = usable_lines(text);
    if lines.len() == 0 {
        Err(LifeRLEParseError::Empty)
    } else {
        match header_of(lines.first(), board_width, board_height) {
            Err(e) => Err(e),
            Ok(header) => cells_from(
                pattern_body(lines),
                Cursor::start(),
                header,
                board_width,
                board_height,
            ),
        }
    }
}

/// Decoding yields only cells of the board, in row-major order, so that
/// no cell comes out twice.
pub proof fn lemma_decode(text: Seq<char>, board_width: u32, board_height: u32)
    ensures
        decode(text, board_width, board_height) matches Ok(cells) ==> on_board(
            cells,
            board_width,
            board_height,
        ) && ascending(cells),
{
    let lines = usable_lines(text);
    if lines.len() > 0 {
        match header_of(lines.first(), board_width, board_height) {
            Err(e) => {},
            Ok(header) => {
                lemma_cells_from(
                    pattern_body(lines),
                    Cursor::start(),
                    header,
                    board_width,
                    board_height,
                );
            },
        }
    }
}

/// What a decoder holds: the text of the pattern, the size of the board
/// that the pattern is decoded for, and the header that was read last.
pub struct ParserModel {
    pub text: Seq<char>,
    pub board_width: u32,
    pub board_height: u32,
    pub header: PatternHeader,
}

impl ParserModel {
    /// The same, with another header.
    pub open spec fn with_header(self, header: PatternHeader) -> ParserModel {
        ParserModel { header, ..self }
    }

    /// What reading the line as a header leaves behind: the header that
    /// the line gives, or the old one if it cannot be read.
    pub open spec fn after_header_line(self, line: Seq<char>) -> ParserModel {
        match header_of(line, self.board_width, self.board_height) {
            Ok(header) => self.with_header(header),
            Err(e) => self,
        }
    }

    /// What decoding leaves behind: the header of the text, if it has one
    /// that can be read.
    pub open spec fn after_decoding(self) -> ParserModel {
        if usable_lines(self.text).len() == 0 {
            self
        } else {
            self.after_header_line(usable_lines(self.text).first())
        }
    }
}

/// A decoder of one pattern for a board of one size.
#[derive(Debug)]
pub struct LifeRLEParser<'a> {
    rle: &'a str,
    board_width: u32,
    board_height: u32,
    header: PatternHeader,
}

impl<'a> View for LifeRLEParser<'a> {
    type V = ParserModel;

    closed spec fn view(&self) -> ParserModel {
        ParserModel {
            text: self.rle@,
            board_width: self.board_width,
            board_height: self.board_height,
            header: self.header,
        }
    }
}

impl<'a> LifeRLEParser<'a> {
    /// A decoder of the pattern `rle` for a board of the given size. Of
    /// each dimension the low 32 bits count.
    pub fn new(rle: &'a str, board_width: usize, board_height: usize) -> (parser: LifeRLEParser<'a>)
        ensures
            parser@.text == rle@,
            parser@.board_width == board_width as u32,
            parser@.board_height == board_height as u32,
            parser@.header == PatternHeader::blank(),
    {
        LifeRLEParser {
            rle,
            board_width: #[verifier::truncate]
            (board_width as u32),
            board_height: #[verifier::truncate]
            (board_height as u32),
            header: PatternHeader::new(),
        }
    }

    /// The header that was read last; a blank one before any was read.
    pub fn header(&self) -> (header: PatternHeader)
        ensures
            header == self@.header,
    {
        self.header
    }

    /// Reads a header line. Where it cannot be read, the decoder keeps the
    /// header it had.
    pub fn parse_rle_header_line(&mut self, line: &str) -> (result: Result<(), LifeRLEParseError>)
        ensures
            final(self)@ == old(self)@.after_header_line(line@),
            header_of(line@, old(self)@.board_width, old(self)@.board_height) matches Err(e)
                ==> result == Err::<(), LifeRLEParseError>(e),
            header_of(line@, old(self)@.board_width, old(self)@.board_height).is_ok()
                ==> result.is_ok(),
    {
        let chars = chars_of(line);
        match read_header(chars.as_slice(), self.board_width, self.board_height) {
            Ok(header) => {
                self.header = header;
                Ok(())
            },
            Err(e) => Err(e),
        }
    }

    /// Decodes the pattern: the coordinates on the board of its living
    /// cells that lie on the board, in row-major order; or the error, and
    /// then no coordinates at all.
    pub fn parse_rle(&mut self) -> (result: Result<Vec<(u32, u32)>, LifeRLEParseError>)
        ensures
            yields(result, decode(old(self)@.text, old(self)@.board_width, old(self)@.board_height)),
            result.is_ok() ==> ascending(result.unwrap()@) && on_board(
                result.unwrap()@,
                old(self)@.board_width,
                old(self)@.board_height,
            ),
            final(self)@ == old(self)@.after_decoding(),
    {
        proof {
            lemma_decode(self@.text, self@.board_width, self@.board_height);
        }
        let text = chars_of(self.rle);
        let lines = split_lines(text.as_slice());
        if lines.len() == 0 {
            return Err(LifeRLEParseError::Empty);
        }
        assert(line_views(lines@).first() == lines@[0]@);
        let header = match read_header(lines[0].as_slice(), self.board_width, self.board_height) {
            Ok(header) => header,
            Err(e) => {
                return Err(e);
            },
        };
        self.header = header;
        let body = join_body(&lines);
        decode_body(body.as_slice(), header, self.board_width, self.board_height)
    }
}

} // verus!
