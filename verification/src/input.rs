//! The text form of a maze.
//!
//! The first line gives the number of columns and the number of rows as
//! decimal numbers with a comma between them.  Each further line is a row of
//! the maze: one character per column, `1` for a passable cell and `0` for a
//! blocked one.  White space at the end of a row does not count.

use crate::grid::{DimType, Grid};
use crate::solver::Solver;
use crate::text::{chars_of, copy_range, trim, trim_end, trimmed, trimmed_len};
use vstd::prelude::*;
use vstd::string::StrSliceExecFns;
use vstd::utf8::encode_utf8;

verus! {

/// Why a text is not a dimension.
#[derive(Clone, Copy, Debug, PartialEq, Eq, Structural)]
pub enum NumberError {
    /// There is no character at all.
    Empty,
    /// A character is not a decimal digit, or a sign stands alone.
    InvalidDigit,
    /// The number does not fit a dimension.
    PosOverflow,
}

/// Why a first line gives no dimensions.
#[derive(Clone, Copy, Debug, PartialEq, Eq, Structural)]
pub enum HeaderError {
    /// The line holds no comma.
    TooFewElements,
    /// One of the first two elements is not a dimension.
    Number(NumberError),
}

/// Why a line is not a row of the maze.
#[derive(Clone, Copy, Debug, PartialEq, Eq, Structural)]
pub enum RowError {
    /// The line is not as many bytes long as the maze has columns.
    Length { found: usize },
    /// The line holds a character that is neither `0` nor `1`.
    InvalidCharacter { ch: char },
}

/// The value of a decimal digit.
pub open spec fn digit_value(c: char) -> Option<nat> {
    let u = c as u32;
    if 0x30 <= u <= 0x39 {
        Some((u - 0x30) as nat)
    } else {
        None
    }
}

/// The number that the digits of `s` from place `i` on add to `acc`, read
/// from left to right.  The first character that is no digit, or the first
/// digit with which the number no longer fits a dimension, ends the reading
/// with an error.
pub open spec fn digits_from(s: Seq<char>, i: int, acc: nat) -> Result<nat, NumberError>
    decreases s.len() - i,
{
    if i < 0 || i >= s.len() {
        Ok(acc)
    } else {
        match digit_value(s[i]) {
            None => Err(NumberError::InvalidDigit),
            Some(d) => if acc * 10 + d > DimType::MAX {
                Err(NumberError::PosOverflow)
            } else {
                digits_from(s, i + 1, acc * 10 + d)
            },
        }
    }
}

/// The dimension that `s` denotes: decimal digits, with at most a `+` before
/// them.
pub open spec fn number(s: Seq<char>) -> Result<DimType, NumberError> {
    if s.len() == 0 {
        Err(NumberError::Empty)
    } else if s.len() == 1 && (s[0] == '+' || s[0] == '-') {
        Err(NumberError::InvalidDigit)
    } else {
        match digits_from(s, if s[0] == '+' { 1int } else { 0int }, 0) {
            Ok(v) => Ok(v as DimType),
            Err(e) => Err(e),
        }
    }
}

/// The place of the first comma from `i` on, or the length of `s` if there
/// is none.
pub open spec fn comma_from(s: Seq<char>, i: int) -> int
    decreases s.len() - i,
{
    if 0 <= i < s.len() && s[i] != ',' {
        comma_from(s, i + 1)
    } else {
        i
    }
}

/// The dimensions that a first line gives, columns first.  The line is cut
/// at its commas; the first two parts, without the white space around them,
/// must be dimensions.  Further parts are not looked at.
pub open spec fn header(s: Seq<char>) -> Result<(DimType, DimType), HeaderError> {
    let c0 = comma_from(s, 0);
    let c1 = comma_from(s, c0 + 1);
    if c0 >= s.len() {
        Err(HeaderError::TooFewElements)
    } else {
        match number(trim(s.subrange(0, c0))) {
            Err(e) => Err(HeaderError::Number(e)),
            Ok(x) => match number(trim(s.subrange(c0 + 1, c1))) {
                Err(e) => Err(HeaderError::Number(e)),
                Ok(y) => Ok((x, y)),
            },
        }
    }
}

/// What is wrong with the parts of a first line from place `i` on: for each
/// part that is no dimension, in the order of the parts, why it is none.
pub open spec fn faults_from(s: Seq<char>, i: int) -> Seq<NumberError>
    decreases s.len() - i,
{
    let c = comma_from(s, i);
    let here = match number(trim(s.subrange(i, c))) {
        Err(e) => seq![e],
        Ok(_) => Seq::empty(),
    };
    if 0 <= i <= c < s.len() {
        here + faults_from(s, c + 1)
    } else {
        here
    }
}

/// The character stands for a cell.
pub open spec fn is_cell(c: char) -> bool {
    c == '0' || c == '1'
}

/// The place of the first character from `i` on that stands for no cell, or
/// the length of `s` if there is none.
pub open spec fn stray_from(s: Seq<char>, i: int) -> int
    decreases s.len() - i,
{
    if 0 <= i < s.len() && is_cell(s[i]) {
        stray_from(s, i + 1)
    } else {
        i
    }
}

/// The grid after the first `n` characters of `s` have been read as cells of
/// row `row`: each `1` makes its cell passable.
pub open spec fn with_row(g: Grid, row: DimType, s: Seq<char>, n: int) -> Grid
    decreases n,
{
    if n <= 0 {
        g
    } else {
        let before = with_row(g, row, s, n - 1);
        if s[n - 1] == '1' {
            before.with_passage((row, (n - 1) as DimType))
        } else {
            before
        }
    }
}

/// A text takes at least one byte for each of its characters.
pub proof fn lemma_bytes_per_char(s: Seq<char>)
    ensures
        encode_utf8(s).len() >= s.len(),
    decreases s.len(),
{
    if s.len() > 0 {
        lemma_bytes_per_char(s.drop_first());
    }
}

/// Reads a dimension.
pub fn parse_number(text: &Vec<char>) -> (res: Result<DimType, NumberError>)
    ensures
        res == number(text@),
{
    if text.len() == 0 {
        return Err(NumberError::Empty);
    }
    if text.len() == 1 && (text[0] == '+' || text[0] == '-') {
        return Err(NumberError::InvalidDigit);
    }
    let mut i: usize = if text[0] == '+' { 1 } else { 0 };
    let ghost start = i as int;
    let mut value: DimType = 0;
    while i < text.len()
        invariant
            i <= text.len(),
            number(text@) == match digits_from(text@, start, 0) {
                Ok(v) => Ok(v as DimType),
                Err(e) => Err(e),
            },
            digits_from(text@, i as int, value as nat) == digits_from(text@, start, 0),
        decreases text.len() - i,
    {
        let u = text[i] as u32;
        if !(0x30 <= u && u <= 0x39) {
            return Err(NumberError::InvalidDigit);
        }
        let next = value as u32 * 10 + (u - 0x30);
        if next > DimType::MAX as u32 {
            return Err(NumberError::PosOverflow);
        }
        value = next as DimType;
        i += 1;
    }
    Ok(value)
}

/// Finds the first comma from place `from` on.
fn find_comma(text: &Vec<char>, from: usize) -> (i: usize)
    requires
        from <= text.len(),
    ensures
        i == comma_from(text@, from as int),
        from <= i <= text.len(),
{
    let mut i = from;
    while i < text.len() && text[i] != ','
        invariant
            from <= i <= text.len(),
            comma_from(text@, i as int) == comma_from(text@, from as int),
        decreases text.len() - i,
    {
        i += 1;
    }
    i
}

/// Reads the first line of a maze: the number of columns, then the number
/// of rows.
pub fn parse_header(line: &str) -> (res: Result<(DimType, DimType), HeaderError>)
    ensures
        res == header(line@),
{
    let text = chars_of(line);
    let c0 = find_comma(&text, 0);
    if c0 >= text.len() {
        return Err(HeaderError::TooFewElements);
    }
    let c1 = find_comma(&text, c0 + 1);
    let first = trimmed(&copy_range(&text, 0, c0));
    let second = trimmed(&copy_range(&text, c0 + 1, c1));
    match parse_number(&first) {
        Err(e) => Err(HeaderError::Number(e)),
        Ok(x) => match parse_number(&second) {
            Err(e) => Err(HeaderError::Number(e)),
            Ok(y) => Ok((x, y)),
        },
    }
}

/// Looks at every part of a first line, also at those after the second, and
/// lists what is wrong with the parts that are no dimensions.
pub fn header_faults(line: &str) -> (faults: Vec<NumberError>)
    ensures
        faults@ == faults_from(line@, 0),
{
    let text = chars_of(line);
    let mut faults: Vec<NumberError> = Vec::new();
    let mut i: usize = 0;
    loop
        invariant_except_break
            faults@ + faults_from(text@, i as int) == faults_from(text@, 0),
        invariant
            i <= text.len(),
            text@ == line@,
        ensures
            faults@ == faults_from(text@, 0),
        decreases text.len() - i,
    {
        let c = find_comma(&text, i);
        let ghost before = faults@;
        match parse_number(&trimmed(&copy_range(&text, i, c))) {
            Err(e) => {
                faults.push(e);
            },
            Ok(_) => {},
        }
        if c >= text.len() {
            assert(faults@ =~= before + faults_from(text@, i as int));
            break ;
        }
        assert(faults@ + faults_from(text@, c + 1) =~= before + faults_from(text@, i as int));
        i = c + 1;
    }
    faults
}

/// Reads one line as row `row` of a maze of `cols` columns.  The line,
/// without the white space at its end, must be `cols` bytes long and hold
/// nothing but `0` and `1`; each `1` makes its cell passable.  A line of
/// another length changes nothing.  A line with another character in it has
/// been read up to that character.
pub fn read_row<S: Solver>(solver: &mut S, row: DimType, cols: DimType, line: &str) -> (res: Result<
    (),
    RowError,
>)
    requires
        old(solver).wf(),
        row < old(solver).grid().rows,
        cols == old(solver).grid().cols,
    ensures
        final(solver).wf(),
        ({
            let t = trim_end(line@);
            let stray = stray_from(t, 0);
            match res {
                Err(RowError::Length { found }) => {
                    &&& encode_utf8(t).len() != cols
                    &&& found == encode_utf8(t).len()
                    &&& final(solver).grid() == old(solver).grid()
                },
                Err(RowError::InvalidCharacter { ch }) => {
                    &&& encode_utf8(t).len() == cols
                    &&& stray < t.len()
                    &&& ch == t[stray]
                    &&& final(solver).grid() == with_row(old(solver).grid(), row, t, stray)
                },
                Ok(()) => {
                    &&& encode_utf8(t).len() == cols
                    &&& stray == t.len()
                    &&& final(solver).grid() == with_row(
                        old(solver).grid(),
                        row,
                        t,
                        t.len() as int,
                    )
                },
            }
        }),
{
    let text = chars_of(line);
    let n = trimmed_len(&text);
    let kept = line.substring_char(0, n);
    let found = kept.as_bytes().len();
    let ghost t = trim_end(line@);
    let ghost g0 = solver.grid();
    proof {
        assert(kept@ =~= t);
        assert(t =~= text@.take(n as int));
        lemma_bytes_per_char(t);
        solver.lemma_grid_wf();
    }
    if found != cols as usize {
        return Err(RowError::Length { found });
    }
    let mut ch_no: usize = 0;
    while ch_no < n
        invariant
            solver.wf(),
            ch_no <= n == t.len() <= cols,
            t == trim_end(line@),
            g0 == old(solver).grid(),
            encode_utf8(t).len() == cols,
            n <= text.len(),
            t == text@.take(n as int),
            row < g0.rows,
            cols == g0.cols,
            stray_from(t, ch_no as int) == stray_from(t, 0),
            solver.grid() == with_row(g0, row, t, ch_no as int),
            solver.grid().rows == g0.rows,
            solver.grid().cols == g0.cols,
        decreases n - ch_no,
    {
        let ch = text[ch_no];
        if ch == '1' {
            solver.set_passage(row, ch_no as DimType);
        } else if ch != '0' {
            return Err(RowError::InvalidCharacter { ch });
        }
        ch_no += 1;
    }
    Ok(())
}

} // verus!
