//! The text form of block sequences: one line of text for each line of the puzzle,
//! its block lengths as decimal numbers with one space between them.

use crate::line::block_lengths;
use crate::puzzle_info::blocks_view;
use vstd::prelude::*;

verus! {

/// The byte that ends a line of text.
pub const NEWLINE: u8 = 10;

/// The byte that may stand before `NEWLINE` and is then part of the line ending.
pub const RETURN: u8 = 13;

/// The byte between two numbers.
pub const SPACE: u8 = 32;

/// The sign that may stand before the digits of a number.
pub const PLUS: u8 = 43;

/// The digit zero; the other nine digits follow it.
pub const ZERO: u8 = 48;

/// Why a piece of text is not a number.
#[derive(Debug, Clone, Copy, PartialEq, Eq, Structural)]
pub enum ParseError {
    /// There is no text where a number must stand: the line is empty, or it begins or
    /// ends with a space, or two spaces follow each other.
    Empty,
    /// A byte that is no decimal digit, or a sign without digits.
    InvalidDigit,
    /// The number is too large for `usize`.
    Overflow,
}

/// Whether the byte is a decimal digit.
pub open spec fn is_digit(b: u8) -> bool {
    ZERO <= b <= ZERO + 9
}

/// How many bytes of `s` stand before the first `sep`; all of them if there is none.
pub open spec fn first_index(s: Seq<u8>, sep: u8) -> nat
    decreases s.len(),
{
    if s.len() == 0 || s[0] == sep {
        0
    } else {
        1 + first_index(s.skip(1), sep)
    }
}

/// The number that the digits continue from `acc`, read from left to right. Reading
/// stops at the first byte that is no digit and where the number outgrows `usize`.
pub open spec fn number_after(acc: nat, digits: Seq<u8>) -> Result<nat, ParseError>
    decreases digits.len(),
{
    if digits.len() == 0 {
        Ok(acc)
    } else if !is_digit(digits[0]) {
        Err(ParseError::InvalidDigit)
    } else if acc * 10 + (digits[0] - ZERO) > usize::MAX {
        Err(ParseError::Overflow)
    } else {
        number_after((acc * 10 + (digits[0] - ZERO)) as nat, digits.skip(1))
    }
}

/// The number that a field holds: decimal digits, at least one, after at most one `+`.
pub open spec fn parsed_number(field: Seq<u8>) -> Result<nat, ParseError> {
    if field.len() == 0 {
        Err(ParseError::Empty)
    } else {
        let digits = if field[0] == PLUS {
            field.skip(1)
        } else {
            field
        };
        if digits.len() == 0 {
            Err(ParseError::InvalidDigit)
        } else {
            number_after(0, digits)
        }
    }
}

/// The numbers of a line of text. Every space ends a field, so a line has one field
/// more than it has spaces, and the first field that is no number fails the line.
pub open spec fn parsed_line(line: Seq<u8>) -> Result<Seq<nat>, ParseError>
    decreases line.len(),
{
    let end = first_index(line, SPACE);
    match parsed_number(line.take(end as int)) {
        Err(e) => Err(e),
        Ok(n) => if end >= line.len() {
            Ok(seq![n])
        } else {
            match parsed_line(line.skip(end as int + 1)) {
                Err(e) => Err(e),
                Ok(rest) => Ok(seq![n] + rest),
            }
        },
    }
}

/// The line without the `RETURN` at its end, if it has one.
pub open spec fn without_return(line: Seq<u8>) -> Seq<u8> {
    if line.len() > 0 && line.last() == RETURN {
        line.drop_last()
    } else {
        line
    }
}

/// The block sequences that a text holds, one for each of its lines. A line ends with
/// `NEWLINE`, or with `RETURN` and `NEWLINE`; the last line may end with the text. The
/// first line that does not parse fails the text.
pub open spec fn parsed_blocks(content: Seq<u8>) -> Result<Seq<Seq<nat>>, ParseError>
    decreases content.len(),
{
    if content.len() == 0 {
        Ok(Seq::empty())
    } else {
        let end = first_index(content, NEWLINE);
        let line = if end >= content.len() {
            content
        } else {
            without_return(content.take(end as int))
        };
        match parsed_line(line) {
            Err(e) => Err(e),
            Ok(blocks) => if end >= content.len() {
                Ok(seq![blocks])
            } else {
                match parsed_blocks(content.skip(end as int + 1)) {
                    Err(e) => Err(e),
                    Ok(rest) => Ok(seq![blocks] + rest),
                }
            },
        }
    }
}

/// The place of the first `sep` in `content[from..to]`, or `to` if there is none.
fn find_byte(content: &[u8], from: usize, to: usize, sep: u8) -> (at: usize)
    requires
        from <= to <= content@.len(),
    ensures
        from <= at <= to,
        at - from == first_index(content@.subrange(from as int, to as int), sep),
        at < to ==> content@[at as int] == sep,
{
    let mut at = from;
    while at < to && content[at] != sep
        invariant
            from <= at <= to <= content@.len(),
            first_index(content@.subrange(from as int, to as int), sep) == (at - from)
                + first_index(content@.subrange(at as int, to as int), sep),
        decreases to - at,
    {
        proof {
            let rest = content@.subrange(at as int, to as int);
            assert(rest[0] == content@[at as int]);
            assert(rest.skip(1) =~= content@.subrange(at + 1, to as int));
        }
        at += 1;
    }
    proof {
        let rest = content@.subrange(at as int, to as int);
        if at < to {
            assert(rest[0] == content@[at as int]);
        }
    }
    at
}

/// The number that stands in `content[from..to]`.
fn parse_number(content: &[u8], from: usize, to: usize) -> (r: Result<usize, ParseError>)
    requires
        from <= to <= content@.len(),
    ensures
        match r {
            Ok(n) => parsed_number(content@.subrange(from as int, to as int)) == Ok::<
                nat,
                ParseError,
            >(n as nat),
            Err(e) => parsed_number(content@.subrange(from as int, to as int)) == Err::<
                nat,
                ParseError,
            >(e),
        },
{
    let ghost field = content@.subrange(from as int, to as int);
    if from == to {
        return Err(ParseError::Empty);
    }
    let mut i = from;
    assert(field[0] == content@[from as int]);
    if content[from] == PLUS {
        i = from + 1;
        assert(field.skip(1) =~= content@.subrange(i as int, to as int));
    }
    if i == to {
        return Err(ParseError::InvalidDigit);
    }
    let mut acc: usize = 0;
    while i < to
        invariant
            from <= i <= to <= content@.len(),
            field == content@.subrange(from as int, to as int),
            parsed_number(field) == number_after(acc as nat, content@.subrange(i as int, to as int)),
        decreases to - i,
    {
        let ghost digits = content@.subrange(i as int, to as int);
        let b = content[i];
        proof {
            assert(digits[0] == b);
            assert(digits.skip(1) =~= content@.subrange(i + 1, to as int));
        }
        if b < ZERO || b > ZERO + 9 {
            return Err(ParseError::InvalidDigit);
        }
        let digit = (b - ZERO) as usize;
        let tenfold = match acc.checked_mul(10) {
            None => {
                return Err(ParseError::Overflow);
            },
            Some(tenfold) => tenfold,
        };
        acc = match tenfold.checked_add(digit) {
            None => {
                return Err(ParseError::Overflow);
            },
            Some(sum) => sum,
        };
        i += 1;
    }
    Ok(acc)
}

/// `r` with the numbers in `done` before it.
spec fn after_numbers(done: Seq<nat>, r: Result<Seq<nat>, ParseError>) -> Result<
    Seq<nat>,
    ParseError,
> {
    match r {
        Err(e) => Err(e),
        Ok(rest) => Ok(done + rest),
    }
}

/// `r` with the block sequences in `done` before it.
spec fn after_lines(done: Seq<Seq<nat>>, r: Result<Seq<Seq<nat>>, ParseError>) -> Result<
    Seq<Seq<nat>>,
    ParseError,
> {
    match r {
        Err(e) => Err(e),
        Ok(rest) => Ok(done + rest),
    }
}

/// The numbers that stand in the line `content[from..to]`.
fn parse_line(content: &[u8], from: usize, to: usize) -> (r: Result<Vec<usize>, ParseError>)
    requires
        from <= to <= content@.len(),
    ensures
        match r {
            Ok(numbers) => parsed_line(content@.subrange(from as int, to as int)) == Ok::<
                Seq<nat>,
                ParseError,
            >(block_lengths(numbers@)),
            Err(e) => parsed_line(content@.subrange(from as int, to as int)) == Err::<
                Seq<nat>,
                ParseError,
            >(e),
        },
{
    let ghost line = content@.subrange(from as int, to as int);
    let mut numbers: Vec<usize> = Vec::new();
    let mut start = from;
    assert(Seq::<nat>::empty() + block_lengths(numbers@) =~= block_lengths(numbers@));
    loop
        invariant_except_break
            from <= start <= to <= content@.len(),
            line == content@.subrange(from as int, to as int),
            parsed_line(line) == after_numbers(
                block_lengths(numbers@),
                parsed_line(content@.subrange(start as int, to as int)),
            ),
        ensures
            parsed_line(line) == Ok::<Seq<nat>, ParseError>(block_lengths(numbers@)),
        decreases to - start,
    {
        let ghost rest = content@.subrange(start as int, to as int);
        let ghost done = block_lengths(numbers@);
        let end = find_byte(content, start, to, SPACE);
        proof {
            assert(rest.take(end - start) =~= content@.subrange(start as int, end as int));
            if end < to {
                assert(rest.skip(end - start + 1) =~= content@.subrange(end + 1, to as int));
            }
        }
        match parse_number(content, start, end) {
            Err(e) => {
                return Err(e);
            },
            Ok(n) => {
                numbers.push(n);
                proof {
                    assert(block_lengths(numbers@) =~= done + seq![n as nat]);
                    if end < to {
                        match parsed_line(content@.subrange(end + 1, to as int)) {
                            Ok(later) => {
                                assert(done + (seq![n as nat] + later) =~= (done + seq![n as nat])
                                    + later);
                            },
                            Err(_) => {},
                        }
                    }
                }
            },
        }
        if end == to {
            break ;
        }
        start = end + 1;
    }
    Ok(numbers)
}

/// Reads the block sequences of the lines of a text. Each line of text holds the block
/// lengths of one line of the puzzle, in decimal digits, with one space between two
/// numbers. A text without bytes has no lines; a line without bytes is an error, as is
/// any other text where a number must stand and none does.
pub fn parse_blocks(content: &[u8]) -> (r: Result<Vec<Vec<usize>>, ParseError>)
    ensures
        match r {
            Ok(blocks) => parsed_blocks(content@) == Ok::<Seq<Seq<nat>>, ParseError>(
                blocks_view(blocks@),
            ),
            Err(e) => parsed_blocks(content@) == Err::<Seq<Seq<nat>>, ParseError>(e),
        },
{
    let mut blocks: Vec<Vec<usize>> = Vec::new();
    let mut start: usize = 0;
    let len = content.len();
    proof {
        assert(content@.subrange(0, len as int) =~= content@);
        match parsed_blocks(content@) {
            Ok(all) => {
                assert(blocks_view(blocks@) + all =~= all);
            },
            Err(_) => {},
        }
    }
    while start < len
        invariant
            start <= len == content@.len(),
            parsed_blocks(content@) == after_lines(
                blocks_view(blocks@),
                parsed_blocks(content@.subrange(start as int, len as int)),
            ),
        decreases len - start,
    {
        let ghost rest = content@.subrange(start as int, len as int);
        let ghost done = blocks_view(blocks@);
        let end = find_byte(content, start, len, NEWLINE);
        let line_end = if end < len && start < end && content[end - 1] == RETURN {
            end - 1
        } else {
            end
        };
        proof {
            let line = rest.take(end - start);
            assert(line =~= content@.subrange(start as int, end as int));
            if end < len {
                assert(rest.skip(end - start + 1) =~= content@.subrange(end + 1, len as int));
                if start < end {
                    assert(line.last() == content@[end - 1]);
                }
                assert(without_return(line) =~= content@.subrange(start as int, line_end as int));
            } else {
                assert(rest =~= content@.subrange(start as int, line_end as int));
            }
        }
        match parse_line(content, start, line_end) {
            Err(e) => {
                return Err(e);
            },
            Ok(numbers) => {
                let ghost parsed = block_lengths(numbers@);
                blocks.push(numbers);
                proof {
                    assert(blocks_view(blocks@) =~= done + seq![parsed]);
                    if end < len {
                        match parsed_blocks(content@.subrange(end + 1, len as int)) {
                            Ok(later) => {
                                assert(done + (seq![parsed] + later) =~= (done + seq![parsed])
                                    + later);
                            },
                            Err(_) => {},
                        }
                    } else {
                        assert(content@.subrange(len as int, len as int).len() == 0);
                        assert(done + seq![parsed] =~= (done + seq![parsed]) + Seq::<
                            Seq<nat>,
                        >::empty());
                    }
                }
            },
        }
        if end == len {
            start = len;
        } else {
            start = end + 1;
        }
    }
    proof {
        assert(content@.subrange(len as int, len as int).len() == 0);
        assert(blocks_view(blocks@) + Seq::<Seq<nat>>::empty() =~= blocks_view(blocks@));
    }
    Ok(blocks)
}

} // verus!
