//! Lines, offsets and positions.
//!
//! A position counts lines from zero, and bytes from the start of the line.
use crate::ascii::{CR, LF};
use crate::text;
use vstd::prelude::*;
use vstd::string::*;
use vstd::utf8::*;

verus! {

/// A place in a document.
#[derive(Clone, Copy, Debug, PartialEq, Eq, Structural)]
pub struct Position {
    /// The line, counted from zero.
    pub line: u32,
    /// The byte within the line, counted from zero.
    pub character: u32,
}

/// The part of a document from `start` up to, but not with, `end`.
#[derive(Clone, Copy, Debug, PartialEq, Eq, Structural)]
pub struct Range {
    /// Where the part starts.
    pub start: Position,
    /// Where the part ends.
    pub end: Position,
}

/// Where the lines start that start within the first `n` bytes of `b`, or right behind them.
pub open spec fn starts_upto(b: Seq<u8>, n: int) -> Seq<int>
    decreases n,
{
    if n <= 0 {
        seq![0int]
    } else if b[n - 1] == LF {
        starts_upto(b, n - 1).push(n)
    } else {
        starts_upto(b, n - 1)
    }
}

/// Where the lines of `b` start: at zero, and behind each line feed.
pub open spec fn starts_of(b: Seq<u8>) -> Seq<int> {
    starts_upto(b, b.len() as int)
}

/// A table of offsets as integers.
pub open spec fn ints(ls: Seq<usize>) -> Seq<int> {
    ls.map_values(|x: usize| x as int)
}

/// Whether the entries of `ls` grow.
pub open spec fn growing(ls: Seq<int>) -> bool {
    forall|i: int, j: int| 0 <= i < j < ls.len() ==> ls[i] < ls[j]
}

/// The last line that starts at or before `offset`; line zero where none does.
pub open spec fn line_of(ls: Seq<int>, offset: int) -> int
    decreases ls.len(),
{
    if ls.len() <= 1 {
        0
    } else if ls.last() <= offset {
        ls.len() - 1
    } else {
        line_of(ls.drop_last(), offset)
    }
}

/// The position of `offset` in a document whose lines start at `ls`.
pub open spec fn position_at(ls: Seq<int>, offset: int) -> Position {
    let line = line_of(ls, offset);
    Position {
        line: line as u32,
        character: (if ls[line] <= offset {
            offset - ls[line]
        } else {
            0
        }) as u32,
    }
}

/// The part of a document, whose lines start at `ls`, between two offsets.
pub open spec fn range_at(ls: Seq<int>, from: int, to: int) -> Range {
    Range { start: position_at(ls, from), end: position_at(ls, to) }
}

/// The offset of a position; a line that does not exist counts as starting at zero.
pub open spec fn offset_at(ls: Seq<int>, line: int, character: int) -> int {
    if 0 <= line < ls.len() {
        ls[line] + character
    } else {
        character
    }
}

/// The number of lines of `b`, where a last line without any byte does not count.
pub open spec fn line_count(b: Seq<u8>) -> int {
    let ls = starts_of(b);
    if ls.last() == b.len() {
        ls.len() - 1
    } else {
        ls.len() as int
    }
}

/// Where line `k` of `b` ends, without its line ending (a line feed, or a carriage return and a
/// line feed).
pub open spec fn line_end(b: Seq<u8>, k: int) -> int {
    let ls = starts_of(b);
    if k + 1 < ls.len() {
        let lf = ls[k + 1] - 1;
        if lf > ls[k] && b[lf - 1] == CR {
            lf - 1
        } else {
            lf
        }
    } else {
        b.len() as int
    }
}

/// The bytes of line `k` of `b`, without its line ending.
pub open spec fn line_bytes(b: Seq<u8>, k: int) -> Seq<u8> {
    b.subrange(starts_of(b)[k], line_end(b, k))
}

/// The bytes of line `k` of `b`, with the line feed that ends it.
pub open spec fn full_line_bytes(b: Seq<u8>, k: int) -> Seq<u8> {
    let ls = starts_of(b);
    b.subrange(
        ls[k],
        if k + 1 < ls.len() {
            ls[k + 1]
        } else {
            b.len() as int
        },
    )
}

/// The lines of a text start at zero and behind each line feed, in growing order.
pub proof fn lemma_starts(b: Seq<u8>, n: int)
    requires
        0 <= n <= b.len(),
    ensures
        starts_upto(b, n).len() >= 1,
        starts_upto(b, n)[0] == 0,
        growing(starts_upto(b, n)),
        forall|i: int| 0 <= i < starts_upto(b, n).len() ==> 0 <= #[trigger] starts_upto(b, n)[i] <= n,
        forall|i: int|
            0 < i < starts_upto(b, n).len() ==> #[trigger] starts_upto(b, n)[i] > 0
                && b[starts_upto(b, n)[i] - 1] == LF,
        starts_upto(b, n).len() <= n + 1,
    decreases n,
{
    if n > 0 {
        lemma_starts(b, n - 1);
    }
}

/// In a growing table, the line of an offset is the one that starts at or before it while the next
/// starts behind it.
pub proof fn lemma_line_of(ls: Seq<int>, offset: int, line: int)
    requires
        growing(ls),
        0 <= line < ls.len(),
        line == 0 || ls[line] <= offset,
        line + 1 < ls.len() ==> ls[line + 1] > offset,
    ensures
        line_of(ls, offset) == line,
    decreases ls.len(),
{
    if ls.len() > 1 {
        if line < ls.len() - 1 {
            if line + 1 < ls.len() - 1 {
                assert(ls[line + 1] < ls[ls.len() - 1]);
            }
            lemma_line_of(ls.drop_last(), offset, line);
        }
    }
}

/// Lists where the lines of `text` start.
pub fn line_starts(text: &str) -> (v: Vec<usize>)
    ensures
        ints(v@) == starts_of(text.spec_bytes()),
        text.spec_bytes().len() <= usize::MAX,
{
    let bytes = text.as_bytes();
    let mut v: Vec<usize> = Vec::new();
    v.push(0);
    let mut i: usize = 0;
    assert(ints(v@) =~= starts_upto(bytes@, 0));
    while i < bytes.len()
        invariant
            i <= bytes@.len(),
            ints(v@) == starts_upto(bytes@, i as int),
        decreases bytes@.len() - i,
    {
        if bytes[i] == LF {
            let ghost before = v@;
            v.push(i + 1);
            assert(ints(v@) =~= ints(before).push(i + 1));
        }
        i += 1;
    }
    v
}

/// The offset of a position in a document whose lines start at `ls`, held at the largest `usize`.
pub fn offset_of(ls: &[usize], line: u32, character: u32) -> (r: usize)
    ensures
        r == if offset_at(ints(ls@), line as int, character as int) <= usize::MAX {
            offset_at(ints(ls@), line as int, character as int)
        } else {
            usize::MAX as int
        },
{
    let start: usize = if (line as usize) < ls.len() {
        ls[line as usize]
    } else {
        0
    };
    start.saturating_add(character as usize)
}

/// The position of `offset` in a document whose lines start at `ls`.
pub fn position_of(ls: &[usize], offset: usize) -> (r: Position)
    requires
        ls@.len() > 0,
        growing(ints(ls@)),
    ensures
        r == position_at(ints(ls@), offset as int),
{
    let mut lo: usize = 0;
    let mut hi: usize = ls.len();
    while lo < hi
        invariant
            lo <= hi <= ls@.len(),
            growing(ints(ls@)),
            forall|k: int| 0 <= k < lo ==> ls@[k] <= offset,
            forall|k: int| hi <= k < ls@.len() ==> ls@[k] > offset,
        decreases hi - lo,
    {
        let mid: usize = lo + (hi - lo) / 2;
        proof {
            assert forall|k: int| 0 <= k < ls@.len() && k != mid implies if k < mid {
                ls@[k] < ls@[mid as int]
            } else {
                ls@[k] > ls@[mid as int]
            } by {
                assert(ints(ls@)[k] == ls@[k]);
                assert(ints(ls@)[mid as int] == ls@[mid as int]);
            }
        }
        if ls[mid] <= offset {
            lo = mid + 1;
        } else {
            hi = mid;
        }
    }
    let line: usize = lo.saturating_sub(1);
    proof {
        lemma_line_of(ints(ls@), offset as int, line as int);
    }
    let character: usize = offset.saturating_sub(ls[line]);
    Position { line: line as u32, character: character as u32 }
}

/// The bounds of a line lie on character boundaries and in order.
pub proof fn lemma_line_bounds(b: Seq<u8>, k: int)
    requires
        valid_utf8(b),
        0 <= k < starts_of(b).len(),
    ensures
        0 <= starts_of(b)[k] <= line_end(b, k) <= b.len(),
        is_char_boundary(b, starts_of(b)[k]),
        is_char_boundary(b, line_end(b, k)),
        k + 1 < starts_of(b).len() ==> starts_of(b)[k] <= line_end(b, k) < starts_of(b)[k + 1]
            && is_char_boundary(b, starts_of(b)[k + 1]),
        is_char_boundary(b, b.len() as int),
        valid_utf8(line_bytes(b, k)),
        valid_utf8(full_line_bytes(b, k)),
{
    let ls = starts_of(b);
    lemma_starts(b, b.len() as int);
    is_char_boundary_start_end_of_seq(b);
    if k > 0 {
        text::lemma_ascii_boundary(b, ls[k] - 1);
    }
    if k + 1 < ls.len() {
        assert(ls[k] < ls[k + 1]);
        text::lemma_ascii_boundary(b, ls[k + 1] - 1);
        let lf = ls[k + 1] - 1;
        if lf > ls[k] && b[lf - 1] == CR {
            text::lemma_ascii_boundary(b, lf - 1);
        }
        text::lemma_between_boundaries(b, ls[k], ls[k + 1]);
    } else {
        text::lemma_between_boundaries(b, ls[k], b.len() as int);
    }
    text::lemma_between_boundaries(b, ls[k], line_end(b, k));
}

/// Line `k` of `text`, without its line ending.
pub fn line_text<'a>(text: &'a str, ls: &[usize], k: usize) -> (r: &'a str)
    requires
        ints(ls@) == starts_of(text.spec_bytes()),
        k < ls@.len(),
    ensures
        r.spec_bytes() == line_bytes(text.spec_bytes(), k as int),
{
    let bytes = text.as_bytes();
    proof {
        text::lemma_str_bytes(text);
        lemma_line_bounds(bytes@, k as int);
        assert(forall|i: int| 0 <= i < ls@.len() ==> ints(ls@)[i] == #[trigger] ls@[i]);
        lemma_starts(bytes@, bytes@.len() as int);
    }
    let start: usize = ls[k];
    let mut end: usize = bytes.len();
    if ls.len() - k > 1 {
        end = ls[k + 1] - 1;
        if end > start && bytes[end - 1] == CR {
            end = end - 1;
        }
    }
    text::slice_str(text, start, end)
}

/// Line `k` of `text`, with the line feed that ends it.
pub fn full_line_text<'a>(text: &'a str, ls: &[usize], k: usize) -> (r: &'a str)
    requires
        ints(ls@) == starts_of(text.spec_bytes()),
        k < ls@.len(),
    ensures
        r.spec_bytes() == full_line_bytes(text.spec_bytes(), k as int),
{
    let bytes = text.as_bytes();
    proof {
        text::lemma_str_bytes(text);
        lemma_line_bounds(bytes@, k as int);
        assert(forall|i: int| 0 <= i < ls@.len() ==> ints(ls@)[i] == #[trigger] ls@[i]);
        lemma_starts(bytes@, bytes@.len() as int);
    }
    let end: usize = if ls.len() - k > 1 {
        ls[k + 1]
    } else {
        bytes.len()
    };
    text::slice_str(text, ls[k], end)
}

/// The number of lines of a text whose lines start at `ls`.
pub fn count_lines(text: &str, ls: &[usize]) -> (r: usize)
    requires
        ints(ls@) == starts_of(text.spec_bytes()),
    ensures
        r == line_count(text.spec_bytes()),
{
    let bytes = text.as_bytes();
    proof {
        lemma_starts(bytes@, bytes@.len() as int);
        assert(ints(ls@).last() == ls@[ls@.len() - 1]);
    }
    if ls[ls.len() - 1] == bytes.len() {
        ls.len() - 1
    } else {
        ls.len()
    }
}

/// A position within a line is found again from its offset.
pub proof fn law_position_of_offset(b: Seq<u8>, line: u32, character: u32)
    requires
        line < starts_of(b).len(),
        line + 1 < starts_of(b).len() ==> starts_of(b)[line as int] + character < starts_of(
            b,
        )[line + 1],
    ensures
        position_at(starts_of(b), offset_at(starts_of(b), line as int, character as int)) == (
        Position { line, character }),
{
    lemma_starts(b, b.len() as int);
    lemma_line_of(starts_of(b), starts_of(b)[line as int] + character, line as int);
}

/// An offset is found again from its position, as long as its line and its place in the line fit
/// the numbers of a position.
pub proof fn law_offset_of_position(b: Seq<u8>, offset: int)
    requires
        0 <= offset,
        line_of(starts_of(b), offset) <= u32::MAX,
        offset - starts_of(b)[line_of(starts_of(b), offset)] <= u32::MAX,
    ensures
        ({
            let p = position_at(starts_of(b), offset);
            offset_at(starts_of(b), p.line as int, p.character as int) == offset
        }),
{
    lemma_starts(b, b.len() as int);
    lemma_line_of_bounds(starts_of(b), offset);
}

/// The line of an offset exists and does not start behind it.
pub proof fn lemma_line_of_bounds(ls: Seq<int>, offset: int)
    requires
        ls.len() > 0,
        ls[0] <= offset,
    ensures
        0 <= line_of(ls, offset) < ls.len(),
        ls[line_of(ls, offset)] <= offset,
    decreases ls.len(),
{
    if ls.len() > 1 && ls.last() > offset {
        lemma_line_of_bounds(ls.drop_last(), offset);
    }
}

} // verus!
