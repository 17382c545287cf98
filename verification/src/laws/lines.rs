//! Laws of lines, offsets and positions.
use crate::position;
use vstd::prelude::*;

verus! {

/// A line starts at the start of a text and behind each line feed, and nowhere else; and the lines are
/// counted in the order of their starts.
pub proof fn law_starts_of_lines(b: Seq<u8>)
    ensures
        forall|p: int| #[trigger]
            position::starts_of(b).contains(p) <==> p == 0 || (0 < p <= b.len() && b[p - 1] as char
                == '\n'),
        forall|i: int, j: int|
            0 <= i < j < position::starts_of(b).len() ==> position::starts_of(b)[i]
                < position::starts_of(b)[j],
{
    position::lemma_starts(b, b.len() as int);
    assert forall|p: int| #[trigger]
        position::starts_of(b).contains(p) <==> p == 0 || (0 < p <= b.len() && b[p - 1] as char
            == '\n') by {
        lemma_starts_contain(b, b.len() as int, p);
    }
}

proof fn lemma_starts_contain(b: Seq<u8>, n: int, p: int)
    requires
        0 <= n <= b.len(),
    ensures
        position::starts_upto(b, n).contains(p) <==> p == 0 || (0 < p <= n && b[p - 1] as char
            == '\n'),
    decreases n,
{
    let s = position::starts_upto(b, n);
    if n == 0 {
        assert(s[0] == 0);
    } else {
        lemma_starts_contain(b, n - 1, p);
        let t = position::starts_upto(b, n - 1);
        if b[n - 1] == 0x0a {
            assert(s == t.push(n));
            assert(s[s.len() - 1] == n);
            if t.contains(p) {
                let k = choose|k: int| 0 <= k < t.len() && t[k] == p;
                assert(s[k] == p);
            }
            if s.contains(p) && p != n {
                let k = choose|k: int| 0 <= k < s.len() && s[k] == p;
                assert(t[k] == p);
            }
        }
    }
}

/// A line with its ending reaches up to the start of the next, or to the end of the text. Without it,
/// a line has lost its line feed, and the carriage return right before that, and nothing else.
pub proof fn law_endings_of_lines(b: Seq<u8>, k: int)
    requires
        0 <= k < position::starts_of(b).len(),
    ensures
        ({
            let ls = position::starts_of(b);
            let line = position::line_bytes(b, k);
            let full = position::full_line_bytes(b, k);
            &&& k + 1 < ls.len() ==> full == b.subrange(ls[k], ls[k + 1])
            &&& k + 1 == ls.len() ==> full == b.subrange(ls[k], b.len() as int) && line == full
            &&& k + 1 < ls.len() ==> {
                ||| full == line + seq![0x0du8, 0x0au8]
                ||| full == line + seq![0x0au8] && (line.len() > 0 ==> line.last() as char != '\r')
            }
        }),
{
    let ls = position::starts_of(b);
    position::lemma_starts(b, b.len() as int);
    let line = position::line_bytes(b, k);
    let full = position::full_line_bytes(b, k);
    if k + 1 < ls.len() {
        assert(ls[k] < ls[k + 1]);
        let lf = ls[k + 1] - 1;
        assert(b[lf] == 0x0a);
        if lf > ls[k] && b[lf - 1] == 0x0d {
            assert(full =~= line + seq![0x0du8, 0x0au8]);
        } else {
            assert(full =~= line + seq![0x0au8]);
            if line.len() > 0 {
                assert(line.last() == b[lf - 1]);
            }
        }
    }
}

/// A text has as many lines as starts of lines, but for the one behind a line feed at its end, and
/// none where it is empty.
pub proof fn law_number_of_lines(b: Seq<u8>)
    ensures
        position::line_count(b) == position::starts_of(b).len() - if b.len() == 0
            || b.last() as char == '\n' {
            1int
        } else {
            0int
        },
{
    law_starts_of_lines(b);
    let ls = position::starts_of(b);
    position::lemma_starts(b, b.len() as int);
    if b.len() > 0 && b.last() as char == '\n' {
        assert(ls.contains(b.len() as int));
        let k = choose|k: int| 0 <= k < ls.len() && ls[k] == b.len();
        if k < ls.len() - 1 {
            assert(ls[k] < ls[ls.len() - 1]);
        }
    } else if b.len() > 0 {
        assert(ls.contains(ls[ls.len() - 1]));
    }
}

/// An offset belongs to the line that starts last at or before it, and counts from that start. (The
/// numbers of a position have 32 bits, which both must fit.)
pub proof fn law_position_in_its_line(b: Seq<u8>, offset: int)
    requires
        0 <= offset <= u32::MAX,
        position::starts_of(b).len() <= u32::MAX,
    ensures
        ({
            let ls = position::starts_of(b);
            let p = position::position_at(ls, offset);
            &&& p.line < ls.len()
            &&& ls[p.line as int] + p.character == offset
            &&& forall|k: int| p.line < k < ls.len() ==> offset < #[trigger] ls[k]
        }),
{
    let ls = position::starts_of(b);
    position::lemma_starts(b, b.len() as int);
    position::lemma_line_of_bounds(ls, offset);
    lemma_last_start(ls, offset);
}

proof fn lemma_last_start(ls: Seq<int>, offset: int)
    requires
        ls.len() > 0,
        position::growing(ls),
    ensures
        forall|k: int|
            0 <= k < ls.len() && position::line_of(ls, offset) < k ==> offset < #[trigger] ls[k],
    decreases ls.len(),
{
    if ls.len() > 1 && ls.last() > offset {
        lemma_last_start(ls.drop_last(), offset);
        assert forall|k: int|
            0 <= k < ls.len() && position::line_of(ls, offset) < k implies offset
            < #[trigger] ls[k] by {
            if k < ls.len() - 1 {
                assert(ls.drop_last()[k] == ls[k]);
            }
        }
    }
}

/// A position is as many bytes behind the start of its line as it says, and behind the start of the
/// text where the text has no such line.
pub proof fn law_offset_in_its_line(ls: Seq<int>, line: int, character: int)
    requires
        0 <= line,
    ensures
        line < ls.len() ==> position::offset_at(ls, line, character) - ls[line] == character,
        line >= ls.len() ==> position::offset_at(ls, line, character) == character,
{
}

/// A range goes from the position of one offset to that of the other.
pub proof fn law_range_between_offsets(ls: Seq<int>, from: int, to: int)
    ensures
        position::range_at(ls, from, to).start == position::position_at(ls, from),
        position::range_at(ls, from, to).end == position::position_at(ls, to),
{
}

/// A table of offsets holds the same numbers as integers.
pub proof fn law_offsets_as_integers(ls: Seq<usize>)
    ensures
        position::ints(ls).len() == ls.len(),
        forall|i: int| 0 <= i < ls.len() ==> #[trigger] position::ints(ls)[i] == ls[i],
{
}

} // verus!
