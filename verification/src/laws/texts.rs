//! Laws of bytes, texts, numbers and lists of names.
use crate::ascii;
use crate::digits;
use crate::sorted_names;
use crate::text;
use vstd::prelude::*;
use vstd::utf8::*;

verus! {

/// The named bytes are those of the characters that carry meaning in a manifest.
pub proof fn law_named_bytes()
    ensures
        ascii::TAB as char == '\t',
        ascii::LF as char == '\n',
        ascii::CR as char == '\r',
        ascii::SPACE as char == ' ',
        ascii::DOUBLE_QUOTE as char == '"',
        ascii::HASH as char == '#',
        ascii::SINGLE_QUOTE as char == '\'',
        ascii::COMMA as char == ',',
        ascii::HYPHEN as char == '-',
        ascii::EQUALS as char == '=',
        ascii::OPEN_BRACKET as char == '[',
        ascii::BACKSLASH as char == '\\',
        ascii::CLOSE_BRACKET as char == ']',
        ascii::UNDERSCORE as char == '_',
        ascii::OPEN_BRACE as char == '{',
        ascii::CLOSE_BRACE as char == '}',
{
}

/// A crate name is made of ASCII letters and digits, hyphens and underscores, all of them.
pub proof fn law_bytes_of_crate_names(b: Seq<u8>)
    ensures
        ascii::crate_bytes(b) <==> forall|i: int|
            0 <= i < b.len() ==> {
                let c = #[trigger] b[i] as char;
                ||| '0' <= c <= '9'
                ||| 'a' <= c <= 'z'
                ||| 'A' <= c <= 'Z'
                ||| c == '_'
                ||| c == '-'
            },
        b.len() == 1 ==> ascii::crate_bytes(b) == ascii::crate_byte(b[0]),
{
    if ascii::crate_bytes(b) {
        assert forall|i: int| 0 <= i < b.len() implies {
            let c = #[trigger] b[i] as char;
            ||| '0' <= c <= '9'
            ||| 'a' <= c <= 'z'
            ||| 'A' <= c <= 'Z'
            ||| c == '_'
            ||| c == '-'
        } by {
            assert(ascii::crate_byte(b[i]));
        }
    }
    if b.len() == 1 && ascii::crate_byte(b[0]) {
        assert(ascii::crate_bytes(b));
    }
}

/// A string of a manifest stands in double or in single quotes.
pub proof fn law_quotes(b: u8)
    ensures
        ascii::str_delim(b) <==> b as char == '"' || b as char == '\'',
{
}

/// A byte is found at the first place at or after `i` where it stands.
pub proof fn law_first_place(b: Seq<u8>, x: u8, i: int)
    requires
        0 <= i <= b.len(),
    ensures
        i <= ascii::first_at(b, x, i) <= b.len(),
        ascii::first_at(b, x, i) < b.len() <==> exists|k: int| i <= k < b.len() && b[k] == x,
        ascii::first_at(b, x, i) < b.len() ==> b[ascii::first_at(b, x, i)] == x,
        forall|k: int| i <= k < ascii::first_at(b, x, i) ==> b[k] != x,
{
    ascii::lemma_first_at(b, x, i);
}

/// Among the characters of ASCII, the space and the controls from the tab to the carriage return are
/// white space, and no others.
pub proof fn law_ascii_white_space(c: char)
    requires
        c <= '\u{7f}',
    ensures
        text::white_space(c) <==> c == ' ' || '\t' <= c <= '\r',
{
}

/// What is left of a text when the white space around it is dropped is the part of the text between
/// white space that has none at its ends.
pub proof fn law_trimmed_text(s: Seq<char>) -> (at: int)
    ensures
        ({
            let r = text::trimmed(s);
            &&& 0 <= at <= at + r.len() <= s.len()
            &&& r == s.subrange(at, at + r.len())
            &&& forall|i: int|
                0 <= i < at || at + r.len() <= i < s.len() ==> text::white_space(#[trigger] s[i])
            &&& r.len() > 0 ==> !text::white_space(r[0]) && !text::white_space(r.last())
        }),
{
    let at = lemma_trimmed_start(s);
    let t = text::trimmed_start(s);
    let n = lemma_trimmed_end(t);
    let r = text::trimmed(s);
    assert(r =~= s.subrange(at, at + r.len()));
    assert forall|i: int| 0 <= i < at || at + r.len() <= i < s.len() implies text::white_space(
        #[trigger] s[i],
    ) by {
        if at + r.len() <= i {
            assert(t[i - at] == s[i]);
        }
    }
    if r.len() > 0 {
        assert(r[0] == t[0]);
    }
    at
}

proof fn lemma_trimmed_start(s: Seq<char>) -> (at: int)
    ensures
        0 <= at <= s.len(),
        text::trimmed_start(s) == s.subrange(at, s.len() as int),
        forall|i: int| 0 <= i < at ==> text::white_space(#[trigger] s[i]),
        at < s.len() ==> !text::white_space(s[at]),
    decreases s.len(),
{
    if s.len() > 0 && text::white_space(s[0]) {
        let rest = s.drop_first();
        let at = lemma_trimmed_start(rest) + 1;
        assert(text::trimmed_start(s) =~= s.subrange(at, s.len() as int));
        assert forall|i: int| 0 <= i < at implies text::white_space(#[trigger] s[i]) by {
            if i > 0 {
                assert(rest[i - 1] == s[i]);
            }
        }
        if at < s.len() {
            assert(rest[at - 1] == s[at]);
        }
        at
    } else {
        assert(s =~= s.subrange(0, s.len() as int));
        0
    }
}

proof fn lemma_trimmed_end(s: Seq<char>) -> (n: int)
    ensures
        0 <= n <= s.len(),
        text::trimmed_end(s) == s.subrange(0, n),
        forall|i: int| n <= i < s.len() ==> text::white_space(#[trigger] s[i]),
        n > 0 ==> !text::white_space(s[n - 1]),
    decreases s.len(),
{
    if s.len() > 0 && text::white_space(s.last()) {
        let rest = s.drop_last();
        let n = lemma_trimmed_end(rest);
        assert(text::trimmed_end(s) =~= s.subrange(0, n));
        assert forall|i: int| n <= i < s.len() implies text::white_space(#[trigger] s[i]) by {
            if i < s.len() - 1 {
                assert(rest[i] == s[i]);
            }
        }
        if n > 0 {
            assert(rest[n - 1] == s[n - 1]);
        }
        n
    } else {
        assert(s =~= s.subrange(0, s.len() as int));
        s.len() as int
    }
}

/// Dropping the white space around the bytes of a text is dropping it around the text.
pub proof fn law_trimmed_bytes(s: Seq<char>)
    ensures
        text::trimmed_bytes(encode_utf8(s)) == encode_utf8(text::trimmed(s)),
{
    encode_utf8_decode_utf8(s);
}

/// The lower case of an ASCII text has each capital replaced by the small letter, and each other
/// character as it is.
pub proof fn law_lower_case_of_ascii(s: Seq<char>)
    requires
        is_ascii_chars(s),
    ensures
        text::lowercase(s).len() == s.len(),
        forall|i: int|
            0 <= i < s.len() ==> #[trigger] text::lowercase(s)[i] as int == s[i] as int + if 'A'
                <= s[i] <= 'Z' {
                'a' as int - 'A' as int
            } else {
                0
            },
{
}

/// The texts of a list are those of its strings, one for one.
pub proof fn law_texts_of_strings(v: Seq<String>)
    ensures
        text::texts(v).len() == v.len(),
        forall|i: int| 0 <= i < v.len() ==> #[trigger] text::texts(v)[i] == v[i]@,
{
}

/// The number that a sequence of decimal digits stands for.
pub open spec fn number_of(s: Seq<char>) -> int
    decreases s.len(),
{
    if s.len() == 0 {
        0
    } else {
        10 * number_of(s.drop_last()) + (s.last() as int - '0' as int)
    }
}

/// A number in decimal notation is made of digits, stands for the number, and has no leading zero but
/// in zero itself.
pub proof fn law_decimal_notation(n: nat)
    ensures
        number_of(digits::decimal(n)) == n,
        digits::decimal(n).len() >= 1,
        digits::decimal(n).len() > 1 <==> n >= 10,
        digits::decimal(n).len() > 1 ==> digits::decimal(n)[0] != '0',
        forall|i: int|
            0 <= i < digits::decimal(n).len() ==> '0' <= #[trigger] digits::decimal(n)[i] <= '9',
    decreases n,
{
    let s = digits::decimal(n);
    if n < 10 {
        assert(s.drop_last() =~= Seq::empty());
        reveal_with_fuel(number_of, 2);
    } else {
        law_decimal_notation(n / 10);
        assert(s.drop_last() =~= digits::decimal(n / 10));
        if n / 10 < 10 {
            assert(digits::decimal(n / 10)[0] == digits::digit((n / 10) as int));
        }
    }
}

/// A padded number stands for the same number, in as many characters as the width says, or in as many
/// as it needs where those are more.
pub proof fn law_padded_notation(n: nat, width: nat)
    ensures
        number_of(digits::padded(n, width)) == n,
        digits::padded(n, width).len() >= width,
        digits::padded(n, width).len() > width ==> digits::padded(n, width) == digits::decimal(n),
        forall|i: int|
            0 <= i < digits::padded(n, width).len() ==> '0' <= #[trigger] digits::padded(n, width)[i]
                <= '9',
{
    law_decimal_notation(n);
    let d = digits::decimal(n);
    if d.len() < width {
        lemma_leading_zeros((width - d.len()) as nat, d);
        assert forall|i: int| 0 <= i < width implies '0' <= #[trigger] digits::padded(n, width)[i]
            <= '9' by {
            if i >= width - d.len() {
                assert(digits::padded(n, width)[i] == d[i - (width - d.len())]);
            }
        }
    }
}

proof fn lemma_leading_zeros(count: nat, s: Seq<char>)
    ensures
        number_of(digits::zeros(count) + s) == number_of(s),
    decreases count, s.len(),
{
    if s.len() > 0 {
        lemma_leading_zeros(count, s.drop_last());
        assert((digits::zeros(count) + s).drop_last() =~= digits::zeros(count) + s.drop_last());
    } else if count > 0 {
        lemma_leading_zeros((count - 1) as nat, s);
        let t = digits::zeros(count) + s;
        assert(t.drop_last() =~= digits::zeros((count - 1) as nat) + s);
        assert(t.last() == '0');
    } else {
        assert(digits::zeros(count) + s =~= s);
    }
}

/// Where two texts part, the one that ends there comes first, and so does the one with the lower byte
/// there.
pub proof fn law_order_of_texts(a: Seq<char>, b: Seq<char>, k: int)
    requires
        0 <= k <= encode_utf8(a).len(),
        k < encode_utf8(b).len(),
        encode_utf8(a).subrange(0, k) == encode_utf8(b).subrange(0, k),
    ensures
        k == encode_utf8(a).len() ==> sorted_names::name_less(a, b) && !sorted_names::name_less(b, a),
        k < encode_utf8(a).len() && encode_utf8(a)[k] < encode_utf8(b)[k] ==> sorted_names::name_less(
            a,
            b,
        ) && !sorted_names::name_less(b, a),
        !sorted_names::name_less(a, a),
{
    let (x, y) = (encode_utf8(a), encode_utf8(b));
    assert forall|i: int| 0 <= i < k implies #[trigger] x[i] == y[i] by {
        assert(x.subrange(0, k)[i] == y.subrange(0, k)[i]);
    }
    if k == x.len() || x[k] < y[k] {
        assert(sorted_names::parts_at(x, y, k));
        assert forall|m: int| !#[trigger] sorted_names::parts_at(y, x, m) by {
            if sorted_names::parts_at(y, x, m) {
                if m < k {
                    assert(x[m] == y[m]);
                } else if m > k {
                    assert(y[k] == x[k]);
                }
            }
        }
    }
}

/// A list is in ascending order where each of its names comes before all that follow it.
pub proof fn law_ascending_lists(names: Seq<Seq<char>>)
    ensures
        sorted_names::ascending(names) <==> forall|i: int, j: int|
            0 <= i < j < names.len() ==> sorted_names::name_less(
                #[trigger] names[i],
                #[trigger] names[j],
            ),
{
}

} // verus!
