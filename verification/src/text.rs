//! Strings, their UTF-8 bytes, and the facts that tie the two together.
use crate::ascii;
use vstd::prelude::*;
use vstd::string::*;
use vstd::utf8::*;

verus! {

/// The characters with the Unicode property `White_Space`.
pub open spec fn white_space(c: char) -> bool {
    ||| '\u{9}' <= c <= '\u{d}'
    ||| c == '\u{20}'
    ||| c == '\u{85}'
    ||| c == '\u{a0}'
    ||| c == '\u{1680}'
    ||| '\u{2000}' <= c <= '\u{200a}'
    ||| c == '\u{2028}'
    ||| c == '\u{2029}'
    ||| c == '\u{202f}'
    ||| c == '\u{205f}'
    ||| c == '\u{3000}'
}

/// `s` without its leading white space.
pub open spec fn trimmed_start(s: Seq<char>) -> Seq<char>
    decreases s.len(),
{
    if s.len() > 0 && white_space(s[0]) {
        trimmed_start(s.drop_first())
    } else {
        s
    }
}

/// `s` without its trailing white space.
pub open spec fn trimmed_end(s: Seq<char>) -> Seq<char>
    decreases s.len(),
{
    if s.len() > 0 && white_space(s.last()) {
        trimmed_end(s.drop_last())
    } else {
        s
    }
}

/// `s` without its leading and trailing white space.
pub open spec fn trimmed(s: Seq<char>) -> Seq<char> {
    trimmed_end(trimmed_start(s))
}

/// The lower case of one ASCII character; any other character unchanged.
pub open spec fn ascii_lower(c: char) -> char {
    if 'A' <= c <= 'Z' {
        ((c as u32 + 32) as u32) as char
    } else {
        c
    }
}

/// `s` with its ASCII capitals in lower case.
pub open spec fn ascii_lowercase(s: Seq<char>) -> Seq<char> {
    s.map_values(|c: char| ascii_lower(c))
}

/// The lower case that `str::to_lowercase` gives a text with characters outside ASCII.
pub uninterp spec fn unicode_lowercase(s: Seq<char>) -> Seq<char>;

/// The lower case of `s`.
pub open spec fn lowercase(s: Seq<char>) -> Seq<char> {
    if is_ascii_chars(s) {
        ascii_lowercase(s)
    } else {
        unicode_lowercase(s)
    }
}

/// `str::trim` drops the leading and the trailing characters that have the Unicode property
/// `White_Space`, and nothing else.
pub assume_specification[ str::trim ](s: &str) -> (r: &str)
    ensures
        r@ == trimmed(s@),
;

/// `str::to_lowercase` maps the ASCII capitals of an ASCII text to small letters and keeps its
/// other characters. Of a text that goes beyond ASCII nothing is claimed but that the result is
/// a function of the text.
pub assume_specification[ str::to_lowercase ](s: &str) -> (r: String)
    ensures
        r@ == if is_ascii_chars(s@) {
            ascii_lowercase(s@)
        } else {
            unicode_lowercase(s@)
        },
;

/// `String::push` appends the character to the string.
pub assume_specification[ String::push ](s: &mut String, c: char)
    ensures
        final(s)@ == old(s)@.push(c),
;

/// The error of `core::str::from_utf8`.
#[verifier::external_type_specification]
#[verifier::external_body]
pub struct ExUtf8Error(core::str::Utf8Error);

/// `core::str::from_utf8` gives back the bytes as a string where they are UTF-8, and an error
/// where they are not.
pub assume_specification[ core::str::from_utf8 ](v: &[u8]) -> (r: Result<
    &str,
    core::str::Utf8Error,
>)
    ensures
        r is Ok <==> valid_utf8(v@),
        r matches Ok(s) ==> s.spec_bytes() == v@,
;

/// The bytes of `b` without the white space around them, where `b` is UTF-8.
pub open spec fn trimmed_bytes(b: Seq<u8>) -> Seq<u8> {
    encode_utf8(trimmed(decode_utf8(b)))
}

/// The texts of a sequence of strings.
pub open spec fn texts(v: Seq<String>) -> Seq<Seq<char>> {
    v.map_values(|s: String| s@)
}

/// The bytes of a string are UTF-8, and they decode to its characters.
pub proof fn lemma_str_bytes(s: &str)
    ensures
        valid_utf8(s.spec_bytes()),
        s@ == decode_utf8(s.spec_bytes()),
        s.spec_bytes() == encode_utf8(s@),
{
    encode_utf8_valid_utf8(s@);
    encode_utf8_decode_utf8(s@);
}

/// The encoding of a concatenation is the concatenation of the encodings.
pub proof fn lemma_encode_add(a: Seq<char>, b: Seq<char>)
    ensures
        encode_utf8(a + b) == encode_utf8(a) + encode_utf8(b),
    decreases a.len(),
{
    if a.len() == 0 {
        assert(a + b =~= b);
        assert(encode_utf8(a) + encode_utf8(b) =~= encode_utf8(b));
    } else {
        lemma_encode_add(a.drop_first(), b);
        assert((a + b).drop_first() =~= a.drop_first() + b);
        assert((a + b)[0] == a[0]);
        assert(encode_utf8(a + b) =~= encode_utf8(a) + encode_utf8(b));
    }
}

/// An ASCII byte of a UTF-8 text stands alone: a character starts at it, and one starts (or the
/// text ends) right behind it.
pub proof fn lemma_ascii_boundary(b: Seq<u8>, i: int)
    requires
        valid_utf8(b),
        0 <= i < b.len(),
        b[i] < 0x80,
    ensures
        is_char_boundary(b, i),
        is_char_boundary(b, i + 1),
{
    is_char_boundary_iff_not_is_continuation_byte(b, i);
    if i + 1 == b.len() {
        is_char_boundary_start_end_of_seq(b);
    } else {
        valid_utf8_split(b, i);
        let tail = b.subrange(i, b.len() as int);
        assert(tail[0] == b[i]);
        assert(is_leading_byte_width_1(tail[0]));
        let rest = pop_first_scalar(tail);
        assert(valid_utf8(rest));
        assert(rest[0] == b[i + 1]);
        assert(valid_first_scalar(rest));
        is_char_boundary_iff_not_is_continuation_byte(b, i + 1);
    }
}

/// Every boundary lies within the text.
pub proof fn lemma_boundary_bounds(b: Seq<u8>, i: int)
    requires
        valid_utf8(b),
        is_char_boundary(b, i),
    ensures
        0 <= i <= b.len(),
    decreases b.len(),
{
    if i != 0 && 0 <= i <= b.len() && b.len() > 0 {
        lemma_boundary_bounds(pop_first_scalar(b), i - length_of_first_scalar(b));
    }
}

/// What lies between two boundaries of a UTF-8 text is UTF-8, and the lower boundary is also one
/// of the text that ends at the upper.
pub proof fn lemma_between_boundaries(b: Seq<u8>, from: int, to: int)
    requires
        valid_utf8(b),
        is_char_boundary(b, from),
        is_char_boundary(b, to),
        from <= to,
    ensures
        0 <= from <= to <= b.len(),
        valid_utf8(b.subrange(0, to)),
        is_char_boundary(b.subrange(0, to), from),
        valid_utf8(b.subrange(from, to)),
{
    lemma_boundary_bounds(b, from);
    lemma_boundary_bounds(b, to);
    valid_utf8_split(b, to);
    let head = b.subrange(0, to);
    if from < to {
        is_char_boundary_iff_not_is_continuation_byte(b, from);
        assert(head[from] == b[from]);
        is_char_boundary_iff_not_is_continuation_byte(head, from);
    } else {
        is_char_boundary_start_end_of_seq(head);
    }
    valid_utf8_split(head, from);
    assert(head.subrange(from, head.len() as int) =~= b.subrange(from, to));
}

/// A boundary of a text that is at or before another is a boundary of the text up to that other,
/// and the other way round.
pub proof fn lemma_boundary_of_prefix(b: Seq<u8>, i: int, to: int)
    requires
        valid_utf8(b),
        is_char_boundary(b, to),
        0 <= i <= to,
    ensures
        is_char_boundary(b.subrange(0, to), i) <==> is_char_boundary(b, i),
{
    lemma_boundary_bounds(b, to);
    valid_utf8_split(b, to);
    let head = b.subrange(0, to);
    if i < to {
        is_char_boundary_iff_not_is_continuation_byte(b, i);
        is_char_boundary_iff_not_is_continuation_byte(head, i);
        assert(head[i] == b[i]);
    } else {
        is_char_boundary_start_end_of_seq(head);
    }
}

/// ASCII bytes are UTF-8 and decode to one character each.
pub proof fn lemma_ascii_decode(b: Seq<u8>)
    requires
        forall|i: int| 0 <= i < b.len() ==> #[trigger] b[i] < 0x80,
    ensures
        valid_utf8(b),
        decode_utf8(b) == b.map_values(|x: u8| x as char),
    decreases b.len(),
{
    if b.len() == 0 {
        assert(decode_utf8(b) =~= b.map_values(|x: u8| x as char));
    } else {
        let x = b[0];
        assert(is_leading_byte_width_1(x));
        assert((x & 0x7f) as u32 == x as u32) by (bit_vector)
            requires
                x < 0x80,
        ;
        let rest = pop_first_scalar(b);
        assert(rest =~= b.drop_first());
        lemma_ascii_decode(rest);
        assert(decode_utf8(b) =~= b.map_values(|y: u8| y as char));
    }
}

/// In an ASCII text each character is one byte, so that any part can be cut from its bytes.
pub proof fn lemma_ascii_slice(s: Seq<char>, from: int, to: int)
    requires
        is_ascii_chars(s),
        0 <= from <= to <= s.len(),
    ensures
        encode_utf8(s).len() == s.len(),
        is_char_boundary(encode_utf8(s), from),
        is_char_boundary(encode_utf8(s), to),
        decode_utf8(encode_utf8(s).subrange(from, to)) == s.subrange(from, to),
{
    let b = encode_utf8(s);
    let part = s.subrange(from, to);
    is_ascii_chars_encode_utf8(s);
    encode_utf8_valid_utf8(s);
    is_char_boundary_start_end_of_seq(b);
    if from > 0 {
        assert(b[from - 1] == s[from - 1] as u8);
        lemma_ascii_boundary(b, from - 1);
    }
    if to > 0 {
        assert(b[to - 1] == s[to - 1] as u8);
        lemma_ascii_boundary(b, to - 1);
    }
    assert(is_ascii_chars(part));
    is_ascii_chars_encode_utf8(part);
    assert(b.subrange(from, to) =~= encode_utf8(part));
    encode_utf8_decode_utf8(part);
}

/// The encoding of a text starts with that of another exactly where the text starts with it.
pub proof fn lemma_encode_prefix(p: Seq<char>, s: Seq<char>)
    ensures
        encode_utf8(p).is_prefix_of(encode_utf8(s)) <==> p.is_prefix_of(s),
    decreases p.len(),
{
    let ep = encode_utf8(p);
    let es = encode_utf8(s);
    if p.len() == 0 {
        assert(ep.is_prefix_of(es));
        assert(p.is_prefix_of(s));
    } else if s.len() == 0 {
        encode_utf8_first_scalar(p);
        assert(ep.len() > 0);
    } else {
        encode_utf8_first_scalar(p);
        encode_utf8_first_scalar(s);
        let pt = p.drop_first();
        let st = s.drop_first();
        let hp = encode_scalar(p[0] as u32);
        let hs = encode_scalar(s[0] as u32);
        lemma_encode_prefix(pt, st);
        if p.is_prefix_of(s) {
            assert(s.subrange(0, p.len() as int) =~= p);
            assert(p[0] == s[0]) by {
                assert(s.subrange(0, p.len() as int)[0] == s[0]);
            }
            assert(st.subrange(0, pt.len() as int) =~= pt);
            assert(encode_utf8(st).subrange(0, encode_utf8(pt).len() as int) =~= encode_utf8(pt));
            assert(es.subrange(0, ep.len() as int) =~= ep) by {
                assert forall|k: int| 0 <= k < ep.len() implies es[k] == ep[k] by {
                    if k >= hp.len() {
                        assert(ep[k] == encode_utf8(pt)[k - hp.len()]);
                        assert(encode_utf8(st).subrange(0, encode_utf8(pt).len() as int)[k
                            - hp.len()] == encode_utf8(st)[k - hp.len()]);
                    }
                }
            }
        }
        if ep.is_prefix_of(es) {
            assert(es.subrange(0, ep.len() as int) == ep);
            assert forall|k: int| 0 <= k < ep.len() implies es[k] == ep[k] by {
                assert(es.subrange(0, ep.len() as int)[k] == es[k]);
            }
            assert(ep[0] == es[0]);
            assert(hp.len() == hs.len());
            assert(decode_first_scalar(ep) == decode_first_scalar(es));
            char_u32_cast(p[0], p[0] as u32);
            char_u32_cast(s[0], s[0] as u32);
            assert(p[0] == s[0]);
            assert(encode_utf8(st).subrange(0, encode_utf8(pt).len() as int) =~= encode_utf8(pt))
                by {
                assert forall|k: int| 0 <= k < encode_utf8(pt).len() implies encode_utf8(st)[k]
                    == encode_utf8(pt)[k] by {
                    assert(es[k + hp.len()] == ep[k + hp.len()]);
                }
            }
            assert(pt.is_prefix_of(st));
            assert(s.subrange(0, p.len() as int) =~= p) by {
                assert forall|k: int| 0 <= k < p.len() implies s[k] == p[k] by {
                    if k > 0 {
                        assert(st.subrange(0, pt.len() as int)[k - 1] == st[k - 1]);
                    }
                }
            }
        }
    }
}

/// The encoding of a text ends with that of another exactly where the text ends with it.
pub proof fn lemma_encode_suffix(p: Seq<char>, s: Seq<char>)
    ensures
        encode_utf8(p).is_suffix_of(encode_utf8(s)) <==> p.is_suffix_of(s),
{
    let ep = encode_utf8(p);
    let es = encode_utf8(s);
    if p.is_suffix_of(s) {
        let head = s.subrange(0, s.len() - p.len());
        assert(s =~= head + p);
        lemma_encode_add(head, p);
        assert(es.subrange(es.len() - ep.len(), es.len() as int) =~= ep);
    }
    if ep.is_suffix_of(es) {
        let at = es.len() - ep.len();
        assert(es.subrange(at, es.len() as int) =~= ep);
        encode_utf8_valid_utf8(s);
        encode_utf8_valid_utf8(p);
        encode_utf8_decode_utf8(s);
        encode_utf8_decode_utf8(p);
        if p.len() == 0 {
            assert(s.subrange(s.len() - p.len(), s.len() as int) =~= p);
        } else {
            encode_utf8_first_scalar(p);
            assert(ep[0] == es[at]);
            assert(!is_continuation_byte(es[at]));
            is_char_boundary_iff_not_is_continuation_byte(es, at);
            decode_utf8_split(es, at);
            let head = decode_utf8(es.subrange(0, at));
            assert(s =~= head + p);
            assert(s.subrange(s.len() - p.len(), s.len() as int) =~= p);
        }
    }
}

/// The part of `s` between two character boundaries.
pub fn slice_str(s: &str, from: usize, to: usize) -> (r: &str)
    requires
        from <= to,
        is_char_boundary(s.spec_bytes(), from as int),
        is_char_boundary(s.spec_bytes(), to as int),
    ensures
        r.spec_bytes() == s.spec_bytes().subrange(from as int, to as int),
{
    proof {
        lemma_str_bytes(s);
        lemma_between_boundaries(s.spec_bytes(), from as int, to as int);
    }
    let (head, _) = s.split_at(to);
    let (_, r) = head.split_at(from);
    assert(r.spec_bytes() =~= s.spec_bytes().subrange(from as int, to as int));
    r
}

/// Tells whether two strings are equal.
pub fn str_equal(a: &str, b: &str) -> (r: bool)
    ensures
        r == (a@ == b@),
{
    proof {
        lemma_str_bytes(a);
        lemma_str_bytes(b);
    }
    ascii::bytes_equal(a.as_bytes(), b.as_bytes())
}

/// Tells whether `s` starts with `p`.
pub fn str_starts_with(s: &str, p: &str) -> (r: bool)
    ensures
        r == p@.is_prefix_of(s@),
{
    proof {
        lemma_encode_prefix(p@, s@);
    }
    let sb = s.as_bytes();
    let pb = p.as_bytes();
    if pb.len() > sb.len() {
        return false;
    }
    ascii::bytes_equal(vstd::slice::slice_subrange(sb, 0, pb.len()), pb)
}

/// Tells whether `s` ends with `p`.
pub fn str_ends_with(s: &str, p: &str) -> (r: bool)
    ensures
        r == p@.is_suffix_of(s@),
{
    proof {
        lemma_encode_suffix(p@, s@);
    }
    let sb = s.as_bytes();
    let pb = p.as_bytes();
    if pb.len() > sb.len() {
        return false;
    }
    ascii::bytes_equal(vstd::slice::slice_subrange(sb, sb.len() - pb.len(), sb.len()), pb)
}

} // verus!
