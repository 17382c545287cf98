//! The bytes that carry meaning in a manifest, and the classes they form.
use vstd::prelude::*;

verus! {

/// Horizontal tab.
pub const TAB: u8 = 0x09;

/// Line feed.
pub const LF: u8 = 0x0a;

/// Carriage return.
pub const CR: u8 = 0x0d;

/// Space.
pub const SPACE: u8 = 0x20;

/// `"`
pub const DOUBLE_QUOTE: u8 = 0x22;

/// `#`
pub const HASH: u8 = 0x23;

/// `'`
pub const SINGLE_QUOTE: u8 = 0x27;

/// `,`
pub const COMMA: u8 = 0x2c;

/// `-`
pub const HYPHEN: u8 = 0x2d;

/// `=`
pub const EQUALS: u8 = 0x3d;

/// `[`
pub const OPEN_BRACKET: u8 = 0x5b;

/// `\`
pub const BACKSLASH: u8 = 0x5c;

/// `]`
pub const CLOSE_BRACKET: u8 = 0x5d;

/// `_`
pub const UNDERSCORE: u8 = 0x5f;

/// `{`
pub const OPEN_BRACE: u8 = 0x7b;

/// `}`
pub const CLOSE_BRACE: u8 = 0x7d;

/// The bytes of a crate name: ASCII letters and digits, `_` and `-`.
pub open spec fn crate_byte(b: u8) -> bool {
    ||| 0x30 <= b <= 0x39
    ||| 0x41 <= b <= 0x5a
    ||| 0x61 <= b <= 0x7a
    ||| b == UNDERSCORE
    ||| b == HYPHEN
}

/// Whether `b` is made of the bytes of a crate name only.
pub open spec fn crate_bytes(b: Seq<u8>) -> bool {
    forall|i: int| 0 <= i < b.len() ==> crate_byte(#[trigger] b[i])
}

/// The two quotes that delimit a TOML string.
pub open spec fn str_delim(b: u8) -> bool {
    b == DOUBLE_QUOTE || b == SINGLE_QUOTE
}

/// Tells whether `b` may stand in a crate name.
pub fn is_crate_char(b: u8) -> (r: bool)
    ensures
        r == crate_byte(b),
{
    (0x30 <= b && b <= 0x39) || (0x41 <= b && b <= 0x5a) || (0x61 <= b && b <= 0x7a) || b
        == UNDERSCORE || b == HYPHEN
}

/// Tells whether `b` opens or closes a TOML string.
pub fn is_str_delim(b: u8) -> (r: bool)
    ensures
        r == str_delim(b),
{
    b == DOUBLE_QUOTE || b == SINGLE_QUOTE
}

/// The index of the first `x` in `b` at or after `i`, or `b.len()` where none follows.
pub open spec fn first_at(b: Seq<u8>, x: u8, i: int) -> int
    decreases b.len() - i,
{
    if i >= b.len() {
        b.len() as int
    } else if b[i] == x {
        i
    } else {
        first_at(b, x, i + 1)
    }
}

/// `first_at` stays within bounds, points at `x`, and passes over no `x`.
pub proof fn lemma_first_at(b: Seq<u8>, x: u8, i: int)
    requires
        0 <= i <= b.len(),
    ensures
        i <= first_at(b, x, i) <= b.len(),
        first_at(b, x, i) < b.len() ==> b[first_at(b, x, i)] == x,
        forall|k: int| i <= k < first_at(b, x, i) ==> b[k] != x,
    decreases b.len() - i,
{
    if i < b.len() && b[i] != x {
        lemma_first_at(b, x, i + 1);
    }
}

/// Finds the first `x` in `bytes` at or after `from`.
pub fn find_byte(bytes: &[u8], x: u8, from: usize) -> (r: Option<usize>)
    requires
        from <= bytes@.len(),
    ensures
        match r {
            Some(i) => i == first_at(bytes@, x, from as int) && i < bytes@.len(),
            None => first_at(bytes@, x, from as int) == bytes@.len(),
        },
{
    let mut i: usize = from;
    while i < bytes.len()
        invariant
            from <= i <= bytes@.len(),
            first_at(bytes@, x, from as int) == first_at(bytes@, x, i as int),
        decreases bytes@.len() - i,
    {
        if bytes[i] == x {
            return Some(i);
        }
        i += 1;
    }
    None
}

/// Tells whether two byte strings are equal.
pub fn bytes_equal(a: &[u8], b: &[u8]) -> (r: bool)
    ensures
        r == (a@ == b@),
{
    if a.len() != b.len() {
        return false;
    }
    let mut i: usize = 0;
    while i < a.len()
        invariant
            i <= a@.len(),
            a@.len() == b@.len(),
            forall|k: int| 0 <= k < i ==> a@[k] == b@[k],
        decreases a@.len() - i,
    {
        if a[i] != b[i] {
            return false;
        }
        i += 1;
    }
    assert(a@ =~= b@);
    true
}

/// Tells whether `bytes` may stand in a crate name, all of them.
pub fn all_crate_chars(bytes: &[u8]) -> (r: bool)
    ensures
        r == crate_bytes(bytes@),
{
    let mut i: usize = 0;
    while i < bytes.len()
        invariant
            i <= bytes@.len(),
            forall|k: int| 0 <= k < i ==> crate_byte(#[trigger] bytes@[k]),
        decreases bytes@.len() - i,
    {
        if !is_crate_char(bytes[i]) {
            return false;
        }
        i += 1;
    }
    true
}

} // verus!
