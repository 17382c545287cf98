//! Numbers in decimal notation.
use crate::sorted_names;
use vstd::prelude::*;
use vstd::string::*;
use vstd::utf8::*;

verus! {

/// The character of a digit.
pub open spec fn digit(d: int) -> char {
    ((0x30 + d) as u8) as char
}

/// `n` in decimal notation, without leading zeros.
pub open spec fn decimal(n: nat) -> Seq<char>
    decreases n,
{
    if n < 10 {
        seq![digit(n as int)]
    } else {
        decimal(n / 10).push(digit((n % 10) as int))
    }
}

/// `count` zeros.
pub open spec fn zeros(count: nat) -> Seq<char> {
    Seq::new(count, |i: int| '0')
}

/// `n` in decimal notation, with leading zeros up to a width of `width` characters.
pub open spec fn padded(n: nat, width: nat) -> Seq<char> {
    if decimal(n).len() < width {
        zeros((width - decimal(n).len()) as nat) + decimal(n)
    } else {
        decimal(n)
    }
}

/// Ten to the power of `width`.
pub open spec fn power_of_ten(width: nat) -> nat
    decreases width,
{
    if width == 0 {
        1
    } else {
        10 * power_of_ten((width - 1) as nat)
    }
}

/// The last digit of a padded number can be split off.
proof fn lemma_padded_step(n: nat, width: nat)
    requires
        width >= 1,
    ensures
        padded(n, width + 1) == padded(n / 10, width).push(digit((n % 10) as int)),
{
    if n < 10 {
        assert(decimal(n / 10) =~= seq!['0']);
        assert(padded(n, width + 1) =~= padded(n / 10, width).push(digit((n % 10) as int)));
    } else {
        assert(padded(n, width + 1) =~= padded(n / 10, width).push(digit((n % 10) as int)));
    }
}

/// A number that fits into the width is padded to exactly that width, with ASCII characters.
pub proof fn lemma_padded_len(n: nat, width: nat)
    requires
        width >= 1,
        n < power_of_ten(width),
    ensures
        padded(n, width).len() == width,
        is_ascii_chars(padded(n, width)),
    decreases width,
{
    reveal_with_fuel(power_of_ten, 2);
    if width > 1 {
        lemma_padded_len(n / 10, (width - 1) as nat);
        lemma_padded_step(n, (width - 1) as nat);
    }
}

/// Of two padded numbers that fit into the width, the lower has the lower digit at the first place
/// where they differ.
proof fn lemma_padded_order(m: nat, n: nat, width: nat) -> (k: int)
    requires
        width >= 1,
        m < n < power_of_ten(width),
    ensures
        0 <= k < width,
        forall|i: int| 0 <= i < k ==> #[trigger] padded(m, width)[i] == padded(n, width)[i],
        padded(m, width)[k] < padded(n, width)[k],
    decreases width,
{
    reveal_with_fuel(power_of_ten, 2);
    if width == 1 {
        0
    } else {
        let shorter = (width - 1) as nat;
        lemma_padded_step(m, shorter);
        lemma_padded_step(n, shorter);
        lemma_padded_len(m / 10, shorter);
        lemma_padded_len(n / 10, shorter);
        if m / 10 < n / 10 {
            let k = lemma_padded_order(m / 10, n / 10, shorter);
            assert forall|i: int| 0 <= i < k implies #[trigger] padded(m, width)[i] == padded(
                n,
                width,
            )[i] by {
                assert(padded(m / 10, shorter)[i] == padded(n / 10, shorter)[i]);
            }
            k
        } else {
            shorter as int
        }
    }
}

/// Padded numbers that fit into the width stand in the order of texts as they stand in the order of
/// numbers.
pub proof fn law_padded_numbers_keep_their_order(m: nat, n: nat, width: nat)
    requires
        m < n < power_of_ten(width),
    ensures
        sorted_names::name_less(padded(m, width), padded(n, width)),
{
    let (a, b) = (padded(m, width), padded(n, width));
    lemma_padded_len(m, width);
    lemma_padded_len(n, width);
    let k = lemma_padded_order(m, n, width);
    is_ascii_chars_encode_utf8(a);
    is_ascii_chars_encode_utf8(b);
    assert forall|i: int| 0 <= i < k implies #[trigger] encode_utf8(a)[i] == encode_utf8(b)[i] by {
        assert(a[i] == b[i]);
    }
    assert(sorted_names::parts_at(encode_utf8(a), encode_utf8(b), k));
}

/// `n` in decimal notation.
pub fn decimal_text(n: usize) -> (r: String)
    ensures
        r@ == decimal(n as nat),
    decreases n,
{
    let mut s = if n < 10 {
        String::new()
    } else {
        decimal_text(n / 10)
    };
    let c: u8 = 0x30 + (n % 10) as u8;
    s.push(c as char);
    assert(s@ =~= decimal(n as nat));
    s
}

/// `n` in decimal notation, with leading zeros up to a width of `width` characters.
pub fn padded_text(n: usize, width: usize) -> (r: String)
    ensures
        r@ == padded(n as nat, width as nat),
{
    let number = decimal_text(n);
    let digits: usize = number.as_str().unicode_len();
    let mut s = String::new();
    let mut i: usize = digits;
    assert(s@ =~= zeros(0));
    while i < width
        invariant
            digits <= i,
            i <= width || i == digits,
            s@ == zeros((i - digits) as nat),
        decreases width - i,
    {
        s.push('0');
        i += 1;
        assert(s@ =~= zeros((i - digits) as nat));
    }
    s.append(number.as_str());
    assert(s@ =~= padded(n as nat, width as nat));
    s
}

} // verus!
