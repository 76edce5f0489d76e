//! Decimal numerals, as sequences of digits and as the ASCII text that spells them.

use vstd::prelude::*;

verus! {

/// The number that a sequence of decimal digits denotes, most significant digit first.
/// The empty sequence denotes zero.
pub open spec fn decimal(digits: Seq<nat>) -> nat
    decreases digits.len(),
{
    if digits.len() == 0 {
        0
    } else {
        decimal(digits.drop_last()) * 10 + digits.last()
    }
}

/// The digits of `n` without leading zeros; zero is the single digit 0.
pub open spec fn numeral(n: nat) -> Seq<nat>
    decreases n,
{
    if n < 10 {
        seq![n]
    } else {
        numeral(n / 10).push(n % 10)
    }
}

/// The digits that a run of ASCII digit bytes spells.
pub open spec fn byte_digits(bytes: Seq<u8>) -> Seq<nat> {
    bytes.map_values(|b: u8| (b - 48) as nat)
}

/// The digits that a run of ASCII digit characters spells.
pub open spec fn char_digits(chars: Seq<char>) -> Seq<nat> {
    chars.map_values(|c: char| (c as int - 48) as nat)
}

/// Whether `b` is one of the ASCII bytes `0` to `9`.
pub open spec fn is_digit_byte(b: u8) -> bool {
    48 <= b <= 57
}

/// Whether `c` is one of the ASCII characters `0` to `9`.
pub open spec fn is_digit_char(c: char) -> bool {
    '0' <= c && c <= '9'
}

/// The decimal spelling of `n` in ASCII bytes.
pub open spec fn decimal_bytes(n: nat) -> Seq<u8> {
    numeral(n).map_values(|d: nat| (d + 48) as u8)
}

/// The decimal spelling of `n` in characters.
pub open spec fn decimal_chars(n: nat) -> Seq<char> {
    numeral(n).map_values(|d: nat| (d + 48) as char)
}

/// A numeral has at least one digit, every digit is below ten, and it denotes the number
/// that it was made from.
pub proof fn lemma_numeral(n: nat)
    ensures
        numeral(n).len() >= 1,
        forall|i: int| 0 <= i < numeral(n).len() ==> #[trigger] numeral(n)[i] < 10,
        decimal(numeral(n)) == n,
    decreases n,
{
    if n < 10 {
        reveal_with_fuel(decimal, 2);
    } else {
        lemma_numeral(n / 10);
        assert(numeral(n).drop_last() =~= numeral(n / 10));
    }
}

/// Spelling a number in bytes and reading the digits back gives the number.
pub proof fn law_decimal_bytes(n: nat)
    ensures
        decimal_bytes(n).len() >= 1,
        forall|i: int| 0 <= i < decimal_bytes(n).len() ==> is_digit_byte(
            #[trigger] decimal_bytes(n)[i],
        ),
        decimal(byte_digits(decimal_bytes(n))) == n,
{
    lemma_numeral(n);
    assert forall|i: int| 0 <= i < decimal_bytes(n).len() implies is_digit_byte(
        #[trigger] decimal_bytes(n)[i],
    ) by {
        assert(numeral(n)[i] < 10);
    }
    assert(byte_digits(decimal_bytes(n)) =~= numeral(n)) by {
        assert forall|i: int| 0 <= i < numeral(n).len() implies byte_digits(decimal_bytes(n))[i]
            == numeral(n)[i] by {
            assert(numeral(n)[i] < 10);
        }
    }
}

/// Spelling a number in characters and reading the digits back gives the number.
pub proof fn law_decimal_chars(n: nat)
    ensures
        decimal_chars(n).len() >= 1,
        forall|i: int| 0 <= i < decimal_chars(n).len() ==> is_digit_char(
            #[trigger] decimal_chars(n)[i],
        ),
        decimal(char_digits(decimal_chars(n))) == n,
{
    lemma_numeral(n);
    assert forall|i: int| 0 <= i < decimal_chars(n).len() implies is_digit_char(
        #[trigger] decimal_chars(n)[i],
    ) by {
        assert(numeral(n)[i] < 10);
    }
    assert(char_digits(decimal_chars(n)) =~= numeral(n)) by {
        assert forall|i: int| 0 <= i < numeral(n).len() implies char_digits(decimal_chars(n))[i]
            == numeral(n)[i] by {
            assert(numeral(n)[i] < 10);
        }
    }
}

/// A prefix of a digit sequence never denotes a larger number than the whole.
pub proof fn lemma_prefix_not_larger(digits: Seq<nat>, k: int)
    requires
        0 <= k <= digits.len(),
    ensures
        decimal(digits.take(k)) <= decimal(digits),
    decreases digits.len(),
{
    if k == digits.len() {
        assert(digits.take(k) =~= digits);
    } else {
        lemma_prefix_not_larger(digits.drop_last(), k);
        assert(digits.drop_last().take(k) =~= digits.take(k));
    }
}

/// The numeral of a number above zero opens with a digit above zero, so that no piece of it from
/// the front denotes zero.
pub proof fn lemma_numeral_piece(n: nat, k: int)
    requires
        n > 0,
        1 <= k <= numeral(n).len(),
    ensures
        decimal(numeral(n).take(k)) > 0,
{
    lemma_numeral_leads(n);
    let piece = numeral(n).take(k);
    lemma_prefix_not_larger(piece, 1);
    assert(piece.take(1) =~= seq![numeral(n)[0]]);
    reveal_with_fuel(decimal, 3);
}

proof fn lemma_numeral_leads(n: nat)
    requires
        n > 0,
    ensures
        numeral(n).len() >= 1,
        numeral(n)[0] > 0,
    decreases n,
{
    if n >= 10 {
        lemma_numeral_leads(n / 10);
    }
}

} // verus!
