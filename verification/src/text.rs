//! Fields of a line of text: splitting, trimming, and reading numbers.

use vstd::prelude::*;
use vstd::slice::slice_subrange;

use crate::decimal::{char_digits, decimal, is_digit_char};

verus! {

/// Whether `c` is white space: a character of the Unicode property `White_Space`.
pub open spec fn is_white_space(c: char) -> bool {
    let code = c as u32;
    ||| 0x09 <= code <= 0x0D
    ||| code == 0x20
    ||| code == 0x85
    ||| code == 0xA0
    ||| code == 0x1680
    ||| 0x2000 <= code <= 0x200A
    ||| code == 0x2028
    ||| code == 0x2029
    ||| code == 0x202F
    ||| code == 0x205F
    ||| code == 0x3000
}

/// What may surround the text of a field.
#[derive(Debug, PartialEq, Eq, Structural, Clone, Copy)]
pub enum Padding {
    WhiteSpace,
    Nul,
}

impl Padding {
    /// Whether `c` counts as this padding.
    pub open spec fn covers(self, c: char) -> bool {
        match self {
            Padding::WhiteSpace => is_white_space(c),
            Padding::Nul => c == '\0',
        }
    }

    /// Whether `c` counts as this padding.
    pub fn contains(self, c: char) -> (res: bool)
        ensures
            res == self.covers(c),
    {
        let code: u32 = c as u32;
        match self {
            Padding::WhiteSpace => (0x09 <= code && code <= 0x0D) || code == 0x20 || code == 0x85
                || code == 0xA0 || code == 0x1680 || (0x2000 <= code && code <= 0x200A) || code
                == 0x2028 || code == 0x2029 || code == 0x202F || code == 0x205F || code == 0x3000,
            Padding::Nul => c == '\0',
        }
    }
}

/// `s` without the padding in front.
pub open spec fn trim_front(s: Seq<char>, padding: Padding) -> Seq<char>
    decreases s.len(),
{
    if s.len() > 0 && padding.covers(s[0]) {
        trim_front(s.drop_first(), padding)
    } else {
        s
    }
}

/// `s` without the padding at the back.
pub open spec fn trim_back(s: Seq<char>, padding: Padding) -> Seq<char>
    decreases s.len(),
{
    if s.len() > 0 && padding.covers(s.last()) {
        trim_back(s.drop_last(), padding)
    } else {
        s
    }
}

/// `s` without the padding on both sides.
pub open spec fn trimmed(s: Seq<char>, padding: Padding) -> Seq<char> {
    trim_back(trim_front(s, padding), padding)
}

/// Takes the padding off both sides of a text.
pub fn trim(text: &[char], padding: Padding) -> (res: &[char])
    ensures
        res@ == trimmed(text@, padding),
{
    let mut start: usize = 0;
    assert(text@.skip(0) =~= text@);
    while start < text.len() && padding.contains(text[start])
        invariant
            start <= text@.len(),
            trim_front(text@.skip(start as int), padding) == trim_front(text@, padding),
        decreases text@.len() - start,
    {
        assert(text@.skip(start as int).drop_first() =~= text@.skip(start + 1));
        start += 1;
    }
    let mut end: usize = text.len();
    assert(text@.subrange(start as int, end as int) =~= text@.skip(start as int));
    while start < end && padding.contains(text[end - 1])
        invariant
            start <= end <= text@.len(),
            trim_back(text@.subrange(start as int, end as int), padding) == trimmed(
                text@,
                padding,
            ),
        decreases end,
    {
        assert(text@.subrange(start as int, end as int).drop_last() =~= text@.subrange(
            start as int,
            end - 1,
        ));
        end -= 1;
    }
    slice_subrange(text, start, end)
}

/// The position of the first `mark` in `s`, or its length where it has none.
pub open spec fn mark_index(s: Seq<char>, mark: char) -> int
    decreases s.len(),
{
    if s.len() > 0 && s[0] != mark {
        1 + mark_index(s.drop_first(), mark)
    } else {
        0
    }
}

/// The position of the first `mark` has no `mark` before it.
pub proof fn lemma_mark_index(s: Seq<char>, mark: char, k: int)
    requires
        0 <= k <= s.len(),
        forall|i: int| 0 <= i < k ==> #[trigger] s[i] != mark,
        k == s.len() || s[k] == mark,
    ensures
        mark_index(s, mark) == k,
    decreases s.len(),
{
    if k > 0 {
        let rest = s.drop_first();
        assert forall|i: int| 0 <= i < k - 1 implies #[trigger] rest[i] != mark by {
            assert(rest[i] == s[i + 1]);
        }
        lemma_mark_index(rest, mark, k - 1);
    }
}

/// The fields of `s`, which the character `mark` separates. There is always at least one.
pub open spec fn fields(s: Seq<char>, mark: char) -> Seq<Seq<char>>
    decreases s.len(),
{
    let k = mark_index(s, mark);
    if 0 <= k < s.len() {
        seq![s.take(k)] + fields(s.skip(k + 1), mark)
    } else {
        seq![s]
    }
}

/// The texts that a list of fields holds.
pub open spec fn field_views(list: Seq<&[char]>) -> Seq<Seq<char>> {
    list.map_values(|field: &[char]| field@)
}

/// Splits a text into the fields that `mark` separates.
pub fn split<'a>(text: &'a [char], mark: char) -> (res: Vec<&'a [char]>)
    ensures
        field_views(res@) == fields(text@, mark),
{
    let mut res: Vec<&'a [char]> = Vec::new();
    let mut start: usize = 0;
    let mut i: usize = 0;
    assert(field_views(res@) + fields(text@.skip(0), mark) =~= fields(text@, mark)) by {
        assert(text@.skip(0) =~= text@);
    }
    while i < text.len()
        invariant
            start <= i <= text@.len(),
            field_views(res@) + fields(text@.skip(start as int), mark) == fields(text@, mark),
            forall|j: int| start <= j < i ==> #[trigger] text@[j] != mark,
        decreases text@.len() - i,
    {
        if text[i] == mark {
            let ghost rest = text@.skip(start as int);
            let ghost before = field_views(res@);
            proof {
                assert forall|j: int| 0 <= j < i - start implies #[trigger] rest[j] != mark by {
                    assert(rest[j] == text@[start + j]);
                }
                lemma_mark_index(rest, mark, i - start);
                assert(rest.take(i - start) =~= text@.subrange(start as int, i as int));
                assert(rest.skip(i - start + 1) =~= text@.skip(i + 1));
            }
            res.push(slice_subrange(text, start, i));
            start = i + 1;
            assert(field_views(res@) =~= before.push(res@.last()@));
            assert(field_views(res@) + fields(text@.skip(start as int), mark) =~= before + (
            seq![res@.last()@] + fields(text@.skip(start as int), mark)));
        }
        i += 1;
    }
    let ghost rest = text@.skip(start as int);
    let ghost before = field_views(res@);
    proof {
        assert forall|j: int| 0 <= j < rest.len() implies #[trigger] rest[j] != mark by {
            assert(rest[j] == text@[start + j]);
        }
        lemma_mark_index(rest, mark, rest.len() as int);
        assert(rest =~= text@.subrange(start as int, text@.len() as int));
    }
    res.push(slice_subrange(text, start, text.len()));
    assert(field_views(res@) =~= before + seq![rest]);
    res
}

/// The digits of a number: what stands behind an optional plus sign.
pub open spec fn unsigned(s: Seq<char>) -> Seq<char> {
    if s.len() > 0 && s[0] == '+' {
        s.drop_first()
    } else {
        s
    }
}

/// The number that `s` spells: an optional plus sign and one or more digits, with a value within
/// `usize`.
pub open spec fn usize_of(s: Seq<char>) -> Option<usize> {
    let digits = unsigned(s);
    if digits.len() > 0 && (forall|i: int| 0 <= i < digits.len() ==> is_digit_char(digits[i]))
        && decimal(char_digits(digits)) <= usize::MAX {
        Some(decimal(char_digits(digits)) as usize)
    } else {
        None
    }
}

/// Reads a text as a number.
pub fn parse_usize(text: &[char]) -> (res: Option<usize>)
    ensures
        res == usize_of(text@),
{
    let digits: &[char] = if text.len() > 0 && text[0] == '+' {
        assert(text@.subrange(1, text@.len() as int) =~= text@.drop_first());
        slice_subrange(text, 1, text.len())
    } else {
        text
    };
    if digits.len() == 0 {
        return None;
    }
    let mut value: usize = 0;
    let mut i: usize = 0;
    assert(char_digits(digits@.take(0)) =~= Seq::<nat>::empty());
    while i < digits.len()
        invariant
            i <= digits@.len(),
            digits@ == unsigned(text@),
            digits@.len() > 0,
            forall|j: int| 0 <= j < i ==> is_digit_char(#[trigger] digits@[j]),
            value == decimal(char_digits(digits@.take(i as int))),
        decreases digits@.len() - i,
    {
        let c: char = digits[i];
        if c < '0' || c > '9' {
            assert(!is_digit_char(digits@[i as int]));
            return None;
        }
        let digit: usize = (c as u32 - 48) as usize;
        proof {
            assert(char_digits(digits@.take(i + 1)).drop_last() =~= char_digits(
                digits@.take(i as int),
            ));
            crate::decimal::lemma_prefix_not_larger(char_digits(digits@), i + 1);
            assert(char_digits(digits@).take(i + 1) =~= char_digits(digits@.take(i + 1)));
        }
        if value > (usize::MAX - digit) / 10 {
            return None;
        }
        value = value * 10 + digit;
        i += 1;
    }
    assert(digits@.take(i as int) =~= digits@);
    Some(value)
}

/// Collects the characters of a string.
pub fn characters(text: &str) -> (res: Vec<char>)
    ensures
        res@ == text@,
{
    let mut res: Vec<char> = Vec::new();
    for c in iter: text.chars()
        invariant
            iter.seq() == text@,
            res@ == text@.take(iter.index()),
    {
        res.push(c);
    }
    res
}

/// What trimming leaves is a piece of the text. All around it is padding, and the piece itself
/// neither opens nor closes with any.
pub proof fn law_trimmed(s: Seq<char>, padding: Padding)
    ensures
        exists|a: int, b: int|
            {
                &&& 0 <= a <= b <= s.len()
                &&& #[trigger] s.subrange(a, b) == trimmed(s, padding)
                &&& forall|i: int| 0 <= i < a || b <= i < s.len() ==> padding.covers(
                    #[trigger] s[i],
                )
                &&& a < b ==> !padding.covers(s[a]) && !padding.covers(s[b - 1])
            },
{
    let a = lemma_front(s, padding);
    let rest = s.skip(a);
    let b = lemma_back(rest, padding);
    assert(rest.take(b) =~= s.subrange(a, a + b));
    assert forall|i: int| 0 <= i < a || a + b <= i < s.len() implies padding.covers(
        #[trigger] s[i],
    ) by {
        if i >= a + b {
            assert(rest[i - a] == s[i]);
        }
    }
    if b > 0 {
        assert(rest[0] == s[a]);
        assert(rest[b - 1] == s[a + b - 1]);
    }
    assert(s.subrange(a, a + b) == trimmed(s, padding));
}

/// How many characters of padding stand in front.
proof fn lemma_front(s: Seq<char>, padding: Padding) -> (a: int)
    ensures
        0 <= a <= s.len(),
        s.skip(a) == trim_front(s, padding),
        forall|i: int| 0 <= i < a ==> padding.covers(#[trigger] s[i]),
        a < s.len() ==> !padding.covers(s[a]),
    decreases s.len(),
{
    if s.len() > 0 && padding.covers(s[0]) {
        let rest = s.drop_first();
        let a = lemma_front(rest, padding);
        assert(s.skip(a + 1) =~= rest.skip(a));
        assert forall|i: int| 0 <= i < a + 1 implies padding.covers(#[trigger] s[i]) by {
            if i > 0 {
                assert(rest[i - 1] == s[i]);
            }
        }
        if a + 1 < s.len() {
            assert(rest[a] == s[a + 1]);
        }
        a + 1
    } else {
        assert(s.skip(0) =~= s);
        0
    }
}

/// How many characters stand before the padding at the back.
proof fn lemma_back(s: Seq<char>, padding: Padding) -> (b: int)
    ensures
        0 <= b <= s.len(),
        s.take(b) == trim_back(s, padding),
        forall|i: int| b <= i < s.len() ==> padding.covers(#[trigger] s[i]),
        b > 0 ==> !padding.covers(s[b - 1]),
    decreases s.len(),
{
    if s.len() > 0 && padding.covers(s.last()) {
        let rest = s.drop_last();
        let b = lemma_back(rest, padding);
        assert(s.take(b) =~= rest.take(b));
        assert forall|i: int| b <= i < s.len() implies padding.covers(#[trigger] s[i]) by {
            if i < rest.len() {
                assert(rest[i] == s[i]);
            }
        }
        if b > 0 {
            assert(rest[b - 1] == s[b - 1]);
        }
        b
    } else {
        assert(s.take(s.len() as int) =~= s);
        s.len() as int
    }
}

/// The parts with `mark` between each two of them.
pub open spec fn joined(parts: Seq<Seq<char>>, mark: char) -> Seq<char>
    decreases parts.len(),
{
    if parts.len() == 0 {
        Seq::empty()
    } else if parts.len() == 1 {
        parts[0]
    } else {
        parts[0] + seq![mark] + joined(parts.drop_first(), mark)
    }
}

/// Joining the fields of a text with the mark gives the text back, and no field holds the mark.
pub proof fn law_fields(s: Seq<char>, mark: char)
    ensures
        fields(s, mark).len() >= 1,
        joined(fields(s, mark), mark) == s,
        forall|i: int, j: int|
            0 <= i < fields(s, mark).len() && 0 <= j < fields(s, mark)[i].len() ==> #[trigger]
            fields(s, mark)[i][j] != mark,
    decreases s.len(),
{
    lemma_mark_splits(s, mark);
    let k = mark_index(s, mark);
    let parts = fields(s, mark);
    if k < s.len() {
        let rest = s.skip(k + 1);
        law_fields(rest, mark);
        assert(parts.drop_first() =~= fields(rest, mark));
        assert(parts[0] == s.take(k));
        assert(s.take(k) + seq![mark] + rest =~= s);
        assert forall|i: int, j: int|
            0 <= i < parts.len() && 0 <= j < parts[i].len() implies #[trigger] parts[i][j]
            != mark by {
            if i == 0 {
                assert(parts[0][j] == s[j]);
            } else {
                assert(parts[i] == fields(rest, mark)[i - 1]);
                assert(fields(rest, mark)[i - 1][j] != mark);
            }
        }
    } else {
        assert(parts[0] == s);
    }
}

/// The texts of a list of fields are those of its items, in order.
pub proof fn law_field_views(list: Seq<&[char]>)
    ensures
        field_views(list).len() == list.len(),
        forall|i: int| 0 <= i < list.len() ==> #[trigger] field_views(list)[i] == list[i]@,
{
}

/// No mark stands before the first one.
proof fn lemma_mark_splits(s: Seq<char>, mark: char)
    ensures
        0 <= mark_index(s, mark) <= s.len(),
        forall|i: int| 0 <= i < mark_index(s, mark) ==> #[trigger] s[i] != mark,
        mark_index(s, mark) < s.len() ==> s[mark_index(s, mark)] == mark,
    decreases s.len(),
{
    if s.len() > 0 && s[0] != mark {
        let rest = s.drop_first();
        lemma_mark_splits(rest, mark);
        assert forall|i: int| 0 <= i < mark_index(s, mark) implies #[trigger] s[i] != mark by {
            if i > 0 {
                assert(rest[i - 1] == s[i]);
            }
        }
        if mark_index(s, mark) < s.len() {
            assert(s[mark_index(s, mark)] == rest[mark_index(rest, mark)]);
        }
    }
}

/// No text spells no number. One digit more makes ten times the number and the digit, if that is
/// within `usize`, and nothing else can follow a number. What is no number becomes one only by the
/// first digit, alone or behind a plus sign.
pub proof fn law_usize_of(s: Seq<char>, c: char)
    ensures
        usize_of(Seq::empty()) is None,
        match usize_of(s) {
            Some(n) => if '0' <= c && c <= '9' && n * 10 + (c as int - '0' as int)
                <= usize::MAX {
                usize_of(s.push(c)) == Some((n * 10 + (c as int - '0' as int)) as usize)
            } else {
                usize_of(s.push(c)) is None
            },
            None => if '0' <= c && c <= '9' && (s.len() == 0 || s =~= seq!['+']) {
                usize_of(s.push(c)) == Some((c as int - '0' as int) as usize)
            } else {
                usize_of(s.push(c)) is None
            },
        },
{
    let t = s.push(c);
    let before = unsigned(s);
    let digits = unsigned(t);
    if s.len() == 0 {
        reveal_with_fuel(decimal, 3);
        if '0' <= c && c <= '9' {
            assert(digits =~= seq![c]);
            assert(char_digits(digits) =~= seq![(c as int - 48) as nat]);
        } else if c == '+' {
            assert(digits.len() == 0);
        } else {
            assert(digits =~= seq![c]);
            assert(!is_digit_char(digits[0]));
        }
    } else {
        assert(digits =~= before.push(c));
        assert(digits[before.len() as int] == c);
        assert(char_digits(digits).drop_last() =~= char_digits(before));
        assert(char_digits(digits).last() == (c as int - 48) as nat);
        if s =~= seq!['+'] {
            reveal_with_fuel(decimal, 3);
            assert(before.len() == 0);
            assert(digits =~= seq![c]);
        } else {
            assert(before.len() > 0) by {
                if s[0] == '+' && s.len() == 1 {
                    assert(s =~= seq!['+']);
                }
            }
            if forall|i: int| 0 <= i < digits.len() ==> is_digit_char(digits[i]) {
                assert forall|i: int| 0 <= i < before.len() implies is_digit_char(before[i]) by {
                    assert(before[i] == digits[i]);
                }
            }
        }
    }
}

} // verus!
