//! Numbers in decimal notation, and text set to a width.

use vstd::prelude::*;
use vstd::string::*;

use crate::text::chars_of;

verus! {

/// The character of a decimal digit.
pub open spec fn digit_char(d: nat) -> char {
    (48 + d) as char
}

/// A number in decimal notation, without leading zeros.
pub open spec fn decimal(n: nat) -> Seq<char>
    decreases n,
{
    if n < 10 {
        seq![digit_char(n)]
    } else {
        decimal(n / 10).push(digit_char(n % 10))
    }
}

/// The number in decimal notation.
pub fn decimal_text(n: usize) -> (r: String)
    ensures
        r@ == decimal(n as nat),
    decreases n,
{
    let digit: u8 = (n % 10) as u8;
    let c: char = (48 + digit) as char;
    let mut r = if n < 10 {
        String::new()
    } else {
        decimal_text(n / 10)
    };
    r.push(c);
    r
}

/// `k` spaces.
pub open spec fn spaces(k: nat) -> Seq<char> {
    Seq::new(k, |i: int| ' ')
}

/// A text with spaces after it, so that it is at least `width` characters long.
pub open spec fn padded_after(s: Seq<char>, width: nat) -> Seq<char> {
    if s.len() < width {
        s + spaces((width - s.len()) as nat)
    } else {
        s
    }
}

/// A text with spaces before it, so that it is at least `width` characters long.
pub open spec fn padded_before(s: Seq<char>, width: nat) -> Seq<char> {
    if s.len() < width {
        spaces((width - s.len()) as nat) + s
    } else {
        s
    }
}

fn spaces_text(k: usize) -> (r: String)
    ensures
        r@ == spaces(k as nat),
{
    let mut r = String::new();
    let mut i: usize = 0;
    while i < k
        invariant
            i <= k,
            r@ == spaces(i as nat),
        decreases k - i,
    {
        r.push(' ');
        i += 1;
        assert(spaces(i as nat) == spaces((i - 1) as nat).push(' '));
    }
    r
}

/// The string with spaces after it up to `width` characters.
pub fn pad_after(s: &str, width: usize) -> (r: String)
    ensures
        r@ == padded_after(s@, width as nat),
{
    let n: usize = s.unicode_len();
    let mut r = String::new();
    r.append(s);
    if n < width {
        let fill = spaces_text(width - n);
        r.append(fill.as_str());
    }
    assert(Seq::<char>::empty() + s@ == s@);
    r
}

/// The string with spaces before it up to `width` characters.
pub fn pad_before(s: &str, width: usize) -> (r: String)
    ensures
        r@ == padded_before(s@, width as nat),
{
    let n: usize = s.unicode_len();
    let mut r = if n < width {
        spaces_text(width - n)
    } else {
        String::new()
    };
    r.append(s);
    assert(Seq::<char>::empty() + s@ == s@);
    r
}

/// Whether a character is a decimal digit.
pub open spec fn is_digit(c: char) -> bool {
    '0' <= c <= '9'
}

/// Whether every character of a text is a decimal digit.
pub open spec fn all_digits(s: Seq<char>) -> bool {
    forall|i: int| 0 <= i < s.len() ==> is_digit(#[trigger] s[i])
}

/// The number that a run of decimal digits stands for.
pub open spec fn digits_value(s: Seq<char>) -> int
    decreases s.len(),
{
    if s.len() == 0 {
        0
    } else {
        digits_value(s.drop_last()) * 10 + (s.last() as int - 48)
    }
}

/// The number that a text stands for: an optional sign and at least one digit, within the range
/// of a 32-bit integer; `None` for any other text.
pub open spec fn parsed_i32(s: Seq<char>) -> Option<i32> {
    let signed = s.len() > 0 && (s[0] == '-' || s[0] == '+');
    let digits = if signed {
        s.drop_first()
    } else {
        s
    };
    let value = if signed && s[0] == '-' {
        -digits_value(digits)
    } else {
        digits_value(digits)
    };
    if digits.len() > 0 && all_digits(digits) && i32::MIN <= value <= i32::MAX {
        Some(value as i32)
    } else {
        None
    }
}

proof fn lemma_digits_value_grows(s: Seq<char>, k: int)
    requires
        0 <= k <= s.len(),
        all_digits(s),
    ensures
        0 <= digits_value(s.take(k)) <= digits_value(s),
    decreases s.len(),
{
    if s.len() == 0 {
        assert(s.take(k) == s);
    } else if k == s.len() {
        assert(s.take(k) == s);
        lemma_digits_value_grows(s.drop_last(), s.len() - 1);
        assert(s.drop_last().take(s.len() - 1) == s.drop_last());
    } else {
        lemma_digits_value_grows(s.drop_last(), k);
        assert(s.drop_last().take(k) == s.take(k));
    }
}

/// The number that the string stands for, if it stands for one.
pub fn parse_i32(s: &str) -> (r: Option<i32>)
    ensures
        r == parsed_i32(s@),
{
    let v = chars_of(s);
    let signed = v.len() > 0 && (v[0] == '-' || v[0] == '+');
    let negative = signed && v[0] == '-';
    let first: usize = if signed {
        1
    } else {
        0
    };
    let ghost digits = if signed {
        s@.drop_first()
    } else {
        s@
    };
    assert(digits == s@.skip(first as int));
    if v.len() == first {
        return None;
    }
    let mut value: i64 = 0;
    let mut i: usize = first;
    assert(digits.take(0) == Seq::<char>::empty());
    while i < v.len()
        invariant
            first <= i <= v.len(),
            v@ == s@,
            digits == s@.skip(first as int),
            digits.len() > 0,
            signed == (s@.len() > 0 && (s@[0] == '-' || s@[0] == '+')),
            first == (if signed {
                1int
            } else {
                0int
            }),
            digits == (if signed {
                s@.drop_first()
            } else {
                s@
            }),
            all_digits(digits.take(i - first)),
            value == digits_value(digits.take(i - first)),
            0 <= value <= 0x1_0000_0000,
        decreases v.len() - i,
    {
        let c = v[i];
        assert(c == digits[i - first]);
        if !('0' <= c && c <= '9') {
            return None;
        }
        let digit: i64 = (c as u32 - 48) as i64;
        proof {
            let head = digits.take(i - first + 1);
            assert(head.drop_last() == digits.take(i - first));
            assert(head.last() == c);
        }
        value = value * 10 + digit;
        if value > 0x1_0000_0000 {
            proof {
                if all_digits(digits) {
                    lemma_digits_value_grows(digits, i - first + 1);
                }
            }
            return None;
        }
        i += 1;
    }
    assert(digits.take(i - first) == digits);
    let signed_value: i64 = if negative {
        -value
    } else {
        value
    };
    if -0x8000_0000 <= signed_value && signed_value <= 0x7fff_ffff {
        Some(signed_value as i32)
    } else {
        None
    }
}

proof fn lemma_decimal_digits(n: nat)
    ensures
        decimal(n).len() > 0,
        all_digits(decimal(n)),
        digits_value(decimal(n)) == n,
        n > 0 ==> decimal(n)[0] != '0',
    decreases n,
{
    let s = decimal(n);
    if n < 10 {
        let c = digit_char(n);
        assert(s == seq![c]);
        assert(c as int == 48 + n);
        assert(s.drop_last() == Seq::<char>::empty());
        assert(digits_value(s.drop_last()) == 0);
        assert(s.last() == c);
    } else {
        lemma_decimal_digits(n / 10);
        let front = decimal(n / 10);
        let c = digit_char(n % 10);
        assert(c as int == 48 + n % 10);
        assert(s.drop_last() == front);
        assert(s.last() == c);
        assert forall|i: int| 0 <= i < s.len() implies is_digit(#[trigger] s[i]) by {
            if i < front.len() {
                assert(s[i] == front[i]);
            }
        }
        assert(s[0] == front[0]);
    }
}

/// A number in decimal notation reads back as that number, with a minus sign before it as its
/// negative; a plus sign changes nothing.
pub proof fn law_numbers_read_back(n: nat)
    requires
        n <= i32::MAX,
    ensures
        parsed_i32(decimal(n)) == Some(n as i32),
        parsed_i32(seq!['+'] + decimal(n)) == Some(n as i32),
        parsed_i32(seq!['-'] + decimal(n)) == Some((-n) as i32),
{
    lemma_decimal_digits(n);
    let s = decimal(n);
    assert(is_digit(s[0]));
    assert((seq!['+'] + s).drop_first() == s);
    assert((seq!['-'] + s).drop_first() == s);
}

/// Decimal notation starts with no zero, unless it is that of zero.
pub proof fn law_no_leading_zero(n: nat)
    requires
        n > 0,
    ensures
        decimal(n)[0] != '0',
{
    lemma_decimal_digits(n);
}

/// A text that holds anything but digits, apart from a sign at its start, is no number; neither is
/// one without digits.
pub proof fn law_other_texts_are_no_numbers(s: Seq<char>, i: int)
    requires
        s.len() == 0 || s == seq!['+'] || s == seq!['-'] || {
            &&& 0 <= i < s.len()
            &&& !('0' <= s[i] <= '9')
            &&& i > 0 || (s[i] != '+' && s[i] != '-')
        },
    ensures
        parsed_i32(s) is None,
{
    let signed = s.len() > 0 && (s[0] == '-' || s[0] == '+');
    if s.len() > 1 && signed {
        let digits = s.drop_first();
        if 0 < i < s.len() {
            assert(digits[i - 1] == s[i]);
        }
    }
}

/// A text that is set to a width is at least that long, and no longer than it has to be; it starts,
/// or ends, with the text, and the rest is spaces.
pub proof fn law_padding_adds_spaces(s: Seq<char>, width: nat)
    ensures
        padded_after(s, width).len() == (if s.len() < width {
            width
        } else {
            s.len()
        }),
        padded_before(s, width).len() == padded_after(s, width).len(),
        padded_after(s, width).take(s.len() as int) == s,
        padded_before(s, width).skip(padded_before(s, width).len() - s.len()) == s,
        forall|i: int|
            s.len() <= i < padded_after(s, width).len() ==> #[trigger] padded_after(s, width)[i] == ' ',
        forall|i: int|
            0 <= i < padded_before(s, width).len() - s.len() ==> #[trigger] padded_before(s, width)[i]
                == ' ',
{
    assert(padded_after(s, width).take(s.len() as int) == s);
    assert(padded_before(s, width).skip(padded_before(s, width).len() - s.len()) == s);
}

} // verus!
