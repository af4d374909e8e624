//! Decimal numbers, read and written.

use vstd::prelude::*;

use crate::text::chars_of;

verus! {

/// Whether `c` is one of the ten decimal digits.
pub open spec fn is_digit(c: char) -> bool {
    '0' <= c <= '9'
}

/// The value of a decimal digit.
pub open spec fn digit_value(c: char) -> nat {
    (c as u32 - '0' as u32) as nat
}

/// The digit that stands for `d`, which is below ten.
pub open spec fn digit_char(d: nat) -> char {
    ((d + '0' as u32) as u32) as char
}

/// Whether `s` is one decimal digit or more and nothing else.
pub open spec fn all_digits(s: Seq<char>) -> bool {
    s.len() > 0 && forall|i: int| 0 <= i < s.len() ==> is_digit(#[trigger] s[i])
}

/// The number that a row of digits stands for.
pub open spec fn digits_value(s: Seq<char>) -> nat
    decreases s.len(),
{
    if s.len() == 0 {
        0
    } else {
        digits_value(s.drop_last()) * 10 + digit_value(s.last())
    }
}

/// `s` without one leading plus sign.
pub open spec fn unsigned_digits(s: Seq<char>) -> Seq<char> {
    if s.len() > 0 && s[0] == '+' {
        s.drop_first()
    } else {
        s
    }
}

/// The unsigned number that a text spells: digits, with one plus sign allowed
/// before them. Nothing where the text is anything else.
pub open spec fn decimal_value(s: Seq<char>) -> Option<nat> {
    if all_digits(unsigned_digits(s)) {
        Some(digits_value(unsigned_digits(s)))
    } else {
        None
    }
}

/// The decimal digits of `n`, without leading zeros.
pub open spec fn decimal_digits(n: nat) -> Seq<char>
    decreases n,
{
    if n < 10 {
        seq![digit_char(n)]
    } else {
        decimal_digits(n / 10).push(digit_char(n % 10))
    }
}

/// `n` in decimal, filled up with leading zeros to `width` digits.
pub open spec fn padded_digits(n: nat, width: nat) -> Seq<char> {
    let digits = decimal_digits(n);
    if digits.len() < width {
        Seq::new((width - digits.len()) as nat, |i: int| '0') + digits
    } else {
        digits
    }
}

proof fn lemma_digits_value_grows(s: Seq<char>, k: int)
    requires
        0 <= k <= s.len(),
    ensures
        digits_value(s.take(k)) <= digits_value(s),
    decreases s.len() - k,
{
    if k < s.len() {
        lemma_digits_value_grows(s, k + 1);
        assert(s.take(k + 1).drop_last() =~= s.take(k));
    } else {
        assert(s.take(k) =~= s);
    }
}

/// The number that `s` spells, where it is at most `max`.
fn parse_up_to(s: &str, max: u64) -> (r: Option<u64>)
    ensures
        r matches Some(n) ==> n <= max && decimal_value(s@) == Some(n as nat),
        r is None ==> (decimal_value(s@) matches Some(n) ==> n > max),
{
    let chars: Vec<char> = chars_of(s);
    let start: usize = if chars.len() > 0 && chars[0] == '+' {
        1
    } else {
        0
    };
    let ghost digits = unsigned_digits(s@);
    proof {
        assert(digits =~= s@.skip(start as int));
    }
    if chars.len() == start {
        return None;
    }
    let mut value: u64 = 0;
    let mut i: usize = start;
    proof {
        assert(digits.take(0) =~= Seq::<char>::empty());
    }
    while i < chars.len()
        invariant
            chars@ == s@,
            digits == unsigned_digits(s@),
            digits == s@.skip(start as int),
            start <= i <= chars@.len(),
            value <= max,
            value as nat == digits_value(digits.take(i - start)),
            forall|k: int| 0 <= k < i - start ==> is_digit(#[trigger] digits[k]),
        decreases chars@.len() - i,
    {
        let c: char = chars[i];
        proof {
            assert(digits[i - start] == c);
        }
        if c < '0' || c > '9' {
            return None;
        }
        let d: u64 = (c as u32 - 0x30) as u64;
        proof {
            assert(digits.take(i - start + 1).drop_last() =~= digits.take(i - start));
            lemma_digits_value_grows(digits, i - start + 1);
        }
        if d > max || value > (max - d) / 10 {
            return None;
        }
        value = value * 10 + d;
        i = i + 1;
    }
    proof {
        assert(digits.take(digits.len() as int) =~= digits);
    }
    Some(value)
}

/// The number that `s` spells, where it fits.
pub(crate) fn parse_u64(s: &str) -> (r: Option<u64>)
    ensures
        r matches Some(n) ==> decimal_value(s@) == Some(n as nat),
        r is None ==> (decimal_value(s@) matches Some(n) ==> n > u64::MAX),
{
    parse_up_to(s, u64::MAX)
}

/// The number that `s` spells, where it fits.
pub(crate) fn parse_usize(s: &str) -> (r: Option<usize>)
    ensures
        r matches Some(n) ==> decimal_value(s@) == Some(n as nat),
        r is None ==> (decimal_value(s@) matches Some(n) ==> n > usize::MAX),
{
    match parse_up_to(s, usize::MAX as u64) {
        Some(n) => Some(n as usize),
        None => None,
    }
}

fn digit_text(d: u64) -> (r: &'static str)
    requires
        d < 10,
    ensures
        r@ == seq![digit_char(d as nat)],
{
    proof {
        reveal_strlit("0");
        reveal_strlit("1");
        reveal_strlit("2");
        reveal_strlit("3");
        reveal_strlit("4");
        reveal_strlit("5");
        reveal_strlit("6");
        reveal_strlit("7");
        reveal_strlit("8");
        reveal_strlit("9");
    }
    match d {
        0 => "0",
        1 => "1",
        2 => "2",
        3 => "3",
        4 => "4",
        5 => "5",
        6 => "6",
        7 => "7",
        8 => "8",
        _ => "9",
    }
}

/// Writes `n` in decimal at the end of `out`.
fn append_digits(out: &mut String, n: u64)
    ensures
        final(out)@ == old(out)@ + decimal_digits(n as nat),
    decreases n,
{
    if n >= 10 {
        append_digits(out, n / 10);
    }
    out.append(digit_text(n % 10));
}

proof fn lemma_digit_count(n: nat)
    ensures
        decimal_digits(n).len() >= 1,
        n < 10 ==> decimal_digits(n).len() == 1,
        10 <= n < 100 ==> decimal_digits(n).len() == 2,
        100 <= n < 1000 ==> decimal_digits(n).len() == 3,
        1000 <= n < 10000 ==> decimal_digits(n).len() == 4,
        10000 <= n < 100000 ==> decimal_digits(n).len() == 5,
        100000 <= n ==> decimal_digits(n).len() >= 6,
    decreases n,
{
    if n >= 10 {
        lemma_digit_count(n / 10);
    }
}

/// Writes `n` in decimal at the end of `out`, with at least six digits.
pub(crate) fn append_padded(out: &mut String, n: u64)
    ensures
        final(out)@ == old(out)@ + padded_digits(n as nat, 6),
{
    proof {
        lemma_digit_count(n as nat);
        reveal_strlit("00000");
        reveal_strlit("0000");
        reveal_strlit("000");
        reveal_strlit("00");
        reveal_strlit("0");
    }
    let ghost before = out@;
    if n < 10 {
        out.append("00000");
    } else if n < 100 {
        out.append("0000");
    } else if n < 1000 {
        out.append("000");
    } else if n < 10000 {
        out.append("00");
    } else if n < 100000 {
        out.append("0");
    }
    append_digits(out, n);
    proof {
        assert(out@ =~= before + padded_digits(n as nat, 6));
    }
}

/// The digits of a number spell it.
pub proof fn law_digits_spell_their_number(n: nat)
    ensures
        all_digits(decimal_digits(n)),
        digits_value(decimal_digits(n)) == n,
    decreases n,
{
    if n < 10 {
        let s = seq![digit_char(n)];
        assert(s.drop_last() =~= Seq::<char>::empty());
        assert(digits_value(s.drop_last()) == 0);
    } else {
        law_digits_spell_their_number(n / 10);
        let s = decimal_digits(n);
        assert(s.drop_last() =~= decimal_digits(n / 10));
    }
}

proof fn lemma_leading_zeros(k: nat, s: Seq<char>)
    ensures
        digits_value(Seq::new(k, |i: int| '0') + s) == digits_value(s),
    decreases s.len(), k,
{
    let zeros = Seq::new(k, |i: int| '0');
    if s.len() > 0 {
        lemma_leading_zeros(k, s.drop_last());
        assert((zeros + s).drop_last() =~= zeros + s.drop_last());
    } else if k > 0 {
        lemma_leading_zeros((k - 1) as nat, s);
        assert((zeros + s).drop_last() =~= Seq::new((k - 1) as nat, |i: int| '0') + s);
    }
}

/// Leading zeros do not change the number that is spelled.
pub proof fn law_padded_digits_spell_their_number(n: nat, width: nat)
    ensures
        decimal_value(padded_digits(n, width)) == Some(n),
{
    law_digits_spell_their_number(n);
    let digits = decimal_digits(n);
    let s = padded_digits(n, width);
    if digits.len() < width {
        lemma_leading_zeros((width - digits.len()) as nat, digits);
    }
    assert(is_digit(s[0]));
}

proof fn lemma_digits_push(s: Seq<char>, c: char)
    ensures
        digits_value(s.push(c)) == digits_value(s) * 10 + digit_value(c),
        all_digits(s.push(c)) <==> is_digit(c) && (s.len() == 0 || all_digits(s)),
{
    assert(s.push(c).drop_last() =~= s);
    assert(s.push(c).last() == c);
    if all_digits(s.push(c)) {
        assert(s.push(c)[s.len() as int] == c);
        assert forall|i: int| 0 <= i < s.len() implies is_digit(#[trigger] s[i]) by {
            assert(s.push(c)[i] == s[i]);
        }
    }
}

/// How the number that a text spells grows with the text: one more digit makes
/// it ten times as large, plus that digit. Anything but a digit spoils it, and
/// so does anything behind what is no number. One plus sign may come first.
pub proof fn law_number_grows_by_its_digits(s: Seq<char>, c: char)
    ensures
        decimal_value(Seq::empty()) is None,
        decimal_value(seq!['+']) is None,
        !('0' <= c <= '9') ==> decimal_value(s.push(c)) is None,
        '0' <= c <= '9' && (s.len() == 0 || s == seq!['+']) ==> decimal_value(s.push(c)) == Some(
            (c as u32 - 48) as nat,
        ),
        '0' <= c <= '9' && decimal_value(s) is Some ==> decimal_value(s.push(c)) == Some(
            decimal_value(s)->0 * 10 + (c as u32 - 48) as nat,
        ),
        s.len() > 0 && s != seq!['+'] && decimal_value(s) is None ==> decimal_value(
            s.push(c),
        ) is None,
{
    assert(seq!['+'].drop_first() =~= Seq::<char>::empty());
    let body = unsigned_digits(s);
    if s.len() == 0 {
        if c == '+' {
            assert(s.push(c).drop_first() =~= Seq::<char>::empty());
        } else {
            assert(unsigned_digits(s.push(c)) =~= Seq::<char>::empty().push(c));
            lemma_digits_push(Seq::empty(), c);
        }
    } else {
        assert(unsigned_digits(s.push(c)) =~= body.push(c));
        lemma_digits_push(body, c);
        if s[0] == '+' && body.len() == 0 {
            assert(s =~= seq!['+']);
        }
    }
}

/// A padded number is digits only, spells the number, has no fewer digits than
/// it should, and no zero in front where it has more.
pub proof fn law_padding_fills_up_with_zeros(n: nat, width: nat)
    ensures
        padded_digits(n, width).len() >= width,
        forall|i: int|
            0 <= i < padded_digits(n, width).len() ==> '0' <= #[trigger] padded_digits(n, width)[i]
                <= '9',
        decimal_value(padded_digits(n, width)) == Some(n),
        padded_digits(n, width).len() > width && n > 0 ==> padded_digits(n, width)[0] != '0',
{
    law_padded_digits_spell_their_number(n, width);
    law_digits_spell_their_number(n);
    lemma_no_leading_zero(n);
    let digits = decimal_digits(n);
    let s = padded_digits(n, width);
    assert forall|i: int| 0 <= i < s.len() implies '0' <= #[trigger] s[i] <= '9' by {
        if digits.len() < width {
            if i >= width - digits.len() {
                assert(s[i] == digits[i - (width - digits.len())]);
                assert(is_digit(digits[i - (width - digits.len())]));
            }
        } else {
            assert(is_digit(digits[i]));
        }
    }
}

proof fn lemma_no_leading_zero(n: nat)
    ensures
        decimal_digits(n).len() > 0,
        n > 0 ==> decimal_digits(n)[0] != '0',
    decreases n,
{
    if n >= 10 {
        lemma_no_leading_zero(n / 10);
    }
}

} // verus!
