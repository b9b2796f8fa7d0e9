//! The canonical text form of a calendar value: `YYYY-MM-DD HH:MM:SS.` followed by
//! the nanoseconds, right-aligned in a field of nine characters.

use crate::date::LogDate;
use vstd::prelude::*;

verus! {

/// The character of the decimal digit `d`, or of the byte `'0' + d` for larger `d`.
pub open spec fn digit_char(d: int) -> char {
    (48 + d) as u8 as char
}

/// Decimal digits of `n`, most significant first, without leading zeros.
pub open spec fn decimal(n: nat) -> Seq<char>
    decreases n,
{
    if n < 10 {
        seq![digit_char(n as int)]
    } else {
        decimal(n / 10).push(digit_char((n % 10) as int))
    }
}

/// `s` preceded by enough spaces to make it at least `w` characters long.
pub open spec fn pad_left(s: Seq<char>, w: nat) -> Seq<char> {
    if s.len() < w {
        Seq::new((w - s.len()) as nat, |i: int| ' ') + s
    } else {
        s
    }
}

/// Two characters for a field: its tens and its units.
pub open spec fn two_digits(v: int) -> Seq<char> {
    seq![digit_char(v / 10), digit_char(v % 10)]
}

/// The canonical text of `d`.
#[verifier::opaque]
pub open spec fn canonical_text(d: LogDate) -> Seq<char> {
    seq![
        digit_char(d.year as int / 1000),
        digit_char(d.year as int / 100 % 10),
        digit_char(d.year as int / 10 % 10),
        digit_char(d.year as int % 10),
        '-',
    ] + two_digits(d.mon as int) + seq!['-'] + two_digits(d.day as int) + seq![' ']
        + two_digits(d.hour as int) + seq![':'] + two_digits(d.min as int) + seq![':']
        + two_digits(d.sec as int) + seq!['.'] + pad_left(decimal(d.nano as nat), 9)
}

/// Relies on `String::push`: the character is appended at the end.
#[verifier::external_body]
fn push_char(s: &mut String, c: char)
    ensures
        final(s)@ == old(s)@.push(c),
{
    s.push(c)
}

fn digit(d: u32) -> (c: char)
    requires
        d < 208,
    ensures
        c == digit_char(d as int),
{
    ((48 + d) as u8) as char
}

fn push_decimal(s: &mut String, n: u32)
    ensures
        final(s)@ == old(s)@ + decimal(n as nat),
    decreases n,
{
    if n >= 10 {
        push_decimal(s, n / 10);
    }
    push_char(s, digit(n % 10));
    proof {
        assert(final(s)@ =~= old(s)@ + decimal(n as nat));
    }
}

fn decimal_width(n: u32) -> (r: usize)
    ensures
        r == decimal(n as nat).len(),
        r <= n as int + 1,
    decreases n,
{
    if n >= 10 {
        decimal_width(n / 10) + 1
    } else {
        1
    }
}

fn push_two(s: &mut String, v: u8)
    ensures
        final(s)@ == old(s)@ + two_digits(v as int),
{
    push_char(s, digit((v / 10) as u32));
    push_char(s, digit((v % 10) as u32));
    assert(final(s)@ =~= old(s)@ + two_digits(v as int));
}

impl LogDate {
    /// The canonical text of this value.
    pub fn to_string(&self) -> (r: String)
        ensures
            r@ == canonical_text(*self),
    {
        let mut s = String::new();
        let y: u32 = self.year as u32;
        push_char(&mut s, digit(y / 1000));
        push_char(&mut s, digit(y / 100 % 10));
        push_char(&mut s, digit(y / 10 % 10));
        push_char(&mut s, digit(y % 10));
        push_char(&mut s, '-');
        push_two(&mut s, self.mon);
        push_char(&mut s, '-');
        push_two(&mut s, self.day);
        push_char(&mut s, ' ');
        push_two(&mut s, self.hour);
        push_char(&mut s, ':');
        push_two(&mut s, self.min);
        push_char(&mut s, ':');
        push_two(&mut s, self.sec);
        push_char(&mut s, '.');
        let ghost head = s@;
        let width = decimal_width(self.nano);
        let mut k: usize = width;
        while k < 9
            invariant
                width <= k,
                k <= 9 || k == width,
                width == decimal(self.nano as nat).len(),
                s@ == head + Seq::new((k - width) as nat, |i: int| ' '),
            decreases 9 - k,
        {
            push_char(&mut s, ' ');
            k = k + 1;
            assert(s@ =~= head + Seq::new((k - width) as nat, |i: int| ' '));
        }
        push_decimal(&mut s, self.nano);
        assert(s@ =~= canonical_text(*self)) by {
            reveal(canonical_text);
        }
        s
    }
}

proof fn lemma_decimal_shape(n: nat)
    ensures
        decimal(n).len() >= 1,
        '0' <= decimal(n).last() <= '9',
    decreases n,
{
    if n >= 10 {
        lemma_decimal_shape(n / 10);
    }
}

/// The canonical text is at least 29 characters long, begins with a character
/// above `'/'`, holds digits at positions 1 and 3, and ends with a digit.
pub proof fn lemma_canonical_text_shape(d: LogDate)
    ensures
        ({
            let s = canonical_text(d);
            &&& s.len() >= 29
            &&& s[0] > '/'
            &&& '0' <= s[1] <= '9'
            &&& '0' <= s[3] <= '9'
            &&& '0' <= s.last() <= '9'
        }),
{
    reveal(canonical_text);
    let nanos = pad_left(decimal(d.nano as nat), 9);
    lemma_decimal_shape(d.nano as nat);
    assert(nanos.last() == decimal(d.nano as nat).last());
}

} // verus!
