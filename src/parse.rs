//! Parsing of the three HTTP date layouts: the fixed layout
//! `Sun, 06 Nov 1994 08:49:37 GMT`, the long-weekday layout
//! `Sunday, 06-Nov-94 08:49:37 GMT` and the asctime layout `Sun Nov  6 08:49:37 1994`.

use crate::date::LogDate;
use crate::text::{canonical_text, lemma_canonical_text_shape};
use vstd::prelude::*;
use vstd::string::is_ascii;
use vstd::utf8::is_ascii_chars;

verus! {

/// The single error of date parsing: the text is not a date in one of the layouts,
/// or it names no real moment.
#[derive(Clone, Copy, Debug, PartialEq, Eq, Structural)]
pub struct DateError;

/// An ASCII decimal digit.
pub open spec fn is_digit(b: u8) -> bool {
    ('0' as u8) <= b <= ('9' as u8)
}

/// Two digits at `i` and `i + 1`.
pub open spec fn digits2_at(s: Seq<u8>, i: int) -> bool {
    is_digit(s[i]) && is_digit(s[i + 1])
}

/// The number written by the two digits at `i`.
pub open spec fn value2_at(s: Seq<u8>, i: int) -> int {
    (s[i] - ('0' as u8)) * 10 + (s[i + 1] - ('0' as u8))
}

/// Four digits from `i` on.
pub open spec fn digits4_at(s: Seq<u8>, i: int) -> bool {
    digits2_at(s, i) && digits2_at(s, i + 2)
}

/// The number written by the four digits at `i`.
pub open spec fn value4_at(s: Seq<u8>, i: int) -> int {
    value2_at(s, i) * 100 + value2_at(s, i + 2)
}

/// The month (1 = January) of a three-letter English abbreviation.
pub open spec fn month_of_abbrev(a: u8, b: u8, c: u8) -> Option<u8> {
    if a == ('J' as u8) && b == ('a' as u8) && c == ('n' as u8) { Some(1u8) }
    else if a == ('F' as u8) && b == ('e' as u8) && c == ('b' as u8) { Some(2u8) }
    else if a == ('M' as u8) && b == ('a' as u8) && c == ('r' as u8) { Some(3u8) }
    else if a == ('A' as u8) && b == ('p' as u8) && c == ('r' as u8) { Some(4u8) }
    else if a == ('M' as u8) && b == ('a' as u8) && c == ('y' as u8) { Some(5u8) }
    else if a == ('J' as u8) && b == ('u' as u8) && c == ('n' as u8) { Some(6u8) }
    else if a == ('J' as u8) && b == ('u' as u8) && c == ('l' as u8) { Some(7u8) }
    else if a == ('A' as u8) && b == ('u' as u8) && c == ('g' as u8) { Some(8u8) }
    else if a == ('S' as u8) && b == ('e' as u8) && c == ('p' as u8) { Some(9u8) }
    else if a == ('O' as u8) && b == ('c' as u8) && c == ('t' as u8) { Some(10u8) }
    else if a == ('N' as u8) && b == ('o' as u8) && c == ('v' as u8) { Some(11u8) }
    else if a == ('D' as u8) && b == ('e' as u8) && c == ('c' as u8) { Some(12u8) }
    else { None }
}

/// The weekday (1 = Monday) of a three-letter English abbreviation.
pub open spec fn weekday_of_abbrev(a: u8, b: u8, c: u8) -> Option<u8> {
    if a == ('M' as u8) && b == ('o' as u8) && c == ('n' as u8) { Some(1u8) }
    else if a == ('T' as u8) && b == ('u' as u8) && c == ('e' as u8) { Some(2u8) }
    else if a == ('W' as u8) && b == ('e' as u8) && c == ('d' as u8) { Some(3u8) }
    else if a == ('T' as u8) && b == ('h' as u8) && c == ('u' as u8) { Some(4u8) }
    else if a == ('F' as u8) && b == ('r' as u8) && c == ('i' as u8) { Some(5u8) }
    else if a == ('S' as u8) && b == ('a' as u8) && c == ('t' as u8) { Some(6u8) }
    else if a == ('S' as u8) && b == ('u' as u8) && c == ('n' as u8) { Some(7u8) }
    else { None }
}

/// Value of one digit byte.
pub fn toint_1(x: u8) -> (r: Result<u8, DateError>)
    ensures
        r == if is_digit(x) { Ok::<u8, DateError>((x - ('0' as u8)) as u8) } else { Err(DateError) },
{
    let result = x.wrapping_sub(('0' as u8));
    if result < 10 {
        Ok(result)
    } else {
        Err(DateError)
    }
}

/// Value of the two digit bytes that start `s`.
pub fn toint_2(s: &[u8]) -> (r: Result<u8, DateError>)
    requires
        s@.len() >= 2,
    ensures
        r == if digits2_at(s@, 0) {
            Ok::<u8, DateError>(value2_at(s@, 0) as u8)
        } else {
            Err(DateError)
        },
{
    let high = s[0].wrapping_sub(('0' as u8));
    let low = s[1].wrapping_sub(('0' as u8));
    if high < 10 && low < 10 {
        Ok(high * 10 + low)
    } else {
        Err(DateError)
    }
}

/// Value of the four digit bytes that start `s`.
pub fn toint_4(s: &[u8]) -> (r: Result<u16, DateError>)
    requires
        s@.len() >= 4,
    ensures
        r == if digits4_at(s@, 0) {
            Ok::<u16, DateError>(value4_at(s@, 0) as u16)
        } else {
            Err(DateError)
        },
{
    let a = s[0].wrapping_sub(('0' as u8)) as u16;
    let b = s[1].wrapping_sub(('0' as u8)) as u16;
    let c = s[2].wrapping_sub(('0' as u8)) as u16;
    let d = s[3].wrapping_sub(('0' as u8)) as u16;
    if a < 10 && b < 10 && c < 10 && d < 10 {
        Ok(a * 1000 + b * 100 + c * 10 + d)
    } else {
        Err(DateError)
    }
}

/// Exact form of the month lookup.
fn month_abbrev(a: u8, b: u8, c: u8) -> (r: Option<u8>)
    ensures
        r == month_of_abbrev(a, b, c),
{
    if a == ('J' as u8) && b == ('a' as u8) && c == ('n' as u8) { Some(1) }
    else if a == ('F' as u8) && b == ('e' as u8) && c == ('b' as u8) { Some(2) }
    else if a == ('M' as u8) && b == ('a' as u8) && c == ('r' as u8) { Some(3) }
    else if a == ('A' as u8) && b == ('p' as u8) && c == ('r' as u8) { Some(4) }
    else if a == ('M' as u8) && b == ('a' as u8) && c == ('y' as u8) { Some(5) }
    else if a == ('J' as u8) && b == ('u' as u8) && c == ('n' as u8) { Some(6) }
    else if a == ('J' as u8) && b == ('u' as u8) && c == ('l' as u8) { Some(7) }
    else if a == ('A' as u8) && b == ('u' as u8) && c == ('g' as u8) { Some(8) }
    else if a == ('S' as u8) && b == ('e' as u8) && c == ('p' as u8) { Some(9) }
    else if a == ('O' as u8) && b == ('c' as u8) && c == ('t' as u8) { Some(10) }
    else if a == ('N' as u8) && b == ('o' as u8) && c == ('v' as u8) { Some(11) }
    else if a == ('D' as u8) && b == ('e' as u8) && c == ('c' as u8) { Some(12) }
    else { None }
}

/// Exact form of the weekday lookup.
fn weekday_abbrev(a: u8, b: u8, c: u8) -> (r: Option<u8>)
    ensures
        r == weekday_of_abbrev(a, b, c),
{
    if a == ('M' as u8) && b == ('o' as u8) && c == ('n' as u8) { Some(1) }
    else if a == ('T' as u8) && b == ('u' as u8) && c == ('e' as u8) { Some(2) }
    else if a == ('W' as u8) && b == ('e' as u8) && c == ('d' as u8) { Some(3) }
    else if a == ('T' as u8) && b == ('h' as u8) && c == ('u' as u8) { Some(4) }
    else if a == ('F' as u8) && b == ('r' as u8) && c == ('i' as u8) { Some(5) }
    else if a == ('S' as u8) && b == ('a' as u8) && c == ('t' as u8) { Some(6) }
    else if a == ('S' as u8) && b == ('u' as u8) && c == ('n' as u8) { Some(7) }
    else { None }
}

/// The value that the fixed layout `Www, dd Mon yyyy HH:MM:SS GMT` writes, if `s`
/// is in that layout.
pub open spec fn fixdate_of(s: Seq<u8>) -> Option<LogDate> {
    if {
        &&& s.len() == 29
        &&& s[3] == (',' as u8) && s[4] == (' ' as u8) && s[7] == (' ' as u8)
        &&& s[11] == (' ' as u8) && s[16] == (' ' as u8) && s[19] == (':' as u8)
        &&& s[22] == (':' as u8)
        &&& s[25] == (' ' as u8) && s[26] == ('G' as u8) && s[27] == ('M' as u8)
        &&& s[28] == ('T' as u8)
        &&& digits2_at(s, 23) && digits2_at(s, 20) && digits2_at(s, 17) && digits2_at(s, 5)
        &&& digits4_at(s, 12)
        &&& month_of_abbrev(s[8], s[9], s[10]) is Some
        &&& weekday_of_abbrev(s[0], s[1], s[2]) is Some
    } {
        Some(
            LogDate {
                nano: 0,
                sec: value2_at(s, 23) as u8,
                min: value2_at(s, 20) as u8,
                hour: value2_at(s, 17) as u8,
                day: value2_at(s, 5) as u8,
                mon: month_of_abbrev(s[8], s[9], s[10])->0,
                year: value4_at(s, 12) as u16,
                wday: weekday_of_abbrev(s[0], s[1], s[2])->0,
            },
        )
    } else {
        None
    }
}

/// Reads the fixed layout `Sun, 06 Nov 1994 08:49:37 GMT`.
pub fn parse_imf_fixdate(s: &[u8]) -> (r: Result<LogDate, DateError>)
    ensures
        r == match fixdate_of(s@) {
            Some(d) => Ok::<LogDate, DateError>(d),
            None => Err(DateError),
        },
{
    if s.len() != 29 || s[3] != (',' as u8) || s[4] != (' ' as u8) || s[7] != (' ' as u8)
        || s[11] != (' ' as u8) || s[16] != (' ' as u8) || s[19] != (':' as u8)
        || s[22] != (':' as u8) || s[25] != (' ' as u8) || s[26] != ('G' as u8)
        || s[27] != ('M' as u8) || s[28] != ('T' as u8) {
        return Err(DateError);
    }
    let sec = toint_2(slice_from(s, 23))?;
    let min = toint_2(slice_from(s, 20))?;
    let hour = toint_2(slice_from(s, 17))?;
    let day = toint_2(slice_from(s, 5))?;
    let mon = match month_abbrev(s[8], s[9], s[10]) {
        Some(m) => m,
        None => return Err(DateError),
    };
    let year = toint_4(slice_from(s, 12))?;
    let wday = match weekday_abbrev(s[0], s[1], s[2]) {
        Some(w) => w,
        None => return Err(DateError),
    };
    Ok(LogDate { nano: 0, sec, min, hour, day, mon, year, wday })
}

/// The bytes of `s` from `start` on.
fn slice_from(s: &[u8], start: usize) -> (r: &[u8])
    requires
        start <= s@.len(),
    ensures
        r@ == s@.subrange(start as int, s@.len() as int),
{
    vstd::slice::slice_subrange(s, start, s.len())
}

/// The full English name of weekday `w` (1 = Monday) followed by `", "`.
pub open spec fn long_weekday_name(w: u8) -> Seq<char> {
    if w == 1 { seq!['M', 'o', 'n', 'd', 'a', 'y', ',', ' '] }
    else if w == 2 { seq!['T', 'u', 'e', 's', 'd', 'a', 'y', ',', ' '] }
    else if w == 3 { seq!['W', 'e', 'd', 'n', 'e', 's', 'd', 'a', 'y', ',', ' '] }
    else if w == 4 { seq!['T', 'h', 'u', 'r', 's', 'd', 'a', 'y', ',', ' '] }
    else if w == 5 { seq!['F', 'r', 'i', 'd', 'a', 'y', ',', ' '] }
    else if w == 6 { seq!['S', 'a', 't', 'u', 'r', 'd', 'a', 'y', ',', ' '] }
    else { seq!['S', 'u', 'n', 'd', 'a', 'y', ',', ' '] }
}

/// `s` begins with the bytes of the ASCII characters of `name`.
pub open spec fn starts_with_name(s: Seq<u8>, name: Seq<char>) -> bool {
    name.len() <= s.len() && forall|i: int| 0 <= i < name.len() ==> s[i] as char == name[i]
}

/// The first weekday, in order from Monday, whose full name and `", "` begin `s`.
pub open spec fn long_weekday_of(s: Seq<u8>) -> Option<u8> {
    if starts_with_name(s, long_weekday_name(1)) { Some(1u8) }
    else if starts_with_name(s, long_weekday_name(2)) { Some(2u8) }
    else if starts_with_name(s, long_weekday_name(3)) { Some(3u8) }
    else if starts_with_name(s, long_weekday_name(4)) { Some(4u8) }
    else if starts_with_name(s, long_weekday_name(5)) { Some(5u8) }
    else if starts_with_name(s, long_weekday_name(6)) { Some(6u8) }
    else if starts_with_name(s, long_weekday_name(7)) { Some(7u8) }
    else { None }
}

/// A two-digit year: below 70 it lies in 2000..2069, else in 1970..1999.
pub open spec fn pivot_year(yy: int) -> int {
    if yy < 70 { 2000 + yy } else { 1900 + yy }
}

/// The value that the long-weekday layout `Wwwwww, dd-Mon-yy HH:MM:SS GMT` writes,
/// if `s` is in that layout.
pub open spec fn rfc850_of(s: Seq<u8>) -> Option<LogDate> {
    match long_weekday_of(s) {
        Some(w) => {
            let t = s.subrange(long_weekday_name(w).len() as int, s.len() as int);
            if {
                &&& s.len() >= 23
                &&& t.len() == 22
                &&& t[2] == ('-' as u8) && t[6] == ('-' as u8) && t[9] == (' ' as u8)
                &&& t[12] == (':' as u8)
                &&& t[15] == (':' as u8)
                &&& t[18] == (' ' as u8) && t[19] == ('G' as u8) && t[20] == ('M' as u8)
                &&& t[21] == ('T' as u8)
                &&& digits2_at(t, 0) && digits2_at(t, 7) && digits2_at(t, 10)
                &&& digits2_at(t, 13) && digits2_at(t, 16)
                &&& month_of_abbrev(t[3], t[4], t[5]) is Some
            } {
                Some(
                    LogDate {
                        nano: 0,
                        sec: value2_at(t, 16) as u8,
                        min: value2_at(t, 13) as u8,
                        hour: value2_at(t, 10) as u8,
                        day: value2_at(t, 0) as u8,
                        mon: month_of_abbrev(t[3], t[4], t[5])->0,
                        year: pivot_year(value2_at(t, 7)) as u16,
                        wday: w,
                    },
                )
            } else {
                None
            }
        },
        None => None,
    }
}

/// Exact form of the weekday names.
fn long_weekday_name_chars(w: u8) -> (r: Vec<char>)
    ensures
        r@ == long_weekday_name(w),
{
    let r = if w == 1 { vec!['M', 'o', 'n', 'd', 'a', 'y', ',', ' '] }
    else if w == 2 { vec!['T', 'u', 'e', 's', 'd', 'a', 'y', ',', ' '] }
    else if w == 3 { vec!['W', 'e', 'd', 'n', 'e', 's', 'd', 'a', 'y', ',', ' '] }
    else if w == 4 { vec!['T', 'h', 'u', 'r', 's', 'd', 'a', 'y', ',', ' '] }
    else if w == 5 { vec!['F', 'r', 'i', 'd', 'a', 'y', ',', ' '] }
    else if w == 6 { vec!['S', 'a', 't', 'u', 'r', 'd', 'a', 'y', ',', ' '] }
    else { vec!['S', 'u', 'n', 'd', 'a', 'y', ',', ' '] };
    assert(r@ =~= long_weekday_name(w));
    r
}

/// Whether `s` begins with the weekday name `w`; and the name's length.
fn weekday_name_prefix(s: &[u8], w: u8) -> (r: (bool, usize))
    ensures
        r.0 == starts_with_name(s@, long_weekday_name(w)),
        r.1 == long_weekday_name(w).len(),
{
    let name = long_weekday_name_chars(w);
    if name.len() > s.len() {
        return (false, name.len());
    }
    let mut i: usize = 0;
    while i < name.len()
        invariant
            name.len() <= s@.len(),
            i <= name.len(),
            name@ == long_weekday_name(w),
            forall|j: int| 0 <= j < i ==> s@[j] as char == name@[j],
        decreases name.len() - i,
    {
        if s[i] as char != name[i] {
            return (false, name.len());
        }
        i = i + 1;
    }
    (true, name.len())
}

/// Reads the long-weekday layout `Sunday, 06-Nov-94 08:49:37 GMT`.
pub fn parse_rfc850_date(s: &[u8]) -> (r: Result<LogDate, DateError>)
    ensures
        r == match rfc850_of(s@) {
            Some(d) => Ok::<LogDate, DateError>(d),
            None => Err(DateError),
        },
{
    if s.len() < 23 {
        return Err(DateError);
    }
    let mut wday: u8 = 1;
    let mut found: bool = false;
    let mut skip: usize = 0;
    while wday <= 7 && !found
        invariant
            1 <= wday <= 8,
            found ==> wday <= 7 && long_weekday_of(s@) == Some(wday) && skip == long_weekday_name(wday).len(),
            !found ==> forall|w: u8| 1 <= w < wday ==> !starts_with_name(s@, #[trigger] long_weekday_name(w)),
        decreases 8 - wday + if found { 0int } else { 1int },
    {
        let (hit, len) = weekday_name_prefix(s, wday);
        if hit {
            found = true;
            skip = len;
        } else {
            wday = wday + 1;
        }
    }
    if !found {
        assert(!starts_with_name(s@, long_weekday_name(7)));
        return Err(DateError);
    }
    let t = slice_from(s, skip);
    if t.len() != 22 || t[2] != ('-' as u8) || t[6] != ('-' as u8) || t[9] != (' ' as u8)
        || t[12] != (':' as u8) || t[15] != (':' as u8) || t[18] != (' ' as u8)
        || t[19] != ('G' as u8) || t[20] != ('M' as u8) || t[21] != ('T' as u8) {
        return Err(DateError);
    }
    let yy = toint_2(slice_from(t, 7))?;
    let year: u16 = if yy < 70 {
        2000 + yy as u16
    } else {
        1900 + yy as u16
    };
    let sec = toint_2(slice_from(t, 16))?;
    let min = toint_2(slice_from(t, 13))?;
    let hour = toint_2(slice_from(t, 10))?;
    let day = toint_2(t)?;
    let mon = match month_abbrev(t[3], t[4], t[5]) {
        Some(m) => m,
        None => return Err(DateError),
    };
    Ok(LogDate { nano: 0, sec, min, hour, day, mon, year, wday })
}

/// The value that the asctime layout `Www Mon [ d]d HH:MM:SS yyyy` writes, if `s`
/// is in that layout. A day below ten may be written as a space and one digit.
pub open spec fn asctime_of(s: Seq<u8>) -> Option<LogDate> {
    if {
        &&& s.len() == 24
        &&& s[3] == (' ' as u8) && s[7] == (' ' as u8) && s[10] == (' ' as u8)
        &&& s[13] == (':' as u8) && s[16] == (':' as u8) && s[19] == (' ' as u8)
        &&& if s[8] == (' ' as u8) { is_digit(s[9]) } else { digits2_at(s, 8) }
        &&& digits2_at(s, 11) && digits2_at(s, 14) && digits2_at(s, 17)
        &&& digits4_at(s, 20)
        &&& month_of_abbrev(s[4], s[5], s[6]) is Some
        &&& weekday_of_abbrev(s[0], s[1], s[2]) is Some
    } {
        Some(
            LogDate {
                nano: 0,
                sec: value2_at(s, 17) as u8,
                min: value2_at(s, 14) as u8,
                hour: value2_at(s, 11) as u8,
                day: if s[8] == (' ' as u8) {
                    (s[9] - ('0' as u8)) as u8
                } else {
                    value2_at(s, 8) as u8
                },
                mon: month_of_abbrev(s[4], s[5], s[6])->0,
                year: value4_at(s, 20) as u16,
                wday: weekday_of_abbrev(s[0], s[1], s[2])->0,
            },
        )
    } else {
        None
    }
}

/// Reads the asctime layout `Sun Nov  6 08:49:37 1994`.
pub fn parse_asctime(s: &[u8]) -> (r: Result<LogDate, DateError>)
    ensures
        r == match asctime_of(s@) {
            Some(d) => Ok::<LogDate, DateError>(d),
            None => Err(DateError),
        },
{
    if s.len() != 24 || s[10] != (' ' as u8) || s[13] != (':' as u8) || s[16] != (':' as u8)
        || s[19] != (' ' as u8) || s[3] != (' ' as u8) || s[7] != (' ' as u8) {
        return Err(DateError);
    }
    let sec = toint_2(slice_from(s, 17))?;
    let min = toint_2(slice_from(s, 14))?;
    let hour = toint_2(slice_from(s, 11))?;
    let day = if s[8] == (' ' as u8) {
        toint_1(s[9])
    } else {
        toint_2(slice_from(s, 8))
    }?;
    let mon = match month_abbrev(s[4], s[5], s[6]) {
        Some(m) => m,
        None => return Err(DateError),
    };
    let year = toint_4(slice_from(s, 20))?;
    let wday = match weekday_abbrev(s[0], s[1], s[2]) {
        Some(w) => w,
        None => return Err(DateError),
    };
    Ok(LogDate { nano: 0, sec, min, hour, day, mon, year, wday })
}

/// The value that the first matching layout writes, fixed layout first, then the
/// long-weekday layout, then asctime.
pub open spec fn layout_of(s: Seq<u8>) -> Option<LogDate> {
    if fixdate_of(s) is Some {
        fixdate_of(s)
    } else if rfc850_of(s) is Some {
        rfc850_of(s)
    } else {
        asctime_of(s)
    }
}

/// The value that the text `s` names: it is in one of the layouts and names a real
/// moment.
pub open spec fn date_of_bytes(s: Seq<u8>) -> Option<LogDate> {
    match layout_of(s) {
        Some(d) => if d.is_real() { Some(d) } else { None },
        None => None,
    }
}

/// Reads a date in one of the three layouts from bytes with no surrounding
/// whitespace, and keeps it only when it names a real moment.
pub fn parse_date_bytes(x: &[u8]) -> (r: Result<LogDate, DateError>)
    ensures
        r == match date_of_bytes(x@) {
            Some(d) => Ok::<LogDate, DateError>(d),
            None => Err(DateError),
        },
{
    let date = match parse_imf_fixdate(x) {
        Ok(d) => d,
        Err(_) => match parse_rfc850_date(x) {
            Ok(d) => d,
            Err(_) => parse_asctime(x)?,
        },
    };
    if !date.is_valid() {
        return Err(DateError);
    }
    Ok(date)
}

/// The whitespace that trimming removes from ASCII text.
pub open spec fn is_space(c: char) -> bool {
    c == ' ' || c == '\t' || c == '\n' || c == '\u{b}' || c == '\u{c}' || c == '\r'
}

/// `s` without its leading whitespace.
pub open spec fn trim_start(s: Seq<char>) -> Seq<char>
    decreases s.len(),
{
    if s.len() > 0 && is_space(s[0]) {
        trim_start(s.drop_first())
    } else {
        s
    }
}

/// `s` without its trailing whitespace.
pub open spec fn trim_end(s: Seq<char>) -> Seq<char>
    decreases s.len(),
{
    if s.len() > 0 && is_space(s.last()) {
        trim_end(s.drop_last())
    } else {
        s
    }
}

/// `s` without leading and trailing whitespace.
pub open spec fn trimmed(s: Seq<char>) -> Seq<char> {
    trim_end(trim_start(s))
}

/// The bytes of ASCII characters.
pub open spec fn ascii_bytes(s: Seq<char>) -> Seq<u8> {
    Seq::new(s.len(), |i: int| s[i] as u8)
}

/// The value that the text `s` names: `s` is ASCII, and once trimmed it is in one
/// of the layouts and names a real moment.
pub open spec fn date_of_text(s: Seq<char>) -> Option<LogDate> {
    if is_ascii_chars(s) {
        date_of_bytes(ascii_bytes(trimmed(s)))
    } else {
        None
    }
}

proof fn lemma_trim_keeps_ascii(s: Seq<char>)
    requires
        is_ascii_chars(s),
    ensures
        is_ascii_chars(trim_start(s)),
        is_ascii_chars(trim_end(s)),
    decreases s.len(),
{
    if s.len() > 0 {
        assert(is_ascii_chars(s.drop_first())) by {
            assert forall|i: int| 0 <= i < s.drop_first().len() implies '\0' <= #[trigger] s.drop_first()[i] <= '\u{7f}' by {
                assert(s.drop_first()[i] == s[i + 1]);
            }
        }
        assert(is_ascii_chars(s.drop_last())) by {
            assert forall|i: int| 0 <= i < s.drop_last().len() implies '\0' <= #[trigger] s.drop_last()[i] <= '\u{7f}' by {
                assert(s.drop_last()[i] == s[i]);
            }
        }
        lemma_trim_keeps_ascii(s.drop_first());
        lemma_trim_keeps_ascii(s.drop_last());
    }
}

/// Relies on `str::trim`: the text without leading and trailing White_Space
/// characters, which on ASCII text are tab, line feed, vertical tab, form feed,
/// carriage return and space.
#[verifier::external_body]
fn trim_str(s: &str) -> (r: &str)
    requires
        is_ascii_chars(s@),
    ensures
        r@ == trimmed(s@),
{
    s.trim()
}

impl LogDate {
    /// Reads a date in one of the three layouts from ASCII text, after trimming
    /// whitespace at both ends, and keeps it only when it names a real moment.
    pub fn parse(s: &str) -> (r: Result<LogDate, DateError>)
        ensures
            r == match date_of_text(s@) {
                Some(d) => Ok::<LogDate, DateError>(d),
                None => Err(DateError),
            },
    {
        if !s.is_ascii() {
            return Err(DateError);
        }
        let t = trim_str(s);
        proof {
            lemma_trim_keeps_ascii(s@);
            lemma_trim_keeps_ascii(trim_start(s@));
        }
        let x = t.as_bytes();
        proof {
            broadcast use vstd::string::is_ascii_spec_bytes;

            assert(is_ascii(t));
            assert(x@ =~= ascii_bytes(trimmed(s@)));
        }
        parse_date_bytes(x)
    }
}

/// The canonical text of a value is in none of the three layouts, so the parser
/// never accepts it: formatting does not lead back through parsing.
#[verifier::rlimit(30)]
pub proof fn lemma_canonical_text_not_parsed(d: LogDate)
    ensures
        date_of_text(canonical_text(d)) is None,
{
    let s = canonical_text(d);
    lemma_canonical_text_shape(d);
    assert(trim_start(s) == s);
    assert(trim_end(s) == s);
    let b = ascii_bytes(trimmed(s));
    assert(b.len() == s.len());
    assert(b[1] == s[1] as u8);
    assert(b[3] == s[3] as u8);
    assert(fixdate_of(b) is None);
    assert(asctime_of(b) is None);
    assert(long_weekday_of(b) is None);
    assert(rfc850_of(b) is None);
}

impl std::str::FromStr for LogDate {
    type Err = DateError;

    fn from_str(s: &str) -> (r: Result<LogDate, DateError>)
        ensures
            r == match date_of_text(s@) {
                Some(d) => Ok::<LogDate, DateError>(d),
                None => Err(DateError),
            },
    {
        LogDate::parse(s)
    }
}

} // verus!
