//! Points in time, as seconds and nanoseconds since the Unix epoch in UTC.

use vstd::prelude::*;
use vstd::string::StrSliceExecFns;

verus! {

#[verifier::external_type_specification]
#[verifier::external_body]
pub struct ExAnyhowError(anyhow::Error);

/// A point in time. `nanos` counts on from the whole second `seconds`.
#[derive(Clone, Copy, Debug, PartialEq, Eq, Structural)]
pub struct Timestamp {
    pub seconds: i64,
    pub nanos: u32,
}

impl Timestamp {
    /// `self` is not later than `other`.
    pub open spec fn not_after(self, other: Timestamp) -> bool {
        self.seconds < other.seconds || (self.seconds == other.seconds && self.nanos
            <= other.nanos)
    }

    /// Whether `self` is not later than `other`.
    pub fn le(&self, other: &Timestamp) -> (r: bool)
        ensures
            r == self.not_after(*other),
    {
        self.seconds < other.seconds || (self.seconds == other.seconds && self.nanos
            <= other.nanos)
    }
}

/// `c` is one of the digits `0` to `9`.
pub open spec fn is_digit(c: char) -> bool {
    48 <= c as u32 <= 57
}

/// `c` is one of the letters `a` to `z` or `A` to `Z`.
pub open spec fn is_letter(c: char) -> bool {
    65 <= c as u32 <= 90 || 97 <= c as u32 <= 122
}

/// `c` may stand in the zone at the end of a text: a letter, a digit, or one
/// of `+`, `,`, `-`, `.`, `/` and `:`.
pub open spec fn is_zone_char(c: char) -> bool {
    43 <= c as u32 <= 58 || is_letter(c)
}

/// The two digits `tens` and `ones` write a number of hours of 24 or more.
pub open spec fn day_or_more(tens: char, ones: char) -> bool {
    &&& is_digit(tens)
    &&& is_digit(ones)
    &&& tens as u32 >= 51 || (tens as u32 == 50 && ones as u32 >= 52)
}

/// The two digits `tens` and `ones` write a number of minutes below 60.
pub open spec fn minutes(tens: char, ones: char) -> bool {
    48 <= tens as u32 <= 53 && is_digit(ones)
}

/// The last `length` characters of `text` read as the zone of the text, and
/// the zone as an offset from UTC of 24 hours or more: a sign, two digits of
/// hours, and two digits of minutes that follow at once or after a colon.
/// With the minutes at once, one more character of a zone may follow. A letter
/// before the sign belongs to the zone, which then is a name and no offset.
pub open spec fn offset_too_large(text: Seq<char>, length: int) -> bool {
    let start = text.len() - length;
    &&& 5 <= length <= 6
    &&& 0 <= start
    &&& text[start] == '+' || text[start] == '-'
    &&& day_or_more(text[start + 1], text[start + 2])
    &&& if length == 6 {
        if text[start + 3] == ':' {
            minutes(text[start + 4], text[start + 5])
        } else {
            minutes(text[start + 3], text[start + 4]) && is_zone_char(text[start + 5])
        }
    } else {
        minutes(text[start + 3], text[start + 4]) && (start > 0 ==> !is_letter(text[start - 1]))
    }
}

/// `text` begins as the texts do that may end in a zone: with a year and a
/// month as in `2021-02`, with hours and minutes as in `4:00`, or with a letter.
pub open spec fn zone_family(text: Seq<char>) -> bool {
    ||| {
        &&& text.len() >= 7
        &&& is_digit(text[0])
        &&& is_digit(text[1])
        &&& is_digit(text[2])
        &&& is_digit(text[3])
        &&& text[4] == '-'
        &&& is_digit(text[5])
        &&& is_digit(text[6])
    }
    ||| {
        &&& text.len() >= 4
        &&& is_digit(text[0])
        &&& text[1] == ':'
        &&& is_digit(text[2])
        &&& is_digit(text[3])
    }
    ||| {
        &&& text.len() >= 5
        &&& is_digit(text[0])
        &&& is_digit(text[1])
        &&& text[2] == ':'
        &&& is_digit(text[3])
        &&& is_digit(text[4])
    }
    ||| text.len() >= 1 && is_letter(text[0])
}

/// `text` is refused as a time: it begins as a text that may end in a zone,
/// and its end reads as an offset from UTC of 24 hours or more.
pub open spec fn refused_offset(text: Seq<char>) -> bool {
    zone_family(text) && (offset_too_large(text, 5) || offset_too_large(text, 6))
}

/// Whether `c` is a digit.
fn digit(c: char) -> (r: bool)
    ensures
        r == is_digit(c),
{
    let code: u32 = c as u32;
    48 <= code && code <= 57
}

/// Whether `c` is a letter of the Latin alphabet without marks.
fn letter(c: char) -> (r: bool)
    ensures
        r == is_letter(c),
{
    let code: u32 = c as u32;
    (65 <= code && code <= 90) || (97 <= code && code <= 122)
}

/// Whether the last `length` characters of `text`, which has `total`
/// characters, read as an offset of 24 hours or more.
fn too_large(text: &str, total: usize, length: usize) -> (r: bool)
    requires
        total == text@.len(),
        5 <= length <= 6,
    ensures
        r == offset_too_large(text@, length as int),
{
    if total < length {
        return false;
    }
    let start: usize = total - length;
    let sign = text.get_char(start);
    let tens = text.get_char(start + 1);
    let ones = text.get_char(start + 2);
    if (sign != '+' && sign != '-') || !digit(tens) || !digit(ones) {
        return false;
    }
    let hours_tens: u32 = tens as u32;
    let hours_ones: u32 = ones as u32;
    if !(hours_tens >= 51 || (hours_tens == 50 && hours_ones >= 52)) {
        return false;
    }
    let third = text.get_char(start + 3);
    let fourth = text.get_char(start + 4);
    if length == 6 {
        let fifth = text.get_char(start + 5);
        if third == ':' {
            let code: u32 = fourth as u32;
            48 <= code && code <= 53 && digit(fifth)
        } else {
            let code: u32 = third as u32;
            let last: u32 = fifth as u32;
            48 <= code && code <= 53 && digit(fourth) && ((43 <= last && last <= 58) || letter(
                fifth,
            ))
        }
    } else {
        let code: u32 = third as u32;
        if !(48 <= code && code <= 53 && digit(fourth)) {
            return false;
        }
        if start > 0 {
            let before = text.get_char(start - 1);
            !letter(before)
        } else {
            true
        }
    }
}

/// Whether `text` begins as the texts do that may end in a zone.
fn in_zone_family(text: &str, total: usize) -> (r: bool)
    requires
        total == text@.len(),
    ensures
        r == zone_family(text@),
{
    if total == 0 {
        return false;
    }
    let first = text.get_char(0);
    if letter(first) {
        return true;
    }
    if !digit(first) || total < 4 {
        return false;
    }
    let second = text.get_char(1);
    let third = text.get_char(2);
    let fourth = text.get_char(3);
    if second == ':' {
        return digit(third) && digit(fourth);
    }
    if !digit(second) || total < 5 {
        return false;
    }
    let fifth = text.get_char(4);
    if third == ':' {
        return digit(fourth) && digit(fifth);
    }
    if total < 7 {
        return false;
    }
    let sixth = text.get_char(5);
    let seventh = text.get_char(6);
    digit(third) && digit(fourth) && fifth == '-' && digit(sixth) && digit(seventh)
}

/// Whether `text` is refused as a time because its end reads as an offset
/// from UTC of 24 hours or more.
pub fn refuses_offset(text: &str) -> (r: bool)
    ensures
        r == refused_offset(text@),
{
    let total = text.unicode_len();
    in_zone_family(text, total) && (too_large(text, total, 5) || too_large(text, total, 6))
}

/// `dateparser::parse`, which recognises a list of date formats and reads a
/// text without a time zone in the machine's own, and a bare time of day on
/// the current date: nothing is promised of the result. The time comes back
/// through `DateTime::timestamp` and `DateTime::timestamp_subsec_nanos`.
///
/// Where a text ends in a zone, `dateparser` takes the zone from the last
/// three to six characters of the text, behind a digit or a space, and hands
/// its offset to `FixedOffset::east`, which panics from 24 hours on. Only a
/// text that begins with a year and a month, with hours and minutes or with a
/// letter is read that way. Such texts are left out.
#[verifier::external_body]
pub(crate) fn parse_time(text: &str) -> (r: Result<Timestamp, anyhow::Error>)
    requires
        !refused_offset(text@),
{
    let time = dateparser::parse(text)?;
    Ok(Timestamp { seconds: time.timestamp(), nanos: time.timestamp_subsec_nanos() })
}

} // verus!
