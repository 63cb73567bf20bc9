//! Amounts as text for people to read.

use crate::decimal::amount_abs;
use crate::decimal::amount_round;
use crate::decimal::decimal_abs;
use crate::decimal::decimal_round;
use crate::decimal::decimal_text;
use crate::decimal::Amount;
use crate::decimal::Decimal;
use vstd::prelude::*;
use vstd::string::StrSliceExecFns;
use vstd::string::StringExecFns;

verus! {

/// The index of the first decimal point of `text`, or its length where it has none.
pub open spec fn point(text: Seq<char>) -> int
    decreases text.len(),
{
    if text.len() == 0 || text[0] == '.' {
        0
    } else {
        1 + point(text.drop_first())
    }
}

/// `digits` with a comma before every group of three, counted from the right.
pub open spec fn with_commas(digits: Seq<char>) -> Seq<char>
    decreases digits.len(),
{
    if digits.len() <= 3 {
        digits
    } else {
        with_commas(digits.take(digits.len() - 3)) + seq![','] + digits.skip(digits.len() - 3)
    }
}

/// What follows the decimal point of `text`, cut or filled with zeros to two places.
pub open spec fn two_places(text: Seq<char>) -> Seq<char> {
    let fraction = if point(text) < text.len() {
        text.skip(point(text) + 1)
    } else {
        Seq::empty()
    };
    if fraction.len() == 0 {
        seq!['0', '0']
    } else if fraction.len() == 1 {
        fraction + seq!['0']
    } else {
        fraction.take(2)
    }
}

/// The number written as `text`, which holds no sign, with commas between
/// the thousands, two places after the decimal point, and a minus sign in
/// front where `negative` says so.
pub open spec fn formatted(text: Seq<char>, negative: bool) -> Seq<char> {
    let sign = if negative {
        seq!['-']
    } else {
        Seq::empty()
    };
    sign + with_commas(text.take(point(text))) + seq!['.'] + two_places(text)
}

/// The first place where a point stands, or the end where there is none, is
/// the point.
pub proof fn lemma_point_found(text: Seq<char>, at: int)
    requires
        0 <= at <= text.len(),
        at < text.len() ==> text[at] == '.',
        forall|i: int| 0 <= i < at ==> text[i] != '.',
    ensures
        point(text) == at,
    decreases text.len(),
{
    if at > 0 {
        lemma_point_found(text.drop_first(), at - 1);
    }
}

/// The unsigned decimal text `text` with commas between the thousands and
/// two places after the decimal point, behind a minus sign where `negative`
/// says so.
pub fn format_parts(text: &str, negative: bool) -> (r: String)
    ensures
        r@ == formatted(text@, negative),
{
    let length = text.unicode_len();
    let mut split: usize = 0;
    while split < length && text.get_char(split) != '.'
        invariant
            split <= length == text@.len(),
            forall|i: int| 0 <= i < split ==> text@[i] != '.',
        decreases length - split,
    {
        split += 1;
    }
    proof {
        lemma_point_found(text@, split as int);
        reveal_strlit("-");
        reveal_strlit(",");
        reveal_strlit(".");
        reveal_strlit("0");
        reveal_strlit("00");
    }
    let ghost digits = text@.take(split as int);
    let mut out = String::new();
    if negative {
        out.append("-");
    }
    let ghost sign = out@;
    let mut end: usize = if split % 3 == 0 && split > 0 {
        3
    } else {
        split % 3
    };
    out.append(text.substring_char(0, end));
    assert(digits.take(end as int) =~= text@.subrange(0, end as int));
    while end < split
        invariant
            end <= split <= length == text@.len(),
            (split - end) % 3 == 0,
            end == 0 ==> split == 0,
            digits == text@.take(split as int),
            ","@ == seq![','],
            out@ == sign + with_commas(digits.take(end as int)),
        decreases split - end,
    {
        let ghost group = digits.take(end + 3);
        out.append(",");
        out.append(text.substring_char(end, end + 3));
        proof {
            assert(group.take(group.len() - 3) =~= digits.take(end as int));
            assert(group.skip(group.len() - 3) =~= text@.subrange(end as int, end + 3));
            assert(out@ =~= sign + with_commas(group));
        }
        end += 3;
    }
    assert(digits.take(end as int) =~= digits);
    out.append(".");
    if split < length {
        let places = length - split - 1;
        let ghost fraction = text@.skip(split + 1);
        if places >= 2 {
            out.append(text.substring_char(split + 1, split + 3));
            assert(fraction.take(2) =~= text@.subrange(split + 1, split + 3));
        } else {
            out.append(text.substring_char(split + 1, length));
            assert(fraction =~= text@.subrange(split + 1, length as int));
            if places == 0 {
                out.append("00");
                assert(fraction + "00"@ =~= seq!['0', '0']);
            } else {
                out.append("0");
            }
        }
    } else {
        out.append("00");
        assert("00"@ =~= seq!['0', '0']);
    }
    assert(out@ =~= formatted(text@, negative));
    out
}

/// The value of `number` rounded to two places, ties to even, as the text
/// that people read.
pub open spec fn formatted_decimal(number: Decimal) -> Seq<char> {
    let rounded = decimal_round(number, 2);
    let magnitude = decimal_abs(rounded);
    formatted(decimal_text(magnitude.unscaled, magnitude.scale), rounded.unscaled < 0)
}

/// Nicely format a decimal value with two decimal places and commas
pub fn format_bigdecimal(number: &Amount) -> (r: String)
    ensures
        r@ == formatted_decimal(number@),
{
    let rounded = amount_round(number, 2);
    let negative = rounded.is_negative();
    let text = amount_abs(&rounded).to_text();
    format_parts(text.as_str(), negative)
}

} // verus!
