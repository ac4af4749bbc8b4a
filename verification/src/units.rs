use crate::text::{chars_of, string_of};
use pakr_iec::iec;
use vstd::prelude::*;

verus! {

/// The largest number that can be written in binary units, and one more.
pub const IEC_LIMIT: u128 = 0x400_0000_0000_0000_0000_0000;

/// `num` in binary units with one decimal place, as `pakr_iec::iec` writes
/// it: the unit is nothing, or a letter and an `i`.
pub uninterp spec fn iec_text(num: u128) -> Seq<char>;

/// `pakr_iec::iec` writes `num` with one decimal place and a binary unit.
/// It has no unit for a number of 2 to the 90th or more.
#[verifier::external_body]
fn iec_of(num: u128) -> (s: String)
    requires
        num < IEC_LIMIT,
    ensures
        s@ == iec_text(num),
{
    iec(num)
}

/// A number in binary units as it is shown: the `i` of the unit is left
/// out, and a number without a unit gets a `B`.
pub open spec fn shown(text: Seq<char>) -> Seq<char> {
    if text.len() > 0 && text.last() == 'i' {
        text.drop_last()
    } else {
        text.push('B')
    }
}

/// Turns a number in binary units into the form in which it is shown.
pub fn show_unit(text: &str) -> (s: String)
    ensures
        s@ == shown(text@),
{
    let mut chars = chars_of(text);
    let n = chars.len();
    if n > 0 && chars[n - 1] == 'i' {
        chars.pop();
    } else {
        chars.push('B');
    }
    string_of(chars.as_slice())
}

/// A number of bytes in binary units, as it is shown.
pub fn to_iec(num: u128) -> (s: String)
    requires
        num < IEC_LIMIT,
    ensures
        s@ == shown(iec_text(num)),
{
    let res = iec_of(num);
    show_unit(res.as_str())
}

} // verus!
