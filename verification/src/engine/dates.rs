//! What the text of a date and time says.

use crate::engine::calendar::{stamp_text, Civil};
use crate::parse::markers::{law_written_number_is_read, writes};
use crate::text;
use vstd::prelude::*;

verus! {

/// A number that fits takes up its width.
proof fn lemma_width(n: nat, width: nat)
    requires
        width == 2 && n < 100 || width == 3 && n < 1000 || width == 4 && n < 10000,
    ensures
        text::padded(n, width).len() == width,
{
    reveal_with_fuel(text::decimal, 5);
}

/// The text of a date and time has the year in its first four places, then the
/// month, the day, the hour, the minute and the second in two places each and
/// the milliseconds in three, with a separator before each and a `Z` at the end.
pub proof fn law_date_is_told_part_by_part(c: Civil, millis: u16)
    requires
        c.year < 10000,
        c.month <= 12,
        c.day <= 31,
        c.hour < 24,
        c.minute < 60,
        c.second < 60,
        millis < 1000,
    ensures
        ({
            let t = stamp_text(c, millis as nat);
            &&& t.len() == 24
            &&& text::number(t.subrange(0, 4)) == Some(c.year as u16)
            &&& t[4] == '-' && text::number(t.subrange(5, 7)) == Some(c.month as u16)
            &&& t[7] == '-' && text::number(t.subrange(8, 10)) == Some(c.day as u16)
            &&& t[10] == 'T' && text::number(t.subrange(11, 13)) == Some(c.hour as u16)
            &&& t[13] == ':' && text::number(t.subrange(14, 16)) == Some(c.minute as u16)
            &&& t[16] == ':' && text::number(t.subrange(17, 19)) == Some(c.second as u16)
            &&& t[19] == '.' && text::number(t.subrange(20, 23)) == Some(millis)
            &&& t[23] == 'Z'
        }),
{
    let t = stamp_text(c, millis as nat);
    lemma_width(c.year as nat, 4);
    lemma_width(c.month as nat, 2);
    lemma_width(c.day as nat, 2);
    lemma_width(c.hour as nat, 2);
    lemma_width(c.minute as nat, 2);
    lemma_width(c.second as nat, 2);
    lemma_width(millis as nat, 3);
    assert(t.subrange(0, 4) =~= text::padded(c.year as nat, 4));
    assert(t.subrange(5, 7) =~= text::padded(c.month as nat, 2));
    assert(t.subrange(8, 10) =~= text::padded(c.day as nat, 2));
    assert(t.subrange(11, 13) =~= text::padded(c.hour as nat, 2));
    assert(t.subrange(14, 16) =~= text::padded(c.minute as nat, 2));
    assert(t.subrange(17, 19) =~= text::padded(c.second as nat, 2));
    assert(t.subrange(20, 23) =~= text::padded(millis as nat, 3));
    lemma_part(c.year as u16, 4);
    lemma_part(c.month as u16, 2);
    lemma_part(c.day as u16, 2);
    lemma_part(c.hour as u16, 2);
    lemma_part(c.minute as u16, 2);
    lemma_part(c.second as u16, 2);
    lemma_part(millis, 3);
}

/// A number with zeros in front denotes itself.
proof fn lemma_part(n: u16, width: nat)
    ensures
        text::number(text::padded(n as nat, width)) == Some(n),
{
    assert(writes(text::padded(n as nat, width), n));
    law_written_number_is_read(text::padded(n as nat, width), n);
}

} // verus!
