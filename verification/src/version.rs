//! When a binary was built, and how it says so.
//!
//! `--version` answers with one line, `1788637958 2026-9-5 13:52:38`. The
//! epoch seconds come first because they are exact and comparable; the local
//! date and time after it are for the person reading, which is why the month,
//! day and hour are not padded while the minute and second are.

use vstd::prelude::*;

use crate::clock::{local, LocalTime};
use crate::ratio::read_digits;
use crate::text::{chars_of, push_dec_padded, push_int, trim_end, trim_start};

verus! {

/// One epoch and the moment it shows as: the epoch, the date and the hour as
/// they are, the minute and the second with two digits.
pub open spec fn stamp_line(epoch: i64, t: Option<LocalTime>) -> Seq<char> {
    match t {
        Some(t) => crate::text::dec_int(epoch as int) + " "@ + crate::text::dec_int(t.year as int)
            + "-"@ + crate::text::dec_int(t.month as int) + "-"@ + crate::text::dec_int(
            t.day as int,
        ) + " "@ + crate::text::dec_int(t.hour as int) + ":"@ + crate::text::dec_padded(
            t.minute as nat,
            2,
        ) + ":"@ + crate::text::dec_padded(t.second as nat, 2),
        None => crate::text::dec_int(epoch as int) + " (not a representable date)"@,
    }
}

/// Renders one epoch and the moment it shows as.
pub fn format_with(epoch: i64, t: &Option<LocalTime>) -> (out: String)
    requires
        t matches Some(t) ==> t.in_bounds(),
    ensures
        out@ == stamp_line(epoch, *t),
{
    let mut out = String::new();
    push_int(&mut out, epoch);
    assert(out@ =~= crate::text::dec_int(epoch as int));
    match t {
        Some(t) => {
            out.append(" ");
            push_int(&mut out, t.year as i64);
            out.append("-");
            push_int(&mut out, t.month as i64);
            out.append("-");
            push_int(&mut out, t.day as i64);
            out.append(" ");
            push_int(&mut out, t.hour as i64);
            out.append(":");
            push_dec_padded(&mut out, t.minute as u64, 2);
            out.append(":");
            push_dec_padded(&mut out, t.second as u64, 2);
        },
        None => {
            out.append(" (not a representable date)");
        },
    }
    out
}

/// Whether a text is an epoch and the moment it shows as on some machine.
pub open spec fn is_build_line(epoch: i64, s: Seq<char>) -> bool {
    if crate::clock::representable(epoch as int) {
        exists|t: LocalTime| #[trigger] t.is_at(epoch as int) && s == stamp_line(epoch, Some(t))
    } else {
        s == stamp_line(epoch, None)
    }
}

/// Renders one epoch as `<epoch> <year>-<month>-<day> <hour>:<minute>:<second>`
/// in the machine's own time zone.
pub fn format(epoch: i64) -> (out: String)
    ensures
        is_build_line(epoch, out@),
{
    let t = local(epoch);
    format_with(epoch, &t)
}

/// Whether a text writes a whole number: a sign or none, and digits.
pub open spec fn writes_number(s: Seq<char>) -> bool {
    let digits = if s.len() > 0 && (s[0] == '-' || s[0] == '+') {
        s.skip(1)
    } else {
        s
    };
    digits.len() > 0 && crate::ratio::all_digits(digits)
}

/// The whole number that a text writes.
pub open spec fn number_of(s: Seq<char>) -> int {
    if s.len() > 0 && s[0] == '-' {
        -(crate::ratio::digits_value(s.skip(1)) as int)
    } else if s.len() > 0 && s[0] == '+' {
        crate::ratio::digits_value(s.skip(1)) as int
    } else {
        crate::ratio::digits_value(s) as int
    }
}

/// The build time that a text pins: the number it writes between white space,
/// when it writes one that fits.
pub open spec fn pinned_epoch(s: Seq<char>) -> Option<i64> {
    let t = crate::text::without_trailing(crate::text::without_leading(s));
    if writes_number(t) && i64::MIN <= number_of(t) <= i64::MAX {
        Some(number_of(t) as i64)
    } else {
        None
    }
}

fn parse_pinned(s: &str) -> (r: Option<i64>)
    ensures
        r == pinned_epoch(s@),
{
    let t = trim_end(trim_start(s));
    let x = chars_of(t);
    let negative: bool = x.len() > 0 && x[0] == '-';
    let start: usize = if negative || (x.len() > 0 && x[0] == '+') {
        1
    } else {
        0
    };
    let ghost digits = x@.subrange(start as int, x@.len() as int);
    proof {
        if start == 1 {
            assert(digits =~= x@.skip(1));
        } else {
            assert(digits =~= x@);
        }
    }
    if start == x.len() {
        return None;
    }
    match read_digits(&x, start, x.len(), 1_000_000_000_000_000_000_000) {
        Some(size) => if negative {
            if size <= 9_223_372_036_854_775_808 {
                Some((-(size as i128)) as i64)
            } else {
                None
            }
        } else if size <= 9_223_372_036_854_775_807 {
            Some(size as i64)
        } else {
            None
        },
        None => None,
    }
}

/// When an executable was built, in seconds since the epoch: what the build
/// pinned, or else when the file was last written, or else nought.
pub open spec fn built_at(pinned: Option<&str>, modified: Option<u64>) -> i64 {
    match pinned {
        Some(s) if pinned_epoch(s@) is Some => pinned_epoch(s@)->0,
        _ => match modified {
            Some(m) if m <= i64::MAX => m as i64,
            _ => 0,
        },
    }
}

/// Seconds since the epoch at which an executable was built: what the build
/// pinned, or else when the file was last written, or else nought.
pub fn build_epoch(pinned: Option<&str>, modified: Option<u64>) -> (r: i64)
    ensures
        r == built_at(pinned, modified),
{
    if let Some(s) = pinned {
        if let Some(t) = parse_pinned(s) {
            return t;
        }
    }
    match modified {
        Some(m) => if m <= i64::MAX as u64 {
            m as i64
        } else {
            0
        },
        None => 0,
    }
}

/// The one line `--version` prints.
pub fn build_stamp(pinned: Option<&str>, modified: Option<u64>) -> (out: String)
    ensures
        is_build_line(built_at(pinned, modified), out@),
{
    format(build_epoch(pinned, modified))
}

// What holds of every build.

/// A build's line is its epoch, and then the date and the time on this machine:
/// year, month, day and hour as they are, minute and second with two digits;
/// or the epoch and a word that it has no date.
pub proof fn law_a_build_line_writes_its_fields(epoch: i64, t: LocalTime)
    ensures
        stamp_line(epoch, Some(t)) == crate::text::dec_int(epoch as int) + " "@
            + crate::text::dec_int(t.year as int) + "-"@ + crate::text::dec_int(t.month as int)
            + "-"@ + crate::text::dec_int(t.day as int) + " "@ + crate::text::dec_int(
            t.hour as int,
        ) + ":"@ + crate::text::dec_padded(t.minute as nat, 2) + ":"@ + crate::text::dec_padded(
            t.second as nat,
            2,
        ),
        stamp_line(epoch, None) == crate::text::dec_int(epoch as int)
            + " (not a representable date)"@,
{
}

/// A time that was pinned is read back as it was written, whatever its sign and
/// whatever white space stands around it.
pub proof fn law_a_pinned_time_reads_back(epoch: i64, before: Seq<char>, after: Seq<char>)
    requires
        crate::text::blank(before),
        crate::text::blank(after),
    ensures
        pinned_epoch(before + crate::text::dec_int(epoch as int) + after) == Some(epoch),
{
    let n = epoch as int;
    let s = crate::text::dec_int(n);
    let digits = crate::text::dec(
        (if n < 0 {
            -n
        } else {
            n
        }) as nat,
    );
    crate::ratio::lemma_dec_reads_back(
        (if n < 0 {
            -n
        } else {
            n
        }) as nat,
    );
    assert(crate::ratio::is_digit(digits[0]));
    assert(crate::ratio::is_digit(digits[digits.len() - 1]));
    if n < 0 {
        assert(s.skip(1) =~= digits);
        assert(s.last() == digits.last());
    }
    let inner = s + after;
    let whole = before + s + after;
    assert(whole =~= before + inner);
    assert(inner[0] == s[0]);
    assert(!crate::text::white(s[0]));
    lemma_trims_front(before, inner);
    assert(!crate::text::white(s.last()));
    lemma_trims_back(s, after);
}

proof fn lemma_trims_front(w: Seq<char>, s: Seq<char>)
    requires
        crate::text::blank(w),
        s.len() > 0,
        !crate::text::white(s[0]),
    ensures
        crate::text::without_leading(w + s) == s,
    decreases w.len(),
{
    if w.len() == 0 {
        assert(w + s =~= s);
    } else {
        assert(crate::text::white(w[0]));
        let less = w.skip(1);
        assert forall|i: int| 0 <= i < less.len() implies crate::text::white(#[trigger] less[i]) by {
            assert(crate::text::white(w[i + 1]));
        }
        lemma_trims_front(less, s);
        assert((w + s).skip(1) =~= less + s);
    }
}

proof fn lemma_trims_back(s: Seq<char>, w: Seq<char>)
    requires
        crate::text::blank(w),
        s.len() > 0,
        !crate::text::white(s.last()),
    ensures
        crate::text::without_trailing(s + w) == s,
    decreases w.len(),
{
    if w.len() == 0 {
        assert(s + w =~= s);
    } else {
        assert(crate::text::white(w[w.len() - 1]));
        let less = w.drop_last();
        assert forall|i: int| 0 <= i < less.len() implies crate::text::white(#[trigger] less[i]) by {
            assert(crate::text::white(w[i]));
        }
        lemma_trims_back(s, less);
        assert((s + w).drop_last() =~= s + less);
    }
}

/// Nothing is made up: what writes no number pins nothing, and what is read is
/// the number that is written.
pub proof fn law_only_a_number_pins_a_time(s: Seq<char>)
    ensures
        pinned_epoch(s) matches Some(n) ==> {
            let t = crate::text::without_trailing(crate::text::without_leading(s));
            let signed = t.len() > 0 && (t[0] == '-' || t[0] == '+');
            let digits = if signed {
                t.skip(1)
            } else {
                t
            };
            &&& digits.len() > 0
            &&& crate::ratio::all_digits(digits)
            &&& n == (if signed && t[0] == '-' {
                -(crate::ratio::digits_value(digits) as int)
            } else {
                crate::ratio::digits_value(digits) as int
            })
        },
{
}

/// What was pinned counts, or else when the file was written, or else nought.
pub proof fn law_a_pinned_time_comes_first(pinned: &str, modified: u64)
    ensures
        pinned_epoch(pinned@) matches Some(n) ==> built_at(Some(pinned), Some(modified)) == n
            && built_at(Some(pinned), None) == n,
        pinned_epoch(pinned@) is None ==> built_at(Some(pinned), Some(modified)) == built_at(
            None,
            Some(modified),
        ) && built_at(Some(pinned), None) == 0,
        modified <= 0x7fff_ffff_ffff_ffff ==> built_at(None, Some(modified)) == modified,
        modified > 0x7fff_ffff_ffff_ffff ==> built_at(None, Some(modified)) == 0,
        built_at(None, None) == 0,
{
}

} // verus!
