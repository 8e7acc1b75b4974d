//! The time renderer: resolving a timezone identifier and formatting
//! the shared current instant for one roster entry.  The clock and
//! the calendar arithmetic belong to `chrono` and `chrono_tz` and
//! stand behind trusted wrappers; the layout of each listed line is
//! verified.

use core::fmt::Write;
use vstd::prelude::*;
use crate::chars::str_to_chars;

verus! {

#[verifier::external_type_specification]
#[verifier::external_body]
pub struct ExTz(chrono_tz::Tz);

/// The captured current instant, shared by every line of one
/// listing.  It holds `chrono`'s `DateTime<Utc>`, whose generic
/// declaration Verus refuses; the value is opaque and is only
/// carried from the clock to the formatter.
#[verifier::external_body]
pub struct Instant {
    inner: chrono::DateTime<chrono::Utc>,
}

/// Whether a timezone identifier resolves to a known timezone.  What
/// `chrono_tz` recognises depends on the identifier alone.
pub uninterp spec fn tz_valid(name: Seq<char>) -> bool;

/// Relies on `chrono_tz::Tz`'s `FromStr`: a name resolves to a
/// timezone, or fails, by a fixed table of the name alone.
#[verifier::external_body]
pub fn parse_tz(name: &Vec<char>) -> (r: Option<chrono_tz::Tz>)
    ensures
        r is Some <==> tz_valid(name@),
{
    let s: String = name.iter().collect();
    s.parse().ok()
}

/// Relies on `chrono::Utc::now`: the current instant, about which
/// nothing can be promised.
#[verifier::external_body]
pub fn now_utc() -> Instant {
    Instant { inner: chrono::Utc::now() }
}

/// Relies on `chrono`'s `with_timezone` and `format`: the instant
/// rendered in the given timezone with the given strftime-style
/// format.  Where the format string is ill-formed the rendering
/// stops at the offending directive.
#[verifier::external_body]
pub fn format_in_tz(now: &Instant, tz: &chrono_tz::Tz, fmt: &Vec<char>) -> Vec<char> {
    let f: String = fmt.iter().collect();
    let mut out = String::new();
    let _ = write!(out, "{}", now.inner.with_timezone(tz).format(&f));
    out.chars().collect()
}

/// A run of spaces; none when the count is not positive.
pub open spec fn spaces(k: int) -> Seq<char> {
    Seq::new(
        if k <= 0 {
            0
        } else {
            k as nat
        },
        |i: int| ' ',
    )
}

/// A name padded with spaces to the display column width.
pub open spec fn pad_to(name: Seq<char>, w: int) -> Seq<char> {
    name + spaces(w - name.len())
}

/// Pads a name to the column width.
pub fn pad_exec(name: &Vec<char>, w: usize) -> (r: Vec<char>)
    ensures
        r@ == pad_to(name@, w as int),
{
    let mut r: Vec<char> = Vec::new();
    let n = name.len();
    let mut i: usize = 0;
    while i < n
        invariant
            n == name@.len(),
            i <= n,
            r@ == name@.take(i as int),
        decreases n - i,
    {
        r.push(name[i]);
        proof {
            assert(r@ =~= name@.take(i + 1));
        }
        i += 1;
    }
    proof {
        assert(r@ =~= name@);
    }
    while r.len() < w
        invariant
            r@.len() >= name@.len(),
            r@.take(name@.len() as int) == name@,
            forall|j: int| name@.len() <= j < r@.len() ==> r@[j] == ' ',
            name@.len() <= w ==> r@.len() <= w,
            name@.len() >= w ==> r@.len() == name@.len(),
        decreases w - r@.len(),
    {
        r.push(' ');
        proof {
            assert(r@.take(name@.len() as int) =~= name@);
        }
    }
    proof {
        assert(r@ =~= pad_to(name@, w as int));
    }
    r
}

/// The line reporting an unresolvable timezone identifier.
pub open spec fn invalid_line(tz: Seq<char>, name: Seq<char>) -> Seq<char> {
    "invalid tz "@ + tz + " for "@ + name
}

/// Builds the invalid-timezone line for one entry.
pub fn invalid_line_exec(tz: &Vec<char>, name: &Vec<char>) -> (r: Vec<char>)
    ensures
        r@ == invalid_line(tz@, name@),
{
    let mut r = str_to_chars("invalid tz ");
    crate::chars::append_chars(&mut r, tz);
    let mut mid = str_to_chars(" for ");
    r.append(&mut mid);
    crate::chars::append_chars(&mut r, name);
    proof {
        assert(r@ =~= invalid_line(tz@, name@));
    }
    r
}

/// The line that an empty roster prints.
pub open spec fn no_entries_line() -> Seq<char> {
    "no entries!"@
}

/// Builds the empty-roster line.
pub fn no_entries_exec() -> (r: Vec<char>)
    ensures
        r@ == no_entries_line(),
{
    str_to_chars("no entries!")
}

} // verus!
