//! The time at which an entry is stored.

use crate::text::{blank, white_space};
use vstd::prelude::*;

verus! {

/// A decimal digit.
pub open spec fn is_digit(c: char) -> bool {
    '0' <= c <= '9'
}

/// Two digits stand at `i`.
pub open spec fn two_digits(s: Seq<char>, i: int) -> bool {
    is_digit(s[i]) && is_digit(s[i + 1])
}

/// A moment in UTC to the second: a year of at least four characters, then month, day, hour,
/// minute and second, each of two digits, as in `2026-07-20T00:00:00Z`.
pub open spec fn utc_second(s: Seq<char>) -> bool {
    let n = s.len();
    &&& n >= 20
    &&& s[n - 16] == '-'
    &&& two_digits(s, n - 15)
    &&& s[n - 13] == '-'
    &&& two_digits(s, n - 12)
    &&& s[n - 10] == 'T'
    &&& two_digits(s, n - 9)
    &&& s[n - 7] == ':'
    &&& two_digits(s, n - 6)
    &&& s[n - 4] == ':'
    &&& two_digits(s, n - 3)
    &&& s[n - 1] == 'Z'
}

/// `chrono::Utc::now` put in words by `DateTime::to_rfc3339_opts` to the second, with a `Z` for
/// UTC. The moment is whatever the machine's clock says, which `chrono` takes to be past the start
/// of 1970; of the text its shape is stated.
#[verifier::external_body]
fn now_utc_second() -> (now: String)
    ensures
        utc_second(now@),
{
    chrono::Utc::now().to_rfc3339_opts(chrono::SecondsFormat::Secs, true)
}

/// The clock was asked for the moment and said `s`.
pub closed spec fn clock_said(s: Seq<char>) -> bool {
    exists|now: String| #[trigger] call_ensures(now_utc_second, (), now) && now@ == s
}

/// The moment that the clock says it is.
pub(crate) fn current_moment() -> (now: String)
    ensures
        utc_second(now@),
        clock_said(now@),
{
    let now = now_utc_second();
    assert(call_ensures(now_utc_second, (), now));
    now
}

/// A moment is not blank.
pub proof fn moment_is_not_blank(s: Seq<char>)
    requires
        utc_second(s),
    ensures
        !blank(s),
{
    assert(!white_space(s[s.len() - 1]));
}

} // verus!
