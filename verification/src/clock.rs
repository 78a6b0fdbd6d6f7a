//! The clock, the calendar and fresh identities. What the clock and the
//! identities give depends on time and chance, so the store's operations have a
//! form that takes it as an argument.
use vstd::prelude::*;
use crate::text::Text;

verus! {

/// A time has the form in which times are written: a year of four or more
/// characters, then month, day, hour, minute, second and milliseconds in digits,
/// and `Z`.
pub open spec fn is_stamp(time: Text) -> bool {
    let rest = time.skip(time.len() - 20);
    &&& time.len() >= 24
    &&& rest[0] == '-' && rest[3] == '-' && rest[6] == 'T'
    &&& rest[9] == ':' && rest[12] == ':' && rest[15] == '.' && rest[19] == 'Z'
    &&& forall|i: int|
        1 <= i < 19 && i % 3 != 0 || i == 18 ==> '0' <= #[trigger] rest[i] <= '9'
}

/// `chrono::Utc::now`, written as RFC 3339 with milliseconds and `Z`. Which time
/// it is is left unsaid.
#[verifier::external_body]
pub(crate) fn now() -> (r: String)
    ensures
        is_stamp(r@),
{
    chrono::Utc::now().to_rfc3339_opts(chrono::SecondsFormat::Millis, true)
}

/// The time a number of seconds after another, or before it where the number is
/// negative, if the first is a time and the calendar reaches the second.
pub uninterp spec fn later(present: Text, seconds: int) -> Option<Text>;

/// `chrono::DateTime::parse_from_rfc3339`, then `checked_add_signed` with the
/// span of `chrono::TimeDelta::try_seconds`, written as RFC 3339 in UTC with
/// milliseconds and `Z`. The contract names the time and says in what form it is
/// written, and that a span of more than `i64::MAX` milliseconds leads to none.
#[verifier::external_body]
pub(crate) fn time_later(present: &str, seconds: i64) -> (r: Option<String>)
    ensures
        r.deep_view() == later(present@, seconds as int),
        r is Some ==> is_stamp(r->Some_0@),
        seconds > i64::MAX / 1000 ==> r is None,
        seconds < -(i64::MAX / 1000) ==> r is None,
{
    let start = chrono::DateTime::parse_from_rfc3339(present).ok()?.with_timezone(&chrono::Utc);
    let span = chrono::TimeDelta::try_seconds(seconds)?;
    let time = start.checked_add_signed(span)?;
    Some(time.to_rfc3339_opts(chrono::SecondsFormat::Millis, true))
}

/// A character of Crockford's Base32: a digit, or a capital letter other than
/// `I`, `L`, `O` and `U`.
pub open spec fn base32(c: char) -> bool {
    ('0' <= c <= '9') || ('A' <= c <= 'Z' && c != 'I' && c != 'L' && c != 'O' && c != 'U')
}

/// An identity has the form of a fresh one: 26 characters of Base32.
pub open spec fn is_fresh(id: Text) -> bool {
    id.len() == 26 && forall|i: int| 0 <= i < id.len() ==> base32(#[trigger] id[i])
}

/// The identities have the form of fresh ones.
pub open spec fn are_fresh(ids: Seq<Text>) -> bool {
    forall|i: int| 0 <= i < ids.len() ==> is_fresh(#[trigger] ids[i])
}

/// `ulid::Ulid::generate`: an identity made of the time and chance, written
/// with 26 characters of Base32. Which one it is depends on the present and on
/// chance and is left unsaid.
#[verifier::external_body]
pub(crate) fn new_id() -> (r: String)
    ensures
        is_fresh(r@),
{
    ulid::Ulid::generate().to_string()
}

/// Whether a text is a time in the form of RFC 3339.
pub uninterp spec fn is_time(content: Text) -> bool;

/// How old a time is at another, in whole seconds and the nanoseconds on top, if
/// both are times.
pub uninterp spec fn age_at(present: Text, created_at: Text) -> Option<(i64, i32)>;

/// `chrono::DateTime::parse_from_rfc3339` on two texts and
/// `signed_duration_since` on the times. The contract names the age, and says
/// that there is one where both texts are times.
#[verifier::external_body]
pub(crate) fn age(present: &str, created_at: &str) -> (r: Option<(i64, i32)>)
    ensures
        r == age_at(present@, created_at@),
        r is Some == (is_time(present@) && is_time(created_at@)),
{
    let created = chrono::DateTime::parse_from_rfc3339(created_at).ok()?;
    let now = chrono::DateTime::parse_from_rfc3339(present).ok()?;
    let age = now.signed_duration_since(created);
    Some((age.num_seconds(), age.subsec_nanos()))
}

/// As many fresh identities as asked for.
pub fn new_ids(count: usize) -> (r: Vec<String>)
    ensures
        r@.len() == count,
        are_fresh(r.deep_view()),
{
    let mut out: Vec<String> = Vec::new();
    while out.len() < count
        invariant
            out@.len() <= count,
            forall|i: int| 0 <= i < out@.len() ==> is_fresh((#[trigger] out@[i])@),
        decreases count - out@.len(),
    {
        out.push(new_id());
    }
    assert forall|i: int| 0 <= i < out.deep_view().len() implies is_fresh(
        #[trigger] out.deep_view()[i],
    ) by {
        assert(is_fresh(out@[i]@));
    }
    out
}

} // verus!
