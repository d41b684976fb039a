//! Instants at second precision, written and read as RFC 3339 text.

use vstd::prelude::*;

verus! {

/// What `chrono::DateTime::parse_from_rfc3339` makes of `text`: the seconds
/// since the Unix epoch of the instant it reads, or `None` where it rejects
/// the text.
pub uninterp spec fn rfc3339_secs(text: Seq<char>) -> Option<i64>;

/// What `chrono` writes for the instant `secs` seconds after the Unix epoch
/// in RFC 3339 form, at second precision and with `Z` for UTC, or `None` where
/// `chrono::DateTime::from_timestamp` cannot represent the instant.
pub uninterp spec fn rfc3339_text(secs: i64) -> Option<Seq<char>>;

/// Calls `chrono::DateTime::parse_from_rfc3339` and, on success,
/// `chrono::DateTime::timestamp` on what it returned. Trusted: the result is a
/// function of the text alone.
#[verifier::external_body]
fn parse_rfc3339(text: &str) -> (secs: Option<i64>)
    ensures
        secs == rfc3339_secs(text@),
{
    match chrono::DateTime::parse_from_rfc3339(text) {
        Ok(instant) => Some(instant.timestamp()),
        Err(_) => None,
    }
}

/// Calls `chrono::DateTime::from_timestamp` with no nanoseconds and, where
/// that gives an instant, `chrono::DateTime::to_rfc3339_opts` on it with
/// `SecondsFormat::Secs` and `use_z`. Trusted: the result is a function of
/// `secs` alone.
#[verifier::external_body]
fn format_rfc3339(secs: i64) -> (text: Option<String>)
    ensures
        match text {
            Some(t) => rfc3339_text(secs) == Some(t@),
            None => rfc3339_text(secs) is None,
        },
{
    match chrono::DateTime::from_timestamp(secs, 0) {
        Some(instant) => Some(instant.to_rfc3339_opts(chrono::SecondsFormat::Secs, true)),
        None => None,
    }
}

/// An instant at second precision that has an RFC 3339 form.
#[derive(Clone, Copy, Debug, PartialEq, Eq, Structural)]
pub struct Timestamp {
    secs: i64,
}

impl Timestamp {
    #[verifier::type_invariant]
    spec fn representable(self) -> bool {
        rfc3339_text(self.secs) is Some
    }

    /// Seconds since the Unix epoch.
    pub closed spec fn view(self) -> i64 {
        self.secs
    }

    /// The instant `secs` seconds after the Unix epoch, if it has an RFC 3339
    /// form.
    pub fn from_secs(secs: i64) -> (t: Option<Timestamp>)
        ensures
            t is Some <==> rfc3339_text(secs) is Some,
            t matches Some(t) ==> t@ == secs,
    {
        match format_rfc3339(secs) {
            Some(_) => Some(Timestamp { secs }),
            None => None,
        }
    }

    /// Seconds since the Unix epoch.
    pub fn secs(&self) -> (secs: i64)
        ensures
            secs == self@,
    {
        self.secs
    }

    /// Reads an RFC 3339 date and time, dropping any fraction of a second.
    pub fn parse_from_rfc3339(text: &str) -> (t: Option<Timestamp>)
        ensures
            secs_of(t) == parsed_secs(text@),
    {
        match parse_rfc3339(text) {
            Some(secs) => Timestamp::from_secs(secs),
            None => None,
        }
    }

    /// The RFC 3339 form at second precision, with `Z` for UTC.
    pub fn to_rfc3339(&self) -> (text: String)
        ensures
            Some(text@) == rfc3339_text(self@),
    {
        proof {
            use_type_invariant(self);
        }
        format_rfc3339(self.secs).unwrap()
    }

    /// Two timestamps of the same second are the same timestamp.
    pub proof fn lemma_same_secs(a: Timestamp, b: Timestamp)
        requires
            a@ == b@,
        ensures
            a == b,
    {
    }
}

/// The seconds of an optional timestamp.
pub open spec fn secs_of(t: Option<Timestamp>) -> Option<i64> {
    match t {
        Some(t) => Some(t@),
        None => None,
    }
}

/// The seconds of the instant that `text` denotes, where `text` is RFC 3339
/// and that second has an RFC 3339 form of its own.
pub open spec fn parsed_secs(text: Seq<char>) -> Option<i64> {
    match rfc3339_secs(text) {
        Some(secs) => if rfc3339_text(secs) is Some {
            Some(secs)
        } else {
            None
        },
        None => None,
    }
}

} // verus!
