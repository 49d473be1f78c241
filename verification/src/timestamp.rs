//! The sampling time of a cycle, held with its RFC 3339 text.

use vstd::prelude::*;

verus! {

/// The RFC 3339 text, with offset `+00:00`, of the instant `secs` seconds and
/// `nanos` nanoseconds after the Unix epoch; `None` for an instant that the
/// calendar cannot hold.
pub uninterp spec fn rfc3339_text(secs: i64, nanos: u32) -> Option<Seq<char>>;

/// Formats an instant with `chrono`: `DateTime::from_timestamp` builds the
/// UTC date and time, which is `None` when the seconds are out of range or
/// the nanoseconds invalid, and `DateTime::to_rfc3339` writes it. The
/// contract only gives the outcome its name: it is a function of the two
/// numbers alone.
#[verifier::external_body]
fn format_rfc3339(secs: i64, nanos: u32) -> (r: Option<String>)
    ensures
        match r {
            Some(text) => rfc3339_text(secs, nanos) == Some(text@),
            None => rfc3339_text(secs, nanos) is None,
        },
{
    match chrono::DateTime::from_timestamp(secs, nanos) {
        Some(instant) => Some(instant.to_rfc3339()),
        None => None,
    }
}

/// An instant that has an RFC 3339 text, together with that text.
#[derive(Debug)]
pub struct Timestamp {
    secs: i64,
    nanos: u32,
    text: String,
}

impl Timestamp {
    #[verifier::type_invariant]
    spec fn well_formed(self) -> bool {
        rfc3339_text(self.secs, self.nanos) == Some(self.text@)
    }

    /// Seconds since the Unix epoch.
    pub closed spec fn spec_secs(&self) -> i64 {
        self.secs
    }

    /// Nanoseconds within the second.
    pub closed spec fn spec_nanos(&self) -> u32 {
        self.nanos
    }

    /// The RFC 3339 text of the instant.
    pub closed spec fn spec_text(&self) -> Seq<char> {
        self.text@
    }

    /// The timestamp of an instant, or `None` where the instant has no
    /// RFC 3339 text.
    pub fn new(secs: i64, nanos: u32) -> (r: Option<Timestamp>)
        ensures
            match r {
                Some(t) => t.spec_secs() == secs && t.spec_nanos() == nanos && rfc3339_text(
                    secs,
                    nanos,
                ) == Some(t.spec_text()),
                None => rfc3339_text(secs, nanos) is None,
            },
    {
        match format_rfc3339(secs, nanos) {
            Some(text) => Some(Timestamp { secs, nanos, text }),
            None => None,
        }
    }

    #[verifier::when_used_as_spec(spec_secs)]
    pub fn secs(&self) -> (r: i64)
        ensures
            r == self.spec_secs(),
    {
        self.secs
    }

    #[verifier::when_used_as_spec(spec_nanos)]
    pub fn nanos(&self) -> (r: u32)
        ensures
            r == self.spec_nanos(),
    {
        self.nanos
    }

    /// The RFC 3339 text of the instant.
    pub fn text(&self) -> (r: &str)
        ensures
            r@ == self.spec_text(),
            rfc3339_text(self.spec_secs(), self.spec_nanos()) == Some(r@),
    {
        proof {
            use_type_invariant(self);
        }
        self.text.as_str()
    }
}

} // verus!
