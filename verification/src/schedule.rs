//! When a database is refreshed, and what a conditional fetch's answer
//! means for it.

use vstd::prelude::*;

verus! {

/// Nanoseconds between two refreshes of a database: a day.
pub const UPDATE_INTERVAL_NANOS: u64 = 86_400_000_000_000;

/// How long to wait before the first refresh, in nanoseconds: what is left
/// of the update interval since the cached copy was written, or nothing
/// where the copy's age is unknown.
pub fn initial_delay_nanos(age_nanos: Option<u128>) -> (r: u64)
    ensures
        r == match age_nanos {
            None => 0,
            Some(age) => if age >= UPDATE_INTERVAL_NANOS {
                0
            } else {
                UPDATE_INTERVAL_NANOS - age
            },
        },
{
    match age_nanos {
        None => 0,
        Some(age) => if age >= UPDATE_INTERVAL_NANOS as u128 {
            0
        } else {
            UPDATE_INTERVAL_NANOS - age as u64
        },
    }
}

/// What the answer to a conditional fetch means.
#[derive(Clone, Copy, Debug, PartialEq, Eq, Structural)]
pub enum Reply {
    /// Not modified since the cached copy: keep the database.
    NotModified,
    /// A client or server error: the refresh fails.
    Refused,
    /// A body to store and parse.
    Fresh,
}

/// Classifies an HTTP status: 304 is not modified, 400 to 599 refuse, the
/// rest carry a body.
pub fn classify(status: u16) -> (r: Reply)
    ensures
        r == if status == 304 {
            Reply::NotModified
        } else if 400 <= status <= 599 {
            Reply::Refused
        } else {
            Reply::Fresh
        },
{
    if status == 304 {
        Reply::NotModified
    } else if 400 <= status && status <= 599 {
        Reply::Refused
    } else {
        Reply::Fresh
    }
}

/// The first second, counted from 1970, of the year 9999: HTTP dates end
/// before it.
pub const HTTP_DATE_END: u64 = 253_402_300_800;

/// The IMF-fixdate text (`Sun, 06 Nov 1994 08:49:37 GMT`) that `httpdate`
/// writes for the time `secs` whole seconds after 1970.
pub uninterp spec fn http_date_text(secs: u64) -> Seq<char>;

/// `httpdate::fmt_http_date` on the time `secs` seconds after 1970. It
/// panics from the year 9999 on, which `requires` leaves out; the contract
/// names the text it writes.
#[verifier::external_body]
fn fmt_http_date(secs: u64) -> (r: String)
    requires
        secs < HTTP_DATE_END,
    ensures
        r@ == http_date_text(secs),
{
    httpdate::fmt_http_date(std::time::UNIX_EPOCH + std::time::Duration::from_secs(secs))
}

/// The `If-Modified-Since` value of a refresh: the date of the cached
/// copy, `mtime_secs` seconds after 1970, where that time is known.
pub fn if_modified_since(mtime_secs: Option<u64>) -> (r: Option<String>)
    requires
        mtime_secs matches Some(s) ==> s < HTTP_DATE_END,
    ensures
        match mtime_secs {
            None => r is None,
            Some(s) => r matches Some(t) && t@ == http_date_text(s),
        },
{
    match mtime_secs {
        None => None,
        Some(s) => Some(fmt_http_date(s)),
    }
}

} // verus!
