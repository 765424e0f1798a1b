//! Calls into other crates, each behind a contract.
use vstd::prelude::*;
use crate::record::DATE_FORMAT;

verus! {

/// The text `ammonia::clean` makes of `s`.
pub uninterp spec fn sanitized(s: Seq<char>) -> Seq<char>;

/// Whether `chrono::NaiveDate::parse_from_str` accepts `s` under format `fmt`.
pub uninterp spec fn date_parses(s: Seq<char>, fmt: Seq<char>) -> bool;

/// `s` occurs in `hay` as a run of consecutive characters.
pub open spec fn has_substring(hay: Seq<char>, s: Seq<char>) -> bool {
    exists|i: int| 0 <= i && i + s.len() <= hay.len() && #[trigger] hay.subrange(i, i + s.len()) == s
}

/// Relies on `ammonia::clean`: HTML sanitising with the default policy, whose
/// result depends on the input text alone.
#[verifier::external_body]
pub(crate) fn clean_html(s: &str) -> (r: String)
    ensures
        r@ == sanitized(s@),
{
    ammonia::clean(s)
}

/// Relies on `chrono::NaiveDate::parse_from_str`: whether `s` reads as a
/// calendar date under the strftime format `fmt`.
#[verifier::external_body]
pub(crate) fn parses_as_date(s: &str, fmt: &str) -> (r: bool)
    ensures
        r == date_parses(s@, fmt@),
{
    chrono::NaiveDate::parse_from_str(s, fmt).is_ok()
}

/// Relies on `uuid::Uuid::new_v4` and `Uuid::as_u128`: a random identity, of
/// which nothing is promised.
#[verifier::external_body]
pub(crate) fn random_identity() -> u128 {
    uuid::Uuid::new_v4().as_u128()
}

/// Relies on `chrono::Utc::now` and `DateTime::format`: the current UTC date
/// written under the strftime format `fmt`; it depends on the clock. The
/// format is held to the library's date format, which chrono formats without
/// error.
#[verifier::external_body]
pub(crate) fn today_text(fmt: &str) -> String
    requires
        fmt@ == DATE_FORMAT@,
{
    chrono::Utc::now().format(fmt).to_string()
}

/// Relies on `str::contains` with a `&str` pattern: whether `s` matches a
/// sub-slice of `hay`.
#[verifier::external_body]
pub(crate) fn text_contains(hay: &str, s: &str) -> (r: bool)
    ensures
        r == has_substring(hay@, s@),
{
    hay.contains(s)
}

} // verus!
