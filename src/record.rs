use vstd::prelude::*;
use crate::outside::{clean_html, date_parses, parses_as_date, sanitized};

verus! {

/// Language an engagement is held in; `Any` in a query matches every language.
#[derive(Clone, Copy, Debug, PartialEq, Eq, Structural)]
pub enum Language {
    Any,
    English,
    Spanish,
    French,
    Portuguese,
    Italian,
    German,
    Persian,
}

/// Planning state of an engagement.
#[derive(Clone, Copy, Debug, PartialEq, Eq, Structural)]
pub enum Status {
    Planning,
    Invited,
    Confirmed,
    Rejected,
    Complete,
}

/// Planning state of an engagement's host.
#[derive(Clone, Copy, Debug, PartialEq, Eq, Structural)]
pub enum HostStatus {
    Planning,
    Invited,
    Confirmed,
    Rejected,
}

/// Progress of an engagement's flyer.
#[derive(Clone, Copy, Debug, PartialEq, Eq, Structural)]
pub enum FlyerStatus {
    Pending,
    Sent,
    Complete,
}

/// Filter for engagement queries; every field that is `Some` must match.
#[derive(Debug)]
pub struct EngagementQuery {
    pub language: Option<Language>,
    pub number: Option<usize>,
    pub activity_type: Option<String>,
    pub instructor: Option<String>,
    pub host: Option<String>,
    pub date: Option<String>,
    pub status: Option<Status>,
    pub host_status: Option<HostStatus>,
    pub flyer_status: Option<FlyerStatus>,
}

/// A wanted value is absent, or present and equal to the held one.
pub open spec fn text_wanted(want: Option<String>, held: String) -> bool {
    match want {
        Some(w) => w@ == held@,
        None => true,
    }
}

/// A wanted value is absent, or both are present and equal.
pub open spec fn opt_text_wanted(want: Option<String>, held: Option<String>) -> bool {
    match want {
        Some(w) => match held {
            Some(h) => w@ == h@,
            None => false,
        },
        None => true,
    }
}

/// Whether engagement `e` passes every filter of `q`.
pub open spec fn eng_matches(q: EngagementQuery, e: Engagement) -> bool {
    &&& match q.language {
        Some(l) => l == Language::Any || e.language == l,
        None => true,
    }
    &&& match q.number {
        Some(n) => e.number == n,
        None => true,
    }
    &&& opt_text_wanted(q.activity_type, e.activity_type)
    &&& text_wanted(q.instructor, e.instructor)
    &&& text_wanted(q.host, e.host)
    &&& text_wanted(q.date, e.date)
    &&& match q.status {
        Some(st) => e.status == st,
        None => true,
    }
    &&& match q.host_status {
        Some(hs) => e.host_status == Some(hs),
        None => true,
    }
    &&& match q.flyer_status {
        Some(fs) => e.flyer_status == Some(fs),
        None => true,
    }
}

fn check_text(want: &Option<String>, held: &String) -> (r: bool)
    ensures
        r == text_wanted(*want, *held),
{
    match want {
        Some(w) => *w == *held,
        None => true,
    }
}

fn check_opt_text(want: &Option<String>, held: &Option<String>) -> (r: bool)
    ensures
        r == opt_text_wanted(*want, *held),
{
    match want {
        Some(w) => match held {
            Some(h) => *w == *h,
            None => false,
        },
        None => true,
    }
}

impl EngagementQuery {
    /// Whether engagement `e` passes every filter of the query.
    pub fn matches(&self, e: &Engagement) -> (r: bool)
        ensures
            r == eng_matches(*self, *e),
    {
        let lang_ok = match self.language {
            Some(l) => l == Language::Any || e.language == l,
            None => true,
        };
        let number_ok = match self.number {
            Some(n) => e.number == n,
            None => true,
        };
        let status_ok = match self.status {
            Some(st) => e.status == st,
            None => true,
        };
        let host_status_ok = match self.host_status {
            Some(hs) => match e.host_status {
                Some(x) => x == hs,
                None => false,
            },
            None => true,
        };
        let flyer_status_ok = match self.flyer_status {
            Some(fs) => match e.flyer_status {
                Some(x) => x == fs,
                None => false,
            },
            None => true,
        };
        lang_ok && number_ok && check_opt_text(&self.activity_type, &e.activity_type)
            && check_text(&self.instructor, &e.instructor) && check_text(&self.host, &e.host)
            && check_text(&self.date, &e.date) && status_ok && host_status_ok && flyer_status_ok
    }
}

/// A scheduled engagement: the record of the sequenced repository.
///
/// `id` is the record's identity (the 128 bits of a UUID) and `number` its
/// sequence key; everything else is payload.
#[derive(Debug)]
pub struct Engagement {
    pub id: u128,
    pub instructor: String,
    pub host: String,
    pub date: String,
    pub language: Language,
    pub title: String,
    pub part: usize,
    pub num_parts: usize,
    pub status: Status,
    pub host_status: Option<HostStatus>,
    pub flyer_status: Option<FlyerStatus>,
    pub notes: Option<String>,
    pub number: usize,
    pub activity_type: Option<String>,
    pub last_updated_by: Option<String>,
}

/// A copy of an optional string.
pub fn copy_opt_text(s: &Option<String>) -> (r: Option<String>)
    ensures
        r == *s,
{
    match s {
        Some(t) => Some(t.clone()),
        None => None,
    }
}

impl Engagement {
    /// A field-for-field copy of the record.
    pub fn copied(&self) -> (r: Engagement)
        ensures
            r == *self,
    {
        Engagement {
            id: self.id,
            instructor: self.instructor.clone(),
            host: self.host.clone(),
            date: self.date.clone(),
            language: self.language,
            title: self.title.clone(),
            part: self.part,
            num_parts: self.num_parts,
            status: self.status,
            host_status: self.host_status,
            flyer_status: self.flyer_status,
            notes: copy_opt_text(&self.notes),
            number: self.number,
            activity_type: copy_opt_text(&self.activity_type),
            last_updated_by: copy_opt_text(&self.last_updated_by),
        }
    }
}

/// The strftime format dates are written in.
pub const DATE_FORMAT: &'static str = "%Y-%m-%d";

/// Why a record's fields were refused.
#[derive(Clone, Copy, Debug, PartialEq, Eq, Structural)]
pub enum ValidationError {
    /// The date does not read as `YYYY-MM-DD`.
    BadDate,
    /// The part number is zero.
    ZeroPart,
    /// The number of parts is zero.
    ZeroParts,
    /// The part number exceeds the number of parts.
    PartBeyondTotal,
}

/// The verdict on a date and a part `part` of `num_parts`.
pub open spec fn field_check(date: Seq<char>, part: usize, num_parts: usize) -> Result<(), ValidationError> {
    if !date_parses(date, DATE_FORMAT@) {
        Err(ValidationError::BadDate)
    } else if part == 0 {
        Err(ValidationError::ZeroPart)
    } else if num_parts == 0 {
        Err(ValidationError::ZeroParts)
    } else if part > num_parts {
        Err(ValidationError::PartBeyondTotal)
    } else {
        Ok(())
    }
}

/// Checks a date and a part `part` of `num_parts`, in that order.
pub fn check_fields(date: &str, part: usize, num_parts: usize) -> (r: Result<(), ValidationError>)
    ensures
        r == field_check(date@, part, num_parts),
{
    if !parses_as_date(date, DATE_FORMAT) {
        return Err(ValidationError::BadDate);
    }
    if part == 0 {
        return Err(ValidationError::ZeroPart);
    }
    if num_parts == 0 {
        return Err(ValidationError::ZeroParts);
    }
    if part > num_parts {
        return Err(ValidationError::PartBeyondTotal);
    }
    Ok(())
}

/// The sanitised text of an optional field, absent counting as empty.
pub open spec fn sanitized_opt(s: Option<String>) -> Seq<char> {
    match s {
        Some(t) => sanitized(t@),
        None => sanitized(Seq::empty()),
    }
}

/// Sanitises an optional field, absent counting as empty.
fn clean_opt(s: &Option<String>) -> (r: String)
    ensures
        r@ == sanitized_opt(*s),
{
    match s {
        Some(t) => clean_html(t.as_str()),
        None => {
            let empty = String::new();
            clean_html(empty.as_str())
        },
    }
}

/// Whether `c` is the engagement `e` with its free text sanitised: the
/// identity, key, enums, numbers and last editor kept.
pub open spec fn is_cleaned(e: Engagement, c: Engagement) -> bool {
    &&& c.id == e.id
    &&& c.instructor@ == sanitized(e.instructor@)
    &&& c.host@ == sanitized(e.host@)
    &&& c.date@ == sanitized(e.date@)
    &&& c.language == e.language
    &&& c.title@ == sanitized(e.title@)
    &&& c.part == e.part
    &&& c.num_parts == e.num_parts
    &&& c.status == e.status
    &&& c.host_status == e.host_status
    &&& c.flyer_status == e.flyer_status
    &&& c.notes is Some && c.notes.unwrap()@ == sanitized_opt(e.notes)
    &&& c.number == e.number
    &&& c.activity_type is Some && c.activity_type.unwrap()@ == sanitized_opt(e.activity_type)
    &&& c.last_updated_by == e.last_updated_by
}

impl Engagement {
    /// Checks the date format and the part numbering.
    pub fn validate(&self) -> (r: Result<(), ValidationError>)
        ensures
            r == field_check(self.date@, self.part, self.num_parts),
    {
        check_fields(self.date.as_str(), self.part, self.num_parts)
    }

    /// The record with every free-text field sanitised; absent notes and
    /// activity type become sanitised empty text.
    pub fn clean(&self) -> (r: Engagement)
        ensures
            is_cleaned(*self, r),
    {
        Engagement {
            id: self.id,
            instructor: clean_html(self.instructor.as_str()),
            host: clean_html(self.host.as_str()),
            date: clean_html(self.date.as_str()),
            language: self.language,
            title: clean_html(self.title.as_str()),
            part: self.part,
            num_parts: self.num_parts,
            status: self.status,
            host_status: self.host_status,
            flyer_status: self.flyer_status,
            notes: Some(clean_opt(&self.notes)),
            number: self.number,
            activity_type: Some(clean_opt(&self.activity_type)),
            last_updated_by: copy_opt_text(&self.last_updated_by),
        }
    }
}

/// A request to create an engagement; `number` is the requested sequence
/// key, written in decimal.
#[derive(Debug)]
pub struct NewEngagement {
    pub instructor: String,
    pub host: String,
    pub date: String,
    pub language: Language,
    pub title: String,
    pub part: usize,
    pub num_parts: usize,
    pub status: Status,
    pub host_status: HostStatus,
    pub flyer_status: FlyerStatus,
    pub notes: String,
    pub number: String,
    pub activity_type: String,
    pub last_updated_by: String,
}

/// Whether `e` is the engagement made from request `n` with identity `id`,
/// key `key` and editor stamp `stamp`: free text sanitised, statuses set.
pub open spec fn is_built_from(n: NewEngagement, id: u128, key: usize, stamp: Seq<char>, e: Engagement) -> bool {
    &&& e.id == id
    &&& e.instructor@ == sanitized(n.instructor@)
    &&& e.host@ == sanitized(n.host@)
    &&& e.date@ == sanitized(n.date@)
    &&& e.language == n.language
    &&& e.title@ == sanitized(n.title@)
    &&& e.part == n.part
    &&& e.num_parts == n.num_parts
    &&& e.status == n.status
    &&& e.host_status == Some(n.host_status)
    &&& e.flyer_status == Some(n.flyer_status)
    &&& e.notes is Some && e.notes.unwrap()@ == sanitized(n.notes@)
    &&& e.number == key
    &&& e.activity_type is Some && e.activity_type.unwrap()@ == sanitized(n.activity_type@)
    &&& e.last_updated_by is Some && e.last_updated_by.unwrap()@ == stamp
}

impl NewEngagement {
    /// Checks the date format and the part numbering.
    pub fn validate(&self) -> (r: Result<(), ValidationError>)
        ensures
            r == field_check(self.date@, self.part, self.num_parts),
    {
        check_fields(self.date.as_str(), self.part, self.num_parts)
    }

    /// The engagement this request describes, with identity `id`, key `key`
    /// and `stamp` as its last editor.
    pub fn build(&self, id: u128, key: usize, stamp: String) -> (r: Engagement)
        ensures
            is_built_from(*self, id, key, stamp@, r),
    {
        Engagement {
            id,
            instructor: clean_html(self.instructor.as_str()),
            host: clean_html(self.host.as_str()),
            date: clean_html(self.date.as_str()),
            language: self.language,
            title: clean_html(self.title.as_str()),
            part: self.part,
            num_parts: self.num_parts,
            status: self.status,
            host_status: Some(self.host_status),
            flyer_status: Some(self.flyer_status),
            notes: Some(clean_html(self.notes.as_str())),
            number: key,
            activity_type: Some(clean_html(self.activity_type.as_str())),
            last_updated_by: Some(stamp),
        }
    }
}

/// `s` is one or more decimal digits.
pub open spec fn all_digits(s: Seq<char>) -> bool {
    s.len() > 0 && forall|i: int| 0 <= i < s.len() ==> '0' <= #[trigger] s[i] <= '9'
}

/// The number the decimal digits `s` write.
pub open spec fn digits_value(s: Seq<char>) -> int
    decreases s.len(),
{
    if s.len() == 0 {
        0
    } else {
        digits_value(s.drop_last()) * 10 + (s.last() as int - '0' as int)
    }
}

/// The number written by the decimal digits `s`, when its value fits.
pub open spec fn digits_key(s: Seq<char>) -> Option<usize> {
    if all_digits(s) && digits_value(s) <= usize::MAX {
        Some(digits_value(s) as usize)
    } else {
        None
    }
}

/// The key written by `s`: decimal digits whose value fits, after an
/// optional leading `+`.
pub open spec fn key_of_text(s: Seq<char>) -> Option<usize> {
    if s.len() > 0 && s[0] == '+' {
        digits_key(s.drop_first())
    } else {
        digits_key(s)
    }
}

proof fn lemma_digits_value_nonneg(s: Seq<char>)
    requires
        forall|i: int| 0 <= i < s.len() ==> '0' <= #[trigger] s[i] <= '9',
    ensures
        digits_value(s) >= 0,
    decreases s.len(),
{
    if s.len() > 0 {
        lemma_digits_value_nonneg(s.drop_last());
    }
}

proof fn lemma_digits_value_grows(s: Seq<char>, i: int)
    requires
        forall|j: int| 0 <= j < s.len() ==> '0' <= #[trigger] s[j] <= '9',
        0 <= i <= s.len(),
    ensures
        digits_value(s.subrange(0, i)) <= digits_value(s),
    decreases s.len() - i,
{
    if i < s.len() {
        lemma_digits_value_grows(s, i + 1);
        let t = s.subrange(0, i + 1);
        assert(t.drop_last() =~= s.subrange(0, i));
        lemma_digits_value_nonneg(s.subrange(0, i));
    } else {
        assert(s.subrange(0, i) =~= s);
    }
}

/// Reads a sequence key written in decimal digits, optionally after a `+`.
pub fn parse_key(s: &str) -> (r: Option<usize>)
    ensures
        r == key_of_text(s@),
{
    let n = s.unicode_len();
    if n > 0 && s.get_char(0) == '+' {
        let rest = s.substring_char(1, n);
        assert(rest@ =~= s@.drop_first());
        parse_digits(rest)
    } else {
        parse_digits(s)
    }
}

/// Reads a number written in decimal digits.
fn parse_digits(s: &str) -> (r: Option<usize>)
    ensures
        r == digits_key(s@),
{
    let n = s.unicode_len();
    if n == 0 {
        return None;
    }
    let mut v: usize = 0;
    let mut i: usize = 0;
    while i < n
        invariant
            n == s@.len(),
            i <= n,
            forall|j: int| 0 <= j < i ==> '0' <= #[trigger] s@[j] <= '9',
            v == digits_value(s@.subrange(0, i as int)),
        decreases n - i,
    {
        let c = s.get_char(i);
        let ghost t = s@.subrange(0, i + 1);
        assert(t.drop_last() =~= s@.subrange(0, i as int));
        if c < '0' || c > '9' {
            return None;
        }
        let d = (c as u32 - '0' as u32) as usize;
        if v > (usize::MAX - d) / 10 {
            proof {
                assert(digits_value(t) == v * 10 + d);
                assert(digits_value(t) > usize::MAX) by (nonlinear_arith)
                    requires v > (usize::MAX - d) / 10, digits_value(t) == v * 10 + d, d <= 9;
                if all_digits(s@) {
                    lemma_digits_value_grows(s@, i + 1);
                }
            }
            return None;
        }
        assert(v * 10 + d <= usize::MAX) by (nonlinear_arith)
            requires v <= (usize::MAX - d) / 10, d <= 9;
        v = v * 10 + d;
        i = i + 1;
    }
    assert(s@.subrange(0, n as int) =~= s@);
    Some(v)
}

} // verus!
