//! The boundary to `chrono` and `uuid`: the current UTC time broken into
//! plain fields, the HTTP `Date` header line, and timestamp and UUID
//! values modelled by their canonical text.  What the outside crates
//! compute is reached through trusted wrappers on plain values;
//! everything built from their results is verified.

use crate::json::{JsonParseError, JsonRetrieve, ToJson};
use crate::strutil::{append_chars, chars_to_string, i64_to_chars, i_chars, push_u64_chars,
    replace_chars, spec_replace, str_to_chars, sub_chars, u_chars};
use chrono::{Datelike, Timelike};
use vstd::prelude::*;
use vstd::string::*;

verus! {

// ---------------------------------------------------------------------------
// The current moment, as plain fields
// ---------------------------------------------------------------------------
/// One UTC moment broken into calendar and clock fields.  `weekday`
/// counts from Monday as zero.
#[derive(Clone, Copy, Debug)]
pub struct DateParts {
    pub year: i32,
    pub month: u8,
    pub day: u8,
    pub hour: u8,
    pub minute: u8,
    pub second: u8,
    pub weekday: u8,
}

impl DateParts {
    /// The ranges chrono documents for each field.
    pub open spec fn wf(&self) -> bool {
        1 <= self.month <= 12 && 1 <= self.day <= 31 && self.hour <= 23 && self.minute <= 59
            && self.second <= 59 && self.weekday <= 6
    }
}

/// Relies on chrono's `Utc::now` with the `Datelike`, `Timelike` and
/// `Weekday::num_days_from_monday` accessors: the fields of the current
/// moment lie in their documented ranges.  Nothing is assumed about which
/// moment it is.
#[verifier::external_body]
pub fn now_parts() -> (r: DateParts)
    ensures
        r.wf(),
{
    let now = chrono::Utc::now();
    DateParts {
        year: now.year(),
        month: now.month() as u8,
        day: now.day() as u8,
        hour: now.hour() as u8,
        minute: now.minute() as u8,
        second: now.second() as u8,
        weekday: now.weekday().num_days_from_monday() as u8,
    }
}

/// The three-letter weekday name, Monday first.
pub open spec fn weekday_name(w: int) -> Seq<char> {
    if w == 0 {
        seq!['M', 'o', 'n']
    } else if w == 1 {
        seq!['T', 'u', 'e']
    } else if w == 2 {
        seq!['W', 'e', 'd']
    } else if w == 3 {
        seq!['T', 'h', 'u']
    } else if w == 4 {
        seq!['F', 'r', 'i']
    } else if w == 5 {
        seq!['S', 'a', 't']
    } else {
        seq!['S', 'u', 'n']
    }
}

/// The three-letter month name, January as one.
pub open spec fn month_name(m: int) -> Seq<char> {
    if m == 1 {
        seq!['J', 'a', 'n']
    } else if m == 2 {
        seq!['F', 'e', 'b']
    } else if m == 3 {
        seq!['M', 'a', 'r']
    } else if m == 4 {
        seq!['A', 'p', 'r']
    } else if m == 5 {
        seq!['M', 'a', 'y']
    } else if m == 6 {
        seq!['J', 'u', 'n']
    } else if m == 7 {
        seq!['J', 'u', 'l']
    } else if m == 8 {
        seq!['A', 'u', 'g']
    } else if m == 9 {
        seq!['S', 'e', 'p']
    } else if m == 10 {
        seq!['O', 'c', 't']
    } else if m == 11 {
        seq!['N', 'o', 'v']
    } else {
        seq!['D', 'e', 'c']
    }
}

/// A number zero-padded on the left to two digits.
pub open spec fn pad2(n: int) -> Seq<char> {
    if n < 10 {
        seq!['0'] + u_chars(n as nat)
    } else {
        u_chars(n as nat)
    }
}

/// The HTTP `Date` header value for a moment: weekday name, day, month
/// name, year, and a zero-padded time of day, all GMT.
pub open spec fn date_header_chars(p: DateParts) -> Seq<char> {
    weekday_name(p.weekday as int) + seq![',', ' '] + u_chars(p.day as nat) + seq![' ']
        + month_name(p.month as int) + seq![' '] + i_chars(p.year as int) + seq![' '] + pad2(
        p.hour as int,
    ) + seq![':'] + pad2(p.minute as int) + seq![':'] + pad2(p.second as int) + seq![
        ' ',
        'G',
        'M',
        'T',
    ]
}

fn push_weekday(out: &mut Vec<char>, w: u8)
    requires
        w <= 6,
    ensures
        final(out)@ == old(out)@ + weekday_name(w as int),
{
    let ghost prev = out@;
    if w == 0 {
        out.push('M');
        out.push('o');
        out.push('n');
    } else if w == 1 {
        out.push('T');
        out.push('u');
        out.push('e');
    } else if w == 2 {
        out.push('W');
        out.push('e');
        out.push('d');
    } else if w == 3 {
        out.push('T');
        out.push('h');
        out.push('u');
    } else if w == 4 {
        out.push('F');
        out.push('r');
        out.push('i');
    } else if w == 5 {
        out.push('S');
        out.push('a');
        out.push('t');
    } else {
        out.push('S');
        out.push('u');
        out.push('n');
    }
    proof {
        assert(out@ =~= prev + weekday_name(w as int));
    }
}

fn push_month(out: &mut Vec<char>, m: u8)
    requires
        1 <= m <= 12,
    ensures
        final(out)@ == old(out)@ + month_name(m as int),
{
    let ghost prev = out@;
    if m == 1 {
        out.push('J');
        out.push('a');
        out.push('n');
    } else if m == 2 {
        out.push('F');
        out.push('e');
        out.push('b');
    } else if m == 3 {
        out.push('M');
        out.push('a');
        out.push('r');
    } else if m == 4 {
        out.push('A');
        out.push('p');
        out.push('r');
    } else if m == 5 {
        out.push('M');
        out.push('a');
        out.push('y');
    } else if m == 6 {
        out.push('J');
        out.push('u');
        out.push('n');
    } else if m == 7 {
        out.push('J');
        out.push('u');
        out.push('l');
    } else if m == 8 {
        out.push('A');
        out.push('u');
        out.push('g');
    } else if m == 9 {
        out.push('S');
        out.push('e');
        out.push('p');
    } else if m == 10 {
        out.push('O');
        out.push('c');
        out.push('t');
    } else if m == 11 {
        out.push('N');
        out.push('o');
        out.push('v');
    } else {
        out.push('D');
        out.push('e');
        out.push('c');
    }
    proof {
        assert(out@ =~= prev + month_name(m as int));
    }
}

fn push_pad2(out: &mut Vec<char>, n: u8)
    requires
        n <= 99,
    ensures
        final(out)@ == old(out)@ + pad2(n as int),
{
    let ghost prev = out@;
    if n < 10 {
        out.push('0');
    }
    push_u64_chars(out, n as u64);
    proof {
        assert(out@ =~= prev + pad2(n as int));
    }
}

/// Renders the `Date` header value for a moment.
pub fn date_header_string(p: DateParts) -> (r: String)
    requires
        p.wf(),
    ensures
        r@ == date_header_chars(p),
{
    let mut out: Vec<char> = Vec::new();
    push_weekday(&mut out, p.weekday);
    out.push(',');
    out.push(' ');
    push_u64_chars(&mut out, p.day as u64);
    out.push(' ');
    push_month(&mut out, p.month);
    out.push(' ');
    let yc = i64_to_chars(p.year as i64);
    append_chars(&mut out, &yc);
    out.push(' ');
    push_pad2(&mut out, p.hour);
    out.push(':');
    push_pad2(&mut out, p.minute);
    out.push(':');
    push_pad2(&mut out, p.second);
    out.push(' ');
    out.push('G');
    out.push('M');
    out.push('T');
    proof {
        assert(out@ =~= date_header_chars(p));
    }
    chars_to_string(&out)
}

// ---------------------------------------------------------------------------
// RFC 3339 timestamps, modelled by their canonical UTC text
// ---------------------------------------------------------------------------
/// The canonical UTC rendering of the instant that RFC 3339 text denotes,
/// when the text is well-formed and that rendering itself parses again
/// (a UTC year outside 0000–9999 renders with a sign the strict parser
/// refuses, so such instants have no canonical form here).
pub uninterp spec fn rfc3339_utc_text(s: Seq<char>) -> Option<Seq<char>>;

/// Relies on chrono's `DateTime::parse_from_rfc3339`, `with_timezone` and
/// `to_rfc3339`: the canonical form depends on the text alone and holds
/// no quote character.  The body hands the rendering back only after
/// re-parsing it, which pins the canonical form as a fixed point: a
/// four-digit-year UTC rendering re-parses to the same instant, and the
/// same instant renders to the same text.
#[verifier::external_body]
pub fn canonical_rfc3339(s: &str) -> (r: Option<String>)
    ensures
        match r {
            Some(t) => rfc3339_utc_text(s@) == Some(t@) && rfc3339_utc_text(t@) == Some(t@)
                && (forall|i: int| 0 <= i < t@.len() ==> t@[i] != '"'),
            None => rfc3339_utc_text(s@) is None,
        },
{
    let parsed = match chrono::DateTime::parse_from_rfc3339(s) {
        Ok(d) => d,
        Err(_) => return None,
    };
    let canonical = parsed.with_timezone(&chrono::Utc).to_rfc3339();
    match chrono::DateTime::parse_from_rfc3339(&canonical) {
        Ok(_) => Some(canonical),
        Err(_) => None,
    }
}

/// An instant in time, held as canonical RFC 3339 UTC text.
#[derive(Debug, Clone)]
pub struct Timestamp {
    text: String,
}

impl View for Timestamp {
    type V = Seq<char>;

    closed spec fn view(&self) -> Seq<char> {
        self.text@
    }
}

impl Timestamp {
    /// Canonical: re-parsing the text reproduces it exactly.
    pub open spec fn wf(&self) -> bool {
        rfc3339_utc_text(self@) == Some(self@)
    }

    /// Reads a timestamp from RFC 3339 text, in any offset; the stored
    /// form is the canonical UTC rendering.
    pub fn parse(s: &str) -> (r: Option<Timestamp>)
        ensures
            match r {
                Some(t) => t.wf() && rfc3339_utc_text(s@) == Some(t@),
                None => rfc3339_utc_text(s@) is None,
            },
    {
        match canonical_rfc3339(s) {
            Some(t) => Some(Timestamp { text: t }),
            None => None,
        }
    }

    /// The canonical text itself.
    pub fn as_text(&self) -> (r: &str)
        ensures
            r@ == self@,
    {
        self.text.as_str()
    }
}

impl PartialEq for Timestamp {
    fn eq(&self, other: &Timestamp) -> (r: bool) {
        self.text == other.text
    }
}

impl vstd::std_specs::cmp::PartialEqSpecImpl for Timestamp {
    open spec fn obeys_eq_spec() -> bool {
        true
    }

    open spec fn eq_spec(&self, other: &Timestamp) -> bool {
        self@ == other@
    }
}

impl JsonRetrieve for Timestamp {
    open spec fn parse_rel(
        key: Seq<char>,
        value: Option<Seq<char>>,
        r: Result<Self, JsonParseError>,
    ) -> bool {
        match value {
            None => r matches Err(JsonParseError::NotFound(k)) && k@ == key,
            Some(v) => {
                let cleaned = spec_replace(v, seq!['"'], Seq::empty());
                match rfc3339_utc_text(cleaned) {
                    Some(t) => r matches Ok(x) && x@ == t && x.wf(),
                    None => r matches Err(JsonParseError::InvalidType(k, t)) && k@ == key && t@
                        == "RFC3339 Date"@,
                }
            }
        }
    }

    fn parse(key: String, value: Option<&String>) -> (r: Result<Self, JsonParseError>) {
        match value {
            None => Err(JsonParseError::NotFound(key)),
            Some(v) => {
                let cs = str_to_chars(v.as_str());
                let mut quote: Vec<char> = Vec::new();
                quote.push('"');
                proof {
                    assert(quote@ =~= seq!['"']);
                }
                let empty: Vec<char> = Vec::new();
                let cleaned = replace_chars(&cs, &quote, &empty);
                let cleaned_s = chars_to_string(&cleaned);
                match Timestamp::parse(cleaned_s.as_str()) {
                    Some(t) => Ok(t),
                    None => Err(JsonParseError::InvalidType(key, "RFC3339 Date")),
                }
            }
        }
    }
}

impl ToJson for Timestamp {
    open spec fn to_json_spec(&self) -> Seq<char> {
        seq!['"'] + self@ + seq!['"']
    }

    fn to_json(&self) -> (r: String) {
        let tc = str_to_chars(self.text.as_str());
        let mut out: Vec<char> = Vec::new();
        out.push('"');
        append_chars(&mut out, &tc);
        out.push('"');
        proof {
            assert(out@ =~= seq!['"'] + self@ + seq!['"']);
        }
        chars_to_string(&out)
    }
}

// ---------------------------------------------------------------------------
// UUIDs, modelled by their canonical hyphenated text
// ---------------------------------------------------------------------------
/// The canonical hyphenated rendering of the UUID that text denotes, if
/// the text is well-formed.
pub uninterp spec fn uuid_canonical_text(s: Seq<char>) -> Option<Seq<char>>;

/// Relies on `Uuid::parse_str` and `Uuid::to_string`: the canonical form
/// depends on the text alone and is a fixed point of canonicalization.
#[verifier::external_body]
pub fn canonical_uuid(s: &str) -> (r: Option<String>)
    ensures
        match r {
            Some(t) => uuid_canonical_text(s@) == Some(t@) && uuid_canonical_text(t@) == Some(
                t@,
            ),
            None => uuid_canonical_text(s@) is None,
        },
{
    match uuid::Uuid::parse_str(s) {
        Ok(u) => Some(u.to_string()),
        Err(_) => None,
    }
}

/// A UUID, held as canonical hyphenated text.
#[derive(Debug, Clone)]
pub struct UuidValue {
    text: String,
}

impl View for UuidValue {
    type V = Seq<char>;

    closed spec fn view(&self) -> Seq<char> {
        self.text@
    }
}

impl UuidValue {
    /// Canonical: re-parsing the text reproduces it exactly.
    pub open spec fn wf(&self) -> bool {
        uuid_canonical_text(self@) == Some(self@)
    }

    /// Reads a UUID from text in any form `uuid` accepts; the stored form
    /// is the canonical hyphenated rendering.
    pub fn parse(s: &str) -> (r: Option<UuidValue>)
        ensures
            match r {
                Some(u) => u.wf() && uuid_canonical_text(s@) == Some(u@),
                None => uuid_canonical_text(s@) is None,
            },
    {
        match canonical_uuid(s) {
            Some(t) => Some(UuidValue { text: t }),
            None => None,
        }
    }

    /// The canonical text itself.
    pub fn as_text(&self) -> (r: &str)
        ensures
            r@ == self@,
    {
        self.text.as_str()
    }
}

impl PartialEq for UuidValue {
    fn eq(&self, other: &UuidValue) -> (r: bool) {
        self.text == other.text
    }
}

impl vstd::std_specs::cmp::PartialEqSpecImpl for UuidValue {
    open spec fn obeys_eq_spec() -> bool {
        true
    }

    open spec fn eq_spec(&self, other: &UuidValue) -> bool {
        self@ == other@
    }
}

impl JsonRetrieve for UuidValue {
    open spec fn parse_rel(
        key: Seq<char>,
        value: Option<Seq<char>>,
        r: Result<Self, JsonParseError>,
    ) -> bool {
        match value {
            None => r matches Err(JsonParseError::NotFound(k)) && k@ == key,
            Some(v) => if v.len() < 2 {
                r matches Err(JsonParseError::InvalidType(k, t)) && k@ == key && t@ == "UUID"@
            } else {
                let inner = spec_replace(v.subrange(1, v.len() - 1), seq!['\\', '"'], seq!['"']);
                match uuid_canonical_text(inner) {
                    Some(t) => r matches Ok(x) && x@ == t && x.wf(),
                    None => r matches Err(JsonParseError::InvalidType(k, t)) && k@ == key && t@
                        == "UUID"@,
                }
            },
        }
    }

    fn parse(key: String, value: Option<&String>) -> (r: Result<Self, JsonParseError>) {
        match value {
            None => Err(JsonParseError::NotFound(key)),
            Some(v) => {
                let cs = str_to_chars(v.as_str());
                if cs.len() < 2 {
                    return Err(JsonParseError::InvalidType(key, "UUID"));
                }
                let innerc = sub_chars(&cs, 1, cs.len() - 1);
                let mut escq: Vec<char> = Vec::new();
                escq.push('\\');
                escq.push('"');
                proof {
                    assert(escq@ =~= seq!['\\', '"']);
                }
                let mut quote: Vec<char> = Vec::new();
                quote.push('"');
                proof {
                    assert(quote@ =~= seq!['"']);
                }
                let cleaned = replace_chars(&innerc, &escq, &quote);
                let cleaned_s = chars_to_string(&cleaned);
                match UuidValue::parse(cleaned_s.as_str()) {
                    Some(u) => Ok(u),
                    None => Err(JsonParseError::InvalidType(key, "UUID")),
                }
            }
        }
    }
}

impl ToJson for UuidValue {
    open spec fn to_json_spec(&self) -> Seq<char> {
        self@
    }

    fn to_json(&self) -> (r: String) {
        let tc = str_to_chars(self.text.as_str());
        chars_to_string(&tc)
    }
}

} // verus!
