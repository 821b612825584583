//! Requests and responses: HTTP methods, the status taxonomy, body
//! classification, the error type handlers return, and the response
//! assembler with its deterministic, key-sorted header block.

use crate::clock::{date_header_chars, date_header_string, now_parts, DateParts};
use crate::json::{
    arr_items, arr_skip, entries_map, obj_entries, JsonArray, JsonObject, ToJson,
};
use crate::strutil::{
    append_chars, chars_to_string, is_ws, is_ws_exec, join_chars, lemma_lex_asym,
    lemma_lex_connex, lemma_lex_irrefl, lemma_lex_trans, lex_lt, spec_join, str_compare, str_eq,
    str_to_chars, u64_to_chars, u_chars, Cmp,
};
use crate::urlencoded::{ue_map, UrlEncoded};
use vstd::prelude::*;
use vstd::string::*;
use vstd::utf8::{decode_utf8, valid_utf8};

verus! {

// ---------------------------------------------------------------------------
// Methods
// ---------------------------------------------------------------------------
/// The supported HTTP methods.  `Any` stands both for unrecognized verbs
/// on requests and for the wildcard bucket of the route table.
#[derive(Debug, PartialEq, Eq, Structural, Clone, Copy)]
pub enum HttpMethod {
    Get,
    Post,
    Put,
    Patch,
    Delete,
    Any,
    Options,
}

/// Which method a request-line verb names; unrecognized verbs map to the
/// wildcard.
pub open spec fn method_of(m: Seq<char>) -> HttpMethod {
    if m == "GET"@ {
        HttpMethod::Get
    } else if m == "POST"@ {
        HttpMethod::Post
    } else if m == "PUT"@ {
        HttpMethod::Put
    } else if m == "PATCH"@ {
        HttpMethod::Patch
    } else if m == "DELETE"@ {
        HttpMethod::Delete
    } else if m == "OPTIONS"@ {
        HttpMethod::Options
    } else {
        HttpMethod::Any
    }
}

impl HttpMethod {
    /// Converts a request-line verb into an `HttpMethod`.
    pub fn type_for_method(method: &str) -> (r: HttpMethod)
        ensures
            r == method_of(method@),
    {
        if str_eq(method, "GET") {
            HttpMethod::Get
        } else if str_eq(method, "POST") {
            HttpMethod::Post
        } else if str_eq(method, "PUT") {
            HttpMethod::Put
        } else if str_eq(method, "PATCH") {
            HttpMethod::Patch
        } else if str_eq(method, "DELETE") {
            HttpMethod::Delete
        } else if str_eq(method, "OPTIONS") {
            HttpMethod::Options
        } else {
            HttpMethod::Any
        }
    }

    /// True exactly for the wildcard method.
    pub fn is_any(&self) -> (r: bool)
        ensures
            r == (*self == HttpMethod::Any),
    {
        matches!(self, HttpMethod::Any)
    }
}

// ---------------------------------------------------------------------------
// Status codes
// ---------------------------------------------------------------------------
/// The closed set of HTTP statuses handlers can send.
#[derive(Clone, Copy, Debug, PartialEq, Eq, Structural)]
pub enum ResponseStatusCode {
    Okay,
    Created,
    Accepted,
    NonAuthoritativeInformation,
    NoContent,
    ResetContent,
    PartialContent,
    MultipleChoices,
    MovedPermanently,
    Found,
    SeeOther,
    NotModified,
    TemporaryRedirect,
    PermanentRedirect,
    BadRequest,
    Unauthorized,
    PaymentRequired,
    Forbidden,
    NotFound,
    MethodNotAllowed,
    NotAcceptable,
    RequestTimeout,
    Conflict,
    Gone,
    LengthRequired,
    PreconditionFailed,
    PayloadTooLarge,
    UriTooLong,
    UnsupportedMediaType,
    RangeNotSatisfiable,
    ExpectationFailed,
    ImATeapot,
    TooEarly,
    PreconditionRequired,
    TooManyRequests,
    InternalServerError,
    NotImplemented,
    BadGateway,
    ServiceUnavailable,
    GatewayTimeout,
    HttpVersionNotSupported,
}

/// The numeric code of each status.
pub open spec fn status_code_of(s: ResponseStatusCode) -> i32 {
    match s {
        ResponseStatusCode::Okay => 200,
        ResponseStatusCode::Created => 201,
        ResponseStatusCode::Accepted => 202,
        ResponseStatusCode::NonAuthoritativeInformation => 203,
        ResponseStatusCode::NoContent => 204,
        ResponseStatusCode::ResetContent => 205,
        ResponseStatusCode::PartialContent => 206,
        ResponseStatusCode::MultipleChoices => 300,
        ResponseStatusCode::MovedPermanently => 301,
        ResponseStatusCode::Found => 302,
        ResponseStatusCode::SeeOther => 303,
        ResponseStatusCode::NotModified => 304,
        ResponseStatusCode::TemporaryRedirect => 307,
        ResponseStatusCode::PermanentRedirect => 308,
        ResponseStatusCode::BadRequest => 400,
        ResponseStatusCode::Unauthorized => 401,
        ResponseStatusCode::PaymentRequired => 402,
        ResponseStatusCode::Forbidden => 403,
        ResponseStatusCode::NotFound => 404,
        ResponseStatusCode::MethodNotAllowed => 405,
        ResponseStatusCode::NotAcceptable => 406,
        ResponseStatusCode::RequestTimeout => 408,
        ResponseStatusCode::Conflict => 409,
        ResponseStatusCode::Gone => 410,
        ResponseStatusCode::LengthRequired => 411,
        ResponseStatusCode::PreconditionFailed => 412,
        ResponseStatusCode::PayloadTooLarge => 413,
        ResponseStatusCode::UriTooLong => 414,
        ResponseStatusCode::UnsupportedMediaType => 415,
        ResponseStatusCode::RangeNotSatisfiable => 416,
        ResponseStatusCode::ExpectationFailed => 417,
        ResponseStatusCode::ImATeapot => 418,
        ResponseStatusCode::TooEarly => 425,
        ResponseStatusCode::PreconditionRequired => 428,
        ResponseStatusCode::TooManyRequests => 429,
        ResponseStatusCode::InternalServerError => 500,
        ResponseStatusCode::NotImplemented => 501,
        ResponseStatusCode::BadGateway => 502,
        ResponseStatusCode::ServiceUnavailable => 503,
        ResponseStatusCode::GatewayTimeout => 504,
        ResponseStatusCode::HttpVersionNotSupported => 505,
    }
}

/// The status line text of each status: numeric code and reason phrase.
pub open spec fn status_text_of(s: ResponseStatusCode) -> Seq<char> {
    match s {
        ResponseStatusCode::Okay => "200 OK"@,
        ResponseStatusCode::Created => "201 Created"@,
        ResponseStatusCode::Accepted => "202 Accepted"@,
        ResponseStatusCode::NonAuthoritativeInformation => "203 Non-Authoritative Information"@,
        ResponseStatusCode::NoContent => "204 No Content"@,
        ResponseStatusCode::ResetContent => "205 Reset Content"@,
        ResponseStatusCode::PartialContent => "206 Partial Content"@,
        ResponseStatusCode::MultipleChoices => "300 Multiple Choices"@,
        ResponseStatusCode::MovedPermanently => "301 Moved Permanently"@,
        ResponseStatusCode::Found => "302 Found"@,
        ResponseStatusCode::SeeOther => "303 See Other"@,
        ResponseStatusCode::NotModified => "304 Not Modified"@,
        ResponseStatusCode::TemporaryRedirect => "307 Temporary Redirect"@,
        ResponseStatusCode::PermanentRedirect => "308 Permanent Redirect"@,
        ResponseStatusCode::BadRequest => "400 Bad Request"@,
        ResponseStatusCode::Unauthorized => "401 Unauthorized"@,
        ResponseStatusCode::PaymentRequired => "402 Payment Required"@,
        ResponseStatusCode::Forbidden => "403 Forbidden"@,
        ResponseStatusCode::NotFound => "404 Not Found"@,
        ResponseStatusCode::MethodNotAllowed => "405 Method Not Allowed"@,
        ResponseStatusCode::NotAcceptable => "406 Not Acceptable"@,
        ResponseStatusCode::RequestTimeout => "408 Request Timeout"@,
        ResponseStatusCode::Conflict => "409 Conflict"@,
        ResponseStatusCode::Gone => "410 Gone"@,
        ResponseStatusCode::LengthRequired => "411 Length Required"@,
        ResponseStatusCode::PreconditionFailed => "412 Precondition Failed"@,
        ResponseStatusCode::PayloadTooLarge => "413 Payload Too Large"@,
        ResponseStatusCode::UriTooLong => "414 URI Too Long"@,
        ResponseStatusCode::UnsupportedMediaType => "415 Unsupported Media Type"@,
        ResponseStatusCode::RangeNotSatisfiable => "416 Range Not Satisfiable"@,
        ResponseStatusCode::ExpectationFailed => "417 Expectation Failed"@,
        ResponseStatusCode::ImATeapot => "418 I'm a teapot"@,
        ResponseStatusCode::TooEarly => "425 Too Early"@,
        ResponseStatusCode::PreconditionRequired => "428 Precondition Required"@,
        ResponseStatusCode::TooManyRequests => "429 Too Many Requests"@,
        ResponseStatusCode::InternalServerError => "500 Internal Server Error"@,
        ResponseStatusCode::NotImplemented => "501 Not Implemented"@,
        ResponseStatusCode::BadGateway => "502 Bad Gateway"@,
        ResponseStatusCode::ServiceUnavailable => "503 Service Unavailable"@,
        ResponseStatusCode::GatewayTimeout => "504 Gateway Timeout"@,
        ResponseStatusCode::HttpVersionNotSupported => "505 HTTP Version Not Supported"@,
    }
}

impl ResponseStatusCode {
    /// The numeric code of this status.
    pub fn code(&self) -> (r: i32)
        ensures
            r == status_code_of(*self),
    {
        match self {
            ResponseStatusCode::Okay => 200,
            ResponseStatusCode::Created => 201,
            ResponseStatusCode::Accepted => 202,
            ResponseStatusCode::NonAuthoritativeInformation => 203,
            ResponseStatusCode::NoContent => 204,
            ResponseStatusCode::ResetContent => 205,
            ResponseStatusCode::PartialContent => 206,
            ResponseStatusCode::MultipleChoices => 300,
            ResponseStatusCode::MovedPermanently => 301,
            ResponseStatusCode::Found => 302,
            ResponseStatusCode::SeeOther => 303,
            ResponseStatusCode::NotModified => 304,
            ResponseStatusCode::TemporaryRedirect => 307,
            ResponseStatusCode::PermanentRedirect => 308,
            ResponseStatusCode::BadRequest => 400,
            ResponseStatusCode::Unauthorized => 401,
            ResponseStatusCode::PaymentRequired => 402,
            ResponseStatusCode::Forbidden => 403,
            ResponseStatusCode::NotFound => 404,
            ResponseStatusCode::MethodNotAllowed => 405,
            ResponseStatusCode::NotAcceptable => 406,
            ResponseStatusCode::RequestTimeout => 408,
            ResponseStatusCode::Conflict => 409,
            ResponseStatusCode::Gone => 410,
            ResponseStatusCode::LengthRequired => 411,
            ResponseStatusCode::PreconditionFailed => 412,
            ResponseStatusCode::PayloadTooLarge => 413,
            ResponseStatusCode::UriTooLong => 414,
            ResponseStatusCode::UnsupportedMediaType => 415,
            ResponseStatusCode::RangeNotSatisfiable => 416,
            ResponseStatusCode::ExpectationFailed => 417,
            ResponseStatusCode::ImATeapot => 418,
            ResponseStatusCode::TooEarly => 425,
            ResponseStatusCode::PreconditionRequired => 428,
            ResponseStatusCode::TooManyRequests => 429,
            ResponseStatusCode::InternalServerError => 500,
            ResponseStatusCode::NotImplemented => 501,
            ResponseStatusCode::BadGateway => 502,
            ResponseStatusCode::ServiceUnavailable => 503,
            ResponseStatusCode::GatewayTimeout => 504,
            ResponseStatusCode::HttpVersionNotSupported => 505,
        }
    }

    /// The status line text: numeric code and reason phrase.
    pub fn http_string(&self) -> (r: String)
        ensures
            r@ == status_text_of(*self),
    {
        match self {
            ResponseStatusCode::Okay => "200 OK".to_owned(),
            ResponseStatusCode::Created => "201 Created".to_owned(),
            ResponseStatusCode::Accepted => "202 Accepted".to_owned(),
            ResponseStatusCode::NonAuthoritativeInformation => {
                "203 Non-Authoritative Information".to_owned()
            }
            ResponseStatusCode::NoContent => "204 No Content".to_owned(),
            ResponseStatusCode::ResetContent => "205 Reset Content".to_owned(),
            ResponseStatusCode::PartialContent => "206 Partial Content".to_owned(),
            ResponseStatusCode::MultipleChoices => "300 Multiple Choices".to_owned(),
            ResponseStatusCode::MovedPermanently => "301 Moved Permanently".to_owned(),
            ResponseStatusCode::Found => "302 Found".to_owned(),
            ResponseStatusCode::SeeOther => "303 See Other".to_owned(),
            ResponseStatusCode::NotModified => "304 Not Modified".to_owned(),
            ResponseStatusCode::TemporaryRedirect => "307 Temporary Redirect".to_owned(),
            ResponseStatusCode::PermanentRedirect => "308 Permanent Redirect".to_owned(),
            ResponseStatusCode::BadRequest => "400 Bad Request".to_owned(),
            ResponseStatusCode::Unauthorized => "401 Unauthorized".to_owned(),
            ResponseStatusCode::PaymentRequired => "402 Payment Required".to_owned(),
            ResponseStatusCode::Forbidden => "403 Forbidden".to_owned(),
            ResponseStatusCode::NotFound => "404 Not Found".to_owned(),
            ResponseStatusCode::MethodNotAllowed => "405 Method Not Allowed".to_owned(),
            ResponseStatusCode::NotAcceptable => "406 Not Acceptable".to_owned(),
            ResponseStatusCode::RequestTimeout => "408 Request Timeout".to_owned(),
            ResponseStatusCode::Conflict => "409 Conflict".to_owned(),
            ResponseStatusCode::Gone => "410 Gone".to_owned(),
            ResponseStatusCode::LengthRequired => "411 Length Required".to_owned(),
            ResponseStatusCode::PreconditionFailed => "412 Precondition Failed".to_owned(),
            ResponseStatusCode::PayloadTooLarge => "413 Payload Too Large".to_owned(),
            ResponseStatusCode::UriTooLong => "414 URI Too Long".to_owned(),
            ResponseStatusCode::UnsupportedMediaType => "415 Unsupported Media Type".to_owned(),
            ResponseStatusCode::RangeNotSatisfiable => "416 Range Not Satisfiable".to_owned(),
            ResponseStatusCode::ExpectationFailed => "417 Expectation Failed".to_owned(),
            ResponseStatusCode::ImATeapot => "418 I'm a teapot".to_owned(),
            ResponseStatusCode::TooEarly => "425 Too Early".to_owned(),
            ResponseStatusCode::PreconditionRequired => "428 Precondition Required".to_owned(),
            ResponseStatusCode::TooManyRequests => "429 Too Many Requests".to_owned(),
            ResponseStatusCode::InternalServerError => "500 Internal Server Error".to_owned(),
            ResponseStatusCode::NotImplemented => "501 Not Implemented".to_owned(),
            ResponseStatusCode::BadGateway => "502 Bad Gateway".to_owned(),
            ResponseStatusCode::ServiceUnavailable => "503 Service Unavailable".to_owned(),
            ResponseStatusCode::GatewayTimeout => "504 Gateway Timeout".to_owned(),
            ResponseStatusCode::HttpVersionNotSupported => {
                "505 HTTP Version Not Supported".to_owned()
            }
        }
    }
}

// ---------------------------------------------------------------------------
// Responses
// ---------------------------------------------------------------------------
/// Header entries strictly sorted by key; strictness makes keys unique
/// and the rendering deterministic.
pub open spec fn headers_sorted(hs: Seq<(Seq<char>, Seq<char>)>) -> bool {
    forall|i: int, j: int|
        0 <= i < j < hs.len() ==> lex_lt((#[trigger] hs[i]).0, (#[trigger] hs[j]).0)
}

/// Where an entry lands in a sorted header block: before the first larger
/// key, replacing an equal one.
pub open spec fn sorted_insert(
    hs: Seq<(Seq<char>, Seq<char>)>,
    k: Seq<char>,
    v: Seq<char>,
) -> Seq<(Seq<char>, Seq<char>)>
    decreases hs.len(),
{
    if hs.len() == 0 {
        seq![(k, v)]
    } else if lex_lt(k, hs[0].0) {
        seq![(k, v)] + hs
    } else if k == hs[0].0 {
        seq![(k, v)] + hs.skip(1)
    } else {
        seq![hs[0]] + sorted_insert(hs.skip(1), k, v)
    }
}

pub proof fn lemma_sorted_insert_sorted(hs: Seq<(Seq<char>, Seq<char>)>, k: Seq<char>, v: Seq<char>)
    requires
        headers_sorted(hs),
    ensures
        headers_sorted(sorted_insert(hs, k, v)),
    decreases hs.len(),
{
    let si = sorted_insert(hs, k, v);
    if hs.len() == 0 {
    } else if lex_lt(k, hs[0].0) {
        assert forall|i: int, j: int| 0 <= i < j < si.len() implies lex_lt(
            (#[trigger] si[i]).0,
            (#[trigger] si[j]).0,
        ) by {
            if i == 0 {
                if j > 1 {
                    lemma_lex_trans(k, hs[0].0, hs[j - 1].0);
                }
            }
        }
    } else if k == hs[0].0 {
        assert forall|i: int, j: int| 0 <= i < j < si.len() implies lex_lt(
            (#[trigger] si[i]).0,
            (#[trigger] si[j]).0,
        ) by {
            if i == 0 {
                assert(si[j] == hs[j]);
            } else {
                assert(si[i] == hs[i]);
                assert(si[j] == hs[j]);
            }
        }
    } else {
        lemma_lex_connex_cases(hs[0].0, k);
        assert(headers_sorted(hs.skip(1))) by {
            assert(forall|a: int|
                0 <= a < hs.len() - 1 ==> #[trigger] hs.skip(1)[a] == hs[a + 1]);
        }
        lemma_sorted_insert_sorted(hs.skip(1), k, v);
        let rest = sorted_insert(hs.skip(1), k, v);
        lemma_sorted_insert_keys(hs.skip(1), k, v);
        assert forall|i: int, j: int| 0 <= i < j < si.len() implies lex_lt(
            (#[trigger] si[i]).0,
            (#[trigger] si[j]).0,
        ) by {
            if i == 0 {
                assert(si[j] == rest[j - 1]);
                // Every key of the new tail is either a key of the old
                // tail or `k`; both lie above `hs[0].0`.
                if rest[j - 1].0 == k {
                    assert(lex_lt(hs[0].0, k));
                } else {
                    let a = choose|a: int|
                        0 <= a < hs.skip(1).len() && (#[trigger] hs.skip(1)[a]).0 == rest[j
                            - 1].0;
                    assert(hs.skip(1)[a] == hs[a + 1]);
                    assert(lex_lt(hs[0].0, hs[a + 1].0));
                }
            } else {
                assert(si[i] == rest[i - 1]);
                assert(si[j] == rest[j - 1]);
            }
        }
    }
}

/// Every key of an updated block is `k` or a key already present.
pub proof fn lemma_sorted_insert_keys(hs: Seq<(Seq<char>, Seq<char>)>, k: Seq<char>, v: Seq<char>)
    ensures
        forall|i: int|
            0 <= i < sorted_insert(hs, k, v).len() ==> (#[trigger] sorted_insert(hs, k, v)[i]).0
                == k || exists|a: int| 0 <= a < hs.len() && (#[trigger] hs[a]).0 == sorted_insert(
                hs,
                k,
                v,
            )[i].0,
    decreases hs.len(),
{
    let si = sorted_insert(hs, k, v);
    if hs.len() == 0 {
    } else if lex_lt(k, hs[0].0) {
        assert forall|i: int| 0 <= i < si.len() implies (#[trigger] si[i]).0 == k || exists|a: int|
            0 <= a < hs.len() && (#[trigger] hs[a]).0 == si[i].0 by {
            if i > 0 {
                assert(hs[i - 1].0 == si[i].0);
            }
        }
    } else if k == hs[0].0 {
        assert forall|i: int| 0 <= i < si.len() implies (#[trigger] si[i]).0 == k || exists|a: int|
            0 <= a < hs.len() && (#[trigger] hs[a]).0 == si[i].0 by {
            if i > 0 {
                assert(hs[i].0 == si[i].0);
            }
        }
    } else {
        lemma_sorted_insert_keys(hs.skip(1), k, v);
        let rest = sorted_insert(hs.skip(1), k, v);
        assert forall|i: int| 0 <= i < si.len() implies (#[trigger] si[i]).0 == k || exists|a: int|
            0 <= a < hs.len() && (#[trigger] hs[a]).0 == si[i].0 by {
            if i == 0 {
                assert(hs[0].0 == si[0].0);
            } else {
                assert(si[i] == rest[i - 1]);
                if rest[i - 1].0 != k {
                    let a = choose|a: int|
                        0 <= a < hs.skip(1).len() && (#[trigger] hs.skip(1)[a]).0 == rest[i
                            - 1].0;
                    assert(hs[a + 1].0 == si[i].0);
                }
            }
        }
    }
}

/// A helper shape of connexity: two different keys compare one way or the
/// other.
proof fn lemma_lex_connex_cases(a: Seq<char>, b: Seq<char>)
    ensures
        lex_lt(a, b) || lex_lt(b, a) || a == b,
{
    if !lex_lt(a, b) && !lex_lt(b, a) {
        lemma_lex_connex(a, b);
    }
}

/// Updating a sorted block updates its mapping at that key alone.
pub proof fn lemma_sorted_insert_map(hs: Seq<(Seq<char>, Seq<char>)>, k: Seq<char>, v: Seq<char>)
    requires
        headers_sorted(hs),
    ensures
        entries_map(sorted_insert(hs, k, v)) == entries_map(hs).insert(k, v),
    decreases hs.len(),
{
    let si = sorted_insert(hs, k, v);
    if hs.len() == 0 {
        assert(si =~= seq![(k, v)]);
        assert(si.drop_last() =~= Seq::<(Seq<char>, Seq<char>)>::empty());
        assert(entries_map(si.drop_last()) =~= Map::<Seq<char>, Seq<char>>::empty());
        assert(entries_map(si) == entries_map(si.drop_last()).insert(si.last().0, si.last().1));
        assert(entries_map(si) =~= entries_map(hs).insert(k, v));
    } else {
        let last = hs.last();
        assert(headers_sorted(hs.drop_last())) by {
            assert(forall|a: int|
                0 <= a < hs.len() - 1 ==> #[trigger] hs.drop_last()[a] == hs[a]);
        }
        lemma_lex_connex_cases(k, last.0);
        if lex_lt(last.0, k) {
            // The new entry lands after every existing one.
            assert(si =~= hs + seq![(k, v)]) by {
                lemma_sorted_insert_append(hs, k, v);
            }
            assert(si.drop_last() =~= hs);
            assert(entries_map(si) == entries_map(hs).insert(k, v));
        } else if k == last.0 {
            assert(si =~= hs.drop_last() + seq![(k, v)]) by {
                lemma_sorted_insert_replace_last(hs, k, v);
            }
            assert(si.drop_last() =~= hs.drop_last());
            assert(si.last() == (k, v));
            assert(entries_map(si) == entries_map(hs.drop_last()).insert(k, v));
            assert(entries_map(hs).insert(k, v) =~= entries_map(hs.drop_last()).insert(
                last.0,
                last.1,
            ).insert(k, v));
            assert(entries_map(hs.drop_last()).insert(last.0, last.1).insert(k, v)
                =~= entries_map(hs.drop_last()).insert(k, v));
        } else {
            // The new entry lands strictly before the last one.
            assert(si =~= sorted_insert(hs.drop_last(), k, v) + seq![last]) by {
                lemma_sorted_insert_before_last(hs, k, v);
            }
            lemma_sorted_insert_map(hs.drop_last(), k, v);
            assert(si.drop_last() =~= sorted_insert(hs.drop_last(), k, v));
            assert(si.last() == last);
            assert(entries_map(si) == entries_map(hs.drop_last()).insert(k, v).insert(
                last.0,
                last.1,
            ));
            assert(entries_map(hs.drop_last()).insert(k, v).insert(last.0, last.1)
                =~= entries_map(hs.drop_last()).insert(last.0, last.1).insert(k, v));
        }
    }
}

/// When `k` lies above every key, the entry is appended.
proof fn lemma_sorted_insert_append(hs: Seq<(Seq<char>, Seq<char>)>, k: Seq<char>, v: Seq<char>)
    requires
        headers_sorted(hs),
        hs.len() > 0,
        lex_lt(hs.last().0, k),
    ensures
        sorted_insert(hs, k, v) == hs + seq![(k, v)],
    decreases hs.len(),
{
    if hs.len() == 1 {
        lemma_lex_asym(hs[0].0, k);
        assert(hs[0].0 != k) by {
            lemma_lex_irrefl(k);
        }
        assert(hs.skip(1).len() == 0);
        assert(sorted_insert(hs.skip(1), k, v) =~= seq![(k, v)]);
        assert(sorted_insert(hs, k, v) =~= hs + seq![(k, v)]);
    } else {
        assert(lex_lt(hs[0].0, hs.last().0));
        lemma_lex_trans(hs[0].0, hs.last().0, k);
        lemma_lex_asym(hs[0].0, k);
        assert(hs[0].0 != k) by {
            lemma_lex_irrefl(k);
        }
        assert(headers_sorted(hs.skip(1))) by {
            assert(forall|a: int|
                0 <= a < hs.len() - 1 ==> #[trigger] hs.skip(1)[a] == hs[a + 1]);
        }
        assert(hs.skip(1).last() == hs.last());
        lemma_sorted_insert_append(hs.skip(1), k, v);
        assert(sorted_insert(hs, k, v) =~= hs + seq![(k, v)]);
    }
}

/// When `k` equals the last key, the last entry is replaced.
proof fn lemma_sorted_insert_replace_last(
    hs: Seq<(Seq<char>, Seq<char>)>,
    k: Seq<char>,
    v: Seq<char>,
)
    requires
        headers_sorted(hs),
        hs.len() > 0,
        k == hs.last().0,
    ensures
        sorted_insert(hs, k, v) == hs.drop_last() + seq![(k, v)],
    decreases hs.len(),
{
    if hs.len() == 1 {
        lemma_lex_irrefl(k);
        assert(sorted_insert(hs, k, v) =~= hs.drop_last() + seq![(k, v)]);
    } else {
        assert(lex_lt(hs[0].0, hs.last().0));
        lemma_lex_asym(hs[0].0, k);
        assert(hs[0].0 != k);
        assert(!lex_lt(k, hs[0].0));
        assert(headers_sorted(hs.skip(1))) by {
            assert(forall|a: int|
                0 <= a < hs.len() - 1 ==> #[trigger] hs.skip(1)[a] == hs[a + 1]);
        }
        assert(hs.skip(1).last() == hs.last());
        lemma_sorted_insert_replace_last(hs.skip(1), k, v);
        assert(hs.skip(1).drop_last() =~= hs.drop_last().skip(1));
        assert(sorted_insert(hs, k, v) =~= hs.drop_last() + seq![(k, v)]);
    }
}

/// When `k` lies strictly below the last key, the last entry stays last.
proof fn lemma_sorted_insert_before_last(
    hs: Seq<(Seq<char>, Seq<char>)>,
    k: Seq<char>,
    v: Seq<char>,
)
    requires
        headers_sorted(hs),
        hs.len() > 0,
        lex_lt(k, hs.last().0),
    ensures
        sorted_insert(hs, k, v) == sorted_insert(hs.drop_last(), k, v) + seq![hs.last()],
    decreases hs.len(),
{
    if hs.len() == 1 {
        assert(hs.drop_last() =~= Seq::<(Seq<char>, Seq<char>)>::empty());
        assert(sorted_insert(hs, k, v) =~= sorted_insert(hs.drop_last(), k, v) + seq![hs.last()]);
    } else {
        assert(headers_sorted(hs.skip(1))) by {
            assert(forall|a: int|
                0 <= a < hs.len() - 1 ==> #[trigger] hs.skip(1)[a] == hs[a + 1]);
        }
        assert(hs.skip(1).last() == hs.last());
        if lex_lt(k, hs[0].0) {
            assert(sorted_insert(hs, k, v) =~= seq![(k, v)] + hs);
            assert(headers_sorted(hs.drop_last())) by {
                assert(forall|a: int|
                    0 <= a < hs.len() - 1 ==> #[trigger] hs.drop_last()[a] == hs[a]);
            }
            assert(hs.drop_last().len() > 0);
            assert(hs.drop_last()[0] == hs[0]);
            assert(sorted_insert(hs.drop_last(), k, v) =~= seq![(k, v)] + hs.drop_last());
            assert(sorted_insert(hs, k, v) =~= sorted_insert(hs.drop_last(), k, v) + seq![
                hs.last(),
            ]);
        } else if k == hs[0].0 {
            assert(sorted_insert(hs, k, v) =~= seq![(k, v)] + hs.skip(1));
            assert(hs.drop_last()[0] == hs[0]);
            assert(sorted_insert(hs.drop_last(), k, v) =~= seq![(k, v)] + hs.drop_last().skip(1));
            assert(hs.drop_last().skip(1) =~= hs.skip(1).drop_last());
            assert(sorted_insert(hs, k, v) =~= sorted_insert(hs.drop_last(), k, v) + seq![
                hs.last(),
            ]);
        } else {
            lemma_sorted_insert_before_last(hs.skip(1), k, v);
            assert(hs.drop_last()[0] == hs[0]);
            assert(hs.skip(1).drop_last() =~= hs.drop_last().skip(1));
            assert(hs.drop_last().len() > 0);
            assert(sorted_insert(hs.drop_last(), k, v) =~= seq![hs[0]] + sorted_insert(
                hs.drop_last().skip(1),
                k,
                v,
            ));
            assert(sorted_insert(hs, k, v) =~= sorted_insert(hs.drop_last(), k, v) + seq![
                hs.last(),
            ]);
        }
    }
}

/// `sorted_insert` lands where the first not-smaller key sits.
proof fn lemma_sorted_insert_at(hs: Seq<(Seq<char>, Seq<char>)>, k: Seq<char>, v: Seq<char>, i: int)
    requires
        0 <= i <= hs.len(),
        forall|j: int| 0 <= j < i ==> lex_lt((#[trigger] hs[j]).0, k),
        i < hs.len() ==> !lex_lt(hs[i].0, k),
    ensures
        sorted_insert(hs, k, v) == if i < hs.len() && hs[i].0 == k {
            hs.take(i) + seq![(k, v)] + hs.skip(i + 1)
        } else {
            hs.take(i) + seq![(k, v)] + hs.skip(i)
        },
    decreases i,
{
    if i == 0 {
        if hs.len() == 0 {
            assert(sorted_insert(hs, k, v) =~= hs.take(0) + seq![(k, v)] + hs.skip(0));
        } else if hs[0].0 == k {
            lemma_lex_irrefl(k);
            assert(sorted_insert(hs, k, v) =~= hs.take(0) + seq![(k, v)] + hs.skip(1));
        } else {
            lemma_lex_connex_cases(k, hs[0].0);
            assert(lex_lt(k, hs[0].0));
            assert(sorted_insert(hs, k, v) =~= hs.take(0) + seq![(k, v)] + hs.skip(0));
        }
    } else {
        assert(lex_lt(hs[0].0, k));
        lemma_lex_asym(hs[0].0, k);
        assert(hs[0].0 != k) by {
            lemma_lex_irrefl(k);
        }
        let tl = hs.skip(1);
        assert(forall|j: int| 0 <= j < i - 1 ==> lex_lt((#[trigger] tl[j]).0, k)) by {
            assert(forall|j: int| 0 <= j < hs.len() - 1 ==> #[trigger] tl[j] == hs[j + 1]);
        }
        assert(i - 1 < tl.len() ==> !lex_lt(tl[i - 1].0, k)) by {
            if i - 1 < tl.len() {
                assert(tl[i - 1] == hs[i]);
            }
        }
        lemma_sorted_insert_at(tl, k, v, i - 1);
        if i < hs.len() && hs[i].0 == k {
            assert(tl[i - 1] == hs[i]);
            assert(tl.take(i - 1) =~= hs.take(i).skip(1));
            assert(tl.skip(i) =~= hs.skip(i + 1));
            assert(sorted_insert(hs, k, v) =~= hs.take(i) + seq![(k, v)] + hs.skip(i + 1));
        } else {
            assert(tl.take(i - 1) =~= hs.take(i).skip(1));
            assert(tl.skip(i - 1) =~= hs.skip(i));
            assert(sorted_insert(hs, k, v) =~= hs.take(i) + seq![(k, v)] + hs.skip(i));
        }
    }
}

/// The characters of key/value string pairs.
pub open spec fn pairs_view(ps: Seq<(String, String)>) -> Seq<(Seq<char>, Seq<char>)> {
    ps.map_values(|p: (String, String)| (p.0@, p.1@))
}

/// The first value stored under a key, scanning front to back.
pub open spec fn assoc_find(es: Seq<(Seq<char>, Seq<char>)>, k: Seq<char>) -> Option<Seq<char>>
    decreases es.len(),
{
    if es.len() == 0 {
        Option::None
    } else if es[0].0 == k {
        Some(es[0].1)
    } else {
        assoc_find(es.skip(1), k)
    }
}

/// Finds the first value under `key` in a plain pair list.
pub fn assoc_get<'a>(list: &'a Vec<(String, String)>, key: &str) -> (r: Option<&'a String>)
    ensures
        match r {
            Some(v) => assoc_find(pairs_view(list@), key@) == Some(v@),
            None => assoc_find(pairs_view(list@), key@) is None,
        },
{
    let ghost es = pairs_view(list@);
    let k: String = key.to_owned();
    let mut i: usize = 0;
    proof {
        assert(es.skip(0) =~= es);
    }
    while i < list.len()
        invariant
            i <= list.len(),
            es == pairs_view(list@),
            k@ == key@,
            assoc_find(es, key@) == assoc_find(es.skip(i as int), key@),
        decreases list.len() - i,
    {
        let ghost rem = es.skip(i as int);
        proof {
            assert(rem[0] == es[i as int]);
            assert(rem.skip(1) =~= es.skip(i + 1));
        }
        if list[i].0 == k {
            proof {
                assert(es[i as int].0 == key@);
            }
            return Some(&list[i].1);
        }
        proof {
            assert(es[i as int].0 != key@);
        }
        i = i + 1;
    }
    proof {
        assert(es.skip(i as int) =~= Seq::<(Seq<char>, Seq<char>)>::empty());
    }
    None
}

/// How one header renders inside the header block.
pub open spec fn header_line(e: (Seq<char>, Seq<char>)) -> Seq<char> {
    e.0 + seq![':', ' '] + e.1
}

/// The header block of a response with these headers in place, sorted by
/// key, as applied on top of the base headers of a data response.
pub open spec fn base_headers(len: int, p: DateParts) -> Seq<(Seq<char>, Seq<char>)> {
    sorted_insert(
        sorted_insert(
            sorted_insert(
                sorted_insert(
                    Seq::empty(),
                    "Content-Type"@,
                    "text/html"@,
                ),
                "Content-Length"@,
                u_chars(len as nat),
            ),
            "Date"@,
            date_header_chars(p),
        ),
        "Connection"@,
        "close"@,
    )
}

/// An outgoing response: status, raw body bytes, and a header block kept
/// strictly sorted by key so that rendering is deterministic.
#[derive(Debug)]
pub struct Response {
    pub data: Vec<u8>,
    pub status: ResponseStatusCode,
    pub headers: Vec<(String, String)>,
}

impl Response {
    /// The header entries, sorted by key.
    pub open spec fn headers(&self) -> Seq<(Seq<char>, Seq<char>)> {
        pairs_view(self.headers@)
    }

    /// The headers as a mapping.
    pub open spec fn headers_map(&self) -> Map<Seq<char>, Seq<char>> {
        entries_map(self.headers())
    }

    /// Well-formed: the header block is strictly sorted.
    pub open spec fn wf(&self) -> bool {
        headers_sorted(self.headers())
    }

    /// The status line and sorted headers as wire text: header fields
    /// separated by CRLF, ending in the blank line that separates headers
    /// from the body.
    pub open spec fn header_block_chars(&self) -> Seq<char> {
        "HTTP/1.1 "@ + status_text_of(self.status) + (if self.headers().len() > 0 {
            seq!['\r', '\n'] + spec_join(
                self.headers().map_values(|e: (Seq<char>, Seq<char>)| header_line(e)),
                seq!['\r', '\n'],
            )
        } else {
            Seq::<char>::empty()
        }) + seq!['\r', '\n', '\r', '\n']
    }

    /// Creates a new, empty response.
    pub fn new() -> (r: Response)
        ensures
            r.wf(),
            r.data@ == Seq::<u8>::empty(),
            r.status == ResponseStatusCode::Okay,
            r.headers() == Seq::<(Seq<char>, Seq<char>)>::empty(),
    {
        let r = Response { data: Vec::new(), status: ResponseStatusCode::Okay, headers: Vec::new() };
        proof {
            assert(r.headers() =~= Seq::<(Seq<char>, Seq<char>)>::empty());
        }
        r
    }

    /// Stores a header, replacing any earlier value under the same key
    /// and keeping the block sorted.
    fn header_set(&mut self, key: String, value: String)
        requires
            old(self).wf(),
        ensures
            final(self).wf(),
            final(self).headers() == sorted_insert(old(self).headers(), key@, value@),
            final(self).headers_map() == old(self).headers_map().insert(key@, value@),
            final(self).data == old(self).data,
            final(self).status == old(self).status,
    {
        let ghost hs = self.headers();
        let mut i: usize = 0;
        loop
            invariant
                i <= self.headers.len(),
                hs == self.headers(),
                self == old(self),
                old(self).wf(),
                forall|j: int| 0 <= j < i ==> lex_lt((#[trigger] hs[j]).0, key@),
            decreases self.headers.len() - i,
        {
            if i >= self.headers.len() {
                proof {
                    lemma_sorted_insert_at(hs, key@, value@, i as int);
                }
                self.headers.push((key, value));
                proof {
                    assert(self.headers() =~= hs.take(hs.len() as int) + seq![(key@, value@)]
                        + hs.skip(hs.len() as int));
                    lemma_sorted_insert_sorted(hs, key@, value@);
                    lemma_sorted_insert_map(hs, key@, value@);
                }
                return ;
            }
            let c = str_compare(key.as_str(), self.headers[i].0.as_str());
            proof {
                assert(hs[i as int].0 == self.headers@[i as int].0@);
            }
            match c {
                Cmp::Lt => {
                    proof {
                        lemma_lex_asym(key@, hs[i as int].0);
                        assert(hs[i as int].0 != key@) by {
                            lemma_lex_irrefl(key@);
                        }
                        lemma_sorted_insert_at(hs, key@, value@, i as int);
                    }
                    self.headers.insert(i, (key, value));
                    proof {
                        assert(self.headers() =~= hs.take(i as int) + seq![(key@, value@)]
                            + hs.skip(i as int));
                        lemma_sorted_insert_sorted(hs, key@, value@);
                        lemma_sorted_insert_map(hs, key@, value@);
                    }
                    return ;
                }
                Cmp::Eq => {
                    proof {
                        assert(hs[i as int].0 == key@);
                        assert(!lex_lt(hs[i as int].0, key@)) by {
                            lemma_lex_irrefl(key@);
                        }
                        lemma_sorted_insert_at(hs, key@, value@, i as int);
                    }
                    self.headers[i] = (key, value);
                    proof {
                        assert(self.headers() =~= hs.take(i as int) + seq![(key@, value@)]
                            + hs.skip(i + 1));
                        lemma_sorted_insert_sorted(hs, key@, value@);
                        lemma_sorted_insert_map(hs, key@, value@);
                    }
                    return ;
                }
                Cmp::Gt => {
                    proof {
                        assert(lex_lt(hs[i as int].0, key@));
                    }
                    i = i + 1;
                }
            }
        }
    }

    /// Sets a header, consuming and returning the response.
    pub fn header(self, key: &str, value: &str) -> (r: Response)
        requires
            self.wf(),
        ensures
            r.wf(),
            r.headers() == sorted_insert(self.headers(), key@, value@),
            r.headers_map() == self.headers_map().insert(key@, value@),
            r.data == self.data,
            r.status == self.status,
    {
        let mut s = self;
        s.header_set(key.to_owned(), value.to_owned());
        s
    }

    /// Sets the status, consuming and returning the response.
    pub fn status(self, status: ResponseStatusCode) -> (r: Response)
        ensures
            r.status == status,
            r.data == self.data,
            r.headers() == self.headers(),
            r.wf() == self.wf(),
    {
        let mut s = self;
        s.status = status;
        s
    }

    /// Applies the CORS headers from the configured allow-lists.
    pub fn apply_cors(&mut self, origin: &str, headers: &str)
        requires
            old(self).wf(),
        ensures
            final(self).wf(),
            final(self).headers() == sorted_insert(
                sorted_insert(
                    sorted_insert(old(self).headers(), "Access-Control-Allow-Origin"@, origin@),
                    "Access-Control-Allow-Headers"@,
                    headers@,
                ),
                "Access-Control-Allow-Methods"@,
                "POST, PATCH, GET, OPTIONS, DELETE, PUT"@,
            ),
            final(self).headers_map() == old(self).headers_map().insert(
                "Access-Control-Allow-Origin"@,
                origin@,
            ).insert("Access-Control-Allow-Headers"@, headers@).insert(
                "Access-Control-Allow-Methods"@,
                "POST, PATCH, GET, OPTIONS, DELETE, PUT"@,
            ),
            final(self).data == old(self).data,
            final(self).status == old(self).status,
    {
        self.header_set("Access-Control-Allow-Origin".to_owned(), origin.to_owned());
        self.header_set("Access-Control-Allow-Headers".to_owned(), headers.to_owned());
        self.header_set(
            "Access-Control-Allow-Methods".to_owned(),
            "POST, PATCH, GET, OPTIONS, DELETE, PUT".to_owned(),
        );
    }

    /// Creates a response that transmits raw bytes, with the
    /// auto-populated Content-Type, Content-Length, Date and Connection
    /// headers.
    pub fn data(data: Vec<u8>) -> (r: Response)
        ensures
            r.wf(),
            r.data@ == data@,
            r.status == ResponseStatusCode::Okay,
            exists|p: DateParts| p.wf() && r.headers() == base_headers(data@.len() as int, #[trigger] base_headers_arg(p)),
    {
        let len = data.len();
        let now = now_parts();
        let date = date_header_string(now);
        let mut r = Response { data, status: ResponseStatusCode::Okay, headers: Vec::new() };
        proof {
            assert(r.headers() =~= Seq::<(Seq<char>, Seq<char>)>::empty());
        }
        r.header_set("Content-Type".to_owned(), "text/html".to_owned());
        let cl = {
            let clc = u64_to_chars(len as u64);
            chars_to_string(&clc)
        };
        r.header_set("Content-Length".to_owned(), cl);
        r.header_set("Date".to_owned(), date);
        r.header_set("Connection".to_owned(), "close".to_owned());
        proof {
            assert(r.headers() == base_headers(len as int, now));
            assert(base_headers_arg(now) == now);
        }
        r
    }

    /// Creates a response that transmits a string as `text/plain`.
    pub fn string(s: &str) -> (r: Response)
        ensures
            r.wf(),
            r.data@ == s.spec_bytes(),
            r.status == ResponseStatusCode::Okay,
            exists|p: DateParts| p.wf() && r.headers() == sorted_insert(
                base_headers(s.spec_bytes().len() as int, #[trigger] base_headers_arg(p)),
                "Content-Type"@,
                "text/plain"@,
            ),
    {
        let bytes = s.as_bytes_vec();
        Response::data(bytes).header("Content-Type", "text/plain")
    }

    /// Creates a response that transmits a value's JSON text as
    /// `application/json`.
    pub fn json<S: ToJson>(s: &S) -> (r: Response)
        ensures
            r.wf(),
            r.data@ == vstd::utf8::encode_utf8(s.to_json_spec()),
            r.status == ResponseStatusCode::Okay,
            exists|p: DateParts| p.wf() && r.headers() == sorted_insert(
                base_headers(
                    vstd::utf8::encode_utf8(s.to_json_spec()).len() as int,
                    #[trigger] base_headers_arg(p),
                ),
                "Content-Type"@,
                "application/json; charset=utf-8"@,
            ),
    {
        let j = s.to_json();
        let bytes = j.as_str().as_bytes_vec();
        Response::data(bytes).header("Content-Type", "application/json; charset=utf-8")
    }

    /// Creates a response that transmits HTML bytes.
    pub fn html(s: Vec<u8>) -> (r: Response)
        ensures
            r.wf(),
            r.data@ == s@,
            r.status == ResponseStatusCode::Okay,
            exists|p: DateParts| p.wf() && r.headers() == base_headers(s@.len() as int, #[trigger] base_headers_arg(p)),
    {
        Response::data(s)
    }

    /// Renders the status line and header block as wire bytes.
    pub fn get_header_data(&self) -> (r: Vec<u8>)
        ensures
            r@ == vstd::utf8::encode_utf8(self.header_block_chars()),
    {
        let mut out: Vec<char> = Vec::new();
        let pre = str_to_chars("HTTP/1.1 ");
        append_chars(&mut out, &pre);
        let st = self.status.http_string();
        let stc = str_to_chars(st.as_str());
        append_chars(&mut out, &stc);
        if self.headers.len() > 0 {
            out.push('\r');
            out.push('\n');
            let mut parts: Vec<Vec<char>> = Vec::new();
            let mut i: usize = 0;
            while i < self.headers.len()
                invariant
                    i <= self.headers.len(),
                    parts@.len() == i,
                    forall|j: int|
                        0 <= j < i ==> (#[trigger] parts@[j])@ == header_line(self.headers()[j]),
                decreases self.headers.len() - i,
            {
                let kc = str_to_chars(self.headers[i].0.as_str());
                let vc = str_to_chars(self.headers[i].1.as_str());
                let mut part: Vec<char> = Vec::new();
                append_chars(&mut part, &kc);
                part.push(':');
                part.push(' ');
                append_chars(&mut part, &vc);
                proof {
                    assert(self.headers()[i as int] == (kc@, vc@));
                    assert(part@ =~= header_line((kc@, vc@)));
                }
                parts.push(part);
                i = i + 1;
            }
            proof {
                assert(parts@.map_values(|p: Vec<char>| p@) =~= self.headers().map_values(
                    |e: (Seq<char>, Seq<char>)| header_line(e),
                ));
            }
            let mut sep: Vec<char> = Vec::new();
            sep.push('\r');
            sep.push('\n');
            proof {
                assert(sep@ =~= seq!['\r', '\n']);
            }
            let joined = join_chars(&parts, &sep);
            append_chars(&mut out, &joined);
        }
        out.push('\r');
        out.push('\n');
        out.push('\r');
        out.push('\n');
        proof {
            assert(out@ =~= self.header_block_chars());
        }
        let s = chars_to_string(&out);
        s.as_str().as_bytes_vec()
    }

    /// Consumes the response, returning its body bytes.
    pub fn bytes(self) -> (r: Vec<u8>)
        ensures
            r@ == self.data@,
    {
        self.data
    }
}

/// An identity marker on the moment a response was stamped with; it keeps
/// the witness in `exists` clauses about auto-populated headers stable.
pub open spec fn base_headers_arg(p: DateParts) -> DateParts {
    p
}

// ---------------------------------------------------------------------------
// Route errors
// ---------------------------------------------------------------------------
/// The error a handler returns: a message, the status to send, and a flag
/// that, when set, sends the message verbatim instead of the JSON error
/// envelope.
#[derive(Debug)]
pub struct RouteError {
    pub message: String,
    pub status_code: ResponseStatusCode,
    pub override_output: bool,
}

impl RouteError {
    /// A 400 error with a message.
    pub fn bad_request(msg: &str) -> (r: RouteError)
        ensures
            r.message@ == msg@,
            r.status_code == ResponseStatusCode::BadRequest,
            !r.override_output,
    {
        RouteError {
            message: msg.to_owned(),
            status_code: ResponseStatusCode::BadRequest,
            override_output: false,
        }
    }

    /// A 403 error with a message.
    pub fn forbidden(msg: &str) -> (r: RouteError)
        ensures
            r.message@ == msg@,
            r.status_code == ResponseStatusCode::Forbidden,
            !r.override_output,
    {
        RouteError {
            message: msg.to_owned(),
            status_code: ResponseStatusCode::Forbidden,
            override_output: false,
        }
    }

    /// A 404 error with a message.
    pub fn not_found(msg: &str) -> (r: RouteError)
        ensures
            r.message@ == msg@,
            r.status_code == ResponseStatusCode::NotFound,
            !r.override_output,
    {
        RouteError {
            message: msg.to_owned(),
            status_code: ResponseStatusCode::NotFound,
            override_output: false,
        }
    }

    /// A 409 error with a message.
    pub fn conflict(msg: &str) -> (r: RouteError)
        ensures
            r.message@ == msg@,
            r.status_code == ResponseStatusCode::Conflict,
            !r.override_output,
    {
        RouteError {
            message: msg.to_owned(),
            status_code: ResponseStatusCode::Conflict,
            override_output: false,
        }
    }

    /// A 500 error with a message.
    pub fn server_error(msg: &str) -> (r: RouteError)
        ensures
            r.message@ == msg@,
            r.status_code == ResponseStatusCode::InternalServerError,
            !r.override_output,
    {
        RouteError {
            message: msg.to_owned(),
            status_code: ResponseStatusCode::InternalServerError,
            override_output: false,
        }
    }

    /// An error with a chosen status and a message.
    pub fn custom(msg: &str, status_code: ResponseStatusCode) -> (r: RouteError)
        ensures
            r.message@ == msg@,
            r.status_code == status_code,
            !r.override_output,
    {
        RouteError {
            message: msg.to_owned(),
            status_code,
            override_output: false,
        }
    }
}

impl RouteError {
    /// Converts this error into a response: the configured status, and —
    /// unless the override flag is set — the JSON error envelope; with
    /// the flag set, the message alone, verbatim.
    pub fn to_response(self) -> (r: Response)
        ensures
            r.wf(),
            r.status == self.status_code,
            !self.override_output ==> r.data@ == vstd::utf8::encode_utf8(
                envelope_chars(status_code_of(self.status_code) as int, self.message@),
            ),
            self.override_output ==> r.data@ == vstd::utf8::encode_utf8(self.message@),
    {
        if self.override_output {
            let bytes = self.message.as_str().as_bytes_vec();
            return Response::data(bytes).status(self.status_code);
        }
        let mut out: Vec<char> = Vec::new();
        let pre = str_to_chars("{\n\t\"code\":\"");
        append_chars(&mut out, &pre);
        let code = self.status_code.code();
        proof {
            assert(status_code_of(self.status_code) >= 100);
        }
        let cc = u64_to_chars(code as u64);
        append_chars(&mut out, &cc);
        let mid = str_to_chars("\",\n\t\"message\":\"");
        append_chars(&mut out, &mid);
        let mc = str_to_chars(self.message.as_str());
        append_chars(&mut out, &mc);
        let post = str_to_chars("\"\n}");
        append_chars(&mut out, &post);
        proof {
            assert(out@ =~= envelope_chars(status_code_of(self.status_code) as int,
            self.message@));
        }
        let body = chars_to_string(&out);
        let bytes = body.as_str().as_bytes_vec();
        Response::data(bytes).status(self.status_code).header(
            "Content-Type",
            "Content-Type: application/json; charset=utf-8",
        )
    }
}

/// The JSON error envelope carries the message verbatim: right after the
/// quoted `message` label stands the message text itself, whatever the
/// status code.  In particular a not-found error with message `m` gives
/// a 404 body containing `"message":"m"`.
pub proof fn lemma_envelope_contains_message(code: int, msg: Seq<char>)
    requires
        code >= 0,
    ensures
        ({
            let e = envelope_chars(code, msg);
            let label = "\"message\":\""@;
            let at = ("{\n\t\"code\":\""@.len() + u_chars(code as nat).len() + 4) as int;
            &&& 0 <= at
            &&& at + label.len() + msg.len() <= e.len()
            &&& e.subrange(at, at + label.len() + msg.len()) == label + msg
        }),
{
    reveal_strlit("{\n\t\"code\":\"");
    reveal_strlit("\",\n\t\"message\":\"");
    reveal_strlit("\"message\":\"");
    reveal_strlit("\"\n}");
    let e = envelope_chars(code, msg);
    let label = "\"message\":\""@;
    let pre = "{\n\t\"code\":\""@;
    let mid = "\",\n\t\"message\":\""@;
    assert(pre.len() == 11);
    assert(mid.len() == 15);
    assert(label.len() == 11);
    let at = (pre.len() + u_chars(code as nat).len() + 4) as int;
    assert(mid.skip(4) =~= label);
    assert(e.subrange(at, at + label.len() + msg.len()) =~= label + msg);
}

/// The JSON error envelope: the numeric code and the message, each
/// quoted, on indented lines.
pub open spec fn envelope_chars(code: int, msg: Seq<char>) -> Seq<char> {
    "{\n\t\"code\":\""@ + u_chars(code as nat) + "\",\n\t\"message\":\""@ + msg + "\"\n}"@
}

// ---------------------------------------------------------------------------
// Body classification
// ---------------------------------------------------------------------------
/// The first character of a body once leading whitespace is dropped.
pub open spec fn first_significant(s: Seq<char>) -> Option<char>
    decreases s.len(),
{
    if s.len() == 0 {
        Option::None
    } else if is_ws(s[0]) {
        first_significant(s.skip(1))
    } else {
        Some(s[0])
    }
}

fn first_significant_exec(s: &Vec<char>) -> (r: Option<char>)
    ensures
        r == first_significant(s@),
{
    let mut i: usize = 0;
    proof {
        assert(s@.skip(0) =~= s@);
    }
    while i < s.len()
        invariant
            i <= s.len(),
            first_significant(s@) == first_significant(s@.skip(i as int)),
        decreases s.len() - i,
    {
        let ghost rem = s@.skip(i as int);
        proof {
            assert(rem[0] == s@[i as int]);
            assert(rem.skip(1) =~= s@.skip(i + 1));
        }
        let c: char = s[i];
        if !is_ws_exec(c) {
            return Some(c);
        }
        i = i + 1;
    }
    proof {
        assert(s@.skip(i as int) =~= Seq::<char>::empty());
    }
    None
}

/// Relies on `String::from_utf8`: it succeeds exactly on valid UTF-8 and
/// decodes the bytes; on failure the bytes come back unchanged.
#[verifier::external_body]
fn utf8_to_string(data: Vec<u8>) -> (r: Result<String, Vec<u8>>)
    ensures
        match r {
            Ok(s) => valid_utf8(data@) && s@ == decode_utf8(data@),
            Err(b) => !valid_utf8(data@) && b@ == data@,
        },
{
    match String::from_utf8(data) {
        Ok(s) => Ok(s),
        Err(e) => Err(e.into_bytes()),
    }
}

/// A request body, classified by its declared content type.  `Empty`
/// marks the absence of a body.
#[derive(Debug)]
pub enum BodyContents {
    Binary(Vec<u8>),
    JsonObject(JsonObject),
    JsonArray(JsonArray),
    UrlEncoded(UrlEncoded),
    PlainText(String),
    Empty,
}

/// What classification owes for a JSON content type: on valid UTF-8, an
/// array when the trimmed text opens with a bracket, else an object; raw
/// bytes when the body is not text.
pub open spec fn classified_json(d: Seq<u8>, r: BodyContents) -> bool {
    if valid_utf8(d) {
        if first_significant(decode_utf8(d)) == Some('[') {
            r matches BodyContents::JsonArray(a) && a@ == arr_items(arr_skip(decode_utf8(d)))
        } else {
            r matches BodyContents::JsonObject(o) && o.wf() && o@ == entries_map(
                obj_entries(decode_utf8(d)),
            )
        }
    } else {
        r matches BodyContents::Binary(b) && b@ == d
    }
}

/// What classification owes for each recognized content type; anything
/// unrecognized, and any undecodable text body, stays raw bytes.
pub open spec fn classified(mime: Seq<char>, d: Seq<u8>, r: BodyContents) -> bool {
    if mime == "application/json"@ || mime == "application/ld+json"@ {
        classified_json(d, r)
    } else if mime == "text/plain"@ {
        if valid_utf8(d) {
            r matches BodyContents::PlainText(s) && s@ == decode_utf8(d)
        } else {
            r matches BodyContents::Binary(b) && b@ == d
        }
    } else if mime == "application/x-www-form-urlencoded"@ {
        if valid_utf8(d) {
            r matches BodyContents::UrlEncoded(u) && u.wf() && u@ == ue_map(decode_utf8(d))
        } else {
            r matches BodyContents::Binary(b) && b@ == d
        }
    } else {
        r matches BodyContents::Binary(b) && b@ == d
    }
}

impl BodyContents {
    /// Classifies raw bytes by their declared mime type.
    pub fn type_from_mime(mime: &str, data: Vec<u8>) -> (r: BodyContents)
        ensures
            classified(mime@, data@, r),
    {
        proof {
            reveal_strlit("application/json");
            reveal_strlit("application/ld+json");
            reveal_strlit("text/plain");
            reveal_strlit("application/x-www-form-urlencoded");
            assert("application/json"@.len() == 16);
            assert("application/ld+json"@.len() == 19);
            assert("text/plain"@.len() == 10);
            assert("application/x-www-form-urlencoded"@.len() == 33);
        }
        if str_eq(mime, "application/json") || str_eq(mime, "application/ld+json") {
            match utf8_to_string(data) {
                Ok(s) => {
                    let cs = str_to_chars(s.as_str());
                    let first = first_significant_exec(&cs);
                    let is_array = match first {
                        Some(c) => c == '[',
                        None => false,
                    };
                    if is_array {
                        BodyContents::JsonArray(JsonArray::from_string(s.as_str()))
                    } else {
                        BodyContents::JsonObject(JsonObject::from_string(s.as_str()))
                    }
                }
                Err(b) => BodyContents::Binary(b),
            }
        } else if str_eq(mime, "text/plain") {
            match utf8_to_string(data) {
                Ok(s) => BodyContents::PlainText(s),
                Err(b) => BodyContents::Binary(b),
            }
        } else if str_eq(mime, "application/x-www-form-urlencoded") {
            match utf8_to_string(data) {
                Ok(s) => BodyContents::UrlEncoded(UrlEncoded::from_string(s)),
                Err(b) => BodyContents::Binary(b),
            }
        } else {
            BodyContents::Binary(data)
        }
    }

    /// Interprets this body as a JSON object.
    pub fn to_json_object(&self) -> (r: Result<&JsonObject, RouteError>)
        ensures
            match self {
                BodyContents::JsonObject(j) => r matches Ok(o) && o == j,
                _ => r matches Err(e) && e.message@ == "Expected JSON object."@ && e.status_code
                    == ResponseStatusCode::BadRequest && !e.override_output,
            },
    {
        match self {
            BodyContents::JsonObject(j) => Ok(j),
            _ => Err(RouteError::bad_request("Expected JSON object.")),
        }
    }

    /// Interprets this body as a JSON array.
    pub fn to_json_array(&self) -> (r: Result<&JsonArray, RouteError>)
        ensures
            match self {
                BodyContents::JsonArray(j) => r matches Ok(a) && a == j,
                _ => r matches Err(e) && e.message@ == "Expected JSON array."@ && e.status_code
                    == ResponseStatusCode::BadRequest && !e.override_output,
            },
    {
        match self {
            BodyContents::JsonArray(j) => Ok(j),
            _ => Err(RouteError::bad_request("Expected JSON array.")),
        }
    }

    /// Consumes the body, returning a JSON object.
    pub fn into_json_object(self) -> (r: Result<JsonObject, RouteError>)
        ensures
            match self {
                BodyContents::JsonObject(j) => r matches Ok(o) && o == j,
                _ => r matches Err(e) && e.message@ == "Expected JSON object."@ && e.status_code
                    == ResponseStatusCode::BadRequest && !e.override_output,
            },
    {
        match self {
            BodyContents::JsonObject(j) => Ok(j),
            _ => Err(RouteError::bad_request("Expected JSON object.")),
        }
    }

    /// Consumes the body, returning a JSON array.
    pub fn into_json_array(self) -> (r: Result<JsonArray, RouteError>)
        ensures
            match self {
                BodyContents::JsonArray(j) => r matches Ok(a) && a == j,
                _ => r matches Err(e) && e.message@ == "Expected JSON array"@ && e.status_code
                    == ResponseStatusCode::BadRequest && !e.override_output,
            },
    {
        match self {
            BodyContents::JsonArray(j) => Ok(j),
            _ => Err(RouteError::bad_request("Expected JSON array")),
        }
    }

    /// Interprets this body as URL encoded form data.
    pub fn url_encoded(&self) -> (r: Result<&UrlEncoded, RouteError>)
        ensures
            match self {
                BodyContents::UrlEncoded(u) => r matches Ok(o) && o == u,
                _ => r matches Err(e) && e.message@ == "Expected URL encoded data."@
                    && e.status_code == ResponseStatusCode::BadRequest && !e.override_output,
            },
    {
        match self {
            BodyContents::UrlEncoded(u) => Ok(u),
            _ => Err(RouteError::bad_request("Expected URL encoded data.")),
        }
    }

    /// Consumes the body, converting it to URL encoded form data; any
    /// other body kind gives an empty structure.
    pub fn as_url_encoded(self) -> (r: UrlEncoded)
        ensures
            match self {
                BodyContents::UrlEncoded(u) => r == u,
                _ => r.wf() && r@ == ue_map(Seq::<char>::empty()),
            },
    {
        match self {
            BodyContents::UrlEncoded(u) => u,
            _ => {
                proof {
                    reveal_strlit("");
                    assert(""@ =~= Seq::<char>::empty());
                }
                UrlEncoded::from_string("".to_owned())
            }
        }
    }

    /// Consumes the body, returning its raw bytes; any other body kind
    /// gives no bytes.
    pub fn as_bytes(self) -> (r: Vec<u8>)
        ensures
            match self {
                BodyContents::Binary(b) => r == b,
                _ => r@ == Seq::<u8>::empty(),
            },
    {
        match self {
            BodyContents::Binary(b) => b,
            _ => Vec::new(),
        }
    }
}

// ---------------------------------------------------------------------------
// Request parameters
// ---------------------------------------------------------------------------
/// An incoming request, extracted from the wire: the method, the
/// normalized path, query parameters, lower-cased headers, the classified
/// body, and the client address.
#[derive(Debug)]
pub struct RequestParameters {
    pub request_type: HttpMethod,
    pub path: String,
    pub query: Vec<(String, String)>,
    pub headers: Vec<(String, String)>,
    pub body: BodyContents,
    pub ip_address: String,
}

impl RequestParameters {
    /// The first value sent under a query key.
    pub fn query_value(&self, key: &str) -> (r: Option<&String>)
        ensures
            match r {
                Some(v) => assoc_find(pairs_view(self.query@), key@) == Some(v@),
                None => assoc_find(pairs_view(self.query@), key@) is None,
            },
    {
        assoc_get(&self.query, key)
    }

    /// The first value sent under a header name; names are stored
    /// lower-cased, so pass the name in lower case.
    pub fn header_value(&self, key: &str) -> (r: Option<&String>)
        ensures
            match r {
                Some(v) => assoc_find(pairs_view(self.headers@), key@) == Some(v@),
                None => assoc_find(pairs_view(self.headers@), key@) is None,
            },
    {
        assoc_get(&self.headers, key)
    }
}

} // verus!
