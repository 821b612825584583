//! The request framer and the pure half of dispatch: turning an
//! accumulated header block into request parameters, classifying a body
//! by its declared content type, and assembling the byte-level reply for
//! every dispatch outcome.  The byte reads themselves, and the writes
//! back, live with the caller; everything here is a function from plain
//! values to plain values.

use crate::json::JsonParseError;
use crate::reqres::{
    assoc_find, classified, pairs_view, BodyContents, HttpMethod, RequestParameters, Response,
    ResponseStatusCode, RouteError, method_of, status_code_of, envelope_chars,
};
use crate::routes::norm_path;
use crate::strutil::{
    append_chars, chars_to_string, dec_val, is_uint_chars, lower_chars, lower_chars_exec,
    parse_usize_chars, spec_split, spec_split_str, split_chars, split_str_chars, str_to_chars,
};
use vstd::prelude::*;
use vstd::string::*;

verus! {

// ---------------------------------------------------------------------------
// Header block scanning
// ---------------------------------------------------------------------------
/// One step of the blank-line scanner: carriage returns and line feeds
/// count up, anything else resets; four in a row end the header block.
/// The count saturates at four, where the caller stops reading.
pub fn crlf_count_step(count: u32, byte: u8) -> (r: u32)
    ensures
        r == (if byte == 10 || byte == 13 {
            if count >= 4 {
                4u32
            } else {
                (count + 1) as u32
            }
        } else {
            0u32
        }),
{
    if byte == 10 || byte == 13 {
        if count >= 4 {
            4
        } else {
            count + 1
        }
    } else {
        0
    }
}

/// Bytes read off the wire, taken as characters one for one, exactly as
/// the byte-at-a-time header scan accumulates them.
pub open spec fn bytes_as_text(bytes: Seq<u8>) -> Seq<char> {
    bytes.map_values(|b: u8| b as char)
}

/// Converts raw header bytes to the characters the scanner accumulated.
pub fn header_bytes_to_chars(bytes: &Vec<u8>) -> (r: Vec<char>)
    ensures
        r@ == bytes_as_text(bytes@),
{
    let mut out: Vec<char> = Vec::new();
    let mut i: usize = 0;
    while i < bytes.len()
        invariant
            i <= bytes.len(),
            out@ == bytes@.subrange(0, i as int).map_values(|b: u8| b as char),
        decreases bytes.len() - i,
    {
        out.push(bytes[i] as char);
        proof {
            assert(out@ =~= bytes@.subrange(0, i + 1).map_values(|b: u8| b as char));
        }
        i = i + 1;
    }
    proof {
        assert(bytes@.subrange(0, i as int) =~= bytes@);
    }
    out
}

// ---------------------------------------------------------------------------
// Head parsing
// ---------------------------------------------------------------------------
/// A line with one trailing carriage return dropped.
pub open spec fn strip_cr(l: Seq<char>) -> Seq<char> {
    if l.len() > 0 && l.last() == '\r' {
        l.drop_last()
    } else {
        l
    }
}

/// The leading run of non-empty lines.
pub open spec fn take_nonempty(ls: Seq<Seq<char>>) -> Seq<Seq<char>>
    decreases ls.len(),
{
    if ls.len() == 0 || ls[0].len() == 0 {
        Seq::empty()
    } else {
        seq![ls[0]] + take_nonempty(ls.skip(1))
    }
}

/// The lines of a header block: split on line feeds, carriage returns
/// stripped, cut at the first blank line.
pub open spec fn req_lines(s: Seq<char>) -> Seq<Seq<char>> {
    take_nonempty(spec_split(s, '\n').map_values(|l: Seq<char>| strip_cr(l)))
}

/// The request-line verb: the first space-separated token of the first
/// line; empty when the block is empty.
pub open spec fn head_method(s: Seq<char>) -> Seq<char> {
    if req_lines(s).len() == 0 {
        Seq::empty()
    } else {
        spec_split(req_lines(s)[0], ' ')[0]
    }
}

/// The request target: the second space-separated token of the first
/// line; empty when absent.
pub open spec fn head_target(s: Seq<char>) -> Seq<char> {
    if req_lines(s).len() == 0 {
        Seq::empty()
    } else {
        let toks = spec_split(req_lines(s)[0], ' ');
        if toks.len() > 1 {
            toks[1]
        } else {
            Seq::empty()
        }
    }
}

/// The path part of the target, before any `?`, normalized.
pub open spec fn head_path(s: Seq<char>) -> Seq<char> {
    norm_path(spec_split(head_target(s), '?')[0])
}

/// The query pairs of the target: the text after the first `?`, split on
/// `&`, each piece split at its first `=`; a missing value is empty.
pub open spec fn head_query(s: Seq<char>) -> Seq<(Seq<char>, Seq<char>)> {
    let tparts = spec_split(head_target(s), '?');
    if tparts.len() > 1 {
        query_pairs(tparts[1])
    } else {
        Seq::empty()
    }
}

/// Each `&`-separated piece becomes a pair; a piece without `=` keeps an
/// empty value.
pub open spec fn query_pairs(q: Seq<char>) -> Seq<(Seq<char>, Seq<char>)> {
    spec_split(q, '&').map_values(
        |piece: Seq<char>|
            (spec_split(piece, '=')[0], if spec_split(piece, '=').len() > 1 {
                spec_split(piece, '=')[1]
            } else {
                Seq::<char>::empty()
            }),
    )
}

/// The header pairs: every line after the first that splits on `": "`,
/// its name lower-cased, its value the piece between the first and any
/// second separator.  Lines without the separator are dropped.
pub open spec fn head_headers(s: Seq<char>) -> Seq<(Seq<char>, Seq<char>)> {
    if req_lines(s).len() == 0 {
        Seq::empty()
    } else {
        header_pairs_of(req_lines(s).skip(1))
    }
}

pub open spec fn header_pairs_of(lines: Seq<Seq<char>>) -> Seq<(Seq<char>, Seq<char>)>
    decreases lines.len(),
{
    if lines.len() == 0 {
        Seq::empty()
    } else {
        let rest = header_pairs_of(lines.skip(1));
        let parts = spec_split_str(lines[0], ": "@);
        if parts.len() >= 2 {
            seq![(lower_chars(parts[0]), parts[1])] + rest
        } else {
            rest
        }
    }
}

/// Builds request parameters from an accumulated header block: the verb,
/// the normalized path, the query pairs, the lower-cased headers and the
/// client address; the body starts out absent.
pub fn parse_request_head(head: &str, ip: &str) -> (r: RequestParameters)
    ensures
        r.request_type == method_of(head_method(head@)),
        r.path@ == head_path(head@),
        pairs_view(r.query@) == head_query(head@),
        pairs_view(r.headers@) == head_headers(head@),
        r.body is Empty,
        r.ip_address@ == ip@,
{
    let cs = str_to_chars(head);
    let raw_lines = split_chars(&cs, '\n');
    // Strip carriage returns and stop at the first blank line.
    let mut lines: Vec<Vec<char>> = Vec::new();
    let ghost stripped = spec_split(head@, '\n').map_values(|l: Seq<char>| strip_cr(l));
    let mut i: usize = 0;
    let mut stopped: bool = false;
    proof {
        assert(lines@.map_values(|p: Vec<char>| p@) =~= stripped.take(0));
        assert(stripped.skip(0) =~= stripped);
        assert(take_nonempty(stripped) =~= lines@.map_values(|p: Vec<char>| p@) + take_nonempty(
            stripped.skip(0),
        ));
    }
    while i < raw_lines.len() && !stopped
        invariant
            i <= raw_lines.len(),
            raw_lines@.map_values(|p: Vec<char>| p@) == spec_split(head@, '\n'),
            stripped == spec_split(head@, '\n').map_values(|l: Seq<char>| strip_cr(l)),
            !stopped ==> lines@.map_values(|p: Vec<char>| p@) == stripped.take(
                i as int,
            ) && take_nonempty(stripped) == lines@.map_values(|p: Vec<char>| p@)
                + take_nonempty(stripped.skip(i as int)),
            !stopped ==> forall|j: int| 0 <= j < i ==> (#[trigger] stripped[j]).len() > 0,
            stopped ==> lines@.map_values(|p: Vec<char>| p@) == take_nonempty(stripped),
        decreases raw_lines.len() - i,
    {
        let ghost rem = stripped.skip(i as int);
        proof {
            assert(rem[0] == stripped[i as int]);
            assert(rem.skip(1) =~= stripped.skip(i + 1));
        }
        let mut line = raw_lines[i].clone();
        proof {
            assert(line@ == spec_split(head@, '\n')[i as int]);
        }
        let n = line.len();
        if n > 0 && line[n - 1] == '\r' {
            proof {
                assert(line@.last() == line@[line@.len() - 1]);
            }
            line.pop();
        }
        proof {
            assert(line@ == stripped[i as int]);
        }
        if line.len() == 0 {
            stopped = true;
            proof {
                assert(take_nonempty(rem) =~= Seq::<Seq<char>>::empty());
                assert(lines@.map_values(|p: Vec<char>| p@) + Seq::<Seq<char>>::empty()
                    =~= lines@.map_values(|p: Vec<char>| p@));
            }
        } else {
            let ghost prev_lines = lines@;
            lines.push(line);
            proof {
                assert(lines@.map_values(|p: Vec<char>| p@) =~= stripped.take(i + 1));
                assert(take_nonempty(rem) =~= seq![rem[0]] + take_nonempty(rem.skip(1)));
                assert(lines@.map_values(|p: Vec<char>| p@) =~= prev_lines.map_values(
                    |p: Vec<char>| p@,
                ) + seq![rem[0]]);
                assert(take_nonempty(stripped) =~= lines@.map_values(|p: Vec<char>| p@)
                    + take_nonempty(stripped.skip(i + 1)));
            }
        }
        i = i + 1;
    }
    proof {
        if !stopped {
            assert(stripped.skip(i as int) =~= Seq::<Seq<char>>::empty());
            assert(take_nonempty(Seq::<Seq<char>>::empty()) =~= Seq::<Seq<char>>::empty());
            assert(lines@.map_values(|p: Vec<char>| p@) + Seq::<Seq<char>>::empty()
                =~= lines@.map_values(|p: Vec<char>| p@));
        }
        assert(lines@.map_values(|p: Vec<char>| p@) == req_lines(head@));
    }
    // Request line: verb and target.
    let (method_s, target) = if lines.len() > 0 {
        let toks = split_chars(&lines[0], ' ');
        proof {
            assert(toks@.map_values(|p: Vec<char>| p@) == spec_split(req_lines(head@)[0], ' '));
            crate::strutil::lemma_spec_split_len(req_lines(head@)[0], ' ');
        }
        let m = chars_to_string(&toks[0]);
        let t: Vec<char> = if toks.len() > 1 {
            toks[1].clone()
        } else {
            Vec::new()
        };
        proof {
            assert(m@ == head_method(head@));
            assert(t@ == head_target(head@));
        }
        (m, t)
    } else {
        let m = String::new();
        let t: Vec<char> = Vec::new();
        proof {
            assert(m@ == head_method(head@));
            assert(t@ == head_target(head@));
        }
        (m, t)
    };
    // Path and query.
    let tparts = split_chars(&target, '?');
    proof {
        assert(tparts@.map_values(|p: Vec<char>| p@) == spec_split(head_target(head@), '?'));
        crate::strutil::lemma_spec_split_len(head_target(head@), '?');
    }
    let raw_path = chars_to_string(&tparts[0]);
    let path = crate::routes::normalize_path(raw_path.as_str());
    let mut query: Vec<(String, String)> = Vec::new();
    if tparts.len() > 1 {
        let qpieces = split_chars(&tparts[1], '&');
        let ghost qp = query_pairs(tparts@[1]@);
        proof {
            assert(qpieces@.map_values(|p: Vec<char>| p@) == spec_split(tparts@[1]@, '&'));
        }
        let mut j: usize = 0;
        proof {
            assert(pairs_view(query@) =~= qp.take(0));
        }
        while j < qpieces.len()
            invariant
                j <= qpieces.len(),
                qpieces@.map_values(|p: Vec<char>| p@) == spec_split(tparts@[1]@, '&'),
                qp == query_pairs(tparts@[1]@),
                pairs_view(query@) == qp.take(j as int),
            decreases qpieces.len() - j,
        {
            let ghost piece = spec_split(tparts@[1]@, '&')[j as int];
            proof {
                assert(qpieces@[j as int]@ == piece);
            }
            let parts = split_chars(&qpieces[j], '=');
            proof {
                assert(parts@.map_values(|p: Vec<char>| p@) == spec_split(piece, '='));
                crate::strutil::lemma_spec_split_len(piece, '=');
            }
            let kq = chars_to_string(&parts[0]);
            let vq: String = if parts.len() > 1 {
                chars_to_string(&parts[1])
            } else {
                String::new()
            };
            let ghost prev_q = query@;
            let ghost kqv = kq@;
            let ghost vqv = vq@;
            query.push((kq, vq));
            proof {
                let sp = spec_split(piece, '=');
                assert(kqv == sp[0]);
                assert(qp[j as int] == (sp[0], if sp.len() > 1 {
                    sp[1]
                } else {
                    Seq::<char>::empty()
                }));
                assert(qp[j as int] == (kqv, vqv));
                assert(prev_q.len() == j) by {
                    assert(pairs_view(prev_q).len() == qp.take(j as int).len());
                }
                assert(query@.len() == j + 1);
                assert forall|l: int| 0 <= l < j implies query@[l] == prev_q[l] by {
                    assert(query@ == prev_q.push((query@[j as int])));
                }
                assert forall|l: int|
                    0 <= l < j implies #[trigger] pairs_view(query@)[l] == pairs_view(
                    prev_q,
                )[l] by {
                    assert(query@[l] == prev_q[l]);
                }
                assert(pairs_view(query@)[j as int] == (kqv, vqv));
                assert(pairs_view(query@) =~= qp.take(j + 1));
            }
            j = j + 1;
        }
        proof {
            assert(qp.take(qp.len() as int) =~= qp);
            assert(pairs_view(query@) == head_query(head@));
        }
    } else {
        proof {
            assert(pairs_view(query@) =~= Seq::<(Seq<char>, Seq<char>)>::empty());
            assert(pairs_view(query@) == head_query(head@));
        }
    }
    // Headers: the remaining lines.
    let mut headers: Vec<(String, String)> = Vec::new();
    let ghost hlines = if req_lines(head@).len() == 0 {
        Seq::<Seq<char>>::empty()
    } else {
        req_lines(head@).skip(1)
    };
    let mut j: usize = 1;
    proof {
        assert(header_pairs_of(Seq::<Seq<char>>::empty()) =~= Seq::<(Seq<char>, Seq<char>)>::empty());
        assert(header_pairs_of(hlines) == head_headers(head@));
        assert(pairs_view(headers@) =~= Seq::<(Seq<char>, Seq<char>)>::empty());
        assert(hlines.skip(0) =~= hlines);
        assert(header_pairs_of(hlines) =~= pairs_view(headers@) + header_pairs_of(hlines.skip(0)));
    }
    let sepv = {
        let mut sv: Vec<char> = Vec::new();
        sv.push(':');
        sv.push(' ');
        proof {
            assert(sv@ =~= seq![':', ' ']);
            assert(": "@ =~= seq![':', ' ']) by {
                reveal_strlit(": ");
            }
        }
        sv
    };
    while j < lines.len()
        invariant
            1 <= j,
            j <= lines.len() || (lines@.len() == 0 && j == 1),
            sepv@ == ": "@,
            ": "@ == seq![':', ' '],
            hlines == (if req_lines(head@).len() == 0 {
                Seq::<Seq<char>>::empty()
            } else {
                req_lines(head@).skip(1)
            }),
            lines@.map_values(|p: Vec<char>| p@) == req_lines(head@),
            header_pairs_of(hlines) == pairs_view(headers@) + header_pairs_of(
                hlines.skip(j - 1),
            ),
        decreases lines.len() - j,
    {
        let ghost rem = hlines.skip(j - 1);
        proof {
            assert(rem[0] == hlines[j - 1]);
            assert(hlines[j - 1] == req_lines(head@)[j as int]);
            assert(rem.skip(1) =~= hlines.skip(j as int));
        }
        let parts = split_str_chars(&lines[j], &sepv);
        proof {
            assert(parts@.map_values(|p: Vec<char>| p@) == spec_split_str(rem[0], ": "@));
        }
        if parts.len() >= 2 {
            let lk = lower_chars_exec(&parts[0]);
            let ks = chars_to_string(&lk);
            let vs = chars_to_string(&parts[1]);
            let ghost prev_h = headers@;
            let ghost ksv = ks@;
            let ghost vsv = vs@;
            headers.push((ks, vs));
            proof {
                assert(header_pairs_of(rem) =~= seq![(lower_chars(spec_split_str(rem[0], ": "@)[0]),
                spec_split_str(rem[0], ": "@)[1])] + header_pairs_of(rem.skip(1)));
                assert(pairs_view(headers@) =~= prev_h.map_values(
                    |p: (String, String)| (p.0@, p.1@),
                ) + seq![(ksv, vsv)]);
                assert(header_pairs_of(hlines) =~= pairs_view(headers@) + header_pairs_of(
                    hlines.skip(j as int),
                ));
            }
        } else {
            proof {
                assert(header_pairs_of(rem) =~= header_pairs_of(rem.skip(1)));
            }
        }
        j = j + 1;
    }
    proof {
        assert(hlines.skip(j - 1) =~= Seq::<Seq<char>>::empty());
        assert(header_pairs_of(Seq::<Seq<char>>::empty()) =~= Seq::<(Seq<char>, Seq<char>)>::empty());
        assert(pairs_view(headers@) + Seq::<(Seq<char>, Seq<char>)>::empty() =~= pairs_view(
            headers@,
        ));
    }
    RequestParameters {
        request_type: HttpMethod::type_for_method(method_s.as_str()),
        path,
        query,
        headers,
        body: BodyContents::Empty,
        ip_address: ip.to_owned(),
    }
}

// ---------------------------------------------------------------------------
// Body length and classification
// ---------------------------------------------------------------------------
/// The declared body length: the `content-length` header parsed as a
/// decimal number, zero when absent or malformed.
pub open spec fn content_length_of(headers: Seq<(Seq<char>, Seq<char>)>) -> int {
    match assoc_find(headers, "content-length"@) {
        Some(v) => if is_uint_chars(v) && dec_val(v) <= usize::MAX {
            dec_val(v)
        } else {
            0
        },
        Option::None => 0,
    }
}

/// Reads the declared body length off a request's headers.
pub fn content_length(req: &RequestParameters) -> (r: usize)
    ensures
        r == content_length_of(pairs_view(req.headers@)),
{
    match req.header_value("content-length") {
        Some(v) => {
            let cs = str_to_chars(v.as_str());
            match parse_usize_chars(&cs) {
                Some(n) => n,
                Option::None => 0,
            }
        }
        Option::None => 0,
    }
}

/// The essence of a declared content type: the text before any `;`, then
/// before any space.
pub open spec fn mime_essence(ct: Seq<char>) -> Seq<char> {
    spec_split(spec_split(ct, ';')[0], ' ')[0]
}

/// The classification a finished request's body must satisfy, given the
/// bytes that followed the header block: the declared content type's
/// essence decides, an absent declaration classifying as raw bytes.
pub open spec fn body_classified(
    headers: Seq<(Seq<char>, Seq<char>)>,
    content: Seq<u8>,
    body: BodyContents,
) -> bool {
    match assoc_find(headers, "content-type"@) {
        Some(ct) => classified(mime_essence(ct), content, body),
        Option::None => classified(Seq::empty(), content, body),
    }
}

/// Attaches body bytes to a framed request, classifying them by the
/// request's declared content type.
pub fn attach_body(req: &mut RequestParameters, content: Vec<u8>)
    ensures
        body_classified(pairs_view(old(req).headers@), content@, final(req).body),
        final(req).request_type == old(req).request_type,
        final(req).path == old(req).path,
        final(req).query == old(req).query,
        final(req).headers == old(req).headers,
        final(req).ip_address == old(req).ip_address,
{
    let ct = match req.header_value("content-type") {
        Some(v) => {
            let cs = str_to_chars(v.as_str());
            let semi = split_chars(&cs, ';');
            proof {
                crate::strutil::lemma_spec_split_len(v@, ';');
            }
            let sp = split_chars(&semi[0], ' ');
            proof {
                crate::strutil::lemma_spec_split_len(spec_split(v@, ';')[0], ' ');
            }
            chars_to_string(&sp[0])
        }
        Option::None => String::new(),
    };
    req.body = BodyContents::type_from_mime(ct.as_str(), content);
}

// ---------------------------------------------------------------------------
// Dispatch outcomes
// ---------------------------------------------------------------------------
/// The wire bytes of a response: the status line and header block,
/// then the body.
pub fn respond_bytes(response: &Response) -> (r: Vec<u8>)
    ensures
        r@ == vstd::utf8::encode_utf8(response.header_block_chars()) + response.data@,
{
    let mut bytes = response.get_header_data();
    let ghost head = bytes@;
    let mut i: usize = 0;
    while i < response.data.len()
        invariant
            i <= response.data.len(),
            bytes@ == head + response.data@.subrange(0, i as int),
        decreases response.data.len() - i,
    {
        bytes.push(response.data[i]);
        proof {
            assert(bytes@ =~= head + response.data@.subrange(0, i + 1));
        }
        i = i + 1;
    }
    proof {
        assert(response.data@.subrange(0, i as int) =~= response.data@);
    }
    bytes
}

/// The automatic reply to a CORS preflight: an empty body with the
/// configured cross-origin headers.
pub fn preflight_response(origin: &str, headers: &str) -> (r: Response)
    ensures
        r.wf(),
        r.data@ == Seq::<u8>::empty(),
        r.status == ResponseStatusCode::Okay,
        r.headers_map()["Access-Control-Allow-Origin"@] == origin@,
        r.headers_map()["Access-Control-Allow-Headers"@] == headers@,
        r.headers_map().contains_key("Access-Control-Allow-Methods"@),
    {
    let mut r = Response::data(Vec::new());
    r.apply_cors(origin, headers);
    proof {
        reveal_strlit("Access-Control-Allow-Origin");
        reveal_strlit("Access-Control-Allow-Headers");
        reveal_strlit("Access-Control-Allow-Methods");
        assert("Access-Control-Allow-Origin"@.len() == 27);
        assert("Access-Control-Allow-Headers"@.len() == 28);
        assert("Access-Control-Allow-Methods"@.len() == 28);
        assert("Access-Control-Allow-Headers"@[27] == 's');
        assert("Access-Control-Allow-Methods"@[27] == 's');
        assert("Access-Control-Allow-Headers"@[22] == 'e');
        assert("Access-Control-Allow-Methods"@[22] == 'e');
        assert("Access-Control-Allow-Headers"@[21] == 'H');
        assert("Access-Control-Allow-Methods"@[21] == 'M');
        assert("Access-Control-Allow-Headers"@ != "Access-Control-Allow-Methods"@);
    }
    r
}

/// The built-in reply for a request no route matched.
pub fn default_error_response() -> (r: Response)
    ensures
        r.wf(),
        r.data@ == vstd::utf8::encode_utf8("404 not found"@),
        r.status == ResponseStatusCode::NotFound,
{
    proof {
        reveal_strlit("404 not found");
    }
    Response::string("404 not found").status(ResponseStatusCode::NotFound)
}

/// Converts a handler's outcome into the response to send: a successful
/// reply as it stands, an error through its envelope.
pub fn handler_reply(result: Result<Response, RouteError>) -> (r: Response)
    ensures
        match result {
            Ok(resp) => r == resp,
            Err(e) => r.wf() && r.status == e.status_code && (!e.override_output ==> r.data@
                == vstd::utf8::encode_utf8(
                envelope_chars(status_code_of(e.status_code) as int, e.message@),
            )) && (e.override_output ==> r.data@ == vstd::utf8::encode_utf8(e.message@)),
        },
{
    match result {
        Ok(resp) => resp,
        Err(e) => e.to_response(),
    }
}

/// The reply when no pooled database connection could be acquired.
pub fn pool_failure_response() -> (r: Response)
    ensures
        r.wf(),
        r.status == ResponseStatusCode::InternalServerError,
        r.data@ == vstd::utf8::encode_utf8(
            envelope_chars(500, "Cannot connect to database."@),
        ),
{
    let e = RouteError::server_error("Cannot connect to database.");
    e.to_response()
}

/// Maps a JSON retrieval failure onto the error a handler propagates: a
/// 400 reply naming the key, and for type failures the expected type.
pub fn route_error_from_json(val: JsonParseError) -> (r: RouteError)
    ensures
        r.status_code == ResponseStatusCode::BadRequest,
        !r.override_output,
        match val {
            JsonParseError::NotFound(k) => r.message@ == "Key "@ + k@ + " not found"@,
            JsonParseError::InvalidType(k, t) => r.message@ == "Key "@ + k@ + " expected type "@
                + t@,
        },
{
    match val {
        JsonParseError::NotFound(k) => {
            let mut out: Vec<char> = Vec::new();
            let pre = str_to_chars("Key ");
            append_chars(&mut out, &pre);
            let kc = str_to_chars(k.as_str());
            append_chars(&mut out, &kc);
            let post = str_to_chars(" not found");
            append_chars(&mut out, &post);
            let msg = chars_to_string(&out);
            RouteError::bad_request(msg.as_str())
        }
        JsonParseError::InvalidType(k, t) => {
            let mut out: Vec<char> = Vec::new();
            let pre = str_to_chars("Key ");
            append_chars(&mut out, &pre);
            let kc = str_to_chars(k.as_str());
            append_chars(&mut out, &kc);
            let mid = str_to_chars(" expected type ");
            append_chars(&mut out, &mid);
            let tc = str_to_chars(t);
            append_chars(&mut out, &tc);
            let msg = chars_to_string(&out);
            RouteError::bad_request(msg.as_str())
        }
    }
}

} // verus!
