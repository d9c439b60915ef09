//! Just enough HTTP/1.1 to serve a local single-user UI: request targets are split into a
//! percent-decoded path and query parameters, and responses are serialized with their headers.

use vstd::prelude::*;
use vstd::utf8::{decode_utf8, encode_utf8, valid_utf8};
use crate::render::{split_exec, split_on, parts_view};
use crate::text::{chars_of, copy_range, find_char, find_char_from, lemma_find_char_from, push_str, string_from};
use crate::view::{decimal, push_decimal};

verus! {

// ---------------------------------------------------------------------------------------------
// Query parameters.
// ---------------------------------------------------------------------------------------------

/// Query parameters in the order they were added; a later value for a key replaces an
/// earlier one.
#[derive(Debug, Clone, PartialEq, Eq)]
pub struct QueryParams {
    /// The `(key, value)` pairs, in insertion order.
    pub pairs: Vec<(String, String)>,
}

pub open spec fn pairs_view(v: Seq<(String, String)>) -> Seq<(Seq<char>, Seq<char>)> {
    v.map_values(|p: (String, String)| (p.0@, p.1@))
}

/// The value last recorded for `key`.
pub open spec fn lookup_last(ps: Seq<(Seq<char>, Seq<char>)>, key: Seq<char>) -> Option<Seq<char>>
    decreases ps.len(),
{
    if ps.len() == 0 {
        None
    } else if ps.last().0 == key {
        Some(ps.last().1)
    } else {
        lookup_last(ps.drop_last(), key)
    }
}

impl QueryParams {
    /// No parameters.
    pub fn new() -> (r: QueryParams)
        ensures
            r.pairs@.len() == 0,
    {
        QueryParams { pairs: Vec::new() }
    }

    /// Record `value` for `key`, replacing any earlier value.
    pub fn insert(&mut self, key: String, value: String)
        ensures
            pairs_view(final(self).pairs@) == pairs_view(old(self).pairs@).push((key@, value@)),
    {
        let ghost before = pairs_view(self.pairs@);
        self.pairs.push((key, value));
        assert(pairs_view(self.pairs@) =~= before.push((key@, value@)));
    }

    /// The value for `key`, if any.
    pub fn get(&self, key: &str) -> (r: Option<&String>)
        ensures
            match r {
                Some(v) => lookup_last(pairs_view(self.pairs@), key@) == Some(v@),
                None => lookup_last(pairs_view(self.pairs@), key@) is None,
            },
    {
        let mut i: usize = self.pairs.len();
        assert(pairs_view(self.pairs@).take(i as int) =~= pairs_view(self.pairs@));
        while i > 0
            invariant
                i <= self.pairs@.len(),
                lookup_last(pairs_view(self.pairs@), key@) == lookup_last(
                    pairs_view(self.pairs@).take(i as int),
                    key@,
                ),
            decreases i,
        {
            let ghost t = pairs_view(self.pairs@).take(i as int);
            assert(t.last() == (self.pairs@[i - 1].0@, self.pairs@[i - 1].1@));
            assert(t.drop_last() =~= pairs_view(self.pairs@).take(i - 1));
            if crate::text::str_eq(self.pairs[i - 1].0.as_str(), key) {
                return Some(&self.pairs[i - 1].1);
            }
            i -= 1;
        }
        None
    }
}

/// A parsed HTTP request line (headers and body are not kept: the UI is read-only GET).
#[derive(Debug, Clone, PartialEq, Eq)]
pub struct HttpRequest {
    /// HTTP method (e.g. `GET`).
    pub method: String,
    /// Path without the query string (percent-decoded).
    pub path: String,
    /// Parsed query parameters (percent-decoded).
    pub query: QueryParams,
}

// ---------------------------------------------------------------------------------------------
// Percent-decoding.
// ---------------------------------------------------------------------------------------------

/// The value of an ASCII hex digit.
pub open spec fn hex_value(b: u8) -> Option<u8> {
    if 48 <= b && b <= 57 {
        Some((b - 48) as u8)
    } else if 97 <= b && b <= 102 {
        Some((b - 97 + 10) as u8)
    } else if 65 <= b && b <= 70 {
        Some((b - 65 + 10) as u8)
    } else {
        None
    }
}

/// `b` with each `%XY` (two hex digits) replaced by that byte and each `+` by a space.
pub open spec fn pct_bytes(b: Seq<u8>) -> Seq<u8>
    decreases b.len(),
{
    if b.len() == 0 {
        seq![]
    } else if b[0] == 37 && 2 < b.len() && hex_value(b[1]) is Some && hex_value(b[2]) is Some {
        seq![(hex_value(b[1])->0 * 16 + hex_value(b[2])->0) as u8] + pct_bytes(b.skip(3))
    } else if b[0] == 43 {
        seq![32u8] + pct_bytes(b.drop_first())
    } else {
        seq![b[0]] + pct_bytes(b.drop_first())
    }
}

/// The text that `String::from_utf8_lossy` makes of `b`: invalid sequences become U+FFFD.
pub uninterp spec fn utf8_lossy(b: Seq<u8>) -> Seq<char>;

/// Calls `String::from_utf8_lossy`. Claimed: the result is the named lossy decoding of the
/// bytes, and valid UTF-8 decodes without loss (as the std documentation states).
#[verifier::external_body]
fn lossy_string(b: &Vec<u8>) -> (r: String)
    ensures
        r@ == utf8_lossy(b@),
        valid_utf8(b@) ==> r@ == decode_utf8(b@),
{
    String::from_utf8_lossy(b.as_slice()).into_owned()
}

fn hex_val(b: u8) -> (r: Option<u8>)
    ensures
        r == hex_value(b),
{
    if 48 <= b && b <= 57 {
        Some(b - 48)
    } else if 97 <= b && b <= 102 {
        Some(b - 97 + 10)
    } else if 65 <= b && b <= 70 {
        Some(b - 65 + 10)
    } else {
        None
    }
}

/// The percent-decoded text of `s`: the decoded bytes read as UTF-8 when they are valid
/// UTF-8, else their lossy decoding.
pub open spec fn percent_decoded(s: Seq<char>) -> Seq<char> {
    let b = pct_bytes(encode_utf8(s));
    if valid_utf8(b) {
        decode_utf8(b)
    } else {
        utf8_lossy(b)
    }
}

/// Percent-decode a URL component (`+` also becomes a space).
pub fn percent_decode(s: &str) -> (r: String)
    ensures
        r@ == percent_decoded(s@),
{
    let bytes = s.as_bytes();
    let mut out: Vec<u8> = Vec::new();
    let mut i: usize = 0;
    assert(bytes@.skip(0) =~= bytes@);
    while i < bytes.len()
        invariant
            i <= bytes@.len(),
            bytes@ == encode_utf8(s@),
            out@ + pct_bytes(bytes@.skip(i as int)) == pct_bytes(bytes@),
        decreases bytes.len() - i,
    {
        let ghost rest = bytes@.skip(i as int);
        let ghost before = out@;
        assert(rest[0] == bytes@[i as int]);
        if bytes[i] == 37 && bytes.len() - i > 2 {
            assert(rest[1] == bytes@[i + 1]);
            assert(rest[2] == bytes@[i + 2]);
            let hi = hex_val(bytes[i + 1]);
            let lo = hex_val(bytes[i + 2]);
            match (hi, lo) {
                (Some(h), Some(l)) => {
                    out.push(h * 16 + l);
                    assert(rest.skip(3) =~= bytes@.skip(i + 3));
                    assert(out@ + pct_bytes(bytes@.skip(i + 3)) =~= before + pct_bytes(rest));
                    i += 3;
                },
                _ => {
                    out.push(bytes[i]);
                    assert(rest.drop_first() =~= bytes@.skip(i + 1));
                    assert(out@ + pct_bytes(bytes@.skip(i + 1)) =~= before + pct_bytes(rest));
                    i += 1;
                },
            }
        } else if bytes[i] == 43 {
            out.push(32);
            assert(rest.drop_first() =~= bytes@.skip(i + 1));
            assert(out@ + pct_bytes(bytes@.skip(i + 1)) =~= before + pct_bytes(rest));
            i += 1;
        } else {
            out.push(bytes[i]);
            assert(rest.drop_first() =~= bytes@.skip(i + 1));
            assert(out@ + pct_bytes(bytes@.skip(i + 1)) =~= before + pct_bytes(rest));
            i += 1;
        }
    }
    assert(bytes@.skip(i as int) =~= Seq::<u8>::empty());
    assert(out@ + Seq::<u8>::empty() =~= out@);
    lossy_string(&out)
}

fn decode_chars(v: &Vec<char>) -> (r: String)
    ensures
        r@ == percent_decoded(v@),
{
    let s = string_from(v);
    percent_decode(s.as_str())
}

// ---------------------------------------------------------------------------------------------
// Request targets.
// ---------------------------------------------------------------------------------------------

/// The part of a target before its first `?`.
pub open spec fn target_path_part(t: Seq<char>) -> Seq<char> {
    t.take(find_char_from(t, '?', 0))
}

/// The part of a target after its first `?` (empty when there is none).
pub open spec fn target_query_part(t: Seq<char>) -> Seq<char> {
    if find_char_from(t, '?', 0) < t.len() {
        t.skip(find_char_from(t, '?', 0) + 1)
    } else {
        seq![]
    }
}

/// A `key=value` piece, split at its first `=` and percent-decoded (a missing value is empty).
pub open spec fn query_pair(p: Seq<char>) -> (Seq<char>, Seq<char>) {
    let e = find_char_from(p, '=', 0);
    (percent_decoded(p.take(e)), percent_decoded(if e < p.len() {
        p.skip(e + 1)
    } else {
        seq![]
    }))
}

/// The parameters of the `&`-separated pieces, empty pieces skipped.
pub open spec fn query_pairs(pieces: Seq<Seq<char>>) -> Seq<(Seq<char>, Seq<char>)>
    decreases pieces.len(),
{
    if pieces.len() == 0 {
        seq![]
    } else {
        query_pairs(pieces.drop_last()) + if pieces.last().len() == 0 {
            seq![]
        } else {
            seq![query_pair(pieces.last())]
        }
    }
}

/// Split the non-empty `pair` at its first `=` into decoded key and value.
fn parse_pair(p: &Vec<char>) -> (r: (String, String))
    ensures
        (r.0@, r.1@) == query_pair(p@),
{
    let e = find_char(p, '=', 0, p.len());
    proof {
        lemma_find_char_from(p@, '=', 0);
    }
    let k = copy_range(p, 0, e);
    let v = if e < p.len() {
        copy_range(p, e + 1, p.len())
    } else {
        Vec::new()
    };
    assert(k@ =~= p@.take(e as int));
    proof {
        if e < p@.len() {
            assert(v@ =~= p@.skip(e + 1));
        } else {
            assert(v@ =~= Seq::<char>::empty());
        }
    }
    (decode_chars(&k), decode_chars(&v))
}

/// Parse the path and query string of a request target.
pub fn parse_target(target: &str) -> (r: (String, QueryParams))
    ensures
        r.0@ == percent_decoded(target_path_part(target@)),
        pairs_view(r.1.pairs@) == query_pairs(split_on(target_query_part(target@), '&')),
{
    let t = chars_of(target);
    let q = find_char(&t, '?', 0, t.len());
    proof {
        lemma_find_char_from(t@, '?', 0);
    }
    let path = copy_range(&t, 0, q);
    assert(path@ =~= target_path_part(t@));
    let query = if q < t.len() {
        copy_range(&t, q + 1, t.len())
    } else {
        Vec::new()
    };
    proof {
        if q < t@.len() {
            assert(query@ =~= t@.skip(q + 1));
        } else {
            assert(query@ =~= Seq::<char>::empty());
        }
    }
    let pieces = split_exec(&query, '&');
    let ghost ps = split_on(query@, '&');
    let mut params = QueryParams::new();
    let mut i: usize = 0;
    assert(pairs_view(params.pairs@) =~= Seq::<(Seq<char>, Seq<char>)>::empty());
    while i < pieces.len()
        invariant
            i <= pieces@.len(),
            parts_view(pieces@) == ps,
            pairs_view(params.pairs@) == query_pairs(ps.take(i as int)),
        decreases pieces.len() - i,
    {
        let ghost before = pairs_view(params.pairs@);
        let ghost tk = ps.take(i + 1);
        assert(tk.drop_last() =~= ps.take(i as int));
        assert(tk.last() == pieces@[i as int]@);
        if pieces[i].len() > 0 {
            let (k, v) = parse_pair(&pieces[i]);
            params.insert(k, v);
        }
        assert(pairs_view(params.pairs@) =~= query_pairs(tk));
        i += 1;
    }
    assert(ps.take(pieces@.len() as int) =~= ps);
    (decode_chars(&path), params)
}

// ---------------------------------------------------------------------------------------------
// Responses.
// ---------------------------------------------------------------------------------------------

/// An HTTP response to write back.
pub struct HttpResponse {
    /// Status code.
    pub status: u16,
    /// Reason phrase.
    pub reason: &'static str,
    /// Content-Type header value.
    pub content_type: &'static str,
    /// Body bytes.
    pub body: Vec<u8>,
    /// Redirect target for 3xx responses.
    pub location: Option<String>,
}

/// The content type of every HTML page served.
pub open spec fn html_type() -> Seq<char> {
    "text/html; charset=utf-8"@
}

/// The header block of a response, through the blank line that ends it.
pub open spec fn head_text(r: HttpResponse) -> Seq<char> {
    "HTTP/1.1 "@ + decimal(r.status as nat) + " "@ + r.reason@ + "\r\nContent-Type: "@
        + r.content_type@ + "\r\nContent-Length: "@ + decimal(r.body@.len())
        + "\r\nConnection: close\r\n"@ + (match r.location {
        Some(loc) => "Location: "@ + loc@ + "\r\n"@,
        None => seq![],
    }) + "\r\n"@
}

/// The body of a redirect page: a link to the location.
pub open spec fn redirect_body(location: Seq<char>) -> Seq<char> {
    "<a href=\""@ + location + "\">"@ + location + "</a>"@
}

fn utf8_bytes(s: &Vec<char>) -> (r: Vec<u8>)
    ensures
        r@ == encode_utf8(s@),
{
    let st = string_from(s);
    let b = st.as_str().as_bytes();
    vstd::slice::slice_to_vec(b)
}

impl HttpResponse {
    /// A `200 OK` HTML response.
    pub fn html(body: &str) -> (r: HttpResponse)
        ensures
            r.status == 200,
            r.reason@ == "OK"@,
            r.content_type@ == html_type(),
            r.body@ == encode_utf8(body@),
            r.location is None,
    {
        HttpResponse {
            status: 200,
            reason: "OK",
            content_type: "text/html; charset=utf-8",
            body: utf8_bytes(&chars_of(body)),
            location: None,
        }
    }

    /// A `404 Not Found` HTML response.
    pub fn not_found(body: &str) -> (r: HttpResponse)
        ensures
            r.status == 404,
            r.reason@ == "Not Found"@,
            r.content_type@ == html_type(),
            r.body@ == encode_utf8(body@),
            r.location is None,
    {
        HttpResponse {
            status: 404,
            reason: "Not Found",
            content_type: "text/html; charset=utf-8",
            body: utf8_bytes(&chars_of(body)),
            location: None,
        }
    }

    /// A `302 Found` redirect to `location`.
    pub fn redirect(location: &str) -> (r: HttpResponse)
        ensures
            r.status == 302,
            r.reason@ == "Found"@,
            r.content_type@ == html_type(),
            r.body@ == encode_utf8(redirect_body(location@)),
            r.location matches Some(l) && l@ == location@,
    {
        let mut b: Vec<char> = Vec::new();
        push_str(&mut b, "<a href=\"");
        push_str(&mut b, location);
        push_str(&mut b, "\">");
        push_str(&mut b, location);
        push_str(&mut b, "</a>");
        HttpResponse {
            status: 302,
            reason: "Found",
            content_type: "text/html; charset=utf-8",
            body: utf8_bytes(&b),
            location: Some(location.to_owned()),
        }
    }

    /// Serialize the full HTTP/1.1 response: the header block, then the body.
    pub fn to_bytes(&self) -> (r: Vec<u8>)
        ensures
            r@ == encode_utf8(head_text(*self)) + self.body@,
    {
        let mut head: Vec<char> = Vec::new();
        push_str(&mut head, "HTTP/1.1 ");
        push_decimal(&mut head, self.status as usize);
        push_str(&mut head, " ");
        push_str(&mut head, self.reason);
        push_str(&mut head, "\r\nContent-Type: ");
        push_str(&mut head, self.content_type);
        push_str(&mut head, "\r\nContent-Length: ");
        push_decimal(&mut head, self.body.len());
        push_str(&mut head, "\r\nConnection: close\r\n");
        if let Some(loc) = &self.location {
            push_str(&mut head, "Location: ");
            push_str(&mut head, loc.as_str());
            push_str(&mut head, "\r\n");
        }
        push_str(&mut head, "\r\n");
        assert(head@ =~= head_text(*self));
        let mut out = utf8_bytes(&head);
        let ghost h = out@;
        let mut i: usize = 0;
        while i < self.body.len()
            invariant
                i <= self.body@.len(),
                out@ == h + self.body@.take(i as int),
            decreases self.body.len() - i,
        {
            out.push(self.body[i]);
            assert(out@ =~= h + self.body@.take(i + 1));
            i += 1;
        }
        assert(self.body@.take(self.body@.len() as int) =~= self.body@);
        out
    }
}

// ---------------------------------------------------------------------------------------------
// What percent-decoding keeps and what it replaces.
// ---------------------------------------------------------------------------------------------

/// Whether `b` holds neither `%` nor `+`.
pub open spec fn no_escapes(b: Seq<u8>) -> bool {
    forall|k: int| 0 <= k < b.len() ==> #[trigger] b[k] != 37 && b[k] != 43
}

/// Bytes with no `%` and no `+` pass through decoding unchanged, whatever follows them.
pub proof fn lemma_plain_bytes_kept(x: Seq<u8>, y: Seq<u8>)
    requires
        no_escapes(x),
    ensures
        pct_bytes(x + y) == x + pct_bytes(y),
    decreases x.len(),
{
    if x.len() > 0 {
        let r = x.drop_first();
        assert(no_escapes(r)) by {
            assert forall|k: int| 0 <= k < r.len() implies #[trigger] r[k] != 37 && r[k] != 43 by {
                assert(r[k] == x[k + 1]);
            }
        }
        lemma_plain_bytes_kept(r, y);
        assert((x + y)[0] == x[0]);
        assert((x + y).drop_first() =~= r + y);
        assert(seq![x[0]] + (r + pct_bytes(y)) =~= x + pct_bytes(y));
    } else {
        assert(x + y =~= y);
        assert(x + pct_bytes(y) =~= pct_bytes(y));
    }
}

/// `%XY` with two hex digits (either case) becomes the one byte they spell, `+` becomes a
/// space, and decoding then goes on with what follows.
pub proof fn lemma_escapes_replaced(h: u8, l: u8, y: Seq<u8>)
    ensures
        hex_value(h) is Some && hex_value(l) is Some ==> pct_bytes(seq![37u8, h, l] + y) == seq![
            (hex_value(h)->0 * 16 + hex_value(l)->0) as u8,
        ] + pct_bytes(y),
        pct_bytes(seq![43u8] + y) == seq![32u8] + pct_bytes(y),
{
    let e = seq![37u8, h, l] + y;
    assert(e[0] == 37 && e[1] == h && e[2] == l);
    assert(e.skip(3) =~= y);
    let p = seq![43u8] + y;
    assert(p[0] == 43);
    assert(p.drop_first() =~= y);
}

} // verus!
