//! HTTP responses: building them, writing them as text and reading them back.

use vstd::prelude::*;
use vstd::utf8::encode_utf8;
use crate::decimal::{decimal, decimal_string, is_digit, lemma_decimal_digits};
use crate::client::no_whitespace;
use crate::text::{
    crlf, in_class, is_ws, join_spec, lemma_join_split, lemma_non_empty_concat,
    lemma_split_concat, lemma_split_crlf_concat, lemma_split_none, lemma_split_pat_nonempty,
    find_spec, lemma_find_first, no_crlf, occurs_at,
    keep_non_empty, non_empty, split_class, split_pat, split_pat_spec, split_spec, splitn2,
    splitn2_spec, str_eq, views, CharClass,
};

verus! {

/// An HTTP response. Its header lines are kept in order; a key occurs at
/// most once where the response was built by [`HttpResponse::new`] or
/// [`HttpResponse::from_str`].
#[derive(Debug, PartialEq, Clone)]
pub struct HttpResponse<'a> {
    pub version: &'a str,
    pub status_code: &'a str,
    pub status_text: &'a str,
    pub headers: Option<Vec<(&'a str, &'a str)>>,
    pub body: Option<String>,
}

/// The contents of a response as plain values.
pub struct ResponseView {
    pub version: Seq<char>,
    pub status_code: Seq<char>,
    pub status_text: Seq<char>,
    pub headers: Option<Seq<(Seq<char>, Seq<char>)>>,
    pub body: Option<Seq<char>>,
}

/// The views of header pairs.
pub open spec fn header_views(hs: Seq<(&str, &str)>) -> Seq<(Seq<char>, Seq<char>)> {
    hs.map_values(|h: (&str, &str)| (h.0@, h.1@))
}

impl<'a> View for HttpResponse<'a> {
    type V = ResponseView;

    open spec fn view(&self) -> ResponseView {
        ResponseView {
            version: self.version@,
            status_code: self.status_code@,
            status_text: self.status_text@,
            headers: match self.headers {
                Some(h) => Some(header_views(h@)),
                None => None,
            },
            body: match self.body {
                Some(b) => Some(b@),
                None => None,
            },
        }
    }
}

/// The reason phrase that [`HttpResponse::new`] gives to a status code.
pub open spec fn status_text_of(code: Seq<char>) -> Seq<char> {
    if code == "200"@ {
        "OK"@
    } else if code == "400"@ {
        "Bad Request"@
    } else if code == "404"@ {
        "Not Found"@
    } else if code == "500"@ {
        "Internal Server Error"@
    } else {
        "Not Found"@
    }
}

/// The response that [`HttpResponse::new`] builds: version `HTTP/1.1`, the
/// status code with its reason phrase, the headers (`Content-Type:
/// text/html` where none are given) and the body.
pub open spec fn new_response(
    status_code: Seq<char>,
    headers: Option<Seq<(Seq<char>, Seq<char>)>>,
    body: Option<Seq<char>>,
) -> ResponseView {
    ResponseView {
        version: "HTTP/1.1"@,
        status_code: status_code,
        status_text: status_text_of(status_code),
        headers: match headers {
            Some(h) => Some(h),
            None => Some(seq![("Content-Type"@, "text/html"@)]),
        },
        body: body,
    }
}

/// The header lines `key:value\r\n` of `hs`, in order.
pub open spec fn headers_text(hs: Seq<(Seq<char>, Seq<char>)>) -> Seq<char>
    decreases hs.len(),
{
    if hs.len() == 0 {
        Seq::empty()
    } else {
        headers_text(hs.drop_last()) + hs.last().0 + seq![':'] + hs.last().1 + seq!['\r', '\n']
    }
}

/// The text of a response: status line, header lines, a `Content-Length`
/// line with the body's length in UTF-8 bytes, an empty line and the body.
/// Absent headers are written as none and an absent body as empty.
pub open spec fn response_text(r: ResponseView) -> Seq<char> {
    let hs = match r.headers {
        Some(h) => h,
        None => Seq::empty(),
    };
    let b = match r.body {
        Some(b) => b,
        None => Seq::empty(),
    };
    r.version + seq![' '] + r.status_code + seq![' '] + r.status_text + seq!['\r', '\n']
        + headers_text(hs) + "Content-Length: "@ + decimal(encode_utf8(b).len()) + seq![
        '\r',
        '\n',
        '\r',
        '\n',
    ] + b
}

impl<'a> Default for HttpResponse<'a> {
    fn default() -> (res: Self)
        ensures
            res@.version == "HTTP/1.1"@,
            res@.status_code == "200"@,
            res@.status_text == "OK"@,
            res.headers is None,
            res.body is None,
    {
        HttpResponse {
            version: "HTTP/1.1",
            status_code: "200",
            status_text: "OK",
            headers: None,
            body: None,
        }
    }
}

impl<'a> HttpResponse<'a> {
    /// A response with status `status_code` and its reason phrase, version
    /// `HTTP/1.1`, the given headers (`Content-Type: text/html` where none
    /// are given) and the given body.
    pub fn new(
        status_code: &'a str,
        headers: Option<Vec<(&'a str, &'a str)>>,
        body: Option<String>,
    ) -> (res: HttpResponse<'a>)
        requires
            headers matches Some(h) ==> keys_distinct(header_views(h@)),
        ensures
            res@.headers matches Some(hs) && keys_distinct(hs),
            res@ == new_response(
                status_code@,
                match headers {
                    Some(h) => Some(header_views(h@)),
                    None => None,
                },
                match body {
                    Some(b) => Some(b@),
                    None => None,
                },
            ),
    {
        proof {
            reveal_strlit("200");
            reveal_strlit("400");
            reveal_strlit("404");
            reveal_strlit("500");
        }
        let mut response: HttpResponse<'a> = HttpResponse::default();
        if !str_eq(status_code, "200") {
            response.status_code = status_code;
        }
        response.headers = match headers {
            Some(h) => Some(h),
            None => {
                let mut h: Vec<(&'a str, &'a str)> = Vec::new();
                h.push(("Content-Type", "text/html"));
                proof {
                    assert(header_views(h@) =~= seq![("Content-Type"@, "text/html"@)]);
                }
                Some(h)
            },
        };
        response.status_text = if str_eq(response.status_code, "200") {
            "OK"
        } else if str_eq(response.status_code, "400") {
            "Bad Request"
        } else if str_eq(response.status_code, "404") {
            "Not Found"
        } else if str_eq(response.status_code, "500") {
            "Internal Server Error"
        } else {
            "Not Found"
        };
        response.body = body;
        response
    }

    fn version(&self) -> (res: &str)
        ensures
            res@ == self.version@,
    {
        self.version
    }

    fn status_code(&self) -> (res: &str)
        ensures
            res@ == self.status_code@,
    {
        self.status_code
    }

    fn status_text(&self) -> (res: &str)
        ensures
            res@ == self.status_text@,
    {
        self.status_text
    }

    /// The header lines of the response, `key:value\r\n` each, in order.
    fn headers(&self) -> (res: String)
        requires
            self.headers is Some,
        ensures
            res@ == headers_text(self@.headers.unwrap()),
    {
        let hs = match &self.headers {
            Some(h) => h,
            None => {
                proof {
                    assert(false);
                }
                return String::new();
            },
        };
        let mut out = String::new();
        let mut i: usize = 0;
        proof {
            assert(header_views(hs@).take(0) =~= Seq::<(Seq<char>, Seq<char>)>::empty());
        }
        while i < hs.len()
            invariant
                i <= hs.len(),
                out@ == headers_text(header_views(hs@).take(i as int)),
            decreases hs.len() - i,
        {
            let (k, v) = hs[i];
            out.append(k);
            out.append(":");
            out.append(v);
            out.append("\r\n");
            proof {
                reveal_strlit(":");
                reveal_strlit("\r\n");
                let t = header_views(hs@).take(i + 1);
                assert(t.drop_last() =~= header_views(hs@).take(i as int));
                assert(t.last() == (k@, v@));
            }
            i = i + 1;
        }
        proof {
            assert(header_views(hs@).take(hs.len() as int) =~= header_views(hs@));
        }
        out
    }

    /// The body, empty where there is none.
    pub fn body(&self) -> (res: &str)
        ensures
            res@ == match self@.body {
                Some(b) => b,
                None => Seq::empty(),
            },
    {
        proof {
            reveal_strlit("");
        }
        match &self.body {
            Some(b) => b.as_str(),
            None => "",
        }
    }

    /// The text of the response, which must have headers and a body.
    pub fn to_text(&self) -> (res: String)
        requires
            self.headers is Some,
            self.body is Some,
        ensures
            res@ == response_text(self@),
    {
        self.write_text()
    }

    /// The text of the response, with absent headers written as none and an
    /// absent body as empty.
    fn write_text(&self) -> (res: String)
        ensures
            res@ == response_text(self@),
    {
        let mut s = String::new();
        s.append(self.version());
        s.append(" ");
        s.append(self.status_code());
        s.append(" ");
        s.append(self.status_text());
        s.append("\r\n");
        if self.headers.is_some() {
            let h = self.headers();
            s.append(h.as_str());
        }
        let b = self.body();
        let byte_len = b.as_bytes().len();
        s.append("Content-Length: ");
        let len = decimal_string(byte_len as u64);
        s.append(len.as_str());
        s.append("\r\n\r\n");
        s.append(b);
        proof {
            reveal_strlit(" ");
            reveal_strlit("\r\n");
            reveal_strlit("\r\n\r\n");
            reveal_strlit("Content-Length: ");
            let hs = match self@.headers {
                Some(h) => h,
                None => Seq::empty(),
            };
            if self.headers is None {
                assert(headers_text(hs) =~= Seq::<char>::empty());
            }
            assert(s@ =~= response_text(self@));
        }
        s
    }

    /// Writes the text of the response to `out`, after what it holds; the
    /// response must have headers and a body.
    pub fn send_response(&self, out: &mut String)
        requires
            self.headers is Some,
            self.body is Some,
        ensures
            final(out)@ == old(out)@ + response_text(self@),
    {
        let text = self.to_text();
        out.append(text.as_str());
    }
}

impl<'a> From<HttpResponse<'a>> for String {
    /// The text of the response (see [`response_text`]). A trait method
    /// takes no precondition, so absent headers are written as none and an
    /// absent body as empty.
    fn from(res: HttpResponse<'a>) -> (s: String)
        ensures
            s@ == response_text(res@),
    {
        res.write_text()
    }
}

impl<'a> vstd::std_specs::convert::FromSpecImpl<HttpResponse<'a>> for String {
    open spec fn obeys_from_spec() -> bool {
        false
    }

    open spec fn from_spec(v: HttpResponse<'a>) -> String {
        arbitrary()
    }
}

/// `j` is the first position of a header with key `k`.
pub open spec fn is_first_key(hs: Seq<(Seq<char>, Seq<char>)>, k: Seq<char>, j: int) -> bool {
    &&& 0 <= j < hs.len()
    &&& hs[j].0 == k
    &&& forall|l: int| 0 <= l < j ==> hs[l].0 != k
}

/// The first position of a header with key `k`.
pub open spec fn key_index(hs: Seq<(Seq<char>, Seq<char>)>, k: Seq<char>) -> Option<int> {
    if exists|j: int| is_first_key(hs, k, j) {
        Some(choose|j: int| is_first_key(hs, k, j))
    } else {
        None
    }
}

/// `hs` after setting the header `k` to `v`, as a map insertion does: an
/// existing key keeps its place and takes the new value, a new key comes last.
pub open spec fn insert_header(hs: Seq<(Seq<char>, Seq<char>)>, k: Seq<char>, v: Seq<char>) -> Seq<
    (Seq<char>, Seq<char>),
> {
    match key_index(hs, k) {
        Some(j) => hs.update(j, (k, v)),
        None => hs.push((k, v)),
    }
}

/// The first position with a given key is unique.
pub proof fn lemma_first_key_unique(hs: Seq<(Seq<char>, Seq<char>)>, k: Seq<char>, j: int)
    requires
        is_first_key(hs, k, j),
    ensures
        key_index(hs, k) == Some(j),
{
    let c = choose|i: int| is_first_key(hs, k, i);
    assert(is_first_key(hs, k, c));
    if c < j {
        assert(hs[c].0 != k);
    } else if c > j {
        assert(hs[j].0 != k);
    }
}

/// No two headers of `hs` have the same key, as in a map.
pub open spec fn keys_distinct(hs: Seq<(Seq<char>, Seq<char>)>) -> bool {
    forall|i: int, j: int| 0 <= i < j < hs.len() ==> #[trigger] hs[i].0 != #[trigger] hs[j].0
}

/// The value of the header `k` in `hs`, `None` where there is none.
pub open spec fn header_value(hs: Seq<(Seq<char>, Seq<char>)>, k: Seq<char>) -> Option<Seq<char>> {
    match key_index(hs, k) {
        Some(j) => Some(hs[j].1),
        None => None,
    }
}

/// The first position with key `k`, where a header has that key.
proof fn lemma_key_index_found(hs: Seq<(Seq<char>, Seq<char>)>, k: Seq<char>, j: int)
    requires
        0 <= j < hs.len(),
        hs[j].0 == k,
    ensures
        key_index(hs, k) matches Some(i) && is_first_key(hs, k, i),
    decreases j,
{
    if exists|l: int| 0 <= l < j && hs[l].0 == k {
        let l = choose|l: int| 0 <= l < j && hs[l].0 == k;
        lemma_key_index_found(hs, k, l);
    } else {
        assert(is_first_key(hs, k, j));
        lemma_first_key_unique(hs, k, j);
    }
}

/// Setting a header is a map insertion: afterwards `k` has the value `v`,
/// every other key keeps its value, and keys that were distinct stay so.
pub proof fn lemma_insert_header_map(
    hs: Seq<(Seq<char>, Seq<char>)>,
    k: Seq<char>,
    v: Seq<char>,
    other: Seq<char>,
)
    requires
        keys_distinct(hs),
    ensures
        keys_distinct(insert_header(hs, k, v)),
        header_value(insert_header(hs, k, v), k) == Some(v),
        other != k ==> header_value(insert_header(hs, k, v), other) == header_value(hs, other),
{
    let r = insert_header(hs, k, v);
    match key_index(hs, k) {
        Some(j) => {
            let c = choose|i: int| is_first_key(hs, k, i);
            assert(is_first_key(hs, k, c));
            assert(r == hs.update(j, (k, v)));
            assert(is_first_key(r, k, j));
            lemma_first_key_unique(r, k, j);
            assert forall|a: int, b: int| 0 <= a < b < r.len() implies #[trigger] r[a].0
                != #[trigger] r[b].0 by {
                assert(r[a].0 == hs[a].0);
                assert(r[b].0 == hs[b].0);
            }
        },
        None => {
            assert(r == hs.push((k, v)));
            assert forall|i: int| 0 <= i < hs.len() implies hs[i].0 != k by {
                if hs[i].0 == k {
                    lemma_key_index_found(hs, k, i);
                }
            }
            let n = hs.len() as int;
            assert(is_first_key(r, k, n));
            lemma_first_key_unique(r, k, n);
            assert forall|a: int, b: int| 0 <= a < b < r.len() implies #[trigger] r[a].0
                != #[trigger] r[b].0 by {
                if b < n {
                    assert(r[a].0 == hs[a].0);
                    assert(r[b].0 == hs[b].0);
                } else {
                    assert(r[a].0 == hs[a].0);
                }
            }
        },
    }
    if other != k {
        match key_index(hs, other) {
            Some(j) => {
                let c = choose|i: int| is_first_key(hs, other, i);
                assert(is_first_key(hs, other, c));
                assert(r[j] == hs[j]);
                assert(is_first_key(r, other, j));
                lemma_first_key_unique(r, other, j);
            },
            None => {
                if key_index(r, other) is Some {
                    let c = choose|i: int| is_first_key(r, other, i);
                    assert(is_first_key(r, other, c));
                    if c < hs.len() {
                        assert(r[c].0 == hs[c].0 || r[c].0 == k);
                        if r[c].0 == hs[c].0 {
                            lemma_key_index_found(hs, other, c);
                        }
                    }
                }
            },
        }
    }
}

/// The headers that lines set have distinct keys.
pub proof fn lemma_header_lines_distinct(ls: Seq<Seq<char>>)
    ensures
        keys_distinct(header_lines(ls)),
    decreases ls.len(),
{
    if ls.len() > 0 {
        lemma_header_lines_distinct(ls.drop_last());
        let parts = splitn2_spec(ls.last(), seq![':', ' ']);
        if parts.len() == 2 {
            lemma_insert_header_map(header_lines(ls.drop_last()), parts[0], parts[1], parts[0]);
        }
    }
}

/// Sets the header `k` to `v` in `hs`.
pub fn insert_header_exec<'a>(hs: &mut Vec<(&'a str, &'a str)>, k: &'a str, v: &'a str)
    ensures
        header_views(final(hs)@) == insert_header(header_views(old(hs)@), k@, v@),
{
    let ghost hv = header_views(hs@);
    let mut j: usize = 0;
    while j < hs.len()
        invariant
            j <= hs.len(),
            hv == header_views(hs@),
            hs@ == old(hs)@,
            forall|l: int| 0 <= l < j ==> hv[l].0 != k@,
        decreases hs.len() - j,
    {
        if str_eq(hs[j].0, k) {
            proof {
                assert(is_first_key(hv, k@, j as int));
                lemma_first_key_unique(hv, k@, j as int);
            }
            hs.set(j, (k, v));
            proof {
                assert(header_views(hs@) =~= hv.update(j as int, (k@, v@)));
            }
            return;
        }
        j = j + 1;
    }
    proof {
        if exists|i: int| is_first_key(hv, k@, i) {
            let i = choose|i: int| is_first_key(hv, k@, i);
            assert(hv[i].0 == k@);
        }
    }
    hs.push((k, v));
    proof {
        assert(header_views(hs@) =~= hv.push((k@, v@)));
    }
}

/// The pieces of `s` between its runs of whitespace (`str::split_whitespace`).
pub open spec fn words(s: Seq<char>) -> Seq<Seq<char>> {
    non_empty(split_spec(s, CharClass::Whitespace))
}

/// The `i`th of `ws`, or empty where there is none.
pub open spec fn nth_or_empty(ws: Seq<Seq<char>>, i: int) -> Seq<char> {
    if 0 <= i < ws.len() {
        ws[i]
    } else {
        Seq::empty()
    }
}

/// The position of the first empty line at or after `i`, or the number of lines.
pub open spec fn first_empty_from(ls: Seq<Seq<char>>, i: int) -> int
    decreases ls.len() - i,
{
    if i >= ls.len() {
        ls.len() as int
    } else if ls[i].len() == 0 {
        i
    } else {
        first_empty_from(ls, i + 1)
    }
}

/// The headers that the header lines `ls` set, in order: a line
/// `key: value` sets `key`, other lines set nothing.
pub open spec fn header_lines(ls: Seq<Seq<char>>) -> Seq<(Seq<char>, Seq<char>)>
    decreases ls.len(),
{
    if ls.len() == 0 {
        Seq::empty()
    } else {
        let hs = header_lines(ls.drop_last());
        let parts = splitn2_spec(ls.last(), seq![':', ' ']);
        if parts.len() == 2 {
            insert_header(hs, parts[0], parts[1])
        } else {
            hs
        }
    }
}

/// The response that [`HttpResponse::from_str`] reads from `text`: the
/// lines are the pieces between `\r\n`; the first line's words are version,
/// status code and reason phrase; the lines up to the first empty one are
/// headers; the lines after it, joined again, are the body.
pub open spec fn parse_response(text: Seq<char>) -> ResponseView {
    let ls = split_pat_spec(text, crlf());
    let ws = words(ls[0]);
    let e = first_empty_from(ls, 1);
    ResponseView {
        version: nth_or_empty(ws, 0),
        status_code: nth_or_empty(ws, 1),
        status_text: nth_or_empty(ws, 2),
        headers: Some(header_lines(ls.subrange(1, e))),
        body: Some(
            if e < ls.len() {
                join_spec(ls.subrange(e + 1, ls.len() as int), crlf())
            } else {
                Seq::empty()
            },
        ),
    }
}

/// Joins `ls[from..]` with `\r\n` between the lines.
fn join_from(ls: &Vec<&str>, from: usize) -> (res: String)
    requires
        from <= ls.len(),
    ensures
        res@ == join_spec(views(ls@).subrange(from as int, ls.len() as int), crlf()),
{
    let mut out = String::new();
    let mut i: usize = from;
    proof {
        assert(views(ls@).subrange(from as int, from as int) =~= Seq::<Seq<char>>::empty());
    }
    while i < ls.len()
        invariant
            from <= i <= ls.len(),
            out@ == join_spec(views(ls@).subrange(from as int, i as int), crlf()),
        decreases ls.len() - i,
    {
        let ghost before = out@;
        if i > from {
            out.append("\r\n");
        }
        out.append(ls[i]);
        proof {
            reveal_strlit("\r\n");
            let t = views(ls@).subrange(from as int, i + 1);
            assert(t.drop_last() =~= views(ls@).subrange(from as int, i as int));
            assert(t.last() == ls@[i as int]@);
            if i == from {
                assert(before =~= Seq::<char>::empty());
                assert(out@ =~= join_spec(t, crlf()));
            } else {
                assert(out@ =~= join_spec(t, crlf()));
            }
        }
        i = i + 1;
    }
    out
}

impl<'a> HttpResponse<'a> {
    /// Reads a response from its text (see [`parse_response`]); the fields
    /// are slices of `res`.
    pub fn from_str(res: &'a str) -> (resp: HttpResponse<'a>)
        ensures
            resp@ == parse_response(res@),
            resp@.headers matches Some(hs) && keys_distinct(hs),
    {
        proof {
            reveal_strlit("\r\n");
            reveal_strlit(": ");
            reveal_strlit("");
            assert("\r\n"@ =~= seq!['\r', '\n']);
        }
        let lines = split_pat(res, "\r\n");
        let ghost ls = views(lines@);
        proof {
            crate::text::lemma_split_pat_nonempty(res@, seq!['\r', '\n']);
            assert(ls.len() == lines@.len());
        }
        let status_line = lines[0];
        let ws = keep_non_empty(&split_class(status_line, CharClass::Whitespace));
        let version: &'a str = if ws.len() > 0 {
            ws[0]
        } else {
            ""
        };
        let status_code: &'a str = if ws.len() > 1 {
            ws[1]
        } else {
            ""
        };
        let status_text: &'a str = if ws.len() > 2 {
            ws[2]
        } else {
            ""
        };
        let mut headers: Vec<(&'a str, &'a str)> = Vec::new();
        let mut i: usize = 1;
        proof {
            assert(ls.subrange(1, 1) =~= Seq::<Seq<char>>::empty());
            assert(header_views(headers@) =~= Seq::<(Seq<char>, Seq<char>)>::empty());
        }
        while i < lines.len() && lines[i].unicode_len() > 0
            invariant
                1 <= i <= lines.len(),
                ls == views(lines@),
                first_empty_from(ls, 1) == first_empty_from(ls, i as int),
                header_views(headers@) == header_lines(ls.subrange(1, i as int)),
            decreases lines.len() - i,
        {
            proof {
                reveal_strlit(": ");
                assert(": "@ =~= seq![':', ' ']);
            }
            let parts = splitn2(lines[i], ": ");
            let ghost before = header_views(headers@);
            proof {
                assert(ls.subrange(1, i + 1).drop_last() =~= ls.subrange(1, i as int));
                assert(ls.subrange(1, i + 1).last() == lines@[i as int]@);
            }
            if parts.len() == 2 {
                proof {
                    assert(views(parts@)[0] == parts@[0]@);
                    assert(views(parts@)[1] == parts@[1]@);
                }
                insert_header_exec(&mut headers, parts[0], parts[1]);
            }
            i = i + 1;
        }
        let body = if i < lines.len() {
            join_from(&lines, i + 1)
        } else {
            String::new()
        };
        proof {
            assert(first_empty_from(ls, i as int) == i);
            if ws.len() > 0 {
                assert(views(ws@)[0] == ws@[0]@);
            }
            if ws.len() > 1 {
                assert(views(ws@)[1] == ws@[1]@);
            }
            if ws.len() > 2 {
                assert(views(ws@)[2] == ws@[2]@);
            }
        }
        let resp = HttpResponse {
            version,
            status_code,
            status_text,
            headers: Some(headers),
            body: Some(body),
        };
        proof {
            let p = parse_response(res@);
            assert(ls[0] == status_line@);
            assert(resp@.version == p.version);
            assert(resp@.status_code == p.status_code);
            assert(resp@.status_text == p.status_text);
            assert(resp@.headers == p.headers);
            assert(resp@.body == p.body);
            lemma_header_lines_distinct(ls.subrange(1, first_empty_from(ls, 1)));
        }
        resp
    }
}

/// The header lines `key:value` of `hs`, without their line breaks.
pub open spec fn header_line_texts(hs: Seq<(Seq<char>, Seq<char>)>) -> Seq<Seq<char>> {
    hs.map_values(|h: (Seq<char>, Seq<char>)| h.0 + seq![':'] + h.1)
}

/// No key or value of `hs` holds a line break.
pub open spec fn headers_without_crlf(hs: Seq<(Seq<char>, Seq<char>)>) -> bool {
    forall|j: int| 0 <= j < hs.len() ==> no_crlf(#[trigger] hs[j].0) && no_crlf(hs[j].1)
}

/// A text without `\r` holds no line break.
proof fn lemma_no_cr(s: Seq<char>)
    requires
        forall|i: int| 0 <= i < s.len() ==> #[trigger] s[i] != '\r',
    ensures
        no_crlf(s),
{
    assert forall|i: int| 0 <= i < s.len() - 1 implies !(s[i] == '\r' && #[trigger] s[i + 1]
        == '\n') by {
        assert(s[i] != '\r');
    }
}

/// Joining two texts without line breaks around a character other than
/// `\r` and `\n` gives a text without line breaks.
proof fn lemma_no_crlf_join(a: Seq<char>, c: char, b: Seq<char>)
    requires
        no_crlf(a),
        no_crlf(b),
        c != '\r',
        c != '\n',
    ensures
        no_crlf(a + seq![c] + b),
{
    let s = a + seq![c] + b;
    assert forall|i: int| 0 <= i < s.len() - 1 implies !(s[i] == '\r' && #[trigger] s[i + 1]
        == '\n') by {
        if i + 1 < a.len() {
            assert(s[i] == a[i] && s[i + 1] == a[i + 1]);
            assert(!(a[i] == '\r' && a[i + 1] == '\n'));
        } else if i + 1 == a.len() {
            assert(s[i + 1] == c);
        } else if i == a.len() {
            assert(s[i] == c);
        } else {
            let k = i - a.len() - 1;
            assert(s[i] == b[k] && s[i + 1] == b[k + 1]);
            assert(!(b[k] == '\r' && b[k + 1] == '\n'));
        }
    }
}

/// The header part of a response text splits into its header lines.
proof fn lemma_headers_split(hs: Seq<(Seq<char>, Seq<char>)>, rest: Seq<char>)
    requires
        headers_without_crlf(hs),
    ensures
        split_pat_spec(headers_text(hs) + rest, crlf()) == header_line_texts(hs) + split_pat_spec(
            rest,
            crlf(),
        ),
    decreases hs.len(),
{
    if hs.len() == 0 {
        assert(headers_text(hs) + rest =~= rest);
        assert(header_line_texts(hs) + split_pat_spec(rest, crlf()) =~= split_pat_spec(
            rest,
            crlf(),
        ));
    } else {
        let h = hs.last();
        let line = h.0 + seq![':'] + h.1;
        assert(headers_without_crlf(hs.drop_last()));
        assert(no_crlf(h.0) && no_crlf(h.1));
        lemma_no_crlf_join(h.0, ':', h.1);
        let rest2 = line + crlf() + rest;
        lemma_headers_split(hs.drop_last(), rest2);
        assert(headers_text(hs) + rest =~= headers_text(hs.drop_last()) + rest2);
        lemma_split_crlf_concat(line, rest);
        assert(header_line_texts(hs) =~= header_line_texts(hs.drop_last()).push(line));
        assert(header_line_texts(hs.drop_last()) + (seq![line] + split_pat_spec(rest, crlf()))
            =~= header_line_texts(hs) + split_pat_spec(rest, crlf()));
    }
}

/// The first empty line at or after `i` is the one at `k`.
proof fn lemma_first_empty(ls: Seq<Seq<char>>, i: int, k: int)
    requires
        0 <= i <= k < ls.len(),
        ls[k].len() == 0,
        forall|j: int| i <= j < k ==> (#[trigger] ls[j]).len() > 0,
    ensures
        first_empty_from(ls, i) == k,
    decreases k - i,
{
    if i < k {
        lemma_first_empty(ls, i + 1, k);
    }
}

/// A text without whitespace is a single word.
pub proof fn lemma_single_word_split(a: Seq<char>)
    requires
        forall|i: int| 0 <= i < a.len() ==> !is_ws(#[trigger] a[i]),
    ensures
        split_spec(a, CharClass::Whitespace) == seq![a],
{
    assert forall|i: int| 0 <= i < a.len() implies !in_class(CharClass::Whitespace, #[trigger] a[i]) by {
        assert(!is_ws(a[i]));
    }
    lemma_split_none(a, CharClass::Whitespace);
}

/// The words of a status line whose version and code are single words.
pub proof fn lemma_status_words(v: Seq<char>, c: Seq<char>, t: Seq<char>)
    requires
        v.len() > 0,
        c.len() > 0,
        forall|i: int| 0 <= i < v.len() ==> !is_ws(#[trigger] v[i]),
        forall|i: int| 0 <= i < c.len() ==> !is_ws(#[trigger] c[i]),
    ensures
        words(v + seq![' '] + c + seq![' '] + t) == seq![v, c] + words(t),
{
    let ws = CharClass::Whitespace;
    lemma_single_word_split(v);
    lemma_single_word_split(c);
    assert(v + seq![' '] + c + seq![' '] + t =~= v + seq![' '] + (c + seq![' '] + t));
    lemma_split_concat(v, ' ', c + seq![' '] + t, ws);
    lemma_split_concat(c, ' ', t, ws);
    lemma_non_empty_concat(seq![v], seq![c] + split_spec(t, ws));
    lemma_non_empty_concat(seq![c], split_spec(t, ws));
    assert(seq![v].drop_last() =~= Seq::<Seq<char>>::empty());
    assert(seq![c].drop_last() =~= Seq::<Seq<char>>::empty());
    assert(seq![v].last() == v);
    assert(seq![c].last() == c);
    assert(non_empty(Seq::<Seq<char>>::empty()) =~= Seq::<Seq<char>>::empty());
    assert(non_empty(seq![v]) =~= seq![v]);
    assert(non_empty(seq![c]) =~= seq![c]);
    assert(seq![v] + (seq![c] + split_spec(t, ws)) =~= seq![v] + seq![c] + split_spec(t, ws));
    assert(seq![v] + (seq![c] + words(t)) =~= seq![v, c] + words(t));
}

/// A status field that can be read back: non-empty and free of whitespace.
pub open spec fn is_token(s: Seq<char>) -> bool {
    s.len() > 0 && forall|i: int| 0 <= i < s.len() ==> !is_ws(#[trigger] s[i])
}

/// No key or value of `hs` holds whitespace.
pub open spec fn headers_without_whitespace(hs: Seq<(Seq<char>, Seq<char>)>) -> bool {
    forall|j: int| 0 <= j < hs.len() ==> no_whitespace(#[trigger] hs[j].0) && no_whitespace(hs[j].1)
}

/// A text without spaces holds no `": "`.
proof fn lemma_no_header_separator(s: Seq<char>)
    requires
        forall|i: int| 0 <= i < s.len() ==> #[trigger] s[i] != ' ',
    ensures
        find_spec(s, seq![':', ' ']) is None,
{
    let p = seq![':', ' '];
    assert forall|j: int| 0 <= j < s.len() implies !occurs_at(s, p, j) by {
        if occurs_at(s, p, j) {
            assert(s.subrange(j, j + 2)[1] == s[j + 1]);
        }
    }
    lemma_find_first(s, p, s.len() as int);
}

/// Lines that hold no `": "` set no header.
proof fn lemma_header_lines_skip(ls: Seq<Seq<char>>)
    requires
        forall|i: int| 0 <= i < ls.len() ==> find_spec(#[trigger] ls[i], seq![':', ' ']) is None,
    ensures
        header_lines(ls) == Seq::<(Seq<char>, Seq<char>)>::empty(),
    decreases ls.len(),
{
    if ls.len() > 0 {
        assert(ls.last() == ls[ls.len() - 1]);
        assert forall|i: int| 0 <= i < ls.drop_last().len() implies find_spec(
            #[trigger] ls.drop_last()[i],
            seq![':', ' '],
        ) is None by {
            assert(ls.drop_last()[i] == ls[i]);
        }
        lemma_header_lines_skip(ls.drop_last());
    }
}

/// Reading back the text of a response: the version, the status code and
/// the body come back unchanged, and the reason phrase comes back as its
/// first word. This holds where the version and status code are single
/// words, the body is present, and neither the reason phrase nor any header
/// key or value holds a line break. Where no header key or value holds
/// whitespace, the header lines, written as `key:value`, are not read back:
/// the headers read back are the `Content-Length` line alone.
pub proof fn lemma_response_text_roundtrip(r: ResponseView)
    requires
        is_token(r.version),
        is_token(r.status_code),
        no_crlf(r.status_text),
        r.body is Some,
        r.headers matches Some(hs) ==> headers_without_crlf(hs),
    ensures
        parse_response(response_text(r)).version == r.version,
        parse_response(response_text(r)).status_code == r.status_code,
        parse_response(response_text(r)).status_text == nth_or_empty(words(r.status_text), 0),
        parse_response(response_text(r)).body == r.body,
        is_token(r.status_text) ==> parse_response(response_text(r)).status_text == r.status_text,
        (r.headers matches Some(hs) ==> headers_without_whitespace(hs)) ==> parse_response(
            response_text(r),
        ).headers == Some(
            seq![("Content-Length"@, decimal(encode_utf8(r.body.unwrap()).len()))],
        ),
{
    let hs = match r.headers {
        Some(h) => h,
        None => Seq::empty(),
    };
    let b = r.body.unwrap();
    let line0 = r.version + seq![' '] + r.status_code + seq![' '] + r.status_text;
    let cl = "Content-Length: "@ + decimal(encode_utf8(b).len());
    let text = response_text(r);
    reveal_strlit("Content-Length: ");
    assert(headers_without_crlf(hs));
    // The status line holds no line break.
    assert(no_crlf(r.version)) by {
        lemma_no_cr(r.version);
    }
    assert(no_crlf(r.status_code)) by {
        lemma_no_cr(r.status_code);
    }
    lemma_no_crlf_join(r.version, ' ', r.status_code);
    lemma_no_crlf_join(r.version + seq![' '] + r.status_code, ' ', r.status_text);
    // Neither does the length line.
    lemma_decimal_digits(encode_utf8(b).len());
    assert(no_crlf(cl)) by {
        let d = decimal(encode_utf8(b).len());
        assert forall|i: int| 0 <= i < cl.len() implies #[trigger] cl[i] != '\r' by {
            if i >= 16 {
                assert(cl[i] == d[i - 16]);
                assert(is_digit(d[i - 16]));
            }
        }
        lemma_no_cr(cl);
    }
    // The lines of the text.
    let rest1 = cl + crlf() + (Seq::<char>::empty() + crlf() + b);
    assert(text =~= line0 + crlf() + (headers_text(hs) + rest1));
    lemma_split_crlf_concat(line0, headers_text(hs) + rest1);
    lemma_headers_split(hs, rest1);
    lemma_split_crlf_concat(cl, Seq::<char>::empty() + crlf() + b);
    lemma_split_crlf_concat(Seq::<char>::empty(), b);
    let hl = header_line_texts(hs);
    let ls = split_pat_spec(text, crlf());
    let tail = split_pat_spec(b, crlf());
    assert(ls =~= seq![line0] + hl + seq![cl] + seq![Seq::<char>::empty()] + tail);
    let n = hs.len() as int;
    assert(ls[0] == line0);
    assert(ls[n + 2] =~= Seq::<char>::empty());
    assert forall|j: int| 1 <= j < n + 2 implies (#[trigger] ls[j]).len() > 0 by {
        if j <= n {
            assert(ls[j] == hl[j - 1]);
        } else {
            assert(ls[j] == cl);
        }
    }
    lemma_first_empty(ls, 1, n + 2);
    assert(ls.subrange(n + 3, ls.len() as int) =~= tail);
    lemma_join_split(b, crlf());
    lemma_status_words(r.version, r.status_code, r.status_text);
    lemma_split_pat_nonempty(b, crlf());
    // A one-word reason phrase comes back whole.
    if is_token(r.status_text) {
        let t = r.status_text;
        lemma_single_word_split(t);
        assert(seq![t][0].len() > 0);
        crate::call::lemma_non_empty_all(seq![t]);
        assert(words(t) == seq![t]);
    }
    // Header lines without spaces are not read back; the length line is.
    if r.headers matches Some(h) ==> headers_without_whitespace(h) {
        let sep = seq![':', ' '];
        let d = decimal(encode_utf8(b).len());
        assert forall|i: int| 0 <= i < hl.len() implies find_spec(#[trigger] hl[i], sep) is None by {
            assert(hl[i] == hs[i].0 + seq![':'] + hs[i].1);
            let l = hl[i];
            assert forall|k: int| 0 <= k < l.len() implies #[trigger] l[k] != ' ' by {
                if k < hs[i].0.len() {
                    assert(l[k] == hs[i].0[k]);
                    assert(!is_ws(hs[i].0[k]));
                } else if k > hs[i].0.len() {
                    assert(l[k] == hs[i].1[k - hs[i].0.len() - 1]);
                    assert(!is_ws(hs[i].1[k - hs[i].0.len() - 1]));
                }
            }
            lemma_no_header_separator(l);
        }
        lemma_header_lines_skip(hl);
        assert forall|j: int| 0 <= j < 14 implies !occurs_at(cl, sep, j) by {
            if occurs_at(cl, sep, j) {
                assert(cl.subrange(j, j + 2)[0] == cl[j]);
            }
        }
        assert(cl.subrange(14, 16) =~= sep);
        lemma_find_first(cl, sep, 14);
        assert(cl.take(14) =~= "Content-Length"@) by {
            reveal_strlit("Content-Length");
        }
        assert(cl.skip(16) =~= d);
        assert(ls.subrange(1, n + 2) =~= hl.push(cl));
        assert(hl.push(cl).drop_last() =~= hl);
        let parts = splitn2_spec(cl, sep);
        assert(parts.len() == 2);
        assert(key_index(Seq::<(Seq<char>, Seq<char>)>::empty(), parts[0]) is None);
        assert(header_lines(hl.push(cl)) =~= seq![("Content-Length"@, d)]);
    }
}

} // verus!
