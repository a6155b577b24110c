//! HTTP requests: reading method, path, version, headers and body from the
//! text that a client sends.

use vstd::prelude::*;
use crate::httpresponse::{
    insert_header, is_first_key, keys_distinct, lemma_first_key_unique, lemma_insert_header_map,
    nth_or_empty, words,
};
use crate::text::{
    find_spec, keep_non_empty, lines_of, lines_spec, split_class, splitn2, splitn2_spec, str_eq,
    contains_pat, views, CharClass,
};

verus! {

/// The request methods that the server tells apart.
#[derive(Debug, PartialEq, Eq, Clone, Copy, Structural)]
pub enum Method {
    Get,
    Post,
    Uninitialized,
}

/// The method that the text `s` names.
pub open spec fn method_of(s: Seq<char>) -> Method {
    if s == "GET"@ {
        Method::Get
    } else if s == "POST"@ {
        Method::Post
    } else {
        Method::Uninitialized
    }
}

impl<'a> From<&'a str> for Method {
    fn from(s: &'a str) -> (m: Method) {
        proof {
            reveal_strlit("GET");
            reveal_strlit("POST");
        }
        if str_eq(s, "GET") {
            Method::Get
        } else if str_eq(s, "POST") {
            Method::Post
        } else {
            Method::Uninitialized
        }
    }
}

impl<'a> vstd::std_specs::convert::FromSpecImpl<&'a str> for Method {
    open spec fn obeys_from_spec() -> bool {
        true
    }

    open spec fn from_spec(s: &'a str) -> Method {
        method_of(s@)
    }
}

/// The protocol versions that the server tells apart.
#[derive(Debug, PartialEq, Eq, Clone, Copy, Structural)]
pub enum Version {
    V1_1,
    V2_0,
    Uninitialized,
}

/// The version that the text `s` names.
pub open spec fn version_of(s: Seq<char>) -> Version {
    if s == "HTTP/1.1"@ {
        Version::V1_1
    } else if s == "HTTP/2.0"@ {
        Version::V2_0
    } else {
        Version::Uninitialized
    }
}

impl<'a> From<&'a str> for Version {
    fn from(s: &'a str) -> (v: Version) {
        proof {
            reveal_strlit("HTTP/1.1");
            reveal_strlit("HTTP/2.0");
        }
        if str_eq(s, "HTTP/1.1") {
            Version::V1_1
        } else if str_eq(s, "HTTP/2.0") {
            Version::V2_0
        } else {
            Version::Uninitialized
        }
    }
}

impl<'a> vstd::std_specs::convert::FromSpecImpl<&'a str> for Version {
    open spec fn obeys_from_spec() -> bool {
        true
    }

    open spec fn from_spec(s: &'a str) -> Version {
        version_of(s@)
    }
}

/// The resource that a request asks for.
#[derive(Debug, PartialEq)]
pub enum Resource {
    Path(String),
}

/// A request: method, resource, version, headers in order of first
/// appearance, and body.
#[derive(Debug)]
pub struct HttpRequest {
    pub method: Method,
    pub version: Version,
    pub resource: Resource,
    pub headers: Vec<(String, String)>,
    pub msg_body: String,
}

/// The contents of a request as plain values.
pub struct RequestView {
    pub method: Method,
    pub version: Version,
    pub path: Seq<char>,
    pub headers: Seq<(Seq<char>, Seq<char>)>,
    pub body: Seq<char>,
}

/// The views of owned header pairs.
pub open spec fn owned_header_views(hs: Seq<(String, String)>) -> Seq<(Seq<char>, Seq<char>)> {
    hs.map_values(|h: (String, String)| (h.0@, h.1@))
}

impl View for HttpRequest {
    type V = RequestView;

    open spec fn view(&self) -> RequestView {
        RequestView {
            method: self.method,
            version: self.version,
            path: match self.resource {
                Resource::Path(p) => p@,
            },
            headers: owned_header_views(self.headers@),
            body: self.msg_body@,
        }
    }
}

/// Whether `p` occurs in `s`.
pub open spec fn contains_spec(s: Seq<char>, p: Seq<char>) -> bool {
    find_spec(s, p) is Some
}

/// The request before any line is read.
pub open spec fn initial_request() -> RequestView {
    RequestView {
        method: Method::Uninitialized,
        version: Version::V1_1,
        path: Seq::empty(),
        headers: Seq::empty(),
        body: Seq::empty(),
    }
}

/// What a line does to the request read so far: a line holding `HTTP` is
/// the request line `method path version`; otherwise a line holding `:` is a
/// header `key:value`; otherwise a non-empty line is the body.
pub open spec fn apply_line(st: RequestView, l: Seq<char>) -> RequestView {
    if contains_spec(l, "HTTP"@) {
        let ws = words(l);
        RequestView { method: method_of(ws[0]), path: ws[1], version: version_of(ws[2]), ..st }
    } else if contains_spec(l, seq![':']) {
        let ps = splitn2_spec(l, seq![':']);
        RequestView { headers: insert_header(st.headers, ps[0], nth_or_empty(ps, 1)), ..st }
    } else if l.len() == 0 {
        st
    } else {
        RequestView { body: l, ..st }
    }
}

/// The request that the lines `ls` describe, read in order.
pub open spec fn request_of_lines(ls: Seq<Seq<char>>) -> RequestView
    decreases ls.len(),
{
    if ls.len() == 0 {
        initial_request()
    } else {
        apply_line(request_of_lines(ls.drop_last()), ls.last())
    }
}

/// The headers of a request read from lines have distinct keys.
pub proof fn lemma_request_headers_distinct(ls: Seq<Seq<char>>)
    ensures
        keys_distinct(request_of_lines(ls).headers),
    decreases ls.len(),
{
    if ls.len() > 0 {
        lemma_request_headers_distinct(ls.drop_last());
        let st = request_of_lines(ls.drop_last());
        let l = ls.last();
        let ps = splitn2_spec(l, seq![':']);
        lemma_insert_header_map(st.headers, ps[0], nth_or_empty(ps, 1), ps[0]);
    }
}

/// The request that the text `s` describes.
pub open spec fn parse_request(s: Seq<char>) -> RequestView {
    request_of_lines(lines_spec(s))
}

/// Every line of `s` that holds `HTTP` has at least three words.
pub open spec fn request_lines_complete(s: Seq<char>) -> bool {
    forall|i: int|
        0 <= i < lines_spec(s).len() && contains_spec(#[trigger] lines_spec(s)[i], "HTTP"@) ==> words(
            lines_spec(s)[i],
        ).len() >= 3
}

/// Splits a request line into method, resource and version.
fn process_req_line(s: &str) -> (res: (Method, Resource, Version))
    requires
        words(s@).len() >= 3,
    ensures
        res.0 == method_of(words(s@)[0]),
        (match res.1 {
            Resource::Path(p) => p@,
        }) == words(s@)[1],
        res.2 == version_of(words(s@)[2]),
{
    let ws = keep_non_empty(&split_class(s, CharClass::Whitespace));
    proof {
        assert(views(ws@)[0] == ws@[0]@);
        assert(views(ws@)[1] == ws@[1]@);
        assert(views(ws@)[2] == ws@[2]@);
    }
    let method = Method::from(ws[0]);
    let resource = Resource::Path(ws[1].to_owned());
    let version = Version::from(ws[2]);
    (method, resource, version)
}

/// Splits a header line at its first `:` into key and value.
fn process_header_line(s: &str) -> (res: (String, String))
    ensures
        res.0@ == splitn2_spec(s@, seq![':'])[0],
        res.1@ == nth_or_empty(splitn2_spec(s@, seq![':']), 1),
{
    proof {
        reveal_strlit(":");
        assert(":"@ =~= seq![':']);
    }
    let parts = splitn2(s, ":");
    proof {
        assert(splitn2_spec(s@, seq![':']).len() >= 1);
        assert(views(parts@).len() == parts@.len());
        assert(views(parts@)[0] == parts@[0]@);
    }
    let key = parts[0].to_owned();
    let value = if parts.len() > 1 {
        proof {
            assert(views(parts@)[1] == parts@[1]@);
        }
        parts[1].to_owned()
    } else {
        proof {
            reveal_strlit("");
        }
        "".to_owned()
    };
    (key, value)
}

/// Sets the header `k` to `v` in `hs`.
fn insert_owned_header(hs: &mut Vec<(String, String)>, k: String, v: String)
    ensures
        owned_header_views(final(hs)@) == insert_header(owned_header_views(old(hs)@), k@, v@),
{
    let ghost hv = owned_header_views(hs@);
    let mut j: usize = 0;
    while j < hs.len()
        invariant
            j <= hs.len(),
            hv == owned_header_views(hs@),
            hs@ == old(hs)@,
            forall|l: int| 0 <= l < j ==> hv[l].0 != k@,
        decreases hs.len() - j,
    {
        if str_eq(hs[j].0.as_str(), k.as_str()) {
            proof {
                assert(is_first_key(hv, k@, j as int));
                lemma_first_key_unique(hv, k@, j as int);
            }
            let ghost kv = k@;
            let ghost vv = v@;
            hs.set(j, (k, v));
            proof {
                assert(owned_header_views(hs@) =~= hv.update(j as int, (kv, vv)));
            }
            return;
        }
        j = j + 1;
    }
    proof {
        if exists|i: int| is_first_key(hv, k@, i) {
            let i = choose|i: int| is_first_key(hv, k@, i);
            assert(hv[i].0 == k@);
        }
    }
    let ghost kv = k@;
    let ghost vv = v@;
    hs.push((k, v));
    proof {
        assert(owned_header_views(hs@) =~= hv.push((kv, vv)));
    }
}

impl HttpRequest {
    /// Reads a request from its text (see [`parse_request`]); every line
    /// that holds `HTTP` must have at least three words.
    pub fn parse(req: &str) -> (res: HttpRequest)
        requires
            request_lines_complete(req@),
        ensures
            res@ == parse_request(req@),
            keys_distinct(res@.headers),
    {
        proof {
            reveal_strlit("HTTP");
            reveal_strlit(":");
            reveal_strlit("");
            assert(":"@ =~= seq![':']);
        }
        let lines = lines_of(req);
        let ghost ls = views(lines@);
        let mut res = HttpRequest {
            method: Method::Uninitialized,
            version: Version::V1_1,
            resource: Resource::Path("".to_owned()),
            headers: Vec::new(),
            msg_body: "".to_owned(),
        };
        proof {
            assert(ls.take(0) =~= Seq::<Seq<char>>::empty());
            assert(res@.headers =~= Seq::<(Seq<char>, Seq<char>)>::empty());
            assert(res@.path =~= Seq::<char>::empty());
            assert(res@.body =~= Seq::<char>::empty());
        }
        let mut i: usize = 0;
        while i < lines.len()
            invariant
                i <= lines.len(),
                ls == views(lines@),
                ls == lines_spec(req@),
                request_lines_complete(req@),
                res@ == request_of_lines(ls.take(i as int)),
            decreases lines.len() - i,
        {
            let line = lines[i];
            proof {
                reveal_strlit("HTTP");
                reveal_strlit(":");
                assert(":"@ =~= seq![':']);
                assert(ls[i as int] == line@);
                assert(ls.take(i + 1).drop_last() =~= ls.take(i as int));
                assert(ls.take(i + 1).last() == line@);
            }
            if contains_pat(line, "HTTP") {
                proof {
                    assert(contains_spec(lines_spec(req@)[i as int], "HTTP"@));
                }
                let (m, r, v) = process_req_line(line);
                res.method = m;
                res.resource = r;
                res.version = v;
            } else if contains_pat(line, ":") {
                let (k, v) = process_header_line(line);
                insert_owned_header(&mut res.headers, k, v);
            } else if line.unicode_len() == 0 {
            } else {
                res.msg_body = line.to_owned();
            }
            i = i + 1;
        }
        proof {
            assert(ls.take(lines.len() as int) =~= ls);
            lemma_request_headers_distinct(ls);
        }
        res
    }

    /// Reads a request from its text, `None` where a line holding `HTTP`
    /// has fewer than three words.
    pub fn try_parse(req: &str) -> (res: Option<HttpRequest>)
        ensures
            res is Some <==> request_lines_complete(req@),
            res matches Some(r) ==> r@ == parse_request(req@),
    {
        proof {
            reveal_strlit("HTTP");
        }
        let lines = lines_of(req);
        let ghost ls = views(lines@);
        let mut i: usize = 0;
        while i < lines.len()
            invariant
                i <= lines.len(),
                ls == views(lines@),
                ls == lines_spec(req@),
                forall|j: int|
                    0 <= j < i && contains_spec(#[trigger] ls[j], "HTTP"@) ==> words(ls[j]).len()
                        >= 3,
            decreases lines.len() - i,
        {
            proof {
                reveal_strlit("HTTP");
                assert(ls[i as int] == lines@[i as int]@);
            }
            if contains_pat(lines[i], "HTTP") {
                let ws = keep_non_empty(&split_class(lines[i], CharClass::Whitespace));
                if ws.len() < 3 {
                    return None;
                }
            }
            i = i + 1;
        }
        Some(HttpRequest::parse(req))
    }
}

} // verus!
