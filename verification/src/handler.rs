//! The handlers of the HTTP server: what each answers, once the files it
//! asks for have been read.

use vstd::prelude::*;
use vstd::string::StringSliceAdditionalSpecFns;
use vstd::utf8::encode_utf8;
use crate::call::{
    decode_request, decodes, lemma_service_reply_no_error, parse_error_reply, reply_to,
    service_defined, service_reply, ClientRequest,
};
use crate::message::Message;
use crate::httprequest::HttpRequest;
use crate::httpresponse::{new_response, HttpResponse, ResponseView};
use crate::router::{path_of, path_segments};
use crate::rsa_crypto::{encrypt_str, is_ciphertext_of, PrivateKey, PublicKey};
use crate::serialization_json::{json_byte_array, serde_vec};
use crate::text::{
    contains_pat, ends_with, find_spec, lemma_find_bounds, lemma_first_char_absent,
    lemma_occurs_found, occurs_at, split_class, str_eq, views, CharClass,
};

verus! {

/// What a handler answers: a response, or "not found", which the server
/// answers with the not-found page.
pub enum Answer<'a> {
    Respond(HttpResponse<'a>),
    NotFound,
}

/// The handler of static pages.
pub struct StaticPageHandler;

/// The handler of requests that nothing else answers.
pub struct PageNotFoundHandler;

/// An order, as the service interface describes one.
pub struct OrderStatus {
    order_id: i32,
    order_date: String,
    order_status: String,
}

impl OrderStatus {
    /// An order with the given number, date and status.
    pub fn new(order_id: i32, order_date: String, order_status: String) -> (res: OrderStatus)
        ensures
            res.id() == order_id,
            res.date() == order_date@,
            res.status() == order_status@,
    {
        OrderStatus { order_id, order_date, order_status }
    }

    /// The order number.
    pub closed spec fn id(self) -> i32 {
        self.order_id
    }

    /// The order date.
    pub closed spec fn date(self) -> Seq<char> {
        self.order_date@
    }

    /// The order status.
    pub closed spec fn status(self) -> Seq<char> {
        self.order_status@
    }

    /// The order number.
    pub fn order_id(&self) -> (res: i32)
        ensures
            res == self.id(),
    {
        self.order_id
    }

    /// The order date.
    pub fn order_date(&self) -> (res: &str)
        ensures
            res@ == self.date(),
    {
        self.order_date.as_str()
    }

    /// The order status.
    pub fn order_status(&self) -> (res: &str)
        ensures
            res@ == self.status(),
    {
        self.order_status.as_str()
    }
}

/// The page segment of a static request: the path's first segment after `/`.
pub open spec fn page_segment(path: Seq<char>) -> Seq<char> {
    path_segments(path)[1]
}

/// Whether the segment names one of the server's own pages.
pub open spec fn is_named_page(seg: Seq<char>) -> bool {
    seg == "index"@ || seg == "health"@
}

/// The file that answers the page segment `seg`: `index.html` for `index`,
/// `health.html` for `health`, the segment itself otherwise.
pub open spec fn page_file_of(seg: Seq<char>) -> Seq<char> {
    if seg == "index"@ {
        "index.html"@
    } else if seg == "health"@ {
        "health.html"@
    } else {
        seg
    }
}

/// Whether `s` ends with `p`.
pub open spec fn ends_with_spec(s: Seq<char>, p: Seq<char>) -> bool {
    p.len() <= s.len() && s.skip(s.len() - p.len()) == p
}

/// The content type of a file: `text/css` for `.css`, `text/javascript` for
/// `.js`, `text/html` otherwise.
pub open spec fn content_type_of(file: Seq<char>) -> Seq<char> {
    if ends_with_spec(file, ".css"@) {
        "text/css"@
    } else if ends_with_spec(file, ".js"@) {
        "text/javascript"@
    } else {
        "text/html"@
    }
}

/// What the static-page handler answers for the page segment `seg` once its
/// file was read as `contents`: the named pages with status 200 and what was
/// read; other files, where they were read, with status 200 and their
/// content type; "not found" otherwise.
pub open spec fn static_answer(seg: Seq<char>, contents: Option<Seq<char>>) -> Option<ResponseView> {
    if is_named_page(seg) {
        Some(new_response("200"@, None, contents))
    } else {
        match contents {
            Some(c) => Some(
                new_response("200"@, Some(seq![("Content-Type"@, content_type_of(seg))]), Some(c)),
            ),
            None => None,
        }
    }
}

/// The view of an answer: the response, or `None` for "not found".
pub open spec fn answer_view(a: Answer) -> Option<ResponseView> {
    match a {
        Answer::Respond(r) => Some(r@),
        Answer::NotFound => None,
    }
}

/// The view of an optional string.
pub open spec fn opt_view(s: Option<String>) -> Option<Seq<char>> {
    match s {
        Some(c) => Some(c@),
        None => None,
    }
}

impl StaticPageHandler {
    /// The file that answers `req`, whose path must hold a `/`.
    pub fn page_file<'a>(&self, req: &'a HttpRequest) -> (res: &'a str)
        requires
            path_segments(req@.path).len() >= 2,
        ensures
            res@ == page_file_of(page_segment(req@.path)),
    {
        let route = split_class(path_of(req), CharClass::Exactly('/'));
        proof {
            assert(views(route@)[1] == route@[1]@);
            reveal_strlit("index");
            reveal_strlit("health");
        }
        if str_eq(route[1], "index") {
            "index.html"
        } else if str_eq(route[1], "health") {
            "health.html"
        } else {
            route[1]
        }
    }

    /// The answer to `req`, whose path must hold a `/`, once the file that
    /// answers it was read as `contents`.
    pub fn handle(&self, req: &HttpRequest, contents: Option<String>) -> (res: Answer<'static>)
        requires
            path_segments(req@.path).len() >= 2,
        ensures
            answer_view(res) == static_answer(page_segment(req@.path), opt_view(contents)),
    {
        let route = split_class(path_of(req), CharClass::Exactly('/'));
        let seg = route[1];
        proof {
            assert(views(route@)[1] == route@[1]@);
            reveal_strlit("index");
            reveal_strlit("health");
            reveal_strlit(".css");
            reveal_strlit(".js");
        }
        if str_eq(seg, "index") || str_eq(seg, "health") {
            Answer::Respond(HttpResponse::new("200", None, contents))
        } else {
            match contents {
                Some(c) => {
                    let content_type = if ends_with(seg, ".css") {
                        "text/css"
                    } else if ends_with(seg, ".js") {
                        "text/javascript"
                    } else {
                        "text/html"
                    };
                    let mut headers: Vec<(&'static str, &'static str)> = Vec::new();
                    headers.push(("Content-Type", content_type));
                    proof {
                        assert(crate::httpresponse::header_views(headers@) =~= seq![
                            ("Content-Type"@, content_type_of(seg@)),
                        ]);
                    }
                    Answer::Respond(HttpResponse::new("200", Some(headers), Some(c)))
                },
                None => Answer::NotFound,
            }
        }
    }
}

impl PageNotFoundHandler {
    /// The not-found response, with the not-found page as read.
    pub fn handle(&self, page: Option<String>) -> (res: HttpResponse<'static>)
        ensures
            res@ == new_response("404"@, None, opt_view(page)),
    {
        HttpResponse::new("404", None, page)
    }
}

/// The service handler: it decrypts requests with the server's private key
/// and encrypts replies with the client's public key.
pub struct WebServiceHandler {
    private_key: PrivateKey,
    client_public_key: PublicKey,
}

/// Whether `reply` is an error reply.
pub open spec fn is_error_reply(reply: Seq<char>) -> bool {
    find_spec(reply, "Error"@) is Some
}

/// The body of a service response carrying the ciphertext `ct`:
/// `{"result":[...]}`.
pub open spec fn result_body(ct: Seq<u8>) -> Seq<char> {
    "{\"result\":"@ + json_byte_array(ct) + "}"@
}

/// The response that carries the ciphertext `ct` of a service reply: status
/// 200, a JSON content type, and the body [`result_body`].
pub open spec fn service_response(ct: Seq<u8>) -> ResponseView {
    new_response("200"@, Some(seq![("Content-Type"@, "application/json"@)]), Some(result_body(ct)))
}

/// `a` answers the service reply `reply` for the client with `key`: "not
/// found" for an error reply; otherwise a [`service_response`] carrying a
/// ciphertext of the reply's UTF-8 bytes under `key`.
pub open spec fn answers_reply(key: PublicKey, reply: Seq<char>, a: Answer) -> bool {
    if is_error_reply(reply) {
        a is NotFound
    } else {
        a matches Answer::Respond(r) && exists|ct: Seq<u8>|
            #[trigger] is_ciphertext_of(key.modulus(), key.exponent(), encode_utf8(reply), ct)
                && r@ == service_response(ct)
    }
}

/// The service reply to a request whose body was not a byte list (`None`),
/// or whose decrypted message was read as `parsed`: empty in the first case,
/// otherwise the service's reply or the parse error's reply (see
/// [`reply_to`]).
pub open spec fn request_reply(parsed: Option<Result<Message, String>>) -> Seq<char> {
    match parsed {
        None => Seq::empty(),
        Some(Ok(m)) => service_reply(m.service_name@, m.data@),
        Some(Err(e)) => parse_error_reply(e@),
    }
}

/// `reply` is not an error reply and too long to be encrypted under `key`:
/// its UTF-8 bytes are not eleven bytes shorter than the modulus.
pub open spec fn too_long_for(key: PublicKey, reply: Seq<char>) -> bool {
    !is_error_reply(reply) && encode_utf8(reply).len() + 11 > key.modulus().len()
}

/// A reply is an error reply exactly where the text `Error` occurs in it.
pub proof fn lemma_error_reply_iff(reply: Seq<char>)
    ensures
        is_error_reply(reply) <==> exists|k: int| occurs_at(reply, "Error"@, k),
{
    reveal_strlit("Error");
    lemma_find_bounds(reply, "Error"@);
    if exists|k: int| occurs_at(reply, "Error"@, k) {
        let k = choose|k: int| occurs_at(reply, "Error"@, k);
        lemma_occurs_found(reply, "Error"@, k);
    }
}

/// Every call whose body was not a byte list, and every message that the
/// service read, is answered with status 200 and a ciphertext of the reply
/// for the client: no service reply is an error reply. Only a message that
/// failed to parse is answered "not found".
pub proof fn lemma_service_calls_answered(
    key: PublicKey,
    parsed: Option<Result<Message, String>>,
    a: Answer,
)
    requires
        !(parsed matches Some(Err(_))),
        answers_reply(key, request_reply(parsed), a),
    ensures
        !is_error_reply(request_reply(parsed)),
        a matches Answer::Respond(r) && r@.status_code == "200"@ && exists|ct: Seq<u8>|
            #[trigger] is_ciphertext_of(
                key.modulus(),
                key.exponent(),
                encode_utf8(request_reply(parsed)),
                ct,
            ) && r@.body == Some(result_body(ct)),
{
    reveal_strlit("Error");
    match parsed {
        None => {
            lemma_first_char_absent(Seq::<char>::empty(), "Error"@);
        },
        Some(Ok(m)) => {
            lemma_service_reply_no_error(m.service_name@, m.data@);
        },
        Some(Err(_)) => {},
    }
}

/// A parse error's reply is an error reply, answered "not found".
pub proof fn lemma_parse_errors_not_found(e: Seq<char>, key: PublicKey, a: Answer)
    requires
        answers_reply(key, parse_error_reply(e), a),
    ensures
        is_error_reply(parse_error_reply(e)),
        a is NotFound,
{
    reveal_strlit("Error parsing message: ");
    reveal_strlit("Error");
    let r = parse_error_reply(e);
    assert(r.subrange(0, 5) =~= "Error"@);
    lemma_occurs_found(r, "Error"@, 0);
}

impl WebServiceHandler {
    /// A handler with the server's `private_key` and the client's
    /// `client_public_key`.
    pub fn new(private_key: PrivateKey, client_public_key: PublicKey) -> (res: Self)
        ensures
            res.server_key() == private_key,
            res.client_key() == client_public_key,
    {
        WebServiceHandler { private_key, client_public_key }
    }

    /// The server's private key.
    pub closed spec fn server_key(self) -> PrivateKey {
        self.private_key
    }

    /// The client's public key.
    pub closed spec fn client_key(self) -> PublicKey {
        self.client_public_key
    }

    /// The length in bytes of the client key's modulus.
    pub fn client_key_size(&self) -> (res: usize)
        ensures
            res == self.client_key().modulus().len(),
    {
        self.client_public_key.size()
    }

    /// Reads and decrypts the body of `req` (see [`decode_request`]).
    pub fn decode(&self, req: &HttpRequest) -> (res: ClientRequest)
        ensures
            decodes(res, req@.body, self.server_key()),
    {
        decode_request(req.msg_body.as_str(), &self.private_key, &self.client_public_key)
    }

    /// The answer to the service reply `reply`: "not found" for an error
    /// reply; otherwise status 200, a JSON content type and a body that
    /// carries `reply` encrypted for the client. A reply that is not an error
    /// must be at least eleven bytes shorter than the client key's modulus.
    pub fn handle(&self, reply: &str) -> (res: Answer<'static>)
        requires
            !is_error_reply(reply@) ==> reply.spec_bytes().len() + 11
                <= self.client_key().modulus().len(),
        ensures
            answers_reply(self.client_key(), reply@, res),
    {
        proof {
            reveal_strlit("Error");
        }
        if contains_pat(reply, "Error") {
            return Answer::NotFound;
        }
        let ct = encrypt_str(&self.client_public_key, reply);
        let ghost ctv = ct@;
        let json = serde_vec(ct);
        let mut body = "{\"result\":".to_owned();
        body.append(json.as_str());
        body.append("}");
        let mut headers: Vec<(&'static str, &'static str)> = Vec::new();
        headers.push(("Content-Type", "application/json"));
        proof {
            assert(crate::httpresponse::header_views(headers@) =~= seq![
                ("Content-Type"@, "application/json"@),
            ]);
            assert(body@ =~= result_body(ctv));
        }
        Answer::Respond(HttpResponse::new("200", Some(headers), Some(body)))
    }

    /// The answer to a request whose body was not a byte list (`None`), or
    /// whose decrypted message was read as `parsed` (see [`request_reply`]);
    /// `None` where that reply is too long to be encrypted for the client.
    pub fn answer(&self, parsed: Option<Result<Message, String>>) -> (res: Option<Answer<'static>>)
        requires
            parsed matches Some(Ok(m)) ==> service_defined(m.service_name@, m.data@),
        ensures
            res is None <==> too_long_for(self.client_key(), request_reply(parsed)),
            res matches Some(a) ==> answers_reply(self.client_key(), request_reply(parsed), a),
    {
        let ghost expected = request_reply(parsed);
        let reply = match parsed {
            None => String::new(),
            Some(p) => reply_to(p),
        };
        proof {
            reveal_strlit("Error");
            assert(reply@ == expected);
        }
        let n = reply.as_str().as_bytes().len();
        let size = self.client_key_size();
        if !contains_pat(reply.as_str(), "Error") && (n > size || size - n < 11) {
            return None;
        }
        Some(self.handle(reply.as_str()))
    }
}

} // verus!
