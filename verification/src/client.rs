//! What the RPC client sends and how it reads the server's reply.

use vstd::prelude::*;
use crate::call::{
    byte_list_items, byte_list_text, format_byte_list, lemma_byte_list_roundtrip,
    lemma_items_shape, lemma_json_array_roundtrip, lemma_non_empty_all, parse_byte_list_spec,
};
use crate::decimal::{decimal, decimal_string, is_digit, lemma_decimal_digits, IntErrorKind};
use crate::handler::{result_body, service_response};
use crate::httprequest::{
    apply_line, contains_spec, initial_request, parse_request, request_lines_complete,
    request_of_lines, Method, Version,
};
use crate::httpresponse::{
    headers_without_crlf, is_token, lemma_response_text_roundtrip, lemma_single_word_split,
    lemma_status_words, nth_or_empty, parse_response, response_text, words,
};
use crate::router::{path_segments, route_of, routable, Route};
use crate::serialization_json::json_byte_array;
use crate::text::{
    find_spec, in_class, is_ws, lemma_find_first, lemma_first_char_absent, lemma_occurs_found,
    lemma_split_concat, lemma_split_none, lemma_split_nonempty, lines_spec, no_crlf, non_empty,
    occurs_at, split_spec, splitn2, splitn2_spec, strip_cr, views, CharClass,
};

verus! {

/// The request text that the client sends for `service_name`, announcing
/// `data_len` bytes of data, with the encrypted message `payload` as body.
pub open spec fn client_request_text(service_name: Seq<char>, data_len: nat, payload: Seq<u8>) -> Seq<
    char,
> {
    "GET /api/"@ + service_name + " HTTP/1.1"@ + "\n"@ + "Host: localhost:3000"@ + "\n"@
        + "Content-Type: application/json"@ + "\n"@ + "Content-Length: "@ + decimal(data_len)
        + "\n"@ + "\n"@ + byte_list_text(payload)
}

/// Builds the request text for `service_name` with `data_len` and `payload`.
pub fn build_request(service_name: &str, data_len: usize, payload: &[u8]) -> (res: String)
    ensures
        res@ == client_request_text(service_name@, data_len as nat, payload@),
{
    let mut s = "GET /api/".to_owned();
    s.append(service_name);
    s.append(" HTTP/1.1");
    s.append("\n");
    s.append("Host: localhost:3000");
    s.append("\n");
    s.append("Content-Type: application/json");
    s.append("\n");
    s.append("Content-Length: ");
    let len = decimal_string(data_len as u64);
    s.append(len.as_str());
    s.append("\n");
    s.append("\n");
    let list = format_byte_list(payload);
    s.append(list.as_str());
    s
}

/// Whether `c` is an ASCII character.
pub open spec fn is_ascii_char(c: char) -> bool {
    (c as u32) < 128
}

/// The value in a reply body `{"key":value}`: the text after the first `:`
/// of the body without its first and last characters, empty where there is
/// no `:`.
pub open spec fn result_value_spec(body: Seq<char>) -> Seq<char> {
    nth_or_empty(splitn2_spec(body.subrange(1, body.len() - 1), seq![':']), 1)
}

/// The value in the reply body `body`, whose first and last characters are
/// ASCII.
pub fn result_value<'a>(body: &'a str) -> (res: &'a str)
    requires
        body@.len() >= 2,
        is_ascii_char(body@[0]),
        is_ascii_char(body@.last()),
    ensures
        res@ == result_value_spec(body@),
{
    proof {
        reveal_strlit(":");
        reveal_strlit("");
        assert(":"@ =~= seq![':']);
    }
    let n = body.unicode_len();
    let inner = body.substring_char(1, n - 1);
    let parts = splitn2(inner, ":");
    if parts.len() > 1 {
        proof {
            assert(views(parts@)[1] == parts@[1]@);
        }
        parts[1]
    } else {
        ""
    }
}

/// The value of the body that carries the ciphertext `ct` is the JSON array
/// of `ct`.
proof fn lemma_result_value_of_body(ct: Seq<u8>)
    ensures
        result_value_spec(result_body(ct)) == json_byte_array(ct),
{
    let j = json_byte_array(ct);
    let body = result_body(ct);
    reveal_strlit("{\"result\":");
    reveal_strlit("}");
    let inner = body.subrange(1, body.len() - 1);
    let colon = seq![':'];
    assert(inner =~= seq!['"', 'r', 'e', 's', 'u', 'l', 't', '"', ':'] + j);
    assert forall|k: int| 0 <= k < 8 implies !occurs_at(inner, colon, k) by {
        assert(inner.subrange(k, k + 1)[0] == inner[k]);
    }
    assert(inner.subrange(8, 9) =~= colon);
    lemma_find_first(inner, colon, 8);
    assert(inner.skip(9) =~= j);
}

/// The service response, written as text and read back by the client, gives
/// back the body that the service handler wrote, and the client reads from it
/// the ciphertext that the handler put in it.
pub proof fn lemma_service_response_readback(ct: Seq<u8>)
    ensures
        parse_response(response_text(service_response(ct))).body == Some(result_body(ct)),
        parse_byte_list_spec(result_value_spec(result_body(ct))) == Ok::<Seq<u8>, IntErrorKind>(
            ct,
        ),
{
    let r = service_response(ct);
    reveal_strlit("HTTP/1.1");
    reveal_strlit("200");
    reveal_strlit("OK");
    reveal_strlit("Content-Type");
    reveal_strlit("application/json");
    let hs = seq![("Content-Type"@, "application/json"@)];
    assert(is_token("HTTP/1.1"@));
    assert(is_token("200"@));
    assert(no_crlf("OK"@));
    assert(no_crlf("Content-Type"@));
    assert(no_crlf("application/json"@));
    assert(headers_without_crlf(hs));
    lemma_response_text_roundtrip(r);
    lemma_result_value_of_body(ct);
    lemma_json_array_roundtrip(ct);
}

/// `s` holds no whitespace.
pub open spec fn no_whitespace(s: Seq<char>) -> bool {
    forall|i: int| 0 <= i < s.len() ==> !is_ws(#[trigger] s[i])
}

/// The request line that the client sends for the service `name`.
spec fn request_line(name: Seq<char>) -> Seq<char> {
    "GET /api/"@ + name + " HTTP/1.1"@
}

/// The lines of the request that the client sends.
spec fn client_request_lines(name: Seq<char>, data_len: nat, payload: Seq<u8>) -> Seq<Seq<char>> {
    seq![
        request_line(name),
        "Host: localhost:3000"@,
        "Content-Type: application/json"@,
        "Content-Length: "@ + decimal(data_len),
        Seq::<char>::empty(),
        byte_list_text(payload),
    ]
}

/// The characters of a byte list are brackets, digits, commas and spaces.
proof fn lemma_byte_list_chars(payload: Seq<u8>)
    ensures
        forall|i: int|
            0 <= i < byte_list_text(payload).len() ==> {
                let c = #[trigger] byte_list_text(payload)[i];
                c == '[' || c == ']' || is_digit(c) || c == ',' || c == ' '
            },
{
    lemma_items_shape(payload);
    let t = byte_list_text(payload);
    let it = byte_list_items(payload);
    assert forall|i: int| 0 <= i < t.len() implies {
        let c = #[trigger] t[i];
        c == '[' || c == ']' || is_digit(c) || c == ',' || c == ' '
    } by {
        if 0 < i < t.len() - 1 {
            assert(t[i] == it[i - 1]);
        }
    }
}

/// The text that the client sends splits into its lines.
proof fn lemma_client_request_split(name: Seq<char>, data_len: nat, payload: Seq<u8>)
    requires
        no_whitespace(name),
    ensures
        lines_spec(client_request_text(name, data_len, payload)) == client_request_lines(
            name,
            data_len,
            payload,
        ),
{
    reveal_strlit("GET /api/");
    reveal_strlit(" HTTP/1.1");
    reveal_strlit("\n");
    reveal_strlit("Host: localhost:3000");
    reveal_strlit("Content-Type: application/json");
    reveal_strlit("Content-Length: ");
    let nl = CharClass::Exactly('\n');
    let l0 = request_line(name);
    let l1 = "Host: localhost:3000"@;
    let l2 = "Content-Type: application/json"@;
    let d = decimal(data_len);
    let l3 = "Content-Length: "@ + d;
    let e = Seq::<char>::empty();
    let l5 = byte_list_text(payload);
    let text = client_request_text(name, data_len, payload);
    assert(text =~= l0 + seq!['\n'] + (l1 + seq!['\n'] + (l2 + seq!['\n'] + (l3 + seq!['\n'] + (e
        + seq!['\n'] + l5)))));
    // No line holds a line feed.
    assert forall|i: int| 0 <= i < l0.len() implies !in_class(nl, #[trigger] l0[i]) by {
        if 9 <= i < 9 + name.len() {
            assert(l0[i] == name[i - 9]);
            assert(!is_ws(name[i - 9]));
        }
    }
    lemma_split_none(l0, nl);
    lemma_split_none(l1, nl);
    lemma_split_none(l2, nl);
    lemma_decimal_digits(data_len);
    assert forall|i: int| 0 <= i < l3.len() implies !in_class(nl, #[trigger] l3[i]) by {
        if i >= 16 {
            assert(l3[i] == d[i - 16]);
            assert(is_digit(d[i - 16]));
        }
    }
    lemma_split_none(l3, nl);
    lemma_split_none(e, nl);
    lemma_byte_list_chars(payload);
    assert forall|i: int| 0 <= i < l5.len() implies !in_class(nl, #[trigger] l5[i]) by {
        let c = l5[i];
        assert(c == '[' || c == ']' || is_digit(c) || c == ',' || c == ' ');
    }
    lemma_split_none(l5, nl);
    lemma_split_concat(e, '\n', l5, nl);
    lemma_split_concat(l3, '\n', e + seq!['\n'] + l5, nl);
    lemma_split_concat(l2, '\n', l3 + seq!['\n'] + (e + seq!['\n'] + l5), nl);
    lemma_split_concat(
        l1,
        '\n',
        l2 + seq!['\n'] + (l3 + seq!['\n'] + (e + seq!['\n'] + l5)),
        nl,
    );
    lemma_split_concat(
        l0,
        '\n',
        l1 + seq!['\n'] + (l2 + seq!['\n'] + (l3 + seq!['\n'] + (e + seq!['\n'] + l5))),
        nl,
    );
    let ps = split_spec(text, nl);
    assert(ps =~= seq![l0, l1, l2, l3, e, l5]);
    // No line but the empty one ends with a carriage return.
    assert(l0.last() == '1');
    assert(l3.last() == d.last());
    assert(is_digit(d.last()));
    assert(l5.last() == ']');
    assert(strip_cr(l0) == l0);
    assert(strip_cr(l1) == l1);
    assert(strip_cr(l2) == l2);
    assert(strip_cr(l3) == l3);
    assert(strip_cr(e) == e);
    assert(lines_spec(text) =~= client_request_lines(name, data_len, payload));
}

/// The words of the client's request line are the method, the path and the
/// version, and it holds `HTTP`.
proof fn lemma_request_line(name: Seq<char>)
    requires
        no_whitespace(name),
    ensures
        words(request_line(name)) == seq!["GET"@, "/api/"@ + name, "HTTP/1.1"@],
        contains_spec(request_line(name), "HTTP"@),
{
    reveal_strlit("GET /api/");
    reveal_strlit(" HTTP/1.1");
    reveal_strlit("GET");
    reveal_strlit("/api/");
    reveal_strlit("HTTP/1.1");
    reveal_strlit("HTTP");
    let v = "GET"@;
    let c = "/api/"@ + name;
    let t = "HTTP/1.1"@;
    let l0 = request_line(name);
    assert(l0 =~= v + seq![' '] + c + seq![' '] + t);
    assert forall|i: int| 0 <= i < c.len() implies !is_ws(#[trigger] c[i]) by {
        if i >= 5 {
            assert(c[i] == name[i - 5]);
        }
    }
    lemma_status_words(v, c, t);
    lemma_single_word_split(t);
    assert(seq![t][0].len() > 0);
    lemma_non_empty_all(seq![t]);
    assert(seq![v, c] + seq![t] =~= seq![v, c, t]);
    let k = 10 + name.len() as int;
    assert(l0.subrange(k, k + 4) =~= "HTTP"@);
    lemma_occurs_found(l0, "HTTP"@, k);
}

/// What each of the client's other lines holds: no `HTTP`; a `:` in the
/// header lines; neither in the empty line and the body.
proof fn lemma_request_other_lines(data_len: nat, payload: Seq<u8>)
    ensures
        !contains_spec("Host: localhost:3000"@, "HTTP"@),
        !contains_spec("Content-Type: application/json"@, "HTTP"@),
        !contains_spec("Content-Length: "@ + decimal(data_len), "HTTP"@),
        !contains_spec(Seq::<char>::empty(), "HTTP"@),
        !contains_spec(byte_list_text(payload), "HTTP"@),
        contains_spec("Host: localhost:3000"@, seq![':']),
        contains_spec("Content-Type: application/json"@, seq![':']),
        contains_spec("Content-Length: "@ + decimal(data_len), seq![':']),
        !contains_spec(Seq::<char>::empty(), seq![':']),
        !contains_spec(byte_list_text(payload), seq![':']),
        byte_list_text(payload).len() > 0,
{
    reveal_strlit("Host: localhost:3000");
    reveal_strlit("Content-Type: application/json");
    reveal_strlit("Content-Length: ");
    reveal_strlit("HTTP");
    let http = "HTTP"@;
    let colon = seq![':'];
    let l1 = "Host: localhost:3000"@;
    let l2 = "Content-Type: application/json"@;
    let d = decimal(data_len);
    let l3 = "Content-Length: "@ + d;
    let e = Seq::<char>::empty();
    let l5 = byte_list_text(payload);
    // The host line starts with `H` but not with `HT`.
    assert(!occurs_at(l1, http, 0)) by {
        assert(l1.subrange(0, 4)[1] == l1[1]);
    }
    lemma_first_char_absent(l1.drop_first(), http);
    lemma_first_char_absent(l2, http);
    lemma_decimal_digits(data_len);
    assert forall|i: int| 0 <= i < l3.len() implies #[trigger] l3[i] != http[0] by {
        if i >= 16 {
            assert(l3[i] == d[i - 16]);
            assert(is_digit(d[i - 16]));
        }
    }
    lemma_first_char_absent(l3, http);
    lemma_first_char_absent(e, http);
    lemma_first_char_absent(e, colon);
    lemma_byte_list_chars(payload);
    assert forall|i: int| 0 <= i < l5.len() implies #[trigger] l5[i] != http[0] && l5[i]
        != colon[0] by {
        let c = l5[i];
        assert(c == '[' || c == ']' || is_digit(c) || c == ',' || c == ' ');
    }
    lemma_first_char_absent(l5, http);
    lemma_first_char_absent(l5, colon);
    assert(l1.subrange(4, 5) =~= colon);
    lemma_occurs_found(l1, colon, 4);
    assert(l2.subrange(12, 13) =~= colon);
    lemma_occurs_found(l2, colon, 12);
    assert(l3.subrange(14, 15) =~= colon);
    lemma_occurs_found(l3, colon, 14);
}

/// The server reads the request that the client builds for a service name
/// without whitespace as a `GET` of `/api/` and the name, in version 1.1,
/// whose body is the byte list of the payload: its request line is
/// complete, it is routed to the service, and its body reads back as the
/// payload.
pub proof fn lemma_client_request_readback(name: Seq<char>, data_len: nat, payload: Seq<u8>)
    requires
        no_whitespace(name),
    ensures
        request_lines_complete(client_request_text(name, data_len, payload)),
        parse_request(client_request_text(name, data_len, payload)).method == Method::Get,
        parse_request(client_request_text(name, data_len, payload)).version == Version::V1_1,
        parse_request(client_request_text(name, data_len, payload)).path == "/api/"@ + name,
        parse_request(client_request_text(name, data_len, payload)).body == byte_list_text(
            payload,
        ),
        routable(Method::Get, "/api/"@ + name),
        route_of(Method::Get, "/api/"@ + name) == Route::WebService,
        parse_byte_list_spec(byte_list_text(payload)) == Ok::<Seq<u8>, IntErrorKind>(payload),
{
    let text = client_request_text(name, data_len, payload);
    let ls = client_request_lines(name, data_len, payload);
    lemma_client_request_split(name, data_len, payload);
    lemma_request_line(name);
    lemma_request_other_lines(data_len, payload);
    reveal_strlit("GET");
    reveal_strlit("HTTP/1.1");
    // Reading the lines one after the other.
    let s1 = apply_line(initial_request(), ls[0]);
    let s2 = apply_line(s1, ls[1]);
    let s3 = apply_line(s2, ls[2]);
    let s4 = apply_line(s3, ls[3]);
    let s5 = apply_line(s4, ls[4]);
    let s6 = apply_line(s5, ls[5]);
    assert(request_of_lines(Seq::<Seq<char>>::empty()) == initial_request());
    assert(ls.take(1).drop_last() =~= Seq::<Seq<char>>::empty());
    assert(ls.take(1).last() == ls[0]);
    assert(request_of_lines(ls.take(1)) == s1);
    assert(ls.take(2).drop_last() =~= ls.take(1));
    assert(ls.take(2).last() == ls[1]);
    assert(request_of_lines(ls.take(2)) == s2);
    assert(ls.take(3).drop_last() =~= ls.take(2));
    assert(ls.take(3).last() == ls[2]);
    assert(request_of_lines(ls.take(3)) == s3);
    assert(ls.take(4).drop_last() =~= ls.take(3));
    assert(ls.take(4).last() == ls[3]);
    assert(request_of_lines(ls.take(4)) == s4);
    assert(ls.take(5).drop_last() =~= ls.take(4));
    assert(ls.take(5).last() == ls[4]);
    assert(request_of_lines(ls.take(5)) == s5);
    assert(ls.take(6).drop_last() =~= ls.take(5));
    assert(ls.take(6).last() == ls[5]);
    assert(ls.take(6) =~= ls);
    assert(request_of_lines(ls) == s6);
    assert(s1.method == Method::Get && s1.version == Version::V1_1 && s1.path == "/api/"@ + name);
    assert(s6.body == byte_list_text(payload));
    // Only the request line holds `HTTP`, and it has three words.
    assert forall|i: int|
        0 <= i < lines_spec(text).len() && contains_spec(
            #[trigger] lines_spec(text)[i],
            "HTTP"@,
        ) implies words(lines_spec(text)[i]).len() >= 3 by {
        assert(i == 0);
    }
    // The path's first segment is `api`.
    reveal_strlit("/api/");
    reveal_strlit("api");
    let slash = CharClass::Exactly('/');
    let api = "api"@;
    assert("/api/"@ + name =~= Seq::<char>::empty() + seq!['/'] + (api + seq!['/'] + name));
    lemma_split_concat(Seq::<char>::empty(), '/', api + seq!['/'] + name, slash);
    lemma_split_concat(api, '/', name, slash);
    lemma_split_none(api, slash);
    lemma_split_nonempty(name, slash);
    assert(split_spec(Seq::<char>::empty(), slash) == seq![Seq::<char>::empty()]);
    assert(path_segments("/api/"@ + name)[1] == api);
    lemma_byte_list_roundtrip(payload);
}

} // verus!
