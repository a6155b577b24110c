//! What the HTTP server answers to a service request: the request body is a
//! list of bytes in text, `[b0, b1, ...]`, that decrypts to a JSON message
//! naming a service and its operands.

use vstd::prelude::*;
use crate::decimal::{
    decimal, decimal_string, decimal_texts, is_digit, lemma_decimal_digits,
    lemma_parse_i32_signed_decimal, lemma_parse_u8_decimal,
    parse_i32, parse_i32_spec, parse_u8, parse_u8_spec, signed_decimal, signed_decimal_string,
    IntErrorKind, ParseIntError,
};
use crate::message::Message;
use crate::rsa_crypto::{
    decrypt_u8, distinct_primes, is_ciphertext_of, try_decrypt_u8, PrivateKey, PublicKey,
};
use crate::serialization_json::json_byte_array;
use crate::stub;
use crate::text::{
    find_spec, in_class, join_spec, keep_non_empty, lemma_first_char_absent, lemma_non_empty_concat, lemma_split_concat, lemma_split_none,
    non_empty, trim_end_spec, trim_start_spec, split_class, split_spec, str_eq, trim_class, trim_spec, views,
    CharClass,
};

verus! {

/// An operand of a service: the parsed integer, or 0 where the text is not one.
pub open spec fn operand(s: Seq<char>) -> int {
    match parse_i32_spec(s) {
        Some(v) => v,
        None => 0,
    }
}

/// The operand texts of `data`: its pieces between single spaces, once trimmed.
pub open spec fn operand_texts(data: Seq<char>) -> Seq<Seq<char>> {
    split_spec(trim_spec(data, CharClass::Whitespace), CharClass::Exactly(' '))
}

/// The service that `name` selects, once trimmed.
pub open spec fn service_of(name: Seq<char>) -> Seq<char> {
    trim_spec(name, CharClass::Whitespace)
}

/// Whether the service can answer `name` and `data`: an arithmetic service
/// needs two operand texts and a result that is an `i32`.
pub open spec fn service_defined(name: Seq<char>, data: Seq<char>) -> bool {
    let ops = operand_texts(data);
    if service_of(name) == "add"@ {
        ops.len() >= 2 && stub::fits_i32(operand(ops[0]) + operand(ops[1]))
    } else if service_of(name) == "subtract"@ {
        ops.len() >= 2 && stub::fits_i32(operand(ops[0]) - operand(ops[1]))
    } else {
        true
    }
}

/// What the service `name` answers to `data`.
pub open spec fn service_reply(name: Seq<char>, data: Seq<char>) -> Seq<char> {
    let ops = operand_texts(data);
    if service_of(name) == "add"@ {
        signed_decimal(operand(ops[0]) + operand(ops[1]))
    } else if service_of(name) == "subtract"@ {
        signed_decimal(operand(ops[0]) - operand(ops[1]))
    } else {
        "Unknown request"@
    }
}

/// What a service answers, and whether it can, depends on the service name
/// and the first two operand texts alone: neither the data length that a
/// message reports nor later operands count.
pub proof fn lemma_reply_first_two_operands(name: Seq<char>, d1: Seq<char>, d2: Seq<char>)
    requires
        operand_texts(d1).len() >= 2,
        operand_texts(d2).len() >= 2,
        operand_texts(d1)[0] == operand_texts(d2)[0],
        operand_texts(d1)[1] == operand_texts(d2)[1],
    ensures
        service_defined(name, d1) == service_defined(name, d2),
        service_reply(name, d1) == service_reply(name, d2),
{
}

/// The arithmetic services answer with the exact result: the reply of `add`
/// parses back, as `str::parse::<i32>` reads text, to the sum of the two
/// operands, and that of `subtract` to their difference, wherever that
/// result is an `i32`; every other service answers "Unknown request".
pub proof fn lemma_arithmetic_reply(name: Seq<char>, data: Seq<char>)
    ensures
        ({
            let ops = operand_texts(data);
            service_of(name) == "add"@ && ops.len() >= 2 && i32::MIN <= operand(ops[0]) + operand(
                ops[1],
            ) <= i32::MAX ==> parse_i32_spec(service_reply(name, data)) == Some(
                operand(ops[0]) + operand(ops[1]),
            )
        }),
        ({
            let ops = operand_texts(data);
            service_of(name) == "subtract"@ && ops.len() >= 2 && i32::MIN <= operand(ops[0])
                - operand(ops[1]) <= i32::MAX ==> parse_i32_spec(service_reply(name, data))
                == Some(operand(ops[0]) - operand(ops[1]))
        }),
        service_of(name) != "add"@ && service_of(name) != "subtract"@ ==> service_reply(name, data)
            == "Unknown request"@,
{
    reveal_strlit("add");
    reveal_strlit("subtract");
    assert("add"@ != "subtract"@) by {
        assert("add"@.len() != "subtract"@.len());
    }
    let ops = operand_texts(data);
    if ops.len() >= 2 {
        let a = operand(ops[0]);
        let b = operand(ops[1]);
        if i32::MIN <= a + b <= i32::MAX {
            lemma_parse_i32_signed_decimal(a + b);
        }
        if i32::MIN <= a - b <= i32::MAX {
            lemma_parse_i32_signed_decimal(a - b);
        }
    }
}

/// A call of `add` or `subtract` can be answered exactly where it names two
/// operands and its exact result lies in the range of `i32`; a call of any
/// other service can always be answered.
pub proof fn lemma_answerable(name: Seq<char>, data: Seq<char>)
    ensures
        ({
            let ops = operand_texts(data);
            service_of(name) == "add"@ ==> (service_defined(name, data) <==> (ops.len() >= 2
                && i32::MIN <= operand(ops[0]) + operand(ops[1]) <= i32::MAX))
        }),
        ({
            let ops = operand_texts(data);
            service_of(name) == "subtract"@ ==> (service_defined(name, data) <==> (ops.len() >= 2
                && i32::MIN <= operand(ops[0]) - operand(ops[1]) <= i32::MAX))
        }),
        service_of(name) != "add"@ && service_of(name) != "subtract"@ ==> service_defined(
            name,
            data,
        ),
{
    reveal_strlit("add");
    reveal_strlit("subtract");
    assert("add"@ != "subtract"@) by {
        assert("add"@.len() != "subtract"@.len());
    }
}

/// No service reply holds the text `Error`: numbers are digits and a sign,
/// and the reply to an unknown service is "Unknown request".
pub proof fn lemma_service_reply_no_error(name: Seq<char>, data: Seq<char>)
    ensures
        find_spec(service_reply(name, data), "Error"@) is None,
{
    reveal_strlit("Error");
    reveal_strlit("Unknown request");
    let r = service_reply(name, data);
    let ops = operand_texts(data);
    if service_of(name) == "add"@ || service_of(name) == "subtract"@ {
        let v = if service_of(name) == "add"@ {
            operand(ops[0]) + operand(ops[1])
        } else {
            operand(ops[0]) - operand(ops[1])
        };
        assert(r == signed_decimal(v));
        let d = decimal((if v < 0 { -v } else { v }) as nat);
        lemma_decimal_digits((if v < 0 { -v } else { v }) as nat);
        assert forall|i: int| 0 <= i < r.len() implies #[trigger] r[i] != "Error"@[0] by {
            if v < 0 {
                assert(r == seq!['-'] + d);
                if i > 0 {
                    assert(r[i] == d[i - 1]);
                    assert(is_digit(d[i - 1]));
                }
            } else {
                assert(r == d);
                assert(is_digit(d[i]));
            }
        }
    }
    lemma_first_char_absent(r, "Error"@);
}

/// Parses an operand, 0 where the text is not an `i32`.
fn operand_value(s: &str) -> (res: i32)
    ensures
        res == operand(s@),
{
    match parse_i32(s) {
        Some(v) => v,
        None => 0,
    }
}

/// Runs the service that `mes` names on its data.
pub fn match_service(mes: Message) -> (res: String)
    requires
        service_defined(mes.service_name@, mes.data@),
    ensures
        res@ == service_reply(mes.service_name@, mes.data@),
{
    let name = trim_class(mes.service_name.as_str(), CharClass::Whitespace);
    let data = trim_class(mes.data.as_str(), CharClass::Whitespace);
    let parts = split_class(data, CharClass::Exactly(' '));
    proof {
        reveal_strlit("add");
        reveal_strlit("subtract");
        reveal_strlit("Unknown request");
    }
    if str_eq(name, "add") {
        proof {
            assert(views(parts@)[0] == parts@[0]@);
            assert(views(parts@)[1] == parts@[1]@);
        }
        let a = operand_value(parts[0]);
        let b = operand_value(parts[1]);
        signed_decimal_string(stub::add(a, b) as i64)
    } else if str_eq(name, "subtract") {
        proof {
            assert(views(parts@)[0] == parts@[0]@);
            assert(views(parts@)[1] == parts@[1]@);
        }
        let a = operand_value(parts[0]);
        let b = operand_value(parts[1]);
        signed_decimal_string(stub::subtract(a, b) as i64)
    } else {
        "Unknown request".to_owned()
    }
}

/// The number texts of a byte list: the pieces between whitespace and commas
/// of `s` without its surrounding brackets.
pub open spec fn byte_tokens(s: Seq<char>) -> Seq<Seq<char>> {
    non_empty(split_spec(trim_spec(s, CharClass::Bracket), CharClass::WhitespaceOrComma))
}

/// The bytes that the texts `ts` denote, or the error of the first that is
/// not a byte.
pub open spec fn parse_bytes_spec(ts: Seq<Seq<char>>) -> Result<Seq<u8>, IntErrorKind>
    decreases ts.len(),
{
    if ts.len() == 0 {
        Ok(Seq::empty())
    } else {
        match parse_bytes_spec(ts.drop_last()) {
            Err(e) => Err(e),
            Ok(vs) => match parse_u8_spec(ts.last()) {
                Ok(v) => Ok(vs.push(v as u8)),
                Err(e) => Err(e),
            },
        }
    }
}

/// The bytes of the byte list `s`.
pub open spec fn parse_byte_list_spec(s: Seq<char>) -> Result<Seq<u8>, IntErrorKind> {
    parse_bytes_spec(byte_tokens(s))
}

/// Reads a list of bytes written as `[b0, b1, ...]`: the brackets around it
/// are dropped, the numbers are the pieces between whitespace and commas.
pub fn parse_to_vec_u8(input: &str) -> (res: Result<Vec<u8>, ParseIntError>)
    ensures
        match res {
            Ok(v) => parse_byte_list_spec(input@) == Ok::<Seq<u8>, IntErrorKind>(v@),
            Err(e) => parse_byte_list_spec(input@) == Err::<Seq<u8>, IntErrorKind>(e.kind),
        },
{
    let trimmed = trim_class(input, CharClass::Bracket);
    let pieces = split_class(trimmed, CharClass::WhitespaceOrComma);
    let parts = keep_non_empty(&pieces);
    let ghost ts = views(parts@);
    let mut out: Vec<u8> = Vec::new();
    let mut i: usize = 0;
    while i < parts.len()
        invariant
            ts == views(parts@),
            ts == byte_tokens(input@),
            i <= parts.len(),
            parse_bytes_spec(ts.take(i as int)) == Ok::<Seq<u8>, IntErrorKind>(out@),
        decreases parts.len() - i,
    {
        proof {
            assert(ts.take(i + 1).drop_last() =~= ts.take(i as int));
            assert(ts.take(i + 1).last() == parts@[i as int]@);
        }
        match parse_u8(parts[i]) {
            Ok(b) => {
                out.push(b);
            },
            Err(e) => {
                proof {
                    lemma_parse_bytes_prefix_err(ts, i + 1, e.kind);
                }
                return Err(e);
            },
        }
        i = i + 1;
    }
    proof {
        assert(ts.take(parts.len() as int) =~= ts);
    }
    Ok(out)
}

/// An error in a prefix of the texts is the error of all of them.
pub proof fn lemma_parse_bytes_prefix_err(ts: Seq<Seq<char>>, k: int, e: IntErrorKind)
    requires
        0 <= k <= ts.len(),
        parse_bytes_spec(ts.take(k)) == Err::<Seq<u8>, IntErrorKind>(e),
    ensures
        parse_bytes_spec(ts) == Err::<Seq<u8>, IntErrorKind>(e),
    decreases ts.len() - k,
{
    if k < ts.len() {
        assert(ts.take(k + 1).drop_last() =~= ts.take(k));
        lemma_parse_bytes_prefix_err(ts, k + 1, e);
    } else {
        assert(ts.take(k) =~= ts);
    }
}

/// The numbers of `v` in decimal, separated by `", "`.
pub open spec fn byte_list_items(v: Seq<u8>) -> Seq<char>
    decreases v.len(),
{
    if v.len() == 0 {
        Seq::empty()
    } else if v.len() == 1 {
        decimal(v[0] as nat)
    } else {
        byte_list_items(v.drop_last()) + seq![',', ' '] + decimal(v.last() as nat)
    }
}

/// The text of the byte list `v`, as `{:?}` writes a `Vec<u8>`: `[b0, b1, ...]`.
pub open spec fn byte_list_text(v: Seq<u8>) -> Seq<char> {
    seq!['['] + byte_list_items(v) + seq![']']
}

/// Writes `v` as a byte list, `[b0, b1, ...]` (the `{:?}` text of a `Vec<u8>`).
pub fn format_byte_list(v: &[u8]) -> (res: String)
    ensures
        res@ == byte_list_text(v@),
{
    let mut s = String::new();
    s.append("[");
    let mut i: usize = 0;
    proof {
        reveal_strlit("[");
        reveal_strlit("]");
        reveal_strlit(", ");
        assert(v@.take(0) =~= Seq::<u8>::empty());
        assert(s@ =~= seq!['['] + byte_list_items(v@.take(0)));
    }
    while i < v.len()
        invariant
            i <= v.len(),
            s@ == seq!['['] + byte_list_items(v@.take(i as int)),
        decreases v.len() - i,
    {
        let ghost before = s@;
        proof {
            reveal_strlit(", ");
        }
        if i > 0 {
            s.append(", ");
        }
        let ghost mid = s@;
        let d = decimal_string(v[i] as u64);
        s.append(d.as_str());
        proof {
            assert(s@ == mid + d@);
            if i > 0 {
                assert(mid == before + seq![',', ' ']);
            } else {
                assert(mid == before);
            }
            let t = v@.take(i + 1);
            assert(t.drop_last() =~= v@.take(i as int));
            assert(t.last() == v@[i as int]);
            if i == 0 {
                assert(s@ =~= seq!['['] + byte_list_items(t));
            } else {
                assert(s@ =~= seq!['['] + byte_list_items(t));
            }
        }
        i = i + 1;
    }
    s.append("]");
    proof {
        assert(v@.take(v.len() as int) =~= v@);
    }
    s
}

/// The items of a byte list are digits, commas and spaces, and begin and end
/// with a digit.
pub proof fn lemma_items_shape(v: Seq<u8>)
    ensures
        forall|i: int|
            0 <= i < byte_list_items(v).len() ==> {
                let c = #[trigger] byte_list_items(v)[i];
                is_digit(c) || c == ',' || c == ' '
            },
        v.len() > 0 ==> byte_list_items(v).len() > 0 && is_digit(byte_list_items(v)[0])
            && is_digit(byte_list_items(v).last()),
    decreases v.len(),
{
    if v.len() == 1 {
        lemma_decimal_digits(v[0] as nat);
    } else if v.len() > 1 {
        lemma_items_shape(v.drop_last());
        lemma_decimal_digits(v.last() as nat);
        let a = byte_list_items(v.drop_last());
        let d = decimal(v.last() as nat);
        let it = byte_list_items(v);
        assert(it == a + seq![',', ' '] + d);
        assert forall|i: int| 0 <= i < it.len() implies {
            let c = #[trigger] it[i];
            is_digit(c) || c == ',' || c == ' '
        } by {
            if i < a.len() {
                assert(it[i] == a[i]);
            } else if i >= a.len() + 2 {
                assert(it[i] == d[i - a.len() - 2]);
            }
        }
        assert(it[0] == a[0]);
        assert(it.last() == d.last());
    }
}

/// The number texts of a byte list are the decimal texts of its bytes.
proof fn lemma_items_tokens(v: Seq<u8>)
    ensures
        non_empty(split_spec(byte_list_items(v), CharClass::WhitespaceOrComma)) == decimal_texts(
            v,
        ),
    decreases v.len(),
{
    let class = CharClass::WhitespaceOrComma;
    if v.len() == 0 {
        assert(split_spec(Seq::<char>::empty(), class) == seq![Seq::<char>::empty()]);
        assert(seq![Seq::<char>::empty()].drop_last() =~= Seq::<Seq<char>>::empty());
        assert(non_empty(seq![Seq::<char>::empty()]) =~= non_empty(
            Seq::<Seq<char>>::empty(),
        ));
        assert(decimal_texts(v) =~= Seq::<Seq<char>>::empty());
    } else {
        let d = decimal(v.last() as nat);
        lemma_decimal_digits(v.last() as nat);
        assert forall|i: int| 0 <= i < d.len() implies !in_class(class, #[trigger] d[i]) by {
            assert(is_digit(d[i]));
        }
        lemma_split_none(d, class);
        assert(seq![d].drop_last() =~= Seq::<Seq<char>>::empty());
        assert(non_empty(seq![d]) =~= non_empty(Seq::<Seq<char>>::empty()).push(d));
        if v.len() == 1 {
            assert(decimal_texts(v) =~= seq![d]);
        } else {
            let a = byte_list_items(v.drop_last());
            lemma_items_tokens(v.drop_last());
            assert(a + seq![',', ' '] + d =~= a + seq![','] + (seq![' '] + d));
            lemma_split_concat(a, ',', seq![' '] + d, class);
            assert(split_spec(seq![' '] + d, class) =~= seq![Seq::<char>::empty()] + split_spec(
                d,
                class,
            )) by {
                assert((seq![' '] + d).drop_first() =~= d);
            }
            let sa = split_spec(a, class);
            lemma_non_empty_concat(sa, seq![Seq::<char>::empty()] + seq![d]);
            lemma_non_empty_concat(seq![Seq::<char>::empty()], seq![d]);
            assert(non_empty(seq![Seq::<char>::empty()]) =~= Seq::<Seq<char>>::empty()) by {
                assert(seq![Seq::<char>::empty()].drop_last() =~= Seq::<Seq<char>>::empty());
            }
            assert(decimal_texts(v) =~= decimal_texts(v.drop_last()).push(d));
            assert(non_empty(sa) + (Seq::<Seq<char>>::empty() + seq![d]) =~= decimal_texts(
                v.drop_last(),
            ).push(d));
        }
    }
}

/// The decimal texts of bytes parse back as those bytes.
proof fn lemma_tokens_parse(v: Seq<u8>)
    ensures
        parse_bytes_spec(decimal_texts(v)) == Ok::<Seq<u8>, IntErrorKind>(v),
    decreases v.len(),
{
    if v.len() > 0 {
        lemma_tokens_parse(v.drop_last());
        assert(decimal_texts(v).drop_last() =~= decimal_texts(v.drop_last()));
        lemma_parse_u8_decimal(v.last());
        assert(v.drop_last().push(v.last()) =~= v);
    } else {
        assert(v =~= Seq::<u8>::empty());
    }
}

/// Stripping the brackets around a text that neither begins nor ends with a
/// bracket leaves the text.
proof fn lemma_trim_wrapped(inner: Seq<char>)
    requires
        inner.len() > 0 ==> !in_class(CharClass::Bracket, inner[0]) && !in_class(
            CharClass::Bracket,
            inner.last(),
        ),
    ensures
        trim_spec(seq!['['] + inner + seq![']'], CharClass::Bracket) == inner,
{
    let class = CharClass::Bracket;
    let t = seq!['['] + inner + seq![']'];
    assert(t.drop_first() =~= inner + seq![']']);
    assert((inner + seq![']']).drop_last() =~= inner);
    assert(t[0] == '[');
    assert(trim_start_spec(t, class) == trim_start_spec(inner + seq![']'], class));
    if inner.len() == 0 {
        assert(inner + seq![']'] =~= seq![']']);
        assert(seq![']'].drop_first() =~= Seq::<char>::empty());
        assert(trim_start_spec(seq![']'], class) == trim_start_spec(Seq::<char>::empty(), class));
        assert(trim_start_spec(t, class) =~= Seq::<char>::empty());
        assert(trim_end_spec(Seq::<char>::empty(), class) =~= Seq::<char>::empty());
        assert(inner =~= Seq::<char>::empty());
    } else {
        assert((inner + seq![']'])[0] == inner[0]);
        assert(trim_start_spec(t, class) == inner + seq![']']);
        assert((inner + seq![']']).last() == ']');
        assert(trim_end_spec(inner + seq![']'], class) == trim_end_spec(inner, class));
        assert(trim_end_spec(inner, class) == inner);
    }
}

/// Stripping the brackets of a byte list leaves its items.
proof fn lemma_trim_brackets(v: Seq<u8>)
    ensures
        trim_spec(byte_list_text(v), CharClass::Bracket) == byte_list_items(v),
{
    lemma_items_shape(v);
    lemma_trim_wrapped(byte_list_items(v));
}

/// Reading back the text of a byte list gives the bytes that were written.
pub proof fn lemma_byte_list_roundtrip(v: Seq<u8>)
    ensures
        parse_byte_list_spec(byte_list_text(v)) == Ok::<Seq<u8>, IntErrorKind>(v),
{
    lemma_trim_brackets(v);
    lemma_items_tokens(v);
    lemma_tokens_parse(v);
}

/// The decimal texts of bytes joined with `,` split back into those texts,
/// and begin and end with a digit.
proof fn lemma_comma_join_split(v: Seq<u8>)
    requires
        v.len() > 0,
    ensures
        split_spec(join_spec(decimal_texts(v), seq![',']), CharClass::WhitespaceOrComma)
            == decimal_texts(v),
        join_spec(decimal_texts(v), seq![',']).len() > 0,
        is_digit(join_spec(decimal_texts(v), seq![','])[0]),
        is_digit(join_spec(decimal_texts(v), seq![',']).last()),
    decreases v.len(),
{
    let class = CharClass::WhitespaceOrComma;
    let ts = decimal_texts(v);
    let d = decimal(v.last() as nat);
    lemma_decimal_digits(v.last() as nat);
    assert forall|i: int| 0 <= i < d.len() implies !in_class(class, #[trigger] d[i]) by {
        assert(is_digit(d[i]));
    }
    lemma_split_none(d, class);
    assert(ts.last() == d);
    if v.len() == 1 {
        assert(join_spec(ts, seq![',']) == d);
        assert(ts =~= seq![d]);
    } else {
        let a = join_spec(ts.drop_last(), seq![',']);
        assert(ts.drop_last() =~= decimal_texts(v.drop_last()));
        lemma_comma_join_split(v.drop_last());
        assert(join_spec(ts, seq![',']) == a + seq![','] + d);
        lemma_split_concat(a, ',', d, class);
        assert(ts =~= decimal_texts(v.drop_last()) + seq![d]);
        assert((a + seq![','] + d)[0] == a[0]);
        assert((a + seq![','] + d).last() == d.last());
    }
}

/// Texts that are all non-empty are kept as they are.
pub proof fn lemma_non_empty_all(ts: Seq<Seq<char>>)
    requires
        forall|i: int| 0 <= i < ts.len() ==> (#[trigger] ts[i]).len() > 0,
    ensures
        non_empty(ts) == ts,
    decreases ts.len(),
{
    if ts.len() > 0 {
        assert(ts.last() == ts[ts.len() - 1]);
        lemma_non_empty_all(ts.drop_last());
        assert(ts.drop_last().push(ts.last()) =~= ts);
    }
}

/// The byte-list reader reads the JSON array that [`serde_vec`] writes as
/// the bytes that were written.
///
/// [`serde_vec`]: crate::serialization_json::serde_vec
pub proof fn lemma_json_array_roundtrip(v: Seq<u8>)
    ensures
        parse_byte_list_spec(json_byte_array(v)) == Ok::<Seq<u8>, IntErrorKind>(v),
{
    let inner = join_spec(decimal_texts(v), seq![',']);
    assert(json_byte_array(v) == seq!['['] + inner + seq![']']);
    if v.len() == 0 {
        assert(inner =~= Seq::<char>::empty());
        lemma_trim_wrapped(inner);
        assert(split_spec(inner, CharClass::WhitespaceOrComma) == seq![Seq::<char>::empty()]);
        assert(seq![Seq::<char>::empty()].drop_last() =~= Seq::<Seq<char>>::empty());
        assert(non_empty(seq![Seq::<char>::empty()]) == non_empty(Seq::<Seq<char>>::empty()));
        assert(byte_tokens(json_byte_array(v)) =~= Seq::<Seq<char>>::empty());
        assert(v =~= Seq::<u8>::empty());
    } else {
        lemma_comma_join_split(v);
        lemma_trim_wrapped(inner);
        assert forall|i: int| 0 <= i < decimal_texts(v).len() implies (#[trigger] decimal_texts(
            v,
        )[i]).len() > 0 by {
            lemma_decimal_digits(v[i] as nat);
        }
        lemma_non_empty_all(decimal_texts(v));
        lemma_tokens_parse(v);
    }
}

/// What the server makes of a request body.
pub enum ClientRequest {
    /// The body is not a byte list.
    Malformed,
    /// The bytes do not decrypt with the server's key.
    Undecryptable,
    /// The decrypted message.
    Payload(Vec<u8>),
}

/// `res` is what the server makes of the request body `data` with `key`:
/// "malformed" where `data` is not a byte list, otherwise the decryption of
/// its bytes, "undecryptable" where there is none.
pub open spec fn decodes(res: ClientRequest, data: Seq<char>, key: PrivateKey) -> bool {
    match res {
        ClientRequest::Malformed => parse_byte_list_spec(data) is Err,
        ClientRequest::Undecryptable => parse_byte_list_spec(data) matches Ok(ct)
            && key.decryption(ct) is None,
        ClientRequest::Payload(m) => parse_byte_list_spec(data) matches Ok(ct) && key.decryption(ct)
            == Some(m@),
    }
}

/// Reads the byte list `req_data` and decrypts it with `private_key`:
/// `None` where `req_data` is not a byte list; the bytes of a byte list must
/// decrypt. A byte list of a ciphertext of `msg` under the matching public
/// key gives `msg`, where the key's prime factors are distinct primes. The
/// client's key is not used: replies are encrypted by the handler.
pub fn handle_client(
    req_data: &str,
    private_key: &PrivateKey,
    _client_public_key: &PublicKey,
) -> (res: Option<Vec<u8>>)
    requires
        parse_byte_list_spec(req_data@) matches Ok(ct) ==> private_key.decryption(ct) is Some,
    ensures
        match res {
            None => parse_byte_list_spec(req_data@) is Err,
            Some(m) => parse_byte_list_spec(req_data@) matches Ok(ct) && private_key.decryption(ct)
                == Some(m@),
        },
        forall|ct: Seq<u8>, msg: Seq<u8>|
            req_data@ == byte_list_text(ct) && #[trigger] is_ciphertext_of(
                private_key.modulus(),
                private_key.exponent(),
                msg,
                ct,
            ) && distinct_primes(private_key.factors()) ==> (res matches Some(m) && m@ == msg),
{
    let bytes = match parse_to_vec_u8(req_data) {
        Ok(v) => v,
        Err(_) => {
            proof {
                assert forall|ct: Seq<u8>| req_data@ != byte_list_text(ct) by {
                    lemma_byte_list_roundtrip(ct);
                }
            }
            return None;
        },
    };
    proof {
        assert forall|ct: Seq<u8>| req_data@ == byte_list_text(ct) implies ct == bytes@ by {
            lemma_byte_list_roundtrip(ct);
        }
    }
    Some(decrypt_u8(private_key, bytes.as_slice()))
}

/// What the server makes of the request body `req_data` (see [`decodes`]):
/// it tests whether the bytes decrypt before it reads them with
/// [`handle_client`].
pub fn decode_request(
    req_data: &str,
    private_key: &PrivateKey,
    client_public_key: &PublicKey,
) -> (res: ClientRequest)
    ensures
        decodes(res, req_data@, *private_key),
{
    let bytes = match parse_to_vec_u8(req_data) {
        Ok(v) => v,
        Err(_) => return ClientRequest::Malformed,
    };
    if try_decrypt_u8(private_key, bytes.as_slice()).is_none() {
        return ClientRequest::Undecryptable;
    }
    match handle_client(req_data, private_key, client_public_key) {
        Some(m) => ClientRequest::Payload(m),
        None => {
            proof {
                assert(false);
            }
            ClientRequest::Malformed
        },
    }
}

/// The reply to a request that failed to parse with the error text `e`.
pub open spec fn parse_error_reply(e: Seq<char>) -> Seq<char> {
    "Error parsing message: "@ + e
}

/// The reply to a parsed message, or to the error text of a failed parse.
pub fn reply_to(parsed: Result<Message, String>) -> (res: String)
    requires
        parsed matches Ok(m) ==> service_defined(m.service_name@, m.data@),
    ensures
        match parsed {
            Ok(m) => res@ == service_reply(m.service_name@, m.data@),
            Err(e) => res@ == parse_error_reply(e@),
        },
{
    match parsed {
        Ok(mes) => match_service(mes),
        Err(e) => {
            let mut s = "Error parsing message: ".to_owned();
            s.append(e.as_str());
            s
        },
    }
}

/// Whether `mes` can be answered (see [`service_defined`]).
pub fn service_is_defined(mes: &Message) -> (res: bool)
    ensures
        res == service_defined(mes.service_name@, mes.data@),
{
    let name = trim_class(mes.service_name.as_str(), CharClass::Whitespace);
    let data = trim_class(mes.data.as_str(), CharClass::Whitespace);
    let parts = split_class(data, CharClass::Exactly(' '));
    proof {
        reveal_strlit("add");
        reveal_strlit("subtract");
    }
    let is_add = str_eq(name, "add");
    let is_sub = str_eq(name, "subtract");
    if !is_add && !is_sub {
        return true;
    }
    if parts.len() < 2 {
        return false;
    }
    proof {
        assert(views(parts@)[0] == parts@[0]@);
        assert(views(parts@)[1] == parts@[1]@);
    }
    let a = operand_value(parts[0]) as i64;
    let b = operand_value(parts[1]) as i64;
    let r = if is_add {
        a + b
    } else {
        a - b
    };
    i32::MIN as i64 <= r && r <= i32::MAX as i64
}

} // verus!
