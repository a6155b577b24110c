//! What the plain TCP server answers: its services take fixed operands.

use vstd::prelude::*;
use crate::decimal::{signed_decimal, signed_decimal_string};
use crate::message::Message;
use crate::stub;
use crate::text::{str_eq, trim_class, trim_spec, CharClass};

verus! {

/// What the TCP server answers to a call of the service `name`: `add`
/// answers 1 + 2, `subtract` answers 5 - 3.
pub open spec fn tcp_reply(name: Seq<char>) -> Seq<char> {
    let n = trim_spec(name, CharClass::Whitespace);
    if n == "add"@ {
        signed_decimal(3)
    } else if n == "subtract"@ {
        signed_decimal(2)
    } else {
        "Unknown request"@
    }
}

/// Runs the service that `mes` names on the server's fixed operands.
pub fn match_service(mes: Message) -> (res: String)
    ensures
        res@ == tcp_reply(mes.service_name@),
{
    let name = trim_class(mes.service_name.as_str(), CharClass::Whitespace);
    proof {
        reveal_strlit("add");
        reveal_strlit("subtract");
        reveal_strlit("Unknown request");
    }
    if str_eq(name, "add") {
        signed_decimal_string(stub::add(1, 2) as i64)
    } else if str_eq(name, "subtract") {
        signed_decimal_string(stub::subtract(5, 3) as i64)
    } else {
        "Unknown request".to_owned()
    }
}

} // verus!
