//! What a request for a trace says of what is traced.
use vstd::prelude::*;

use crate::hex_text::{lemma_hex_injective, lemma_hex_number_injective, hex_number, hex_of};
use crate::json::{
    decimal, lemma_field_of_same, lemma_same_fields, lemma_same_json_reflexive, same_json, Json,
};
use crate::rlp_item::{be_value, lemma_be_value_injective};
use crate::trace::{
    call_fields, hex_json, is_diff_tracer, is_request, is_trace_call_body,
    is_trace_transaction_body, params_of, quantity_json, PendingTransaction,
};

verus! {

/// Whether two transactions make the same call.
pub open spec fn same_call(a: PendingTransaction, b: PendingTransaction) -> bool {
    &&& a.from@ == b.from@
    &&& match (a.to, b.to) {
        (Some(x), Some(y)) => x@ == y@,
        (None, None) => true,
        _ => false,
    }
    &&& a.input@ == b.input@
    &&& a.gas@ == b.gas@
    &&& match (a.gas_price, b.gas_price) {
        (Some(x), Some(y)) => x@ == y@,
        (None, None) => true,
        _ => false,
    }
    &&& a.value@ == b.value@
}

proof fn lemma_hex_json(a: Seq<u8>, b: Seq<u8>)
    requires
        hex_json(a) == hex_json(b),
    ensures
        a == b,
{
    let x = "0x"@ + hex_of(a);
    let y = "0x"@ + hex_of(b);
    let n = "0x"@.len() as int;
    assert(hex_of(a) =~= x.skip(n));
    assert(hex_of(b) =~= y.skip(n));
    lemma_hex_injective(a, b);
}

proof fn lemma_quantity_json(m: nat, n: nat)
    requires
        quantity_json(m) == quantity_json(n),
    ensures
        m == n,
{
    let x = "0x"@ + hex_number(m);
    let y = "0x"@ + hex_number(n);
    let k = "0x"@.len() as int;
    assert(hex_number(m) =~= x.skip(k));
    assert(hex_number(n) =~= y.skip(k));
    lemma_hex_number_injective(m, n);
}

/// What each field of a call holds.
proof fn lemma_call_fields(tx: PendingTransaction)
    ensures
        call_fields(tx).dom() == set!["from"@, "to"@, "data"@, "gas"@, "gasPrice"@, "value"@],
        call_fields(tx)["from"@] == hex_json(tx.from@),
        call_fields(tx)["to"@] == (match tx.to {
            Some(address) => hex_json(address@),
            None => Json::Null,
        }),
        call_fields(tx)["data"@] == hex_json(tx.input@),
        call_fields(tx)["gas"@] == quantity_json(be_value(tx.gas@)),
        call_fields(tx)["gasPrice"@] == (match tx.gas_price {
            Some(price) => quantity_json(be_value(price@)),
            None => Json::Null,
        }),
        call_fields(tx)["value"@] == quantity_json(be_value(tx.value@)),
{
    reveal_strlit("from");
    reveal_strlit("to");
    reveal_strlit("data");
    reveal_strlit("gas");
    reveal_strlit("gasPrice");
    reveal_strlit("value");
    assert("from"@.len() == 4 && "to"@.len() == 2 && "data"@.len() == 4);
    assert("gas"@.len() == 3 && "gasPrice"@.len() == 8 && "value"@.len() == 5);
    assert("from"@[0] != "data"@[0]);
    assert(call_fields(tx).dom() =~= set!["from"@, "to"@, "data"@, "gas"@, "gasPrice"@, "value"@]);
}

/// What each field of a request holds.
proof fn lemma_request_fields(json: Json, method: Seq<char>, params: Seq<Json>)
    requires
        is_request(json, method, params),
    ensures
        json is Object,
        json.fields().dom() == set!["jsonrpc"@, "method"@, "params"@, "id"@],
        json.fields()["jsonrpc"@] == Json::Str("2.0"@),
        json.fields()["method"@] == Json::Str(method),
        json.fields()["params"@] == Json::Array(params),
        json.fields()["id"@] == Json::Number(decimal(1)),
{
    reveal_strlit("jsonrpc");
    reveal_strlit("method");
    reveal_strlit("params");
    reveal_strlit("id");
    assert("jsonrpc"@.len() == 7 && "method"@.len() == 6 && "params"@.len() == 6);
    assert("id"@.len() == 2);
    assert("method"@[0] != "params"@[0]);
    assert(json.fields().dom() =~= set!["jsonrpc"@, "method"@, "params"@, "id"@]);
}

/// Requests with the same parameters are the same.
proof fn lemma_same_requests(
    a: Json,
    b: Json,
    method: Seq<char>,
    x: Seq<Json>,
    y: Seq<Json>,
)
    requires
        is_request(a, method, x),
        is_request(b, method, y),
    ensures
        same_json(a, b) <==> same_json(Json::Array(x), Json::Array(y)),
{
    lemma_request_fields(a, method, x);
    lemma_request_fields(b, method, y);
    if same_json(a, b) {
        lemma_field_of_same(a, b, "params"@);
    }
    if same_json(Json::Array(x), Json::Array(y)) {
        assert forall|name: Seq<char>|
            match (#[trigger] a.get(name), b.get(name)) {
                (Some(v), Some(w)) => same_json(v, w),
                (None, None) => true,
                _ => false,
            } by {
            assert(a.fields().dom().contains(name) == b.fields().dom().contains(name));
            if a.get(name) is Some {
                assert(a.fields().dom().contains(name));
                assert(a.fields()[name] == a.get(name)->Some_0);
                assert(b.fields()[name] == b.get(name)->Some_0);
                if name != "params"@ {
                    assert(a.fields()[name] == b.fields()[name]);
                    lemma_same_json_reflexive(a.fields()[name]);
                }
            }
        }
    }
}

proof fn lemma_same_tracers(a: Json, b: Json)
    requires
        is_diff_tracer(a),
        is_diff_tracer(b),
    ensures
        same_json(a, b),
{
    lemma_same_fields(a.fields()["tracerConfig"@], b.fields()["tracerConfig"@]);
    assert forall|name: Seq<char>|
        match (#[trigger] a.get(name), b.get(name)) {
            (Some(v), Some(w)) => same_json(v, w),
            (None, None) => true,
            _ => false,
        } by {
        assert(a.fields().dom().contains(name) == b.fields().dom().contains(name));
        if a.get(name) is Some {
            assert(a.fields().dom().contains(name));
            assert(a.fields()[name] == a.get(name)->Some_0);
            assert(b.fields()[name] == b.get(name)->Some_0);
            if name == "tracer"@ {
                lemma_same_json_reflexive(a.fields()[name]);
            }
        }
    }
}

/// Descriptions of calls are the same exactly if the calls are.
proof fn lemma_same_calls(a: Json, s: PendingTransaction, b: Json, t: PendingTransaction)
    requires
        a.is_object_of(call_fields(s)),
        b.is_object_of(call_fields(t)),
    ensures
        same_json(a, b) <==> same_call(s, t),
{
    lemma_call_fields(s);
    lemma_call_fields(t);
    if same_json(a, b) {
        lemma_field_of_same(a, b, "from"@);
        lemma_field_of_same(a, b, "to"@);
        lemma_field_of_same(a, b, "data"@);
        lemma_field_of_same(a, b, "gas"@);
        lemma_field_of_same(a, b, "gasPrice"@);
        lemma_field_of_same(a, b, "value"@);
        lemma_hex_json(s.from@, t.from@);
        lemma_hex_json(s.input@, t.input@);
        match (s.to, t.to) {
            (Some(x), Some(y)) => lemma_hex_json(x@, y@),
            _ => {},
        }
        lemma_quantity_json(be_value(s.gas@), be_value(t.gas@));
        lemma_be_value_injective(s.gas@, t.gas@);
        match (s.gas_price, t.gas_price) {
            (Some(x), Some(y)) => {
                lemma_quantity_json(be_value(x@), be_value(y@));
                lemma_be_value_injective(x@, y@);
            },
            _ => {},
        }
        lemma_quantity_json(be_value(s.value@), be_value(t.value@));
        lemma_be_value_injective(s.value@, t.value@);
    }
    if same_call(s, t) {
        assert(call_fields(s) =~= call_fields(t));
        lemma_same_fields(a, b);
    }
}

/// Two requests to trace a call are the same, but for the order of fields,
/// exactly if they name the same block and their transactions agree on sender,
/// receiver, data, gas, gas price and value.
pub proof fn law_trace_call_body_determines_call(
    a: Json,
    s: PendingTransaction,
    m: u64,
    b: Json,
    t: PendingTransaction,
    n: u64,
)
    requires
        is_trace_call_body(a, s, m),
        is_trace_call_body(b, t, n),
    ensures
        same_json(a, b) <==> m == n && same_call(s, t),
{
    let x = params_of(a);
    let y = params_of(b);
    lemma_same_requests(a, b, "debug_traceCall"@, x, y);
    lemma_same_calls(x[0], s, y[0], t);
    lemma_same_tracers(x[2], y[2]);
    if same_json(Json::Array(x), Json::Array(y)) {
        assert(same_json(x[0], y[0]) && same_json(x[1], y[1]));
        lemma_quantity_json(m as nat, n as nat);
    }
    if m == n && same_call(s, t) {
        assert forall|i: int| 0 <= i < x.len() implies same_json(#[trigger] x[i], y[i]) by {
            assert(i == 0 || i == 1 || i == 2);
        }
    }
}

/// Two requests to trace a mined transaction are the same, but for the order of
/// fields, exactly if they name the same transaction.
pub proof fn law_trace_transaction_body_determines_hash(
    a: Json,
    s: Seq<u8>,
    b: Json,
    t: Seq<u8>,
)
    requires
        is_trace_transaction_body(a, s),
        is_trace_transaction_body(b, t),
    ensures
        same_json(a, b) <==> s == t,
{
    let x = params_of(a);
    let y = params_of(b);
    lemma_same_requests(a, b, "debug_traceTransaction"@, x, y);
    lemma_same_tracers(x[1], y[1]);
    if same_json(Json::Array(x), Json::Array(y)) {
        assert(same_json(x[0], y[0]));
        lemma_hex_json(s, t);
    }
    if s == t {
        assert forall|i: int| 0 <= i < x.len() implies same_json(#[trigger] x[i], y[i]) by {
            assert(i == 0 || i == 1);
        }
    }
}

/// Whether a value is an object that asks for the prestate tracer in diff mode,
/// and for nothing else.
pub open spec fn asks_for_differences(json: Json) -> bool {
    &&& json is Object
    &&& json.get("tracer"@) == Some(Json::Str("prestateTracer"@))
    &&& match json.get("tracerConfig"@) {
        Some(config) => {
            &&& config is Object
            &&& config.get("diffMode"@) == Some(Json::Bool(true))
            &&& forall|name: Seq<char>| #[trigger]
                config.get(name) is Some ==> name == "diffMode"@
        },
        None => false,
    }
    &&& forall|name: Seq<char>| #[trigger]
        json.get(name) is Some ==> name == "tracer"@ || name == "tracerConfig"@
}

/// Whether a value is a JSON-RPC request for a method with the given parameters.
pub open spec fn asks_for(json: Json, method: Seq<char>, params: Seq<Json>) -> bool {
    &&& json is Object
    &&& json.get("jsonrpc"@) == Some(Json::Str("2.0"@))
    &&& json.get("method"@) == Some(Json::Str(method))
    &&& json.get("params"@) == Some(Json::Array(params))
    &&& json.get("id"@) == Some(Json::Number(seq!['1']))
    &&& forall|name: Seq<char>| #[trigger]
        json.get(name) is Some ==> name == "jsonrpc"@ || name == "method"@ || name == "params"@
            || name == "id"@
}

proof fn lemma_got(json: Json, fields: Map<Seq<char>, Json>, name: Seq<char>)
    requires
        json.fields() == fields,
    ensures
        fields.dom().contains(name) <==> json.get(name) is Some,
        fields.dom().contains(name) ==> json.get(name) == Some(fields[name]),
{
    assert(json.fields().dom().contains(name) == (json.get(name) is Some));
}

proof fn lemma_asks_for(json: Json, method: Seq<char>, params: Seq<Json>)
    requires
        is_request(json, method, params),
    ensures
        asks_for(json, method, params),
{
    lemma_request_fields(json, method, params);
    let fields = json.fields();
    lemma_got(json, fields, "jsonrpc"@);
    lemma_got(json, fields, "method"@);
    lemma_got(json, fields, "params"@);
    lemma_got(json, fields, "id"@);
    assert(decimal(1) =~= seq!['1']);
    assert forall|name: Seq<char>| #[trigger] json.get(name) is Some implies name == "jsonrpc"@
        || name == "method"@ || name == "params"@ || name == "id"@ by {
        lemma_got(json, fields, name);
    }
}

proof fn lemma_asks_for_differences(json: Json)
    requires
        is_diff_tracer(json),
    ensures
        asks_for_differences(json),
{
    let fields = json.fields();
    lemma_got(json, fields, "tracer"@);
    lemma_got(json, fields, "tracerConfig"@);
    let config = fields["tracerConfig"@];
    let inner = map!["diffMode"@ => Json::Bool(true)];
    lemma_got(config, inner, "diffMode"@);
    assert forall|name: Seq<char>| #[trigger] config.get(name) is Some implies name
        == "diffMode"@ by {
        lemma_got(config, inner, name);
    }
    assert forall|name: Seq<char>| #[trigger] json.get(name) is Some implies name == "tracer"@
        || name == "tracerConfig"@ by {
        lemma_got(json, fields, name);
    }
}

/// Whether a value describes the call of a transaction, and nothing else: bytes
/// are written with two digits each, numbers without leading zeros, and what the
/// transaction lacks as null.
pub open spec fn describes_call(call: Json, tx: PendingTransaction) -> bool {
    &&& call is Object
    &&& call.get("from"@) == Some(Json::Str("0x"@ + hex_of(tx.from@)))
    &&& call.get("to"@) == Some(
        match tx.to {
            Some(address) => Json::Str("0x"@ + hex_of(address@)),
            None => Json::Null,
        },
    )
    &&& call.get("data"@) == Some(Json::Str("0x"@ + hex_of(tx.input@)))
    &&& call.get("gas"@) == Some(Json::Str("0x"@ + hex_number(be_value(tx.gas@))))
    &&& call.get("gasPrice"@) == Some(
        match tx.gas_price {
            Some(price) => Json::Str("0x"@ + hex_number(be_value(price@))),
            None => Json::Null,
        },
    )
    &&& call.get("value"@) == Some(Json::Str("0x"@ + hex_number(be_value(tx.value@))))
    &&& forall|name: Seq<char>| #[trigger]
        call.get(name) is Some ==> name == "from"@ || name == "to"@ || name == "data"@ || name
            == "gas"@ || name == "gasPrice"@ || name == "value"@
}

/// A request to trace a call names the sender, the receiver, the data, the gas, the
/// gas price and the value of the transaction, the block on top of which it is
/// traced, and the tracer, and nothing else.
pub proof fn law_trace_call_body_names_every_field(
    json: Json,
    tx: PendingTransaction,
    block_number: u64,
)
    requires
        is_trace_call_body(json, tx, block_number),
    ensures
        exists|params: Seq<Json>|
            {
                &&& #[trigger] asks_for(json, "debug_traceCall"@, params)
                &&& params.len() == 3
                &&& describes_call(params[0], tx)
                &&& params[1] == Json::Str("0x"@ + hex_number(block_number as nat))
                &&& asks_for_differences(params[2])
            },
{
    let params = params_of(json);
    lemma_asks_for(json, "debug_traceCall"@, params);
    lemma_asks_for_differences(params[2]);
    let call = params[0];
    let fields = call_fields(tx);
    lemma_call_fields(tx);
    lemma_got(call, fields, "from"@);
    lemma_got(call, fields, "to"@);
    lemma_got(call, fields, "data"@);
    lemma_got(call, fields, "gas"@);
    lemma_got(call, fields, "gasPrice"@);
    lemma_got(call, fields, "value"@);
    assert forall|name: Seq<char>| #[trigger] call.get(name) is Some implies name == "from"@ || name
        == "to"@ || name == "data"@ || name == "gas"@ || name == "gasPrice"@ || name
        == "value"@ by {
        lemma_got(call, fields, name);
    }
}

/// A request to trace a mined transaction names its hash and the tracer, and
/// nothing else.
pub proof fn law_trace_transaction_body_names_the_hash(json: Json, tx_hash: Seq<u8>)
    requires
        is_trace_transaction_body(json, tx_hash),
    ensures
        exists|params: Seq<Json>|
            {
                &&& #[trigger] asks_for(json, "debug_traceTransaction"@, params)
                &&& params.len() == 2
                &&& params[0] == Json::Str("0x"@ + hex_of(tx_hash))
                &&& asks_for_differences(params[1])
            },
{
    let params = params_of(json);
    lemma_asks_for(json, "debug_traceTransaction"@, params);
    lemma_asks_for_differences(params[1]);
}

} // verus!
