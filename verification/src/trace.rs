//! Requests to a node for the trace of a transaction, and what its responses
//! say.
use vstd::prelude::*;

use crate::access_list::StorageAccessItem;
use crate::hex_text::{bytes_text, hex_number, hex_of, number_text, quantity_text};
use crate::json::{collected, decimal, json_of, json_text, names_once, pairs_view, Json};
use crate::json::{
    array_value, bool_value, null_value, number_value, object_value, string_value, value_get,
    value_text,
};
use crate::prestate::{accounts_view, diff_accesses, parse_prestate_diff};
use crate::rlp_item::be_value;

verus! {

/// The parts of a transaction that a trace of it depends on. Numbers are 256
/// bits wide, in big-endian order.
#[derive(Debug, Clone)]
pub struct PendingTransaction {
    pub from: [u8; 20],
    /// Missing for a transaction that creates a contract.
    pub to: Option<[u8; 20]>,
    pub input: Vec<u8>,
    pub gas: [u8; 32],
    pub gas_price: Option<[u8; 32]>,
    pub value: [u8; 32],
}

/// The storage accesses of one simulated transaction.
#[derive(Debug)]
pub struct SimulatedTransaction {
    pub tx_index: u32,
    pub accounts: Vec<([u8; 20], Vec<StorageAccessItem>)>,
}

/// Why a response holds no trace.
#[derive(Debug, Clone)]
pub enum TraceError {
    /// The node reported an error, given as JSON text.
    Rpc(String),
    /// The response, given as JSON text, has no result.
    NoResult(String),
}

/// Bytes as text: `0x` and two digits each.
pub open spec fn hex_json(bytes: Seq<u8>) -> Json {
    Json::Str("0x"@ + hex_of(bytes))
}

/// A number as text: `0x` and its digits without leading zeros.
pub open spec fn quantity_json(n: nat) -> Json {
    Json::Str("0x"@ + hex_number(n))
}

/// The fields that describe a call.
pub open spec fn call_fields(tx: PendingTransaction) -> Map<Seq<char>, Json> {
    map![
        "from"@ => hex_json(tx.from@),
        "to"@ => match tx.to {
            Some(address) => hex_json(address@),
            None => Json::Null,
        },
        "data"@ => hex_json(tx.input@),
        "gas"@ => quantity_json(be_value(tx.gas@)),
        "gasPrice"@ => match tx.gas_price {
            Some(price) => quantity_json(be_value(price@)),
            None => Json::Null,
        },
        "value"@ => quantity_json(be_value(tx.value@)),
    ]
}

/// Whether a value asks for the prestate tracer in diff mode.
pub open spec fn is_diff_tracer(json: Json) -> bool {
    &&& json is Object
    &&& names_once(json->Object_0)
    &&& json.fields().dom() == set!["tracer"@, "tracerConfig"@]
    &&& json.fields()["tracer"@] == Json::Str("prestateTracer"@)
    &&& json.fields()["tracerConfig"@].is_object_of(map!["diffMode"@ => Json::Bool(true)])
}

/// Whether a value is a JSON-RPC request for the given method and parameters.
pub open spec fn is_request(json: Json, method: Seq<char>, params: Seq<Json>) -> bool {
    json.is_object_of(
        map![
            "jsonrpc"@ => Json::Str("2.0"@),
            "method"@ => Json::Str(method),
            "params"@ => Json::Array(params),
            "id"@ => Json::Number(decimal(1)),
        ],
    )
}

/// The parameters of a JSON-RPC request.
pub open spec fn params_of(json: Json) -> Seq<Json> {
    json.fields()["params"@]->Array_0
}

/// Whether a value is the request to trace a transaction on top of a block.
pub open spec fn is_trace_call_body(json: Json, tx: PendingTransaction, block_number: u64) -> bool {
    let params = params_of(json);
    &&& is_request(json, "debug_traceCall"@, params)
    &&& params.len() == 3
    &&& params[0].is_object_of(call_fields(tx))
    &&& params[1] == quantity_json(block_number as nat)
    &&& is_diff_tracer(params[2])
}

/// Whether a value is the request to trace a mined transaction.
pub open spec fn is_trace_transaction_body(json: Json, tx_hash: Seq<u8>) -> bool {
    let params = params_of(json);
    &&& is_request(json, "debug_traceTransaction"@, params)
    &&& params.len() == 2
    &&& params[0] == hex_json(tx_hash)
    &&& is_diff_tracer(params[1])
}

/// The text `s` as an owned string.
fn owned(s: &str) -> (res: String)
    ensures
        res@ == s@,
{
    s.to_owned()
}

/// What asks for the prestate tracer in diff mode.
fn diff_tracer() -> (res: serde_json::Value)
    ensures
        is_diff_tracer(json_of(res)),
{
    let mut config: Vec<(String, serde_json::Value)> = Vec::new();
    config.push((owned("diffMode"), bool_value(true)));
    let ghost config_pairs = pairs_view(config@);
    let config = object_value(config);
    let mut tracer: Vec<(String, serde_json::Value)> = Vec::new();
    tracer.push((owned("tracer"), string_value(owned("prestateTracer"))));
    tracer.push((owned("tracerConfig"), config));
    let ghost pairs = pairs_view(tracer@);
    let res = object_value(tracer);
    proof {
        reveal_with_fuel(collected, 3);
        reveal_strlit("tracer");
        reveal_strlit("tracerConfig");
        assert(collected(config_pairs) =~= map!["diffMode"@ => Json::Bool(true)]);
        assert("tracer"@.len() != "tracerConfig"@.len());
        assert(pairs.drop_last().drop_last() =~= Seq::empty());
        assert(collected(pairs) =~= map![
            "tracer"@ => Json::Str("prestateTracer"@),
            "tracerConfig"@ => json_of(config),
        ]);
        assert(json_of(res).fields().dom() =~= set!["tracer"@, "tracerConfig"@]);
    }
    res
}

/// A JSON-RPC request.
fn request(method: &str, params: Vec<serde_json::Value>) -> (res: serde_json::Value)
    ensures
        is_request(
            json_of(res),
            method@,
            params@.map_values(|v: serde_json::Value| json_of(v)),
        ),
        params_of(json_of(res)) == params@.map_values(|v: serde_json::Value| json_of(v)),
{
    let ghost list = params@.map_values(|v: serde_json::Value| json_of(v));
    let mut body: Vec<(String, serde_json::Value)> = Vec::new();
    body.push((owned("jsonrpc"), string_value(owned("2.0"))));
    body.push((owned("method"), string_value(owned(method))));
    body.push((owned("params"), array_value(params)));
    body.push((owned("id"), number_value(1)));
    let ghost pairs = pairs_view(body@);
    let res = object_value(body);
    proof {
        reveal_with_fuel(collected, 5);
        reveal_strlit("jsonrpc");
        reveal_strlit("method");
        reveal_strlit("params");
        reveal_strlit("id");
        assert("method"@[0] != "params"@[0]);
        assert(pairs.drop_last().drop_last().drop_last().drop_last() =~= Seq::empty());
        let fields = map![
            "jsonrpc"@ => Json::Str("2.0"@),
            "method"@ => Json::Str(method@),
            "params"@ => Json::Array(list),
            "id"@ => Json::Number(decimal(1)),
        ];
        assert(collected(pairs) =~= fields);
        assert(fields["params"@] == Json::Array(list));
    }
    res
}

/// The request to trace a pending transaction on top of a block.
pub fn build_trace_call_body(pending_tx: &PendingTransaction, block_number: u64) -> (res:
    serde_json::Value)
    ensures
        is_trace_call_body(json_of(res), *pending_tx, block_number),
{
    let to = match &pending_tx.to {
        Some(address) => string_value(bytes_text(address.as_slice())),
        None => null_value(),
    };
    let gas_price = match &pending_tx.gas_price {
        Some(price) => string_value(quantity_text(price.as_slice())),
        None => null_value(),
    };
    let mut call: Vec<(String, serde_json::Value)> = Vec::new();
    call.push((owned("from"), string_value(bytes_text(pending_tx.from.as_slice()))));
    call.push((owned("to"), to));
    call.push((owned("data"), string_value(bytes_text(pending_tx.input.as_slice()))));
    call.push((owned("gas"), string_value(quantity_text(pending_tx.gas.as_slice()))));
    call.push((owned("gasPrice"), gas_price));
    call.push((owned("value"), string_value(quantity_text(pending_tx.value.as_slice()))));
    let ghost pairs = pairs_view(call@);
    let call = object_value(call);
    proof {
        reveal_with_fuel(collected, 7);
        reveal_strlit("from");
        reveal_strlit("to");
        reveal_strlit("data");
        reveal_strlit("gas");
        reveal_strlit("gasPrice");
        reveal_strlit("value");
        assert("from"@[0] != "data"@[0]);
        assert(pairs.drop_last().drop_last().drop_last().drop_last().drop_last().drop_last()
            =~= Seq::empty());
        assert(collected(pairs) =~= call_fields(*pending_tx));
    }
    let mut params: Vec<serde_json::Value> = Vec::new();
    params.push(call);
    params.push(string_value(number_text(block_number)));
    params.push(diff_tracer());
    request("debug_traceCall", params)
}

/// The request to trace a mined transaction.
pub fn build_trace_transaction_body(tx_hash: &[u8; 32]) -> (res: serde_json::Value)
    ensures
        is_trace_transaction_body(json_of(res), tx_hash@),
{
    let mut params: Vec<serde_json::Value> = Vec::new();
    params.push(string_value(bytes_text(tx_hash.as_slice())));
    params.push(diff_tracer());
    request("debug_traceTransaction", params)
}

impl TraceError {
    /// What the error says.
    pub open spec fn text(self) -> Seq<char> {
        match self {
            TraceError::Rpc(error) => "RPC returned error: "@ + error@,
            TraceError::NoResult(response) => "No result field. Response: "@ + response@,
        }
    }

    /// The error as a sentence.
    pub fn message(&self) -> (res: String)
        ensures
            res@ == self.text(),
            self matches TraceError::Rpc(error) ==> res@ == "RPC returned error: "@ + error@,
            self matches TraceError::NoResult(response) ==> res@
                == "No result field. Response: "@ + response@,
    {
        let mut res = String::new();
        match self {
            TraceError::Rpc(error) => {
                res.append("RPC returned error: ");
                res.append(error.as_str());
            },
            TraceError::NoResult(response) => {
                res.append("No result field. Response: ");
                res.append(response.as_str());
            },
        }
        assert(res@ =~= self.text());
        res
    }
}

/// The trace in a response. A response with an `error` field, whatever it
/// holds, is an error, and so is one without `result`.
pub fn trace_result<'a>(response: &'a serde_json::Value) -> (res: Result<
    &'a serde_json::Value,
    TraceError,
>)
    ensures
        match (json_of(*response).get("error"@), json_of(*response).get("result"@)) {
            (Some(error), _) => res matches Err(TraceError::Rpc(text)) && text@ == json_text(error),
            (None, Some(result)) => res matches Ok(value) && json_of(*value) == result,
            (None, None) => res matches Err(TraceError::NoResult(text)) && text@ == json_text(
                json_of(*response),
            ),
        },
{
    if let Some(error) = value_get(response, "error") {
        return Err(TraceError::Rpc(value_text(error)));
    }
    match value_get(response, "result") {
        Some(result) => Ok(result),
        None => Err(TraceError::NoResult(value_text(response))),
    }
}

/// The storage accesses that a response reports for a transaction.
pub fn simulation_of_response(response: &serde_json::Value, tx_index: u32) -> (res: Result<
    SimulatedTransaction,
    TraceError,
>)
    ensures
        match (json_of(*response).get("error"@), json_of(*response).get("result"@)) {
            (Some(error), _) => res matches Err(TraceError::Rpc(text)) && text@ == json_text(error),
            (None, Some(result)) => res matches Ok(simulation) && simulation.tx_index == tx_index
                && accounts_view(simulation.accounts@) == diff_accesses(result, tx_index),
            (None, None) => res matches Err(TraceError::NoResult(text)) && text@ == json_text(
                json_of(*response),
            ),
        },
{
    match trace_result(response) {
        Ok(result) => Ok(
            SimulatedTransaction { tx_index, accounts: parse_prestate_diff(result, tx_index) },
        ),
        Err(error) => Err(error),
    }
}

/// Whether a text contains `429`, the status of a node that refuses further
/// requests for now.
pub open spec fn mentions_rate_limit(text: Seq<char>) -> bool {
    exists|i: int| 0 <= i && i + 3 <= text.len() && #[trigger] text.subrange(i, i + 3) == "429"@
}

/// Whether the text of an error says that the node refuses further requests.
pub fn is_rate_limited(error: &str) -> (res: bool)
    ensures
        res == mentions_rate_limit(error@),
{
    let len: usize = error.unicode_len();
    let mut i: usize = 0;
    proof {
        reveal_strlit("429");
    }
    while len - i >= 3
        invariant
            i <= len,
            len == error@.len(),
            "429"@ == seq!['4', '2', '9'],
            forall|k: int|
                0 <= k < i && k + 3 <= error@.len() ==> #[trigger] error@.subrange(k, k + 3)
                    != "429"@,
        decreases len - i,
    {
        if error.get_char(i) == '4' && error.get_char(i + 1) == '2' && error.get_char(i + 2) == '9' {
            assert(error@.subrange(i as int, i + 3) =~= "429"@);
            return true;
        }
        proof {
            let part = error@.subrange(i as int, i + 3);
            assert(part[0] == error@[i as int] && part[1] == error@[i + 1] && part[2] == error@[i
                + 2]);
        }
        i = i + 1;
    }
    false
}

} // verus!
