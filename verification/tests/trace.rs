use bal_daemon::retry::{attempt_outcome, RetryCounters, RetryStep};
use bal_daemon::trace::{is_rate_limited, simulation_of_response, trace_result, TraceError};
use bal_daemon::{build_trace_call_body, build_trace_transaction_body, PendingTransaction};
use serde_json::Value;

fn json(text: &str) -> Value {
    serde_json::from_str(text).unwrap()
}

fn number(n: u64) -> [u8; 32] {
    let mut res = [0u8; 32];
    res[24..].copy_from_slice(&n.to_be_bytes());
    res
}

#[test]
fn calls_are_described_in_full() {
    let tx = PendingTransaction {
        from: [0x11; 20],
        to: Some([0x22; 20]),
        input: vec![0xa9, 0x05, 0x9c, 0xbb],
        gas: number(21000),
        gas_price: Some(number(5_000_000_000)),
        value: number(0),
    };
    assert_eq!(
        build_trace_call_body(&tx, 0x5c1b83b),
        json(
            "{\"jsonrpc\": \"2.0\", \"method\": \"debug_traceCall\", \"params\": [
               {\"from\": \"0x1111111111111111111111111111111111111111\",
                \"to\": \"0x2222222222222222222222222222222222222222\",
                \"data\": \"0xa9059cbb\", \"gas\": \"0x5208\", \"gasPrice\": \"0x12a05f200\",
                \"value\": \"0x0\"},
               \"0x5c1b83b\",
               {\"tracer\": \"prestateTracer\", \"tracerConfig\": {\"diffMode\": true}}],
              \"id\": 1}"
        )
    );
}

#[test]
fn missing_parts_of_a_call_are_null() {
    let tx = PendingTransaction {
        from: [0; 20],
        to: None,
        input: vec![],
        gas: [0xff; 32],
        gas_price: None,
        value: number(1),
    };
    let body = build_trace_call_body(&tx, 0);
    let call = &body["params"][0];
    assert_eq!(call["to"], Value::Null);
    assert_eq!(call["gasPrice"], Value::Null);
    assert_eq!(call["data"], json("\"0x\""));
    assert_eq!(call["gas"].as_str().unwrap(), format!("0x{}", "f".repeat(64)));
    assert_eq!(call["value"], json("\"0x1\""));
    assert_eq!(call.as_object().unwrap().len(), 6);
    assert_eq!(body["params"][1], json("\"0x0\""));
}

#[test]
fn requests_differ_in_what_they_ask_for() {
    let call = || PendingTransaction {
        from: [1; 20],
        to: Some([2; 20]),
        input: vec![3],
        gas: number(4),
        gas_price: Some(number(5)),
        value: number(6),
    };
    let reference = build_trace_call_body(&call(), 7);
    assert_eq!(reference, build_trace_call_body(&call(), 7));
    assert_ne!(reference, build_trace_call_body(&call(), 8));
    let others = [
        PendingTransaction { from: [9; 20], ..call() },
        PendingTransaction { to: None, ..call() },
        PendingTransaction { to: Some([9; 20]), ..call() },
        PendingTransaction { input: vec![3, 0], ..call() },
        PendingTransaction { gas: number(9), ..call() },
        PendingTransaction { gas_price: None, ..call() },
        PendingTransaction { gas_price: Some(number(0)), ..call() },
        PendingTransaction { value: number(9), ..call() },
    ];
    for other in others {
        assert_ne!(reference, build_trace_call_body(&other, 7));
    }
    assert_ne!(
        build_trace_transaction_body(&[1; 32]),
        build_trace_transaction_body(&[2; 32])
    );
}

#[test]
fn mined_transactions_are_asked_for_by_hash() {
    assert_eq!(
        build_trace_transaction_body(&[0xab; 32]),
        json(&format!(
            "{{\"jsonrpc\": \"2.0\", \"method\": \"debug_traceTransaction\", \"params\": [
               \"0x{}\",
               {{\"tracer\": \"prestateTracer\", \"tracerConfig\": {{\"diffMode\": true}}}}],
              \"id\": 1}}",
            "ab".repeat(32)
        ))
    );
}

#[test]
fn results_are_taken_from_responses() {
    let response = json("{\"id\": 1, \"result\": {\"pre\": {}, \"post\": {}}}");
    assert_eq!(trace_result(&response).unwrap(), &json("{\"pre\": {}, \"post\": {}}"));
    let null = json("{\"result\": null}");
    assert_eq!(trace_result(&null).unwrap(), &Value::Null);
}

#[test]
fn errors_are_taken_from_responses() {
    let response = json("{\"error\": {\"code\": -32000}, \"result\": 1}");
    let error = trace_result(&response).unwrap_err();
    assert!(matches!(&error, TraceError::Rpc(text) if text == "{\"code\":-32000}"));
    assert_eq!(error.message(), "RPC returned error: {\"code\":-32000}");
    // The field counts, whatever it holds.
    let null = json("{\"error\": null, \"result\": 1}");
    assert_eq!(trace_result(&null).unwrap_err().message(), "RPC returned error: null");
}

#[test]
fn responses_without_result_are_errors() {
    let error = trace_result(&json("{\"id\": 1}")).unwrap_err();
    assert!(matches!(&error, TraceError::NoResult(text) if text == "{\"id\":1}"));
    assert_eq!(error.message(), "No result field. Response: {\"id\":1}");
}

#[test]
fn simulations_are_taken_from_responses() {
    let response = json(
        "{\"result\": {\"post\": {\"0x00000000000000000000000000000000000000aa\":
           {\"storage\": {\"0x1\": \"0x2\"}}}}}",
    );
    let simulation = simulation_of_response(&response, 6).unwrap();
    assert_eq!(simulation.tx_index, 6);
    assert_eq!(simulation.accounts.len(), 1);
    assert_eq!(simulation.accounts[0].1[0].tx_index, 6);
    assert!(simulation_of_response(&json("{}"), 6).is_err());
}

#[test]
fn refusals_are_recognised() {
    assert!(is_rate_limited("HTTP status client error (429 Too Many Requests)"));
    assert!(is_rate_limited("429"));
    assert!(is_rate_limited("code 4294"));
    assert!(!is_rate_limited(""));
    assert!(!is_rate_limited("42"));
    assert!(!is_rate_limited("4 29"));
}

#[test]
fn attempts_have_outcomes() {
    let done = attempt_outcome(&Ok(json("{\"result\": {}}")), 2).unwrap();
    assert_eq!(done.tx_index, 2);
    assert!(done.accounts.is_empty());
    assert_eq!(attempt_outcome(&Err("no route".to_string()), 2).unwrap_err(), "no route");
    assert_eq!(
        attempt_outcome(&Ok(json("{\"error\": 429}")), 2).unwrap_err(),
        "RPC returned error: 429"
    );
    assert_eq!(
        attempt_outcome(&Ok(json("{}")), 2).unwrap_err(),
        "No result field. Response: {}"
    );
}

#[test]
fn refused_requests_are_repeated_once() {
    let mut counters = RetryCounters::default();
    assert_eq!(counters.after_first(None), RetryStep::Done);
    assert_eq!(counters.after_first(Some("timeout")), RetryStep::Fail);
    assert_eq!(counters, RetryCounters::default());
    assert_eq!(counters.after_first(Some("status 429")), RetryStep::RetryAfter(2000));
    assert_eq!(counters.after_retry(true), RetryStep::Done);
    assert_eq!(counters.after_first(Some("status 429")), RetryStep::RetryAfter(2000));
    assert_eq!(counters.after_retry(false), RetryStep::Fail);
    assert_eq!(
        (counters.rate_limited, counters.retries_success, counters.retries_failed),
        (2, 1, 1)
    );
}
