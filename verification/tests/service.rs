use std::collections::HashMap;

use distributed_mapreduce::protocol::{KeyValuePair, ReduceRequest, RpcError};
use distributed_mapreduce::server::MapReduceService;

fn word_counts(pairs: Vec<KeyValuePair>) -> HashMap<String, i64> {
    let mut counts: HashMap<String, i64> = HashMap::new();
    for kv in pairs {
        let v: i64 = kv.value.parse().unwrap();
        *counts.entry(kv.key).or_insert(0) += v;
    }
    counts
}

#[test]
fn test_map_with_valid_file() {
    let service = MapReduceService::new();
    let content = "hello world\nhello rust\nworld of rust\n".to_string();

    let response = service.map(Some(content), "word_count").unwrap();
    let counts = word_counts(response.intermediate_results);

    assert_eq!(counts.get("hello").unwrap(), &2);
    assert_eq!(counts.get("world").unwrap(), &2);
    assert_eq!(counts.get("rust").unwrap(), &2);
    assert_eq!(counts.get("of").unwrap(), &1);
}

#[test]
fn test_map_with_nonexistent_file() {
    let service = MapReduceService::new();
    // The input edge could not open the file, so no content arrives.
    let result = service.map(None, "word_count");
    assert!(result.is_err());
    assert!(matches!(result, Err(RpcError::NotFound)));
}

#[test]
fn test_reduce() {
    let service = MapReduceService::new();
    let request = ReduceRequest {
        intermediate_results: vec![
            KeyValuePair { key: "hello".to_string(), value: "2".to_string() },
            KeyValuePair { key: "world".to_string(), value: "3".to_string() },
        ],
        reduce_function: "sum".to_string(),
    };

    let result = service.reduce(&request).unwrap().final_result;

    assert!(result.contains("hello:2"));
    assert!(result.contains("world:3"));
}

#[test]
fn test_reduce_with_invalid_value() {
    let service = MapReduceService::new();
    let request = ReduceRequest {
        intermediate_results: vec![
            KeyValuePair { key: "hello".to_string(), value: "not_a_number".to_string() },
        ],
        reduce_function: "sum".to_string(),
    };

    let result = service.reduce(&request);
    assert!(result.is_err());
    assert!(matches!(result, Err(RpcError::InvalidArgument)));
}

#[test]
fn test_ping_with_valid_worker() {
    let mut service = MapReduceService::new();
    let worker_id = "test-worker-1";

    let response = service.ping(Some(worker_id.to_string()), 0);
    assert_eq!(response.status, "OK");
}

#[test]
fn test_ping_without_worker_id() {
    let mut service = MapReduceService::new();
    let response = service.ping(None, 0);
    assert_eq!(response.status, "UNKNOWN");
}

#[test]
fn test_ping_with_empty_worker_id() {
    let mut service = MapReduceService::new();
    let response = service.ping(Some(String::new()), 0);
    assert_eq!(response.status, "UNKNOWN");
}

#[test]
fn test_ping_creates_heartbeat_record() {
    let mut service = MapReduceService::new();
    assert!(!service.coordinator.heartbeat("worker-7", 0));
    service.ping(Some("worker-7".to_string()), 0);
    // The ping recorded the identity: its heartbeat can now be refreshed.
    assert!(service.coordinator.heartbeat("worker-7", 1));
}

#[test]
fn test_map_with_unregistered_function() {
    let service = MapReduceService::new();
    let result = service.map(Some("hello".to_string()), "char_frequency");
    assert!(matches!(result, Err(RpcError::FunctionNotFound)));
}

#[test]
fn test_reduce_with_unregistered_function() {
    let service = MapReduceService::new();
    let request = ReduceRequest {
        intermediate_results: vec![
            KeyValuePair { key: "hello".to_string(), value: "1".to_string() },
        ],
        reduce_function: "max".to_string(),
    };
    let result = service.reduce(&request);
    assert!(matches!(result, Err(RpcError::FunctionNotFound)));
}

#[test]
fn test_map_lowercases_words() {
    let service = MapReduceService::new();
    let response = service.map(Some("Hello HELLO hello".to_string()), "word_count").unwrap();
    let pairs = response.intermediate_results;
    assert_eq!(pairs.len(), 3);
    for kv in &pairs {
        assert_eq!(kv.key, "hello");
        assert_eq!(kv.value, "1");
    }
}

#[test]
fn test_reduce_result_format() {
    let service = MapReduceService::new();
    let request = ReduceRequest {
        intermediate_results: vec![
            KeyValuePair { key: "a".to_string(), value: "1".to_string() },
            KeyValuePair { key: "b".to_string(), value: "2".to_string() },
            KeyValuePair { key: "a".to_string(), value: "3".to_string() },
        ],
        reduce_function: "sum".to_string(),
    };
    // Keys appear in order of first appearance, joined by ", ".
    let result = service.reduce(&request).unwrap().final_result;
    assert_eq!(result, "a:4, b:2");
}

#[test]
fn test_reduce_empty_request() {
    let service = MapReduceService::new();
    let request = ReduceRequest { intermediate_results: vec![], reduce_function: "sum".to_string() };
    let result = service.reduce(&request).unwrap().final_result;
    assert_eq!(result, "");
}
