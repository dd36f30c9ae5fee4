use std::collections::HashMap;

use distributed_mapreduce::client::JobRun;
use distributed_mapreduce::protocol::RpcError;
use distributed_mapreduce::server::MapReduceService;

/// Drives one job against an in-process service: one Map call per content
/// string, then exactly one Reduce call over the accumulated pairs.
fn run_job(service: &MapReduceService, contents: Vec<&str>) -> Result<String, RpcError> {
    let files: Vec<String> = (0..contents.len()).map(|i| format!("input{}.txt", i)).collect();
    let mut job = JobRun::new(files, "word_count".to_string(), "sum".to_string());
    let mut remaining = contents;
    while !job.is_map_phase_done() {
        let _request = job.next_map_request();
        let content = remaining.remove(0).to_string();
        let response = service.map(Some(content), "word_count")?;
        job.record_map_results(response.intermediate_results);
    }
    let reduce_request = job.into_reduce_request();
    let response = service.reduce(&reduce_request)?;
    Ok(response.final_result)
}

fn parse_counts(result: &str) -> HashMap<String, i64> {
    let mut counts = HashMap::new();
    for entry in result.split(", ") {
        if entry.is_empty() {
            continue;
        }
        let (word, count) = entry.split_once(':').unwrap();
        counts.insert(word.to_string(), count.parse().unwrap());
    }
    counts
}

#[test]
fn test_end_to_end_mapreduce() {
    let service = MapReduceService::new();

    let result = run_job(
        &service,
        vec!["hello world\nhello rust\n", "world of rust\nrust programming\n"],
    )
    .unwrap();

    assert!(result.contains("hello:2"));
    assert!(result.contains("world:2"));
    assert!(result.contains("rust:3"));
    assert!(result.contains("programming:1"));
    assert!(result.contains("of:1"));
}

#[test]
fn test_end_to_end_counts_are_exact() {
    let service = MapReduceService::new();
    let result = run_job(
        &service,
        vec!["hello world\nhello rust\n", "world of rust\nrust programming\n"],
    )
    .unwrap();
    let counts = parse_counts(&result);
    assert_eq!(counts.len(), 5);
    assert_eq!(counts["hello"], 2);
    assert_eq!(counts["world"], 2);
    assert_eq!(counts["rust"], 3);
    assert_eq!(counts["of"], 1);
    assert_eq!(counts["programming"], 1);
}

#[test]
fn test_map_reduce_round_trip() {
    let service = MapReduceService::new();
    // One file through the default word-count map and sum reduce; the
    // counts are checked on the parsed result, not on string equality.
    let result = run_job(&service, vec!["hello world\nhello rust\nworld of rust"]).unwrap();
    let counts = parse_counts(&result);
    assert_eq!(counts.len(), 4);
    assert_eq!(counts["hello"], 2);
    assert_eq!(counts["world"], 2);
    assert_eq!(counts["rust"], 2);
    assert_eq!(counts["of"], 1);
}

#[test]
fn test_worker_health_tracking() {
    let mut service = MapReduceService::new();
    let worker_id = "test-worker-1";

    // Initial ping registers the worker's heartbeat.
    let response = service.ping(Some(worker_id.to_string()), 0);
    assert_eq!(response.status, "OK");

    // A while later, without intervening pings, the worker pings again and
    // is still answered OK (the endpoint authenticates nothing).
    let response = service.ping(Some(worker_id.to_string()), 11_000);
    assert_eq!(response.status, "OK");
}

#[test]
fn test_concurrent_mapreduce_jobs() {
    let service = MapReduceService::new();

    // Two independent jobs over disjoint inputs share one service; each
    // job's accumulator is its own, so nothing leaks across.
    let result1 = run_job(&service, vec!["hello world\n"]).unwrap();
    let result2 = run_job(&service, vec!["rust programming\n"]).unwrap();

    assert!(result1.contains("hello:1"));
    assert!(result1.contains("world:1"));
    assert!(result2.contains("rust:1"));
    assert!(result2.contains("programming:1"));

    let counts1 = parse_counts(&result1);
    let counts2 = parse_counts(&result2);
    assert_eq!(counts1.len(), 2);
    assert_eq!(counts2.len(), 2);
    assert!(!counts1.contains_key("rust"));
    assert!(!counts2.contains_key("hello"));
}

#[test]
fn test_job_aborts_on_failed_map() {
    let service = MapReduceService::new();
    let files = vec!["missing.txt".to_string()];
    let mut job = JobRun::new(files, "word_count".to_string(), "sum".to_string());
    assert!(!job.is_map_phase_done());
    let _request = job.next_map_request();
    // The file could not be read: the Map call fails and the job propagates
    // the error instead of reducing a partial accumulator.
    let outcome = service.map(None, "word_count");
    assert!(matches!(outcome, Err(RpcError::NotFound)));
}
