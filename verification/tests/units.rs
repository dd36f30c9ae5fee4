use distributed_mapreduce::client::filter_txt_files;
use distributed_mapreduce::config::Config;
use distributed_mapreduce::functions::{FunctionRegistry, MapFn, ReduceFn, SumReducer, WordCountMapper};
use distributed_mapreduce::numbers::{i64_to_string, parse_i64, sat_add_i64, u64_to_string};
use distributed_mapreduce::utils::parse_server_url;

#[test]
fn test_parse_server_url() {
    assert_eq!(parse_server_url("localhost:50051"), "http://localhost:50051");
    assert_eq!(parse_server_url("http://localhost:50051"), "http://localhost:50051");
    assert_eq!(parse_server_url("https://localhost:50051"), "https://localhost:50051");
}

#[test]
fn test_config_thread_counts() {
    assert!(Config::new().worker_threads >= 1);
    assert_eq!(Config::with_threads(4).worker_threads, 4);
}

#[test]
fn test_registry_defaults() {
    let registry = FunctionRegistry::new();
    assert!(matches!(registry.get_map_function("word_count"), Some(MapFn::WordCount)));
    assert!(matches!(registry.get_reduce_function("sum"), Some(ReduceFn::Sum)));
}

#[test]
fn test_registry_unregistered_names_resolve_to_none() {
    let registry = FunctionRegistry::new();
    assert!(registry.get_map_function("char_frequency").is_none());
    assert!(registry.get_reduce_function("max").is_none());
}

#[test]
fn test_registry_last_write_wins() {
    let mut registry = FunctionRegistry::new();
    // Re-binding an existing name succeeds and the name still resolves:
    // the most recent registration is the one found.
    registry.register_map_function("word_count".to_string(), MapFn::WordCount);
    registry.register_reduce_function("total".to_string(), ReduceFn::Sum);
    registry.register_reduce_function("total".to_string(), ReduceFn::Sum);
    assert!(matches!(registry.get_map_function("word_count"), Some(MapFn::WordCount)));
    assert!(matches!(registry.get_reduce_function("total"), Some(ReduceFn::Sum)));
}

#[test]
fn test_word_count_mapper() {
    let pairs = WordCountMapper.map("Hello world\nhello");
    let views: Vec<(&str, &str)> =
        pairs.iter().map(|p| (p.0.as_str(), p.1.as_str())).collect();
    assert_eq!(views, vec![("hello", "1"), ("world", "1"), ("hello", "1")]);
}

#[test]
fn test_word_count_mapper_empty_input() {
    assert!(WordCountMapper.map("").is_empty());
    assert!(WordCountMapper.map("  \t\n ").is_empty());
}

#[test]
fn test_sum_reducer_ignores_unparsable_values() {
    let values = vec!["1".to_string(), "not_a_number".to_string(), "2".to_string()];
    assert_eq!(SumReducer.reduce("word", values), "3");
}

#[test]
fn test_sum_reducer_saturates() {
    let values = vec![i64::MAX.to_string(), "1".to_string()];
    assert_eq!(SumReducer.reduce("word", values), i64::MAX.to_string());
}

#[test]
fn test_parse_i64_accepts_integer_literals() {
    assert_eq!(parse_i64("0"), Some(0));
    assert_eq!(parse_i64("123"), Some(123));
    assert_eq!(parse_i64("-123"), Some(-123));
    assert_eq!(parse_i64("+5"), Some(5));
    assert_eq!(parse_i64("0012"), Some(12));
    assert_eq!(parse_i64("9223372036854775807"), Some(i64::MAX));
    assert_eq!(parse_i64("-9223372036854775808"), Some(i64::MIN));
}

#[test]
fn test_parse_i64_rejects_other_strings() {
    assert_eq!(parse_i64(""), None);
    assert_eq!(parse_i64("-"), None);
    assert_eq!(parse_i64("+"), None);
    assert_eq!(parse_i64("abc"), None);
    assert_eq!(parse_i64("12a"), None);
    assert_eq!(parse_i64(" 12"), None);
    assert_eq!(parse_i64("9223372036854775808"), None);
    assert_eq!(parse_i64("-9223372036854775809"), None);
    assert_eq!(parse_i64("99999999999999999999999999"), None);
}

#[test]
fn test_int_rendering() {
    assert_eq!(u64_to_string(0), "0");
    assert_eq!(u64_to_string(907), "907");
    assert_eq!(i64_to_string(-1), "-1");
    assert_eq!(i64_to_string(i64::MAX), "9223372036854775807");
    assert_eq!(i64_to_string(i64::MIN), "-9223372036854775808");
}

#[test]
fn test_sat_add_i64() {
    assert_eq!(sat_add_i64(2, 3), 5);
    assert_eq!(sat_add_i64(i64::MAX, 1), i64::MAX);
    assert_eq!(sat_add_i64(i64::MIN, -1), i64::MIN);
}

#[test]
fn test_filter_txt_files() {
    let paths = vec![
        "a.txt".to_string(),
        "b.md".to_string(),
        "dir/.txt".to_string(),
        "dir/c.txt".to_string(),
        "txt".to_string(),
    ];
    let kept = filter_txt_files(paths);
    assert_eq!(kept, vec!["a.txt".to_string(), "dir/c.txt".to_string()]);
}
