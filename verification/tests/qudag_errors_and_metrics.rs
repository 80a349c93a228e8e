use std::time::{Duration, UNIX_EPOCH};

use synaptic_mesh::clock::{millis_since_epoch, secs_since_epoch};
use synaptic_mesh::dag::decimal;

use synaptic_mesh::error::{QuDAGError, Result};
use synaptic_mesh::metrics::{ConsensusMetrics, LatencyHistogram, NetworkMetrics, ThroughputWindow};

#[test]
fn test_error_creation() {
    let err = QuDAGError::network("test network error");
    assert!(err.is_network_error());
    assert!(err.is_recoverable());
}

#[test]
fn test_error_types() {
    let validation_err = QuDAGError::validation("test");
    assert!(validation_err.is_validation_error());
    assert!(!validation_err.is_recoverable());

    let network_err = QuDAGError::network("test");
    assert!(network_err.is_network_error());
    assert!(network_err.is_recoverable());
}

#[test]
fn test_error_display() {
    let err = QuDAGError::ConsensusError("test consensus error".to_string());
    assert_eq!(err.to_string(), "Consensus error: test consensus error");
}

#[test]
fn test_error_from_io() {
    let io_err = std::io::Error::new(std::io::ErrorKind::NotFound, "file not found");
    let qudag_err = QuDAGError::from(io_err);

    match qudag_err {
        QuDAGError::IoError(_) => {}
        _ => panic!("Expected IoError"),
    }
}

#[test]
fn test_result_type() {
    fn test_function() -> Result<String> {
        Ok("success".to_string())
    }

    let result = test_function();
    assert!(result.is_ok());
    assert_eq!(result.unwrap(), "success");
}

#[test]
fn test_error_chain() {
    let json_err = serde_json::from_str::<i32>("invalid json").unwrap_err();
    let qudag_err = QuDAGError::from(json_err);

    match qudag_err {
        QuDAGError::JsonError(_) => {}
        _ => panic!("Expected JsonError"),
    }
}

#[test]
fn error_messages_of_each_kind() {
    assert_eq!(QuDAGError::storage("full").to_string(), "Storage error: full");
    assert_eq!(QuDAGError::crypto("bad key").to_string(), "Cryptography error: bad key");
    assert_eq!(QuDAGError::validation("v").to_string(), "Validation error: v");
    let io = QuDAGError::from(std::io::Error::new(std::io::ErrorKind::Other, "disk"));
    assert!(io.to_string().starts_with("IO error: "));
    assert!(io.is_recoverable());
    assert!(QuDAGError::consensus("c").is_recoverable());
    assert!(!QuDAGError::crypto("c").is_recoverable());
    assert!(!QuDAGError::Unknown("u".to_string()).is_recoverable());
    assert!(QuDAGError::LibP2PError("x".to_string()).is_network_error());
}

#[test]
fn test_latency_histogram() {
    let mut histogram = LatencyHistogram::new();

    histogram.record(Duration::from_millis(10));
    histogram.record(Duration::from_millis(20));
    histogram.record(Duration::from_millis(30));

    let stats = histogram.get_stats();
    assert_eq!(stats.total_samples, 3);
    assert_eq!(stats.sum_ms as f64 / stats.total_samples as f64, 20.0);
}

#[test]
fn latency_buckets_are_powers_of_two_in_order() {
    let mut histogram = LatencyHistogram::new();
    histogram.record_millis(0);
    histogram.record_millis(30);
    histogram.record_millis(3);
    histogram.record_millis(17);
    histogram.record_millis(32);
    // buckets: 0 -> 1, 3 -> 4, 17 -> 32, 30 -> 32, 32 -> 32
    assert_eq!(histogram.sample_at(0), 1);
    assert_eq!(histogram.sample_at(1), 4);
    assert_eq!(histogram.sample_at(2), 32);
    assert_eq!(histogram.sample_at(3), 32);
    assert_eq!(histogram.sample_at(4), 32);
    assert_eq!(histogram.sample_at(5), 0);
    assert_eq!(histogram.max_sample(), 32);
    assert_eq!(histogram.get_stats().sum_ms, 82);
    assert_eq!(synaptic_mesh::metrics::latency_bucket_of(1000), 1024);
    assert_eq!(synaptic_mesh::metrics::latency_bucket_of(1024), 1024);
    assert_eq!(synaptic_mesh::metrics::latency_bucket_of(0), 1);
}

#[test]
fn test_consensus_metrics() {
    let mut metrics = ConsensusMetrics::new();

    metrics.vote_cast();
    metrics.vote_cast();
    metrics.node_finalized();

    let stats = metrics.get_stats();
    assert_eq!(stats.votes_cast, 2);
    assert_eq!(stats.finalizations, 1);
}

#[test]
fn round_time_is_a_moving_average() {
    let mut metrics = ConsensusMetrics::new();
    metrics.record_round_millis(100);
    assert_eq!(metrics.get_stats().average_round_time_ms, 100);
    metrics.record_round_millis(200);
    // (100 * 9 + 200) / 10
    assert_eq!(metrics.get_stats().average_round_time_ms, 110);
    metrics.round_completed(Duration::from_millis(10));
    // (110 * 9 + 10) / 10
    assert_eq!(metrics.get_stats().average_round_time_ms, 100);
    assert_eq!(metrics.get_stats().rounds_completed, 3);
    metrics.consensus_failed();
    assert_eq!(metrics.get_stats().consensus_failures, 1);
}

#[test]
fn test_throughput_window() {
    let mut window = ThroughputWindow::new();

    window.record_sent(1000);
    window.record_received(500);

    let stats = window.get_stats();
    let window_secs = window.window_ms() as f64 / 1000.0;
    assert!(stats.total_sent as f64 / window_secs > 0.0);
    assert!(stats.total_received as f64 / window_secs > 0.0);
    assert!(stats.message_count as f64 / window_secs > 0.0);
}

#[test]
fn throughput_window_drops_old_samples() {
    let mut window = ThroughputWindow::new();
    window.record_sent_at(1_000, 10);
    window.record_received_at(30_000, 20);
    window.record_sent_at(70_000, 40);
    // the sample at 1 s is older than a minute before 70 s
    let stats = window.get_stats();
    assert_eq!(stats.total_sent, 40);
    assert_eq!(stats.total_received, 20);
    assert_eq!(stats.message_count, 2);
    window.cleanup_old_samples_at(95_000);
    assert_eq!(window.get_stats().message_count, 1);
}

#[test]
fn test_network_metrics() {
    let mut metrics = NetworkMetrics::new();

    metrics.peer_connected();
    metrics.peer_connected();
    metrics.connection_failed();

    let snapshot = metrics.counters();
    assert_eq!(snapshot.connected_peers, 2);
    assert_eq!(snapshot.total_connections, 2);
    assert_eq!(snapshot.failed_connections, 1);
    let rate = (snapshot.total_connections - snapshot.failed_connections) as f64
        / snapshot.total_connections as f64;
    assert_eq!(rate, 0.5);
}

#[test]
fn network_counters_wrap_like_atomics() {
    let mut metrics = NetworkMetrics::new();
    metrics.peer_disconnected();
    assert_eq!(metrics.counters().connected_peers, usize::MAX);
    metrics.message_sent(100);
    metrics.message_received(7);
    metrics.increment_transactions();
    metrics.node_validated();
    metrics.validation_failed();
    metrics.record_latency(Duration::from_millis(5));
    let c = metrics.counters();
    assert_eq!(c.messages_sent, 1);
    assert_eq!(c.bytes_sent, 100);
    assert_eq!(c.bytes_received, 7);
    assert_eq!(c.transactions_submitted, 1);
    assert_eq!(c.nodes_validated, 1);
    assert_eq!(c.validation_failures, 1);
    assert_eq!(metrics.latency_histogram().get_stats().total_samples, 1);
    assert_eq!(metrics.throughput_window().get_stats().message_count, 2);
    assert_eq!(synaptic_mesh::metrics::counter_add(u64::MAX, 2), 1);
    assert_eq!(synaptic_mesh::metrics::counter_inc(u64::MAX), 0);
}

#[test]
fn clock_readings_before_the_epoch_read_as_zero() {
    let before = UNIX_EPOCH.duration_since(UNIX_EPOCH + Duration::from_secs(5));
    assert!(before.is_err());
    assert_eq!(secs_since_epoch(&before), 0);
    assert_eq!(millis_since_epoch(&before), 0);
    let after: std::result::Result<Duration, std::time::SystemTimeError> = Ok(Duration::from_millis(12_345));
    assert_eq!(secs_since_epoch(&after), 12);
    assert_eq!(millis_since_epoch(&after), 12_345);
}

#[test]
fn decimal_text_of_counts() {
    assert_eq!(decimal(0), "0");
    assert_eq!(decimal(7), "7");
    assert_eq!(decimal(10), "10");
    assert_eq!(decimal(1203), "1203");
}

#[test]
fn recorded_latency_uses_the_duration_in_milliseconds() {
    let mut h = LatencyHistogram::new();
    h.record(Duration::from_millis(250));
    let t = h.get_stats();
    assert_eq!(t.total_samples, 1);
    assert_eq!(t.sum_ms, 250);
    let mut c = ConsensusMetrics::new();
    c.round_completed(Duration::from_millis(40));
    assert_eq!(c.get_stats().average_round_time_ms, 40);
}
