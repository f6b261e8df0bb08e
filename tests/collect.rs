use rpc_benchmark::collect::{plan_run, Collector, RunError};
use rpc_benchmark::config::{BenchmarkConfig, RpcNode};
use rpc_benchmark::metrics::{BenchmarkResults, NodeMetrics};
use rpc_benchmark::monitor::ConfirmationResult;
use rpc_benchmark::report::generate_report_markdown;

fn endpoint(name: &str) -> RpcNode {
    RpcNode {
        name: name.to_string(),
        http_url: format!("https://{}.example", name),
        ws_url: format!("wss://{}.example", name),
    }
}

fn config(nodes: Vec<RpcNode>, amount: u64, count: usize, timeout: Option<u64>) -> BenchmarkConfig {
    BenchmarkConfig {
        keypair_path: ".private_key".to_string(),
        recipient: "recipient".to_string(),
        amount_lamports: amount,
        num_transactions: count,
        rpc_nodes: nodes,
        transaction_timeout_seconds: timeout,
    }
}

fn conf(signature: &str, timestamp_us: u64) -> ConfirmationResult {
    ConfirmationResult { signature: signature.to_string(), timestamp_us, slot: 1, failed: false }
}

#[test]
fn plan_without_endpoints_fails() {
    let r = plan_run(&config(Vec::new(), 1, 3, None));
    assert_eq!(r.err(), Some(RunError::NoEndpoints));
}

#[test]
fn plan_amounts_and_default_timeout() {
    let plan = plan_run(&config(vec![endpoint("a")], 1000000, 3, None)).ok().unwrap();
    assert_eq!(plan.amounts, vec![1000000, 1000001, 1000002]);
    assert_eq!(plan.timeout_us, 120_000_000);
    let plan = plan_run(&config(vec![endpoint("a")], 5, 0, Some(2))).ok().unwrap();
    assert!(plan.amounts.is_empty());
    assert_eq!(plan.timeout_us, 2_000_000);
}

#[test]
fn plan_rejects_overflow() {
    let r = plan_run(&config(vec![endpoint("a")], u64::MAX, 2, None));
    assert_eq!(r.err(), Some(RunError::AmountOverflow));
    let plan = plan_run(&config(vec![endpoint("a")], u64::MAX, 1, None)).ok().unwrap();
    assert_eq!(plan.amounts, vec![u64::MAX]);
    let r = plan_run(&config(vec![endpoint("a")], 1, 1, Some(u64::MAX)));
    assert_eq!(r.err(), Some(RunError::TimeoutOverflow));
}

#[test]
fn collector_keeps_first_confirmation_per_endpoint() {
    let mut c = Collector::new(vec!["a".to_string(), "b".to_string()], 0, 100);
    assert!(c.record(0, conf("s", 5)));
    assert!(!c.record(0, conf("s", 9)));
    assert!(c.record(1, conf("s", 7)));
    assert!(!c.record(2, conf("s", 7)));
    let input = c.into_report_input();
    assert_eq!(input.len(), 2);
    assert_eq!(input[0].1.len(), 1);
    assert_eq!(input[0].1[0].timestamp_us, 5);
    assert_eq!(input[1].0, "b");
}

#[test]
fn collector_stops_when_all_finish_or_at_deadline() {
    let mut c = Collector::new(vec!["a".to_string(), "b".to_string()], 1000, 500);
    assert!(!c.should_finish(1200));
    c.node_finished(0);
    assert!(!c.should_finish(1200));
    c.node_finished(1);
    assert!(c.should_finish(1200));
    let c = Collector::new(vec!["a".to_string()], 1000, 500);
    assert!(!c.should_finish(1499));
    assert!(c.should_finish(1500));
    let c = Collector::new(vec!["a".to_string()], u64::MAX - 1, 500);
    assert!(!c.should_finish(u64::MAX - 1));
    assert!(c.should_finish(u64::MAX));
}

#[test]
fn timeout_with_nothing_confirmed_still_reports() {
    let mut c = Collector::new(vec!["a".to_string(), "b".to_string()], 0, 10);
    c.record(1, conf("s", 3));
    assert!(c.should_finish(10));
    let input = c.into_report_input();
    let report = generate_report_markdown(&input);
    assert!(report.contains("| s | - | 1 |\n"));
    assert!(report.contains("| 1 | a | 0 |\n| 2 | b | 1 |\n"));
}

#[test]
fn metrics_count_transactions() {
    let mut results = BenchmarkResults::new();
    assert_eq!(results.total_transactions, 0);
    results.add_metrics(NodeMetrics {
        nodename: "a".to_string(),
        explorer_url: "https://explorer.example/tx/1".to_string(),
        send_time_us: 10,
        confirm_time_us: 20,
    });
    assert_eq!(results.total_transactions, 1);
    assert_eq!(results.node_metrics.len(), 1);
    assert_eq!(results.node_metrics[0].confirm_time_us, 20);
}
