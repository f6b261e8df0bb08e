use rpc_benchmark::monitor::ConfirmationResult;
use rpc_benchmark::report::{fits_in_report, generate_report_markdown, NodeConfirmations};

fn conf(signature: &str, timestamp_us: u64) -> ConfirmationResult {
    ConfirmationResult { signature: signature.to_string(), timestamp_us, slot: 7, failed: false }
}

fn node(name: &str, results: Vec<ConfirmationResult>) -> NodeConfirmations {
    (name.to_string(), results)
}

const SIG_HEAD: &str = "## Signature Confirmation Report\n\n";
const SUMMARY_HEAD: &str = "\n## Node Performance Summary (Lower Sum Score is Better)\n\n| Order | Node Name | Sum Score |\n|---|---|---|\n";

#[test]
fn faster_endpoint_ranks_first() {
    let input = vec![node("slow", vec![conf("sigA", 150)]), node("fast", vec![conf("sigA", 100)])];
    let report = generate_report_markdown(&input);
    let expected = format!(
        "{}| Signature | fast Score | slow Score |\n|---|---|---|\n| sigA | 1 | 2 |\n{}| 1 | fast | 1 |\n| 2 | slow | 2 |\n",
        SIG_HEAD, SUMMARY_HEAD
    );
    assert_eq!(report, expected);
}

#[test]
fn equal_scores_break_ties_by_name() {
    let input = vec![
        node("node1", vec![conf("sigA", 10), conf("sigB", 30)]),
        node("node2", vec![conf("sigA", 20), conf("sigB", 10)]),
        node("node3", vec![conf("sigC", 5)]),
    ];
    let report = generate_report_markdown(&input);
    let expected = format!(
        "{}| Signature | node1 Score | node2 Score | node3 Score |\n|---|---|---|---|\n\
         | sigA | 1 | 2 | - |\n| sigB | 2 | 1 | - |\n| sigC | - | - | 1 |\n\
         {}| 1 | node3 | 1 |\n| 2 | node1 | 3 |\n| 3 | node2 | 3 |\n",
        SIG_HEAD, SUMMARY_HEAD
    );
    assert_eq!(report, expected);
}

#[test]
fn no_data_renders_placeholders() {
    let input: Vec<NodeConfirmations> = Vec::new();
    let report = generate_report_markdown(&input);
    let expected = format!(
        "{}| Signature |\n|---|\n| *No signatures confirmed* |\n{}| - | *No nodes to report* | - |\n",
        SIG_HEAD, SUMMARY_HEAD
    );
    assert_eq!(report, expected);
}

#[test]
fn endpoints_without_confirmations_are_listed() {
    let input = vec![node("b", Vec::new()), node("a", Vec::new())];
    let report = generate_report_markdown(&input);
    let expected = format!(
        "{}| Signature | a Score | b Score |\n|---|---|---|\n| *No signatures confirmed* | - | - |\n{}| 1 | a | 0 |\n| 2 | b | 0 |\n",
        SIG_HEAD, SUMMARY_HEAD
    );
    assert_eq!(report, expected);
}

#[test]
fn same_timestamp_ranks_by_name() {
    let input = vec![node("zeta", vec![conf("s", 5)]), node("alpha", vec![conf("s", 5)])];
    let report = generate_report_markdown(&input);
    assert!(report.contains("| s | 1 | 2 |\n"));
    assert!(report.contains("| 1 | alpha | 1 |\n| 2 | zeta | 2 |\n"));
}

#[test]
fn repeated_record_keeps_the_first() {
    let input = vec![
        node("x", vec![conf("s", 50), conf("s", 1)]),
        node("y", vec![conf("s", 20)]),
    ];
    let report = generate_report_markdown(&input);
    assert!(report.contains("| s | 2 | 1 |\n"));
}

#[test]
fn report_is_reproducible() {
    let input = vec![
        node("n2", vec![conf("q", 3), conf("p", 9)]),
        node("n1", vec![conf("p", 4), conf("q", 3)]),
    ];
    let first = generate_report_markdown(&input);
    let second = generate_report_markdown(&input);
    assert_eq!(first, second);
    assert!(first.contains("| p | 1 | 2 |\n| q | 1 | 2 |\n"));
}

#[test]
fn ranks_past_nine_print_in_decimal() {
    let names = ["n00", "n01", "n02", "n03", "n04", "n05", "n06", "n07", "n08", "n09", "n10", "n11"];
    let input: Vec<NodeConfirmations> =
        names.iter().enumerate().map(|(i, n)| node(n, vec![conf("s", i as u64)])).collect();
    let report = generate_report_markdown(&input);
    assert!(report.contains("| 1 | 2 | 3 | 4 | 5 | 6 | 7 | 8 | 9 | 10 | 11 | 12 |\n"));
    assert!(report.contains("| 12 | n11 | 12 |\n"));
}

#[test]
fn report_size_check() {
    let input = vec![node("a", vec![conf("s", 1)])];
    assert!(fits_in_report(&input));
    assert!(fits_in_report(&Vec::new()));
}

#[test]
fn arrival_order_does_not_change_the_report() {
    let first = vec![
        node("n1", vec![conf("p", 4), conf("q", 3)]),
        node("n2", vec![conf("q", 3), conf("p", 9)]),
    ];
    let second = vec![
        node("n2", vec![conf("p", 9), conf("q", 3)]),
        node("n1", vec![conf("q", 3), conf("p", 4)]),
    ];
    assert_eq!(generate_report_markdown(&first), generate_report_markdown(&second));
}
