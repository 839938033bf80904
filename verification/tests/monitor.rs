use stratamoto::monitor::{GlobalMonitor, MonitorStats};

fn stats(total_execs: u64, corpus_size: u64, objective_size: u64) -> MonitorStats {
    MonitorStats {
        trace: Some("5%".to_string()),
        stability: None,
        causes: vec![None; 6],
        total_execs,
        corpus_size,
        objective_size,
        client_stats_count: 1,
        run_time_pretty: "0h-0m-1s".to_string(),
        run_time_subsec_nanos: 7,
        execs_per_sec_pretty: "10".to_string(),
    }
}

#[test]
fn a_statistics_update_prints_only_when_something_moved() {
    let mut monitor = GlobalMonitor::new();
    assert_eq!(
        monitor.display(&stats(10, 2, 0), "UserStats").as_deref(),
        Some("📊 time: 0h-0m-1s (x1) execs: 10 cov: 5% corpus: 2 exec/sec: 10 stability: 100% bugs: 0")
    );
    assert_eq!(monitor.display(&stats(10, 2, 0), "UserStats"), None);
    assert!(monitor.display(&stats(10, 3, 0), "UserStats").is_some());
    assert!(monitor.display(&stats(11, 3, 0), "UserStats").is_some());
    // Before anything ran, every update prints.
    assert!(GlobalMonitor::new().display(&stats(0, 0, 0), "UserStats").is_some());
}

#[test]
fn events_are_marked_by_kind() {
    let mut monitor = GlobalMonitor::new();
    assert_eq!(monitor.display(&stats(1, 1, 0), "Testcase"), None);
    assert!(monitor
        .display(&stats(1, 1, 0), "Client Heartbeat")
        .unwrap()
        .starts_with("💗 time:"));
    assert!(monitor
        .display(&stats(1, 1, 0), "Broker Heartbeat")
        .unwrap()
        .starts_with("💓 time:"));
    assert!(monitor
        .display(&stats(1, 1, 0), "Objective")
        .unwrap()
        .starts_with("🐛 time:"));
    assert!(monitor
        .display(&stats(1, 1, 0), "Log")
        .unwrap()
        .starts_with("Log time:"));
}

#[test]
fn findings_are_counted_by_cause() {
    let mut monitor = GlobalMonitor::new();
    let mut with_causes = stats(5, 1, 3);
    with_causes.causes = vec![
        Some("2".to_string()),
        Some("0".to_string()),
        None,
        Some("1".to_string()),
        None,
        None,
    ];
    let line = monitor.display(&with_causes, "Client Heartbeat").unwrap();
    assert!(
        line.ends_with("bugs: 3 (2 setupconnection, 1 infrastructure)"),
        "{line}"
    );
}
