use dds_backend::bench::{pair_checks, pair_config_error, run_check_label, run_checks, run_verdict, RunCheck,
    check_pair_kinds, delta_severity, int_summary, is_outlier, loss_severity, mean_u64, max_u64,
    p99_severity, pair_config_mismatches, pair_delta, prefixed_checks, verdict_from_checks,
    worst_severity, BenchKind, ConfigField, PairKey, PairKindError, RowCounters, Severity,
    VerdictCheck, VerdictScope,
};

fn check(label: &str, severity: Severity) -> VerdictCheck {
    VerdictCheck {
        label: label.to_string(),
        severity,
        value: String::new(),
        explain: String::new(),
    }
}

fn sub_row(recv: u64, lost: u64, p50: u64, p95: u64, p99: u64, max: u64) -> RowCounters {
    RowCounters {
        sent: None,
        errors: None,
        write_avg_us: None,
        write_max_us: None,
        recv: Some(recv),
        lost_wire: Some(lost),
        lost_dds: Some(0),
        reord: Some(0),
        dup: Some(0),
        clock_skew_skipped: Some(0),
        lat_p50_us: Some(p50),
        lat_p95_us: Some(p95),
        lat_p99_us: Some(p99),
        lat_max_us: Some(max),
    }
}

fn pub_row(sent: u64, avg: u64, max: u64) -> RowCounters {
    RowCounters {
        sent: Some(sent),
        errors: Some(0),
        write_avg_us: Some(avg),
        write_max_us: Some(max),
        recv: None,
        lost_wire: None,
        lost_dds: None,
        reord: None,
        dup: None,
        clock_skew_skipped: None,
        lat_p50_us: None,
        lat_p95_us: None,
        lat_p99_us: None,
        lat_max_us: None,
    }
}

#[test]
fn loss_thresholds() {
    assert_eq!(loss_severity(0, 2000), Severity::Good);
    assert_eq!(loss_severity(0, 0), Severity::Good);
    // 1 lost out of 2001 is below 0.1%
    assert_eq!(loss_severity(1, 2000), Severity::Warn);
    // exactly 0.1% is not below it
    assert_eq!(loss_severity(1, 999), Severity::Bad);
    // 100 lost out of 1100
    assert_eq!(loss_severity(100, 1000), Severity::Bad);
}

#[test]
fn p99_thresholds() {
    assert_eq!(p99_severity(786), Severity::Good);
    assert_eq!(p99_severity(1_999), Severity::Good);
    assert_eq!(p99_severity(2_000), Severity::Warn);
    assert_eq!(p99_severity(9_999), Severity::Warn);
    assert_eq!(p99_severity(10_000), Severity::Bad);
}

#[test]
fn outlier_rule() {
    assert!(is_outlier(786, 15_000));
    assert!(!is_outlier(786, 1_129));
    assert!(!is_outlier(100, 500));
    assert!(is_outlier(100, 501));
    // a p99 of 0 counts as 1
    assert!(is_outlier(0, 6));
    assert!(!is_outlier(0, 5));
}

#[test]
fn delta_tolerances() {
    // expected 0: |dev| <= 100 ok, <= 500 warn, beyond bad
    assert_eq!(delta_severity(100, 0), Severity::Good);
    assert_eq!(delta_severity(-101, 0), Severity::Warn);
    assert_eq!(delta_severity(500, 0), Severity::Warn);
    assert_eq!(delta_severity(1000, 0), Severity::Bad);
    // expected 1000: ok within 600, warn within 2500
    assert_eq!(delta_severity(1600, 1000), Severity::Good);
    assert_eq!(delta_severity(3500, 1000), Severity::Warn);
    assert_eq!(delta_severity(3501, 1000), Severity::Bad);
    // expected -3: half of 3 rounds up to 2
    assert_eq!(delta_severity(99, -3), Severity::Good);
    assert_eq!(delta_severity(100, -3), Severity::Warn);
}

#[test]
fn pair_delta_values() {
    assert_eq!(pair_delta(3000, 2000, 0), 1000);
    assert_eq!(pair_delta(10, 20, 5), -15);
}

#[test]
fn worst_severity_and_headlines() {
    let empty: Vec<VerdictCheck> = Vec::new();
    assert_eq!(worst_severity(&empty), Severity::Good);
    let v = verdict_from_checks(
        vec![check("a", Severity::Good), check("b", Severity::Bad), check("c", Severity::Warn)],
        VerdictScope::SingleRun,
    );
    assert_eq!(v.severity, Severity::Bad);
    assert_eq!(v.headline, "Probl\u{e8}mes d\u{e9}tect\u{e9}s");
    assert_eq!(v.checks.len(), 3);
    let ok = verdict_from_checks(vec![check("a", Severity::Good)], VerdictScope::SingleRun);
    assert_eq!(ok.headline, "Run sain");
    let warn = verdict_from_checks(vec![check("a", Severity::Warn)], VerdictScope::Pair);
    assert_eq!(warn.headline, "Coh\u{e9}rents avec quelques alertes");
    let pair_ok = verdict_from_checks(Vec::new(), VerdictScope::Pair);
    assert_eq!(pair_ok.severity, Severity::Good);
    assert_eq!(pair_ok.headline, "Pub et sub coh\u{e9}rents");
}

#[test]
fn prefixed_labels() {
    let checks = vec![check("Pertes", Severity::Bad), check("Latence p99", Severity::Good)];
    let p = prefixed_checks(&checks, "[sub] ");
    assert_eq!(p[0].label, "[sub] Pertes");
    assert_eq!(p[0].severity, Severity::Bad);
    assert_eq!(p[1].label, "[sub] Latence p99");
}

#[test]
fn means_and_maxes() {
    assert_eq!(mean_u64(&vec![196, 196]), 196);
    assert_eq!(mean_u64(&vec![1, 2]), 1);
    assert_eq!(mean_u64(&Vec::new()), 0);
    assert_eq!(max_u64(&vec![3, 9, 4]), Some(9));
    assert_eq!(max_u64(&Vec::new()), None);
}

#[test]
fn sub_summary_of_healthy_run() {
    let rows = vec![
        sub_row(1000, 0, 196, 393, 786, 1129),
        sub_row(2000, 0, 196, 393, 786, 1129),
    ];
    let s = int_summary(&rows, BenchKind::Sub);
    assert_eq!(s.total_samples, 2000);
    assert_eq!(s.total_lost, Some(0));
    assert_eq!(s.mean_p50_us, Some(196));
    assert_eq!(s.mean_p95_us, Some(393));
    assert_eq!(s.max_p99_us, Some(786));
    assert_eq!(s.max_lat_us, Some(1129));
    assert_eq!(s.max_write_us, None);
}

#[test]
fn sub_summary_with_loss() {
    let rows = vec![
        sub_row(500, 50, 500, 1000, 2000, 3000),
        sub_row(1000, 100, 500, 1000, 2000, 3000),
    ];
    let s = int_summary(&rows, BenchKind::Sub);
    assert_eq!(s.total_samples, 1000);
    assert_eq!(s.total_lost, Some(100));
    assert_eq!(loss_severity(100, 1000), Severity::Bad);
}

#[test]
fn pub_summary() {
    let rows = vec![pub_row(1000, 15, 40), pub_row(2000, 17, 60)];
    let s = int_summary(&rows, BenchKind::Pub);
    assert_eq!(s.total_samples, 2000);
    assert_eq!(s.total_lost, None);
    assert_eq!(s.max_write_us, Some(60));
    assert_eq!(s.mean_write_us, Some(16));
    assert_eq!(s.mean_p50_us, None);
}

#[test]
fn empty_summary() {
    let s = int_summary(&Vec::new(), BenchKind::Sub);
    assert_eq!(s.total_samples, 0);
    assert_eq!(s.total_lost, None);
    assert_eq!(s.mean_p50_us, None);
}

#[test]
fn pair_kinds() {
    assert!(check_pair_kinds(BenchKind::Pub, BenchKind::Sub).is_ok());
    match check_pair_kinds(BenchKind::Sub, BenchKind::Pub) {
        Err(e) => {
            assert!(matches!(e, PairKindError::FirstNotPub(BenchKind::Sub)));
            assert_eq!(e.message(), "first argument must be a pub CSV (got kind=Sub)");
            assert!(e.message().contains("first argument must be a pub"));
        }
        Ok(()) => panic!("swapped CSVs accepted"),
    }
    match check_pair_kinds(BenchKind::Pub, BenchKind::Pub) {
        Err(e) => assert_eq!(e.message(), "second argument must be a sub CSV (got kind=Pub)"),
        Ok(()) => panic!("two pub CSVs accepted"),
    }
}

#[test]
fn config_mismatches() {
    let a = PairKey {
        topic: Some("Chatter".to_string()),
        domain: Some(0),
        reliability: Some("Reliable".to_string()),
    };
    let b = PairKey {
        topic: Some("Chatter".to_string()),
        domain: Some(0),
        reliability: Some("Reliable".to_string()),
    };
    assert!(pair_config_mismatches(&a, &b).is_empty());
    let c = PairKey { topic: Some("Other".to_string()), domain: Some(1), reliability: None };
    assert_eq!(
        pair_config_mismatches(&a, &c),
        vec![ConfigField::Topic, ConfigField::Domain, ConfigField::Reliability]
    );
    let d = PairKey { topic: Some("Chatter".to_string()), domain: Some(0), reliability: None };
    assert_eq!(pair_config_mismatches(&a, &d), vec![ConfigField::Reliability]);
}

#[test]
fn run_check_plan_order() {
    // subscriber run with loss, a p99 and an outlier, no target rate
    let plan = run_checks(Some(100), 1000, Some(786), Some(15_000), None);
    assert_eq!(
        plan,
        vec![RunCheck::Loss(Severity::Bad), RunCheck::P99(Severity::Good), RunCheck::Outlier, RunCheck::MeanRate]
    );
    // publisher run with a target
    let plan = run_checks(None, 2000, None, None, Some(Severity::Warn));
    assert_eq!(plan, vec![RunCheck::RateVsTarget(Severity::Warn)]);
    // no outlier when max is at most five times the p99
    let plan = run_checks(Some(0), 10, Some(1_000), Some(5_000), None);
    assert_eq!(plan, vec![RunCheck::Loss(Severity::Good), RunCheck::P99(Severity::Good), RunCheck::MeanRate]);
}

#[test]
fn pair_delta_takes_counts_as_i64() {
    // a count above i64::MAX wraps to a negative i64, as a cast does
    assert_eq!(pair_delta(u64::MAX, 0, 0), -1);
    assert_eq!(pair_delta(0, u64::MAX, 0), 1);
}

#[test]
fn run_verdict_draws_the_plan() {
    let plan = run_checks(Some(100), 1000, Some(786), Some(15_000), None);
    let values: Vec<String> = (0..plan.len()).map(|i| format!("v{i}")).collect();
    let explains: Vec<String> = (0..plan.len()).map(|i| format!("e{i}")).collect();
    let v = run_verdict(&plan, &values, &explains);
    let labels: Vec<&str> = v.checks.iter().map(|c| c.label.as_str()).collect();
    assert_eq!(labels, vec!["Pertes", "Latence p99", "Outlier max", "D\u{e9}bit moyen"]);
    assert_eq!(v.checks[2].severity, Severity::Warn);
    assert_eq!(v.checks[3].value, "v3");
    assert_eq!(v.checks[3].explain, "e3");
    assert_eq!(v.severity, Severity::Bad);
    assert_eq!(v.headline, "Probl\u{e8}mes d\u{e9}tect\u{e9}s");
    assert_eq!(run_check_label(&RunCheck::RateVsTarget(Severity::Good)), "D\u{e9}bit vs cible");
}

#[test]
fn pair_checks_order_and_severity() {
    let pub_c = vec![check("D\u{e9}bit vs cible", Severity::Good)];
    let sub_c = vec![check("Pertes", Severity::Warn), check("Latence p99", Severity::Good)];
    let r = pair_checks(
        &pub_c,
        &sub_c,
        Severity::Good,
        Severity::Good,
        "rv".to_string(),
        "re".to_string(),
        "dv".to_string(),
        "de".to_string(),
    );
    let labels: Vec<&str> = r.iter().map(|c| c.label.as_str()).collect();
    assert_eq!(
        labels,
        vec![
            "[pub] D\u{e9}bit vs cible",
            "[sub] Pertes",
            "[sub] Latence p99",
            "[pair] Alignement d\u{e9}bit",
            "[pair] Coh\u{e9}rence des comptes",
        ]
    );
    assert_eq!(r[3].value, "rv");
    assert_eq!(r[4].explain, "de");
    assert_eq!(worst_severity(&r), Severity::Warn);
}

#[test]
fn pair_config_refusal_text() {
    let p = PairKey { topic: Some("A".to_string()), domain: Some(0), reliability: Some("Reliable".to_string()) };
    let same = PairKey { topic: Some("A".to_string()), domain: Some(0), reliability: Some("Reliable".to_string()) };
    assert_eq!(pair_config_error(&p, &same, "t", "d", "r"), None);
    let other = PairKey { topic: Some("B".to_string()), domain: Some(0), reliability: None };
    assert_eq!(
        pair_config_error(&p, &other, "(a vs b)", "(x)", "(c vs d)").unwrap(),
        "pub/sub CSVs disagree on topic (a vs b), reliability (c vs d) \u{2014} probably from different runs"
    );
}
