use dds_backend::bench::BenchKind;
use dds_backend::rows::{csv_records, parse_row, rate_column, RowError};

fn strings(v: &[&str]) -> Vec<String> {
    v.iter().map(|s| s.to_string()).collect()
}

#[test]
fn csv_records_skip_the_header() {
    let (recs, err) = csv_records("t_s,sent\n1.0,5\n2.0,6\n");
    assert!(err.is_none());
    assert_eq!(recs, vec![strings(&["1.0", "5"]), strings(&["2.0", "6"])]);
}

#[test]
fn csv_records_stop_at_a_short_record() {
    let (recs, err) = csv_records("a,b\n1,2\n3\n4,5\n");
    assert_eq!(recs, vec![strings(&["1", "2"])]);
    assert!(matches!(err, Some(RowError::Csv(_))));
}

#[test]
fn csv_records_of_empty_body() {
    let (recs, err) = csv_records("");
    assert!(recs.is_empty());
    assert!(err.is_none());
}

#[test]
fn pub_row_reads_integer_columns() {
    let f = strings(&["1.0", "1000", "2", "1000.0", "15", "40"]);
    let c = parse_row(&f, BenchKind::Pub, true, true).ok().unwrap();
    assert_eq!(c.sent, Some(1000));
    assert_eq!(c.errors, Some(2));
    assert_eq!(c.write_avg_us, Some(15));
    assert_eq!(c.write_max_us, Some(40));
    assert_eq!(c.recv, None);
    assert_eq!(c.lat_p99_us, None);
}

#[test]
fn sub_row_reads_integer_columns() {
    let f = strings(&["1.0", "1000", "3", "1", "2", "4", "5", "1000.0", "196", "393", "786", "1129"]);
    let c = parse_row(&f, BenchKind::Sub, true, true).ok().unwrap();
    assert_eq!(c.recv, Some(1000));
    assert_eq!(c.lost_wire, Some(3));
    assert_eq!(c.lost_dds, Some(1));
    assert_eq!(c.reord, Some(2));
    assert_eq!(c.dup, Some(4));
    assert_eq!(c.clock_skew_skipped, Some(5));
    assert_eq!(c.lat_p50_us, Some(196));
    assert_eq!(c.lat_p95_us, Some(393));
    assert_eq!(c.lat_p99_us, Some(786));
    assert_eq!(c.lat_max_us, Some(1129));
    assert_eq!(c.sent, None);
}

#[test]
fn first_bad_column_is_reported() {
    let f = strings(&["1.0", "12", "x", "bad", "-1", "40"]);
    match parse_row(&f, BenchKind::Pub, true, false) {
        Err(RowError::BadUnsigned(2, Some(t))) => assert_eq!(t, "x"),
        _ => panic!("expected column 2"),
    }
    let f = strings(&["1.0", "12", "7", "bad", "-1", "40"]);
    match parse_row(&f, BenchKind::Pub, true, false) {
        Err(RowError::BadFloat(3, Some(t))) => assert_eq!(t, "bad"),
        _ => panic!("expected the rate column"),
    }
    match parse_row(&f, BenchKind::Pub, false, false) {
        Err(RowError::BadFloat(0, Some(t))) => assert_eq!(t, "1.0"),
        _ => panic!("expected column 0"),
    }
}

#[test]
fn short_record_reports_missing_field() {
    let f = strings(&["1.0", "1", "2", "3", "4"]);
    assert!(matches!(parse_row(&f, BenchKind::Sub, true, false), Err(RowError::BadUnsigned(5, None))));
}

#[test]
fn plus_sign_and_overflow() {
    let f = strings(&["1.0", "+7", "0", "1.0", "18446744073709551615", "18446744073709551616"]);
    match parse_row(&f, BenchKind::Pub, true, true) {
        Err(RowError::BadUnsigned(5, Some(t))) => assert_eq!(t, "18446744073709551616"),
        _ => panic!("expected column 5"),
    }
    assert_eq!(rate_column(BenchKind::Pub), 3);
    assert_eq!(rate_column(BenchKind::Sub), 7);
}
