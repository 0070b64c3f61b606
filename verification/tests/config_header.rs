use dds_backend::bench::BenchKind;
use dds_backend::config::{parse_config_line, HeaderError};

const SUB_CSV: &str = "# config: kind=sub duration=10 warmup=0 reliability=Reliable history_depth=100 topic=Chatter domain=0\nt_s,recv,lost_wire\n1.0,1000,0\n";

const PUB_CSV: &str = "# config: kind=pub rate=1000 payload=128 duration=10 warmup=0 await_readers=1 reliability=Reliable history_depth=100 topic=Chatter domain=0\nt_s,sent\n";

#[test]
fn parses_sub_header() {
    let h = parse_config_line(SUB_CSV).ok().unwrap();
    assert_eq!(h.kind, BenchKind::Sub);
    assert_eq!(h.duration, Some(10));
    assert_eq!(h.warmup, Some(0));
    assert_eq!(h.reliability.as_deref(), Some("Reliable"));
    assert_eq!(h.history_depth, Some(100));
    assert_eq!(h.topic.as_deref(), Some("Chatter"));
    assert_eq!(h.domain, Some(0));
    assert_eq!(h.rate, None);
    assert_eq!(h.payload, None);
}

#[test]
fn parses_pub_header() {
    let h = parse_config_line(PUB_CSV).ok().unwrap();
    assert_eq!(h.kind, BenchKind::Pub);
    assert_eq!(h.rate.as_deref(), Some("1000"));
    assert_eq!(h.payload, Some(128));
    assert_eq!(h.await_readers, Some(1));
}

#[test]
fn header_errors() {
    assert!(matches!(parse_config_line(""), Err(HeaderError::EmptyFile)));
    let missing = parse_config_line(
        "t_s,sent,errors,rate_per_s,write_avg_us,write_max_us\n1.0,100,0,100.0,15,40\n",
    );
    match missing {
        Err(e) => {
            assert!(matches!(e, HeaderError::MissingHeader));
            assert!(e.message().contains("# config:"));
        }
        Ok(_) => panic!("header accepted"),
    }
    match parse_config_line("# config: kind=both\n") {
        Err(e) => assert_eq!(e.message(), "unknown kind=both"),
        Ok(_) => panic!("unknown kind accepted"),
    }
    match parse_config_line("# config: rate=5\n") {
        Err(e) => assert_eq!(e.message(), "missing kind in '# config:' header"),
        Ok(_) => panic!("missing kind accepted"),
    }
    assert_eq!(HeaderError::EmptyFile.message(), "empty file");
}

#[test]
fn header_edge_cases() {
    // last value wins, words without '=' are ignored, CRLF and tabs are whitespace
    let h = parse_config_line("# config:\tkind=sub junk domain=1 domain=2  \r\nrest").ok().unwrap();
    assert_eq!(h.domain, Some(2));
    // a value may hold '=' after the first one
    let h = parse_config_line("# config: kind=pub topic=a=b").ok().unwrap();
    assert_eq!(h.topic.as_deref(), Some("a=b"));
    // integers follow str::parse
    let h = parse_config_line("# config: kind=pub payload=+7 warmup=-1 duration=18446744073709551616 domain=65536 history_depth=-9223372036854775808").ok().unwrap();
    assert_eq!(h.payload, Some(7));
    assert_eq!(h.warmup, None);
    assert_eq!(h.duration, None);
    assert_eq!(h.domain, None);
    assert_eq!(h.history_depth, Some(i64::MIN));
    let h = parse_config_line("# config: kind=pub history_depth=-+5 payload=").ok().unwrap();
    assert_eq!(h.history_depth, None);
    assert_eq!(h.payload, None);
    // the prefix must start the first line
    assert!(matches!(parse_config_line(" # config: kind=pub"), Err(HeaderError::MissingHeader)));
    assert!(matches!(parse_config_line("\n# config: kind=pub"), Err(HeaderError::MissingHeader)));
}
