use backtesting::analysis::{parse_ana_line, parse_ana_lines};

#[test]
fn ana_line_reads_trimmed_fields() {
    let a = parse_ana_line(" 3 , 0.30 ,-12.5, 1577836800 ").unwrap();
    assert_eq!(a.total, 3);
    assert_eq!(a.volume, "0.30");
    assert_eq!(a.profile, "-12.5");
    assert_eq!(a.time, 1577836800);
}

#[test]
fn ana_line_rejects() {
    assert!(parse_ana_line("1,2,3").is_none());
    assert!(parse_ana_line("1,2,3,4,5").is_none());
    assert!(parse_ana_line("x,2,3,4").is_none());
    assert!(parse_ana_line("1,2,3,4.0").is_none());
}

#[test]
fn ana_lines_skip_header_and_bad_lines() {
    let lines = vec![
        "total,volume,profile,time".to_string(),
        "1,0.1,5.0,100".to_string(),
        "broken".to_string(),
        "2,0.2,-3.0,200".to_string(),
    ];
    let rows = parse_ana_lines(&lines);
    assert_eq!(rows.len(), 2);
    assert_eq!((rows[0].total, rows[0].time), (1, 100));
    assert_eq!((rows[1].total, rows[1].profile.as_str()), (2, "-3.0"));
    assert!(parse_ana_lines(&Vec::new()).is_empty());
}
