use backtesting::kline::{kline_from_fields, parse_kline_line, parse_kline_lines, KLineError};

#[test]
fn kline_line_reads() {
    let k = parse_kline_line("2024.05.21\t14:15:00\t1.08641\t1.08650\t1.08635\t1.08645\t120\t0\t15").unwrap();
    assert_eq!(k.time, 1716300900);
    assert_eq!(k.open, "1.08641");
    assert_eq!(k.high, "1.08650");
    assert_eq!(k.low, "1.08635");
    assert_eq!(k.close, "1.08645");
    assert_eq!(k.spread, 15);
}

#[test]
fn kline_line_errors() {
    assert_eq!(parse_kline_line("2024.05.21").err(), Some(KLineError::MissingField));
    assert_eq!(parse_kline_line("2024.13.21\t14:15:00\t1\t1\t1\t1\t0\t0\t15").err(), Some(KLineError::BadTimestamp));
    assert_eq!(parse_kline_line("2024.05.21\t14:15:00\t1\t1\t1\t1").err(), Some(KLineError::MissingField));
    assert_eq!(parse_kline_line("2024.05.21\t14:15:00\t1\t1\t1\t1\t0\t0\t-3").err(), Some(KLineError::BadSpread));
}

#[test]
fn kline_lines_skip_header() {
    let lines = vec![
        "<DATE>\t<TIME>\t<OPEN>\t<HIGH>\t<LOW>\t<CLOSE>\t<TICKVOL>\t<VOL>\t<SPREAD>".to_string(),
        "2024.05.21\t14:15:00\t1.08641\t1.08650\t1.08635\t1.08645\t120\t0\t15".to_string(),
        "2024.05.21\t14:30:00\t1.08645\t1.08660\t1.08640\t1.08655\t90\t0\t12".to_string(),
    ];
    let rows = parse_kline_lines(&lines).unwrap();
    assert_eq!(rows.len(), 2);
    assert_eq!(rows[0].time, 1716300900);
    assert_eq!(rows[1].time, 1716301800);
    assert_eq!(rows[1].spread, 12);
    assert_eq!(parse_kline_lines(&Vec::new()).unwrap().len(), 0);
    let bad = vec![lines[0].clone(), lines[1].clone(), "oops".to_string()];
    assert_eq!(parse_kline_lines(&bad).err(), Some((2, KLineError::MissingField)));
}

#[test]
fn kline_row_from_fields_and_timestamp() {

    let fields: Vec<String> = ["2024.05.21", "14:15:00", "1.1", "1.2", "1.0", "1.15", "7", "0", "+12"]
        .iter()
        .map(|s| s.to_string())
        .collect();
    let k = kline_from_fields(&fields, Some(1716300900)).unwrap();
    assert_eq!((k.time, k.spread), (1716300900, 12));
    assert_eq!((k.open.as_str(), k.high.as_str(), k.low.as_str(), k.close.as_str()), ("1.1", "1.2", "1.0", "1.15"));
    assert_eq!(kline_from_fields(&fields, Some(-1)).unwrap().time, u64::MAX);
    assert_eq!(kline_from_fields(&fields, None).err(), Some(KLineError::BadTimestamp));
    assert_eq!(kline_from_fields(&fields[..1].to_vec(), Some(5)).err(), Some(KLineError::MissingField));
    assert_eq!(kline_from_fields(&fields[..8].to_vec(), Some(5)).err(), Some(KLineError::MissingField));
    let mut bad = fields.clone();
    bad[8] = "1x".to_string();
    assert_eq!(kline_from_fields(&bad, Some(5)).err(), Some(KLineError::BadSpread));
}
