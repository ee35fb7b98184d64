use backtesting::book::PositionRecord;
use backtesting::error::BrokerError;
use backtesting::ids::{FIRST_ID, ID_LIMIT};
use backtesting::positions::PositionsType;
use backtesting::trading::TradeBook;
use std::collections::HashSet;

fn closed_at(p: &PositionRecord<String>) -> String {
    format!("{} closed", p.detail)
}

#[test]
fn trade_book_opens_under_fresh_ids() {
    let mut t: TradeBook<String> = TradeBook::new();
    let a = t.open_position(100, PositionsType::Buy, "a".to_string()).unwrap();
    let b = t.open_position(101, PositionsType::Sell, "b".to_string()).unwrap();
    assert_ne!(a, b);
    assert!(FIRST_ID <= a && a < ID_LIMIT && FIRST_ID <= b && b < ID_LIMIT);
    let open = t.book().positions();
    assert_eq!(open.len(), 2);
    assert_eq!((open[0].id, open[0].open_time, open[0].close_time), (a, 100, 0));
    assert_eq!((open[1].id, open[1].position_type), (b, PositionsType::Sell));
}

#[test]
fn trade_book_open_then_close_restores() {
    let mut t: TradeBook<String> = TradeBook::new();
    let a = t.open_position(100, PositionsType::Buy, "a".to_string()).unwrap();
    let b = t.open_position(101, PositionsType::Buy, "b".to_string()).unwrap();
    assert_eq!(t.close_position(b, 102, closed_at), Ok(()));
    assert_eq!(t.book().position_num(), 1);
    assert_eq!(t.book().positions()[0].id, a);
    let h = t.book().history();
    assert_eq!((h[0].id, h[0].close_time, h[0].detail.as_str()), (b, 102, "b closed"));
    assert_eq!(t.close_position(b, 103, closed_at), Err(BrokerError::PositionNotFound));
}

#[test]
fn trade_book_ids_never_repeat_across_open_and_closed() {
    let mut t: TradeBook<String> = TradeBook::new();
    let mut seen = HashSet::new();
    for k in 0..50u64 {
        let id = t.open_position(k + 1, PositionsType::Buy, format!("p{}", k)).unwrap();
        assert!(seen.insert(id));
        if k % 2 == 0 {
            t.close_position(id, k + 2, closed_at).unwrap();
        }
    }
    let n = t.book().position_num();
    let details: Vec<String> = (0..n).map(|i| format!("d{}", i)).collect();
    assert_eq!(t.close_all(1000, &details), 25);
    assert_eq!(t.book().position_num(), 0);
    let ids: HashSet<u64> = t.book().history().iter().map(|p| p.id).collect();
    assert_eq!(ids.len(), 50);
    assert_eq!(t.close_all(1001, &Vec::new()), 0);
}

#[test]
fn trade_book_close_where_marked() {
    let mut t: TradeBook<String> = TradeBook::new();
    let a = t.open_position(1, PositionsType::Buy, "a".to_string()).unwrap();
    let b = t.open_position(2, PositionsType::Sell, "b".to_string()).unwrap();
    let n = t.close_where(5, &vec![false, true], &vec!["x".to_string(), "y".to_string()]);
    assert_eq!(n, 1);
    assert_eq!(t.book().positions()[0].id, a);
    assert_eq!(t.book().positions()[0].detail, "a");
    assert_eq!((t.book().history()[0].id, t.book().history()[0].detail.as_str()), (b, "y"));
}
