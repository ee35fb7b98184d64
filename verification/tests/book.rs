use backtesting::book::{PositionBook, PositionRecord};
use backtesting::error::BrokerError;
use backtesting::positions::PositionsType;

#[derive(Clone, Debug, PartialEq)]
struct Detail {
    comment: String,
    price: f64,
}

fn detail(comment: &str, price: f64) -> Detail {
    Detail { comment: comment.to_string(), price }
}

fn settled(p: &PositionRecord<Detail>) -> Detail {
    Detail { comment: p.detail.comment.clone(), price: 9.5 }
}

#[test]
fn book_open_position_counts() {
    let mut book: PositionBook<Detail> = PositionBook::new();
    assert_eq!(book.position_num(), 0);
    book.open_position(7, 123456, PositionsType::Buy, detail("Test Buy", 1.2));
    assert_eq!(book.position_num(), 1);
    let p = &book.positions()[0];
    assert_eq!(p.id, 7);
    assert_eq!(p.open_time, 123456);
    assert_eq!(p.close_time, 0);
    assert_eq!(p.position_type, PositionsType::Buy);
    assert!(book.history().is_empty());
}

#[test]
fn book_close_position_moves_to_history() {
    let mut book: PositionBook<Detail> = PositionBook::new();
    book.open_position(11, 123456, PositionsType::Buy, detail("Test Buy", 1.2));
    assert_eq!(book.position_num(), 1);
    let r = book.close_position(11, 123457, settled);
    assert!(r.is_ok());
    assert_eq!(book.position_num(), 0);
    assert_eq!(book.history().len(), 1);
    let h = &book.history()[0];
    assert_eq!(h.id, 11);
    assert_eq!(h.open_time, 123456);
    assert_eq!(h.close_time, 123457);
    assert_eq!(h.detail, detail("Test Buy", 9.5));
}

#[test]
fn book_close_unknown_id_fails() {
    let mut book: PositionBook<Detail> = PositionBook::new();
    book.open_position(11, 123456, PositionsType::Sell, detail("a", 1.0));
    let r = book.close_position(12, 123457, settled);
    assert_eq!(r, Err(BrokerError::PositionNotFound));
    assert_eq!(book.position_num(), 1);
    assert!(book.history().is_empty());
}

#[test]
fn book_close_position_takes_first_match() {
    let mut book: PositionBook<Detail> = PositionBook::new();
    book.open_position(5, 10, PositionsType::Buy, detail("first", 1.0));
    book.open_position(5, 20, PositionsType::Sell, detail("second", 2.0));
    assert_eq!(book.find_open(5), Some(0));
    book.close_position(5, 30, settled).unwrap();
    assert_eq!(book.position_num(), 1);
    assert_eq!(book.positions()[0].detail.comment, "second");
    assert_eq!(book.history()[0].detail.comment, "first");
}

#[test]
fn book_close_where_closes_marked() {
    let mut book: PositionBook<Detail> = PositionBook::new();
    book.open_position(1, 100, PositionsType::Buy, detail("a", 1.0));
    book.open_position(2, 101, PositionsType::Sell, detail("b", 2.0));
    book.open_position(3, 102, PositionsType::Buy, detail("c", 3.0));
    let mask = vec![true, false, true];
    let details = vec![detail("a", 10.0), detail("b", 20.0), detail("c", 30.0)];
    let closed = book.close_where(200, &mask, &details);
    assert_eq!(closed, 2);
    assert_eq!(book.position_num(), 1);
    assert_eq!(book.positions()[0].id, 2);
    assert_eq!(book.positions()[0].detail, detail("b", 2.0));
    let h = book.history();
    assert_eq!(h.len(), 2);
    assert_eq!((h[0].id, h[0].close_time, h[0].detail.price), (1, 200, 10.0));
    assert_eq!((h[1].id, h[1].close_time, h[1].detail.price), (3, 200, 30.0));
}

#[test]
fn book_close_where_at_time_zero_keeps_positions_open() {
    let mut book: PositionBook<Detail> = PositionBook::new();
    book.open_position(1, 0, PositionsType::Buy, detail("a", 1.0));
    let closed = book.close_where(0, &vec![true], &vec![detail("a", 5.0)]);
    assert_eq!(closed, 1);
    assert_eq!(book.position_num(), 1);
    assert_eq!(book.positions()[0].detail.price, 5.0);
    assert_eq!(book.history().len(), 1);
    assert_eq!(book.history()[0].close_time, 0);
}

#[test]
fn book_close_all_empties_book() {
    let mut book: PositionBook<Detail> = PositionBook::new();
    book.open_position(1, 100, PositionsType::Buy, detail("a", 1.0));
    book.open_position(2, 101, PositionsType::Sell, detail("b", 2.0));
    let closed = book.close_all(300, &vec![detail("a", 7.0), detail("b", 8.0)]);
    assert_eq!(closed, 2);
    assert_eq!(book.position_num(), 0);
    let h = book.history();
    assert_eq!(h.len(), 2);
    assert_eq!((h[0].id, h[0].close_time, h[0].detail.price), (1, 300, 7.0));
    assert_eq!((h[1].id, h[1].close_time, h[1].detail.price), (2, 300, 8.0));
}

#[test]
fn book_last_position_is_newest() {
    let mut book: PositionBook<Detail> = PositionBook::new();
    assert!(book.last_position().is_none());
    book.open_position(1, 123456, PositionsType::Buy, detail("First Buy", 1.2));
    book.open_position(2, 123457, PositionsType::Buy, detail("Second Buy", 1.25));
    let last = book.last_position();
    assert!(last.is_some());
    assert_eq!(last.unwrap().detail.comment, "Second Buy");
}

#[test]
fn book_last_position_prefers_later_on_tie() {
    let mut book: PositionBook<Detail> = PositionBook::new();
    book.open_position(1, 50, PositionsType::Buy, detail("x", 1.0));
    book.open_position(2, 50, PositionsType::Buy, detail("y", 1.0));
    book.open_position(3, 40, PositionsType::Buy, detail("z", 1.0));
    assert_eq!(book.newest_index(), Some(1));
    assert_eq!(book.last_position().unwrap().id, 2);
}

#[test]
fn book_positions_newest_first() {
    let mut book: PositionBook<Detail> = PositionBook::new();
    assert!(book.positions_newest_first().is_none());
    book.open_position(1, 123456, PositionsType::Buy, detail("First Buy", 1.2));
    book.open_position(2, 123457, PositionsType::Buy, detail("Second Buy", 1.25));
    let positions = book.positions_newest_first();
    assert!(positions.is_some());
    let positions = positions.unwrap();
    assert_eq!(positions[0].detail.comment, "Second Buy");
    assert_eq!(positions[1].detail.comment, "First Buy");
}

#[test]
fn book_newest_first_order_is_stable() {
    let mut book: PositionBook<Detail> = PositionBook::new();
    book.open_position(1, 5, PositionsType::Buy, detail("a", 1.0));
    book.open_position(2, 9, PositionsType::Sell, detail("b", 1.0));
    book.open_position(3, 5, PositionsType::Buy, detail("c", 1.0));
    book.open_position(4, 9, PositionsType::Buy, detail("d", 1.0));
    book.open_position(5, 1, PositionsType::Buy, detail("e", 1.0));
    assert_eq!(book.newest_first_order(), vec![1, 3, 0, 2, 4]);
    let ids: Vec<u64> = book.positions_newest_first().unwrap().iter().map(|p| p.id).collect();
    assert_eq!(ids, vec![2, 4, 1, 3, 5]);
}

#[test]
fn book_open_then_close_restores_positions() {
    let mut book: PositionBook<Detail> = PositionBook::new();
    book.open_position(1, 5, PositionsType::Buy, detail("a", 1.0));
    book.open_position(2, 6, PositionsType::Sell, detail("b", 1.0));
    book.close_position(2, 7, settled).unwrap();
    assert_eq!(book.position_num(), 1);
    assert_eq!(book.positions()[0].id, 1);
}

#[test]
fn record_duplicate_copies_fields() {
    let r = PositionRecord { id: 3, open_time: 4, close_time: 5, position_type: PositionsType::Sell, detail: detail("q", 2.5) };
    let d = r.duplicate();
    assert_eq!((d.id, d.open_time, d.close_time, d.position_type), (3, 4, 5, PositionsType::Sell));
    assert_eq!(d.detail, detail("q", 2.5));
}
