use backtesting::dates::timestamp_to_date;
use backtesting::error::BrokerError;
use backtesting::positions::PositionsType;
use backtesting::strategy::DefaultStrategy;

#[test]
fn error_messages() {
    assert_eq!(BrokerError::InsufficientMargin.message(), "保证金不足");
    assert_eq!(BrokerError::PositionNotFound.message(), "持仓不存在");
}

#[test]
fn dates_of_timestamps() {
    assert_eq!(timestamp_to_date(1577836800).unwrap(), "2020-01-01");
    assert_eq!(timestamp_to_date(1578268800).unwrap(), "2020-01-06");
    assert_eq!(timestamp_to_date(0).unwrap(), "1970-01-01");
    assert_eq!(timestamp_to_date(-86400).unwrap(), "1969-12-31");
    assert!(timestamp_to_date(i64::MAX).is_none());
}

#[test]
fn position_types_compare() {
    assert_ne!(PositionsType::Buy, PositionsType::Sell);
    assert_eq!(DefaultStrategy::new(), DefaultStrategy {});
}
