use acb_gains::ledger::calculate_capital_gains;
use acb_gains::ledger::Ledger;
use acb_gains::ledger::LedgerError;
use acb_gains::records::AccountActivities;
use acb_gains::records::AccountActivity;
use acb_gains::records::TradeAction;

fn record(action: TradeAction, symbol: &str, quantity: i64, net_amount: i64, date: &str) -> AccountActivity {
    AccountActivity {
        action,
        symbol: symbol.to_string(),
        quantity,
        net_amount,
        settlement_date: date.to_string(),
    }
}

#[test]
fn buy_then_sell_scenario() {
    // Buy 10 units for 1000, then sell 5 with proceeds 600: the cost per
    // unit is 100, the per-unit proceeds 120, so the realized gain is
    // 5 * (100 + 120) = 1100; the position then takes the record's own
    // quantity and net amount: quantity 10 + 5, amount 1000 + 600.
    let mut ledger = Ledger::new();
    let buy = record(TradeAction::Buy, "X", 10, 1000, "2021-03-01T10:00:00-05:00");
    assert!(ledger.apply(&buy).is_ok());
    assert_eq!(ledger.position(&"X".to_string()), Some((10, 1000)));

    let sell = record(TradeAction::Sell, "X", 5, 600, "2021-06-15T12:00:00-05:00");
    assert!(ledger.apply(&sell).is_ok());
    assert_eq!(ledger.position(&"X".to_string()), Some((15, 1600)));

    let gains = ledger.into_gains();
    assert_eq!(gains.gain_for(2021), Some(1100));
    assert_eq!(gains.gain_for(2020), None);
}

#[test]
fn year_bucketing_keeps_record_offset() {
    // A sale settled in the last hour of 2021 in UTC-5 buckets into 2021;
    // one settled just after midnight UTC on new year buckets into 2022.
    let records = vec![
        record(TradeAction::Buy, "X", 4, 400, "2021-01-04T10:00:00-05:00"),
        record(TradeAction::Sell, "X", 2, 300, "2021-12-31T23:59:00-05:00"),
        record(TradeAction::Sell, "X", 2, 300, "2022-01-01T00:30:00Z"),
    ];
    let gains = calculate_capital_gains(AccountActivities { activities: records }).unwrap();
    assert_eq!(gains.gain_for(2021), Some(2 * (100 + 150)));
    assert_eq!(gains.gain_for(2022), Some(2 * ((400 + 300) / (4 + 2) + 150)));
}

#[test]
fn anomalous_sell_is_skipped() {
    // A sell against a symbol never bought records no gain and creates no
    // position.
    let records = vec![record(TradeAction::Sell, "GHOST", 5, 500, "2021-06-15T12:00:00Z")];
    let gains = calculate_capital_gains(AccountActivities { activities: records }).unwrap();
    assert!(gains.entries.is_empty());

    let mut ledger = Ledger::new();
    let sell = record(TradeAction::Sell, "GHOST", 5, 500, "2021-06-15T12:00:00Z");
    assert!(ledger.apply(&sell).is_ok());
    assert_eq!(ledger.position(&"GHOST".to_string()), None);
}

#[test]
fn replay_is_idempotent() {
    let make = || AccountActivities {
        activities: vec![
            record(TradeAction::Buy, "A", 10, 1000, "2020-02-01T00:00:00Z"),
            record(TradeAction::Buy, "B", 3, 900, "2020-03-01T00:00:00Z"),
            record(TradeAction::Sell, "A", 4, 480, "2021-02-01T00:00:00Z"),
            record(TradeAction::Sell, "B", 1, 350, "2021-03-01T00:00:00Z"),
        ],
    };
    let first = calculate_capital_gains(make()).unwrap();
    let second = calculate_capital_gains(make()).unwrap();
    assert_eq!(first.entries.len(), second.entries.len());
    for (a, b) in first.entries.iter().zip(second.entries.iter()) {
        assert_eq!(a.year, b.year);
        assert_eq!(a.gain, b.gain);
    }
}

#[test]
fn emptying_a_position_resets_the_amount() {
    // Source data carries sell quantities signed so that they shrink the
    // position; a sell that empties it leaves an amount of exactly zero.
    let mut ledger = Ledger::new();
    let buy_a = record(TradeAction::Buy, "X", 6, 600, "2020-01-10T00:00:00Z");
    let buy_b = record(TradeAction::Buy, "X", 4, 500, "2020-02-10T00:00:00Z");
    let sell = record(TradeAction::Sell, "X", -10, 1500, "2020-11-10T00:00:00Z");
    assert!(ledger.apply(&buy_a).is_ok());
    assert!(ledger.apply(&buy_b).is_ok());
    assert!(ledger.apply(&sell).is_ok());
    assert_eq!(ledger.position(&"X".to_string()), Some((0, 0)));
}

#[test]
fn malformed_settlement_date_aborts() {
    let records = vec![
        record(TradeAction::Buy, "X", 10, 1000, "not inspected for buys"),
        record(TradeAction::Sell, "X", 5, 600, "2021-13-45T99:00:00Z"),
    ];
    let result = calculate_capital_gains(AccountActivities { activities: records });
    assert_eq!(result.unwrap_err(), LedgerError::MalformedDate);
}

#[test]
fn quantity_overflow_aborts() {
    let records = vec![
        record(TradeAction::Buy, "X", i64::MAX, 100, "2021-01-01T00:00:00Z"),
        record(TradeAction::Buy, "X", 1, 100, "2021-01-02T00:00:00Z"),
    ];
    let result = calculate_capital_gains(AccountActivities { activities: records });
    assert_eq!(result.unwrap_err(), LedgerError::Overflow);
}

#[test]
fn zero_quantity_sell_records_no_gain() {
    // A sell of zero units against a tracked position has no per-unit
    // price: no gain is recorded, while the position still takes the
    // record's net amount.
    let records = vec![
        record(TradeAction::Buy, "X", 10, 1000, "2020-01-01T00:00:00Z"),
        record(TradeAction::Sell, "X", 0, 50, "2021-06-15T12:00:00Z"),
    ];
    let gains = calculate_capital_gains(AccountActivities { activities: records.clone() }).unwrap();
    assert!(gains.entries.is_empty());

    let mut ledger = Ledger::new();
    for r in records.iter() {
        assert!(ledger.apply(r).is_ok());
    }
    assert_eq!(ledger.position(&"X".to_string()), Some((10, 1050)));
}

#[test]
fn gains_accumulate_within_a_year() {
    let records = vec![
        record(TradeAction::Buy, "X", 10, 1000, "2020-01-01T00:00:00Z"),
        record(TradeAction::Sell, "X", 2, 300, "2021-02-01T00:00:00Z"),
        record(TradeAction::Sell, "X", 2, 400, "2021-08-01T00:00:00Z"),
    ];
    // First sale: cost per unit 100, proceeds per unit 150, gain 2 * 250.
    // Second sale: position is then {12, 1300}, cost per unit 108
    // (truncated), proceeds per unit 200, gain 2 * 308.
    let gains = calculate_capital_gains(AccountActivities { activities: records }).unwrap();
    assert_eq!(gains.gain_for(2021), Some(2 * 250 + 2 * 308));
}
