use acb_gains::fetch::plan_windows;
use acb_gains::fetch::FetchError;
use acb_gains::fetch::Fetcher;
use acb_gains::fetch::MAX_QUERY_DURATION_SECONDS;
use acb_gains::records::AccountActivity;
use acb_gains::records::TradeAction;

const WINDOW: i64 = MAX_QUERY_DURATION_SECONDS;

fn record(action: TradeAction, symbol: &str) -> AccountActivity {
    AccountActivity {
        action,
        symbol: symbol.to_string(),
        quantity: 1,
        net_amount: 100,
        settlement_date: "2021-06-15T12:00:00Z".to_string(),
    }
}

#[test]
fn windows_tile_the_span_without_gaps() {
    let since = 1_000_000;
    let now = since + 2 * WINDOW + 100;
    let ws = plan_windows(since, now);
    assert_eq!(ws.len(), 3);
    for (k, w) in ws.iter().enumerate() {
        assert_eq!(w.start, since + k as i64 * WINDOW);
        assert_eq!(w.end, w.start + WINDOW);
    }
    // No gaps, strictly increasing, and the last window reaches "now".
    assert_eq!(ws[0].end, ws[1].start);
    assert_eq!(ws[1].end, ws[2].start);
    assert!(ws[2].end >= now);
    assert!(ws[2].start < now);
}

#[test]
fn exact_multiple_span_has_no_extra_window() {
    let since = 500;
    let now = since + 2 * WINDOW;
    let ws = plan_windows(since, now);
    assert_eq!(ws.len(), 2);
    assert_eq!(ws[1].end, now);
}

#[test]
fn empty_span_plans_no_window() {
    assert!(plan_windows(100, 100).is_empty());
    assert!(plan_windows(200, 100).is_empty());
}

#[test]
fn fetcher_rejects_bad_start_timestamp() {
    let r = Fetcher::new("the dawn of time", 1_600_000_000);
    assert!(matches!(r, Err(FetchError::InvalidTimestamp)));
}

#[test]
fn fetcher_starts_at_the_parsed_instant() {
    // 2020-01-01T00:00:00Z is epoch second 1577836800.
    let f = Fetcher::new("2020-01-01T00:00:00Z", 1577836800 + WINDOW + 1).unwrap();
    assert_eq!(f.windows.len(), 2);
    assert_eq!(f.windows[0].start, 1577836800);
    assert_eq!(f.windows[0].end, 1577836800 + WINDOW);
}

#[test]
fn windows_are_handed_out_in_order() {
    let mut f = Fetcher::new("2020-01-01T00:00:00Z", 1577836800 + WINDOW + 1).unwrap();
    let w0 = f.next_window().unwrap();
    let w1 = f.next_window().unwrap();
    assert!(w0.start < w1.start);
    assert_eq!(w0.end, w1.start);
    assert!(f.next_window().is_none());
}

#[test]
fn pages_are_filtered_and_kept_in_order() {
    let mut f = Fetcher::new("2020-01-01T00:00:00Z", 1577836800 + 1).unwrap();
    f.accept_page(vec![
        record(TradeAction::Buy, "A"),
        record(TradeAction::Other, "DIVIDEND"),
        record(TradeAction::Sell, "B"),
    ]);
    f.accept_page(vec![
        record(TradeAction::Other, "TRANSFER"),
        record(TradeAction::Buy, "C"),
    ]);
    let activities = f.into_activities();
    let symbols: Vec<&str> =
        activities.activities.iter().map(|a| a.symbol.as_str()).collect();
    assert_eq!(symbols, vec!["A", "B", "C"]);
    assert!(activities
        .activities
        .iter()
        .all(|a| a.action == TradeAction::Buy || a.action == TradeAction::Sell));
}
