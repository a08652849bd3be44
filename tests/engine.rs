use orderbook::book::OrderBook;
use orderbook::config::OrderBookConfiguration;
use orderbook::order::{parse_record, Order, Record, SerializedColumns};
use orderbook::types::{Event, OrderType, OutputStatus, Quote, Side, TransactionType};

fn feed(lines: &[&str]) -> OrderBook {
    let mut book = OrderBook::new();
    for line in lines {
        book.build(&line.to_string());
    }
    book
}

fn lines_of(book: &OrderBook) -> Vec<String> {
    book.std_output().lines().skip(1).map(|s| s.to_string()).collect()
}

fn tail(book: &OrderBook, n: usize) -> Vec<String> {
    let all = lines_of(book);
    all[all.len() - n..].to_vec()
}

#[test]
fn new_buy_limit_acked_and_quoted() {
    let book = feed(&["N, 1, IBM, <>10, 100, B, 1"]);
    assert_eq!(lines_of(&book), vec!["A, 1, 1", "B, B, 10, 100"]);
    assert_eq!(book.best_bid(), Some(Quote { price: 10, quantity: 100 }));
    assert_eq!(book.best_ask(), None);
}

#[test]
fn new_sell_without_cross() {
    let book = feed(&["N, 1, IBM, <>10, 100, B, 1", "N, 1, IBM, <>12, 100, S, 2"]);
    assert_eq!(tail(&book, 2), vec!["A, 1, 2", "B, S, 12, 100"]);
}

#[test]
fn only_better_ask_reported() {
    let book = feed(&[
        "N, 1, IBM, <>10, 100, B, 1",
        "N, 1, IBM, <>12, 100, S, 2",
        "N, 2, IBM, <>14, 50, S, 101",
        "N, 2, IBM, <>11, 100, S, 102",
    ]);
    assert_eq!(tail(&book, 3), vec!["A, 2, 101", "A, 2, 102", "B, S, 11, 100"]);
}

#[test]
fn cancel_unknown_rejected() {
    let book = feed(&["C, 1, 3"]);
    assert_eq!(lines_of(&book), vec!["R, 1, 3"]);
}

#[test]
fn joining_bid_raises_quantity() {
    let book = feed(&["N, 1, IBM, <>10, 100, B, 1", "N, 1, IBM, <>10, 100, B, 4"]);
    assert_eq!(tail(&book, 2), vec!["A, 1, 4", "B, B, 10, 200"]);
}

#[test]
fn crossing_buy_trades_at_resting_price() {
    let book = feed(&[
        "N, 2, IBM, <>11, 100, S, 102",
        "N, 2, IBM, <>12, 100, S, 103",
        "N, 1, IBM, <>11, 60, B, 5",
    ]);
    assert_eq!(tail(&book, 3), vec!["A, 1, 5", "T, 2, 102, 1, 5, 11, 60", "B, S, 11, 40"]);
    let book = feed(&[
        "N, 2, IBM, <>11, 100, S, 102",
        "N, 2, IBM, <>12, 100, S, 103",
        "N, 1, IBM, <>13, 100, B, 5",
    ]);
    assert_eq!(tail(&book, 3), vec!["A, 1, 5", "T, 2, 102, 1, 5, 11, 100", "B, S, 12, 100"]);
}

#[test]
fn sweep_then_rest() {
    let book = feed(&[
        "N, 2, IBM, <>11, 100, S, 1",
        "N, 2, IBM, <>12, 50, S, 2",
        "N, 1, IBM, <>12, 200, B, 3",
    ]);
    assert_eq!(
        tail(&book, 5),
        vec!["A, 1, 3", "T, 2, 1, 1, 3, 11, 100", "T, 2, 2, 1, 3, 12, 50", "B, B, 12, 50", "B, S, -, -"]
    );
}

#[test]
fn market_order_never_rests() {
    let book = feed(&["N, 2, IBM, <>11, 30, S, 1", "N, 1, IBM, 0, 100, B, 2"]);
    assert_eq!(tail(&book, 3), vec!["A, 1, 2", "T, 2, 1, 1, 2, 11, 30", "B, S, -, -"]);
    assert_eq!(book.best_bid(), None);
    let book = feed(&["N, 1, IBM, 5, 100, S, 2"]);
    assert_eq!(lines_of(&book), vec!["A, 1, 2"]);
}

#[test]
fn equal_price_earlier_arrival_first() {
    let book = feed(&[
        "N, 7, IBM, <>11, 10, S, 1",
        "N, 8, IBM, <>11, 10, S, 2",
        "N, 9, IBM, <>11, 10, S, 3",
        "N, 1, IBM, <>11, 15, B, 4",
    ]);
    assert_eq!(
        tail(&book, 4),
        vec!["A, 1, 4", "T, 7, 1, 1, 4, 11, 10", "T, 8, 2, 1, 4, 11, 5", "B, S, 11, 15"]
    );
}

#[test]
fn trades_conserve_quantity() {
    let book = feed(&[
        "N, 7, IBM, <>10, 40, B, 1",
        "N, 8, IBM, <>9, 25, B, 2",
        "N, 1, IBM, <>9, 50, S, 3",
    ]);
    let traded: u64 = book
        .events()
        .iter()
        .map(|e| match e {
            Event::Trade { quantity, .. } => *quantity,
            _ => 0,
        })
        .sum();
    assert_eq!(traded, 50);
    assert_eq!(book.best_bid(), Some(Quote { price: 9, quantity: 15 }));
    assert_eq!(book.best_ask(), None);
}

#[test]
fn no_trade_on_same_side() {
    let book = feed(&["N, 1, IBM, <>10, 100, B, 1", "N, 2, IBM, <>20, 100, B, 2"]);
    assert!(book.events().iter().all(|e| e.status() != OutputStatus::TRA));
    assert_eq!(book.best_bid(), Some(Quote { price: 20, quantity: 100 }));
}

#[test]
fn cancel_then_cancel_again() {
    let book = feed(&[
        "N, 1, IBM, <>10, 100, B, 1",
        "N, 1, IBM, <>10, 50, B, 2",
        "C, 1, 1",
        "C, 1, 1",
    ]);
    assert_eq!(tail(&book, 3), vec!["A, 1, 1", "B, B, 10, 50", "R, 1, 1"]);
    let mut book = feed(&["N, 1, IBM, <>12, 100, S, 1"]);
    book.cancel_order((1, 1));
    assert_eq!(tail(&book, 2), vec!["A, 1, 1", "B, S, -, -"]);
}

#[test]
fn flush_empties_book() {
    let book = feed(&[
        "N, 1, IBM, <>10, 100, B, 1",
        "N, 1, IBM, <>12, 100, S, 2",
        "F",
        "N, 1, IBM, <>10, 100, B, 3",
        "C, 1, 2",
    ]);
    assert_eq!(tail(&book, 4), vec!["A", "A, 1, 3", "B, B, 10, 100", "R, 1, 2"]);
}

#[test]
fn flush_then_new_quote() {
    let mut book = feed(&["N, 1, IBM, <>10, 100, B, 1", "N, 1, IBM, <>12, 100, S, 2"]);
    book.reformat();
    assert_eq!(book.best_bid(), None);
    assert_eq!(book.best_ask(), None);
    book.build(&"N, 1, IBM, <>10, 100, B, 3".to_string());
    book.build(&"C, 1, 2".to_string());
    assert_eq!(tail(&book, 4), vec!["A", "A, 1, 3", "B, B, 10, 100", "R, 1, 2"]);
}

#[test]
fn unchanged_top_reported_once() {
    let book = feed(&[
        "N, 1, IBM, <>10, 100, B, 1",
        "N, 1, IBM, <>9, 100, B, 2",
        "N, 1, IBM, <>8, 100, B, 3",
    ]);
    assert_eq!(lines_of(&book), vec!["A, 1, 1", "B, B, 10, 100", "A, 1, 2", "A, 1, 3"]);
}

#[test]
fn duplicate_key_rejected() {
    let book = feed(&["N, 1, IBM, <>10, 100, B, 1", "N, 1, IBM, <>11, 100, S, 1"]);
    assert_eq!(tail(&book, 1), vec!["R, 1, 1"]);
    assert_eq!(book.best_ask(), None);
}

#[test]
fn malformed_fields_rejected() {
    let book = feed(&[
        "N, 1, IBM, <>1x, 100, B, 1",
        "N, 1, IBM, <>10, 0, B, 2",
        "N, 1, IBM, <>10, 100, Q, 3",
        "N, 1, IBM, <>10, 18446744073709551616, B, 4",
        "N, z, IBM, <>10, 100, B, 5",
    ]);
    assert_eq!(lines_of(&book), vec!["R, 1, 1", "R, 1, 2", "R, 1, 3", "R, 1, 4"]);
}

#[test]
fn largest_values_rendered() {
    let book = feed(&["N, 18446744073709551615, IBM, <>18446744073709551615, 18446744073709551615, B, 18446744073709551615"]);
    assert_eq!(
        lines_of(&book),
        vec![
            "A, 18446744073709551615, 18446744073709551615",
            "B, B, 18446744073709551615, 18446744073709551615"
        ]
    );
    let book = feed(&[
        "N, 1, IBM, <>7, 18446744073709551615, B, 1",
        "N, 1, IBM, <>7, 18446744073709551615, B, 2",
    ]);
    assert_eq!(tail(&book, 1), vec!["B, B, 7, 36893488147419103230"]);
}

#[test]
fn parse_new_record() {
    match parse_record(&" N ,  4 , AAPL , <>250 , 30 , S , 9 ".to_string()) {
        Record::New(o) => {
            assert_eq!(o.get_pk(), (4, 9));
            assert_eq!(o.ticker, "AAPL");
            assert_eq!(o.price, 250);
            assert_eq!(o.quantity, 30);
            assert_eq!(o.side, Side::SELL);
            assert_eq!(o.order_type, OrderType::LIMIT_ORDER);
            assert_eq!(o.get_order_status(), TransactionType::NEW);
        }
        other => panic!("unexpected {:?}", other),
    }
    assert!(matches!(parse_record(&"C, 4, 9".to_string()), Record::Cancel { client: 4, order_id: 9 }));
    assert!(matches!(parse_record(&"F".to_string()), Record::Flush));
    assert!(matches!(parse_record(&"#F".to_string()), Record::Skip));
    assert!(matches!(parse_record(&"".to_string()), Record::Skip));
    assert!(matches!(parse_record(&"N, 4, AAPL, <>, 30, S, 9".to_string()), Record::Malformed { client: 4, order_id: 9 }));
}

#[test]
fn order_from_line() {
    let o = Order::from(&"N, 3, IBM, 17, 5, B, 8".to_string()).unwrap();
    assert_eq!(o.order_type, OrderType::MARKET_ORDER);
    assert_eq!(o.price, 17);
    assert!(o.is_pk((3, 8)));
    assert!(!o.is_pk((8, 3)));
    assert!(Order::from(&"C, 3, 8".to_string()).is_none());
    assert!(Order::from(&"# N, 3, IBM, 17, 5, B, 8".to_string()).is_none());
}

#[test]
fn order_columns_and_fields() {
    let cols: SerializedColumns = (
        Some(TransactionType::NEW),
        Some(1),
        Some("IBM".to_string()),
        Some((OrderType::LIMIT_ORDER, 10)),
        Some(100),
        Some(Side::BUY),
        Some(2),
    );
    let mut o = Order::from_serialized_columns(&cols).unwrap();
    assert_eq!(o.get_pk(), (1, 2));
    assert!(!o.is_empty());
    o.update_quantity(0);
    assert!(o.is_empty());
    o.set_order_status(TransactionType::CAN);
    assert_eq!(o.get_order_status(), TransactionType::CAN);
    let missing: SerializedColumns = (Some(TransactionType::NEW), Some(1), None, None, Some(100), Some(Side::BUY), Some(2));
    assert!(Order::from_serialized_columns(&missing).is_none());
    let n = Order::new(TransactionType::NEW, 5, "X".to_string(), 3, OrderType::MARKET_ORDER, 7, Side::SELL, 6);
    assert_eq!((n.client, n.order_id, n.quantity, n.sequence), (5, 6, 7, 0));
}

#[test]
fn apply_interpreted_records() {
    let mut book = OrderBook::new();
    book.apply(Record::Malformed { client: 3, order_id: 4 });
    book.apply(Record::Skip);
    book.apply(Record::Flush);
    assert_eq!(book.std_output(), "\nR, 3, 4\nA\n");
    assert_eq!(book.events()[1].status(), OutputStatus::ACK);
    assert_eq!(Side::BUY.opposite(), Side::SELL);
}

#[test]
fn configuration_holds_path() {
    let c = OrderBookConfiguration::new("orders.csv");
    assert_eq!(c.orderbook_path.as_deref(), Some("orders.csv"));
}

#[test]
fn unknown_kind_with_key_rejected() {
    let book = feed(&["X, 1, IBM, <>10, 100, B, 9", "X, y, IBM, <>10, 100, B, 9", "X, 1, IBM"]);
    assert_eq!(lines_of(&book), vec!["R, 1, 9"]);
}

#[test]
fn extra_fields_rejected() {
    let book = feed(&["N, 1, IBM, <>10, 100, B, 2, 5", "C, 1, 3, 4", "N, 1, IBM, <>10, 100, B, z, 5"]);
    assert_eq!(lines_of(&book), vec!["R, 1, 2", "R, 1, 3"]);
    assert_eq!(book.best_bid(), None);
}

#[test]
fn zero_quantity_parses_but_is_rejected() {
    let o = Order::from(&"N, 1, IBM, <>10, 0, B, 2".to_string()).unwrap();
    assert_eq!(o.quantity, 0);
    assert!(o.is_empty());
    let book = feed(&["N, 1, IBM, <>10, 0, B, 2"]);
    assert_eq!(lines_of(&book), vec!["R, 1, 2"]);
}

#[test]
fn book_never_crossed() {
    let book = feed(&[
        "N, 1, IBM, <>10, 100, B, 1",
        "N, 2, IBM, <>9, 100, S, 2",
        "N, 3, IBM, <>12, 50, S, 3",
        "N, 4, IBM, <>13, 80, B, 4",
    ]);
    assert_eq!(book.best_bid(), Some(Quote { price: 13, quantity: 30 }));
    assert_eq!(book.best_ask(), None);
    let book = feed(&["N, 1, IBM, <>10, 100, B, 1", "N, 2, IBM, <>11, 100, S, 2", "N, 3, IBM, <>10, 40, S, 3"]);
    let bid = book.best_bid().unwrap();
    let ask = book.best_ask().unwrap();
    assert!(bid.price < ask.price);
    assert_eq!((bid.price, bid.quantity, ask.price), (10, 60, 11));
}

#[test]
fn unicode_whitespace_trimmed() {
    let plain = Order::from(&"N, 1, IBM, <>10, 100, B, 2".to_string()).unwrap();
    let spaced = Order::from(
        &"N,\u{A0}1\x0C, IBM\u{3000}, \x0B<>10\u{85}, 100\u{2009}, \u{2028}B, \x0C2\u{A0}".to_string(),
    )
    .unwrap();
    assert_eq!(spaced.get_pk(), plain.get_pk());
    assert_eq!(spaced.ticker, plain.ticker);
    assert_eq!((spaced.price, spaced.quantity), (plain.price, plain.quantity));
    assert_eq!((spaced.side, spaced.order_type), (plain.side, plain.order_type));
    let book = feed(&["\u{A0}N, 1, IBM, <>10, 100, B, \x0C2", "C\x0C, 1, 2\u{A0}"]);
    assert_eq!(lines_of(&book), vec!["A, 1, 2", "B, B, 10, 100", "A, 1, 2", "B, B, -, -"]);
}
