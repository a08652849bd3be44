use orderbook::book::OrderBook;

const EXPECTED_EMPTY_ORDERBOOK: &str = "";

const EXPECTED_SCENARIO: &str = r#"
A, 1, 1
B, B, 10, 100
A, 1, 2
B, S, 12, 100
A, 2, 101
A, 2, 102
B, S, 11, 100
R, 1, 3
R, 2, 103
A, 1, 4
B, B, 10, 200
A, 2, 104
B, S, 11, 200
"#;

const RECORDS: [&str; 8] = [
    "N, 1, IBM, <>10, 100, B, 1",
    "N, 1, IBM, <>12, 100, S, 2",
    "N, 2, IBM, <>14, 50, S, 101",
    "N, 2, IBM, <>11, 100, S, 102",
    "C, 1, 3",
    "C, 2, 103",
    "N, 1, IBM, <>10, 100, B, 4",
    "N, 2, IBM, <>11, 100, S, 104",
];

fn run(lines: &[String]) -> String {
    let mut book = OrderBook::new();
    for line in lines {
        book.build(line);
    }
    book.std_output()
}

fn plain() -> Vec<String> {
    RECORDS.iter().map(|s| s.to_string()).collect()
}

#[test]
fn empty_scenario() {
    let orderbook = OrderBook::new();
    assert_eq!(orderbook.std_output(), EXPECTED_EMPTY_ORDERBOOK);
}

#[test]
fn scenario1() {
    assert_eq!(run(&plain()), EXPECTED_SCENARIO);
}

#[test]
fn scenario2() {
    let mut lines = vec!["# name: scenario 2".to_string(), "# balanced book".to_string()];
    lines.extend(plain());
    assert_eq!(run(&lines), EXPECTED_SCENARIO);
}

#[test]
fn scenario3() {
    let lines: Vec<String> = RECORDS.iter().map(|s| s.replace(", ", " ,   ")).collect();
    assert_eq!(run(&lines), EXPECTED_SCENARIO);
}

#[test]
fn scenario4() {
    let lines: Vec<String> = RECORDS.iter().map(|s| s.replace(", ", ",\t")).collect();
    assert_eq!(run(&lines), EXPECTED_SCENARIO);
}

#[test]
fn scenario5() {
    let mut lines = Vec::new();
    for r in RECORDS.iter() {
        lines.push(String::new());
        lines.push(r.to_string());
    }
    assert_eq!(run(&lines), EXPECTED_SCENARIO);
}

#[test]
fn scenario6() {
    let mut lines = Vec::new();
    for r in RECORDS.iter() {
        lines.push("X, 1, IBM".to_string());
        lines.push(r.to_string());
    }
    assert_eq!(run(&lines), EXPECTED_SCENARIO);
}

#[test]
fn scenario7() {
    let mut lines = plain();
    lines.insert(1, "N, 1, IBM, <>10, 100, B".to_string());
    lines.insert(3, "C, 1".to_string());
    lines.insert(5, "F, 1".to_string());
    assert_eq!(run(&lines), EXPECTED_SCENARIO);
}

#[test]
fn scenario8() {
    let lines: Vec<String> = RECORDS.iter().map(|s| format!("{}\r", s)).collect();
    assert_eq!(run(&lines), EXPECTED_SCENARIO);
}

#[test]
fn scenario9() {
    let lines: Vec<String> = RECORDS.iter().map(|s| s.replace("IBM", "MSFT")).collect();
    assert_eq!(run(&lines), EXPECTED_SCENARIO);
}

#[test]
fn scenario10() {
    let lines: Vec<String> = RECORDS.iter().map(|s| format!("  {}  ", s)).collect();
    assert_eq!(run(&lines), EXPECTED_SCENARIO);
}

#[test]
fn scenario11() {
    let mut lines = Vec::new();
    for r in RECORDS.iter() {
        lines.push(format!("# {}", r));
        lines.push(r.to_string());
    }
    assert_eq!(run(&lines), EXPECTED_SCENARIO);
}

#[test]
fn scenario12() {
    let mut lines = vec!["# all of the above".to_string(), String::new()];
    for r in RECORDS.iter() {
        lines.push(format!(" {}\r", r.replace(", ", " , ")));
        lines.push("N, x, IBM, <>10, 100, B, 1".to_string());
    }
    assert_eq!(run(&lines), EXPECTED_SCENARIO);
}
