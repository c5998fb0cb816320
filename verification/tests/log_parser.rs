use rust_logger::log_parser::{LogEntry, LogParser};

fn count_of(counts: &[(String, usize)], level: &str) -> usize {
    counts
        .iter()
        .find(|(l, _)| l == level)
        .map(|(_, c)| *c)
        .expect("level present")
}

#[test]
fn test_parse_valid_line() {
    let mut parser = LogParser::new();
    let entry = parser.parse_line("[ERROR] 2024-01-15 api_server: connection timeout");

    assert!(entry.is_some());
    let e = entry.unwrap();
    assert_eq!(e.level, "ERROR");
    assert_eq!(e.source, "api_server");
    assert_eq!(e.message, "connection timeout");
}

#[test]
fn test_count_by_level() {
    let mut parser = LogParser::new();
    parser.parse_line("[ERROR] 2024-01-15 api_server: timeout");
    parser.parse_line("[ERROR] 2024-01-15 db_server: timeout");
    parser.parse_line("[WARN]  2024-01-15 api_server: slow response");
    parser.parse_line("[INFO]  2024-01-15 api_server: started");

    let counts = parser.count_by_level();
    assert_eq!(count_of(&counts, "ERROR"), 2);
    assert_eq!(count_of(&counts, "WARN"), 1);
    assert_eq!(count_of(&counts, "INFO"), 1);
}

#[test]
fn test_top_n_sources() {
    let mut parser = LogParser::new();
    parser.parse_line("[ERROR] 2024-01-15 api_server: err1");
    parser.parse_line("[ERROR] 2024-01-15 api_server: err2");
    parser.parse_line("[ERROR] 2024-01-15 db_server: err3");

    let top = parser.top_n_sources(1, "ERROR");
    assert_eq!(top[0].0, "api_server");
    assert_eq!(top[0].1, 2);
}

#[test]
fn test_display_trait() {
    let mut parser = LogParser::new();
    parser.parse_line("[ERROR] 2024-01-15 api_server: timeout");

    let output = parser.summary();
    assert!(output.contains("Log Summary"));
    assert!(output.contains("ERROR"));
}

#[test]
fn parse_all_fields() {
    let mut parser = LogParser::new();
    let e = parser
        .parse_line("  [WARN] 2024-02-01 cache:: evicted 3 keys  ")
        .unwrap();
    assert_eq!(
        e,
        LogEntry {
            level: "WARN".to_string(),
            timestamp: "2024-02-01".to_string(),
            source: "cache".to_string(),
            message: "evicted 3 keys".to_string(),
        }
    );
}

#[test]
fn parse_rejects_malformed_lines() {
    let mut parser = LogParser::new();
    assert_eq!(parser.parse_line(""), None);
    assert_eq!(parser.parse_line("   \t "), None);
    assert_eq!(parser.parse_line("ERROR 2024-01-15 api: x"), None);
    assert_eq!(parser.parse_line("[ERROR 2024-01-15 api: x"), None);
    assert_eq!(parser.parse_line("[ERROR] 2024-01-15"), None);
    assert!(parser.count_by_level().is_empty());
}

#[test]
fn parse_without_message() {
    let mut parser = LogParser::new();
    let e = parser.parse_line("[INFO] 2024-01-15 worker:").unwrap();
    assert_eq!(e.source, "worker");
    assert_eq!(e.message, "");
}

#[test]
fn parse_double_space_gives_empty_source() {
    let mut parser = LogParser::new();
    let e = parser.parse_line("[INFO] 2024-01-15  worker: started").unwrap();
    assert_eq!(e.timestamp, "2024-01-15");
    assert_eq!(e.source, "");
    assert_eq!(e.message, "worker: started");
}

#[test]
fn top_n_sources_orders_and_truncates() {
    let mut parser = LogParser::new();
    parser.parse_line("[ERROR] t a: 1");
    parser.parse_line("[ERROR] t b: 1");
    parser.parse_line("[ERROR] t b: 2");
    parser.parse_line("[ERROR] t c: 1");
    parser.parse_line("[ERROR] t c: 2");
    parser.parse_line("[ERROR] t c: 3");
    parser.parse_line("[WARN] t a: 1");
    let top = parser.top_n_sources(2, "ERROR");
    assert_eq!(top, vec![("c".to_string(), 3), ("b".to_string(), 2)]);
    assert_eq!(parser.top_n_sources(10, "ERROR").len(), 3);
    assert!(parser.top_n_sources(0, "ERROR").is_empty());
    assert_eq!(parser.top_n_sources(5, "WARN"), vec![("a".to_string(), 1)]);
    assert!(parser.top_n_sources(5, "DEBUG").is_empty());
}

#[test]
fn summary_exact_text() {
    let mut parser = LogParser::new();
    parser.parse_line("[WARN] 2024-01-15 db: slow");
    parser.parse_line("[ERROR] 2024-01-15 api: timeout");
    parser.parse_line("[ERROR] 2024-01-15 api: refused");
    parser.parse_line("[ERROR] 2024-01-15 db: down");
    let expected = "=== Log Summary (4 entries) ===\n \
                    ERROR  : 3 entries\n \
                    WARN   : 1 entries\n\
                    --- Top ERROR sources ---\n \
                    1. api (2 errors)\n \
                    2. db (1 errors)\n";
    assert_eq!(parser.summary(), expected);
}

#[test]
fn summary_without_errors() {
    let mut parser = LogParser::new();
    parser.parse_line("[INFO] t svc: up");
    assert_eq!(
        parser.summary(),
        "=== Log Summary (1 entries) ===\n INFO   : 1 entries\n"
    );
    let empty = LogParser::new();
    assert_eq!(empty.summary(), "=== Log Summary (0 entries) ===\n");
}

#[test]
fn summary_long_level_is_not_padded() {
    let mut parser = LogParser::new();
    parser.parse_line("[CRITICAL] t svc: boom");
    assert_eq!(
        parser.summary(),
        "=== Log Summary (1 entries) ===\n CRITICAL : 1 entries\n"
    );
}

#[test]
fn count_by_level_sums_to_entries() {
    let mut parser = LogParser::new();
    for line in ["[A] t s: m", "[B] t s: m", "[A] t s: m", "[C] t s: m", "[A] t s: m"] {
        parser.parse_line(line);
    }
    let counts = parser.count_by_level();
    assert_eq!(counts.len(), 3);
    assert_eq!(counts.iter().map(|(_, c)| c).sum::<usize>(), 5);
    assert_eq!(count_of(&counts, "A"), 3);
}

#[test]
fn formatted_entries_read_back() {
    let cases = [
        ("ERROR", "2024-01-15", "api_server", "connection timeout"),
        ("WARN", "2024-02-01", "db", ""),
        ("", "t", "", "a:  b"),
        ("DEBUG LEVEL", "12:00", "svc", "x"),
    ];
    for (level, timestamp, source, message) in cases {
        let mut parser = LogParser::new();
        let line = format!("[{}] {} {}: {}", level, timestamp, source, message);
        let e = parser.parse_line(&line).unwrap();
        assert_eq!(
            e,
            LogEntry {
                level: level.to_string(),
                timestamp: timestamp.to_string(),
                source: source.to_string(),
                message: message.to_string(),
            }
        );
    }
}
