use log_analyzer::chart::{greeting, log_entry_html, minute_key, History, LogChart, CHART_LIMIT, HISTORY_LIMIT};
use log_analyzer::text::{contains, to_lowercase, trim};

#[test]
fn minute_key_zeroes_seconds() {
    assert_eq!(minute_key("16:00:45"), "16:00:00");
    assert_eq!(minute_key("16:00:45 extra"), "16:00:00 extra");
    assert_eq!(minute_key("1:2:3"), "1:2:3");
}

#[test]
fn chart_counts_per_minute_in_order() {
    let mut c = LogChart::new();
    for (t, e) in [("10:01:05", false), ("09:59:59", true), ("10:01:50", true), ("10:00:00", false)] {
        assert!(c.can_record(t, e));
        c.record(t, e);
    }
    let s = c.series();
    assert_eq!(s.timestamps, vec!["09:59:00", "10:00:00", "10:01:00"]);
    assert_eq!(s.totals, vec![1, 1, 2]);
    assert_eq!(s.errors, vec![1, 0, 1]);
    assert_eq!(s.x_axis, vec![0, 1, 2]);
    assert_eq!(c.total_count(), 4);
    assert_eq!(c.error_count(), 2);
}

#[test]
fn chart_drops_smallest_minute_beyond_limit() {
    let mut c = LogChart::new();
    for i in 0..(CHART_LIMIT + 3) {
        let t = format!("{:05}:00", i);
        c.record(&t, false);
    }
    let s = c.series();
    assert_eq!(s.timestamps.len(), CHART_LIMIT);
    assert_eq!(s.timestamps[0], "00003:00");
}

#[test]
fn seconds_cannot_be_replaced_inside_a_character() {
    let c = LogChart::new();
    assert!(!c.can_record("12345é78", false));
    assert!(c.can_record("12:34:56", true));
}

#[test]
fn log_entry_markup() {
    let html = log_entry_html("16:00:45", "a.log", "boom", true);
    assert_eq!(
        html,
        "<div style='color: red; font-family: monospace; border-bottom: 1px solid #222;'>\n                    <span style='opacity: 0.5;'>[16:00:45]</span> <b>a.log</b>: boom\n                </div>"
    );
    assert!(log_entry_html("t", "f", "l", false).contains("color: #d1d5db;"));
}

#[test]
fn greeting_text() {
    assert_eq!(greeting("Ada"), "Hello from the Log Analyzer WASM, Ada!");
}

#[test]
fn text_helpers() {
    assert_eq!(trim("\u{a0} x y \t\n"), "x y");
    assert_eq!(to_lowercase("ÉRROR"), "érror");
    assert!(contains("abcabd", "abd"));
    assert!(!contains("ab", "abc"));
    assert!(contains("x", ""));
}

#[test]
fn history_keeps_latest_samples() {
    let mut h: History<f64> = History::new();
    for i in 0..(HISTORY_LIMIT + 2) {
        h.push(i as f64);
    }
    assert_eq!(h.items().len(), HISTORY_LIMIT);
    assert_eq!(h.items()[0], 2.0);
    assert_eq!(*h.items().back().unwrap(), (HISTORY_LIMIT + 1) as f64);
    let mut s: History<String> = History::new();
    s.push("a".to_string());
    s.push("b".to_string());
    assert_eq!(s.items().iter().cloned().collect::<Vec<_>>(), vec!["a", "b"]);
}
