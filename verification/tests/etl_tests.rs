use log_analyzer::etl::etl;
use log_analyzer::etl::extract::{after_reopen_attempt, line_event, sources, tail_action, FileProbe, TailAction};
use log_analyzer::etl::parser::{timestamp_candidates_of, parsed_with_dynamic_format, slicing_would_fail, words_of, LogConfig, LogMatcher, UtcTime};
use log_analyzer::etl::transform_load::{EtlOutcome, EtlState};
use log_analyzer::helper::{decimal_string, get_ist_time, minute_bucket};
use log_analyzer::text::{chars_of, trim};

fn config(formats: &[&str], indicators: &[&str]) -> LogConfig {
    LogConfig {
        date_formats: formats.iter().map(|f| LogMatcher { format: f.to_string() }).collect(),
        error_indicators: indicators.iter().map(|i| i.to_string()).collect(),
    }
}

const ISO_Z: &str = "%Y-%m-%dT%H:%M:%S%z";
const COMMON_LOG: &str = "[%d/%b/%Y:%H:%M:%S %z]";

#[test]
fn blank_line_has_no_timestamp() {
    let cfg = config(&[ISO_Z], &[]);
    assert!(parsed_with_dynamic_format("   \t ", &cfg).is_none());
    assert!(parsed_with_dynamic_format("", &cfg).is_none());
}

#[test]
fn whole_line_is_parsed_first() {
    let cfg = config(&[ISO_Z], &[]);
    let (t, line) = parsed_with_dynamic_format("  2024-01-15T10:30:45+0000  ", &cfg).unwrap();
    assert_eq!(t, UtcTime { secs: 1705314645, nanos: 0 });
    assert_eq!(line, "2024-01-15T10:30:45+0000");
}

#[test]
fn timestamp_found_in_a_word() {
    let cfg = config(&[ISO_Z], &[]);
    let (t, line) = parsed_with_dynamic_format("2024-01-15T10:30:45+0000, error: disk full", &cfg).unwrap();
    assert_eq!(t.secs, 1705314645);
    assert_eq!(line, "2024-01-15T10:30:45+0000, error: disk full");
}

#[test]
fn timestamp_found_between_brackets() {
    let cfg = config(&[COMMON_LOG], &[]);
    let line = "127.0.0.1 - - [10/Oct/2000:13:55:36 -0700] \"GET /apache_pb.gif HTTP/1.0\" 200 2326";
    let (t, _) = parsed_with_dynamic_format(line, &cfg).unwrap();
    assert_eq!(t.secs, 971211336);
}

#[test]
fn formats_are_tried_in_order() {
    let cfg = config(&["%b %d %H:%M:%S", COMMON_LOG, ISO_Z], &[]);
    let (t, _) = parsed_with_dynamic_format("x [10/Oct/2000:13:55:36 -0700] 2024-01-15T10:30:45+0000", &cfg).unwrap();
    assert_eq!(t.secs, 971211336);
}

#[test]
fn no_format_matches() {
    let cfg = config(&[ISO_Z], &[]);
    assert!(parsed_with_dynamic_format("nothing to see here", &cfg).is_none());
    let empty = config(&[], &[]);
    assert!(parsed_with_dynamic_format("2024-01-15T10:30:45+0000", &empty).is_none());
}

#[test]
fn reversed_brackets_are_detected() {
    let cfg = config(&[ISO_Z], &[]);
    assert!(slicing_would_fail("a ] b [ c", &cfg));
    assert!(!slicing_would_fail("a ][ c", &cfg));
    assert!(!slicing_would_fail("a [ b ] c", &cfg));
    assert!(!slicing_would_fail("   ", &cfg));
    assert!(!slicing_would_fail("a ] b [ c", &config(&[], &[])));
}

#[test]
fn words_are_split_and_stripped() {
    let v = chars_of("{\"time\": \"2024\", 'x':,, }");
    let words = words_of(&v);
    assert_eq!(words, vec!["time", "2024", "x"]);
}

#[test]
fn minute_bucket_floors_to_the_minute() {
    assert_eq!(minute_bucket(UtcTime { secs: 1705314645, nanos: 7 }), UtcTime { secs: 1705314600, nanos: 0 });
    assert_eq!(minute_bucket(UtcTime { secs: -1, nanos: 0 }), UtcTime { secs: -60, nanos: 0 });
    assert_eq!(minute_bucket(UtcTime { secs: 120, nanos: 0 }), UtcTime { secs: 120, nanos: 0 });
}

#[test]
fn ist_time_label() {
    assert_eq!(get_ist_time(UtcTime { secs: 1705314645, nanos: 0 }), "16:00:45");
    assert_eq!(get_ist_time(UtcTime { secs: 971211336, nanos: 0 }), "02:25:36");
    assert_eq!(get_ist_time(UtcTime { secs: 0, nanos: 0 }), "05:30:00");
    assert_eq!(get_ist_time(UtcTime { secs: 59, nanos: 1_500_000_000 }), "05:30:60");
    assert_eq!(get_ist_time(UtcTime { secs: -19800, nanos: 0 }), "00:00:00");
}

#[test]
fn decimal_formatting() {
    assert_eq!(decimal_string(0), "0");
    assert_eq!(decimal_string(7), "7");
    assert_eq!(decimal_string(1234567890), "1234567890");
    assert_eq!(decimal_string(u64::MAX), u64::MAX.to_string());
}

#[test]
fn blank_lines_are_not_events() {
    assert!(line_event("a.log", "  \n").is_none());
    let e = line_event("a.log", "  hello world \n").unwrap();
    assert_eq!(e.file(), "a.log");
    assert_eq!(e.line(), "hello world");
}

#[test]
fn directory_sources_win_over_the_list() {
    let dir = vec!["d/x.log".to_string()];
    let list = vec!["y.log".to_string()];
    assert_eq!(sources("d", dir.clone(), list.clone()), dir);
    assert_eq!(sources("", dir, list.clone()), list);
}

#[test]
fn truncated_file_is_reopened() {
    assert_eq!(tail_action(true, false, FileProbe::Present { len: 10, pos: 20, replaced: false }), TailAction::ReopenAndRead);
    assert_eq!(tail_action(false, true, FileProbe::Present { len: 10, pos: 20, replaced: false }), TailAction::ReopenAndRead);
    assert_eq!(tail_action(true, false, FileProbe::Present { len: 30, pos: 20, replaced: false }), TailAction::ReadNew);
    assert_eq!(tail_action(false, true, FileProbe::Present { len: 30, pos: 20, replaced: false }), TailAction::Ignore);
    assert_eq!(tail_action(false, true, FileProbe::Missing), TailAction::RetryOpen);
    assert_eq!(tail_action(false, false, FileProbe::NotProbed), TailAction::Ignore);
}

#[test]
fn replaced_file_is_reopened_even_when_long_enough() {
    assert_eq!(tail_action(true, false, FileProbe::Present { len: 30, pos: 20, replaced: true }), TailAction::ReopenAndRead);
    assert_eq!(tail_action(true, false, FileProbe::Present { len: 20, pos: 20, replaced: true }), TailAction::ReopenAndRead);
    assert_eq!(tail_action(false, true, FileProbe::Present { len: 30, pos: 20, replaced: true }), TailAction::ReopenAndRead);
    assert_eq!(tail_action(true, false, FileProbe::Present { len: 20, pos: 20, replaced: false }), TailAction::ReadNew);
}

#[test]
fn missing_file_retry() {
    assert_eq!(after_reopen_attempt(false, true), TailAction::ReopenAndRead);
    assert_eq!(after_reopen_attempt(true, false), TailAction::ReadNew);
    assert_eq!(after_reopen_attempt(false, false), TailAction::Ignore);
}

#[test]
fn etl_emits_update_for_timestamped_line() {
    let mut state = EtlState::new(config(&[ISO_Z], &["ERROR", "panic"]));
    match etl(&mut state, "svc.log", "  2024-01-15T10:30:45+0000 Error: disk full \n") {
        EtlOutcome::Emit(u) => {
            assert_eq!(u.time, "16:00:45");
            assert_eq!(u.file, "svc.log");
            assert_eq!(u.line, "2024-01-15T10:30:45+0000 Error: disk full");
            assert!(u.error);
        }
        _ => panic!("expected an update"),
    }
    match etl(&mut state, "svc.log", "2024-01-15T10:31:00+0000 all good") {
        EtlOutcome::Emit(u) => assert!(!u.error),
        _ => panic!("expected an update"),
    }
}

#[test]
fn etl_skips_blank_and_untimed_lines() {
    let mut state = EtlState::new(config(&[ISO_Z], &["error"]));
    assert!(matches!(etl(&mut state, "a", "   "), EtlOutcome::Skip));
    assert!(matches!(etl(&mut state, "a", "no time here error"), EtlOutcome::Skip));
}

#[test]
fn etl_halts_on_reversed_brackets() {
    let mut state = EtlState::new(config(&[ISO_Z], &[]));
    assert!(matches!(etl(&mut state, "a", "x ] y [ z"), EtlOutcome::Halt));
    // when the first format reads the whole line the brackets are never sliced
    assert!(matches!(etl(&mut state, "a", "2024-01-15T10:30:45+0000"), EtlOutcome::Emit(_)));
}

#[test]
fn is_error_is_case_insensitive() {
    let state = EtlState::new(config(&[], &["CRITICAL", "404"]));
    assert!(state.is_error(&"Critical failure".to_string()));
    assert!(state.is_error(&"GET /x 404".to_string()));
    assert!(!state.is_error(&"all fine".to_string()));
    let none = EtlState::new(config(&[], &[]));
    assert!(!none.is_error(&"error".to_string()));
    let empty = EtlState::new(config(&[], &[""]));
    assert!(empty.is_error(&"anything".to_string()));
}

#[test]
fn load_groups_lines_by_minute_and_file() {
    let mut state = EtlState::new(config(&[], &["fail"]));
    let a = "a.log".to_string();
    let b = "b.log".to_string();
    let u = state.load(&a, &"job FAILED".to_string(), UtcTime { secs: 1705314645, nanos: 0 }, "l1".to_string());
    assert_eq!(u.time, "16:00:45");
    assert!(u.error);
    state.load(&a, &"ok".to_string(), UtcTime { secs: 1705314659, nanos: 0 }, "l2".to_string());
    state.load(&b, &"ok".to_string(), UtcTime { secs: 1705314601, nanos: 0 }, "l3".to_string());
    state.load(&a, &"ok".to_string(), UtcTime { secs: 1705314660, nanos: 0 }, "l4".to_string());
    let g = state.grouped();
    assert_eq!(g.lines(1705314600, &a), vec!["l1", "l2"]);
    assert_eq!(g.lines(1705314600, &b), vec!["l3"]);
    assert_eq!(g.lines(1705314660, &a), vec!["l4"]);
    assert!(g.lines(1705314660, &b).is_empty());
    assert!(g.lines(0, &a).is_empty());
}

#[test]
fn etl_groups_the_trimmed_line() {
    let mut state = EtlState::new(config(&[ISO_Z], &[]));
    etl(&mut state, "f", "  2024-01-15T10:30:45+0000 x  ");
    assert_eq!(state.grouped().lines(1705314600, &"f".to_string()), vec!["2024-01-15T10:30:45+0000 x"]);
}

#[test]
fn candidates_in_order() {
    assert_eq!(
        timestamp_candidates_of("a [b c] \"d\""),
        vec!["a [b c] \"d\"", "[b c]", "a", "[b", "c]", "d"]
    );
    assert_eq!(timestamp_candidates_of("x"), vec!["x", "x"]);
    assert_eq!(timestamp_candidates_of("]["), vec!["][", "", "]["]);
}

#[test]
fn trimming_twice_changes_nothing() {
    for s in ["  a b  ", "\t\n", "x", " \u{2003}y\u{2003} "] {
        let once = trim(s);
        assert_eq!(trim(&once), once);
    }
}

#[test]
fn empty_indicator_flags_every_line() {
    let state = EtlState::new(config(&[], &[""]));
    assert!(state.is_error(&"all is well".to_string()));
    assert!(state.is_error(&"".to_string()));
}

#[test]
fn unicode_whitespace_is_trimmed() {
    let s = "\u{3000}\u{00A0} line \u{2029}\u{0085}";
    assert_eq!(trim(s), "line");
    assert_eq!(trim("\u{200B}x"), "\u{200B}x");
}

#[test]
fn formats_are_tried_in_list_order() {
    let line = "[15/Jan/2024:10:30:45 +0000] 2024-01-15T11:00:00+0000 GET /";
    let both = parsed_with_dynamic_format(line, &config(&[ISO_Z, COMMON_LOG], &[]));
    let first = parsed_with_dynamic_format(line, &config(&[ISO_Z], &[]));
    let rest = parsed_with_dynamic_format(line, &config(&[COMMON_LOG], &[]));
    assert_eq!(both, first.clone().or_else(|| rest.clone()));
    assert_eq!(both.unwrap().0.secs, 1705316400);
    let swapped = parsed_with_dynamic_format(line, &config(&[COMMON_LOG, ISO_Z], &[]));
    assert_eq!(swapped.unwrap().0.secs, 1705314645);
    let missing = parsed_with_dynamic_format("no time here", &config(&[COMMON_LOG], &[]));
    assert_eq!(parsed_with_dynamic_format("no time here", &config(&[COMMON_LOG, ISO_Z], &[])), missing.or_else(|| parsed_with_dynamic_format("no time here", &config(&[ISO_Z], &[]))));
}
