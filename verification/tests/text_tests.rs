use dispatch::config::{parse_config, parse_priority_processes, ConfigIssue};
use dispatch::text::{decimal_string, truncate};

#[test]
fn truncate_keeps_a_text_that_fits() {
    assert_eq!(truncate("hello", 10), "hello");
    assert_eq!(truncate("hello", 5), "hello");
    assert_eq!(truncate("", 0), "");
}

#[test]
fn truncate_cuts_a_long_text_with_an_ellipsis() {
    assert_eq!(truncate("abcdefghijk", 5), "abcd…");
    assert_eq!(truncate("ab", 1), "…");
}

#[test]
fn truncate_counts_bytes_to_decide_and_characters_to_cut() {
    // "ééé" is six bytes: too long for 5, and all three characters fit before the ellipsis.
    assert_eq!(truncate("ééé", 5), "ééé…");
    assert_eq!(truncate("ééé", 6), "ééé");
    assert_eq!(truncate("éééééé", 4), "ééé…");
}

#[test]
fn decimal_string_writes_numbers() {
    assert_eq!(decimal_string(0), "0");
    assert_eq!(decimal_string(7), "7");
    assert_eq!(decimal_string(1234), "1234");
    assert_eq!(decimal_string(usize::MAX), usize::MAX.to_string());
}

#[test]
fn priority_list_reads_commas_and_spaces() {
    let pids = parse_priority_processes("  12, 7 3,,x 42\n");
    let mut seen: Vec<usize> = pids.into_iter().collect();
    seen.sort();
    assert_eq!(seen, vec![3, 7, 12, 42]);
}

#[test]
fn priority_list_reads_numbers_as_parse_does() {
    let pids = parse_priority_processes("+5 -6 007 99999999999999999999999 1a");
    let mut seen: Vec<usize> = pids.into_iter().collect();
    seen.sort();
    assert_eq!(seen, vec![5, 7]);
}

#[test]
fn empty_priority_list_is_empty() {
    assert!(parse_priority_processes("").is_empty());
    assert!(parse_priority_processes(" , \t").is_empty());
}

#[test]
fn config_reads_priority_and_blacklist() {
    let config = parse_config(
        "# comment\n\npriority = 12\npriority=40\r\nblacklist = chrome\nblacklist= chrome \nblacklist = slack\n",
    );
    let mut priority: Vec<usize> = config.priority.into_iter().collect();
    priority.sort();
    assert_eq!(priority, vec![12, 40]);
    let mut blacklist = config.blacklist.clone();
    blacklist.sort();
    assert_eq!(blacklist, vec!["chrome".to_string(), "slack".to_string()]);
    assert!(config.issues.is_empty());
}

#[test]
fn config_reports_unknown_keys_and_bad_lines() {
    let config = parse_config("colour = red\njust words\n  priority = many  \nname=a=b");
    assert!(config.priority.is_empty());
    assert_eq!(config.issues.len(), 3);
    match &config.issues[0] {
        ConfigIssue::UnrecognizedKey(key) => assert_eq!(key, "colour"),
        other => panic!("unexpected {:?}", other),
    }
    match &config.issues[1] {
        ConfigIssue::UnrecognizedLine(line) => assert_eq!(line, "just words"),
        other => panic!("unexpected {:?}", other),
    }
    match &config.issues[2] {
        ConfigIssue::UnrecognizedKey(key) => assert_eq!(key, "name"),
        other => panic!("unexpected {:?}", other),
    }
}

#[test]
fn config_splits_at_the_first_equals() {
    let config = parse_config("blacklist = a=b");
    assert_eq!(config.blacklist, vec!["a=b".to_string()]);
}

#[test]
fn empty_config_is_empty() {
    let config = parse_config("");
    assert!(config.priority.is_empty());
    assert!(config.blacklist.is_empty());
    assert!(config.issues.is_empty());
}

#[test]
fn priority_list_splits_at_any_unicode_white_space() {
    let pids = parse_priority_processes("1\u{3000}2\u{a0}3\u{2028}4");
    let mut seen: Vec<usize> = pids.into_iter().collect();
    seen.sort();
    assert_eq!(seen, vec![1, 2, 3, 4]);
}

#[test]
fn truncated_text_never_exceeds_the_column() {
    for text in ["", "a", "hello world", "ééééé", "日本語のテキスト"] {
        for width in 1..12 {
            assert!(truncate(text, width).chars().count() <= width);
        }
    }
}
