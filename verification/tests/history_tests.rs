use clean_history::history::{
    backup_file_name, clean_lines, ends_with_continuation, filter_multiline_entries,
};

#[test]
fn test_ends_with_continuation() {
    assert!(ends_with_continuation("echo \\"));
    assert!(ends_with_continuation("echo \\  "));
    assert!(ends_with_continuation("\\"));
    assert!(!ends_with_continuation("echo"));
    assert!(!ends_with_continuation(""));
    assert!(!ends_with_continuation("   "));
    assert!(!ends_with_continuation("a\\b"));
}

#[test]
fn test_filter_single_line_commands() {
    let lines = vec![
        "echo 'hello'".to_string(),
        "ls -la".to_string(),
        "pwd".to_string(),
    ];
    let (output, removed) = filter_multiline_entries(&lines, 2);
    assert_eq!(output.len(), 3);
    assert_eq!(removed, 0);
}

#[test]
fn test_filter_multiline_below_threshold() {
    let lines = vec![
        "echo 'line 1' \\".to_string(),
        "  'line 2'".to_string(),
        "single line".to_string(),
    ];
    let (output, removed) = filter_multiline_entries(&lines, 3);
    assert_eq!(output.len(), 3);
    assert_eq!(removed, 0);
}

#[test]
fn test_filter_multiline_at_threshold() {
    let lines = vec![
        "echo 'line 1' \\".to_string(),
        "  'line 2'".to_string(),
        "single line".to_string(),
    ];
    let (output, removed) = filter_multiline_entries(&lines, 2);
    assert_eq!(output.len(), 1);
    assert_eq!(removed, 1);
}

#[test]
fn test_filter_multiple_multiline_commands() {
    let lines = vec![
        "echo 'first' \\".to_string(),
        "  'multiline'".to_string(),
        "ls".to_string(),
        "cat file \\".to_string(),
        "  | grep pattern \\".to_string(),
        "  | sort".to_string(),
    ];
    let (output, removed) = filter_multiline_entries(&lines, 2);
    assert_eq!(output.len(), 1); // Only "ls" remains
    assert_eq!(removed, 2);
}

#[test]
fn test_single_lines_kept_verbatim() {
    let lines = vec![
        "echo 'hello'".to_string(),
        "ls -la".to_string(),
        "pwd".to_string(),
    ];
    let (output, removed) = filter_multiline_entries(&lines, 2);
    assert_eq!(output, lines);
    assert_eq!(removed, 0);
}

#[test]
fn test_below_threshold_kept_verbatim() {
    let lines = vec![
        "echo 'line 1' \\".to_string(),
        "  'line 2'".to_string(),
        "single line".to_string(),
    ];
    let (output, removed) = filter_multiline_entries(&lines, 3);
    assert_eq!(output, lines);
    assert_eq!(removed, 0);
}

#[test]
fn test_at_threshold_dropped_entirely() {
    let lines = vec![
        "echo 'line 1' \\".to_string(),
        "  'line 2'".to_string(),
        "single line".to_string(),
    ];
    let (output, removed) = filter_multiline_entries(&lines, 2);
    assert_eq!(output, vec!["single line".to_string()]);
    assert_eq!(removed, 1);
}

#[test]
fn test_two_multiline_entries_interleaved() {
    let lines = vec![
        "echo 'first' \\".to_string(),
        "  'multiline'".to_string(),
        "ls".to_string(),
        "cat file \\".to_string(),
        "  | grep pattern \\".to_string(),
        "  | sort".to_string(),
    ];
    let (output, removed) = filter_multiline_entries(&lines, 2);
    assert_eq!(output, vec!["ls".to_string()]);
    assert_eq!(removed, 2);
}

#[test]
fn test_threshold_boundary_both_sides() {
    let entry = vec![
        "a \\".to_string(),
        "b \\".to_string(),
        "c".to_string(),
    ];
    // length 3 == threshold: dropped
    let (output, removed) = filter_multiline_entries(&entry, 3);
    assert_eq!(output.len(), 0);
    assert_eq!(removed, 1);
    // length 3 == threshold - 1: kept
    let (output, removed) = filter_multiline_entries(&entry, 4);
    assert_eq!(output, entry);
    assert_eq!(removed, 0);
}

#[test]
fn test_empty_input() {
    let lines: Vec<String> = Vec::new();
    let (output, removed) = filter_multiline_entries(&lines, 2);
    assert_eq!(output.len(), 0);
    assert_eq!(removed, 0);
}

#[test]
fn test_dangling_continuation_at_end_of_input() {
    // the last entry never gets a terminating line: it still ends at
    // end of input and the threshold still applies to it
    let lines = vec![
        "pwd".to_string(),
        "echo a \\".to_string(),
        "echo b \\".to_string(),
    ];
    let (output, removed) = filter_multiline_entries(&lines, 2);
    assert_eq!(output, vec!["pwd".to_string()]);
    assert_eq!(removed, 1);
    let (output, removed) = filter_multiline_entries(&lines, 3);
    assert_eq!(output, lines);
    assert_eq!(removed, 0);
}

#[test]
fn test_trailing_whitespace_after_marker() {
    // a backslash followed by trailing spaces or a tab still continues
    let lines = vec![
        "echo a \\  ".to_string(),
        "echo b \\\t".to_string(),
        "done".to_string(),
        "tail".to_string(),
    ];
    let (output, removed) = filter_multiline_entries(&lines, 3);
    assert_eq!(output, vec!["tail".to_string()]);
    assert_eq!(removed, 1);
}

#[test]
fn test_backslash_inside_line_is_no_marker() {
    let lines = vec![
        "echo a\\b".to_string(),
        "echo c".to_string(),
    ];
    let (output, removed) = filter_multiline_entries(&lines, 2);
    assert_eq!(output, lines);
    assert_eq!(removed, 0);
}

#[test]
fn test_idempotent_rerun() {
    let lines = vec![
        "echo 'first' \\".to_string(),
        "  'multiline'".to_string(),
        "ls".to_string(),
        "cat file \\".to_string(),
        "  | grep pattern \\".to_string(),
        "  | sort".to_string(),
        "short \\".to_string(),
        "pipeline".to_string(),
    ];
    let (once, removed_once) = filter_multiline_entries(&lines, 3);
    assert_eq!(removed_once, 1);
    let (twice, removed_twice) = filter_multiline_entries(&once, 3);
    assert_eq!(twice, once);
    assert_eq!(removed_twice, 0);
}

#[test]
fn test_count_conservation() {
    let lines = vec![
        "echo 'first' \\".to_string(),
        "  'multiline'".to_string(),
        "ls".to_string(),
        "cat file \\".to_string(),
        "  | grep pattern \\".to_string(),
        "  | sort".to_string(),
    ];
    let (output, removed) = filter_multiline_entries(&lines, 3);
    assert_eq!(removed, 1);
    // the 3-line entry was dropped; every other line was kept
    assert_eq!(output.len() + 3, lines.len());
}

#[test]
fn test_clean_lines_stats() {
    let lines = vec![
        "echo 'line 1' \\".to_string(),
        "  'line 2'".to_string(),
        "single line".to_string(),
    ];
    let (output, stats) = clean_lines(&lines, 2);
    assert_eq!(output, vec!["single line".to_string()]);
    assert_eq!(stats.original_lines, 3);
    assert_eq!(stats.kept_lines, 1);
    assert_eq!(stats.removed_entries, 1);
}

#[test]
fn test_backup_file_name() {
    let name = backup_file_name("zsh", "2024-01-02-030405");
    assert_eq!(name, "zsh_history.2024-01-02-030405");
}
