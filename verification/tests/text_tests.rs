use histsearch::history::{clean_lines, history_path_for_shell};
use histsearch::text::{contains_substr, str_eq, str_lt, trim_str, truncate_to_width, usize_to_string};

#[test]
fn truncation_cuts_by_character_count() {
    assert_eq!(truncate_to_width("hello", 3), "hel");
    assert_eq!(truncate_to_width("hello", 10), "hello");
    assert_eq!(truncate_to_width("hello", 0), "");
    assert_eq!(truncate_to_width("", 5), "");
}

#[test]
fn truncation_does_not_split_multibyte_glyphs() {
    assert_eq!(truncate_to_width("héllo", 2), "hé");
    assert_eq!(truncate_to_width("日本語テスト", 3), "日本語");
}

#[test]
fn decimal_rendering_is_exact() {
    assert_eq!(usize_to_string(0), "0");
    assert_eq!(usize_to_string(7), "7");
    assert_eq!(usize_to_string(42), "42");
    assert_eq!(usize_to_string(1000), "1000");
    assert_eq!(usize_to_string(987654), "987654");
}

#[test]
fn lexicographic_order_on_strings() {
    assert!(str_lt("a", "b"));
    assert!(str_lt("git commit", "git status"));
    assert!(!str_lt("b", "a"));
    assert!(!str_lt("a", "a"));
    assert!(str_lt("a", "ab"));
    assert!(!str_lt("ab", "a"));
}

#[test]
fn string_equality_by_characters() {
    assert!(str_eq("ls", "ls"));
    assert!(!str_eq("ls", "lS"));
    assert!(!str_eq("ls", "lsx"));
    assert!(str_eq("", ""));
}

#[test]
fn substring_search_finds_contiguous_runs() {
    assert!(contains_substr("git status", "stat"));
    assert!(contains_substr("git status", ""));
    assert!(!contains_substr("git status", "commit"));
    assert!(!contains_substr("ab", "abc"));
    assert!(contains_substr("aaab", "aab"));
}

#[test]
fn trimming_strips_edges_only() {
    assert_eq!(trim_str("  ls -la  "), "ls -la");
    assert_eq!(trim_str("\t cmd \n"), "cmd");
    assert_eq!(trim_str("   "), "");
    assert_eq!(trim_str("plain"), "plain");
}

#[test]
fn cleaning_drops_blank_lines_and_trims() {
    let lines: Vec<String> = vec![
        "  ls  ".to_string(),
        "".to_string(),
        "   ".to_string(),
        "git status".to_string(),
    ];
    let cleaned = clean_lines(&lines);
    assert_eq!(cleaned, vec!["ls".to_string(), "git status".to_string()]);
}

#[test]
fn known_shells_resolve_to_their_history_files() {
    assert_eq!(
        history_path_for_shell("/bin/bash", "/home/u"),
        Some("/home/u/.bash_history".to_string())
    );
    assert_eq!(
        history_path_for_shell("/usr/bin/zsh", "/home/u"),
        Some("/home/u/.zsh_history".to_string())
    );
    assert_eq!(
        history_path_for_shell("/bin/fish", "/home/u"),
        Some("/home/u/.local/share/fish/fish_history".to_string())
    );
}

#[test]
fn unknown_shells_are_rejected() {
    assert_eq!(history_path_for_shell("/bin/csh", "/home/u"), None);
    assert_eq!(history_path_for_shell("", "/home/u"), None);
}
