use memon::colors::should_use_colors;
use memon::matcher::{chars_of, is_process_matching, matches_folded};

fn chars(s: &str) -> Vec<char> {
    s.chars().collect()
}

#[test]
fn every_name_matches_itself() {
    for name in ["bash", "Google Chrome", "a", "chromehelper123extra", "/usr/bin/X.exe"] {
        assert!(is_process_matching(name, name));
    }
}

#[test]
fn matching_ignores_case() {
    assert!(is_process_matching("Chrome", "chrome"));
    assert!(is_process_matching("firefox", "FIREFOX"));
}

#[test]
fn long_query_does_not_match_shorter_unrelated_truncation() {
    // The candidate is long, but the query does not start with it.
    assert!(!is_process_matching("google-chrome-stable-rendere", "chrome"));
}

#[test]
fn truncated_name_matches_longer_query() {
    assert!(is_process_matching("chromehelper123", "chromehelper123extra"));
}

#[test]
fn long_query_matches_name_sharing_its_first_fifteen_chars() {
    assert!(is_process_matching("chromehelper123zzz", "chromehelper123extra"));
    assert!(!is_process_matching("chromehelper12zzz", "chromehelper123extra"));
}

#[test]
fn prefix_matches_either_way() {
    assert!(is_process_matching("postgres", "post"));
    assert!(is_process_matching("post", "postgres"));
    assert!(!is_process_matching("bash", "zsh"));
}

#[test]
fn path_and_extension_are_stripped() {
    assert!(is_process_matching("tool.bin", "/opt/tool.run"));
    assert!(is_process_matching("/usr/local/bin/Editor.APP", "editor.exe"));
    assert!(!is_process_matching("tool.bin", "/opt/tool2.run"));
}

#[test]
fn spaced_query_matches_compacted_name() {
    assert!(is_process_matching("appname", "App Name"));
    assert!(is_process_matching("AppName", "App Name"));
    assert!(!is_process_matching("appnam", "Bpp Name"));
}

#[test]
fn folded_matching_rules() {
    let none = chars("");
    assert!(matches_folded(&chars("chromehelper123"), &chars("chromehelper123extra"), &none, false));
    assert!(!matches_folded(&chars("google-chrome-stable-rendere"), &chars("chrome"), &none, false));
    assert!(matches_folded(&chars("appname"), &chars("app name"), &chars("appname"), true));
    assert!(!matches_folded(&chars("appname"), &chars("app name"), &chars("appname"), false));
    assert!(matches_folded(&chars("x.exe"), &chars("dir/x"), &none, false));
}

#[test]
fn chars_of_reads_every_character() {
    assert_eq!(chars_of("héllo"), vec!['h', 'é', 'l', 'l', 'o']);
    assert_eq!(chars_of(""), Vec::<char>::new());
}

#[test]
fn colours_only_when_not_turned_off() {
    assert!(should_use_colors(false, false));
    assert!(!should_use_colors(true, false));
    assert!(!should_use_colors(false, true));
    assert!(!should_use_colors(true, true));
}
