use man_search::web::{
    escape_html, parse_man_formatting, sanitize_cmd, sanitize_fname, sanitize_query, RateLimiter,
};

#[test]
fn sanitize_fname_accepts_plain_names() {
    assert_eq!(sanitize_fname("ls.1"), Some("ls.1"));
    assert_eq!(sanitize_fname("llvm-ls_x.1.gz"), Some("llvm-ls_x.1.gz"));
    assert_eq!(sanitize_fname(""), None);
    assert_eq!(sanitize_fname("foo;rm -rf"), None);
    assert_eq!(sanitize_fname("../etc/passwd"), None);
    assert_eq!(sanitize_fname(&"a".repeat(64)), Some("a".repeat(64).as_str()));
    assert_eq!(sanitize_fname(&"a".repeat(65)), None);
}

#[test]
fn sanitize_cmd_takes_the_text_before_the_first_dot() {
    assert_eq!(sanitize_cmd("ls.1"), Some("ls".to_string()));
    assert_eq!(sanitize_cmd("LS.1.gz"), Some("LS".to_string()));
    assert_eq!(sanitize_cmd("git-log"), Some("git-log".to_string()));
    assert_eq!(sanitize_cmd(".1"), None);
    assert_eq!(sanitize_cmd(""), None);
    assert_eq!(sanitize_cmd("foo;rm -rf"), None);
    assert_eq!(sanitize_cmd(&format!("{}.1", "a".repeat(65))), None);
}

#[test]
fn sanitize_query_trims_and_bounds() {
    assert_eq!(sanitize_query("  copy file \n"), Some("copy file".to_string()));
    assert_eq!(sanitize_query("   "), None);
    assert_eq!(sanitize_query(""), None);
    assert_eq!(sanitize_query(&"q".repeat(256)), Some("q".repeat(256)));
    assert_eq!(sanitize_query(&"q".repeat(257)), None);
}

#[test]
fn escape_html_escapes_three_characters() {
    let mut buf = vec!['x'];
    for c in ['<', '>', '&', 'a'] {
        escape_html(c, &mut buf);
    }
    let s: String = buf.into_iter().collect();
    assert_eq!(s, "x&lt;&gt;&amp;a");
}

#[test]
fn man_formatting_becomes_tags() {
    assert_eq!(parse_man_formatting("N\u{8}NA\u{8}A"), "<b>N</b><b>A</b>");
    assert_eq!(parse_man_formatting("_\u{8}f_\u{8}o"), "<u>f</u><u>o</u>");
    assert_eq!(parse_man_formatting("a < b & c"), "a &lt; b &amp; c");
    assert_eq!(parse_man_formatting("<\u{8}<"), "<b>&lt;</b>");
    // a backspace with nothing behind it is plain text
    assert_eq!(parse_man_formatting("a\u{8}"), "a\u{8}");
    assert_eq!(parse_man_formatting(""), "");
}

#[test]
fn rate_limiter_allows_thirty_per_window() {
    let mut limiter = RateLimiter::new();
    for i in 0..30 {
        assert!(limiter.check("global", 1_000 + i));
    }
    assert!(!limiter.check("global", 2_000));
    assert!(!limiter.check("global", 10_000_000_999));
    // another client has a budget of its own
    assert!(limiter.check("other", 2_000));
    // the window began at 1000 and is over ten seconds later
    assert!(limiter.check("global", 10_000_001_000));
    assert_eq!(limiter.buckets.get("global"), Some(&(1, 10_000_001_000)));
    assert_eq!(limiter.buckets.get("other"), Some(&(1, 2_000)));
}
