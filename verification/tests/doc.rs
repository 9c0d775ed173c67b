use man_search::doc::{
    chars_end_with, chars_equal, chars_start_with, doc_terms, doc_type_multiplier, file_base,
    is_header_line, is_vip_command, parse_doc, parse_name_chars, parse_name_line, trim_chars,
    DocMultiplier, DocScan, Section, SectionState,
};
use man_search::text::make_stemmer;

fn chars(s: &str) -> Vec<char> {
    s.chars().collect()
}

fn strings(words: &[&str]) -> Vec<String> {
    words.iter().map(|w| w.to_string()).collect()
}

#[test]
fn trim_chars_strips_both_ends() {
    assert_eq!(trim_chars(&chars("  ls - list \t\r")), &chars("ls - list")[..]);
    assert_eq!(trim_chars(&chars(" \t ")), &chars("")[..]);
    assert_eq!(trim_chars(&chars("")), &chars("")[..]);
    assert_eq!(trim_chars(&chars("a")), &chars("a")[..]);
}

#[test]
fn headers_are_upper_case_lines() {
    assert!(is_header_line(&chars("NAME")));
    assert!(is_header_line(&chars("SEE ALSO")));
    assert!(is_header_line(&chars("EXIT_STATUS")));
    assert!(is_header_line(&chars("RETURN-VALUE")));
    assert!(!is_header_line(&chars("N")));
    assert!(!is_header_line(&chars("Name")));
    assert!(!is_header_line(&chars("--")));
    assert!(!is_header_line(&chars("LS(1)")));
    assert!(!is_header_line(&chars("")));
    // one upper-case letter of two bytes is long enough
    assert!(is_header_line(&chars("É")));
}

#[test]
fn chars_comparisons() {
    assert!(chars_start_with(&chars("SYNOPSIS"), "SYNOPSIS"));
    assert!(chars_start_with(&chars("SYNOPSIS AND MORE"), "SYNOPSIS"));
    assert!(!chars_start_with(&chars("SYNOPSI"), "SYNOPSIS"));
    assert!(chars_end_with(&chars("foo.3const"), "const"));
    assert!(!chars_end_with(&chars("onst"), "const"));
    assert!(chars_equal(&chars("NAME"), "NAME"));
    assert!(!chars_equal(&chars("NAMES"), "NAME"));
}

#[test]
fn section_state_starts_in_body() {
    let st = SectionState::new();
    assert_eq!(st.current, Section::Body);
    assert_eq!(st.name_lines_seen, 0);
}

#[test]
fn advance_follows_headers() {
    let mut st = SectionState::new();
    assert_eq!(st.advance("ls(1)   User Commands"), Section::Body);
    assert_eq!(st.advance("NAME"), Section::Name);
    assert_eq!(st.name_lines_seen, 0);
    assert_eq!(st.advance(""), Section::Name);
    assert_eq!(st.name_lines_seen, 0);
    assert_eq!(st.advance("       ls - list directory contents"), Section::Name);
    assert_eq!(st.name_lines_seen, 1);
    assert_eq!(st.advance("       more about ls"), Section::Body);
    assert_eq!(st.name_lines_seen, 2);
    assert_eq!(st.current, Section::Name);
    assert_eq!(st.advance("SYNOPSIS"), Section::Synopsis);
    assert_eq!(st.name_lines_seen, 0);
    assert_eq!(st.advance("       ls [OPTION]... [FILE]..."), Section::Synopsis);
    assert_eq!(st.advance("  SYNOPSIS AND USAGE  "), Section::Synopsis);
    assert_eq!(st.advance("DESCRIPTION"), Section::Body);
    assert_eq!(st.advance("       List information"), Section::Body);
}

#[test]
fn name_line_with_hyphen() {
    let (names, desc) = parse_name_line("ls, dir; vdir - list directory contents");
    assert_eq!(names, strings(&["ls", "dir", "vdir"]));
    assert_eq!(desc, "list directory contents");
}

#[test]
fn name_line_with_en_dash() {
    let (names, desc) = parse_name_line("Cat \u{2013} concatenate files ");
    assert_eq!(names, strings(&["cat"]));
    assert_eq!(desc, "concatenate files");
}

#[test]
fn name_line_prefers_the_hyphen_wherever_it_stands() {
    let (names, desc) = parse_name_line("a \u{2013} b - c");
    assert_eq!(names, strings(&["a \u{2013} b"]));
    assert_eq!(desc, "c");
}

#[test]
fn name_line_without_dash_lists_names_only() {
    let (names, desc) = parse_name_line("foo, Bar,, ;baz");
    assert_eq!(names, strings(&["foo", "bar", "baz"]));
    assert_eq!(desc, "");
}

#[test]
fn name_line_description_loses_leading_dashes() {
    let (names, desc) = parse_name_chars(&chars("x - -- \u{2013} - y z  "));
    assert_eq!(names, strings(&["x"]));
    assert_eq!(desc, "y z");
    let (names, desc) = parse_name_line(" - only a description");
    assert!(names.is_empty());
    assert_eq!(desc, "only a description");
}

#[test]
fn file_base_is_lowercased_text_before_first_dot() {
    assert_eq!(file_base("ls.1"), "ls");
    assert_eq!(file_base("LLVM-LS.1.gz"), "llvm-ls");
    assert_eq!(file_base("nodot"), "nodot");
    assert_eq!(file_base(".hidden"), "");
    assert_eq!(file_base(""), "");
}

#[test]
fn vip_commands() {
    assert!(is_vip_command("ls"));
    assert!(is_vip_command("whoami"));
    assert!(is_vip_command("systemctl"));
    assert!(!is_vip_command("llvm-ls"));
    assert!(!is_vip_command("LS"));
}

#[test]
fn doc_type_multiplier_by_section() {
    let m = |t, v| DocMultiplier { section_tenths: t, vip_factor: v };
    assert_eq!(doc_type_multiplier("foo.1"), m(40, 1));
    assert_eq!(doc_type_multiplier("foo.8"), m(25, 1));
    assert_eq!(doc_type_multiplier("foo.5"), m(12, 1));
    assert_eq!(doc_type_multiplier("foo.2"), m(8, 1));
    assert_eq!(doc_type_multiplier("foo.3"), m(8, 1));
    assert_eq!(doc_type_multiplier("foo.4"), m(6, 1));
    assert_eq!(doc_type_multiplier("foo.6"), m(6, 1));
    assert_eq!(doc_type_multiplier("foo.7"), m(6, 1));
    assert_eq!(doc_type_multiplier("foo.9"), m(8, 1));
    assert_eq!(doc_type_multiplier("foo.0"), m(8, 1));
    assert_eq!(doc_type_multiplier("foo.txt"), m(8, 1));
    assert_eq!(doc_type_multiplier("foo."), m(8, 1));
    assert_eq!(doc_type_multiplier("foo.1.gz"), m(8, 1));
    assert_eq!(doc_type_multiplier("foo.3p"), m(8, 1));
    assert_eq!(doc_type_multiplier("foo.1ssl"), m(40, 1));
    assert_eq!(doc_type_multiplier("1"), m(40, 1));
    assert_eq!(doc_type_multiplier(""), m(8, 1));
}

#[test]
fn doc_type_multiplier_vip_and_index_pages() {
    let m = |t, v| DocMultiplier { section_tenths: t, vip_factor: v };
    assert_eq!(doc_type_multiplier("ls.1"), m(40, 5));
    assert_eq!(doc_type_multiplier("LS.1"), m(40, 5));
    assert_eq!(doc_type_multiplier("mount.8"), m(25, 5));
    assert_eq!(doc_type_multiplier("stat.2"), m(8, 5));
    assert_eq!(doc_type_multiplier("llvm-ls.1"), m(40, 1));
    assert_eq!(doc_type_multiplier("EOF.3const"), m(1, 1));
    assert_eq!(doc_type_multiplier("size_t.3type"), m(1, 1));
    assert_eq!(doc_type_multiplier("stdio.h.3head"), m(1, 1));
    // the three endings win over a well-known command
    assert_eq!(doc_type_multiplier("head"), m(1, 1));
    assert_eq!(doc_type_multiplier("head.1"), m(40, 5));
}

const LS_PAGE: &str = "LS(1)                User Commands               LS(1)\n\nNAME\n       ls - list directory contents\n\nSYNOPSIS\n       ls [OPTION]... [FILE]...\n\nDESCRIPTION\n       List information about the FILEs (the current directory by default).\r\n       Sort entries alphabetically.\n";

#[test]
fn parse_doc_fills_the_three_fields() {
    let stemmer = make_stemmer();
    let doc = parse_doc(LS_PAGE, "ls.1", &stemmer).unwrap();
    assert_eq!(doc.fname, "ls.1");
    assert_eq!(doc.cmd_name, "ls");
    assert_eq!(doc.name_desc_raw, "list directory contents");
    assert_eq!(doc.name_desc_len, 3);
    assert_eq!(doc.name_desc_tf.len(), 3);
    assert_eq!(doc.name_desc_tf.get("list"), Some(&1));
    assert_eq!(doc.name_desc_tf.get("directori"), Some(&1));
    assert_eq!(doc.name_desc_tf.get("content"), Some(&1));
    // "ls" is too short, OPTION and FILE stay
    assert_eq!(doc.synopsis_len, 2);
    assert_eq!(doc.synopsis_tf.get("option"), Some(&1));
    assert_eq!(doc.synopsis_tf.get("file"), Some(&1));
    // the first line, and the two lines of the description; headers give no token
    assert_eq!(doc.body_tf.get("user"), Some(&1));
    assert_eq!(doc.body_tf.get("command"), Some(&1));
    assert_eq!(doc.body_tf.get("list"), Some(&1));
    assert_eq!(doc.body_tf.get("file"), Some(&1));
    assert_eq!(doc.body_tf.get("directori"), Some(&1));
    assert_eq!(doc.body_tf.get("name"), None);
    assert_eq!(doc.body_tf.get("descript"), None);
    assert_eq!(doc.body_tf.get("synopsi"), None);
    let total: u32 = (0..doc.body_tf.len()).map(|i| *doc.body_tf.value(i)).sum();
    assert_eq!(total, doc.body_len);
}

#[test]
fn parse_doc_counts_repeated_tokens() {
    let stemmer = make_stemmer();
    let doc = parse_doc("copy copy files\ncopying file\n", "x.1", &stemmer).unwrap();
    assert_eq!(doc.body_len, 5);
    assert_eq!(doc.body_tf.get("copi"), Some(&3));
    assert_eq!(doc.body_tf.get("file"), Some(&2));
    assert_eq!(doc.body_tf.key(0), "copi");
    assert_eq!(doc.body_tf.key(1), "file");
    assert_eq!(doc.name_desc_len, 0);
    assert_eq!(doc.synopsis_len, 0);
}

#[test]
fn parse_doc_only_takes_the_first_name_line() {
    let stemmer = make_stemmer();
    let page = "NAME\n\n   foo, bar - frobnicate widgets\n   second line here\nNAME\n   other - thing\n";
    let doc = parse_doc(page, "zzz.3", &stemmer).unwrap();
    assert_eq!(doc.cmd_name, "foo");
    assert_eq!(doc.name_desc_raw, "frobnicate widgets");
    assert_eq!(doc.name_desc_len, 2);
    assert_eq!(doc.body_tf.get("second"), Some(&1));
    assert_eq!(doc.body_tf.get("line"), Some(&1));
    assert_eq!(doc.body_tf.get("thing"), Some(&1));
    assert_eq!(doc.body_tf.get("other"), None);
}

#[test]
fn parse_doc_falls_back_to_the_file_name() {
    let stemmer = make_stemmer();
    let doc = parse_doc("some running text\n", "Copying.7", &stemmer).unwrap();
    assert_eq!(doc.cmd_name, "copi");
    assert_eq!(doc.name_desc_raw, "");
    let doc = parse_doc("some running text\n", "x.7", &stemmer).unwrap();
    assert_eq!(doc.cmd_name, "");
}

#[test]
fn parse_doc_without_tokens_is_none() {
    let stemmer = make_stemmer();
    assert!(parse_doc("", "ls.1", &stemmer).is_none());
    assert!(parse_doc("NAME\n\nTHE OF\n a an\n", "ls.1", &stemmer).is_none());
    assert!(parse_doc("\n\n\n", "ls.1", &stemmer).is_none());
}

#[test]
fn doc_scan_feeds_line_by_line() {
    let stemmer = make_stemmer();
    let mut scan = DocScan::new();
    scan.feed(&chars("NAME"), &stemmer);
    scan.feed(&chars("  cp - copy files and directories"), &stemmer);
    assert!(scan.found_name);
    assert_eq!(scan.cmd_name, "cp");
    assert_eq!(scan.name_desc_len, 3);
    let doc = scan.finish("cp.1", &stemmer).unwrap();
    assert_eq!(doc.name_desc_raw, "copy files and directories");
    assert_eq!(doc_terms(&doc), strings(&["copi", "file", "directori", "cp"]));
}

#[test]
fn doc_terms_list_each_term_once() {
    let stemmer = make_stemmer();
    let page = "NAME\n  list - list files\nSYNOPSIS\n  list files quickly\nDESCRIPTION\n  quickly list stuff\n";
    let doc = parse_doc(page, "list.1", &stemmer).unwrap();
    assert_eq!(doc_terms(&doc), strings(&["list", "file", "quick", "stuff"]));
}
