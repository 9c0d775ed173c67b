use man_search::text::{
    contains_str, edit_distance, is_stop_word, make_stemmer, tokenize, unique_tokens,
};

fn strings(words: &[&str]) -> Vec<String> {
    words.iter().map(|w| w.to_string()).collect()
}

#[test]
fn stop_words_are_recognised() {
    assert!(is_stop_word("the"));
    assert!(is_stop_word("it's"));
    assert!(is_stop_word("a"));
    assert!(is_stop_word("see"));
    assert!(!is_stop_word("list"));
    assert!(!is_stop_word("The"));
    assert!(!is_stop_word(""));
}

#[test]
fn tokenize_drops_stop_words_and_short_pieces() {
    let stemmer = make_stemmer();
    let tokens = tokenize("List the directory contents of a dir", &stemmer);
    assert_eq!(tokens, strings(&["list", "directori", "content", "dir"]));
}

#[test]
fn tokenize_keeps_duplicates_in_order() {
    let stemmer = make_stemmer();
    let tokens = tokenize("copy files; copy FILES again", &stemmer);
    assert_eq!(tokens, strings(&["copi", "file", "copi", "file", "again"]));
}

#[test]
fn tokenize_splits_on_everything_but_letters_digits_dash_underscore() {
    let stemmer = make_stemmer();
    let tokens = tokenize("foo_bar/baz-qux.tar(gz)", &stemmer);
    assert_eq!(tokens, strings(&["foo_bar", "baz-qux", "tar"]));
}

#[test]
fn tokenize_length_rule_counts_a_leading_dash() {
    let stemmer = make_stemmer();
    assert_eq!(tokenize("-l", &stemmer), strings(&["-l"]));
    assert_eq!(tokenize("ab", &stemmer), Vec::<String>::new());
    assert_eq!(tokenize("-", &stemmer), Vec::<String>::new());
    assert_eq!(tokenize("abc", &stemmer), strings(&["abc"]));
}

#[test]
fn tokenize_is_deterministic() {
    let stemmer = make_stemmer();
    let text = "Concatenate FILE(s) to standard output, running --number-nonblank";
    assert_eq!(tokenize(text, &stemmer), tokenize(text, &stemmer));
    assert_eq!(tokenize(text, &make_stemmer()), tokenize(text, &stemmer));
}

#[test]
fn tokenize_of_stop_words_only_is_empty() {
    let stemmer = make_stemmer();
    assert!(tokenize("the of and", &stemmer).is_empty());
    assert!(tokenize("", &stemmer).is_empty());
}

#[test]
fn a_stem_may_be_a_stop_word_though_no_piece_is() {
    let stemmer = make_stemmer();
    assert!(!is_stop_word("uses"));
    assert_eq!(tokenize("uses", &stemmer), strings(&["use"]));
    assert!(is_stop_word("use"));
}

#[test]
fn tokenize_lowercases_before_filtering() {
    let stemmer = make_stemmer();
    assert!(tokenize("THE And Of", &stemmer).is_empty());
    assert_eq!(tokenize("SYNOPSIS", &stemmer), strings(&["synopsi"]));
}

#[test]
fn edit_distance_exact_values() {
    assert_eq!(edit_distance("", "", 1), 0);
    assert_eq!(edit_distance("copy", "copy", 1), 0);
    assert_eq!(edit_distance("copy", "copi", 1), 1);
    assert_eq!(edit_distance("kitten", "sitting", 3), 3);
    assert_eq!(edit_distance("flaw", "lawn", 2), 2);
    assert_eq!(edit_distance("", "ab", 2), 2);
    assert_eq!(edit_distance("ab", "", 2), 2);
}

#[test]
fn edit_distance_gives_up_at_the_bound() {
    // lengths differ by more than the bound
    assert_eq!(edit_distance("abc", "abcdef", 1), 2);
    assert_eq!(edit_distance("a", "abcd", 2), 3);
    // a whole row exceeds the bound
    assert_eq!(edit_distance("abcd", "wxyz", 1), 2);
    assert_eq!(edit_distance("kitten", "sitting", 2), 3);
}

#[test]
fn edit_distance_beyond_the_bound_may_be_the_true_distance() {
    // no row exceeds 2, so the table is filled to the end
    assert_eq!(edit_distance("ab", "cdef", 2), 4);
}

#[test]
fn edit_distance_counts_characters_not_bytes() {
    assert_eq!(edit_distance("défi", "defi", 1), 1);
    assert_eq!(edit_distance("naïve", "naive", 1), 1);
}

#[test]
fn edit_distance_is_within_bound_iff_levenshtein_is() {
    fn levenshtein(a: &str, b: &str) -> usize {
        let a: Vec<char> = a.chars().collect();
        let b: Vec<char> = b.chars().collect();
        let mut table = vec![vec![0usize; b.len() + 1]; a.len() + 1];
        for i in 0..=a.len() {
            table[i][0] = i;
        }
        for j in 0..=b.len() {
            table[0][j] = j;
        }
        for i in 1..=a.len() {
            for j in 1..=b.len() {
                let sub = table[i - 1][j - 1] + if a[i - 1] == b[j - 1] { 0 } else { 1 };
                table[i][j] = sub.min(table[i - 1][j] + 1).min(table[i][j - 1] + 1);
            }
        }
        table[a.len()][b.len()]
    }
    let words = ["", "a", "ab", "ba", "abc", "abd", "xbc", "abcd", "copi", "copy", "copyfil"];
    for a in words {
        for b in words {
            for k in 0..4usize {
                let d = edit_distance(a, b, k);
                let l = levenshtein(a, b);
                assert_eq!(d <= k, l <= k, "{a} {b} {k}");
                if l <= k {
                    assert_eq!(d, l, "{a} {b} {k}");
                } else {
                    assert!(d == k + 1 || d == l, "{a} {b} {k}");
                }
            }
        }
    }
}

#[test]
fn unique_tokens_keep_first_occurrences() {
    let tokens = strings(&["copi", "file", "copi", "dir", "file"]);
    assert_eq!(unique_tokens(&tokens), strings(&["copi", "file", "dir"]));
    assert_eq!(unique_tokens(&Vec::new()), Vec::<String>::new());
}

#[test]
fn contains_str_compares_characters() {
    let list = strings(&["copi", "file"]);
    assert!(contains_str(&list, "file"));
    assert!(!contains_str(&list, "fil"));
    assert!(!contains_str(&Vec::new(), ""));
}

#[test]
fn tokenize_takes_any_text() {
    let stemmer = make_stemmer();
    let samples = [
        "naïve café résumé über straße",
        "日本語のテキスト 中文文本 한국어",
        "İstanbul ΣΊΣΥΦΟΣ ǅemal ﬁnance",
        "e\u{301}te\u{301} a\u{308}rger",
        "emoji 😀 text 👍🏽 more",
        "générations'ly éééing ñññed ßßßs",
        "x\u{0}y\u{7f}z \u{85}\u{a0}\u{2028}",
        "ünïcödé-wörds_with-dashes --łong-öption",
        "ßing éed ïes ùly àtion østional",
    ];
    for s in samples {
        let tokens = tokenize(s, &stemmer);
        assert_eq!(tokens, tokenize(s, &stemmer));
        assert!(tokens.len() <= s.chars().count() + 1);
    }
    assert_eq!(tokenize("日本語のテキスト", &stemmer), strings(&["日本語のテキスト"]));
    assert_eq!(tokenize("ΣΊΣΥΦΟΣ", &stemmer), strings(&["σίσυφος"]));
}
