use man_search::index::{load_index, save_index, Index, MmapIndex, Posting};
use man_search::search::{
    collect_results, coverage_exponent, dedup_by_base, desc_overlap, document_frequency,
    expand_token, token_hits, top_candidates, MatchKind, TermMatch,
};
use man_search::strmap::StrMap;
use man_search::text::make_stemmer;

fn p(doc_id: u32, score: u32) -> Posting {
    Posting { doc_id, score }
}

fn strings(words: &[&str]) -> Vec<String> {
    words.iter().map(|w| w.to_string()).collect()
}

/// An index over the given file names whose dictionary holds the given
/// words, each with the given number of postings for document 0.
fn index_with(fnames: &[&str], words: &[(&str, usize)]) -> MmapIndex {
    let mut inverted: StrMap<Vec<Posting>> = StrMap::new();
    for (word, count) in words {
        inverted.insert(word.to_string(), vec![p(0, 0x3f80_0000); *count]);
    }
    let index = Index {
        doc_map: strings(fnames),
        cmd_names: fnames.iter().map(|_| String::new()).collect(),
        name_descs: fnames.iter().map(|f| format!("describes {f}")).collect(),
        inverted,
        cmd_name_index: StrMap::new(),
        desc_index: StrMap::new(),
    };
    let bytes = save_index(&index);
    let mut m = memmap2::MmapMut::map_anon(bytes.len()).unwrap();
    m.copy_from_slice(&bytes);
    load_index(m.make_read_only().unwrap()).ok().unwrap()
}

fn m(entry: usize, kind: MatchKind, extra_len: usize) -> TermMatch {
    TermMatch { entry, kind, extra_len }
}

#[test]
fn expand_token_exact_only_when_prefix_is_not_allowed() {
    let index = index_with(&["a.1"], &[("copi", 1), ("copier", 1), ("file", 1)]);
    assert_eq!(expand_token(&index, "copi", false), vec![m(0, MatchKind::Exact, 0)]);
    assert_eq!(expand_token(&index, "file", false), vec![m(2, MatchKind::Exact, 0)]);
}

#[test]
fn expand_token_adds_prefix_matches_in_dictionary_order() {
    let index =
        index_with(&["a.1"], &[("copier", 1), ("copi", 1), ("cop", 1), ("copies", 2), ("xcopi", 1)]);
    assert_eq!(
        expand_token(&index, "copi", true),
        vec![m(1, MatchKind::Exact, 0), m(0, MatchKind::Prefix, 2), m(3, MatchKind::Prefix, 2)]
    );
}

#[test]
fn expand_token_expands_no_token_below_four_bytes() {
    let index = index_with(&["a.1"], &[("cops", 1), ("cop", 1)]);
    assert_eq!(expand_token(&index, "cop", true), vec![m(1, MatchKind::Exact, 0)]);
    // nor is there a fuzzy fallback for it
    assert_eq!(expand_token(&index, "cap", true), Vec::new());
}

#[test]
fn expand_token_falls_back_to_fuzzy_matches() {
    let index =
        index_with(&["a.1"], &[("directori", 1), ("directory", 1), ("direct", 1), ("dir", 1)]);
    assert_eq!(
        expand_token(&index, "directri", false),
        vec![m(0, MatchKind::Fuzzy, 0)]
    );
    assert_eq!(
        expand_token(&index, "directorx", true),
        vec![m(0, MatchKind::Fuzzy, 0), m(1, MatchKind::Fuzzy, 0)]
    );
    assert_eq!(expand_token(&index, "xyzzy", true), Vec::new());
}

#[test]
fn expand_token_fuzzy_only_where_direct_matches_bring_no_posting() {
    // the exact entry has postings: no fuzzy matches
    let index = index_with(&["a.1"], &[("copi", 1), ("copy", 1)]);
    assert_eq!(expand_token(&index, "copi", false), vec![m(0, MatchKind::Exact, 0)]);
    // the exact entry is empty: the fuzzy pass runs and finds it again
    let index = index_with(&["a.1"], &[("copi", 0), ("copy", 1)]);
    assert_eq!(
        expand_token(&index, "copi", false),
        vec![m(0, MatchKind::Exact, 0), m(0, MatchKind::Fuzzy, 0), m(1, MatchKind::Fuzzy, 0)]
    );
    // a prefix match with postings stops it
    let index = index_with(&["a.1"], &[("copi", 0), ("copy", 1), ("copies", 1)]);
    assert_eq!(
        expand_token(&index, "copi", true),
        vec![m(0, MatchKind::Exact, 0), m(2, MatchKind::Prefix, 2)]
    );
}

#[test]
fn document_frequency_defaults_to_one() {
    let index = index_with(&["a.1"], &[("copi", 3), ("file", 0)]);
    assert_eq!(document_frequency(&index, "copi"), 3);
    assert_eq!(document_frequency(&index, "file"), 0);
    assert_eq!(document_frequency(&index, "absent"), 1);
}

#[test]
fn coverage_exponent_is_at_least_two() {
    assert_eq!(coverage_exponent(0), 2);
    assert_eq!(coverage_exponent(1), 2);
    assert_eq!(coverage_exponent(2), 2);
    assert_eq!(coverage_exponent(3), 2);
    assert_eq!(coverage_exponent(4), 3);
    assert_eq!(coverage_exponent(10), 9);
}

#[test]
fn top_candidates_sorts_and_cuts() {
    let c = vec![p(0, 3), p(1, 8), p(2, 5), p(3, 8)];
    assert_eq!(top_candidates(&c, 3), vec![p(1, 8), p(3, 8), p(2, 5)]);
    assert_eq!(top_candidates(&c, 10), vec![p(1, 8), p(3, 8), p(2, 5), p(0, 3)]);
    assert_eq!(top_candidates(&c, 0), Vec::new());
}

#[test]
fn dedup_keeps_the_best_of_each_base() {
    let index = index_with(&["ls.1", "LS.1p", "llvm-ls.1", "ls.8", "cp.1"], &[]);
    let ranked = vec![p(0, 10), p(1, 30), p(2, 20), p(3, 30), p(4, 5)];
    let out = dedup_by_base(&index, &ranked);
    // ls.1, LS.1p and ls.8 share the base "ls"; the first of the two best stays
    assert_eq!(out, vec![p(1, 30), p(2, 20), p(4, 5)]);
    assert_eq!(dedup_by_base(&index, &Vec::new()), Vec::new());
}

#[test]
fn dedup_result_has_no_base_twice() {
    let fnames = ["a.1", "a.2", "b.1", "A.3", "b.x.y", "c", "c.", ".c", ""];
    let index = index_with(&fnames, &[]);
    let ranked: Vec<Posting> =
        (0..fnames.len() as u32).map(|d| p(d, (d * 7919) % 13)).collect();
    let out = dedup_by_base(&index, &ranked);
    let bases: Vec<String> = out
        .iter()
        .map(|c| fnames[c.doc_id as usize].split('.').next().unwrap().to_lowercase())
        .collect();
    for i in 0..bases.len() {
        for j in 0..i {
            assert_ne!(bases[i], bases[j]);
        }
    }
    // bases a, b, c and the empty one
    assert_eq!(out.len(), 4);
    for w in out.windows(2) {
        assert!(w[0].score >= w[1].score);
    }
}

#[test]
fn collect_results_copies_names_and_descriptions() {
    let index = index_with(&["ls.1", "cp.1"], &[]);
    let out = collect_results(&index, &vec![p(1, 9), p(0, 4)]);
    assert_eq!(out.len(), 2);
    assert_eq!(out[0].doc_id, 1);
    assert_eq!(out[0].fname, "cp.1");
    assert_eq!(out[0].name_desc, "describes cp.1");
    assert_eq!(out[0].score, 9);
    assert_eq!(out[1].fname, "ls.1");
}

#[test]
fn desc_overlap_counts_shared_tokens() {
    let stemmer = make_stemmer();
    let query = strings(&["list", "directori", "copi"]);
    let o = desc_overlap(&query, "list directory contents of a directory", &stemmer);
    assert_eq!(o.present, vec![true, true, false]);
    assert_eq!(o.matched, 2);
    // list, directori, content
    assert_eq!(o.desc_size, 3);
    let o = desc_overlap(&query, "", &stemmer);
    assert_eq!(o.present, vec![false, false, false]);
    assert_eq!(o.matched, 0);
    assert_eq!(o.desc_size, 0);
}

#[test]
fn token_hits_bring_postings_and_described_documents() {
    let index = index_with(&["a.1", "copier.1"], &[("copi", 2), ("copier", 1), ("file", 1)]);
    // every description reads "describes <file name>"
    let hits = token_hits(&index, "copi", true);
    assert_eq!(
        hits.matches,
        vec![m(0, MatchKind::Exact, 0), m(1, MatchKind::Prefix, 2)]
    );
    assert_eq!(hits.postings, vec![vec![p(0, 0x3f80_0000); 2], vec![p(0, 0x3f80_0000)]]);
    assert!(hits.described.is_empty());
    let hits = token_hits(&index, "describ", false);
    assert!(hits.matches.is_empty());
    assert!(hits.postings.is_empty());
    assert_eq!(hits.described, vec![0, 1]);
    let hits = token_hits(&index, "copier", false);
    assert_eq!(hits.matches, vec![m(1, MatchKind::Exact, 0)]);
    assert_eq!(hits.described, vec![1]);
}
