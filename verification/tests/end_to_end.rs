//! Whole runs: pages are crawled, scored, built into an index, saved,
//! loaded from a memory map and queried. The arithmetic of scoring is the
//! host's part and is written out here.

use std::collections::BTreeMap;

use man_search::builder::{build_index, read_records, score_inputs, ScoreInputs};
use man_search::constants::SEMANTIC_RERANK_N;
use man_search::crawl::{crawl, Page};
use man_search::doc::doc_terms;
use man_search::index::{load_index, save_index, MmapIndex, Posting};
use man_search::search::{
    collect_results, coverage_exponent, dedup_by_base, desc_overlap, document_frequency,
    token_hits, top_candidates, DescOverlap, MatchKind,
};
use man_search::text::{make_stemmer, tokenize, unique_tokens};

fn bm25_term(tf: f32, dl: f32, avgdl: f32, n: f32, df: f32) -> f32 {
    if tf == 0.0 || df == 0.0 || n == 0.0 {
        return 0.0;
    }
    let idf = ((n - df + 0.5) / (df + 0.5) + 1.0).ln().max(0.0);
    let ntf = (tf * (1.5 + 1.0)) / (tf + 1.5 * (1.0 - 0.75 + 0.75 * dl / avgdl));
    idf * ntf
}

fn term_score(i: &ScoreInputs, avg: (f32, f32, f32)) -> f32 {
    let n = i.total_docs as f32;
    let df = i.df as f32;
    let cmd = if i.is_cmd_name { bm25_term(1.0, 1.0, 1.0, n, df) * 30.0 } else { 0.0 };
    let field = |tf: u32, len: u32, avgdl: f32, weight: f32| {
        if len > 0 {
            bm25_term(tf as f32, len as f32, avgdl.max(1.0), n, df) * weight
        } else {
            0.0
        }
    };
    let desc = field(i.desc_tf, i.desc_len, avg.0, 12.0);
    let syn = field(i.synopsis_tf, i.synopsis_len, avg.1, 2.5);
    let body = field(i.body_tf, i.body_len, avg.2, 1.0);
    let mult = (i.multiplier.section_tenths as f32 / 10.0) * i.multiplier.vip_factor as f32;
    (cmd + desc + syn + body) * mult
}

fn build(pages: &[(&str, &str)]) -> MmapIndex {
    let pages: Vec<Page> = pages
        .iter()
        .map(|(f, c)| Page { fname: f.to_string(), content: c.to_string() })
        .collect();
    let mut records = Vec::new();
    let stats = crawl(&pages, &mut records);
    let docs = read_records(&records, stats.total_docs).ok().unwrap();
    let n = stats.total_docs.max(1) as f64;
    let avg = (
        (stats.sum_desc_len as f64 / n) as f32,
        (stats.sum_synopsis_len as f64 / n) as f32,
        (stats.sum_body_len as f64 / n) as f32,
    );
    let scores: Vec<Vec<u32>> = docs
        .iter()
        .map(|doc| {
            doc_terms(doc)
                .iter()
                .map(|t| term_score(&score_inputs(doc, t, &stats), avg).to_bits())
                .collect()
        })
        .collect();
    let index = build_index(&docs, &scores);
    let bytes = save_index(&index);
    let mut m = memmap2::MmapMut::map_anon(bytes.len()).unwrap();
    m.copy_from_slice(&bytes);
    load_index(m.make_read_only().unwrap()).ok().unwrap()
}

fn semantic(idfs: &[f32], name_desc: &str, o: &DescOverlap) -> f32 {
    if name_desc.is_empty() || idfs.is_empty() || o.desc_size == 0 {
        return 0.0;
    }
    let mut sorted = idfs.to_vec();
    sorted.sort_by(|a, b| a.partial_cmp(b).unwrap());
    let median = sorted[sorted.len() / 2];
    if idfs.len() > 1 {
        for (i, &idf) in idfs.iter().enumerate() {
            if idf >= median && !o.present[i] {
                return 0.0;
            }
        }
    }
    let mut overlap = 0.0f32;
    let mut total = 0.0f32;
    for (i, &idf) in idfs.iter().enumerate() {
        total += idf;
        if o.present[i] {
            overlap += idf;
        }
    }
    if total == 0.0 {
        return 0.0;
    }
    let coverage = overlap / total;
    let precision = o.matched as f32 / o.desc_size as f32;
    if coverage + precision == 0.0 {
        return 0.0;
    }
    let f1 = 2.0 * coverage * precision / (coverage + precision);
    f1 * f1
}

/// (file name, description, score), best first. All scores here are
/// non-negative, so their bit patterns order as they do.
fn search(query: &str, index: &MmapIndex) -> Vec<(String, String, f32)> {
    let stemmer = make_stemmer();
    let tokens = tokenize(query, &stemmer);
    if tokens.is_empty() {
        return Vec::new();
    }
    let unique = unique_tokens(&tokens);
    let n = index.doc_map.len() as f32;
    let idfs: Vec<f32> = unique
        .iter()
        .map(|t| {
            let df = document_frequency(index, t) as f32;
            ((n - df + 0.5) / (df + 0.5) + 1.0).ln().max(0.01)
        })
        .collect();
    let total_idf: f32 = idfs.iter().sum();
    let mut doc_score: BTreeMap<u32, f32> = BTreeMap::new();
    let mut doc_matched: BTreeMap<u32, f32> = BTreeMap::new();
    for token in &tokens {
        let idf = idfs[unique.iter().position(|t| t == token).unwrap()];
        let mut posts: BTreeMap<u32, f32> = BTreeMap::new();
        let hits = token_hits(index, token, idf > 1.0);
        for (m, postings) in hits.matches.iter().zip(hits.postings.iter()) {
            let weight = match m.kind {
                MatchKind::Exact => 1.0,
                MatchKind::Prefix => 0.6f32.powf(m.extra_len as f32 + 1.0),
                MatchKind::Fuzzy => 0.5,
            };
            for p in postings {
                *posts.entry(p.doc_id).or_insert(0.0) += f32::from_bits(p.score) * weight;
            }
        }
        for &d in &hits.described {
            posts.entry(d).or_insert(0.0);
        }
        for (d, s) in posts {
            *doc_score.entry(d).or_insert(0.0) += s;
            *doc_matched.entry(d).or_insert(0.0) += idf;
        }
    }
    let exp = coverage_exponent(tokens.len()) as f32;
    let candidates: Vec<Posting> = doc_score
        .into_iter()
        .filter_map(|(d, s)| {
            let mi = doc_matched[&d];
            if mi == 0.0 {
                return None;
            }
            let c = (mi / total_idf).min(1.0);
            Some(Posting { doc_id: d, score: (s * c.powf(exp)).to_bits() })
        })
        .collect();
    let reranked: Vec<Posting> = top_candidates(&candidates, SEMANTIC_RERANK_N)
        .into_iter()
        .map(|c| {
            let desc = &index.name_descs[c.doc_id as usize];
            let sem = semantic(&idfs, desc, &desc_overlap(&unique, desc, &stemmer));
            Posting {
                doc_id: c.doc_id,
                score: (f32::from_bits(c.score) * (1.0 + 15.0 * sem)).to_bits(),
            }
        })
        .collect();
    let deduped = dedup_by_base(index, &reranked);
    collect_results(index, &deduped)
        .into_iter()
        .map(|r| (r.fname, r.name_desc, f32::from_bits(r.score)))
        .collect()
}

const LS: &str = "NAME\n    ls - list directory contents\nDESCRIPTION\n    ...";
const CP: &str = "NAME\n    cp - copy files and directories\nDESCRIPTION\n    Copy SOURCE to DEST\n";

#[test]
fn list_directory_finds_ls() {
    let index = build(&[("ls.1", LS)]);
    let results = search("list directory", &index);
    assert_eq!(results.len(), 1);
    assert_eq!(results[0].0, "ls.1");
    assert_eq!(results[0].1, "list directory contents");
    assert!(results[0].2 > 0.0);
}

#[test]
fn ls_outranks_llvm_ls_as_a_well_known_command() {
    let index = build(&[("llvm-ls.1", LS), ("ls.1", LS)]);
    let results = search("list directory", &index);
    assert_eq!(results.len(), 2);
    assert_eq!(results[0].0, "ls.1");
    assert_eq!(results[1].0, "llvm-ls.1");
    // the same fields, five times the weight
    assert!((results[0].2 / results[1].2 - 5.0).abs() < 1e-4);
}

#[test]
fn a_query_of_two_bytes_has_no_token() {
    let index = build(&[("llvm-ls.1", LS), ("ls.1", LS)]);
    assert!(tokenize("ls", &make_stemmer()).is_empty());
    assert!(search("ls", &index).is_empty());
}

#[test]
fn copyfil_is_more_than_one_edit_from_every_term() {
    let index = build(&[("cp.1", CP)]);
    assert!(search("copyfil", &index).is_empty());
}

#[test]
fn a_misspelt_word_is_found_at_half_the_score() {
    let index = build(&[("cp.1", CP)]);
    let results = search("directry", &index);
    assert_eq!(results.len(), 1);
    assert_eq!(results[0].0, "cp.1");
    let posting = index.get_postings("directori").unwrap()[0];
    assert!(f32::from_bits(posting.score) > 0.0);
    assert_eq!(results[0].2, f32::from_bits(posting.score) * 0.5);
    // spelt right, the description counts too
    let exact = search("directory", &index);
    assert_eq!(exact[0].2, f32::from_bits(posting.score) * (1.0 + 15.0 * 0.25));
}

#[test]
fn stop_words_only_give_no_result() {
    let index = build(&[("ls.1", LS), ("cp.1", CP)]);
    assert!(search("the of and", &index).is_empty());
}

#[test]
fn an_unknown_word_gives_no_result() {
    let index = build(&[("ls.1", LS), ("cp.1", CP)]);
    assert!(search("xyzzy", &index).is_empty());
}

#[test]
fn an_index_page_ranks_below_a_section_one_page() {
    let page = "NAME\n    x - frobnicate widgets\n";
    let index = build(&[("beta.3const", page), ("alpha.1", page)]);
    let results = search("frobnicate", &index);
    assert_eq!(results.len(), 2);
    assert_eq!(results[0].0, "alpha.1");
    assert_eq!(results[1].0, "beta.3const");
    assert!(results[1].2 > 0.0);
    assert!(results[1].2 < results[0].2);
    let best = f32::from_bits(index.get_postings("frobnic").unwrap()[0].score);
    let worst = f32::from_bits(index.get_postings("frobnic").unwrap()[1].score);
    assert_eq!(index.get_postings("frobnic").unwrap()[0].doc_id, 1);
    assert!((best / worst - 40.0).abs() < 1e-3);
}

#[test]
fn results_never_share_a_base() {
    let page = "NAME\n    printf - format and print data\n";
    let index = build(&[("printf.1", page), ("printf.3", page), ("PRINTF.1p", page), ("cp.1", CP)]);
    let results = search("format print data", &index);
    assert_eq!(results.len(), 1);
    assert_eq!(results[0].0, "printf.1");
}

#[test]
fn prefix_expansion_needs_a_rare_token() {
    // twenty pages, one of which holds "directories"
    let mut pages: Vec<(String, String)> = (0..19)
        .map(|i| (format!("page{i}.7"), format!("NAME\n    page{i} - filler text number{i}\n")))
        .collect();
    pages.push(("cp.1".to_string(), CP.to_string()));
    let refs: Vec<(&str, &str)> = pages.iter().map(|(f, c)| (f.as_str(), c.as_str())).collect();
    let index = build(&refs);
    // "direct" is a proper prefix of the term "directori"
    let results = search("direct", &index);
    assert_eq!(results.len(), 1);
    assert_eq!(results[0].0, "cp.1");
    let posting = f32::from_bits(index.get_postings("directori").unwrap()[0].score);
    assert_eq!(results[0].2, posting * 0.6f32.powf(4.0));
}

#[test]
fn a_document_that_matches_every_token_ranks_first() {
    let both = "NAME\n    alpha - compress archive files\n";
    let one = "NAME\n    beta - compress compress compress streams\n";
    let index = build(&[("beta.1", one), ("alpha.1", both)]);
    let results = search("compress archive", &index);
    assert_eq!(results.len(), 2);
    assert_eq!(results[0].0, "alpha.1");
    assert_eq!(results[1].0, "beta.1");
}

#[test]
fn semantic_score_is_one_for_the_description_itself() {
    let stemmer = make_stemmer();
    let desc = "list directory contents";
    let query = unique_tokens(&tokenize("contents directory list", &stemmer));
    let idfs = [0.3f32, 1.7, 0.9];
    let o = desc_overlap(&query, desc, &stemmer);
    assert_eq!(semantic(&idfs, desc, &o), 1.0);
    // one token of three, and a description of three tokens
    let query = unique_tokens(&tokenize("list", &stemmer));
    let o = desc_overlap(&query, desc, &stemmer);
    let s = semantic(&[0.5], desc, &o);
    assert_eq!(s, 0.25);
    // nothing shared
    let query = unique_tokens(&tokenize("copy", &stemmer));
    let o = desc_overlap(&query, desc, &stemmer);
    assert_eq!(semantic(&[0.5], desc, &o), 0.0);
    // a token at or above the median is missing
    let query = unique_tokens(&tokenize("list copy", &stemmer));
    let o = desc_overlap(&query, desc, &stemmer);
    assert_eq!(semantic(&[0.5, 0.9], desc, &o), 0.0);
}

#[test]
fn term_score_grows_with_term_frequency_and_falls_with_document_frequency() {
    let pages = [("ls.1", LS), ("cp.1", CP)];
    let pages: Vec<Page> = pages
        .iter()
        .map(|(f, c)| Page { fname: f.to_string(), content: c.to_string() })
        .collect();
    let mut records = Vec::new();
    let stats = crawl(&pages, &mut records);
    let docs = read_records(&records, stats.total_docs).ok().unwrap();
    let base = score_inputs(&docs[1], "file", &stats);
    let mut last = 0.0f32;
    for tf in 1..50u32 {
        let s = term_score(&ScoreInputs { body_tf: tf, total_docs: 100, ..base }, (3.0, 1.0, 3.0));
        assert!(s >= last);
        last = s;
    }
    let mut last = f32::INFINITY;
    for df in 1..=100u32 {
        let s = term_score(&ScoreInputs { df, total_docs: 100, ..base }, (3.0, 1.0, 3.0));
        assert!(s <= last);
        assert!(s >= 0.0);
        last = s;
    }
}
