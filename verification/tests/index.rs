use man_search::builder::{build_index, read_records, score_inputs, ScoreInputs};
use man_search::crawl::{crawl, read_record, write_record, CrawlStats, Page};
use man_search::doc::{doc_terms, parse_doc, DocMultiplier};
use man_search::index::{load_index, save_index, Index, LoadError, MmapIndex, Posting};
use man_search::io_util::{write_str, write_u32, write_u64, ByteReader};
use man_search::rank::{insert_sorted, sort_postings};
use man_search::strmap::StrMap;
use man_search::text::make_stemmer;

fn map_of(bytes: &[u8]) -> memmap2::Mmap {
    let mut m = memmap2::MmapMut::map_anon(bytes.len().max(1)).unwrap();
    m[..bytes.len()].copy_from_slice(bytes);
    m.make_read_only().unwrap()
}

fn load(bytes: &[u8]) -> Result<MmapIndex, LoadError> {
    assert!(!bytes.is_empty());
    load_index(map_of(bytes))
}

fn page(fname: &str, content: &str) -> Page {
    Page { fname: fname.to_string(), content: content.to_string() }
}

fn p(doc_id: u32, score: u32) -> Posting {
    Posting { doc_id, score }
}

fn small_index() -> Index {
    let mut inverted: StrMap<Vec<Posting>> = StrMap::new();
    inverted.push_item("list", p(0, 0x4000_0000));
    inverted.push_item("list", p(1, 0x3f80_0000));
    inverted.push_item("copi", p(1, 0x4100_0000));
    let mut cmd_name_index: StrMap<Vec<u32>> = StrMap::new();
    cmd_name_index.push_item("ls", 0);
    cmd_name_index.push_item("cp", 1);
    let mut desc_index: StrMap<Vec<u32>> = StrMap::new();
    desc_index.push_item("list", 0);
    desc_index.push_item("copi", 1);
    Index {
        doc_map: vec!["ls.1".to_string(), "cp.1".to_string()],
        cmd_names: vec!["ls".to_string(), "cp".to_string()],
        name_descs: vec!["list directory contents".to_string(), "copy files".to_string()],
        inverted,
        cmd_name_index,
        desc_index,
    }
}

#[test]
fn save_index_lays_out_documents_postings_dictionary_footer() {
    let bytes = save_index(&small_index());
    let mut expected = Vec::new();
    write_u32(&mut expected, 2);
    for s in ["ls.1", "ls", "list directory contents", "cp.1", "cp", "copy files"] {
        write_str(&mut expected, s);
    }
    let list_at = expected.len() as u64;
    for v in [0u32, 0x4000_0000, 1, 0x3f80_0000] {
        write_u32(&mut expected, v);
    }
    let copi_at = expected.len() as u64;
    for v in [1u32, 0x4100_0000] {
        write_u32(&mut expected, v);
    }
    let dict_at = expected.len() as u64;
    write_u32(&mut expected, 2);
    write_str(&mut expected, "list");
    write_u64(&mut expected, list_at);
    write_u32(&mut expected, 2);
    write_str(&mut expected, "copi");
    write_u64(&mut expected, copi_at);
    write_u32(&mut expected, 1);
    write_u64(&mut expected, dict_at);
    assert_eq!(bytes, expected);
}

#[test]
fn load_after_save_gives_the_index_back() {
    let index = small_index();
    let bytes = save_index(&index);
    let loaded = load(&bytes).ok().unwrap();
    assert_eq!(loaded.doc_map, index.doc_map);
    assert_eq!(loaded.cmd_names, index.cmd_names);
    assert_eq!(loaded.name_descs, index.name_descs);
    assert_eq!(loaded.inverted_dict.len(), 2);
    for i in 0..index.inverted.len() {
        let word = index.inverted.key(i);
        assert_eq!(loaded.get_postings(word).as_ref(), Some(index.inverted.value(i)));
        assert_eq!(&loaded.postings_of_entry(i), index.inverted.value(i));
        assert_eq!(loaded.inverted_dict.value(i).1 as usize, index.inverted.value(i).len());
    }
    assert_eq!(loaded.get_postings("absent"), None);
    assert_eq!(loaded.cmd_name_index.get("ls"), Some(&vec![0]));
    assert_eq!(loaded.cmd_name_index.get("cp"), Some(&vec![1]));
    // rebuilt from the descriptions
    assert_eq!(loaded.desc_index.get("list"), Some(&vec![0]));
    assert_eq!(loaded.desc_index.get("directori"), Some(&vec![0]));
    assert_eq!(loaded.desc_index.get("content"), Some(&vec![0]));
    assert_eq!(loaded.desc_index.get("copi"), Some(&vec![1]));
    assert_eq!(loaded.desc_index.get("file"), Some(&vec![1]));
    assert_eq!(loaded.desc_index.len(), 5);
}

#[test]
fn load_of_an_empty_index() {
    let index = Index {
        doc_map: Vec::new(),
        cmd_names: Vec::new(),
        name_descs: Vec::new(),
        inverted: StrMap::new(),
        cmd_name_index: StrMap::new(),
        desc_index: StrMap::new(),
    };
    let bytes = save_index(&index);
    assert_eq!(bytes, vec![0, 0, 0, 0, 0, 0, 0, 0, 4, 0, 0, 0, 0, 0, 0, 0]);
    let loaded = load(&bytes).ok().unwrap();
    assert!(loaded.doc_map.is_empty());
    assert_eq!(loaded.inverted_dict.len(), 0);
}

#[test]
fn load_refuses_a_file_below_eight_bytes() {
    assert!(matches!(load(&[1, 2, 3, 4, 5, 6, 7]), Err(LoadError::TooSmall)));
    assert!(matches!(load(&[0]), Err(LoadError::TooSmall)));
}

#[test]
fn load_refuses_a_footer_that_points_too_far() {
    let mut bytes = save_index(&small_index());
    let n = bytes.len();
    let footer = (n as u64 - 7).to_le_bytes();
    bytes[n - 8..].copy_from_slice(&footer);
    assert!(matches!(load(&bytes), Err(LoadError::BadFooter)));
    let footer = u64::MAX.to_le_bytes();
    bytes[n - 8..].copy_from_slice(&footer);
    assert!(matches!(load(&bytes), Err(LoadError::BadFooter)));
}

#[test]
fn load_refuses_truncated_documents_and_dictionary() {
    // the footer alone: no room for the document count
    assert!(matches!(load(&[0, 0, 0, 0, 0, 0, 0, 0]), Err(LoadError::Truncated)));
    // a document count that the bytes do not bear out
    let mut bytes = Vec::new();
    write_u32(&mut bytes, 3);
    write_str(&mut bytes, "ls.1");
    let at = bytes.len() as u64;
    write_u32(&mut bytes, 0);
    write_u64(&mut bytes, at);
    assert!(matches!(load(&bytes), Err(LoadError::Truncated)));
    // a dictionary count that the bytes do not bear out
    let mut bytes = Vec::new();
    write_u32(&mut bytes, 0);
    let at = bytes.len() as u64;
    write_u32(&mut bytes, 1);
    write_str(&mut bytes, "list");
    write_u64(&mut bytes, at);
    assert!(matches!(load(&bytes), Err(LoadError::Truncated)));
}

fn file_with_entry(offset: u64, count: u32, doc_id: u32) -> Vec<u8> {
    let mut bytes = Vec::new();
    write_u32(&mut bytes, 1);
    write_str(&mut bytes, "ls.1");
    write_str(&mut bytes, "ls");
    write_str(&mut bytes, "list");
    write_u32(&mut bytes, doc_id);
    write_u32(&mut bytes, 0x3f80_0000);
    let at = bytes.len() as u64;
    write_u32(&mut bytes, 1);
    write_str(&mut bytes, "list");
    write_u64(&mut bytes, offset);
    write_u32(&mut bytes, count);
    write_u64(&mut bytes, at);
    bytes
}

#[test]
fn load_refuses_postings_out_of_range() {
    // 4 + 8 + 6 + 8 = 26 bytes stand before the posting
    assert!(load(&file_with_entry(26, 1, 0)).is_ok());
    assert!(matches!(load(&file_with_entry(26, 1, 1)), Err(LoadError::BadPosting)));
    assert!(matches!(load(&file_with_entry(26, 1000, 0)), Err(LoadError::BadPosting)));
    assert!(matches!(load(&file_with_entry(1 << 40, 1, 0)), Err(LoadError::BadPosting)));
    assert!(matches!(load(&file_with_entry(u64::MAX, u32::MAX, 0)), Err(LoadError::BadPosting)));
    assert!(load(&file_with_entry(26, 0, 0)).is_ok());
}

#[test]
fn sort_postings_orders_by_score_and_keeps_ties() {
    let v = vec![p(0, 5), p(1, 9), p(2, 5), p(3, 1), p(4, 9)];
    assert_eq!(sort_postings(&v), vec![p(1, 9), p(4, 9), p(0, 5), p(2, 5), p(3, 1)]);
    assert_eq!(sort_postings(&Vec::new()), Vec::new());
    let mut sorted = vec![p(1, 9), p(0, 5)];
    insert_sorted(&mut sorted, p(7, 9));
    insert_sorted(&mut sorted, p(8, 10));
    insert_sorted(&mut sorted, p(9, 0));
    assert_eq!(sorted, vec![p(8, 10), p(1, 9), p(7, 9), p(0, 5), p(9, 0)]);
}

const LS: &str = "NAME\n    ls - list directory contents\nSYNOPSIS\n    ls [OPTION]\nDESCRIPTION\n    List information about files\n";
const CP: &str = "NAME\n    cp - copy files and directories\nDESCRIPTION\n    Copy SOURCE to DEST\n";

#[test]
fn record_round_trip() {
    let stemmer = make_stemmer();
    let doc = parse_doc(LS, "ls.1", &stemmer).unwrap();
    let mut bytes = Vec::new();
    write_record(&mut bytes, &doc);
    let mut r = ByteReader::new(&bytes);
    let back = read_record(&mut r).ok().unwrap();
    assert_eq!(r.position(), bytes.len());
    assert_eq!(back.fname, doc.fname);
    assert_eq!(back.cmd_name, doc.cmd_name);
    assert_eq!(back.name_desc_raw, doc.name_desc_raw);
    assert_eq!(back.name_desc_len, doc.name_desc_len);
    assert_eq!(back.synopsis_len, doc.synopsis_len);
    assert_eq!(back.body_len, doc.body_len);
    assert_eq!(doc_terms(&back), doc_terms(&doc));
    assert_eq!(back.body_tf.get("file"), Some(&1));
    let mut again = Vec::new();
    write_record(&mut again, &back);
    assert_eq!(again, bytes);
    let mut r = ByteReader::new(&bytes[..bytes.len() - 1]);
    assert!(read_record(&mut r).is_err());
}

#[test]
fn record_layout_is_fixed() {
    let stemmer = make_stemmer();
    let doc = parse_doc("NAME\n  foo - bar baz\n", "foo.1", &stemmer).unwrap();
    let mut bytes = Vec::new();
    write_record(&mut bytes, &doc);
    let mut expected = Vec::new();
    write_str(&mut expected, "foo.1");
    write_str(&mut expected, "foo");
    write_u32(&mut expected, 2);
    write_u32(&mut expected, 0);
    write_u32(&mut expected, 0);
    write_u32(&mut expected, 2);
    write_str(&mut expected, "bar");
    write_u32(&mut expected, 1);
    write_str(&mut expected, "baz");
    write_u32(&mut expected, 1);
    write_u32(&mut expected, 0);
    write_u32(&mut expected, 0);
    write_str(&mut expected, "bar baz");
    assert_eq!(bytes, expected);
}

#[test]
fn crawl_counts_each_term_once_per_document() {
    let pages = vec![page("ls.1", LS), page("empty.1", "\n\n"), page("cp.1", CP)];
    let mut records = Vec::new();
    let stats = crawl(&pages, &mut records);
    assert_eq!(stats.total_docs, 2);
    assert_eq!(stats.sum_desc_len, 6);
    assert_eq!(stats.sum_synopsis_len, 1);
    assert_eq!(stats.sum_body_len, 3 + 3);
    // "list" stands in the description and in the body of ls.1
    assert_eq!(stats.global_df.get("list"), Some(&1));
    assert_eq!(stats.global_df.get("file"), Some(&2));
    assert_eq!(stats.global_df.get("directori"), Some(&2));
    assert_eq!(stats.global_df.get("ls"), Some(&1));
    assert_eq!(stats.global_df.get("cp"), Some(&1));
    assert_eq!(stats.global_df.get("copi"), Some(&1));
    let docs = read_records(&records, stats.total_docs).ok().unwrap();
    assert_eq!(docs.len(), 2);
    assert_eq!(docs[0].fname, "ls.1");
    assert_eq!(docs[1].fname, "cp.1");
    assert!(read_records(&records, 3).is_err());
    assert!(read_records(&records[..records.len() - 2], 2).is_err());
}

#[test]
fn crawl_stats_record_by_record() {
    let stemmer = make_stemmer();
    let mut stats = CrawlStats::new();
    assert_eq!(stats.total_docs, 0);
    let doc = parse_doc(CP, "cp.1", &stemmer).unwrap();
    stats.record(&doc);
    stats.record(&doc);
    assert_eq!(stats.total_docs, 2);
    assert_eq!(stats.global_df.get("copi"), Some(&2));
    assert_eq!(stats.sum_desc_len, 6);
}

#[test]
fn score_inputs_are_read_off_the_document() {
    let pages = vec![page("ls.1", LS), page("cp.1", CP)];
    let mut records = Vec::new();
    let stats = crawl(&pages, &mut records);
    let docs = read_records(&records, stats.total_docs).ok().unwrap();
    let got = score_inputs(&docs[0], "list", &stats);
    let expected = ScoreInputs {
        total_docs: 2,
        df: 1,
        is_cmd_name: false,
        desc_tf: 1,
        desc_len: 3,
        synopsis_tf: 0,
        synopsis_len: 1,
        body_tf: 1,
        body_len: 3,
        multiplier: DocMultiplier { section_tenths: 40, vip_factor: 5 },
    };
    assert_eq!(got, expected);
    let got = score_inputs(&docs[1], "cp", &stats);
    assert!(got.is_cmd_name);
    assert_eq!(got.desc_tf, 0);
    assert_eq!(got.df, 1);
    let got = score_inputs(&docs[1], "unheard", &stats);
    assert_eq!(got.df, 1);
    assert!(!got.is_cmd_name);
    let got = score_inputs(&docs[1], "file", &stats);
    assert_eq!(got.df, 2);
}

#[test]
fn build_index_lists_positive_scores_best_first() {
    let pages = vec![page("ls.1", LS), page("cp.1", CP)];
    let mut records = Vec::new();
    let stats = crawl(&pages, &mut records);
    let docs = read_records(&records, stats.total_docs).ok().unwrap();
    // score every term of ls.1 with 1.0 and every term of cp.1 with 2.0,
    // but "copi" with zero and "dest" with a NaN
    let scores: Vec<Vec<u32>> = docs
        .iter()
        .enumerate()
        .map(|(d, doc)| {
            doc_terms(doc)
                .iter()
                .map(|t| match t.as_str() {
                    "copi" => 0,
                    "dest" => 0x7fc0_0000,
                    "sourc" => 0x8000_0001,
                    _ => {
                        if d == 0 {
                            0x3f80_0000
                        } else {
                            0x4000_0000
                        }
                    }
                })
                .collect()
        })
        .collect();
    let index = build_index(&docs, &scores);
    assert_eq!(index.doc_map, vec!["ls.1", "cp.1"]);
    assert_eq!(index.cmd_names, vec!["ls", "cp"]);
    assert_eq!(index.name_descs, vec!["list directory contents", "copy files and directories"]);
    assert_eq!(index.inverted.get("list"), Some(&vec![p(0, 0x3f80_0000)]));
    assert_eq!(
        index.inverted.get("file"),
        Some(&vec![p(1, 0x4000_0000), p(0, 0x3f80_0000)])
    );
    assert_eq!(
        index.inverted.get("directori"),
        Some(&vec![p(1, 0x4000_0000), p(0, 0x3f80_0000)])
    );
    assert_eq!(index.inverted.get("copi"), None);
    assert_eq!(index.inverted.get("dest"), None);
    assert_eq!(index.inverted.get("sourc"), None);
    assert_eq!(index.cmd_name_index.get("ls"), Some(&vec![0]));
    assert_eq!(index.cmd_name_index.get("cp"), Some(&vec![1]));
    assert_eq!(index.desc_index.get("directori"), Some(&vec![0, 1]));
    assert_eq!(index.desc_index.get("copi"), Some(&vec![1]));
    assert_eq!(index.desc_index.get("inform"), None);
}

#[test]
fn sort_postings_is_a_stable_sort() {
    let mut state: u32 = 12345;
    for n in [0usize, 1, 2, 7, 8, 9, 16, 17, 100, 1000] {
        let v: Vec<Posting> = (0..n as u32)
            .map(|d| {
                state = state.wrapping_mul(1_103_515_245).wrapping_add(12_345);
                p(d, (state >> 16) % 10)
            })
            .collect();
        let mut expected = v.clone();
        expected.sort_by(|a, b| b.score.cmp(&a.score));
        assert_eq!(sort_postings(&v), expected);
    }
}
