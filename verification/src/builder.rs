//! The second pass: the records of the first pass are read back, the host
//! scores each term of each document, and the index is put together.
//!
//! Scoring is arithmetic on real numbers and is the host's part. The
//! library says which numbers each score is computed from, and takes the
//! scores back as bit patterns.

use crate::crawl::{parse_record, read_record, CrawlStats};
use crate::doc::{
    doc_multiplier, doc_terms, doc_terms_of, doc_type_multiplier, DocFields, DocModel,
    DocMultiplier,
};
use crate::index::{
    add_tokens, cmd_index_of, lemma_append_keeps_postings_ok, positive_score, postings_ok,
    Index, Posting,
};
use crate::io_util::{ByteReader, ReadError};
use crate::rank::{lemma_sort_desc, lemma_sort_desc_elements, sort_desc, sort_postings, sorted_desc};
use crate::strmap::{
    append_item, distinct_keys, items, keys, lemma_append_item, lists, lookup, StrMap,
};
use crate::unicode::{str_eq, views};
use vstd::prelude::*;

verus! {

/// The whole numbers from which the score of one term in one document is
/// computed.
#[derive(Clone, Copy, Debug, PartialEq, Eq, Structural)]
pub struct ScoreInputs {
    /// Number of documents in the corpus.
    pub total_docs: u32,
    /// Number of documents that hold the term; one where it was never
    /// counted.
    pub df: u32,
    /// Whether the term is the document's command name.
    pub is_cmd_name: bool,
    pub desc_tf: u32,
    pub desc_len: u32,
    pub synopsis_tf: u32,
    pub synopsis_len: u32,
    pub body_tf: u32,
    pub body_len: u32,
    pub multiplier: DocMultiplier,
}

/// The count of `term` in a field, as stored.
pub open spec fn stored_count(tf: Seq<(Seq<char>, u32)>, term: Seq<char>) -> u32 {
    match lookup(tf, term) {
        Some(c) => c,
        None => 0,
    }
}

/// The numbers that the score of `term` in `doc` is computed from.
pub open spec fn score_inputs_of(doc: &DocFields, term: Seq<char>, stats: &CrawlStats) -> ScoreInputs {
    ScoreInputs {
        total_docs: stats.total_docs,
        df: match lookup(stats.global_df@, term) {
            Some(df) => df,
            None => 1,
        },
        is_cmd_name: term == doc.cmd_name@ && doc.cmd_name@.len() > 0,
        desc_tf: stored_count(doc.name_desc_tf@, term),
        desc_len: doc.name_desc_len,
        synopsis_tf: stored_count(doc.synopsis_tf@, term),
        synopsis_len: doc.synopsis_len,
        body_tf: stored_count(doc.body_tf@, term),
        body_len: doc.body_len,
        multiplier: doc_multiplier(doc.fname@),
    }
}

/// The count of `term` in a field, zero where the field does not have it.
fn term_count(tf: &StrMap<u32>, term: &str) -> (c: u32)
    ensures
        c == stored_count(tf@, term@),
{
    match tf.get(term) {
        Some(c) => *c,
        None => 0,
    }
}

/// The numbers that the score of `term` in `doc` is computed from.
pub fn score_inputs(doc: &DocFields, term: &str, stats: &CrawlStats) -> (s: ScoreInputs)
    ensures
        s == score_inputs_of(doc, term@, stats),
{
    let df = match stats.global_df.get(term) {
        Some(df) => *df,
        None => 1,
    };
    ScoreInputs {
        total_docs: stats.total_docs,
        df,
        is_cmd_name: str_eq(term, doc.cmd_name.as_str()) && !doc.cmd_name.as_str().is_empty(),
        desc_tf: term_count(&doc.name_desc_tf, term),
        desc_len: doc.name_desc_len,
        synopsis_tf: term_count(&doc.synopsis_tf, term),
        synopsis_len: doc.synopsis_len,
        body_tf: term_count(&doc.body_tf, term),
        body_len: doc.body_len,
        multiplier: doc_type_multiplier(doc.fname.as_str()),
    }
}

/// Reading `n` more records into `acc`.
pub open spec fn parse_records(data: Seq<u8>, pos: int, n: nat, acc: Seq<DocModel>) -> Option<
    Seq<DocModel>,
>
    decreases n,
{
    if n == 0 {
        Some(acc)
    } else {
        match parse_record(data, pos) {
            Some((d, next)) => parse_records(data, next, (n - 1) as nat, acc.push(d)),
            None => None,
        }
    }
}

/// The documents as plain values.
pub open spec fn models(docs: Seq<DocFields>) -> Seq<DocModel> {
    Seq::new(docs.len(), |i: int| docs[i]@)
}

/// Reads the `total_docs` records that the first pass wrote, in their
/// order. Fails where the bytes end before the last record does.
pub fn read_records(data: &[u8], total_docs: u32) -> (res: Result<Vec<DocFields>, ReadError>)
    ensures
        match res {
            Ok(docs) => parse_records(data@, 0, total_docs as nat, Seq::empty()) == Some(
                models(docs@),
            ) && docs@.len() == total_docs,
            Err(e) => parse_records(data@, 0, total_docs as nat, Seq::empty()).is_none(),
        },
{
    let mut r = ByteReader::new(data);
    let mut docs: Vec<DocFields> = Vec::new();
    let mut i: u32 = 0;
    assert(models(docs@) =~= Seq::empty());
    while i < total_docs
        invariant
            i <= total_docs,
            docs@.len() == i,
            r.bytes() == data@,
            parse_records(data@, 0, total_docs as nat, Seq::empty()) == parse_records(
                data@,
                r.at(),
                (total_docs - i) as nat,
                models(docs@),
            ),
        decreases total_docs - i,
    {
        let ghost before = models(docs@);
        match read_record(&mut r) {
            Ok(doc) => {
                docs.push(doc);
                assert(models(docs@) =~= before.push(doc@));
            },
            Err(e) => {
                return Err(e);
            },
        }
        i += 1;
    }
    Ok(docs)
}

/// `m` after document `doc` was appended, with its score, to the list of
/// each of the first `n` terms whose score is positive.
pub open spec fn with_postings(
    m: Seq<(Seq<char>, Seq<Posting>)>,
    terms: Seq<Seq<char>>,
    scores: Seq<u32>,
    n: int,
    doc: u32,
) -> Seq<(Seq<char>, Seq<Posting>)>
    decreases n,
{
    if n <= 0 {
        m
    } else {
        let before = with_postings(m, terms, scores, n - 1, doc);
        if positive_score(scores[n - 1]) {
            append_item(before, terms[n - 1], Posting { doc_id: doc, score: scores[n - 1] })
        } else {
            before
        }
    }
}

/// The posting lists of the first `n` documents, each in the order of the
/// documents.
pub open spec fn raw_inverted(docs: Seq<DocFields>, scores: Seq<Vec<u32>>, n: int) -> Seq<
    (Seq<char>, Seq<Posting>),
>
    decreases n,
{
    if n <= 0 {
        Seq::empty()
    } else {
        let terms = doc_terms_of(docs[n - 1]@);
        with_postings(
            raw_inverted(docs, scores, n - 1),
            terms,
            scores[n - 1]@,
            terms.len() as int,
            (n - 1) as u32,
        )
    }
}

/// Each list ordered by descending score.
pub open spec fn sorted_lists(m: Seq<(Seq<char>, Seq<Posting>)>) -> Seq<(Seq<char>, Seq<Posting>)> {
    Seq::new(m.len(), |i: int| (m[i].0, sort_desc(m[i].1)))
}

/// The description index of the first `n` documents as the builder makes
/// it: each document once under each term of its description.
pub open spec fn desc_index_built(docs: Seq<DocFields>, n: int) -> Seq<(Seq<char>, Seq<u32>)>
    decreases n,
{
    if n <= 0 {
        Seq::empty()
    } else {
        let terms = keys(docs[n - 1].name_desc_tf@);
        add_tokens(desc_index_built(docs, n - 1), terms, terms.len() as int, (n - 1) as u32)
    }
}

/// The file names of the documents.
pub open spec fn fnames_of(docs: Seq<DocFields>) -> Seq<Seq<char>> {
    Seq::new(docs.len(), |i: int| docs[i].fname@)
}

/// The command names of the documents.
pub open spec fn cmd_names_of(docs: Seq<DocFields>) -> Seq<Seq<char>> {
    Seq::new(docs.len(), |i: int| docs[i].cmd_name@)
}

/// The descriptions of the documents.
pub open spec fn descs_of(docs: Seq<DocFields>) -> Seq<Seq<char>> {
    Seq::new(docs.len(), |i: int| docs[i].name_desc_raw@)
}

/// All lists ordered.
pub open spec fn all_sorted(m: Seq<(Seq<char>, Seq<Posting>)>) -> bool {
    forall|i: int| 0 <= i < m.len() ==> sorted_desc((#[trigger] m[i]).1)
}

/// Sorting the lists keeps every posting sound.
pub proof fn lemma_sorted_lists_ok(m: Seq<(Seq<char>, Seq<Posting>)>, n: int)
    requires
        postings_ok(m, n),
    ensures
        postings_ok(sorted_lists(m), n),
        all_sorted(sorted_lists(m)),
{
    let s = sorted_lists(m);
    assert forall|i: int, k: int| 0 <= i < s.len() && 0 <= k < s[i].1.len() implies (
    #[trigger] s[i].1[k]).doc_id < n && positive_score(s[i].1[k].score) by {
        lemma_sort_desc_elements(m[i].1);
        let x = s[i].1[k];
        assert(s[i].1 == sort_desc(m[i].1));
        assert(sort_desc(m[i].1).contains(x));
        assert(m[i].1.contains(x));
        let j = choose|j: int| 0 <= j < m[i].1.len() && m[i].1[j] == x;
        assert(m[i].1[j].doc_id < n);
    }
    assert forall|i: int| 0 <= i < s.len() implies sorted_desc((#[trigger] s[i]).1) by {
        lemma_sort_desc(m[i].1);
    }
}

/// Puts the index together from the documents and the scores that the host
/// computed: `scores[d][k]` is the bit pattern of the score of the `k`-th
/// term of document `d`, in the order of `doc_terms`. A term is listed for
/// a document exactly where that score is positive; each list comes out
/// best first, documents of equal score in their order.
pub fn build_index(docs: &Vec<DocFields>, scores: &Vec<Vec<u32>>) -> (index: Index)
    requires
        docs@.len() <= u32::MAX,
        scores@.len() == docs@.len(),
        forall|d: int|
            0 <= d < docs@.len() ==> (#[trigger] scores@[d])@.len() == doc_terms_of(docs@[d]@).len(),
    ensures
        index.wf(),
        views(index.doc_map@) == fnames_of(docs@),
        views(index.cmd_names@) == cmd_names_of(docs@),
        views(index.name_descs@) == descs_of(docs@),
        lists(index.inverted@) == sorted_lists(raw_inverted(docs@, scores@, docs@.len() as int)),
        lists(index.cmd_name_index@) == cmd_index_of(cmd_names_of(docs@), docs@.len() as int),
        lists(index.desc_index@) == desc_index_built(docs@, docs@.len() as int),
{
    let n = docs.len();
    let mut doc_map: Vec<String> = Vec::with_capacity(n);
    let mut cmd_names: Vec<String> = Vec::with_capacity(n);
    let mut name_descs: Vec<String> = Vec::with_capacity(n);
    let mut inverted: StrMap<Vec<Posting>> = StrMap::new();
    let mut cmd_name_index: StrMap<Vec<u32>> = StrMap::new();
    let mut desc_index: StrMap<Vec<u32>> = StrMap::new();
    proof {
        assert(lists(inverted@) =~= raw_inverted(docs@, scores@, 0));
        assert(lists(cmd_name_index@) =~= cmd_index_of(cmd_names_of(docs@), 0));
        assert(lists(desc_index@) =~= desc_index_built(docs@, 0));
        assert(views(doc_map@) =~= fnames_of(docs@).take(0));
        assert(views(cmd_names@) =~= cmd_names_of(docs@).take(0));
        assert(views(name_descs@) =~= descs_of(docs@).take(0));
    }
    let mut d: usize = 0;
    while d < n
        invariant
            d <= n,
            n == docs@.len(),
            n <= u32::MAX,
            scores@.len() == docs@.len(),
            forall|j: int|
                0 <= j < docs@.len() ==> (#[trigger] scores@[j])@.len() == doc_terms_of(
                    docs@[j]@,
                ).len(),
            views(doc_map@) == fnames_of(docs@).take(d as int),
            views(cmd_names@) == cmd_names_of(docs@).take(d as int),
            views(name_descs@) == descs_of(docs@).take(d as int),
            lists(inverted@) == raw_inverted(docs@, scores@, d as int),
            postings_ok(lists(inverted@), n as int),
            lists(cmd_name_index@) == cmd_index_of(cmd_names_of(docs@), d as int),
            lists(desc_index@) == desc_index_built(docs@, d as int),
        decreases n - d,
    {
        let doc = &docs[d];
        let doc_id = d as u32;
        let ghost names_before = views(doc_map@);
        let ghost cmds_before = views(cmd_names@);
        let ghost descs_before = views(name_descs@);
        doc_map.push(doc.fname.clone());
        cmd_names.push(doc.cmd_name.clone());
        name_descs.push(doc.name_desc_raw.clone());
        proof {
            assert(views(doc_map@) =~= names_before.push(doc.fname@));
            assert(views(cmd_names@) =~= cmds_before.push(doc.cmd_name@));
            assert(views(name_descs@) =~= descs_before.push(doc.name_desc_raw@));
            assert(views(doc_map@) =~= fnames_of(docs@).take(d + 1));
            assert(views(cmd_names@) =~= cmd_names_of(docs@).take(d + 1));
            assert(views(name_descs@) =~= descs_of(docs@).take(d + 1));
        }
        if !doc.cmd_name.as_str().is_empty() {
            cmd_name_index.push_item(doc.cmd_name.as_str(), doc_id);
        }
        let desc_terms = &doc.name_desc_tf;
        let ghost desc_start = lists(desc_index@);
        let mut t: usize = 0;
        while t < desc_terms.len()
            invariant
                t <= desc_terms@.len(),
                lists(desc_index@) == add_tokens(
                    desc_start,
                    keys(desc_terms@),
                    t as int,
                    doc_id,
                ),
            decreases desc_terms@.len() - t,
        {
            desc_index.push_item(desc_terms.key(t).as_str(), doc_id);
            t += 1;
        }
        let terms = doc_terms(doc);
        let doc_scores = &scores[d];
        assert(doc_scores@.len() == terms@.len()) by {
            assert(views(terms@).len() == terms@.len());
        }
        let ghost inv_start = lists(inverted@);
        let mut k: usize = 0;
        while k < terms.len()
            invariant
                k <= terms@.len(),
                doc_scores@.len() == terms@.len(),
                doc_id < n,
                lists(inverted@) == with_postings(
                    inv_start,
                    views(terms@),
                    doc_scores@,
                    k as int,
                    doc_id,
                ),
                postings_ok(lists(inverted@), n as int),
            decreases terms@.len() - k,
        {
            let s = doc_scores[k];
            if 0 < s && s <= 0x7f80_0000 {
                let p = Posting { doc_id, score: s };
                proof {
                    lemma_append_keeps_postings_ok(
                        lists(inverted@),
                        terms@[k as int]@,
                        p,
                        n as int,
                    );
                }
                inverted.push_item(terms[k].as_str(), p);
            }
            k += 1;
        }
        d += 1;
    }
    let ghost raw = lists(inverted@);
    let mut i: usize = 0;
    while i < inverted.len()
        invariant
            i <= inverted@.len(),
            inverted@.len() == raw.len(),
            forall|j: int|
                0 <= j < raw.len() ==> (#[trigger] lists(inverted@)[j]) == (if j < i {
                    (raw[j].0, sort_desc(raw[j].1))
                } else {
                    raw[j]
                }),
        decreases inverted@.len() - i,
    {
        let sorted = sort_postings(inverted.value(i));
        let ghost before = lists(inverted@);
        inverted.set(i, sorted);
        proof {
            assert forall|j: int| 0 <= j < raw.len() implies (#[trigger] lists(inverted@)[j]) == (
            if j < i + 1 {
                (raw[j].0, sort_desc(raw[j].1))
            } else {
                raw[j]
            }) by {
                assert(before[j] == if j < i {
                    (raw[j].0, sort_desc(raw[j].1))
                } else {
                    raw[j]
                });
            }
        }
        i += 1;
    }
    proof {
        assert(lists(inverted@) =~= sorted_lists(raw));
        lemma_sorted_lists_ok(raw, n as int);
        assert(fnames_of(docs@).take(n as int) =~= fnames_of(docs@));
        assert(cmd_names_of(docs@).take(n as int) =~= cmd_names_of(docs@));
        assert(descs_of(docs@).take(n as int) =~= descs_of(docs@));
    }
    Index { doc_map, cmd_names, name_descs, inverted, cmd_name_index, desc_index }
}

/// Among the first `n` terms of a document, `term` is one whose score is
/// the positive score `score`.
pub open spec fn scored(terms: Seq<Seq<char>>, scores: Seq<u32>, n: int, term: Seq<char>, score: u32) -> bool {
    exists|k: int| 0 <= k < n && #[trigger] terms[k] == term && scores[k] == score
        && positive_score(score)
}

/// Listing the postings of one document adds, under each term, exactly the
/// postings of the terms that score positive.
pub proof fn lemma_with_postings(
    m: Seq<(Seq<char>, Seq<Posting>)>,
    terms: Seq<Seq<char>>,
    scores: Seq<u32>,
    n: int,
    doc: u32,
    term: Seq<char>,
    p: Posting,
)
    requires
        distinct_keys(m),
        0 <= n <= terms.len(),
    ensures
        distinct_keys(with_postings(m, terms, scores, n, doc)),
        items(with_postings(m, terms, scores, n, doc), term).contains(p) <==> (items(
            m,
            term,
        ).contains(p) || (p.doc_id == doc && scored(terms, scores, n, term, p.score))),
    decreases n,
{
    if n > 0 {
        lemma_with_postings(m, terms, scores, n - 1, doc, term, p);
        let before = with_postings(m, terms, scores, n - 1, doc);
        let now = with_postings(m, terms, scores, n, doc);
        let added = Posting { doc_id: doc, score: scores[n - 1] };
        if positive_score(scores[n - 1]) {
            lemma_append_item(before, terms[n - 1], added);
            if terms[n - 1] == term {
                let old = items(before, term);
                assert(items(now, term) == old.push(added));
                if items(now, term).contains(p) {
                    let j = choose|j: int| 0 <= j < old.push(added).len() && old.push(added)[j] == p;
                    if j < old.len() {
                        assert(old[j] == p);
                    } else {
                        assert(p == added);
                        assert(terms[n - 1] == term && scores[n - 1] == p.score);
                    }
                }
                if old.contains(p) {
                    let j = choose|j: int| 0 <= j < old.len() && old[j] == p;
                    assert(old.push(added)[j] == p);
                }
                if p == added {
                    assert(old.push(added)[old.len() as int] == p);
                }
            }
        }
        if p.doc_id == doc && scored(terms, scores, n, term, p.score) {
            let k = choose|k: int|
                0 <= k < n && #[trigger] terms[k] == term && scores[k] == p.score
                    && positive_score(p.score);
            if k < n - 1 {
                assert(scored(terms, scores, n - 1, term, p.score));
            } else {
                assert(p == added);
            }
        }
        if p.doc_id == doc && scored(terms, scores, n - 1, term, p.score) {
            let k = choose|k: int|
                0 <= k < n - 1 && #[trigger] terms[k] == term && scores[k] == p.score
                    && positive_score(p.score);
            assert(0 <= k < n && terms[k] == term);
        }
    }
}

/// Among the first `n` documents, `p` names one in which `term` scores the
/// positive score of `p`.
pub open spec fn earned(docs: Seq<DocFields>, scores: Seq<Vec<u32>>, n: int, term: Seq<char>, p: Posting) -> bool {
    0 <= p.doc_id < n && scored(
        doc_terms_of(docs[p.doc_id as int]@),
        scores[p.doc_id as int]@,
        doc_terms_of(docs[p.doc_id as int]@).len() as int,
        term,
        p.score,
    )
}

/// A posting stands in the list of a term exactly where the term scores
/// positive in the document, with that score.
pub proof fn lemma_raw_inverted(
    docs: Seq<DocFields>,
    scores: Seq<Vec<u32>>,
    n: int,
    term: Seq<char>,
    p: Posting,
)
    requires
        0 <= n <= docs.len(),
        n <= u32::MAX,
    ensures
        distinct_keys(raw_inverted(docs, scores, n)),
        items(raw_inverted(docs, scores, n), term).contains(p) <==> earned(
            docs,
            scores,
            n,
            term,
            p,
        ),
    decreases n,
{
    if n > 0 {
        lemma_raw_inverted(docs, scores, n - 1, term, p);
        let terms = doc_terms_of(docs[n - 1]@);
        lemma_with_postings(
            raw_inverted(docs, scores, n - 1),
            terms,
            scores[n - 1]@,
            terms.len() as int,
            (n - 1) as u32,
            term,
            p,
        );
    } else {
        let none = raw_inverted(docs, scores, 0);
        if items(none, term).contains(p) {
            let j = choose|j: int| 0 <= j < items(none, term).len() && items(none, term)[j] == p;
        }
    }
}

/// Ordering the lists changes neither the terms nor what each list holds.
pub proof fn lemma_sorted_lists_items(m: Seq<(Seq<char>, Seq<Posting>)>, term: Seq<char>, p: Posting)
    requires
        distinct_keys(m),
    ensures
        distinct_keys(sorted_lists(m)),
        items(sorted_lists(m), term).contains(p) <==> items(m, term).contains(p),
{
    let s = sorted_lists(m);
    assert forall|i: int, j: int| 0 <= i < j < s.len() implies (#[trigger] s[i]).0 != (
    #[trigger] s[j]).0 by {
        assert(m[i].0 != m[j].0);
    }
    if crate::strmap::has_key(m, term) {
        let i = crate::strmap::index_of_key(m, term);
        crate::strmap::lemma_lookup_at(m, i);
        assert(s[i].0 == term);
        crate::strmap::lemma_lookup_at(s, i);
        lemma_sort_desc_elements(m[i].1);
    } else {
        if crate::strmap::has_key(s, term) {
            let i = crate::strmap::index_of_key(s, term);
            assert(m[i].0 == term);
        }
        let none = Seq::<Posting>::empty();
        if none.contains(p) {
            let j = choose|j: int| 0 <= j < none.len() && none[j] == p;
        }
    }
}

/// In a built index a posting stands in the list of a term exactly where
/// the score of the term in the document is strictly positive, and it
/// carries that score.
pub proof fn lemma_postings_exactly_positive(
    docs: Seq<DocFields>,
    scores: Seq<Vec<u32>>,
    term: Seq<char>,
    p: Posting,
)
    requires
        docs.len() <= u32::MAX,
    ensures
        items(sorted_lists(raw_inverted(docs, scores, docs.len() as int)), term).contains(p)
            <==> earned(docs, scores, docs.len() as int, term, p),
{
    lemma_raw_inverted(docs, scores, docs.len() as int, term, p);
    lemma_sorted_lists_items(raw_inverted(docs, scores, docs.len() as int), term, p);
}

} // verus!
