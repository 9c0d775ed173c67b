//! Laws of the first pass: a record that fits its length fields is read
//! back as it was written, and the document frequency of a term is the
//! number of documents that hold it.

use crate::builder::parse_records;
use crate::crawl::{
    crawl_bytes, crawl_stats, parse_record, record_bytes, record_head, record_tail, Page,
};
use crate::doc::{
    count_tokens, doc_terms_of, lemma_count_tokens, occurrences, parsed_doc, DocModel,
};
use crate::format_laws::{
    holds_at, join, lemma_holds_split, lemma_join_at, lemma_parse_written_str,
    lemma_parse_written_u32, start_of,
};
use crate::io_util::{
    lemma_append_assoc, lemma_u32_round_trip, len32, parse_tf_entries, parse_tf_map, str_bytes,
    tf_entries_bytes, tf_map_bytes, u32_bytes,
};
use crate::strmap::{count, distinct_keys, has_key, upsert};
use crate::text::lemma_distinct_prefix;
use crate::unicode::byte_len;
use vstd::prelude::*;

verus! {

/// Each entry of a term-frequency map as it is written.
pub open spec fn tf_pieces(m: Seq<(Seq<char>, u32)>) -> Seq<Seq<u8>> {
    Seq::new(m.len(), |i: int| str_bytes(m[i].0) + u32_bytes(m[i].1))
}

/// A term-frequency map fits the format: no more than 2^32 - 1 entries, no
/// word of more than 2^32 - 1 bytes, no word twice.
pub open spec fn tf_map_fits(m: Seq<(Seq<char>, u32)>) -> bool {
    &&& m.len() <= u32::MAX
    &&& distinct_keys(m)
    &&& forall|i: int| 0 <= i < m.len() ==> byte_len((#[trigger] m[i]).0) <= u32::MAX
}

/// The entries of a term-frequency map on the wire are their pieces
/// joined.
pub proof fn lemma_tf_entries_join(m: Seq<(Seq<char>, u32)>)
    ensures
        tf_entries_bytes(m) == join(tf_pieces(m)),
    decreases m.len(),
{
    if m.len() > 0 {
        lemma_tf_entries_join(m.drop_last());
        assert(tf_pieces(m).drop_last() =~= tf_pieces(m.drop_last()));
        lemma_append_assoc(
            tf_entries_bytes(m.drop_last()),
            str_bytes(m.last().0),
            u32_bytes(m.last().1),
        );
    }
}

/// The written entries of a term-frequency map are read back, from any of
/// them on.
pub proof fn lemma_parse_written_tf_entries(
    data: Seq<u8>,
    base: int,
    m: Seq<(Seq<char>, u32)>,
    k: int,
)
    requires
        tf_map_fits(m),
        holds_at(data, base, tf_entries_bytes(m)),
        0 <= k <= m.len(),
    ensures
        parse_tf_entries(data, base + start_of(tf_pieces(m), k), (m.len() - k) as nat, m.take(k))
            == Some((m, base + tf_entries_bytes(m).len())),
    decreases m.len() - k,
{
    let pieces = tf_pieces(m);
    lemma_tf_entries_join(m);
    if k == m.len() {
        assert(m.take(k) =~= m);
        assert(pieces.take(k) =~= pieces);
    } else {
        let pos = base + start_of(pieces, k);
        let word = m[k].0;
        lemma_join_at(data, base, pieces, k);
        lemma_holds_split(data, pos, str_bytes(word), u32_bytes(m[k].1));
        lemma_parse_written_str(data, pos, word);
        lemma_u32_round_trip(m[k].1);
        lemma_parse_written_u32(data, pos + 4 + byte_len(word), m[k].1);
        let acc = m.take(k);
        assert(!has_key(acc, word)) by {
            if has_key(acc, word) {
                let j = choose|j: int| 0 <= j < acc.len() && (#[trigger] acc[j]).0 == word;
                assert(m[j].0 == m[k].0);
            }
        }
        assert(upsert(acc, word, m[k].1) =~= m.take(k + 1));
        lemma_parse_written_tf_entries(data, base, m, k + 1);
    }
}

/// A written term-frequency map is read back.
pub proof fn lemma_parse_written_tf_map(data: Seq<u8>, pos: int, m: Seq<(Seq<char>, u32)>)
    requires
        tf_map_fits(m),
        holds_at(data, pos, tf_map_bytes(m)),
    ensures
        parse_tf_map(data, pos) == Some((m, pos + tf_map_bytes(m).len())),
{
    assert(len32(m.len()) == m.len());
    lemma_u32_round_trip(len32(m.len()));
    lemma_holds_split(data, pos, u32_bytes(len32(m.len())), tf_entries_bytes(m));
    lemma_parse_written_u32(data, pos, len32(m.len()));
    lemma_parse_written_tf_entries(data, pos + 4, m, 0);
    assert(tf_pieces(m).take(0) =~= Seq::<Seq<u8>>::empty());
    assert(m.take(0) =~= Seq::empty());
}

/// A document fits the format: its strings and maps do, and its field
/// lengths are below 2^32.
pub open spec fn record_fits(d: DocModel) -> bool {
    &&& byte_len(d.fname) <= u32::MAX
    &&& byte_len(d.cmd_name) <= u32::MAX
    &&& byte_len(d.name_desc_raw) <= u32::MAX
    &&& d.name_desc_len <= u32::MAX
    &&& d.synopsis_len <= u32::MAX
    &&& d.body_len <= u32::MAX
    &&& tf_map_fits(d.name_desc_tf)
    &&& tf_map_fits(d.synopsis_tf)
    &&& tf_map_fits(d.body_tf)
}

/// What reading the first part of a record gives.
proof fn lemma_parse_written_head(data: Seq<u8>, pos: int, d: DocModel)
    requires
        record_fits(d),
        holds_at(data, pos, record_head(d)),
    ensures
        crate::io_util::parse_str(data, pos) == Some((d.fname, pos + 4 + byte_len(d.fname))),
        crate::io_util::parse_str(data, pos + 4 + byte_len(d.fname)) == Some(
            (d.cmd_name, pos + 8 + byte_len(d.fname) + byte_len(d.cmd_name)),
        ),
        crate::io_util::parse_u32(data, pos + 8 + byte_len(d.fname) + byte_len(d.cmd_name))
            == Some(
            (d.name_desc_len as u32, pos + 12 + byte_len(d.fname) + byte_len(d.cmd_name)),
        ),
        crate::io_util::parse_u32(data, pos + 12 + byte_len(d.fname) + byte_len(d.cmd_name))
            == Some((d.synopsis_len as u32, pos + 16 + byte_len(d.fname) + byte_len(d.cmd_name))),
        crate::io_util::parse_u32(data, pos + 16 + byte_len(d.fname) + byte_len(d.cmd_name))
            == Some((d.body_len as u32, pos + 20 + byte_len(d.fname) + byte_len(d.cmd_name))),
        record_head(d).len() == 20 + byte_len(d.fname) + byte_len(d.cmd_name),
{
    let a = str_bytes(d.fname);
    let b = str_bytes(d.cmd_name);
    let x = len32(d.name_desc_len);
    let y = len32(d.synopsis_len);
    let z = len32(d.body_len);
    assert(x == d.name_desc_len && y == d.synopsis_len && z == d.body_len);
    lemma_u32_round_trip(x);
    lemma_u32_round_trip(y);
    lemma_u32_round_trip(z);
    lemma_holds_split(data, pos, a + b + u32_bytes(x) + u32_bytes(y), u32_bytes(z));
    lemma_holds_split(data, pos, a + b + u32_bytes(x), u32_bytes(y));
    lemma_holds_split(data, pos, a + b, u32_bytes(x));
    lemma_holds_split(data, pos, a, b);
    lemma_parse_written_str(data, pos, d.fname);
    lemma_parse_written_str(data, pos + 4 + byte_len(d.fname), d.cmd_name);
    let p = pos + 8 + byte_len(d.fname) + byte_len(d.cmd_name);
    lemma_parse_written_u32(data, p, x);
    lemma_parse_written_u32(data, p + 4, y);
    lemma_parse_written_u32(data, p + 8, z);
}

/// What reading the second part of a record gives.
proof fn lemma_parse_written_tail(data: Seq<u8>, pos: int, d: DocModel)
    requires
        record_fits(d),
        holds_at(data, pos, record_tail(d)),
    ensures
        parse_tf_map(data, pos) == Some((d.name_desc_tf, pos + tf_map_bytes(d.name_desc_tf).len())),
        parse_tf_map(data, pos + tf_map_bytes(d.name_desc_tf).len()) == Some(
            (
                d.synopsis_tf,
                pos + tf_map_bytes(d.name_desc_tf).len() + tf_map_bytes(d.synopsis_tf).len(),
            ),
        ),
        parse_tf_map(
            data,
            pos + tf_map_bytes(d.name_desc_tf).len() + tf_map_bytes(d.synopsis_tf).len(),
        ) == Some(
            (
                d.body_tf,
                pos + tf_map_bytes(d.name_desc_tf).len() + tf_map_bytes(d.synopsis_tf).len()
                    + tf_map_bytes(d.body_tf).len(),
            ),
        ),
        crate::io_util::parse_str(
            data,
            pos + tf_map_bytes(d.name_desc_tf).len() + tf_map_bytes(d.synopsis_tf).len()
                + tf_map_bytes(d.body_tf).len(),
        ) == Some((d.name_desc_raw, pos + record_tail(d).len())),
{
    let a = tf_map_bytes(d.name_desc_tf);
    let b = tf_map_bytes(d.synopsis_tf);
    let c = tf_map_bytes(d.body_tf);
    let e = str_bytes(d.name_desc_raw);
    lemma_holds_split(data, pos, a + b + c, e);
    lemma_holds_split(data, pos, a + b, c);
    lemma_holds_split(data, pos, a, b);
    lemma_parse_written_tf_map(data, pos, d.name_desc_tf);
    lemma_parse_written_tf_map(data, pos + a.len(), d.synopsis_tf);
    lemma_parse_written_tf_map(data, pos + a.len() + b.len(), d.body_tf);
    lemma_parse_written_str(data, pos + a.len() + b.len() + c.len(), d.name_desc_raw);
}

/// A written record that fits the format is read back.
pub proof fn lemma_parse_written_record(data: Seq<u8>, pos: int, d: DocModel)
    requires
        record_fits(d),
        holds_at(data, pos, record_bytes(d)),
    ensures
        parse_record(data, pos) == Some((d, pos + record_bytes(d).len())),
{
    lemma_holds_split(data, pos, record_head(d), record_tail(d));
    lemma_parse_written_head(data, pos, d);
    lemma_parse_written_tail(data, pos + record_head(d).len(), d);
    let got = parse_record(data, pos).unwrap().0;
    assert(got.name_desc_len == d.name_desc_len);
    assert(got == d);
}

/// Each record as it is written.
pub open spec fn record_pieces(docs: Seq<DocModel>) -> Seq<Seq<u8>> {
    Seq::new(docs.len(), |i: int| record_bytes(docs[i]))
}

/// Written records that fit the format are read back in their order, from
/// any of them on.
pub proof fn lemma_parse_written_records(data: Seq<u8>, docs: Seq<DocModel>, k: int)
    requires
        forall|i: int| 0 <= i < docs.len() ==> record_fits(#[trigger] docs[i]),
        holds_at(data, 0, join(record_pieces(docs))),
        0 <= k <= docs.len(),
    ensures
        parse_records(
            data,
            start_of(record_pieces(docs), k),
            (docs.len() - k) as nat,
            docs.take(k),
        ) == Some(docs),
    decreases docs.len() - k,
{
    if k == docs.len() {
        assert(docs.take(k) =~= docs);
    } else {
        lemma_join_at(data, 0, record_pieces(docs), k);
        lemma_parse_written_record(data, start_of(record_pieces(docs), k), docs[k]);
        assert(docs.take(k).push(docs[k]) =~= docs.take(k + 1));
        lemma_parse_written_records(data, docs, k + 1);
    }
}

/// The documents that the first `n` pages give, in their order.
pub open spec fn crawled_docs(pages: Seq<Page>, n: int) -> Seq<DocModel>
    decreases n,
{
    if n <= 0 {
        Seq::empty()
    } else {
        let before = crawled_docs(pages, n - 1);
        match parsed_doc(pages[n - 1].content@, pages[n - 1].fname@) {
            Some(d) => before.push(d),
            None => before,
        }
    }
}

/// The crawl writes one record for each document, in the order of the
/// documents, and counts as many documents as it writes records.
pub proof fn lemma_crawl_writes_records(pages: Seq<Page>, n: int)
    requires
        0 <= n <= pages.len(),
    ensures
        crawl_bytes(pages, n) == join(record_pieces(crawled_docs(pages, n))),
        crawl_stats(pages, n).total_docs == crawled_docs(pages, n).len(),
    decreases n,
{
    if n > 0 {
        lemma_crawl_writes_records(pages, n - 1);
        let before = crawled_docs(pages, n - 1);
        match parsed_doc(pages[n - 1].content@, pages[n - 1].fname@) {
            Some(d) => {
                assert(record_pieces(before.push(d)).drop_last() =~= record_pieces(before));
            },
            None => {},
        }
    } else {
        assert(record_pieces(crawled_docs(pages, n)) =~= Seq::<Seq<u8>>::empty());
    }
}

/// The second pass reads back the documents of the first: from the bytes
/// that the crawl wrote, as many records as it counted give the documents
/// that the pages parse to, provided each fits the format.
pub proof fn lemma_read_after_crawl(pages: Seq<Page>)
    requires
        forall|i: int|
            0 <= i < crawled_docs(pages, pages.len() as int).len() ==> record_fits(
                #[trigger] crawled_docs(pages, pages.len() as int)[i],
            ),
    ensures
        parse_records(
            crawl_bytes(pages, pages.len() as int),
            0,
            crawl_stats(pages, pages.len() as int).total_docs,
            Seq::empty(),
        ) == Some(crawled_docs(pages, pages.len() as int)),
{
    let docs = crawled_docs(pages, pages.len() as int);
    let data = crawl_bytes(pages, pages.len() as int);
    lemma_crawl_writes_records(pages, pages.len() as int);
    assert(data.subrange(0, data.len() as int) =~= data);
    lemma_parse_written_records(data, docs, 0);
    assert(record_pieces(docs).take(0) =~= Seq::<Seq<u8>>::empty());
    assert(docs.take(0) =~= Seq::empty());
}

/// In how many of the first `n` documents the term `t` occurs.
pub open spec fn docs_with_term(docs: Seq<DocModel>, n: int, t: Seq<char>) -> nat
    decreases n,
{
    if n <= 0 {
        0
    } else {
        docs_with_term(docs, n - 1, t) + if doc_terms_of(docs[n - 1]).contains(t) {
            1nat
        } else {
            0nat
        }
    }
}

/// In a list without repetitions a string occurs once or not at all.
pub proof fn lemma_occurrences_of_distinct(terms: Seq<Seq<char>>, n: int, t: Seq<char>)
    requires
        terms.no_duplicates(),
        0 <= n <= terms.len(),
    ensures
        occurrences(terms, n, t) == if terms.take(n).contains(t) {
            1nat
        } else {
            0nat
        },
    decreases n,
{
    let now = terms.take(n);
    if n > 0 {
        lemma_occurrences_of_distinct(terms, n - 1, t);
        let before = terms.take(n - 1);
        if before.contains(t) {
            let j = choose|j: int| 0 <= j < before.len() && before[j] == t;
            assert(now[j] == t);
            assert(terms[j] == t);
            assert(terms[n - 1] != t);
        }
        if terms[n - 1] == t {
            assert(now[n - 1] == t);
        }
        if now.contains(t) {
            let j = choose|j: int| 0 <= j < now.len() && now[j] == t;
            if j < n - 1 {
                assert(before[j] == t);
            }
        }
    } else {
        if now.contains(t) {
            let j = choose|j: int| 0 <= j < now.len() && now[j] == t;
        }
    }
}

/// The statistics after documents were counted one by one.
pub open spec fn stats_of(docs: Seq<DocModel>, n: int) -> crate::crawl::StatsModel
    decreases n,
{
    if n <= 0 {
        crate::crawl::stats_start()
    } else {
        crate::crawl::stats_with(stats_of(docs, n - 1), docs[n - 1])
    }
}

/// The document frequency of a term is the number of documents in which it
/// occurs: a term counts once for a document, however often and in however
/// many fields it stands there.
pub proof fn lemma_document_frequency(docs: Seq<DocModel>, n: int, t: Seq<char>)
    requires
        0 <= n <= docs.len(),
        n <= u32::MAX,
    ensures
        distinct_keys(stats_of(docs, n).global_df),
        stats_of(docs, n).total_docs == n,
        count(stats_of(docs, n).global_df, t) == docs_with_term(docs, n, t),
        docs_with_term(docs, n, t) <= n,
    decreases n,
{
    if n > 0 {
        lemma_document_frequency(docs, n - 1, t);
        let terms = doc_terms_of(docs[n - 1]);
        let all = crate::strmap::keys(docs[n - 1].name_desc_tf) + crate::strmap::keys(
            docs[n - 1].synopsis_tf,
        ) + crate::strmap::keys(docs[n - 1].body_tf) + crate::doc::cmd_name_term(
            docs[n - 1].cmd_name,
        );
        lemma_distinct_prefix(all, all.len() as int);
        lemma_occurrences_of_distinct(terms, terms.len() as int, t);
        assert(terms.take(terms.len() as int) =~= terms);
        lemma_count_tokens(stats_of(docs, n - 1).global_df, terms, terms.len() as int, t);
    }
}

/// The statistics of a crawl are those of its documents counted one by
/// one.
pub proof fn lemma_crawl_stats(pages: Seq<Page>, n: int)
    requires
        0 <= n <= pages.len(),
    ensures
        crawl_stats(pages, n) == stats_of(
            crawled_docs(pages, n),
            crawled_docs(pages, n).len() as int,
        ),
    decreases n,
{
    if n > 0 {
        lemma_crawl_stats(pages, n - 1);
        let before = crawled_docs(pages, n - 1);
        match parsed_doc(pages[n - 1].content@, pages[n - 1].fname@) {
            Some(d) => {
                let now = before.push(d);
                lemma_stats_of_prefix(now, before, before.len() as int);
            },
            None => {},
        }
    }
}

/// The statistics of the first `n` documents depend on those alone.
pub proof fn lemma_stats_of_prefix(a: Seq<DocModel>, b: Seq<DocModel>, n: int)
    requires
        0 <= n <= a.len(),
        n <= b.len(),
        forall|i: int| 0 <= i < n ==> a[i] == b[i],
    ensures
        stats_of(a, n) == stats_of(b, n),
    decreases n,
{
    if n > 0 {
        lemma_stats_of_prefix(a, b, n - 1);
    }
}

} // verus!
