//! The first pass over a corpus: each document is written as a record and
//! counted into the statistics that scoring needs.

use crate::doc::{
    count_tokens, doc_terms, doc_terms_of, parse_doc, parsed_doc, DocFields, DocModel,
};
use crate::io_util::{
    lemma_append_assoc, len32, parse_str, parse_tf_map, parse_u32, read_str, read_tf_map, read_u32, str_bytes,
    tf_map_bytes, u32_bytes, write_str, write_tf_map, write_u32, ByteReader, ReadError,
};
use crate::strmap::{count, distinct_keys, has_key, index_of_key, upsert, StrMap};
use crate::text::make_stemmer;
use crate::unicode::views;
use vstd::prelude::*;

verus! {

/// A document's record: file name, command name, the three field lengths,
/// the three term-frequency maps, and the description.
pub open spec fn record_bytes(d: DocModel) -> Seq<u8> {
    record_head(d) + record_tail(d)
}

/// The part of a record before the term-frequency maps.
pub open spec fn record_head(d: DocModel) -> Seq<u8> {
    str_bytes(d.fname) + str_bytes(d.cmd_name) + u32_bytes(len32(d.name_desc_len)) + u32_bytes(
        len32(d.synopsis_len),
    ) + u32_bytes(len32(d.body_len))
}

/// The part of a record from the term-frequency maps on.
pub open spec fn record_tail(d: DocModel) -> Seq<u8> {
    tf_map_bytes(d.name_desc_tf) + tf_map_bytes(d.synopsis_tf) + tf_map_bytes(d.body_tf)
        + str_bytes(d.name_desc_raw)
}

fn write_record_head(out: &mut Vec<u8>, doc: &DocFields)
    ensures
        final(out)@ == old(out)@ + record_head(doc@),
{
    let ghost d = doc@;
    let ghost start = out@;
    assert(len32(d.name_desc_len) == doc.name_desc_len);
    assert(len32(d.synopsis_len) == doc.synopsis_len);
    assert(len32(d.body_len) == doc.body_len);
    write_str(out, doc.fname.as_str());
    let ghost at1 = str_bytes(d.fname);
    write_str(out, doc.cmd_name.as_str());
    let ghost at2 = at1 + str_bytes(d.cmd_name);
    proof {
        lemma_append_assoc(start, at1, str_bytes(d.cmd_name));
    }
    write_u32(out, doc.name_desc_len);
    let ghost at3 = at2 + u32_bytes(len32(d.name_desc_len));
    proof {
        lemma_append_assoc(start, at2, u32_bytes(len32(d.name_desc_len)));
    }
    write_u32(out, doc.synopsis_len);
    let ghost at4 = at3 + u32_bytes(len32(d.synopsis_len));
    proof {
        lemma_append_assoc(start, at3, u32_bytes(len32(d.synopsis_len)));
    }
    write_u32(out, doc.body_len);
    proof {
        lemma_append_assoc(start, at4, u32_bytes(len32(d.body_len)));
    }
}

fn write_record_tail(out: &mut Vec<u8>, doc: &DocFields)
    ensures
        final(out)@ == old(out)@ + record_tail(doc@),
{
    let ghost d = doc@;
    let ghost start = out@;
    write_tf_map(out, &doc.name_desc_tf);
    let ghost at1 = tf_map_bytes(d.name_desc_tf);
    write_tf_map(out, &doc.synopsis_tf);
    let ghost at2 = at1 + tf_map_bytes(d.synopsis_tf);
    proof {
        lemma_append_assoc(start, at1, tf_map_bytes(d.synopsis_tf));
    }
    write_tf_map(out, &doc.body_tf);
    let ghost at3 = at2 + tf_map_bytes(d.body_tf);
    proof {
        lemma_append_assoc(start, at2, tf_map_bytes(d.body_tf));
    }
    write_str(out, doc.name_desc_raw.as_str());
    proof {
        lemma_append_assoc(start, at3, str_bytes(d.name_desc_raw));
    }
}

/// Appends the record of `doc`.
pub fn write_record(out: &mut Vec<u8>, doc: &DocFields)
    ensures
        final(out)@ == old(out)@ + record_bytes(doc@),
{
    write_record_head(out, doc);
    write_record_tail(out, doc);
    proof {
        lemma_append_assoc(old(out)@, record_head(doc@), record_tail(doc@));
    }
}

/// Reading a document's record at `pos`.
pub open spec fn parse_record(data: Seq<u8>, pos: int) -> Option<(DocModel, int)> {
    match parse_str(data, pos) {
        Some((fname, at1)) => match parse_str(data, at1) {
            Some((cmd_name, at2)) => match parse_u32(data, at2) {
                Some((desc_len, at3)) => match parse_u32(data, at3) {
                    Some((synopsis_len, at4)) => match parse_u32(data, at4) {
                        Some((body_len, at5)) => match parse_tf_map(data, at5) {
                            Some((desc_tf, at6)) => match parse_tf_map(data, at6) {
                                Some((synopsis_tf, at7)) => match parse_tf_map(data, at7) {
                                    Some((body_tf, at8)) => match parse_str(data, at8) {
                                        Some((raw, at9)) => Some(
                                            (
                                                DocModel {
                                                    fname,
                                                    cmd_name,
                                                    name_desc_raw: raw,
                                                    name_desc_tf: desc_tf,
                                                    name_desc_len: desc_len as nat,
                                                    synopsis_tf,
                                                    synopsis_len: synopsis_len as nat,
                                                    body_tf,
                                                    body_len: body_len as nat,
                                                },
                                                at9,
                                            ),
                                        ),
                                        None => None,
                                    },
                                    None => None,
                                },
                                None => None,
                            },
                            None => None,
                        },
                        None => None,
                    },
                    None => None,
                },
                None => None,
            },
            None => None,
        },
        None => None,
    }
}

/// Reads the fields of a record one after another.
fn read_record_fields(r: &mut ByteReader) -> (res: Result<DocFields, ReadError>)
    ensures
        final(r).bytes() == old(r).bytes(),
        match res {
            Ok(doc) => parse_record(old(r).bytes(), old(r).at()) == Some((doc@, final(r).at())),
            Err(e) => parse_record(old(r).bytes(), old(r).at()).is_none(),
        },
{
    let fname = read_str(r)?;
    let cmd_name = read_str(r)?;
    let name_desc_len = read_u32(r)?;
    let synopsis_len = read_u32(r)?;
    let body_len = read_u32(r)?;
    let name_desc_tf = read_tf_map(r)?;
    let synopsis_tf = read_tf_map(r)?;
    let body_tf = read_tf_map(r)?;
    let name_desc_raw = read_str(r)?;
    Ok(
        DocFields {
            fname,
            cmd_name,
            name_desc_raw,
            name_desc_tf,
            name_desc_len,
            synopsis_tf,
            synopsis_len,
            body_tf,
            body_len,
        },
    )
}

/// Reads a document's record. On failure the reader stays where it was.
pub fn read_record(r: &mut ByteReader) -> (res: Result<DocFields, ReadError>)
    ensures
        final(r).bytes() == old(r).bytes(),
        match res {
            Ok(doc) => parse_record(old(r).bytes(), old(r).at()) == Some((doc@, final(r).at())),
            Err(e) => parse_record(old(r).bytes(), old(r).at()).is_none() && final(r).at() == old(
                r,
            ).at(),
        },
{
    let start = r.position();
    match read_record_fields(r) {
        Ok(doc) => Ok(doc),
        Err(e) => {
            r.seek(start);
            Err(e)
        },
    }
}

/// What the first pass has counted: the number of documents, in how many
/// documents each term occurs, and the summed lengths of the three fields.
/// The average field lengths are these sums over the number of documents
/// (over one where there is none).
pub struct CrawlStats {
    pub total_docs: u32,
    pub global_df: StrMap<u32>,
    pub sum_desc_len: u64,
    pub sum_synopsis_len: u64,
    pub sum_body_len: u64,
}

/// The statistics as plain values.
pub struct StatsModel {
    pub total_docs: nat,
    pub global_df: Seq<(Seq<char>, u32)>,
    pub sum_desc_len: nat,
    pub sum_synopsis_len: nat,
    pub sum_body_len: nat,
}

impl View for CrawlStats {
    type V = StatsModel;

    open spec fn view(&self) -> StatsModel {
        StatsModel {
            total_docs: self.total_docs as nat,
            global_df: self.global_df@,
            sum_desc_len: self.sum_desc_len as nat,
            sum_synopsis_len: self.sum_synopsis_len as nat,
            sum_body_len: self.sum_body_len as nat,
        }
    }
}

/// The statistics of an empty corpus.
pub open spec fn stats_start() -> StatsModel {
    StatsModel {
        total_docs: 0,
        global_df: Seq::empty(),
        sum_desc_len: 0,
        sum_synopsis_len: 0,
        sum_body_len: 0,
    }
}

/// The statistics after one more document: each of its terms counts once,
/// however often and in however many fields it occurs.
pub open spec fn stats_with(st: StatsModel, d: DocModel) -> StatsModel {
    let terms = doc_terms_of(d);
    StatsModel {
        total_docs: st.total_docs + 1,
        global_df: count_tokens(st.global_df, terms, terms.len() as int),
        sum_desc_len: st.sum_desc_len + d.name_desc_len,
        sum_synopsis_len: st.sum_synopsis_len + d.synopsis_len,
        sum_body_len: st.sum_body_len + d.body_len,
    }
}

/// No count is above `limit`, or above `limit + 1` for the terms in
/// `raised`.
pub open spec fn counts_within(
    df: Seq<(Seq<char>, u32)>,
    limit: int,
    raised: Seq<Seq<char>>,
) -> bool {
    forall|i: int|
        0 <= i < df.len() ==> (#[trigger] df[i]).1 <= limit + if raised.contains(df[i].0) {
            1int
        } else {
            0int
        }
}

proof fn lemma_counts_after_bump(
    df: Seq<(Seq<char>, u32)>,
    limit: int,
    terms: Seq<Seq<char>>,
    k: int,
)
    requires
        distinct_keys(df),
        terms.no_duplicates(),
        0 <= k < terms.len(),
        0 <= limit < u32::MAX,
        counts_within(df, limit, terms.take(k)),
    ensures
        count(df, terms[k]) <= limit,
        counts_within(
            upsert(df, terms[k], (count(df, terms[k]) + 1) as u32),
            limit,
            terms.take(k + 1),
        ),
{
    let t = terms[k];
    assert(!terms.take(k).contains(t)) by {
        if terms.take(k).contains(t) {
            let j = choose|j: int| 0 <= j < terms.take(k).len() && terms.take(k)[j] == t;
            assert(terms[j] == terms[k]);
        }
    }
    if has_key(df, t) {
        let at = index_of_key(df, t);
        assert(df[at].1 <= limit);
    }
    assert(count(df, t) <= limit);
    let now = upsert(df, t, (count(df, t) + 1) as u32);
    let at = if has_key(df, t) {
        index_of_key(df, t)
    } else {
        df.len() as int
    };
    assert(now[at] == (t, (count(df, t) + 1) as u32));
    assert(terms.take(k + 1)[k] == t);
    assert(terms.take(k + 1).contains(t));
    assert forall|i: int| 0 <= i < now.len() implies (#[trigger] now[i]).1 <= limit + if terms.take(
        k + 1,
    ).contains(now[i].0) {
        1int
    } else {
        0int
    } by {
        if i == at {
        } else {
            assert(now[i] == df[i]);
            if terms.take(k).contains(df[i].0) {
                let j = choose|j: int| 0 <= j < terms.take(k).len() && terms.take(k)[j] == df[i].0;
                assert(terms.take(k + 1)[j] == df[i].0);
            }
        }
    }
}

impl CrawlStats {
    /// No term is counted in more documents than there are, and no sum
    /// exceeds what that many documents can hold.
    pub open spec fn wf(&self) -> bool {
        &&& counts_within(self.global_df@, self.total_docs as int, Seq::empty())
        &&& self.sum_desc_len <= self.total_docs * 0xffff_ffff
        &&& self.sum_synopsis_len <= self.total_docs * 0xffff_ffff
        &&& self.sum_body_len <= self.total_docs * 0xffff_ffff
    }

    /// The statistics of an empty corpus.
    pub fn new() -> (st: Self)
        ensures
            st@ == stats_start(),
            st.wf(),
    {
        CrawlStats {
            total_docs: 0,
            global_df: StrMap::new(),
            sum_desc_len: 0,
            sum_synopsis_len: 0,
            sum_body_len: 0,
        }
    }

    /// Counts one more document.
    pub fn record(&mut self, doc: &DocFields)
        requires
            old(self).wf(),
            old(self).total_docs < u32::MAX,
        ensures
            final(self)@ == stats_with(old(self)@, doc@),
            final(self).wf(),
    {
        let terms = doc_terms(doc);
        let ghost limit = self.total_docs as int;
        let mut k: usize = 0;
        assert(views(terms@).take(0) =~= Seq::<Seq<char>>::empty());
        while k < terms.len()
            invariant
                k <= terms@.len(),
                views(terms@).no_duplicates(),
                0 <= limit < u32::MAX,
                self.total_docs == old(self).total_docs,
                self.sum_desc_len == old(self).sum_desc_len,
                self.sum_synopsis_len == old(self).sum_synopsis_len,
                self.sum_body_len == old(self).sum_body_len,
                self.global_df@ == count_tokens(old(self).global_df@, views(terms@), k as int),
                counts_within(self.global_df@, limit, views(terms@).take(k as int)),
            decreases terms@.len() - k,
        {
            self.global_df.keys_distinct();
            proof {
                lemma_counts_after_bump(self.global_df@, limit, views(terms@), k as int);
            }
            self.global_df.bump(terms[k].as_str());
            k += 1;
        }
        self.sum_desc_len = self.sum_desc_len + doc.name_desc_len as u64;
        self.sum_synopsis_len = self.sum_synopsis_len + doc.synopsis_len as u64;
        self.sum_body_len = self.sum_body_len + doc.body_len as u64;
        self.total_docs = self.total_docs + 1;
    }
}

/// A rendered manual page: the file's base name and the text that the
/// formatter gave for it.
pub struct Page {
    pub fname: String,
    pub content: String,
}

/// The statistics after the first `n` pages; pages without a token count
/// for nothing.
pub open spec fn crawl_stats(pages: Seq<Page>, n: int) -> StatsModel
    decreases n,
{
    if n <= 0 {
        stats_start()
    } else {
        let before = crawl_stats(pages, n - 1);
        match parsed_doc(pages[n - 1].content@, pages[n - 1].fname@) {
            Some(d) => stats_with(before, d),
            None => before,
        }
    }
}

/// The records of the first `n` pages, one after another; pages without a
/// token leave none.
pub open spec fn crawl_bytes(pages: Seq<Page>, n: int) -> Seq<u8>
    decreases n,
{
    if n <= 0 {
        Seq::empty()
    } else {
        let before = crawl_bytes(pages, n - 1);
        match parsed_doc(pages[n - 1].content@, pages[n - 1].fname@) {
            Some(d) => before + record_bytes(d),
            None => before,
        }
    }
}

/// Parses every page, appends the record of each document to `out` and
/// returns the statistics of the corpus. Documents are numbered in the
/// order of their records.
pub fn crawl(pages: &Vec<Page>, out: &mut Vec<u8>) -> (stats: CrawlStats)
    requires
        pages@.len() <= u32::MAX,
        forall|i: int| 0 <= i < pages@.len() ==> (#[trigger] pages@[i]).content@.len() < u32::MAX,
    ensures
        stats@ == crawl_stats(pages@, pages@.len() as int),
        final(out)@ == old(out)@ + crawl_bytes(pages@, pages@.len() as int),
        stats.wf(),
{
    let stemmer = make_stemmer();
    let mut stats = CrawlStats::new();
    let mut i: usize = 0;
    assert(out@ =~= old(out)@ + crawl_bytes(pages@, 0));
    while i < pages.len()
        invariant
            i <= pages@.len(),
            pages@.len() <= u32::MAX,
            forall|j: int|
                0 <= j < pages@.len() ==> (#[trigger] pages@[j]).content@.len() < u32::MAX,
            stats@ == crawl_stats(pages@, i as int),
            stats.wf(),
            stats.total_docs <= i,
            out@ == old(out)@ + crawl_bytes(pages@, i as int),
        decreases pages@.len() - i,
    {
        let page = &pages[i];
        match parse_doc(page.content.as_str(), page.fname.as_str(), &stemmer) {
            Some(doc) => {
                stats.record(&doc);
                let ghost before = out@;
                write_record(out, &doc);
                proof {
                    lemma_append_assoc(
                        old(out)@,
                        crawl_bytes(pages@, i as int),
                        record_bytes(doc@),
                    );
                }
            },
            None => {},
        }
        i += 1;
    }
    stats
}

} // verus!
