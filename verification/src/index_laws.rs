//! Laws of the index file: loading what was saved gives the same documents,
//! the same dictionary words and the same posting lists.

use crate::format_laws::{
    holds_at, join, lemma_holds_appended, lemma_holds_extended, lemma_holds_split, lemma_join_at,
    lemma_parse_written_str, lemma_parse_written_u32, lemma_parse_written_u64, lemma_start_next,
    start_of,
};
use crate::index::{
    blob_offset, blobs_bytes, dict_bytes, dict_entry_bytes, docs_bytes, entry_valid, file_contents,
    file_dict, file_docs, footer_offset, head_bytes, index_bytes, parse_dict, parse_docs,
    posting_at, posting_bytes, postings_at, postings_bytes, postings_valid, table_dict,
    table_docs, tail_bytes, LoadError, Posting,
};
use crate::io_util::{
    lemma_u32_round_trip, lemma_u64_round_trip, len32, str_bytes, u32_bytes, u64_bytes,
};
use crate::strmap::{distinct_keys, has_key, upsert};
use crate::unicode::byte_len;
use vstd::prelude::*;

verus! {

/// Each document as it is written.
pub open spec fn doc_pieces(docs: Seq<(Seq<char>, Seq<char>, Seq<char>)>) -> Seq<Seq<u8>> {
    Seq::new(
        docs.len(),
        |i: int| str_bytes(docs[i].0) + str_bytes(docs[i].1) + str_bytes(docs[i].2),
    )
}

/// No string of a document is too long for its length field.
pub open spec fn docs_fit(docs: Seq<(Seq<char>, Seq<char>, Seq<char>)>) -> bool {
    forall|i: int|
        0 <= i < docs.len() ==> byte_len((#[trigger] docs[i]).0) <= u32::MAX && byte_len(docs[i].1)
            <= u32::MAX && byte_len(docs[i].2) <= u32::MAX
}

/// The documents on the wire are their pieces joined.
pub proof fn lemma_docs_bytes_join(docs: Seq<(Seq<char>, Seq<char>, Seq<char>)>)
    ensures
        docs_bytes(docs) == join(doc_pieces(docs)),
    decreases docs.len(),
{
    if docs.len() > 0 {
        lemma_docs_bytes_join(docs.drop_last());
        assert(doc_pieces(docs).drop_last() =~= doc_pieces(docs.drop_last()));
    }
}

/// Written documents are read back, from any of them on.
pub proof fn lemma_parse_written_docs(
    data: Seq<u8>,
    base: int,
    docs: Seq<(Seq<char>, Seq<char>, Seq<char>)>,
    k: int,
)
    requires
        docs_fit(docs),
        holds_at(data, base, docs_bytes(docs)),
        0 <= k <= docs.len(),
    ensures
        parse_docs(
            data,
            base + start_of(doc_pieces(docs), k),
            (docs.len() - k) as nat,
            docs.take(k),
        ) == Some((docs, base + docs_bytes(docs).len())),
    decreases docs.len() - k,
{
    let pieces = doc_pieces(docs);
    lemma_docs_bytes_join(docs);
    if k == docs.len() {
        assert(docs.take(k) =~= docs);
        assert(pieces.take(k) =~= pieces);
    } else {
        let d = docs[k];
        let pos = base + start_of(pieces, k);
        lemma_join_at(data, base, pieces, k);
        lemma_holds_split(data, pos, str_bytes(d.0) + str_bytes(d.1), str_bytes(d.2));
        lemma_holds_split(data, pos, str_bytes(d.0), str_bytes(d.1));
        lemma_parse_written_str(data, pos, d.0);
        let at1 = pos + str_bytes(d.0).len();
        lemma_parse_written_str(data, at1, d.1);
        let at2 = at1 + str_bytes(d.1).len();
        lemma_parse_written_str(data, at2, d.2);
        assert(docs.take(k).push(d) =~= docs.take(k + 1));
        lemma_parse_written_docs(data, base, docs, k + 1);
    }
}

/// Each posting as it is written.
pub open spec fn posting_pieces(list: Seq<Posting>) -> Seq<Seq<u8>> {
    Seq::new(list.len(), |k: int| posting_bytes(list[k]))
}

/// A posting list on the wire is its postings joined, eight bytes each.
pub proof fn lemma_postings_bytes_join(list: Seq<Posting>)
    ensures
        postings_bytes(list) == join(posting_pieces(list)),
        postings_bytes(list).len() == 8 * list.len(),
    decreases list.len(),
{
    if list.len() > 0 {
        lemma_postings_bytes_join(list.drop_last());
        assert(posting_pieces(list).drop_last() =~= posting_pieces(list.drop_last()));
        lemma_u32_round_trip(list.last().doc_id);
        lemma_u32_round_trip(list.last().score);
    }
}

/// A written posting list is read back.
pub proof fn lemma_read_written_postings(data: Seq<u8>, pos: int, list: Seq<Posting>)
    requires
        holds_at(data, pos, postings_bytes(list)),
    ensures
        postings_at(data, pos, list.len()) == list,
{
    let pieces = posting_pieces(list);
    lemma_postings_bytes_join(list);
    assert forall|k: int| 0 <= k < list.len() implies posting_at(data, pos + 8 * k) == list[k] by {
        lemma_join_at(data, pos, pieces, k);
        assert(pieces.take(k) =~= posting_pieces(list.take(k)));
        lemma_postings_bytes_join(list.take(k));
        assert(start_of(pieces, k) == 8 * k);
        let at = pos + 8 * k;
        lemma_u32_round_trip(list[k].doc_id);
        lemma_u32_round_trip(list[k].score);
        lemma_holds_split(data, at, u32_bytes(list[k].doc_id), u32_bytes(list[k].score));
    }
    assert(postings_at(data, pos, list.len()) =~= list);
}

/// The posting list of each term as it is written.
pub open spec fn blob_pieces(inv: Seq<(Seq<char>, Seq<Posting>)>) -> Seq<Seq<u8>> {
    Seq::new(inv.len(), |i: int| postings_bytes(inv[i].1))
}

/// The posting lists on the wire are the lists joined.
pub proof fn lemma_blobs_bytes_join(inv: Seq<(Seq<char>, Seq<Posting>)>)
    ensures
        blobs_bytes(inv) == join(blob_pieces(inv)),
    decreases inv.len(),
{
    if inv.len() > 0 {
        lemma_blobs_bytes_join(inv.drop_last());
        assert(blob_pieces(inv).drop_last() =~= blob_pieces(inv.drop_last()));
    }
}

/// The lists of the first `i` terms take up what the first `i` pieces do.
pub proof fn lemma_blob_start(inv: Seq<(Seq<char>, Seq<Posting>)>, i: int)
    requires
        0 <= i <= inv.len(),
    ensures
        blobs_bytes(inv.take(i)).len() == start_of(blob_pieces(inv), i),
{
    lemma_blobs_bytes_join(inv.take(i));
    assert(blob_pieces(inv.take(i)) =~= blob_pieces(inv).take(i));
}

/// The dictionary that saving writes: each word with the place and the
/// length of its posting list.
pub open spec fn saved_dict(inv: Seq<(Seq<char>, Seq<Posting>)>, base: int) -> Seq<
    (Seq<char>, (u64, u32)),
> {
    Seq::new(inv.len(), |i: int| (inv[i].0, (blob_offset(inv, base, i), inv[i].1.len() as u32)))
}

/// Each dictionary entry as it is written.
pub open spec fn dict_pieces(inv: Seq<(Seq<char>, Seq<Posting>)>, base: int) -> Seq<Seq<u8>> {
    Seq::new(
        inv.len(),
        |i: int| dict_entry_bytes(inv[i].0, blob_offset(inv, base, i), inv[i].1.len()),
    )
}

/// No word and no posting list is too long for its length field.
pub open spec fn lists_fit(inv: Seq<(Seq<char>, Seq<Posting>)>) -> bool {
    forall|i: int|
        0 <= i < inv.len() ==> byte_len((#[trigger] inv[i]).0) <= u32::MAX && inv[i].1.len()
            <= u32::MAX
}

/// The first `n` dictionary entries on the wire are their pieces joined.
pub proof fn lemma_dict_bytes_join(inv: Seq<(Seq<char>, Seq<Posting>)>, base: int, n: int)
    requires
        0 <= n <= inv.len(),
    ensures
        dict_bytes(inv, base, n) == join(dict_pieces(inv, base).take(n)),
    decreases n,
{
    if n > 0 {
        lemma_dict_bytes_join(inv, base, n - 1);
        lemma_start_next(dict_pieces(inv, base), n - 1);
    }
}

/// A written dictionary entry is read back.
pub proof fn lemma_parse_written_entry(
    data: Seq<u8>,
    pos: int,
    word: Seq<char>,
    offset: u64,
    count: nat,
)
    requires
        holds_at(data, pos, dict_entry_bytes(word, offset, count)),
        byte_len(word) <= u32::MAX,
        count <= u32::MAX,
    ensures
        crate::io_util::parse_str(data, pos) == Some((word, pos + 4 + byte_len(word))),
        crate::io_util::parse_u64(data, pos + 4 + byte_len(word)) == Some(
            (offset, pos + 12 + byte_len(word)),
        ),
        crate::io_util::parse_u32(data, pos + 12 + byte_len(word)) == Some(
            (count as u32, pos + 16 + byte_len(word)),
        ),
        dict_entry_bytes(word, offset, count).len() == 16 + byte_len(word),
{
    assert(len32(count) == count);
    lemma_holds_split(data, pos, str_bytes(word) + u64_bytes(offset), u32_bytes(len32(count)));
    lemma_holds_split(data, pos, str_bytes(word), u64_bytes(offset));
    lemma_parse_written_str(data, pos, word);
    lemma_u64_round_trip(offset);
    lemma_parse_written_u64(data, pos + 4 + byte_len(word), offset);
    lemma_u32_round_trip(len32(count));
    lemma_parse_written_u32(data, pos + 12 + byte_len(word), len32(count));
}

/// The next word of the saved dictionary is new to the entries before it.
pub proof fn lemma_saved_dict_next(inv: Seq<(Seq<char>, Seq<Posting>)>, base: int, k: int)
    requires
        distinct_keys(inv),
        0 <= k < inv.len(),
    ensures
        upsert(saved_dict(inv, base).take(k), inv[k].0, saved_dict(inv, base)[k].1) == saved_dict(
            inv,
            base,
        ).take(k + 1),
{
    let dict = saved_dict(inv, base);
    let acc = dict.take(k);
    let word = inv[k].0;
    assert(!has_key(acc, word)) by {
        if has_key(acc, word) {
            let j = choose|j: int| 0 <= j < acc.len() && (#[trigger] acc[j]).0 == word;
            assert(inv[j].0 == inv[k].0);
        }
    }
    assert(acc.push((word, dict[k].1)) =~= dict.take(k + 1));
}

/// A written dictionary is read back, from any entry on.
pub proof fn lemma_parse_written_dict(
    data: Seq<u8>,
    start: int,
    inv: Seq<(Seq<char>, Seq<Posting>)>,
    base: int,
    k: int,
)
    requires
        lists_fit(inv),
        distinct_keys(inv),
        holds_at(data, start, dict_bytes(inv, base, inv.len() as int)),
        0 <= k <= inv.len(),
    ensures
        parse_dict(
            data,
            start + start_of(dict_pieces(inv, base), k),
            (inv.len() - k) as nat,
            saved_dict(inv, base).take(k),
        ) == Some((saved_dict(inv, base), start + dict_bytes(inv, base, inv.len() as int).len())),
    decreases inv.len() - k,
{
    let pieces = dict_pieces(inv, base);
    let dict = saved_dict(inv, base);
    lemma_dict_bytes_join(inv, base, inv.len() as int);
    assert(pieces.take(inv.len() as int) =~= pieces);
    if k == inv.len() {
        assert(dict.take(k) =~= dict);
    } else {
        let pos = start + start_of(pieces, k);
        lemma_join_at(data, start, pieces, k);
        lemma_parse_written_entry(data, pos, inv[k].0, blob_offset(inv, base, k), inv[k].1.len());
        lemma_saved_dict_next(inv, base, k);
        lemma_parse_written_dict(data, start, inv, base, k + 1);
    }
}

/// The part of the file before the dictionary.
pub open spec fn body_bytes(
    docs: Seq<(Seq<char>, Seq<char>, Seq<char>)>,
    inv: Seq<(Seq<char>, Seq<Posting>)>,
) -> Seq<u8> {
    head_bytes(docs) + blobs_bytes(inv)
}

/// The dictionary as it is written: the number of entries and the entries.
pub open spec fn dict_part(inv: Seq<(Seq<char>, Seq<Posting>)>, base: int) -> Seq<u8> {
    u32_bytes(len32(inv.len())) + dict_bytes(inv, base, inv.len() as int)
}

/// The footer of a saved file points at the dictionary, and the file parts
/// there into the documents with the posting lists and the dictionary.
pub proof fn lemma_saved_parts(
    docs: Seq<(Seq<char>, Seq<char>, Seq<char>)>,
    inv: Seq<(Seq<char>, Seq<Posting>)>,
)
    requires
        index_bytes(docs, inv).len() <= u64::MAX,
    ensures
        index_bytes(docs, inv).len() >= body_bytes(docs, inv).len() + 12,
        footer_offset(index_bytes(docs, inv)) == body_bytes(docs, inv).len(),
        index_bytes(docs, inv).subrange(0, body_bytes(docs, inv).len() as int) == body_bytes(
            docs,
            inv,
        ),
        index_bytes(docs, inv).subrange(
            body_bytes(docs, inv).len() as int,
            index_bytes(docs, inv).len() - 8,
        ) == dict_part(inv, head_bytes(docs).len() as int),
{
    let body = body_bytes(docs, inv);
    let base = head_bytes(docs).len() as int;
    let part = dict_part(inv, base);
    let footer = u64_bytes(body.len() as u64);
    let bytes = index_bytes(docs, inv);
    lemma_u64_round_trip(body.len() as u64);
    lemma_u32_round_trip(len32(inv.len()));
    assert(tail_bytes(inv, base, body.len() as int) == part + footer);
    assert(bytes == body + (part + footer));
    assert(bytes.subrange(bytes.len() - 8, bytes.len() as int) =~= footer);
    assert(bytes.subrange(0, body.len() as int) =~= body);
    assert(bytes.subrange(body.len() as int, bytes.len() - 8) =~= part);
}

/// The documents of a saved file are read back.
pub proof fn lemma_saved_docs(
    docs: Seq<(Seq<char>, Seq<char>, Seq<char>)>,
    inv: Seq<(Seq<char>, Seq<Posting>)>,
)
    requires
        docs.len() <= u32::MAX,
        docs_fit(docs),
    ensures
        table_docs(body_bytes(docs, inv)) == Some(docs),
{
    let body = body_bytes(docs, inv);
    let count = u32_bytes(len32(docs.len()));
    lemma_u32_round_trip(len32(docs.len()));
    assert(len32(docs.len()) == docs.len());
    lemma_holds_appended(head_bytes(docs), blobs_bytes(inv));
    lemma_holds_split(body, 0, count, docs_bytes(docs));
    lemma_parse_written_u32(body, 0, len32(docs.len()));
    lemma_parse_written_docs(body, 4, docs, 0);
    assert(doc_pieces(docs).take(0) =~= Seq::<Seq<u8>>::empty());
    assert(docs.take(0) =~= Seq::empty());
}

/// The dictionary of a saved file is read back.
pub proof fn lemma_saved_dict_read(inv: Seq<(Seq<char>, Seq<Posting>)>, base: int)
    requires
        inv.len() <= u32::MAX,
        lists_fit(inv),
        distinct_keys(inv),
    ensures
        table_dict(dict_part(inv, base)) == Some(saved_dict(inv, base)),
{
    let part = dict_part(inv, base);
    let count = u32_bytes(len32(inv.len()));
    lemma_u32_round_trip(len32(inv.len()));
    assert(len32(inv.len()) == inv.len());
    lemma_holds_appended(count, dict_bytes(inv, base, inv.len() as int));
    lemma_parse_written_u32(part, 0, len32(inv.len()));
    lemma_parse_written_dict(part, 4, inv, base, 0);
    assert(dict_pieces(inv, base).take(0) =~= Seq::<Seq<u8>>::empty());
    assert(saved_dict(inv, base).take(0) =~= Seq::empty());
}

/// The posting list of each term stands in the saved file at the place
/// that the dictionary gives for it.
pub proof fn lemma_saved_postings(
    docs: Seq<(Seq<char>, Seq<char>, Seq<char>)>,
    inv: Seq<(Seq<char>, Seq<Posting>)>,
    i: int,
)
    requires
        index_bytes(docs, inv).len() <= u64::MAX,
        0 <= i < inv.len(),
    ensures
        holds_at(
            index_bytes(docs, inv),
            blob_offset(inv, head_bytes(docs).len() as int, i) as int,
            postings_bytes(inv[i].1),
        ),
{
    let head = head_bytes(docs);
    let body = body_bytes(docs, inv);
    let base = head.len() as int;
    let bytes = index_bytes(docs, inv);
    let pieces = blob_pieces(inv);
    lemma_holds_appended(head, blobs_bytes(inv));
    lemma_blobs_bytes_join(inv);
    lemma_join_at(body, base, pieces, i);
    lemma_blob_start(inv, i);
    assert(bytes == body + tail_bytes(inv, base, body.len() as int));
    lemma_holds_extended(
        body,
        tail_bytes(inv, base, body.len() as int),
        base + start_of(pieces, i),
        pieces[i],
    );
    assert(base + start_of(pieces, i) <= body.len());
}

/// Loading what was saved: the file is accepted, its documents are the
/// documents saved, its dictionary has the words saved in their order, and
/// the postings that the dictionary points at are the lists saved.
pub proof fn lemma_load_after_save(
    docs: Seq<(Seq<char>, Seq<char>, Seq<char>)>,
    inv: Seq<(Seq<char>, Seq<Posting>)>,
)
    requires
        docs.len() <= u32::MAX,
        inv.len() <= u32::MAX,
        docs_fit(docs),
        lists_fit(inv),
        distinct_keys(inv),
        forall|i: int, k: int|
            0 <= i < inv.len() && 0 <= k < inv[i].1.len() ==> (#[trigger] inv[i].1[k]).doc_id
                < docs.len(),
        index_bytes(docs, inv).len() <= u64::MAX,
    ensures
        file_contents(index_bytes(docs, inv)) == Ok::<_, LoadError>(
            (docs, saved_dict(inv, head_bytes(docs).len() as int)),
        ),
        forall|i: int|
            0 <= i < inv.len() ==> postings_at(
                index_bytes(docs, inv),
                (#[trigger] saved_dict(inv, head_bytes(docs).len() as int)[i]).1.0 as int,
                saved_dict(inv, head_bytes(docs).len() as int)[i].1.1 as nat,
            ) == inv[i].1,
{
    let bytes = index_bytes(docs, inv);
    let base = head_bytes(docs).len() as int;
    let dict = saved_dict(inv, base);
    lemma_saved_parts(docs, inv);
    lemma_saved_docs(docs, inv);
    lemma_saved_dict_read(inv, base);
    assert(file_docs(bytes) == Some(docs));
    assert(file_dict(bytes) == Some(dict));
    assert forall|i: int| 0 <= i < inv.len() implies postings_at(
        bytes,
        (#[trigger] dict[i]).1.0 as int,
        dict[i].1.1 as nat,
    ) == inv[i].1 && entry_valid(bytes, dict[i].1, docs.len() as int) by {
        lemma_saved_postings(docs, inv, i);
        lemma_postings_bytes_join(inv[i].1);
        lemma_read_written_postings(bytes, dict[i].1.0 as int, inv[i].1);
        assert forall|k: int| 0 <= k < dict[i].1.1 implies (#[trigger] posting_at(
            bytes,
            dict[i].1.0 + 8 * k,
        )).doc_id < docs.len() by {
            assert(postings_at(bytes, dict[i].1.0 as int, inv[i].1.len())[k] == inv[i].1[k]);
        }
    }
    assert(postings_valid(bytes, dict, docs.len() as int));
}

} // verus!
