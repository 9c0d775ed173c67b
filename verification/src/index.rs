//! The index as it is built in memory, the index as it is read back from a
//! memory-mapped file, and the file format between the two.

use crate::io_util::{
    lemma_append_assoc, len32, parse_str, parse_u32, parse_u64, read_str, read_u32, read_u64,
    str_bytes, u32_at, u32_bytes, u32_value, u64_bytes, u64_value, write_str, write_u32,
    write_u64, ByteReader,
};
use crate::strmap::{
    append_item, distinct_keys, index_of_key, items, lemma_append_item_contains, lists, lookup,
    upsert, StrMap,
};
use crate::text::{make_stemmer, tokenize, tokens_of};
use crate::unicode::views;
use vstd::prelude::*;
use vstd::slice::slice_subrange;

verus! {

/// One entry of a posting list. The score is carried as the bit pattern of
/// an IEEE-754 single-precision number; the library orders and tests such
/// patterns but never does arithmetic on them.
#[derive(Clone, Copy, Debug, PartialEq, Eq, Structural)]
pub struct Posting {
    pub doc_id: u32,
    pub score: u32,
}

/// Whether a score pattern stands for a number strictly above zero: the sign
/// bit is clear, the pattern is not zero, and it is no NaN.
pub open spec fn positive_score(bits: u32) -> bool {
    0 < bits <= 0x7f80_0000
}

/// The index as the builder leaves it.
pub struct Index {
    pub doc_map: Vec<String>,
    pub cmd_names: Vec<String>,
    pub name_descs: Vec<String>,
    pub inverted: StrMap<Vec<Posting>>,
    pub cmd_name_index: StrMap<Vec<u32>>,
    pub desc_index: StrMap<Vec<u32>>,
}

#[verifier::external_type_specification]
#[verifier::external_body]
pub struct ExMmap(memmap2::Mmap);

/// The bytes that a read-only memory map of `memmap2` gives access to.
pub uninterp spec fn mapped_bytes(m: &memmap2::Mmap) -> Seq<u8>;

/// Borrows the mapped bytes through `memmap2::Mmap`'s `Deref`. Trusted: the
/// slice is the map's content. A read-only map hands out a shared slice, so
/// the content is fixed for as long as the map lives; whoever made the map
/// has vouched that the file is not changed underneath it.
#[verifier::external_body]
fn mmap_slice(m: &memmap2::Mmap) -> (data: &[u8])
    ensures
        data@ == mapped_bytes(m),
{
    &m[..]
}

/// The index as queries use it: documents and dictionary in memory, posting
/// lists left in the mapped file.
pub struct MmapIndex {
    pub doc_map: Vec<String>,
    pub cmd_names: Vec<String>,
    pub name_descs: Vec<String>,
    /// word -> (byte offset, number of postings)
    pub inverted_dict: StrMap<(u64, u32)>,
    pub cmd_name_index: StrMap<Vec<u32>>,
    pub desc_index: StrMap<Vec<u32>>,
    /// The mapped file; posting lists are read from it on demand.
    pub mmap: memmap2::Mmap,
}

/// Why a file is refused as an index.
#[derive(Clone, Copy, Debug, PartialEq, Eq, Structural)]
pub enum LoadError {
    /// Fewer than the eight bytes of the footer.
    TooSmall,
    /// The footer points past the place where the footer itself begins.
    BadFooter,
    /// The documents or the dictionary end before their counts say.
    Truncated,
    /// A dictionary entry reaches past the end of the file, or a posting
    /// names a document that the file does not hold.
    BadPosting,
}

/// The posting stored in the eight bytes at `pos`.
pub open spec fn posting_at(bytes: Seq<u8>, pos: int) -> Posting {
    Posting {
        doc_id: u32_value(bytes.subrange(pos, pos + 4)),
        score: u32_value(bytes.subrange(pos + 4, pos + 8)),
    }
}

/// The `count` postings stored from `offset` on.
pub open spec fn postings_at(bytes: Seq<u8>, offset: int, count: nat) -> Seq<Posting> {
    Seq::new(count, |k: int| posting_at(bytes, offset + 8 * k))
}

/// A dictionary entry lies inside the file and names only known documents.
pub open spec fn entry_valid(bytes: Seq<u8>, entry: (u64, u32), doc_count: int) -> bool {
    &&& entry.0 + 8 * entry.1 <= bytes.len()
    &&& forall|k: int|
        0 <= k < entry.1 ==> (#[trigger] posting_at(bytes, entry.0 + 8 * k)).doc_id < doc_count
}

/// Every dictionary entry is valid.
pub open spec fn postings_valid(
    bytes: Seq<u8>,
    dict: Seq<(Seq<char>, (u64, u32))>,
    doc_count: int,
) -> bool {
    forall|i: int| 0 <= i < dict.len() ==> entry_valid(bytes, (#[trigger] dict[i]).1, doc_count)
}

/// Every document id in every list is below `n`.
pub open spec fn ids_below(m: Seq<(Seq<char>, Seq<u32>)>, n: int) -> bool {
    forall|i: int, k: int|
        0 <= i < m.len() && 0 <= k < m[i].1.len() ==> (#[trigger] m[i].1[k]) < n
}

/// Reading `n` more documents into `acc`: file name, command name and
/// description of each.
pub open spec fn parse_docs(
    data: Seq<u8>,
    pos: int,
    n: nat,
    acc: Seq<(Seq<char>, Seq<char>, Seq<char>)>,
) -> Option<(Seq<(Seq<char>, Seq<char>, Seq<char>)>, int)>
    decreases n,
{
    if n == 0 {
        Some((acc, pos))
    } else {
        match parse_str(data, pos) {
            Some((fname, at1)) => match parse_str(data, at1) {
                Some((cmd, at2)) => match parse_str(data, at2) {
                    Some((desc, at3)) => parse_docs(
                        data,
                        at3,
                        (n - 1) as nat,
                        acc.push((fname, cmd, desc)),
                    ),
                    None => None,
                },
                None => None,
            },
            None => None,
        }
    }
}

/// Reading `n` more dictionary entries into `acc`. A word that comes again
/// replaces its earlier entry.
pub open spec fn parse_dict(
    data: Seq<u8>,
    pos: int,
    n: nat,
    acc: Seq<(Seq<char>, (u64, u32))>,
) -> Option<(Seq<(Seq<char>, (u64, u32))>, int)>
    decreases n,
{
    if n == 0 {
        Some((acc, pos))
    } else {
        match parse_str(data, pos) {
            Some((word, at1)) => match parse_u64(data, at1) {
                Some((offset, at2)) => match parse_u32(data, at2) {
                    Some((count, at3)) => parse_dict(
                        data,
                        at3,
                        (n - 1) as nat,
                        upsert(acc, word, (offset, count)),
                    ),
                    None => None,
                },
                None => None,
            },
            None => None,
        }
    }
}

/// The dictionary offset that the last eight bytes of the file hold.
pub open spec fn footer_offset(bytes: Seq<u8>) -> u64 {
    u64_value(bytes.subrange(bytes.len() - 8, bytes.len() as int))
}

/// The documents that a byte string holds: their number, then each of
/// them.
pub open spec fn table_docs(head: Seq<u8>) -> Option<Seq<(Seq<char>, Seq<char>, Seq<char>)>> {
    match parse_u32(head, 0) {
        Some((n, start)) => match parse_docs(head, start, n as nat, Seq::empty()) {
            Some((docs, end)) => Some(docs),
            None => None,
        },
        None => None,
    }
}

/// The dictionary that a byte string holds: the number of entries, then
/// each of them.
pub open spec fn table_dict(part: Seq<u8>) -> Option<Seq<(Seq<char>, (u64, u32))>> {
    match parse_u32(part, 0) {
        Some((n, start)) => match parse_dict(part, start, n as nat, Seq::empty()) {
            Some((dict, end)) => Some(dict),
            None => None,
        },
        None => None,
    }
}

/// The documents of a file, read from the part before the dictionary.
pub open spec fn file_docs(bytes: Seq<u8>) -> Option<Seq<(Seq<char>, Seq<char>, Seq<char>)>> {
    table_docs(bytes.subrange(0, footer_offset(bytes) as int))
}

/// The dictionary of a file, read from the part between the dictionary
/// offset and the footer.
pub open spec fn file_dict(bytes: Seq<u8>) -> Option<Seq<(Seq<char>, (u64, u32))>> {
    table_dict(bytes.subrange(footer_offset(bytes) as int, bytes.len() - 8))
}

/// What loading a file gives: its documents and dictionary, or the reason
/// for which it is refused.
pub open spec fn file_contents(bytes: Seq<u8>) -> Result<
    (Seq<(Seq<char>, Seq<char>, Seq<char>)>, Seq<(Seq<char>, (u64, u32))>),
    LoadError,
> {
    if bytes.len() < 8 {
        Err(LoadError::TooSmall)
    } else if footer_offset(bytes) > bytes.len() - 8 {
        Err(LoadError::BadFooter)
    } else {
        match (file_docs(bytes), file_dict(bytes)) {
            (Some(docs), Some(dict)) => if postings_valid(bytes, dict, docs.len() as int) {
                Ok((docs, dict))
            } else {
                Err(LoadError::BadPosting)
            },
            _ => Err(LoadError::Truncated),
        }
    }
}

/// The command-name index of the first `n` documents: for each non-empty
/// command name the ids of the documents that carry it, ascending.
pub open spec fn cmd_index_of(cmds: Seq<Seq<char>>, n: int) -> Seq<(Seq<char>, Seq<u32>)>
    decreases n,
{
    if n <= 0 {
        Seq::empty()
    } else {
        let before = cmd_index_of(cmds, n - 1);
        if cmds[n - 1].len() > 0 {
            append_item(before, cmds[n - 1], (n - 1) as u32)
        } else {
            before
        }
    }
}

/// `m` after document `doc` was appended once for each of the first `n`
/// tokens.
pub open spec fn add_tokens(
    m: Seq<(Seq<char>, Seq<u32>)>,
    tokens: Seq<Seq<char>>,
    n: int,
    doc: u32,
) -> Seq<(Seq<char>, Seq<u32>)>
    decreases n,
{
    if n <= 0 {
        m
    } else {
        append_item(add_tokens(m, tokens, n - 1, doc), tokens[n - 1], doc)
    }
}

/// The description index of the first `n` documents: for each token of a
/// description the ids of the documents whose description holds it, once
/// for each occurrence.
pub open spec fn desc_index_of(descs: Seq<Seq<char>>, n: int) -> Seq<(Seq<char>, Seq<u32>)>
    decreases n,
{
    if n <= 0 {
        Seq::empty()
    } else {
        let tokens = tokens_of(descs[n - 1]);
        add_tokens(desc_index_of(descs, n - 1), tokens, tokens.len() as int, (n - 1) as u32)
    }
}

/// Appending an id below `n` keeps all ids below `n`.
pub proof fn lemma_append_keeps_ids_below(
    m: Seq<(Seq<char>, Seq<u32>)>,
    k: Seq<char>,
    doc: u32,
    n: int,
)
    requires
        ids_below(m, n),
        doc < n,
    ensures
        ids_below(append_item(m, k, doc), n),
{
    let u = append_item(m, k, doc);
    assert forall|i: int, j: int| 0 <= i < u.len() && 0 <= j < u[i].1.len() implies (
    #[trigger] u[i].1[j]) < n by {
        if i < m.len() && u[i] == m[i] {
            assert(m[i].1[j] < n);
        } else {
            let l = items(m, k);
            assert(u[i].1 == l.push(doc));
            if j < l.len() {
                let at = crate::strmap::index_of_key(m, k);
                assert(m[at].1[j] < n);
            }
        }
    }
}

/// File name, command name and description of each document.
pub open spec fn doc_triples(
    fnames: Seq<String>,
    cmds: Seq<String>,
    descs: Seq<String>,
) -> Seq<(Seq<char>, Seq<char>, Seq<char>)> {
    Seq::new(fnames.len(), |i: int| (fnames[i]@, cmds[i]@, descs[i]@))
}

impl MmapIndex {
    /// The bytes of the mapped file.
    pub open spec fn bytes(&self) -> Seq<u8> {
        mapped_bytes(&self.mmap)
    }

    /// The documents as the file holds them.
    pub open spec fn docs(&self) -> Seq<(Seq<char>, Seq<char>, Seq<char>)> {
        doc_triples(self.doc_map@, self.cmd_names@, self.name_descs@)
    }

    /// The three document arrays run in parallel, every dictionary entry
    /// lies inside the file and names known documents, and so does the
    /// description index.
    pub open spec fn wf(&self) -> bool {
        &&& self.doc_map@.len() == self.cmd_names@.len()
        &&& self.doc_map@.len() == self.name_descs@.len()
        &&& self.doc_map@.len() <= u32::MAX
        &&& distinct_keys(self.inverted_dict@)
        &&& postings_valid(self.bytes(), self.inverted_dict@, self.doc_map@.len() as int)
        &&& ids_below(lists(self.desc_index@), self.doc_map@.len() as int)
    }

    /// The posting list of `word`, copied out of the mapped file.
    pub fn get_postings(&self, word: &str) -> (r: Option<Vec<Posting>>)
        requires
            self.wf(),
        ensures
            match lookup(self.inverted_dict@, word@) {
                Some(entry) => r.is_some() && r.unwrap()@ == postings_at(
                    self.bytes(),
                    entry.0 as int,
                    entry.1 as nat,
                ),
                None => r.is_none(),
            },
    {
        let i = match self.inverted_dict.find(word) {
            Some(i) => i,
            None => {
                return None;
            },
        };
        Some(self.postings_of_entry(i))
    }

    /// The posting list of the dictionary entry at `i`.
    pub fn postings_of_entry(&self, i: usize) -> (out: Vec<Posting>)
        requires
            self.wf(),
            i < self.inverted_dict@.len(),
        ensures
            out@ == postings_at(
                self.bytes(),
                self.inverted_dict@[i as int].1.0 as int,
                self.inverted_dict@[i as int].1.1 as nat,
            ),
    {
        let entry = *self.inverted_dict.value(i);
        let data = mmap_slice(&self.mmap);
        let len = data.len();
        assert(entry_valid(self.bytes(), self.inverted_dict@[i as int].1, self.doc_map@.len() as int));
        assert(entry.0 + 8 * entry.1 <= len);
        let count = entry.1 as usize;
        let offset = entry.0 as usize;
        let mut out: Vec<Posting> = Vec::with_capacity(count);
        let mut k: usize = 0;
        while k < count
            invariant
                k <= count,
                data@.len() <= usize::MAX,
                count == entry.1,
                offset == entry.0,
                offset + 8 * count <= data@.len(),
                out@ == postings_at(data@, offset as int, k as nat),
            decreases count - k,
        {
            let pos = offset + 8 * k;
            let doc_id = u32_at(data, pos);
            let score = u32_at(data, pos + 4);
            out.push(Posting { doc_id, score });
            assert(out@ =~= postings_at(data@, offset as int, (k + 1) as nat));
            k += 1;
        }
        out
    }
}

/// Whether the dictionary entry lies inside the file and names only known
/// documents.
fn check_entry(data: &[u8], entry: (u64, u32), doc_count: usize) -> (ok: bool)
    ensures
        ok == entry_valid(data@, entry, doc_count as int),
{
    let len = data.len();
    if entry.0 > len as u64 {
        return false;
    }
    let offset = entry.0 as usize;
    let room = (len - offset) as u64;
    if (entry.1 as u64) * 8 > room {
        return false;
    }
    let count = entry.1 as usize;
    let mut k: usize = 0;
    while k < count
        invariant
            k <= count,
            data@.len() <= usize::MAX,
            count == entry.1,
            offset == entry.0,
            offset + 8 * count <= data@.len(),
            forall|j: int|
                0 <= j < k ==> (#[trigger] posting_at(data@, entry.0 + 8 * j)).doc_id < doc_count,
        decreases count - k,
    {
        let doc_id = u32_at(data, offset + 8 * k);
        if doc_id as u64 >= doc_count as u64 {
            assert(posting_at(data@, entry.0 + 8 * k).doc_id >= doc_count);
            return false;
        }
        k += 1;
    }
    true
}

/// Whether every dictionary entry is valid.
fn check_postings(data: &[u8], dict: &StrMap<(u64, u32)>, doc_count: usize) -> (ok: bool)
    ensures
        ok == postings_valid(data@, dict@, doc_count as int),
{
    let mut i: usize = 0;
    while i < dict.len()
        invariant
            i <= dict@.len(),
            forall|j: int|
                0 <= j < i ==> entry_valid(data@, (#[trigger] dict@[j]).1, doc_count as int),
        decreases dict@.len() - i,
    {
        if !check_entry(data, *dict.value(i), doc_count) {
            return false;
        }
        i += 1;
    }
    true
}

/// Rebuilds the description index by tokenising each stored description.
fn rebuild_desc_index(name_descs: &Vec<String>) -> (index: StrMap<Vec<u32>>)
    requires
        name_descs@.len() <= u32::MAX,
    ensures
        lists(index@) == desc_index_of(views(name_descs@), name_descs@.len() as int),
        ids_below(lists(index@), name_descs@.len() as int),
{
    let stemmer = make_stemmer();
    let mut index: StrMap<Vec<u32>> = StrMap::new();
    assert(lists(index@) =~= desc_index_of(views(name_descs@), 0));
    let mut d: usize = 0;
    while d < name_descs.len()
        invariant
            d <= name_descs@.len(),
            name_descs@.len() <= u32::MAX,
            lists(index@) == desc_index_of(views(name_descs@), d as int),
            ids_below(lists(index@), name_descs@.len() as int),
        decreases name_descs@.len() - d,
    {
        let tokens = tokenize(name_descs[d].as_str(), &stemmer);
        let ghost start = lists(index@);
        let mut t: usize = 0;
        while t < tokens.len()
            invariant
                t <= tokens@.len(),
                d < name_descs@.len(),
                name_descs@.len() <= u32::MAX,
                lists(index@) == add_tokens(start, views(tokens@), t as int, d as u32),
                ids_below(lists(index@), name_descs@.len() as int),
            decreases tokens@.len() - t,
        {
            proof {
                lemma_append_keeps_ids_below(
                    lists(index@),
                    tokens@[t as int]@,
                    d as u32,
                    name_descs@.len() as int,
                );
            }
            index.push_item(tokens[t].as_str(), d as u32);
            t += 1;
        }
        d += 1;
    }
    index
}

/// The document arrays of an index and its command-name index.
pub struct DocTable {
    pub doc_map: Vec<String>,
    pub cmd_names: Vec<String>,
    pub name_descs: Vec<String>,
    pub cmd_name_index: StrMap<Vec<u32>>,
}

/// Reads the documents and builds the command-name index from them.
fn read_docs(head: &[u8]) -> (res: Option<DocTable>)
    ensures
        match res {
            Some(t) => {
                &&& table_docs(head@) == Some(doc_triples(t.doc_map@, t.cmd_names@, t.name_descs@))
                &&& t.doc_map@.len() == t.cmd_names@.len()
                &&& t.doc_map@.len() == t.name_descs@.len()
                &&& t.doc_map@.len() <= u32::MAX
                &&& lists(t.cmd_name_index@) == cmd_index_of(
                    views(t.cmd_names@),
                    t.cmd_names@.len() as int,
                )
            },
            None => table_docs(head@).is_none(),
        },
{
    let mut r = ByteReader::new(head);
    let doc_count = match read_u32(&mut r) {
        Ok(n) => n,
        Err(e) => {
            return None;
        },
    };
    let mut doc_map: Vec<String> = Vec::new();
    let mut cmd_names: Vec<String> = Vec::new();
    let mut name_descs: Vec<String> = Vec::new();
    let mut cmd_name_index: StrMap<Vec<u32>> = StrMap::new();
    assert(doc_triples(doc_map@, cmd_names@, name_descs@) =~= Seq::empty());
    assert(lists(cmd_name_index@) =~= cmd_index_of(views(cmd_names@), 0));
    let mut doc_id: u32 = 0;
    while doc_id < doc_count
        invariant
            doc_id <= doc_count,
            r.bytes() == head@,
            doc_map@.len() == doc_id,
            cmd_names@.len() == doc_id,
            name_descs@.len() == doc_id,
            table_docs(head@) == (match parse_docs(
                head@,
                r.at(),
                (doc_count - doc_id) as nat,
                doc_triples(doc_map@, cmd_names@, name_descs@),
            ) {
                Some((docs, end)) => Some(docs),
                None => None,
            }),
            lists(cmd_name_index@) == cmd_index_of(views(cmd_names@), doc_id as int),
        decreases doc_count - doc_id,
    {
        let fname = match read_str(&mut r) {
            Ok(s) => s,
            Err(e) => {
                return None;
            },
        };
        let cmd_name = match read_str(&mut r) {
            Ok(s) => s,
            Err(e) => {
                return None;
            },
        };
        let name_desc = match read_str(&mut r) {
            Ok(s) => s,
            Err(e) => {
                return None;
            },
        };
        let ghost before = doc_triples(doc_map@, cmd_names@, name_descs@);
        let ghost cmds_before = views(cmd_names@);
        if !cmd_name.as_str().is_empty() {
            cmd_name_index.push_item(cmd_name.as_str(), doc_id);
        }
        doc_map.push(fname);
        cmd_names.push(cmd_name);
        name_descs.push(name_desc);
        proof {
            assert(doc_triples(doc_map@, cmd_names@, name_descs@) =~= before.push(
                (fname@, cmd_name@, name_desc@),
            ));
            lemma_cmd_index_prefix(cmds_before, views(cmd_names@), doc_id as int);
        }
        doc_id += 1;
    }
    Some(DocTable { doc_map, cmd_names, name_descs, cmd_name_index })
}

/// Reads the dictionary.
fn read_dict(part: &[u8]) -> (res: Option<StrMap<(u64, u32)>>)
    ensures
        match res {
            Some(dict) => table_dict(part@) == Some(dict@),
            None => table_dict(part@).is_none(),
        },
{
    let mut r = ByteReader::new(part);
    let dict_len = match read_u32(&mut r) {
        Ok(n) => n,
        Err(e) => {
            return None;
        },
    };
    let mut dict: StrMap<(u64, u32)> = StrMap::new();
    let mut i: u32 = 0;
    while i < dict_len
        invariant
            i <= dict_len,
            r.bytes() == part@,
            table_dict(part@) == (match parse_dict(part@, r.at(), (dict_len - i) as nat, dict@) {
                Some((d, end)) => Some(d),
                None => None,
            }),
        decreases dict_len - i,
    {
        let word = match read_str(&mut r) {
            Ok(s) => s,
            Err(e) => {
                return None;
            },
        };
        let offset = match read_u64(&mut r) {
            Ok(v) => v,
            Err(e) => {
                return None;
            },
        };
        let num_postings = match read_u32(&mut r) {
            Ok(v) => v,
            Err(e) => {
                return None;
            },
        };
        dict.insert(word, (offset, num_postings));
        i += 1;
    }
    Some(dict)
}

/// The dictionary offset in the footer of a file of at least eight bytes.
fn read_footer(data: &[u8]) -> (offset: u64)
    requires
        data@.len() >= 8,
    ensures
        offset == footer_offset(data@),
{
    let len = data.len();
    let lo = u32_at(data, len - 8);
    let hi = u32_at(data, len - 4);
    let ghost tail = data@.subrange(len - 8, len as int);
    assert(tail.subrange(0, 4) =~= data@.subrange(len - 8, len - 4));
    assert(tail.subrange(4, 8) =~= data@.subrange(len - 4, len as int));
    lo as u64 + (hi as u64) * 0x1_0000_0000
}

/// Reads an index out of a memory-mapped file. The footer is read first,
/// then the documents before the dictionary and the dictionary itself; the
/// posting lists stay in the file and are only checked.
pub fn load_index(mmap: memmap2::Mmap) -> (res: Result<MmapIndex, LoadError>)
    ensures
        match res {
            Ok(index) => {
                &&& index.wf()
                &&& index.bytes() == mapped_bytes(&mmap)
                &&& file_contents(index.bytes()) == Ok::<_, LoadError>(
                    (index.docs(), index.inverted_dict@),
                )
                &&& lists(index.cmd_name_index@) == cmd_index_of(
                    views(index.cmd_names@),
                    index.cmd_names@.len() as int,
                )
                &&& lists(index.desc_index@) == desc_index_of(
                    views(index.name_descs@),
                    index.name_descs@.len() as int,
                )
            },
            Err(e) => file_contents(mapped_bytes(&mmap)) == Err::<
                (Seq<(Seq<char>, Seq<char>, Seq<char>)>, Seq<(Seq<char>, (u64, u32))>),
                _,
            >(e),
        },
{
    let data = mmap_slice(&mmap);
    let len = data.len();
    if len < 8 {
        return Err(LoadError::TooSmall);
    }
    let dict_offset = read_footer(data);
    if dict_offset > (len - 8) as u64 {
        return Err(LoadError::BadFooter);
    }
    let dict_offset = dict_offset as usize;
    let table = match read_docs(slice_subrange(data, 0, dict_offset)) {
        Some(t) => t,
        None => {
            return Err(LoadError::Truncated);
        },
    };
    let inverted_dict = match read_dict(slice_subrange(data, dict_offset, len - 8)) {
        Some(d) => d,
        None => {
            return Err(LoadError::Truncated);
        },
    };
    if !check_postings(data, &inverted_dict, table.doc_map.len()) {
        return Err(LoadError::BadPosting);
    }
    let desc_index = rebuild_desc_index(&table.name_descs);
    inverted_dict.keys_distinct();
    Ok(
        MmapIndex {
            doc_map: table.doc_map,
            cmd_names: table.cmd_names,
            name_descs: table.name_descs,
            inverted_dict,
            cmd_name_index: table.cmd_name_index,
            desc_index,
            mmap,
        },
    )
}

/// The command-name index of the first `n` documents depends on those
/// documents only.
pub proof fn lemma_cmd_index_prefix(a: Seq<Seq<char>>, b: Seq<Seq<char>>, n: int)
    requires
        0 <= n <= a.len(),
        n <= b.len(),
        forall|i: int| 0 <= i < n ==> a[i] == b[i],
    ensures
        cmd_index_of(a, n) == cmd_index_of(b, n),
    decreases n,
{
    if n > 0 {
        lemma_cmd_index_prefix(a, b, n - 1);
    }
}

/// Every posting names a document below `n` and carries a positive score.
pub open spec fn postings_ok(m: Seq<(Seq<char>, Seq<Posting>)>, n: int) -> bool {
    forall|i: int, k: int|
        0 <= i < m.len() && 0 <= k < m[i].1.len() ==> (#[trigger] m[i].1[k]).doc_id < n
            && positive_score(m[i].1[k].score)
}

/// Appending a sound posting keeps all postings sound.
pub proof fn lemma_append_keeps_postings_ok(
    m: Seq<(Seq<char>, Seq<Posting>)>,
    term: Seq<char>,
    p: Posting,
    n: int,
)
    requires
        postings_ok(m, n),
        p.doc_id < n,
        positive_score(p.score),
    ensures
        postings_ok(append_item(m, term, p), n),
{
    let u = append_item(m, term, p);
    assert forall|i: int, k: int| 0 <= i < u.len() && 0 <= k < u[i].1.len() implies (
    #[trigger] u[i].1[k]).doc_id < n && positive_score(u[i].1[k].score) by {
        if i < m.len() && u[i] == m[i] {
            assert(m[i].1[k].doc_id < n);
        } else {
            let l = items(m, term);
            assert(u[i].1 == l.push(p));
            if k < l.len() {
                let at = index_of_key(m, term);
                assert(m[at].1[k].doc_id < n);
            }
        }
    }
}

impl Index {
    /// The three document arrays run in parallel; every posting names a
    /// known document and carries a positive score; every list is ordered
    /// by descending score.
    pub open spec fn wf(&self) -> bool {
        &&& self.doc_map@.len() == self.cmd_names@.len()
        &&& self.doc_map@.len() == self.name_descs@.len()
        &&& self.doc_map@.len() <= u32::MAX
        &&& postings_ok(lists(self.inverted@), self.doc_map@.len() as int)
        &&& forall|i: int|
            0 <= i < self.inverted@.len() ==> crate::rank::sorted_desc(
                (#[trigger] lists(self.inverted@)[i]).1,
            )
    }
}

/// The documents on the wire: file name, command name and description of
/// each, one document after another.
pub open spec fn docs_bytes(docs: Seq<(Seq<char>, Seq<char>, Seq<char>)>) -> Seq<u8>
    decreases docs.len(),
{
    if docs.len() == 0 {
        Seq::empty()
    } else {
        docs_bytes(docs.drop_last()) + (str_bytes(docs.last().0) + str_bytes(docs.last().1)
            + str_bytes(docs.last().2))
    }
}

/// A posting on the wire: the document id, then the score.
pub open spec fn posting_bytes(p: Posting) -> Seq<u8> {
    u32_bytes(p.doc_id) + u32_bytes(p.score)
}

/// A posting list on the wire.
pub open spec fn postings_bytes(list: Seq<Posting>) -> Seq<u8>
    decreases list.len(),
{
    if list.len() == 0 {
        Seq::empty()
    } else {
        postings_bytes(list.drop_last()) + posting_bytes(list.last())
    }
}

/// The posting lists of all terms on the wire, in the order of the terms.
pub open spec fn blobs_bytes(inv: Seq<(Seq<char>, Seq<Posting>)>) -> Seq<u8>
    decreases inv.len(),
{
    if inv.len() == 0 {
        Seq::empty()
    } else {
        blobs_bytes(inv.drop_last()) + postings_bytes(inv.last().1)
    }
}

/// Where the posting list of term `i` begins when the lists begin at
/// `base`.
pub open spec fn blob_offset(inv: Seq<(Seq<char>, Seq<Posting>)>, base: int, i: int) -> u64 {
    (base + blobs_bytes(inv.take(i)).len()) as u64
}

/// One dictionary entry on the wire: the word, where its postings begin,
/// and how many there are.
pub open spec fn dict_entry_bytes(word: Seq<char>, offset: u64, count: nat) -> Seq<u8> {
    str_bytes(word) + u64_bytes(offset) + u32_bytes(len32(count))
}

/// The first `n` dictionary entries on the wire.
pub open spec fn dict_bytes(inv: Seq<(Seq<char>, Seq<Posting>)>, base: int, n: int) -> Seq<u8>
    decreases n,
{
    if n <= 0 {
        Seq::empty()
    } else {
        dict_bytes(inv, base, n - 1) + dict_entry_bytes(
            inv[n - 1].0,
            blob_offset(inv, base, n - 1),
            inv[n - 1].1.len(),
        )
    }
}

/// The part of the file before the posting lists: the number of documents
/// and the documents.
pub open spec fn head_bytes(docs: Seq<(Seq<char>, Seq<char>, Seq<char>)>) -> Seq<u8> {
    u32_bytes(len32(docs.len())) + docs_bytes(docs)
}

/// The part of the file from the dictionary on: the number of entries, the
/// entries, and the footer that points back at the dictionary.
pub open spec fn tail_bytes(
    inv: Seq<(Seq<char>, Seq<Posting>)>,
    base: int,
    dict_offset: int,
) -> Seq<u8> {
    u32_bytes(len32(inv.len())) + dict_bytes(inv, base, inv.len() as int) + u64_bytes(
        dict_offset as u64,
    )
}

/// The index file: documents, posting lists, dictionary, footer.
pub open spec fn index_bytes(
    docs: Seq<(Seq<char>, Seq<char>, Seq<char>)>,
    inv: Seq<(Seq<char>, Seq<Posting>)>,
) -> Seq<u8> {
    let head = head_bytes(docs);
    let body = head + blobs_bytes(inv);
    body + tail_bytes(inv, head.len() as int, body.len() as int)
}

impl Index {
    /// The documents as the file will hold them.
    pub open spec fn docs(&self) -> Seq<(Seq<char>, Seq<char>, Seq<char>)> {
        doc_triples(self.doc_map@, self.cmd_names@, self.name_descs@)
    }
}

/// Appends a posting list.
fn write_postings(w: &mut Vec<u8>, list: &Vec<Posting>)
    ensures
        final(w)@ == old(w)@ + postings_bytes(list@),
{
    let mut k: usize = 0;
    assert(w@ =~= old(w)@ + postings_bytes(list@.take(0)));
    while k < list.len()
        invariant
            k <= list@.len(),
            w@ == old(w)@ + postings_bytes(list@.take(k as int)),
        decreases list@.len() - k,
    {
        let ghost before = postings_bytes(list@.take(k as int));
        let p = list[k];
        write_u32(w, p.doc_id);
        write_u32(w, p.score);
        proof {
            assert(list@.take(k + 1).drop_last() =~= list@.take(k as int));
            assert(list@.take(k + 1).last() == p);
            lemma_append_assoc(old(w)@ + before, u32_bytes(p.doc_id), u32_bytes(p.score));
            lemma_append_assoc(old(w)@, before, posting_bytes(p));
        }
        k += 1;
    }
    assert(list@.take(k as int) =~= list@);
}

/// Writes the index file: the documents, then the posting lists of each
/// term, then the dictionary with the place of each list, then the footer
/// that says where the dictionary begins.
pub fn save_index(index: &Index) -> (w: Vec<u8>)
    requires
        index.doc_map@.len() == index.cmd_names@.len(),
        index.doc_map@.len() == index.name_descs@.len(),
    ensures
        w@ == index_bytes(index.docs(), lists(index.inverted@)),
{
    let ghost docs = index.docs();
    let ghost inv = lists(index.inverted@);
    let mut w: Vec<u8> = Vec::new();
    write_u32(&mut w, crate::io_util::length_field(index.doc_map.len()));
    let n = index.doc_map.len();
    let ghost count_bytes = u32_bytes(len32(docs.len()));
    assert(w@ =~= count_bytes + docs_bytes(docs.take(0)));
    let mut i: usize = 0;
    while i < n
        invariant
            i <= n,
            index.doc_map@.len() == index.cmd_names@.len(),
            index.doc_map@.len() == index.name_descs@.len(),
            n == index.doc_map@.len(),
            docs == index.docs(),
            count_bytes == u32_bytes(len32(docs.len())),
            w@ == count_bytes + docs_bytes(docs.take(i as int)),
        decreases n - i,
    {
        let ghost before = w@;
        let ghost d = docs[i as int];
        write_str(&mut w, index.doc_map[i].as_str());
        write_str(&mut w, index.cmd_names[i].as_str());
        write_str(&mut w, index.name_descs[i].as_str());
        proof {
            assert(docs.take(i + 1).drop_last() =~= docs.take(i as int));
            assert(docs.take(i + 1).last() == d);
            lemma_append_assoc(before, str_bytes(d.0), str_bytes(d.1));
            lemma_append_assoc(before, str_bytes(d.0) + str_bytes(d.1), str_bytes(d.2));
            lemma_append_assoc(
                count_bytes,
                docs_bytes(docs.take(i as int)),
                str_bytes(d.0) + str_bytes(d.1) + str_bytes(d.2),
            );
        }
        i += 1;
    }
    assert(docs.take(n as int) =~= docs);
    let ghost head = w@;
    let terms = index.inverted.len();
    let mut offsets: Vec<u64> = Vec::with_capacity(terms);
    let mut t: usize = 0;
    assert(w@ =~= head + blobs_bytes(inv.take(0)));
    while t < terms
        invariant
            t <= terms,
            terms == index.inverted@.len(),
            inv == lists(index.inverted@),
            head == head_bytes(docs),
            w@ == head + blobs_bytes(inv.take(t as int)),
            offsets@.len() == t,
            forall|j: int| 0 <= j < t ==> offsets@[j] == blob_offset(inv, head.len() as int, j),
        decreases terms - t,
    {
        let offset = w.len() as u64;
        let ghost before = w@;
        write_postings(&mut w, index.inverted.value(t));
        offsets.push(offset);
        proof {
            assert(inv.take(t + 1).drop_last() =~= inv.take(t as int));
            assert(inv.take(t + 1).last() == inv[t as int]);
            lemma_append_assoc(head, blobs_bytes(inv.take(t as int)), postings_bytes(inv[t as int].1));
        }
        t += 1;
    }
    assert(inv.take(terms as int) =~= inv);
    let ghost body = w@;
    let dict_offset = w.len() as u64;
    write_u32(&mut w, crate::io_util::length_field(terms));
    let ghost dict_count = u32_bytes(len32(inv.len()));
    let ghost base = head.len() as int;
    let mut e: usize = 0;
    assert(w@ =~= body + (dict_count + dict_bytes(inv, base, 0)));
    while e < terms
        invariant
            e <= terms,
            terms == index.inverted@.len(),
            inv == lists(index.inverted@),
            offsets@.len() == terms,
            forall|j: int| 0 <= j < terms ==> offsets@[j] == blob_offset(inv, base, j),
            dict_count == u32_bytes(len32(inv.len())),
            w@ == body + (dict_count + dict_bytes(inv, base, e as int)),
        decreases terms - e,
    {
        let ghost before = w@;
        let ghost entry = dict_entry_bytes(
            inv[e as int].0,
            blob_offset(inv, base, e as int),
            inv[e as int].1.len(),
        );
        write_str(&mut w, index.inverted.key(e).as_str());
        write_u64(&mut w, offsets[e]);
        write_u32(&mut w, crate::io_util::length_field(index.inverted.value(e).len()));
        proof {
            lemma_append_assoc(before, str_bytes(inv[e as int].0), u64_bytes(offsets@[e as int]));
            lemma_append_assoc(
                before,
                str_bytes(inv[e as int].0) + u64_bytes(offsets@[e as int]),
                u32_bytes(len32(inv[e as int].1.len())),
            );
            assert(w@ == before + entry);
            lemma_append_assoc(dict_count, dict_bytes(inv, base, e as int), entry);
            lemma_append_assoc(body, dict_count + dict_bytes(inv, base, e as int), entry);
        }
        e += 1;
    }
    let ghost before_footer = w@;
    write_u64(&mut w, dict_offset);
    proof {
        lemma_append_assoc(
            body,
            dict_count + dict_bytes(inv, base, terms as int),
            u64_bytes(dict_offset),
        );
    }
    w
}

/// No list holds anything.
proof fn lemma_empty_index_holds_nothing(term: Seq<char>, d: u32)
    ensures
        !items(Seq::<(Seq<char>, Seq<u32>)>::empty(), term).contains(d),
{
    let none = items(Seq::<(Seq<char>, Seq<u32>)>::empty(), term);
    if none.contains(d) {
        let j = choose|j: int| 0 <= j < none.len() && none[j] == d;
    }
}

/// The command-name index lists a document under a name exactly where the
/// name is the document's command name and is not empty.
pub proof fn lemma_cmd_index_of(cmds: Seq<Seq<char>>, n: int, name: Seq<char>, d: u32)
    requires
        0 <= n <= cmds.len(),
        n <= u32::MAX,
    ensures
        distinct_keys(cmd_index_of(cmds, n)),
        items(cmd_index_of(cmds, n), name).contains(d) <==> (d < n && cmds[d as int] == name
            && name.len() > 0),
    decreases n,
{
    if n > 0 {
        lemma_cmd_index_of(cmds, n - 1, name, d);
        if cmds[n - 1].len() > 0 {
            lemma_append_item_contains(
                cmd_index_of(cmds, n - 1),
                cmds[n - 1],
                (n - 1) as u32,
                name,
                d,
            );
        }
    } else {
        lemma_empty_index_holds_nothing(name, d);
    }
}

/// Adding a document under its tokens lists it under exactly those.
pub proof fn lemma_add_tokens(
    m: Seq<(Seq<char>, Seq<u32>)>,
    tokens: Seq<Seq<char>>,
    n: int,
    doc: u32,
    term: Seq<char>,
    d: u32,
)
    requires
        distinct_keys(m),
        0 <= n <= tokens.len(),
    ensures
        distinct_keys(add_tokens(m, tokens, n, doc)),
        items(add_tokens(m, tokens, n, doc), term).contains(d) <==> (items(m, term).contains(d)
            || (d == doc && tokens.take(n).contains(term))),
    decreases n,
{
    if n > 0 {
        lemma_add_tokens(m, tokens, n - 1, doc, term, d);
        lemma_append_item_contains(
            add_tokens(m, tokens, n - 1, doc),
            tokens[n - 1],
            doc,
            term,
            d,
        );
        let now = tokens.take(n);
        let before = tokens.take(n - 1);
        if now.contains(term) {
            let j = choose|j: int| 0 <= j < now.len() && now[j] == term;
            if j < n - 1 {
                assert(before[j] == term);
            }
        }
        if before.contains(term) {
            let j = choose|j: int| 0 <= j < before.len() && before[j] == term;
            assert(now[j] == term);
        }
        if tokens[n - 1] == term {
            assert(now[n - 1] == term);
        }
    } else {
        let none = tokens.take(0);
        if none.contains(term) {
            let j = choose|j: int| 0 <= j < none.len() && none[j] == term;
        }
    }
}

/// The description index lists a document under a term exactly where the
/// term is a token of the document's description.
pub proof fn lemma_desc_index_of(descs: Seq<Seq<char>>, n: int, term: Seq<char>, d: u32)
    requires
        0 <= n <= descs.len(),
        n <= u32::MAX,
    ensures
        distinct_keys(desc_index_of(descs, n)),
        items(desc_index_of(descs, n), term).contains(d) <==> (d < n && tokens_of(
            descs[d as int],
        ).contains(term)),
    decreases n,
{
    if n > 0 {
        lemma_desc_index_of(descs, n - 1, term, d);
        let tokens = tokens_of(descs[n - 1]);
        lemma_add_tokens(
            desc_index_of(descs, n - 1),
            tokens,
            tokens.len() as int,
            (n - 1) as u32,
            term,
            d,
        );
        assert(tokens.take(tokens.len() as int) =~= tokens);
    } else {
        lemma_empty_index_holds_nothing(term, d);
    }
}

} // verus!
