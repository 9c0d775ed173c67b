//! The little-endian, length-prefixed byte format: 32- and 64-bit integers,
//! strings, and term-frequency maps.

use crate::strmap::{upsert, StrMap};
use crate::unicode::{decoded, from_utf8_lossy};
use vstd::prelude::*;
use vstd::slice::slice_subrange;
use vstd::utf8::encode_utf8;

verus! {

/// The four bytes of `v`, least significant first.
#[verifier::opaque]
pub open spec fn u32_bytes(v: u32) -> Seq<u8> {
    seq![
        (v % 256) as u8,
        (v / 256 % 256) as u8,
        (v / 65536 % 256) as u8,
        (v / 16777216) as u8,
    ]
}

/// The integer whose little-endian bytes are the first four of `b`.
#[verifier::opaque]
pub open spec fn u32_value(b: Seq<u8>) -> u32 {
    (b[0] as int + b[1] as int * 256 + b[2] as int * 65536 + b[3] as int * 16777216) as u32
}

/// The eight bytes of `v`, least significant first.
pub open spec fn u64_bytes(v: u64) -> Seq<u8> {
    u32_bytes((v % 0x1_0000_0000) as u32) + u32_bytes((v / 0x1_0000_0000) as u32)
}

/// The integer whose little-endian bytes are the first eight of `b`.
pub open spec fn u64_value(b: Seq<u8>) -> u64 {
    (u32_value(b.subrange(0, 4)) as int + u32_value(b.subrange(4, 8)) as int * 0x1_0000_0000) as u64
}

/// A length as the format stores it: reduced to 32 bits.
pub open spec fn len32(n: nat) -> u32 {
    (n % 0x1_0000_0000) as u32
}

/// A string on the wire: its byte length, then its UTF-8 bytes.
pub open spec fn str_bytes(s: Seq<char>) -> Seq<u8> {
    u32_bytes(len32(encode_utf8(s).len())) + encode_utf8(s)
}

/// The entries of a term-frequency map on the wire, one after another.
pub open spec fn tf_entries_bytes(m: Seq<(Seq<char>, u32)>) -> Seq<u8>
    decreases m.len(),
{
    if m.len() == 0 {
        Seq::empty()
    } else {
        tf_entries_bytes(m.drop_last()) + str_bytes(m.last().0) + u32_bytes(m.last().1)
    }
}

/// A term-frequency map on the wire: the number of entries, then each word
/// with its count.
pub open spec fn tf_map_bytes(m: Seq<(Seq<char>, u32)>) -> Seq<u8> {
    u32_bytes(len32(m.len())) + tf_entries_bytes(m)
}

/// Reading a 32-bit integer at `pos`: the value and the position after it.
pub open spec fn parse_u32(data: Seq<u8>, pos: int) -> Option<(u32, int)> {
    if 0 <= pos && pos + 4 <= data.len() {
        Some((u32_value(data.subrange(pos, pos + 4)), pos + 4))
    } else {
        None
    }
}

/// Reading a 64-bit integer at `pos`.
pub open spec fn parse_u64(data: Seq<u8>, pos: int) -> Option<(u64, int)> {
    if 0 <= pos && pos + 8 <= data.len() {
        Some((u64_value(data.subrange(pos, pos + 8)), pos + 8))
    } else {
        None
    }
}

/// Reading a string at `pos`. Bytes that are not UTF-8 are replaced, not
/// refused.
pub open spec fn parse_str(data: Seq<u8>, pos: int) -> Option<(Seq<char>, int)> {
    match parse_u32(data, pos) {
        Some((n, start)) => if start + n <= data.len() {
            Some((decoded(data.subrange(start, start + n)), start + n))
        } else {
            None
        },
        None => None,
    }
}

/// Reading `n` more entries of a term-frequency map into `acc`. A word that
/// comes again replaces its earlier count.
pub open spec fn parse_tf_entries(
    data: Seq<u8>,
    pos: int,
    n: nat,
    acc: Seq<(Seq<char>, u32)>,
) -> Option<(Seq<(Seq<char>, u32)>, int)>
    decreases n,
{
    if n == 0 {
        Some((acc, pos))
    } else {
        match parse_str(data, pos) {
            Some((word, after_word)) => match parse_u32(data, after_word) {
                Some((freq, after_freq)) => parse_tf_entries(
                    data,
                    after_freq,
                    (n - 1) as nat,
                    upsert(acc, word, freq),
                ),
                None => None,
            },
            None => None,
        }
    }
}

/// Reading a term-frequency map at `pos`.
pub open spec fn parse_tf_map(data: Seq<u8>, pos: int) -> Option<(Seq<(Seq<char>, u32)>, int)> {
    match parse_u32(data, pos) {
        Some((n, start)) => parse_tf_entries(data, start, n as nat, Seq::empty()),
        None => None,
    }
}

/// Writing and reading a 32-bit integer are inverse.
pub proof fn lemma_u32_round_trip(v: u32)
    ensures
        u32_bytes(v).len() == 4,
        u32_value(u32_bytes(v)) == v,
{
    reveal(u32_bytes);
    reveal(u32_value);
}

/// Writing and reading a 64-bit integer are inverse.
pub proof fn lemma_u64_round_trip(v: u64)
    ensures
        u64_bytes(v).len() == 8,
        u64_value(u64_bytes(v)) == v,
{
    let lo = (v % 0x1_0000_0000) as u32;
    let hi = (v / 0x1_0000_0000) as u32;
    lemma_u32_round_trip(lo);
    lemma_u32_round_trip(hi);
    assert(u64_bytes(v).subrange(0, 4) =~= u32_bytes(lo));
    assert(u64_bytes(v).subrange(4, 8) =~= u32_bytes(hi));
}

/// Appending in two steps is appending the whole.
pub proof fn lemma_append_assoc(a: Seq<u8>, b: Seq<u8>, c: Seq<u8>)
    ensures
        (a + b) + c == a + (b + c),
{
    assert((a + b) + c =~= a + (b + c));
}

/// Why a read failed.
#[derive(Clone, Copy, Debug, PartialEq, Eq, Structural)]
pub enum ReadError {
    /// The bytes end before the value does.
    UnexpectedEof,
}

/// A read position in a byte slice.
pub struct ByteReader<'a> {
    data: &'a [u8],
    pos: usize,
}

impl<'a> ByteReader<'a> {
    #[verifier::type_invariant]
    spec fn inv(self) -> bool {
        self.pos <= self.data@.len()
    }

    /// The bytes being read.
    pub closed spec fn bytes(&self) -> Seq<u8> {
        self.data@
    }

    /// The position of the next byte to read.
    pub closed spec fn at(&self) -> int {
        self.pos as int
    }

    /// A reader at the start of `data`.
    pub fn new(data: &'a [u8]) -> (r: Self)
        ensures
            r.bytes() == data@,
            r.at() == 0,
    {
        ByteReader { data, pos: 0 }
    }

    /// Moves the reader to `pos`.
    pub fn seek(&mut self, pos: usize)
        requires
            pos <= old(self).bytes().len(),
        ensures
            final(self).bytes() == old(self).bytes(),
            final(self).at() == pos,
    {
        self.pos = pos;
    }

    /// The position of the next byte to read.
    pub fn position(&self) -> (p: usize)
        ensures
            p == self.at(),
            p <= self.bytes().len(),
    {
        proof {
            use_type_invariant(self);
        }
        self.pos
    }
}

/// A length reduced to the 32 bits that the format has for it.
pub fn length_field(n: usize) -> (r: u32)
    ensures
        r == len32(n as nat),
{
    ((n as u64) % 0x1_0000_0000) as u32
}

/// Appends `v` as four little-endian bytes.
pub fn write_u32(w: &mut Vec<u8>, v: u32)
    ensures
        final(w)@ == old(w)@ + u32_bytes(v),
{
    w.push((v % 256) as u8);
    w.push((v / 256 % 256) as u8);
    w.push((v / 65536 % 256) as u8);
    w.push((v / 16777216) as u8);
    proof {
        reveal(u32_bytes);
    }
    assert(w@ =~= old(w)@ + u32_bytes(v));
}

/// Appends `v` as eight little-endian bytes.
pub fn write_u64(w: &mut Vec<u8>, v: u64)
    ensures
        final(w)@ == old(w)@ + u64_bytes(v),
{
    write_u32(w, (v % 0x1_0000_0000) as u32);
    write_u32(w, (v / 0x1_0000_0000) as u32);
    assert(w@ =~= old(w)@ + u64_bytes(v));
}

/// Appends a string: its byte length in 32 bits, then its bytes.
pub fn write_str(w: &mut Vec<u8>, s: &str)
    ensures
        final(w)@ == old(w)@ + str_bytes(s@),
{
    let bytes = s.as_bytes();
    write_u32(w, length_field(bytes.len()));
    let mut i: usize = 0;
    while i < bytes.len()
        invariant
            i <= bytes@.len(),
            bytes@ == encode_utf8(s@),
            w@ == old(w)@ + u32_bytes(len32(bytes@.len())) + bytes@.take(i as int),
        decreases bytes@.len() - i,
    {
        w.push(bytes[i]);
        assert(bytes@.take(i + 1) =~= bytes@.take(i as int).push(bytes@[i as int]));
        assert(w@ =~= old(w)@ + u32_bytes(len32(bytes@.len())) + bytes@.take(i + 1));
        i += 1;
    }
    assert(bytes@.take(i as int) =~= bytes@);
    assert(w@ =~= old(w)@ + str_bytes(s@));
}

/// Appends a term-frequency map: the number of entries, then each word with
/// its count, in the map's order.
pub fn write_tf_map(w: &mut Vec<u8>, map: &StrMap<u32>)
    ensures
        final(w)@ == old(w)@ + tf_map_bytes(map@),
{
    let n = map.len();
    write_u32(w, length_field(n));
    let mut i: usize = 0;
    while i < n
        invariant
            i <= n,
            n == map@.len(),
            w@ == old(w)@ + u32_bytes(len32(map@.len())) + tf_entries_bytes(map@.take(i as int)),
        decreases n - i,
    {
        let ghost before = w@;
        write_str(w, map.key(i).as_str());
        write_u32(w, *map.value(i));
        proof {
            assert(map@.take(i + 1).drop_last() =~= map@.take(i as int));
            assert(map@.take(i + 1).last() == map@[i as int]);
            assert(w@ =~= old(w)@ + u32_bytes(len32(map@.len())) + tf_entries_bytes(
                map@.take(i + 1),
            ));
        }
        i += 1;
    }
    assert(map@.take(i as int) =~= map@);
    assert(w@ =~= old(w)@ + tf_map_bytes(map@));
}

/// The 32-bit integer stored at `pos`.
pub fn u32_at(data: &[u8], pos: usize) -> (v: u32)
    requires
        pos + 4 <= data@.len(),
    ensures
        v == u32_value(data@.subrange(pos as int, pos + 4)),
{
    proof {
        reveal(u32_value);
    }
    data[pos] as u32 + (data[pos + 1] as u32) * 256 + (data[pos + 2] as u32) * 65536 + (data[pos
        + 3] as u32) * 16777216
}

/// Reads four little-endian bytes. On failure the reader stays where it was.
pub fn read_u32(r: &mut ByteReader) -> (res: Result<u32, ReadError>)
    ensures
        final(r).bytes() == old(r).bytes(),
        match res {
            Ok(v) => parse_u32(old(r).bytes(), old(r).at()) == Some((v, final(r).at())),
            Err(e) => parse_u32(old(r).bytes(), old(r).at()).is_none() && final(r).at() == old(
                r,
            ).at(),
        },
{
    proof {
        use_type_invariant(&*r);
    }
    let p = r.pos;
    if r.data.len() - p < 4 {
        return Err(ReadError::UnexpectedEof);
    }
    proof {
        reveal(u32_value);
    }
    let v: u32 = r.data[p] as u32 + (r.data[p + 1] as u32) * 256 + (r.data[p + 2] as u32) * 65536
        + (r.data[p + 3] as u32) * 16777216;
    r.pos = p + 4;
    Ok(v)
}

/// Reads eight little-endian bytes. On failure the reader stays where it was.
pub fn read_u64(r: &mut ByteReader) -> (res: Result<u64, ReadError>)
    ensures
        final(r).bytes() == old(r).bytes(),
        match res {
            Ok(v) => parse_u64(old(r).bytes(), old(r).at()) == Some((v, final(r).at())),
            Err(e) => parse_u64(old(r).bytes(), old(r).at()).is_none() && final(r).at() == old(
                r,
            ).at(),
        },
{
    proof {
        use_type_invariant(&*r);
    }
    let p = r.pos;
    if r.data.len() - p < 8 {
        return Err(ReadError::UnexpectedEof);
    }
    let ghost whole = r.data@.subrange(p as int, p + 8);
    assert(whole.subrange(0, 4) =~= r.data@.subrange(p as int, p + 4));
    assert(whole.subrange(4, 8) =~= r.data@.subrange(p + 4, p + 8));
    let lo = read_u32(r);
    let hi = read_u32(r);
    match (lo, hi) {
        (Ok(lo), Ok(hi)) => Ok(lo as u64 + (hi as u64) * 0x1_0000_0000),
        _ => Err(ReadError::UnexpectedEof),
    }
}

/// Reads a length-prefixed string, replacing what is not UTF-8. On failure
/// the reader stays where it was.
pub fn read_str(r: &mut ByteReader) -> (res: Result<String, ReadError>)
    ensures
        final(r).bytes() == old(r).bytes(),
        match res {
            Ok(s) => parse_str(old(r).bytes(), old(r).at()) == Some((s@, final(r).at())),
            Err(e) => parse_str(old(r).bytes(), old(r).at()).is_none() && final(r).at() == old(
                r,
            ).at(),
        },
{
    proof {
        use_type_invariant(&*r);
    }
    let start = r.pos;
    let n = match read_u32(r) {
        Ok(n) => n as usize,
        Err(e) => {
            return Err(e);
        },
    };
    proof {
        use_type_invariant(&*r);
    }
    let p = r.pos;
    if r.data.len() - p < n {
        r.pos = start;
        return Err(ReadError::UnexpectedEof);
    }
    let s = from_utf8_lossy(slice_subrange(r.data, p, p + n));
    r.pos = p + n;
    Ok(s)
}

/// Reads a term-frequency map. On failure the reader stays where it was.
pub fn read_tf_map(r: &mut ByteReader) -> (res: Result<StrMap<u32>, ReadError>)
    ensures
        final(r).bytes() == old(r).bytes(),
        match res {
            Ok(m) => parse_tf_map(old(r).bytes(), old(r).at()) == Some((m@, final(r).at())),
            Err(e) => parse_tf_map(old(r).bytes(), old(r).at()).is_none() && final(r).at() == old(
                r,
            ).at(),
        },
{
    proof {
        use_type_invariant(&*r);
    }
    let start = r.pos;
    let n = match read_u32(r) {
        Ok(n) => n,
        Err(e) => {
            return Err(e);
        },
    };
    let ghost first = r.at();
    let mut map: StrMap<u32> = StrMap::new();
    let mut i: u32 = 0;
    while i < n
        invariant
            i <= n,
            r.bytes() == old(r).bytes(),
            start == old(r).at(),
            start <= r.bytes().len(),
            parse_tf_map(old(r).bytes(), old(r).at()) == parse_tf_entries(
                r.bytes(),
                r.at(),
                (n - i) as nat,
                map@,
            ),
        decreases n - i,
    {
        let word = match read_str(r) {
            Ok(word) => word,
            Err(e) => {
                r.pos = start;
                return Err(e);
            },
        };
        let freq = match read_u32(r) {
            Ok(freq) => freq,
            Err(e) => {
                r.pos = start;
                return Err(e);
            },
        };
        map.insert(word, freq);
        i += 1;
    }
    Ok(map)
}

} // verus!
