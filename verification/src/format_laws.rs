//! Laws of the byte format: what is written is read back.

use crate::io_util::{
    lemma_u32_round_trip, lemma_u64_round_trip, len32, parse_str, parse_u32, parse_u64, str_bytes,
    u32_bytes, u64_bytes,
};
use crate::unicode::{byte_len, decoded};
use vstd::prelude::*;
use vstd::utf8::encode_utf8;

verus! {

/// The bytes `x` stand in `data` at `pos`.
pub open spec fn holds_at(data: Seq<u8>, pos: int, x: Seq<u8>) -> bool {
    0 <= pos && pos + x.len() <= data.len() && data.subrange(pos, pos + x.len()) == x
}

/// Where two byte strings stand one after the other, each stands at its
/// place.
pub proof fn lemma_holds_split(data: Seq<u8>, pos: int, a: Seq<u8>, b: Seq<u8>)
    requires
        holds_at(data, pos, a + b),
    ensures
        holds_at(data, pos, a),
        holds_at(data, pos + a.len(), b),
{
    let whole = data.subrange(pos, pos + (a + b).len());
    assert(data.subrange(pos, pos + a.len()) =~= whole.subrange(0, a.len() as int));
    assert(whole.subrange(0, a.len() as int) =~= a);
    assert(data.subrange(pos + a.len(), pos + a.len() + b.len()) =~= whole.subrange(
        a.len() as int,
        (a + b).len() as int,
    ));
    assert(whole.subrange(a.len() as int, (a + b).len() as int) =~= b);
}

/// A byte string stands at the end of what it was appended to.
pub proof fn lemma_holds_appended(a: Seq<u8>, b: Seq<u8>)
    ensures
        holds_at(a + b, a.len() as int, b),
        holds_at(a + b, 0, a),
{
    assert((a + b).subrange(a.len() as int, (a + b).len() as int) =~= b);
    assert((a + b).subrange(0, a.len() as int) =~= a);
}

/// What stands in a byte string stands in every extension of it.
pub proof fn lemma_holds_extended(data: Seq<u8>, more: Seq<u8>, pos: int, x: Seq<u8>)
    requires
        holds_at(data, pos, x),
    ensures
        holds_at(data + more, pos, x),
{
    assert((data + more).subrange(pos, pos + x.len()) =~= data.subrange(pos, pos + x.len()));
}

/// A written 32-bit integer is read back.
pub proof fn lemma_parse_written_u32(data: Seq<u8>, pos: int, v: u32)
    requires
        holds_at(data, pos, u32_bytes(v)),
    ensures
        parse_u32(data, pos) == Some((v, pos + 4)),
{
    lemma_u32_round_trip(v);
}

/// A written 64-bit integer is read back.
pub proof fn lemma_parse_written_u64(data: Seq<u8>, pos: int, v: u64)
    requires
        holds_at(data, pos, u64_bytes(v)),
    ensures
        parse_u64(data, pos) == Some((v, pos + 8)),
{
    lemma_u64_round_trip(v);
}

/// A written string of at most 2^32 - 1 bytes is read back.
pub proof fn lemma_parse_written_str(data: Seq<u8>, pos: int, s: Seq<char>)
    requires
        holds_at(data, pos, str_bytes(s)),
        byte_len(s) <= u32::MAX,
    ensures
        parse_str(data, pos) == Some((s, pos + 4 + byte_len(s))),
        str_bytes(s).len() == 4 + byte_len(s),
{
    let n = len32(encode_utf8(s).len());
    assert(n == byte_len(s));
    lemma_u32_round_trip(n);
    lemma_holds_split(data, pos, u32_bytes(n), encode_utf8(s));
    lemma_parse_written_u32(data, pos, n);
    vstd::utf8::encode_utf8_valid_utf8(s);
    vstd::utf8::encode_utf8_decode_utf8(s);
    assert(decoded(encode_utf8(s)) == s);
}

/// Byte strings one after another.
pub open spec fn join(pieces: Seq<Seq<u8>>) -> Seq<u8>
    decreases pieces.len(),
{
    if pieces.len() == 0 {
        Seq::empty()
    } else {
        join(pieces.drop_last()) + pieces.last()
    }
}

/// Where piece `j` begins in the joined pieces.
pub open spec fn start_of(pieces: Seq<Seq<u8>>, j: int) -> int {
    join(pieces.take(j)).len() as int
}

/// The first `j` pieces take up the space of the first `j + 1` but for
/// piece `j`.
pub proof fn lemma_start_next(pieces: Seq<Seq<u8>>, j: int)
    requires
        0 <= j < pieces.len(),
    ensures
        start_of(pieces, j + 1) == start_of(pieces, j) + pieces[j].len(),
        join(pieces.take(j + 1)) == join(pieces.take(j)) + pieces[j],
{
    assert(pieces.take(j + 1).drop_last() =~= pieces.take(j));
    assert(pieces.take(j + 1).last() == pieces[j]);
}

/// Every prefix of the joined pieces stands where the whole stands.
pub proof fn lemma_join_prefix(data: Seq<u8>, base: int, pieces: Seq<Seq<u8>>, j: int)
    requires
        holds_at(data, base, join(pieces)),
        0 <= j <= pieces.len(),
    ensures
        holds_at(data, base, join(pieces.take(j))),
        start_of(pieces, j) <= join(pieces).len(),
    decreases pieces.len() - j,
{
    if j == pieces.len() {
        assert(pieces.take(j) =~= pieces);
    } else {
        lemma_join_prefix(data, base, pieces, j + 1);
        lemma_start_next(pieces, j);
        lemma_holds_split(data, base, join(pieces.take(j)), pieces[j]);
    }
}

/// Every piece stands at its place.
pub proof fn lemma_join_at(data: Seq<u8>, base: int, pieces: Seq<Seq<u8>>, j: int)
    requires
        holds_at(data, base, join(pieces)),
        0 <= j < pieces.len(),
    ensures
        holds_at(data, base + start_of(pieces, j), pieces[j]),
        start_of(pieces, j + 1) == start_of(pieces, j) + pieces[j].len(),
        start_of(pieces, j + 1) <= join(pieces).len(),
{
    lemma_join_prefix(data, base, pieces, j + 1);
    lemma_start_next(pieces, j);
    lemma_holds_split(data, base, join(pieces.take(j)), pieces[j]);
}

} // verus!
