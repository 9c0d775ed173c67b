//! Character classes and string conversions taken from the standard library.
//!
//! The Unicode tables behind these functions are far too large to restate, so
//! each result is given a name and the callers' contracts are written over
//! those names.

use vstd::prelude::*;
use vstd::utf8::{decode_utf8, encode_utf8, valid_utf8};

verus! {

/// The answer of `char::is_alphanumeric` for `c`.
pub uninterp spec fn char_alphanumeric(c: char) -> bool;

/// The answer of `char::is_uppercase` for `c`.
pub uninterp spec fn char_uppercase(c: char) -> bool;

/// The answer of `char::is_whitespace` for `c`.
pub uninterp spec fn char_whitespace(c: char) -> bool;

/// The characters of `str::to_lowercase` applied to the string `s`.
pub uninterp spec fn lowercased(s: Seq<char>) -> Seq<char>;

/// The characters of `String::from_utf8_lossy` applied to `bytes`.
pub uninterp spec fn lossy_utf8(bytes: Seq<u8>) -> Seq<char>;

/// The length of a string in bytes, as UTF-8.
pub open spec fn byte_len(s: Seq<char>) -> int {
    encode_utf8(s).len() as int
}

/// Calls `char::is_alphanumeric`. Trusted: the result is the named class
/// `char_alphanumeric`, nothing more is claimed of it.
#[verifier::external_body]
pub(crate) fn is_alphanumeric(c: char) -> (r: bool)
    ensures
        r == char_alphanumeric(c),
{
    c.is_alphanumeric()
}

/// Calls `char::is_uppercase`. Trusted: the result is the named class
/// `char_uppercase`.
#[verifier::external_body]
pub(crate) fn is_uppercase(c: char) -> (r: bool)
    ensures
        r == char_uppercase(c),
{
    c.is_uppercase()
}

/// Calls `char::is_whitespace`. Trusted: the result is the named class
/// `char_whitespace`.
#[verifier::external_body]
pub(crate) fn is_whitespace(c: char) -> (r: bool)
    ensures
        r == char_whitespace(c),
{
    c.is_whitespace()
}

/// Calls `str::to_lowercase`. Trusted: the result's characters are
/// `lowercased` of the argument's characters.
#[verifier::external_body]
pub(crate) fn to_lowercase(s: &str) -> (r: String)
    ensures
        r@ == lowercased(s@),
{
    s.to_lowercase()
}

/// The string that bytes are read as: their decoding where they are
/// well-formed UTF-8, and what the lossy conversion makes of them where
/// they are not.
pub open spec fn decoded(bytes: Seq<u8>) -> Seq<char> {
    if valid_utf8(bytes) {
        decode_utf8(bytes)
    } else {
        lossy_utf8(bytes)
    }
}

/// Calls `String::from_utf8_lossy`. Trusted: well-formed UTF-8 is decoded
/// as it stands (the standard library replaces only invalid sequences), and
/// of other bytes the result is the named `lossy_utf8`.
#[verifier::external_body]
pub(crate) fn from_utf8_lossy(bytes: &[u8]) -> (r: String)
    ensures
        r@ == decoded(bytes@),
        !valid_utf8(bytes@) ==> r@ == lossy_utf8(bytes@),
{
    String::from_utf8_lossy(bytes).into_owned()
}

/// Collects characters into a `String` with `String::from_iter`. Trusted: the
/// string holds exactly the characters given, in order.
#[verifier::external_body]
pub(crate) fn string_of(chars: &[char]) -> (r: String)
    ensures
        r@ == chars@,
{
    String::from_iter(chars.iter())
}

/// The characters of a string slice, in order.
pub fn chars_of(s: &str) -> (out: Vec<char>)
    ensures
        out@ == s@,
{
    let mut out: Vec<char> = Vec::new();
    for c in it: s.chars()
        invariant
            out@ == it.seq().take(it.index()),
            it.seq() == s@,
    {
        out.push(c);
    }
    out
}

/// Two strings hold the same characters exactly when their UTF-8 encodings
/// agree.
pub proof fn lemma_encoding_injective(a: Seq<char>, b: Seq<char>)
    ensures
        (encode_utf8(a) == encode_utf8(b)) == (a == b),
{
    vstd::utf8::encode_utf8_decode_utf8(a);
    vstd::utf8::encode_utf8_decode_utf8(b);
}

/// The encoding of two strings one after the other is their encodings one
/// after the other.
pub proof fn lemma_encode_concat(a: Seq<char>, b: Seq<char>)
    ensures
        encode_utf8(a + b) == encode_utf8(a) + encode_utf8(b),
    decreases a.len(),
{
    if a.len() == 0 {
        assert(a + b =~= b);
        assert(encode_utf8(a) + encode_utf8(b) =~= encode_utf8(b));
    } else {
        assert((a + b).drop_first() =~= a.drop_first() + b);
        lemma_encode_concat(a.drop_first(), b);
        assert(encode_utf8(a + b) =~= encode_utf8(a) + encode_utf8(b));
    }
}

/// A string begins with another exactly when its bytes begin with the
/// bytes of the other: no encoded character is the beginning of another.
pub proof fn lemma_byte_prefix_is_char_prefix(t: Seq<char>, k: Seq<char>)
    ensures
        encode_utf8(t).is_prefix_of(encode_utf8(k)) <==> t.is_prefix_of(k),
    decreases t.len(),
{
    let bt = encode_utf8(t);
    let bk = encode_utf8(k);
    if t.is_prefix_of(k) {
        let rest = k.skip(t.len() as int);
        assert(k =~= t + rest);
        lemma_encode_concat(t, rest);
        assert(bk.subrange(0, bt.len() as int) =~= bt);
    }
    if bt.is_prefix_of(bk) && t.len() > 0 {
        vstd::utf8::encode_utf8_first_scalar(t);
        assert(bt.len() > 0);
        assert(k.len() > 0);
        vstd::utf8::encode_utf8_first_scalar(k);
        let w = vstd::utf8::encode_scalar(t[0] as u32).len() as int;
        assert(bt =~= vstd::utf8::encode_scalar(t[0] as u32) + encode_utf8(t.drop_first()));
        assert(w <= bt.len());
        assert forall|i: int| 0 <= i < bt.len() implies bk[i] == bt[i] by {
            assert(bk.subrange(0, bt.len() as int)[i] == bt[i]);
        }
        assert(vstd::utf8::decode_first_scalar(bk) == vstd::utf8::decode_first_scalar(bt));
        vstd::utf8::char_u32_cast(t[0], t[0] as u32);
        vstd::utf8::char_u32_cast(k[0], k[0] as u32);
        assert(t[0] == k[0]);
        assert(bk =~= vstd::utf8::encode_scalar(k[0] as u32) + encode_utf8(k.drop_first()));
        assert(encode_utf8(t.drop_first()) =~= bt.skip(w));
        assert(encode_utf8(k.drop_first()) =~= bk.skip(w));
        assert(bk.skip(w).subrange(0, bt.len() - w) =~= bk.subrange(0, bt.len() as int).skip(w));
        assert(encode_utf8(t.drop_first()).is_prefix_of(encode_utf8(k.drop_first())));
        lemma_byte_prefix_is_char_prefix(t.drop_first(), k.drop_first());
        assert(t.drop_first().is_prefix_of(k.drop_first()));
        assert(k.subrange(0, t.len() as int) =~= seq![k[0]] + k.drop_first().subrange(
            0,
            t.len() - 1,
        ));
        assert(t =~= seq![t[0]] + t.drop_first());
    }
    if t.len() == 0 {
        assert(k.subrange(0, 0) =~= t);
    }
}

/// Whether two string slices hold the same characters.
pub fn str_eq(a: &str, b: &str) -> (r: bool)
    ensures
        r == (a@ == b@),
{
    let x = a.as_bytes();
    let y = b.as_bytes();
    proof {
        lemma_encoding_injective(a@, b@);
    }
    if x.len() != y.len() {
        return false;
    }
    let mut i: usize = 0;
    while i < x.len()
        invariant
            x@.len() == y@.len(),
            i <= x@.len(),
            x@.take(i as int) == y@.take(i as int),
            (x@ == y@) == (a@ == b@),
        decreases x@.len() - i,
    {
        if x[i] != y[i] {
            return false;
        }
        assert(x@.take(i + 1) =~= x@.take(i as int).push(x@[i as int]));
        assert(y@.take(i + 1) =~= y@.take(i as int).push(y@[i as int]));
        i += 1;
    }
    assert(x@ =~= x@.take(i as int));
    assert(y@ =~= y@.take(i as int));
    true
}

/// The character sequences held by a sequence of strings.
pub open spec fn views(v: Seq<String>) -> Seq<Seq<char>> {
    Seq::new(v.len(), |i: int| v[i]@)
}

} // verus!
