//! Tokenisation, stop words, stemming and bounded edit distance.

use crate::unicode::{
    char_alphanumeric, chars_of, is_alphanumeric, lowercased, str_eq, string_of, to_lowercase,
    views,
};
use crate::strmap::{has_key, index_of_key, keys, StrMap};
use vstd::prelude::*;
use vstd::utf8::encode_utf8;

verus! {

/// Whether `w` is one of the words that carry no search signal.
pub open spec fn stop_word(w: Seq<char>) -> bool {
    w == "a"@ ||
    w == "an"@ ||
    w == "the"@ ||
    w == "and"@ ||
    w == "or"@ ||
    w == "but"@ ||
    w == "if"@ ||
    w == "then"@ ||
    w == "else"@ ||
    w == "when"@ ||
    w == "while"@ ||
    w == "where"@ ||
    w == "why"@ ||
    w == "how"@ ||
    w == "of"@ ||
    w == "to"@ ||
    w == "in"@ ||
    w == "on"@ ||
    w == "at"@ ||
    w == "by"@ ||
    w == "for"@ ||
    w == "with"@ ||
    w == "about"@ ||
    w == "from"@ ||
    w == "into"@ ||
    w == "over"@ ||
    w == "after"@ ||
    w == "before"@ ||
    w == "does"@ ||
    w == "between"@ ||
    w == "through"@ ||
    w == "during"@ ||
    w == "without"@ ||
    w == "within"@ ||
    w == "is"@ ||
    w == "are"@ ||
    w == "was"@ ||
    w == "were"@ ||
    w == "be"@ ||
    w == "been"@ ||
    w == "being"@ ||
    w == "do"@ ||
    w == "will"@ ||
    w == "did"@ ||
    w == "doing"@ ||
    w == "have"@ ||
    w == "has"@ ||
    w == "had"@ ||
    w == "having"@ ||
    w == "can"@ ||
    w == "could"@ ||
    w == "should"@ ||
    w == "would"@ ||
    w == "may"@ ||
    w == "might"@ ||
    w == "must"@ ||
    w == "such"@ ||
    w == "shall"@ ||
    w == "as"@ ||
    w == "it"@ ||
    w == "its"@ ||
    w == "it's"@ ||
    w == "this"@ ||
    w == "that"@ ||
    w == "these"@ ||
    w == "those"@ ||
    w == "he"@ ||
    w == "she"@ ||
    w == "they"@ ||
    w == "them"@ ||
    w == "yes"@ ||
    w == "their"@ ||
    w == "there"@ ||
    w == "here"@ ||
    w == "we"@ ||
    w == "you"@ ||
    w == "your"@ ||
    w == "i"@ ||
    w == "me"@ ||
    w == "my"@ ||
    w == "our"@ ||
    w == "us"@ ||
    w == "not"@ ||
    w == "no"@ ||
    w == "use"@ ||
    w == "than"@ ||
    w == "too"@ ||
    w == "very"@ ||
    w == "also"@ ||
    w == "just"@ ||
    w == "only"@ ||
    w == "even"@ ||
    w == "more"@ ||
    w == "most"@ ||
    w == "some"@ ||
    w == "any"@ ||
    w == "each"@ ||
    w == "other"@ ||
    w == "used"@ ||
    w == "call"@ ||
    w == "called"@ ||
    w == "return"@ ||
    w == "returns"@ ||
    w == "value"@ ||
    w == "set"@ ||
    w == "get"@ ||
    w == "new"@ ||
    w == "see"@
}

/// Whether `w` is a stop word.
pub fn is_stop_word(w: &str) -> (r: bool)
    ensures
        r == stop_word(w@),
{
    str_eq(w, "a")
        || str_eq(w, "an")
        || str_eq(w, "the")
        || str_eq(w, "and")
        || str_eq(w, "or")
        || str_eq(w, "but")
        || str_eq(w, "if")
        || str_eq(w, "then")
        || str_eq(w, "else")
        || str_eq(w, "when")
        || str_eq(w, "while")
        || str_eq(w, "where")
        || str_eq(w, "why")
        || str_eq(w, "how")
        || str_eq(w, "of")
        || str_eq(w, "to")
        || str_eq(w, "in")
        || str_eq(w, "on")
        || str_eq(w, "at")
        || str_eq(w, "by")
        || str_eq(w, "for")
        || str_eq(w, "with")
        || str_eq(w, "about")
        || str_eq(w, "from")
        || str_eq(w, "into")
        || str_eq(w, "over")
        || str_eq(w, "after")
        || str_eq(w, "before")
        || str_eq(w, "does")
        || str_eq(w, "between")
        || str_eq(w, "through")
        || str_eq(w, "during")
        || str_eq(w, "without")
        || str_eq(w, "within")
        || str_eq(w, "is")
        || str_eq(w, "are")
        || str_eq(w, "was")
        || str_eq(w, "were")
        || str_eq(w, "be")
        || str_eq(w, "been")
        || str_eq(w, "being")
        || str_eq(w, "do")
        || str_eq(w, "will")
        || str_eq(w, "did")
        || str_eq(w, "doing")
        || str_eq(w, "have")
        || str_eq(w, "has")
        || str_eq(w, "had")
        || str_eq(w, "having")
        || str_eq(w, "can")
        || str_eq(w, "could")
        || str_eq(w, "should")
        || str_eq(w, "would")
        || str_eq(w, "may")
        || str_eq(w, "might")
        || str_eq(w, "must")
        || str_eq(w, "such")
        || str_eq(w, "shall")
        || str_eq(w, "as")
        || str_eq(w, "it")
        || str_eq(w, "its")
        || str_eq(w, "it's")
        || str_eq(w, "this")
        || str_eq(w, "that")
        || str_eq(w, "these")
        || str_eq(w, "those")
        || str_eq(w, "he")
        || str_eq(w, "she")
        || str_eq(w, "they")
        || str_eq(w, "them")
        || str_eq(w, "yes")
        || str_eq(w, "their")
        || str_eq(w, "there")
        || str_eq(w, "here")
        || str_eq(w, "we")
        || str_eq(w, "you")
        || str_eq(w, "your")
        || str_eq(w, "i")
        || str_eq(w, "me")
        || str_eq(w, "my")
        || str_eq(w, "our")
        || str_eq(w, "us")
        || str_eq(w, "not")
        || str_eq(w, "no")
        || str_eq(w, "use")
        || str_eq(w, "than")
        || str_eq(w, "too")
        || str_eq(w, "very")
        || str_eq(w, "also")
        || str_eq(w, "just")
        || str_eq(w, "only")
        || str_eq(w, "even")
        || str_eq(w, "more")
        || str_eq(w, "most")
        || str_eq(w, "some")
        || str_eq(w, "any")
        || str_eq(w, "each")
        || str_eq(w, "other")
        || str_eq(w, "used")
        || str_eq(w, "call")
        || str_eq(w, "called")
        || str_eq(w, "return")
        || str_eq(w, "returns")
        || str_eq(w, "value")
        || str_eq(w, "set")
        || str_eq(w, "get")
        || str_eq(w, "new")
        || str_eq(w, "see")
}

/// The stem that the English Snowball stemmer of `rust_stemmers` gives for
/// the word `w`.
pub uninterp spec fn english_stem(w: Seq<char>) -> Seq<char>;

#[verifier::external_type_specification]
#[verifier::external_body]
pub struct ExStemmer(rust_stemmers::Stemmer);

/// An English stemmer. It can only be made by `make_stemmer`, so every value
/// of this type runs the same algorithm.
pub struct EnglishStemmer {
    inner: rust_stemmers::Stemmer,
}

/// Makes the stemmer with `rust_stemmers::Stemmer::create` for
/// `Algorithm::English`. Trusted; nothing is claimed of the value itself.
#[verifier::external_body]
pub fn make_stemmer() -> EnglishStemmer {
    EnglishStemmer { inner: rust_stemmers::Stemmer::create(rust_stemmers::Algorithm::English) }
}

/// Calls `rust_stemmers::Stemmer::stem`. Trusted: the result is the named
/// stem of the word, a function of the word alone.
#[verifier::external_body]
pub(crate) fn stem(stemmer: &EnglishStemmer, word: &str) -> (r: String)
    ensures
        r@ == english_stem(word@),
{
    stemmer.inner.stem(word).into_owned()
}

/// Characters that belong to a word; every other character separates words.
pub open spec fn word_char(c: char) -> bool {
    char_alphanumeric(c) || c == '-' || c == '_'
}

/// The pieces of `s` between separators, empty pieces included: one more
/// piece than there are separators.
pub open spec fn split_words(s: Seq<char>) -> Seq<Seq<char>>
    decreases s.len(),
{
    if s.len() == 0 {
        seq![Seq::<char>::empty()]
    } else {
        let before = split_words(s.drop_last());
        if word_char(s.last()) {
            before.drop_last().push(before.last().push(s.last()))
        } else {
            before.push(Seq::<char>::empty())
        }
    }
}

/// Whether the lowercased piece `w` is kept: it is no stop word and is
/// longer than two bytes, or at least two when it begins with a dash.
pub open spec fn keeps(w: Seq<char>) -> bool {
    !stop_word(w) && if w.len() > 0 && w[0] == '-' {
        encode_utf8(w).len() >= 2
    } else {
        encode_utf8(w).len() > 2
    }
}

/// Lowercasing, as a function.
pub open spec fn lowercase_fn() -> spec_fn(Seq<char>) -> Seq<char> {
    |p: Seq<char>| lowercased(p)
}

/// `keeps`, as a predicate.
pub open spec fn keeps_fn() -> spec_fn(Seq<char>) -> bool {
    |w: Seq<char>| keeps(w)
}

/// Stemming, as a function.
pub open spec fn stem_fn() -> spec_fn(Seq<char>) -> Seq<char> {
    |w: Seq<char>| english_stem(w)
}

/// The stems of those pieces that are kept once lowercased, in order.
pub open spec fn stems_of(pieces: Seq<Seq<char>>) -> Seq<Seq<char>> {
    pieces.map_values(lowercase_fn()).filter(keeps_fn()).map_values(stem_fn())
}

/// The tokens of a text: split, lowercase, drop stop words and short pieces,
/// stem.
pub open spec fn tokens_of(s: Seq<char>) -> Seq<Seq<char>> {
    stems_of(split_words(s))
}

/// What one piece adds to the tokens.
pub open spec fn piece_tokens(p: Seq<char>) -> Seq<Seq<char>> {
    if keeps(lowercased(p)) {
        seq![english_stem(lowercased(p))]
    } else {
        Seq::empty()
    }
}

/// One more piece adds its token, if it has one.
pub proof fn lemma_stems_of_push(pieces: Seq<Seq<char>>, p: Seq<char>)
    ensures
        stems_of(pieces.push(p)) == stems_of(pieces) + piece_tokens(p),
{
    let lowered = pieces.map_values(lowercase_fn());
    assert(pieces.push(p).map_values(lowercase_fn()) =~= lowered.push(lowercased(p)));
    lowered.lemma_filter_push(lowercased(p), keeps_fn());
    let kept = lowered.filter(keeps_fn());
    if keeps(lowercased(p)) {
        assert(kept.push(lowercased(p)).map_values(stem_fn()) =~= kept.map_values(stem_fn())
            + seq![english_stem(lowercased(p))]);
    } else {
        assert(kept.map_values(stem_fn()) + Seq::<Seq<char>>::empty() =~= kept.map_values(
            stem_fn(),
        ));
    }
}

/// No pieces, no tokens.
pub proof fn lemma_stems_of_empty()
    ensures
        stems_of(Seq::empty()) == Seq::<Seq<char>>::empty(),
{
    reveal(Seq::filter);
    assert(Seq::<Seq<char>>::empty().map_values(lowercase_fn()) =~= Seq::empty());
    assert(Seq::<Seq<char>>::empty().map_values(stem_fn()) =~= Seq::empty());
}

/// A text has at least one piece and at most one more than it has
/// characters.
pub proof fn lemma_split_words_len(s: Seq<char>)
    ensures
        1 <= split_words(s).len() <= s.len() + 1,
    decreases s.len(),
{
    if s.len() > 0 {
        lemma_split_words_len(s.drop_last());
    }
}

/// A text yields at most one token more than it has characters.
pub proof fn lemma_token_count(s: Seq<char>)
    ensures
        tokens_of(s).len() <= s.len() + 1,
{
    lemma_split_words_len(s);
    split_words(s).map_values(lowercase_fn()).lemma_filter_len(keeps_fn());
}

/// Every token is the stem of a lowercased piece of the text that is no
/// stop word and is longer than two bytes (or begins with a dash and has at
/// least two).
pub proof fn lemma_token_origin(s: Seq<char>, i: int) -> (w: Seq<char>)
    requires
        0 <= i < tokens_of(s).len(),
    ensures
        tokens_of(s)[i] == english_stem(w),
        keeps(w),
        !stop_word(w),
        encode_utf8(w).len() > 2 || (w.len() > 0 && w[0] == '-' && encode_utf8(w).len() >= 2),
        exists|k: int| 0 <= k < split_words(s).len() && w == lowercased(split_words(s)[k]),
{
    let lowered = split_words(s).map_values(lowercase_fn());
    let kept = lowered.filter(keeps_fn());
    let w = kept[i];
    lowered.lemma_filter_pred(keeps_fn(), i);
    assert(kept.contains(w));
    lowered.lemma_filter_contains_rev(keeps_fn(), w);
    let k = choose|k: int| 0 <= k < lowered.len() && lowered[k] == w;
    assert(w == lowercased(split_words(s)[k]));
    w
}

/// Appends to `out` the token that the piece gives, if it is kept.
fn push_token(piece: &Vec<char>, stemmer: &EnglishStemmer, out: &mut Vec<String>)
    ensures
        views(final(out)@) == views(old(out)@) + piece_tokens(piece@),
{
    let raw = string_of(piece.as_slice());
    let w = to_lowercase(raw.as_str());
    let byte_len = w.as_str().as_bytes().len();
    let long_enough = if !w.as_str().is_empty() && w.as_str().get_char(0) == '-' {
        byte_len >= 2
    } else {
        byte_len > 2
    };
    if !is_stop_word(w.as_str()) && long_enough {
        let token = stem(stemmer, w.as_str());
        out.push(token);
        assert(views(out@) =~= views(old(out)@) + piece_tokens(piece@));
    } else {
        assert(views(out@) =~= views(old(out)@) + piece_tokens(piece@));
    }
}

/// The tokens of a sequence of characters.
pub(crate) fn tokenize_chars(text: &[char], stemmer: &EnglishStemmer) -> (out: Vec<String>)
    ensures
        views(out@) == tokens_of(text@),
        out@.len() <= text@.len() + 1,
{
    let mut out: Vec<String> = Vec::new();
    let mut piece: Vec<char> = Vec::new();
    let ghost mut done: Seq<Seq<char>> = Seq::empty();
    proof {
        lemma_stems_of_empty();
        assert(text@.take(0) =~= Seq::<char>::empty());
        assert(split_words(text@.take(0)) =~= done.push(piece@));
        assert(views(out@) =~= Seq::<Seq<char>>::empty());
    }
    let mut i: usize = 0;
    while i < text.len()
        invariant
            i <= text@.len(),
            split_words(text@.take(i as int)) == done.push(piece@),
            views(out@) == stems_of(done),
        decreases text@.len() - i,
    {
        let c = text[i];
        proof {
            assert(text@.take(i + 1).drop_last() =~= text@.take(i as int));
            assert(text@.take(i + 1).last() == c);
        }
        if is_alphanumeric(c) || c == '-' || c == '_' {
            piece.push(c);
            assert(split_words(text@.take(i + 1)) =~= done.push(piece@));
        } else {
            push_token(&piece, stemmer, &mut out);
            proof {
                lemma_stems_of_push(done, piece@);
                done = done.push(piece@);
            }
            piece = Vec::new();
            assert(split_words(text@.take(i + 1)) =~= done.push(piece@));
        }
        i += 1;
    }
    push_token(&piece, stemmer, &mut out);
    proof {
        lemma_stems_of_push(done, piece@);
        assert(text@.take(i as int) =~= text@);
        lemma_token_count(text@);
        assert(views(out@).len() == out@.len());
    }
    out
}

/// Splits `text` into stemmed tokens, without stop words and very short
/// words. Duplicates stay, in the order of the text.
pub fn tokenize(text: &str, stemmer: &EnglishStemmer) -> (out: Vec<String>)
    ensures
        views(out@) == tokens_of(text@),
        out@.len() <= text@.len() + 1,
{
    let chars = chars_of(text);
    tokenize_chars(chars.as_slice(), stemmer)
}

/// The smallest of three integers.
pub open spec fn min3(x: int, y: int, z: int) -> int {
    if x <= y && x <= z {
        x
    } else if y <= z {
        y
    } else {
        z
    }
}

/// The Levenshtein distance: the least number of single-character
/// insertions, deletions and substitutions that turn `a` into `b`.
pub open spec fn levenshtein(a: Seq<char>, b: Seq<char>) -> nat
    decreases a.len() + b.len(),
{
    if a.len() == 0 {
        b.len()
    } else if b.len() == 0 {
        a.len()
    } else {
        let substitute = levenshtein(a.drop_last(), b.drop_last()) + (if a.last() == b.last() {
            0int
        } else {
            1int
        });
        let delete = levenshtein(a.drop_last(), b) + 1int;
        let insert = levenshtein(a, b.drop_last()) + 1int;
        min3(substitute, delete, insert) as nat
    }
}

/// Every prefix of `b` is more than `k` edits away from `a`.
pub open spec fn row_exceeds(a: Seq<char>, b: Seq<char>, k: int) -> bool {
    forall|j: int| 0 <= j <= b.len() ==> #[trigger] levenshtein(a, b.take(j)) > k
}

/// What `edit_distance` answers: `k + 1` when the lengths differ by more
/// than `k` or when no prefix of `b` is within `k` edits of a non-empty `a`,
/// and the Levenshtein distance otherwise.
pub open spec fn bounded_distance(a: Seq<char>, b: Seq<char>, k: int) -> int {
    if a.len() - b.len() > k || b.len() - a.len() > k || (a.len() > 0 && row_exceeds(a, b, k)) {
        k + 1
    } else {
        levenshtein(a, b) as int
    }
}

/// Dropping the last character of either string changes the distance by at
/// most one.
pub proof fn lemma_levenshtein_step(a: Seq<char>, b: Seq<char>)
    ensures
        b.len() > 0 ==> levenshtein(a, b.drop_last()) <= levenshtein(a, b) + 1,
        b.len() > 0 ==> levenshtein(a, b) <= levenshtein(a, b.drop_last()) + 1,
        a.len() > 0 ==> levenshtein(a.drop_last(), b) <= levenshtein(a, b) + 1,
        a.len() > 0 ==> levenshtein(a, b) <= levenshtein(a.drop_last(), b) + 1,
    decreases a.len() + b.len(),
{
    if a.len() > 0 && b.len() > 0 {
        lemma_levenshtein_step(a.drop_last(), b);
        lemma_levenshtein_step(a, b.drop_last());
        lemma_levenshtein_step(a.drop_last(), b.drop_last());
    }
}

/// When the last characters agree, the distance is that of the strings
/// without them.
pub proof fn lemma_levenshtein_same_last(a: Seq<char>, b: Seq<char>)
    requires
        a.len() > 0,
        b.len() > 0,
        a.last() == b.last(),
    ensures
        levenshtein(a, b) == levenshtein(a.drop_last(), b.drop_last()),
{
    lemma_levenshtein_step(a.drop_last(), b);
    lemma_levenshtein_step(a, b.drop_last());
}

/// The distance is at least the difference of the lengths and at most the
/// longer length.
pub proof fn lemma_levenshtein_bounds(a: Seq<char>, b: Seq<char>)
    ensures
        levenshtein(a, b) >= a.len() - b.len(),
        levenshtein(a, b) >= b.len() - a.len(),
        levenshtein(a, b) <= a.len() || levenshtein(a, b) <= b.len(),
    decreases a.len() + b.len(),
{
    if a.len() > 0 && b.len() > 0 {
        lemma_levenshtein_bounds(a.drop_last(), b);
        lemma_levenshtein_bounds(a, b.drop_last());
        lemma_levenshtein_bounds(a.drop_last(), b.drop_last());
    }
}

/// If every prefix of `b` is more than `k` edits from `a` without its last
/// character, the same holds of `a` up to prefix `j`.
proof fn lemma_row_exceeds_upto(a: Seq<char>, b: Seq<char>, k: int, j: int)
    requires
        a.len() > 0,
        row_exceeds(a.drop_last(), b, k),
        0 <= j <= b.len(),
    ensures
        levenshtein(a, b.take(j)) > k,
    decreases j,
{
    assert(levenshtein(a.drop_last(), b.take(0)) > k);
    if j > 0 {
        lemma_row_exceeds_upto(a, b, k, j - 1);
        assert(b.take(j).drop_last() =~= b.take(j - 1));
        assert(levenshtein(a.drop_last(), b.take(j)) > k);
        assert(levenshtein(a.drop_last(), b.take(j - 1)) > k);
    }
}

/// A row of the distance table that exceeds `k` everywhere is followed only
/// by rows that do.
pub proof fn lemma_row_exceeds_next(a: Seq<char>, b: Seq<char>, k: int)
    requires
        a.len() > 0,
        row_exceeds(a.drop_last(), b, k),
    ensures
        row_exceeds(a, b, k),
{
    assert forall|j: int| 0 <= j <= b.len() implies #[trigger] levenshtein(a, b.take(j)) > k by {
        lemma_row_exceeds_upto(a, b, k, j);
    }
}

/// Once a prefix of `a` has a row that exceeds `k`, so has `a`.
pub proof fn lemma_row_exceeds_prefix(a: Seq<char>, b: Seq<char>, k: int, i: int)
    requires
        0 <= i <= a.len(),
        row_exceeds(a.take(i), b, k),
    ensures
        row_exceeds(a, b, k),
    decreases a.len() - i,
{
    if i == a.len() {
        assert(a.take(i) =~= a);
    } else {
        assert(a.take(i + 1).drop_last() =~= a.take(i));
        lemma_row_exceeds_next(a.take(i + 1), b, k);
        lemma_row_exceeds_prefix(a, b, k, i + 1);
    }
}

/// The bounded distance is within `k` exactly when the Levenshtein distance
/// is, and it is then that distance; beyond `k` it is either `k + 1` or the
/// distance itself.
pub proof fn lemma_bounded_distance_decides(a: Seq<char>, b: Seq<char>, k: int)
    requires
        0 <= k,
    ensures
        bounded_distance(a, b, k) <= k <==> levenshtein(a, b) <= k,
        levenshtein(a, b) <= k ==> bounded_distance(a, b, k) == levenshtein(a, b),
        levenshtein(a, b) > k ==> bounded_distance(a, b, k) == k + 1 || bounded_distance(a, b, k)
            == levenshtein(a, b),
{
    lemma_levenshtein_bounds(a, b);
    if a.len() > 0 && row_exceeds(a, b, k) {
        assert(b.take(b.len() as int) =~= b);
        assert(levenshtein(a, b.take(b.len() as int)) > k);
    }
}

/// Levenshtein distance between `a` and `b`, giving up with `max_dist + 1`
/// as soon as the lengths or a whole row of the table rule out a distance
/// within `max_dist`.
pub fn edit_distance(a: &str, b: &str, max_dist: usize) -> (d: usize)
    ensures
        d == bounded_distance(a@, b@, max_dist as int),
        d <= max_dist <==> levenshtein(a@, b@) <= max_dist,
{
    let ac = chars_of(a);
    let bc = chars_of(b);
    let m = ac.len();
    let n = bc.len();
    proof {
        lemma_bounded_distance_decides(a@, b@, max_dist as int);
    }
    let gap = if m > n {
        m - n
    } else {
        n - m
    };
    if gap > max_dist {
        return max_dist + 1;
    }
    let mut prev: Vec<usize> = Vec::new();
    prev.push(0);
    while prev.len() <= n
        invariant
            1 <= prev@.len() <= n + 1,
            forall|j: int| 0 <= j < prev@.len() ==> prev@[j] == j,
        decreases n + 1 - prev@.len(),
    {
        let l = prev.len();
        prev.push(l);
    }
    let mut curr: Vec<usize> = prev.clone();
    assert(curr@.len() == n + 1);
    assert(a@.take(0).len() == 0);
    assert forall|j: int| 0 <= j <= n implies prev@[j] == levenshtein(
        a@.take(0),
        #[trigger] b@.take(j),
    ) by {}
    let mut rows: usize = 0;
    while rows < m
        invariant
            rows <= m,
            ac@ == a@,
            bc@ == b@,
            m == a@.len(),
            n == b@.len(),
            n + 1 <= usize::MAX,
            prev@.len() == n + 1,
            curr@.len() == n + 1,
            forall|j: int|
                0 <= j <= n ==> prev@[j] == levenshtein(a@.take(rows as int), #[trigger] b@.take(j)),
            rows > 0 ==> !row_exceeds(a@.take(rows as int), b@, max_dist as int),
        decreases m - rows,
    {
        let i = rows + 1;
        let ghost ai = a@.take(i as int);
        assert(ai.drop_last() =~= a@.take(i - 1));
        assert(ai.last() == a@[i - 1]);
        curr[0] = i;
        let mut row_min: usize = i;
        let ghost mut witness: int = 0;
        assert(levenshtein(ai, b@.take(0)) == i);
        let mut j: usize = 1;
        while j <= n
            invariant
                1 <= j <= n + 1,
                1 <= i <= m,
                ac@ == a@,
                bc@ == b@,
                m == a@.len(),
                n == b@.len(),
                n + 1 <= usize::MAX,
                ai == a@.take(i as int),
                ai.len() == i,
                ai.drop_last() == a@.take(i - 1),
                ai.last() == a@[i - 1],
                prev@.len() == n + 1,
                curr@.len() == n + 1,
                forall|t: int|
                    0 <= t <= n ==> prev@[t] == levenshtein(a@.take(i - 1), #[trigger] b@.take(t)),
                forall|t: int| 0 <= t < j ==> curr@[t] == levenshtein(ai, #[trigger] b@.take(t)),
                forall|t: int| 0 <= t < j ==> row_min <= #[trigger] curr@[t],
                0 <= witness < j,
                curr@[witness] == row_min,
            decreases n + 1 - j,
        {
            let ghost bj = b@.take(j as int);
            assert(bj.drop_last() =~= b@.take(j - 1));
            assert(bj.last() == b@[j - 1]);
            proof {
                lemma_levenshtein_bounds(ai, bj);
            }
            let cell = if ac[i - 1] == bc[j - 1] {
                proof {
                    lemma_levenshtein_same_last(ai, bj);
                }
                prev[j - 1]
            } else {
                let diag = prev[j - 1];
                let up = prev[j];
                let left = curr[j - 1];
                let least = if diag <= up && diag <= left {
                    diag
                } else if up <= left {
                    up
                } else {
                    left
                };
                assert(least + 1 == levenshtein(ai, bj));
                1 + least
            };
            assert(cell == levenshtein(ai, bj));
            curr[j] = cell;
            if cell < row_min {
                row_min = cell;
                proof {
                    witness = j as int;
                }
            }
            j += 1;
        }
        if row_min > max_dist {
            proof {
                assert forall|t: int| 0 <= t <= b@.len() implies #[trigger] levenshtein(
                    ai,
                    b@.take(t),
                ) > max_dist by {
                    assert(row_min <= curr@[t]);
                }
                lemma_row_exceeds_prefix(a@, b@, max_dist as int, i as int);
                lemma_bounded_distance_decides(a@, b@, max_dist as int);
            }
            return max_dist + 1;
        }
        proof {
            assert(levenshtein(ai, b@.take(witness)) <= max_dist);
            assert(!row_exceeds(ai, b@, max_dist as int));
        }
        std::mem::swap(&mut prev, &mut curr);
        rows = i;
    }
    proof {
        assert(a@.take(m as int) =~= a@);
        assert(b@.take(n as int) =~= b@);
        lemma_bounded_distance_decides(a@, b@, max_dist as int);
    }
    prev[n]
}

/// The first `n` strings of `ts` without repetitions, each at the place of
/// its first occurrence.
pub open spec fn distinct_prefix(ts: Seq<Seq<char>>, n: int) -> Seq<Seq<char>>
    decreases n,
{
    if n <= 0 {
        Seq::empty()
    } else {
        let before = distinct_prefix(ts, n - 1);
        if before.contains(ts[n - 1]) {
            before
        } else {
            before.push(ts[n - 1])
        }
    }
}

/// The distinct strings of `ts`.
pub open spec fn distinct(ts: Seq<Seq<char>>) -> Seq<Seq<char>> {
    distinct_prefix(ts, ts.len() as int)
}

/// `distinct_prefix` repeats nothing and holds exactly the strings of the
/// prefix.
pub proof fn lemma_distinct_prefix(ts: Seq<Seq<char>>, n: int)
    requires
        0 <= n <= ts.len(),
    ensures
        distinct_prefix(ts, n).no_duplicates(),
        distinct_prefix(ts, n).len() <= n,
        forall|t: Seq<char>|
            distinct_prefix(ts, n).contains(t) <==> exists|i: int| 0 <= i < n && ts[i] == t,
    decreases n,
{
    if n > 0 {
        lemma_distinct_prefix(ts, n - 1);
        let before = distinct_prefix(ts, n - 1);
        let now = distinct_prefix(ts, n);
        assert forall|t: Seq<char>| now.contains(t) <==> exists|i: int|
            0 <= i < n && ts[i] == t by {
            if now.contains(t) {
                let j = choose|j: int| 0 <= j < now.len() && now[j] == t;
                if j < before.len() {
                    assert(before.contains(t));
                    let i = choose|i: int| 0 <= i < n - 1 && ts[i] == t;
                    assert(0 <= i < n && ts[i] == t);
                } else {
                    assert(ts[n - 1] == t);
                }
            }
            if exists|i: int| 0 <= i < n && ts[i] == t {
                let i = choose|i: int| 0 <= i < n && ts[i] == t;
                if i < n - 1 {
                    assert(before.contains(t));
                    let j = choose|j: int| 0 <= j < before.len() && before[j] == t;
                    assert(now[j] == t);
                } else if before.contains(t) {
                } else {
                    assert(now[before.len() as int] == t);
                }
            }
        }
    }
}

/// Whether `list` holds a string with the characters of `word`.
pub fn contains_str(list: &Vec<String>, word: &str) -> (r: bool)
    ensures
        r == views(list@).contains(word@),
{
    let mut i: usize = 0;
    while i < list.len()
        invariant
            i <= list@.len(),
            forall|j: int| 0 <= j < i ==> views(list@)[j] != word@,
        decreases list@.len() - i,
    {
        if str_eq(list[i].as_str(), word) {
            assert(views(list@)[i as int] == word@);
            return true;
        }
        i += 1;
    }
    false
}

/// The distinct tokens of a query, each at the place of its first
/// occurrence.
pub fn unique_tokens(tokens: &Vec<String>) -> (out: Vec<String>)
    ensures
        views(out@) == distinct(views(tokens@)),
        views(out@).no_duplicates(),
        forall|t: Seq<char>| views(out@).contains(t) <==> views(tokens@).contains(t),
{
    let mut out: Vec<String> = Vec::new();
    let mut seen: StrMap<bool> = StrMap::new();
    let mut i: usize = 0;
    assert(views(out@) =~= distinct_prefix(views(tokens@), 0));
    assert(keys(seen@) =~= views(out@));
    while i < tokens.len()
        invariant
            i <= tokens@.len(),
            views(out@) == distinct_prefix(views(tokens@), i as int),
            keys(seen@) == views(out@),
        decreases tokens@.len() - i,
    {
        let ghost t = tokens@[i as int]@;
        let ghost before = views(out@);
        let known = seen.find(tokens[i].as_str()).is_some();
        proof {
            if before.contains(t) {
                let j = choose|j: int| 0 <= j < before.len() && before[j] == t;
                assert(seen@[j].0 == keys(seen@)[j]);
            }
            if has_key(seen@, t) {
                let j = index_of_key(seen@, t);
                assert(keys(seen@)[j] == t);
            }
            assert(known == before.contains(t));
        }
        if !known {
            out.push(tokens[i].clone());
            seen.insert(tokens[i].clone(), true);
            assert(views(out@) =~= before.push(t));
            assert(keys(seen@) =~= views(out@));
        }
        i += 1;
    }
    proof {
        lemma_distinct_prefix(views(tokens@), tokens@.len() as int);
        assert forall|t: Seq<char>| views(out@).contains(t) <==> views(tokens@).contains(t) by {
            if views(tokens@).contains(t) {
                let j = choose|j: int| 0 <= j < views(tokens@).len() && views(tokens@)[j] == t;
                assert(0 <= j < tokens@.len() && views(tokens@)[j] == t);
            }
        }
    }
    out
}

} // verus!
