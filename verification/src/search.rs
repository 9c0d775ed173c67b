//! The query engine's decisions: which dictionary entries answer a token,
//! which candidates survive, and in what order results come out.
//!
//! Scores are numbers that the host computes; here they appear as rank keys,
//! unsigned integers that order as the scores do.

use crate::constants::{FUZZY_MIN_LEN, PREFIX_MIN_LEN};
use crate::doc::{base_of, file_base};
use crate::index::{postings_at, MmapIndex, Posting};
use crate::rank::{
    lemma_insert_desc_position, lemma_sort_desc, lemma_sort_desc_elements, sort_desc,
    sort_postings, sorted_desc,
};
use crate::strmap::{
    distinct_keys, has_key, index_of_key, items, lemma_lookup_at, lemma_upsert, lists, lookup,
    upsert, StrMap,
};
use crate::text::{
    contains_str, distinct, edit_distance, levenshtein, tokenize, tokens_of, unique_tokens,
    EnglishStemmer,
};
use crate::unicode::{byte_len, lemma_byte_prefix_is_char_prefix, str_eq, views};
use vstd::prelude::*;
use vstd::utf8::encode_utf8;

verus! {

/// How a dictionary entry came to answer a token.
#[derive(Clone, Copy, Debug, PartialEq, Eq, Structural)]
pub enum MatchKind {
    /// The entry's word is the token.
    Exact,
    /// The token is a proper prefix of the entry's word.
    Prefix,
    /// The entry's word is within one edit of the token.
    Fuzzy,
}

/// A dictionary entry whose postings count for a token.
#[derive(Clone, Copy, Debug, PartialEq, Eq, Structural)]
pub struct TermMatch {
    /// Position of the entry in the dictionary.
    pub entry: usize,
    pub kind: MatchKind,
    /// For a prefix match, by how many bytes the word is longer than the
    /// token; zero otherwise.
    pub extra_len: usize,
}

/// `k` is another word that begins with `t`.
pub open spec fn prefix_match(t: Seq<char>, k: Seq<char>) -> bool {
    k != t && t.is_prefix_of(k)
}

/// `k` differs from `t` by at most one byte in length and one edit.
pub open spec fn fuzzy_match(t: Seq<char>, k: Seq<char>) -> bool {
    &&& byte_len(k) - byte_len(t) <= 1
    &&& byte_len(t) - byte_len(k) <= 1
    &&& levenshtein(k, t) <= 1
}

/// The exact match for `t`, if the dictionary has the word.
pub open spec fn exact_matches(dict: Seq<(Seq<char>, (u64, u32))>, t: Seq<char>) -> Seq<
    TermMatch,
> {
    if has_key(dict, t) {
        seq![
            TermMatch { entry: index_of_key(dict, t) as usize, kind: MatchKind::Exact, extra_len: 0 },
        ]
    } else {
        Seq::empty()
    }
}

/// The prefix matches for `t` among the first `n` entries, in dictionary
/// order.
pub open spec fn prefix_matches(dict: Seq<(Seq<char>, (u64, u32))>, t: Seq<char>, n: int) -> Seq<
    TermMatch,
>
    decreases n,
{
    if n <= 0 {
        Seq::empty()
    } else {
        let before = prefix_matches(dict, t, n - 1);
        if prefix_match(t, dict[n - 1].0) {
            before.push(
                TermMatch {
                    entry: (n - 1) as usize,
                    kind: MatchKind::Prefix,
                    extra_len: (byte_len(dict[n - 1].0) - byte_len(t)) as usize,
                },
            )
        } else {
            before
        }
    }
}

/// The fuzzy matches for `t` among the first `n` entries, in dictionary
/// order.
pub open spec fn fuzzy_matches(dict: Seq<(Seq<char>, (u64, u32))>, t: Seq<char>, n: int) -> Seq<
    TermMatch,
>
    decreases n,
{
    if n <= 0 {
        Seq::empty()
    } else {
        let before = fuzzy_matches(dict, t, n - 1);
        if fuzzy_match(t, dict[n - 1].0) {
            before.push(TermMatch { entry: (n - 1) as usize, kind: MatchKind::Fuzzy, extra_len: 0 })
        } else {
            before
        }
    }
}

/// None of the matched entries has a posting.
pub open spec fn all_empty(dict: Seq<(Seq<char>, (u64, u32))>, matches: Seq<TermMatch>) -> bool {
    forall|i: int| 0 <= i < matches.len() ==> dict[(#[trigger] matches[i]).entry as int].1.1 == 0
}

/// The exact match and, where expansion is allowed and the token has at
/// least four bytes, the prefix matches.
pub open spec fn direct_matches(
    dict: Seq<(Seq<char>, (u64, u32))>,
    t: Seq<char>,
    prefix_allowed: bool,
) -> Seq<TermMatch> {
    exact_matches(dict, t) + if prefix_allowed && byte_len(t) >= PREFIX_MIN_LEN {
        prefix_matches(dict, t, dict.len() as int)
    } else {
        Seq::empty()
    }
}

/// The dictionary entries whose postings count for the token `t`: the
/// direct matches, and the fuzzy matches only where the direct ones bring no
/// posting at all and the token has at least four bytes.
pub open spec fn token_matches(
    dict: Seq<(Seq<char>, (u64, u32))>,
    t: Seq<char>,
    prefix_allowed: bool,
) -> Seq<TermMatch> {
    let direct = direct_matches(dict, t, prefix_allowed);
    direct + if all_empty(dict, direct) && byte_len(t) >= FUZZY_MIN_LEN {
        fuzzy_matches(dict, t, dict.len() as int)
    } else {
        Seq::empty()
    }
}

/// The matches hold one for the dictionary entry at `entry`, of the given
/// kind.
pub open spec fn offers(matches: Seq<TermMatch>, entry: int, kind: MatchKind) -> bool {
    exists|j: int|
        0 <= j < matches.len() && (#[trigger] matches[j]).entry == entry && matches[j].kind
            == kind
}

/// Among the first `n` entries, the prefix matches are the entries whose
/// word properly begins with the token.
pub proof fn lemma_prefix_matches(
    dict: Seq<(Seq<char>, (u64, u32))>,
    t: Seq<char>,
    n: int,
    i: int,
    kind: MatchKind,
)
    requires
        0 <= n <= dict.len(),
        n <= usize::MAX,
    ensures
        offers(prefix_matches(dict, t, n), i, kind) <==> (0 <= i < n && kind == MatchKind::Prefix
            && prefix_match(t, dict[i].0)),
    decreases n,
{
    let now = prefix_matches(dict, t, n);
    if n > 0 {
        lemma_prefix_matches(dict, t, n - 1, i, kind);
        let before = prefix_matches(dict, t, n - 1);
        if offers(now, i, kind) {
            let j = choose|j: int|
                0 <= j < now.len() && (#[trigger] now[j]).entry == i && now[j].kind == kind;
            if j < before.len() {
                assert(before[j] == now[j]);
            }
        }
        if offers(before, i, kind) {
            let j = choose|j: int|
                0 <= j < before.len() && (#[trigger] before[j]).entry == i && before[j].kind
                    == kind;
            assert(now[j] == before[j]);
        }
        if prefix_match(t, dict[n - 1].0) {
            assert(now[before.len() as int].entry == n - 1);
        }
    } else {
        if offers(now, i, kind) {
            let j = choose|j: int|
                0 <= j < now.len() && (#[trigger] now[j]).entry == i && now[j].kind == kind;
        }
    }
}

/// Among the first `n` entries, the fuzzy matches are the entries whose
/// word is within one byte in length and one edit of the token.
pub proof fn lemma_fuzzy_matches(
    dict: Seq<(Seq<char>, (u64, u32))>,
    t: Seq<char>,
    n: int,
    i: int,
    kind: MatchKind,
)
    requires
        0 <= n <= dict.len(),
        n <= usize::MAX,
    ensures
        offers(fuzzy_matches(dict, t, n), i, kind) <==> (0 <= i < n && kind == MatchKind::Fuzzy
            && fuzzy_match(t, dict[i].0)),
    decreases n,
{
    let now = fuzzy_matches(dict, t, n);
    if n > 0 {
        lemma_fuzzy_matches(dict, t, n - 1, i, kind);
        let before = fuzzy_matches(dict, t, n - 1);
        if offers(now, i, kind) {
            let j = choose|j: int|
                0 <= j < now.len() && (#[trigger] now[j]).entry == i && now[j].kind == kind;
            if j < before.len() {
                assert(before[j] == now[j]);
            }
        }
        if offers(before, i, kind) {
            let j = choose|j: int|
                0 <= j < before.len() && (#[trigger] before[j]).entry == i && before[j].kind
                    == kind;
            assert(now[j] == before[j]);
        }
        if fuzzy_match(t, dict[n - 1].0) {
            assert(now[before.len() as int].entry == n - 1);
        }
    } else {
        if offers(now, i, kind) {
            let j = choose|j: int|
                0 <= j < now.len() && (#[trigger] now[j]).entry == i && now[j].kind == kind;
        }
    }
}

/// Matches of two lists are the matches of either.
pub proof fn lemma_offers_either(a: Seq<TermMatch>, b: Seq<TermMatch>, i: int, kind: MatchKind)
    ensures
        offers(a + b, i, kind) <==> (offers(a, i, kind) || offers(b, i, kind)),
{
    let both = a + b;
    if offers(both, i, kind) {
        let j = choose|j: int|
            0 <= j < both.len() && (#[trigger] both[j]).entry == i && both[j].kind == kind;
        if j < a.len() {
            assert(a[j] == both[j]);
        } else {
            assert(b[j - a.len()] == both[j]);
        }
    }
    if offers(a, i, kind) {
        let j = choose|j: int| 0 <= j < a.len() && (#[trigger] a[j]).entry == i && a[j].kind == kind;
        assert(both[j] == a[j]);
    }
    if offers(b, i, kind) {
        let j = choose|j: int| 0 <= j < b.len() && (#[trigger] b[j]).entry == i && b[j].kind == kind;
        assert(both[j + a.len()] == b[j]);
    }
}

/// Which dictionary entries answer a token. The entry of the token itself
/// is an exact match. Where expansion is allowed and the token has four
/// bytes or more, every other entry that begins with the token is a prefix
/// match. Where all of those are without postings and the token has four
/// bytes or more, every entry within one byte in length and one edit of
/// the token is a fuzzy match. There are no other matches.
pub proof fn lemma_token_matches(
    dict: Seq<(Seq<char>, (u64, u32))>,
    t: Seq<char>,
    prefix_allowed: bool,
    i: int,
    kind: MatchKind,
)
    requires
        dict.len() <= usize::MAX,
    ensures
        offers(token_matches(dict, t, prefix_allowed), i, kind) <==> (0 <= i < dict.len()
            && match kind {
            MatchKind::Exact => has_key(dict, t) && i == index_of_key(dict, t),
            MatchKind::Prefix => prefix_allowed && byte_len(t) >= PREFIX_MIN_LEN && prefix_match(
                t,
                dict[i].0,
            ),
            MatchKind::Fuzzy => all_empty(dict, direct_matches(dict, t, prefix_allowed))
                && byte_len(t) >= FUZZY_MIN_LEN && fuzzy_match(t, dict[i].0),
        }),
{
    let n = dict.len() as int;
    let exact = exact_matches(dict, t);
    let none = Seq::<TermMatch>::empty();
    let prefixes = if prefix_allowed && byte_len(t) >= PREFIX_MIN_LEN {
        prefix_matches(dict, t, n)
    } else {
        none
    };
    let direct = direct_matches(dict, t, prefix_allowed);
    let fuzzies = if all_empty(dict, direct) && byte_len(t) >= FUZZY_MIN_LEN {
        fuzzy_matches(dict, t, n)
    } else {
        none
    };
    lemma_prefix_matches(dict, t, n, i, kind);
    lemma_fuzzy_matches(dict, t, n, i, kind);
    lemma_offers_either(exact, prefixes, i, kind);
    lemma_offers_either(direct, fuzzies, i, kind);
    if offers(none, i, kind) {
        let j = choose|j: int|
            0 <= j < none.len() && (#[trigger] none[j]).entry == i && none[j].kind == kind;
    }
    if offers(exact, i, kind) {
        let j = choose|j: int|
            0 <= j < exact.len() && (#[trigger] exact[j]).entry == i && exact[j].kind == kind;
    }
    if has_key(dict, t) {
        assert(exact[0].entry == index_of_key(dict, t));
    }
}

/// Every match points into the dictionary.
pub open spec fn matches_in_range(matches: Seq<TermMatch>, n: int) -> bool {
    forall|i: int| 0 <= i < matches.len() ==> (#[trigger] matches[i]).entry < n
}

/// Whether `key` begins with `token`.
fn starts_with(key: &str, token: &str) -> (r: bool)
    ensures
        r == token@.is_prefix_of(key@),
        r ==> byte_len(token@) <= byte_len(key@),
{
    proof {
        lemma_byte_prefix_is_char_prefix(token@, key@);
    }
    let k = key.as_bytes();
    let t = token.as_bytes();
    if t.len() > k.len() {
        return false;
    }
    let mut i: usize = 0;
    while i < t.len()
        invariant
            i <= t@.len(),
            t@.len() <= k@.len(),
            t@ == encode_utf8(token@),
            k@ == encode_utf8(key@),
            t@.is_prefix_of(k@) == token@.is_prefix_of(key@),
            t@.take(i as int) == k@.take(i as int),
        decreases t@.len() - i,
    {
        if t[i] != k[i] {
            assert(t@[i as int] != k@.subrange(0, t@.len() as int)[i as int]);
            return false;
        }
        assert(t@.take(i + 1) =~= t@.take(i as int).push(t@[i as int]));
        assert(k@.take(i + 1) =~= k@.take(i as int).push(k@[i as int]));
        i += 1;
    }
    assert(t@ =~= t@.take(i as int));
    assert(t@ =~= k@.subrange(0, t@.len() as int));
    true
}

/// Chooses the dictionary entries whose postings count for `token`.
/// `prefix_allowed` says whether the token is rare enough for prefix
/// expansion, which the host decides from its inverse document frequency.
pub fn expand_token(index: &MmapIndex, token: &str, prefix_allowed: bool) -> (plan: Vec<
    TermMatch,
>)
    ensures
        plan@ == token_matches(index.inverted_dict@, token@, prefix_allowed),
        matches_in_range(plan@, index.inverted_dict@.len() as int),
{
    let dict = &index.inverted_dict;
    let token_len = token.as_bytes().len();
    let mut plan: Vec<TermMatch> = Vec::new();
    let mut any_posting = false;
    match dict.find(token) {
        Some(i) => {
            plan.push(TermMatch { entry: i, kind: MatchKind::Exact, extra_len: 0 });
            if dict.value(i).1 != 0 {
                any_posting = true;
            }
        },
        None => {},
    }
    assert(plan@ =~= exact_matches(dict@, token@));
    let ghost exact = plan@;
    assert(any_posting == !all_empty(dict@, plan@)) by {
        if plan@.len() > 0 && !any_posting {
            assert forall|j: int| 0 <= j < plan@.len() implies dict@[(
            #[trigger] plan@[j]).entry as int].1.1 == 0 by {
                assert(j == 0);
            }
        }
        if any_posting {
            assert(dict@[plan@[0].entry as int].1.1 != 0);
        }
    }
    if prefix_allowed && token_len >= PREFIX_MIN_LEN {
        let mut i: usize = 0;
        while i < dict.len()
            invariant
                i <= dict@.len(),
                token_len == byte_len(token@),
                plan@ == exact + prefix_matches(dict@, token@, i as int),
                matches_in_range(plan@, dict@.len() as int),
                any_posting == !all_empty(dict@, plan@),
            decreases dict@.len() - i,
        {
            let key = dict.key(i).as_str();
            let ghost before = plan@;
            if !str_eq(key, token) && starts_with(key, token) {
                let key_len = key.as_bytes().len();
                plan.push(
                    TermMatch { entry: i, kind: MatchKind::Prefix, extra_len: key_len - token_len },
                );
                if dict.value(i).1 != 0 {
                    any_posting = true;
                }
                proof {
                    assert(plan@ =~= exact + prefix_matches(dict@, token@, i + 1));
                    assert(plan@[before.len() as int].entry == i);
                    if all_empty(dict@, plan@) {
                        assert forall|j: int| 0 <= j < before.len() implies dict@[(
                        #[trigger] before[j]).entry as int].1.1 == 0 by {
                            assert(plan@[j] == before[j]);
                        }
                    }
                    if all_empty(dict@, before) && dict@[i as int].1.1 == 0 {
                        assert forall|j: int| 0 <= j < plan@.len() implies dict@[(
                        #[trigger] plan@[j]).entry as int].1.1 == 0 by {
                            if j < before.len() {
                                assert(plan@[j] == before[j]);
                            }
                        }
                    }
                    if !all_empty(dict@, before) {
                        let j = choose|j: int|
                            0 <= j < before.len() && dict@[(#[trigger] before[j]).entry as int].1.1
                                != 0;
                        assert(plan@[j] == before[j]);
                    }
                }
            }
            i += 1;
        }
    }
    assert(plan@ =~= direct_matches(dict@, token@, prefix_allowed));
    let ghost direct = plan@;
    assert(any_posting == !all_empty(dict@, direct));
    if !any_posting && token_len >= FUZZY_MIN_LEN {
        let mut i: usize = 0;
        while i < dict.len()
            invariant
                i <= dict@.len(),
                token_len == byte_len(token@),
                plan@ == direct + fuzzy_matches(dict@, token@, i as int),
                matches_in_range(plan@, dict@.len() as int),
            decreases dict@.len() - i,
        {
            let key = dict.key(i).as_str();
            let key_len = key.as_bytes().len();
            let gap = if key_len > token_len {
                key_len - token_len
            } else {
                token_len - key_len
            };
            if gap <= 1 && edit_distance(key, token, 1) <= 1 {
                plan.push(TermMatch { entry: i, kind: MatchKind::Fuzzy, extra_len: 0 });
                assert(plan@ =~= direct + fuzzy_matches(dict@, token@, i + 1));
            }
            i += 1;
        }
    }
    assert(plan@ =~= token_matches(dict@, token@, prefix_allowed));
    plan
}

/// What the index holds for one token of a query.
pub struct TokenHits {
    /// The dictionary entries whose postings count for the token.
    pub matches: Vec<TermMatch>,
    /// The posting list of each match, in the order of the matches.
    pub postings: Vec<Vec<Posting>>,
    /// The documents whose description holds the token. They are
    /// candidates even where no posting names them.
    pub described: Vec<u32>,
}

/// Looks a token up: chooses the dictionary entries that answer it, reads
/// their posting lists, and lists the documents whose description holds the
/// token.
pub fn token_hits(index: &MmapIndex, token: &str, prefix_allowed: bool) -> (hits: TokenHits)
    requires
        index.wf(),
    ensures
        hits.matches@ == token_matches(index.inverted_dict@, token@, prefix_allowed),
        hits.postings@.len() == hits.matches@.len(),
        forall|j: int|
            0 <= j < hits.matches@.len() ==> (#[trigger] hits.postings@[j])@ == postings_at(
                index.bytes(),
                index.inverted_dict@[hits.matches@[j].entry as int].1.0 as int,
                index.inverted_dict@[hits.matches@[j].entry as int].1.1 as nat,
            ),
        hits.described@ == items(lists(index.desc_index@), token@),
        forall|j: int|
            0 <= j < hits.described@.len() ==> (#[trigger] hits.described@[j])
                < index.doc_map@.len(),
{
    let matches = expand_token(index, token, prefix_allowed);
    let mut postings: Vec<Vec<Posting>> = Vec::with_capacity(matches.len());
    let mut j: usize = 0;
    while j < matches.len()
        invariant
            j <= matches@.len(),
            index.wf(),
            matches_in_range(matches@, index.inverted_dict@.len() as int),
            postings@.len() == j,
            forall|t: int|
                0 <= t < j ==> (#[trigger] postings@[t])@ == postings_at(
                    index.bytes(),
                    index.inverted_dict@[matches@[t].entry as int].1.0 as int,
                    index.inverted_dict@[matches@[t].entry as int].1.1 as nat,
                ),
        decreases matches@.len() - j,
    {
        assert(matches@[j as int].entry < index.inverted_dict@.len());
        postings.push(index.postings_of_entry(matches[j].entry));
        j += 1;
    }
    index.desc_index.keys_distinct();
    let described = match index.desc_index.find(token) {
        Some(i) => {
            proof {
                let m = lists(index.desc_index@);
                assert(m[i as int].0 == token@);
                lemma_lookup_at(m, i as int);
            }
            index.desc_index.value(i).clone()
        },
        None => {
            proof {
                let m = lists(index.desc_index@);
                if has_key(m, token@) {
                    let t = index_of_key(m, token@);
                    assert(index.desc_index@[t].0 == token@);
                }
            }
            Vec::new()
        },
    };
    proof {
        let m = lists(index.desc_index@);
        assert forall|t: int| 0 <= t < described@.len() implies (#[trigger] described@[t])
            < index.doc_map@.len() by {
            if has_key(m, token@) {
                let i = index_of_key(m, token@);
                assert(m[i].1[t] < index.doc_map@.len());
            }
        }
    }
    TokenHits { matches, postings, described }
}

/// In how many documents `token` occurs according to the dictionary; one
/// where the dictionary does not have it.
pub fn document_frequency(index: &MmapIndex, token: &str) -> (df: u32)
    ensures
        df == match lookup(index.inverted_dict@, token@) {
            Some(entry) => entry.1,
            None => 1u32,
        },
{
    match index.inverted_dict.get(token) {
        Some(entry) => entry.1,
        None => 1,
    }
}

/// The exponent of the coverage penalty for a query of `token_count`
/// tokens: one less than the number of tokens, and never below two.
pub fn coverage_exponent(token_count: usize) -> (e: usize)
    ensures
        e == if token_count >= 3 {
            token_count - 1
        } else {
            2
        },
{
    if token_count >= 3 {
        token_count - 1
    } else {
        2
    }
}

/// How many of the flags are set.
pub open spec fn count_true(flags: Seq<bool>) -> nat
    decreases flags.len(),
{
    if flags.len() == 0 {
        0
    } else {
        count_true(flags.drop_last()) + if flags.last() {
            1nat
        } else {
            0nat
        }
    }
}

/// What a description shares with a query, as far as whole numbers say it.
pub struct DescOverlap {
    /// For each query token, whether the description has it.
    pub present: Vec<bool>,
    /// How many query tokens the description has.
    pub matched: usize,
    /// How many distinct tokens the description has.
    pub desc_size: usize,
}

/// Compares the tokens of a stored description with the query's tokens.
pub fn desc_overlap(query: &Vec<String>, name_desc: &str, stemmer: &EnglishStemmer) -> (o:
    DescOverlap)
    ensures
        o.present@.len() == query@.len(),
        forall|i: int|
            0 <= i < query@.len() ==> o.present@[i] == tokens_of(name_desc@).contains(
                #[trigger] query@[i]@,
            ),
        o.matched == count_true(o.present@),
        o.desc_size == distinct(tokens_of(name_desc@)).len(),
{
    let tokens = tokenize(name_desc, stemmer);
    let unique = unique_tokens(&tokens);
    let mut present: Vec<bool> = Vec::new();
    let mut matched: usize = 0;
    let mut i: usize = 0;
    while i < query.len()
        invariant
            i <= query@.len(),
            present@.len() == i,
            views(tokens@) == tokens_of(name_desc@),
            forall|j: int|
                0 <= j < i ==> present@[j] == tokens_of(name_desc@).contains(
                    #[trigger] query@[j]@,
                ),
            matched == count_true(present@),
            matched <= i,
        decreases query@.len() - i,
    {
        let here = contains_str(&tokens, query[i].as_str());
        let ghost before = present@;
        present.push(here);
        assert(present@.drop_last() =~= before);
        if here {
            matched += 1;
        }
        i += 1;
    }
    DescOverlap { present, matched, desc_size: unique.len() }
}

/// The best candidate of each file-name base among the first `n`
/// candidates: a later candidate replaces the one kept for its base only
/// where it scores strictly higher.
pub open spec fn best_per_base(fnames: Seq<Seq<char>>, ranked: Seq<Posting>, n: int) -> Seq<
    (Seq<char>, Posting),
>
    decreases n,
{
    if n <= 0 {
        Seq::empty()
    } else {
        let before = best_per_base(fnames, ranked, n - 1);
        let c = ranked[n - 1];
        let base = base_of(fnames[c.doc_id as int]);
        match lookup(before, base) {
            Some(best) => if c.score > best.score {
                upsert(before, base, c)
            } else {
                before
            },
            None => upsert(before, base, c),
        }
    }
}

/// The candidates kept, in the order in which their bases first came.
pub open spec fn kept(m: Seq<(Seq<char>, Posting)>) -> Seq<Posting> {
    Seq::new(m.len(), |i: int| m[i].1)
}

/// The result of deduplication: the best candidate of each base, best
/// first.
pub open spec fn deduped(fnames: Seq<Seq<char>>, ranked: Seq<Posting>) -> Seq<Posting> {
    sort_desc(kept(best_per_base(fnames, ranked, ranked.len() as int)))
}

/// No two candidates stand for files with the same base.
pub open spec fn distinct_bases(fnames: Seq<Seq<char>>, s: Seq<Posting>) -> bool {
    forall|i: int, j: int|
        0 <= i < j < s.len() ==> base_of(fnames[(#[trigger] s[i]).doc_id as int]) != base_of(
            fnames[(#[trigger] s[j]).doc_id as int],
        )
}

/// Each key of the table is the base of the candidate kept under it.
pub open spec fn keys_are_bases(fnames: Seq<Seq<char>>, m: Seq<(Seq<char>, Posting)>) -> bool {
    forall|i: int|
        0 <= i < m.len() ==> (#[trigger] m[i]).0 == base_of(fnames[m[i].1.doc_id as int])
}

/// `c` is one of the first `n` candidates.
pub open spec fn among(ranked: Seq<Posting>, n: int, c: Posting) -> bool {
    exists|k: int| 0 <= k < n && ranked[k] == c
}

/// Each candidate of the table is one of the first `n` candidates.
pub open spec fn all_among(ranked: Seq<Posting>, n: int, m: Seq<(Seq<char>, Posting)>) -> bool {
    forall|i: int| 0 <= i < m.len() ==> among(ranked, n, (#[trigger] m[i]).1)
}

/// The table keeps, for the base of `c`, a candidate that scores at least
/// as high as `c`.
pub open spec fn covered(fnames: Seq<Seq<char>>, m: Seq<(Seq<char>, Posting)>, c: Posting) -> bool {
    exists|i: int|
        0 <= i < m.len() && (#[trigger] m[i]).0 == base_of(fnames[c.doc_id as int])
            && m[i].1.score >= c.score
}

/// Each of the first `n` candidates is covered.
pub open spec fn all_covered(
    fnames: Seq<Seq<char>>,
    ranked: Seq<Posting>,
    n: int,
    m: Seq<(Seq<char>, Posting)>,
) -> bool {
    forall|k: int| 0 <= k < n ==> covered(fnames, m, #[trigger] ranked[k])
}

/// What holds of the best-per-base table after `n` candidates.
pub open spec fn table_ok(
    fnames: Seq<Seq<char>>,
    ranked: Seq<Posting>,
    n: int,
    m: Seq<(Seq<char>, Posting)>,
) -> bool {
    &&& distinct_keys(m)
    &&& keys_are_bases(fnames, m)
    &&& all_among(ranked, n, m)
    &&& all_covered(fnames, ranked, n, m)
}

proof fn lemma_table_keep(
    fnames: Seq<Seq<char>>,
    ranked: Seq<Posting>,
    n: int,
    m: Seq<(Seq<char>, Posting)>,
)
    requires
        0 < n <= ranked.len(),
        table_ok(fnames, ranked, n - 1, m),
        covered(fnames, m, ranked[n - 1]),
    ensures
        table_ok(fnames, ranked, n, m),
{
    assert forall|i: int| 0 <= i < m.len() implies among(ranked, n, (#[trigger] m[i]).1) by {
        assert(among(ranked, n - 1, m[i].1));
        let k = choose|k: int| 0 <= k < n - 1 && ranked[k] == m[i].1;
        assert(0 <= k < n && ranked[k] == m[i].1);
    }
    assert forall|k: int| 0 <= k < n implies covered(fnames, m, #[trigger] ranked[k]) by {
        if k < n - 1 {
            assert(covered(fnames, m, ranked[k]));
        }
    }
}

proof fn lemma_covered_after_upsert(
    fnames: Seq<Seq<char>>,
    m: Seq<(Seq<char>, Posting)>,
    c: Posting,
    x: Posting,
)
    requires
        distinct_keys(m),
        covered(fnames, m, x),
        match lookup(m, base_of(fnames[c.doc_id as int])) {
            Some(best) => c.score > best.score,
            None => true,
        },
    ensures
        covered(fnames, upsert(m, base_of(fnames[c.doc_id as int]), c), x),
{
    let base = base_of(fnames[c.doc_id as int]);
    let now = upsert(m, base, c);
    let i = choose|i: int|
        0 <= i < m.len() && (#[trigger] m[i]).0 == base_of(fnames[x.doc_id as int]) && m[i].1.score
            >= x.score;
    lemma_lookup_at(m, i);
    if m[i].0 == base {
        assert(now[i] == (base, c));
        assert(now[i].0 == base_of(fnames[x.doc_id as int]) && now[i].1.score >= x.score);
    } else {
        assert(now[i] == m[i]);
        assert(now[i].0 == base_of(fnames[x.doc_id as int]) && now[i].1.score >= x.score);
    }
}

proof fn lemma_table_replace(
    fnames: Seq<Seq<char>>,
    ranked: Seq<Posting>,
    n: int,
    m: Seq<(Seq<char>, Posting)>,
)
    requires
        0 < n <= ranked.len(),
        table_ok(fnames, ranked, n - 1, m),
        match lookup(m, base_of(fnames[ranked[n - 1].doc_id as int])) {
            Some(best) => ranked[n - 1].score > best.score,
            None => true,
        },
    ensures
        table_ok(
            fnames,
            ranked,
            n,
            upsert(m, base_of(fnames[ranked[n - 1].doc_id as int]), ranked[n - 1]),
        ),
{
    let c = ranked[n - 1];
    let base = base_of(fnames[c.doc_id as int]);
    let now = upsert(m, base, c);
    lemma_upsert(m, base, c);
    let at = if has_key(m, base) {
        index_of_key(m, base)
    } else {
        m.len() as int
    };
    assert(now[at] == (base, c));
    assert(keys_are_bases(fnames, now)) by {
        assert forall|i: int| 0 <= i < now.len() implies (#[trigger] now[i]).0 == base_of(
            fnames[now[i].1.doc_id as int],
        ) by {
            if i != at {
                assert(now[i] == m[i]);
            }
        }
    }
    assert(all_among(ranked, n, now)) by {
        assert forall|i: int| 0 <= i < now.len() implies among(ranked, n, (#[trigger] now[i]).1) by {
            if i != at {
                assert(now[i] == m[i]);
                assert(among(ranked, n - 1, m[i].1));
                let k = choose|k: int| 0 <= k < n - 1 && ranked[k] == m[i].1;
                assert(0 <= k < n && ranked[k] == now[i].1);
            } else {
                assert(ranked[n - 1] == now[i].1);
            }
        }
    }
    assert(all_covered(fnames, ranked, n, now)) by {
        assert forall|k: int| 0 <= k < n implies covered(fnames, now, #[trigger] ranked[k]) by {
            if k == n - 1 {
                assert(now[at].0 == base && now[at].1.score >= c.score);
            } else {
                assert(covered(fnames, m, ranked[k]));
                lemma_covered_after_upsert(fnames, m, c, ranked[k]);
            }
        }
    }
}

/// The best-per-base table keeps one candidate for each base, taken from
/// the candidates, and none of the candidates beats the one kept for its
/// base.
pub proof fn lemma_best_per_base(fnames: Seq<Seq<char>>, ranked: Seq<Posting>, n: int)
    requires
        0 <= n <= ranked.len(),
    ensures
        table_ok(fnames, ranked, n, best_per_base(fnames, ranked, n)),
    decreases n,
{
    if n > 0 {
        lemma_best_per_base(fnames, ranked, n - 1);
        let before = best_per_base(fnames, ranked, n - 1);
        let c = ranked[n - 1];
        let base = base_of(fnames[c.doc_id as int]);
        match lookup(before, base) {
            Some(best) => {
                if c.score > best.score {
                    lemma_table_replace(fnames, ranked, n, before);
                } else {
                    let at = index_of_key(before, base);
                    assert(before[at].0 == base && before[at].1.score >= c.score);
                    lemma_table_keep(fnames, ranked, n, before);
                }
            },
            None => {
                lemma_table_replace(fnames, ranked, n, before);
            },
        }
    }
}

/// Sorting keeps candidates of distinct bases distinct.
pub proof fn lemma_sort_keeps_distinct_bases(fnames: Seq<Seq<char>>, v: Seq<Posting>)
    requires
        distinct_bases(fnames, v),
    ensures
        distinct_bases(fnames, sort_desc(v)),
    decreases v.len(),
{
    if v.len() > 0 {
        let head = v.drop_last();
        assert(distinct_bases(fnames, head)) by {
            assert forall|i: int, j: int| 0 <= i < j < head.len() implies base_of(
                fnames[(#[trigger] head[i]).doc_id as int],
            ) != base_of(fnames[(#[trigger] head[j]).doc_id as int]) by {
                assert(head[i] == v[i] && head[j] == v[j]);
            }
        }
        lemma_sort_keeps_distinct_bases(fnames, head);
        lemma_sort_desc_elements(head);
        let inner = sort_desc(head);
        let x = v.last();
        let p = lemma_insert_desc_position(inner, x);
        let r = sort_desc(v);
        assert forall|i: int| 0 <= i < inner.len() implies base_of(
            fnames[(#[trigger] inner[i]).doc_id as int],
        ) != base_of(fnames[x.doc_id as int]) by {
            assert(inner.contains(inner[i]));
            assert(head.contains(inner[i]));
            let j = choose|j: int| 0 <= j < head.len() && head[j] == inner[i];
            assert(v[j] == inner[i]);
            assert(v[v.len() - 1] == x);
        }
        assert forall|i: int, j: int| 0 <= i < j < r.len() implies base_of(
            fnames[(#[trigger] r[i]).doc_id as int],
        ) != base_of(fnames[(#[trigger] r[j]).doc_id as int]) by {
            let a = if i < p {
                i
            } else {
                i - 1
            };
            let b = if j < p {
                j
            } else {
                j - 1
            };
            if i == p {
                assert(r[j] == inner[b]);
            } else if j == p {
                assert(r[i] == inner[a]);
            } else {
                assert(r[i] == inner[a] && r[j] == inner[b]);
            }
        }
    }
}

/// Some entry of `out` has the base of `c` and scores at least as high.
pub open spec fn matched_in(fnames: Seq<Seq<char>>, out: Seq<Posting>, c: Posting) -> bool {
    exists|i: int|
        0 <= i < out.len() && base_of(fnames[(#[trigger] out[i]).doc_id as int]) == base_of(
            fnames[c.doc_id as int],
        ) && out[i].score >= c.score
}

/// Every entry of `out` is one of `ranked`.
pub open spec fn taken_from(ranked: Seq<Posting>, out: Seq<Posting>) -> bool {
    forall|i: int| 0 <= i < out.len() ==> ranked.contains(#[trigger] out[i])
}

/// Every entry of `ranked` is matched in `out`.
pub open spec fn all_matched(fnames: Seq<Seq<char>>, ranked: Seq<Posting>, out: Seq<Posting>) -> bool {
    forall|k: int| 0 <= k < ranked.len() ==> matched_in(fnames, out, #[trigger] ranked[k])
}

proof fn lemma_kept_distinct(fnames: Seq<Seq<char>>, table: Seq<(Seq<char>, Posting)>)
    requires
        distinct_keys(table),
        keys_are_bases(fnames, table),
    ensures
        distinct_bases(fnames, kept(table)),
{
    let v = kept(table);
    assert forall|i: int, j: int| 0 <= i < j < v.len() implies base_of(
        fnames[(#[trigger] v[i]).doc_id as int],
    ) != base_of(fnames[(#[trigger] v[j]).doc_id as int]) by {
        assert(table[i].0 != table[j].0);
    }
}

proof fn lemma_deduped_taken(ranked: Seq<Posting>, table: Seq<(Seq<char>, Posting)>)
    requires
        all_among(ranked, ranked.len() as int, table),
    ensures
        taken_from(ranked, sort_desc(kept(table))),
{
    let v = kept(table);
    let out = sort_desc(v);
    lemma_sort_desc_elements(v);
    assert forall|i: int| 0 <= i < out.len() implies ranked.contains(#[trigger] out[i]) by {
        assert(out.contains(out[i]));
        assert(v.contains(out[i]));
        let j = choose|j: int| 0 <= j < v.len() && v[j] == out[i];
        assert(among(ranked, ranked.len() as int, table[j].1));
    }
}

proof fn lemma_deduped_matched(
    fnames: Seq<Seq<char>>,
    table: Seq<(Seq<char>, Posting)>,
    c: Posting,
)
    requires
        covered(fnames, table, c),
        keys_are_bases(fnames, table),
    ensures
        matched_in(fnames, sort_desc(kept(table)), c),
{
    let v = kept(table);
    let out = sort_desc(v);
    lemma_sort_desc_elements(v);
    let j = choose|j: int|
        0 <= j < table.len() && (#[trigger] table[j]).0 == base_of(fnames[c.doc_id as int])
            && table[j].1.score >= c.score;
    assert(v[j] == table[j].1);
    assert(v.contains(v[j]));
    assert(out.contains(v[j]));
    let i = choose|i: int| 0 <= i < out.len() && out[i] == v[j];
    assert(base_of(fnames[out[i].doc_id as int]) == base_of(fnames[c.doc_id as int])
        && out[i].score >= c.score);
}

/// Deduplication returns candidates of pairwise distinct bases, best
/// first; each is one of the candidates given, and no candidate given
/// beats the one returned for its base.
pub proof fn lemma_deduped(fnames: Seq<Seq<char>>, ranked: Seq<Posting>)
    ensures
        distinct_bases(fnames, deduped(fnames, ranked)),
        sorted_desc(deduped(fnames, ranked)),
        taken_from(ranked, deduped(fnames, ranked)),
        all_matched(fnames, ranked, deduped(fnames, ranked)),
{
    let n = ranked.len() as int;
    let table = best_per_base(fnames, ranked, n);
    lemma_best_per_base(fnames, ranked, n);
    lemma_kept_distinct(fnames, table);
    lemma_sort_keeps_distinct_bases(fnames, kept(table));
    lemma_sort_desc(kept(table));
    lemma_deduped_taken(ranked, table);
    assert forall|k: int| 0 <= k < ranked.len() implies matched_in(
        fnames,
        deduped(fnames, ranked),
        #[trigger] ranked[k],
    ) by {
        assert(covered(fnames, table, ranked[k]));
        lemma_deduped_matched(fnames, table, ranked[k]);
    }
}

/// Every candidate names a document below `n`.
pub open spec fn docs_below(ranked: Seq<Posting>, n: int) -> bool {
    forall|i: int| 0 <= i < ranked.len() ==> (#[trigger] ranked[i]).doc_id < n
}

/// Keeps, of all candidates whose files share a base, the one that scores
/// highest (the earliest of those), and returns the kept ones best first.
pub fn dedup_by_base(index: &MmapIndex, ranked: &Vec<Posting>) -> (out: Vec<Posting>)
    requires
        docs_below(ranked@, index.doc_map@.len() as int),
    ensures
        out@ == deduped(views(index.doc_map@), ranked@),
        distinct_bases(views(index.doc_map@), out@),
        sorted_desc(out@),
        docs_below(out@, index.doc_map@.len() as int),
{
    let ghost fnames = views(index.doc_map@);
    let mut best: StrMap<Posting> = StrMap::new();
    let mut i: usize = 0;
    while i < ranked.len()
        invariant
            i <= ranked@.len(),
            fnames == views(index.doc_map@),
            docs_below(ranked@, index.doc_map@.len() as int),
            best@ == best_per_base(fnames, ranked@, i as int),
        decreases ranked@.len() - i,
    {
        let c = ranked[i];
        let base = file_base(index.doc_map[c.doc_id as usize].as_str());
        match best.find(base.as_str()) {
            Some(j) => {
                if c.score > best.value(j).score {
                    best.set(j, c);
                }
            },
            None => {
                best.insert(base, c);
            },
        }
        i += 1;
    }
    let mut values: Vec<Posting> = Vec::with_capacity(best.len());
    let mut j: usize = 0;
    while j < best.len()
        invariant
            j <= best@.len(),
            values@ == kept(best@).take(j as int),
        decreases best@.len() - j,
    {
        values.push(*best.value(j));
        assert(values@ =~= kept(best@).take(j + 1));
        j += 1;
    }
    assert(values@ =~= kept(best@));
    let out = sort_postings(&values);
    proof {
        lemma_deduped(fnames, ranked@);
        assert forall|k: int| 0 <= k < out@.len() implies (#[trigger] out@[k]).doc_id
            < index.doc_map@.len() by {
            assert(ranked@.contains(out@[k]));
        }
    }
    out
}

/// The `limit` best candidates, best first.
pub fn top_candidates(candidates: &Vec<Posting>, limit: usize) -> (out: Vec<Posting>)
    ensures
        out@ == sort_desc(candidates@).take(
            if limit < candidates@.len() {
                limit as int
            } else {
                candidates@.len() as int
            },
        ),
        sorted_desc(out@),
        forall|i: int| 0 <= i < out@.len() ==> candidates@.contains(#[trigger] out@[i]),
{
    let mut out = sort_postings(candidates);
    proof {
        lemma_sort_desc_elements(candidates@);
    }
    let ghost sorted = out@;
    if limit < out.len() {
        out.truncate(limit);
    }
    assert(out@ =~= sorted.take(out@.len() as int));
    assert forall|i: int| 0 <= i < out@.len() implies candidates@.contains(#[trigger] out@[i]) by {
        assert(sorted.contains(sorted[i]));
    }
    out
}

/// One line of a query's answer. The score is a rank key: it orders as the
/// host's score does.
pub struct SearchResult {
    pub doc_id: u32,
    pub fname: String,
    pub name_desc: String,
    pub score: u32,
}

/// The answer records for the ranked documents, in their order.
pub fn collect_results(index: &MmapIndex, ranked: &Vec<Posting>) -> (out: Vec<SearchResult>)
    requires
        index.wf(),
        docs_below(ranked@, index.doc_map@.len() as int),
    ensures
        out@.len() == ranked@.len(),
        forall|i: int|
            0 <= i < out@.len() ==> {
                &&& (#[trigger] out@[i]).doc_id == ranked@[i].doc_id
                &&& out@[i].score == ranked@[i].score
                &&& out@[i].fname@ == index.doc_map@[ranked@[i].doc_id as int]@
                &&& out@[i].name_desc@ == index.name_descs@[ranked@[i].doc_id as int]@
            },
{
    let mut out: Vec<SearchResult> = Vec::with_capacity(ranked.len());
    let mut i: usize = 0;
    while i < ranked.len()
        invariant
            i <= ranked@.len(),
            index.wf(),
            docs_below(ranked@, index.doc_map@.len() as int),
            out@.len() == i,
            forall|k: int|
                0 <= k < i ==> {
                    &&& (#[trigger] out@[k]).doc_id == ranked@[k].doc_id
                    &&& out@[k].score == ranked@[k].score
                    &&& out@[k].fname@ == index.doc_map@[ranked@[k].doc_id as int]@
                    &&& out@[k].name_desc@ == index.name_descs@[ranked@[k].doc_id as int]@
                },
        decreases ranked@.len() - i,
    {
        let c = ranked[i];
        let doc = c.doc_id as usize;
        out.push(
            SearchResult {
                doc_id: c.doc_id,
                fname: index.doc_map[doc].clone(),
                name_desc: index.name_descs[doc].clone(),
                score: c.score,
            },
        );
        i += 1;
    }
    out
}

} // verus!
