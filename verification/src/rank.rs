//! Ordering of scored documents: best first, and among equal scores in the
//! order in which they came.

use crate::index::Posting;
use vstd::prelude::*;

verus! {

/// `s`, which is ordered, with `c` put behind every entry that scores at
/// least as high.
pub open spec fn insert_desc(s: Seq<Posting>, c: Posting) -> Seq<Posting>
    decreases s.len(),
{
    if s.len() == 0 {
        seq![c]
    } else if s.last().score >= c.score {
        s.push(c)
    } else {
        insert_desc(s.drop_last(), c).push(s.last())
    }
}

/// The entries of `v` by descending score; entries with equal scores keep
/// their order.
pub open spec fn sort_desc(v: Seq<Posting>) -> Seq<Posting>
    decreases v.len(),
{
    if v.len() == 0 {
        Seq::empty()
    } else {
        insert_desc(sort_desc(v.drop_last()), v.last())
    }
}

/// No entry scores higher than one before it.
pub open spec fn sorted_desc(s: Seq<Posting>) -> bool {
    forall|i: int, j: int| 0 <= i <= j < s.len() ==> s[i].score >= s[j].score
}

/// Inserting keeps the order, adds exactly the new entry, and puts it at
/// the place that the scores fix.
pub proof fn lemma_insert_desc(s: Seq<Posting>, c: Posting)
    requires
        sorted_desc(s),
    ensures
        sorted_desc(insert_desc(s, c)),
        insert_desc(s, c).len() == s.len() + 1,
        insert_desc(s, c).to_multiset() == s.to_multiset().insert(c),
    decreases s.len(),
{
    broadcast use vstd::seq_lib::group_to_multiset_ensures;

    let r = insert_desc(s, c);
    if s.len() == 0 {
        assert(s =~= Seq::empty());
        assert(r =~= Seq::<Posting>::empty().push(c));
    } else if s.last().score >= c.score {
    } else {
        let head = s.drop_last();
        lemma_insert_desc(head, c);
        let inner = insert_desc(head, c);
        assert(s =~= head.push(s.last()));
        assert forall|i: int, j: int| 0 <= i <= j < r.len() implies r[i].score >= r[j].score by {
            if j == r.len() - 1 {
                if i < j {
                    lemma_insert_desc_bound(head, c, s.last().score, i);
                }
            } else {
                assert(inner[i].score >= inner[j].score);
            }
        }
        assert(r.to_multiset() =~= s.to_multiset().insert(c));
    }
}

/// Every entry of `insert_desc(s, c)` scores at least `low` when `c` and
/// all of `s` do.
proof fn lemma_insert_desc_bound(s: Seq<Posting>, c: Posting, low: u32, i: int)
    requires
        forall|k: int| 0 <= k < s.len() ==> s[k].score >= low,
        c.score >= low,
        0 <= i < insert_desc(s, c).len(),
    ensures
        insert_desc(s, c)[i].score >= low,
    decreases s.len(),
{
    if s.len() == 0 {
    } else if s.last().score >= c.score {
    } else {
        if i < insert_desc(s.drop_last(), c).len() {
            lemma_insert_desc_bound(s.drop_last(), c, low, i);
        }
    }
}

/// Sorting orders the entries and neither adds nor loses one.
pub proof fn lemma_sort_desc(v: Seq<Posting>)
    ensures
        sorted_desc(sort_desc(v)),
        sort_desc(v).len() == v.len(),
        sort_desc(v).to_multiset() == v.to_multiset(),
    decreases v.len(),
{
    broadcast use vstd::seq_lib::group_to_multiset_ensures;

    if v.len() > 0 {
        lemma_sort_desc(v.drop_last());
        lemma_insert_desc(sort_desc(v.drop_last()), v.last());
        assert(v =~= v.drop_last().push(v.last()));
    }
}

/// Where an entry goes: behind the first `p` entries, when those behind
/// them all score lower and the one before does not.
pub proof fn lemma_insert_desc_at(s: Seq<Posting>, c: Posting, p: int)
    requires
        0 <= p <= s.len(),
        forall|k: int| p <= k < s.len() ==> s[k].score < c.score,
        p > 0 ==> s[p - 1].score >= c.score,
    ensures
        insert_desc(s, c) == s.insert(p, c),
    decreases s.len() - p,
{
    if p == s.len() {
        assert(s.insert(p, c) =~= s.push(c));
        if s.len() == 0 {
            assert(s.push(c) =~= seq![c]);
        }
    } else {
        lemma_insert_desc_at(s.drop_last(), c, p);
        assert(s.drop_last().insert(p, c).push(s.last()) =~= s.insert(p, c));
    }
}

/// Puts `c` into the ordered list `out`, behind every entry that scores at
/// least as high.
pub fn insert_sorted(out: &mut Vec<Posting>, c: Posting)
    requires
        sorted_desc(old(out)@),
    ensures
        final(out)@ == insert_desc(old(out)@, c),
        sorted_desc(final(out)@),
{
    let mut p: usize = out.len();
    while p > 0 && out[p - 1].score < c.score
        invariant
            p <= out@.len(),
            out@ == old(out)@,
            forall|k: int| p <= k < out@.len() ==> out@[k].score < c.score,
        decreases p,
    {
        p -= 1;
    }
    proof {
        lemma_insert_desc_at(out@, c, p as int);
        lemma_insert_desc(out@, c);
    }
    out.insert(p, c);
}

/// Two ordered lists as one: the entries of both by descending score, and
/// among equal scores those of `x` before those of `y`.
pub open spec fn merge_desc(x: Seq<Posting>, y: Seq<Posting>) -> Seq<Posting>
    decreases x.len() + y.len(),
{
    if y.len() == 0 {
        x
    } else if x.len() == 0 {
        y
    } else if x.last().score >= y.last().score {
        merge_desc(x, y.drop_last()).push(y.last())
    } else {
        merge_desc(x.drop_last(), y).push(x.last())
    }
}

/// Inserting into the second list and merging is merging and inserting.
pub proof fn lemma_merge_insert(x: Seq<Posting>, y: Seq<Posting>, c: Posting)
    ensures
        insert_desc(merge_desc(x, y), c) == merge_desc(x, insert_desc(y, c)),
    decreases x.len() + y.len(),
{
    let none = Seq::<Posting>::empty();
    if y.len() == 0 {
        let one = seq![c];
        assert(insert_desc(y, c) == one);
        assert(one.drop_last() =~= none);
        assert(one.last() == c);
        assert(merge_desc(x, y) == x);
        if x.len() == 0 {
            assert(merge_desc(x, one) == one);
        } else if x.last().score >= c.score {
            assert(merge_desc(x, none) == x);
            assert(merge_desc(x, one) == merge_desc(x, one.drop_last()).push(c));
        } else {
            lemma_merge_insert(x.drop_last(), y, c);
            assert(merge_desc(x.drop_last(), y) == x.drop_last());
            assert(merge_desc(x, one) == merge_desc(x.drop_last(), one).push(x.last()));
        }
    } else if x.len() == 0 {
        assert(merge_desc(x, y) == y);
        assert(insert_desc(y, c).len() > 0);
        assert(merge_desc(x, insert_desc(y, c)) == insert_desc(y, c));
    } else {
        let a = x.last();
        let b = y.last();
        if b.score >= c.score {
            let yc = y.push(c);
            assert(insert_desc(y, c) == yc);
            assert(yc.drop_last() =~= y);
            assert(yc.last() == c);
            if a.score >= c.score {
                assert(merge_desc(x, yc) == merge_desc(x, y).push(c));
                let m = merge_desc(x, y);
                assert(m.last().score >= c.score) by {
                    if a.score >= b.score {
                        assert(m == merge_desc(x, y.drop_last()).push(b));
                    } else {
                        assert(m == merge_desc(x.drop_last(), y).push(a));
                    }
                }
            } else {
                lemma_merge_insert(x.drop_last(), y, c);
                assert(merge_desc(x, yc) == merge_desc(x.drop_last(), yc).push(a));
                assert(merge_desc(x, y) == merge_desc(x.drop_last(), y).push(a));
                let m = merge_desc(x.drop_last(), y).push(a);
                assert(m.drop_last() =~= merge_desc(x.drop_last(), y));
            }
        } else {
            let inner = insert_desc(y.drop_last(), c);
            let yc = inner.push(b);
            assert(insert_desc(y, c) == yc);
            assert(yc.drop_last() =~= inner);
            assert(yc.last() == b);
            if a.score >= b.score {
                lemma_merge_insert(x, y.drop_last(), c);
                assert(merge_desc(x, yc) == merge_desc(x, inner).push(b));
                assert(merge_desc(x, y) == merge_desc(x, y.drop_last()).push(b));
                let m = merge_desc(x, y.drop_last()).push(b);
                assert(m.drop_last() =~= merge_desc(x, y.drop_last()));
            } else {
                lemma_merge_insert(x.drop_last(), y, c);
                assert(merge_desc(x, yc) == merge_desc(x.drop_last(), yc).push(a));
                assert(merge_desc(x, y) == merge_desc(x.drop_last(), y).push(a));
                let m = merge_desc(x.drop_last(), y).push(a);
                assert(m.drop_last() =~= merge_desc(x.drop_last(), y));
            }
        }
    }
}

/// Sorting two lists and merging them is sorting the one after the other.
pub proof fn lemma_sort_merge(a: Seq<Posting>, b: Seq<Posting>)
    ensures
        sort_desc(a + b) == merge_desc(sort_desc(a), sort_desc(b)),
    decreases b.len(),
{
    if b.len() == 0 {
        assert(a + b =~= a);
    } else {
        lemma_sort_merge(a, b.drop_last());
        assert((a + b).drop_last() =~= a + b.drop_last());
        lemma_merge_insert(sort_desc(a), sort_desc(b.drop_last()), b.last());
    }
}

/// `s` back to front.
pub open spec fn reversed(s: Seq<Posting>) -> Seq<Posting> {
    Seq::new(s.len(), |i: int| s[s.len() - 1 - i])
}

/// Merges two ordered lists.
fn merge_sorted(x: &Vec<Posting>, y: &Vec<Posting>) -> (out: Vec<Posting>)
    ensures
        out@ == merge_desc(x@, y@),
{
    let mut back: Vec<Posting> = Vec::with_capacity(x.len());
    let mut i: usize = x.len();
    let mut j: usize = y.len();
    proof {
        assert(x@.take(i as int) =~= x@);
        assert(y@.take(j as int) =~= y@);
        assert(merge_desc(x@, y@) =~= merge_desc(x@.take(i as int), y@.take(j as int)) + reversed(
            back@,
        ));
    }
    while i > 0 || j > 0
        invariant
            i <= x@.len(),
            j <= y@.len(),
            merge_desc(x@, y@) == merge_desc(x@.take(i as int), y@.take(j as int)) + reversed(
                back@,
            ),
        decreases i + j,
    {
        let ghost xi = x@.take(i as int);
        let ghost yj = y@.take(j as int);
        let ghost before = back@;
        let take_y = if j == 0 {
            false
        } else if i == 0 {
            true
        } else {
            x[i - 1].score >= y[j - 1].score
        };
        if take_y {
            let p = y[j - 1];
            proof {
                assert(yj.drop_last() =~= y@.take(j - 1));
                assert(yj.last() == p);
                if i == 0 {
                    lemma_merge_with_nothing(yj.drop_last());
                    lemma_merge_with_nothing(yj);
                    assert(merge_desc(xi, yj) == merge_desc(xi, yj.drop_last()).push(p));
                }
            }
            back.push(p);
            j -= 1;
            assert(merge_desc(xi, yj) + reversed(before) =~= merge_desc(xi, y@.take(j as int))
                + reversed(back@));
        } else {
            let p = x[i - 1];
            proof {
                assert(xi.drop_last() =~= x@.take(i - 1));
                assert(xi.last() == p);
                if j == 0 {
                    assert(merge_desc(xi, yj) == xi);
                    assert(merge_desc(xi.drop_last(), yj) == xi.drop_last());
                    assert(xi =~= xi.drop_last().push(p));
                }
            }
            back.push(p);
            i -= 1;
            assert(merge_desc(xi, yj) + reversed(before) =~= merge_desc(x@.take(i as int), yj)
                + reversed(back@));
        }
    }
    proof {
        assert(x@.take(0) =~= Seq::<Posting>::empty());
        assert(y@.take(0) =~= Seq::<Posting>::empty());
        assert(merge_desc(x@, y@) =~= reversed(back@));
    }
    let n = back.len();
    let mut out: Vec<Posting> = Vec::with_capacity(n);
    let mut k: usize = 0;
    while k < n
        invariant
            k <= n,
            n == back@.len(),
            out@ == reversed(back@).take(k as int),
        decreases n - k,
    {
        out.push(back[n - 1 - k]);
        assert(out@ =~= reversed(back@).take(k + 1));
        k += 1;
    }
    assert(out@ =~= reversed(back@));
    out
}

/// Nothing merged with a list is the list.
proof fn lemma_merge_with_nothing(y: Seq<Posting>)
    ensures
        merge_desc(Seq::empty(), y) == y,
{
    if y.len() == 0 {
        assert(y =~= Seq::empty());
    }
}

/// Orders the entries from `lo` to `hi`.
fn sort_range(v: &Vec<Posting>, lo: usize, hi: usize) -> (out: Vec<Posting>)
    requires
        lo <= hi <= v@.len(),
    ensures
        out@ == sort_desc(v@.subrange(lo as int, hi as int)),
    decreases hi - lo,
{
    if hi - lo <= 8 {
        let mut out: Vec<Posting> = Vec::with_capacity(hi - lo);
        let mut i: usize = lo;
        proof {
            assert(v@.subrange(lo as int, lo as int) =~= Seq::<Posting>::empty());
        }
        while i < hi
            invariant
                lo <= i <= hi,
                hi <= v@.len(),
                out@ == sort_desc(v@.subrange(lo as int, i as int)),
                sorted_desc(out@),
            decreases hi - i,
        {
            proof {
                assert(v@.subrange(lo as int, i + 1).drop_last() =~= v@.subrange(
                    lo as int,
                    i as int,
                ));
            }
            insert_sorted(&mut out, v[i]);
            i += 1;
        }
        return out;
    }
    let mid = lo + (hi - lo) / 2;
    let left = sort_range(v, lo, mid);
    let right = sort_range(v, mid, hi);
    proof {
        lemma_sort_merge(v@.subrange(lo as int, mid as int), v@.subrange(mid as int, hi as int));
        assert(v@.subrange(lo as int, mid as int) + v@.subrange(mid as int, hi as int)
            =~= v@.subrange(lo as int, hi as int));
    }
    merge_sorted(&left, &right)
}

/// Orders `v` by descending score; entries with equal scores keep their
/// order.
pub fn sort_postings(v: &Vec<Posting>) -> (out: Vec<Posting>)
    ensures
        out@ == sort_desc(v@),
        sorted_desc(out@),
        out@.len() == v@.len(),
        out@.to_multiset() == v@.to_multiset(),
{
    let out = sort_range(v, 0, v.len());
    proof {
        assert(v@.subrange(0, v@.len() as int) =~= v@);
        lemma_sort_desc(v@);
    }
    out
}

/// Inserting puts the new entry somewhere and moves nothing else.
pub proof fn lemma_insert_desc_position(s: Seq<Posting>, c: Posting) -> (p: int)
    ensures
        0 <= p <= s.len(),
        insert_desc(s, c) == s.insert(p, c),
    decreases s.len(),
{
    if s.len() == 0 {
        assert(s.insert(0, c) =~= seq![c]);
        0
    } else if s.last().score >= c.score {
        assert(s.insert(s.len() as int, c) =~= s.push(c));
        s.len() as int
    } else {
        let p = lemma_insert_desc_position(s.drop_last(), c);
        assert(s.drop_last().insert(p, c).push(s.last()) =~= s.insert(p, c));
        p
    }
}

/// Sorting keeps exactly the entries that were there.
pub proof fn lemma_sort_desc_elements(v: Seq<Posting>)
    ensures
        forall|x: Posting| sort_desc(v).contains(x) <==> v.contains(x),
    decreases v.len(),
{
    if v.len() > 0 {
        let head = v.drop_last();
        lemma_sort_desc_elements(head);
        let inner = sort_desc(head);
        let p = lemma_insert_desc_position(inner, v.last());
        let r = sort_desc(v);
        assert(r == inner.insert(p, v.last()));
        assert forall|x: Posting| r.contains(x) <==> v.contains(x) by {
            if r.contains(x) {
                let i = choose|i: int| 0 <= i < r.len() && r[i] == x;
                if i < p {
                    assert(inner[i] == x);
                    assert(inner.contains(x));
                    assert(head.contains(x));
                    let j = choose|j: int| 0 <= j < head.len() && head[j] == x;
                    assert(v[j] == x);
                } else if i == p {
                    assert(v[v.len() - 1] == x);
                } else {
                    assert(inner[i - 1] == x);
                    assert(inner.contains(x));
                    assert(head.contains(x));
                    let j = choose|j: int| 0 <= j < head.len() && head[j] == x;
                    assert(v[j] == x);
                }
            }
            if v.contains(x) {
                let j = choose|j: int| 0 <= j < v.len() && v[j] == x;
                if j < head.len() {
                    assert(head[j] == x);
                    assert(head.contains(x));
                    assert(inner.contains(x));
                    let i = choose|i: int| 0 <= i < inner.len() && inner[i] == x;
                    if i < p {
                        assert(r[i] == x);
                    } else {
                        assert(r[i + 1] == x);
                    }
                } else {
                    assert(r[p] == x);
                }
            }
        }
    }
}

} // verus!
