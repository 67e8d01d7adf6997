//! Sorted, deduplicated word lists.
//!
//! Reverse-index buckets and resolved synonym/antonym lists are kept as
//! strictly sorted sequences of words: sorted lexicographically and free
//! of duplicates. [`insert_sorted`] is the mathematical insertion into
//! such a sequence; [`insert_unique`] performs it.
use vstd::prelude::*;

use crate::order::lemma_seq_lt_asymmetric;
use crate::order::lemma_seq_lt_connected;
use crate::order::lemma_seq_lt_irreflexive;
use crate::order::lemma_seq_lt_transitive;
use crate::order::seq_lt;
use crate::order::str_eq;
use crate::order::str_lt;

verus! {

/// The character sequences of a sequence of strings.
pub open spec fn views_of(s: Seq<String>) -> Seq<Seq<char>> {
    s.map_values(|w: String| w@)
}

/// Strictly ascending: sorted lexicographically, with no duplicates.
pub open spec fn strictly_sorted(s: Seq<Seq<char>>) -> bool {
    forall|i: int, j: int| 0 <= i < j < s.len() ==> seq_lt(s[i], s[j])
}

/// Insertion of `w` into a strictly sorted sequence, keeping it strictly
/// sorted: `w` lands at its ordered position, or nowhere if already present.
pub open spec fn insert_sorted(s: Seq<Seq<char>>, w: Seq<char>) -> Seq<Seq<char>>
    decreases s.len(),
{
    if s.len() == 0 {
        seq![w]
    } else if w == s[0] {
        s
    } else if seq_lt(w, s[0]) {
        seq![w] + s
    } else {
        seq![s[0]] + insert_sorted(s.subrange(1, s.len() as int), w)
    }
}

/// `insert_sorted` keeps the sequence strictly sorted and adds exactly `w`
/// to its contents.
pub proof fn lemma_insert_sorted_props(s: Seq<Seq<char>>, w: Seq<char>)
    requires
        strictly_sorted(s),
    ensures
        strictly_sorted(insert_sorted(s, w)),
        forall|x: Seq<char>| insert_sorted(s, w).contains(x) <==> (s.contains(x) || x == w),
        insert_sorted(s, w).contains(w),
    decreases s.len(),
{
    let r = insert_sorted(s, w);
    if s.len() == 0 {
        assert(r[0] == w);
    } else if w == s[0] {
        assert(s.contains(w)) by {
            assert(s[0] == w);
        }
    } else if seq_lt(w, s[0]) {
        assert(r == seq![w] + s);
        assert forall|i: int, j: int| 0 <= i < j < r.len() implies seq_lt(r[i], r[j]) by {
            if i == 0 {
                if j == 1 {
                    assert(r[j] == s[0]);
                } else {
                    lemma_seq_lt_transitive(w, s[0], s[j - 1]);
                }
            }
        }
        assert forall|x: Seq<char>| r.contains(x) implies (s.contains(x) || x == w) by {
            let k = choose|k: int| 0 <= k < r.len() && r[k] == x;
            if k > 0 {
                assert(s[k - 1] == x);
            }
        }
        assert forall|x: Seq<char>| s.contains(x) implies r.contains(x) by {
            let k = choose|k: int| 0 <= k < s.len() && s[k] == x;
            assert(r[k + 1] == x);
        }
        assert(r[0] == w);
    } else {
        lemma_seq_lt_connected(w, s[0]);
        assert(seq_lt(s[0], w));
        let tail = s.subrange(1, s.len() as int);
        let rt = insert_sorted(tail, w);
        assert(strictly_sorted(tail)) by {
            assert(forall|i: int, j: int|
                0 <= i < j < tail.len() ==> seq_lt(s[i + 1], s[j + 1]) && tail[i] == s[i + 1]
                    && tail[j] == s[j + 1]);
        }
        lemma_insert_sorted_props(tail, w);
        assert(r == seq![s[0]] + rt);
        assert forall|i: int, j: int| 0 <= i < j < r.len() implies seq_lt(r[i], r[j]) by {
            if i == 0 {
                assert(rt.contains(rt[j - 1]));
                if rt[j - 1] == w {
                    assert(seq_lt(s[0], w));
                } else {
                    assert(tail.contains(rt[j - 1]));
                    let k = choose|k: int| 0 <= k < tail.len() && tail[k] == rt[j - 1];
                    assert(tail[k] == s[k + 1]);
                    assert(seq_lt(s[0], s[k + 1]));
                }
            } else {
                assert(seq_lt(rt[i - 1], rt[j - 1]));
            }
        }
        assert forall|x: Seq<char>| r.contains(x) implies (s.contains(x) || x == w) by {
            let k = choose|k: int| 0 <= k < r.len() && r[k] == x;
            if k == 0 {
                assert(s[0] == x);
            } else {
                assert(rt.contains(rt[k - 1]));
                if rt[k - 1] != w {
                    assert(tail.contains(rt[k - 1]));
                    let m = choose|m: int| 0 <= m < tail.len() && tail[m] == x;
                    assert(s[m + 1] == x);
                }
            }
        }
        assert forall|x: Seq<char>| (s.contains(x) || x == w) implies r.contains(x) by {
            if x == w {
                assert(rt.contains(w));
                let m = choose|m: int| 0 <= m < rt.len() && rt[m] == w;
                assert(r[m + 1] == w);
            } else {
                let k = choose|k: int| 0 <= k < s.len() && s[k] == x;
                if k == 0 {
                    assert(r[0] == x);
                } else {
                    assert(tail[k - 1] == x);
                    assert(tail.contains(x));
                    assert(rt.contains(x));
                    let m = choose|m: int| 0 <= m < rt.len() && rt[m] == x;
                    assert(r[m + 1] == x);
                }
            }
        }
        assert(rt.contains(w));
        assert(r.contains(w)) by {
            let m = choose|m: int| 0 <= m < rt.len() && rt[m] == w;
            assert(r[m + 1] == w);
        }
    }
}

/// Inserting a word that is already present changes nothing.
pub proof fn lemma_insert_sorted_present(s: Seq<Seq<char>>, w: Seq<char>)
    requires
        strictly_sorted(s),
        s.contains(w),
    ensures
        insert_sorted(s, w) == s,
    decreases s.len(),
{
    let k = choose|k: int| 0 <= k < s.len() && s[k] == w;
    if s[0] == w {
    } else {
        assert(k > 0);
        assert(seq_lt(s[0], w));
        lemma_seq_lt_asymmetric(s[0], w);
        let tail = s.subrange(1, s.len() as int);
        assert(strictly_sorted(tail)) by {
            assert(forall|p: int, q: int|
                0 <= p < q < tail.len() ==> seq_lt(s[p + 1], s[q + 1]) && tail[p] == s[p + 1]
                    && tail[q] == s[q + 1]);
        }
        assert(tail.contains(w)) by {
            assert(tail[k - 1] == w);
        }
        lemma_insert_sorted_present(tail, w);
        assert(insert_sorted(s, w) =~= s);
    }
}

/// Two strictly sorted sequences with the same members are equal.
pub proof fn lemma_strictly_sorted_unique(a: Seq<Seq<char>>, b: Seq<Seq<char>>)
    requires
        strictly_sorted(a),
        strictly_sorted(b),
        forall|x: Seq<char>| a.contains(x) <==> b.contains(x),
    ensures
        a == b,
    decreases a.len(),
{
    if a.len() == 0 {
        if b.len() > 0 {
            assert(b.contains(b[0]));
            assert(false);
        }
        assert(a =~= b);
    } else {
        assert(a.contains(a[0]));
        assert(b.len() > 0);
        assert(a[0] == b[0]) by {
            assert(b.contains(a[0]));
            assert(b.contains(b[0]));
            assert(a.contains(b[0]));
            let k = choose|k: int| 0 <= k < b.len() && b[k] == a[0];
            let m = choose|m: int| 0 <= m < a.len() && a[m] == b[0];
            if k > 0 && m > 0 {
                assert(seq_lt(b[0], a[0]));
                assert(seq_lt(a[0], b[0]));
                lemma_seq_lt_asymmetric(a[0], b[0]);
            }
        }
        let ta = a.subrange(1, a.len() as int);
        let tb = b.subrange(1, b.len() as int);
        assert(strictly_sorted(ta) && strictly_sorted(tb)) by {
            assert(forall|p: int, q: int|
                0 <= p < q < ta.len() ==> seq_lt(a[p + 1], a[q + 1]) && ta[p] == a[p + 1] && ta[q]
                    == a[q + 1]);
            assert(forall|p: int, q: int|
                0 <= p < q < tb.len() ==> seq_lt(b[p + 1], b[q + 1]) && tb[p] == b[p + 1] && tb[q]
                    == b[q + 1]);
        }
        assert(forall|x: Seq<char>| ta.contains(x) <==> tb.contains(x)) by {
            assert forall|x: Seq<char>| ta.contains(x) implies tb.contains(x) by {
                let k = choose|k: int| 0 <= k < ta.len() && ta[k] == x;
                assert(a[k + 1] == x);
                assert(seq_lt(a[0], x));
                assert(a.contains(x));
                assert(b.contains(x));
                let m = choose|m: int| 0 <= m < b.len() && b[m] == x;
                assert(m > 0) by {
                    lemma_seq_lt_irreflexive(x);
                }
                assert(tb[m - 1] == x);
            }
            assert forall|x: Seq<char>| tb.contains(x) implies ta.contains(x) by {
                let k = choose|k: int| 0 <= k < tb.len() && tb[k] == x;
                assert(b[k + 1] == x);
                assert(seq_lt(b[0], x));
                assert(b.contains(x));
                assert(a.contains(x));
                let m = choose|m: int| 0 <= m < a.len() && a[m] == x;
                assert(m > 0) by {
                    lemma_seq_lt_irreflexive(x);
                }
                assert(ta[m - 1] == x);
            }
        }
        lemma_strictly_sorted_unique(ta, tb);
        assert(a.len() == b.len());
        assert(forall|k: int| 1 <= k < a.len() ==> a[k] == ta[k - 1] && b[k] == tb[k - 1]);
        assert(a =~= b);
    }
}

/// Where `insert_sorted` lands: at the first position whose entry is not
/// below `w`, or nowhere if that entry equals `w`.
pub proof fn lemma_insert_sorted_at(s: Seq<Seq<char>>, w: Seq<char>, i: int)
    requires
        strictly_sorted(s),
        0 <= i <= s.len(),
        forall|k: int| 0 <= k < i ==> seq_lt(s[k], w),
        i < s.len() ==> !seq_lt(s[i as int], w),
    ensures
        (i < s.len() && s[i as int] == w) ==> insert_sorted(s, w) == s,
        !(i < s.len() && s[i as int] == w) ==> insert_sorted(s, w) == s.insert(i, w),
    decreases i,
{
    if i == 0 {
        if s.len() == 0 {
            assert(insert_sorted(s, w) =~= s.insert(0, w));
        } else if s[0] == w {
        } else {
            lemma_seq_lt_connected(w, s[0]);
            assert(seq_lt(w, s[0]));
            assert(insert_sorted(s, w) =~= s.insert(0, w));
        }
    } else {
        assert(seq_lt(s[0], w));
        lemma_seq_lt_asymmetric(s[0], w);
        assert(s[0] != w) by {
            lemma_seq_lt_irreflexive(w);
        }
        let tail = s.subrange(1, s.len() as int);
        assert(strictly_sorted(tail)) by {
            assert(forall|p: int, q: int|
                0 <= p < q < tail.len() ==> seq_lt(s[p + 1], s[q + 1]) && tail[p] == s[p + 1]
                    && tail[q] == s[q + 1]);
        }
        assert(forall|k: int| 0 <= k < i - 1 ==> tail[k] == s[k + 1] && seq_lt(s[k + 1], w));
        lemma_insert_sorted_at(tail, w, i - 1);
        if i < s.len() && s[i as int] == w {
            assert(tail[i - 1] == w);
            assert(insert_sorted(s, w) =~= s);
        } else {
            assert(insert_sorted(s, w) =~= seq![s[0]] + tail.insert(i - 1, w));
            assert(seq![s[0]] + tail.insert(i - 1, w) =~= s.insert(i, w));
        }
    }
}

/// Inserts the word `w` into a strictly sorted vector of words, keeping it
/// strictly sorted; a word already present is not duplicated.
pub fn insert_unique(v: &mut Vec<String>, w: &str)
    requires
        strictly_sorted(views_of(old(v)@)),
    ensures
        views_of(final(v)@) == insert_sorted(views_of(old(v)@), w@),
        strictly_sorted(views_of(final(v)@)),
{
    let ghost s = views_of(v@);
    let mut i: usize = 0;
    while i < v.len() && str_lt(v[i].as_str(), w)
        invariant
            strictly_sorted(views_of(v@)),
            s == views_of(v@),
            0 <= i <= v@.len(),
            forall|k: int| 0 <= k < i ==> seq_lt(s[k], w@),
        decreases v@.len() - i,
    {
        i = i + 1;
    }
    proof {
        lemma_insert_sorted_at(s, w@, i as int);
    }
    if i < v.len() && str_eq(v[i].as_str(), w) {
        proof {
            lemma_insert_sorted_props(s, w@);
        }
    } else {
        v.insert(i, w.to_owned());
        proof {
            assert(views_of(v@) =~= s.insert(i as int, w@));
            lemma_insert_sorted_props(s, w@);
        }
    }
}

/// Copies a vector of strings, element for element.
pub fn clone_strings(v: &Vec<String>) -> (r: Vec<String>)
    ensures
        r@ == v@,
{
    let mut r: Vec<String> = Vec::new();
    let mut i: usize = 0;
    while i < v.len()
        invariant
            0 <= i <= v@.len(),
            r@.len() == i,
            forall|k: int| 0 <= k < i ==> r@[k] == v@[k],
        decreases v@.len() - i,
    {
        r.push(v[i].clone());
        i = i + 1;
    }
    proof {
        assert(r@ =~= v@);
    }
    r
}

} // verus!
