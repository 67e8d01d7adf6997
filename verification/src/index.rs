//! The reverse index: from sense identifiers back to the words that
//! reference them.
//!
//! Synonym and antonym relations in a lexicon are expressed as sense
//! identifiers. The reverse index is built once per lexicon by scanning
//! every word entry's sense lists and inverting the relation; each bucket
//! is kept sorted lexicographically and deduplicated. Resolving a list of
//! sense references unions their buckets into one sorted, deduplicated
//! word list.
use vstd::prelude::*;

use crate::lexicon::WordEntry;
use crate::lexicon::WordEntryView;
use crate::order::str_eq;
use crate::sorted::clone_strings;
use crate::sorted::insert_sorted;
use crate::sorted::insert_unique;
use crate::sorted::lemma_insert_sorted_present;
use crate::sorted::lemma_insert_sorted_props;
use crate::sorted::strictly_sorted;
use crate::sorted::views_of;

verus! {

/// Mathematical model of the reverse index: an association list from
/// sense identifiers to their buckets of words.
pub open spec fn index_views(iv: Seq<(String, Vec<String>)>) -> Seq<(Seq<char>, Seq<Seq<char>>)> {
    iv.map_values(|p: (String, Vec<String>)| (p.0@, views_of(p.1@)))
}

/// The first bucket stored under key `k`, scanning in order.
pub open spec fn assoc_find(iv: Seq<(Seq<char>, Seq<Seq<char>>)>, k: Seq<char>) -> Option<
    Seq<Seq<char>>,
>
    decreases iv.len(),
{
    if iv.len() == 0 {
        Option::None
    } else if iv[0].0 == k {
        Option::Some(iv[0].1)
    } else {
        assoc_find(iv.subrange(1, iv.len() as int), k)
    }
}

/// Whether `k` appears as a key.
pub open spec fn assoc_has(iv: Seq<(Seq<char>, Seq<Seq<char>>)>, k: Seq<char>) -> bool {
    assoc_find(iv, k) is Some
}

/// The bucket under `k`, or the empty bucket for an absent key.
pub open spec fn bucket_or_empty(iv: Seq<(Seq<char>, Seq<Seq<char>>)>, k: Seq<char>) -> Seq<
    Seq<char>,
> {
    match assoc_find(iv, k) {
        Option::Some(b) => b,
        Option::None => Seq::empty(),
    }
}

/// Every bucket is strictly sorted.
pub open spec fn buckets_sorted(iv: Seq<(Seq<char>, Seq<Seq<char>>)>) -> bool {
    forall|j: int| 0 <= j < iv.len() ==> strictly_sorted(#[trigger] iv[j].1)
}

/// Appends `w` to the bucket of sense `id`: the first pair carrying `id`
/// gets `w` inserted in order, or a fresh bucket is added at the end.
pub open spec fn add_ref(
    iv: Seq<(Seq<char>, Seq<Seq<char>>)>,
    id: Seq<char>,
    w: Seq<char>,
) -> Seq<(Seq<char>, Seq<Seq<char>>)>
    decreases iv.len(),
{
    if iv.len() == 0 {
        seq![(id, seq![w])]
    } else if iv[0].0 == id {
        seq![(iv[0].0, insert_sorted(iv[0].1, w))] + iv.subrange(1, iv.len() as int)
    } else {
        seq![iv[0]] + add_ref(iv.subrange(1, iv.len() as int), id, w)
    }
}

/// Appends `w` to the buckets of all senses in `ids`, in order.
pub open spec fn add_refs(
    iv: Seq<(Seq<char>, Seq<Seq<char>>)>,
    ids: Seq<Seq<char>>,
    w: Seq<char>,
) -> Seq<(Seq<char>, Seq<Seq<char>>)>
    decreases ids.len(),
{
    if ids.len() == 0 {
        iv
    } else {
        add_refs(add_ref(iv, ids[0], w), ids.subrange(1, ids.len() as int), w)
    }
}

/// A category's sense list, with an absent category reading as empty.
pub open spec fn cat_ids(o: Option<Seq<Seq<char>>>) -> Seq<Seq<char>> {
    match o {
        Option::Some(v) => v,
        Option::None => Seq::empty(),
    }
}

/// All sense identifiers a word entry references, across its eight
/// part-of-speech categories, in category order.
pub open spec fn entry_all_ids(e: WordEntryView) -> Seq<Seq<char>> {
    cat_ids(e.p) + cat_ids(e.n) + cat_ids(e.u) + cat_ids(e.v) + cat_ids(e.x) + cat_ids(e.a)
        + cat_ids(e.r) + cat_ids(e.s)
}

/// The index accumulated over a sequence of word entries, starting from `iv`.
pub open spec fn index_from(
    iv: Seq<(Seq<char>, Seq<Seq<char>>)>,
    ws: Seq<WordEntryView>,
) -> Seq<(Seq<char>, Seq<Seq<char>>)>
    decreases ws.len(),
{
    if ws.len() == 0 {
        iv
    } else {
        index_from(add_refs(iv, entry_all_ids(ws[0]), ws[0].word), ws.subrange(1, ws.len() as int))
    }
}

/// The reverse index of a lexicon's word entries.
pub open spec fn index_of_words(ws: Seq<WordEntryView>) -> Seq<(Seq<char>, Seq<Seq<char>>)> {
    index_from(Seq::empty(), ws)
}

/// Word `word` references sense `id` somewhere in the entries `ws`.
pub open spec fn word_references(
    ws: Seq<WordEntryView>,
    word: Seq<char>,
    id: Seq<char>,
) -> bool {
    exists|i: int| 0 <= i < ws.len() && ws[i].word == word && entry_all_ids(ws[i]).contains(id)
}

/// What `add_ref` does to each key's bucket and to key presence.
pub proof fn lemma_add_ref_find(
    iv: Seq<(Seq<char>, Seq<Seq<char>>)>,
    id: Seq<char>,
    w: Seq<char>,
    k: Seq<char>,
)
    ensures
        bucket_or_empty(add_ref(iv, id, w), k) == if k == id {
            insert_sorted(bucket_or_empty(iv, k), w)
        } else {
            bucket_or_empty(iv, k)
        },
        assoc_has(add_ref(iv, id, w), k) == (assoc_has(iv, k) || k == id),
        buckets_sorted(iv) ==> buckets_sorted(add_ref(iv, id, w)),
    decreases iv.len(),
{
    let r = add_ref(iv, id, w);
    if iv.len() == 0 {
        assert(r == seq![(id, seq![w])]);
        assert(r.len() == 1);
        assert(r[0] == (id, seq![w]));
        let r1 = r.subrange(1, r.len() as int);
        assert(r1.len() == 0);
        assert(assoc_find(r1, k) == Option::None::<Seq<Seq<char>>>);
        assert(assoc_find(iv, k) == Option::None::<Seq<Seq<char>>>);
        if k == id {
            assert(assoc_find(r, k) == Option::Some(seq![w]));
            assert(bucket_or_empty(iv, k) == Seq::<Seq<char>>::empty());
            assert(insert_sorted(bucket_or_empty(iv, k), w) == seq![w]);
        } else {
            assert(assoc_find(r, k) == assoc_find(r1, k));
        }
        if buckets_sorted(iv) {
            assert(insert_sorted(Seq::empty(), w) == seq![w]);
            assert(strictly_sorted(seq![w])) by {
                lemma_insert_sorted_props(Seq::empty(), w);
            }
            assert(forall|j: int| 0 <= j < r.len() ==> r[j].1 == seq![w]);
        }
    } else if iv[0].0 == id {
        let tail = iv.subrange(1, iv.len() as int);
        assert(r == seq![(iv[0].0, insert_sorted(iv[0].1, w))] + tail);
        assert(r[0] == (iv[0].0, insert_sorted(iv[0].1, w)));
        assert(r.subrange(1, r.len() as int) =~= tail);
        if k == id {
            assert(assoc_find(r, k) == Option::Some(insert_sorted(iv[0].1, w)));
            assert(assoc_find(iv, k) == Option::Some(iv[0].1));
        } else {
            assert(assoc_find(r, k) == assoc_find(tail, k));
            assert(assoc_find(iv, k) == assoc_find(tail, k));
        }
        if buckets_sorted(iv) {
            lemma_insert_sorted_props(iv[0].1, w);
            assert(forall|j: int| 1 <= j < r.len() ==> r[j] == iv[j]);
        }
    } else {
        let tail = iv.subrange(1, iv.len() as int);
        let rt = add_ref(tail, id, w);
        lemma_add_ref_find(tail, id, w, k);
        assert(r == seq![iv[0]] + rt);
        assert(r[0] == iv[0]);
        assert(r.subrange(1, r.len() as int) =~= rt);
        if k == iv[0].0 {
            assert(assoc_find(r, k) == Option::Some(iv[0].1));
            assert(assoc_find(iv, k) == Option::Some(iv[0].1));
        } else {
            assert(assoc_find(r, k) == assoc_find(rt, k));
            assert(assoc_find(iv, k) == assoc_find(tail, k));
        }
        if buckets_sorted(iv) {
            assert(buckets_sorted(tail)) by {
                assert(forall|j: int| 0 <= j < tail.len() ==> tail[j] == iv[j + 1]);
            }
            assert(forall|j: int| 1 <= j < r.len() ==> r[j] == rt[j - 1]);
        }
    }
}

/// What `add_refs` does to each key's bucket: a key among `ids` has `w`
/// inserted into its bucket once; any other bucket is untouched.
pub proof fn lemma_add_refs_find(
    iv: Seq<(Seq<char>, Seq<Seq<char>>)>,
    ids: Seq<Seq<char>>,
    w: Seq<char>,
    k: Seq<char>,
)
    requires
        buckets_sorted(iv),
    ensures
        bucket_or_empty(add_refs(iv, ids, w), k) == if ids.contains(k) {
            insert_sorted(bucket_or_empty(iv, k), w)
        } else {
            bucket_or_empty(iv, k)
        },
        assoc_has(add_refs(iv, ids, w), k) == (assoc_has(iv, k) || ids.contains(k)),
        buckets_sorted(add_refs(iv, ids, w)),
        strictly_sorted(bucket_or_empty(iv, k)) ==> strictly_sorted(
            bucket_or_empty(add_refs(iv, ids, w), k),
        ),
    decreases ids.len(),
{
    if ids.len() == 0 {
        assert(!ids.contains(k));
    } else {
        let iv1 = add_ref(iv, ids[0], w);
        let rest = ids.subrange(1, ids.len() as int);
        lemma_add_ref_find(iv, ids[0], w, k);
        lemma_add_refs_find(iv1, rest, w, k);
        assert(ids.contains(k) == (k == ids[0] || rest.contains(k))) by {
            if ids.contains(k) {
                let m = choose|m: int| 0 <= m < ids.len() && ids[m] == k;
                if m > 0 {
                    assert(rest[m - 1] == k);
                }
            }
            if rest.contains(k) {
                let m = choose|m: int| 0 <= m < rest.len() && rest[m] == k;
                assert(ids[m + 1] == k);
            }
        }
        if k == ids[0] && rest.contains(k) {
            let b = bucket_or_empty(iv, k);
            assert(strictly_sorted(b)) by {
                if assoc_has(iv, k) {
                    lemma_assoc_find_sorted(iv, k);
                }
            }
            lemma_insert_sorted_props(b, w);
            lemma_insert_sorted_present(insert_sorted(b, w), w);
        }
        if strictly_sorted(bucket_or_empty(iv, k)) {
            lemma_insert_sorted_props(bucket_or_empty(iv, k), w);
        }
    }
}

/// A bucket found in a sorted index is strictly sorted.
pub proof fn lemma_assoc_find_sorted(iv: Seq<(Seq<char>, Seq<Seq<char>>)>, k: Seq<char>)
    requires
        buckets_sorted(iv),
        assoc_has(iv, k),
    ensures
        strictly_sorted(bucket_or_empty(iv, k)),
    decreases iv.len(),
{
    if iv.len() > 0 && iv[0].0 != k {
        let tail = iv.subrange(1, iv.len() as int);
        assert(buckets_sorted(tail)) by {
            assert(forall|j: int| 0 <= j < tail.len() ==> tail[j] == iv[j + 1]);
        }
        lemma_assoc_find_sorted(tail, k);
    }
}

/// What the accumulated index holds under a key `k`, regarding one word
/// `w`: the starting bucket's members, plus `w` if some processed entry
/// owns it and references `k`.
pub proof fn lemma_index_from_find(
    iv: Seq<(Seq<char>, Seq<Seq<char>>)>,
    ws: Seq<WordEntryView>,
    k: Seq<char>,
    w: Seq<char>,
)
    requires
        buckets_sorted(iv),
    ensures
        buckets_sorted(index_from(iv, ws)),
        assoc_has(index_from(iv, ws), k) == (assoc_has(iv, k) || exists|i: int|
            0 <= i < ws.len() && entry_all_ids(#[trigger] ws[i]).contains(k)),
        bucket_or_empty(index_from(iv, ws), k).contains(w) == (bucket_or_empty(iv, k).contains(w)
            || word_references(ws, w, k)),
    decreases ws.len(),
{
    if ws.len() == 0 {
        assert(!word_references(ws, w, k));
    } else {
        let e = ws[0];
        let ids = entry_all_ids(e);
        let iv1 = add_refs(iv, ids, e.word);
        let rest = ws.subrange(1, ws.len() as int);
        lemma_add_refs_find(iv, ids, e.word, k);
        lemma_index_from_find(iv1, rest, k, w);
        assert((exists|i: int| 0 <= i < ws.len() && entry_all_ids(#[trigger] ws[i]).contains(k))
            == (ids.contains(k) || exists|i: int|
            0 <= i < rest.len() && entry_all_ids(#[trigger] rest[i]).contains(k))) by {
            if exists|i: int| 0 <= i < ws.len() && entry_all_ids(#[trigger] ws[i]).contains(k) {
                let m = choose|m: int|
                    0 <= m < ws.len() && entry_all_ids(#[trigger] ws[m]).contains(k);
                if m > 0 {
                    assert(rest[m - 1] == ws[m]);
                }
            }
            if exists|i: int| 0 <= i < rest.len() && entry_all_ids(#[trigger] rest[i]).contains(k) {
                let m = choose|m: int|
                    0 <= m < rest.len() && entry_all_ids(#[trigger] rest[m]).contains(k);
                assert(ws[m + 1] == rest[m]);
            }
        }
        assert(word_references(ws, w, k) == ((w == e.word && ids.contains(k)) || word_references(
            rest,
            w,
            k,
        ))) by {
            if word_references(ws, w, k) {
                let m = choose|m: int|
                    0 <= m < ws.len() && ws[m].word == w && entry_all_ids(ws[m]).contains(k);
                if m > 0 {
                    assert(rest[m - 1] == ws[m]);
                    assert(word_references(rest, w, k));
                }
            }
            if word_references(rest, w, k) {
                let m = choose|m: int|
                    0 <= m < rest.len() && rest[m].word == w && entry_all_ids(rest[m]).contains(k);
                assert(ws[m + 1] == rest[m]);
            }
        }
        assert(index_from(iv, ws) == index_from(iv1, rest));
        let b = bucket_or_empty(iv, k);
        if ids.contains(k) {
            assert(strictly_sorted(b)) by {
                if assoc_has(iv, k) {
                    lemma_assoc_find_sorted(iv, k);
                }
            }
            lemma_insert_sorted_props(b, e.word);
            assert(bucket_or_empty(iv1, k) == insert_sorted(b, e.word));
            assert(bucket_or_empty(iv1, k).contains(w) == (b.contains(w) || w == e.word));
        } else {
            assert(bucket_or_empty(iv1, k) == b);
        }
    }
}

/// Inserts `word` into the bucket of sense `id`, creating the bucket if
/// the sense was not yet a key.
fn bucket_add(index: &mut Vec<(String, Vec<String>)>, id: &str, word: &str)
    requires
        buckets_sorted(index_views(old(index)@)),
    ensures
        index_views(final(index)@) == add_ref(index_views(old(index)@), id@, word@),
        buckets_sorted(index_views(final(index)@)),
{
    let ghost iv = index_views(index@);
    let mut i: usize = 0;
    while i < index.len() && !str_eq(index[i].0.as_str(), id)
        invariant
            0 <= i <= index@.len(),
            iv == index_views(index@),
            forall|m: int| 0 <= m < i ==> iv[m].0 != id@,
        decreases index@.len() - i,
    {
        i = i + 1;
    }
    proof {
        lemma_add_ref_find(iv, id@, word@, id@);
    }
    if i < index.len() {
        let key = index[i].0.clone();
        let mut bucket = clone_strings(&index[i].1);
        proof {
            assert(views_of(bucket@) == iv[i as int].1);
        }
        insert_unique(&mut bucket, word);
        index.set(i, (key, bucket));
        proof {
            lemma_add_ref_at(iv, id@, word@, i as int);
            assert(index_views(index@) =~= iv.update(
                i as int,
                (id@, insert_sorted(iv[i as int].1, word@)),
            ));
        }
    } else {
        let mut bucket: Vec<String> = Vec::new();
        insert_unique(&mut bucket, word);
        index.push((id.to_owned(), bucket));
        proof {
            lemma_add_ref_absent(iv, id@, word@);
            assert(views_of(bucket@) == insert_sorted(Seq::empty(), word@));
            assert(index_views(index@) =~= iv.push((id@, seq![word@])));
        }
    }
}

/// `add_ref` updates in place the first pair whose key matches.
proof fn lemma_add_ref_at(
    iv: Seq<(Seq<char>, Seq<Seq<char>>)>,
    id: Seq<char>,
    w: Seq<char>,
    j: int,
)
    requires
        0 <= j < iv.len(),
        iv[j].0 == id,
        forall|m: int| 0 <= m < j ==> iv[m].0 != id,
    ensures
        add_ref(iv, id, w) == iv.update(j, (id, insert_sorted(iv[j].1, w))),
    decreases j,
{
    if j == 0 {
        assert(add_ref(iv, id, w) =~= iv.update(0, (id, insert_sorted(iv[0].1, w))));
    } else {
        let tail = iv.subrange(1, iv.len() as int);
        assert(forall|m: int| 0 <= m < j - 1 ==> tail[m] == iv[m + 1] && iv[m + 1].0 != id);
        assert(tail[j - 1] == iv[j]);
        lemma_add_ref_at(tail, id, w, j - 1);
        assert(add_ref(iv, id, w) =~= iv.update(j, (id, insert_sorted(iv[j].1, w))));
    }
}

/// `add_ref` appends a fresh bucket when the key is absent.
proof fn lemma_add_ref_absent(iv: Seq<(Seq<char>, Seq<Seq<char>>)>, id: Seq<char>, w: Seq<char>)
    requires
        forall|m: int| 0 <= m < iv.len() ==> iv[m].0 != id,
    ensures
        add_ref(iv, id, w) == iv.push((id, seq![w])),
    decreases iv.len(),
{
    if iv.len() == 0 {
        assert(add_ref(iv, id, w) =~= iv.push((id, seq![w])));
    } else {
        let tail = iv.subrange(1, iv.len() as int);
        assert(forall|m: int| 0 <= m < tail.len() ==> tail[m] == iv[m + 1]);
        lemma_add_ref_absent(tail, id, w);
        assert(add_ref(iv, id, w) =~= iv.push((id, seq![w])));
    }
}

/// Appends `word` to the buckets of every sense in `ids`, in order.
fn add_id_list(index: &mut Vec<(String, Vec<String>)>, ids: &Vec<String>, word: &str)
    requires
        buckets_sorted(index_views(old(index)@)),
    ensures
        index_views(final(index)@) == add_refs(index_views(old(index)@), views_of(ids@), word@),
        buckets_sorted(index_views(final(index)@)),
{
    let ghost iv0 = index_views(index@);
    let ghost idseq = views_of(ids@);
    proof {
        assert(idseq.subrange(0, idseq.len() as int) =~= idseq);
    }
    let mut j: usize = 0;
    while j < ids.len()
        invariant
            0 <= j <= ids@.len(),
            idseq == views_of(ids@),
            buckets_sorted(index_views(index@)),
            add_refs(index_views(index@), idseq.subrange(j as int, idseq.len() as int), word@)
                == add_refs(iv0, idseq, word@),
        decreases ids@.len() - j,
    {
        let ghost before = index_views(index@);
        bucket_add(index, ids[j].as_str(), word);
        proof {
            let remaining = idseq.subrange(j as int, idseq.len() as int);
            assert(remaining[0] == idseq[j as int]);
            assert(remaining.subrange(1, remaining.len() as int) =~= idseq.subrange(
                j + 1,
                idseq.len() as int,
            ));
            assert(add_refs(before, remaining, word@) == add_refs(
                add_ref(before, idseq[j as int], word@),
                idseq.subrange(j + 1, idseq.len() as int),
                word@,
            ));
        }
        j = j + 1;
    }
    proof {
        assert(idseq.subrange(idseq.len() as int, idseq.len() as int).len() == 0);
    }
}

/// Adds one word entry's references to the index: every sense identifier
/// in every populated category gets the owning word appended.
fn add_entry_refs(index: &mut Vec<(String, Vec<String>)>, entry: &WordEntry)
    requires
        buckets_sorted(index_views(old(index)@)),
    ensures
        index_views(final(index)@) == add_refs(
            index_views(old(index)@),
            entry_all_ids(entry@),
            entry@.word,
        ),
        buckets_sorted(index_views(final(index)@)),
{
    let ghost iv0 = index_views(index@);
    let ghost w = entry@.word;
    if let Some(list) = &entry.p {
        add_id_list(index, list, entry.word.as_str());
    }
    if let Some(list) = &entry.n {
        add_id_list(index, list, entry.word.as_str());
    }
    if let Some(list) = &entry.u {
        add_id_list(index, list, entry.word.as_str());
    }
    if let Some(list) = &entry.v {
        add_id_list(index, list, entry.word.as_str());
    }
    if let Some(list) = &entry.x {
        add_id_list(index, list, entry.word.as_str());
    }
    if let Some(list) = &entry.a {
        add_id_list(index, list, entry.word.as_str());
    }
    if let Some(list) = &entry.r {
        add_id_list(index, list, entry.word.as_str());
    }
    if let Some(list) = &entry.s {
        add_id_list(index, list, entry.word.as_str());
    }
    proof {
        let e = entry@;
        lemma_add_refs_concat_all(iv0, e, w);
    }
}

/// Splitting a reference list splits the accumulation.
proof fn lemma_add_refs_concat(
    iv: Seq<(Seq<char>, Seq<Seq<char>>)>,
    a: Seq<Seq<char>>,
    b: Seq<Seq<char>>,
    w: Seq<char>,
)
    ensures
        add_refs(iv, a + b, w) == add_refs(add_refs(iv, a, w), b, w),
    decreases a.len(),
{
    if a.len() == 0 {
        assert(a + b =~= b);
    } else {
        let ab = a + b;
        assert(ab[0] == a[0]);
        assert(ab.subrange(1, ab.len() as int) =~= a.subrange(1, a.len() as int) + b);
        lemma_add_refs_concat(add_ref(iv, a[0], w), a.subrange(1, a.len() as int), b, w);
    }
}

/// The eight category lists, accumulated one after the other, give the
/// same index as the entry's full reference list.
proof fn lemma_add_refs_concat_all(
    iv: Seq<(Seq<char>, Seq<Seq<char>>)>,
    e: WordEntryView,
    w: Seq<char>,
)
    ensures
        add_refs(
            add_refs(
                add_refs(
                    add_refs(
                        add_refs(
                            add_refs(
                                add_refs(add_refs(iv, cat_ids(e.p), w), cat_ids(e.n), w),
                                cat_ids(e.u),
                                w,
                            ),
                            cat_ids(e.v),
                            w,
                        ),
                        cat_ids(e.x),
                        w,
                    ),
                    cat_ids(e.a),
                    w,
                ),
                cat_ids(e.r),
                w,
            ),
            cat_ids(e.s),
            w,
        ) == add_refs(iv, entry_all_ids(e), w),
{
    let s1 = cat_ids(e.p);
    let s2 = cat_ids(e.n);
    let s3 = cat_ids(e.u);
    let s4 = cat_ids(e.v);
    let s5 = cat_ids(e.x);
    let s6 = cat_ids(e.a);
    let s7 = cat_ids(e.r);
    let s8 = cat_ids(e.s);
    lemma_add_refs_concat(iv, s1, s2, w);
    lemma_add_refs_concat(iv, s1 + s2, s3, w);
    lemma_add_refs_concat(iv, s1 + s2 + s3, s4, w);
    lemma_add_refs_concat(iv, s1 + s2 + s3 + s4, s5, w);
    lemma_add_refs_concat(iv, s1 + s2 + s3 + s4 + s5, s6, w);
    lemma_add_refs_concat(iv, s1 + s2 + s3 + s4 + s5 + s6, s7, w);
    lemma_add_refs_concat(iv, s1 + s2 + s3 + s4 + s5 + s6 + s7, s8, w);
}

/// Builds the reverse index of a lexicon's word entries in one pass.
pub fn build_index(words: &Vec<WordEntry>) -> (index: Vec<(String, Vec<String>)>)
    ensures
        index_views(index@) == index_of_words(crate::lexicon::entries_views(words@)),
        buckets_sorted(index_views(index@)),
{
    let ghost ws = crate::lexicon::entries_views(words@);
    let mut index: Vec<(String, Vec<String>)> = Vec::new();
    proof {
        assert(ws.subrange(0, ws.len() as int) =~= ws);
        assert(index_views(index@) =~= Seq::<(Seq<char>, Seq<Seq<char>>)>::empty());
    }
    let mut i: usize = 0;
    while i < words.len()
        invariant
            0 <= i <= words@.len(),
            ws == crate::lexicon::entries_views(words@),
            buckets_sorted(index_views(index@)),
            index_from(index_views(index@), ws.subrange(i as int, ws.len() as int)) == index_from(
                Seq::empty(),
                ws,
            ),
        decreases words@.len() - i,
    {
        let ghost before = index_views(index@);
        add_entry_refs(&mut index, &words[i]);
        proof {
            let remaining = ws.subrange(i as int, ws.len() as int);
            assert(remaining[0] == ws[i as int]);
            assert(remaining.subrange(1, remaining.len() as int) =~= ws.subrange(
                i + 1,
                ws.len() as int,
            ));
            assert(index_from(before, remaining) == index_from(
                add_refs(before, entry_all_ids(ws[i as int]), ws[i as int].word),
                ws.subrange(i + 1, ws.len() as int),
            ));
        }
        i = i + 1;
    }
    proof {
        assert(ws.subrange(ws.len() as int, ws.len() as int).len() == 0);
    }
    index
}

/// The union accumulated while walking one bucket.
pub open spec fn union_into(acc: Seq<Seq<char>>, b: Seq<Seq<char>>) -> Seq<Seq<char>>
    decreases b.len(),
{
    if b.len() == 0 {
        acc
    } else {
        union_into(insert_sorted(acc, b[0]), b.subrange(1, b.len() as int))
    }
}

/// The union accumulated while resolving a list of sense references.
pub open spec fn resolve_from(
    iv: Seq<(Seq<char>, Seq<Seq<char>>)>,
    refs: Seq<Seq<char>>,
    acc: Seq<Seq<char>>,
) -> Seq<Seq<char>>
    decreases refs.len(),
{
    if refs.len() == 0 {
        acc
    } else {
        resolve_from(
            iv,
            refs.subrange(1, refs.len() as int),
            union_into(acc, bucket_or_empty(iv, refs[0])),
        )
    }
}

/// The sorted, deduplicated words of all buckets referenced by `refs`.
pub open spec fn resolve_spec(
    iv: Seq<(Seq<char>, Seq<Seq<char>>)>,
    refs: Seq<Seq<char>>,
) -> Seq<Seq<char>> {
    resolve_from(iv, refs, Seq::empty())
}

/// `union_into` keeps the accumulator strictly sorted and adds exactly
/// the bucket's members.
pub proof fn lemma_union_into_props(acc: Seq<Seq<char>>, b: Seq<Seq<char>>)
    requires
        strictly_sorted(acc),
    ensures
        strictly_sorted(union_into(acc, b)),
        forall|x: Seq<char>|
            union_into(acc, b).contains(x) <==> (acc.contains(x) || b.contains(x)),
    decreases b.len(),
{
    if b.len() > 0 {
        let acc1 = insert_sorted(acc, b[0]);
        let rest = b.subrange(1, b.len() as int);
        lemma_insert_sorted_props(acc, b[0]);
        lemma_union_into_props(acc1, rest);
        assert forall|x: Seq<char>|
            b.contains(x) == (x == b[0] || rest.contains(x)) by {
            if b.contains(x) {
                let m = choose|m: int| 0 <= m < b.len() && b[m] == x;
                if m > 0 {
                    assert(rest[m - 1] == x);
                }
            }
            if rest.contains(x) {
                let m = choose|m: int| 0 <= m < rest.len() && rest[m] == x;
                assert(b[m + 1] == x);
            }
        }
    }
}

/// `resolve_from` keeps the accumulator strictly sorted and adds exactly
/// the members of the referenced buckets.
pub proof fn lemma_resolve_from_props(
    iv: Seq<(Seq<char>, Seq<Seq<char>>)>,
    refs: Seq<Seq<char>>,
    acc: Seq<Seq<char>>,
)
    requires
        strictly_sorted(acc),
    ensures
        strictly_sorted(resolve_from(iv, refs, acc)),
        forall|x: Seq<char>|
            resolve_from(iv, refs, acc).contains(x) <==> (acc.contains(x) || exists|r: int|
                0 <= r < refs.len() && bucket_or_empty(iv, #[trigger] refs[r]).contains(x)),
    decreases refs.len(),
{
    if refs.len() > 0 {
        let b = bucket_or_empty(iv, refs[0]);
        let acc1 = union_into(acc, b);
        let rest = refs.subrange(1, refs.len() as int);
        lemma_union_into_props(acc, b);
        lemma_resolve_from_props(iv, rest, acc1);
        assert forall|x: Seq<char>|
            (exists|r: int| 0 <= r < refs.len() && bucket_or_empty(iv, #[trigger] refs[r]).contains(
                x,
            )) == (b.contains(x) || exists|r: int|
                0 <= r < rest.len() && bucket_or_empty(iv, #[trigger] rest[r]).contains(x)) by {
            if exists|r: int|
                0 <= r < refs.len() && bucket_or_empty(iv, #[trigger] refs[r]).contains(x) {
                let m = choose|m: int|
                    0 <= m < refs.len() && bucket_or_empty(iv, #[trigger] refs[m]).contains(x);
                if m > 0 {
                    assert(rest[m - 1] == refs[m]);
                }
            }
            if exists|r: int|
                0 <= r < rest.len() && bucket_or_empty(iv, #[trigger] rest[r]).contains(x) {
                let m = choose|m: int|
                    0 <= m < rest.len() && bucket_or_empty(iv, #[trigger] rest[m]).contains(x);
                assert(refs[m + 1] == rest[m]);
            }
        }
    }
}

/// Resolves a list of sense references to the sorted, deduplicated union
/// of the referenced buckets' words.
pub fn resolve_refs(index: &Vec<(String, Vec<String>)>, refs: &Vec<String>) -> (out: Vec<String>)
    ensures
        views_of(out@) == resolve_spec(index_views(index@), views_of(refs@)),
{
    let ghost iv = index_views(index@);
    let ghost rv = views_of(refs@);
    let mut out: Vec<String> = Vec::new();
    proof {
        assert(rv.subrange(0, rv.len() as int) =~= rv);
        assert(views_of(out@) =~= Seq::<Seq<char>>::empty());
    }
    let mut i: usize = 0;
    while i < refs.len()
        invariant
            0 <= i <= refs@.len(),
            iv == index_views(index@),
            rv == views_of(refs@),
            strictly_sorted(views_of(out@)),
            resolve_from(iv, rv.subrange(i as int, rv.len() as int), views_of(out@))
                == resolve_spec(iv, rv),
        decreases refs@.len() - i,
    {
        let ghost acc0 = views_of(out@);
        let ghost remaining = rv.subrange(i as int, rv.len() as int);
        let bucket_opt = find_bucket(index, refs[i].as_str());
        proof {
            assert(remaining[0] == rv[i as int]);
            assert(remaining.subrange(1, remaining.len() as int) =~= rv.subrange(
                i + 1,
                rv.len() as int,
            ));
        }
        if let Some(bucket) = bucket_opt {
            let ghost bv = bucket_or_empty(iv, rv[i as int]);
            proof {
                assert(bv.subrange(0, bv.len() as int) =~= bv);
            }
            let mut j: usize = 0;
            while j < bucket.len()
                invariant
                    0 <= j <= bucket@.len(),
                    bv == views_of(bucket@),
                    strictly_sorted(views_of(out@)),
                    union_into(views_of(out@), bv.subrange(j as int, bv.len() as int))
                        == union_into(acc0, bv),
                decreases bucket@.len() - j,
            {
                let ghost before = views_of(out@);
                insert_unique(&mut out, bucket[j].as_str());
                proof {
                    let brem = bv.subrange(j as int, bv.len() as int);
                    assert(brem[0] == bv[j as int]);
                    assert(brem.subrange(1, brem.len() as int) =~= bv.subrange(
                        j + 1,
                        bv.len() as int,
                    ));
                    lemma_insert_sorted_props(before, bv[j as int]);
                }
                j = j + 1;
            }
            proof {
                assert(bv.subrange(bv.len() as int, bv.len() as int).len() == 0);
            }
        } else {
            proof {
                assert(bucket_or_empty(iv, rv[i as int]) == Seq::<Seq<char>>::empty());
                assert(union_into(acc0, bucket_or_empty(iv, rv[i as int])) == acc0);
            }
        }
        i = i + 1;
    }
    proof {
        assert(rv.subrange(rv.len() as int, rv.len() as int).len() == 0);
    }
    out
}

/// A key without a match in a prefix is found, if at all, past it.
proof fn lemma_assoc_find_skip(iv: Seq<(Seq<char>, Seq<Seq<char>>)>, k: Seq<char>, i: int)
    requires
        0 <= i <= iv.len(),
        forall|m: int| 0 <= m < i ==> iv[m].0 != k,
    ensures
        assoc_find(iv, k) == assoc_find(iv.subrange(i, iv.len() as int), k),
    decreases i,
{
    if i == 0 {
        assert(iv.subrange(0, iv.len() as int) =~= iv);
    } else {
        let tail = iv.subrange(1, iv.len() as int);
        assert(forall|m: int| 0 <= m < i - 1 ==> tail[m] == iv[m + 1] && iv[m + 1].0 != k);
        lemma_assoc_find_skip(tail, k, i - 1);
        assert(tail.subrange(i - 1, tail.len() as int) =~= iv.subrange(i, iv.len() as int));
    }
}

/// Looks a sense identifier's bucket up in the index.
pub fn find_bucket<'a>(index: &'a Vec<(String, Vec<String>)>, id: &str) -> (r: Option<
    &'a Vec<String>,
>)
    ensures
        match r {
            Option::Some(bucket) => assoc_find(index_views(index@), id@) == Option::Some(
                views_of(bucket@),
            ),
            Option::None => assoc_find(index_views(index@), id@) == Option::None::<Seq<Seq<char>>>,
        },
{
    let ghost iv = index_views(index@);
    let mut i: usize = 0;
    while i < index.len()
        invariant
            0 <= i <= index@.len(),
            iv == index_views(index@),
            forall|m: int| 0 <= m < i ==> iv[m].0 != id@,
        decreases index@.len() - i,
    {
        if str_eq(index[i].0.as_str(), id) {
            proof {
                lemma_assoc_find_skip(iv, id@, i as int);
                assert(iv.subrange(i as int, iv.len() as int)[0] == iv[i as int]);
            }
            return Some(&index[i].1);
        }
        i = i + 1;
    }
    proof {
        lemma_assoc_find_skip(iv, id@, iv.len() as int);
        assert(iv.subrange(iv.len() as int, iv.len() as int).len() == 0);
    }
    None
}

} // verus!
