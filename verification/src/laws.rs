//! Properties of the search engine, stated and proved once for all
//! lexicons and queries.
use vstd::prelude::*;

use crate::engine::fuzzy_score;
use crate::engine::gen_from;
use crate::engine::mk_result;
use crate::engine::results_for_entry;
use crate::engine::results_for_ids;
use crate::engine::search_spec;
use crate::index::index_of_words;
use crate::index::resolve_spec;
use crate::index::word_references;
use crate::lexicon::entry_words;
use crate::lexicon::find_sense_spec;
use crate::lexicon::LexiconView;
use crate::lexicon::SenseView;
use crate::lexicon::WordEntryView;
use crate::rank::exact_match;
use crate::rank::lemma_rank_into_elem;
use crate::rank::lemma_rank_into_sorted;
use crate::rank::rank_spec;
use crate::rank::res_lt;
use crate::rank::single_token;
use crate::rank::sorted_by_rank;
use crate::rank::WordResultView;
use crate::registry::find_engine_spec;
use crate::registry::Registry;
use crate::sorted::strictly_sorted;

verus! {

/// Result `y` carries the content of the sense found under `id`:
/// its definitions and examples verbatim, and its synonym and antonym
/// references resolved through the index `iv`.
pub open spec fn from_sense_at(
    senses: Seq<SenseView>,
    iv: Seq<(Seq<char>, Seq<Seq<char>>)>,
    y: WordResultView,
    id: Seq<char>,
) -> bool {
    find_sense_spec(senses, id) is Some && y.definitions == find_sense_spec(
        senses,
        id,
    )->Some_0.definitions && y.examples == find_sense_spec(senses, id)->Some_0.examples
        && y.synonyms == resolve_spec(iv, find_sense_spec(senses, id)->Some_0.synonym_refs)
        && y.antonyms == resolve_spec(iv, find_sense_spec(senses, id)->Some_0.antonym_refs)
}

/// Result `y` carries the content of some sense of the lexicon.
pub open spec fn from_some_sense(
    senses: Seq<SenseView>,
    iv: Seq<(Seq<char>, Seq<Seq<char>>)>,
    y: WordResultView,
) -> bool {
    exists|id: Seq<char>| #[trigger] from_sense_at(senses, iv, y, id)
}

/// Membership in a concatenation is membership in one of the parts.
proof fn lemma_concat_elem<A>(a: Seq<A>, b: Seq<A>, y: A)
    ensures
        (a + b).contains(y) == (a.contains(y) || b.contains(y)),
{
    let ab = a + b;
    if ab.contains(y) {
        let m = choose|m: int| 0 <= m < ab.len() && ab[m] == y;
        if m < a.len() {
            assert(a[m] == y);
        } else {
            assert(b[m - a.len()] == y);
        }
    }
    if a.contains(y) {
        let m = choose|m: int| 0 <= m < a.len() && a[m] == y;
        assert(ab[m] == y);
    }
    if b.contains(y) {
        let m = choose|m: int| 0 <= m < b.len() && b[m] == y;
        assert(ab[a.len() + m] == y);
    }
}

/// Every result emitted for one category list carries the owning word,
/// the given part-of-speech code and score, and comes from one of the
/// list's senses.
proof fn lemma_results_for_ids_elem(
    senses: Seq<SenseView>,
    iv: Seq<(Seq<char>, Seq<Seq<char>>)>,
    word: Seq<char>,
    pos: Seq<char>,
    ids: Seq<Seq<char>>,
    score: i64,
    y: WordResultView,
)
    requires
        results_for_ids(senses, iv, word, pos, ids, score).contains(y),
    ensures
        y.word == word,
        y.match_score == score,
        from_some_sense(senses, iv, y),
        exists|m: int|
            0 <= m < ids.len() && crate::lexicon::find_sense_spec(senses, #[trigger] ids[m]) is Some
                && y == mk_result(
                word,
                pos,
                crate::lexicon::find_sense_spec(senses, ids[m])->Some_0,
                iv,
                score,
            ),
    decreases ids.len(),
{
    let r = results_for_ids(senses, iv, word, pos, ids, score);
    let head = match crate::lexicon::find_sense_spec(senses, ids[0]) {
        Option::Some(sv) => seq![mk_result(word, pos, sv, iv, score)],
        Option::None => Seq::<WordResultView>::empty(),
    };
    let rest = results_for_ids(senses, iv, word, pos, ids.subrange(1, ids.len() as int), score);
    lemma_concat_elem(head, rest, y);
    if head.contains(y) {
        let m = choose|m: int| 0 <= m < head.len() && head[m] == y;
        assert(y == head[0]);
        assert(0 < ids.len() && crate::lexicon::find_sense_spec(senses, ids[0]) is Some && y
            == mk_result(
            word,
            pos,
            crate::lexicon::find_sense_spec(senses, ids[0])->Some_0,
            iv,
            score,
        ));
        assert(from_sense_at(senses, iv, y, ids[0]));
    } else {
        lemma_results_for_ids_elem(
            senses,
            iv,
            word,
            pos,
            ids.subrange(1, ids.len() as int),
            score,
            y,
        );
        let tail = ids.subrange(1, ids.len() as int);
        let m = choose|m: int|
            0 <= m < tail.len() && crate::lexicon::find_sense_spec(senses, #[trigger] tail[m])
                is Some && y == mk_result(
                word,
                pos,
                crate::lexicon::find_sense_spec(senses, tail[m])->Some_0,
                iv,
                score,
            );
        assert(ids[m + 1] == tail[m]);
    }
}

/// Every result emitted for one matched entry carries that entry's word
/// and the entry's score.
proof fn lemma_results_for_entry_elem(
    senses: Seq<SenseView>,
    iv: Seq<(Seq<char>, Seq<Seq<char>>)>,
    e: WordEntryView,
    score: i64,
    y: WordResultView,
)
    requires
        results_for_entry(senses, iv, e, score).contains(y),
    ensures
        y.word == e.word,
        y.match_score == score,
        from_some_sense(senses, iv, y),
{
    let r1 = results_for_ids(senses, iv, e.word, "p"@, crate::index::cat_ids(e.p), score);
    let r2 = results_for_ids(senses, iv, e.word, "n"@, crate::index::cat_ids(e.n), score);
    let r3 = results_for_ids(senses, iv, e.word, "u"@, crate::index::cat_ids(e.u), score);
    let r4 = results_for_ids(senses, iv, e.word, "v"@, crate::index::cat_ids(e.v), score);
    let r5 = results_for_ids(senses, iv, e.word, "x"@, crate::index::cat_ids(e.x), score);
    let r6 = results_for_ids(senses, iv, e.word, "a"@, crate::index::cat_ids(e.a), score);
    let r7 = results_for_ids(senses, iv, e.word, "r"@, crate::index::cat_ids(e.r), score);
    let r8 = results_for_ids(senses, iv, e.word, "s"@, crate::index::cat_ids(e.s), score);
    lemma_concat_elem(r1 + r2 + r3 + r4 + r5 + r6 + r7, r8, y);
    lemma_concat_elem(r1 + r2 + r3 + r4 + r5 + r6, r7, y);
    lemma_concat_elem(r1 + r2 + r3 + r4 + r5, r6, y);
    lemma_concat_elem(r1 + r2 + r3 + r4, r5, y);
    lemma_concat_elem(r1 + r2 + r3, r4, y);
    lemma_concat_elem(r1 + r2, r3, y);
    lemma_concat_elem(r1, r2, y);
    if r1.contains(y) {
        lemma_results_for_ids_elem(senses, iv, e.word, "p"@, crate::index::cat_ids(e.p), score, y);
    } else if r2.contains(y) {
        lemma_results_for_ids_elem(senses, iv, e.word, "n"@, crate::index::cat_ids(e.n), score, y);
    } else if r3.contains(y) {
        lemma_results_for_ids_elem(senses, iv, e.word, "u"@, crate::index::cat_ids(e.u), score, y);
    } else if r4.contains(y) {
        lemma_results_for_ids_elem(senses, iv, e.word, "v"@, crate::index::cat_ids(e.v), score, y);
    } else if r5.contains(y) {
        lemma_results_for_ids_elem(senses, iv, e.word, "x"@, crate::index::cat_ids(e.x), score, y);
    } else if r6.contains(y) {
        lemma_results_for_ids_elem(senses, iv, e.word, "a"@, crate::index::cat_ids(e.a), score, y);
    } else if r7.contains(y) {
        lemma_results_for_ids_elem(senses, iv, e.word, "r"@, crate::index::cat_ids(e.r), score, y);
    } else {
        lemma_results_for_ids_elem(senses, iv, e.word, "s"@, crate::index::cat_ids(e.s), score, y);
    }
}

/// Every generated result belongs to a word of the table that the fuzzy
/// matcher scored, and carries that score.
proof fn lemma_gen_from_elem(
    senses: Seq<SenseView>,
    iv: Seq<(Seq<char>, Seq<Seq<char>>)>,
    ws: Seq<WordEntryView>,
    q: Seq<char>,
    y: WordResultView,
)
    requires
        gen_from(senses, iv, ws, q).contains(y),
    ensures
        exists|i: int| 0 <= i < ws.len() && (#[trigger] ws[i]).word == y.word,
        fuzzy_score(y.word, q) == Option::Some(y.match_score),
        from_some_sense(senses, iv, y),
    decreases ws.len(),
{
    if ws.len() == 0 {
        assert(false);
    } else {
        let head = match fuzzy_score(ws[0].word, q) {
            Option::Some(s) => results_for_entry(senses, iv, ws[0], s),
            Option::None => Seq::<WordResultView>::empty(),
        };
        let rest = ws.subrange(1, ws.len() as int);
        lemma_concat_elem(head, gen_from(senses, iv, rest, q), y);
        if head.contains(y) {
            let s = fuzzy_score(ws[0].word, q)->Some_0;
            lemma_results_for_entry_elem(senses, iv, ws[0], s, y);
            assert(ws[0].word == y.word);
        } else {
            lemma_gen_from_elem(senses, iv, rest, q, y);
            let i = choose|i: int| 0 <= i < rest.len() && (#[trigger] rest[i]).word == y.word;
            assert(ws[i + 1] == rest[i]);
        }
    }
}

/// Every result a query returns names a word of the lexicon's word
/// table, its score is exactly what the fuzzy matcher reported for that
/// word against the query, and its content is one sense's, with the
/// synonym and antonym references resolved through the reverse index.
pub proof fn lemma_results_from_lexicon(
    lex: LexiconView,
    q: Seq<char>,
    limit: int,
    y: WordResultView,
)
    requires
        0 <= limit,
        search_spec(lex, q, limit).contains(y),
    ensures
        entry_words(lex.words).contains(y.word),
        fuzzy_score(y.word, q) == Option::Some(y.match_score),
        from_some_sense(lex.senses, index_of_words(lex.words), y),
{
    let iv = index_of_words(lex.words);
    let gen = gen_from(lex.senses, iv, lex.words, q);
    let ranked = rank_spec(gen, q);
    assert(ranked.contains(y)) by {
        if limit < ranked.len() {
            let m = choose|m: int|
                0 <= m < search_spec(lex, q, limit).len() && search_spec(lex, q, limit)[m] == y;
            assert(ranked[m] == y);
        }
    }
    lemma_rank_into_elem(Seq::empty(), gen, q, y);
    assert(gen.contains(y)) by {
        assert(!Seq::<WordResultView>::empty().contains(y));
    }
    lemma_gen_from_elem(lex.senses, iv, lex.words, q, y);
    let i = choose|i: int| 0 <= i < lex.words.len() && (#[trigger] lex.words[i]).word == y.word;
    assert(entry_words(lex.words)[i] == y.word);
}

/// What a query returns is a function of the installed lexicon and the
/// arguments alone: two engines holding the same lexicon answer every
/// query identically, so re-initializing with the same source changes
/// nothing observable.
pub proof fn lemma_initialize_idempotent(
    reg1: Registry,
    reg2: Registry,
    lang: Seq<char>,
    q: Seq<char>,
    limit: int,
)
    requires
        find_engine_spec(reg1.engines@, lang) is Some,
        find_engine_spec(reg2.engines@, lang) is Some,
        find_engine_spec(reg1.engines@, lang)->Some_0.lexicon@ == find_engine_spec(
            reg2.engines@,
            lang,
        )->Some_0.lexicon@,
    ensures
        search_spec(find_engine_spec(reg1.engines@, lang)->Some_0.lexicon@, q, limit)
            == search_spec(find_engine_spec(reg2.engines@, lang)->Some_0.lexicon@, q, limit),
{
}

/// Two queries with identical arguments against the same engine state
/// return identical ordered results.
pub proof fn lemma_query_deterministic(
    lex: LexiconView,
    q: Seq<char>,
    limit: int,
    r1: Seq<WordResultView>,
    r2: Seq<WordResultView>,
)
    requires
        r1 == search_spec(lex, q, limit),
        r2 == search_spec(lex, q, limit),
    ensures
        r1 == r2,
{
}

/// Resolving sense references against a lexicon's reverse index yields a
/// strictly sorted (hence deduplicated) list holding exactly the words
/// that reference one of those senses in their word-entry sense lists.
pub proof fn lemma_reverse_index_resolution(lex: LexiconView, refs: Seq<Seq<char>>, x: Seq<char>)
    ensures
        strictly_sorted(resolve_spec(index_of_words(lex.words), refs)),
        resolve_spec(index_of_words(lex.words), refs).contains(x) <==> exists|r: int|
            0 <= r < refs.len() && word_references(lex.words, x, #[trigger] refs[r]),
{
    let iv = index_of_words(lex.words);
    crate::index::lemma_resolve_from_props(iv, refs, Seq::empty());
    assert(!Seq::<Seq<char>>::empty().contains(x));
    assert forall|r: int| 0 <= r < refs.len() implies bucket_membership(lex, refs[r], x) by {
        crate::index::lemma_index_from_find(
            Seq::<(Seq<char>, Seq<Seq<char>>)>::empty(),
            lex.words,
            refs[r],
            x,
        );
        assert(crate::index::bucket_or_empty(
            Seq::<(Seq<char>, Seq<Seq<char>>)>::empty(),
            refs[r],
        ) == Seq::<Seq<char>>::empty());
    }
    if resolve_spec(iv, refs).contains(x) {
        let r = choose|r: int|
            0 <= r < refs.len() && crate::index::bucket_or_empty(iv, #[trigger] refs[r]).contains(
                x,
            );
        assert(bucket_membership(lex, refs[r], x));
        assert(word_references(lex.words, x, refs[r]));
    }
    if exists|r: int| 0 <= r < refs.len() && word_references(lex.words, x, #[trigger] refs[r]) {
        let r = choose|r: int|
            0 <= r < refs.len() && word_references(lex.words, x, #[trigger] refs[r]);
        assert(bucket_membership(lex, refs[r], x));
        assert(crate::index::bucket_or_empty(iv, refs[r]).contains(x));
    }
}

/// The resolved list is canonical: any strictly sorted sequence holding
/// exactly the words that reference one of the senses is that list.
pub proof fn lemma_resolution_canonical(
    lex: LexiconView,
    refs: Seq<Seq<char>>,
    other: Seq<Seq<char>>,
)
    requires
        strictly_sorted(other),
        forall|x: Seq<char>|
            other.contains(x) <==> exists|r: int|
                0 <= r < refs.len() && word_references(lex.words, x, #[trigger] refs[r]),
    ensures
        other == resolve_spec(index_of_words(lex.words), refs),
{
    let resolved = resolve_spec(index_of_words(lex.words), refs);
    lemma_reverse_index_resolution(lex, refs, Seq::empty());
    assert forall|x: Seq<char>| other.contains(x) <==> resolved.contains(x) by {
        lemma_reverse_index_resolution(lex, refs, x);
    }
    crate::sorted::lemma_strictly_sorted_unique(other, resolved);
}

/// A word stands in a sense's reverse-index bucket exactly when some
/// word entry owns it and references the sense.
pub open spec fn bucket_membership(lex: LexiconView, k: Seq<char>, x: Seq<char>) -> bool {
    crate::index::bucket_or_empty(index_of_words(lex.words), k).contains(x) == word_references(
        lex.words,
        x,
        k,
    )
}

/// A query returns at most `limit` results, and exactly the first
/// `limit` results of the same query with any larger limit.
pub proof fn lemma_truncation(lex: LexiconView, q: Seq<char>, limit: int, big: int)
    requires
        0 <= limit <= big,
    ensures
        search_spec(lex, q, limit).len() <= limit,
        search_spec(lex, q, limit) == if limit < search_spec(lex, q, big).len() {
            search_spec(lex, q, big).take(limit)
        } else {
            search_spec(lex, q, big)
        },
{
    let ranked = rank_spec(gen_from(lex.senses, index_of_words(lex.words), lex.words, q), q);
    if big < ranked.len() {
        assert(limit < ranked.len());
        assert(ranked.take(big).take(limit) =~= ranked.take(limit));
    } else {
        if limit < ranked.len() {
        } else {
        }
    }
}

/// A query's results are sorted by the ranking order.
pub proof fn lemma_query_sorted(lex: LexiconView, q: Seq<char>, limit: int)
    requires
        0 <= limit,
    ensures
        sorted_by_rank(search_spec(lex, q, limit), q),
{
    let gen = gen_from(lex.senses, index_of_words(lex.words), lex.words, q);
    let ranked = rank_spec(gen, q);
    lemma_rank_into_sorted(Seq::empty(), gen, q);
    let out = search_spec(lex, q, limit);
    assert forall|i: int, j: int| 0 <= i < j < out.len() implies !res_lt(
        q,
        #[trigger] out[j],
        #[trigger] out[i],
    ) by {
        assert(out[i] == ranked[i] && out[j] == ranked[j]);
    }
}

/// An exact case-insensitive match ranks strictly before any result
/// that is not one, whatever the scores.
pub proof fn lemma_exact_match_precedes(q: Seq<char>, a: WordResultView, b: WordResultView)
    requires
        exact_match(q, a.word),
        !exact_match(q, b.word),
    ensures
        res_lt(q, a, b),
        !res_lt(q, b, a),
{
}

/// Among results of equal exactness, a single-token word ranks strictly
/// before a multi-token phrase, whatever the scores.
pub proof fn lemma_single_token_precedes(q: Seq<char>, a: WordResultView, b: WordResultView)
    requires
        exact_match(q, a.word) == exact_match(q, b.word),
        single_token(a.word),
        !single_token(b.word),
    ensures
        res_lt(q, a, b),
        !res_lt(q, b, a),
{
}

/// In a query's output, exactness and single-token rank are respected:
/// whatever stands after an inexact result is inexact, and, exactness
/// being equal, whatever stands after a phrase is a phrase.
pub proof fn lemma_ordering(lex: LexiconView, q: Seq<char>, limit: int, i: int, j: int)
    requires
        0 <= limit,
        0 <= i < j < search_spec(lex, q, limit).len(),
    ensures
        exact_match(q, search_spec(lex, q, limit)[j].word) ==> exact_match(
            q,
            search_spec(lex, q, limit)[i].word,
        ),
        (exact_match(q, search_spec(lex, q, limit)[i].word) == exact_match(
            q,
            search_spec(lex, q, limit)[j].word,
        ) && single_token(search_spec(lex, q, limit)[j].word)) ==> single_token(
            search_spec(lex, q, limit)[i].word,
        ),
{
    lemma_query_sorted(lex, q, limit);
    let out = search_spec(lex, q, limit);
    assert(!res_lt(q, out[j], out[i]));
    if exact_match(q, out[j].word) && !exact_match(q, out[i].word) {
        lemma_exact_match_precedes(q, out[j], out[i]);
    }
    if exact_match(q, out[i].word) == exact_match(q, out[j].word) && single_token(out[j].word)
        && !single_token(out[i].word) {
        lemma_single_token_precedes(q, out[j], out[i]);
    }
}

} // verus!

