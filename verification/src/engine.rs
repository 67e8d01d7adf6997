//! The search engine: fuzzy matching over one lexicon.
//!
//! A [`WordNetSearcher`] owns a loaded lexicon and its reverse index. A
//! query scores every word with a subsequence-based fuzzy matcher, expands
//! each matched word into one result per sense, resolves synonym and
//! antonym references through the reverse index, ranks the results, and
//! truncates to the requested maximum.
use vstd::prelude::*;

use crate::index::build_index;
use crate::index::cat_ids;
use crate::index::index_of_words;
use crate::index::index_views;
use crate::index::resolve_refs;
use crate::index::resolve_spec;
use crate::lexicon::find_sense;
use crate::lexicon::find_sense_spec;
use crate::lexicon::senses_views;
use crate::lexicon::Lexicon;
use crate::lexicon::LexiconView;
use crate::lexicon::Sense;
use crate::lexicon::SenseView;
use crate::lexicon::WordEntry;
use crate::lexicon::WordEntryView;
use crate::rank::insert_ranked;
use crate::rank::insert_result;
use crate::rank::lemma_rank_into_concat;
use crate::rank::lower_of;
use crate::rank::lowercase;
use crate::rank::rank_into;
use crate::rank::rank_spec;
use crate::rank::results_views;
use crate::rank::WordResult;
use crate::rank::WordResultView;
use crate::sorted::clone_strings;
use crate::sorted::views_of;

verus! {

/// What the fuzzy matcher returns for a choice string and a pattern:
/// a score when the pattern matches, nothing when it does not.
pub uninterp spec fn fuzzy_score(choice: Seq<char>, pattern: Seq<char>) -> Option<i64>;

/// Relies on `fuzzy_matcher::skim::SkimMatcherV2::fuzzy_match` (through
/// the `FuzzyMatcher` trait), on a matcher in its default configuration:
/// whether and how well the pattern matches the choice is a function of
/// the two strings alone.
#[verifier::external_body]
pub(crate) fn fuzzy_match_score(choice: &str, pattern: &str) -> (r: Option<i64>)
    ensures
        r == fuzzy_score(choice@, pattern@),
{
    let matcher = fuzzy_matcher::skim::SkimMatcherV2::default();
    fuzzy_matcher::FuzzyMatcher::fuzzy_match(&matcher, choice, pattern)
}

/// The result emitted for word `word` under part-of-speech `pos` for one
/// sense: the sense's definitions and examples verbatim, its synonym and
/// antonym references resolved through the reverse index, and the word's
/// fuzzy score.
pub open spec fn mk_result(
    word: Seq<char>,
    pos: Seq<char>,
    sv: SenseView,
    iv: Seq<(Seq<char>, Seq<Seq<char>>)>,
    score: i64,
) -> WordResultView {
    WordResultView {
        word: word,
        pos: pos,
        definitions: sv.definitions,
        examples: sv.examples,
        synonyms: resolve_spec(iv, sv.synonym_refs),
        antonyms: resolve_spec(iv, sv.antonym_refs),
        match_score: score,
    }
}

/// The results emitted for one word and one category's sense list, in
/// list order; an identifier without a sense emits nothing.
pub open spec fn results_for_ids(
    senses: Seq<SenseView>,
    iv: Seq<(Seq<char>, Seq<Seq<char>>)>,
    word: Seq<char>,
    pos: Seq<char>,
    ids: Seq<Seq<char>>,
    score: i64,
) -> Seq<WordResultView>
    decreases ids.len(),
{
    if ids.len() == 0 {
        Seq::empty()
    } else {
        (match find_sense_spec(senses, ids[0]) {
            Option::Some(sv) => seq![mk_result(word, pos, sv, iv, score)],
            Option::None => Seq::empty(),
        }) + results_for_ids(senses, iv, word, pos, ids.subrange(1, ids.len() as int), score)
    }
}

/// The results emitted for one matched word entry: one result per sense,
/// across the eight part-of-speech categories in order.
pub open spec fn results_for_entry(
    senses: Seq<SenseView>,
    iv: Seq<(Seq<char>, Seq<Seq<char>>)>,
    e: WordEntryView,
    score: i64,
) -> Seq<WordResultView> {
    results_for_ids(senses, iv, e.word, "p"@, cat_ids(e.p), score) + results_for_ids(
        senses,
        iv,
        e.word,
        "n"@,
        cat_ids(e.n),
        score,
    ) + results_for_ids(senses, iv, e.word, "u"@, cat_ids(e.u), score) + results_for_ids(
        senses,
        iv,
        e.word,
        "v"@,
        cat_ids(e.v),
        score,
    ) + results_for_ids(senses, iv, e.word, "x"@, cat_ids(e.x), score) + results_for_ids(
        senses,
        iv,
        e.word,
        "a"@,
        cat_ids(e.a),
        score,
    ) + results_for_ids(senses, iv, e.word, "r"@, cat_ids(e.r), score) + results_for_ids(
        senses,
        iv,
        e.word,
        "s"@,
        cat_ids(e.s),
        score,
    )
}

/// The unranked results of a query: every word entry in table order,
/// expanded when the fuzzy matcher scores it.
pub open spec fn gen_from(
    senses: Seq<SenseView>,
    iv: Seq<(Seq<char>, Seq<Seq<char>>)>,
    ws: Seq<WordEntryView>,
    q: Seq<char>,
) -> Seq<WordResultView>
    decreases ws.len(),
{
    if ws.len() == 0 {
        Seq::empty()
    } else {
        (match fuzzy_score(ws[0].word, q) {
            Option::Some(s) => results_for_entry(senses, iv, ws[0], s),
            Option::None => Seq::empty(),
        }) + gen_from(senses, iv, ws.subrange(1, ws.len() as int), q)
    }
}

/// What a search returns: the generated results, ranked, truncated to
/// `limit`.
pub open spec fn search_spec(lex: LexiconView, q: Seq<char>, limit: int) -> Seq<WordResultView> {
    let ranked = rank_spec(gen_from(lex.senses, index_of_words(lex.words), lex.words, q), q);
    if limit < ranked.len() {
        ranked.take(limit)
    } else {
        ranked
    }
}

/// A search engine: one loaded lexicon and its derived reverse index,
/// immutable once constructed.
pub struct WordNetSearcher {
    /// The loaded lexicon.
    pub lexicon: Lexicon,
    /// The reverse index from sense identifiers to their sorted word
    /// buckets.
    pub synset_to_words: Vec<(String, Vec<String>)>,
}

/// The human-readable name of a part-of-speech code; an unknown code
/// reads as "unknown".
pub open spec fn pos_description_spec(pos: Seq<char>) -> Seq<char> {
    if pos == "p"@ {
        "pronoun"@
    } else if pos == "n"@ {
        "noun"@
    } else if pos == "u"@ {
        "NULL/unknown"@
    } else if pos == "v"@ {
        "verb"@
    } else if pos == "x"@ {
        "other"@
    } else if pos == "a"@ {
        "adjective"@
    } else if pos == "r"@ {
        "adverb"@
    } else if pos == "s"@ {
        "adj satellite"@
    } else {
        "unknown"@
    }
}

impl WordNetSearcher {
    /// Spells a part-of-speech code out as its category name.
    pub fn get_pos_description(pos: &str) -> (r: &'static str)
        ensures
            r@ == pos_description_spec(pos@),
    {
        if crate::order::str_eq(pos, "p") {
            "pronoun"
        } else if crate::order::str_eq(pos, "n") {
            "noun"
        } else if crate::order::str_eq(pos, "u") {
            "NULL/unknown"
        } else if crate::order::str_eq(pos, "v") {
            "verb"
        } else if crate::order::str_eq(pos, "x") {
            "other"
        } else if crate::order::str_eq(pos, "a") {
            "adjective"
        } else if crate::order::str_eq(pos, "r") {
            "adverb"
        } else if crate::order::str_eq(pos, "s") {
            "adj satellite"
        } else {
            "unknown"
        }
    }

    /// Well-formed: the lexicon is valid and the index is exactly the
    /// lexicon's reverse index.
    pub open spec fn wf(self) -> bool {
        self.lexicon@.wf() && index_views(self.synset_to_words@) == index_of_words(
            self.lexicon@.words,
        )
    }

    /// Builds the engine for a loaded lexicon, deriving its reverse index.
    pub fn new(lexicon: Lexicon) -> (s: Self)
        requires
            lexicon@.wf(),
        ensures
            s.wf(),
            s.lexicon@ == lexicon@,
    {
        let synset_to_words = build_index(&lexicon.words);
        WordNetSearcher { lexicon, synset_to_words }
    }

    /// Resolves sense identifiers to the sorted, deduplicated words of
    /// their reverse-index buckets.
    pub fn resolve_synset_ids_to_words(&self, synset_ids: &Vec<String>) -> (words: Vec<String>)
        ensures
            views_of(words@) == resolve_spec(
                index_views(self.synset_to_words@),
                views_of(synset_ids@),
            ),
    {
        resolve_refs(&self.synset_to_words, synset_ids)
    }

    /// Runs a fuzzy query against every word of the lexicon and returns
    /// the ranked results, at most `max_results` of them.
    pub fn search(&self, query: &str, max_results: usize) -> (results: Vec<WordResult>)
        requires
            self.wf(),
        ensures
            results_views(results@) == search_spec(self.lexicon@, query@, max_results as int),
    {
        let ghost lex = self.lexicon@;
        let ghost iv = index_views(self.synset_to_words@);
        let ghost ws = lex.words;
        let ghost q = query@;
        let qlow = lowercase(query);
        let mut results: Vec<WordResult> = Vec::new();
        proof {
            assert(ws.subrange(0, ws.len() as int) =~= ws);
            assert(results_views(results@) =~= Seq::<WordResultView>::empty());
        }
        let mut i: usize = 0;
        while i < self.lexicon.words.len()
            invariant
                lex == self.lexicon@,
                iv == index_views(self.synset_to_words@),
                ws == lex.words,
                q == query@,
                qlow@ == lower_of(q),
                0 <= i <= self.lexicon.words@.len(),
                ws.len() == self.lexicon.words@.len(),
                rank_into(
                    results_views(results@),
                    gen_from(lex.senses, iv, ws.subrange(i as int, ws.len() as int), q),
                    q,
                ) == rank_spec(gen_from(lex.senses, iv, ws, q), q),
            decreases self.lexicon.words@.len() - i,
        {
            let entry = &self.lexicon.words[i];
            let ghost e = ws[i as int];
            proof {
                assert(e == entry@);
            }
            let ghost before = results_views(results@);
            let ghost remaining = ws.subrange(i as int, ws.len() as int);
            let ghost head = match fuzzy_score(e.word, q) {
                Option::Some(s) => results_for_entry(lex.senses, iv, e, s),
                Option::None => Seq::<WordResultView>::empty(),
            };
            proof {
                assert(remaining[0] == e);
                assert(remaining.subrange(1, remaining.len() as int) =~= ws.subrange(
                    i + 1,
                    ws.len() as int,
                ));
                assert(gen_from(lex.senses, iv, remaining, q) == head + gen_from(
                    lex.senses,
                    iv,
                    ws.subrange(i + 1, ws.len() as int),
                    q,
                ));
                lemma_rank_into_concat(
                    before,
                    head,
                    gen_from(lex.senses, iv, ws.subrange(i + 1, ws.len() as int), q),
                    q,
                );
            }
            let score_opt = fuzzy_match_score(entry.word.as_str(), query);
            if let Some(score) = score_opt {
                process_entry(
                    &mut results,
                    &self.lexicon.senses,
                    &self.synset_to_words,
                    entry,
                    score,
                    &qlow,
                    Ghost(q),
                );
            } else {
                proof {
                    assert(head =~= Seq::<WordResultView>::empty());
                    assert(rank_into(before, head, q) == before);
                }
            }
            i = i + 1;
        }
        proof {
            assert(ws.subrange(ws.len() as int, ws.len() as int).len() == 0);
        }
        let ghost ranked = rank_spec(gen_from(lex.senses, iv, ws, q), q);
        proof {
            assert(results_views(results@) == ranked);
        }
        results.truncate(max_results);
        proof {
            if max_results < ranked.len() {
                assert(results_views(results@) =~= ranked.take(max_results as int));
            }
        }
        results
    }
}

/// Expands one matched word entry: emits one ranked result per sense
/// across its eight part-of-speech categories.
fn process_entry(
    results: &mut Vec<WordResult>,
    senses: &Vec<Sense>,
    index: &Vec<(String, Vec<String>)>,
    entry: &WordEntry,
    score: i64,
    qlow: &String,
    Ghost(q): Ghost<Seq<char>>,
)
    requires
        qlow@ == lower_of(q),
    ensures
        results_views(final(results)@) == rank_into(
            results_views(old(results)@),
            results_for_entry(senses_views(senses@), index_views(index@), entry@, score),
            q,
        ),
{
    let ghost sv = senses_views(senses@);
    let ghost iv = index_views(index@);
    let ghost e = entry@;
    let ghost acc0 = results_views(results@);
    process_category(results, senses, index, &entry.word, "p", &entry.p, score, qlow, Ghost(q));
    process_category(results, senses, index, &entry.word, "n", &entry.n, score, qlow, Ghost(q));
    process_category(results, senses, index, &entry.word, "u", &entry.u, score, qlow, Ghost(q));
    process_category(results, senses, index, &entry.word, "v", &entry.v, score, qlow, Ghost(q));
    process_category(results, senses, index, &entry.word, "x", &entry.x, score, qlow, Ghost(q));
    process_category(results, senses, index, &entry.word, "a", &entry.a, score, qlow, Ghost(q));
    process_category(results, senses, index, &entry.word, "r", &entry.r, score, qlow, Ghost(q));
    process_category(results, senses, index, &entry.word, "s", &entry.s, score, qlow, Ghost(q));
    proof {
        let r1 = results_for_ids(sv, iv, e.word, "p"@, cat_ids(e.p), score);
        let r2 = results_for_ids(sv, iv, e.word, "n"@, cat_ids(e.n), score);
        let r3 = results_for_ids(sv, iv, e.word, "u"@, cat_ids(e.u), score);
        let r4 = results_for_ids(sv, iv, e.word, "v"@, cat_ids(e.v), score);
        let r5 = results_for_ids(sv, iv, e.word, "x"@, cat_ids(e.x), score);
        let r6 = results_for_ids(sv, iv, e.word, "a"@, cat_ids(e.a), score);
        let r7 = results_for_ids(sv, iv, e.word, "r"@, cat_ids(e.r), score);
        let r8 = results_for_ids(sv, iv, e.word, "s"@, cat_ids(e.s), score);
        lemma_rank_into_concat(acc0, r1, r2, q);
        lemma_rank_into_concat(acc0, r1 + r2, r3, q);
        lemma_rank_into_concat(acc0, r1 + r2 + r3, r4, q);
        lemma_rank_into_concat(acc0, r1 + r2 + r3 + r4, r5, q);
        lemma_rank_into_concat(acc0, r1 + r2 + r3 + r4 + r5, r6, q);
        lemma_rank_into_concat(acc0, r1 + r2 + r3 + r4 + r5 + r6, r7, q);
        lemma_rank_into_concat(acc0, r1 + r2 + r3 + r4 + r5 + r6 + r7, r8, q);
    }
}

/// Expands one part-of-speech category of a matched word entry.
fn process_category(
    results: &mut Vec<WordResult>,
    senses: &Vec<Sense>,
    index: &Vec<(String, Vec<String>)>,
    word: &String,
    pos_code: &str,
    ids: &Option<Vec<String>>,
    score: i64,
    qlow: &String,
    Ghost(q): Ghost<Seq<char>>,
)
    requires
        qlow@ == lower_of(q),
    ensures
        results_views(final(results)@) == rank_into(
            results_views(old(results)@),
            results_for_ids(
                senses_views(senses@),
                index_views(index@),
                word@,
                pos_code@,
                cat_ids(crate::lexicon::opt_views(*ids)),
                score,
            ),
            q,
        ),
{
    if let Some(list) = ids {
        process_id_list(results, senses, index, word, pos_code, list, score, qlow, Ghost(q));
    } else {
        proof {
            assert(cat_ids(crate::lexicon::opt_views(*ids)).len() == 0);
        }
    }
}

/// Emits one result per sense identifier in one category list.
fn process_id_list(
    results: &mut Vec<WordResult>,
    senses: &Vec<Sense>,
    index: &Vec<(String, Vec<String>)>,
    word: &String,
    pos_code: &str,
    ids: &Vec<String>,
    score: i64,
    qlow: &String,
    Ghost(q): Ghost<Seq<char>>,
)
    requires
        qlow@ == lower_of(q),
    ensures
        results_views(final(results)@) == rank_into(
            results_views(old(results)@),
            results_for_ids(
                senses_views(senses@),
                index_views(index@),
                word@,
                pos_code@,
                views_of(ids@),
                score,
            ),
            q,
        ),
{
    let ghost sv = senses_views(senses@);
    let ghost iv = index_views(index@);
    let ghost idsv = views_of(ids@);
    let ghost acc0 = results_views(results@);
    proof {
        assert(idsv.subrange(0, idsv.len() as int) =~= idsv);
    }
    let mut j: usize = 0;
    while j < ids.len()
        invariant
            sv == senses_views(senses@),
            iv == index_views(index@),
            idsv == views_of(ids@),
            qlow@ == lower_of(q),
            0 <= j <= ids@.len(),
            idsv.len() == ids@.len(),
            rank_into(
                results_views(results@),
                results_for_ids(sv, iv, word@, pos_code@, idsv.subrange(j as int, idsv.len() as int), score),
                q,
            ) == rank_into(acc0, results_for_ids(sv, iv, word@, pos_code@, idsv, score), q),
        decreases ids@.len() - j,
    {
        let ghost before = results_views(results@);
        let ghost remaining = idsv.subrange(j as int, idsv.len() as int);
        let ghost head = match find_sense_spec(sv, idsv[j as int]) {
            Option::Some(s) => seq![mk_result(word@, pos_code@, s, iv, score)],
            Option::None => Seq::<WordResultView>::empty(),
        };
        proof {
            assert(remaining[0] == idsv[j as int]);
            assert(remaining.subrange(1, remaining.len() as int) =~= idsv.subrange(
                j + 1,
                idsv.len() as int,
            ));
            assert(results_for_ids(sv, iv, word@, pos_code@, remaining, score) == head
                + results_for_ids(
                sv,
                iv,
                word@,
                pos_code@,
                idsv.subrange(j + 1, idsv.len() as int),
                score,
            ));
            lemma_rank_into_concat(
                before,
                head,
                results_for_ids(sv, iv, word@, pos_code@, idsv.subrange(j + 1, idsv.len() as int), score),
                q,
            );
        }
        let sense_opt = find_sense(senses, ids[j].as_str());
        if let Some(sense) = sense_opt {
            let wr = WordResult {
                word: word.clone(),
                pos: pos_code.to_owned(),
                definitions: clone_strings(&sense.definitions),
                examples: clone_strings(&sense.examples),
                synonyms: resolve_refs(index, &sense.synonym_refs),
                antonyms: resolve_refs(index, &sense.antonym_refs),
                match_score: score,
            };
            proof {
                assert(wr@ == mk_result(word@, pos_code@, sense@, iv, score));
                assert(head == seq![mk_result(word@, pos_code@, sense@, iv, score)]);
            }
            insert_result(results, wr, qlow, Ghost(q));
            proof {
                assert(rank_into(before, head, q) == results_views(results@)) by {
                    assert(head[0] == wr@);
                    assert(head.subrange(1, head.len() as int).len() == 0);
                    assert(rank_into(insert_ranked(before, wr@, q), head.subrange(1, head.len() as int), q)
                        == insert_ranked(before, wr@, q));
                }
            }
        } else {
            proof {
                assert(head =~= Seq::<WordResultView>::empty());
                assert(rank_into(before, head, q) == before);
            }
        }
        j = j + 1;
    }
    proof {
        assert(idsv.subrange(idsv.len() as int, idsv.len() as int).len() == 0);
    }
}

} // verus!
