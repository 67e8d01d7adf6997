//! The engine registry: one search engine per language code.
//!
//! The registry maps language codes to search engines. Initializing a
//! language validates and indexes its lexicon, then installs the engine,
//! replacing any prior one; a failed initialization leaves the registry
//! unchanged. Querying an absent language yields an empty result
//! sequence, never an error.
use vstd::prelude::*;

use crate::engine::search_spec;
use crate::engine::WordNetSearcher;
use crate::lexicon::clone_entry;
use crate::lexicon::distinct_seqs;
use crate::lexicon::entries_views;
use crate::lexicon::entry_words;
use crate::lexicon::sense_ids;
use crate::lexicon::senses_views;
use crate::lexicon::Lexicon;
use crate::lexicon::LexiconView;
use crate::lexicon::LoadError;
use crate::lexicon::Sense;
use crate::lexicon::WordEntry;
use crate::order::str_eq;
use crate::rank::results_views;
use crate::rank::WordResult;

verus! {

/// Whether a language is initialized, and how many words its lexicon holds.
#[derive(Clone, Copy, Debug, PartialEq, Eq, Structural)]
pub struct IndexStatus {
    /// An engine is installed for the language.
    pub is_initialized: bool,
    /// Number of word entries in that engine's lexicon, zero if none.
    pub entry_count: usize,
}

/// A table of search engines, one per language code.
pub struct Registry {
    /// The installed engines, keyed by pairwise distinct language codes.
    pub engines: Vec<(String, WordNetSearcher)>,
}

/// The first engine installed under `lang`, scanning in order.
pub open spec fn find_engine_spec(
    es: Seq<(String, WordNetSearcher)>,
    lang: Seq<char>,
) -> Option<WordNetSearcher>
    decreases es.len(),
{
    if es.len() == 0 {
        Option::None
    } else if es[0].0@ == lang {
        Option::Some(es[0].1)
    } else {
        find_engine_spec(es.subrange(1, es.len() as int), lang)
    }
}

/// A prefix without the language does not affect the scan's outcome.
proof fn lemma_find_engine_skip(es: Seq<(String, WordNetSearcher)>, lang: Seq<char>, i: int)
    requires
        0 <= i <= es.len(),
        forall|m: int| 0 <= m < i ==> es[m].0@ != lang,
    ensures
        find_engine_spec(es, lang) == find_engine_spec(es.subrange(i, es.len() as int), lang),
    decreases i,
{
    if i == 0 {
        assert(es.subrange(0, es.len() as int) =~= es);
    } else {
        let tail = es.subrange(1, es.len() as int);
        assert(forall|m: int| 0 <= m < i - 1 ==> tail[m] == es[m + 1] && es[m + 1].0@ != lang);
        lemma_find_engine_skip(tail, lang, i - 1);
        assert(tail.subrange(i - 1, tail.len() as int) =~= es.subrange(i, es.len() as int));
    }
}

/// Replacing the pair at `j` in place, under the same language code,
/// changes only that language's engine.
proof fn lemma_find_engine_update(
    es: Seq<(String, WordNetSearcher)>,
    j: int,
    p: (String, WordNetSearcher),
    lang: Seq<char>,
)
    requires
        0 <= j < es.len(),
        forall|m: int| 0 <= m < j ==> es[m].0@ != es[j].0@,
        p.0@ == es[j].0@,
    ensures
        find_engine_spec(es.update(j, p), lang) == if lang == es[j].0@ {
            Option::Some(p.1)
        } else {
            find_engine_spec(es, lang)
        },
    decreases j,
{
    let r = es.update(j, p);
    if j == 0 {
        assert(r[0] == p);
        if lang == es[0].0@ {
        } else {
            assert(r.subrange(1, r.len() as int) =~= es.subrange(1, es.len() as int));
        }
    } else {
        let tail = es.subrange(1, es.len() as int);
        assert(tail[j - 1] == es[j]);
        assert(forall|m: int| 0 <= m < j - 1 ==> tail[m] == es[m + 1] && es[m + 1].0@ != es[j].0@);
        lemma_find_engine_update(tail, j - 1, p, lang);
        assert(r[0] == es[0]);
        assert(r.subrange(1, r.len() as int) =~= tail.update(j - 1, p));
        assert(es[0].0@ != es[j].0@);
    }
}

/// Appending a pair under a fresh language code changes only that
/// language's engine.
proof fn lemma_find_engine_push(
    es: Seq<(String, WordNetSearcher)>,
    p: (String, WordNetSearcher),
    lang: Seq<char>,
)
    requires
        forall|m: int| 0 <= m < es.len() ==> es[m].0@ != p.0@,
    ensures
        find_engine_spec(es.push(p), lang) == if lang == p.0@ {
            Option::Some(p.1)
        } else {
            find_engine_spec(es, lang)
        },
    decreases es.len(),
{
    let r = es.push(p);
    let r1 = r.subrange(1, r.len() as int);
    if es.len() == 0 {
        assert(r[0] == p);
        assert(r1.len() == 0);
        assert(find_engine_spec(r1, lang) == Option::None::<WordNetSearcher>);
        if lang != p.0@ {
            assert(find_engine_spec(r, lang) == find_engine_spec(r1, lang));
        }
    } else {
        let tail = es.subrange(1, es.len() as int);
        assert(forall|m: int| 0 <= m < tail.len() ==> tail[m] == es[m + 1]);
        lemma_find_engine_push(tail, p, lang);
        assert(r[0] == es[0]);
        assert(r1 =~= tail.push(p));
        if lang == es[0].0@ {
            assert(find_engine_spec(r, lang) == Option::Some(es[0].1));
            assert(find_engine_spec(es, lang) == Option::Some(es[0].1));
        } else {
            assert(find_engine_spec(r, lang) == find_engine_spec(tail.push(p), lang));
            assert(find_engine_spec(es, lang) == find_engine_spec(tail, lang));
        }
    }
}

impl Registry {
    /// Well-formed: language codes are pairwise distinct and every
    /// installed engine is well-formed.
    pub open spec fn wf(self) -> bool {
        (forall|i: int, j: int|
            0 <= i < j < self.engines@.len() ==> self.engines@[i].0@ != self.engines@[j].0@)
            && (forall|i: int|
            0 <= i < self.engines@.len() ==> (#[trigger] self.engines@[i].1).wf())
    }

    /// An empty registry: no language is initialized.
    pub fn new() -> (r: Registry)
        ensures
            r.wf(),
            r.engines@.len() == 0,
    {
        Registry { engines: Vec::new() }
    }

    /// Parses nothing itself: takes one language's loaded senses and word
    /// entries, validates them into a lexicon, builds the reverse index,
    /// and installs the engine under `language_code`, replacing any prior
    /// engine for that code. A failed validation leaves the registry
    /// unchanged and reports why.
    pub fn initialize(
        &mut self,
        language_code: &str,
        senses: Vec<Sense>,
        words: Vec<WordEntry>,
    ) -> (r: Result<(), LoadError>)
        requires
            old(self).wf(),
        ensures
            final(self).wf(),
            r is Ok <==> (distinct_seqs(sense_ids(senses_views(senses@))) && distinct_seqs(
                entry_words(entries_views(words@)),
            )),
            match r {
                Ok(unit) => (match find_engine_spec(final(self).engines@, language_code@) {
                    Option::Some(eng) => eng.lexicon@ == (LexiconView {
                        senses: senses_views(senses@),
                        words: entries_views(words@),
                    }),
                    Option::None => false,
                }) && (forall|l: Seq<char>|
                    l != language_code@ ==> find_engine_spec(final(self).engines@, l)
                        == find_engine_spec(old(self).engines@, l)),
                Err(e) => *final(self) == *old(self) && (if !distinct_seqs(
                    sense_ids(senses_views(senses@)),
                ) {
                    e == LoadError::DuplicateSenseId
                } else {
                    e == LoadError::DuplicateWord
                }),
            },
    {
        let lexicon = match Lexicon::new(senses, words) {
            Ok(lexicon) => lexicon,
            Err(e) => {
                return Err(e);
            },
        };
        let engine = WordNetSearcher::new(lexicon);
        let ghost es = self.engines@;
        let mut i: usize = 0;
        while i < self.engines.len() && !str_eq(self.engines[i].0.as_str(), language_code)
            invariant
                es == self.engines@,
                0 <= i <= self.engines@.len(),
                forall|m: int| 0 <= m < i ==> es[m].0@ != language_code@,
            decreases self.engines@.len() - i,
        {
            i = i + 1;
        }
        if i < self.engines.len() {
            proof {
                assert(es[i as int].0@ == language_code@);
            }
            self.engines.set(i, (language_code.to_owned(), engine));
            proof {
                assert(self.engines@ == es.update(
                    i as int,
                    (self.engines@[i as int].0, engine),
                ));
                assert forall|l: Seq<char>| true implies find_engine_spec(self.engines@, l) == (
                if l == language_code@ {
                    Option::Some(engine)
                } else {
                    find_engine_spec(es, l)
                }) by {
                    lemma_find_engine_update(
                        es,
                        i as int,
                        (self.engines@[i as int].0, engine),
                        l,
                    );
                }
                lemma_find_engine_update(es, i as int, (self.engines@[i as int].0, engine), language_code@);
                assert forall|a: int, b: int|
                    0 <= a < b < self.engines@.len() implies self.engines@[a].0@
                    != self.engines@[b].0@ by {
                    assert(es[a].0@ != es[b].0@);
                }
            }
        } else {
            self.engines.push((language_code.to_owned(), engine));
            proof {
                assert forall|l: Seq<char>| true implies find_engine_spec(self.engines@, l) == (
                if l == language_code@ {
                    Option::Some(engine)
                } else {
                    find_engine_spec(es, l)
                }) by {
                    lemma_find_engine_push(es, self.engines@.last(), l);
                    assert(self.engines@ == es.push(self.engines@.last()));
                }
                assert forall|a: int, b: int|
                    0 <= a < b < self.engines@.len() implies self.engines@[a].0@
                    != self.engines@[b].0@ by {
                    if b < es.len() {
                        assert(es[a].0@ != es[b].0@);
                    } else {
                        assert(self.engines@[b].0@ == language_code@);
                        assert(self.engines@[a] == es[a]);
                    }
                }
            }
        }
        Ok(())
    }

    /// Finds the engine installed under a language code.
    fn find_engine<'a>(&'a self, language_code: &str) -> (r: Option<&'a WordNetSearcher>)
        ensures
            match r {
                Option::Some(eng) => find_engine_spec(self.engines@, language_code@)
                    == Option::Some(*eng),
                Option::None => find_engine_spec(self.engines@, language_code@) == Option::None::<
                    WordNetSearcher,
                >,
            },
    {
        let ghost es = self.engines@;
        let mut i: usize = 0;
        while i < self.engines.len()
            invariant
                es == self.engines@,
                0 <= i <= self.engines@.len(),
                forall|m: int| 0 <= m < i ==> es[m].0@ != language_code@,
            decreases self.engines@.len() - i,
        {
            if str_eq(self.engines[i].0.as_str(), language_code) {
                proof {
                    lemma_find_engine_skip(es, language_code@, i as int);
                    assert(es.subrange(i as int, es.len() as int)[0] == es[i as int]);
                }
                return Some(&self.engines[i].1);
            }
            i = i + 1;
        }
        proof {
            lemma_find_engine_skip(es, language_code@, es.len() as int);
            assert(es.subrange(es.len() as int, es.len() as int).len() == 0);
        }
        None
    }

    /// Queries one language's engine: the ranked results for the query
    /// text, or the empty sequence when the language is not initialized.
    pub fn query(&self, query_text: &str, language_code: &str, max_results: usize) -> (results:
        Vec<WordResult>)
        requires
            self.wf(),
        ensures
            results_views(results@) == match find_engine_spec(self.engines@, language_code@) {
                Option::Some(eng) => search_spec(eng.lexicon@, query_text@, max_results as int),
                Option::None => Seq::<crate::rank::WordResultView>::empty(),
            },
    {
        match self.find_engine(language_code) {
            Some(engine) => {
                proof {
                    lemma_find_engine_wf(self.engines@, language_code@, *self);
                }
                engine.search(query_text, max_results)
            },
            None => {
                let results: Vec<WordResult> = Vec::new();
                proof {
                    assert(results_views(results@) =~= Seq::<crate::rank::WordResultView>::empty());
                }
                results
            },
        }
    }

    /// Reports whether a language is initialized and how many words its
    /// lexicon holds.
    pub fn get_index_status(&self, language_code: &str) -> (st: IndexStatus)
        ensures
            match find_engine_spec(self.engines@, language_code@) {
                Option::Some(eng) => st.is_initialized && st.entry_count
                    == eng.lexicon@.words.len(),
                Option::None => !st.is_initialized && st.entry_count == 0,
            },
    {
        match self.find_engine(language_code) {
            Some(engine) => IndexStatus {
                is_initialized: true,
                entry_count: engine.lexicon.words.len(),
            },
            None => IndexStatus { is_initialized: false, entry_count: 0 },
        }
    }

    /// Hands out a copy of one language's word entries, or nothing when
    /// the language is not initialized.
    pub fn get_all_entries(&self, language_code: &str) -> (r: Option<Vec<WordEntry>>)
        ensures
            match (r, find_engine_spec(self.engines@, language_code@)) {
                (Option::Some(entries), Option::Some(eng)) => entries_views(entries@)
                    == eng.lexicon@.words,
                (Option::None, Option::None) => true,
                _ => false,
            },
    {
        match self.find_engine(language_code) {
            Some(engine) => {
                let mut entries: Vec<WordEntry> = Vec::new();
                let ghost target = engine.lexicon@.words;
                let mut i: usize = 0;
                while i < engine.lexicon.words.len()
                    invariant
                        target == engine.lexicon@.words,
                        target.len() == engine.lexicon.words@.len(),
                        0 <= i <= engine.lexicon.words@.len(),
                        entries@.len() == i,
                        forall|m: int| 0 <= m < i ==> entries@[m]@ == target[m],
                    decreases engine.lexicon.words@.len() - i,
                {
                    entries.push(clone_entry(&engine.lexicon.words[i]));
                    i = i + 1;
                }
                proof {
                    assert(entries_views(entries@) =~= target);
                }
                Some(entries)
            },
            None => None,
        }
    }
}

/// An engine found in a well-formed registry is well-formed.
proof fn lemma_find_engine_wf(
    es: Seq<(String, WordNetSearcher)>,
    lang: Seq<char>,
    reg: Registry,
)
    requires
        reg.wf(),
        es == reg.engines@,
        find_engine_spec(es, lang) is Some,
    ensures
        find_engine_spec(es, lang)->Some_0.wf(),
{
    lemma_find_engine_is_element(es, lang);
}

/// A found engine is one of the registry's elements.
proof fn lemma_find_engine_is_element(es: Seq<(String, WordNetSearcher)>, lang: Seq<char>)
    requires
        find_engine_spec(es, lang) is Some,
    ensures
        exists|i: int|
            0 <= i < es.len() && #[trigger] es[i].1 == find_engine_spec(es, lang)->Some_0
                && es[i].0@ == lang,
    decreases es.len(),
{
    if es[0].0@ == lang {
        assert(es[0].1 == find_engine_spec(es, lang)->Some_0);
    } else {
        let tail = es.subrange(1, es.len() as int);
        lemma_find_engine_is_element(tail, lang);
        let i = choose|i: int|
            0 <= i < tail.len() && #[trigger] tail[i].1 == find_engine_spec(tail, lang)->Some_0
                && tail[i].0@ == lang;
        assert(es[i + 1].1 == find_engine_spec(es, lang)->Some_0);
    }
}

} // verus!
