//! The lexicon model: senses, word entries, and the loaded lexicon.
//!
//! A lexicon holds one language's senses (synsets) and word entries. Each
//! sense carries definitions, examples, and references to other senses
//! whose member words are its synonyms or antonyms. Each word entry lists,
//! per part-of-speech category, the sense identifiers the word belongs to.
//! Loading is all-or-nothing: duplicate sense identifiers or duplicate
//! words are rejected, and no partial lexicon is ever produced.
use vstd::prelude::*;

use crate::order::str_eq;
use crate::sorted::views_of;

verus! {

/// Why a source document was rejected.
#[derive(Clone, Copy, Debug, PartialEq, Eq, Structural)]
pub enum LoadError {
    /// The document could not be read from its source location.
    Unreadable,
    /// The document does not conform to the expected schema.
    Malformed,
    /// Two senses share one identifier.
    DuplicateSenseId,
    /// Two word entries share one surface word.
    DuplicateWord,
}

/// One sense (synset): a distinct meaning shared by the words that express it.
pub struct Sense {
    /// Identifier, unique within a lexicon.
    pub id: String,
    /// Ordered definitions of this sense.
    pub definitions: Vec<String>,
    /// Ordered usage examples.
    pub examples: Vec<String>,
    /// Identifiers of senses whose member words are synonyms of this sense.
    pub synonym_refs: Vec<String>,
    /// Identifiers of senses whose member words are antonyms of this sense.
    pub antonym_refs: Vec<String>,
}

/// A surface word and, per part-of-speech category, the senses it belongs to.
pub struct WordEntry {
    /// The surface word, unique within a lexicon.
    pub word: String,
    /// Pronoun senses.
    pub p: Option<Vec<String>>,
    /// Noun senses.
    pub n: Option<Vec<String>>,
    /// Unclassified senses.
    pub u: Option<Vec<String>>,
    /// Verb senses.
    pub v: Option<Vec<String>>,
    /// Other senses.
    pub x: Option<Vec<String>>,
    /// Adjective senses.
    pub a: Option<Vec<String>>,
    /// Adverb senses.
    pub r: Option<Vec<String>>,
    /// Adjective-satellite senses.
    pub s: Option<Vec<String>>,
}

/// One language's loaded senses and word entries.
pub struct Lexicon {
    /// The senses, with pairwise distinct identifiers.
    pub senses: Vec<Sense>,
    /// The word entries, with pairwise distinct words.
    pub words: Vec<WordEntry>,
}

/// Mathematical model of a sense.
pub struct SenseView {
    pub id: Seq<char>,
    pub definitions: Seq<Seq<char>>,
    pub examples: Seq<Seq<char>>,
    pub synonym_refs: Seq<Seq<char>>,
    pub antonym_refs: Seq<Seq<char>>,
}

/// Mathematical model of a word entry.
pub struct WordEntryView {
    pub word: Seq<char>,
    pub p: Option<Seq<Seq<char>>>,
    pub n: Option<Seq<Seq<char>>>,
    pub u: Option<Seq<Seq<char>>>,
    pub v: Option<Seq<Seq<char>>>,
    pub x: Option<Seq<Seq<char>>>,
    pub a: Option<Seq<Seq<char>>>,
    pub r: Option<Seq<Seq<char>>>,
    pub s: Option<Seq<Seq<char>>>,
}

/// Mathematical model of a lexicon.
pub struct LexiconView {
    pub senses: Seq<SenseView>,
    pub words: Seq<WordEntryView>,
}

/// The character sequences of an optional list of strings.
pub open spec fn opt_views(o: Option<Vec<String>>) -> Option<Seq<Seq<char>>> {
    match o {
        Option::Some(v) => Option::Some(views_of(v@)),
        Option::None => Option::None,
    }
}

impl View for Sense {
    type V = SenseView;

    open spec fn view(&self) -> SenseView {
        SenseView {
            id: self.id@,
            definitions: views_of(self.definitions@),
            examples: views_of(self.examples@),
            synonym_refs: views_of(self.synonym_refs@),
            antonym_refs: views_of(self.antonym_refs@),
        }
    }
}

impl View for WordEntry {
    type V = WordEntryView;

    open spec fn view(&self) -> WordEntryView {
        WordEntryView {
            word: self.word@,
            p: opt_views(self.p),
            n: opt_views(self.n),
            u: opt_views(self.u),
            v: opt_views(self.v),
            x: opt_views(self.x),
            a: opt_views(self.a),
            r: opt_views(self.r),
            s: opt_views(self.s),
        }
    }
}

impl View for Lexicon {
    type V = LexiconView;

    open spec fn view(&self) -> LexiconView {
        LexiconView { senses: senses_views(self.senses@), words: entries_views(self.words@) }
    }
}

/// The models of a sequence of senses.
pub open spec fn senses_views(s: Seq<Sense>) -> Seq<SenseView> {
    s.map_values(|x: Sense| x@)
}

/// The models of a sequence of word entries.
pub open spec fn entries_views(s: Seq<WordEntry>) -> Seq<WordEntryView> {
    s.map_values(|x: WordEntry| x@)
}

/// The identifiers of a sequence of senses, in order.
pub open spec fn sense_ids(ss: Seq<SenseView>) -> Seq<Seq<char>> {
    ss.map_values(|x: SenseView| x.id)
}

/// The surface words of a sequence of word entries, in order.
pub open spec fn entry_words(ws: Seq<WordEntryView>) -> Seq<Seq<char>> {
    ws.map_values(|x: WordEntryView| x.word)
}

/// All entries of the sequence are pairwise distinct.
pub open spec fn distinct_seqs(s: Seq<Seq<char>>) -> bool {
    forall|i: int, j: int| 0 <= i < j < s.len() ==> s[i] != s[j]
}

impl LexiconView {
    /// Well-formed: sense identifiers are unique, and so are words.
    pub open spec fn wf(self) -> bool {
        distinct_seqs(sense_ids(self.senses)) && distinct_seqs(entry_words(self.words))
    }
}

/// The first sense carrying identifier `id`, scanning in order.
pub open spec fn find_sense_spec(ss: Seq<SenseView>, id: Seq<char>) -> Option<SenseView>
    decreases ss.len(),
{
    if ss.len() == 0 {
        Option::None
    } else if ss[0].id == id {
        Option::Some(ss[0])
    } else {
        find_sense_spec(ss.subrange(1, ss.len() as int), id)
    }
}

/// A prefix without the identifier does not affect the scan's outcome.
pub proof fn lemma_find_sense_skip(ss: Seq<SenseView>, id: Seq<char>, i: int)
    requires
        0 <= i <= ss.len(),
        forall|m: int| 0 <= m < i ==> ss[m].id != id,
    ensures
        find_sense_spec(ss, id) == find_sense_spec(ss.subrange(i, ss.len() as int), id),
    decreases i,
{
    if i == 0 {
        assert(ss.subrange(0, ss.len() as int) =~= ss);
    } else {
        let tail = ss.subrange(1, ss.len() as int);
        assert(forall|m: int| 0 <= m < i - 1 ==> tail[m] == ss[m + 1] && ss[m + 1].id != id);
        lemma_find_sense_skip(tail, id, i - 1);
        assert(tail.subrange(i - 1, tail.len() as int) =~= ss.subrange(i, ss.len() as int));
    }
}

/// Looks an identifier up in a list of senses.
pub fn find_sense<'a>(senses: &'a Vec<Sense>, id: &str) -> (r: Option<&'a Sense>)
    ensures
        match r {
            Option::Some(sense) => find_sense_spec(senses_views(senses@), id@) == Option::Some(
                sense@,
            ),
            Option::None => find_sense_spec(senses_views(senses@), id@) == Option::None::<
                SenseView,
            >,
        },
{
    let ghost ss = senses_views(senses@);
    let mut i: usize = 0;
    while i < senses.len()
        invariant
            0 <= i <= senses@.len(),
            ss == senses_views(senses@),
            forall|m: int| 0 <= m < i ==> ss[m].id != id@,
        decreases senses@.len() - i,
    {
        if str_eq(senses[i].id.as_str(), id) {
            proof {
                lemma_find_sense_skip(ss, id@, i as int);
                assert(ss.subrange(i as int, ss.len() as int)[0] == ss[i as int]);
            }
            return Some(&senses[i]);
        }
        i = i + 1;
    }
    proof {
        lemma_find_sense_skip(ss, id@, ss.len() as int);
        assert(ss.subrange(ss.len() as int, ss.len() as int).len() == 0);
    }
    None
}

/// Tests whether all sense identifiers are pairwise distinct.
fn ids_distinct(senses: &Vec<Sense>) -> (r: bool)
    ensures
        r == distinct_seqs(sense_ids(senses_views(senses@))),
{
    let ghost ids = sense_ids(senses_views(senses@));
    let mut i: usize = 0;
    while i < senses.len()
        invariant
            0 <= i <= senses@.len(),
            ids == sense_ids(senses_views(senses@)),
            ids.len() == senses@.len(),
            forall|p: int, q: int| 0 <= p < q < ids.len() && p < i ==> ids[p] != ids[q],
        decreases senses@.len() - i,
    {
        let mut j: usize = i + 1;
        while j < senses.len()
            invariant
                0 <= i < j,
                i < senses@.len(),
                j <= senses@.len(),
                ids == sense_ids(senses_views(senses@)),
                ids.len() == senses@.len(),
                forall|q: int| i < q < j ==> ids[i as int] != ids[q],
            decreases senses@.len() - j,
        {
            if str_eq(senses[i].id.as_str(), senses[j].id.as_str()) {
                proof {
                    assert(ids[i as int] == senses@[i as int]@.id);
                    assert(ids[j as int] == senses@[j as int]@.id);
                }
                return false;
            }
            j = j + 1;
        }
        i = i + 1;
    }
    true
}

/// Tests whether all surface words are pairwise distinct.
fn words_distinct(words: &Vec<WordEntry>) -> (r: bool)
    ensures
        r == distinct_seqs(entry_words(entries_views(words@))),
{
    let ghost ws = entry_words(entries_views(words@));
    let mut i: usize = 0;
    while i < words.len()
        invariant
            0 <= i <= words@.len(),
            ws == entry_words(entries_views(words@)),
            ws.len() == words@.len(),
            forall|p: int, q: int| 0 <= p < q < ws.len() && p < i ==> ws[p] != ws[q],
        decreases words@.len() - i,
    {
        let mut j: usize = i + 1;
        while j < words.len()
            invariant
                0 <= i < j,
                i < words@.len(),
                j <= words@.len(),
                ws == entry_words(entries_views(words@)),
                ws.len() == words@.len(),
                forall|q: int| i < q < j ==> ws[i as int] != ws[q],
            decreases words@.len() - j,
        {
            if str_eq(words[i].word.as_str(), words[j].word.as_str()) {
                proof {
                    assert(ws[i as int] == words@[i as int]@.word);
                    assert(ws[j as int] == words@[j as int]@.word);
                }
                return false;
            }
            j = j + 1;
        }
        i = i + 1;
    }
    true
}

/// Copies an optional list of strings, element for element.
fn clone_opt_strings(o: &Option<Vec<String>>) -> (r: Option<Vec<String>>)
    ensures
        opt_views(r) == opt_views(*o),
{
    match o {
        Some(v) => Some(crate::sorted::clone_strings(v)),
        None => None,
    }
}

/// Copies a word entry, field for field.
pub fn clone_entry(e: &WordEntry) -> (r: WordEntry)
    ensures
        r@ == e@,
{
    WordEntry {
        word: e.word.clone(),
        p: clone_opt_strings(&e.p),
        n: clone_opt_strings(&e.n),
        u: clone_opt_strings(&e.u),
        v: clone_opt_strings(&e.v),
        x: clone_opt_strings(&e.x),
        a: clone_opt_strings(&e.a),
        r: clone_opt_strings(&e.r),
        s: clone_opt_strings(&e.s),
    }
}

impl Lexicon {
    /// Assembles a lexicon from loaded senses and word entries.
    ///
    /// Loading is all-or-nothing: succeeds exactly when sense identifiers
    /// and surface words are each pairwise distinct, and then carries the
    /// input over unchanged.
    pub fn new(senses: Vec<Sense>, words: Vec<WordEntry>) -> (r: Result<Lexicon, LoadError>)
        ensures
            r is Ok <==> (distinct_seqs(sense_ids(senses_views(senses@))) && distinct_seqs(
                entry_words(entries_views(words@)),
            )),
            match r {
                Ok(lex) => lex@ == (LexiconView {
                    senses: senses_views(senses@),
                    words: entries_views(words@),
                }) && lex@.wf(),
                Err(e) => if !distinct_seqs(sense_ids(senses_views(senses@))) {
                    e == LoadError::DuplicateSenseId
                } else {
                    e == LoadError::DuplicateWord
                },
            },
    {
        if !ids_distinct(&senses) {
            return Err(LoadError::DuplicateSenseId);
        }
        if !words_distinct(&words) {
            return Err(LoadError::DuplicateWord);
        }
        Ok(Lexicon { senses, words })
    }
}

} // verus!
