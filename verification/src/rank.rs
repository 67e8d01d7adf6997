//! Query results and their ranking.
//!
//! A query produces one [`WordResult`] per matched word and sense. Results
//! are ordered by, in order of precedence: exact case-insensitive equality
//! with the query; single-token words before multi-token phrases; higher
//! match score; word ascending; part-of-speech code ascending.
use vstd::prelude::*;

use crate::order::lemma_seq_lt_asymmetric;
use crate::order::lemma_seq_lt_connected;
use crate::order::lemma_seq_lt_transitive;
use crate::order::seq_lt;
use crate::order::str_eq;
use crate::order::str_lt;

verus! {

/// One ranked query result: a word, one of its senses, and the resolved
/// synonym and antonym word lists.
#[derive(Debug, Clone, PartialEq, Eq)]
pub struct WordResult {
    /// The matched surface word.
    pub word: String,
    /// Part-of-speech code of the sense.
    pub pos: String,
    /// The sense's definitions, verbatim.
    pub definitions: Vec<String>,
    /// The sense's usage examples, verbatim.
    pub examples: Vec<String>,
    /// Sorted, deduplicated synonym words.
    pub synonyms: Vec<String>,
    /// Sorted, deduplicated antonym words.
    pub antonyms: Vec<String>,
    /// The word's fuzzy match score against the query.
    pub match_score: i64,
}

/// Mathematical model of one query result.
pub struct WordResultView {
    pub word: Seq<char>,
    pub pos: Seq<char>,
    pub definitions: Seq<Seq<char>>,
    pub examples: Seq<Seq<char>>,
    pub synonyms: Seq<Seq<char>>,
    pub antonyms: Seq<Seq<char>>,
    pub match_score: i64,
}

impl View for WordResult {
    type V = WordResultView;

    open spec fn view(&self) -> WordResultView {
        WordResultView {
            word: self.word@,
            pos: self.pos@,
            definitions: crate::sorted::views_of(self.definitions@),
            examples: crate::sorted::views_of(self.examples@),
            synonyms: crate::sorted::views_of(self.synonyms@),
            antonyms: crate::sorted::views_of(self.antonyms@),
            match_score: self.match_score,
        }
    }
}

/// The models of a sequence of results.
pub open spec fn results_views(s: Seq<WordResult>) -> Seq<WordResultView> {
    s.map_values(|r: WordResult| r@)
}

/// What `str::to_lowercase` returns: a pure function of the characters.
pub uninterp spec fn lower_of(s: Seq<char>) -> Seq<char>;

/// Relies on `str::to_lowercase`: the lowercased form of a string depends
/// on its characters alone.
#[verifier::external_body]
pub(crate) fn lowercase(s: &str) -> (r: String)
    ensures
        r@ == lower_of(s@),
{
    s.to_lowercase()
}

/// The word equals the query, ignoring case.
pub open spec fn exact_match(q: Seq<char>, w: Seq<char>) -> bool {
    lower_of(w) == lower_of(q)
}

/// A single token: no space and no hyphen.
pub open spec fn single_token(w: Seq<char>) -> bool {
    forall|i: int| 0 <= i < w.len() ==> w[i] != ' ' && w[i] != '-'
}

/// Tests whether a word is a single token.
pub fn is_single_token(w: &str) -> (r: bool)
    ensures
        r == single_token(w@),
{
    let n: usize = w.unicode_len();
    let mut i: usize = 0;
    while i < n
        invariant
            0 <= i <= n,
            n == w@.len(),
            forall|k: int| 0 <= k < i ==> w@[k] != ' ' && w@[k] != '-',
        decreases n - i,
    {
        let c: char = w.get_char(i);
        if c == ' ' || c == '-' {
            return false;
        }
        i = i + 1;
    }
    true
}

/// Strict ranking order: `a` is ranked strictly before `b` for query `q`.
pub open spec fn res_lt(q: Seq<char>, a: WordResultView, b: WordResultView) -> bool {
    if exact_match(q, a.word) != exact_match(q, b.word) {
        exact_match(q, a.word)
    } else if single_token(a.word) != single_token(b.word) {
        single_token(a.word)
    } else if a.match_score != b.match_score {
        a.match_score > b.match_score
    } else if a.word != b.word {
        seq_lt(a.word, b.word)
    } else if a.pos != b.pos {
        seq_lt(a.pos, b.pos)
    } else {
        false
    }
}

pub proof fn lemma_res_lt_asym(q: Seq<char>, a: WordResultView, b: WordResultView)
    requires
        res_lt(q, a, b),
    ensures
        !res_lt(q, b, a),
{
    if a.word != b.word {
        lemma_seq_lt_connected(a.word, b.word);
        if seq_lt(a.word, b.word) {
            lemma_seq_lt_asymmetric(a.word, b.word);
        }
        if seq_lt(b.word, a.word) {
            lemma_seq_lt_asymmetric(b.word, a.word);
        }
    }
    if a.pos != b.pos {
        lemma_seq_lt_connected(a.pos, b.pos);
        if seq_lt(a.pos, b.pos) {
            lemma_seq_lt_asymmetric(a.pos, b.pos);
        }
        if seq_lt(b.pos, a.pos) {
            lemma_seq_lt_asymmetric(b.pos, a.pos);
        }
    }
}

/// The complement of the ranking order is transitive: what may stand
/// before `b`, with `b` allowed before `c`, may stand before `c`.
pub proof fn lemma_res_lt_neg_trans(
    q: Seq<char>,
    a: WordResultView,
    b: WordResultView,
    c: WordResultView,
)
    requires
        !res_lt(q, b, a),
        !res_lt(q, c, b),
    ensures
        !res_lt(q, c, a),
{
    lemma_seq_lt_connected(a.word, b.word);
    lemma_seq_lt_connected(b.word, c.word);
    lemma_seq_lt_connected(a.word, c.word);
    if seq_lt(a.word, b.word) && seq_lt(b.word, c.word) {
        lemma_seq_lt_transitive(a.word, b.word, c.word);
    }
    if seq_lt(c.word, b.word) && seq_lt(b.word, a.word) {
        lemma_seq_lt_transitive(c.word, b.word, a.word);
    }
    if seq_lt(a.word, b.word) {
        lemma_seq_lt_asymmetric(a.word, b.word);
    }
    if seq_lt(b.word, a.word) {
        lemma_seq_lt_asymmetric(b.word, a.word);
    }
    if seq_lt(b.word, c.word) {
        lemma_seq_lt_asymmetric(b.word, c.word);
    }
    if seq_lt(c.word, b.word) {
        lemma_seq_lt_asymmetric(c.word, b.word);
    }
    if seq_lt(a.word, c.word) {
        lemma_seq_lt_asymmetric(a.word, c.word);
    }
    if seq_lt(c.word, a.word) {
        lemma_seq_lt_asymmetric(c.word, a.word);
    }
    lemma_seq_lt_connected(a.pos, b.pos);
    lemma_seq_lt_connected(b.pos, c.pos);
    lemma_seq_lt_connected(a.pos, c.pos);
    if seq_lt(a.pos, b.pos) && seq_lt(b.pos, c.pos) {
        lemma_seq_lt_transitive(a.pos, b.pos, c.pos);
    }
    if seq_lt(c.pos, b.pos) && seq_lt(b.pos, a.pos) {
        lemma_seq_lt_transitive(c.pos, b.pos, a.pos);
    }
    if seq_lt(a.pos, b.pos) {
        lemma_seq_lt_asymmetric(a.pos, b.pos);
    }
    if seq_lt(b.pos, a.pos) {
        lemma_seq_lt_asymmetric(b.pos, a.pos);
    }
    if seq_lt(b.pos, c.pos) {
        lemma_seq_lt_asymmetric(b.pos, c.pos);
    }
    if seq_lt(c.pos, b.pos) {
        lemma_seq_lt_asymmetric(c.pos, b.pos);
    }
    if seq_lt(a.pos, c.pos) {
        lemma_seq_lt_asymmetric(a.pos, c.pos);
    }
    if seq_lt(c.pos, a.pos) {
        lemma_seq_lt_asymmetric(c.pos, a.pos);
    }
}

/// Tests whether `a` ranks strictly before `b` for the query whose
/// lowercased form is `qlow`.
pub(crate) fn result_precedes(
    a: &WordResult,
    b: &WordResult,
    qlow: &String,
    Ghost(q): Ghost<Seq<char>>,
) -> (r: bool)
    requires
        qlow@ == lower_of(q),
    ensures
        r == res_lt(q, a@, b@),
{
    let a_low = lowercase(a.word.as_str());
    let b_low = lowercase(b.word.as_str());
    let a_exact = str_eq(a_low.as_str(), qlow.as_str());
    let b_exact = str_eq(b_low.as_str(), qlow.as_str());
    if a_exact != b_exact {
        return a_exact;
    }
    let a_single = is_single_token(a.word.as_str());
    let b_single = is_single_token(b.word.as_str());
    if a_single != b_single {
        return a_single;
    }
    if a.match_score != b.match_score {
        return a.match_score > b.match_score;
    }
    if !str_eq(a.word.as_str(), b.word.as_str()) {
        return str_lt(a.word.as_str(), b.word.as_str());
    }
    if !str_eq(a.pos.as_str(), b.pos.as_str()) {
        return str_lt(a.pos.as_str(), b.pos.as_str());
    }
    false
}

/// Stable ordered insertion: `x` lands after every result it does not
/// strictly precede, so equally ranked results keep their arrival order.
pub open spec fn insert_ranked(
    s: Seq<WordResultView>,
    x: WordResultView,
    q: Seq<char>,
) -> Seq<WordResultView>
    decreases s.len(),
{
    if s.len() == 0 {
        seq![x]
    } else if res_lt(q, x, s.last()) {
        insert_ranked(s.drop_last(), x, q).push(s.last())
    } else {
        s.push(x)
    }
}

/// The results accumulated by ranking `xs` one after the other into `acc`.
pub open spec fn rank_into(
    acc: Seq<WordResultView>,
    xs: Seq<WordResultView>,
    q: Seq<char>,
) -> Seq<WordResultView>
    decreases xs.len(),
{
    if xs.len() == 0 {
        acc
    } else {
        rank_into(insert_ranked(acc, xs[0], q), xs.subrange(1, xs.len() as int), q)
    }
}

/// The results `xs`, ranked: sorted stably by the ranking order.
pub open spec fn rank_spec(xs: Seq<WordResultView>, q: Seq<char>) -> Seq<WordResultView> {
    rank_into(Seq::empty(), xs, q)
}

/// Where `insert_ranked` lands: at the first position, counted from the
/// end, whose result `x` does not strictly precede.
pub proof fn lemma_insert_ranked_at(
    s: Seq<WordResultView>,
    x: WordResultView,
    q: Seq<char>,
    j: int,
)
    requires
        0 <= j <= s.len(),
        forall|k: int| j <= k < s.len() ==> res_lt(q, x, #[trigger] s[k]),
        j > 0 ==> !res_lt(q, x, s[j - 1]),
    ensures
        insert_ranked(s, x, q) == s.insert(j, x),
    decreases s.len(),
{
    if s.len() == 0 {
        assert(insert_ranked(s, x, q) =~= s.insert(0, x));
    } else if j == s.len() {
        assert(!res_lt(q, x, s.last()));
        assert(insert_ranked(s, x, q) =~= s.insert(j, x));
    } else {
        assert(res_lt(q, x, s.last())) by {
            assert(s.last() == s[s.len() - 1]);
        }
        let d = s.drop_last();
        assert(forall|k: int| j <= k < d.len() ==> d[k] == s[k]);
        assert(j > 0 ==> d[j - 1] == s[j - 1]);
        lemma_insert_ranked_at(d, x, q, j);
        assert(insert_ranked(s, x, q) =~= s.insert(j, x));
    }
}

/// `insert_ranked` adds exactly `x` to the results.
pub proof fn lemma_insert_ranked_elem(
    s: Seq<WordResultView>,
    x: WordResultView,
    q: Seq<char>,
    y: WordResultView,
)
    ensures
        insert_ranked(s, x, q).len() == s.len() + 1,
        insert_ranked(s, x, q).contains(y) == (s.contains(y) || y == x),
    decreases s.len(),
{
    let r = insert_ranked(s, x, q);
    if s.len() == 0 {
        assert(r[0] == x);
        assert(r.contains(y) == (s.contains(y) || y == x)) by {
            if s.contains(y) {
                let m = choose|m: int| 0 <= m < s.len() && s[m] == y;
                assert(false);
            }
            if r.contains(y) {
                let m = choose|m: int| 0 <= m < r.len() && r[m] == y;
                assert(y == x);
            }
        }
    } else if res_lt(q, x, s.last()) {
        let d = s.drop_last();
        let rd = insert_ranked(d, x, q);
        lemma_insert_ranked_elem(d, x, q, y);
        assert(r == rd.push(s.last()));
        assert(r.contains(y) == (rd.contains(y) || y == s.last())) by {
            if rd.contains(y) {
                let m = choose|m: int| 0 <= m < rd.len() && rd[m] == y;
                assert(r[m] == y);
            }
            if r.contains(y) {
                let m = choose|m: int| 0 <= m < r.len() && r[m] == y;
                if m < rd.len() {
                    assert(rd[m] == y);
                } else {
                    assert(y == s.last());
                }
            }
            if y == s.last() {
                assert(r[r.len() - 1] == y);
            }
        }
        assert(s.contains(y) == (d.contains(y) || y == s.last())) by {
            if d.contains(y) {
                let m = choose|m: int| 0 <= m < d.len() && d[m] == y;
                assert(s[m] == y);
            }
            if s.contains(y) {
                let m = choose|m: int| 0 <= m < s.len() && s[m] == y;
                if m < d.len() {
                    assert(d[m] == y);
                } else {
                    assert(y == s.last());
                }
            }
            if y == s.last() {
                assert(s[s.len() - 1] == y);
            }
        }
    } else {
        assert(r == s.push(x));
        assert(r.contains(y) == (s.contains(y) || y == x)) by {
            if s.contains(y) {
                let m = choose|m: int| 0 <= m < s.len() && s[m] == y;
                assert(r[m] == y);
            }
            if r.contains(y) {
                let m = choose|m: int| 0 <= m < r.len() && r[m] == y;
                if m < s.len() {
                    assert(s[m] == y);
                } else {
                    assert(y == x);
                }
            }
            if y == x {
                assert(r[r.len() - 1] == y);
            }
        }
    }
}

/// No result is ranked strictly before one that stands earlier.
pub open spec fn sorted_by_rank(s: Seq<WordResultView>, q: Seq<char>) -> bool {
    forall|i: int, j: int| 0 <= i < j < s.len() ==> !res_lt(q, #[trigger] s[j], #[trigger] s[i])
}

/// `insert_ranked` keeps the results sorted by rank.
pub proof fn lemma_insert_ranked_sorted(s: Seq<WordResultView>, x: WordResultView, q: Seq<char>)
    requires
        sorted_by_rank(s, q),
    ensures
        sorted_by_rank(insert_ranked(s, x, q), q),
    decreases s.len(),
{
    let r = insert_ranked(s, x, q);
    if s.len() == 0 {
    } else if res_lt(q, x, s.last()) {
        let d = s.drop_last();
        let rd = insert_ranked(d, x, q);
        assert(sorted_by_rank(d, q)) by {
            assert(forall|i: int, j: int| 0 <= i < j < d.len() ==> d[i] == s[i] && d[j] == s[j]);
        }
        lemma_insert_ranked_sorted(d, x, q);
        assert(r == rd.push(s.last()));
        assert forall|i: int, j: int| 0 <= i < j < r.len() implies !res_lt(
            q,
            #[trigger] r[j],
            #[trigger] r[i],
        ) by {
            if j < r.len() - 1 {
                assert(r[i] == rd[i] && r[j] == rd[j]);
            } else {
                assert(r[j] == s.last());
                assert(r[i] == rd[i]);
                lemma_insert_ranked_elem(d, x, q, rd[i]);
                assert(rd.contains(rd[i]));
                if rd[i] == x {
                    lemma_res_lt_asym(q, x, s.last());
                } else {
                    assert(d.contains(rd[i]));
                    let m = choose|m: int| 0 <= m < d.len() && d[m] == rd[i];
                    assert(d[m] == s[m]);
                    assert(!res_lt(q, s.last(), s[m])) by {
                        assert(s.last() == s[s.len() - 1]);
                    }
                }
            }
        }
    } else {
        assert(r == s.push(x));
        assert forall|i: int, j: int| 0 <= i < j < r.len() implies !res_lt(
            q,
            #[trigger] r[j],
            #[trigger] r[i],
        ) by {
            if j < r.len() - 1 {
                assert(r[i] == s[i] && r[j] == s[j]);
            } else {
                assert(r[j] == x);
                assert(r[i] == s[i]);
                if i < s.len() - 1 {
                    assert(!res_lt(q, s.last(), s[i])) by {
                        assert(s.last() == s[s.len() - 1]);
                    }
                    lemma_res_lt_neg_trans(q, s[i], s.last(), x);
                } else {
                    assert(s[i] == s.last());
                }
            }
        }
    }
}

/// Ranking a concatenation ranks the two parts one after the other.
pub proof fn lemma_rank_into_concat(
    acc: Seq<WordResultView>,
    a: Seq<WordResultView>,
    b: Seq<WordResultView>,
    q: Seq<char>,
)
    ensures
        rank_into(acc, a + b, q) == rank_into(rank_into(acc, a, q), b, q),
    decreases a.len(),
{
    if a.len() == 0 {
        assert(a + b =~= b);
    } else {
        let ab = a + b;
        assert(ab[0] == a[0]);
        assert(ab.subrange(1, ab.len() as int) =~= a.subrange(1, a.len() as int) + b);
        lemma_rank_into_concat(insert_ranked(acc, a[0], q), a.subrange(1, a.len() as int), b, q);
    }
}

/// Ranking keeps the accumulated results sorted.
pub proof fn lemma_rank_into_sorted(
    acc: Seq<WordResultView>,
    xs: Seq<WordResultView>,
    q: Seq<char>,
)
    requires
        sorted_by_rank(acc, q),
    ensures
        sorted_by_rank(rank_into(acc, xs, q), q),
    decreases xs.len(),
{
    if xs.len() > 0 {
        lemma_insert_ranked_sorted(acc, xs[0], q);
        lemma_rank_into_sorted(insert_ranked(acc, xs[0], q), xs.subrange(1, xs.len() as int), q);
    }
}

/// Ranking neither loses nor invents results.
pub proof fn lemma_rank_into_elem(
    acc: Seq<WordResultView>,
    xs: Seq<WordResultView>,
    q: Seq<char>,
    y: WordResultView,
)
    ensures
        rank_into(acc, xs, q).len() == acc.len() + xs.len(),
        rank_into(acc, xs, q).contains(y) == (acc.contains(y) || xs.contains(y)),
    decreases xs.len(),
{
    if xs.len() == 0 {
        if xs.contains(y) {
            let m = choose|m: int| 0 <= m < xs.len() && xs[m] == y;
            assert(false);
        }
    } else {
        let acc1 = insert_ranked(acc, xs[0], q);
        let rest = xs.subrange(1, xs.len() as int);
        lemma_insert_ranked_elem(acc, xs[0], q, y);
        lemma_rank_into_elem(acc1, rest, q, y);
        assert(xs.contains(y) == (y == xs[0] || rest.contains(y))) by {
            if xs.contains(y) {
                let m = choose|m: int| 0 <= m < xs.len() && xs[m] == y;
                if m > 0 {
                    assert(rest[m - 1] == y);
                }
            }
            if rest.contains(y) {
                let m = choose|m: int| 0 <= m < rest.len() && rest[m] == y;
                assert(xs[m + 1] == y);
            }
        }
    }
}

/// Inserts a result at its ranked position, after equally ranked results
/// already present.
pub(crate) fn insert_result(
    v: &mut Vec<WordResult>,
    r: WordResult,
    qlow: &String,
    Ghost(q): Ghost<Seq<char>>,
)
    requires
        qlow@ == lower_of(q),
    ensures
        results_views(final(v)@) == insert_ranked(results_views(old(v)@), r@, q),
{
    let ghost s = results_views(v@);
    let mut j: usize = v.len();
    while j > 0 && result_precedes(&r, &v[j - 1], qlow, Ghost(q))
        invariant
            0 <= j <= v@.len(),
            s == results_views(v@),
            qlow@ == lower_of(q),
            forall|k: int| j <= k < s.len() ==> res_lt(q, r@, #[trigger] s[k]),
        decreases j,
    {
        j = j - 1;
    }
    proof {
        lemma_insert_ranked_at(s, r@, q, j as int);
    }
    v.insert(j, r);
    proof {
        assert(results_views(v@) =~= s.insert(j as int, r@));
    }
}

} // verus!
