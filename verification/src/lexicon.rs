//! The lexicon: an immutable word-to-syllable-count index built once
//! from a tabular source, with case-insensitive lookup and a
//! count-to-words bucket for the generator.
//!
//! Rows whose syllable count exceeds `MAX_SYLLABLES` are dropped at
//! build time. Rows whose words agree after case folding are
//! duplicates; the last one wins and the earlier ones are dropped, so
//! lookup and the buckets always agree.

use vstd::prelude::*;
use crate::MAX_SYLLABLES;
use crate::text::{
    chars_of, copy_range, dec_value, eq_chars, parse_u32, split_chars, split_sep, string_of,
    to_lower_seq, to_lower_vec, valid_u32,
};

verus! {

/// The mathematical model of a lexicon: the retained rows in load
/// order, each a word (in source casing) with its syllable count.
pub type LexModel = Seq<(Seq<char>, u32)>;

/// A row of the lexicon source.
pub struct WordEntry {
    pub word: String,
    pub syllables: u32,
}

impl View for WordEntry {
    type V = (Seq<char>, u32);

    open spec fn view(&self) -> (Seq<char>, u32) {
        (self.word@, self.syllables)
    }
}

impl DeepView for WordEntry {
    type V = (Seq<char>, u32);

    open spec fn deep_view(&self) -> (Seq<char>, u32) {
        self.view()
    }
}

/// Why a lexicon source is rejected.
#[derive(Debug, Clone, Copy, PartialEq, Eq, Structural)]
pub enum LoadError {
    /// The source holds no data row.
    EmptySource,
    /// A data row is not a word followed by a syllable count.
    MalformedRow,
}

/// Why a bucket request fails.
#[derive(Debug, Clone, Copy, PartialEq, Eq, Structural)]
pub enum LexiconError {
    /// The requested syllable count has no words.
    NoWordsForCount,
}

// ---------------------------------------------------------------------------
// The model and its derived functions
// ---------------------------------------------------------------------------

/// The key a row is indexed under: its word after case folding.
pub open spec fn entry_key(e: (Seq<char>, u32)) -> Seq<char> {
    to_lower_seq(e.0)
}

/// The rows of `m` whose key is not `w`, in order.
pub open spec fn strip_key(m: LexModel, w: Seq<char>) -> LexModel
    decreases m.len(),
{
    if m.len() == 0 {
        m
    } else {
        let rest = strip_key(m.drop_last(), w);
        if entry_key(m.last()) == w {
            rest
        } else {
            rest.push(m.last())
        }
    }
}

/// Duplicate resolution: of rows sharing a key, only the last is kept,
/// standing at its own position.
pub open spec fn dedup_last(rows: LexModel) -> LexModel
    decreases rows.len(),
{
    if rows.len() == 0 {
        rows
    } else {
        strip_key(dedup_last(rows.drop_last()), entry_key(rows.last())).push(rows.last())
    }
}

/// The rows whose syllable count does not exceed the cap, in order.
pub open spec fn cap_filter(rows: LexModel) -> LexModel
    decreases rows.len(),
{
    if rows.len() == 0 {
        rows
    } else {
        let rest = cap_filter(rows.drop_last());
        if rows.last().1 <= MAX_SYLLABLES {
            rest.push(rows.last())
        } else {
            rest
        }
    }
}

/// What a built lexicon retains of the source rows.
pub open spec fn kept(rows: LexModel) -> LexModel {
    dedup_last(cap_filter(rows))
}

/// Case-insensitive lookup of the folded word `w`; the last matching
/// row wins.
pub open spec fn lex_lookup(m: LexModel, w: Seq<char>) -> Option<u32>
    decreases m.len(),
{
    if m.len() == 0 {
        None
    } else if entry_key(m.last()) == w {
        Some(m.last().1)
    } else {
        lex_lookup(m.drop_last(), w)
    }
}

/// The words (in source casing) whose syllable count is `c`, in load
/// order.
pub open spec fn bucket(m: LexModel, c: u32) -> Seq<Seq<char>>
    decreases m.len(),
{
    if m.len() == 0 {
        Seq::empty()
    } else {
        let rest = bucket(m.drop_last(), c);
        if m.last().1 == c {
            rest.push(m.last().0)
        } else {
            rest
        }
    }
}

pub open spec fn keys_distinct(m: LexModel) -> bool {
    forall|i: int, j: int| 0 <= i < j < m.len() ==> entry_key(m[i]) != entry_key(m[j])
}

pub open spec fn counts_capped(m: LexModel) -> bool {
    forall|i: int| 0 <= i < m.len() ==> (#[trigger] m[i]).1 <= MAX_SYLLABLES
}

/// A lexicon model is well formed when its keys are distinct and its
/// counts respect the cap.
pub open spec fn model_wf(m: LexModel) -> bool {
    keys_distinct(m) && counts_capped(m)
}

/// The syllable sum of a word sequence under lexicon `m`: the sum of
/// the looked-up counts, or nothing if any word is unknown.
pub open spec fn phrase_sum(m: LexModel, ws: Seq<Seq<char>>) -> Option<int>
    decreases ws.len(),
{
    if ws.len() == 0 {
        Some(0int)
    } else {
        match lex_lookup(m, to_lower_seq(ws.first())) {
            None => None,
            Some(c) => match phrase_sum(m, ws.drop_first()) {
                None => None,
                Some(s) => Some(c + s),
            },
        }
    }
}

// ---------------------------------------------------------------------------
// Lemmas about the model
// ---------------------------------------------------------------------------

pub proof fn lemma_strip_key_concat(a: LexModel, b: LexModel, w: Seq<char>)
    ensures
        strip_key(a + b, w) == strip_key(a, w) + strip_key(b, w),
    decreases b.len(),
{
    if b.len() == 0 {
        assert(a + b =~= a);
        assert(strip_key(a, w) + strip_key(b, w) =~= strip_key(a, w));
    } else {
        assert((a + b).drop_last() =~= a + b.drop_last());
        assert((a + b).last() == b.last());
        lemma_strip_key_concat(a, b.drop_last(), w);
        if entry_key(b.last()) != w {
            assert((strip_key(a, w) + strip_key(b.drop_last(), w)).push(b.last()) =~= strip_key(
                a,
                w,
            ) + strip_key(b.drop_last(), w).push(b.last()));
        }
    }
}

/// Stripping a key removes exactly the rows under that key and keeps
/// the others, preserving order, distinctness and the cap.
pub proof fn lemma_strip_key(m: LexModel, w: Seq<char>)
    ensures
        forall|i: int|
            0 <= i < strip_key(m, w).len() ==> entry_key(#[trigger] strip_key(m, w)[i]) != w,
        forall|i: int|
            0 <= i < strip_key(m, w).len() ==> m.contains(#[trigger] strip_key(m, w)[i]),
        keys_distinct(m) ==> keys_distinct(strip_key(m, w)),
        counts_capped(m) ==> counts_capped(strip_key(m, w)),
        strip_key(m, w).len() <= m.len(),
    decreases m.len(),
{
    if m.len() > 0 {
        lemma_strip_key(m.drop_last(), w);
        let rest = strip_key(m.drop_last(), w);
        assert(forall|i: int|
            0 <= i < m.drop_last().len() ==> m.drop_last()[i] == m[i] && m.contains(m[i]));
        assert(m.contains(m.last())) by {
            assert(m[m.len() - 1] == m.last());
        }
        if entry_key(m.last()) != w {
            assert(forall|i: int|
                0 <= i < rest.len() ==> #[trigger] rest.push(m.last())[i] == rest[i]);
            assert(rest.push(m.last())[rest.len() as int] == m.last());
            if keys_distinct(m) {
                assert(keys_distinct(m.drop_last()));
                assert forall|i: int, j: int|
                    0 <= i < j < rest.push(m.last()).len() implies entry_key(
                    rest.push(m.last())[i],
                ) != entry_key(rest.push(m.last())[j]) by {
                    if j < rest.len() {
                    } else {
                        // rest[i] is a row of m.drop_last(); its key differs
                        // from the last row's key because keys are distinct.
                        let e = rest[i];
                        assert(m.drop_last().contains(e));
                        let x = choose|x: int| 0 <= x < m.drop_last().len() && m.drop_last()[x] == e;
                        assert(m[x] == e);
                        assert(entry_key(m[x]) != entry_key(m[m.len() - 1]));
                    }
                }
            }
        }
    }
}

/// Deduplication leaves distinct keys and preserves the cap.
pub proof fn lemma_dedup_wf(rows: LexModel)
    ensures
        keys_distinct(dedup_last(rows)),
        counts_capped(rows) ==> counts_capped(dedup_last(rows)),
    decreases rows.len(),
{
    if rows.len() > 0 {
        lemma_dedup_wf(rows.drop_last());
        let key = entry_key(rows.last());
        let stripped = strip_key(dedup_last(rows.drop_last()), key);
        lemma_strip_key(dedup_last(rows.drop_last()), key);
        let out = stripped.push(rows.last());
        assert(forall|i: int| 0 <= i < stripped.len() ==> #[trigger] out[i] == stripped[i]);
        assert(out[stripped.len() as int] == rows.last());
        assert(keys_distinct(out));
        if counts_capped(rows) {
            assert(counts_capped(rows.drop_last()));
            assert(rows[rows.len() - 1].1 <= MAX_SYLLABLES);
            assert(counts_capped(out));
        }
    }
}

pub proof fn lemma_cap_filter_capped(rows: LexModel)
    ensures
        counts_capped(cap_filter(rows)),
    decreases rows.len(),
{
    if rows.len() > 0 {
        lemma_cap_filter_capped(rows.drop_last());
        let rest = cap_filter(rows.drop_last());
        if rows.last().1 <= MAX_SYLLABLES {
            assert(forall|i: int|
                0 <= i < rest.len() ==> #[trigger] rest.push(rows.last())[i] == rest[i]);
            assert(rest.push(rows.last())[rest.len() as int] == rows.last());
        }
    }
}

/// What a built lexicon retains is well formed.
pub proof fn lemma_kept_wf(rows: LexModel)
    ensures
        model_wf(kept(rows)),
{
    lemma_cap_filter_capped(rows);
    lemma_dedup_wf(cap_filter(rows));
}

pub proof fn lemma_bucket_mem(m: LexModel, c: u32, w: Seq<char>)
    requires
        bucket(m, c).contains(w),
    ensures
        exists|j: int| 0 <= j < m.len() && (#[trigger] m[j]).0 == w && m[j].1 == c,
    decreases m.len(),
{
    if m.len() > 0 {
        let rest = bucket(m.drop_last(), c);
        if m.last().1 == c {
            let i = choose|i: int| 0 <= i < rest.push(m.last().0).len() && rest.push(
                m.last().0,
            )[i] == w;
            if i < rest.len() {
                assert(rest.contains(w));
                lemma_bucket_mem(m.drop_last(), c, w);
                let j = choose|j: int|
                    0 <= j < m.drop_last().len() && (#[trigger] m.drop_last()[j]).0 == w
                        && m.drop_last()[j].1 == c;
                assert(m[j].0 == w && m[j].1 == c);
            } else {
                assert(m[m.len() - 1].0 == w && m[m.len() - 1].1 == c);
            }
        } else {
            lemma_bucket_mem(m.drop_last(), c, w);
            let j = choose|j: int|
                0 <= j < m.drop_last().len() && (#[trigger] m.drop_last()[j]).0 == w
                    && m.drop_last()[j].1 == c;
            assert(m[j].0 == w && m[j].1 == c);
        }
    }
}

/// A word standing in the bucket for `c` looks up to exactly `c`, as
/// long as keys are distinct.
pub proof fn lemma_bucket_lookup(m: LexModel, c: u32, w: Seq<char>)
    requires
        keys_distinct(m),
        bucket(m, c).contains(w),
    ensures
        lex_lookup(m, to_lower_seq(w)) == Some(c),
    decreases m.len(),
{
    lemma_bucket_mem(m, c, w);
    let j = choose|j: int| 0 <= j < m.len() && (#[trigger] m[j]).0 == w && m[j].1 == c;
    if entry_key(m.last()) == to_lower_seq(w) {
        if j < m.len() - 1 {
            assert(entry_key(m[j]) == to_lower_seq(w));
            assert(entry_key(m[j]) != entry_key(m[m.len() - 1]));
            assert(false);
        }
        assert(m.last().1 == c);
    } else {
        assert(j < m.len() - 1) by {
            if j == m.len() - 1 {
                assert(entry_key(m.last()) == to_lower_seq(w));
            }
        }
        assert(keys_distinct(m.drop_last()));
        assert(bucket(m.drop_last(), c).contains(w)) by {
            assert(m.drop_last()[j] == m[j]);
            lemma_bucket_mem_rev(m.drop_last(), c, j);
        }
        lemma_bucket_lookup(m.drop_last(), c, w);
    }
}

pub proof fn lemma_bucket_mem_rev(m: LexModel, c: u32, j: int)
    requires
        0 <= j < m.len(),
        (#[trigger] m[j]).1 == c,
    ensures
        bucket(m, c).contains(m[j].0),
    decreases m.len(),
{
    if j == m.len() - 1 {
        let rest = bucket(m.drop_last(), c);
        assert(rest.push(m.last().0)[rest.len() as int] == m[j].0);
    } else {
        lemma_bucket_mem_rev(m.drop_last(), c, j);
        let rest = bucket(m.drop_last(), c);
        let i = choose|i: int| 0 <= i < rest.len() && rest[i] == m.drop_last()[j].0;
        if m.last().1 == c {
            assert(rest.push(m.last().0)[i] == m[j].0);
        }
    }
}

/// Under a well-formed model every indexed word respects the cap: no
/// lookup exceeds `MAX_SYLLABLES` and every bucket above it is empty.
pub proof fn lemma_cap_respected(m: LexModel, w: Seq<char>, c: u32)
    requires
        model_wf(m),
    ensures
        lex_lookup(m, w) matches Some(n) ==> n <= MAX_SYLLABLES,
        c > MAX_SYLLABLES ==> bucket(m, c).len() == 0,
    decreases m.len(),
{
    if m.len() > 0 {
        assert(m[m.len() - 1].1 <= MAX_SYLLABLES);
        assert(model_wf(m.drop_last())) by {
            assert(forall|i: int|
                0 <= i < m.drop_last().len() ==> m.drop_last()[i] == (#[trigger] m[i]));
        }
        lemma_cap_respected(m.drop_last(), w, c);
    }
}

pub proof fn lemma_phrase_sum_push(m: LexModel, ws: Seq<Seq<char>>, w: Seq<char>)
    ensures
        phrase_sum(m, ws.push(w)) == (match lex_lookup(m, to_lower_seq(w)) {
            Some(c) => match phrase_sum(m, ws) {
                Some(s) => Some(s + c),
                None => None,
            },
            None => None::<int>,
        }),
    decreases ws.len(),
{
    if ws.len() == 0 {
        assert(ws.push(w).drop_first() =~= ws);
        assert(ws.push(w).first() == w);
    } else {
        assert(ws.push(w).drop_first() =~= ws.drop_first().push(w));
        assert(ws.push(w).first() == ws.first());
        lemma_phrase_sum_push(m, ws.drop_first(), w);
    }
}

pub proof fn lemma_phrase_sum_nonneg(m: LexModel, ws: Seq<Seq<char>>)
    ensures
        phrase_sum(m, ws) matches Some(s) ==> s >= 0,
    decreases ws.len(),
{
    if ws.len() > 0 {
        lemma_phrase_sum_nonneg(m, ws.drop_first());
    }
}

/// Acceptance is case-insensitive: a word sequence carries the same
/// syllable sum as its case-folded form.
pub proof fn lemma_sum_case_insensitive(m: LexModel, ws: Seq<Seq<char>>)
    ensures
        phrase_sum(m, ws) == phrase_sum(m, crate::text::lower_all(ws)),
    decreases ws.len(),
{
    let folded = crate::text::lower_all(ws);
    if ws.len() > 0 {
        crate::text::lemma_lower_idempotent(ws.first());
        assert(folded.first() == to_lower_seq(ws.first()));
        assert(to_lower_seq(folded.first()) == to_lower_seq(ws.first()));
        assert(folded.drop_first() =~= crate::text::lower_all(ws.drop_first()));
        lemma_sum_case_insensitive(m, ws.drop_first());
        assert(folded.len() == ws.len());
    }
}

/// The sum over a sequence splits over any cut into prefix and suffix.
pub proof fn lemma_phrase_sum_split(m: LexModel, ws: Seq<Seq<char>>, k: int)
    requires
        0 <= k <= ws.len(),
    ensures
        phrase_sum(m, ws) == (match phrase_sum(m, ws.take(k)) {
            Some(a) => match phrase_sum(m, ws.skip(k)) {
                Some(b) => Some(a + b),
                None => None,
            },
            None => None::<int>,
        }),
    decreases k,
{
    if k == 0 {
        assert(ws.take(0) =~= Seq::<Seq<char>>::empty());
        assert(ws.skip(0) =~= ws);
    } else {
        assert(ws.len() > 0);
        lemma_phrase_sum_split(m, ws.drop_first(), k - 1);
        assert(ws.take(k).first() == ws.first());
        assert(ws.take(k).drop_first() =~= ws.drop_first().take(k - 1));
        assert(ws.skip(k) =~= ws.drop_first().skip(k - 1));
        assert(ws.take(k).len() > 0);
    }
}

// ---------------------------------------------------------------------------
// The executable lexicon
// ---------------------------------------------------------------------------

struct Entry {
    word: String,
    lower: Vec<char>,
    syllables: u32,
}

/// The immutable index: built once, read-only thereafter.
pub struct Lexicon {
    entries: Vec<Entry>,
}

spec fn entries_model(es: Seq<Entry>) -> LexModel {
    Seq::new(es.len(), |i: int| (es[i].word@, es[i].syllables))
}

spec fn entries_inv(es: Seq<Entry>) -> bool {
    forall|i: int| 0 <= i < es.len() ==> (#[trigger] es[i]).lower@ == to_lower_seq(es[i].word@)
}

impl View for Lexicon {
    type V = LexModel;

    closed spec fn view(&self) -> LexModel {
        entries_model(self.entries@)
    }
}

impl Lexicon {
    /// The lexicon's internal invariant: cached folded keys match the
    /// words, keys are distinct, counts respect the cap.
    pub closed spec fn wf(&self) -> bool {
        entries_inv(self.entries@) && model_wf(self@)
    }

    pub proof fn lemma_wf_model(&self)
        requires
            self.wf(),
        ensures
            model_wf(self@),
    {
    }

    /// Builds the index from rows already in memory: rows over the
    /// syllable cap are dropped, and of rows sharing a case-folded
    /// word only the last is kept.
    pub fn from_entries(rows: &Vec<WordEntry>) -> (r: Lexicon)
        ensures
            r.wf(),
            r@ == kept(rows.deep_view()),
    {
        let ghost full = rows.deep_view();
        let mut entries: Vec<Entry> = Vec::new();
        let mut i: usize = 0;
        proof {
            assert(full.take(0) =~= Seq::<(Seq<char>, u32)>::empty());
            assert(entries_model(entries@) =~= kept(full.take(0)));
        }
        while i < rows.len()
            invariant
                i <= rows@.len(),
                full == rows.deep_view(),
                entries_inv(entries@),
                entries_model(entries@) == kept(full.take(i as int)),
            decreases rows@.len() - i,
        {
            let syl = rows[i].syllables;
            proof {
                assert(full.take(i + 1).drop_last() =~= full.take(i as int));
                assert(full.take(i + 1).last() == full[i as int]);
            }
            if syl <= MAX_SYLLABLES {
                let wchars = chars_of(rows[i].word.as_str());
                let lower = to_lower_vec(&wchars);
                entries = strip_entries(entries, &lower);
                let ghost before = entries_model(entries@);
                entries.push(
                    Entry { word: rows[i].word.clone(), lower, syllables: syl },
                );
                proof {
                    assert(entries_model(entries@) =~= before.push(
                        (full[i as int].0, full[i as int].1),
                    ));
                    assert((full[i as int].0, full[i as int].1) == full[i as int]);
                    assert(cap_filter(full.take(i + 1)) == cap_filter(full.take(i as int)).push(
                        full[i as int],
                    ));
                    assert(cap_filter(full.take(i + 1)).drop_last() =~= cap_filter(
                        full.take(i as int),
                    ));
                    assert(cap_filter(full.take(i + 1)).last() == full[i as int]);
                    assert(cap_filter(full.take(i + 1)).len() > 0);
                    assert(dedup_last(cap_filter(full.take(i + 1))) == strip_key(
                        dedup_last(cap_filter(full.take(i as int))),
                        entry_key(full[i as int]),
                    ).push(full[i as int]));
                    assert(entries_inv(entries@)) by {
                        assert(forall|k: int|
                            0 <= k < entries@.len() - 1 ==> entries@[k]
                                == entries@.subrange(0, entries@.len() - 1)[k]);
                    }
                }
            } else {
                proof {
                    assert(cap_filter(full.take(i + 1)) == cap_filter(full.take(i as int)));
                }
            }
            i = i + 1;
        }
        proof {
            assert(full.take(full.len() as int) =~= full);
            lemma_kept_wf(full);
        }
        Lexicon { entries }
    }

    /// Case-insensitive lookup of a word's syllable count.
    pub fn lookup_count(&self, word: &str) -> (r: Option<u32>)
        requires
            self.wf(),
        ensures
            r == lex_lookup(self@, to_lower_seq(word@)),
    {
        let w = chars_of(word);
        self.lookup_chars(&w)
    }

    /// Case-insensitive lookup, the word given as characters.
    pub(crate) fn lookup_chars(&self, word: &Vec<char>) -> (r: Option<u32>)
        requires
            self.wf(),
        ensures
            r == lex_lookup(self@, to_lower_seq(word@)),
    {
        let q = to_lower_vec(word);
        let mut i: usize = self.entries.len();
        proof {
            assert(self@.take(i as int) =~= self@);
        }
        while i > 0
            invariant
                i <= self.entries@.len(),
                self.wf(),
                q@ == to_lower_seq(word@),
                lex_lookup(self@, to_lower_seq(word@)) == lex_lookup(
                    self@.take(i as int),
                    q@,
                ),
            decreases i,
        {
            proof {
                assert(self@.take(i as int).last() == self@[i - 1]);
                assert(self@.take(i as int).drop_last() =~= self@.take(i - 1));
                assert(entry_key(self@[i - 1]) == self.entries@[i - 1].lower@);
            }
            if eq_chars(&self.entries[i - 1].lower, &q) {
                return Some(self.entries[i - 1].syllables);
            }
            i = i - 1;
        }
        proof {
            assert(self@.take(0) =~= Seq::<(Seq<char>, u32)>::empty());
        }
        None
    }

    /// Whether any word carries exactly `c` syllables.
    pub fn has_words(&self, c: u32) -> (r: bool)
        requires
            self.wf(),
        ensures
            r == (bucket(self@, c).len() > 0),
    {
        let mut i: usize = 0;
        while i < self.entries.len()
            invariant
                i <= self.entries@.len(),
                self.wf(),
                bucket(self@.take(i as int), c).len() == 0,
            decreases self.entries@.len() - i,
        {
            proof {
                assert(self@.take(i + 1).last() == self@[i as int]);
                assert(self@.take(i + 1).drop_last() =~= self@.take(i as int));
            }
            if self.entries[i].syllables == c {
                proof {
                    assert(self@.take(self@.len() as int) =~= self@);
                    lemma_bucket_len_mono(self@, c, i + 1);
                }
                return true;
            }
            i = i + 1;
        }
        proof {
            assert(self@.take(self@.len() as int) =~= self@);
        }
        false
    }

    /// The words carrying exactly `c` syllables, in load order, or
    /// `NoWordsForCount` if there are none.
    pub fn words_for_count(&self, c: u32) -> (r: Result<Vec<String>, LexiconError>)
        requires
            self.wf(),
        ensures
            (match r {
                Ok(ws) => ws.deep_view() == bucket(self@, c) && ws@.len() > 0,
                Err(e) => bucket(self@, c).len() == 0 && e == LexiconError::NoWordsForCount,
            }),
    {
        let mut out: Vec<String> = Vec::new();
        let mut i: usize = 0;
        proof {
            assert(out.deep_view() =~= bucket(self@.take(0), c));
        }
        while i < self.entries.len()
            invariant
                i <= self.entries@.len(),
                self.wf(),
                out.deep_view() == bucket(self@.take(i as int), c),
            decreases self.entries@.len() - i,
        {
            proof {
                assert(self@.take(i + 1).last() == self@[i as int]);
                assert(self@.take(i + 1).drop_last() =~= self@.take(i as int));
            }
            if self.entries[i].syllables == c {
                let ghost before = out.deep_view();
                out.push(self.entries[i].word.clone());
                proof {
                    assert(out.deep_view() =~~= before.push(self@[i as int].0));
                }
            }
            i = i + 1;
        }
        proof {
            assert(self@.take(self@.len() as int) =~= self@);
        }
        if out.len() == 0 {
            proof {
                assert(out.deep_view().len() == 0);
            }
            Err(LexiconError::NoWordsForCount)
        } else {
            Ok(out)
        }
    }
}

/// The bucket of a prefix never holds more than the bucket of the
/// whole model.
pub proof fn lemma_bucket_len_mono(m: LexModel, c: u32, k: int)
    requires
        0 <= k <= m.len(),
    ensures
        bucket(m.take(k), c).len() <= bucket(m, c).len(),
    decreases m.len() - k,
{
    if k < m.len() {
        lemma_bucket_len_mono(m, c, k + 1);
        assert(m.take(k + 1).drop_last() =~= m.take(k));
        assert(m.take(k + 1).last() == m[k]);
    } else {
        assert(m.take(k) =~= m);
    }
}

fn strip_entries(entries: Vec<Entry>, key: &Vec<char>) -> (r: Vec<Entry>)
    requires
        entries_inv(entries@),
    ensures
        entries_inv(r@),
        entries_model(r@) == strip_key(entries_model(entries@), key@),
{
    let ghost orig = entries_model(entries@);
    let mut src = entries;
    let mut out: Vec<Entry> = Vec::new();
    proof {
        assert(entries_model(out@) + strip_key(entries_model(src@), key@) =~= strip_key(
            orig,
            key@,
        ));
    }
    while src.len() > 0
        invariant
            entries_inv(src@),
            entries_inv(out@),
            entries_model(out@) + strip_key(entries_model(src@), key@) == strip_key(orig, key@),
        decreases src@.len(),
    {
        let ghost src_before = entries_model(src@);
        let ghost src_seq = src@;
        let e = src.remove(0);
        proof {
            assert(src_seq[0].lower@ == to_lower_seq(src_seq[0].word@));
            assert(e.lower@ == to_lower_seq(e.word@));
            assert(src_before =~= seq![(e.word@, e.syllables)] + entries_model(src@));
            lemma_strip_key_concat(
                seq![(e.word@, e.syllables)],
                entries_model(src@),
                key@,
            );
            let single = seq![(e.word@, e.syllables)];
            assert(single.drop_last() =~= Seq::<(Seq<char>, u32)>::empty());
            assert(single.last() == (e.word@, e.syllables));
            assert(strip_key(Seq::<(Seq<char>, u32)>::empty(), key@) == Seq::<(
                Seq<char>,
                u32,
            )>::empty());
            assert(strip_key(single, key@) == (if entry_key((e.word@, e.syllables)) == key@ {
                Seq::<(Seq<char>, u32)>::empty()
            } else {
                Seq::<(Seq<char>, u32)>::empty().push((e.word@, e.syllables))
            }));
            assert(Seq::<(Seq<char>, u32)>::empty().push((e.word@, e.syllables)) =~= single);
        }
        if eq_chars(&e.lower, key) {
            proof {
                assert(entry_key((e.word@, e.syllables)) == key@);
                assert(strip_key(seq![(e.word@, e.syllables)], key@) =~= Seq::<(
                    Seq<char>,
                    u32,
                )>::empty());
                assert(Seq::<(Seq<char>, u32)>::empty() + strip_key(entries_model(src@), key@)
                    =~= strip_key(entries_model(src@), key@));
            }
        } else {
            let ghost before = entries_model(out@);
            out.push(e);
            proof {
                assert(entry_key((e.word@, e.syllables)) != key@);
                assert(strip_key(seq![(e.word@, e.syllables)], key@) =~= seq![
                    (e.word@, e.syllables),
                ]);
                assert(entries_model(out@) =~= before.push((e.word@, e.syllables)));
                assert(before.push((e.word@, e.syllables)) + strip_key(
                    entries_model(src@),
                    key@,
                ) =~= before + (seq![(e.word@, e.syllables)] + strip_key(
                    entries_model(src@),
                    key@,
                )));
                assert(entries_inv(out@)) by {
                    assert(forall|k: int|
                        0 <= k < out@.len() - 1 ==> out@[k] == out@.subrange(
                            0,
                            out@.len() - 1,
                        )[k]);
                }
            }
        }
    }
    proof {
        assert(entries_model(src@) =~= Seq::<(Seq<char>, u32)>::empty());
        assert(entries_model(out@) + Seq::<(Seq<char>, u32)>::empty() =~= entries_model(out@));
    }
    out
}

// ---------------------------------------------------------------------------
// Loading from the tabular source
// ---------------------------------------------------------------------------

/// A line with one trailing carriage return removed.
pub open spec fn strip_cr(line: Seq<char>) -> Seq<char> {
    if line.len() > 0 && line.last() == '\r' {
        line.drop_last()
    } else {
        line
    }
}

/// The lines, carriage returns stripped, with empty lines dropped.
pub open spec fn clean_lines(ls: Seq<Seq<char>>) -> Seq<Seq<char>>
    decreases ls.len(),
{
    if ls.len() == 0 {
        Seq::empty()
    } else {
        let rest = clean_lines(ls.drop_last());
        let l = strip_cr(ls.last());
        if l.len() > 0 {
            rest.push(l)
        } else {
            rest
        }
    }
}

/// The data lines of a source: everything after the header line.
pub open spec fn data_lines(text: Seq<char>) -> Seq<Seq<char>> {
    clean_lines(split_sep(text, '\n').drop_first())
}

/// A data row: a word and its syllable count, comma-separated.
pub open spec fn parse_row(line: Seq<char>) -> Option<(Seq<char>, u32)> {
    let fields = split_sep(line, ',');
    if fields.len() == 2 && valid_u32(fields[1]) {
        Some((fields[0], dec_value(fields[1]) as u32))
    } else {
        None
    }
}

pub open spec fn parse_rows(ls: Seq<Seq<char>>) -> Option<LexModel>
    decreases ls.len(),
{
    if ls.len() == 0 {
        Some(Seq::empty())
    } else {
        match (parse_rows(ls.drop_last()), parse_row(ls.last())) {
            (Some(rs), Some(r)) => Some(rs.push(r)),
            _ => None,
        }
    }
}

pub proof fn lemma_clean_concat(a: Seq<Seq<char>>, b: Seq<Seq<char>>)
    ensures
        clean_lines(a + b) == clean_lines(a) + clean_lines(b),
    decreases b.len(),
{
    if b.len() == 0 {
        assert(a + b =~= a);
        assert(clean_lines(a) + clean_lines(b) =~= clean_lines(a));
    } else {
        assert((a + b).drop_last() =~= a + b.drop_last());
        assert((a + b).last() == b.last());
        lemma_clean_concat(a, b.drop_last());
        if strip_cr(b.last()).len() > 0 {
            assert((clean_lines(a) + clean_lines(b.drop_last())).push(strip_cr(b.last()))
                =~= clean_lines(a) + clean_lines(b.drop_last()).push(strip_cr(b.last())));
        }
    }
}

/// A malformed row anywhere makes the whole parse fail.
pub proof fn lemma_parse_rows_prefix_fail(a: Seq<Seq<char>>, b: Seq<Seq<char>>)
    requires
        parse_rows(a) is None,
    ensures
        parse_rows(a + b) is None,
    decreases b.len(),
{
    if b.len() == 0 {
        assert(a + b =~= a);
    } else {
        assert((a + b).drop_last() =~= a + b.drop_last());
        lemma_parse_rows_prefix_fail(a, b.drop_last());
    }
}

pub proof fn lemma_parse_rows_len(ls: Seq<Seq<char>>)
    ensures
        parse_rows(ls) matches Some(rs) ==> rs.len() == ls.len(),
    decreases ls.len(),
{
    if ls.len() > 0 {
        lemma_parse_rows_len(ls.drop_last());
    }
}

/// Loads a lexicon from tabular text: a header line, then one
/// comma-separated `word,syllables` row per line. Fails on a malformed
/// row or on a source without data rows; rows over the syllable cap
/// are dropped and late duplicates win, as `from_entries` has it.
pub fn load(source: &str) -> (r: Result<Lexicon, LoadError>)
    ensures
        (match r {
            Ok(lex) => lex.wf() && data_lines(source@).len() > 0 && (parse_rows(
                data_lines(source@),
            ) matches Some(rows) && lex@ == kept(rows)),
            Err(LoadError::EmptySource) => data_lines(source@).len() == 0,
            Err(LoadError::MalformedRow) => data_lines(source@).len() > 0 && parse_rows(
                data_lines(source@),
            ) is None,
        }),
{
    let t = chars_of(source);
    let lines = split_chars(&t, '\n');
    let ghost all_lines = lines.deep_view();
    proof {
        assert(all_lines.len() >= 1);
        assert(all_lines.drop_first() =~= all_lines.subrange(1, all_lines.len() as int));
    }
    let mut rows: Vec<WordEntry> = Vec::new();
    let mut i: usize = 1;
    proof {
        assert(all_lines.subrange(1, 1) =~= Seq::<Seq<char>>::empty());
        assert(rows.deep_view() =~= Seq::<(Seq<char>, u32)>::empty());
    }
    while i < lines.len()
        invariant
            1 <= i <= all_lines.len(),
            all_lines == lines.deep_view(),
            all_lines == split_sep(t@, '\n'),
            t@ == source@,
            parse_rows(clean_lines(all_lines.subrange(1, i as int))) == Some(rows.deep_view()),
        decreases all_lines.len() - i,
    {
        let line_len = lines[i].len();
        let stripped: Vec<char> = if line_len > 0 && lines[i][line_len - 1] == '\r' {
            copy_range(&lines[i], 0, line_len - 1)
        } else {
            copy_range(&lines[i], 0, line_len)
        };
        proof {
            let cur = lines@[i as int]@;
            assert(all_lines[i as int] == cur);
            assert(cur.subrange(0, cur.len() as int) =~= cur);
            if cur.len() > 0 && cur.last() == '\r' {
                assert(cur.subrange(0, cur.len() - 1) =~= cur.drop_last());
            }
            assert(stripped@ == strip_cr(all_lines[i as int]));
            assert(all_lines.subrange(1, i + 1).drop_last() =~= all_lines.subrange(1, i as int));
            assert(all_lines.subrange(1, i + 1).last() == all_lines[i as int]);
        }
        if stripped.len() > 0 {
            let ghost clean_before = clean_lines(all_lines.subrange(1, i as int));
            proof {
                assert(clean_lines(all_lines.subrange(1, i + 1)) == clean_before.push(
                    stripped@,
                ));
                assert(clean_before.push(stripped@).drop_last() =~= clean_before);
                assert(clean_before.push(stripped@).last() == stripped@);
            }
            let fields = split_chars(&stripped, ',');
            let ok = fields.len() == 2;
            let parsed: Option<u32> = if ok {
                parse_u32(&fields[1])
            } else {
                None
            };
            match parsed {
                Some(n) => {
                    let word = string_of(&fields[0]);
                    let ghost rows_before = rows.deep_view();
                    rows.push(WordEntry { word, syllables: n });
                    proof {
                        assert(fields.deep_view()[0] == fields@[0]@);
                        assert(fields.deep_view()[1] == fields@[1]@);
                        assert(parse_row(stripped@) == Some((fields@[0]@, n)));
                        assert(rows.deep_view() =~= rows_before.push((fields@[0]@, n)));
                        assert(parse_rows(clean_before.push(stripped@)) == Some(
                            rows.deep_view(),
                        ));
                    }
                },
                None => {
                    proof {
                        assert(fields.deep_view().len() == fields@.len());
                        if ok {
                            assert(fields.deep_view()[1] == fields@[1]@);
                            assert(!valid_u32(fields.deep_view()[1]));
                        }
                        assert(parse_row(stripped@) is None);
                        assert(parse_rows(clean_lines(all_lines.subrange(1, i + 1))) is None);
                        assert(all_lines.subrange(1, all_lines.len() as int) =~= all_lines
                            .subrange(1, i + 1) + all_lines.subrange(
                            i + 1,
                            all_lines.len() as int,
                        ));
                        lemma_clean_concat(
                            all_lines.subrange(1, i + 1),
                            all_lines.subrange(i + 1, all_lines.len() as int),
                        );
                        lemma_parse_rows_prefix_fail(
                            clean_lines(all_lines.subrange(1, i + 1)),
                            clean_lines(all_lines.subrange(i + 1, all_lines.len() as int)),
                        );
                        assert(data_lines(source@).len() > 0);
                    }
                    return Err(LoadError::MalformedRow);
                },
            }
        } else {
            proof {
                assert(clean_lines(all_lines.subrange(1, i + 1)) == clean_lines(
                    all_lines.subrange(1, i as int),
                ));
            }
        }
        i = i + 1;
    }
    proof {
        assert(all_lines.subrange(1, i as int) =~= all_lines.drop_first());
        lemma_parse_rows_len(data_lines(source@));
    }
    if rows.len() == 0 {
        proof {
            assert(rows.deep_view().len() == 0);
        }
        Err(LoadError::EmptySource)
    } else {
        let lex = Lexicon::from_entries(&rows);
        Ok(lex)
    }
}

} // verus!
