//! The candidate extractor and validator: scans free text for phrases
//! of the shape `Baka: <phrase>.`, tokenizes each phrase, sums the
//! tokens' syllable counts case-insensitively, and keeps exactly the
//! candidates whose sum hits the target.

use vstd::prelude::*;
use vstd::string::StringExecFns;
use crate::lexicon::{phrase_sum, LexModel, Lexicon};
use crate::text::{
    chars_of, copy_range, find_char, find_from, join_chars, join_sep, lemma_find_from,
    split_chars, split_sep, string_of, trim_chars, trim_seq,
};

verus! {

/// The literal label that opens a candidate phrase, colon and space
/// included.
pub open spec fn label_seq() -> Seq<char> {
    seq!['B', 'a', 'k', 'a', ':', ' ']
}

/// The label stands in `t` at position `i`.
pub open spec fn is_label_at(t: Seq<char>, i: int) -> bool {
    0 <= i && i + 6 <= t.len() && t.subrange(i, i + 6) == label_seq()
}

/// The tokens of a phrase: the fields between single spaces, each
/// with surrounding whitespace trimmed.
pub open spec fn phrase_tokens(phrase: Seq<char>) -> Seq<Seq<char>> {
    split_sep(phrase, ' ').map_values(|t: Seq<char>| trim_seq(t))
}

/// The candidate a phrase yields, if its syllable sum hits the
/// target: the trimmed tokens joined by single spaces, in their
/// original casing. An unknown token or any other sum rejects it.
pub open spec fn accepted(m: LexModel, phrase: Seq<char>, target: u32) -> Option<Seq<char>> {
    let toks = phrase_tokens(phrase);
    if phrase_sum(m, toks) == Some(target as int) {
        Some(join_sep(toks, ' '))
    } else {
        None
    }
}

/// The accepted candidates of the text from position `i` on: at each
/// label the phrase runs to the first following period; a label with
/// no non-empty phrase before a period matches nothing, and with no
/// period after it the scan is over. Matches do not overlap.
pub open spec fn scan_from(m: LexModel, t: Seq<char>, target: u32, i: int) -> Seq<Seq<char>>
    decreases t.len() - i,
    when 0 <= i <= t.len()
{
    if i + 8 > t.len() {
        Seq::empty()
    } else if is_label_at(t, i) {
        let j = find_from(t, '.', i + 6);
        if i + 6 < j && j < t.len() {
            match accepted(m, t.subrange(i + 6, j), target) {
                Some(d) => seq![d] + scan_from(m, t, target, j + 1),
                None => scan_from(m, t, target, j + 1),
            }
        } else if j == i + 6 {
            scan_from(m, t, target, i + 1)
        } else {
            Seq::empty()
        }
    } else {
        scan_from(m, t, target, i + 1)
    }
}

/// All accepted candidates of a text, in order of appearance.
pub open spec fn candidates(m: LexModel, t: Seq<char>, target: u32) -> Seq<Seq<char>> {
    scan_from(m, t, target, 0)
}

/// Tokenizing commutes with case folding: the tokens of a folded
/// phrase are the folded tokens.
pub proof fn lemma_tokens_lower(phrase: Seq<char>)
    ensures
        phrase_tokens(crate::text::to_lower_seq(phrase)) == crate::text::lower_all(
            phrase_tokens(phrase),
        ),
{
    crate::text::lemma_split_lower(phrase);
    let raw = split_sep(phrase, ' ');
    assert forall|i: int| 0 <= i < raw.len() implies trim_seq(
        crate::text::lower_all(raw)[i],
    ) == crate::text::to_lower_seq(trim_seq(raw[i])) by {
        crate::text::lemma_trim_lower(raw[i]);
    }
    assert(phrase_tokens(crate::text::to_lower_seq(phrase)) =~= crate::text::lower_all(
        phrase_tokens(phrase),
    ));
}

/// Acceptance is case-insensitive: a phrase is accepted exactly when
/// its case-folded form is; only the returned display form keeps the
/// original casing.
pub proof fn lemma_accepted_case_insensitive(m: LexModel, phrase: Seq<char>, target: u32)
    ensures
        (accepted(m, crate::text::to_lower_seq(phrase), target) is Some) == (accepted(
            m,
            phrase,
            target,
        ) is Some),
{
    lemma_tokens_lower(phrase);
    crate::lexicon::lemma_sum_case_insensitive(m, phrase_tokens(phrase));
}

fn label_at(v: &Vec<char>, i: usize) -> (r: bool)
    requires
        i + 6 <= v@.len(),
    ensures
        r == is_label_at(v@, i as int),
{
    let n = v.len();
    let r = v[i] == 'B' && v[i + 1] == 'a' && v[i + 2] == 'k' && v[i + 3] == 'a' && v[i + 4]
        == ':' && v[i + 5] == ' ';
    proof {
        let sub = v@.subrange(i as int, i + 6);
        assert(sub[0] == v@[i as int] && sub[1] == v@[i + 1] && sub[2] == v@[i + 2] && sub[3]
            == v@[i + 3] && sub[4] == v@[i + 4] && sub[5] == v@[i + 5]);
        assert(label_seq()[0] == 'B' && label_seq()[1] == 'a' && label_seq()[2] == 'k'
            && label_seq()[3] == 'a' && label_seq()[4] == ':' && label_seq()[5] == ' ');
        if r {
            assert(sub =~= label_seq());
        }
    }
    r
}

/// Evaluates one phrase: `Some` with its display form when the sum
/// hits the target, `None` otherwise.
fn eval_phrase(lex: &Lexicon, cap: &Vec<char>, target: u32) -> (r: Option<String>)
    requires
        lex.wf(),
    ensures
        (match r {
            Some(s) => accepted(lex@, cap@, target) == Some(s@),
            None => accepted(lex@, cap@, target) is None,
        }),
{
    let ghost toks_spec = phrase_tokens(cap@);
    let raw = split_chars(cap, ' ');
    let mut toks: Vec<Vec<char>> = Vec::new();
    let mut k: usize = 0;
    proof {
        assert(toks.deep_view() =~= toks_spec.take(0));
    }
    while k < raw.len()
        invariant
            k <= raw@.len(),
            raw.deep_view() == split_sep(cap@, ' '),
            toks_spec == phrase_tokens(cap@),
            toks_spec.len() == raw@.len(),
            toks.deep_view() == toks_spec.take(k as int),
        decreases raw@.len() - k,
    {
        let t = trim_chars(&raw[k]);
        let ghost before = toks.deep_view();
        toks.push(t);
        proof {
            assert(raw.deep_view()[k as int] == raw@[k as int]@);
            assert(toks_spec[k as int] == trim_seq(raw@[k as int]@));
            assert(toks.deep_view() =~~= before.push(toks_spec[k as int]));
            assert(before.push(toks_spec[k as int]) =~= toks_spec.take(k + 1));
        }
        k = k + 1;
    }
    proof {
        assert(toks_spec.take(toks_spec.len() as int) =~= toks_spec);
    }
    let mut acc: u64 = 0;
    let mut k2: usize = 0;
    proof {
        assert(toks_spec.take(0) =~= Seq::<Seq<char>>::empty());
    }
    while k2 < toks.len()
        invariant
            k2 <= toks@.len(),
            lex.wf(),
            toks.deep_view() == toks_spec,
            toks_spec == phrase_tokens(cap@),
            toks_spec.len() == toks@.len(),
            phrase_sum(lex@, toks_spec.take(k2 as int)) == Some(acc as int),
            acc <= target as u64,
        decreases toks@.len() - k2,
    {
        proof {
            assert(toks.deep_view()[k2 as int] == toks@[k2 as int]@);
        }
        match lex.lookup_chars(&toks[k2]) {
            None => {
                proof {
                    crate::lexicon::lemma_phrase_sum_push(
                        lex@,
                        toks_spec.take(k2 as int),
                        toks_spec[k2 as int],
                    );
                    assert(toks_spec.take(k2 as int).push(toks_spec[k2 as int]) =~= toks_spec
                        .take(k2 + 1));
                    assert(phrase_sum(lex@, toks_spec.take(k2 + 1)) is None);
                    crate::lexicon::lemma_phrase_sum_split(lex@, toks_spec, k2 + 1);
                }
                return None;
            },
            Some(c) => {
                let next = acc + c as u64;
                proof {
                    crate::lexicon::lemma_phrase_sum_push(
                        lex@,
                        toks_spec.take(k2 as int),
                        toks_spec[k2 as int],
                    );
                    assert(toks_spec.take(k2 as int).push(toks_spec[k2 as int]) =~= toks_spec
                        .take(k2 + 1));
                    assert(phrase_sum(lex@, toks_spec.take(k2 + 1)) == Some(acc + c as int));
                }
                if next > target as u64 {
                    proof {
                        crate::lexicon::lemma_phrase_sum_split(lex@, toks_spec, k2 + 1);
                        crate::lexicon::lemma_phrase_sum_nonneg(
                            lex@,
                            toks_spec.skip(k2 + 1),
                        );
                        assert(phrase_sum(lex@, toks_spec) != Some(target as int));
                    }
                    return None;
                }
                acc = next;
            },
        }
        k2 = k2 + 1;
    }
    proof {
        assert(toks_spec.take(toks_spec.len() as int) =~= toks_spec);
    }
    if acc == target as u64 {
        let joined = join_chars(&toks, ' ');
        let s = string_of(&joined);
        Some(s)
    } else {
        None
    }
}

/// Scans `text` for labelled phrases and returns the display strings
/// of those whose syllable sum is exactly `target`, in order of
/// appearance.
pub fn extract(lex: &Lexicon, text: &str, target: u32) -> (r: Vec<String>)
    requires
        lex.wf(),
    ensures
        r.deep_view() == candidates(lex@, text@, target),
{
    let t = chars_of(text);
    let mut out: Vec<String> = Vec::new();
    let mut i: usize = 0;
    proof {
        assert(out.deep_view() + scan_from(lex@, t@, target, 0) =~= candidates(
            lex@,
            t@,
            target,
        ));
    }
    while t.len() >= 8 && i <= t.len() - 8
        invariant
            i <= t@.len(),
            t@ == text@,
            lex.wf(),
            out.deep_view() + scan_from(lex@, t@, target, i as int) == candidates(
                lex@,
                t@,
                target,
            ),
        decreases t@.len() - i,
    {
        if label_at(&t, i) {
            let j = find_char(&t, '.', i + 6);
            proof {
                lemma_find_from(t@, '.', i + 6);
            }
            if j < t.len() {
                if j > i + 6 {
                    let cap = copy_range(&t, i + 6, j as usize);
                    match eval_phrase(lex, &cap, target) {
                        Some(s) => {
                            let ghost before = out.deep_view();
                            let ghost d = s@;
                            out.push(s);
                            proof {
                                assert(out.deep_view() =~~= before.push(d));
                                assert(scan_from(lex@, t@, target, i as int) == seq![d]
                                    + scan_from(lex@, t@, target, j + 1));
                                assert(before + (seq![d] + scan_from(
                                    lex@,
                                    t@,
                                    target,
                                    j + 1,
                                )) =~= out.deep_view() + scan_from(lex@, t@, target, j + 1));
                            }
                        },
                        None => {
                            proof {
                                assert(scan_from(lex@, t@, target, i as int) == scan_from(
                                    lex@,
                                    t@,
                                    target,
                                    j + 1,
                                ));
                            }
                        },
                    }
                    i = j + 1;
                } else {
                    proof {
                        assert(scan_from(lex@, t@, target, i as int) == scan_from(
                            lex@,
                            t@,
                            target,
                            i + 1,
                        ));
                    }
                    i = i + 1;
                }
            } else {
                proof {
                    assert(scan_from(lex@, t@, target, i as int) =~= Seq::<Seq<char>>::empty());
                }
                i = t.len();
            }
        } else {
            proof {
                assert(scan_from(lex@, t@, target, i as int) == scan_from(
                    lex@,
                    t@,
                    target,
                    i + 1,
                ));
            }
            i = i + 1;
        }
    }
    proof {
        assert(i + 8 > t@.len());
        assert(scan_from(lex@, t@, target, i as int) =~= Seq::<Seq<char>>::empty());
        assert(out.deep_view() + Seq::<Seq<char>>::empty() =~= out.deep_view());
    }
    out
}

/// The display form of a generated phrase: the label, the words
/// joined by single spaces, and a closing period.
pub fn format_phrase(words: &Vec<String>) -> (r: String)
    ensures
        r@ == label_seq() + join_sep(words.deep_view(), ' ') + seq!['.'],
{
    let mut out = String::from_str("Baka: ");
    proof {
        reveal_strlit("Baka: ");
        assert(out@ =~= label_seq());
        assert(words.deep_view().take(0) =~= Seq::<Seq<char>>::empty());
    }
    let mut k: usize = 0;
    while k < words.len()
        invariant
            k <= words@.len(),
            out@ == label_seq() + join_sep(words.deep_view().take(k as int), ' '),
        decreases words@.len() - k,
    {
        let ghost dv = words.deep_view();
        if k > 0 {
            out.append(" ");
            proof {
                reveal_strlit(" ");
            }
        }
        out.append(words[k].as_str());
        proof {
            assert(dv.take(k as int).push(dv[k as int]) =~= dv.take(k + 1));
            crate::text::lemma_join_push(dv.take(k as int), dv[k as int], ' ');
            assert(words@[k as int]@ == dv[k as int]);
            if k > 0 {
                assert(" "@ =~= seq![' ']);
                assert(out@ =~= label_seq() + join_sep(dv.take(k + 1), ' '));
            } else {
                assert(out@ =~= label_seq() + join_sep(dv.take(k + 1), ' '));
            }
        }
        k = k + 1;
    }
    out.append(".");
    proof {
        reveal_strlit(".");
        assert("."@ =~= seq!['.']);
        assert(words.deep_view().take(words@.len() as int) =~= words.deep_view());
        assert(out@ =~= label_seq() + join_sep(words.deep_view(), ' ') + seq!['.']);
    }
    out
}

} // verus!
