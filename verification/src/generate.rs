//! The constrained phrase generator: draws random words from the
//! lexicon's buckets so that the syllable counts sum exactly to the
//! target, looking ahead so that no draw strands an unreachable
//! remainder.

use vstd::prelude::*;
use rand::Rng;
use crate::MAX_SYLLABLES;
use crate::lexicon::{
    bucket, lemma_bucket_lookup, phrase_sum, LexModel, Lexicon, LexiconError,
};

verus! {

#[verifier::external_type_specification]
#[verifier::external_body]
pub struct ExThreadRng(rand::rngs::ThreadRng);

/// Relies on `rand::thread_rng`: yields a handle to the thread-local
/// generator. Nothing is promised of the values it will produce.
#[verifier::external_body]
fn fresh_rng() -> rand::rngs::ThreadRng {
    rand::thread_rng()
}

/// Relies on `rand::Rng::gen_range` on the range `0..n`: the result
/// is an index below `n`, uniformly drawn. The call panics only on an
/// empty range, which the precondition rules out.
#[verifier::external_body]
fn draw_index(rng: &mut rand::rngs::ThreadRng, n: usize) -> (r: usize)
    requires
        n > 0,
    ensures
        r < n,
{
    rng.gen_range(0..n)
}

/// Count `c` is a possible next draw toward remainder `n`: within the
/// remainder and the cap, with an inhabited bucket.
pub open spec fn step_ok(m: LexModel, n: int, c: int) -> bool {
    1 <= c <= n && c <= MAX_SYLLABLES as int && bucket(m, c as u32).len() > 0
}

/// A remainder `n` is reachable when some sequence of bucket draws
/// sums exactly to it: zero is, and a positive remainder is when some
/// possible draw leads to a reachable smaller remainder.
pub open spec fn reachable(m: LexModel, n: int) -> bool
    decreases n,
    when n >= 0
{
    if n <= 0 {
        n == 0
    } else {
        (step_ok(m, n, 1) && reachable(m, n - 1)) || (step_ok(m, n, 2) && reachable(m, n - 2))
            || (step_ok(m, n, 3) && reachable(m, n - 3)) || (step_ok(m, n, 4) && reachable(
            m,
            n - 4,
        )) || (step_ok(m, n, 5) && reachable(m, n - 5))
    }
}

/// A draw that keeps the remainder reachable shows the whole
/// remainder reachable.
proof fn lemma_reachable_step(m: LexModel, n: int, c: int)
    requires
        step_ok(m, n, c),
        reachable(m, n - c),
    ensures
        reachable(m, n),
{
    assert(1 <= c <= 5);
}

/// A reachable positive remainder yields such a draw.
proof fn lemma_reachable_dest(m: LexModel, n: int) -> (c: int)
    requires
        n >= 1,
        reachable(m, n),
    ensures
        step_ok(m, n, c),
        reachable(m, n - c),
{
    if step_ok(m, n, 1) && reachable(m, n - 1) {
        1
    } else if step_ok(m, n, 2) && reachable(m, n - 2) {
        2
    } else if step_ok(m, n, 3) && reachable(m, n - 3) {
        3
    } else if step_ok(m, n, 4) && reachable(m, n - 4) {
        4
    } else {
        5
    }
}

/// The reachability table for remainders up to `n`.
fn reach_table(lex: &Lexicon, n: u32) -> (t: Vec<bool>)
    requires
        lex.wf(),
        n < usize::MAX,
    ensures
        t@.len() == n + 1,
        forall|x: int| 0 <= x <= n ==> t@[x] == reachable(lex@, x),
{
    let mut t: Vec<bool> = Vec::new();
    t.push(true);
    let mut i: usize = 1;
    while i <= n as usize
        invariant
            1 <= i <= n + 1,
            n < usize::MAX,
            lex.wf(),
            t@.len() == i,
            forall|x: int| 0 <= x < i ==> t@[x] == reachable(lex@, x),
        decreases n as int + 1 - i,
    {
        let mut c: u32 = 1;
        let mut ok = false;
        while c <= MAX_SYLLABLES && (c as usize) <= i && !ok
            invariant
                1 <= c <= MAX_SYLLABLES + 1,
                i >= 1,
                lex.wf(),
                t@.len() == i,
                forall|x: int| 0 <= x < i ==> t@[x] == reachable(lex@, x),
                ok ==> reachable(lex@, i as int),
                !ok ==> forall|d: int|
                    1 <= d < c && d <= i ==> !(bucket(lex@, d as u32).len() > 0 && #[trigger]
                    reachable(lex@, i - d)),
            decreases MAX_SYLLABLES + 1 - c + (if ok { 0int } else { 1int }),
        {
            if lex.has_words(c) && t[i - c as usize] {
                proof {
                    assert(reachable(lex@, i - c));
                    lemma_reachable_step(lex@, i as int, c as int);
                }
                ok = true;
            } else {
                c = c + 1;
            }
        }
        proof {
            if !ok {
                if reachable(lex@, i as int) {
                    let d = lemma_reachable_dest(lex@, i as int);
                    assert(d < c);
                    assert(false);
                }
            }
        }
        t.push(ok);
        i = i + 1;
    }
    t
}

/// Generates a phrase whose words' syllable counts sum exactly to
/// `target`: each step draws a random count that keeps the remainder
/// reachable, then a random word from that count's bucket. A zero
/// target yields the empty phrase at once; an unreachable target
/// fails with `NoWordsForCount`, and succeeds otherwise.
pub fn generate(lex: &Lexicon, target: u32) -> (r: Result<Vec<String>, LexiconError>)
    requires
        lex.wf(),
        target < usize::MAX,  // the reachability table needs target + 1 entries
    ensures
        (match r {
            Ok(ws) => reachable(lex@, target as int) && phrase_sum(lex@, ws.deep_view())
                == Some(target as int) && (target == 0 ==> ws@.len() == 0),
            Err(e) => !reachable(lex@, target as int) && e == LexiconError::NoWordsForCount,
        }),
{
    let table = reach_table(lex, target);
    if !table[target as usize] {
        return Err(LexiconError::NoWordsForCount);
    }
    let mut rng = fresh_rng();
    let mut out: Vec<String> = Vec::new();
    let mut remaining: u32 = target;
    proof {
        assert(out.deep_view() =~= Seq::<Seq<char>>::empty());
    }
    while remaining > 0
        invariant
            remaining <= target,
            lex.wf(),
            table@.len() == target + 1,
            forall|x: int| 0 <= x <= target ==> table@[x] == reachable(lex@, x),
            reachable(lex@, remaining as int),
            phrase_sum(lex@, out.deep_view()) == Some(target - remaining as int),
            out@.len() <= target - remaining,
        decreases remaining,
    {
        let mut feas: Vec<u32> = Vec::new();
        let mut c: u32 = 1;
        while c <= MAX_SYLLABLES && c <= remaining
            invariant
                1 <= c <= MAX_SYLLABLES + 1,
                remaining <= target,
                lex.wf(),
                table@.len() == target + 1,
                forall|x: int| 0 <= x <= target ==> table@[x] == reachable(lex@, x),
                forall|d: u32|
                    1 <= d < c && d <= remaining ==> ((bucket(lex@, d).len() > 0 && reachable(
                        lex@,
                        remaining - d,
                    )) <==> feas@.contains(d)),
                forall|k: int|
                    0 <= k < feas@.len() ==> 1 <= #[trigger] feas@[k] <= remaining && feas@[k]
                        <= MAX_SYLLABLES && feas@[k] < c && bucket(lex@, feas@[k]).len() > 0
                        && reachable(lex@, remaining - feas@[k]),
            decreases MAX_SYLLABLES + 1 - c,
        {
            if lex.has_words(c) && table[(remaining - c) as usize] {
                let ghost before = feas@;
                feas.push(c);
                proof {
                    assert(feas@ == before.push(c));
                    assert(feas@[before.len() as int] == c);
                    assert(forall|k: int| 0 <= k < before.len() ==> feas@[k] == before[k]);
                    assert(forall|d: u32| before.contains(d) ==> feas@.contains(d));
                    assert(feas@.contains(c)) by {
                        assert(feas@[feas@.len() - 1] == c);
                    }
                    assert forall|d: u32| #[trigger] feas@.contains(d) && d != c implies before
                        .contains(d) by {
                        let k = choose|k: int| 0 <= k < feas@.len() && feas@[k] == d;
                        assert(k < before.len());
                        assert(before[k] == d);
                    }
                    assert forall|d: u32| 1 <= d < c + 1 && d <= remaining implies ((bucket(
                        lex@,
                        d,
                    ).len() > 0 && reachable(lex@, remaining - d)) <==> feas@.contains(d)) by {
                        if d == c {
                            assert(feas@.contains(c));
                            assert(bucket(lex@, c).len() > 0);
                            assert(reachable(lex@, remaining - c));
                        } else {
                            if feas@.contains(d) {
                                assert(before.contains(d));
                            }
                            if before.contains(d) {
                                assert(feas@.contains(d));
                            }
                        }
                    }
                }
            } else {
                proof {
                    assert(!(bucket(lex@, c).len() > 0 && reachable(
                        lex@,
                        remaining - c as int,
                    )));
                    assert forall|d: u32| 1 <= d < c + 1 && d <= remaining implies ((bucket(
                        lex@,
                        d,
                    ).len() > 0 && reachable(lex@, remaining - d)) <==> feas@.contains(d)) by {
                        if d == c {
                            if feas@.contains(d) {
                                let k = choose|k: int| 0 <= k < feas@.len() && feas@[k] == d;
                                assert(feas@[k] < c);
                                assert(false);
                            }
                        }
                    }
                }
            }
            c = c + 1;
        }
        proof {
            let d = lemma_reachable_dest(lex@, remaining as int);
            assert(1 <= d && d < c as int && d <= remaining as int);
            assert(feas@.contains(d as u32));
            assert(feas@.len() > 0);
        }
        let idx = draw_index(&mut rng, feas.len());
        let amt = feas[idx];
        let words = match lex.words_for_count(amt) {
            Ok(ws) => ws,
            Err(_) => {
                proof {
                    assert(false);
                }
                return Err(LexiconError::NoWordsForCount);
            },
        };
        let widx = draw_index(&mut rng, words.len());
        let w = words[widx].clone();
        let ghost before = out.deep_view();
        proof {
            assert(words.deep_view()[widx as int] == words@[widx as int]@);
            assert(bucket(lex@, amt).contains(w@)) by {
                assert(bucket(lex@, amt)[widx as int] == w@);
            }
            lex.lemma_wf_model();
            lemma_bucket_lookup(lex@, amt, w@);
            crate::lexicon::lemma_phrase_sum_push(lex@, before, w@);
        }
        out.push(w);
        proof {
            assert(out.deep_view() =~~= before.push(words@[widx as int]@));
        }
        remaining = remaining - amt;
    }
    Ok(out)
}

} // verus!
