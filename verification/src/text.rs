//! Character-sequence utilities: case folding, whitespace trimming,
//! splitting and joining on a separator, and decimal parsing, each with
//! a specification-level model over `Seq<char>`.

use vstd::prelude::*;
use vstd::string::StrSliceExecFns;

verus! {

// ---------------------------------------------------------------------------
// Character classes and case folding
// ---------------------------------------------------------------------------

/// The whitespace characters stripped from the ends of a token.
pub open spec fn is_space(c: char) -> bool {
    c == ' ' || c == '\t' || c == '\r' || c == '\n'
}

pub(crate) fn is_space_x(c: char) -> (r: bool)
    ensures
        r == is_space(c),
{
    c == ' ' || c == '\t' || c == '\r' || c == '\n'
}

/// ASCII case folding of a single character: uppercase letters map to
/// their lowercase form, every other character is unchanged.
pub open spec fn lower_char(c: char) -> char {
    match c {
        'A' => 'a',
        'B' => 'b',
        'C' => 'c',
        'D' => 'd',
        'E' => 'e',
        'F' => 'f',
        'G' => 'g',
        'H' => 'h',
        'I' => 'i',
        'J' => 'j',
        'K' => 'k',
        'L' => 'l',
        'M' => 'm',
        'N' => 'n',
        'O' => 'o',
        'P' => 'p',
        'Q' => 'q',
        'R' => 'r',
        'S' => 's',
        'T' => 't',
        'U' => 'u',
        'V' => 'v',
        'W' => 'w',
        'X' => 'x',
        'Y' => 'y',
        'Z' => 'z',
        _ => c,
    }
}

pub(crate) fn lower_char_x(c: char) -> (r: char)
    ensures
        r == lower_char(c),
{
    match c {
        'A' => 'a',
        'B' => 'b',
        'C' => 'c',
        'D' => 'd',
        'E' => 'e',
        'F' => 'f',
        'G' => 'g',
        'H' => 'h',
        'I' => 'i',
        'J' => 'j',
        'K' => 'k',
        'L' => 'l',
        'M' => 'm',
        'N' => 'n',
        'O' => 'o',
        'P' => 'p',
        'Q' => 'q',
        'R' => 'r',
        'S' => 's',
        'T' => 't',
        'U' => 'u',
        'V' => 'v',
        'W' => 'w',
        'X' => 'x',
        'Y' => 'y',
        'Z' => 'z',
        _ => c,
    }
}

/// ASCII case folding of a whole character sequence.
pub open spec fn to_lower_seq(s: Seq<char>) -> Seq<char> {
    Seq::new(s.len(), |i: int| lower_char(s[i]))
}

/// Case folding is idempotent: folding a second time changes nothing.
pub proof fn lemma_lower_idempotent(s: Seq<char>)
    ensures
        to_lower_seq(to_lower_seq(s)) == to_lower_seq(s),
{
    assert(to_lower_seq(to_lower_seq(s)) =~= to_lower_seq(s));
}

/// Every token of a sequence case-folded.
pub open spec fn lower_all(ts: Seq<Seq<char>>) -> Seq<Seq<char>> {
    ts.map_values(|t: Seq<char>| to_lower_seq(t))
}

/// Case folding touches no whitespace: it neither makes nor unmakes a
/// space character.
pub proof fn lemma_lower_preserves_space(c: char)
    ensures
        (lower_char(c) == ' ') == (c == ' '),
        is_space(lower_char(c)) == is_space(c),
{
}

pub proof fn lemma_find_space_lower(s: Seq<char>, j: int)
    requires
        0 <= j <= s.len(),
    ensures
        find_from(to_lower_seq(s), ' ', j) == find_from(s, ' ', j),
    decreases s.len() - j,
{
    if j < s.len() {
        lemma_lower_preserves_space(s[j]);
        if s[j] != ' ' {
            lemma_find_space_lower(s, j + 1);
        }
    }
}

/// Splitting on spaces commutes with case folding.
pub proof fn lemma_split_lower(s: Seq<char>)
    ensures
        split_sep(to_lower_seq(s), ' ') == lower_all(split_sep(s, ' ')),
    decreases s.len(),
{
    lemma_find_space_lower(s, 0);
    lemma_find_from(s, ' ', 0);
    let p = find_from(s, ' ', 0);
    if 0 <= p < s.len() {
        lemma_split_lower(s.skip(p + 1));
        assert(to_lower_seq(s).take(p) =~= to_lower_seq(s.take(p)));
        assert(to_lower_seq(s).skip(p + 1) =~= to_lower_seq(s.skip(p + 1)));
        assert(split_sep(to_lower_seq(s), ' ') =~= lower_all(split_sep(s, ' ')));
    } else {
        assert(split_sep(to_lower_seq(s), ' ') =~= lower_all(split_sep(s, ' ')));
    }
}

pub proof fn lemma_trim_start_lower(s: Seq<char>)
    ensures
        trim_start_seq(to_lower_seq(s)) == to_lower_seq(trim_start_seq(s)),
    decreases s.len(),
{
    if s.len() > 0 {
        lemma_lower_preserves_space(s.first());
        assert(to_lower_seq(s).first() == lower_char(s.first()));
        if is_space(s.first()) {
            assert(to_lower_seq(s).drop_first() =~= to_lower_seq(s.drop_first()));
            lemma_trim_start_lower(s.drop_first());
        }
    }
}

pub proof fn lemma_trim_end_lower(s: Seq<char>)
    ensures
        trim_end_seq(to_lower_seq(s)) == to_lower_seq(trim_end_seq(s)),
    decreases s.len(),
{
    if s.len() > 0 {
        lemma_lower_preserves_space(s.last());
        assert(to_lower_seq(s).last() == lower_char(s.last()));
        if is_space(s.last()) {
            assert(to_lower_seq(s).drop_last() =~= to_lower_seq(s.drop_last()));
            lemma_trim_end_lower(s.drop_last());
        }
    }
}

/// Trimming commutes with case folding.
pub proof fn lemma_trim_lower(s: Seq<char>)
    ensures
        trim_seq(to_lower_seq(s)) == to_lower_seq(trim_seq(s)),
{
    lemma_trim_start_lower(s);
    lemma_trim_end_lower(trim_start_seq(s));
}

pub(crate) fn to_lower_vec(v: &Vec<char>) -> (r: Vec<char>)
    ensures
        r@ == to_lower_seq(v@),
{
    let mut out: Vec<char> = Vec::new();
    let mut k: usize = 0;
    while k < v.len()
        invariant
            k <= v.len(),
            out@ == to_lower_seq(v@.take(k as int)),
        decreases v.len() - k,
    {
        out.push(lower_char_x(v[k]));
        assert(to_lower_seq(v@.take(k as int)).push(lower_char(v@[k as int])) =~= to_lower_seq(
            v@.take(k + 1),
        ));
        k = k + 1;
    }
    assert(v@.take(v@.len() as int) =~= v@);
    out
}

// ---------------------------------------------------------------------------
// Conversions between strings and character vectors
// ---------------------------------------------------------------------------

pub(crate) fn chars_of(s: &str) -> (r: Vec<char>)
    ensures
        r@ == s@,
{
    let n = s.unicode_len();
    let mut out: Vec<char> = Vec::new();
    let mut k: usize = 0;
    while k < n
        invariant
            k <= n,
            n == s@.len(),
            out@ == s@.take(k as int),
        decreases n - k,
    {
        out.push(s.get_char(k));
        assert(s@.take(k as int).push(s@[k as int]) =~= s@.take(k + 1));
        k = k + 1;
    }
    assert(s@.take(s@.len() as int) =~= s@);
    out
}

/// Relies on `String::push`: appends the given character to the end of
/// the string.
#[verifier::external_body]
fn push_char(s: &mut String, c: char)
    ensures
        final(s)@ == old(s)@.push(c),
{
    s.push(c)
}

pub(crate) fn string_of(v: &Vec<char>) -> (r: String)
    ensures
        r@ == v@,
{
    let mut out = String::new();
    let mut k: usize = 0;
    while k < v.len()
        invariant
            k <= v.len(),
            out@ == v@.take(k as int),
        decreases v.len() - k,
    {
        push_char(&mut out, v[k]);
        assert(v@.take(k as int).push(v@[k as int]) =~= v@.take(k + 1));
        k = k + 1;
    }
    assert(v@.take(v@.len() as int) =~= v@);
    out
}

pub(crate) fn copy_range(v: &Vec<char>, a: usize, b: usize) -> (r: Vec<char>)
    requires
        a <= b <= v@.len(),
    ensures
        r@ == v@.subrange(a as int, b as int),
{
    let mut out: Vec<char> = Vec::new();
    let mut k: usize = a;
    while k < b
        invariant
            a <= k <= b <= v@.len(),
            out@ == v@.subrange(a as int, k as int),
        decreases b - k,
    {
        out.push(v[k]);
        assert(v@.subrange(a as int, k as int).push(v@[k as int]) =~= v@.subrange(
            a as int,
            k + 1,
        ));
        k = k + 1;
    }
    out
}

pub(crate) fn eq_chars(a: &Vec<char>, b: &Vec<char>) -> (r: bool)
    ensures
        r == (a@ == b@),
{
    if a.len() != b.len() {
        return false;
    }
    let mut k: usize = 0;
    while k < a.len()
        invariant
            k <= a.len(),
            a@.len() == b@.len(),
            forall|i: int| 0 <= i < k ==> a@[i] == b@[i],
        decreases a.len() - k,
    {
        if a[k] != b[k] {
            return false;
        }
        k = k + 1;
    }
    assert(a@ =~= b@);
    true
}

// ---------------------------------------------------------------------------
// Searching for a character
// ---------------------------------------------------------------------------

/// The first index at or after `j` holding `c`, or `t.len()` if there
/// is none.
pub open spec fn find_from(t: Seq<char>, c: char, j: int) -> int
    decreases t.len() - j,
    when 0 <= j <= t.len()
{
    if j >= t.len() {
        t.len() as int
    } else if t[j] == c {
        j
    } else {
        find_from(t, c, j + 1)
    }
}

pub proof fn lemma_find_from(t: Seq<char>, c: char, j: int)
    requires
        0 <= j <= t.len(),
    ensures
        j <= find_from(t, c, j) <= t.len(),
        find_from(t, c, j) < t.len() ==> t[find_from(t, c, j)] == c,
        forall|k: int| j <= k < find_from(t, c, j) ==> t[k] != c,
    decreases t.len() - j,
{
    if j < t.len() && t[j] != c {
        lemma_find_from(t, c, j + 1);
    }
}

pub(crate) fn find_char(v: &Vec<char>, c: char, from: usize) -> (r: usize)
    requires
        from <= v@.len(),
    ensures
        r == find_from(v@, c, from as int),
        r <= v@.len(),
    decreases v@.len() - from,
{
    proof {
        lemma_find_from(v@, c, from as int);
    }
    if from >= v.len() {
        v.len()
    } else if v[from] == c {
        from
    } else {
        find_char(v, c, from + 1)
    }
}

// ---------------------------------------------------------------------------
// Trimming whitespace
// ---------------------------------------------------------------------------

pub open spec fn trim_start_seq(s: Seq<char>) -> Seq<char>
    decreases s.len(),
{
    if s.len() > 0 && is_space(s.first()) {
        trim_start_seq(s.drop_first())
    } else {
        s
    }
}

pub open spec fn trim_end_seq(s: Seq<char>) -> Seq<char>
    decreases s.len(),
{
    if s.len() > 0 && is_space(s.last()) {
        trim_end_seq(s.drop_last())
    } else {
        s
    }
}

/// A token with the whitespace stripped from both of its ends.
pub open spec fn trim_seq(s: Seq<char>) -> Seq<char> {
    trim_end_seq(trim_start_seq(s))
}

pub(crate) fn trim_chars(v: &Vec<char>) -> (r: Vec<char>)
    ensures
        r@ == trim_seq(v@),
{
    let mut a: usize = 0;
    proof {
        assert(v@.skip(0) =~= v@);
    }
    while a < v.len() && is_space_x(v[a])
        invariant
            a <= v@.len(),
            trim_start_seq(v@) == trim_start_seq(v@.skip(a as int)),
        decreases v.len() - a,
    {
        assert(v@.skip(a as int).drop_first() =~= v@.skip(a + 1));
        a = a + 1;
    }
    assert(trim_start_seq(v@) == v@.skip(a as int));
    assert(v@.skip(a as int) =~= v@.subrange(a as int, v@.len() as int));
    let mut b: usize = v.len();
    while b > a && is_space_x(v[b - 1])
        invariant
            a <= b <= v@.len(),
            trim_end_seq(v@.skip(a as int)) == trim_end_seq(v@.subrange(a as int, b as int)),
        decreases b,
    {
        assert(v@.subrange(a as int, b as int).drop_last() =~= v@.subrange(a as int, b - 1));
        b = b - 1;
    }
    assert(v@.skip(a as int) =~= v@.subrange(a as int, v@.len() as int));
    assert(trim_end_seq(v@.subrange(a as int, b as int)) == v@.subrange(a as int, b as int));
    copy_range(v, a, b)
}

// ---------------------------------------------------------------------------
// Splitting on a separator and joining with one
// ---------------------------------------------------------------------------

/// The fields of `s` between occurrences of `sep`; splitting the empty
/// sequence yields one empty field, as `str::split` does.
pub open spec fn split_sep(s: Seq<char>, sep: char) -> Seq<Seq<char>>
    decreases s.len(),
{
    let p = find_from(s, sep, 0);
    if 0 <= p < s.len() {
        seq![s.take(p)] + split_sep(s.skip(p + 1), sep)
    } else {
        seq![s]
    }
}

/// Splitting a sequence whose first separator stands at `p` yields the
/// prefix before `p` followed by the fields of what comes after `p`.
pub proof fn lemma_split_at(s: Seq<char>, sep: char, p: int)
    requires
        0 <= p < s.len(),
        s[p] == sep,
        forall|k: int| 0 <= k < p ==> s[k] != sep,
    ensures
        split_sep(s, sep) == seq![s.take(p)] + split_sep(s.skip(p + 1), sep),
{
    lemma_find_from(s, sep, 0);
    assert(find_from(s, sep, 0) == p);
}

/// Splitting a sequence free of the separator yields that sequence as
/// the one field.
pub proof fn lemma_split_none(s: Seq<char>, sep: char)
    requires
        forall|k: int| 0 <= k < s.len() ==> s[k] != sep,
    ensures
        split_sep(s, sep) == seq![s],
{
    lemma_find_from(s, sep, 0);
}

pub(crate) fn split_chars(v: &Vec<char>, sep: char) -> (r: Vec<Vec<char>>)
    ensures
        r.deep_view() == split_sep(v@, sep),
{
    let mut out: Vec<Vec<char>> = Vec::new();
    proof {
        assert(v@.skip(0) =~= v@);
        assert(out.deep_view() + split_sep(v@.skip(0), sep) =~= split_sep(v@, sep));
    }
    let mut start: usize = 0;
    let mut k: usize = 0;
    while k < v.len()
        invariant
            start <= k <= v@.len(),
            out.deep_view() + split_sep(v@.skip(start as int), sep) == split_sep(v@, sep),
            forall|i: int| start <= i < k ==> v@[i] != sep,
        decreases v.len() - k,
    {
        if v[k] == sep {
            let tok = copy_range(v, start, k);
            proof {
                let tail = v@.skip(start as int);
                assert(tail[k - start as int] == sep);
                assert(forall|i: int| 0 <= i < k - start as int ==> tail[i] != sep);
                lemma_split_at(tail, sep, k - start as int);
                assert(tail.take(k - start as int) =~= v@.subrange(start as int, k as int));
                assert(tail.skip(k - start as int + 1) =~= v@.skip(k + 1));
            }
            let ghost old_out = out.deep_view();
            out.push(tok);
            proof {
                assert(out.deep_view() =~~= old_out.push(v@.subrange(start as int, k as int)));
                assert(old_out + (seq![v@.subrange(start as int, k as int)] + split_sep(
                    v@.skip(k + 1),
                    sep,
                )) =~= out.deep_view() + split_sep(v@.skip(k + 1), sep));
            }
            start = k + 1;
        }
        k = k + 1;
    }
    let tok = copy_range(v, start, v.len());
    proof {
        let tail = v@.skip(start as int);
        lemma_split_none(tail, sep);
        assert(tail =~= v@.subrange(start as int, v@.len() as int));
    }
    let ghost old_out = out.deep_view();
    out.push(tok);
    proof {
        assert(out.deep_view() =~~= old_out.push(v@.subrange(start as int, v@.len() as int)));
        assert(old_out + seq![v@.subrange(start as int, v@.len() as int)] =~= out.deep_view());
    }
    out
}

/// The fields joined into one sequence with `sep` between neighbours.
pub open spec fn join_sep(ts: Seq<Seq<char>>, sep: char) -> Seq<char>
    decreases ts.len(),
{
    if ts.len() == 0 {
        Seq::empty()
    } else if ts.len() == 1 {
        ts[0]
    } else {
        ts[0] + seq![sep] + join_sep(ts.drop_first(), sep)
    }
}

pub proof fn lemma_join_push(ts: Seq<Seq<char>>, t: Seq<char>, sep: char)
    ensures
        join_sep(ts.push(t), sep) == if ts.len() == 0 {
            t
        } else {
            join_sep(ts, sep) + seq![sep] + t
        },
    decreases ts.len(),
{
    if ts.len() == 0 {
        assert(join_sep(ts.push(t), sep) == ts.push(t)[0]);
        assert(ts.push(t)[0] == t);
    } else {
        assert(ts.push(t).drop_first() =~= ts.drop_first().push(t));
        lemma_join_push(ts.drop_first(), t, sep);
        assert(ts.push(t)[0] == ts[0]);
        if ts.len() == 1 {
            assert(join_sep(ts, sep) == ts[0]);
            assert(join_sep(ts.push(t), sep) =~= join_sep(ts, sep) + seq![sep] + t);
        } else {
            assert(join_sep(ts.push(t), sep) =~= join_sep(ts, sep) + seq![sep] + t);
        }
    }
}

pub(crate) fn join_chars(ts: &Vec<Vec<char>>, sep: char) -> (r: Vec<char>)
    ensures
        r@ == join_sep(ts.deep_view(), sep),
{
    let mut out: Vec<char> = Vec::new();
    let mut k: usize = 0;
    while k < ts.len()
        invariant
            k <= ts.len(),
            out@ == join_sep(ts.deep_view().take(k as int), sep),
        decreases ts.len() - k,
    {
        if k > 0 {
            out.push(sep);
        }
        let mut j: usize = 0;
        let ghost mid = out@;
        while j < ts[k].len()
            invariant
                j <= ts@[k as int]@.len(),
                k < ts@.len(),
                out@ == mid + ts@[k as int]@.take(j as int),
            decreases ts@[k as int]@.len() - j,
        {
            out.push(ts[k][j]);
            assert(mid + ts@[k as int]@.take(j as int).push(ts@[k as int]@[j as int]) =~= mid
                + ts@[k as int]@.take(j + 1));
            j = j + 1;
        }
        proof {
            let dv = ts.deep_view();
            assert(dv.take(k as int).push(dv[k as int]) =~= dv.take(k + 1));
            lemma_join_push(dv.take(k as int), dv[k as int], sep);
            assert(ts@[k as int]@.take(ts@[k as int]@.len() as int) =~= dv[k as int]);
            if k == 0 {
                assert(out@ =~= join_sep(dv.take(k + 1), sep));
            } else {
                assert(out@ =~= join_sep(dv.take(k + 1), sep));
            }
        }
        k = k + 1;
    }
    assert(ts.deep_view().take(ts@.len() as int) =~= ts.deep_view());
    out
}

// ---------------------------------------------------------------------------
// Decimal parsing
// ---------------------------------------------------------------------------

pub open spec fn is_digit(c: char) -> bool {
    48 <= c as u32 && c as u32 <= 57
}

pub open spec fn digit_val(c: char) -> int {
    c as u32 - 48
}

pub open spec fn all_digits(s: Seq<char>) -> bool {
    forall|i: int| 0 <= i < s.len() ==> is_digit(#[trigger] s[i])
}

/// The numeric value of a digit string, most significant digit first.
pub open spec fn dec_value(s: Seq<char>) -> int
    decreases s.len(),
{
    if s.len() == 0 {
        0
    } else {
        dec_value(s.drop_last()) * 10 + digit_val(s.last())
    }
}

/// `s` is a decimal numeral that fits in a `u32`.
pub open spec fn valid_u32(s: Seq<char>) -> bool {
    s.len() > 0 && all_digits(s) && dec_value(s) <= u32::MAX
}

pub proof fn lemma_dec_value_nonneg(s: Seq<char>)
    requires
        all_digits(s),
    ensures
        dec_value(s) >= 0,
    decreases s.len(),
{
    if s.len() > 0 {
        assert(all_digits(s.drop_last()));
        lemma_dec_value_nonneg(s.drop_last());
    }
}

/// A digit string is worth at least any of its prefixes.
pub proof fn lemma_dec_value_take(s: Seq<char>, k: int)
    requires
        all_digits(s),
        0 <= k <= s.len(),
    ensures
        dec_value(s.take(k)) <= dec_value(s),
    decreases s.len() - k,
{
    if k < s.len() {
        lemma_dec_value_take(s, k + 1);
        assert(s.take(k + 1).drop_last() =~= s.take(k));
        assert(all_digits(s.take(k)));
        lemma_dec_value_nonneg(s.take(k));
        assert(s.take(k + 1).last() == s[k]);
        assert(dec_value(s.take(k + 1)) == dec_value(s.take(k)) * 10 + digit_val(s[k]));
    } else {
        assert(s.take(k) =~= s);
    }
}

pub(crate) fn parse_u32(v: &Vec<char>) -> (r: Option<u32>)
    ensures
        valid_u32(v@) ==> r == Some((dec_value(v@) as u32)),
        !valid_u32(v@) ==> r is None,
{
    if v.len() == 0 {
        return None;
    }
    let mut acc: u64 = 0;
    let mut k: usize = 0;
    while k < v.len()
        invariant
            k <= v@.len(),
            all_digits(v@.take(k as int)),
            acc == dec_value(v@.take(k as int)),
            acc <= u32::MAX as u64,
        decreases v.len() - k,
    {
        let code = v[k] as u32;
        if code < 48 || code > 57 {
            assert(!is_digit(v@[k as int]));
            assert(!all_digits(v@));
            return None;
        }
        let d = (code - 48) as u64;
        let next = acc * 10 + d;
        proof {
            assert(v@.take(k + 1).drop_last() =~= v@.take(k as int));
            assert(v@.take(k + 1).last() == v@[k as int]);
            assert(all_digits(v@.take(k + 1)));
        }
        if next > u32::MAX as u64 {
            proof {
                if valid_u32(v@) {
                    lemma_dec_value_take(v@, k + 1);
                }
            }
            return None;
        }
        acc = next;
        k = k + 1;
    }
    assert(v@.take(v@.len() as int) =~= v@);
    Some(acc as u32)
}

} // verus!
