use vstd::prelude::*;
use crate::profile::{count_of, distinct, Profile, lemma_count_le_len, lemma_distinct_len};
use crate::ratio::{abs_int, Ratio};

verus! {

/// The longest word, in characters, that the scorer takes.
pub const MAX_WORD_LEN: usize = 16384;

/// `|weight_q(c) - weight_t(c)|`, scaled by `|q| * |t|`.
pub open spec fn char_term(q: Seq<char>, t: Seq<char>, c: char) -> int {
    abs_int(count_of(q, c) * t.len() - count_of(t, c) * q.len())
}

/// The sum of `char_term` over the characters `cs`.
pub open spec fn terms_sum(q: Seq<char>, t: Seq<char>, cs: Seq<char>) -> int
    decreases cs.len(),
{
    if cs.len() == 0 {
        0
    } else {
        terms_sum(q, t, cs.drop_last()) + char_term(q, t, cs.last())
    }
}

/// The profile distance over the candidate's own characters, scaled by
/// `|q| * |t|`: `sum over distinct c of t of |weight_q(c) - weight_t(c)|`.
pub open spec fn profile_distance(q: Seq<char>, t: Seq<char>) -> int {
    terms_sum(q, t, distinct(t))
}

/// The number of indices below `n` where `q` and `t` differ.
pub open spec fn mismatches(q: Seq<char>, t: Seq<char>, n: int) -> int
    decreases n,
{
    if n <= 0 {
        0
    } else {
        mismatches(q, t, n - 1) + if q[n - 1] != t[n - 1] { 1int } else { 0int }
    }
}

pub open spec fn min_len(q: Seq<char>, t: Seq<char>) -> int {
    if q.len() <= t.len() { q.len() as int } else { t.len() as int }
}

/// The difference in length between two texts.
pub open spec fn len_gap(q: Seq<char>, t: Seq<char>) -> int {
    abs_int(q.len() - t.len())
}

/// Numerator of the score of candidate `t` against query `q`, over the
/// denominator `100 * |q| * |t|`. The score is
/// `profile distance + (gap / |q|) / 100 + (mismatches / |q|) * 1.35`.
pub open spec fn score_num(q: Seq<char>, t: Seq<char>) -> int {
    100 * profile_distance(q, t) + t.len() * len_gap(q, t) + 135 * t.len() * mismatches(q, t, min_len(q, t))
}

pub open spec fn score_den(q: Seq<char>, t: Seq<char>) -> int {
    100 * q.len() * t.len() as int
}

/// The score of `t` against `q` as a ratio.
pub open spec fn score_of(q: Seq<char>, t: Seq<char>) -> Ratio {
    Ratio { num: score_num(q, t) as u64, den: score_den(q, t) as u64 }
}

pub open spec fn word_len_ok(s: Seq<char>) -> bool {
    0 < s.len() <= MAX_WORD_LEN
}

proof fn lemma_terms_sum_bound(q: Seq<char>, t: Seq<char>, cs: Seq<char>)
    requires
        word_len_ok(q),
        word_len_ok(t),
    ensures
        0 <= terms_sum(q, t, cs) <= cs.len() * (MAX_WORD_LEN * MAX_WORD_LEN),
    decreases cs.len(),
{
    if cs.len() > 0 {
        lemma_terms_sum_bound(q, t, cs.drop_last());
        lemma_char_term_bound(q, t, cs.last());
        assert((cs.len() - 1) * (MAX_WORD_LEN * MAX_WORD_LEN) + MAX_WORD_LEN * MAX_WORD_LEN
            == cs.len() * (MAX_WORD_LEN * MAX_WORD_LEN)) by (nonlinear_arith);
    }
}

proof fn lemma_char_term_bound(q: Seq<char>, t: Seq<char>, c: char)
    requires
        word_len_ok(q),
        word_len_ok(t),
    ensures
        0 <= char_term(q, t, c) <= MAX_WORD_LEN * MAX_WORD_LEN,
{
    lemma_count_le_len(q, c);
    lemma_count_le_len(t, c);
    let a = count_of(q, c);
    let b = count_of(t, c);
    assert(0 <= a * t.len() <= MAX_WORD_LEN * MAX_WORD_LEN) by (nonlinear_arith)
        requires a <= q.len(), q.len() <= MAX_WORD_LEN, t.len() <= MAX_WORD_LEN;
    assert(0 <= b * q.len() <= MAX_WORD_LEN * MAX_WORD_LEN) by (nonlinear_arith)
        requires b <= t.len(), q.len() <= MAX_WORD_LEN, t.len() <= MAX_WORD_LEN;
}

proof fn lemma_mismatches_bound(q: Seq<char>, t: Seq<char>, n: int)
    ensures
        0 <= mismatches(q, t, n) <= if n < 0 { 0 } else { n },
    decreases n,
{
    if n > 0 {
        lemma_mismatches_bound(q, t, n - 1);
    }
}

/// Bounds that keep every score inside the range of `Ratio::is_score`.
pub proof fn lemma_score_bounds(q: Seq<char>, t: Seq<char>)
    requires
        word_len_ok(q),
        word_len_ok(t),
    ensures
        0 <= score_num(q, t) < crate::ratio::SCORE_NUM_LIMIT,
        0 < score_den(q, t) < crate::ratio::SCORE_DEN_LIMIT,
        score_of(q, t).is_score(),
        score_of(q, t).num == score_num(q, t),
        score_of(q, t).den == score_den(q, t),
{
    lemma_distinct_len(t);
    lemma_terms_sum_bound(q, t, distinct(t));
    lemma_mismatches_bound(q, t, min_len(q, t));
    let p = profile_distance(q, t);
    let m = mismatches(q, t, min_len(q, t));
    let ql = q.len() as int;
    let tl = t.len() as int;
    let g = len_gap(q, t);
    assert(0 <= p <= 0x4000 * (0x4000 * 0x4000)) by (nonlinear_arith)
        requires 0 <= p <= distinct(t).len() * (MAX_WORD_LEN * MAX_WORD_LEN), distinct(t).len() <= tl, tl <= 0x4000;
    assert(0 <= tl * g <= 0x4000 * 0x4000) by (nonlinear_arith)
        requires 0 <= g <= 0x4000, 0 < tl <= 0x4000;
    assert(0 <= 135 * tl * m <= 135 * 0x4000 * 0x4000) by (nonlinear_arith)
        requires 0 <= m <= tl, 0 < tl <= 0x4000;
    assert(0 < 100 * ql * tl <= 100 * 0x4000 * 0x4000) by (nonlinear_arith)
        requires 0 < ql <= 0x4000, 0 < tl <= 0x4000;
}

/// The score of the candidate `t` against the query `q`: lower is closer.
pub fn score(q: &Profile, t: &Profile) -> (r: Ratio)
    requires
        q.wf(),
        t.wf(),
        word_len_ok(q.text@),
        word_len_ok(t.text@),
    ensures
        r == score_of(q.text@, t.text@),
        r.is_score(),
{
    let ql = q.len();
    let tl = t.len();
    proof { lemma_score_bounds(q.text@, t.text@); }
    let mut dist: u64 = 0;
    let mut k: usize = 0;
    while k < t.counts.len()
        invariant
            q.wf(),
            t.wf(),
            word_len_ok(q.text@),
            word_len_ok(t.text@),
            ql == q.text@.len(),
            tl == t.text@.len(),
            k <= t.counts@.len(),
            dist == terms_sum(q.text@, t.text@, distinct(t.text@).take(k as int)),
            dist <= k * (MAX_WORD_LEN * MAX_WORD_LEN),
        decreases t.counts@.len() - k,
    {
        let (c, tc) = t.counts[k];
        let qc = q.count(c);
        let ghost cs = distinct(t.text@).take(k + 1);
        proof {
            assert(cs.drop_last() == distinct(t.text@).take(k as int));
            lemma_count_le_len(q.text@, c);
            lemma_count_le_len(t.text@, c);
            lemma_char_term_bound(q.text@, t.text@, c);
            assert(qc * tl <= MAX_WORD_LEN * MAX_WORD_LEN) by (nonlinear_arith)
                requires qc <= ql, ql <= MAX_WORD_LEN, tl <= MAX_WORD_LEN;
            assert(tc * ql <= MAX_WORD_LEN * MAX_WORD_LEN) by (nonlinear_arith)
                requires tc <= tl, ql <= MAX_WORD_LEN, tl <= MAX_WORD_LEN;
            assert(k * (MAX_WORD_LEN * MAX_WORD_LEN) + MAX_WORD_LEN * MAX_WORD_LEN
                == (k + 1) * (MAX_WORD_LEN * MAX_WORD_LEN)) by (nonlinear_arith);
            lemma_distinct_len(t.text@);
        }
        let a = (qc as u64) * (tl as u64);
        let b = (tc as u64) * (ql as u64);
        let term = if a >= b { a - b } else { b - a };
        dist = dist + term;
        k += 1;
    }
    proof {
        assert(distinct(t.text@).take(t.counts@.len() as int) == distinct(t.text@));
    }
    let n = if ql <= tl { ql } else { tl };
    let mut mism: u64 = 0;
    let mut i: usize = 0;
    while i < n
        invariant
            n == min_len(q.text@, t.text@),
            i <= n,
            q.text@.len() == ql,
            t.text@.len() == tl,
            mism == mismatches(q.text@, t.text@, i as int),
            mism <= i,
        decreases n - i,
    {
        if q.text[i] != t.text[i] {
            mism = mism + 1;
        }
        i += 1;
    }
    let gap: u64 = if ql >= tl { (ql - tl) as u64 } else { (tl - ql) as u64 };
    let tl64 = tl as u64;
    let num = 100 * dist + tl64 * gap + 135 * tl64 * mism;
    let den = 100 * (ql as u64) * tl64;
    Ratio { num, den }
}

} // verus!
