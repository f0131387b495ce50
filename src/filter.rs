use vstd::prelude::*;
use crate::ratio::Ratio;
use crate::score::{len_gap, MAX_WORD_LEN};

verus! {

/// The parameters of a search.
#[derive(Clone, Copy, Debug)]
pub struct SearchConfig {
    /// Largest accepted difference in length between query and candidate.
    pub max_len_diff: usize,
    /// How many suggestions a search returns at most.
    pub suggestion_count: usize,
    /// Scores closer than this count as tied, and then the candidate of
    /// closer length wins.
    pub len_diff_bias: Ratio,
    /// Largest accepted score.
    pub max_weight_diff: Ratio,
    /// A query of `n` characters forces a prefix of `max(1, n / multiplier)`.
    pub forced_letter_multiplier: usize,
    /// Significant digits of a score shown to a person.
    pub weight_format_digits: u32,
}

impl SearchConfig {
    pub open spec fn wf(&self) -> bool {
        &&& self.forced_letter_multiplier > 0
        &&& self.max_len_diff <= MAX_WORD_LEN
        &&& self.len_diff_bias.is_threshold()
        &&& self.max_weight_diff.is_threshold()
    }

    /// The standard parameters: length window 3, seven suggestions, bias
    /// 0.005, largest score 0.79, multiplier 4, eight digits.
    pub open spec fn is_standard(&self) -> bool {
        &&& self.max_len_diff == 3
        &&& self.suggestion_count == 7
        &&& self.len_diff_bias == (Ratio { num: 5, den: 1000 })
        &&& self.max_weight_diff == (Ratio { num: 79, den: 100 })
        &&& self.forced_letter_multiplier == 4
        &&& self.weight_format_digits == 8
    }

    pub fn standard() -> (c: SearchConfig)
        ensures
            c.wf(),
            c.is_standard(),
    {
        SearchConfig {
            max_len_diff: 3,
            suggestion_count: 7,
            len_diff_bias: Ratio { num: 5, den: 1000 },
            max_weight_diff: Ratio { num: 79, den: 100 },
            forced_letter_multiplier: 4,
            weight_format_digits: 8,
        }
    }
}

impl Default for SearchConfig {
    fn default() -> (c: SearchConfig)
        ensures
            c.wf(),
            c.is_standard(),
    {
        SearchConfig::standard()
    }
}

/// `max(1, query_len / multiplier)`.
pub open spec fn forced_count(query_len: int, multiplier: int) -> int {
    if query_len / multiplier == 0 { 1 } else { query_len / multiplier }
}

/// Whether candidate `t` passes the cheap pre-filter for query `q`: its
/// length is within the window and it starts with the forced prefix.
pub open spec fn accepts_spec(q: Seq<char>, t: Seq<char>, cfg: SearchConfig) -> bool {
    let f = forced_count(q.len() as int, cfg.forced_letter_multiplier as int);
    &&& len_gap(q, t) <= cfg.max_len_diff
    &&& t.len() >= f
    &&& q.len() >= f
    &&& t.take(f) == q.take(f)
}

/// The number of leading characters of the query that every candidate must
/// match: `max(1, query_len / multiplier)`.
pub fn forced_letter_count(query_len: usize, multiplier: usize) -> (r: usize)
    requires
        multiplier > 0,
    ensures
        r == forced_count(query_len as int, multiplier as int),
        query_len >= 1 ==> 1 <= r <= query_len,
{
    let n = query_len / multiplier;
    if n == 0 { 1 } else { n }
}

/// The pre-filter: the length window and the forced prefix.
pub fn accepts(query: &Vec<char>, candidate: &Vec<char>, cfg: &SearchConfig) -> (r: bool)
    requires
        cfg.wf(),
    ensures
        r == accepts_spec(query@, candidate@, *cfg),
{
    let ql = query.len();
    let tl = candidate.len();
    let gap = if ql >= tl { ql - tl } else { tl - ql };
    if gap > cfg.max_len_diff {
        return false;
    }
    let f = forced_letter_count(ql, cfg.forced_letter_multiplier);
    if tl < f || ql < f {
        return false;
    }
    let mut i: usize = 0;
    while i < f
        invariant
            f <= ql == query@.len(),
            f <= tl == candidate@.len(),
            i <= f,
            f == forced_count(ql as int, cfg.forced_letter_multiplier as int),
            len_gap(query@, candidate@) <= cfg.max_len_diff,
            forall|k: int| 0 <= k < i ==> query@[k] == candidate@[k],
        decreases f - i,
    {
        if query[i] != candidate[i] {
            proof {
                assert(candidate@.take(f as int)[i as int] != query@.take(f as int)[i as int]);
                assert(candidate@.take(f as int) != query@.take(f as int));
            }
            return false;
        }
        i += 1;
    }
    proof {
        assert(candidate@.take(f as int) =~= query@.take(f as int));
    }
    true
}

} // verus!
