use vstd::prelude::*;
use crate::filter::{accepts, accepts_spec, SearchConfig};
use crate::profile::Profile;
use crate::score::{
    len_gap, lemma_score_bounds, mismatches, min_len, score, score_of, terms_sum, word_len_ok,
    MAX_WORD_LEN,
};
use crate::text::chars_of;
use crate::topk::{
    lemma_offered_keeps, lemma_offered_members, lemma_ranked, models, offered, rank, ranked,
    scores_ok, sorted_by_score, texts_unique, Entry, Suggestion, TopK,
};

verus! {

broadcast use vstd::seq_lib::group_to_multiset_ensures, vstd::multiset::group_multiset_axioms;

/// Why a query is rejected before any scoring.
#[derive(Clone, Copy, Debug, PartialEq, Eq, Structural)]
pub enum SearchError {
    /// The query has no characters.
    EmptyQuery,
    /// The query, widened by the length window, exceeds `MAX_WORD_LEN`.
    QueryTooLong,
}

/// The texts of a corpus.
pub open spec fn words(corpus: Seq<String>) -> Seq<Seq<char>> {
    corpus.map_values(|s: String| s@)
}

/// The entry that candidate `t` makes for query `q`.
pub open spec fn entry_of(q: Seq<char>, t: Seq<char>) -> Entry {
    (t, score_of(q, t), len_gap(q, t) as usize)
}

/// Whether `t` passes the filter and its score the acceptance threshold.
pub open spec fn admitted(q: Seq<char>, t: Seq<char>, cfg: SearchConfig) -> bool {
    accepts_spec(q, t, cfg) && score_of(q, t).le_spec(cfg.max_weight_diff)
}

/// The result set after the first `n` words of the corpus were offered in
/// order.
pub open spec fn selected(q: Seq<char>, corpus: Seq<Seq<char>>, cfg: SearchConfig, n: int) -> Seq<Entry>
    decreases n,
{
    if n <= 0 {
        Seq::empty()
    } else {
        let s = selected(q, corpus, cfg, n - 1);
        let t = corpus[n - 1];
        if admitted(q, t, cfg) {
            offered(s, entry_of(q, t), cfg.suggestion_count as int, cfg.len_diff_bias)
        } else {
            s
        }
    }
}

/// The suggestions for `q` over `corpus`, closest first.
pub open spec fn search_result(q: Seq<char>, corpus: Seq<Seq<char>>, cfg: SearchConfig) -> Seq<Entry> {
    ranked(selected(q, corpus, cfg, corpus.len() as int))
}

/// A query the scorer takes under `cfg`.
pub open spec fn query_ok(q: Seq<char>, cfg: SearchConfig) -> bool {
    0 < q.len() && q.len() + cfg.max_len_diff <= MAX_WORD_LEN
}

/// What holds of every entry that a search keeps: it passes the filter, its
/// score and gap are those of its text, and its score is accepted.
pub open spec fn entry_valid(q: Seq<char>, x: Entry, cfg: SearchConfig) -> bool {
    &&& accepts_spec(q, x.0, cfg)
    &&& x.1 == score_of(q, x.0)
    &&& x.1.le_spec(cfg.max_weight_diff)
    &&& x.2 == len_gap(q, x.0)
}

proof fn lemma_candidate_len(q: Seq<char>, t: Seq<char>, cfg: SearchConfig)
    requires
        cfg.wf(),
        query_ok(q, cfg),
        accepts_spec(q, t, cfg),
    ensures
        word_len_ok(t),
{
}

proof fn lemma_selected(q: Seq<char>, corpus: Seq<Seq<char>>, cfg: SearchConfig, n: int)
    requires
        cfg.wf(),
        query_ok(q, cfg),
        0 <= n <= corpus.len(),
    ensures
        scores_ok(selected(q, corpus, cfg, n)),
        texts_unique(selected(q, corpus, cfg, n)),
        selected(q, corpus, cfg, n).len() <= cfg.suggestion_count,
        forall|i: int| 0 <= i < selected(q, corpus, cfg, n).len()
            ==> entry_valid(q, #[trigger] selected(q, corpus, cfg, n)[i], cfg),
    decreases n,
{
    if n > 0 {
        lemma_selected(q, corpus, cfg, n - 1);
        let s = selected(q, corpus, cfg, n - 1);
        let t = corpus[n - 1];
        if admitted(q, t, cfg) {
            let e = entry_of(q, t);
            lemma_candidate_len(q, t, cfg);
            lemma_score_bounds(q, t);
            lemma_offered_keeps(s, e, cfg.suggestion_count as int, cfg.len_diff_bias);
            lemma_offered_members(s, e, cfg.suggestion_count as int, cfg.len_diff_bias);
            let r = offered(s, e, cfg.suggestion_count as int, cfg.len_diff_bias);
            assert forall|i: int| 0 <= i < r.len() implies entry_valid(q, #[trigger] r[i], cfg) by {
                assert(r.contains(r[i]));
                if r[i] != e {
                    let k = choose|k: int| 0 <= k < s.len() && s[k] == r[i];
                    assert(entry_valid(q, s[k], cfg));
                }
            }
        }
    }
}

/// Every search result holds at most `suggestion_count` entries, each of
/// which passes the filter and has an accepted score equal to its text's
/// score, and the entries come in ascending order of score.
pub proof fn lemma_search_result(q: Seq<char>, corpus: Seq<Seq<char>>, cfg: SearchConfig)
    requires
        cfg.wf(),
        query_ok(q, cfg),
    ensures
        search_result(q, corpus, cfg).len() <= cfg.suggestion_count,
        forall|i: int| 0 <= i < search_result(q, corpus, cfg).len()
            ==> entry_valid(q, #[trigger] search_result(q, corpus, cfg)[i], cfg),
        sorted_by_score(search_result(q, corpus, cfg)),
        texts_unique(search_result(q, corpus, cfg)),
{
    let s = selected(q, corpus, cfg, corpus.len() as int);
    lemma_selected(q, corpus, cfg, corpus.len() as int);
    lemma_ranked(s);
    let r = ranked(s);
    assert forall|i: int| 0 <= i < r.len() implies entry_valid(q, #[trigger] r[i], cfg) by {
        assert(r.to_multiset().count(r[i]) > 0);
        assert(s.contains(r[i]));
    }
}

/// A word scores 0 against itself: its profile distance, length gap and
/// mismatch count all vanish.
pub proof fn lemma_self_score_zero(w: Seq<char>)
    requires
        0 < w.len(),
    ensures
        score_of(w, w).num == 0,
{
    lemma_self_terms_zero(w, crate::profile::distinct(w));
    lemma_self_mismatches_zero(w, w.len() as int);
    assert(crate::score::profile_distance(w, w) == 0);
    assert(len_gap(w, w) == 0);
    assert(min_len(w, w) == w.len());
    let l = w.len() as int;
    assert(100 * 0 + l * 0 + 135 * l * 0 == 0) by (nonlinear_arith);
}

proof fn lemma_self_terms_zero(w: Seq<char>, cs: Seq<char>)
    ensures
        terms_sum(w, w, cs) == 0,
    decreases cs.len(),
{
    if cs.len() > 0 {
        lemma_self_terms_zero(w, cs.drop_last());
        let c = cs.last();
        let a = crate::profile::count_of(w, c);
        assert(a * w.len() - a * w.len() == 0);
    }
}

proof fn lemma_self_mismatches_zero(w: Seq<char>, n: int)
    ensures
        mismatches(w, w, n) == 0,
    decreases n,
{
    if n > 0 {
        lemma_self_mismatches_zero(w, n - 1);
    }
}

/// Ranks the words of `corpus` by closeness to `query`.
///
/// Each word that passes the filter and whose score is accepted is offered,
/// in corpus order, to a result set of `suggestion_count` entries; the set
/// is then ordered by ascending score.
pub fn search(query: &str, corpus: &Vec<String>, cfg: &SearchConfig) -> (r: Result<Vec<Suggestion>, SearchError>)
    requires
        cfg.wf(),
    ensures
        query@.len() == 0 <==> r == Err::<Vec<Suggestion>, SearchError>(SearchError::EmptyQuery),
        (query@.len() > 0 && query@.len() + cfg.max_len_diff > MAX_WORD_LEN)
            <==> r == Err::<Vec<Suggestion>, SearchError>(SearchError::QueryTooLong),
        r is Ok <==> query_ok(query@, *cfg),
        r matches Ok(v) ==> {
            &&& models(v@) == search_result(query@, words(corpus@), *cfg)
            &&& v@.len() <= cfg.suggestion_count
            &&& forall|i: int| 0 <= i < v@.len() ==> entry_valid(query@, #[trigger] v@[i]@, *cfg)
            &&& sorted_by_score(models(v@))
            &&& texts_unique(models(v@))
        },
{
    let q = chars_of(query);
    if q.len() == 0 {
        return Err(SearchError::EmptyQuery);
    }
    if q.len() > MAX_WORD_LEN - cfg.max_len_diff {
        return Err(SearchError::QueryTooLong);
    }
    let ghost ws = words(corpus@);
    let qlen = q.len();
    let qp = Profile::from_chars(q.clone());
    let mut top = TopK::new(cfg.suggestion_count, cfg.len_diff_bias);
    let mut i: usize = 0;
    while i < corpus.len()
        invariant
            cfg.wf(),
            query_ok(query@, *cfg),
            q@ == query@,
            qp.wf(),
            qp.text@ == q@,
            qlen == q@.len(),
            ws == words(corpus@),
            i <= corpus@.len(),
            top.wf(),
            top.capacity == cfg.suggestion_count,
            top.bias == cfg.len_diff_bias,
            top.entries() == selected(q@, ws, *cfg, i as int),
        decreases corpus@.len() - i,
    {
        proof { lemma_selected(q@, ws, *cfg, i as int); }
        let t = chars_of(corpus[i].as_str());
        proof { assert(t@ == ws[i as int]); }
        if accepts(&q, &t, cfg) {
            let tlen = t.len();
            let tp = Profile::from_chars(t);
            let sc = score(&qp, &tp);
            proof { lemma_score_bounds(q@, tp.text@); }
            if sc.le(&cfg.max_weight_diff) {
                let gap = if qlen >= tlen { qlen - tlen } else { tlen - qlen };
                let e = Suggestion { text: corpus[i].clone(), score: sc, gap };
                proof { assert(e@ == entry_of(q@, ws[i as int])); }
                top.offer(e);
            }
        }
        i += 1;
    }
    proof {
        assert(ws.len() == corpus@.len());
        lemma_search_result(q@, ws, *cfg);
        lemma_selected(q@, ws, *cfg, i as int);
        lemma_ranked(top.entries());
    }
    let out = rank(top.slots);
    proof {
        let v = out@;
        assert forall|k: int| 0 <= k < v.len() implies entry_valid(query@, #[trigger] v[k]@, *cfg) by {
            assert(models(v)[k] == v[k]@);
        }
    }
    Ok(out)
}

} // verus!
