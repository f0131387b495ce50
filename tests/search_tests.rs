use rayon::iter::{IntoParallelIterator, ParallelIterator};
use serd_search::{
    accepts, chars_of, forced_letter_count, rank, score, search, Profile, Ratio, SearchConfig,
    SearchError, Suggestion, TopK,
};

fn corpus(words: &[&str]) -> Vec<String> {
    words.iter().map(|w| w.to_string()).collect()
}

fn value(r: &Ratio) -> f64 {
    r.num as f64 / r.den as f64
}

fn same_value(a: &Ratio, b: &Ratio) -> bool {
    (a.num as u128) * (b.den as u128) == (b.num as u128) * (a.den as u128)
}

fn texts(v: &[Suggestion]) -> Vec<String> {
    v.iter().map(|s| s.text.clone()).collect()
}

fn check_laws(query: &str, v: &[Suggestion], cfg: &SearchConfig) {
    assert!(v.len() <= cfg.suggestion_count);
    let q = chars_of(query);
    for s in v {
        assert!(value(&s.score) <= value(&cfg.max_weight_diff));
        assert!(accepts(&q, &chars_of(&s.text), cfg));
    }
    for w in v.windows(2) {
        assert!(w[0].score.le(&w[1].score));
    }
}

fn suggestion(text: &str, num: u64, den: u64, gap: usize) -> Suggestion {
    Suggestion { text: text.to_string(), score: Ratio { num, den }, gap }
}

#[test]
fn end_to_end_kale() {
    let cfg = SearchConfig::standard();
    let words = corpus(&["kale", "kalem", "kelam", "kalemtras", "kapalı"]);
    let v = search("kale", &words, &cfg).unwrap();
    assert_eq!(texts(&v), vec!["kale".to_string(), "kalem".to_string()]);
    assert_eq!(v[0].score.num, 0);
    assert!(same_value(&v[1].score, &Ratio { num: 805, den: 2000 }));
    // "kalemtras" is five characters longer than the query: outside the window.
    assert!(!texts(&v).contains(&"kalemtras".to_string()));
    check_laws("kale", &v, &cfg);
}

#[test]
fn single_character_query() {
    assert_eq!(forced_letter_count(1, 4), 1);
    assert_eq!(forced_letter_count(3, 4), 1);
    assert_eq!(forced_letter_count(8, 4), 2);
    let cfg = SearchConfig::standard();
    let words = corpus(&["a", "ab", "b", "abcd", "abcde"]);
    let v = search("a", &words, &cfg).unwrap();
    assert_eq!(texts(&v), vec!["a".to_string()]);
    assert_eq!(v[0].score.num, 0);
}

#[test]
fn empty_query_is_rejected() {
    let cfg = SearchConfig::standard();
    let words = corpus(&["a"]);
    assert_eq!(search("", &words, &cfg).unwrap_err(), SearchError::EmptyQuery);
}

#[test]
fn overlong_query_is_rejected() {
    let cfg = SearchConfig::standard();
    let words = corpus(&["a"]);
    let long: String = std::iter::repeat('a').take(16382).collect();
    assert_eq!(search(&long, &words, &cfg).unwrap_err(), SearchError::QueryTooLong);
    let ok: String = std::iter::repeat('a').take(16381).collect();
    let v = search(&ok, &words, &cfg).unwrap();
    assert!(v.is_empty());
}

#[test]
fn self_score_is_zero() {
    for w in ["kale", "a", "kapalı", "abracadabra"] {
        let p = Profile::build(w);
        let s = score(&p, &p);
        assert_eq!(s.num, 0);
    }
}

#[test]
fn score_formula_values() {
    let q = Profile::build("kale");
    // profile 8/20, length 1/4/100, mismatches 0
    let s = score(&q, &Profile::build("kalem"));
    assert_eq!((s.num, s.den), (805, 2000));
    // profile 8/20, length 1/4/100, two mismatches: 2/4 * 1.35
    let s = score(&q, &Profile::build("kelam"));
    assert_eq!((s.num, s.den), (2155, 2000));
    assert!((value(&s) - 1.0775).abs() < 1e-12);
    // the distance is asymmetric: characters only the query has cost nothing
    let s = score(&Profile::build("kalem"), &Profile::build("kale"));
    assert_eq!((s.num, s.den), (100 * 4 + 4, 2000));
}

#[test]
fn profile_counts_characters() {
    let p = Profile::build("kapalı");
    assert_eq!(p.len(), 6);
    assert_eq!(p.count('a'), 2);
    assert_eq!(p.count('ı'), 1);
    assert_eq!(p.count('z'), 0);
    assert_eq!(p.counts, vec![('k', 1), ('a', 2), ('p', 1), ('l', 1), ('ı', 1)]);
}

#[test]
fn filter_window_and_prefix() {
    let cfg = SearchConfig::standard();
    let q = chars_of("kalemlik");
    // forced prefix "ka" for eight characters
    assert!(accepts(&q, &chars_of("kalem"), &cfg));
    assert!(!accepts(&q, &chars_of("kelemlik"), &cfg));
    assert!(!accepts(&q, &chars_of("kale"), &cfg));
    assert!(accepts(&q, &chars_of("kalemlikler"), &cfg));
    assert!(!accepts(&q, &chars_of("kalemlikleri"), &cfg));
    assert!(!accepts(&q, &chars_of(""), &cfg));
}

#[test]
fn result_is_bounded_by_suggestion_count() {
    let mut cfg = SearchConfig::standard();
    cfg.suggestion_count = 2;
    let words = corpus(&["abcd", "abdc", "abce", "abcde", "abc", "abcdd"]);
    let v = search("abcd", &words, &cfg).unwrap();
    assert_eq!(v.len(), 2);
    assert_eq!(v[0].text, "abcd");
    check_laws("abcd", &v, &cfg);
    cfg.suggestion_count = 0;
    assert!(search("abcd", &words, &cfg).unwrap().is_empty());
}

#[test]
fn results_sorted_and_accepted() {
    let cfg = SearchConfig::standard();
    let words = corpus(&["kalemlik", "kalem", "kalemci", "kalemler", "kalemlikler", "kale", "kalemi"]);
    let v = search("kalemi", &words, &cfg).unwrap();
    assert!(!v.is_empty());
    assert_eq!(v[0].text, "kalemi");
    check_laws("kalemi", &v, &cfg);
}

#[test]
fn duplicate_corpus_entries_kept_once() {
    let cfg = SearchConfig::standard();
    let words = corpus(&["kale", "kale", "kale"]);
    let v = search("kale", &words, &cfg).unwrap();
    assert_eq!(texts(&v), vec!["kale".to_string()]);
}

#[test]
fn serialized_runs_are_deterministic() {
    let cfg = SearchConfig::standard();
    let words = corpus(&["kalemlik", "kalem", "kalemci", "kalemler", "kale", "kalemi", "kelam"]);
    let a = search("kalem", &words, &cfg).unwrap();
    let b = search("kalem", &words, &cfg).unwrap();
    assert_eq!(texts(&a), texts(&b));
    for (x, y) in a.iter().zip(b.iter()) {
        assert_eq!(x.score, y.score);
    }
}

#[test]
fn concurrent_runs_each_satisfy_the_laws() {
    let cfg = SearchConfig::standard();
    let words = corpus(&["kalemlik", "kalem", "kalemci", "kalemler", "kale", "kalemi", "kelam", "kalp"]);
    let runs: Vec<Vec<Suggestion>> = (0..100)
        .into_par_iter()
        .map(|_| search("kalem", &words, &cfg).unwrap())
        .collect();
    for v in &runs {
        check_laws("kalem", v, &cfg);
    }
}

#[test]
fn offer_below_capacity_inserts() {
    let mut t = TopK::new(2, Ratio { num: 5, den: 1000 });
    t.offer(suggestion("ab", 1, 2, 0));
    t.offer(suggestion("ac", 1, 4, 0));
    assert_eq!(t.slots.len(), 2);
}

#[test]
fn offer_evicts_first_worse_entry() {
    let mut t = TopK::new(2, Ratio { num: 5, den: 1000 });
    t.offer(suggestion("ab", 1, 4, 0));
    t.offer(suggestion("ac", 1, 2, 0));
    t.offer(suggestion("ad", 1, 3, 0));
    assert_eq!(texts(&t.slots), vec!["ab".to_string(), "ad".to_string()]);
    // not better than any entry: discarded
    t.offer(suggestion("ae", 9, 10, 0));
    assert_eq!(texts(&t.slots), vec!["ab".to_string(), "ad".to_string()]);
}

#[test]
fn offer_prefers_closer_length_within_bias() {
    let mut t = TopK::new(1, Ratio { num: 5, den: 1000 });
    t.offer(suggestion("abcde", 100, 1000, 2));
    // slightly higher score, but closer in length and within the bias
    t.offer(suggestion("abc", 103, 1000, 0));
    assert_eq!(texts(&t.slots), vec!["abc".to_string()]);
    // closer in length but outside the bias: discarded
    t.offer(suggestion("abd", 200, 1000, 0));
    assert_eq!(texts(&t.slots), vec!["abc".to_string()]);
}

#[test]
fn offer_of_held_text_changes_nothing() {
    let mut t = TopK::new(1, Ratio { num: 5, den: 1000 });
    t.offer(suggestion("ab", 1, 2, 0));
    t.offer(suggestion("ab", 1, 4, 0));
    assert_eq!(t.slots.len(), 1);
    assert_eq!(t.slots[0].score, Ratio { num: 1, den: 2 });
}

#[test]
fn rank_orders_by_value_keeping_ties() {
    let v = vec![
        suggestion("c", 3, 4, 0),
        suggestion("a", 1, 2, 0),
        suggestion("b", 2, 4, 0),
        suggestion("d", 0, 9, 0),
    ];
    let r = rank(v);
    assert_eq!(texts(&r), vec!["d".to_string(), "a".to_string(), "b".to_string(), "c".to_string()]);
}

#[test]
fn ratio_comparisons() {
    let a = Ratio { num: 1, den: 2 };
    let b = Ratio { num: 2, den: 4 };
    let c = Ratio { num: 3, den: 4 };
    assert!(a.le(&b) && b.le(&a) && !a.lt(&b));
    assert!(a.lt(&c));
    assert!(a.near(&c, &Ratio { num: 26, den: 100 }));
    assert!(!a.near(&c, &Ratio { num: 25, den: 100 }));
}

#[test]
fn default_config_is_standard() {
    let c = SearchConfig::default();
    assert_eq!(c.max_len_diff, 3);
    assert_eq!(c.suggestion_count, 7);
    assert_eq!(c.len_diff_bias, Ratio { num: 5, den: 1000 });
    assert_eq!(c.max_weight_diff, Ratio { num: 79, den: 100 });
    assert_eq!(c.forced_letter_multiplier, 4);
    assert_eq!(c.weight_format_digits, 8);
}

#[test]
fn unicode_lengths_count_scalar_values() {
    assert_eq!(chars_of("kapalı").len(), 6);
    let cfg = SearchConfig::standard();
    let q = chars_of("ığdır");
    assert!(accepts(&q, &chars_of("ığd"), &cfg));
    assert!(!accepts(&q, &chars_of("igdir"), &cfg));
}

#[test]
fn profile_weights_sum_to_one() {
    let p = Profile::build("kapalı");
    let w = p.weight('a');
    assert_eq!((w.num, w.den), (2, 6));
    assert_eq!(p.weight('z').num, 0);
    let total: u64 = p.counts.iter().map(|(c, _)| p.weight(*c).num).sum();
    assert_eq!(total, p.len() as u64);
}
