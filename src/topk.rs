use vstd::prelude::*;
use crate::ratio::{lemma_le_trans, lemma_not_lt, Ratio};

verus! {

broadcast use vstd::seq_lib::group_to_multiset_ensures, vstd::multiset::group_multiset_axioms;

/// A ranked candidate: its text, its score, and the difference between its
/// length and the query's.
#[derive(Clone, Debug)]
pub struct Suggestion {
    pub text: String,
    pub score: Ratio,
    pub gap: usize,
}

/// The mathematical value of a suggestion: text, score and length gap.
pub type Entry = (Seq<char>, Ratio, usize);

impl View for Suggestion {
    type V = Entry;

    open spec fn view(&self) -> Entry {
        (self.text@, self.score, self.gap)
    }
}

pub open spec fn models(s: Seq<Suggestion>) -> Seq<Entry> {
    s.map_values(|x: Suggestion| x@)
}

/// Whether the incoming entry `e` displaces `x`: a strictly lower score, or a
/// smaller length gap with a score within `bias` of `x`'s.
pub open spec fn beats(e: Entry, x: Entry, bias: Ratio) -> bool {
    e.1.lt_spec(x.1) || (e.2 < x.2 && e.1.near_spec(x.1, bias))
}

pub open spec fn has_text(s: Seq<Entry>, t: Seq<char>) -> bool {
    exists|i: int| 0 <= i < s.len() && (#[trigger] s[i]).0 == t
}

/// The first index below `n` whose entry `e` beats, or -1.
pub open spec fn victim(s: Seq<Entry>, e: Entry, bias: Ratio, n: int) -> int
    decreases n,
{
    if n <= 0 {
        -1
    } else {
        let v = victim(s, e, bias, n - 1);
        if v >= 0 {
            v
        } else if beats(e, s[n - 1], bias) {
            n - 1
        } else {
            -1
        }
    }
}

/// The result set after offering `e`: a text already held leaves it as it
/// is; below capacity `e` is added; at capacity `e` replaces the first entry
/// it beats, if any.
pub open spec fn offered(s: Seq<Entry>, e: Entry, cap: int, bias: Ratio) -> Seq<Entry> {
    if has_text(s, e.0) {
        s
    } else if s.len() < cap {
        s.push(e)
    } else {
        let v = victim(s, e, bias, s.len() as int);
        if v >= 0 {
            s.remove(v).push(e)
        } else {
            s
        }
    }
}

pub open spec fn scores_ok(s: Seq<Entry>) -> bool {
    forall|i: int| 0 <= i < s.len() ==> (#[trigger] s[i]).1.is_score()
}

pub open spec fn texts_unique(s: Seq<Entry>) -> bool {
    forall|i: int, j: int| 0 <= i < j < s.len() ==> (#[trigger] s[i]).0 != (#[trigger] s[j]).0
}

proof fn lemma_victim(s: Seq<Entry>, e: Entry, bias: Ratio, n: int)
    requires
        0 <= n,
    ensures
        victim(s, e, bias, n) == -1 ==> forall|k: int| 0 <= k < n ==> !beats(e, #[trigger] s[k], bias),
        victim(s, e, bias, n) >= 0 ==> victim(s, e, bias, n) < n && beats(e, s[victim(s, e, bias, n)], bias),
        victim(s, e, bias, n) >= -1,
    decreases n,
{
    if n > 0 {
        lemma_victim(s, e, bias, n - 1);
    }
}

proof fn lemma_victim_stable(s: Seq<Entry>, e: Entry, bias: Ratio, n: int, m: int)
    requires
        0 <= n <= m,
        victim(s, e, bias, n) >= 0,
    ensures
        victim(s, e, bias, m) == victim(s, e, bias, n),
    decreases m - n,
{
    if m > n {
        lemma_victim_stable(s, e, bias, n, m - 1);
    }
}

/// Every entry of the offered set was held before or is the one offered.
pub proof fn lemma_offered_members(s: Seq<Entry>, e: Entry, cap: int, bias: Ratio)
    ensures
        forall|x: Entry| #[trigger] offered(s, e, cap, bias).contains(x) ==> s.contains(x) || x == e,
        s.len() <= cap ==> offered(s, e, cap, bias).len() <= cap,
        offered(s, e, cap, bias).len() >= s.len() || offered(s, e, cap, bias).len() <= cap,
{
    let r = offered(s, e, cap, bias);
    let v = victim(s, e, bias, s.len() as int);
    lemma_victim(s, e, bias, s.len() as int);
    assert forall|x: Entry| #[trigger] r.contains(x) implies s.contains(x) || x == e by {
        let k = choose|k: int| 0 <= k < r.len() && r[k] == x;
        if has_text(s, e.0) || (s.len() >= cap && v < 0) {
            assert(s[k] == x);
        } else if s.len() < cap {
            if k < s.len() {
                assert(s[k] == x);
            }
        } else if k < s.len() - 1 {
            if k < v {
                assert(s[k] == x);
            } else {
                assert(s[k + 1] == x);
            }
        }
    }
}

pub(crate) proof fn lemma_offered_keeps(s: Seq<Entry>, e: Entry, cap: int, bias: Ratio)
    requires
        scores_ok(s),
        e.1.is_score(),
        texts_unique(s),
        s.len() <= cap,
    ensures
        scores_ok(offered(s, e, cap, bias)),
        texts_unique(offered(s, e, cap, bias)),
        offered(s, e, cap, bias).len() <= cap,
{
    let r = offered(s, e, cap, bias);
    lemma_offered_members(s, e, cap, bias);
    assert forall|i: int| 0 <= i < r.len() implies (#[trigger] r[i]).1.is_score() by {
        assert(r.contains(r[i]));
    }
    assert forall|i: int, j: int| 0 <= i < j < r.len() implies (#[trigger] r[i]).0 != (#[trigger] r[j]).0 by {
        assert(r.contains(r[i]));
        assert(r.contains(r[j]));
        if !has_text(s, e.0) {
            let v = victim(s, e, bias, s.len() as int);
            lemma_victim(s, e, bias, s.len() as int);
            if j == r.len() - 1 && r.len() > s.len() - 1 && r != s {
                if r[i].0 == e.0 {
                    let k = choose|k: int| 0 <= k < s.len() && s[k] == r[i];
                    assert(s[k].0 == e.0);
                }
            } else if r != s && s.len() >= cap && v >= 0 {
                let a = if i < v { i } else { i + 1 };
                let b = if j < v { j } else { j + 1 };
                assert(r[i] == s[a]);
                assert(r[j] == s[b]);
            }
        }
    }
}

/// The bounded set of the best candidates seen so far.
pub struct TopK {
    pub slots: Vec<Suggestion>,
    pub capacity: usize,
    pub bias: Ratio,
}

impl TopK {
    pub open spec fn entries(&self) -> Seq<Entry> {
        models(self.slots@)
    }

    pub open spec fn wf(&self) -> bool {
        &&& self.bias.is_threshold()
        &&& self.slots@.len() <= self.capacity
        &&& scores_ok(self.entries())
        &&& texts_unique(self.entries())
    }

    /// An empty set holding at most `capacity` entries.
    pub fn new(capacity: usize, bias: Ratio) -> (t: TopK)
        requires
            bias.is_threshold(),
        ensures
            t.wf(),
            t.entries() == Seq::<Entry>::empty(),
            t.capacity == capacity,
            t.bias == bias,
    {
        let t = TopK { slots: Vec::new(), capacity, bias };
        proof { assert(t.entries() =~= Seq::<Entry>::empty()); }
        t
    }

    fn holds_text(&self, text: &String) -> (r: bool)
        ensures
            r == has_text(self.entries(), text@),
    {
        let mut i: usize = 0;
        while i < self.slots.len()
            invariant
                i <= self.slots@.len(),
                forall|k: int| 0 <= k < i ==> (#[trigger] self.entries()[k]).0 != text@,
            decreases self.slots@.len() - i,
        {
            if self.slots[i].text == *text {
                proof { assert(self.entries()[i as int].0 == text@); }
                return true;
            }
            i += 1;
        }
        false
    }

    /// Offers a candidate: see `offered`.
    pub fn offer(&mut self, e: Suggestion)
        requires
            old(self).wf(),
            e.score.is_score(),
        ensures
            final(self).wf(),
            final(self).entries() == offered(old(self).entries(), e@, old(self).capacity as int, old(self).bias),
            final(self).capacity == old(self).capacity,
            final(self).bias == old(self).bias,
    {
        let ghost s = self.entries();
        proof { lemma_offered_keeps(s, e@, self.capacity as int, self.bias); }
        if self.holds_text(&e.text) {
            return;
        }
        let n = self.slots.len();
        if n < self.capacity {
            self.slots.push(e);
            proof { assert(self.entries() =~= s.push(e@)); }
            return;
        }
        let mut j: usize = 0;
        while j < n
            invariant
                n == self.slots@.len(),
                s == self.entries(),
                self.wf(),
                e.score.is_score(),
                j <= n,
                victim(s, e@, self.bias, j as int) == -1,
            ensures
                j <= n,
                victim(s, e@, self.bias, j as int) == -1,
                j < n ==> beats(e@, s[j as int], self.bias),
            decreases n - j,
        {
            let x = &self.slots[j];
            proof { assert(s[j as int] == x@); }
            if e.score.lt(&x.score) || (e.gap < x.gap && e.score.near(&x.score, &self.bias)) {
                break;
            }
            j += 1;
        }
        proof { lemma_victim(s, e@, self.bias, n as int); }
        if j < n {
            proof {
                assert(victim(s, e@, self.bias, j + 1) == j);
                lemma_victim_stable(s, e@, self.bias, j + 1, n as int);
            }
            self.slots.remove(j);
            self.slots.push(e);
            proof { assert(self.entries() =~= s.remove(j as int).push(e@)); }
        }
    }
}

/// The index of the first least score among the first `n` entries.
pub open spec fn min_index(s: Seq<Entry>, n: int) -> int
    decreases n,
{
    if n <= 1 {
        0
    } else {
        let m = min_index(s, n - 1);
        if s[n - 1].1.lt_spec(s[m].1) { n - 1 } else { m }
    }
}

/// The entries ordered by ascending score, equal scores in the order in
/// which they are held: the first least entry, then the rest ranked.
pub open spec fn ranked(s: Seq<Entry>) -> Seq<Entry>
    decreases s.len(),
{
    if s.len() == 0 {
        s
    } else {
        let i = min_index(s, s.len() as int);
        if 0 <= i < s.len() {
            ranked(s.remove(i)).insert(0, s[i])
        } else {
            s
        }
    }
}

pub open spec fn sorted_by_score(s: Seq<Entry>) -> bool {
    forall|i: int, j: int| 0 <= i < j < s.len() ==> (#[trigger] s[i]).1.le_spec((#[trigger] s[j]).1)
}

proof fn lemma_min_index(s: Seq<Entry>, n: int)
    requires
        1 <= n <= s.len(),
        scores_ok(s),
    ensures
        0 <= min_index(s, n) < n,
        forall|k: int| 0 <= k < n ==> s[min_index(s, n)].1.le_spec((#[trigger] s[k]).1),
    decreases n,
{
    if n > 1 {
        lemma_min_index(s, n - 1);
        let m = min_index(s, n - 1);
        assert(s[m].1.is_score());
        assert(s[n - 1].1.is_score());
        lemma_not_lt(s[n - 1].1, s[m].1);
        if s[n - 1].1.lt_spec(s[m].1) {
            assert forall|k: int| 0 <= k < n implies s[n - 1].1.le_spec((#[trigger] s[k]).1) by {
                if k < n - 1 {
                    lemma_le_trans(s[n - 1].1, s[m].1, s[k].1);
                }
            }
        }
    }
}

/// Ranking keeps exactly the entries and orders them by ascending score.
pub proof fn lemma_ranked(s: Seq<Entry>)
    requires
        scores_ok(s),
    ensures
        ranked(s).to_multiset() == s.to_multiset(),
        ranked(s).len() == s.len(),
        sorted_by_score(ranked(s)),
        scores_ok(ranked(s)),
        texts_unique(s) ==> texts_unique(ranked(s)),
    decreases s.len(),
{
    if s.len() > 0 {
        let i = min_index(s, s.len() as int);
        lemma_min_index(s, s.len() as int);
        let rest = s.remove(i);
        assert forall|k: int| 0 <= k < rest.len() implies (#[trigger] rest[k]).1.is_score() by {
            if k < i { assert(rest[k] == s[k]); } else { assert(rest[k] == s[k + 1]); }
        }
        lemma_ranked(rest);
        let rr = ranked(rest);
        let r = rr.insert(0, s[i]);
        assert(s.to_multiset().count(s[i]) > 0);
        assert(r.to_multiset() =~= s.to_multiset());
        assert forall|a: int, b: int| 0 <= a < b < r.len() implies (#[trigger] r[a]).1.le_spec((#[trigger] r[b]).1) by {
            if a > 0 {
                assert(r[a] == rr[a - 1]);
                assert(r[b] == rr[b - 1]);
            } else {
                assert(r[b] == rr[b - 1]);
                assert(rr.contains(rr[b - 1]));
                assert(rr.to_multiset().count(rr[b - 1]) > 0);
                assert(rest.contains(rr[b - 1]));
                let k = choose|k: int| 0 <= k < rest.len() && rest[k] == rr[b - 1];
                if k < i { assert(rest[k] == s[k]); } else { assert(rest[k] == s[k + 1]); }
            }
        }
        assert forall|k: int| 0 <= k < r.len() implies (#[trigger] r[k]).1.is_score() by {
            if k > 0 {
                assert(r[k] == rr[k - 1]);
            }
        }
        if texts_unique(s) {
            assert forall|a: int, b: int| 0 <= a < b < rest.len() implies (#[trigger] rest[a]).0 != (#[trigger] rest[b]).0 by {
                let a2 = if a < i { a } else { a + 1 };
                let b2 = if b < i { b } else { b + 1 };
                assert(rest[a] == s[a2]);
                assert(rest[b] == s[b2]);
            }
            assert forall|a: int, b: int| 0 <= a < b < r.len() implies (#[trigger] r[a]).0 != (#[trigger] r[b]).0 by {
                assert(r[b] == rr[b - 1]);
                if a > 0 {
                    assert(r[a] == rr[a - 1]);
                } else {
                    assert(rr.to_multiset().count(rr[b - 1]) > 0);
                    assert(rest.contains(rr[b - 1]));
                    let k = choose|k: int| 0 <= k < rest.len() && rest[k] == rr[b - 1];
                    if k < i { assert(rest[k] == s[k]); } else { assert(rest[k] == s[k + 1]); }
                }
            }
        }
    }
}

/// Orders the suggestions by ascending score, equal scores kept in order.
pub fn rank(slots: Vec<Suggestion>) -> (r: Vec<Suggestion>)
    requires
        scores_ok(models(slots@)),
    ensures
        models(r@) == ranked(models(slots@)),
{
    let ghost orig = models(slots@);
    let mut rem = slots;
    let mut out: Vec<Suggestion> = Vec::new();
    while rem.len() > 0
        invariant
            scores_ok(models(rem@)),
            models(out@) + ranked(models(rem@)) == ranked(orig),
        decreases rem@.len(),
    {
        let ghost s = models(rem@);
        let n = rem.len();
        let mut m: usize = 0;
        let mut k: usize = 1;
        while k < n
            invariant
                n == rem@.len(),
                s == models(rem@),
                scores_ok(s),
                1 <= k <= n,
                m == min_index(s, k as int),
                0 <= m < k,
            decreases n - k,
        {
            proof {
                assert(s[k as int] == rem@[k as int]@);
                assert(s[m as int] == rem@[m as int]@);
                assert(s[k as int].1.is_score());
                assert(s[m as int].1.is_score());
            }
            if rem[k].score.lt(&rem[m].score) {
                m = k;
            }
            k += 1;
        }
        let x = rem.remove(m);
        let ghost old_out = models(out@);
        out.push(x);
        proof {
            assert(models(rem@) =~= s.remove(m as int));
            assert(models(out@) =~= old_out.push(s[m as int]));
            assert(ranked(s) == ranked(s.remove(m as int)).insert(0, s[m as int]));
            assert(old_out.push(s[m as int]) + ranked(s.remove(m as int))
                =~= old_out + ranked(s.remove(m as int)).insert(0, s[m as int]));
            assert forall|i: int| 0 <= i < models(rem@).len() implies (#[trigger] models(rem@)[i]).1.is_score() by {
                if i < m { assert(models(rem@)[i] == s[i]); } else { assert(models(rem@)[i] == s[i + 1]); }
            }
        }
    }
    proof {
        assert(models(rem@) =~= Seq::<Entry>::empty());
        assert(models(out@) + Seq::<Entry>::empty() =~= models(out@));
    }
    out
}

} // verus!
