use vstd::prelude::*;

verus! {

/// How many times `c` occurs in `s`.
pub open spec fn count_of(s: Seq<char>, c: char) -> nat
    decreases s.len(),
{
    if s.len() == 0 {
        0
    } else {
        count_of(s.drop_last(), c) + if s.last() == c { 1nat } else { 0nat }
    }
}

/// The distinct characters of `s`, in the order of their first occurrence.
pub open spec fn distinct(s: Seq<char>) -> Seq<char>
    decreases s.len(),
{
    if s.len() == 0 {
        Seq::empty()
    } else {
        let d = distinct(s.drop_last());
        if d.contains(s.last()) {
            d
        } else {
            d.push(s.last())
        }
    }
}

pub proof fn lemma_count_push(s: Seq<char>, x: char, c: char)
    ensures
        count_of(s.push(x), c) == count_of(s, c) + if x == c { 1nat } else { 0nat },
{
    assert(s.push(x).drop_last() == s);
}

pub proof fn lemma_distinct_push(s: Seq<char>, x: char)
    ensures
        distinct(s.push(x)) == if distinct(s).contains(x) {
            distinct(s)
        } else {
            distinct(s).push(x)
        },
{
    assert(s.push(x).drop_last() == s);
}

pub proof fn lemma_count_le_len(s: Seq<char>, c: char)
    ensures
        count_of(s, c) <= s.len(),
    decreases s.len(),
{
    if s.len() > 0 {
        lemma_count_le_len(s.drop_last(), c);
    }
}

/// A character occurs in `s` exactly when it is among its distinct characters,
/// and its count is positive exactly then.
pub proof fn lemma_distinct_contains(s: Seq<char>, c: char)
    ensures
        distinct(s).contains(c) <==> s.contains(c),
        count_of(s, c) > 0 <==> s.contains(c),
    decreases s.len(),
{
    if s.len() > 0 {
        let p = s.drop_last();
        lemma_distinct_contains(p, c);
        assert(s == p.push(s.last()));
        if p.contains(c) {
            let i = choose|i: int| 0 <= i < p.len() && p[i] == c;
            assert(s[i] == c);
        }
        if s.contains(c) && s.last() != c {
            let i = choose|i: int| 0 <= i < s.len() && s[i] == c;
            assert(i < p.len() && p[i] == c);
        }
        if s.last() == c {
            assert(s[s.len() - 1] == c);
        }
        let d = distinct(p);
        if !d.contains(s.last()) {
            assert(d.push(s.last())[d.len() as int] == s.last());
            if d.push(s.last()).contains(c) && c != s.last() {
                let k = choose|k: int| 0 <= k < d.len() + 1 && d.push(s.last())[k] == c;
                assert(d[k] == c);
            }
            if d.contains(c) {
                let k = choose|k: int| 0 <= k < d.len() && d[k] == c;
                assert(d.push(s.last())[k] == c);
            }
        }
    }
}

pub proof fn lemma_distinct_no_dup(s: Seq<char>)
    ensures
        forall|i: int, j: int|
            0 <= i < j < distinct(s).len() ==> distinct(s)[i] != distinct(s)[j],
    decreases s.len(),
{
    if s.len() > 0 {
        let p = s.drop_last();
        lemma_distinct_no_dup(p);
        let d = distinct(p);
        if !d.contains(s.last()) {
            assert forall|i: int, j: int|
                0 <= i < j < d.len() + 1 implies d.push(s.last())[i] != d.push(s.last())[j] by {
                if j == d.len() {
                    assert(d[i] != s.last());
                }
            }
        }
    }
}

pub proof fn lemma_distinct_len(s: Seq<char>)
    ensures
        distinct(s).len() <= s.len(),
    decreases s.len(),
{
    if s.len() > 0 {
        lemma_distinct_len(s.drop_last());
    }
}

/// The sum of the counts in `s` of the characters `cs`.
pub open spec fn counts_sum(s: Seq<char>, cs: Seq<char>) -> int
    decreases cs.len(),
{
    if cs.len() == 0 {
        0
    } else {
        counts_sum(s, cs.drop_last()) + count_of(s, cs.last())
    }
}

proof fn lemma_counts_sum_push(s: Seq<char>, x: char, cs: Seq<char>)
    requires
        forall|i: int, j: int| 0 <= i < j < cs.len() ==> cs[i] != cs[j],
    ensures
        counts_sum(s.push(x), cs) == counts_sum(s, cs) + if cs.contains(x) { 1int } else { 0int },
    decreases cs.len(),
{
    if cs.len() > 0 {
        let p = cs.drop_last();
        lemma_counts_sum_push(s, x, p);
        lemma_count_push(s, x, cs.last());
        if p.contains(x) {
            let k = choose|k: int| 0 <= k < p.len() && p[k] == x;
            assert(cs[k] == x);
            assert(cs.last() != x);
        }
        if cs.contains(x) && cs.last() != x {
            let k = choose|k: int| 0 <= k < cs.len() && cs[k] == x;
            assert(p[k] == x);
        }
        if cs.last() == x {
            assert(cs[cs.len() - 1] == x);
        }
    }
}

/// The counts of the distinct characters of a text add up to its length, so
/// the weights of a profile sum to 1.
pub proof fn lemma_weights_sum_to_one(s: Seq<char>)
    ensures
        counts_sum(s, distinct(s)) == s.len(),
    decreases s.len(),
{
    if s.len() > 0 {
        let p = s.drop_last();
        let x = s.last();
        assert(s == p.push(x));
        lemma_weights_sum_to_one(p);
        lemma_distinct_push(p, x);
        lemma_distinct_no_dup(p);
        lemma_counts_sum_push(p, x, distinct(p));
        if !distinct(p).contains(x) {
            lemma_distinct_contains(p, x);
            lemma_count_push(p, x, x);
            assert(distinct(p).push(x).drop_last() == distinct(p));
        }
    }
}

/// The character-weight profile of a text: its characters, and for each
/// distinct character the number of its occurrences. The weight of a
/// character `c` is `count_of(text, c) / text.len()`.
pub struct Profile {
    pub text: Vec<char>,
    pub counts: Vec<(char, usize)>,
}

impl Profile {
    /// `counts` lists the distinct characters of `text` in the order of their
    /// first occurrence, each with its number of occurrences.
    pub open spec fn wf(&self) -> bool {
        &&& self.counts@.len() == distinct(self.text@).len()
        &&& forall|i: int|
            0 <= i < self.counts@.len() ==> {
                &&& (#[trigger] self.counts@[i]).0 == distinct(self.text@)[i]
                &&& self.counts@[i].1 == count_of(self.text@, self.counts@[i].0)
            }
    }

    /// Builds the profile of `text`.
    pub fn build(text: &str) -> (p: Profile)
        ensures
            p.wf(),
            p.text@ == text@,
    {
        Profile::from_chars(crate::text::chars_of(text))
    }

    /// Builds the profile of the text made of `chars`.
    pub fn from_chars(chars: Vec<char>) -> (p: Profile)
        ensures
            p.wf(),
            p.text@ == chars@,
    {
        let n = chars.len();
        let mut counts: Vec<(char, usize)> = Vec::new();
        let mut i: usize = 0;
        while i < n
            invariant
                n == chars@.len(),
                i <= n,
                counts@.len() == distinct(chars@.take(i as int)).len(),
                forall|k: int|
                    0 <= k < counts@.len() ==> {
                        &&& (#[trigger] counts@[k]).0 == distinct(chars@.take(i as int))[k]
                        &&& counts@[k].1 == count_of(chars@.take(i as int), counts@[k].0)
                    },
            decreases n - i,
        {
            let c = chars[i];
            let ghost pre = chars@.take(i as int);
            proof {
                assert(chars@.take(i + 1) == pre.push(c));
                lemma_distinct_push(pre, c);
                lemma_count_le_len(pre, c);
            }
            let mut j: usize = 0;
            while j < counts.len()
                invariant
                    j <= counts@.len(),
                    forall|k: int| 0 <= k < j ==> (#[trigger] counts@[k]).0 != c,
                ensures
                    j <= counts@.len(),
                    forall|k: int| 0 <= k < j ==> (#[trigger] counts@[k]).0 != c,
                    j < counts@.len() ==> counts@[j as int].0 == c,
                decreases counts@.len() - j,
            {
                if counts[j].0 == c {
                    break;
                }
                j += 1;
            }
            let found = j < counts.len();
            let ghost old_counts = counts@;
            if found {
                let cnt = counts[j].1;
                counts.set(j, (c, cnt + 1));
                proof {
                    assert(distinct(pre)[j as int] == c);
                    assert(distinct(pre).contains(c));
                    assert(distinct(pre.push(c)) == distinct(pre));
                    lemma_distinct_no_dup(pre);
                    assert forall|k: int| 0 <= k < counts@.len() implies {
                        &&& (#[trigger] counts@[k]).0 == distinct(pre.push(c))[k]
                        &&& counts@[k].1 == count_of(pre.push(c), counts@[k].0)
                    } by {
                        lemma_count_push(pre, c, old_counts[k].0);
                        assert(old_counts[k].0 == distinct(pre)[k]);
                        if k != j {
                            assert(counts@[k] == old_counts[k]);
                        }
                    }
                }
            } else {
                counts.push((c, 1));
                proof {
                    assert(!distinct(pre).contains(c)) by {
                        if distinct(pre).contains(c) {
                            let k = choose|k: int| 0 <= k < distinct(pre).len() && distinct(pre)[k] == c;
                            assert(old_counts[k].0 == c);
                        }
                    }
                    lemma_distinct_contains(pre, c);
                    assert forall|k: int| 0 <= k < counts@.len() implies {
                        &&& (#[trigger] counts@[k]).0 == distinct(pre.push(c))[k]
                        &&& counts@[k].1 == count_of(pre.push(c), counts@[k].0)
                    } by {
                        lemma_count_push(pre, c, counts@[k].0);
                    }
                }
            }
            i += 1;
        }
        proof {
            assert(chars@.take(n as int) == chars@);
        }
        Profile { text: chars, counts }
    }

    /// The number of occurrences of `c` in the profiled text.
    pub fn count(&self, c: char) -> (r: usize)
        requires
            self.wf(),
        ensures
            r == count_of(self.text@, c),
    {
        let mut j: usize = 0;
        while j < self.counts.len()
            invariant
                self.wf(),
                j <= self.counts@.len(),
                forall|k: int| 0 <= k < j ==> (#[trigger] self.counts@[k]).0 != c,
            decreases self.counts@.len() - j,
        {
            if self.counts[j].0 == c {
                return self.counts[j].1;
            }
            j += 1;
        }
        proof {
            if self.text@.contains(c) {
                lemma_distinct_contains(self.text@, c);
                let k = choose|k: int| 0 <= k < distinct(self.text@).len() && distinct(self.text@)[k] == c;
                assert(self.counts@[k].0 == c);
            }
            lemma_distinct_contains(self.text@, c);
        }
        0
    }

    /// The weight of `c`: its share of the characters of the text, as
    /// `occurrences / length`.
    pub fn weight(&self, c: char) -> (r: crate::ratio::Ratio)
        requires
            self.wf(),
            self.text@.len() > 0,
        ensures
            r.num == count_of(self.text@, c),
            r.den == self.text@.len(),
    {
        let n = self.count(c);
        proof { lemma_count_le_len(self.text@, c); }
        crate::ratio::Ratio { num: n as u64, den: self.text.len() as u64 }
    }

    /// The length of the profiled text, in characters.
    pub fn len(&self) -> (r: usize)
        ensures
            r == self.text@.len(),
    {
        self.text.len()
    }
}

} // verus!
