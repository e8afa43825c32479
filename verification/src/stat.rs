use vstd::prelude::*;

verus! {

/// An additive counter pair: how many questions were seen and how many words
/// they held together. Combining two `Stat`s means element-wise addition.
#[derive(Clone, Copy, Debug, PartialEq, Eq, Structural)]
pub struct Stat {
    pub questions: u64,
    pub words: u64,
}

/// The unbounded model of a counter pair: question count, then word count.
pub open spec fn stat_model(s: Stat) -> (int, int) {
    (s.questions as int, s.words as int)
}

/// Element-wise sum of two modelled counter pairs.
pub open spec fn stat_merge(a: (int, int), b: (int, int)) -> (int, int) {
    (a.0 + b.0, a.1 + b.1)
}

impl Stat {
    /// Create a counter pair holding `q` questions and `w` words.
    pub fn new(q: u64, w: u64) -> (s: Stat)
        ensures
            s.questions == q,
            s.words == w,
    {
        Stat { questions: q, words: w }
    }

    /// Whether the element-wise sum with `other` stays within the counters' range.
    pub open spec fn sum_fits(self, other: Stat) -> bool {
        &&& self.questions + other.questions <= u64::MAX
        &&& self.words + other.words <= u64::MAX
    }

    /// Decide whether `sum` may be called on this pair and `other`.
    pub fn fits(&self, other: &Stat) -> (r: bool)
        ensures
            r == self.sum_fits(*other),
    {
        self.questions <= u64::MAX - other.questions && self.words <= u64::MAX - other.words
    }

    /// Combine two counter pairs by summing their questions and words.
    pub fn sum(&mut self, stat: &Stat)
        requires
            old(self).sum_fits(*stat),
        ensures
            final(self).questions == old(self).questions + stat.questions,
            final(self).words == old(self).words + stat.words,
            stat_model(*final(self)) == stat_merge(stat_model(*old(self)), stat_model(*stat)),
    {
        self.questions = self.questions + stat.questions;
        self.words = self.words + stat.words;
    }
}

/// Merging counter pairs is commutative.
pub proof fn lemma_stat_merge_commutative(a: (int, int), b: (int, int))
    ensures
        stat_merge(a, b) == stat_merge(b, a),
{
}

/// Merging counter pairs is associative.
pub proof fn lemma_stat_merge_associative(a: (int, int), b: (int, int), c: (int, int))
    ensures
        stat_merge(stat_merge(a, b), c) == stat_merge(a, stat_merge(b, c)),
{
}

/// The all-zero counter pair is the identity of the merge.
pub proof fn lemma_stat_merge_identity(a: (int, int))
    ensures
        stat_merge(a, (0, 0)) == a,
        stat_merge((0, 0), a) == a,
{
}

} // verus!
