use vstd::prelude::*;
use crate::stat::{Stat, stat_model, stat_merge};
use crate::words::{words_of, count_words};
use crate::line_parser::LineParser;

verus! {

/// The model of a tag table: each tag name to the modelled counter pair of
/// its latest entry.
pub open spec fn tag_map(entries: Seq<(String, Stat)>) -> Map<Seq<char>, (int, int)>
    decreases entries.len(),
{
    if entries.len() == 0 {
        Map::empty()
    } else {
        tag_map(entries.drop_last()).insert(entries.last().0@, stat_model(entries.last().1))
    }
}

/// No tag name appears twice in the table.
pub open spec fn unique_keys(entries: Seq<(String, Stat)>) -> bool {
    forall|i: int, j: int|
        0 <= i < j < entries.len() ==> (#[trigger] entries[i]).0@ != (#[trigger] entries[j]).0@
}

/// Union of two tag tables; a tag present in both holds the sum of its pairs.
pub open spec fn merge_tag_maps(
    m1: Map<Seq<char>, (int, int)>,
    m2: Map<Seq<char>, (int, int)>,
) -> Map<Seq<char>, (int, int)> {
    Map::new(
        |k: Seq<char>| m1.dom().contains(k) || m2.dom().contains(k),
        |k: Seq<char>|
            if m1.dom().contains(k) && m2.dom().contains(k) {
                stat_merge(m1[k], m2[k])
            } else if m2.dom().contains(k) {
                m2[k]
            } else {
                m1[k]
            },
    )
}

/// The tag table of a single record: every listed tag holds one question of
/// `w` words.
pub open spec fn record_tag_map(tags: Seq<Seq<char>>, w: int) -> Map<Seq<char>, (int, int)> {
    Map::new(|k: Seq<char>| tags.contains(k), |k: Seq<char>| (1int, w))
}

pub proof fn lemma_unique_drop_last(entries: Seq<(String, Stat)>)
    requires
        unique_keys(entries),
        entries.len() > 0,
    ensures
        unique_keys(entries.drop_last()),
{
    assert forall|i: int, j: int|
        0 <= i < j < entries.drop_last().len() implies (#[trigger] entries.drop_last()[i]).0@ != (
    #[trigger] entries.drop_last()[j]).0@ by {
        assert(entries.drop_last()[i] == entries[i]);
        assert(entries.drop_last()[j] == entries[j]);
    }
}

/// A tag stands in the table's model exactly when some entry carries it.
pub proof fn lemma_tag_map_contains(entries: Seq<(String, Stat)>, k: Seq<char>)
    ensures
        tag_map(entries).dom().contains(k) <==> (exists|i: int|
            0 <= i < entries.len() && (#[trigger] entries[i]).0@ == k),
    decreases entries.len(),
{
    if entries.len() > 0 {
        lemma_tag_map_contains(entries.drop_last(), k);
        if entries.last().0@ == k {
            assert(entries[entries.len() - 1].0@ == k);
        } else {
            if tag_map(entries).dom().contains(k) {
                let i = choose|i: int|
                    0 <= i < entries.drop_last().len() && (#[trigger] entries.drop_last()[i]).0@
                        == k;
                assert(entries[i].0@ == k);
            }
            if exists|i: int| 0 <= i < entries.len() && (#[trigger] entries[i]).0@ == k {
                let i = choose|i: int| 0 <= i < entries.len() && (#[trigger] entries[i]).0@ == k;
                assert(i < entries.len() - 1);
                assert(entries.drop_last()[i].0@ == k);
            }
        }
    }
}

/// With unique keys, entry `i` gives the model's value at its tag.
pub proof fn lemma_tag_map_index(entries: Seq<(String, Stat)>, i: int)
    requires
        unique_keys(entries),
        0 <= i < entries.len(),
    ensures
        tag_map(entries).dom().contains(entries[i].0@),
        tag_map(entries)[entries[i].0@] == stat_model(entries[i].1),
    decreases entries.len(),
{
    if i < entries.len() - 1 {
        lemma_unique_drop_last(entries);
        lemma_tag_map_index(entries.drop_last(), i);
        assert(entries.drop_last()[i] == entries[i]);
        assert(entries[i].0@ != entries[entries.len() - 1].0@);
    }
}

/// Updating entry `i` with a new pair under the same tag updates the model
/// at that tag alone.
pub proof fn lemma_tag_map_update(entries: Seq<(String, Stat)>, i: int, st: Stat)
    requires
        unique_keys(entries),
        0 <= i < entries.len(),
    ensures
        tag_map(entries.update(i, (entries[i].0, st))) == tag_map(entries).insert(
            entries[i].0@,
            stat_model(st),
        ),
    decreases entries.len(),
{
    let u = entries.update(i, (entries[i].0, st));
    if i == entries.len() - 1 {
        assert(u.drop_last() =~= entries.drop_last());
        assert(u.last() == (entries[i].0, st));
        assert(tag_map(u) =~= tag_map(entries).insert(entries[i].0@, stat_model(st)));
    } else {
        lemma_unique_drop_last(entries);
        assert(entries.drop_last()[i] == entries[i]);
        lemma_tag_map_update(entries.drop_last(), i, st);
        assert(u.drop_last() =~= entries.drop_last().update(i, (entries[i].0, st)));
        assert(u.last() == entries.last());
        assert(entries[i].0@ != entries[entries.len() - 1].0@);
        assert(tag_map(u) =~= tag_map(entries).insert(entries[i].0@, stat_model(st)));
    }
}

/// Find the entry that carries `key`, if any.
pub fn find_tag(tags: &Vec<(String, Stat)>, key: &String) -> (r: Option<usize>)
    ensures
        match r {
            Some(i) => 0 <= i < tags@.len() && tags@[i as int].0@ == key@,
            None => forall|j: int| 0 <= j < tags@.len() ==> (#[trigger] tags@[j]).0@ != key@,
        },
{
    let mut j: usize = 0;
    while j < tags.len()
        invariant
            j <= tags@.len(),
            forall|t: int| 0 <= t < j ==> (#[trigger] tags@[t]).0@ != key@,
        decreases tags@.len() - j,
    {
        if tags[j].0 == *key {
            return Some(j);
        }
        j = j + 1;
    }
    None
}

/// The aggregate statistics of one source: its totals, a counter pair per
/// tag, and the ranked tag names filled in at report time.
#[derive(Debug)]
pub struct Site {
    pub questions: u64,
    pub words: u64,
    pub tags: Vec<(String, Stat)>,
    pub chatty_tags: Vec<String>,
}

/// Element-wise merge of two modelled sites; the tag tables unite.
pub open spec fn site_merge(
    a: (int, int, Map<Seq<char>, (int, int)>),
    b: (int, int, Map<Seq<char>, (int, int)>),
) -> (int, int, Map<Seq<char>, (int, int)>) {
    (a.0 + b.0, a.1 + b.1, merge_tag_maps(a.2, b.2))
}

impl Site {
    /// Tag names never repeat, and no tag counts more than the whole site.
    pub open spec fn wf(self) -> bool {
        &&& unique_keys(self.tags@)
        &&& forall|i: int|
            0 <= i < self.tags@.len() ==> (#[trigger] self.tags@[i]).1.questions <= self.questions
                && self.tags@[i].1.words <= self.words
    }

    /// The unbounded model: question count, word count, tag table.
    pub open spec fn model(self) -> (int, int, Map<Seq<char>, (int, int)>) {
        (self.questions as int, self.words as int, tag_map(self.tags@))
    }

    /// Create a new empty site: the identity of the merge.
    pub fn new() -> (s: Site)
        ensures
            s.wf(),
            s.questions == 0,
            s.words == 0,
            s.tags@.len() == 0,
            s.chatty_tags@.len() == 0,
            s.model() == (0int, 0int, Map::<Seq<char>, (int, int)>::empty()),
    {
        Site { questions: 0, words: 0, tags: Vec::new(), chatty_tags: Vec::new() }
    }

    /// Turn one decoded record into a single-question site: the word count of
    /// its joined texts, and one counter pair per distinct tag.
    pub fn from_line(line: LineParser) -> (s: Site)
        ensures
            s.wf(),
            s.questions == 1,
            s.words == words_of(line.texts.deep_view()),
            tag_map(s.tags@) == record_tag_map(
                line.tags.deep_view(),
                words_of(line.texts.deep_view()),
            ),
            s.chatty_tags@.len() == 0,
    {
        let w_count = count_words(&line.texts);
        let w: u64 = w_count as u64;
        let ghost tviews = line.tags.deep_view();
        let mut tags: Vec<(String, Stat)> = Vec::new();
        let mut k: usize = 0;
        while k < line.tags.len()
            invariant
                k <= line.tags@.len(),
                tviews == line.tags.deep_view(),
                tviews.len() == line.tags@.len(),
                unique_keys(tags@),
                forall|i: int|
                    0 <= i < tags@.len() ==> (#[trigger] tags@[i]).1.questions == 1
                        && tags@[i].1.words == w,
                tag_map(tags@) == record_tag_map(tviews.take(k as int), w as int),
            decreases line.tags@.len() - k,
        {
            proof {
                assert(tviews[k as int] == line.tags@[k as int]@);
            }
            let tag = &line.tags[k];
            match find_tag(&tags, tag) {
                Some(i) => {
                    proof {
                        lemma_tag_map_index(tags@, i as int);
                        lemma_tag_map_contains(tags@, tag@);
                        assert(record_tag_map(tviews.take(k as int), w as int).dom().contains(
                            tag@,
                        ));
                        assert(tviews.take(k as int).contains(tag@));
                        assert forall|x: Seq<char>|
                            tviews.take(k as int + 1).contains(x) implies tviews.take(
                            k as int,
                        ).contains(x) by {
                            let t = choose|t: int|
                                0 <= t < tviews.take(k as int + 1).len() && (#[trigger] tviews.take(
                                    k as int + 1,
                                )[t]) == x;
                            if t < k as int {
                                assert(tviews.take(k as int)[t] == x);
                            } else {
                                assert(x == tag@);
                                assert(tviews.take(k as int).contains(x));
                            }
                        }
                        assert forall|x: Seq<char>|
                            tviews.take(k as int).contains(x) implies tviews.take(
                            k as int + 1,
                        ).contains(x) by {
                            let t = choose|t: int|
                                0 <= t < tviews.take(k as int).len() && (#[trigger] tviews.take(
                                    k as int,
                                )[t]) == x;
                            assert(tviews.take(k as int + 1)[t] == x);
                        }
                        assert(record_tag_map(tviews.take(k as int + 1), w as int)
                            =~= record_tag_map(tviews.take(k as int), w as int));
                    }
                },
                None => {
                    let ghost prev = tags@;
                    tags.push((tag.clone(), Stat::new(1, w)));
                    proof {
                        assert(tags@.drop_last() =~= prev);
                        assert(tags@.last().0@ == tag@);
                        assert(tag_map(tags@) == tag_map(prev).insert(tag@, (1int, w as int)));
                        lemma_tag_map_contains(prev, tag@);
                        assert forall|x: Seq<char>|
                            tviews.take(k as int + 1).contains(x) implies tag_map(
                            tags@,
                        ).dom().contains(x) by {
                            let t = choose|t: int|
                                0 <= t < tviews.take(k as int + 1).len() && (#[trigger] tviews.take(
                                    k as int + 1,
                                )[t]) == x;
                            if t < k as int {
                                assert(tviews.take(k as int)[t] == x);
                                assert(tviews.take(k as int).contains(x));
                            }
                        }
                        assert forall|x: Seq<char>|
                            tag_map(tags@).dom().contains(x) implies tviews.take(
                            k as int + 1,
                        ).contains(x) by {
                            if x == tag@ {
                                assert(tviews.take(k as int + 1)[k as int] == x);
                            } else {
                                let t = choose|t: int|
                                    0 <= t < tviews.take(k as int).len() && (#[trigger] tviews.take(
                                        k as int,
                                    )[t]) == x;
                                assert(tviews.take(k as int + 1)[t] == x);
                            }
                        }
                        assert(tag_map(tags@) =~= record_tag_map(
                            tviews.take(k as int + 1),
                            w as int,
                        ));
                        assert forall|i: int, j: int|
                            0 <= i < j < tags@.len() implies (#[trigger] tags@[i]).0@ != (
                        #[trigger] tags@[j]).0@ by {
                            if j == tags@.len() - 1 {
                                assert(prev[i].0@ != tag@);
                            }
                        }
                    }
                },
            }
            k = k + 1;
        }
        proof {
            assert(tviews.take(line.tags@.len() as int) =~= tviews);
        }
        Site { questions: 1, words: w, tags, chatty_tags: Vec::new() }
    }

    /// Combine two sites by summing their totals and uniting their tag
    /// tables; the tag pairs of a shared tag are summed.
    pub fn sum(&mut self, site: &Site)
        requires
            old(self).wf(),
            site.wf(),
            old(self).questions + site.questions <= u64::MAX,
            old(self).words + site.words <= u64::MAX,
        ensures
            final(self).wf(),
            final(self).model() == site_merge(old(self).model(), site.model()),
            final(self).chatty_tags == old(self).chatty_tags,
    {
        let ghost m_old = tag_map(old(self).tags@);
        let ghost q_old = old(self).questions;
        let ghost w_old = old(self).words;
        self.questions = self.questions + site.questions;
        self.words = self.words + site.words;
        let mut k: usize = 0;
        while k < site.tags.len()
            invariant
                k <= site.tags@.len(),
                site.wf(),
                m_old == tag_map(old(self).tags@),
                q_old == old(self).questions,
                w_old == old(self).words,
                forall|i: int|
                    0 <= i < old(self).tags@.len() ==> (#[trigger] old(self).tags@[i]).1.questions
                        <= q_old && old(self).tags@[i].1.words <= w_old,
                unique_keys(old(self).tags@),
                self.questions == q_old + site.questions,
                self.words == w_old + site.words,
                unique_keys(self.tags@),
                forall|i: int|
                    0 <= i < self.tags@.len() ==> (#[trigger] self.tags@[i]).1.questions
                        <= self.questions && self.tags@[i].1.words <= self.words,
                tag_map(self.tags@) == merge_tag_maps(m_old, tag_map(site.tags@.take(k as int))),
                self.chatty_tags == old(self).chatty_tags,
            decreases site.tags@.len() - k,
        {
            let key = &site.tags[k].0;
            let st = site.tags[k].1;
            let ghost t_k = tag_map(site.tags@.take(k as int));
            let ghost t_k1 = tag_map(site.tags@.take(k as int + 1));
            proof {
                assert(site.tags@.take(k as int + 1).drop_last() =~= site.tags@.take(k as int));
                assert(site.tags@.take(k as int + 1).last() == site.tags@[k as int]);
                assert(t_k1 == t_k.insert(key@, stat_model(st)));
                // the key is new to the prefix: the site's own keys are unique
                lemma_tag_map_contains(site.tags@.take(k as int), key@);
                assert forall|t: int|
                    0 <= t < site.tags@.take(k as int).len() implies (#[trigger] site.tags@.take(
                    k as int,
                )[t]).0@ != key@ by {
                    assert(site.tags@.take(k as int)[t] == site.tags@[t]);
                }
                assert(!t_k.dom().contains(key@));
            }
            match find_tag(&self.tags, key) {
                Some(i) => {
                    proof {
                        lemma_tag_map_index(self.tags@, i as int);
                        // the current value at the key comes from the old table
                        assert(tag_map(self.tags@)[key@] == m_old[key@]);
                        assert(m_old.dom().contains(key@));
                        lemma_tag_map_contains(old(self).tags@, key@);
                        let i0 = choose|i0: int|
                            0 <= i0 < old(self).tags@.len() && (#[trigger] old(
                                self,
                            ).tags@[i0]).0@ == key@;
                        lemma_tag_map_index(old(self).tags@, i0);
                        assert(m_old[key@] == stat_model(old(self).tags@[i0].1));
                        assert(m_old[key@].0 <= q_old && m_old[key@].1 <= w_old);
                    }
                    let ghost prev = self.tags@;
                    let entry = self.tags.remove(i);
                    let mut merged = entry.1;
                    proof {
                        assert(stat_model(entry.1) == m_old[key@]);
                        assert(st.questions <= site.questions && st.words <= site.words);
                    }
                    merged.sum(&st);
                    self.tags.insert(i, (entry.0, merged));
                    proof {
                        assert(self.tags@ =~= prev.update(i as int, (prev[i as int].0, merged)));
                        lemma_tag_map_update(prev, i as int, merged);
                        assert(tag_map(self.tags@) == tag_map(prev).insert(
                            key@,
                            stat_model(merged),
                        ));
                        assert(stat_model(merged) == stat_merge(m_old[key@], stat_model(st)));
                        assert(tag_map(self.tags@) =~= merge_tag_maps(m_old, t_k1));
                        assert forall|a: int, b: int|
                            0 <= a < b < self.tags@.len() implies (#[trigger] self.tags@[a]).0@
                            != (#[trigger] self.tags@[b]).0@ by {
                            assert(prev[a].0@ != prev[b].0@);
                        }
                    }
                },
                None => {
                    proof {
                        lemma_tag_map_contains(self.tags@, key@);
                        assert(!tag_map(self.tags@).dom().contains(key@));
                        assert(!m_old.dom().contains(key@));
                        assert(st.questions <= site.questions && st.words <= site.words);
                    }
                    let ghost prev = self.tags@;
                    self.tags.push((key.clone(), st));
                    proof {
                        assert(self.tags@.drop_last() =~= prev);
                        assert(tag_map(self.tags@) == tag_map(prev).insert(key@, stat_model(st)));
                        assert(tag_map(self.tags@) =~= merge_tag_maps(m_old, t_k1));
                        assert forall|a: int, b: int|
                            0 <= a < b < self.tags@.len() implies (#[trigger] self.tags@[a]).0@
                            != (#[trigger] self.tags@[b]).0@ by {
                            if b == self.tags@.len() - 1 {
                                assert(prev[a].0@ != key@);
                            } else {
                                assert(prev[a].0@ != prev[b].0@);
                            }
                        }
                    }
                },
            }
            k = k + 1;
        }
        proof {
            assert(site.tags@.take(site.tags@.len() as int) =~= site.tags@);
        }
    }

    /// Hand out the tag table.
    pub fn get_tags(&self) -> (r: &Vec<(String, Stat)>)
        ensures
            r == &self.tags,
    {
        &self.tags
    }

    /// Store the ranked tag names computed at report time.
    pub fn set_chatty_tags(&mut self, chatty_tags: Vec<String>)
        ensures
            final(self).chatty_tags == chatty_tags,
            final(self).questions == old(self).questions,
            final(self).words == old(self).words,
            final(self).tags == old(self).tags,
            old(self).wf() ==> final(self).wf(),
    {
        self.chatty_tags = chatty_tags;
    }
}

} // verus!
