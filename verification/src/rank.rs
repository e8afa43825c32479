use vstd::prelude::*;
use vstd::relations::{total_ordering, sorted_by};
use vstd::seq_lib::{lemma_sorted_unique, to_multiset_insert, group_to_multiset_ensures};
use crate::stat::Stat;

verus! {

/// The model of a ranked entry: name, question count, word count.
pub type RankEntry = (Seq<char>, int, int);

pub open spec fn entry_model(p: (String, Stat)) -> RankEntry {
    (p.0@, p.1.questions as int, p.1.words as int)
}

pub open spec fn entries_model(s: Seq<(String, Stat)>) -> Seq<RankEntry> {
    s.map_values(|p: (String, Stat)| entry_model(p))
}

pub open spec fn name_views(s: Seq<String>) -> Seq<Seq<char>> {
    s.map_values(|x: String| x@)
}

/// Two characters with the same scalar value are the same character.
proof fn char_cast_inj(c: char, d: char)
    requires
        c as u32 == d as u32,
    ensures
        c == d,
{
}

/// Names ordered by Unicode scalar value, shorter prefixes first.
pub open spec fn lex_le(a: Seq<char>, b: Seq<char>) -> bool
    decreases a.len(),
{
    if a.len() == 0 {
        true
    } else if b.len() == 0 {
        false
    } else if a[0] as u32 != b[0] as u32 {
        (a[0] as u32) < (b[0] as u32)
    } else {
        lex_le(a.skip(1), b.skip(1))
    }
}

pub proof fn lemma_lex_le_total(a: Seq<char>, b: Seq<char>)
    ensures
        lex_le(a, b) || lex_le(b, a),
    decreases a.len(),
{
    if a.len() != 0 && b.len() != 0 && a[0] as u32 == b[0] as u32 {
        lemma_lex_le_total(a.skip(1), b.skip(1));
    }
}

pub proof fn lemma_lex_le_antisymmetric(a: Seq<char>, b: Seq<char>)
    requires
        lex_le(a, b),
        lex_le(b, a),
    ensures
        a == b,
    decreases a.len(),
{
    if a.len() == 0 {
        assert(b.len() == 0);
        assert(a =~= b);
    } else {
        assert(b.len() != 0);
        if a[0] as u32 != b[0] as u32 {
            assert((a[0] as u32) < (b[0] as u32));
            assert((b[0] as u32) < (a[0] as u32));
        }
        char_cast_inj(a[0], b[0]);
        lemma_lex_le_antisymmetric(a.skip(1), b.skip(1));
        assert forall|t: int| 0 <= t < a.len() implies a[t] == b[t] by {
            if t > 0 {
                assert(a.skip(1)[t - 1] == a[t]);
                assert(b.skip(1)[t - 1] == b[t]);
            }
        }
        assert(a =~= b);
    }
}

pub proof fn lemma_lex_le_transitive(a: Seq<char>, b: Seq<char>, c: Seq<char>)
    requires
        lex_le(a, b),
        lex_le(b, c),
    ensures
        lex_le(a, c),
    decreases a.len(),
{
    if a.len() != 0 {
        assert(b.len() != 0);
        assert(c.len() != 0);
        if a[0] as u32 == b[0] as u32 && b[0] as u32 == c[0] as u32 {
            lemma_lex_le_transitive(a.skip(1), b.skip(1), c.skip(1));
        }
    }
}

/// The tie break of the ranking: name ascending, then the raw counts, so
/// that no two distinct entries ever compare equal both ways.
pub open spec fn rank_tie_le(a: RankEntry, b: RankEntry) -> bool {
    if a.0 != b.0 {
        lex_le(a.0, b.0)
    } else if a.1 != b.1 {
        a.1 < b.1
    } else {
        a.2 <= b.2
    }
}

/// The ranking order: the entry with the larger ratio (words over questions,
/// compared exactly by cross-multiplication) comes first; equal ratios fall
/// to the tie break. An entry without questions has no ratio; it sorts ahead
/// of the rest, and the report never ranks one.
pub open spec fn rank_le(a: RankEntry, b: RankEntry) -> bool {
    if a.1 <= 0 && b.1 <= 0 {
        rank_tie_le(a, b)
    } else if a.1 <= 0 {
        true
    } else if b.1 <= 0 {
        false
    } else if a.2 * b.1 != b.2 * a.1 {
        a.2 * b.1 > b.2 * a.1
    } else {
        rank_tie_le(a, b)
    }
}

/// The ranking order as a relation value.
pub open spec fn rank_order() -> spec_fn(RankEntry, RankEntry) -> bool {
    |a: RankEntry, b: RankEntry| rank_le(a, b)
}

pub proof fn lemma_rank_tie_le_total(a: RankEntry, b: RankEntry)
    ensures
        rank_tie_le(a, b) || rank_tie_le(b, a),
        rank_tie_le(a, b) && rank_tie_le(b, a) ==> a.0 == b.0 && a.1 == b.1 && a.2 == b.2,
{
    lemma_lex_le_total(a.0, b.0);
    if rank_tie_le(a, b) && rank_tie_le(b, a) && a.0 != b.0 {
        lemma_lex_le_antisymmetric(a.0, b.0);
    }
}

pub proof fn lemma_rank_tie_le_transitive(a: RankEntry, b: RankEntry, c: RankEntry)
    requires
        rank_tie_le(a, b),
        rank_tie_le(b, c),
    ensures
        rank_tie_le(a, c),
{
    if a.0 != b.0 && b.0 != c.0 {
        lemma_lex_le_transitive(a.0, b.0, c.0);
        if a.0 == c.0 {
            lemma_lex_le_antisymmetric(a.0, b.0);
        }
    }
}

pub proof fn lemma_rank_le_transitive(a: RankEntry, b: RankEntry, c: RankEntry)
    requires
        rank_le(a, b),
        rank_le(b, c),
    ensures
        rank_le(a, c),
{
    if a.1 <= 0 {
        if c.1 <= 0 {
            if b.1 <= 0 {
                lemma_rank_tie_le_transitive(a, b, c);
            }
        }
    } else {
        assert(b.1 > 0);
        assert(c.1 > 0);
        if a.2 * b.1 == b.2 * a.1 && b.2 * c.1 == c.2 * b.1 {
            assert(a.2 * c.1 == c.2 * a.1) by (nonlinear_arith)
                requires
                    a.1 > 0,
                    b.1 > 0,
                    c.1 > 0,
                    a.2 * b.1 == b.2 * a.1,
                    b.2 * c.1 == c.2 * b.1,
            ;
            lemma_rank_tie_le_transitive(a, b, c);
        } else if a.2 * b.1 == b.2 * a.1 {
            assert(b.2 * c.1 > c.2 * b.1);
            assert(a.2 * c.1 > c.2 * a.1) by (nonlinear_arith)
                requires
                    a.1 > 0,
                    b.1 > 0,
                    c.1 > 0,
                    a.2 * b.1 == b.2 * a.1,
                    b.2 * c.1 > c.2 * b.1,
            ;
        } else if b.2 * c.1 == c.2 * b.1 {
            assert(a.2 * b.1 > b.2 * a.1);
            assert(a.2 * c.1 > c.2 * a.1) by (nonlinear_arith)
                requires
                    a.1 > 0,
                    b.1 > 0,
                    c.1 > 0,
                    a.2 * b.1 > b.2 * a.1,
                    b.2 * c.1 == c.2 * b.1,
            ;
        } else {
            assert(a.2 * b.1 > b.2 * a.1);
            assert(b.2 * c.1 > c.2 * b.1);
            assert(a.2 * c.1 > c.2 * a.1) by (nonlinear_arith)
                requires
                    a.1 > 0,
                    b.1 > 0,
                    c.1 > 0,
                    a.2 * b.1 > b.2 * a.1,
                    b.2 * c.1 > c.2 * b.1,
            ;
        }
    }
}

/// The ranking order is a total ordering: reflexive, antisymmetric,
/// transitive and strongly connected.
pub proof fn lemma_rank_order_total()
    ensures
        total_ordering(rank_order()),
{
    let leq = rank_order();
    assert forall|a: RankEntry| #[trigger] leq(a, a) by {
        assert(rank_le(a, a));
    }
    assert forall|a: RankEntry, b: RankEntry| #[trigger] leq(a, b) && #[trigger] leq(b, a)
        implies a == b by {
        lemma_rank_tie_le_total(a, b);
        if a.1 > 0 && b.1 > 0 && rank_tie_le(a, b) && rank_tie_le(b, a) {
            assert(a.2 * b.1 == b.2 * a.1 && a.0 == b.0 && a.1 == b.1 && a.2 == b.2);
        }
    }
    assert forall|a: RankEntry, b: RankEntry, c: RankEntry|
        #[trigger] leq(a, b) && #[trigger] leq(b, c) implies leq(a, c) by {
        lemma_rank_le_transitive(a, b, c);
    }
    assert forall|a: RankEntry, b: RankEntry| #[trigger] leq(a, b) || #[trigger] leq(b, a) by {
        lemma_rank_tie_le_total(a, b);
        if a.1 > 0 && b.1 > 0 {
            assert(a.2 * b.1 != b.2 * a.1 ==> (a.2 * b.1 > b.2 * a.1 || b.2 * a.1 > a.2 * b.1));
        }
    }
}

/// The ranked names of the entries: sorted by the ranking order, then the
/// names alone are kept.
pub open spec fn rank_model(s: Seq<RankEntry>) -> Seq<Seq<char>> {
    s.sort_by(rank_order()).map_values(|e: RankEntry| e.0)
}

/// Ranking does not depend on the order in which the entries were listed:
/// two listings of the same entries rank identically.
pub proof fn lemma_rank_insensitive(s1: Seq<RankEntry>, s2: Seq<RankEntry>)
    requires
        s1.to_multiset() == s2.to_multiset(),
    ensures
        rank_model(s1) == rank_model(s2),
{
    lemma_rank_order_total();
    s1.lemma_sort_by_ensures(rank_order());
    s2.lemma_sort_by_ensures(rank_order());
    lemma_sorted_unique(s1.sort_by(rank_order()), s2.sort_by(rank_order()), rank_order());
    assert(s1.sort_by(rank_order()) == s2.sort_by(rank_order()));
}

/// Lexicographic comparison of two names.
fn str_le(a: &String, b: &String) -> (r: bool)
    ensures
        r == lex_le(a@, b@),
{
    let la = a.as_str().unicode_len();
    let lb = b.as_str().unicode_len();
    let mut i: usize = 0;
    proof {
        assert(a@.skip(0) =~= a@);
        assert(b@.skip(0) =~= b@);
    }
    while i < la && i < lb
        invariant
            i <= la,
            i <= lb,
            la == a@.len(),
            lb == b@.len(),
            lex_le(a@, b@) == lex_le(a@.skip(i as int), b@.skip(i as int)),
            lex_le(b@, a@) == lex_le(b@.skip(i as int), a@.skip(i as int)),
        decreases la - i,
    {
        let ca = a.as_str().get_char(i);
        let cb = b.as_str().get_char(i);
        proof {
            assert(a@.skip(i as int)[0] == a@[i as int]);
            assert(b@.skip(i as int)[0] == b@[i as int]);
            assert(a@.skip(i as int).skip(1) =~= a@.skip(i as int + 1));
            assert(b@.skip(i as int).skip(1) =~= b@.skip(i as int + 1));
        }
        if (ca as u32) < (cb as u32) {
            return true;
        }
        if (ca as u32) > (cb as u32) {
            return false;
        }
        i = i + 1;
    }
    proof {
        if i >= la {
            assert(a@.skip(i as int).len() == 0);
        } else {
            assert(b@.skip(i as int).len() == 0);
            assert(a@.skip(i as int).len() > 0);
        }
    }
    la <= lb
}

/// Decide the ranking order between two named counter pairs.
fn entry_le(a: &(String, Stat), b: &(String, Stat)) -> (r: bool)
    ensures
        r == rank_le(entry_model(*a), entry_model(*b)),
{
    let tie: bool;
    if !(a.0 == b.0) {
        tie = str_le(&a.0, &b.0);
    } else if a.1.questions != b.1.questions {
        tie = a.1.questions < b.1.questions;
    } else {
        tie = a.1.words <= b.1.words;
    }
    if a.1.questions == 0 && b.1.questions == 0 {
        tie
    } else if a.1.questions == 0 {
        true
    } else if b.1.questions == 0 {
        false
    } else {
        proof {
            assert((a.1.words as int) * (b.1.questions as int) <= u128::MAX) by (nonlinear_arith)
                requires
                    0 <= a.1.words <= u64::MAX,
                    0 <= b.1.questions <= u64::MAX,
            ;
            assert((b.1.words as int) * (a.1.questions as int) <= u128::MAX) by (nonlinear_arith)
                requires
                    0 <= b.1.words <= u64::MAX,
                    0 <= a.1.questions <= u64::MAX,
            ;
        }
        let left: u128 = (a.1.words as u128) * (b.1.questions as u128);
        let right: u128 = (b.1.words as u128) * (a.1.questions as u128);
        if left != right {
            left > right
        } else {
            tie
        }
    }
}

/// Where to insert an entry so that the table stays sorted.
fn insert_position(sorted: &Vec<(String, Stat)>, p: &(String, Stat)) -> (j: usize)
    ensures
        j <= sorted@.len(),
        forall|t: int|
            0 <= t < j ==> rank_le(entry_model(#[trigger] sorted@[t]), entry_model(*p)),
        j < sorted@.len() ==> !rank_le(entry_model(sorted@[j as int]), entry_model(*p)),
{
    let mut j: usize = 0;
    while j < sorted.len()
        invariant
            j <= sorted@.len(),
            forall|t: int|
                0 <= t < j ==> rank_le(entry_model(#[trigger] sorted@[t]), entry_model(*p)),
        decreases sorted@.len() - j,
    {
        if !entry_le(&sorted[j], p) {
            return j;
        }
        j = j + 1;
    }
    j
}

/// Sort the named counter pairs and hand out the names alone: ratio
/// descending, exact ties by name ascending.
pub fn keys_sorted_by_value(pairs: &Vec<(String, Stat)>) -> (r: Vec<String>)
    ensures
        name_views(r@) == rank_model(entries_model(pairs@)),
        r@.len() == pairs@.len(),
{
    let mut sorted: Vec<(String, Stat)> = Vec::new();
    let mut i: usize = 0;
    proof {
        assert(pairs@.take(0) =~= Seq::<(String, Stat)>::empty());
        assert(entries_model(sorted@) =~= entries_model(pairs@.take(0)));
    }
    while i < pairs.len()
        invariant
            i <= pairs@.len(),
            sorted@.len() == i,
            sorted_by(entries_model(sorted@), rank_order()),
            entries_model(sorted@).to_multiset() == entries_model(
                pairs@.take(i as int),
            ).to_multiset(),
        decreases pairs@.len() - i,
    {
        let name_i = pairs[i].0.clone();
        let stat_i = pairs[i].1;
        let p = (name_i, stat_i);
        proof {
            assert(p == pairs@[i as int]);
        }
        let j = insert_position(&sorted, &p);
        let ghost prev = sorted@;
        let ghost pm = entry_model(pairs@[i as int]);
        sorted.insert(j, p);
        proof {
            lemma_rank_order_total();
            let leq = rank_order();
            let om = entries_model(prev);
            let nm = entries_model(sorted@);
            assert forall|t: int| 0 <= t < nm.len() implies nm[t] == om.insert(j as int, pm)[t]
                by {
                if t < j as int {
                    assert(sorted@[t] == prev[t]);
                } else if t > j as int {
                    assert(sorted@[t] == prev[t - 1]);
                }
            }
            assert(nm =~= om.insert(j as int, pm));
            to_multiset_insert(om, j as int, pm);
            // the new prefix of the input grows by the same entry
            assert(pairs@.take(i as int + 1).drop_last() =~= pairs@.take(i as int));
            let tm1 = entries_model(pairs@.take(i as int + 1));
            let tm = entries_model(pairs@.take(i as int));
            assert forall|t: int| 0 <= t < tm1.len() implies tm1[t] == tm.push(pm)[t] by {
                if t < i as int {
                    assert(pairs@.take(i as int + 1)[t] == pairs@.take(i as int)[t]);
                }
            }
            assert(tm1 =~= tm.push(pm));
            broadcast use group_to_multiset_ensures;

            assert(tm1.to_multiset() =~= tm.to_multiset().insert(pm));
            assert(nm.to_multiset() == tm1.to_multiset());
            // sortedness around the inserted entry
            if (j as int) < om.len() {
                assert(leq(om[j as int], pm) || leq(pm, om[j as int]));
                assert(leq(pm, om[j as int]));
            }
            assert forall|x: int, y: int| 0 <= x < y < nm.len() implies leq(nm[x], nm[y]) by {
                if y < j as int {
                    assert(leq(om[x], om[y]));
                } else if x < j as int && y == j as int {
                    assert(rank_le(entry_model(prev[x]), pm));
                } else if x < j as int && y > j as int {
                    assert(leq(om[x], om[y - 1]));
                } else if x == j as int {
                    assert(leq(pm, om[j as int]));
                    if y - 1 > j as int {
                        assert(leq(om[j as int], om[y - 1]));
                        assert(leq(pm, om[y - 1]));
                    }
                } else {
                    assert(leq(om[x - 1], om[y - 1]));
                }
            }
        }
        i = i + 1;
    }
    proof {
        lemma_rank_order_total();
        assert(pairs@.take(pairs@.len() as int) =~= pairs@);
        entries_model(pairs@).lemma_sort_by_ensures(rank_order());
        lemma_sorted_unique(
            entries_model(sorted@),
            entries_model(pairs@).sort_by(rank_order()),
            rank_order(),
        );
        assert(entries_model(sorted@) == entries_model(pairs@).sort_by(rank_order()));
    }
    let mut names: Vec<String> = Vec::new();
    let mut t: usize = 0;
    while t < sorted.len()
        invariant
            t <= sorted@.len(),
            names@.len() == t,
            forall|x: int| 0 <= x < t ==> (#[trigger] names@[x])@ == entries_model(sorted@)[x].0,
        decreases sorted@.len() - t,
    {
        names.push(sorted[t].0.clone());
        t = t + 1;
    }
    proof {
        assert forall|x: int| 0 <= x < names@.len() implies #[trigger] name_views(names@)[x]
            == rank_model(entries_model(pairs@))[x] by {
            assert(name_views(names@)[x] == names@[x]@);
        }
        assert(name_views(names@) =~= rank_model(entries_model(pairs@)));
    }
    names
}

} // verus!
