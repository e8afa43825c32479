use vstd::prelude::*;
use crate::Error;
use crate::line_parser::{LineParser, line_ok, line_texts, line_tags};
use crate::site::{Site, site_merge, merge_tag_maps, record_tag_map};
use crate::words::{words_of, lemma_words_of_nonneg};

verus! {

/// The model of one record: the name of its site, its texts, its tags.
pub type RecordModel = (Seq<char>, Seq<Seq<char>>, Seq<Seq<char>>);

/// The model of a site: question count, word count, tag table.
pub type SiteModel = (int, int, Map<Seq<char>, (int, int)>);

/// The model of one named line before parsing, and of one parsed record.
pub open spec fn line_model(p: (String, LineParser)) -> RecordModel {
    (p.0@, p.1.texts.deep_view(), p.1.tags.deep_view())
}

pub open spec fn records_model(s: Seq<(String, LineParser)>) -> Seq<RecordModel> {
    s.map_values(|p: (String, LineParser)| line_model(p))
}

/// The single-question site one record contributes to its source.
pub open spec fn record_site_model(r: RecordModel) -> SiteModel {
    (1int, words_of(r.1), record_tag_map(r.2, words_of(r.1)))
}

/// The model of a site table, keyed by site name.
pub open spec fn sites_map(entries: Seq<(String, Site)>) -> Map<Seq<char>, SiteModel>
    decreases entries.len(),
{
    if entries.len() == 0 {
        Map::empty()
    } else {
        sites_map(entries.drop_last()).insert(entries.last().0@, entries.last().1.model())
    }
}

/// No site name appears twice in the table.
pub open spec fn sites_unique(entries: Seq<(String, Site)>) -> bool {
    forall|i: int, j: int|
        0 <= i < j < entries.len() ==> (#[trigger] entries[i]).0@ != (#[trigger] entries[j]).0@
}

/// Names are unique and every site is well formed.
pub open spec fn sites_wf(entries: Seq<(String, Site)>) -> bool {
    &&& sites_unique(entries)
    &&& forall|i: int| 0 <= i < entries.len() ==> (#[trigger] entries[i]).1.wf()
}

/// Union of two site tables; a name present in both holds the merge of its
/// two sites.
pub open spec fn merge_sites_maps(
    m1: Map<Seq<char>, SiteModel>,
    m2: Map<Seq<char>, SiteModel>,
) -> Map<Seq<char>, SiteModel> {
    Map::new(
        |k: Seq<char>| m1.dom().contains(k) || m2.dom().contains(k),
        |k: Seq<char>|
            if m1.dom().contains(k) && m2.dom().contains(k) {
                site_merge(m1[k], m2[k])
            } else if m2.dom().contains(k) {
                m2[k]
            } else {
                m1[k]
            },
    )
}

/// Fold one record into a site table.
pub open spec fn add_record(m: Map<Seq<char>, SiteModel>, r: RecordModel) -> Map<
    Seq<char>,
    SiteModel,
> {
    if m.dom().contains(r.0) {
        m.insert(r.0, site_merge(m[r.0], record_site_model(r)))
    } else {
        m.insert(r.0, record_site_model(r))
    }
}

/// The aggregate of a sequence of records: per site name, the monoid sum of
/// the single-question sites its records contribute.
pub open spec fn aggregate_model(recs: Seq<RecordModel>) -> Map<Seq<char>, SiteModel>
    decreases recs.len(),
{
    if recs.len() == 0 {
        Map::empty()
    } else {
        add_record(aggregate_model(recs.drop_last()), recs.last())
    }
}

/// Merging tag tables is commutative.
pub proof fn lemma_merge_tag_maps_commutative(
    m1: Map<Seq<char>, (int, int)>,
    m2: Map<Seq<char>, (int, int)>,
)
    ensures
        merge_tag_maps(m1, m2) == merge_tag_maps(m2, m1),
{
    assert(merge_tag_maps(m1, m2) =~= merge_tag_maps(m2, m1));
}

/// Merging tag tables is associative.
pub proof fn lemma_merge_tag_maps_associative(
    m1: Map<Seq<char>, (int, int)>,
    m2: Map<Seq<char>, (int, int)>,
    m3: Map<Seq<char>, (int, int)>,
)
    ensures
        merge_tag_maps(merge_tag_maps(m1, m2), m3) == merge_tag_maps(m1, merge_tag_maps(m2, m3)),
{
    assert(merge_tag_maps(merge_tag_maps(m1, m2), m3) =~= merge_tag_maps(
        m1,
        merge_tag_maps(m2, m3),
    ));
}

/// Merging sites is commutative.
pub proof fn lemma_site_merge_commutative(a: SiteModel, b: SiteModel)
    ensures
        site_merge(a, b) == site_merge(b, a),
{
    lemma_merge_tag_maps_commutative(a.2, b.2);
}

/// Merging sites is associative.
pub proof fn lemma_site_merge_associative(a: SiteModel, b: SiteModel, c: SiteModel)
    ensures
        site_merge(site_merge(a, b), c) == site_merge(a, site_merge(b, c)),
{
    lemma_merge_tag_maps_associative(a.2, b.2, c.2);
}

/// Merging site tables is commutative.
pub proof fn lemma_merge_sites_maps_commutative(
    m1: Map<Seq<char>, SiteModel>,
    m2: Map<Seq<char>, SiteModel>,
)
    ensures
        merge_sites_maps(m1, m2) == merge_sites_maps(m2, m1),
{
    assert forall|k: Seq<char>| #[trigger]
        merge_sites_maps(m1, m2).dom().contains(k) implies merge_sites_maps(m1, m2)[k]
        == merge_sites_maps(m2, m1)[k] by {
        if m1.dom().contains(k) && m2.dom().contains(k) {
            lemma_site_merge_commutative(m1[k], m2[k]);
        }
    }
    assert(merge_sites_maps(m1, m2) =~= merge_sites_maps(m2, m1));
}

/// Merging site tables is associative.
pub proof fn lemma_merge_sites_maps_associative(
    m1: Map<Seq<char>, SiteModel>,
    m2: Map<Seq<char>, SiteModel>,
    m3: Map<Seq<char>, SiteModel>,
)
    ensures
        merge_sites_maps(merge_sites_maps(m1, m2), m3) == merge_sites_maps(
            m1,
            merge_sites_maps(m2, m3),
        ),
{
    assert forall|k: Seq<char>| #[trigger]
        merge_sites_maps(merge_sites_maps(m1, m2), m3).dom().contains(k) implies merge_sites_maps(
        merge_sites_maps(m1, m2),
        m3,
    )[k] == merge_sites_maps(m1, merge_sites_maps(m2, m3))[k] by {
        if m1.dom().contains(k) && m2.dom().contains(k) && m3.dom().contains(k) {
            lemma_site_merge_associative(m1[k], m2[k], m3[k]);
        }
    }
    assert(merge_sites_maps(merge_sites_maps(m1, m2), m3) =~= merge_sites_maps(
        m1,
        merge_sites_maps(m2, m3),
    ));
}

/// The empty site table is the identity of the merge.
pub proof fn lemma_merge_sites_maps_identity(m: Map<Seq<char>, SiteModel>)
    ensures
        merge_sites_maps(Map::<Seq<char>, SiteModel>::empty(), m) == m,
        merge_sites_maps(m, Map::<Seq<char>, SiteModel>::empty()) == m,
{
    assert(merge_sites_maps(Map::<Seq<char>, SiteModel>::empty(), m) =~= m);
    assert(merge_sites_maps(m, Map::<Seq<char>, SiteModel>::empty()) =~= m);
}

/// Folding a record into a merged table equals merging after the fold.
pub proof fn lemma_add_record_merge(
    a: Map<Seq<char>, SiteModel>,
    b: Map<Seq<char>, SiteModel>,
    r: RecordModel,
)
    ensures
        add_record(merge_sites_maps(a, b), r) == merge_sites_maps(a, add_record(b, r)),
{
    if a.dom().contains(r.0) && b.dom().contains(r.0) {
        lemma_site_merge_associative(a[r.0], b[r.0], record_site_model(r));
    }
    assert(add_record(merge_sites_maps(a, b), r) =~= merge_sites_maps(a, add_record(b, r)));
}

/// Aggregating a concatenation equals merging the two aggregates: the records
/// may be split between workers at any point.
pub proof fn lemma_aggregate_concat(xs: Seq<RecordModel>, ys: Seq<RecordModel>)
    ensures
        aggregate_model(xs + ys) == merge_sites_maps(aggregate_model(xs), aggregate_model(ys)),
    decreases ys.len(),
{
    if ys.len() == 0 {
        assert(xs + ys =~= xs);
        lemma_merge_sites_maps_identity(aggregate_model(xs));
    } else {
        lemma_aggregate_concat(xs, ys.drop_last());
        assert((xs + ys).drop_last() =~= xs + ys.drop_last());
        assert((xs + ys).last() == ys.last());
        lemma_add_record_merge(aggregate_model(xs), aggregate_model(ys.drop_last()), ys.last());
    }
}

/// Component-wise bound on the totals of two modelled sites.
pub open spec fn site_totals_le(a: SiteModel, b: SiteModel) -> bool {
    a.0 <= b.0 && a.1 <= b.1
}

/// Folding a record in never shrinks a site's totals.
pub proof fn lemma_add_record_grows(m: Map<Seq<char>, SiteModel>, r: RecordModel)
    ensures
        forall|k: Seq<char>| #[trigger]
            m.dom().contains(k) ==> add_record(m, r).dom().contains(k) && site_totals_le(
                m[k],
                add_record(m, r)[k],
            ),
{
    lemma_words_of_nonneg(r.1);
}

/// Every site of a prefix aggregate stays, with totals no larger than in the
/// aggregate of the whole sequence.
pub proof fn lemma_aggregate_prefix_le(recs: Seq<RecordModel>, n: int)
    requires
        0 <= n <= recs.len(),
    ensures
        forall|k: Seq<char>| #[trigger]
            aggregate_model(recs.take(n)).dom().contains(k) ==> aggregate_model(
                recs,
            ).dom().contains(k) && site_totals_le(
                aggregate_model(recs.take(n))[k],
                aggregate_model(recs)[k],
            ),
    decreases recs.len() - n,
{
    if n == recs.len() {
        assert(recs.take(n) =~= recs);
    } else {
        lemma_aggregate_prefix_le(recs, n + 1);
        assert(recs.take(n + 1).drop_last() =~= recs.take(n));
        assert(recs.take(n + 1).last() == recs[n]);
        assert(aggregate_model(recs.take(n + 1)) == add_record(
            aggregate_model(recs.take(n)),
            recs[n],
        ));
        lemma_add_record_grows(aggregate_model(recs.take(n)), recs[n]);
        assert forall|k: Seq<char>| #[trigger]
            aggregate_model(recs.take(n)).dom().contains(k) implies aggregate_model(
            recs,
        ).dom().contains(k) && site_totals_le(
            aggregate_model(recs.take(n))[k],
            aggregate_model(recs)[k],
        ) by {
            assert(aggregate_model(recs.take(n + 1)).dom().contains(k));
            assert(site_totals_le(
                aggregate_model(recs.take(n))[k],
                aggregate_model(recs.take(n + 1))[k],
            ));
        }
    }
}

/// Whether every site total of the table fits the counters' range.
pub open spec fn sites_fit(m: Map<Seq<char>, SiteModel>) -> bool {
    forall|k: Seq<char>| #[trigger]
        m.dom().contains(k) ==> m[k].0 <= u64::MAX && m[k].1 <= u64::MAX
}

pub proof fn lemma_sites_unique_drop_last(entries: Seq<(String, Site)>)
    requires
        sites_unique(entries),
        entries.len() > 0,
    ensures
        sites_unique(entries.drop_last()),
{
    assert forall|i: int, j: int|
        0 <= i < j < entries.drop_last().len() implies (#[trigger] entries.drop_last()[i]).0@ != (
    #[trigger] entries.drop_last()[j]).0@ by {
        assert(entries.drop_last()[i] == entries[i]);
        assert(entries.drop_last()[j] == entries[j]);
    }
}

/// A name stands in the table's model exactly when some entry carries it.
pub proof fn lemma_sites_map_contains(entries: Seq<(String, Site)>, k: Seq<char>)
    ensures
        sites_map(entries).dom().contains(k) <==> (exists|i: int|
            0 <= i < entries.len() && (#[trigger] entries[i]).0@ == k),
    decreases entries.len(),
{
    if entries.len() > 0 {
        lemma_sites_map_contains(entries.drop_last(), k);
        if entries.last().0@ == k {
            assert(entries[entries.len() - 1].0@ == k);
        } else {
            if sites_map(entries).dom().contains(k) {
                let i = choose|i: int|
                    0 <= i < entries.drop_last().len() && (#[trigger] entries.drop_last()[i]).0@
                        == k;
                assert(entries[i].0@ == k);
            }
            if exists|i: int| 0 <= i < entries.len() && (#[trigger] entries[i]).0@ == k {
                let i = choose|i: int| 0 <= i < entries.len() && (#[trigger] entries[i]).0@ == k;
                assert(i < entries.len() - 1);
                assert(entries.drop_last()[i].0@ == k);
            }
        }
    }
}

/// With unique names, entry `i` gives the model's value at its name.
pub proof fn lemma_sites_map_index(entries: Seq<(String, Site)>, i: int)
    requires
        sites_unique(entries),
        0 <= i < entries.len(),
    ensures
        sites_map(entries).dom().contains(entries[i].0@),
        sites_map(entries)[entries[i].0@] == entries[i].1.model(),
    decreases entries.len(),
{
    if i < entries.len() - 1 {
        lemma_sites_unique_drop_last(entries);
        lemma_sites_map_index(entries.drop_last(), i);
        assert(entries.drop_last()[i] == entries[i]);
        assert(entries[i].0@ != entries[entries.len() - 1].0@);
    }
}

/// Updating entry `i` with a new site under the same name updates the model
/// at that name alone.
pub proof fn lemma_sites_map_update(entries: Seq<(String, Site)>, i: int, s: Site)
    requires
        sites_unique(entries),
        0 <= i < entries.len(),
    ensures
        sites_map(entries.update(i, (entries[i].0, s))) == sites_map(entries).insert(
            entries[i].0@,
            s.model(),
        ),
    decreases entries.len(),
{
    let u = entries.update(i, (entries[i].0, s));
    if i == entries.len() - 1 {
        assert(u.drop_last() =~= entries.drop_last());
        assert(u.last() == (entries[i].0, s));
        assert(sites_map(u) =~= sites_map(entries).insert(entries[i].0@, s.model()));
    } else {
        lemma_sites_unique_drop_last(entries);
        assert(entries.drop_last()[i] == entries[i]);
        lemma_sites_map_update(entries.drop_last(), i, s);
        assert(u.drop_last() =~= entries.drop_last().update(i, (entries[i].0, s)));
        assert(u.last() == entries.last());
        assert(entries[i].0@ != entries[entries.len() - 1].0@);
        assert(sites_map(u) =~= sites_map(entries).insert(entries[i].0@, s.model()));
    }
}

/// Find the entry that carries the site `name`, if any.
pub fn find_site(entries: &Vec<(String, Site)>, name: &String) -> (r: Option<usize>)
    ensures
        match r {
            Some(i) => 0 <= i < entries@.len() && entries@[i as int].0@ == name@,
            None => forall|j: int| 0 <= j < entries@.len() ==> (#[trigger] entries@[j]).0@ != name@,
        },
{
    let mut j: usize = 0;
    while j < entries.len()
        invariant
            j <= entries@.len(),
            forall|t: int| 0 <= t < j ==> (#[trigger] entries@[t]).0@ != name@,
        decreases entries@.len() - j,
    {
        if entries[j].0 == *name {
            return Some(j);
        }
        j = j + 1;
    }
    None
}

/// Fold a batch of parsed records, in order, into one site table. Fails with
/// `CounterOverflow` exactly when some site's aggregate question or word
/// total would leave the counters' range.
pub fn aggregate_records(records: Vec<(String, LineParser)>) -> (r: Result<
    Vec<(String, Site)>,
    Error,
>)
    ensures
        r matches Ok(sites) ==> sites_wf(sites@) && sites_map(sites@) == aggregate_model(
            records_model(records@),
        ),
        r is Ok <==> sites_fit(aggregate_model(records_model(records@))),
        r matches Err(e) ==> e == Error::CounterOverflow,
{
    let ghost rm = records_model(records@);
    let mut recs = records;
    let mut out: Vec<(String, Site)> = Vec::new();
    let ghost mut done: int = 0;
    while recs.len() > 0
        invariant
            rm == records_model(records@),
            0 <= done <= rm.len(),
            recs@.len() + done == rm.len(),
            records_model(recs@) == rm.skip(done),
            sites_wf(out@),
            sites_map(out@) == aggregate_model(rm.take(done)),
        decreases recs@.len(),
    {
        let ghost prev_recs = recs@;
        let pair = recs.remove(0);
        let ghost r0 = rm[done];
        proof {
            assert(records_model(prev_recs)[0] == line_model(prev_recs[0]));
            assert(rm.skip(done)[0] == rm[done]);
            assert(r0 == line_model(pair));
            assert forall|t: int| 0 <= t < recs@.len() implies #[trigger] records_model(recs@)[t]
                == rm.skip(done + 1)[t] by {
                assert(recs@[t] == prev_recs[t + 1]);
                assert(records_model(recs@)[t] == line_model(recs@[t]));
                assert(records_model(prev_recs)[t + 1] == line_model(prev_recs[t + 1]));
            }
            assert(records_model(recs@) =~= rm.skip(done + 1));
        }
        let name = pair.0;
        let line = pair.1;
        let fresh = Site::from_line(line);
        proof {
            assert(r0.0 == name@);
            assert(fresh.model() == record_site_model(r0));
            assert(rm.take(done + 1).drop_last() =~= rm.take(done));
            assert(rm.take(done + 1).last() == r0);
            assert(aggregate_model(rm.take(done + 1)) == add_record(
                aggregate_model(rm.take(done)),
                r0,
            ));
        }
        match find_site(&out, &name) {
            Some(i) => {
                proof {
                    lemma_sites_map_index(out@, i as int);
                }
                let cur_q = out[i].1.questions;
                let cur_w = out[i].1.words;
                if cur_q > u64::MAX - fresh.questions || cur_w > u64::MAX - fresh.words {
                    proof {
                        let m1 = aggregate_model(rm.take(done + 1));
                        assert(m1[name@] == site_merge(
                            aggregate_model(rm.take(done))[name@],
                            record_site_model(r0),
                        ));
                        assert(m1[name@].0 == cur_q + 1 && m1[name@].1 == cur_w + fresh.words);
                        lemma_aggregate_prefix_le(rm, done + 1);
                        assert(aggregate_model(rm.take(done + 1)).dom().contains(name@));
                        assert(site_totals_le(
                            aggregate_model(rm.take(done + 1))[name@],
                            aggregate_model(rm)[name@],
                        ));
                        assert(aggregate_model(rm).dom().contains(name@));
                        assert(aggregate_model(rm)[name@].0 > u64::MAX || aggregate_model(
                            rm,
                        )[name@].1 > u64::MAX);
                        assert(!sites_fit(aggregate_model(rm)));
                    }
                    return Err(Error::CounterOverflow);
                }
                let ghost prev = out@;
                let entry = out.remove(i);
                let mut merged_site = entry.1;
                merged_site.sum(&fresh);
                out.insert(i, (entry.0, merged_site));
                proof {
                    assert(out@ =~= prev.update(i as int, (prev[i as int].0, merged_site)));
                    lemma_sites_map_update(prev, i as int, merged_site);
                    assert(sites_map(out@) == sites_map(prev).insert(name@, merged_site.model()));
                    assert(merged_site.model() == site_merge(
                        aggregate_model(rm.take(done))[name@],
                        record_site_model(r0),
                    ));
                    assert(sites_map(out@) =~= aggregate_model(rm.take(done + 1)));
                    assert forall|a: int, b: int|
                        0 <= a < b < out@.len() implies (#[trigger] out@[a]).0@ != (
                    #[trigger] out@[b]).0@ by {
                        assert(prev[a].0@ != prev[b].0@);
                    }
                    assert forall|t: int| 0 <= t < out@.len() implies (#[trigger] out@[t]).1.wf()
                        by {
                        if t != i as int {
                            assert(out@[t] == prev[t]);
                        }
                    }
                }
            },
            None => {
                proof {
                    lemma_sites_map_contains(out@, name@);
                    assert(!sites_map(out@).dom().contains(name@));
                }
                let ghost prev = out@;
                out.push((name, fresh));
                proof {
                    assert(out@.drop_last() =~= prev);
                    assert(sites_map(out@) == sites_map(prev).insert(name@, fresh.model()));
                    assert(sites_map(out@) =~= aggregate_model(rm.take(done + 1)));
                    assert forall|a: int, b: int|
                        0 <= a < b < out@.len() implies (#[trigger] out@[a]).0@ != (
                    #[trigger] out@[b]).0@ by {
                        if b == out@.len() - 1 {
                            assert(prev[a].0@ != name@);
                        } else {
                            assert(prev[a].0@ != prev[b].0@);
                        }
                    }
                    assert forall|t: int| 0 <= t < out@.len() implies (#[trigger] out@[t]).1.wf()
                        by {
                        if t != out@.len() - 1 {
                            assert(out@[t] == prev[t]);
                        }
                    }
                }
            },
        }
        proof {
            done = done + 1;
        }
    }
    proof {
        assert(rm.take(done) =~= rm);
        assert forall|k: Seq<char>| #[trigger] sites_map(out@).dom().contains(k) implies sites_map(
            out@,
        )[k].0 <= u64::MAX && sites_map(out@)[k].1 <= u64::MAX by {
            lemma_sites_map_contains(out@, k);
            let i = choose|i: int| 0 <= i < out@.len() && (#[trigger] out@[i]).0@ == k;
            lemma_sites_map_index(out@, i);
        }
    }
    Ok(out)
}

/// Whether two site tables may be merged without a counter leaving its range.
pub open spec fn merge_fits(m1: Map<Seq<char>, SiteModel>, m2: Map<Seq<char>, SiteModel>) -> bool {
    forall|k: Seq<char>|
        m1.dom().contains(k) && #[trigger] m2.dom().contains(k) ==> m1[k].0 + m2[k].0 <= u64::MAX
            && m1[k].1 + m2[k].1 <= u64::MAX
}

/// Decide whether two site tables may be merged without overflow.
pub fn sites_merge_fits(sites: &Vec<(String, Site)>, other: &Vec<(String, Site)>) -> (r: bool)
    requires
        sites_wf(sites@),
        sites_wf(other@),
    ensures
        r == merge_fits(sites_map(sites@), sites_map(other@)),
{
    let mut j: usize = 0;
    while j < other.len()
        invariant
            j <= other@.len(),
            sites_wf(sites@),
            sites_wf(other@),
            forall|t: int|
                0 <= t < j && sites_map(sites@).dom().contains(
                    (#[trigger] other@[t]).0@,
                ) ==> sites_map(sites@)[other@[t].0@].0 + other@[t].1.questions <= u64::MAX
                    && sites_map(sites@)[other@[t].0@].1 + other@[t].1.words <= u64::MAX,
        decreases other@.len() - j,
    {
        let name = &other[j].0;
        match find_site(sites, name) {
            Some(i) => {
                proof {
                    lemma_sites_map_index(sites@, i as int);
                }
                let a_q = sites[i].1.questions;
                let a_w = sites[i].1.words;
                let b_q = other[j].1.questions;
                let b_w = other[j].1.words;
                if a_q > u64::MAX - b_q || a_w > u64::MAX - b_w {
                    proof {
                        lemma_sites_map_index(other@, j as int);
                        assert(!merge_fits(sites_map(sites@), sites_map(other@)));
                    }
                    return false;
                }
            },
            None => {
                proof {
                    lemma_sites_map_contains(sites@, name@);
                }
            },
        }
        j = j + 1;
    }
    proof {
        assert forall|k: Seq<char>|
            sites_map(sites@).dom().contains(k) && #[trigger] sites_map(other@).dom().contains(
                k,
            ) implies sites_map(sites@)[k].0 + sites_map(other@)[k].0 <= u64::MAX && sites_map(
            sites@,
        )[k].1 + sites_map(other@)[k].1 <= u64::MAX by {
            lemma_sites_map_contains(other@, k);
            let t = choose|t: int| 0 <= t < other@.len() && (#[trigger] other@[t]).0@ == k;
            lemma_sites_map_index(other@, t);
        }
    }
    true
}

/// Merge another site table into this one: totals of a shared name are
/// summed, new names are appended in the other table's order.
pub fn merge_sites(sites: &mut Vec<(String, Site)>, other: Vec<(String, Site)>)
    requires
        sites_wf(old(sites)@),
        sites_wf(other@),
        merge_fits(sites_map(old(sites)@), sites_map(other@)),
    ensures
        sites_wf(final(sites)@),
        sites_map(final(sites)@) == merge_sites_maps(sites_map(old(sites)@), sites_map(other@)),
{
    let ghost m_old = sites_map(old(sites)@);
    let ghost other0 = other@;
    let mut rest = other;
    let ghost mut done: int = 0;
    while rest.len() > 0
        invariant
            0 <= done <= other0.len(),
            rest@.len() + done == other0.len(),
            rest@ == other0.skip(done),
            sites_wf(other0),
            m_old == sites_map(old(sites)@),
            sites_wf(old(sites)@),
            merge_fits(m_old, sites_map(other0)),
            sites_wf(sites@),
            sites_map(sites@) == merge_sites_maps(m_old, sites_map(other0.take(done))),
        decreases rest@.len(),
    {
        let ghost prev_rest = rest@;
        let pair = rest.remove(0);
        proof {
            assert(prev_rest[0] == other0[done]);
            assert(rest@ =~= other0.skip(done + 1));
        }
        let name = pair.0;
        let other_site = pair.1;
        let ghost t_k = sites_map(other0.take(done));
        let ghost t_k1 = sites_map(other0.take(done + 1));
        proof {
            assert(other0.take(done + 1).drop_last() =~= other0.take(done));
            assert(other0.take(done + 1).last() == other0[done]);
            assert(t_k1 == t_k.insert(name@, other_site.model()));
            lemma_sites_map_contains(other0.take(done), name@);
            assert forall|t: int|
                0 <= t < other0.take(done).len() implies (#[trigger] other0.take(done)[t]).0@
                != name@ by {
                assert(other0.take(done)[t] == other0[t]);
                assert(other0[done].0@ == name@);
            }
            assert(!t_k.dom().contains(name@));
            lemma_sites_map_index(other0, done);
            assert(sites_map(other0).dom().contains(name@));
            assert(sites_map(other0)[name@] == other_site.model());
            assert(other_site.wf());
        }
        match find_site(sites, &name) {
            Some(i) => {
                proof {
                    lemma_sites_map_index(sites@, i as int);
                    assert(sites_map(sites@)[name@] == m_old[name@]);
                    assert(m_old.dom().contains(name@));
                    assert(m_old[name@].0 + other_site.questions <= u64::MAX);
                    assert(m_old[name@].1 + other_site.words <= u64::MAX);
                }
                let ghost prev = sites@;
                let entry = sites.remove(i);
                let mut merged_site = entry.1;
                merged_site.sum(&other_site);
                sites.insert(i, (entry.0, merged_site));
                proof {
                    assert(sites@ =~= prev.update(i as int, (prev[i as int].0, merged_site)));
                    lemma_sites_map_update(prev, i as int, merged_site);
                    assert(merged_site.model() == site_merge(m_old[name@], other_site.model()));
                    assert(sites_map(sites@) =~= merge_sites_maps(m_old, t_k1));
                    assert forall|a: int, b: int|
                        0 <= a < b < sites@.len() implies (#[trigger] sites@[a]).0@ != (
                    #[trigger] sites@[b]).0@ by {
                        assert(prev[a].0@ != prev[b].0@);
                    }
                    assert forall|t: int| 0 <= t < sites@.len() implies (
                    #[trigger] sites@[t]).1.wf() by {
                        if t != i as int {
                            assert(sites@[t] == prev[t]);
                        }
                    }
                }
            },
            None => {
                proof {
                    lemma_sites_map_contains(sites@, name@);
                    assert(!sites_map(sites@).dom().contains(name@));
                    assert(!m_old.dom().contains(name@));
                }
                let ghost prev = sites@;
                sites.push((name, other_site));
                proof {
                    assert(sites@.drop_last() =~= prev);
                    assert(sites_map(sites@) == sites_map(prev).insert(
                        sites@.last().0@,
                        sites@.last().1.model(),
                    ));
                    assert(sites_map(sites@) =~= merge_sites_maps(m_old, t_k1));
                    assert forall|a: int, b: int|
                        0 <= a < b < sites@.len() implies (#[trigger] sites@[a]).0@ != (
                    #[trigger] sites@[b]).0@ by {
                        if b == sites@.len() - 1 {
                            assert(prev[a].0@ != name@);
                        } else {
                            assert(prev[a].0@ != prev[b].0@);
                        }
                    }
                    assert forall|t: int| 0 <= t < sites@.len() implies (
                    #[trigger] sites@[t]).1.wf() by {
                        if t != sites@.len() - 1 {
                            assert(sites@[t] == prev[t]);
                        }
                    }
                }
            },
        }
        proof {
            done = done + 1;
        }
    }
    proof {
        assert(other0.take(done) =~= other0);
    }
}

/// The records a batch of (site name, line) pairs decodes to.
pub open spec fn decoded_records(lines: Seq<(String, String)>) -> Seq<RecordModel> {
    lines.map_values(|p: (String, String)| (p.0@, line_texts(p.1@), line_tags(p.1@)))
}

/// Whether every line of the batch decodes.
pub open spec fn all_lines_ok(lines: Seq<(String, String)>) -> bool {
    forall|i: int| 0 <= i < lines.len() ==> line_ok((#[trigger] lines[i]).1@)
}

/// Two site tables with the same names and the same statistics have the same
/// model, whatever their ranked tag lists hold.
pub proof fn lemma_sites_map_congruent(a: Seq<(String, Site)>, b: Seq<(String, Site)>)
    requires
        a.len() == b.len(),
        forall|i: int|
            0 <= i < a.len() ==> (#[trigger] a[i]).0 == b[i].0 && a[i].1.questions
                == b[i].1.questions && a[i].1.words == b[i].1.words && a[i].1.tags == b[i].1.tags,
    ensures
        sites_map(a) == sites_map(b),
    decreases a.len(),
{
    if a.len() > 0 {
        assert forall|i: int|
            0 <= i < a.drop_last().len() implies (#[trigger] a.drop_last()[i]).0
                == b.drop_last()[i].0 && a.drop_last()[i].1.questions
                == b.drop_last()[i].1.questions && a.drop_last()[i].1.words
                == b.drop_last()[i].1.words && a.drop_last()[i].1.tags
                == b.drop_last()[i].1.tags by {
            assert(a.drop_last()[i] == a[i]);
            assert(b.drop_last()[i] == b[i]);
        }
        lemma_sites_map_congruent(a.drop_last(), b.drop_last());
        assert(a[a.len() - 1].0 == b[a.len() - 1].0);
        assert(a.last().1.model() == b.last().1.model());
    }
}

/// Parse a batch of (site name, line) pairs and aggregate them. The first
/// malformed line aborts the whole batch — `MalformedRecord` comes back
/// exactly when some line does not decode, and no partial result is kept. A
/// batch of well-formed lines fails only when a site's aggregate totals
/// would leave the counters' range.
pub fn process_lines(lines: Vec<(String, String)>) -> (r: Result<Vec<(String, Site)>, Error>)
    ensures
        r is Ok <==> all_lines_ok(lines@) && sites_fit(aggregate_model(decoded_records(lines@))),
        r matches Ok(sites) ==> sites_wf(sites@) && sites_map(sites@) == aggregate_model(
            decoded_records(lines@),
        ),
        r == Err::<Vec<(String, Site)>, Error>(Error::MalformedRecord) <==> !all_lines_ok(lines@),
        r matches Err(e) ==> e == Error::MalformedRecord || e == Error::CounterOverflow,
{
    let ghost lines0 = lines@;
    let mut rest = lines;
    let mut parsed: Vec<(String, LineParser)> = Vec::new();
    while rest.len() > 0
        invariant
            lines0 == lines@,
            parsed@.len() + rest@.len() == lines0.len(),
            rest@ == lines0.skip(parsed@.len() as int),
            forall|t: int| 0 <= t < parsed@.len() ==> line_ok((#[trigger] lines0[t]).1@),
            records_model(parsed@) == decoded_records(lines0.take(parsed@.len() as int)),
        decreases rest@.len(),
    {
        let ghost done = parsed@.len() as int;
        let ghost prev_rest = rest@;
        let pair = rest.remove(0);
        proof {
            assert(prev_rest[0] == lines0[done]);
            assert(rest@ =~= lines0.skip(done + 1));
        }
        match LineParser::parse(pair.1.as_str()) {
            Ok(record) => {
                let ghost prev_parsed = parsed@;
                parsed.push((pair.0, record));
                proof {
                    assert(line_ok(lines0[done].1@));
                    assert forall|t: int|
                        0 <= t < done + 1 implies #[trigger] records_model(parsed@)[t]
                        == decoded_records(lines0.take(done + 1))[t] by {
                        assert(records_model(parsed@)[t] == line_model(parsed@[t]));
                        assert(decoded_records(lines0.take(done + 1))[t] == (
                            lines0.take(done + 1)[t].0@,
                            line_texts(lines0.take(done + 1)[t].1@),
                            line_tags(lines0.take(done + 1)[t].1@),
                        ));
                        if t < done {
                            assert(parsed@[t] == prev_parsed[t]);
                            assert(records_model(prev_parsed)[t] == line_model(prev_parsed[t]));
                            assert(decoded_records(lines0.take(done))[t] == (
                                lines0.take(done)[t].0@,
                                line_texts(lines0.take(done)[t].1@),
                                line_tags(lines0.take(done)[t].1@),
                            ));
                            assert(lines0.take(done + 1)[t] == lines0.take(done)[t]);
                        } else {
                            assert(parsed@[t] == (pair.0, record));
                            assert(lines0.take(done + 1)[t] == lines0[done]);
                        }
                    }
                    assert(records_model(parsed@) =~= decoded_records(lines0.take(done + 1)));
                }
            },
            Err(e) => {
                proof {
                    assert(!line_ok(lines0[done].1@));
                    assert(!all_lines_ok(lines0));
                }
                return Err(e);
            },
        }
    }
    proof {
        assert(lines0.take(lines0.len() as int) =~= lines0);
        assert(all_lines_ok(lines0));
    }
    aggregate_records(parsed)
}

} // verus!
