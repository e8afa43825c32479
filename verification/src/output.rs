use vstd::prelude::*;
use crate::Error;
use crate::stat::Stat;
use crate::site::{
    Site, tag_map, unique_keys, merge_tag_maps, find_tag, lemma_tag_map_contains,
    lemma_tag_map_index, lemma_tag_map_update,
};
use crate::aggregate::{
    sites_wf, sites_fit, sites_map, aggregate_model, decoded_records, all_lines_ok,
    lemma_sites_map_congruent,
};
use crate::rank::{keys_sorted_by_value, rank_model, entries_model, name_views, RankEntry};

verus! {

/// The fixed identifier every report carries.
pub const REPORT_ID: i32 = 103740;

/// The assembled report: the fixed identifier, the per-site statistics, the
/// global per-tag totals, and the two ranked name lists.
pub struct Output {
    pub padron: i32,
    pub sites: Vec<(String, Site)>,
    pub tags: Vec<(String, Stat)>,
    pub totals: Vec<(String, Vec<String>)>,
}

impl Output {
    /// Assemble a report from its four parts.
    pub fn new(
        padron: i32,
        sites: Vec<(String, Site)>,
        tags: Vec<(String, Stat)>,
        totals: Vec<(String, Vec<String>)>,
    ) -> (r: Output)
        ensures
            r.padron == padron,
            r.sites == sites,
            r.tags == tags,
            r.totals == totals,
    {
        Output { padron, sites, tags, totals }
    }
}

/// The first ten entries, or all of them when there are fewer.
pub open spec fn cap10(n: int) -> int {
    if n < 10 {
        n
    } else {
        10
    }
}

/// The ranking entry of a whole site: its name and its two totals.
pub open spec fn site_rank_entries(entries: Seq<(String, Site)>) -> Seq<RankEntry> {
    entries.map_values(
        |p: (String, Site)| (p.0@, p.1.questions as int, p.1.words as int),
    )
}

/// The global tag table: the merge of every site's tag table.
pub open spec fn global_tags(entries: Seq<(String, Site)>) -> Map<Seq<char>, (int, int)>
    decreases entries.len(),
{
    if entries.len() == 0 {
        Map::empty()
    } else {
        merge_tag_maps(global_tags(entries.drop_last()), tag_map(entries.last().1.tags@))
    }
}

/// Whether every pair of the table fits the counters' range.
pub open spec fn tags_fit(m: Map<Seq<char>, (int, int)>) -> bool {
    forall|k: Seq<char>| #[trigger]
        m.dom().contains(k) ==> m[k].0 <= u64::MAX && m[k].1 <= u64::MAX
}

/// Whether every pair of the table is non-negative.
pub open spec fn tags_nonneg(m: Map<Seq<char>, (int, int)>) -> bool {
    forall|k: Seq<char>| #[trigger] m.dom().contains(k) ==> m[k].0 >= 0 && m[k].1 >= 0
}

/// What holds of every assembled report, stated over the report alone: the
/// fixed identifier, each site's tag ranking capped at ten, the global tag
/// table as the merge of the sites' tables, and the two ranked totals.
pub open spec fn report_consistent(out: Output) -> bool {
    &&& out.padron == REPORT_ID
    &&& sites_wf(out.sites@)
    &&& forall|i: int|
        0 <= i < out.sites@.len() ==> name_views(
            (#[trigger] out.sites@[i]).1.chatty_tags@,
        ) == rank_model(entries_model(out.sites@[i].1.tags@)).take(
            cap10(out.sites@[i].1.tags@.len() as int),
        )
    &&& unique_keys(out.tags@)
    &&& tag_map(out.tags@) == global_tags(out.sites@)
    &&& tags_fit(global_tags(out.sites@))
    &&& out.totals@.len() == 2
    &&& out.totals@[0].0@ == "chatty_sites"@
    &&& out.totals@[1].0@ == "chatty_tags"@
    &&& name_views(out.totals@[0].1@) == rank_model(site_rank_entries(out.sites@)).take(
        cap10(out.sites@.len() as int),
    )
    &&& name_views(out.totals@[1].1@) == rank_model(entries_model(out.tags@)).take(
        cap10(out.tags@.len() as int),
    )
}

/// Two site tables with the same tag tables have the same global tag table.
pub proof fn lemma_global_tags_congruent(a: Seq<(String, Site)>, b: Seq<(String, Site)>)
    requires
        a.len() == b.len(),
        forall|i: int| 0 <= i < a.len() ==> (#[trigger] a[i]).1.tags == b[i].1.tags,
    ensures
        global_tags(a) == global_tags(b),
    decreases a.len(),
{
    if a.len() > 0 {
        assert forall|i: int|
            0 <= i < a.drop_last().len() implies (#[trigger] a.drop_last()[i]).1.tags
                == b.drop_last()[i].1.tags by {
            assert(a.drop_last()[i] == a[i]);
            assert(b.drop_last()[i] == b[i]);
        }
        lemma_global_tags_congruent(a.drop_last(), b.drop_last());
        assert(a[a.len() - 1].1.tags == b[a.len() - 1].1.tags);
    }
}

pub proof fn lemma_tag_map_nonneg(entries: Seq<(String, Stat)>)
    ensures
        tags_nonneg(tag_map(entries)),
    decreases entries.len(),
{
    if entries.len() > 0 {
        lemma_tag_map_nonneg(entries.drop_last());
    }
}

pub proof fn lemma_global_tags_nonneg(entries: Seq<(String, Site)>)
    ensures
        tags_nonneg(global_tags(entries)),
    decreases entries.len(),
{
    if entries.len() > 0 {
        lemma_global_tags_nonneg(entries.drop_last());
        lemma_tag_map_nonneg(entries.last().1.tags@);
    }
}

/// A merge never shrinks a value that either side already holds.
pub proof fn lemma_merge_tag_maps_grows(
    g: Map<Seq<char>, (int, int)>,
    t: Map<Seq<char>, (int, int)>,
)
    requires
        tags_nonneg(g),
        tags_nonneg(t),
    ensures
        forall|k: Seq<char>| #[trigger]
            g.dom().contains(k) ==> merge_tag_maps(g, t).dom().contains(k) && g[k].0
                <= merge_tag_maps(g, t)[k].0 && g[k].1 <= merge_tag_maps(g, t)[k].1,
        forall|k: Seq<char>| #[trigger]
            t.dom().contains(k) ==> merge_tag_maps(g, t).dom().contains(k) && t[k].0
                <= merge_tag_maps(g, t)[k].0 && t[k].1 <= merge_tag_maps(g, t)[k].1,
{
}

/// Merging a prefix of a tag table gives values no larger than merging the
/// whole table.
pub proof fn lemma_merge_tag_prefix_le(
    g: Map<Seq<char>, (int, int)>,
    entries: Seq<(String, Stat)>,
    j: int,
)
    requires
        unique_keys(entries),
        0 <= j <= entries.len(),
        tags_nonneg(g),
    ensures
        forall|k: Seq<char>| #[trigger]
            merge_tag_maps(g, tag_map(entries.take(j))).dom().contains(k) ==> merge_tag_maps(
                g,
                tag_map(entries),
            ).dom().contains(k) && merge_tag_maps(g, tag_map(entries.take(j)))[k].0
                <= merge_tag_maps(g, tag_map(entries))[k].0 && merge_tag_maps(
                g,
                tag_map(entries.take(j)),
            )[k].1 <= merge_tag_maps(g, tag_map(entries))[k].1,
    decreases entries.len() - j,
{
    if j == entries.len() {
        assert(entries.take(j) =~= entries);
    } else {
        lemma_merge_tag_prefix_le(g, entries, j + 1);
        assert(entries.take(j + 1).drop_last() =~= entries.take(j));
        assert(entries.take(j + 1).last() == entries[j]);
        let tj = tag_map(entries.take(j));
        let tj1 = tag_map(entries.take(j + 1));
        assert(tj1 == tj.insert(entries[j].0@, (entries[j].1.questions as int, entries[j].1.words as int)));
        lemma_tag_map_contains(entries.take(j), entries[j].0@);
        assert forall|t: int|
            0 <= t < entries.take(j).len() implies (#[trigger] entries.take(j)[t]).0@
            != entries[j].0@ by {
            assert(entries.take(j)[t] == entries[t]);
        }
        assert(!tj.dom().contains(entries[j].0@));
        lemma_tag_map_nonneg(entries.take(j));
        assert forall|k: Seq<char>| #[trigger]
            merge_tag_maps(g, tj).dom().contains(k) implies merge_tag_maps(
            g,
            tj1,
        ).dom().contains(k) && merge_tag_maps(g, tj)[k].0 <= merge_tag_maps(g, tj1)[k].0
            && merge_tag_maps(g, tj)[k].1 <= merge_tag_maps(g, tj1)[k].1 by {
            if k != entries[j].0@ {
                assert(merge_tag_maps(g, tj)[k] == merge_tag_maps(g, tj1)[k]);
            }
        }
    }
}

/// The global tag table of a prefix of the sites holds values no larger than
/// the table of all of them.
pub proof fn lemma_global_tags_prefix_le(entries: Seq<(String, Site)>, i: int)
    requires
        0 <= i <= entries.len(),
    ensures
        forall|k: Seq<char>| #[trigger]
            global_tags(entries.take(i)).dom().contains(k) ==> global_tags(
                entries,
            ).dom().contains(k) && global_tags(entries.take(i))[k].0 <= global_tags(entries)[k].0
                && global_tags(entries.take(i))[k].1 <= global_tags(entries)[k].1,
    decreases entries.len() - i,
{
    if i == entries.len() {
        assert(entries.take(i) =~= entries);
    } else {
        lemma_global_tags_prefix_le(entries, i + 1);
        assert(entries.take(i + 1).drop_last() =~= entries.take(i));
        assert(entries.take(i + 1).last() == entries[i]);
        lemma_global_tags_nonneg(entries.take(i));
        lemma_tag_map_nonneg(entries[i].1.tags@);
        lemma_merge_tag_maps_grows(global_tags(entries.take(i)), tag_map(entries[i].1.tags@));
        assert forall|k: Seq<char>| #[trigger]
            global_tags(entries.take(i)).dom().contains(k) implies global_tags(
            entries,
        ).dom().contains(k) && global_tags(entries.take(i))[k].0 <= global_tags(entries)[k].0
            && global_tags(entries.take(i))[k].1 <= global_tags(entries)[k].1 by {
            assert(global_tags(entries.take(i + 1)).dom().contains(k));
            assert(global_tags(entries.take(i))[k].0 <= global_tags(entries.take(i + 1))[k].0);
            assert(global_tags(entries.take(i))[k].1 <= global_tags(entries.take(i + 1))[k].1);
        }
    }
}

/// Keep the ten best-ranked names, or all of them when there are fewer.
fn truncate_ranked(names: &mut Vec<String>)
    ensures
        final(names)@ == old(names)@.take(cap10(old(names)@.len() as int)),
{
    if names.len() > 10 {
        names.truncate(10);
    }
    proof {
        if old(names)@.len() <= 10 {
            assert(names@ =~= old(names)@.take(old(names)@.len() as int));
        }
    }
}

/// Assemble the report of an aggregated site table: rank each site's tags,
/// total the tags over all sites, and rank sites and tags globally. Fails
/// with `CounterOverflow` exactly when some global tag total would leave the
/// counters' range.
pub fn get_output(sites: Vec<(String, Site)>) -> (r: Result<Output, Error>)
    requires
        sites_wf(sites@),
    ensures
        r matches Ok(out) ==> {
            &&& out.padron == REPORT_ID
            &&& sites_wf(out.sites@)
            &&& out.sites@.len() == sites@.len()
            &&& forall|i: int|
                0 <= i < sites@.len() ==> {
                    &&& (#[trigger] out.sites@[i]).0 == sites@[i].0
                    &&& out.sites@[i].1.questions == sites@[i].1.questions
                    &&& out.sites@[i].1.words == sites@[i].1.words
                    &&& out.sites@[i].1.tags == sites@[i].1.tags
                    &&& name_views(out.sites@[i].1.chatty_tags@) == rank_model(
                        entries_model(sites@[i].1.tags@),
                    ).take(cap10(sites@[i].1.tags@.len() as int))
                }
            &&& unique_keys(out.tags@)
            &&& tag_map(out.tags@) == global_tags(sites@)
            &&& out.totals@.len() == 2
            &&& out.totals@[0].0@ == "chatty_sites"@
            &&& out.totals@[1].0@ == "chatty_tags"@
            &&& name_views(out.totals@[0].1@) == rank_model(site_rank_entries(sites@)).take(
                cap10(sites@.len() as int),
            )
            &&& name_views(out.totals@[1].1@) == rank_model(entries_model(out.tags@)).take(
                cap10(out.tags@.len() as int),
            )
        },
        r matches Ok(out) ==> report_consistent(out),
        r is Ok <==> tags_fit(global_tags(sites@)),
        r matches Err(e) ==> e == Error::CounterOverflow,
{
    let ghost sites0 = sites@;
    let mut rest = sites;
    let mut out_sites: Vec<(String, Site)> = Vec::new();
    let mut total_tags: Vec<(String, Stat)> = Vec::new();
    let mut site_pairs: Vec<(String, Stat)> = Vec::new();
    while rest.len() > 0
        invariant
            sites0 == sites@,
            sites_wf(sites0),
            out_sites@.len() + rest@.len() == sites0.len(),
            rest@ == sites0.skip(out_sites@.len() as int),
            sites_wf(out_sites@),
            forall|i: int|
                0 <= i < out_sites@.len() ==> {
                    &&& (#[trigger] out_sites@[i]).0 == sites0[i].0
                    &&& out_sites@[i].1.questions == sites0[i].1.questions
                    &&& out_sites@[i].1.words == sites0[i].1.words
                    &&& out_sites@[i].1.tags == sites0[i].1.tags
                    &&& name_views(out_sites@[i].1.chatty_tags@) == rank_model(
                        entries_model(sites0[i].1.tags@),
                    ).take(cap10(sites0[i].1.tags@.len() as int))
                },
            unique_keys(total_tags@),
            tag_map(total_tags@) == global_tags(sites0.take(out_sites@.len() as int)),
            site_pairs@.len() == out_sites@.len(),
            entries_model(site_pairs@) == site_rank_entries(
                sites0.take(out_sites@.len() as int),
            ),
        decreases rest@.len(),
    {
        let ghost done = out_sites@.len() as int;
        let ghost prev_rest = rest@;
        let pair = rest.remove(0);
        proof {
            assert(prev_rest[0] == sites0[done]);
            assert(rest@ =~= sites0.skip(done + 1));
        }
        let name = pair.0;
        let mut site = pair.1;
        let mut chatty = keys_sorted_by_value(&site.tags);
        truncate_ranked(&mut chatty);
        site.set_chatty_tags(chatty);
        let ghost prev_pairs = site_pairs@;
        site_pairs.push((name.clone(), Stat::new(site.questions, site.words)));
        proof {
            let spm = entries_model(site_pairs@);
            let srm = site_rank_entries(sites0.take(done + 1));
            assert(sites0.take(done + 1).drop_last() =~= sites0.take(done));
            assert forall|t: int| 0 <= t < spm.len() implies spm[t] == srm[t] by {
                assert(spm[t] == crate::rank::entry_model(site_pairs@[t]));
                assert(srm[t] == (
                    sites0.take(done + 1)[t].0@,
                    sites0.take(done + 1)[t].1.questions as int,
                    sites0.take(done + 1)[t].1.words as int,
                ));
                if t < done {
                    assert(site_pairs@[t] == prev_pairs[t]);
                    assert(entries_model(prev_pairs)[t] == crate::rank::entry_model(
                        prev_pairs[t],
                    ));
                    assert(sites0.take(done + 1)[t] == sites0.take(done)[t]);
                    assert(site_rank_entries(sites0.take(done))[t] == (
                        sites0.take(done)[t].0@,
                        sites0.take(done)[t].1.questions as int,
                        sites0.take(done)[t].1.words as int,
                    ));
                } else {
                    assert(site_pairs@[t].0@ == sites0[done].0@);
                    assert(site_pairs@[t].1.questions == sites0[done].1.questions);
                    assert(site_pairs@[t].1.words == sites0[done].1.words);
                    assert(sites0.take(done + 1)[t] == sites0[done]);
                }
            }
            assert(spm =~= srm);
        }
        // fold this site's tag table into the global totals
        let ghost g_done = global_tags(sites0.take(done));
        proof {
            lemma_global_tags_nonneg(sites0.take(done));
        }
        let mut j: usize = 0;
        while j < site.tags.len()
            invariant
                j <= site.tags@.len(),
                unique_keys(site.tags@),
                sites0 == sites@,
                0 <= done < sites0.len(),
                site.tags == sites0[done].1.tags,
                g_done == global_tags(sites0.take(done)),
                tags_nonneg(g_done),
                unique_keys(total_tags@),
                tag_map(total_tags@) == merge_tag_maps(g_done, tag_map(site.tags@.take(j as int))),
            decreases site.tags@.len() - j,
        {
            let tkey = &site.tags[j].0;
            let tstat = site.tags[j].1;
            let ghost t_j = tag_map(site.tags@.take(j as int));
            let ghost t_j1 = tag_map(site.tags@.take(j as int + 1));
            proof {
                assert(site.tags@.take(j as int + 1).drop_last() =~= site.tags@.take(j as int));
                assert(site.tags@.take(j as int + 1).last() == site.tags@[j as int]);
                assert(t_j1 == t_j.insert(tkey@, (tstat.questions as int, tstat.words as int)));
                lemma_tag_map_contains(site.tags@.take(j as int), tkey@);
                assert forall|t: int|
                    0 <= t < site.tags@.take(j as int).len() implies (#[trigger] site.tags@.take(
                    j as int,
                )[t]).0@ != tkey@ by {
                    assert(site.tags@.take(j as int)[t] == site.tags@[t]);
                }
                assert(!t_j.dom().contains(tkey@));
            }
            match find_tag(&total_tags, tkey) {
                Some(ti) => {
                    proof {
                        lemma_tag_map_index(total_tags@, ti as int);
                        assert(tag_map(total_tags@)[tkey@] == merge_tag_maps(g_done, t_j)[tkey@]);
                    }
                    let cur_q = total_tags[ti].1.questions;
                    let cur_w = total_tags[ti].1.words;
                    if cur_q > u64::MAX - tstat.questions || cur_w > u64::MAX - tstat.words {
                        proof {
                            let m1 = merge_tag_maps(g_done, t_j1);
                            assert(m1[tkey@].0 == cur_q + tstat.questions && m1[tkey@].1 == cur_w
                                + tstat.words);
                            lemma_merge_tag_prefix_le(g_done, site.tags@, j as int + 1);
                            assert(merge_tag_maps(g_done, t_j1).dom().contains(tkey@));
                            let m_site = merge_tag_maps(g_done, tag_map(site.tags@));
                            assert(m_site.dom().contains(tkey@) && m1[tkey@].0 <= m_site[tkey@].0
                                && m1[tkey@].1 <= m_site[tkey@].1);
                            assert(sites0.take(done + 1).drop_last() =~= sites0.take(done));
                            assert(sites0.take(done + 1).last() == sites0[done]);
                            assert(global_tags(sites0.take(done + 1)) == merge_tag_maps(
                                g_done,
                                tag_map(sites0[done].1.tags@),
                            ));
                            assert(m_site == global_tags(sites0.take(done + 1)));
                            lemma_global_tags_prefix_le(sites0, done + 1);
                            assert(global_tags(sites0).dom().contains(tkey@));
                            assert(global_tags(sites0)[tkey@].0 > u64::MAX || global_tags(
                                sites0,
                            )[tkey@].1 > u64::MAX);
                            assert(!tags_fit(global_tags(sites0)));
                        }
                        return Err(Error::CounterOverflow);
                    }
                    let ghost prev = total_tags@;
                    let entry = total_tags.remove(ti);
                    let mut merged = entry.1;
                    merged.sum(&tstat);
                    total_tags.insert(ti, (entry.0, merged));
                    proof {
                        assert(total_tags@ =~= prev.update(
                            ti as int,
                            (prev[ti as int].0, merged),
                        ));
                        lemma_tag_map_update(prev, ti as int, merged);
                        assert(tag_map(total_tags@) =~= merge_tag_maps(g_done, t_j1));
                        assert forall|a: int, b: int|
                            0 <= a < b < total_tags@.len() implies (
                        #[trigger] total_tags@[a]).0@ != (#[trigger] total_tags@[b]).0@ by {
                            assert(prev[a].0@ != prev[b].0@);
                        }
                    }
                },
                None => {
                    proof {
                        lemma_tag_map_contains(total_tags@, tkey@);
                        assert(!tag_map(total_tags@).dom().contains(tkey@));
                        assert(!g_done.dom().contains(tkey@));
                    }
                    let ghost prev = total_tags@;
                    total_tags.push((tkey.clone(), tstat));
                    proof {
                        assert(total_tags@.drop_last() =~= prev);
                        assert(tag_map(total_tags@) == tag_map(prev).insert(
                            tkey@,
                            (tstat.questions as int, tstat.words as int),
                        ));
                        assert(tag_map(total_tags@) =~= merge_tag_maps(g_done, t_j1));
                        assert forall|a: int, b: int|
                            0 <= a < b < total_tags@.len() implies (
                        #[trigger] total_tags@[a]).0@ != (#[trigger] total_tags@[b]).0@ by {
                            if b == total_tags@.len() - 1 {
                                assert(prev[a].0@ != tkey@);
                            } else {
                                assert(prev[a].0@ != prev[b].0@);
                            }
                        }
                    }
                },
            }
            j = j + 1;
        }
        proof {
            assert(site.tags@.take(site.tags@.len() as int) =~= site.tags@);
            assert(sites0.take(done + 1).drop_last() =~= sites0.take(done));
            assert(sites0.take(done + 1).last() == sites0[done]);
            assert(tag_map(total_tags@) == global_tags(sites0.take(done + 1)));
        }
        let ghost prev_out = out_sites@;
        out_sites.push((name, site));
        proof {
            assert(out_sites@.drop_last() =~= prev_out);
            assert forall|a: int, b: int|
                0 <= a < b < out_sites@.len() implies (#[trigger] out_sites@[a]).0@ != (
            #[trigger] out_sites@[b]).0@ by {
                if b == out_sites@.len() - 1 {
                    assert(out_sites@[a].0@ == sites0[a].0@);
                    assert(out_sites@[b].0@ == sites0[done].0@);
                } else {
                    assert(out_sites@[a] == prev_out[a] && out_sites@[b] == prev_out[b]);
                }
            }
            assert forall|t: int| 0 <= t < out_sites@.len() implies (
            #[trigger] out_sites@[t]).1.wf() by {
                if t < out_sites@.len() - 1 {
                    assert(out_sites@[t] == prev_out[t]);
                }
            }
        }
    }
    proof {
        assert(sites0.take(sites0.len() as int) =~= sites0);
        assert forall|k: Seq<char>| #[trigger] global_tags(sites0).dom().contains(
            k,
        ) implies global_tags(sites0)[k].0 <= u64::MAX && global_tags(sites0)[k].1
            <= u64::MAX by {
            lemma_tag_map_contains(total_tags@, k);
            let i = choose|i: int| 0 <= i < total_tags@.len() && (#[trigger] total_tags@[i]).0@ == k;
            lemma_tag_map_index(total_tags@, i);
        }
    }
    let mut chatty_sites = keys_sorted_by_value(&site_pairs);
    truncate_ranked(&mut chatty_sites);
    let mut chatty_tags = keys_sorted_by_value(&total_tags);
    truncate_ranked(&mut chatty_tags);
    let mut totals: Vec<(String, Vec<String>)> = Vec::new();
    totals.push((String::from_str("chatty_sites"), chatty_sites));
    totals.push((String::from_str("chatty_tags"), chatty_tags));
    proof {
        lemma_global_tags_congruent(out_sites@, sites0);
        assert forall|t: int|
            0 <= t < out_sites@.len() implies #[trigger] site_rank_entries(out_sites@)[t]
            == site_rank_entries(sites0)[t] by {
            assert(site_rank_entries(out_sites@)[t] == (
                out_sites@[t].0@,
                out_sites@[t].1.questions as int,
                out_sites@[t].1.words as int,
            ));
            assert(site_rank_entries(sites0)[t] == (
                sites0[t].0@,
                sites0[t].1.questions as int,
                sites0[t].1.words as int,
            ));
        }
        assert(site_rank_entries(out_sites@) =~= site_rank_entries(sites0));
        assert forall|i: int|
            0 <= i < out_sites@.len() implies name_views(
            (#[trigger] out_sites@[i]).1.chatty_tags@,
        ) == rank_model(entries_model(out_sites@[i].1.tags@)).take(
            cap10(out_sites@[i].1.tags@.len() as int),
        ) by {
            assert(out_sites@[i].1.tags == sites0[i].1.tags);
        }
    }
    Ok(Output::new(REPORT_ID, out_sites, total_tags, totals))
}

/// Whether some site table with this aggregate as its model has a global
/// tag total out of the counters' range. The global totals are summed over
/// a table's entries, so the condition is stated of the tables that carry
/// this model.
pub open spec fn tag_totals_overflow(agg: Map<Seq<char>, crate::aggregate::SiteModel>) -> bool {
    exists|sites: Seq<(String, Site)>|
        #[trigger] sites_wf(sites) && sites_map(sites) == agg && !tags_fit(global_tags(sites))
}

/// Run the whole pipeline on a batch of (site name, line) pairs: parse every
/// line, aggregate the records per site, and assemble the report. The run
/// aborts with `MalformedRecord` exactly when some line does not decode — no
/// report is emitted then — and with `CounterOverflow` only when a site or
/// global tag total genuinely leaves the counters' range.
pub fn run_report(lines: Vec<(String, String)>) -> (r: Result<Output, Error>)
    ensures
        r == Err::<Output, Error>(Error::MalformedRecord) <==> !all_lines_ok(lines@),
        r matches Err(e) ==> e == Error::MalformedRecord || e == Error::CounterOverflow,
        r == Err::<Output, Error>(Error::CounterOverflow) ==> all_lines_ok(lines@) && (!sites_fit(
            aggregate_model(decoded_records(lines@)),
        ) || tag_totals_overflow(aggregate_model(decoded_records(lines@)))),
        r matches Ok(out) ==> report_consistent(out) && sites_map(out.sites@)
            == aggregate_model(decoded_records(lines@)) && sites_fit(
            aggregate_model(decoded_records(lines@)),
        ),
{
    match crate::aggregate::process_lines(lines) {
        Ok(sites) => {
            let ghost sites0 = sites@;
            match get_output(sites) {
                Ok(out) => {
                    proof {
                        lemma_sites_map_congruent(out.sites@, sites0);
                    }
                    Ok(out)
                },
                Err(e) => {
                    proof {
                        assert(sites_wf(sites0) && sites_map(sites0) == aggregate_model(
                            decoded_records(lines@),
                        ) && !tags_fit(global_tags(sites0)));
                    }
                    Err(e)
                },
            }
        },
        Err(e) => Err(e),
    }
}

} // verus!
