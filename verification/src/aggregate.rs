use vstd::prelude::*;

use crate::listing::{Listing, ListingView};
use crate::text::{norm_seq, normalize_name};

verus! {

/// Source tag that distinguishes synthesized meta-average records from the
/// real per-source records of a group.
pub open spec fn meta_source() -> Seq<char> {
    "Meta Chronic Average"@
}

/// The executable form of [`meta_source`].
pub fn meta_source_tag() -> (r: String)
    ensures
        r@ == meta_source(),
{
    String::from_str("Meta Chronic Average")
}

/// Grouping key of a listing: its strain name, normalized.
pub open spec fn key_of(l: ListingView) -> Seq<char> {
    norm_seq(l.strain)
}

/// Review-count-weighted meta-average synthesized for one strain out of the
/// records of two or more distinct sources.
///
/// Its rating is the weighted average in thousandths of a point, rounded
/// toward zero; its review count is the exact sum of the contributing
/// counts, which is why the count is wider than a single source's count.
pub struct MetaRecord {
    /// Always the tag returned by [`meta_source_tag`].
    pub source: String,
    /// The group's normalized strain name.
    pub strain: String,
    /// Always empty: no single page backs a synthesized record.
    pub url: String,
    /// Weighted-average rating in thousandths of a point.
    pub rating_milli: u32,
    /// Sum of the review counts of all contributing records.
    pub ratings: u64,
}

/// Mathematical view of a [`MetaRecord`].
pub struct MetaView {
    pub source: Seq<char>,
    pub strain: Seq<char>,
    pub url: Seq<char>,
    pub rating_milli: u32,
    pub ratings: u64,
}

impl View for MetaRecord {
    type V = MetaView;

    open spec fn view(&self) -> MetaView {
        MetaView {
            source: self.source@,
            strain: self.strain@,
            url: self.url@,
            rating_milli: self.rating_milli,
            ratings: self.ratings,
        }
    }
}

/// All records that share one normalized strain name: at most one per
/// source, plus the synthesized meta-average once the group is finalized.
pub struct StrainGroup {
    /// The normalized strain name all records of the group share.
    pub strain: String,
    /// Per-source records, one per distinct source, in first-seen order.
    pub records: Vec<Listing>,
    /// The synthesized record; present only after finalization of a group
    /// with two or more sources and a positive total review count.
    pub meta: Option<MetaRecord>,
}

/// Mathematical view of a [`StrainGroup`].
#[verifier::ext_equal]
pub struct GroupView {
    pub strain: Seq<char>,
    pub records: Seq<ListingView>,
    pub meta: Option<MetaView>,
}

impl View for StrainGroup {
    type V = GroupView;

    open spec fn view(&self) -> GroupView {
        GroupView {
            strain: self.strain@,
            records: self.records@.map_values(|l: Listing| l@),
            meta: match self.meta {
                Some(m) => Some(m@),
                None => None,
            },
        }
    }
}

/// The aggregator's answer for one query: one group per normalized strain
/// name that occurred among the input listings, in first-seen order.
pub struct QueryResult {
    pub groups: Vec<StrainGroup>,
}

impl View for QueryResult {
    type V = Seq<GroupView>;

    open spec fn view(&self) -> Seq<GroupView> {
        gviews(self.groups@)
    }
}

/// Views of a sequence of listings.
pub open spec fn lviews(ls: Seq<Listing>) -> Seq<ListingView> {
    ls.map_values(|l: Listing| l@)
}

/// Views of a sequence of groups.
pub open spec fn gviews(gs: Seq<StrainGroup>) -> Seq<GroupView> {
    gs.map_values(|g: StrainGroup| g@)
}

// ---------------------------------------------------------------------------
// The mathematical model of aggregation.
// ---------------------------------------------------------------------------

/// One listing folded into the records of its group: it replaces the record
/// of its own source if there is one (a later listing from the same source
/// silently overwrites the earlier, keeping its position), else it is
/// appended.
pub open spec fn upsert_record(rs: Seq<ListingView>, l: ListingView) -> Seq<ListingView>
    decreases rs.len(),
{
    if rs.len() == 0 {
        seq![l]
    } else if rs[0].source == l.source {
        seq![l] + rs.drop_first()
    } else {
        seq![rs[0]] + upsert_record(rs.drop_first(), l)
    }
}

/// One listing folded into the groups: into the group of its normalized
/// name if that name has been seen, else into a fresh group at the end.
pub open spec fn insert_listing(gs: Seq<GroupView>, l: ListingView) -> Seq<GroupView>
    decreases gs.len(),
{
    if gs.len() == 0 {
        seq![GroupView { strain: key_of(l), records: seq![l], meta: None }]
    } else if gs[0].strain == key_of(l) {
        seq![
            GroupView {
                strain: gs[0].strain,
                records: upsert_record(gs[0].records, l),
                meta: gs[0].meta,
            },
        ] + gs.drop_first()
    } else {
        seq![gs[0]] + insert_listing(gs.drop_first(), l)
    }
}

/// All listings folded into groups, in order.
pub open spec fn fold_groups(ls: Seq<ListingView>) -> Seq<GroupView>
    decreases ls.len(),
{
    if ls.len() == 0 {
        Seq::empty()
    } else {
        insert_listing(fold_groups(ls.drop_last()), ls.last())
    }
}

/// Total review count of a group's records.
pub open spec fn csum(rs: Seq<ListingView>) -> int
    decreases rs.len(),
{
    if rs.len() == 0 {
        0
    } else {
        csum(rs.drop_last()) + rs.last().ratings
    }
}

/// Total review-count-weighted rating of a group's records, in thousandths.
pub open spec fn wsum(rs: Seq<ListingView>) -> int
    decreases rs.len(),
{
    if rs.len() == 0 {
        0
    } else {
        wsum(rs.drop_last()) + rs.last().rating_milli * rs.last().ratings
    }
}

/// The meta-average record synthesized for a finalized group.
pub open spec fn meta_view_for(strain: Seq<char>, rs: Seq<ListingView>) -> MetaView {
    MetaView {
        source: meta_source(),
        strain: strain,
        url: Seq::empty(),
        rating_milli: (wsum(rs) / csum(rs)) as u32,
        ratings: csum(rs) as u64,
    }
}

/// Finalization of one group: a meta-average is synthesized exactly when
/// records from two or more distinct sources contributed and their total
/// review count is positive.  A zero total (every contributing source
/// reported zero reviews) yields no synthetic record rather than a division
/// by zero.
pub open spec fn finalize_group(g: GroupView) -> GroupView {
    GroupView {
        strain: g.strain,
        records: g.records,
        meta: if g.records.len() >= 2 && csum(g.records) > 0 {
            Some(meta_view_for(g.strain, g.records))
        } else {
            None
        },
    }
}

/// What [`aggregate`](crate::aggregate::aggregate) returns: the listings
/// folded into groups, each group finalized.
pub open spec fn aggregate_spec(ls: Seq<ListingView>) -> Seq<GroupView> {
    fold_groups(ls).map_values(|g: GroupView| finalize_group(g))
}

// ---------------------------------------------------------------------------
// Well-formedness of the folded groups.
// ---------------------------------------------------------------------------

/// Some record of `rs` stems from source `s`.
pub open spec fn has_source(rs: Seq<ListingView>, s: Seq<char>) -> bool {
    exists|i: int| 0 <= i < rs.len() && rs[i].source == s
}

/// Some group of `gs` is keyed by the normalized name `k`.
pub open spec fn has_strain(gs: Seq<GroupView>, k: Seq<char>) -> bool {
    exists|i: int| 0 <= i < gs.len() && gs[i].strain == k
}

/// Record `r` occurs in one of the groups of `gs`.
pub open spec fn record_in(gs: Seq<GroupView>, r: ListingView) -> bool {
    exists|i: int| 0 <= i < gs.len() && (#[trigger] gs[i]).records.contains(r)
}

/// The records of one group, before finalization: nonempty, at most one
/// record per source, every record normalizing to the group's name.
pub open spec fn wf_records(rs: Seq<ListingView>, strain: Seq<char>) -> bool {
    &&& rs.len() >= 1
    &&& forall|i: int, j: int| 0 <= i < j < rs.len() ==> rs[i].source != rs[j].source
    &&& forall|i: int| 0 <= i < rs.len() ==> key_of(#[trigger] rs[i]) == strain
}

/// Groups as the fold produces them: distinct strains, well-formed records,
/// no meta-average yet.
pub open spec fn wf_raw(gs: Seq<GroupView>) -> bool {
    &&& forall|i: int, j: int| 0 <= i < j < gs.len() ==> gs[i].strain != gs[j].strain
    &&& forall|i: int| 0 <= i < gs.len() ==> wf_records((#[trigger] gs[i]).records, gs[i].strain)
    &&& forall|i: int| 0 <= i < gs.len() ==> (#[trigger] gs[i]).meta is None
}

/// Count of all records over all groups.
pub open spec fn total_records(gs: Seq<GroupView>) -> int
    decreases gs.len(),
{
    if gs.len() == 0 {
        0
    } else {
        gs[0].records.len() + total_records(gs.drop_first())
    }
}

proof fn lemma_total_ge_each(gs: Seq<GroupView>)
    ensures
        forall|i: int| 0 <= i < gs.len() ==> (#[trigger] gs[i]).records.len() <= total_records(gs),
    decreases gs.len(),
{
    if gs.len() > 0 {
        lemma_total_ge_each(gs.drop_first());
        assert forall|i: int| 0 <= i < gs.len() implies (#[trigger] gs[i]).records.len()
            <= total_records(gs) by {
            if i > 0 {
                assert(gs.drop_first()[i - 1] == gs[i]);
                assert(gs[i].records.len() <= total_records(gs.drop_first()));
            }
        }
    }
}

proof fn lemma_upsert(rs: Seq<ListingView>, l: ListingView, strain: Seq<char>)
    requires
        forall|i: int, j: int| 0 <= i < j < rs.len() ==> rs[i].source != rs[j].source,
        forall|i: int| 0 <= i < rs.len() ==> key_of(#[trigger] rs[i]) == strain,
        key_of(l) == strain,
    ensures
        upsert_record(rs, l).len() == if has_source(rs, l.source) {
            rs.len() as int
        } else {
            rs.len() + 1 as int
        },
        forall|i: int, j: int|
            0 <= i < j < upsert_record(rs, l).len() ==> upsert_record(rs, l)[i].source
                != upsert_record(rs, l)[j].source,
        forall|i: int|
            0 <= i < upsert_record(rs, l).len() ==> key_of(#[trigger] upsert_record(rs, l)[i])
                == strain,
        forall|i: int|
            0 <= i < upsert_record(rs, l).len() ==> upsert_record(rs, l)[i] == l || rs.contains(
                #[trigger] upsert_record(rs, l)[i],
            ),
    decreases rs.len(),
{
    let us = upsert_record(rs, l);
    if rs.len() == 0 {
        assert(us =~= seq![l]);
    } else if rs[0].source == l.source {
        assert(has_source(rs, l.source));
        assert forall|i: int| 0 <= i < us.len() implies us[i] == l || rs.contains(
            #[trigger] us[i],
        ) by {
            if i > 0 {
                assert(us[i] == rs[i]);
            }
        }
    } else {
        let tail = rs.drop_first();
        lemma_upsert(tail, l, strain);
        let ut = upsert_record(tail, l);
        assert(us == seq![rs[0]] + ut);
        if has_source(tail, l.source) {
            let w = choose|i: int| 0 <= i < tail.len() && tail[i].source == l.source;
            assert(rs[w + 1].source == l.source);
            assert(has_source(rs, l.source));
        }
        if has_source(rs, l.source) {
            let w = choose|i: int| 0 <= i < rs.len() && rs[i].source == l.source;
            assert(w != 0);
            assert(tail[w - 1].source == l.source);
            assert(has_source(tail, l.source));
        }
        assert forall|i: int, j: int| 0 <= i < j < us.len() implies us[i].source
            != us[j].source by {
            if i == 0 {
                // us[j] is l or a member of tail; rs[0].source differs from both
                assert(us[j] == ut[j - 1]);
                assert(ut[j - 1] == l || tail.contains(ut[j - 1]));
                if tail.contains(ut[j - 1]) {
                    let w = choose|k: int| 0 <= k < tail.len() && tail[k] == ut[j - 1];
                    assert(rs[w + 1] == ut[j - 1]);
                }
            } else {
                assert(us[i] == ut[i - 1] && us[j] == ut[j - 1]);
            }
        }
        assert forall|i: int| 0 <= i < us.len() implies us[i] == l || rs.contains(
            #[trigger] us[i],
        ) by {
            if i > 0 {
                assert(us[i] == ut[i - 1]);
                if tail.contains(ut[i - 1]) {
                    let w = choose|k: int| 0 <= k < tail.len() && tail[k] == ut[i - 1];
                    assert(rs[w + 1] == ut[i - 1]);
                }
            }
        }
    }
}

proof fn lemma_insert(gs: Seq<GroupView>, l: ListingView)
    requires
        wf_raw(gs),
    ensures
        wf_raw(insert_listing(gs, l)),
        total_records(insert_listing(gs, l)) <= total_records(gs) + 1,
        forall|k: Seq<char>|
            #![trigger has_strain(insert_listing(gs, l), k)]
            has_strain(insert_listing(gs, l), k) <==> (has_strain(gs, k) || k == key_of(l)),
        forall|r: ListingView|
            #![trigger record_in(insert_listing(gs, l), r)]
            record_in(insert_listing(gs, l), r) ==> (r == l || record_in(gs, r)),
    decreases gs.len(),
{
    let ins = insert_listing(gs, l);
    if gs.len() == 0 {
        assert forall|k: Seq<char>| has_strain(ins, k) implies (has_strain(gs, k) || k == key_of(
            l,
        )) by {
            let w = choose|i: int| 0 <= i < ins.len() && ins[i].strain == k;
            assert(w == 0);
        }
        assert forall|k: Seq<char>| (has_strain(gs, k) || k == key_of(l)) implies has_strain(
            ins,
            k,
        ) by {
            assert(ins[0].strain == key_of(l));
        }
        assert forall|r: ListingView| record_in(ins, r) implies (r == l || record_in(gs, r)) by {
            let w = choose|i: int| 0 <= i < ins.len() && (#[trigger] ins[i]).records.contains(r);
            assert(ins[0].records =~= seq![l]);
        }
        assert(total_records(ins) == 1) by {
            assert(ins.drop_first() =~= Seq::<GroupView>::empty());
            assert(total_records(ins.drop_first()) == 0);
            assert(ins[0].records =~= seq![l]);
            assert(ins[0].records.len() == 1);
        }
    } else if gs[0].strain == key_of(l) {
        lemma_upsert(gs[0].records, l, gs[0].strain);
        let g0 = GroupView {
            strain: gs[0].strain,
            records: upsert_record(gs[0].records, l),
            meta: gs[0].meta,
        };
        assert(ins == seq![g0] + gs.drop_first());
        assert(ins.drop_first() =~= gs.drop_first());
        assert(total_records(ins) == g0.records.len() + total_records(gs.drop_first()));
        assert forall|i: int| 0 <= i < ins.len() implies wf_records(
            (#[trigger] ins[i]).records,
            ins[i].strain,
        ) by {
            if i > 0 {
                assert(ins[i] == gs[i]);
            }
        }
        assert forall|i: int, j: int| 0 <= i < j < ins.len() implies ins[i].strain
            != ins[j].strain by {
            assert(ins[j] == gs[j]);
            if i > 0 {
                assert(ins[i] == gs[i]);
            }
        }
        assert forall|i: int| 0 <= i < ins.len() implies (#[trigger] ins[i]).meta is None by {
            if i > 0 {
                assert(ins[i] == gs[i]);
            }
        }
        assert forall|k: Seq<char>| has_strain(ins, k) implies (has_strain(gs, k) || k == key_of(
            l,
        )) by {
            let w = choose|i: int| 0 <= i < ins.len() && ins[i].strain == k;
            if w > 0 {
                assert(gs[w].strain == k);
            } else {
                assert(gs[0].strain == k);
            }
        }
        assert forall|k: Seq<char>| (has_strain(gs, k) || k == key_of(l)) implies has_strain(
            ins,
            k,
        ) by {
            if k == key_of(l) {
                assert(ins[0].strain == k);
            } else {
                let w = choose|i: int| 0 <= i < gs.len() && gs[i].strain == k;
                assert(ins[w].strain == k);
            }
        }
        assert forall|r: ListingView| record_in(ins, r) implies (r == l || record_in(gs, r)) by {
            let w = choose|i: int| 0 <= i < ins.len() && (#[trigger] ins[i]).records.contains(r);
            if w == 0 {
                let v = choose|j: int| 0 <= j < g0.records.len() && g0.records[j] == r;
                assert(g0.records[v] == l || gs[0].records.contains(g0.records[v]));
                if gs[0].records.contains(r) {
                    assert(record_in(gs, r));
                }
            } else {
                assert(gs[w].records.contains(r));
            }
        }
    } else {
        let tail = gs.drop_first();
        assert(wf_raw(tail)) by {
            assert forall|i: int| 0 <= i < tail.len() implies wf_records(
                (#[trigger] tail[i]).records,
                tail[i].strain,
            ) && tail[i].meta is None by {
                assert(tail[i] == gs[i + 1]);
            }
            assert forall|i: int, j: int| 0 <= i < j < tail.len() implies tail[i].strain
                != tail[j].strain by {
                assert(tail[i] == gs[i + 1] && tail[j] == gs[j + 1]);
            }
        }
        lemma_insert(tail, l);
        let it = insert_listing(tail, l);
        assert(ins == seq![gs[0]] + it);
        assert(ins.drop_first() =~= it);
        assert(total_records(ins) == gs[0].records.len() + total_records(it));
        assert(gs[0].strain != key_of(l));
        assert(!has_strain(tail, gs[0].strain)) by {
            if has_strain(tail, gs[0].strain) {
                let w = choose|i: int| 0 <= i < tail.len() && tail[i].strain == gs[0].strain;
                assert(gs[w + 1].strain == gs[0].strain);
            }
        }
        assert forall|i: int, j: int| 0 <= i < j < ins.len() implies ins[i].strain
            != ins[j].strain by {
            if i == 0 {
                assert(ins[j] == it[j - 1]);
                assert(has_strain(it, it[j - 1].strain));
            } else {
                assert(ins[i] == it[i - 1] && ins[j] == it[j - 1]);
            }
        }
        assert forall|i: int| 0 <= i < ins.len() implies wf_records(
            (#[trigger] ins[i]).records,
            ins[i].strain,
        ) && ins[i].meta is None by {
            if i > 0 {
                assert(ins[i] == it[i - 1]);
            }
        }
        assert forall|k: Seq<char>| has_strain(ins, k) implies (has_strain(gs, k) || k == key_of(
            l,
        )) by {
            let w = choose|i: int| 0 <= i < ins.len() && ins[i].strain == k;
            if w > 0 {
                assert(has_strain(it, k));
                if has_strain(tail, k) {
                    let v = choose|i: int| 0 <= i < tail.len() && tail[i].strain == k;
                    assert(gs[v + 1].strain == k);
                }
            }
        }
        assert forall|k: Seq<char>| (has_strain(gs, k) || k == key_of(l)) implies has_strain(
            ins,
            k,
        ) by {
            if has_strain(gs, k) {
                let w = choose|i: int| 0 <= i < gs.len() && gs[i].strain == k;
                if w == 0 {
                    assert(ins[0].strain == k);
                } else {
                    assert(tail[w - 1].strain == k);
                    assert(has_strain(tail, k));
                    assert(has_strain(insert_listing(tail, l), k));
                    let v = choose|i: int| 0 <= i < it.len() && it[i].strain == k;
                    assert(ins[v + 1].strain == k);
                }
            } else {
                assert(has_strain(insert_listing(tail, l), k));
                let v = choose|i: int| 0 <= i < it.len() && it[i].strain == k;
                assert(ins[v + 1].strain == k);
            }
        }
        assert forall|r: ListingView| record_in(ins, r) implies (r == l || record_in(gs, r)) by {
            let w = choose|i: int| 0 <= i < ins.len() && (#[trigger] ins[i]).records.contains(r);
            if w == 0 {
                assert(gs[0].records.contains(r));
            } else {
                assert(it[w - 1].records.contains(r));
                assert(record_in(it, r));
                if record_in(tail, r) {
                    let v = choose|i: int|
                        0 <= i < tail.len() && (#[trigger] tail[i]).records.contains(r);
                    assert(gs[v + 1].records.contains(r));
                }
            }
        }
    }
}

/// The fold always yields well-formed groups; no group outgrows the input;
/// every record is one of the input listings; a strain is present exactly
/// when some input listing normalizes to it.
pub proof fn lemma_fold_wf(ls: Seq<ListingView>)
    ensures
        wf_raw(fold_groups(ls)),
        total_records(fold_groups(ls)) <= ls.len(),
        forall|r: ListingView| record_in(fold_groups(ls), r) ==> ls.contains(r),
        forall|k: Seq<char>|
            has_strain(fold_groups(ls), k) <==> exists|i: int|
                0 <= i < ls.len() && key_of(#[trigger] ls[i]) == k,
    decreases ls.len(),
{
    if ls.len() == 0 {
    } else {
        let prefix = ls.drop_last();
        lemma_fold_wf(prefix);
        lemma_insert(fold_groups(prefix), ls.last());
        assert forall|r: ListingView| record_in(fold_groups(ls), r) implies ls.contains(r) by {
            assert(record_in(insert_listing(fold_groups(prefix), ls.last()), r));
            if r == ls.last() {
                assert(ls[ls.len() - 1] == r);
            } else {
                assert(record_in(fold_groups(prefix), r));
                assert(prefix.contains(r));
                let w = choose|i: int| 0 <= i < prefix.len() && prefix[i] == r;
                assert(ls[w] == r);
            }
        }
        assert forall|k: Seq<char>| has_strain(fold_groups(ls), k) implies exists|i: int|
            0 <= i < ls.len() && key_of(#[trigger] ls[i]) == k by {
            assert(has_strain(insert_listing(fold_groups(prefix), ls.last()), k));
            if k == key_of(ls.last()) {
                assert(key_of(ls[ls.len() - 1]) == k);
            } else {
                assert(has_strain(fold_groups(prefix), k));
                let w = choose|i: int| 0 <= i < prefix.len() && key_of(#[trigger] prefix[i]) == k;
                assert(key_of(ls[w]) == k);
            }
        }
        assert forall|k: Seq<char>|
            (exists|i: int| 0 <= i < ls.len() && key_of(#[trigger] ls[i]) == k) implies has_strain(
            fold_groups(ls),
            k,
        ) by {
            let w = choose|i: int| 0 <= i < ls.len() && key_of(#[trigger] ls[i]) == k;
            if w == ls.len() - 1 {
                assert(k == key_of(ls.last()));
            } else {
                assert(key_of(prefix[w]) == k);
                assert(exists|i: int| 0 <= i < prefix.len() && key_of(#[trigger] prefix[i]) == k);
                assert(has_strain(fold_groups(prefix), k));
            }
            assert(has_strain(insert_listing(fold_groups(prefix), ls.last()), k));
        }
    }
}

// ---------------------------------------------------------------------------
// Laws of aggregation.
// ---------------------------------------------------------------------------

/// LAW: in every group of an aggregation result the per-source records
/// stem from pairwise distinct sources and all normalize to the group's
/// strain name; when two or more sources contributed and their total
/// review count is positive, the synthesized record carries exactly the
/// review-count-weighted average rating (in thousandths, rounded toward
/// zero) and the exact sum of the review counts; a group of a single
/// record, or one whose total review count is zero, carries none.
pub proof fn lemma_meta_average(ls: Seq<ListingView>, gi: int)
    requires
        0 <= gi < aggregate_spec(ls).len(),
    ensures
        forall|i: int, j: int|
            0 <= i < j < aggregate_spec(ls)[gi].records.len()
                ==> aggregate_spec(ls)[gi].records[i].source
                != aggregate_spec(ls)[gi].records[j].source,
        forall|i: int|
            0 <= i < aggregate_spec(ls)[gi].records.len() ==> key_of(
                #[trigger] aggregate_spec(ls)[gi].records[i],
            ) == aggregate_spec(ls)[gi].strain,
        aggregate_spec(ls)[gi].records.len() >= 1,
        (aggregate_spec(ls)[gi].records.len() >= 2 && csum(aggregate_spec(ls)[gi].records) > 0)
            ==> aggregate_spec(ls)[gi].meta == Some(
            MetaView {
                source: meta_source(),
                strain: aggregate_spec(ls)[gi].strain,
                url: Seq::empty(),
                rating_milli: (wsum(aggregate_spec(ls)[gi].records) / csum(
                    aggregate_spec(ls)[gi].records,
                )) as u32,
                ratings: csum(aggregate_spec(ls)[gi].records) as u64,
            },
        ),
        (aggregate_spec(ls)[gi].records.len() < 2 || csum(aggregate_spec(ls)[gi].records) <= 0)
            ==> aggregate_spec(ls)[gi].meta is None,
{
    lemma_fold_wf(ls);
    assert(aggregate_spec(ls)[gi] == finalize_group(fold_groups(ls)[gi]));
    assert(wf_records(fold_groups(ls)[gi].records, fold_groups(ls)[gi].strain));
}

/// LAW: listings that all stem from one single source never acquire a
/// synthetic meta-average record, whatever their strains.
pub proof fn lemma_single_source_no_meta(ls: Seq<ListingView>)
    requires
        forall|i: int, j: int|
            0 <= i < ls.len() && 0 <= j < ls.len() ==> ls[i].source == ls[j].source,
    ensures
        forall|gi: int|
            0 <= gi < aggregate_spec(ls).len() ==> (#[trigger] aggregate_spec(ls)[gi]).meta
                is None,
{
    lemma_fold_wf(ls);
    let gs = fold_groups(ls);
    assert forall|gi: int|
        0 <= gi < aggregate_spec(ls).len() implies (#[trigger] aggregate_spec(ls)[gi]).meta
        is None by {
        assert(aggregate_spec(ls)[gi] == finalize_group(gs[gi]));
        if gs[gi].records.len() >= 2 {
            let r0 = gs[gi].records[0];
            let r1 = gs[gi].records[1];
            assert(wf_records(gs[gi].records, gs[gi].strain));
            assert(r0.source != r1.source);
            assert(gs[gi].records.contains(r0));
            assert(gs[gi].records.contains(r1));
            assert(record_in(gs, r0));
            assert(record_in(gs, r1));
            assert(ls.contains(r0));
            assert(ls.contains(r1));
            let i0 = choose|i: int| 0 <= i < ls.len() && ls[i] == r0;
            let i1 = choose|i: int| 0 <= i < ls.len() && ls[i] == r1;
            assert(ls[i0].source == ls[i1].source);
            assert(false);
        }
    }
}

/// LAW: no listings in, no groups out; a single listing yields exactly one
/// group holding exactly that record and no synthetic entry.
pub proof fn lemma_boundary(l: ListingView)
    ensures
        aggregate_spec(Seq::<ListingView>::empty()) =~= Seq::<GroupView>::empty(),
        aggregate_spec(seq![l]) =~= seq![
            GroupView { strain: key_of(l), records: seq![l], meta: None },
        ],
{
    let single = seq![l];
    assert(single.drop_last() =~= Seq::<ListingView>::empty());
    assert(fold_groups(Seq::<ListingView>::empty()) =~= Seq::<GroupView>::empty());
    assert(fold_groups(single) == insert_listing(Seq::<GroupView>::empty(), single.last()));
    assert(fold_groups(single) =~= seq![
        GroupView { strain: key_of(l), records: seq![l], meta: None },
    ]);
}

// ---------------------------------------------------------------------------
// Order-independence: the folded groups as nested maps.
// ---------------------------------------------------------------------------

/// A group's records as a map from source to record: the order-free
/// contents of the group.
pub open spec fn records_map(rs: Seq<ListingView>) -> Map<Seq<char>, ListingView>
    decreases rs.len(),
{
    if rs.len() == 0 {
        Map::empty()
    } else {
        records_map(rs.drop_last()).insert(rs.last().source, rs.last())
    }
}

/// The folded groups as a map from normalized strain name to per-source
/// records: the order-free contents of an aggregation result.
pub open spec fn groups_map(gs: Seq<GroupView>) -> Map<Seq<char>, Map<Seq<char>, ListingView>>
    decreases gs.len(),
{
    if gs.len() == 0 {
        Map::empty()
    } else {
        groups_map(gs.drop_last()).insert(
            gs.last().strain,
            records_map(gs.last().records),
        )
    }
}

/// One listing folded into the nested-map model.
pub open spec fn map_step(
    m: Map<Seq<char>, Map<Seq<char>, ListingView>>,
    l: ListingView,
) -> Map<Seq<char>, Map<Seq<char>, ListingView>> {
    let g = if m.dom().contains(key_of(l)) {
        m[key_of(l)]
    } else {
        Map::empty()
    };
    m.insert(key_of(l), g.insert(l.source, l))
}

/// All listings folded into the nested-map model.
pub open spec fn map_fold(ls: Seq<ListingView>) -> Map<Seq<char>, Map<Seq<char>, ListingView>>
    decreases ls.len(),
{
    if ls.len() == 0 {
        Map::empty()
    } else {
        map_step(map_fold(ls.drop_last()), ls.last())
    }
}

proof fn lemma_records_map_dom(rs: Seq<ListingView>)
    ensures
        forall|s: Seq<char>|
            #![trigger records_map(rs).dom().contains(s)]
            records_map(rs).dom().contains(s) <==> has_source(rs, s),
    decreases rs.len(),
{
    if rs.len() > 0 {
        let prefix = rs.drop_last();
        lemma_records_map_dom(prefix);
        assert forall|s: Seq<char>| records_map(rs).dom().contains(s) implies has_source(
            rs,
            s,
        ) by {
            if s == rs.last().source {
                assert(rs[rs.len() - 1].source == s);
            } else {
                assert(records_map(prefix).dom().contains(s));
                let w = choose|i: int| 0 <= i < prefix.len() && prefix[i].source == s;
                assert(rs[w].source == s);
            }
        }
        assert forall|s: Seq<char>| has_source(rs, s) implies records_map(rs).dom().contains(
            s,
        ) by {
            let w = choose|i: int| 0 <= i < rs.len() && rs[i].source == s;
            if w < rs.len() - 1 {
                assert(prefix[w].source == s);
                assert(records_map(prefix).dom().contains(s));
            }
        }
    }
}

proof fn lemma_records_map_update(rs: Seq<ListingView>, l: ListingView, i: int)
    requires
        forall|p: int, q: int| 0 <= p < q < rs.len() ==> rs[p].source != rs[q].source,
        0 <= i < rs.len(),
        rs[i].source == l.source,
    ensures
        records_map(rs.update(i, l)) == records_map(rs).insert(l.source, l),
    decreases rs.len(),
{
    let z = rs.last();
    let prefix = rs.drop_last();
    if i == rs.len() - 1 {
        assert(rs.update(i, l).drop_last() =~= prefix);
        assert(rs.update(i, l).last() == l);
        assert(records_map(rs.update(i, l)) == records_map(prefix).insert(l.source, l));
        assert(records_map(prefix).insert(z.source, z).insert(l.source, l) =~= records_map(
            prefix,
        ).insert(l.source, l));
    } else {
        assert(rs.update(i, l).drop_last() =~= prefix.update(i, l));
        assert(rs.update(i, l).last() == z);
        assert forall|p: int, q: int| 0 <= p < q < prefix.len() implies prefix[p].source
            != prefix[q].source by {
            assert(prefix[p] == rs[p] && prefix[q] == rs[q]);
        }
        assert(prefix[i] == rs[i]);
        lemma_records_map_update(prefix, l, i);
        assert(z.source != l.source);
        assert(records_map(prefix).insert(l.source, l).insert(z.source, z) =~= records_map(
            prefix,
        ).insert(z.source, z).insert(l.source, l));
        assert(records_map(rs.update(i, l)) == records_map(prefix.update(i, l)).insert(
            z.source,
            z,
        ));
    }
}

proof fn lemma_records_map_upsert(rs: Seq<ListingView>, l: ListingView)
    requires
        forall|p: int, q: int| 0 <= p < q < rs.len() ==> rs[p].source != rs[q].source,
    ensures
        records_map(upsert_record(rs, l)) == records_map(rs).insert(l.source, l),
{
    if has_source(rs, l.source) {
        let w = choose|i: int| 0 <= i < rs.len() && rs[i].source == l.source;
        assert forall|j: int| 0 <= j < w implies rs[j].source != l.source by {
            assert(rs[j].source != rs[w].source);
        }
        lemma_upsert_found(rs, l, w);
        lemma_records_map_update(rs, l, w);
    } else {
        lemma_upsert_notfound(rs, l);
        assert(rs.push(l).drop_last() =~= rs);
        assert(rs.push(l).last() == l);
    }
}

proof fn lemma_groups_map_dom(gs: Seq<GroupView>)
    ensures
        forall|k: Seq<char>|
            #![trigger groups_map(gs).dom().contains(k)]
            groups_map(gs).dom().contains(k) <==> has_strain(gs, k),
    decreases gs.len(),
{
    if gs.len() > 0 {
        let prefix = gs.drop_last();
        lemma_groups_map_dom(prefix);
        assert forall|k: Seq<char>| groups_map(gs).dom().contains(k) implies has_strain(
            gs,
            k,
        ) by {
            if k == gs.last().strain {
                assert(gs[gs.len() - 1].strain == k);
            } else {
                assert(groups_map(prefix).dom().contains(k));
                let w = choose|i: int| 0 <= i < prefix.len() && prefix[i].strain == k;
                assert(gs[w].strain == k);
            }
        }
        assert forall|k: Seq<char>| has_strain(gs, k) implies groups_map(gs).dom().contains(
            k,
        ) by {
            let w = choose|i: int| 0 <= i < gs.len() && gs[i].strain == k;
            if w < gs.len() - 1 {
                assert(prefix[w].strain == k);
                assert(groups_map(prefix).dom().contains(k));
            }
        }
    }
}

proof fn lemma_groups_map_lookup(gs: Seq<GroupView>, gi: int)
    requires
        forall|p: int, q: int| 0 <= p < q < gs.len() ==> gs[p].strain != gs[q].strain,
        0 <= gi < gs.len(),
    ensures
        groups_map(gs).dom().contains(gs[gi].strain),
        groups_map(gs)[gs[gi].strain] == records_map(gs[gi].records),
    decreases gs.len(),
{
    let prefix = gs.drop_last();
    if gi == gs.len() - 1 {
    } else {
        assert forall|p: int, q: int| 0 <= p < q < prefix.len() implies prefix[p].strain
            != prefix[q].strain by {
            assert(prefix[p] == gs[p] && prefix[q] == gs[q]);
        }
        assert(prefix[gi] == gs[gi]);
        lemma_groups_map_lookup(prefix, gi);
        assert(gs[gi].strain != gs.last().strain);
    }
}

proof fn lemma_groups_map_update(gs: Seq<GroupView>, g: GroupView, gi: int)
    requires
        forall|p: int, q: int| 0 <= p < q < gs.len() ==> gs[p].strain != gs[q].strain,
        0 <= gi < gs.len(),
        gs[gi].strain == g.strain,
    ensures
        groups_map(gs.update(gi, g)) == groups_map(gs).insert(g.strain, records_map(g.records)),
    decreases gs.len(),
{
    let z = gs.last();
    let prefix = gs.drop_last();
    if gi == gs.len() - 1 {
        assert(gs.update(gi, g).drop_last() =~= prefix);
        assert(gs.update(gi, g).last() == g);
        assert(groups_map(prefix).insert(z.strain, records_map(z.records)).insert(
            g.strain,
            records_map(g.records),
        ) =~= groups_map(prefix).insert(g.strain, records_map(g.records)));
    } else {
        assert(gs.update(gi, g).drop_last() =~= prefix.update(gi, g));
        assert(gs.update(gi, g).last() == z);
        assert forall|p: int, q: int| 0 <= p < q < prefix.len() implies prefix[p].strain
            != prefix[q].strain by {
            assert(prefix[p] == gs[p] && prefix[q] == gs[q]);
        }
        assert(prefix[gi] == gs[gi]);
        lemma_groups_map_update(prefix, g, gi);
        assert(z.strain != g.strain);
        assert(groups_map(prefix).insert(g.strain, records_map(g.records)).insert(
            z.strain,
            records_map(z.records),
        ) =~= groups_map(prefix).insert(z.strain, records_map(z.records)).insert(
            g.strain,
            records_map(g.records),
        ));
    }
}

proof fn lemma_insert_to_map(gs: Seq<GroupView>, l: ListingView)
    requires
        wf_raw(gs),
    ensures
        groups_map(insert_listing(gs, l)) == map_step(groups_map(gs), l),
{
    let k = key_of(l);
    lemma_groups_map_dom(gs);
    if has_strain(gs, k) {
        let gi = choose|i: int| 0 <= i < gs.len() && gs[i].strain == k;
        assert forall|j: int| 0 <= j < gi implies gs[j].strain != k by {
            assert(gs[j].strain != gs[gi].strain);
        }
        lemma_insert_found(gs, l, gi);
        let g = GroupView {
            strain: gs[gi].strain,
            records: upsert_record(gs[gi].records, l),
            meta: gs[gi].meta,
        };
        lemma_groups_map_update(gs, g, gi);
        assert(wf_records(gs[gi].records, gs[gi].strain));
        lemma_records_map_upsert(gs[gi].records, l);
        lemma_groups_map_lookup(gs, gi);
        assert(groups_map(gs).dom().contains(k));
        assert(groups_map(insert_listing(gs, l)) =~~= map_step(groups_map(gs), l));
    } else {
        lemma_insert_notfound(gs, l);
        let g = GroupView { strain: k, records: seq![l], meta: None };
        assert(gs.push(g).drop_last() =~= gs);
        assert(gs.push(g).last() == g);
        assert(groups_map(insert_listing(gs, l)) == groups_map(gs).insert(
            k,
            records_map(seq![l]),
        ));
        assert(seq![l].drop_last() =~= Seq::<ListingView>::empty());
        assert(seq![l].last() == l);
        assert(records_map(Seq::<ListingView>::empty()) =~= Map::<Seq<char>, ListingView>::empty());
        assert(records_map(seq![l]) =~= Map::<Seq<char>, ListingView>::empty().insert(
            l.source,
            l,
        ));
        assert(!groups_map(gs).dom().contains(k));
        assert(groups_map(insert_listing(gs, l)) =~~= map_step(groups_map(gs), l));
    }
}

proof fn lemma_fold_to_map(ls: Seq<ListingView>)
    ensures
        groups_map(fold_groups(ls)) == map_fold(ls),
    decreases ls.len(),
{
    if ls.len() > 0 {
        let prefix = ls.drop_last();
        lemma_fold_to_map(prefix);
        lemma_fold_wf(prefix);
        lemma_insert_to_map(fold_groups(prefix), ls.last());
    }
}

proof fn lemma_map_step_commutes(
    m: Map<Seq<char>, Map<Seq<char>, ListingView>>,
    l1: ListingView,
    l2: ListingView,
)
    requires
        l1.source != l2.source,
    ensures
        map_step(map_step(m, l1), l2) == map_step(map_step(m, l2), l1),
{
    let k1 = key_of(l1);
    let k2 = key_of(l2);
    if k1 == k2 {
        let g = if m.dom().contains(k1) {
            m[k1]
        } else {
            Map::<Seq<char>, ListingView>::empty()
        };
        assert(g.insert(l1.source, l1).insert(l2.source, l2) =~= g.insert(l2.source, l2).insert(
            l1.source,
            l1,
        ));
        assert(map_step(map_step(m, l1), l2) =~~= map_step(map_step(m, l2), l1));
    } else {
        assert(map_step(map_step(m, l1), l2) =~~= map_step(map_step(m, l2), l1));
    }
}

proof fn lemma_map_fold_shift(xs: Seq<ListingView>, x: ListingView, ys: Seq<ListingView>)
    requires
        forall|j: int| 0 <= j < ys.len() ==> ys[j].source != x.source,
    ensures
        map_fold(xs + seq![x] + ys) == map_step(map_fold(xs + ys), x),
    decreases ys.len(),
{
    if ys.len() == 0 {
        let s = xs + seq![x] + ys;
        assert(s.drop_last() =~= xs + ys);
        assert(s.last() == x);
    } else {
        let y = ys.last();
        let ys2 = ys.drop_last();
        let s = xs + seq![x] + ys;
        assert(s.drop_last() =~= xs + seq![x] + ys2);
        assert(s.last() == y);
        assert forall|j: int| 0 <= j < ys2.len() implies ys2[j].source != x.source by {
            assert(ys2[j] == ys[j]);
        }
        lemma_map_fold_shift(xs, x, ys2);
        lemma_map_step_commutes(map_fold(xs + ys2), x, y);
        assert((xs + ys).drop_last() =~= xs + ys2);
        assert((xs + ys).last() == y);
        assert(map_fold(xs + seq![x] + ys) == map_step(map_step(map_fold(xs + ys2), x), y));
        assert(map_fold(xs + ys) == map_step(map_fold(xs + ys2), y));
    }
}

proof fn lemma_map_fold_commutes(a: Seq<ListingView>, b: Seq<ListingView>)
    requires
        forall|i: int, j: int|
            0 <= i < a.len() && 0 <= j < b.len() ==> a[i].source != b[j].source,
    ensures
        map_fold(a + b) == map_fold(b + a),
    decreases a.len(),
{
    if a.len() == 0 {
        assert(a + b =~= b);
        assert(b + a =~= b);
    } else {
        let x = a.last();
        let a2 = a.drop_last();
        assert forall|j: int| 0 <= j < b.len() implies b[j].source != x.source by {
            assert(a[a.len() - 1].source != b[j].source);
        }
        assert forall|i: int, j: int|
            0 <= i < a2.len() && 0 <= j < b.len() implies a2[i].source != b[j].source by {
            assert(a2[i] == a[i]);
        }
        assert(a + b =~= a2 + seq![x] + b);
        lemma_map_fold_shift(a2, x, b);
        lemma_map_fold_commutes(a2, b);
        assert((b + a).drop_last() =~= b + a2);
        assert((b + a).last() == x);
        assert(map_fold(b + a) == map_step(map_fold(b + a2), x));
        assert(map_fold(a + b) == map_step(map_fold(a2 + b), x));
    }
}

/// LAW: aggregation is commutative in the order in which the sources are
/// folded.  When every listing of `a` stems from sources distinct from
/// those of `b` — as when `a` and `b` are the answers of two different
/// sources — folding `a` before `b` and folding `b` before `a` group the
/// very same records under the very same normalized strain names and
/// source keys; only the order of the groups can differ.
pub proof fn lemma_fold_commutes(a: Seq<ListingView>, b: Seq<ListingView>)
    requires
        forall|i: int, j: int|
            0 <= i < a.len() && 0 <= j < b.len() ==> a[i].source != b[j].source,
    ensures
        groups_map(fold_groups(a + b)) == groups_map(fold_groups(b + a)),
{
    lemma_fold_to_map(a + b);
    lemma_fold_to_map(b + a);
    lemma_map_fold_commutes(a, b);
}

proof fn lemma_records_map_lookup(rs: Seq<ListingView>, i: int)
    requires
        forall|p: int, q: int| 0 <= p < q < rs.len() ==> rs[p].source != rs[q].source,
        0 <= i < rs.len(),
    ensures
        records_map(rs).dom().contains(rs[i].source),
        records_map(rs)[rs[i].source] == rs[i],
    decreases rs.len(),
{
    let prefix = rs.drop_last();
    if i == rs.len() - 1 {
    } else {
        assert forall|p: int, q: int| 0 <= p < q < prefix.len() implies prefix[p].source
            != prefix[q].source by {
            assert(prefix[p] == rs[p] && prefix[q] == rs[q]);
        }
        assert(prefix[i] == rs[i]);
        lemma_records_map_lookup(prefix, i);
        assert(rs[i].source != rs.last().source);
    }
}

proof fn lemma_records_map_remove(rs: Seq<ListingView>, i: int)
    requires
        forall|p: int, q: int| 0 <= p < q < rs.len() ==> rs[p].source != rs[q].source,
        0 <= i < rs.len(),
    ensures
        records_map(rs.remove(i)) == records_map(rs).remove(rs[i].source),
    decreases rs.len(),
{
    let z = rs.last();
    let prefix = rs.drop_last();
    lemma_records_map_dom(prefix);
    if i == rs.len() - 1 {
        assert(rs.remove(i) =~= prefix);
        assert(!has_source(prefix, z.source)) by {
            if has_source(prefix, z.source) {
                let w = choose|t: int| 0 <= t < prefix.len() && prefix[t].source == z.source;
                assert(rs[w].source == rs[rs.len() - 1].source);
            }
        }
        assert(records_map(prefix).insert(z.source, z).remove(z.source) =~= records_map(prefix));
    } else {
        assert(rs.remove(i).drop_last() =~= prefix.remove(i));
        assert(rs.remove(i).last() == z);
        assert forall|p: int, q: int| 0 <= p < q < prefix.len() implies prefix[p].source
            != prefix[q].source by {
            assert(prefix[p] == rs[p] && prefix[q] == rs[q]);
        }
        assert(prefix[i] == rs[i]);
        lemma_records_map_remove(prefix, i);
        assert(z.source != rs[i].source);
        assert(records_map(prefix).remove(rs[i].source).insert(z.source, z) =~= records_map(
            prefix,
        ).insert(z.source, z).remove(rs[i].source));
        assert(records_map(rs.remove(i)) == records_map(prefix.remove(i)).insert(z.source, z));
    }
}

proof fn lemma_sum_remove(rs: Seq<ListingView>, i: int)
    requires
        0 <= i < rs.len(),
    ensures
        csum(rs) == csum(rs.remove(i)) + rs[i].ratings,
        wsum(rs) == wsum(rs.remove(i)) + rs[i].rating_milli * rs[i].ratings,
    decreases rs.len(),
{
    let z = rs.last();
    let prefix = rs.drop_last();
    if i == rs.len() - 1 {
        assert(rs.remove(i) =~= prefix);
    } else {
        assert(rs.remove(i).drop_last() =~= prefix.remove(i));
        assert(rs.remove(i).last() == z);
        assert(prefix[i] == rs[i]);
        lemma_sum_remove(prefix, i);
        assert(csum(rs.remove(i)) == csum(prefix.remove(i)) + z.ratings);
        assert(wsum(rs.remove(i)) == wsum(prefix.remove(i)) + z.rating_milli * z.ratings);
    }
}

/// Two groups with the same per-source record map have the same number of
/// records and the same totals, whatever the record order.
proof fn lemma_same_map_same_sums(rs1: Seq<ListingView>, rs2: Seq<ListingView>)
    requires
        forall|p: int, q: int| 0 <= p < q < rs1.len() ==> rs1[p].source != rs1[q].source,
        forall|p: int, q: int| 0 <= p < q < rs2.len() ==> rs2[p].source != rs2[q].source,
        records_map(rs1) == records_map(rs2),
    ensures
        rs1.len() == rs2.len(),
        csum(rs1) == csum(rs2),
        wsum(rs1) == wsum(rs2),
    decreases rs1.len(),
{
    lemma_records_map_dom(rs1);
    lemma_records_map_dom(rs2);
    if rs1.len() == 0 {
        if rs2.len() > 0 {
            assert(has_source(rs2, rs2[0].source));
            assert(records_map(rs2).dom().contains(rs2[0].source));
        }
    } else {
        let x = rs1.last();
        let li = rs1.len() - 1;
        lemma_records_map_lookup(rs1, li);
        assert(has_source(rs1, x.source));
        assert(records_map(rs2).dom().contains(x.source));
        assert(has_source(rs2, x.source));
        let j = choose|t: int| 0 <= t < rs2.len() && rs2[t].source == x.source;
        lemma_records_map_lookup(rs2, j);
        assert(rs2[j] == x);
        let rs1p = rs1.drop_last();
        let rs2p = rs2.remove(j);
        lemma_records_map_remove(rs2, j);
        assert(rs1.remove(li) =~= rs1p);
        lemma_records_map_remove(rs1, li);
        assert(records_map(rs1p) == records_map(rs2p));
        assert forall|p: int, q: int| 0 <= p < q < rs1p.len() implies rs1p[p].source
            != rs1p[q].source by {
            assert(rs1p[p] == rs1[p] && rs1p[q] == rs1[q]);
        }
        assert forall|p: int, q: int| 0 <= p < q < rs2p.len() implies rs2p[p].source
            != rs2p[q].source by {
            assert(rs2p[p] == rs2[if p < j {
                p
            } else {
                p + 1
            }]);
            assert(rs2p[q] == rs2[if q < j {
                q
            } else {
                q + 1
            }]);
        }
        lemma_same_map_same_sums(rs1p, rs2p);
        lemma_sum_remove(rs2, j);
        lemma_sum_remove(rs1, li);
    }
}

proof fn lemma_groups_map_finalize(gs: Seq<GroupView>)
    ensures
        groups_map(gs.map_values(|g: GroupView| finalize_group(g))) == groups_map(gs),
    decreases gs.len(),
{
    let f = |g: GroupView| finalize_group(g);
    if gs.len() > 0 {
        let prefix = gs.drop_last();
        lemma_groups_map_finalize(prefix);
        assert(gs.map_values(f).drop_last() =~= prefix.map_values(f));
        assert(gs.map_values(f).last() == finalize_group(gs.last()));
    }
}

/// LAW: the whole answer — per-source records and synthesized
/// meta-averages alike — does not depend on the order in which two
/// sources' listings are folded.  For every group of the one result there
/// is a group of the other with the same normalized strain name, the same
/// per-source record map, and the same synthetic record.
pub proof fn lemma_aggregate_commutes(a: Seq<ListingView>, b: Seq<ListingView>)
    requires
        forall|i: int, j: int|
            0 <= i < a.len() && 0 <= j < b.len() ==> a[i].source != b[j].source,
    ensures
        groups_map(aggregate_spec(a + b)) == groups_map(aggregate_spec(b + a)),
        forall|i: int|
            0 <= i < aggregate_spec(a + b).len() ==> exists|j: int|
                0 <= j < aggregate_spec(b + a).len() && (#[trigger] aggregate_spec(b + a)[j]).strain
                    == (#[trigger] aggregate_spec(a + b)[i]).strain && records_map(
                    aggregate_spec(b + a)[j].records,
                ) == records_map(aggregate_spec(a + b)[i].records) && aggregate_spec(b + a)[j].meta
                    == aggregate_spec(a + b)[i].meta,
{
    let g1 = fold_groups(a + b);
    let g2 = fold_groups(b + a);
    let r1 = aggregate_spec(a + b);
    let r2 = aggregate_spec(b + a);
    lemma_fold_commutes(a, b);
    lemma_fold_wf(a + b);
    lemma_fold_wf(b + a);
    lemma_groups_map_finalize(g1);
    lemma_groups_map_finalize(g2);
    lemma_groups_map_dom(g1);
    lemma_groups_map_dom(g2);
    assert forall|i: int| 0 <= i < r1.len() implies exists|j: int|
        0 <= j < r2.len() && (#[trigger] r2[j]).strain == (#[trigger] r1[i]).strain && records_map(
            r2[j].records,
        ) == records_map(r1[i].records) && r2[j].meta == r1[i].meta by {
        let k = g1[i].strain;
        assert(r1[i] == finalize_group(g1[i]));
        assert(has_strain(g1, k));
        assert(groups_map(g1).dom().contains(k));
        assert(groups_map(g2).dom().contains(k));
        assert(has_strain(g2, k));
        let j = choose|t: int| 0 <= t < g2.len() && g2[t].strain == k;
        assert(r2[j] == finalize_group(g2[j]));
        lemma_groups_map_lookup(g1, i);
        lemma_groups_map_lookup(g2, j);
        assert(records_map(g1[i].records) == groups_map(g1)[k]);
        assert(records_map(g2[j].records) == groups_map(g2)[k]);
        assert(wf_records(g1[i].records, k));
        assert(wf_records(g2[j].records, k));
        lemma_same_map_same_sums(g1[i].records, g2[j].records);
        assert(r2[j].meta == r1[i].meta);
        assert(r2[j].strain == r1[i].strain);
        assert(records_map(r2[j].records) == records_map(r1[i].records));
    }
}

// ---------------------------------------------------------------------------
// Alignment of the scanning implementation with the recursive model.
// ---------------------------------------------------------------------------

proof fn lemma_upsert_found(rs: Seq<ListingView>, l: ListingView, ri: int)
    requires
        0 <= ri < rs.len(),
        rs[ri].source == l.source,
        forall|j: int| 0 <= j < ri ==> rs[j].source != l.source,
    ensures
        upsert_record(rs, l) == rs.update(ri, l),
    decreases ri,
{
    if ri == 0 {
        assert(upsert_record(rs, l) =~= rs.update(0, l));
    } else {
        let tail = rs.drop_first();
        assert(rs[0].source != l.source);
        assert(tail[ri - 1] == rs[ri]);
        assert forall|j: int| 0 <= j < ri - 1 implies tail[j].source != l.source by {
            assert(tail[j] == rs[j + 1]);
        }
        lemma_upsert_found(tail, l, ri - 1);
        assert(upsert_record(rs, l) =~= rs.update(ri, l));
    }
}

proof fn lemma_upsert_notfound(rs: Seq<ListingView>, l: ListingView)
    requires
        forall|j: int| 0 <= j < rs.len() ==> rs[j].source != l.source,
    ensures
        upsert_record(rs, l) == rs.push(l),
    decreases rs.len(),
{
    if rs.len() == 0 {
        assert(upsert_record(rs, l) =~= rs.push(l));
    } else {
        let tail = rs.drop_first();
        assert forall|j: int| 0 <= j < tail.len() implies tail[j].source != l.source by {
            assert(tail[j] == rs[j + 1]);
        }
        lemma_upsert_notfound(tail, l);
        assert(upsert_record(rs, l) =~= rs.push(l));
    }
}

proof fn lemma_insert_found(gs: Seq<GroupView>, l: ListingView, gi: int)
    requires
        0 <= gi < gs.len(),
        gs[gi].strain == key_of(l),
        forall|j: int| 0 <= j < gi ==> gs[j].strain != key_of(l),
    ensures
        insert_listing(gs, l) == gs.update(
            gi,
            GroupView {
                strain: gs[gi].strain,
                records: upsert_record(gs[gi].records, l),
                meta: gs[gi].meta,
            },
        ),
    decreases gi,
{
    if gi == 0 {
        assert(insert_listing(gs, l) =~= gs.update(
            0,
            GroupView {
                strain: gs[0].strain,
                records: upsert_record(gs[0].records, l),
                meta: gs[0].meta,
            },
        ));
    } else {
        let tail = gs.drop_first();
        assert(gs[0].strain != key_of(l));
        assert(tail[gi - 1] == gs[gi]);
        assert forall|j: int| 0 <= j < gi - 1 implies tail[j].strain != key_of(l) by {
            assert(tail[j] == gs[j + 1]);
        }
        lemma_insert_found(tail, l, gi - 1);
        assert(insert_listing(gs, l) =~= gs.update(
            gi,
            GroupView {
                strain: gs[gi].strain,
                records: upsert_record(gs[gi].records, l),
                meta: gs[gi].meta,
            },
        ));
    }
}

proof fn lemma_insert_notfound(gs: Seq<GroupView>, l: ListingView)
    requires
        forall|j: int| 0 <= j < gs.len() ==> gs[j].strain != key_of(l),
    ensures
        insert_listing(gs, l) == gs.push(
            GroupView { strain: key_of(l), records: seq![l], meta: None },
        ),
    decreases gs.len(),
{
    if gs.len() == 0 {
        assert(insert_listing(gs, l) =~= gs.push(
            GroupView { strain: key_of(l), records: seq![l], meta: None },
        ));
    } else {
        let tail = gs.drop_first();
        assert forall|j: int| 0 <= j < tail.len() implies tail[j].strain != key_of(l) by {
            assert(tail[j] == gs[j + 1]);
        }
        lemma_insert_notfound(tail, l);
        assert(insert_listing(gs, l) =~= gs.push(
            GroupView { strain: key_of(l), records: seq![l], meta: None },
        ));
    }
}

// ---------------------------------------------------------------------------
// Bounds on the sums: machine arithmetic cannot overflow.
// ---------------------------------------------------------------------------

/// Both sums are nonnegative, grow at most by one 32-bit value per record,
/// and the weighted sum never exceeds the review total times the largest
/// representable rating.
pub proof fn lemma_sum_bounds(rs: Seq<ListingView>)
    ensures
        0 <= csum(rs) <= rs.len() * (u32::MAX as int),
        0 <= wsum(rs) <= rs.len() * ((u32::MAX as int) * (u32::MAX as int)),
        wsum(rs) <= csum(rs) * (u32::MAX as int),
    decreases rs.len(),
{
    if rs.len() > 0 {
        let prefix = rs.drop_last();
        lemma_sum_bounds(prefix);
        let r = rs.last();
        let m = u32::MAX as int;
        vstd::arithmetic::mul::lemma_mul_inequality(r.rating_milli as int, m, r.ratings as int);
        vstd::arithmetic::mul::lemma_mul_inequality(r.ratings as int, m, m);
        vstd::arithmetic::mul::lemma_mul_is_commutative(m, r.ratings as int);
        assert(r.rating_milli * r.ratings <= m * m);
        assert(prefix.len() * m + m == rs.len() * m) by (nonlinear_arith)
            requires
                prefix.len() + 1 == rs.len(),
        ;
        assert(prefix.len() * (m * m) + m * m == rs.len() * (m * m)) by (nonlinear_arith)
            requires
                prefix.len() + 1 == rs.len(),
        ;
        assert(csum(prefix) * m + r.ratings * m == csum(rs) * m) by (nonlinear_arith)
            requires
                csum(prefix) + r.ratings == csum(rs),
        ;
    }
}

// ---------------------------------------------------------------------------
// The executable aggregator.
// ---------------------------------------------------------------------------

fn find_group_idx(groups: &Vec<StrainGroup>, key: &String) -> (r: Option<usize>)
    ensures
        match r {
            Some(i) => i < groups@.len() && groups@[i as int].strain@ == key@ && forall|j: int|
                0 <= j < i ==> groups@[j].strain@ != key@,
            None => forall|j: int| 0 <= j < groups@.len() ==> groups@[j].strain@ != key@,
        },
{
    let mut i: usize = 0;
    while i < groups.len()
        invariant
            i <= groups@.len(),
            forall|j: int| 0 <= j < i ==> groups@[j].strain@ != key@,
        decreases groups@.len() - i,
    {
        if groups[i].strain == *key {
            return Some(i);
        }
        i += 1;
    }
    None
}

fn find_record_idx(records: &Vec<Listing>, source: &String) -> (r: Option<usize>)
    ensures
        match r {
            Some(i) => i < records@.len() && records@[i as int].source@ == source@ && forall|
                j: int,
            | 0 <= j < i ==> records@[j].source@ != source@,
            None => forall|j: int| 0 <= j < records@.len() ==> records@[j].source@ != source@,
        },
{
    let mut i: usize = 0;
    while i < records.len()
        invariant
            i <= records@.len(),
            forall|j: int| 0 <= j < i ==> records@[j].source@ != source@,
        decreases records@.len() - i,
    {
        if records[i].source == *source {
            return Some(i);
        }
        i += 1;
    }
    None
}

/// Exact totals of a group's records: the review count and the weighted
/// rating in thousandths.
fn group_sums(records: &Vec<Listing>) -> (r: (u64, u128))
    requires
        records@.len() <= u32::MAX as int,
    ensures
        r.0 == csum(lviews(records@)),
        r.1 == wsum(lviews(records@)),
{
    let ghost rvs = lviews(records@);
    let mut cs: u64 = 0;
    let mut ws: u128 = 0;
    let mut i: usize = 0;
    while i < records.len()
        invariant
            rvs == lviews(records@),
            i <= records@.len(),
            records@.len() <= u32::MAX as int,
            cs == csum(rvs.subrange(0, i as int)),
            ws == wsum(rvs.subrange(0, i as int)),
            cs <= (i as int) * (u32::MAX as int),
            ws <= (i as int) * ((u32::MAX as int) * (u32::MAX as int)),
        decreases records@.len() - i,
    {
        let rec = &records[i];
        proof {
            let m = u32::MAX as int;
            assert(rvs.subrange(0, i + 1 as int).drop_last() =~= rvs.subrange(0, i as int));
            assert(rvs.subrange(0, i + 1 as int).last() == rec@);
            vstd::arithmetic::mul::lemma_mul_inequality(rec.rating_milli as int, m, rec.ratings as int);
            vstd::arithmetic::mul::lemma_mul_inequality(rec.ratings as int, m, m);
            vstd::arithmetic::mul::lemma_mul_is_commutative(m, rec.ratings as int);
            assert((i + 1 as int) * m <= m * m) by (nonlinear_arith)
                requires
                    0 <= i + 1 <= m,
            ;
            assert((i + 1 as int) * (m * m) <= m * (m * m)) by (nonlinear_arith)
                requires
                    0 <= i + 1 <= m,
            ;
            assert((i as int) * m + m == (i + 1 as int) * m) by (nonlinear_arith);
            assert((i as int) * (m * m) + m * m == (i + 1 as int) * (m * m)) by (nonlinear_arith);
        }
        cs = cs + (rec.ratings as u64);
        ws = ws + (rec.rating_milli as u128) * (rec.ratings as u128);
        i += 1;
    }
    proof {
        assert(rvs.subrange(0, records@.len() as int) =~= rvs);
    }
    (cs, ws)
}

/// THE CORE: folds the listings of all sources into one group per
/// normalized strain name and finalizes each group.
///
/// Each listing joins the group of its normalized strain name, keyed inside
/// the group by its source: a later listing from the same source for the
/// same strain silently overwrites the earlier one.  A finalized group
/// holds a synthesized meta-average exactly when records from two or more
/// distinct sources contributed and their total review count is positive;
/// the synthetic rating is the review-count-weighted average of the
/// records' ratings.
///
/// Pure: the result is a function of the input listings alone, so two runs
/// over the same listings return identical results.
///
/// The length bound is a machine limit: it keeps every intermediate sum
/// representable.
pub fn aggregate(listings: Vec<Listing>) -> (r: QueryResult)
    requires
        listings@.len() <= u32::MAX as int,
    ensures
        r@ == aggregate_spec(lviews(listings@)),
{
    let ghost lvs = lviews(listings@);
    let mut groups: Vec<StrainGroup> = Vec::new();
    let mut idx: usize = 0;
    while idx < listings.len()
        invariant
            lvs == lviews(listings@),
            idx <= listings@.len(),
            gviews(groups@) == fold_groups(lvs.subrange(0, idx as int)),
        decreases listings@.len() - idx,
    {
        let l = listings[idx].clone();
        let key = normalize_name(l.strain.as_str());
        let ghost gs0 = gviews(groups@);
        proof {
            assert(lvs.subrange(0, idx + 1 as int).drop_last() =~= lvs.subrange(0, idx as int));
            assert(lvs.subrange(0, idx + 1 as int).last() == l@);
            assert(key@ == key_of(l@));
        }
        match find_group_idx(&groups, &key) {
            Some(gi) => {
                let ghost rs0 = gs0[gi as int].records;
                proof {
                    assert forall|j: int| 0 <= j < gi implies gs0[j].strain != key_of(l@) by {
                        assert(gs0[j] == groups@[j]@);
                    }
                    assert(gs0[gi as int].strain == key_of(l@));
                }
                match find_record_idx(&groups[gi].records, &l.source) {
                    Some(ri) => {
                        proof {
                            assert forall|j: int| 0 <= j < ri implies rs0[j].source
                                != l@.source by {
                                assert(rs0[j] == groups@[gi as int].records@[j]@);
                            }
                            assert(rs0[ri as int] == groups@[gi as int].records@[ri as int]@);
                            lemma_upsert_found(rs0, l@, ri as int);
                            lemma_insert_found(gs0, l@, gi as int);
                        }
                        groups[gi].records[ri] = l;
                        proof {
                            assert(gviews(groups@) =~~= insert_listing(gs0, l@));
                        }
                    },
                    None => {
                        proof {
                            assert forall|j: int| 0 <= j < rs0.len() implies rs0[j].source
                                != l@.source by {
                                assert(rs0[j] == groups@[gi as int].records@[j]@);
                            }
                            lemma_upsert_notfound(rs0, l@);
                            lemma_insert_found(gs0, l@, gi as int);
                        }
                        groups[gi].records.push(l);
                        proof {
                            assert(gviews(groups@) =~~= insert_listing(gs0, l@));
                        }
                    },
                }
            },
            None => {
                proof {
                    assert forall|j: int| 0 <= j < gs0.len() implies gs0[j].strain != key_of(
                        l@,
                    ) by {
                        assert(gs0[j] == groups@[j]@);
                    }
                    lemma_insert_notfound(gs0, l@);
                }
                let mut rs: Vec<Listing> = Vec::new();
                rs.push(l);
                groups.push(StrainGroup { strain: key, records: rs, meta: None });
                proof {
                    assert(gviews(groups@) =~~= insert_listing(gs0, l@));
                }
            },
        }
        idx += 1;
    }
    proof {
        assert(lvs.subrange(0, listings@.len() as int) =~= lvs);
        lemma_fold_wf(lvs);
        lemma_total_ge_each(gviews(groups@));
    }
    let ghost gs_raw = gviews(groups@);
    let mut gi: usize = 0;
    while gi < groups.len()
        invariant
            groups@.len() == gs_raw.len(),
            gi <= gs_raw.len(),
            wf_raw(gs_raw),
            forall|j: int| 0 <= j < gs_raw.len() ==> (#[trigger] gs_raw[j]).records.len()
                <= u32::MAX as int,
            forall|j: int| gi <= j < groups@.len() ==> (#[trigger] groups@[j])@ == gs_raw[j],
            forall|j: int| 0 <= j < gi ==> (#[trigger] groups@[j])@ == finalize_group(gs_raw[j]),
        decreases gs_raw.len() - gi,
    {
        let rlen = groups[gi].records.len();
        proof {
            assert(groups@[gi as int]@ == gs_raw[gi as int]);
            assert(lviews(groups@[gi as int].records@) == gs_raw[gi as int].records);
        }
        let (cs, ws) = group_sums(&groups[gi].records);
        if rlen >= 2 && cs > 0 {
            proof {
                let rvs = gs_raw[gi as int].records;
                lemma_sum_bounds(rvs);
                vstd::arithmetic::div_mod::lemma_multiply_divide_le(
                    wsum(rvs),
                    csum(rvs),
                    u32::MAX as int,
                );
                vstd::arithmetic::div_mod::lemma_div_pos_is_pos(wsum(rvs), csum(rvs));
            }
            let rating = (ws / (cs as u128)) as u32;
            let m = MetaRecord {
                source: meta_source_tag(),
                strain: groups[gi].strain.clone(),
                url: String::new(),
                rating_milli: rating,
                ratings: cs,
            };
            groups[gi].meta = Some(m);
            proof {
                assert(groups@[gi as int]@ =~~= finalize_group(gs_raw[gi as int]));
            }
        } else {
            proof {
                assert(groups@[gi as int]@ =~~= finalize_group(gs_raw[gi as int]));
            }
        }
        gi += 1;
    }
    proof {
        assert(gviews(groups@) =~~= gs_raw.map_values(|g: GroupView| finalize_group(g)));
    }
    QueryResult { groups }
}

} // verus!

