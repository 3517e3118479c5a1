use vstd::prelude::*;

use crate::metrics::{MetricSet, MetricSums, METRIC_COUNT};
use crate::table::{series_at, series_has, series_wf, MapIdentity, MapSeries, Sample, SampleTable};
use crate::version::{version_le, version_lt, VersionId};

verus! {

/// The number of maps holding a sample at version `v`.
pub open spec fn count_at(maps: Seq<MapSeries>, v: VersionId) -> int
    decreases maps.len(),
{
    if maps.len() == 0 {
        0
    } else {
        count_at(maps.drop_last(), v) + if series_has(maps.last().samples@, v) {
            1int
        } else {
            0int
        }
    }
}

/// Whether any map holds a sample at version `v`.
pub open spec fn present(maps: Seq<MapSeries>, v: VersionId) -> bool {
    exists|k: int| 0 <= k < maps.len() && series_has((#[trigger] maps[k]).samples@, v)
}

/// A checkpoint: a version at which the number of maps holding a sample
/// strictly exceeds the count at every smaller sampled version.
pub open spec fn is_checkpoint(maps: Seq<MapSeries>, v: VersionId) -> bool {
    present(maps, v) && forall|u: VersionId|
        present(maps, u) && version_lt(u, v) ==> #[trigger] count_at(maps, u) < count_at(maps, v)
}

/// Whether some map of the checkpoint cohort of `cp` holds a sample at `u`.
pub open spec fn cohort_has_v(maps: Seq<MapSeries>, cp: VersionId, u: VersionId) -> bool {
    exists|k: int|
        0 <= k < maps.len() && series_has((#[trigger] maps[k]).samples@, cp) && series_has(
            maps[k].samples@,
            u,
        )
}

/// The number of cohort members of `cp` holding a sample at `v`.
pub open spec fn contrib_count(maps: Seq<MapSeries>, cp: VersionId, v: VersionId) -> int
    decreases maps.len(),
{
    if maps.len() == 0 {
        0
    } else {
        contrib_count(maps.drop_last(), cp, v) + if series_has(maps.last().samples@, cp)
            && series_has(maps.last().samples@, v) {
            1int
        } else {
            0int
        }
    }
}

/// The pointwise sum, over the cohort members of `cp` holding a sample at
/// `v` and in table order, of metric `j` at version `v`.
pub open spec fn contrib_sum(maps: Seq<MapSeries>, cp: VersionId, v: VersionId, j: int) -> int
    decreases maps.len(),
{
    if maps.len() == 0 {
        0
    } else {
        contrib_sum(maps.drop_last(), cp, v, j) + if series_has(maps.last().samples@, cp)
            && series_has(maps.last().samples@, v) {
            series_at(maps.last().samples@, v)[j] as int
        } else {
            0int
        }
    }
}

/// A version list in strictly ascending order (hence duplicate-free).
pub open spec fn sorted_distinct(s: Seq<VersionId>) -> bool {
    forall|a: int, b: int|
        0 <= a < b < s.len() ==> version_lt(#[trigger] s[a], #[trigger] s[b])
}

/// The identities of the maps holding a sample at `cp`, in table order: the
/// cohort of a checkpoint at `cp`.
pub open spec fn cohort_ids(maps: Seq<MapSeries>, cp: VersionId) -> Seq<MapIdentity>
    decreases maps.len(),
{
    if maps.len() == 0 {
        Seq::empty()
    } else {
        let p = cohort_ids(maps.drop_last(), cp);
        if series_has(maps.last().samples@, cp) {
            p.push(maps.last().id)
        } else {
            p
        }
    }
}

/// The map count at a version is non-negative and at most the number of maps.
pub proof fn lemma_count_at_bounds(maps: Seq<MapSeries>, v: VersionId)
    ensures
        0 <= count_at(maps, v) <= maps.len(),
    decreases maps.len(),
{
    if maps.len() > 0 {
        lemma_count_at_bounds(maps.drop_last(), v);
    }
}

/// A version has a positive map count exactly when some map samples it.
pub proof fn lemma_count_at_present(maps: Seq<MapSeries>, v: VersionId)
    ensures
        count_at(maps, v) > 0 <==> present(maps, v),
    decreases maps.len(),
{
    if maps.len() > 0 {
        let pre = maps.drop_last();
        lemma_count_at_present(pre, v);
        lemma_count_at_bounds(pre, v);
        if present(pre, v) {
            let k = choose|k: int|
                0 <= k < pre.len() && series_has((#[trigger] pre[k]).samples@, v);
            assert(maps[k] == pre[k]);
            assert(present(maps, v));
        }
        if present(maps, v) && !series_has(maps.last().samples@, v) {
            let k = choose|k: int|
                0 <= k < maps.len() && series_has((#[trigger] maps[k]).samples@, v);
            assert(k < maps.len() - 1);
            assert(pre[k] == maps[k]);
            assert(present(pre, v));
        }
    }
}

/// A cohort member holding a sample at `v` makes the contributor count
/// positive.
pub proof fn lemma_contrib_count_pos(maps: Seq<MapSeries>, cp: VersionId, v: VersionId)
    requires
        cohort_has_v(maps, cp, v),
    ensures
        contrib_count(maps, cp, v) >= 1,
    decreases maps.len(),
{
    let k = choose|k: int|
        0 <= k < maps.len() && series_has((#[trigger] maps[k]).samples@, cp) && series_has(
            maps[k].samples@,
            v,
        );
    let pre = maps.drop_last();
    if k == maps.len() - 1 {
        lemma_contrib_count_bounds(pre, cp, v);
    } else {
        assert(pre[k] == maps[k]);
        assert(cohort_has_v(pre, cp, v));
        lemma_contrib_count_pos(pre, cp, v);
    }
}

/// The contributor count is non-negative and at most the number of maps.
pub proof fn lemma_contrib_count_bounds(maps: Seq<MapSeries>, cp: VersionId, v: VersionId)
    ensures
        0 <= contrib_count(maps, cp, v) <= maps.len(),
    decreases maps.len(),
{
    if maps.len() > 0 {
        lemma_contrib_count_bounds(maps.drop_last(), cp, v);
    }
}

/// A cohort is as large as the map count at its version: the two notions of
/// "how many maps sample `v`" agree.
pub proof fn lemma_cohort_size_is_count(maps: Seq<MapSeries>, v: VersionId)
    ensures
        cohort_ids(maps, v).len() == count_at(maps, v),
    decreases maps.len(),
{
    if maps.len() > 0 {
        lemma_cohort_size_is_count(maps.drop_last(), v);
    }
}

/// An empty table has no checkpoints: no version is present in it.
pub proof fn lemma_empty_table_no_checkpoint(maps: Seq<MapSeries>, v: VersionId)
    requires
        maps.len() == 0,
    ensures
        !is_checkpoint(maps, v),
{
    assert(!present(maps, v));
}

/// A checkpoint's cohort is never empty: the checkpoint version is present,
/// so at least one map holds a sample at it.
pub proof fn lemma_checkpoint_cohort_nonempty(maps: Seq<MapSeries>, cp: VersionId)
    requires
        is_checkpoint(maps, cp),
    ensures
        cohort_ids(maps, cp).len() >= 1,
{
    lemma_present_cohort_nonempty(maps, cp);
}

proof fn lemma_present_cohort_nonempty(maps: Seq<MapSeries>, cp: VersionId)
    requires
        present(maps, cp),
    ensures
        cohort_ids(maps, cp).len() >= 1,
    decreases maps.len(),
{
    let k = choose|k: int| 0 <= k < maps.len() && series_has((#[trigger] maps[k]).samples@, cp);
    let pre = maps.drop_last();
    if k < maps.len() - 1 {
        assert(pre[k] == maps[k]);
        assert(present(pre, cp));
        lemma_present_cohort_nonempty(pre, cp);
    } else {
        assert(cohort_ids(maps, cp) == cohort_ids(pre, cp).push(maps.last().id));
    }
}

/// Whether a series holds version `v`, by linear scan.
fn series_contains(samples: &Vec<Sample>, v: &VersionId) -> (r: bool)
    ensures
        r == series_has(samples@, *v),
{
    let mut j: usize = 0;
    while j < samples.len()
        invariant
            j <= samples@.len(),
            forall|j2: int| 0 <= j2 < j ==> (#[trigger] samples@[j2].version) != *v,
        decreases samples@.len() - j,
    {
        if samples[j].version == *v {
            return true;
        }
        j += 1;
    }
    false
}

/// The metrics a well-formed series holds at `v`, if any.
fn series_lookup<'a>(samples: &'a Vec<Sample>, v: &VersionId) -> (r: Option<&'a MetricSet>)
    requires
        series_wf(samples@),
    ensures
        match r {
            Some(m) => series_has(samples@, *v) && m.wf() && m@ == series_at(samples@, *v),
            None => !series_has(samples@, *v),
        },
{
    let mut j: usize = 0;
    while j < samples.len()
        invariant
            series_wf(samples@),
            j <= samples@.len(),
            forall|j2: int| 0 <= j2 < j ==> (#[trigger] samples@[j2].version) != *v,
        decreases samples@.len() - j,
    {
        if samples[j].version == *v {
            proof {
                // Versions strictly ascend, so the hit is the unique witness.
                let c = choose|i2: int|
                    0 <= i2 < samples@.len() && (#[trigger] samples@[i2].version) == *v;
                if c < j {
                    assert(version_lt(samples@[c].version, samples@[j as int].version));
                } else if c > j {
                    assert(version_lt(samples@[j as int].version, samples@[c].version));
                }
                assert(series_at(samples@, *v) == samples@[j as int].metrics@);
            }
            return Some(&samples[j].metrics);
        }
        j += 1;
    }
    None
}

/// The number of maps holding a sample at `v`.
fn count_maps_at(maps: &Vec<MapSeries>, v: &VersionId) -> (c: usize)
    ensures
        c as int == count_at(maps@, *v),
{
    let mut c: usize = 0;
    let mut k: usize = 0;
    while k < maps.len()
        invariant
            k <= maps@.len(),
            c <= k,
            c as int == count_at(maps@.take(k as int), *v),
        decreases maps@.len() - k,
    {
        proof {
            assert(maps@.take(k + 1).drop_last() =~= maps@.take(k as int));
            assert(maps@.take(k + 1).last() == maps@[k as int]);
        }
        if series_contains(&maps[k].samples, v) {
            c += 1;
        }
        k += 1;
    }
    proof {
        assert(maps@.take(maps@.len() as int) =~= maps@);
    }
    c
}

/// The position at which `v` sorts into an ascending version list.
fn find_version_pos(out: &Vec<VersionId>, v: &VersionId) -> (p: usize)
    requires
        sorted_distinct(out@),
    ensures
        p <= out@.len(),
        forall|i: int| 0 <= i < p ==> version_lt((#[trigger] out@[i]), *v),
        p < out@.len() ==> !version_lt(out@[p as int], *v),
{
    let mut p: usize = 0;
    while p < out.len()
        invariant
            p <= out@.len(),
            forall|i: int| 0 <= i < p ==> version_lt((#[trigger] out@[i]), *v),
        decreases out@.len() - p,
    {
        if !out[p].lt(v) {
            return p;
        }
        p += 1;
    }
    p
}

/// Inserts `v` into an ascending version list, keeping it ascending and
/// duplicate-free.
fn insert_version(out: &mut Vec<VersionId>, v: &VersionId)
    requires
        sorted_distinct(old(out)@),
    ensures
        sorted_distinct(final(out)@),
        forall|u: VersionId| final(out)@.contains(u) <==> (old(out)@.contains(u) || u == *v),
        final(out)@.contains(*v),
        forall|u: VersionId| #[trigger] old(out)@.contains(u) ==> final(out)@.contains(u),
{
    let ghost olds = out@;
    let p = find_version_pos(out, v);
    if p < out.len() && out[p] == *v {
        proof {
            assert(olds.contains(*v)) by {
                assert(olds[p as int] == *v);
            }
        }
        return;
    }
    out.insert(p, *v);
    proof {
        olds.insert_ensures(p as int, *v);
        let news = out@;
        if p < olds.len() {
            assert(!version_lt(olds[p as int], *v) && olds[p as int] != *v);
            assert(version_lt(*v, olds[p as int]));
        }
        assert forall|a: int, b: int| 0 <= a < b < news.len() implies version_lt(
            news[a],
            news[b],
        ) by {
            if a < p {
                assert(news[a] == olds[a]);
            } else if a == p {
                assert(news[a] == *v);
            } else {
                assert(news[a] == olds[a - 1]);
            }
            if b < p {
                assert(news[b] == olds[b]);
            } else if b == p {
                assert(news[b] == *v);
            } else {
                assert(news[b] == olds[b - 1]);
            }
        }
        assert forall|u: VersionId| news.contains(u) <==> (olds.contains(u) || u == *v) by {
            if news.contains(u) {
                let x = choose|x: int| 0 <= x < news.len() && news[x] == u;
                if x < p {
                    assert(olds[x] == u);
                } else if x > p {
                    assert(olds[x - 1] == u);
                }
            }
            if olds.contains(u) {
                let x = choose|x: int| 0 <= x < olds.len() && olds[x] == u;
                if x < p {
                    assert(news[x] == u);
                } else {
                    assert(news[x + 1] == u);
                }
                assert(news.contains(u));
            }
            if u == *v {
                assert(news[p as int] == u);
                assert(news.contains(u));
            }
        }
    }
}

/// Every version sampled by any map, in ascending order, each once.
fn all_versions(maps: &Vec<MapSeries>) -> (r: Vec<VersionId>)
    ensures
        sorted_distinct(r@),
        forall|u: VersionId| r@.contains(u) <==> present(maps@, u),
{
    let mut out: Vec<VersionId> = Vec::new();
    let mut k: usize = 0;
    while k < maps.len()
        invariant
            k <= maps@.len(),
            sorted_distinct(out@),
            forall|u: VersionId| out@.contains(u) <==> present(maps@.take(k as int), u),
        decreases maps@.len() - k,
    {
        let samples = &maps[k].samples;
        let mut j: usize = 0;
        while j < samples.len()
            invariant
                k < maps@.len(),
                samples == &maps@[k as int].samples,
                j <= samples@.len(),
                sorted_distinct(out@),
                forall|u: VersionId|
                    out@.contains(u) <==> (present(maps@.take(k as int), u) || exists|j2: int|
                        0 <= j2 < j && (#[trigger] samples@[j2].version) == u),
            decreases samples@.len() - j,
        {
            insert_version(&mut out, &samples[j].version);
            j += 1;
        }
        proof {
            assert forall|u: VersionId|
                out@.contains(u) <==> present(maps@.take(k + 1), u) by {
                assert(maps@.take(k + 1)[k as int] == maps@[k as int]);
                if present(maps@.take(k + 1), u) {
                    let k2 = choose|k2: int|
                        0 <= k2 < maps@.take(k + 1).len() && series_has(
                            (#[trigger] maps@.take(k + 1)[k2]).samples@,
                            u,
                        );
                    if k2 < k {
                        assert(maps@.take(k as int)[k2] == maps@[k2]);
                        assert(present(maps@.take(k as int), u));
                    } else {
                        assert(series_has(samples@, u));
                    }
                }
                if present(maps@.take(k as int), u) {
                    let k2 = choose|k2: int|
                        0 <= k2 < maps@.take(k as int).len() && series_has(
                            (#[trigger] maps@.take(k as int)[k2]).samples@,
                            u,
                        );
                    assert(maps@.take(k + 1)[k2] == maps@[k2]);
                    assert(present(maps@.take(k + 1), u));
                }
                if series_has(samples@, u) {
                    assert(present(maps@.take(k + 1), u));
                }
            }
        }
        k += 1;
    }
    proof {
        assert(maps@.take(maps@.len() as int) =~= maps@);
    }
    out
}

/// The ordered checkpoint versions of a table: the versions at which the
/// number of sampled maps strictly exceeds the count at every smaller sampled
/// version. The recorded list strictly ascends in both version and count; an
/// empty table yields an empty list.
pub fn checkpoints(table: &SampleTable) -> (r: Vec<VersionId>)
    ensures
        forall|a: int, b: int|
            0 <= a < b < r@.len() ==> version_lt(#[trigger] r@[a], #[trigger] r@[b]) && count_at(
                table.maps@,
                r@[a],
            ) < count_at(table.maps@, r@[b]),
        forall|x: int| 0 <= x < r@.len() ==> is_checkpoint(table.maps@, #[trigger] r@[x]),
        forall|v: VersionId| is_checkpoint(table.maps@, v) ==> r@.contains(v),
        table.maps@.len() == 0 ==> r@.len() == 0,
{
    let ghost maps = table.maps@;
    let versions = all_versions(&table.maps);
    let mut out: Vec<VersionId> = Vec::new();
    let mut prev_max: usize = 0;
    let mut x: usize = 0;
    while x < versions.len()
        invariant
            maps == table.maps@,
            sorted_distinct(versions@),
            forall|u: VersionId| versions@.contains(u) <==> present(maps, u),
            x <= versions@.len(),
            forall|y: int| 0 <= y < x ==> count_at(maps, #[trigger] versions@[y]) <= prev_max,
            prev_max as int == if out@.len() == 0 {
                0int
            } else {
                count_at(maps, out@.last())
            },
            forall|a: int|
                0 <= a < out@.len() ==> exists|y: int|
                    0 <= y < x && versions@[y] == #[trigger] out@[a],
            forall|a: int, b: int|
                0 <= a < b < out@.len() ==> version_lt(#[trigger] out@[a], #[trigger] out@[b])
                    && count_at(maps, out@[a]) < count_at(maps, out@[b]),
            forall|a: int| 0 <= a < out@.len() ==> is_checkpoint(maps, #[trigger] out@[a]),
            forall|v: VersionId|
                (is_checkpoint(maps, v) && exists|y: int| 0 <= y < x && versions@[y] == v)
                    ==> out@.contains(v),
        decreases versions@.len() - x,
    {
        let v = versions[x];
        let ghost pre_out = out@;
        let c = count_maps_at(&table.maps, &v);
        proof {
            lemma_count_at_present(maps, v);
            assert(versions@.contains(v)) by {
                assert(versions@[x as int] == v);
            }
        }
        if c > prev_max {
            proof {
                // Every smaller present version sits earlier in the sorted
                // list, so its count is bounded by the running maximum.
                assert forall|u: VersionId|
                    present(maps, u) && version_lt(u, v) implies #[trigger] count_at(maps, u)
                    < count_at(maps, v) by {
                    assert(versions@.contains(u));
                    let y = choose|y: int| 0 <= y < versions@.len() && versions@[y] == u;
                    if y > x {
                        assert(version_lt(versions@[x as int], versions@[y]));
                    }
                    assert(y < x);
                }
                assert(is_checkpoint(maps, v));
                assert forall|a: int| 0 <= a < out@.len() implies version_lt(
                    #[trigger] out@[a],
                    v,
                ) && count_at(maps, out@[a]) < count_at(maps, v) by {
                    let y = choose|y: int| 0 <= y < x && versions@[y] == out@[a];
                    assert(version_lt(versions@[y], versions@[x as int]));
                }
            }
            out.push(v);
            prev_max = c;
            proof {
                assert(out@.last() == v);
            }
        } else {
            proof {
                // Not a checkpoint: some earlier version already reached the
                // running maximum, or nothing is present at all.
                if prev_max == 0 {
                    assert(count_at(maps, v) <= 0);
                    assert(!present(maps, v));
                    assert(!is_checkpoint(maps, v));
                } else {
                    let w = out@.last();
                    assert(count_at(maps, w) == prev_max as int);
                    lemma_count_at_present(maps, w);
                    let y = choose|y: int| 0 <= y < x && versions@[y] == w;
                    assert(version_lt(versions@[y], versions@[x as int]));
                    assert(!is_checkpoint(maps, v));
                }
            }
        }
        proof {
            assert forall|v2: VersionId|
                (is_checkpoint(maps, v2) && exists|y: int| 0 <= y < x + 1 && versions@[y] == v2)
                    implies out@.contains(v2) by {
                let y = choose|y: int| 0 <= y < x + 1 && versions@[y] == v2;
                if y < x {
                    assert(pre_out.contains(v2));
                    let a = choose|a: int| 0 <= a < pre_out.len() && pre_out[a] == v2;
                    assert(out@[a] == v2);
                    assert(out@.contains(v2));
                } else {
                    assert(v2 == v);
                    assert(out@.last() == v);
                    assert(out@.contains(v2));
                }
            }
        }
        x += 1;
    }
    proof {
        assert forall|v: VersionId| is_checkpoint(maps, v) implies out@.contains(v) by {
            assert(present(maps, v));
            assert(versions@.contains(v));
            let y = choose|y: int| 0 <= y < versions@.len() && versions@[y] == v;
        }
        if maps.len() == 0 && out@.len() > 0 {
            assert(is_checkpoint(maps, out@[0]));
            lemma_empty_table_no_checkpoint(maps, out@[0]);
        }
    }
    out
}

/// The cohort of checkpoint `cp`: the maps holding a sample at exactly that
/// version, in table order.
pub fn cohort(table: &SampleTable, cp: &VersionId) -> (r: Vec<MapIdentity>)
    ensures
        r@ == cohort_ids(table.maps@, *cp),
{
    let mut out: Vec<MapIdentity> = Vec::new();
    let mut k: usize = 0;
    while k < table.maps.len()
        invariant
            k <= table.maps@.len(),
            out@ == cohort_ids(table.maps@.take(k as int), *cp),
        decreases table.maps@.len() - k,
    {
        proof {
            assert(table.maps@.take(k + 1).drop_last() =~= table.maps@.take(k as int));
            assert(table.maps@.take(k + 1).last() == table.maps@[k as int]);
        }
        if series_contains(&table.maps[k].samples, cp) {
            out.push(table.maps[k].id.duplicate());
        }
        k += 1;
    }
    proof {
        assert(table.maps@.take(table.maps@.len() as int) =~= table.maps@);
    }
    out
}

/// One aggregated point: at `version`, the pointwise metric sums over the
/// `count` cohort members holding a sample there. The mean is taken by
/// `mean`, never stored, so no summand is lost to rounding while folding.
pub struct AggEntry {
    pub version: VersionId,
    pub count: usize,
    pub sums: MetricSums,
}

impl AggEntry {
    /// Well-formedness: at least one contributor, and sums small enough that
    /// every mean fits the metric type.
    pub open spec fn wf(&self) -> bool {
        self.count >= 1 && self.sums.wf() && forall|j: int|
            0 <= j < METRIC_COUNT ==> (#[trigger] self.sums@[j]) <= self.count * u64::MAX
    }

    /// The mean record of this point: each metric the pointwise sum divided
    /// by the contributor count.
    pub fn mean(&self) -> (r: MetricSet)
        requires
            self.wf(),
        ensures
            r.wf(),
            forall|j: int|
                0 <= j < METRIC_COUNT ==> r@[j] == self.sums@[j] as int / self.count as int,
    {
        self.sums.mean(self.count)
    }
}

/// A version-aligned aggregated series: one entry per version, ascending.
pub struct AggregatedSeries {
    pub entries: Vec<AggEntry>,
}

/// What one aggregated entry must say of the table: its count is the number
/// of cohort members of `cp` sampling its version, and its sums are their
/// pointwise metric totals, in table order.
pub open spec fn entry_correct(maps: Seq<MapSeries>, cp: VersionId, e: AggEntry) -> bool {
    &&& version_le(cp, e.version)
    &&& e.count as int == contrib_count(maps, cp, e.version)
    &&& forall|j: int|
        0 <= j < METRIC_COUNT ==> (#[trigger] e.sums@[j]) as int == contrib_sum(
            maps,
            cp,
            e.version,
            j,
        )
    &&& e.wf()
}

/// What an aggregated series must say of the table: every entry correct,
/// versions strictly ascending, and one entry for exactly every version at or
/// after `cp` that some cohort member of `cp` samples.
pub open spec fn series_correct(maps: Seq<MapSeries>, cp: VersionId, ser: AggregatedSeries) -> bool {
    &&& forall|x: int|
        0 <= x < ser.entries@.len() ==> entry_correct(maps, cp, #[trigger] ser.entries@[x])
    &&& forall|a: int, b: int|
        0 <= a < b < ser.entries@.len() ==> version_lt(
            ser.entries@[a].version,
            ser.entries@[b].version,
        )
    &&& forall|u: VersionId|
        (version_le(cp, u) && cohort_has_v(maps, cp, u)) ==> exists|x: int|
            0 <= x < ser.entries@.len() && (#[trigger] ser.entries@[x].version) == u
    &&& forall|x: int|
        0 <= x < ser.entries@.len() ==> cohort_has_v(maps, cp, (#[trigger] ser.entries@[x]).version)
}

/// Every version at or after `cp` sampled by a cohort member of `cp`, in
/// ascending order, each once.
fn cohort_versions(maps: &Vec<MapSeries>, cp: &VersionId) -> (r: Vec<VersionId>)
    ensures
        sorted_distinct(r@),
        forall|u: VersionId|
            #[trigger] r@.contains(u) ==> version_le(*cp, u) && cohort_has_v(maps@, *cp, u),
        forall|u: VersionId|
            version_le(*cp, u) && #[trigger] cohort_has_v(maps@, *cp, u) ==> r@.contains(u),
{
    let mut out: Vec<VersionId> = Vec::new();
    let mut k: usize = 0;
    while k < maps.len()
        invariant
            k <= maps@.len(),
            sorted_distinct(out@),
            forall|u: VersionId|
                #[trigger] out@.contains(u) ==> version_le(*cp, u) && cohort_has_v(
                    maps@.take(k as int),
                    *cp,
                    u,
                ),
            forall|u: VersionId|
                version_le(*cp, u) && #[trigger] cohort_has_v(maps@.take(k as int), *cp, u)
                    ==> out@.contains(u),
        decreases maps@.len() - k,
    {
        let has_cp = series_contains(&maps[k].samples, cp);
        if has_cp {
            let samples = &maps[k].samples;
            let mut j: usize = 0;
            while j < samples.len()
                invariant
                    k < maps@.len(),
                    samples == &maps@[k as int].samples,
                    series_has(maps@[k as int].samples@, *cp),
                    j <= samples@.len(),
                    sorted_distinct(out@),
                    forall|u: VersionId|
                        #[trigger] out@.contains(u) ==> version_le(*cp, u) && (cohort_has_v(
                            maps@.take(k as int),
                            *cp,
                            u,
                        ) || series_has(maps@[k as int].samples@, u)),
                    forall|u: VersionId|
                        version_le(*cp, u) && #[trigger] cohort_has_v(
                            maps@.take(k as int),
                            *cp,
                            u,
                        ) ==> out@.contains(u),
                    forall|j2: int|
                        0 <= j2 < j && version_le(*cp, (#[trigger] samples@[j2]).version)
                            ==> out@.contains(samples@[j2].version),
                decreases samples@.len() - j,
            {
                let v = samples[j].version;
                let ghost pre = out@;
                if cp.le(&v) {
                    insert_version(&mut out, &v);
                    proof {
                        assert(samples@[j as int].version == v);
                        assert(series_has(maps@[k as int].samples@, v));
                        assert forall|u: VersionId| #[trigger] out@.contains(u) implies version_le(
                            *cp,
                            u,
                        ) && (cohort_has_v(maps@.take(k as int), *cp, u) || series_has(
                            maps@[k as int].samples@,
                            u,
                        )) by {
                            if pre.contains(u) {
                            } else {
                                assert(u == v);
                            }
                        }
                        assert forall|j2: int|
                            0 <= j2 < j + 1 && version_le(
                                *cp,
                                (#[trigger] samples@[j2]).version,
                            ) implies out@.contains(samples@[j2].version) by {
                            if j2 < j {
                                assert(pre.contains(samples@[j2].version));
                            } else {
                                assert(samples@[j2].version == v);
                                assert(out@.contains(v));
                            }
                        }
                    }
                }
                j += 1;
            }
        }
        proof {
            assert(maps@.take(k + 1).len() == k + 1);
            assert forall|x: int| 0 <= x < k + 1 implies maps@.take(k + 1)[x] == maps@[x] by {}
            assert forall|x: int| 0 <= x < k implies maps@.take(k as int)[x] == maps@[x] by {}
            assert forall|u: VersionId| #[trigger] out@.contains(u) implies version_le(*cp, u)
                && cohort_has_v(maps@.take(k + 1), *cp, u) by {
                if has_cp {
                    if cohort_has_v(maps@.take(k as int), *cp, u) {
                        let k2 = choose|k2: int|
                            0 <= k2 < maps@.take(k as int).len() && series_has(
                                (#[trigger] maps@.take(k as int)[k2]).samples@,
                                *cp,
                            ) && series_has(maps@.take(k as int)[k2].samples@, u);
                        assert(series_has((maps@.take(k + 1)[k2]).samples@, *cp));
                        assert(cohort_has_v(maps@.take(k + 1), *cp, u));
                    } else {
                        assert(series_has(maps@[k as int].samples@, u));
                        assert(series_has((maps@.take(k + 1)[k as int]).samples@, *cp));
                        assert(cohort_has_v(maps@.take(k + 1), *cp, u));
                    }
                } else {
                    let k2 = choose|k2: int|
                        0 <= k2 < maps@.take(k as int).len() && series_has(
                            (#[trigger] maps@.take(k as int)[k2]).samples@,
                            *cp,
                        ) && series_has(maps@.take(k as int)[k2].samples@, u);
                    assert(series_has((maps@.take(k + 1)[k2]).samples@, *cp));
                    assert(cohort_has_v(maps@.take(k + 1), *cp, u));
                }
            }
            assert forall|u: VersionId|
                version_le(*cp, u) && #[trigger] cohort_has_v(maps@.take(k + 1), *cp, u)
                    implies out@.contains(u) by {
                let k2 = choose|k2: int|
                    0 <= k2 < maps@.take(k + 1).len() && series_has(
                        (#[trigger] maps@.take(k + 1)[k2]).samples@,
                        *cp,
                    ) && series_has(maps@.take(k + 1)[k2].samples@, u);
                if k2 < k {
                    assert(series_has((maps@.take(k as int)[k2]).samples@, *cp));
                    assert(cohort_has_v(maps@.take(k as int), *cp, u));
                } else {
                    assert(series_has(maps@[k as int].samples@, *cp));
                    assert(series_has(maps@[k as int].samples@, u));
                    assert(has_cp);
                    let j2 = choose|j2: int|
                        0 <= j2 < maps@[k as int].samples@.len() && (#[trigger] maps@[
                            k as int
                        ].samples@[j2].version) == u;
                    assert(version_le(*cp, maps@[k as int].samples@[j2].version));
                    assert(out@.contains(maps@[k as int].samples@[j2].version));
                }
            }
        }
        k += 1;
    }
    proof {
        assert(maps@.take(maps@.len() as int) =~= maps@);
    }
    out
}

/// The chain aggregation for one checkpoint: for every version at or after
/// `cp` sampled by any cohort member, the pointwise metric sums over exactly
/// the cohort members sampling that version (the cohort may shrink for later
/// versions, never gain), with the per-version contributor count. Summation
/// follows table order, the fixed canonical traversal.
pub fn aggregate_at(table: &SampleTable, cp: &VersionId) -> (r: AggregatedSeries)
    requires
        table.wf(),
    ensures
        series_correct(table.maps@, *cp, r),
{
    let ghost maps = table.maps@;
    let versions = cohort_versions(&table.maps, cp);
    let mut entries: Vec<AggEntry> = Vec::new();
    let mut x: usize = 0;
    while x < versions.len()
        invariant
            maps == table.maps@,
            table.wf(),
            sorted_distinct(versions@),
            forall|u: VersionId|
                #[trigger] versions@.contains(u) ==> version_le(*cp, u) && cohort_has_v(
                    maps,
                    *cp,
                    u,
                ),
            forall|u: VersionId|
                version_le(*cp, u) && #[trigger] cohort_has_v(maps, *cp, u)
                    ==> versions@.contains(u),
            x <= versions@.len(),
            entries@.len() == x,
            forall|y: int| 0 <= y < x ==> (#[trigger] entries@[y].version) == versions@[y],
            forall|y: int| 0 <= y < x ==> entry_correct(maps, *cp, #[trigger] entries@[y]),
        decreases versions@.len() - x,
    {
        let v = versions[x];
        proof {
            assert(versions@.contains(v)) by {
                assert(versions@[x as int] == v);
            }
        }
        let mut sums = MetricSums::zero();
        let mut cnt: usize = 0;
        let mut k: usize = 0;
        while k < table.maps.len()
            invariant
                maps == table.maps@,
                table.wf(),
                k <= maps.len(),
                cnt <= k,
                cnt as int == contrib_count(maps.take(k as int), *cp, v),
                sums.wf(),
                forall|j: int|
                    0 <= j < METRIC_COUNT ==> (#[trigger] sums@[j]) as int == contrib_sum(
                        maps.take(k as int),
                        *cp,
                        v,
                        j,
                    ),
                forall|j: int|
                    0 <= j < METRIC_COUNT ==> (#[trigger] sums@[j]) <= cnt * u64::MAX,
            decreases maps.len() - k,
        {
            proof {
                assert(maps.take(k + 1).drop_last() =~= maps.take(k as int));
                assert(maps.take(k + 1).last() == maps[k as int]);
                assert(maps[k as int].wf());
            }
            if series_contains(&table.maps[k].samples, cp) {
                match series_lookup(&table.maps[k].samples, &v) {
                    Some(m) => {
                        proof {
                            assert forall|j: int|
                                0 <= j < METRIC_COUNT implies sums@[j] + m@[j] <= u128::MAX by {
                                assert(m@[j] <= u64::MAX);
                                assert(sums@[j] + m@[j] <= cnt * u64::MAX + u64::MAX);
                                assert(cnt * u64::MAX + u64::MAX == (cnt + 1) * u64::MAX) by {
                                    vstd::arithmetic::mul::lemma_mul_is_distributive_add_other_way(
                                        u64::MAX as int,
                                        cnt as int,
                                        1,
                                    );
                                }
                                vstd::arithmetic::mul::lemma_mul_inequality(
                                    cnt + 1,
                                    usize::MAX as int,
                                    u64::MAX as int,
                                );
                            }
                        }
                        sums.accumulate(m);
                        cnt = cnt + 1;
                        proof {
                            assert(cnt * u64::MAX == (cnt - 1) * u64::MAX + u64::MAX) by {
                                vstd::arithmetic::mul::lemma_mul_is_distributive_sub_other_way(
                                    u64::MAX as int,
                                    cnt as int,
                                    1,
                                );
                            }
                        }
                    },
                    None => {},
                }
            }
            k += 1;
        }
        proof {
            assert(maps.take(maps.len() as int) =~= maps);
            assert(versions@[x as int] == v);
            assert(versions@.contains(v));
            assert(cohort_has_v(maps, *cp, v) && version_le(*cp, v));
            lemma_contrib_count_pos(maps, *cp, v);
        }
        let entry = AggEntry { version: v, count: cnt, sums };
        entries.push(entry);
        x += 1;
    }
    let r = AggregatedSeries { entries };
    proof {
        assert forall|u: VersionId|
            (version_le(*cp, u) && cohort_has_v(maps, *cp, u)) implies exists|x2: int|
            0 <= x2 < r.entries@.len() && (#[trigger] r.entries@[x2].version) == u by {
            assert(versions@.contains(u));
            let y = choose|y: int| 0 <= y < versions@.len() && versions@[y] == u;
            assert(r.entries@[y].version == u);
        }
        assert forall|x2: int|
            0 <= x2 < r.entries@.len() implies cohort_has_v(
            maps,
            *cp,
            (#[trigger] r.entries@[x2]).version,
        ) by {
            assert(versions@.contains(versions@[x2]));
        }
    }
    r
}

/// One checkpoint's full aggregation record: the checkpoint version, its
/// cohort in table order, and the aggregated series, carried together so that
/// no later pairing step can misalign them.
pub struct CheckpointSeries {
    pub checkpoint: VersionId,
    pub cohort: Vec<MapIdentity>,
    pub series: AggregatedSeries,
}

/// The whole chain aggregation: one record per checkpoint, in ascending
/// checkpoint order (ascending in map count too), each carrying its cohort
/// and its aggregated series. An empty table yields no records and raises no
/// fault.
pub fn aggregate_maps(table: &SampleTable) -> (r: Vec<CheckpointSeries>)
    requires
        table.wf(),
    ensures
        forall|a: int, b: int|
            0 <= a < b < r@.len() ==> version_lt(
                (#[trigger] r@[a]).checkpoint,
                (#[trigger] r@[b]).checkpoint,
            ) && count_at(table.maps@, r@[a].checkpoint) < count_at(table.maps@, r@[b].checkpoint),
        forall|x: int|
            0 <= x < r@.len() ==> {
                let rec = #[trigger] r@[x];
                is_checkpoint(table.maps@, rec.checkpoint) && rec.cohort@ == cohort_ids(
                    table.maps@,
                    rec.checkpoint,
                ) && series_correct(table.maps@, rec.checkpoint, rec.series)
            },
        forall|v: VersionId|
            is_checkpoint(table.maps@, v) ==> exists|x: int|
                0 <= x < r@.len() && (#[trigger] r@[x]).checkpoint == v,
        table.maps@.len() == 0 ==> r@.len() == 0,
{
    let ghost maps = table.maps@;
    let cps = checkpoints(table);
    let mut out: Vec<CheckpointSeries> = Vec::new();
    let mut x: usize = 0;
    while x < cps.len()
        invariant
            maps == table.maps@,
            table.wf(),
            x <= cps@.len(),
            out@.len() == x,
            forall|a: int, b: int|
                0 <= a < b < cps@.len() ==> version_lt(#[trigger] cps@[a], #[trigger] cps@[b])
                    && count_at(maps, cps@[a]) < count_at(maps, cps@[b]),
            forall|y: int| 0 <= y < cps@.len() ==> is_checkpoint(maps, #[trigger] cps@[y]),
            forall|v: VersionId| is_checkpoint(maps, v) ==> cps@.contains(v),
            forall|y: int| 0 <= y < x ==> (#[trigger] out@[y]).checkpoint == cps@[y],
            forall|y: int|
                0 <= y < x ==> {
                    let rec = #[trigger] out@[y];
                    rec.cohort@ == cohort_ids(maps, rec.checkpoint) && series_correct(
                        maps,
                        rec.checkpoint,
                        rec.series,
                    )
                },
        decreases cps@.len() - x,
    {
        let cp = cps[x];
        let coh = cohort(table, &cp);
        let ser = aggregate_at(table, &cp);
        out.push(CheckpointSeries { checkpoint: cp, cohort: coh, series: ser });
        x += 1;
    }
    proof {
        assert forall|v: VersionId| is_checkpoint(maps, v) implies exists|x2: int|
            0 <= x2 < out@.len() && (#[trigger] out@[x2]).checkpoint == v by {
            assert(cps@.contains(v));
            let y = choose|y: int| 0 <= y < cps@.len() && cps@[y] == v;
            assert(out@[y].checkpoint == v);
        }
        if maps.len() == 0 && out@.len() > 0 {
            assert(is_checkpoint(maps, out@[0].checkpoint));
            lemma_empty_table_no_checkpoint(maps, out@[0].checkpoint);
        }
    }
    out
}

/// The degenerate one-map aggregation: the map's own series handed through
/// unchanged, with contributor count 1 at every version and the raw record as
/// the sums, so the mean is the raw record itself.
pub fn standalone_series(series: &MapSeries) -> (r: AggregatedSeries)
    requires
        series.wf(),
    ensures
        r.entries@.len() == series.samples@.len(),
        forall|x: int|
            0 <= x < r.entries@.len() ==> {
                let e = #[trigger] r.entries@[x];
                e.version == series.samples@[x].version && e.count == 1 && e.wf() && forall|j: int|
                    0 <= j < METRIC_COUNT ==> (#[trigger] e.sums@[j]) as int
                        == series.samples@[x].metrics@[j]
            },
{
    let mut entries: Vec<AggEntry> = Vec::new();
    let mut x: usize = 0;
    while x < series.samples.len()
        invariant
            series.wf(),
            x <= series.samples@.len(),
            entries@.len() == x,
            forall|y: int|
                0 <= y < x ==> {
                    let e = #[trigger] entries@[y];
                    e.version == series.samples@[y].version && e.count == 1 && e.wf() && forall|
                        j: int,
                    |
                        0 <= j < METRIC_COUNT ==> (#[trigger] e.sums@[j]) as int
                            == series.samples@[y].metrics@[j]
                },
        decreases series.samples@.len() - x,
    {
        let mut sums = MetricSums::zero();
        sums.accumulate(&series.samples[x].metrics);
        entries.push(AggEntry { version: series.samples[x].version, count: 1, sums });
        x += 1;
    }
    AggregatedSeries { entries }
}

} // verus!
