use vstd::prelude::*;

use crate::errors::AggError;
use crate::metrics::MetricSet;
use crate::version::{version_in_window, version_lt, VersionId};

verus! {

/// Identifies one benchmark map: a display name and a content hash. The pair
/// is the stable key; identical names with different hashes are distinct maps.
pub struct MapIdentity {
    pub name: String,
    pub hash: String,
}

impl View for MapIdentity {
    type V = (Seq<char>, Seq<char>);

    open spec fn view(&self) -> (Seq<char>, Seq<char>) {
        (self.name@, self.hash@)
    }
}

impl MapIdentity {
    /// Builds an identity from its display name and content hash.
    pub fn new(name: String, hash: String) -> (r: MapIdentity)
        ensures
            r@ == (name@, hash@),
    {
        MapIdentity { name, hash }
    }

    /// Whether two identities name the same map: equal on the full pair.
    pub fn same_id(&self, other: &MapIdentity) -> (r: bool)
        ensures
            r == (self@ == other@),
    {
        let r = self.name == other.name && self.hash == other.hash;
        proof {
            if self.name@ == other.name@ && self.hash@ == other.hash@ {
                assert(self@ == other@);
            }
        }
        r
    }

    /// An identical copy of the identity.
    pub fn duplicate(&self) -> (r: MapIdentity)
        ensures
            r == *self,
    {
        MapIdentity { name: self.name.clone(), hash: self.hash.clone() }
    }
}

/// One raw repository row: the averaged metrics of one map at one version.
pub struct RawRow {
    pub map: MapIdentity,
    pub version: VersionId,
    pub metrics: MetricSet,
}

/// One sample of a per-map series: the averaged metrics at one version.
pub struct Sample {
    pub version: VersionId,
    pub metrics: MetricSet,
}

/// One map's series: its samples in strictly ascending version order.
pub struct MapSeries {
    pub id: MapIdentity,
    pub samples: Vec<Sample>,
}

/// A sample series is well-formed when its versions strictly ascend and each
/// record holds the tracked metrics.
pub open spec fn series_wf(s: Seq<Sample>) -> bool {
    (forall|i: int, j: int| 0 <= i < j < s.len() ==> version_lt(#[trigger] s[i].version, #[trigger] s[j].version))
        && (forall|i: int| 0 <= i < s.len() ==> (#[trigger] s[i].metrics).wf())
}

/// Whether a series holds a sample at version `v`.
pub open spec fn series_has(s: Seq<Sample>, v: VersionId) -> bool {
    exists|i: int| 0 <= i < s.len() && (#[trigger] s[i].version) == v
}

/// The metrics a series holds at version `v` (meaningful when `series_has`).
pub open spec fn series_at(s: Seq<Sample>, v: VersionId) -> Seq<u64> {
    s[choose|i: int| 0 <= i < s.len() && (#[trigger] s[i].version) == v].metrics@
}

impl MapSeries {
    /// Well-formedness of one map's series.
    pub open spec fn wf(&self) -> bool {
        series_wf(self.samples@)
    }
}

/// The sparse matrix of samples: one series per map, map keys unique, held in
/// the order each map first appeared in the raw rows (the canonical traversal
/// order of every aggregation pass). Built once; read-only afterward.
pub struct SampleTable {
    pub maps: Vec<MapSeries>,
}

impl SampleTable {
    /// Well-formedness: every series well-formed, identities pairwise
    /// distinct.
    pub open spec fn wf(&self) -> bool {
        (forall|k: int| 0 <= k < self.maps@.len() ==> (#[trigger] self.maps@[k]).wf()) && (forall|
            k1: int,
            k2: int,
        |
            0 <= k1 < k2 < self.maps@.len() ==> (#[trigger] self.maps@[k1].id@) != (
            #[trigger] self.maps@[k2].id@))
    }
}

/// Whether some row among `rows` carries identity `idv`, version `v` and
/// metrics `m`.
pub open spec fn row_match(
    rows: Seq<RawRow>,
    idv: (Seq<char>, Seq<char>),
    v: VersionId,
    m: Seq<u64>,
) -> bool {
    exists|i: int|
        0 <= i < rows.len() && (#[trigger] rows[i].map@) == idv && rows[i].version == v
            && rows[i].metrics@ == m
}

/// Whether the table holds metrics `m` for identity `idv` at version `v`.
pub open spec fn table_has_sample(
    maps: Seq<MapSeries>,
    idv: (Seq<char>, Seq<char>),
    v: VersionId,
    m: Seq<u64>,
) -> bool {
    exists|k: int, j: int|
        0 <= k < maps.len() && 0 <= j < maps[k].samples@.len() && (#[trigger] maps[k].id@) == idv
            && (#[trigger] maps[k].samples@[j].version) == v && maps[k].samples@[j].metrics@ == m
}

/// The identities of the table's maps, in table order.
pub open spec fn table_ids(maps: Seq<MapSeries>) -> Seq<(Seq<char>, Seq<char>)> {
    maps.map_values(|ms: MapSeries| ms.id@)
}

/// The identities of `rows` in order of first appearance, each once.
pub open spec fn first_ids(rows: Seq<RawRow>) -> Seq<(Seq<char>, Seq<char>)>
    decreases rows.len(),
{
    if rows.len() == 0 {
        Seq::empty()
    } else {
        let p = first_ids(rows.drop_last());
        if p.contains(rows.last().map@) {
            p
        } else {
            p.push(rows.last().map@)
        }
    }
}

/// The position of identity `id` among the table's maps.
fn find_map(maps: &Vec<MapSeries>, id: &MapIdentity) -> (r: Option<usize>)
    ensures
        match r {
            Some(k) => k < maps@.len() && maps@[k as int].id@ == id@,
            None => forall|k: int| 0 <= k < maps@.len() ==> (#[trigger] maps@[k].id@) != id@,
        },
{
    let mut k: usize = 0;
    while k < maps.len()
        invariant
            k <= maps@.len(),
            forall|k2: int| 0 <= k2 < k ==> (#[trigger] maps@[k2].id@) != id@,
        decreases maps@.len() - k,
    {
        if maps[k].id.same_id(id) {
            return Some(k);
        }
        k += 1;
    }
    None
}

/// The position at which version `v` sorts into a well-formed series.
fn find_insert_pos(samples: &Vec<Sample>, v: &VersionId) -> (p: usize)
    requires
        series_wf(samples@),
    ensures
        p <= samples@.len(),
        forall|i: int| 0 <= i < p ==> version_lt((#[trigger] samples@[i].version), *v),
        p < samples@.len() ==> !version_lt(samples@[p as int].version, *v),
{
    let mut p: usize = 0;
    while p < samples.len()
        invariant
            p <= samples@.len(),
            forall|i: int| 0 <= i < p ==> version_lt((#[trigger] samples@[i].version), *v),
        decreases samples@.len() - p,
    {
        if !samples[p].version.lt(v) {
            return p;
        }
        p += 1;
    }
    p
}

/// Groups raw rows into the sample table: one series per map identity, each
/// in ascending version order, maps in order of first appearance.
///
/// Every row's version must lie in the configured `[earliest, latest]`
/// analysis window: a row outside it is a hard data-integrity fault
/// (`OutOfRangeVersion`) that aborts the build, never a silent drop, since a
/// dropped sample would change cohort membership undetectably. The rows are
/// assumed pre-averaged by the repository: at most one row per (map, version)
/// key.
#[verifier::rlimit(60)]
pub fn build_table(rows: &Vec<RawRow>, earliest: &VersionId, latest: &VersionId) -> (r: Result<
    SampleTable,
    AggError,
>)
    requires
        forall|i: int| 0 <= i < rows@.len() ==> (#[trigger] rows@[i].metrics).wf(),
        forall|i1: int, i2: int|
            0 <= i1 < i2 < rows@.len() ==> !((#[trigger] rows@[i1].map@) == (
            #[trigger] rows@[i2].map@) && rows@[i1].version == rows@[i2].version),
    ensures
        match r {
            Ok(t) => {
                &&& t.wf()
                &&& forall|i: int|
                    0 <= i < rows@.len() ==> version_in_window(
                        (#[trigger] rows@[i].version),
                        *earliest,
                        *latest,
                    )
                &&& forall|i: int|
                    0 <= i < rows@.len() ==> table_has_sample(
                        t.maps@,
                        (#[trigger] rows@[i].map@),
                        rows@[i].version,
                        rows@[i].metrics@,
                    )
                &&& forall|k: int, j: int|
                    0 <= k < t.maps@.len() && 0 <= j < t.maps@[k].samples@.len() ==> row_match(
                        rows@,
                        t.maps@[k].id@,
                        (#[trigger] t.maps@[k].samples@[j].version),
                        t.maps@[k].samples@[j].metrics@,
                    )
                &&& table_ids(t.maps@) == first_ids(rows@)
            },
            Err(e) => e == AggError::OutOfRangeVersion && exists|i: int|
                0 <= i < rows@.len() && !version_in_window(
                    (#[trigger] rows@[i].version),
                    *earliest,
                    *latest,
                ),
        },
{
    let mut maps: Vec<MapSeries> = Vec::new();
    let mut i: usize = 0;
    while i < rows.len()
        invariant
            i <= rows@.len(),
            forall|i2: int| 0 <= i2 < rows@.len() ==> (#[trigger] rows@[i2].metrics).wf(),
            forall|i1: int, i2: int|
                0 <= i1 < i2 < rows@.len() ==> !((#[trigger] rows@[i1].map@) == (
                #[trigger] rows@[i2].map@) && rows@[i1].version == rows@[i2].version),
            forall|k: int| 0 <= k < maps@.len() ==> (#[trigger] maps@[k]).wf(),
            forall|k1: int, k2: int|
                0 <= k1 < k2 < maps@.len() ==> (#[trigger] maps@[k1].id@) != (
                #[trigger] maps@[k2].id@),
            forall|i2: int|
                0 <= i2 < i ==> version_in_window(
                    (#[trigger] rows@[i2].version),
                    *earliest,
                    *latest,
                ),
            forall|i2: int|
                0 <= i2 < i ==> table_has_sample(
                    maps@,
                    (#[trigger] rows@[i2].map@),
                    rows@[i2].version,
                    rows@[i2].metrics@,
                ),
            forall|k: int, j: int|
                0 <= k < maps@.len() && 0 <= j < maps@[k].samples@.len() ==> row_match(
                    rows@.take(i as int),
                    maps@[k].id@,
                    (#[trigger] maps@[k].samples@[j].version),
                    maps@[k].samples@[j].metrics@,
                ),
            table_ids(maps@) == first_ids(rows@.take(i as int)),
        decreases rows@.len() - i,
    {
        let ghost prev_maps = maps@;
        let row = &rows[i];
        if !(earliest.le(&row.version) && row.version.le(latest)) {
            return Err(AggError::OutOfRangeVersion);
        }
        let ghost rowg = rows@[i as int];
        proof {
            assert(rows@.take(i + 1).drop_last() =~= rows@.take(i as int));
            assert(rows@.take(i + 1).last() == rowg);
            assert forall|x: int| 0 <= x < i implies rows@.take(i + 1)[x] == rows@[x] by {}
        }
        match find_map(&maps, &row.map) {
            None => {
                let sample = Sample { version: row.version, metrics: row.metrics.duplicate() };
                let mut samples: Vec<Sample> = Vec::new();
                samples.push(sample);
                maps.push(MapSeries { id: row.map.duplicate(), samples });
                proof {
                    let nk = prev_maps.len() as int;
                    assert(maps@.len() == nk + 1);
                    assert forall|x: int| 0 <= x < nk implies maps@[x] == prev_maps[x] by {}
                    assert(maps@[nk].id@ == rowg.map@);
                    assert(maps@[nk].samples@.len() == 1 && maps@[nk].samples@[0].version
                        == rowg.version && maps@[nk].samples@[0].metrics@ == rowg.metrics@);
                    assert(maps@[nk].wf());
                    assert(!table_ids(prev_maps).contains(rowg.map@)) by {
                        if table_ids(prev_maps).contains(rowg.map@) {
                            let k2 = choose|k2: int|
                                0 <= k2 < table_ids(prev_maps).len() && table_ids(prev_maps)[k2]
                                    == rowg.map@;
                            assert(prev_maps[k2].id@ == rowg.map@);
                        }
                    }
                    assert(table_ids(maps@) =~= table_ids(prev_maps).push(rowg.map@));
                    assert(table_ids(maps@) == first_ids(rows@.take(i + 1)));
                    assert forall|i2: int|
                        0 <= i2 < i + 1 implies table_has_sample(
                        maps@,
                        (#[trigger] rows@[i2].map@),
                        rows@[i2].version,
                        rows@[i2].metrics@,
                    ) by {
                        if i2 < i {
                            let (k2, j2) = choose|k2: int, j2: int|
                                0 <= k2 < prev_maps.len() && 0 <= j2
                                    < prev_maps[k2].samples@.len() && (
                                #[trigger] prev_maps[k2].id@) == rows@[i2].map@ && (
                                #[trigger] prev_maps[k2].samples@[j2].version) == rows@[i2].version
                                    && prev_maps[k2].samples@[j2].metrics@ == rows@[i2].metrics@;
                            assert(maps@[k2].id@ == rows@[i2].map@);
                            assert(maps@[k2].samples@[j2].version == rows@[i2].version);
                        } else {
                            assert(maps@[nk].id@ == rows@[i2].map@);
                            assert(maps@[nk].samples@[0].version == rows@[i2].version);
                        }
                    }
                    assert forall|k: int, j: int|
                        0 <= k < maps@.len() && 0 <= j < maps@[k].samples@.len() implies row_match(
                        rows@.take(i + 1),
                        maps@[k].id@,
                        (#[trigger] maps@[k].samples@[j].version),
                        maps@[k].samples@[j].metrics@,
                    ) by {
                        if k < nk {
                            assert(maps@[k] == prev_maps[k]);
                            assert(row_match(
                                rows@.take(i as int),
                                maps@[k].id@,
                                maps@[k].samples@[j].version,
                                maps@[k].samples@[j].metrics@,
                            ));
                            let i1 = choose|i1: int|
                                0 <= i1 < rows@.take(i as int).len() && (#[trigger] rows@.take(
                                    i as int,
                                )[i1].map@) == maps@[k].id@ && rows@.take(i as int)[i1].version
                                    == maps@[k].samples@[j].version && rows@.take(
                                    i as int,
                                )[i1].metrics@ == maps@[k].samples@[j].metrics@;
                            assert(rows@.take(i + 1)[i1].map@ == maps@[k].id@);
                        } else {
                            assert(j == 0);
                            assert(rows@.take(i + 1)[i as int].map@ == maps@[k].id@);
                        }
                    }
                }
            },
            Some(k) => {
                let ghost kk = k as int;
                let mut entry = maps.remove(k);
                proof {
                    prev_maps.remove_ensures(kk);
                    assert(entry == prev_maps[kk]);
                }
                let p = find_insert_pos(&entry.samples, &row.version);
                let ghost olds = entry.samples@;
                proof {
                    // The incoming key is absent from this series: a hit would
                    // be a duplicate (map, version) key among the rows.
                    assert forall|j: int|
                        0 <= j < olds.len() implies olds[j].version != rowg.version by {
                        if olds[j].version == rowg.version {
                            assert(row_match(
                                rows@.take(i as int),
                                entry.id@,
                                olds[j].version,
                                olds[j].metrics@,
                            ));
                            let i1 = choose|i1: int|
                                0 <= i1 < rows@.take(i as int).len() && (#[trigger] rows@.take(
                                    i as int,
                                )[i1].map@) == entry.id@ && rows@.take(i as int)[i1].version
                                    == olds[j].version && rows@.take(i as int)[i1].metrics@
                                    == olds[j].metrics@;
                            assert(rows@[i1].map@ == rowg.map@ && rows@[i1].version
                                == rowg.version);
                        }
                    }
                }
                let sample = Sample { version: row.version, metrics: row.metrics.duplicate() };
                entry.samples.insert(p, sample);
                proof {
                    olds.insert_ensures(p as int, sample);
                    let news = entry.samples@;
                    if p < olds.len() {
                        assert(!version_lt(olds[p as int].version, rowg.version));
                        assert(olds[p as int].version != rowg.version);
                        assert(version_lt(rowg.version, olds[p as int].version));
                    }
                    assert forall|x: int, y: int|
                        0 <= x < y < news.len() implies version_lt(
                        news[x].version,
                        news[y].version,
                    ) by {
                        if x < p {
                            assert(news[x] == olds[x]);
                        } else if x == p {
                            assert(news[x] == sample);
                        } else {
                            assert(news[x] == olds[x - 1]);
                        }
                        if y < p {
                            assert(news[y] == olds[y]);
                        } else if y == p {
                            assert(news[y] == sample);
                        } else {
                            assert(news[y] == olds[y - 1]);
                        }
                    }
                    assert forall|x: int|
                        0 <= x < news.len() implies (#[trigger] news[x].metrics).wf() by {
                        if x < p {
                            assert(news[x] == olds[x]);
                        } else if x == p {
                            assert(news[x] == sample);
                        } else {
                            assert(news[x] == olds[x - 1]);
                        }
                    }
                    assert(series_wf(news));
                }
                maps.insert(k, entry);
                proof {
                    let news = entry.samples@;
                    prev_maps.remove(kk).insert_ensures(kk, entry);
                    assert forall|x: int|
                        0 <= x < maps@.len() && x != kk implies maps@[x] == prev_maps[x] by {
                        if x < kk {
                            assert(maps@[x] == prev_maps.remove(kk)[x]);
                        } else {
                            assert(maps@[x] == prev_maps.remove(kk)[x - 1]);
                        }
                    }
                    assert(maps@.len() == prev_maps.len());
                    assert(maps@[kk] == entry);
                    assert(entry.id@ == prev_maps[kk].id@);
                    assert(table_ids(maps@) =~= table_ids(prev_maps));
                    assert(table_ids(prev_maps).contains(rowg.map@)) by {
                        assert(table_ids(prev_maps)[kk] == rowg.map@);
                    }
                    assert(table_ids(maps@) == first_ids(rows@.take(i + 1)));
                    assert forall|i2: int|
                        0 <= i2 < i + 1 implies table_has_sample(
                        maps@,
                        (#[trigger] rows@[i2].map@),
                        rows@[i2].version,
                        rows@[i2].metrics@,
                    ) by {
                        if i2 < i {
                            let (k2, j2) = choose|k2: int, j2: int|
                                0 <= k2 < prev_maps.len() && 0 <= j2
                                    < prev_maps[k2].samples@.len() && (
                                #[trigger] prev_maps[k2].id@) == rows@[i2].map@ && (
                                #[trigger] prev_maps[k2].samples@[j2].version) == rows@[i2].version
                                    && prev_maps[k2].samples@[j2].metrics@ == rows@[i2].metrics@;
                            if k2 != kk {
                                assert(maps@[k2].id@ == rows@[i2].map@);
                                assert(maps@[k2].samples@[j2].version == rows@[i2].version);
                            } else {
                                assert(maps@[kk].id@ == rows@[i2].map@);
                                if j2 < p {
                                    assert(news[j2] == olds[j2]);
                                    assert(maps@[kk].samples@[j2].version == rows@[i2].version);
                                } else {
                                    assert(news[j2 + 1] == olds[j2]);
                                    assert(maps@[kk].samples@[j2 + 1].version
                                        == rows@[i2].version);
                                }
                            }
                        } else {
                            assert(news[p as int] == sample);
                            assert(maps@[kk].id@ == rows@[i2].map@);
                            assert(maps@[kk].samples@[p as int].version == rows@[i2].version);
                        }
                    }
                    assert forall|k3: int, j: int|
                        0 <= k3 < maps@.len() && 0 <= j < maps@[k3].samples@.len() implies row_match(
                        rows@.take(i + 1),
                        maps@[k3].id@,
                        (#[trigger] maps@[k3].samples@[j].version),
                        maps@[k3].samples@[j].metrics@,
                    ) by {
                        let old_here = if k3 != kk {
                            true
                        } else if j < p {
                            true
                        } else if j == p {
                            false
                        } else {
                            true
                        };
                        if k3 != kk {
                            assert(maps@[k3] == prev_maps[k3]);
                        } else if j < p {
                            assert(news[j] == olds[j]);
                        } else if j > p {
                            assert(news[j] == olds[j - 1]);
                        }
                        if old_here {
                            assert(row_match(
                                rows@.take(i as int),
                                maps@[k3].id@,
                                maps@[k3].samples@[j].version,
                                maps@[k3].samples@[j].metrics@,
                            ));
                            let i1 = choose|i1: int|
                                0 <= i1 < rows@.take(i as int).len() && (#[trigger] rows@.take(
                                    i as int,
                                )[i1].map@) == maps@[k3].id@ && rows@.take(i as int)[i1].version
                                    == maps@[k3].samples@[j].version && rows@.take(
                                    i as int,
                                )[i1].metrics@ == maps@[k3].samples@[j].metrics@;
                            assert(rows@.take(i + 1)[i1].map@ == maps@[k3].id@);
                        } else {
                            assert(news[p as int] == sample);
                            assert(rows@.take(i + 1)[i as int].map@ == maps@[k3].id@);
                        }
                    }
                }
            },
        }
        i += 1;
    }
    proof {
        assert(rows@.take(rows@.len() as int) =~= rows@);
    }
    Ok(SampleTable { maps })
}

} // verus!
