use regression_charts::aggregate::{aggregate_at, aggregate_maps, checkpoints, cohort, standalone_series};
use regression_charts::errors::AggError;
use regression_charts::metrics::{other_metric, MetricSet, METRIC_COUNT};
use regression_charts::table::{build_table, MapIdentity, RawRow, SampleTable};
use regression_charts::version::VersionId;

fn v(major: u64, minor: u64, patch: u64) -> VersionId {
    VersionId::new(major, minor, patch)
}

fn metrics(base: u64) -> MetricSet {
    let mut values: Vec<u64> = Vec::new();
    for j in 0..METRIC_COUNT as u64 {
        values.push(base + j);
    }
    MetricSet::new(values)
}

fn row(name: &str, ver: VersionId, base: u64) -> RawRow {
    RawRow {
        map: MapIdentity::new(name.to_string(), format!("hash-of-{}", name)),
        version: ver,
        metrics: metrics(base),
    }
}

const EARLIEST: (u64, u64, u64) = (0, 17, 66);
const LATEST: (u64, u64, u64) = (0, 18, 45);

fn window() -> (VersionId, VersionId) {
    (
        v(EARLIEST.0, EARLIEST.1, EARLIEST.2),
        v(LATEST.0, LATEST.1, LATEST.2),
    )
}

/// M1 sampled at {0.17.66, 0.17.79, 0.18.0}, M2 at {0.17.79, 0.18.0}.
fn two_map_table() -> SampleTable {
    let rows = vec![
        row("M1", v(0, 17, 66), 100),
        row("M1", v(0, 17, 79), 200),
        row("M1", v(0, 18, 0), 300),
        row("M2", v(0, 17, 79), 1000),
        row("M2", v(0, 18, 0), 2000),
    ];
    let (earliest, latest) = window();
    build_table(&rows, &earliest, &latest).unwrap()
}

#[test]
fn checkpoints_are_exactly_the_strict_count_increases() {
    let table = two_map_table();
    let cps = checkpoints(&table);
    // 0.18.0 is NOT a checkpoint: the count stays 2.
    assert_eq!(cps, vec![v(0, 17, 66), v(0, 17, 79)]);

    let c1 = cohort(&table, &cps[0]);
    assert_eq!(c1.len(), 1);
    assert_eq!(c1[0].name, "M1");

    let c2 = cohort(&table, &cps[1]);
    assert_eq!(c2.len(), 2);
    assert_eq!(c2[0].name, "M1");
    assert_eq!(c2[1].name, "M2");
}

#[test]
fn checkpoint_counts_strictly_increase() {
    let table = two_map_table();
    let recs = aggregate_maps(&table);
    assert_eq!(recs.len(), 2);
    // counts along the checkpoint list: 1 then 2
    assert_eq!(recs[0].cohort.len(), 1);
    assert_eq!(recs[1].cohort.len(), 2);
    assert!(recs[0].checkpoint.lt(&recs[1].checkpoint));
}

#[test]
fn aggregation_averages_exactly_the_present_contributors() {
    let table = two_map_table();
    let ser = aggregate_at(&table, &v(0, 17, 79));
    // versions at or after the checkpoint sampled by the cohort
    assert_eq!(ser.entries.len(), 2);
    assert_eq!(ser.entries[0].version, v(0, 17, 79));
    assert_eq!(ser.entries[1].version, v(0, 18, 0));
    // the cohort-defining version 0.17.66 is absent
    assert!(ser.entries.iter().all(|e| e.version != v(0, 17, 66)));

    // at 0.18.0 both M1 and M2 contribute: the mean of 300+j and 2000+j
    let e = &ser.entries[1];
    assert_eq!(e.count, 2);
    let mean = e.mean();
    for j in 0..METRIC_COUNT {
        let m1 = 300 + j as u64;
        let m2 = 2000 + j as u64;
        assert_eq!(mean.get(j), (m1 + m2) / 2);
        // the float mean agrees on these exactly-averaged inputs
        let f = (m1 as f64 + m2 as f64) / 2.0;
        assert_eq!(mean.get(j) as f64, f.floor());
    }

    // at 0.17.79 both contribute too
    let e = &ser.entries[0];
    assert_eq!(e.count, 2);
    let mean = e.mean();
    for j in 0..METRIC_COUNT {
        assert_eq!(mean.get(j), ((200 + j as u64) + (1000 + j as u64)) / 2);
    }
}

#[test]
fn first_checkpoint_series_covers_only_its_cohort() {
    let table = two_map_table();
    let ser = aggregate_at(&table, &v(0, 17, 66));
    // the cohort is {M1}; every entry has exactly one contributor
    assert_eq!(ser.entries.len(), 3);
    for e in &ser.entries {
        assert_eq!(e.count, 1);
    }
    let mean = ser.entries[2].mean();
    for j in 0..METRIC_COUNT {
        assert_eq!(mean.get(j), 300 + j as u64);
    }
}

#[test]
fn standalone_series_is_the_raw_series_unchanged() {
    let table = two_map_table();
    // M1 is the first map in first-appearance order
    let m1 = &table.maps[0];
    assert_eq!(m1.id.name, "M1");
    let ser = standalone_series(m1);
    assert_eq!(ser.entries.len(), 3);
    let bases = [100u64, 200, 300];
    for (x, e) in ser.entries.iter().enumerate() {
        assert_eq!(e.count, 1);
        assert_eq!(e.version, m1.samples[x].version);
        let mean = e.mean();
        for j in 0..METRIC_COUNT {
            assert_eq!(mean.get(j), bases[x] + j as u64);
        }
    }
}

#[test]
fn other_metric_may_be_negative_and_is_not_clamped() {
    // total 10.0, named sub-phases summing to 11.0 (in any fixed unit):
    // the residual is -1.0, surfaced as-is.
    let mut values: Vec<u64> = vec![10_000_000];
    values.push(4_000_000);
    for _ in 2..METRIC_COUNT {
        values.push(1_000_000);
    }
    let ms = MetricSet::new(values);
    assert_eq!(other_metric(&ms), -1_000_000);

    // and a non-negative residual stays exact
    let mut values: Vec<u64> = vec![10_000_000];
    for _ in 1..METRIC_COUNT {
        values.push(1_000_000);
    }
    let ms = MetricSet::new(values);
    assert_eq!(other_metric(&ms), 2_000_000);
}

#[test]
fn empty_table_yields_no_checkpoints_and_no_fault() {
    let rows: Vec<RawRow> = Vec::new();
    let (earliest, latest) = window();
    let table = build_table(&rows, &earliest, &latest).unwrap();
    assert_eq!(checkpoints(&table), Vec::<VersionId>::new());
    assert!(aggregate_maps(&table).is_empty());
}

#[test]
fn out_of_range_version_aborts_the_build() {
    let rows = vec![row("M1", v(0, 17, 70), 100), row("M1", v(0, 16, 50), 200)];
    let (earliest, latest) = window();
    assert!(matches!(
        build_table(&rows, &earliest, &latest),
        Err(AggError::OutOfRangeVersion)
    ));
    let rows = vec![row("M1", v(0, 18, 46), 100)];
    assert!(matches!(
        build_table(&rows, &earliest, &latest),
        Err(AggError::OutOfRangeVersion)
    ));
}

#[test]
fn maps_with_equal_names_but_different_hashes_are_distinct() {
    let (earliest, latest) = window();
    let rows = vec![
        RawRow {
            map: MapIdentity::new("M".to_string(), "h1".to_string()),
            version: v(0, 17, 70),
            metrics: metrics(10),
        },
        RawRow {
            map: MapIdentity::new("M".to_string(), "h2".to_string()),
            version: v(0, 17, 70),
            metrics: metrics(20),
        },
    ];
    let table = build_table(&rows, &earliest, &latest).unwrap();
    assert_eq!(table.maps.len(), 2);
    let cps = checkpoints(&table);
    // both maps appear at the same single version: one checkpoint, count 2
    assert_eq!(cps, vec![v(0, 17, 70)]);
    assert_eq!(cohort(&table, &cps[0]).len(), 2);
}

#[test]
fn build_table_sorts_each_series_by_version() {
    let (earliest, latest) = window();
    let rows = vec![
        row("M1", v(0, 18, 0), 300),
        row("M1", v(0, 17, 66), 100),
        row("M1", v(0, 17, 79), 200),
    ];
    let table = build_table(&rows, &earliest, &latest).unwrap();
    assert_eq!(table.maps.len(), 1);
    let versions: Vec<VersionId> = table.maps[0].samples.iter().map(|s| s.version).collect();
    assert_eq!(versions, vec![v(0, 17, 66), v(0, 17, 79), v(0, 18, 0)]);
    assert_eq!(table.maps[0].samples[0].metrics.get(0), 100);
}
