use std::collections::HashMap;

use lammps_util::clusterizer::{count_clusters, get_clusters, max_cluster};
use lammps_util::spatial::SpatialIndex;
use lammps_util::{
    clusterize_snapshot, get_cluster_counts, get_max_cluster, DumpSnapshot, Point3, SymBox, XYZ,
};

fn cell() -> SymBox {
    SymBox {
        boundaries: String::from("pp pp pp"),
        lower: Point3 { x: 0, y: 0, z: 0 },
        upper: Point3 { x: 100_000, y: 100_000, z: 100_000 },
    }
}

fn snapshot_of(rows: &[[i64; 4]]) -> DumpSnapshot {
    let keys = vec![
        String::from("id"),
        String::from("x"),
        String::from("y"),
        String::from("z"),
    ];
    let mut snapshot = DumpSnapshot::new(keys, 7, rows.len(), cell());
    for (i, row) in rows.iter().enumerate() {
        for (j, value) in row.iter().enumerate() {
            snapshot.set_atom_value(j, i, *value);
        }
    }
    snapshot
}

#[test]
fn triangle_is_one_cluster() {
    let snapshot = snapshot_of(&[[11, 0, 0, 0], [12, 16_000, 0, 0], [13, 8_000, 13_856, 0]]);
    let clustered = clusterize_snapshot(&snapshot, 17_000);
    assert_eq!(clustered.get_keys(), vec!["id", "x", "y", "z", "cluster"]);
    assert_eq!(clustered.get_property("cluster"), &[11, 11, 11]);
    assert_eq!(get_cluster_counts(&clustered), HashMap::from([(11, 3)]));
    assert_eq!(get_max_cluster(&clustered), 11);
    assert_eq!(clustered.step, 7);
    assert_eq!(clustered.atoms_count, 3);
}

#[test]
fn chain_joins_rows_that_are_not_adjacent() {
    let points = vec![
        XYZ::from(Point3 { x: 0, y: 0, z: 0 }, 0),
        XYZ::from(Point3 { x: 100, y: 0, z: 0 }, 1),
        XYZ::from(Point3 { x: 10, y: 0, z: 0 }, 2),
        XYZ::from(Point3 { x: 20, y: 0, z: 0 }, 3),
        XYZ::from(Point3 { x: 110, y: 0, z: 0 }, 4),
    ];
    assert_eq!(get_clusters(&points, 10), vec![0, 1, 0, 0, 1]);
    assert_eq!(get_clusters(&points, 9), vec![0, 1, 2, 3, 4]);
    assert_eq!(get_clusters(&points, 80), vec![0, 0, 0, 0, 0]);
}

#[test]
fn cutoff_is_inclusive() {
    let points = vec![
        XYZ::from(Point3 { x: 0, y: 0, z: 0 }, 0),
        XYZ::from(Point3 { x: 3, y: 4, z: 0 }, 1),
    ];
    assert_eq!(get_clusters(&points, 5), vec![0, 0]);
    assert_eq!(get_clusters(&points, 4), vec![0, 1]);
}

#[test]
fn zero_cutoff_joins_only_equal_points() {
    let points = vec![
        XYZ::from(Point3 { x: 1, y: 2, z: 3 }, 0),
        XYZ::from(Point3 { x: 1, y: 2, z: 4 }, 1),
        XYZ::from(Point3 { x: 1, y: 2, z: 3 }, 2),
    ];
    assert_eq!(get_clusters(&points, 0), vec![0, 1, 0]);
}

#[test]
fn wider_cutoff_never_splits_a_cluster() {
    let points = vec![
        XYZ::from(Point3 { x: 0, y: 0, z: 0 }, 0),
        XYZ::from(Point3 { x: 5, y: 0, z: 0 }, 1),
        XYZ::from(Point3 { x: 0, y: 12, z: 0 }, 2),
        XYZ::from(Point3 { x: 40, y: 40, z: 40 }, 3),
    ];
    let narrow = get_clusters(&points, 5);
    let wide = get_clusters(&points, 12);
    for i in 0..points.len() {
        for j in 0..points.len() {
            if narrow[i] == narrow[j] {
                assert_eq!(wide[i], wide[j]);
            }
        }
    }
    assert_eq!(narrow, vec![0, 0, 2, 3]);
    assert_eq!(wide, vec![0, 0, 0, 3]);
}

#[test]
fn labels_partition_the_rows() {
    let points = vec![
        XYZ::from(Point3 { x: 0, y: 0, z: 0 }, 0),
        XYZ::from(Point3 { x: 50, y: 0, z: 0 }, 1),
        XYZ::from(Point3 { x: 1, y: 0, z: 0 }, 2),
    ];
    let labels = get_clusters(&points, 2);
    assert_eq!(labels.len(), points.len());
    for (i, label) in labels.iter().enumerate() {
        assert!(*label <= i);
        assert_eq!(labels[*label], *label);
    }
}

#[test]
fn far_coordinates_do_not_overflow() {
    let points = vec![
        XYZ::from(Point3 { x: i64::MIN, y: i64::MIN, z: i64::MIN }, 0),
        XYZ::from(Point3 { x: i64::MAX, y: i64::MAX, z: i64::MAX }, 1),
        XYZ::from(Point3 { x: i64::MAX, y: i64::MAX, z: i64::MAX - 1 }, 2),
    ];
    assert_eq!(get_clusters(&points, i64::MAX), vec![0, 1, 1]);
}

#[test]
fn counts_and_largest_cluster() {
    let column = [5, 3, 5, 9, 3, 9];
    assert_eq!(count_clusters(&column), HashMap::from([(3, 2), (5, 2), (9, 2)]));
    assert_eq!(count_clusters(&[7, -1, 7, 7]), HashMap::from([(-1, 1), (7, 3)]));
    assert_eq!(max_cluster(&column), 3);
    assert_eq!(max_cluster(&[4, 8, 8, 4, 8]), 8);
    assert_eq!(max_cluster(&[-2]), -2);
    assert_eq!(count_clusters(&[]), HashMap::new());
    let ties: Vec<i64> = (0..200).map(|i| (i * 37) % 50 - 25).collect();
    assert_eq!(max_cluster(&ties), -25);
    assert_eq!(count_clusters(&ties).len(), 50);
}

#[test]
fn check_cutoff_compares_squares() {
    let a = XYZ::from(Point3 { x: 0, y: 0, z: 0 }, 0);
    let b = XYZ::from(Point3 { x: 2, y: 3, z: 6 }, 1);
    assert!(XYZ::check_cutoff(a, b, 7));
    assert!(!XYZ::check_cutoff(a, b, 6));
    assert!(XYZ::check_cutoff(a, a, 0));
    assert_eq!((b.at(0), b.at(1), b.at(2)), (2, 3, 6));
}

#[test]
fn radius_query_finds_what_lies_within() {
    let points: Vec<XYZ> = (0..50)
        .map(|i| XYZ::from(Point3 { x: (i * 37) % 101, y: (i * 53) % 89, z: (i * 71) % 97 }, i as usize))
        .collect();
    let index = SpatialIndex::build(&points);
    for radius in [0i64, 1, 10, 33, 60, 200] {
        for query in points.iter().take(7) {
            let mut found: Vec<usize> = index
                .within_radius(query.coords, radius)
                .iter()
                .map(|p| p.index)
                .collect();
            found.sort();
            let expected: Vec<usize> = points
                .iter()
                .filter(|p| {
                    let dx = (p.coords.x - query.coords.x) as i128;
                    let dy = (p.coords.y - query.coords.y) as i128;
                    let dz = (p.coords.z - query.coords.z) as i128;
                    dx * dx + dy * dy + dz * dz <= (radius as i128) * (radius as i128)
                })
                .map(|p| p.index)
                .collect();
            assert_eq!(found, expected);
        }
    }
}

#[test]
fn radius_query_keeps_equal_points_apart() {
    let points = vec![
        XYZ::from(Point3 { x: 4, y: 4, z: 4 }, 0),
        XYZ::from(Point3 { x: 4, y: 4, z: 4 }, 1),
        XYZ::from(Point3 { x: 9, y: 4, z: 4 }, 2),
    ];
    let index = SpatialIndex::build(&points);
    let mut found: Vec<usize> =
        index.within_radius(Point3 { x: 4, y: 4, z: 4 }, 0).iter().map(|p| p.index).collect();
    found.sort();
    assert_eq!(found, vec![0, 1]);
    assert!(index.within_radius(Point3 { x: 0, y: 0, z: 0 }, 6).is_empty());
    assert_eq!(SpatialIndex::build(&vec![]).within_radius(Point3 { x: 0, y: 0, z: 0 }, 5), vec![]);
}

#[test]
fn clusters_of_a_larger_cloud_agree_with_a_plain_search() {
    let points: Vec<XYZ> = (0..120)
        .map(|i| XYZ::from(Point3 { x: (i * 37) % 211, y: (i * 53) % 199, z: (i * 71) % 13 }, i as usize))
        .collect();
    for cutoff in [0i64, 5, 12, 25, 40] {
        let labels = get_clusters(&points, cutoff);
        let mut expected: Vec<usize> = (0..points.len()).collect();
        let mut changed = true;
        while changed {
            changed = false;
            for i in 0..points.len() {
                for j in 0..points.len() {
                    if XYZ::check_cutoff(points[i], points[j], cutoff) && expected[j] > expected[i] {
                        expected[j] = expected[i];
                        changed = true;
                    }
                }
            }
        }
        assert_eq!(labels, expected);
    }
}
