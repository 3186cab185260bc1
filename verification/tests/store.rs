use lammps_util::crater::crater_candidate_rows;
use lammps_util::{
    copy_snapshot, copy_snapshot_with_indices, copy_snapshot_with_indices_with_keys,
    copy_snapshot_with_keys, crater_candidates_snapshot, crater_snapshot, DumpSnapshot, Point3,
    SymBox, XYZ,
};

fn cell() -> SymBox {
    SymBox {
        boundaries: String::from("pp pp pp"),
        lower: Point3 { x: -5, y: -5, z: -5 },
        upper: Point3 { x: 5, y: 5, z: 5 },
    }
}

fn snapshot_of(rows: &[[i64; 4]]) -> DumpSnapshot {
    let keys = vec![
        String::from("id"),
        String::from("x"),
        String::from("y"),
        String::from("z"),
    ];
    let mut snapshot = DumpSnapshot::new(keys, 11, rows.len(), cell());
    for (i, row) in rows.iter().enumerate() {
        for (j, value) in row.iter().enumerate() {
            snapshot.set_atom_value(j, i, *value);
        }
    }
    snapshot
}

fn rows_of(snapshot: &DumpSnapshot) -> Vec<Vec<i64>> {
    (0..snapshot.atoms_count)
        .map(|i| (0..snapshot.num_properties()).map(|j| snapshot.get_atom_value(j, i)).collect())
        .collect()
}

#[test]
fn new_store_is_zeroed_and_set_changes_one_value() {
    let mut s = DumpSnapshot::new(vec!["a".to_string(), "b".to_string()], 3, 2, cell());
    assert_eq!(rows_of(&s), vec![vec![0, 0], vec![0, 0]]);
    s.set_atom_value(1, 0, 7);
    assert_eq!(rows_of(&s), vec![vec![0, 7], vec![0, 0]]);
    assert_eq!(s.get_property("b"), &[7, 0]);
    assert_eq!(s.get_property("a"), &[0, 0]);
    assert_eq!(s.get_atom_value(1, 0), 7);
    assert_eq!(s.get_property_index("b"), 1);
    assert_eq!(s.find_property("c"), None);
    assert_eq!(s.find_property("a"), Some(0));
    assert_eq!(s.get_keys_map(), vec![("a".to_string(), 0), ("b".to_string(), 1)]);
    assert_eq!(s.num_atoms(), 2);
    assert_eq!(s.timestep(), 3);
}

#[test]
fn coordinates_carry_their_rows() {
    let s = snapshot_of(&[[1, 10, 20, 30], [2, 11, 21, 31]]);
    assert_eq!(
        s.get_coordinates(),
        vec![
            XYZ::from(Point3 { x: 10, y: 20, z: 30 }, 0),
            XYZ::from(Point3 { x: 11, y: 21, z: 31 }, 1)
        ]
    );
    assert_eq!(s.get_zero_lvl(), 31);
    assert_eq!(snapshot_of(&[]).get_zero_lvl(), i64::MIN);
}

#[test]
fn subset_keeps_the_order_given() {
    let s = snapshot_of(&[[1, 0, 0, 0], [2, 1, 1, 1], [3, 2, 2, 2], [4, 3, 3, 3]]);
    let t = copy_snapshot_with_indices(&s, &vec![3, 0, 3]);
    assert_eq!(rows_of(&t), vec![vec![4, 3, 3, 3], vec![1, 0, 0, 0], vec![4, 3, 3, 3]]);
    assert_eq!(t.get_keys(), s.get_keys());
    assert_eq!(t.step, 11);
    assert_eq!(t.sym_box.boundaries, "pp pp pp");
    assert_eq!(t.sym_box.lower, s.sym_box.lower);
    assert_eq!(t.sym_box.upper, s.sym_box.upper);
    assert_eq!(rows_of(&s).len(), 4);
    assert_eq!(copy_snapshot_with_indices(&s, &vec![]).atoms_count, 0);
}

#[test]
fn subset_of_subset_is_subset_at_composed_rows() {
    let s = snapshot_of(&[[1, 0, 0, 0], [2, 1, 1, 1], [3, 2, 2, 2], [4, 3, 3, 3]]);
    let a = vec![2, 0, 3];
    let b = vec![2, 2, 1];
    let twice = copy_snapshot_with_indices(&copy_snapshot_with_indices(&s, &a), &b);
    let composed: Vec<usize> = b.iter().map(|i| a[*i]).collect();
    let once = copy_snapshot_with_indices(&s, &composed);
    assert_eq!(rows_of(&twice), rows_of(&once));
    assert_eq!(rows_of(&twice), vec![vec![4, 3, 3, 3], vec![4, 3, 3, 3], vec![1, 0, 0, 0]]);
}

#[test]
fn extension_adds_zero_columns_behind() {
    let s = snapshot_of(&[[1, 5, 6, 7], [2, 8, 9, 10]]);
    let t = copy_snapshot_with_keys(&s, &vec!["mass".to_string(), "q".to_string()]);
    assert_eq!(t.get_keys(), vec!["id", "x", "y", "z", "mass", "q"]);
    assert_eq!(rows_of(&t), vec![vec![1, 5, 6, 7, 0, 0], vec![2, 8, 9, 10, 0, 0]]);
    let u = copy_snapshot_with_indices_with_keys(&s, &vec!["q".to_string()], &vec![1]);
    assert_eq!(u.get_keys(), vec!["id", "x", "y", "z", "q"]);
    assert_eq!(rows_of(&u), vec![vec![2, 8, 9, 10, 0]]);
    assert_eq!(rows_of(&copy_snapshot(&s)), rows_of(&s));
    assert_eq!(rows_of(&s.clone()), rows_of(&s));
}

#[test]
fn no_candidates_against_the_same_snapshot() {
    let s = snapshot_of(&[[1, 0, 0, 0], [2, 40, 0, 0], [3, 0, 90, 0]]);
    assert_eq!(crater_candidate_rows(&s, &s, 0), Vec::<usize>::new());
    assert_eq!(crater_candidate_rows(&s, &s, 25), Vec::<usize>::new());
    assert_eq!(crater_candidates_snapshot(&s, &s, 0, 10).atoms_count, 0);
}

#[test]
fn crater_is_the_largest_group_of_vanished_atoms() {
    let before = snapshot_of(
        &[
            [1, 0, 0, 0],
            [2, 100, 0, 0],
            [3, 110, 0, 0],
            [4, 500, 0, 0],
            [5, 120, 0, 0],
            [6, 900, 0, 0],
            [7, 910, 0, 0],
        ],
    );
    let after = snapshot_of(&[[1, 1, 0, 0], [4, 500, 3, 0]]);
    assert_eq!(crater_candidate_rows(&before, &after, 3), vec![1, 2, 4, 5, 6]);
    assert_eq!(crater_candidate_rows(&before, &after, 2), vec![1, 2, 3, 4, 5, 6]);
    let candidates = crater_candidates_snapshot(&before, &after, 3, 10);
    assert_eq!(candidates.get_property("id"), &[2, 3, 5, 6, 7]);
    assert_eq!(candidates.get_property("cluster"), &[2, 2, 2, 6, 6]);
    let crater = crater_snapshot(&before, &after, 3, 10);
    assert_eq!(
        rows_of(&crater),
        vec![vec![2, 100, 0, 0, 2], vec![3, 110, 0, 0, 2], vec![5, 120, 0, 0, 2]]
    );
    assert_eq!(crater.get_keys(), vec!["id", "x", "y", "z", "cluster"]);
}

#[test]
fn crater_tie_goes_to_the_smaller_id() {
    let before = snapshot_of(&[[9, 0, 0, 0], [8, 1, 0, 0], [3, 50, 0, 0], [4, 51, 0, 0]]);
    let after = snapshot_of(&[[1, 1000, 0, 0]]);
    let crater = crater_snapshot(&before, &after, 5, 2);
    assert_eq!(crater.get_property("id"), &[3, 4]);
    assert_eq!(crater.get_property("cluster"), &[3, 3]);
}

#[test]
fn column_can_be_written_through() {
    let mut s = snapshot_of(&[[1, 5, 6, 7], [2, 8, 9, 10]]);
    {
        let y = s.get_property_mut("y");
        assert_eq!(y, &[6, 9]);
        y[1] = -4;
    }
    assert_eq!(rows_of(&s), vec![vec![1, 5, 6, 7], vec![2, 8, -4, 10]]);
}

#[test]
fn volume_is_the_product_of_the_sides() {
    assert_eq!(cell().volume(), Some(1000));
    let flat = SymBox {
        boundaries: String::new(),
        lower: Point3 { x: 0, y: 3, z: 0 },
        upper: Point3 { x: 9, y: 3, z: 9 },
    };
    assert_eq!(flat.volume(), Some(0));
    let vast = SymBox {
        boundaries: String::new(),
        lower: Point3 { x: i64::MIN, y: i64::MIN, z: i64::MIN },
        upper: Point3 { x: i64::MAX, y: i64::MAX, z: i64::MAX },
    };
    assert_eq!(vast.volume(), None);
}

#[test]
fn images_of_atoms_near_the_sides() {
    let cell = SymBox {
        boundaries: String::from("pp pp pp"),
        lower: Point3 { x: 0, y: 0, z: 0 },
        upper: Point3 { x: 100, y: 100, z: 100 },
    };
    let mut middle = vec![XYZ::from(Point3 { x: 50, y: 50, z: 50 }, 0)];
    XYZ::get_supercell_coords(&mut middle, &cell, 10);
    assert_eq!(middle, vec![XYZ::from(Point3 { x: 50, y: 50, z: 50 }, 0)]);
    let mut side = vec![
        XYZ::from(Point3 { x: 50, y: 50, z: 50 }, 0),
        XYZ::from(Point3 { x: 5, y: 50, z: 50 }, 1),
    ];
    XYZ::get_supercell_coords(&mut side, &cell, 10);
    assert_eq!(
        side,
        vec![
            XYZ::from(Point3 { x: 50, y: 50, z: 50 }, 0),
            XYZ::from(Point3 { x: 5, y: 50, z: 50 }, 1),
            XYZ::from(Point3 { x: 105, y: 50, z: 50 }, 2),
        ]
    );
    let mut corner = vec![XYZ::from(Point3 { x: 95, y: 50, z: 2 }, 0)];
    XYZ::get_supercell_coords(&mut corner, &cell, 10);
    assert_eq!(
        corner,
        vec![
            XYZ::from(Point3 { x: 95, y: 50, z: 2 }, 0),
            XYZ::from(Point3 { x: -5, y: 50, z: 2 }, 1),
            XYZ::from(Point3 { x: -5, y: 50, z: 102 }, 2),
            XYZ::from(Point3 { x: 95, y: 50, z: 102 }, 3),
        ]
    );
    let mut all = vec![XYZ::from(Point3 { x: 50, y: 50, z: 50 }, 0)];
    XYZ::get_supercell_coords(&mut all, &cell, 60);
    assert_eq!(all.len(), 27);
    assert_eq!(all[1], XYZ::from(Point3 { x: -50, y: -50, z: -50 }, 1));
    assert_eq!(all[26], XYZ::from(Point3 { x: 150, y: 150, z: 150 }, 26));
}
