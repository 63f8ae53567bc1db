use verhoeff::{
    build_group_elements, build_tables, compare_tables, standard_tables, verhoeff_tables,
    Mismatch, TableError, TableName,
};

#[test]
fn build_tables_on_group_matches_standard() {
    let e = build_group_elements();
    let (d, p, inv) = build_tables(&e).expect("the dihedral group is closed");
    let (sd, sp, sinv) = standard_tables();
    assert_eq!(d, sd);
    assert_eq!(p, sp);
    assert_eq!(inv, sinv);
}

#[test]
fn verhoeff_tables_match_standard() {
    let (d, p, inv) = verhoeff_tables();
    let (sd, sp, sinv) = standard_tables();
    assert_eq!(d, sd);
    assert_eq!(p, sp);
    assert_eq!(inv, sinv);
    assert!(compare_tables(&d, &p, &inv).is_empty());
}

#[test]
fn standard_inverse_table() {
    let (_, _, inv) = standard_tables();
    assert_eq!(inv, vec![0, 4, 3, 2, 1, 5, 6, 7, 8, 9]);
}

#[test]
fn every_cell_is_a_label() {
    let (d, p, inv) = verhoeff_tables();
    assert_eq!(d.len(), 10);
    for row in &d {
        assert_eq!(row.len(), 10);
        assert!(row.iter().all(|&v| v < 10));
    }
    assert_eq!(p.len(), 8);
    assert!(p.iter().all(|row| row.iter().all(|&v| v < 10)));
    assert!(inv.iter().all(|&v| v < 10));
}

#[test]
fn label_zero_is_identity() {
    let (d, _, _) = verhoeff_tables();
    for a in 0..10 {
        assert_eq!(d[a][0] as usize, a);
        assert_eq!(d[0][a] as usize, a);
    }
}

#[test]
fn inverse_is_right_and_left_inverse() {
    let (d, _, inv) = verhoeff_tables();
    for a in 0..10 {
        let b = inv[a] as usize;
        assert_eq!(d[a][b], 0);
        assert_eq!(d[b][a], 0);
    }
}

#[test]
fn product_is_associative() {
    let (d, _, _) = verhoeff_tables();
    for a in 0..10 {
        for b in 0..10 {
            for c in 0..10 {
                let ab = d[a][b] as usize;
                let bc = d[b][c] as usize;
                assert_eq!(d[ab][c], d[a][bc]);
            }
        }
    }
}

#[test]
fn rows_and_columns_of_d_are_permutations() {
    let (d, _, _) = verhoeff_tables();
    for a in 0..10 {
        let mut row_seen = [false; 10];
        let mut col_seen = [false; 10];
        for b in 0..10 {
            row_seen[d[a][b] as usize] = true;
            col_seen[d[b][a] as usize] = true;
        }
        assert!(row_seen.iter().all(|&s| s));
        assert!(col_seen.iter().all(|&s| s));
    }
}

#[test]
fn d_is_not_commutative() {
    let (d, _, _) = verhoeff_tables();
    assert_eq!(d[1][5], 6);
    assert_eq!(d[5][1], 9);
}

#[test]
fn schedule_rows_are_permutations() {
    let (_, p, _) = verhoeff_tables();
    for row in &p {
        let mut seen = [false; 10];
        for &v in row.iter() {
            assert!(!seen[v as usize]);
            seen[v as usize] = true;
        }
        assert!(seen.iter().all(|&s| s));
    }
}

#[test]
fn schedule_has_period_eight() {
    let (_, p, _) = verhoeff_tables();
    let sigma = p[1];
    assert_eq!(sigma, [1, 5, 7, 6, 2, 8, 3, 0, 9, 4]);
    let mut next = [0u8; 10];
    for d in 0..10 {
        next[d] = sigma[p[7][d] as usize];
    }
    assert_eq!(next, p[0]);
    assert_eq!(p[0], [0, 1, 2, 3, 4, 5, 6, 7, 8, 9]);
}

#[test]
fn closure_violation_is_reported() {
    let mut e = build_group_elements();
    e[9] = [0, 1, 2, 3, 4];
    assert_eq!(build_tables(&e), Err(TableError::GroupClosureViolation));
}

#[test]
fn missing_inverse_is_reported() {
    let mut e: Vec<[u8; 5]> = vec![[0, 0, 0, 0, 0]; 10];
    e[0] = [0, 1, 2, 3, 4];
    assert_eq!(build_tables(&e), Err(TableError::MissingInverse));
}

#[test]
fn compare_reports_each_differing_cell_in_order() {
    let (mut d, mut p, mut inv) = verhoeff_tables();
    inv[4] = 7;
    p[1][0] = 2;
    d[2][3] = 9;
    d[0][9] = 1;
    let r = compare_tables(&d, &p, &inv);
    assert_eq!(
        r,
        vec![
            Mismatch { table: TableName::D, row: 0, col: 9, got: 1, expected: 9 },
            Mismatch { table: TableName::D, row: 2, col: 3, got: 9, expected: 0 },
            Mismatch { table: TableName::P, row: 1, col: 0, got: 2, expected: 1 },
            Mismatch { table: TableName::Inv, row: 0, col: 4, got: 7, expected: 1 },
        ]
    );
}

#[test]
fn compare_ignores_rewrites_with_the_same_value() {
    let (mut d, mut p, mut inv) = verhoeff_tables();
    d[3][3] = 1;
    p[7][9] = 8;
    inv[1] = 4;
    assert!(compare_tables(&d, &p, &inv).is_empty());
}
