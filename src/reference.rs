//! The published Verhoeff tables, and a cell-by-cell comparison against them.
use vstd::prelude::*;

verus! {

/// The published composition table.
pub open spec fn canonical_d() -> Seq<Seq<u8>> {
    seq![
        seq![0u8, 1, 2, 3, 4, 5, 6, 7, 8, 9],
        seq![1u8, 2, 3, 4, 0, 6, 7, 8, 9, 5],
        seq![2u8, 3, 4, 0, 1, 7, 8, 9, 5, 6],
        seq![3u8, 4, 0, 1, 2, 8, 9, 5, 6, 7],
        seq![4u8, 0, 1, 2, 3, 9, 5, 6, 7, 8],
        seq![5u8, 9, 8, 7, 6, 0, 4, 3, 2, 1],
        seq![6u8, 5, 9, 8, 7, 1, 0, 4, 3, 2],
        seq![7u8, 6, 5, 9, 8, 2, 1, 0, 4, 3],
        seq![8u8, 7, 6, 5, 9, 3, 2, 1, 0, 4],
        seq![9u8, 8, 7, 6, 5, 4, 3, 2, 1, 0],
    ]
}

/// The published permutation schedule.
pub open spec fn canonical_p() -> Seq<Seq<u8>> {
    seq![
        seq![0u8, 1, 2, 3, 4, 5, 6, 7, 8, 9],
        seq![1u8, 5, 7, 6, 2, 8, 3, 0, 9, 4],
        seq![5u8, 8, 0, 3, 7, 9, 6, 1, 4, 2],
        seq![8u8, 9, 1, 6, 0, 4, 3, 5, 2, 7],
        seq![9u8, 4, 5, 3, 1, 2, 6, 8, 7, 0],
        seq![4u8, 2, 8, 6, 5, 7, 3, 9, 0, 1],
        seq![2u8, 7, 9, 3, 8, 0, 6, 4, 1, 5],
        seq![7u8, 0, 4, 6, 9, 1, 3, 2, 5, 8],
    ]
}

/// The published inverse table.
pub open spec fn canonical_inv() -> Seq<u8> {
    seq![0u8, 4, 3, 2, 1, 5, 6, 7, 8, 9]
}

/// The published tables `(D, P, inv)`, written out.
pub fn standard_tables() -> (r: (Vec<Vec<u8>>, Vec<[u8; 10]>, Vec<u8>))
    ensures
        r.0@.len() == 10,
        forall|a: int| 0 <= a < 10 ==> (#[trigger] r.0@[a])@ == canonical_d()[a],
        r.1@.len() == 8,
        forall|k: int| 0 <= k < 8 ==> (#[trigger] r.1@[k])@ == canonical_p()[k],
        r.2@ == canonical_inv(),
{
    let d = vec![
        vec![0u8, 1, 2, 3, 4, 5, 6, 7, 8, 9],
        vec![1u8, 2, 3, 4, 0, 6, 7, 8, 9, 5],
        vec![2u8, 3, 4, 0, 1, 7, 8, 9, 5, 6],
        vec![3u8, 4, 0, 1, 2, 8, 9, 5, 6, 7],
        vec![4u8, 0, 1, 2, 3, 9, 5, 6, 7, 8],
        vec![5u8, 9, 8, 7, 6, 0, 4, 3, 2, 1],
        vec![6u8, 5, 9, 8, 7, 1, 0, 4, 3, 2],
        vec![7u8, 6, 5, 9, 8, 2, 1, 0, 4, 3],
        vec![8u8, 7, 6, 5, 9, 3, 2, 1, 0, 4],
        vec![9u8, 8, 7, 6, 5, 4, 3, 2, 1, 0],
    ];
    let p = vec![
        [0u8, 1, 2, 3, 4, 5, 6, 7, 8, 9],
        [1u8, 5, 7, 6, 2, 8, 3, 0, 9, 4],
        [5u8, 8, 0, 3, 7, 9, 6, 1, 4, 2],
        [8u8, 9, 1, 6, 0, 4, 3, 5, 2, 7],
        [9u8, 4, 5, 3, 1, 2, 6, 8, 7, 0],
        [4u8, 2, 8, 6, 5, 7, 3, 9, 0, 1],
        [2u8, 7, 9, 3, 8, 0, 6, 4, 1, 5],
        [7u8, 0, 4, 6, 9, 1, 3, 2, 5, 8],
    ];
    let inv = vec![0u8, 4, 3, 2, 1, 5, 6, 7, 8, 9];
    assert forall|a: int| 0 <= a < 10 implies (#[trigger] d@[a])@ == canonical_d()[a] by {
        assert(d@[a]@ =~= canonical_d()[a]);
    }
    assert forall|k: int| 0 <= k < 8 implies (#[trigger] p@[k])@ == canonical_p()[k] by {
        assert(p@[k]@ =~= canonical_p()[k]);
    }
    assert(inv@ =~= canonical_inv());
    (d, p, inv)
}

/// Which of the three tables a cell belongs to.
#[derive(Debug, Clone, Copy, PartialEq, Eq, Structural)]
pub enum TableName {
    D,
    P,
    Inv,
}

/// A cell whose value differs from the published one. Cells of `inv` have
/// `row == 0` and their index in `col`.
#[derive(Debug, Clone, Copy, PartialEq, Eq, Structural)]
pub struct Mismatch {
    pub table: TableName,
    pub row: usize,
    pub col: usize,
    pub got: u8,
    pub expected: u8,
}

/// Orders cells by table (`D`, then `P`, then `inv`), then row, then column.
pub open spec fn cell_key(t: TableName, row: int, col: int) -> int {
    let rank: int = match t {
        TableName::D => 0,
        TableName::P => 1,
        TableName::Inv => 2,
    };
    rank * 100 + row * 10 + col
}

pub open spec fn mismatch_key(m: Mismatch) -> int {
    cell_key(m.table, m.row as int, m.col as int)
}

/// `(row, col)` is a cell of table `t`.
pub open spec fn is_cell(t: TableName, row: int, col: int) -> bool {
    match t {
        TableName::D => 0 <= row < 10 && 0 <= col < 10,
        TableName::P => 0 <= row < 8 && 0 <= col < 10,
        TableName::Inv => row == 0 && 0 <= col < 10,
    }
}

/// The value of a cell in the given tables.
pub open spec fn cell_of(
    d: Seq<Vec<u8>>,
    p: Seq<[u8; 10]>,
    inv: Seq<u8>,
    t: TableName,
    row: int,
    col: int,
) -> u8 {
    match t {
        TableName::D => d[row]@[col],
        TableName::P => p[row]@[col],
        TableName::Inv => inv[col],
    }
}

/// The value of a cell in the published tables.
pub open spec fn canonical_cell(t: TableName, row: int, col: int) -> u8 {
    match t {
        TableName::D => canonical_d()[row][col],
        TableName::P => canonical_p()[row][col],
        TableName::Inv => canonical_inv()[col],
    }
}

/// The cell differs from the published one.
pub open spec fn differs(
    d: Seq<Vec<u8>>,
    p: Seq<[u8; 10]>,
    inv: Seq<u8>,
    t: TableName,
    row: int,
    col: int,
) -> bool {
    is_cell(t, row, col) && cell_of(d, p, inv, t, row, col) != canonical_cell(t, row, col)
}

/// `m` reports a differing cell with its value and the published one.
pub open spec fn is_mismatch(d: Seq<Vec<u8>>, p: Seq<[u8; 10]>, inv: Seq<u8>, m: Mismatch) -> bool {
    &&& differs(d, p, inv, m.table, m.row as int, m.col as int)
    &&& m.got == cell_of(d, p, inv, m.table, m.row as int, m.col as int)
    &&& m.expected == canonical_cell(m.table, m.row as int, m.col as int)
}

/// Some entry of `r` is about the cell `(row, col)` of table `t`.
pub open spec fn reports(r: Seq<Mismatch>, t: TableName, row: int, col: int) -> bool {
    exists|i: int|
        0 <= i < r.len() && (#[trigger] r[i]).table == t && r[i].row == row && r[i].col == col
}

/// Entries in strictly increasing cell order.
pub open spec fn is_sorted(r: Seq<Mismatch>) -> bool {
    forall|i: int, j: int| 0 <= i < j < r.len() ==> mismatch_key(#[trigger] r[i]) < mismatch_key(#[trigger] r[j])
}

/// The tables have the shapes of the published ones.
pub open spec fn tables_shaped(d: Seq<Vec<u8>>, p: Seq<[u8; 10]>, inv: Seq<u8>) -> bool {
    &&& d.len() == 10
    &&& forall|a: int| 0 <= a < 10 ==> (#[trigger] d[a])@.len() == 10
    &&& p.len() == 8
    &&& inv.len() == 10
}

/// The mismatches of one table, in order, whatever `d`, `p` and `inv` hold elsewhere.
pub open spec fn lists_mismatches_of(
    d: Seq<Vec<u8>>,
    p: Seq<[u8; 10]>,
    inv: Seq<u8>,
    t: TableName,
    r: Seq<Mismatch>,
) -> bool {
    &&& forall|i: int| 0 <= i < r.len() ==> (#[trigger] r[i]).table == t && is_mismatch(d, p, inv, r[i])
    &&& is_sorted(r)
    &&& forall|row: int, col: int| #[trigger] differs(d, p, inv, t, row, col) ==> reports(r, t, row, col)
}

fn compare_d(
    d: &Vec<Vec<u8>>,
    p: &Vec<[u8; 10]>,
    inv: &Vec<u8>,
    std_d: &Vec<Vec<u8>>,
) -> (r: Vec<Mismatch>)
    requires
        tables_shaped(d@, p@, inv@),
        std_d@.len() == 10,
        forall|a: int| 0 <= a < 10 ==> (#[trigger] std_d@[a])@ == canonical_d()[a],
    ensures
        lists_mismatches_of(d@, p@, inv@, TableName::D, r@),
{
    let ghost (dv, pv, iv) = (d@, p@, inv@);
    let mut r: Vec<Mismatch> = Vec::new();
    for a in 0..10usize
        invariant
            tables_shaped(dv, pv, iv),
            dv == d@,
            std_d@.len() == 10,
            forall|i: int| 0 <= i < 10 ==> (#[trigger] std_d@[i])@ == canonical_d()[i],
            forall|i: int| 0 <= i < r@.len() ==> (#[trigger] r@[i]).table == TableName::D
                && is_mismatch(dv, pv, iv, r@[i]),
            forall|i: int| 0 <= i < r@.len() ==> mismatch_key(#[trigger] r@[i]) < cell_key(TableName::D, a as int, 0),
            is_sorted(r@),
            forall|row: int, col: int| row < a && #[trigger] differs(dv, pv, iv, TableName::D, row, col)
                ==> reports(r@, TableName::D, row, col),
    {
        for b in 0..10usize
            invariant
                0 <= a < 10,
                tables_shaped(dv, pv, iv),
                dv == d@,
                std_d@.len() == 10,
                forall|i: int| 0 <= i < 10 ==> (#[trigger] std_d@[i])@ == canonical_d()[i],
                forall|i: int| 0 <= i < r@.len() ==> (#[trigger] r@[i]).table == TableName::D
                    && is_mismatch(dv, pv, iv, r@[i]),
                forall|i: int| 0 <= i < r@.len() ==> mismatch_key(#[trigger] r@[i]) < cell_key(TableName::D, a as int, b as int),
                is_sorted(r@),
                forall|row: int, col: int| (row < a || (row == a && col < b)) && #[trigger] differs(dv, pv, iv, TableName::D, row, col)
                    ==> reports(r@, TableName::D, row, col),
        {
            let got = d[a][b];
            let expected = std_d[a][b];
            if got != expected {
                let m = Mismatch { table: TableName::D, row: a, col: b, got, expected };
                let ghost old_r = r@;
                r.push(m);
                proof {
                    assert forall|row: int, col: int| (row < a || (row == a && col < b + 1)) && #[trigger] differs(dv, pv, iv, TableName::D, row, col)
                        implies reports(r@, TableName::D, row, col) by {
                        if row == a && col == b {
                            assert(r@[old_r.len() as int] == m);
                        } else {
                            let i = choose|i: int| 0 <= i < old_r.len() && (#[trigger] old_r[i]).table == TableName::D && old_r[i].row == row && old_r[i].col == col;
                            assert(r@[i] == old_r[i]);
                        }
                    }
                }
            }
        }
    }
    r
}

fn compare_p(
    d: &Vec<Vec<u8>>,
    p: &Vec<[u8; 10]>,
    inv: &Vec<u8>,
    std_p: &Vec<[u8; 10]>,
) -> (r: Vec<Mismatch>)
    requires
        tables_shaped(d@, p@, inv@),
        std_p@.len() == 8,
        forall|k: int| 0 <= k < 8 ==> (#[trigger] std_p@[k])@ == canonical_p()[k],
    ensures
        lists_mismatches_of(d@, p@, inv@, TableName::P, r@),
{
    let ghost (dv, pv, iv) = (d@, p@, inv@);
    let mut r: Vec<Mismatch> = Vec::new();
    for a in 0..8usize
        invariant
            tables_shaped(dv, pv, iv),
            pv == p@,
            std_p@.len() == 8,
            forall|i: int| 0 <= i < 8 ==> (#[trigger] std_p@[i])@ == canonical_p()[i],
            forall|i: int| 0 <= i < r@.len() ==> (#[trigger] r@[i]).table == TableName::P
                && is_mismatch(dv, pv, iv, r@[i]),
            forall|i: int| 0 <= i < r@.len() ==> mismatch_key(#[trigger] r@[i]) < cell_key(TableName::P, a as int, 0),
            is_sorted(r@),
            forall|row: int, col: int| row < a && #[trigger] differs(dv, pv, iv, TableName::P, row, col)
                ==> reports(r@, TableName::P, row, col),
    {
        for b in 0..10usize
            invariant
                0 <= a < 8,
                tables_shaped(dv, pv, iv),
                pv == p@,
                std_p@.len() == 8,
                forall|i: int| 0 <= i < 8 ==> (#[trigger] std_p@[i])@ == canonical_p()[i],
                forall|i: int| 0 <= i < r@.len() ==> (#[trigger] r@[i]).table == TableName::P
                    && is_mismatch(dv, pv, iv, r@[i]),
                forall|i: int| 0 <= i < r@.len() ==> mismatch_key(#[trigger] r@[i]) < cell_key(TableName::P, a as int, b as int),
                is_sorted(r@),
                forall|row: int, col: int| (row < a || (row == a && col < b)) && #[trigger] differs(dv, pv, iv, TableName::P, row, col)
                    ==> reports(r@, TableName::P, row, col),
        {
            let got = p[a][b];
            let expected = std_p[a][b];
            if got != expected {
                let m = Mismatch { table: TableName::P, row: a, col: b, got, expected };
                let ghost old_r = r@;
                r.push(m);
                proof {
                    assert forall|row: int, col: int| (row < a || (row == a && col < b + 1)) && #[trigger] differs(dv, pv, iv, TableName::P, row, col)
                        implies reports(r@, TableName::P, row, col) by {
                        if row == a && col == b {
                            assert(r@[old_r.len() as int] == m);
                        } else {
                            let i = choose|i: int| 0 <= i < old_r.len() && (#[trigger] old_r[i]).table == TableName::P && old_r[i].row == row && old_r[i].col == col;
                            assert(r@[i] == old_r[i]);
                        }
                    }
                }
            }
        }
    }
    r
}

fn compare_inv(
    d: &Vec<Vec<u8>>,
    p: &Vec<[u8; 10]>,
    inv: &Vec<u8>,
    std_inv: &Vec<u8>,
) -> (r: Vec<Mismatch>)
    requires
        tables_shaped(d@, p@, inv@),
        std_inv@ == canonical_inv(),
    ensures
        lists_mismatches_of(d@, p@, inv@, TableName::Inv, r@),
{
    let ghost (dv, pv, iv) = (d@, p@, inv@);
    let mut r: Vec<Mismatch> = Vec::new();
    for b in 0..10usize
        invariant
            tables_shaped(dv, pv, iv),
            iv == inv@,
            std_inv@ == canonical_inv(),
            forall|i: int| 0 <= i < r@.len() ==> (#[trigger] r@[i]).table == TableName::Inv
                && is_mismatch(dv, pv, iv, r@[i]),
            forall|i: int| 0 <= i < r@.len() ==> mismatch_key(#[trigger] r@[i]) < cell_key(TableName::Inv, 0, b as int),
            is_sorted(r@),
            forall|row: int, col: int| col < b && #[trigger] differs(dv, pv, iv, TableName::Inv, row, col)
                ==> reports(r@, TableName::Inv, row, col),
    {
        let got = inv[b];
        let expected = std_inv[b];
        if got != expected {
            let m = Mismatch { table: TableName::Inv, row: 0, col: b, got, expected };
            let ghost old_r = r@;
            r.push(m);
            proof {
                assert forall|row: int, col: int| col < b + 1 && #[trigger] differs(dv, pv, iv, TableName::Inv, row, col)
                    implies reports(r@, TableName::Inv, row, col) by {
                    if col == b {
                        assert(r@[old_r.len() as int] == m);
                    } else {
                        let i = choose|i: int| 0 <= i < old_r.len() && (#[trigger] old_r[i]).table == TableName::Inv && old_r[i].row == row && old_r[i].col == col;
                        assert(r@[i] == old_r[i]);
                    }
                }
            }
        }
    }
    r
}

/// Every cell of `d`, `p` and `inv` that differs from the published tables,
/// in order of table (`D`, `P`, `inv`), row and column; empty exactly when
/// all three tables match.
pub fn compare_tables(d: &Vec<Vec<u8>>, p: &Vec<[u8; 10]>, inv: &Vec<u8>) -> (r: Vec<Mismatch>)
    requires
        tables_shaped(d@, p@, inv@),
    ensures
        forall|i: int| 0 <= i < r@.len() ==> is_mismatch(d@, p@, inv@, #[trigger] r@[i]),
        is_sorted(r@),
        forall|t: TableName, row: int, col: int| #[trigger] differs(d@, p@, inv@, t, row, col)
            ==> reports(r@, t, row, col),
        (r@.len() == 0) == (forall|t: TableName, row: int, col: int| !#[trigger] differs(d@, p@, inv@, t, row, col)),
{
    let (std_d, std_p, std_inv) = standard_tables();
    let mut r = compare_d(d, p, inv, &std_d);
    let mut rp = compare_p(d, p, inv, &std_p);
    let mut ri = compare_inv(d, p, inv, &std_inv);
    let ghost (r0, r1, r2) = (r@, rp@, ri@);
    r.append(&mut rp);
    r.append(&mut ri);
    proof {
        let (dv, pv, iv) = (d@, p@, inv@);
        assert(r@ == r0 + r1 + r2);
        let n0 = r0.len() as int;
        let n1 = r1.len() as int;
        assert forall|i: int| 0 <= i < r@.len() implies is_mismatch(dv, pv, iv, #[trigger] r@[i]) by {
            if i < n0 {
                assert(r@[i] == r0[i]);
            } else if i < n0 + n1 {
                assert(r@[i] == r1[i - n0]);
            } else {
                assert(r@[i] == r2[i - n0 - n1]);
            }
        }
        assert forall|i: int| 0 <= i < r@.len() implies ({
            let t = (#[trigger] r@[i]).table;
            &&& t == TableName::D ==> i < n0
            &&& t == TableName::P ==> n0 <= i < n0 + n1
            &&& t == TableName::Inv ==> n0 + n1 <= i
        }) by {
            if i < n0 {
                assert(r@[i] == r0[i]);
            } else if i < n0 + n1 {
                assert(r@[i] == r1[i - n0]);
            } else {
                assert(r@[i] == r2[i - n0 - n1]);
            }
        }
        assert forall|i: int, j: int| 0 <= i < j < r@.len() implies mismatch_key(#[trigger] r@[i])
            < mismatch_key(#[trigger] r@[j]) by {
            if j < n0 {
                assert(r@[i] == r0[i] && r@[j] == r0[j]);
            } else if n0 <= i && j < n0 + n1 {
                assert(r@[i] == r1[i - n0] && r@[j] == r1[j - n0]);
            } else if n0 + n1 <= i {
                assert(r@[i] == r2[i - n0 - n1] && r@[j] == r2[j - n0 - n1]);
            }
        }
        assert forall|t: TableName, row: int, col: int| #[trigger] differs(dv, pv, iv, t, row, col)
            implies reports(r@, t, row, col) by {
            match t {
                TableName::D => {
                    let k = choose|k: int| 0 <= k < r0.len() && (#[trigger] r0[k]).table == t && r0[k].row == row && r0[k].col == col;
                    assert(r@[k] == r0[k]);
                },
                TableName::P => {
                    let k = choose|k: int| 0 <= k < r1.len() && (#[trigger] r1[k]).table == t && r1[k].row == row && r1[k].col == col;
                    assert(r@[n0 + k] == r1[k]);
                },
                TableName::Inv => {
                    let k = choose|k: int| 0 <= k < r2.len() && (#[trigger] r2[k]).table == t && r2[k].row == row && r2[k].col == col;
                    assert(r@[n0 + n1 + k] == r2[k]);
                },
            }
        }
        if r@.len() != 0 {
            let m = r@[0];
            assert(is_mismatch(dv, pv, iv, m));
            assert(differs(dv, pv, iv, m.table, m.row as int, m.col as int));
        }
    }
    r
}

} // verus!
