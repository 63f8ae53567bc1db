//! What holds of the derived tables, and of checksums computed with them.
use vstd::prelude::*;
use crate::checksum::{
    checksum, digit_char, digit_value, digits_of, fold_digits, is_ascii_digit, step, tables_wf,
};
use crate::group::{dihedral_elements, dihedral_product, has_label, lemma_closed_product};
use crate::perm::compose_spec;
use crate::reference::{canonical_d, canonical_inv, canonical_p};
use crate::tables::{
    dihedral_inverse, identity10, is_schedule, is_verhoeff_d, is_verhoeff_inv,
    lemma_derived_tables_wf, lemma_dihedral_labels, lemma_schedule_row_digits, schedule_row, sigma,
    sigma_after,
};

verus! {

/// The inverse of `sigma`.
pub open spec fn sigma_inverse() -> Seq<u8> {
    seq![7u8, 0, 4, 6, 9, 1, 3, 2, 5, 8]
}

proof fn lemma_sigma_bijective(x: int)
    requires
        0 <= x < 10,
    ensures
        sigma()[x] < 10,
        sigma_inverse()[x] < 10,
        sigma_inverse()[sigma()[x] as int] == x,
        sigma()[sigma_inverse()[x] as int] == x,
{
}

/// The product of the derived group is associative.
pub proof fn lemma_product_assoc(a: int, b: int, c: int)
    requires
        0 <= a < 10,
        0 <= b < 10,
        0 <= c < 10,
    ensures
        dihedral_product(dihedral_product(a, b), c) == dihedral_product(a, dihedral_product(b, c)),
{
}

/// Every composite of two labelled elements is one of the ten elements, and
/// its label, `D[a][b]`, lies in `0..10`: deriving `D` never fails.
pub proof fn lemma_group_closure(d: Seq<Vec<u8>>, a: int, b: int)
    requires
        is_verhoeff_d(d),
        0 <= a < 10,
        0 <= b < 10,
    ensures
        has_label(dihedral_elements(), compose_spec(dihedral_elements()[a], dihedral_elements()[b])),
        0 <= d[a]@[b] < 10,
{
    lemma_dihedral_labels(a, b);
    lemma_closed_product(a, b);
}

/// Label 0 is the identity: `D[a][0] == a` and `D[0][a] == a`.
pub proof fn lemma_identity_row_column(d: Seq<Vec<u8>>, a: int)
    requires
        is_verhoeff_d(d),
        0 <= a < 10,
    ensures
        d[a]@[0] == a,
        d[0]@[a] == a,
{
}

/// `inv[a]` is a right inverse of `a`: `D[a][inv[a]] == 0`.
pub proof fn lemma_right_inverse(d: Seq<Vec<u8>>, inv: Seq<u8>, a: int)
    requires
        is_verhoeff_d(d),
        is_verhoeff_inv(inv),
        0 <= a < 10,
    ensures
        0 <= inv[a] < 10,
        d[a]@[inv[a] as int] == 0,
{
}

/// The digit that row `k` of the schedule sends to `v`.
pub open spec fn schedule_preimage(k: nat, v: int) -> int
    decreases k,
{
    if k == 0 {
        v
    } else {
        schedule_preimage((k - 1) as nat, sigma_inverse()[v] as int)
    }
}

proof fn lemma_schedule_row_bijective(k: nat)
    ensures
        forall|v: int| 0 <= v < 10 ==> {
            let x = #[trigger] schedule_preimage(k, v);
            0 <= x < 10 && schedule_row(k)[x] == v
        },
        forall|x: int, y: int|
            0 <= x < 10 && 0 <= y < 10 && #[trigger] schedule_row(k)[x] == #[trigger] schedule_row(k)[y]
                ==> x == y,
    decreases k,
{
    lemma_schedule_row_digits(k);
    if k > 0 {
        let k1 = (k - 1) as nat;
        lemma_schedule_row_bijective(k1);
        lemma_schedule_row_digits(k1);
        let prev = schedule_row(k1);
        assert forall|v: int| 0 <= v < 10 implies {
            let x = #[trigger] schedule_preimage(k, v);
            0 <= x < 10 && schedule_row(k)[x] == v
        } by {
            lemma_sigma_bijective(v);
            let w = sigma_inverse()[v] as int;
            assert(schedule_preimage(k, v) == schedule_preimage(k1, w));
        }
        assert forall|x: int, y: int|
            0 <= x < 10 && 0 <= y < 10 && #[trigger] schedule_row(k)[x] == #[trigger] schedule_row(k)[y]
            implies x == y by {
            lemma_sigma_bijective(prev[x] as int);
            lemma_sigma_bijective(prev[y] as int);
        }
    }
}

/// Each row of the schedule is a permutation of the digits: its entries are
/// digits, no two equal, and every digit `v` occurs, at `schedule_preimage(k, v)`.
pub proof fn lemma_schedule_row_is_permutation(p: Seq<[u8; 10]>, k: int)
    requires
        is_schedule(p),
        0 <= k < 8,
    ensures
        forall|x: int| 0 <= x < 10 ==> #[trigger] p[k]@[x] < 10,
        forall|x: int, y: int|
            0 <= x < 10 && 0 <= y < 10 && #[trigger] p[k]@[x] == #[trigger] p[k]@[y] ==> x == y,
        forall|v: int| 0 <= v < 10 ==> {
            let x = #[trigger] schedule_preimage(k as nat, v);
            0 <= x < 10 && p[k]@[x] == v
        },
{
    lemma_schedule_row_digits(k as nat);
    lemma_schedule_row_bijective(k as nat);
}

/// The rows of the schedule, and the ninth row that would follow them.
proof fn lemma_schedule_rows_canonical()
    ensures
        forall|k: int| 0 <= k < 8 ==> #[trigger] schedule_row(k as nat) == canonical_p()[k],
        schedule_row(8) == identity10(),
{
    let c = canonical_p();
    assert(schedule_row(0) =~= c[0]);
    assert(schedule_row(1) =~= c[1]);
    assert(schedule_row(2) =~= c[2]);
    assert(schedule_row(3) =~= c[3]);
    assert(schedule_row(4) =~= c[4]);
    assert(schedule_row(5) =~= c[5]);
    assert(schedule_row(6) =~= c[6]);
    assert(schedule_row(7) =~= c[7]);
    assert(schedule_row(8) =~= identity10());
    assert forall|k: int| 0 <= k < 8 implies #[trigger] schedule_row(k as nat) == canonical_p()[k] by {
        assert(k == 0 || k == 1 || k == 2 || k == 3 || k == 4 || k == 5 || k == 6 || k == 7);
    }
}

/// The schedule has period eight: applying `sigma` to row 7 gives row 0 again.
pub proof fn lemma_schedule_period(p: Seq<[u8; 10]>)
    requires
        is_schedule(p),
    ensures
        sigma_after(p[7]@) == p[0]@,
{
    lemma_schedule_rows_canonical();
    assert(schedule_row(8) == sigma_after(schedule_row(7)));
}

/// The derived tables are the published ones, cell for cell.
pub proof fn lemma_derived_tables_are_canonical(d: Seq<Vec<u8>>, p: Seq<[u8; 10]>, inv: Seq<u8>)
    requires
        is_verhoeff_d(d),
        is_schedule(p),
        is_verhoeff_inv(inv),
    ensures
        forall|a: int, b: int| 0 <= a < 10 && 0 <= b < 10 ==> #[trigger] d[a]@[b] == canonical_d()[a][b],
        forall|k: int, x: int| 0 <= k < 8 && 0 <= x < 10 ==> #[trigger] p[k]@[x] == canonical_p()[k][x],
        inv == canonical_inv(),
{
    lemma_schedule_rows_canonical();
    assert forall|k: int, x: int| 0 <= k < 8 && 0 <= x < 10 implies #[trigger] p[k]@[x] == canonical_p()[k][x] by {
        assert(p[k]@ == schedule_row(k as nat));
    }
    assert forall|a: int, b: int| 0 <= a < 10 && 0 <= b < 10 implies #[trigger] d[a]@[b] == canonical_d()[a][b] by {
    }
    assert(inv =~= canonical_inv());
}

proof fn lemma_digits_of_are_digits(s: Seq<char>)
    ensures
        forall|i: int| 0 <= i < digits_of(s).len() ==> #[trigger] digits_of(s)[i] < 10,
    decreases s.len(),
{
    if s.len() > 0 {
        lemma_digits_of_are_digits(s.drop_last());
        let c = s.last();
        let prev = digits_of(s.drop_last());
        if is_ascii_digit(c) {
            assert(48 <= c as u32 <= 57);
            assert(digit_value(c) < 10);
            assert(digits_of(s) == prev.push(digit_value(c)));
            assert forall|i: int| 0 <= i < digits_of(s).len() implies #[trigger] digits_of(s)[i] < 10 by {
                if i < prev.len() {
                    assert(digits_of(s)[i] == prev[i]);
                }
            }
        } else {
            assert(digits_of(s) == prev);
        }
    }
}

proof fn lemma_digits_of_push_digit(s: Seq<char>, c: int)
    requires
        0 <= c < 10,
    ensures
        digits_of(s.push(digit_char(c))) == digits_of(s).push(c as u8),
{
    let t = s.push(digit_char(c));
    assert(t.drop_last() =~= s);
    assert(is_ascii_digit(digit_char(c)));
    assert(digit_value(digit_char(c)) == c);
}

proof fn lemma_fold_in_range(d: Seq<Vec<u8>>, p: Seq<[u8; 10]>, c: int, ds: Seq<u8>, pos: int)
    requires
        tables_wf(d, p),
        0 <= c < 10,
        pos >= 0,
        forall|i: int| 0 <= i < ds.len() ==> #[trigger] ds[i] < 10,
    ensures
        0 <= fold_digits(d, p, c, ds, pos) < 10,
    decreases ds.len(),
{
    if ds.len() > 0 {
        let last = ds.last();
        assert(p[pos % 8]@[last as int] < 10);
        lemma_fold_in_range(d, p, step(d, p, c, pos, last), ds.drop_last(), pos + 1);
    }
}

/// Folding from `x` is folding from 0, then taking the product with `x` in front.
proof fn lemma_fold_shift(d: Seq<Vec<u8>>, p: Seq<[u8; 10]>, x: int, ds: Seq<u8>, pos: int)
    requires
        is_verhoeff_d(d),
        tables_wf(d, p),
        0 <= x < 10,
        pos >= 0,
        forall|i: int| 0 <= i < ds.len() ==> #[trigger] ds[i] < 10,
    ensures
        fold_digits(d, p, x, ds, pos) == dihedral_product(x, fold_digits(d, p, 0, ds, pos)),
    decreases ds.len(),
{
    if ds.len() == 0 {
    } else {
        let last = ds.last();
        let rest = ds.drop_last();
        let pv = p[pos % 8]@[last as int] as int;
        assert(0 <= pv < 10);
        let f = fold_digits(d, p, 0, rest, pos + 1);
        lemma_fold_in_range(d, p, 0, rest, pos + 1);
        assert(step(d, p, x, pos, last) == dihedral_product(x, pv));
        assert(step(d, p, 0, pos, last) == pv);
        lemma_fold_shift(d, p, dihedral_product(x, pv), rest, pos + 1);
        lemma_fold_shift(d, p, pv, rest, pos + 1);
        lemma_product_assoc(x, pv, f);
        lemma_closed_product(x, pv);
    }
}

proof fn lemma_digits_of_concat(a: Seq<char>, b: Seq<char>)
    ensures
        digits_of(a + b) == digits_of(a) + digits_of(b),
    decreases b.len(),
{
    if b.len() == 0 {
        assert(a + b =~= a);
        assert(digits_of(a) + digits_of(b) =~= digits_of(a));
    } else {
        lemma_digits_of_concat(a, b.drop_last());
        assert((a + b).drop_last() =~= a + b.drop_last());
        assert((a + b).last() == b.last());
        if is_ascii_digit(b.last()) {
            assert(digits_of(a) + digits_of(b) =~= (digits_of(a) + digits_of(b.drop_last())).push(
                digit_value(b.last()),
            ));
        }
    }
}

/// A character that is not an ASCII digit changes nothing, wherever it stands:
/// both checksums of the string are those of the string without it.
pub proof fn lemma_non_digits_ignored(
    d: Seq<Vec<u8>>,
    p: Seq<[u8; 10]>,
    before: Seq<char>,
    c: char,
    after: Seq<char>,
)
    requires
        !is_ascii_digit(c),
    ensures
        digits_of(before.push(c) + after) == digits_of(before + after),
        checksum(d, p, before.push(c) + after, 0) == checksum(d, p, before + after, 0),
        checksum(d, p, before.push(c) + after, 1) == checksum(d, p, before + after, 1),
{
    lemma_digits_of_concat(before.push(c), after);
    lemma_digits_of_concat(before, after);
    assert(before.push(c).drop_last() =~= before);
}

/// Appending the generated check digit to any string makes it valid.
pub proof fn lemma_check_digit_round_trip(
    d: Seq<Vec<u8>>,
    p: Seq<[u8; 10]>,
    inv: Seq<u8>,
    s: Seq<char>,
)
    requires
        is_verhoeff_d(d),
        is_schedule(p),
        is_verhoeff_inv(inv),
    ensures
        checksum(d, p, s.push(digit_char(inv[checksum(d, p, s, 1)] as int)), 0) == 0,
{
    lemma_derived_tables_wf(d, p);
    let ds = digits_of(s);
    lemma_digits_of_are_digits(s);
    lemma_fold_in_range(d, p, 0, ds, 1);
    let big_c = fold_digits(d, p, 0, ds, 1);
    let c = inv[big_c] as int;
    assert(c == dihedral_inverse(big_c));
    lemma_digits_of_push_digit(s, c);
    let t = ds.push(c as u8);
    assert(t.drop_last() =~= ds);
    assert(p[0]@ == identity10());
    assert(step(d, p, 0, 0, c as u8) == c);
    assert(fold_digits(d, p, 0, t, 0) == fold_digits(d, p, c, ds, 1));
    lemma_fold_shift(d, p, c, ds, 1);
}

} // verus!
