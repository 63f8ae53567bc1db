//! The three Verhoeff tables: the composition table `D`, the inverse table
//! `inv`, and the digit permutation schedule `P`.
use vstd::prelude::*;
use crate::group::{
    build_group_elements, dihedral_elements, dihedral_product, find_label,
    has_label, is_label_of, lemma_closed_distinct, lemma_closed_product,
    lemma_dihedral_element_closed, perm_views, sub5,
};
use crate::checksum::tables_wf;
use crate::perm::{compose, compose_spec, is_map5};

verus! {

/// Why the tables could not be derived from a list of group elements.
#[derive(Debug, Clone, Copy, PartialEq, Eq, Structural)]
pub enum TableError {
    /// Some composite of two elements is not among the elements.
    GroupClosureViolation,
    /// Some element has no element that composes with it to label 0.
    MissingInverse,
}

/// Every composite of two of the ten elements is itself among them.
pub open spec fn is_closed(elems: Seq<Seq<u8>>) -> bool {
    forall|a: int, b: int|
        0 <= a < 10 && 0 <= b < 10 ==> has_label(elems, #[trigger] compose_spec(elems[a], elems[b]))
}

/// Some element composed after element `a` gives the element labelled 0.
pub open spec fn has_right_inverse(elems: Seq<Seq<u8>>, a: int) -> bool {
    exists|b: int| 0 <= b < 10 && elems[0] == #[trigger] compose_spec(elems[a], elems[b])
}

/// `d` is the 10 x 10 table whose cell `(a, b)` labels "element `a`, then element `b`".
pub open spec fn is_composition_table(elems: Seq<Seq<u8>>, d: Seq<Vec<u8>>) -> bool {
    &&& d.len() == 10
    &&& forall|a: int| 0 <= a < 10 ==> (#[trigger] d[a])@.len() == 10
    &&& forall|a: int, b: int|
        0 <= a < 10 && 0 <= b < 10 ==> is_label_of(
            elems,
            compose_spec(elems[a], elems[b]),
            #[trigger] d[a]@[b] as int,
        )
}

/// `inv[a]` is the first `b` with `d[a][b] == 0`, for each of the ten labels.
pub open spec fn is_inverse_table(d: Seq<Vec<u8>>, inv: Seq<u8>) -> bool {
    &&& inv.len() == 10
    &&& forall|a: int| 0 <= a < 10 ==> #[trigger] inv[a] < 10
    &&& forall|a: int| 0 <= a < 10 ==> d[a]@[#[trigger] inv[a] as int] == 0
    &&& forall|a: int, b: int| 0 <= a < 10 && 0 <= b < inv[a] ==> #[trigger] d[a]@[b] != 0
}

/// The base digit permutation of the schedule, `sigma(d) == sigma()[d]`.
pub open spec fn sigma() -> Seq<u8> {
    seq![1u8, 5, 7, 6, 2, 8, 3, 0, 9, 4]
}

/// The identity permutation of the ten digits.
pub open spec fn identity10() -> Seq<u8> {
    seq![0u8, 1, 2, 3, 4, 5, 6, 7, 8, 9]
}

/// `sigma` applied to each entry of `row`.
pub open spec fn sigma_after(row: Seq<u8>) -> Seq<u8> {
    Seq::new(10, |d: int| sigma()[row[d] as int])
}

/// Row `k` of the schedule: the identity with `sigma` applied `k` times.
pub open spec fn schedule_row(k: nat) -> Seq<u8>
    decreases k,
{
    if k == 0 {
        identity10()
    } else {
        sigma_after(schedule_row((k - 1) as nat))
    }
}

/// `p` holds rows `0..8` of the schedule.
pub open spec fn is_schedule(p: Seq<[u8; 10]>) -> bool {
    &&& p.len() == 8
    &&& forall|k: int| 0 <= k < 8 ==> (#[trigger] p[k])@ == schedule_row(k as nat)
}

/// Ten entries, each a digit.
pub open spec fn is_digit_row(row: Seq<u8>) -> bool {
    row.len() == 10 && forall|d: int| 0 <= d < 10 ==> #[trigger] row[d] < 10
}

/// Every row of the schedule holds ten digits.
pub proof fn lemma_schedule_row_digits(k: nat)
    ensures
        is_digit_row(schedule_row(k)),
    decreases k,
{
    if k > 0 {
        lemma_schedule_row_digits((k - 1) as nat);
        let prev = schedule_row((k - 1) as nat);
        assert forall|d: int| 0 <= d < 10 implies #[trigger] schedule_row(k)[d] < 10 by {
            assert(prev[d] < 10);
        }
    }
}

/// The derived composition table: `D[a][b]` is `dihedral_product(a, b)`.
pub open spec fn is_verhoeff_d(d: Seq<Vec<u8>>) -> bool {
    &&& d.len() == 10
    &&& forall|a: int| 0 <= a < 10 ==> (#[trigger] d[a])@.len() == 10
    &&& forall|a: int, b: int| 0 <= a < 10 && 0 <= b < 10 ==> #[trigger] d[a]@[b] == dihedral_product(a, b)
}

/// The inverse of label `a`: rotations invert to the opposite rotation,
/// reflections to themselves.
pub open spec fn dihedral_inverse(a: int) -> int {
    if a < 5 {
        sub5(0, a)
    } else {
        a
    }
}

/// The derived inverse table.
pub open spec fn is_verhoeff_inv(inv: Seq<u8>) -> bool {
    &&& inv.len() == 10
    &&& forall|a: int| 0 <= a < 10 ==> #[trigger] inv[a] == dihedral_inverse(a)
}

/// The dihedral elements are closed under composition, the composite of
/// `a` and `b` is labelled `dihedral_product(a, b)`, and label 0 comes out
/// exactly when `b` is `dihedral_inverse(a)`.
pub proof fn lemma_dihedral_labels(a: int, b: int)
    requires
        0 <= a < 10,
        0 <= b < 10,
    ensures
        is_label_of(
            dihedral_elements(),
            compose_spec(dihedral_elements()[a], dihedral_elements()[b]),
            dihedral_product(a, b),
        ),
        (dihedral_product(a, b) == 0) == (b == dihedral_inverse(a)),
{
    let e = dihedral_elements();
    lemma_dihedral_element_closed(a);
    lemma_dihedral_element_closed(b);
    lemma_closed_product(a, b);
    let l = dihedral_product(a, b);
    lemma_dihedral_element_closed(l);
    assert forall|j: int| 0 <= j < l implies e[j] != compose_spec(e[a], e[b]) by {
        lemma_dihedral_element_closed(j);
        if e[j] == compose_spec(e[a], e[b]) {
            lemma_closed_distinct(j, l);
        }
    }
}

/// The derived tables are fit for the checksum functions.
pub proof fn lemma_derived_tables_wf(d: Seq<Vec<u8>>, p: Seq<[u8; 10]>)
    requires
        is_verhoeff_d(d),
        is_schedule(p),
    ensures
        tables_wf(d, p),
{
    assert forall|a: int, b: int| 0 <= a < 10 && 0 <= b < 10 implies #[trigger] d[a]@[b] < 10 by {
        lemma_closed_product(a, b);
    }
    assert forall|k: int, x: int| 0 <= k < 8 && 0 <= x < 10 implies #[trigger] p[k]@[x] < 10 by {
        lemma_schedule_row_digits(k as nat);
    }
}

/// The composition table: cell `(a, b)` is the first position of "element
/// `a`, then element `b`" among the elements, or the closure error.
fn composition_rows(elements: &Vec<[u8; 5]>) -> (r: Result<Vec<Vec<u8>>, TableError>)
    requires
        elements@.len() == 10,
        forall|i: int| 0 <= i < 10 ==> is_map5(#[trigger] elements@[i]@),
    ensures
        match r {
            Ok(d) => is_closed(perm_views(elements@)) && is_composition_table(
                perm_views(elements@),
                d@,
            ),
            Err(e) => e == TableError::GroupClosureViolation && !is_closed(perm_views(elements@)),
        },
{
    let ghost elems = perm_views(elements@);
    let n = elements.len();
    let mut d: Vec<Vec<u8>> = Vec::with_capacity(n);
    for a in 0..n
        invariant
            n == 10,
            elements@.len() == 10,
            elems == perm_views(elements@),
            forall|i: int| 0 <= i < 10 ==> is_map5(#[trigger] elements@[i]@),
            d@.len() == a,
            forall|i: int| 0 <= i < a ==> (#[trigger] d@[i])@.len() == 10,
            forall|i: int, b: int|
                0 <= i < a && 0 <= b < 10 ==> is_label_of(
                    elems,
                    compose_spec(elems[i], elems[b]),
                    #[trigger] d@[i]@[b] as int,
                ),
    {
        let mut row: Vec<u8> = Vec::with_capacity(n);
        for b in 0..n
            invariant
                n == 10,
                0 <= a < 10,
                elements@.len() == 10,
                elems == perm_views(elements@),
                forall|i: int| 0 <= i < 10 ==> is_map5(#[trigger] elements@[i]@),
                row@.len() == b,
                forall|j: int|
                    0 <= j < b ==> is_label_of(
                        elems,
                        compose_spec(elems[a as int], elems[j]),
                        #[trigger] row@[j] as int,
                    ),
        {
            let comp = compose(&elements[a], &elements[b]);
            match find_label(&comp, elements) {
                Some(lab) => {
                    row.push(lab as u8);
                },
                None => {
                    proof {
                        let c = compose_spec(elems[a as int], elems[b as int]);
                        assert(c == comp@);
                        assert(!has_label(elems, c));
                    }
                    return Err(TableError::GroupClosureViolation);
                },
            }
        }
        d.push(row);
    }
    proof {
        assert forall|a: int, b: int| 0 <= a < 10 && 0 <= b < 10 implies has_label(
            elems,
            #[trigger] compose_spec(elems[a], elems[b]),
        ) by {
            assert(is_label_of(elems, compose_spec(elems[a], elems[b]), d@[a]@[b] as int));
        }
    }
    Ok(d)
}

/// Derives `D`, `inv` and `P`. `D` labels each composite of two elements by
/// its first position among them; `inv[a]` is the first `b` with
/// `D[a][b] == 0`; `P` starts at the identity and applies `sigma` once per row.
pub fn build_tables(elements: &Vec<[u8; 5]>) -> (r: Result<
    (Vec<Vec<u8>>, Vec<[u8; 10]>, Vec<u8>),
    TableError,
>)
    requires
        elements@.len() == 10,
        forall|i: int| 0 <= i < 10 ==> is_map5(#[trigger] elements@[i]@),
    ensures
        match r {
            Ok((d, p, inv)) => {
                &&& is_closed(perm_views(elements@))
                &&& forall|a: int| 0 <= a < 10 ==> has_right_inverse(perm_views(elements@), a)
                &&& is_composition_table(perm_views(elements@), d@)
                &&& is_inverse_table(d@, inv@)
                &&& is_schedule(p@)
            },
            Err(TableError::GroupClosureViolation) => !is_closed(perm_views(elements@)),
            Err(TableError::MissingInverse) => {
                &&& is_closed(perm_views(elements@))
                &&& exists|a: int| 0 <= a < 10 && !has_right_inverse(perm_views(elements@), a)
            },
        },
{
    let ghost elems = perm_views(elements@);
    let d = match composition_rows(elements) {
        Ok(d) => d,
        Err(e) => {
            return Err(e);
        },
    };
    let n = elements.len();
    let mut inv: Vec<u8> = Vec::with_capacity(n);
    for a in 0..n
        invariant
            n == 10,
            elems == perm_views(elements@),
            elems.len() == 10,
            is_closed(elems),
            is_composition_table(elems, d@),
            inv@.len() == a,
            forall|i: int| 0 <= i < a ==> #[trigger] inv@[i] < 10,
            forall|i: int| 0 <= i < a ==> d@[i]@[#[trigger] inv@[i] as int] == 0,
            forall|i: int, b: int| 0 <= i < a && 0 <= b < inv@[i] ==> #[trigger] d@[i]@[b] != 0,
            forall|i: int| 0 <= i < a ==> has_right_inverse(elems, i),
    {
        let mut b: usize = 0;
        while b < n && d[a][b] != 0
            invariant
                n == 10,
                0 <= a < 10,
                b <= n,
                elems.len() == 10,
                is_composition_table(elems, d@),
                forall|j: int| 0 <= j < b ==> #[trigger] d@[a as int]@[j] != 0,
            decreases n - b,
        {
            b = b + 1;
        }
        if b == n {
            proof {
                assert(!has_right_inverse(elems, a as int)) by {
                    assert forall|j: int| 0 <= j < 10 implies elems[0] != #[trigger] compose_spec(
                        elems[a as int],
                        elems[j],
                    ) by {
                        assert(is_label_of(
                            elems,
                            compose_spec(elems[a as int], elems[j]),
                            d@[a as int]@[j] as int,
                        ));
                    }
                }
            }
            return Err(TableError::MissingInverse);
        }
        proof {
            assert(is_label_of(
                elems,
                compose_spec(elems[a as int], elems[b as int]),
                d@[a as int]@[b as int] as int,
            ));
            assert(elems[0] == compose_spec(elems[a as int], elems[b as int]));
        }
        inv.push(b as u8);
    }
    let p = digit_schedule();
    Ok((d, p, inv))
}

/// Rows `0..8` of the digit permutation schedule.
fn digit_schedule() -> (p: Vec<[u8; 10]>)
    ensures
        is_schedule(p@),
{
    let base = [1u8, 5, 7, 6, 2, 8, 3, 0, 9, 4];
    assert(base@ =~= sigma());
    let mut rows: Vec<[u8; 10]> = Vec::with_capacity(8);
    let mut current = [0u8, 1, 2, 3, 4, 5, 6, 7, 8, 9];
    assert(current@ =~= schedule_row(0));
    for k in 0..8usize
        invariant
            base@ == sigma(),
            current@ == schedule_row(k as nat),
            rows@.len() == k,
            forall|j: int| 0 <= j < k ==> (#[trigger] rows@[j])@ == schedule_row(j as nat),
    {
        rows.push(current);
        proof {
            lemma_schedule_row_digits(k as nat);
        }
        let mut next = [0u8; 10];
        for d in 0..10usize
            invariant
                base@ == sigma(),
                is_digit_row(current@),
                forall|e: int| 0 <= e < d ==> next@[e] == #[trigger] sigma()[current@[e] as int],
        {
            next[d] = base[current[d] as usize];
        }
        assert(next@ =~= schedule_row((k + 1) as nat));
        current = next;
    }
    rows
}

/// The Verhoeff tables derived from the dihedral group: `D` is the group's
/// product, `inv` its inverse, `P` the digit schedule.
pub fn verhoeff_tables() -> (r: (Vec<Vec<u8>>, Vec<[u8; 10]>, Vec<u8>))
    ensures
        is_verhoeff_d(r.0@),
        is_schedule(r.1@),
        is_verhoeff_inv(r.2@),
        tables_wf(r.0@, r.1@),
{
    let elements = build_group_elements();
    let ghost e = dihedral_elements();
    proof {
        assert(perm_views(elements@).len() == elements@.len());
        assert forall|a: int, b: int| 0 <= a < 10 && 0 <= b < 10 implies has_label(
            e,
            #[trigger] compose_spec(e[a], e[b]),
        ) by {
            lemma_dihedral_labels(a, b);
        }
        assert forall|a: int| 0 <= a < 10 implies has_right_inverse(e, a) by {
            lemma_dihedral_labels(a, dihedral_inverse(a));
            assert(e[0] == compose_spec(e[a], e[dihedral_inverse(a)]));
        }
    }
    match build_tables(&elements) {
        Ok((d, p, inv)) => {
            proof {
                assert forall|a: int, b: int| 0 <= a < 10 && 0 <= b < 10 implies #[trigger] d@[a]@[b]
                    == dihedral_product(a, b) by {
                    lemma_dihedral_labels(a, b);
                    let l = d@[a]@[b] as int;
                    assert(is_label_of(e, compose_spec(e[a], e[b]), l));
                }
                assert forall|a: int| 0 <= a < 10 implies #[trigger] inv@[a] == dihedral_inverse(a) by {
                    let i = inv@[a] as int;
                    assert(d@[a]@[i] == 0);
                    lemma_dihedral_labels(a, i);
                    assert(d@[a]@[i] == dihedral_product(a, i));
                }
            }
            proof {
                lemma_derived_tables_wf(d@, p@);
            }
            (d, p, inv)
        },
        Err(_) => {
            proof {
                assert(false);
            }
            (Vec::new(), Vec::new(), Vec::new())
        },
    }
}

} // verus!
