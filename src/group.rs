//! The dihedral group of order ten, as permutations of a pentagon's vertices,
//! with its canonical labelling.
use vstd::prelude::*;
use crate::perm::{
    compose, compose_spec, is_perm5, lemma_compose_identity, lemma_identity_is_perm5, pow, pow_spec,
    perm_eq,
};

verus! {

/// The rotation by one step: vertex `x` goes to `x + 1 (mod 5)`.
pub open spec fn rotation() -> Seq<u8> {
    seq![1u8, 2, 3, 4, 0]
}

/// The reflection that fixes vertex 0.
pub open spec fn reflection() -> Seq<u8> {
    seq![0u8, 4, 3, 2, 1]
}

/// The element with label `i`: `r^i` for `i < 5`, else `r^(i - 5)` followed by `s`.
pub open spec fn dihedral_element(i: int) -> Seq<u8> {
    if i < 5 {
        pow_spec(rotation(), i as nat)
    } else {
        compose_spec(pow_spec(rotation(), (i - 5) as nat), reflection())
    }
}

/// The ten group elements in label order.
pub open spec fn dihedral_elements() -> Seq<Seq<u8>> {
    Seq::new(10, |i: int| dihedral_element(i))
}

/// `u + v (mod 5)` for `u`, `v` in `0..5`.
pub open spec fn add5(u: int, v: int) -> int {
    if u + v >= 5 {
        u + v - 5
    } else {
        u + v
    }
}

/// `u - v (mod 5)` for `u`, `v` in `0..5`.
pub open spec fn sub5(u: int, v: int) -> int {
    if u >= v {
        u - v
    } else {
        u + 5 - v
    }
}

/// Where the element with label `i` sends vertex `x`, in closed form: the
/// rotation `r^i` adds `i`; the reflection with label `5 + k` adds `k`, then negates.
pub open spec fn dihedral_map(i: int, x: int) -> int {
    if i < 5 {
        add5(x, i)
    } else {
        sub5(0, add5(x, i - 5))
    }
}

pub open spec fn closed_element(i: int) -> Seq<u8> {
    Seq::new(5, |x: int| dihedral_map(i, x) as u8)
}

/// The label of "element `a`, then element `b`".
pub open spec fn dihedral_product(a: int, b: int) -> int {
    if a < 5 && b < 5 {
        add5(a, b)
    } else if a < 5 {
        5 + add5(a, b - 5)
    } else if b < 5 {
        5 + sub5(a - 5, b)
    } else {
        sub5(a - 5, b - 5)
    }
}

/// The permutations that a list of arrays holds.
pub open spec fn perm_views(v: Seq<[u8; 5]>) -> Seq<Seq<u8>> {
    Seq::new(v.len(), |i: int| v[i]@)
}

/// `i` is the first position of `p` in `elems`.
pub open spec fn is_label_of(elems: Seq<Seq<u8>>, p: Seq<u8>, i: int) -> bool {
    &&& 0 <= i < elems.len()
    &&& elems[i] == p
    &&& forall|j: int| 0 <= j < i ==> elems[j] != p
}

/// `p` occurs somewhere in `elems`.
pub open spec fn has_label(elems: Seq<Seq<u8>>, p: Seq<u8>) -> bool {
    exists|i: int| 0 <= i < elems.len() && elems[i] == p
}

proof fn lemma_rotation_power(k: nat)
    requires
        k < 5,
    ensures
        pow_spec(rotation(), k) == closed_element(k as int),
    decreases k,
{
    if k == 0 {
        assert(pow_spec(rotation(), 0) =~= closed_element(0));
    } else {
        lemma_rotation_power((k - 1) as nat);
        assert forall|x: int| 0 <= x < 5 implies #[trigger] pow_spec(rotation(), k)[x]
            == closed_element(k as int)[x] by {
            let y = add5(x, k - 1);
            assert(rotation()[y] == add5(y, 1));
        }
        assert(pow_spec(rotation(), k) =~= closed_element(k as int));
    }
}

/// Each labelled element agrees with its closed form.
pub proof fn lemma_dihedral_element_closed(i: int)
    requires
        0 <= i < 10,
    ensures
        dihedral_element(i) == closed_element(i),
        is_perm5(dihedral_element(i)),
{
    if i < 5 {
        lemma_rotation_power(i as nat);
    } else {
        lemma_rotation_power((i - 5) as nat);
        let c = compose_spec(pow_spec(rotation(), (i - 5) as nat), reflection());
        assert forall|x: int| 0 <= x < 5 implies #[trigger] c[x] == closed_element(i)[x] by {
            let y = add5(x, i - 5);
            assert(reflection()[y] == sub5(0, y));
        }
        assert(c =~= closed_element(i));
    }
}

/// Composing two labelled elements gives the element labelled by `dihedral_product`.
pub proof fn lemma_closed_product(a: int, b: int)
    requires
        0 <= a < 10,
        0 <= b < 10,
    ensures
        0 <= dihedral_product(a, b) < 10,
        compose_spec(closed_element(a), closed_element(b)) == closed_element(dihedral_product(a, b)),
{
    let c = compose_spec(closed_element(a), closed_element(b));
    assert forall|x: int| 0 <= x < 5 implies #[trigger] c[x] == closed_element(dihedral_product(a, b))[x] by {
    }
    assert(c =~= closed_element(dihedral_product(a, b)));
}

/// Distinct labels name distinct permutations.
pub proof fn lemma_closed_distinct(i: int, j: int)
    requires
        0 <= i < 10,
        0 <= j < 10,
        closed_element(i) == closed_element(j),
    ensures
        i == j,
{
    let ci = closed_element(i);
    let cj = closed_element(j);
    assert(ci[0] == dihedral_map(i, 0) as u8);
    assert(cj[0] == dihedral_map(j, 0) as u8);
    assert(ci[1] == dihedral_map(i, 1) as u8);
    assert(cj[1] == dihedral_map(j, 1) as u8);
    assert(0 <= dihedral_map(i, 0) < 5 && 0 <= dihedral_map(j, 0) < 5);
    assert(0 <= dihedral_map(i, 1) < 5 && 0 <= dihedral_map(j, 1) < 5);
    assert(dihedral_map(i, 0) == dihedral_map(j, 0));
    assert(dihedral_map(i, 1) == dihedral_map(j, 1));
}

/// The position of `perm` in `elements`, scanning from the front.
pub fn find_label(perm: &[u8; 5], elements: &Vec<[u8; 5]>) -> (r: Option<usize>)
    ensures
        match r {
            Some(i) => is_label_of(perm_views(elements@), perm@, i as int),
            None => !has_label(perm_views(elements@), perm@),
        },
{
    let ghost elems = perm_views(elements@);
    let mut i: usize = 0;
    while i < elements.len()
        invariant
            i <= elements.len(),
            elems == perm_views(elements@),
            forall|j: int| 0 <= j < i ==> elems[j] != perm@,
        decreases elements.len() - i,
    {
        if perm_eq(perm, &elements[i]) {
            return Some(i);
        }
        i = i + 1;
    }
    None
}

/// The ten elements of the dihedral group in label order: the rotations
/// `r^0 .. r^4`, then `s`, then `r^k` followed by `s` for `k` in `1..5`.
pub fn build_group_elements() -> (elements: Vec<[u8; 5]>)
    ensures
        perm_views(elements@) == dihedral_elements(),
        forall|i: int| 0 <= i < elements@.len() ==> is_perm5(#[trigger] elements@[i]@),
{
    let r = [1u8, 2, 3, 4, 0];
    let s = [0u8, 4, 3, 2, 1];
    assert(r@ =~= rotation());
    assert(s@ =~= reflection());
    let mut elements: Vec<[u8; 5]> = Vec::with_capacity(10);
    for k in 0..5usize
        invariant
            r@ == rotation(),
            elements@.len() == k,
            forall|i: int| 0 <= i < k ==> (#[trigger] elements@[i])@ == dihedral_element(i),
            forall|i: int| 0 <= i < k ==> is_perm5(#[trigger] elements@[i]@),
    {
        elements.push(pow(r, k));
    }
    proof {
        lemma_dihedral_element_closed(5);
        assert(dihedral_element(5) == compose_spec(pow_spec(rotation(), 0), reflection()));
        lemma_identity_is_perm5();
        assert(reflection() =~= dihedral_element(5)) by {
            lemma_compose_identity(reflection());
        }
    }
    elements.push(s);
    for k in 1..5usize
        invariant
            r@ == rotation(),
            s@ == reflection(),
            elements@.len() == k + 5,
            forall|i: int| 0 <= i < k + 5 ==> (#[trigger] elements@[i])@ == dihedral_element(i),
            forall|i: int| 0 <= i < k + 5 ==> is_perm5(#[trigger] elements@[i]@),
    {
        let rk = pow(r, k);
        proof {
            lemma_dihedral_element_closed(5);
        }
        let rks = compose(&rk, &s);
        assert(rks@ == dihedral_element(k + 5));
        elements.push(rks);
    }
    assert(perm_views(elements@) =~= dihedral_elements());
    elements
}

} // verus!
