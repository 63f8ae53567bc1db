//! Permutations of the five vertices of a pentagon, in array form.
use vstd::prelude::*;

verus! {

/// `p` sends each of the positions `0..5` to a value in `0..5`.
pub open spec fn is_map5(p: Seq<u8>) -> bool {
    &&& p.len() == 5
    &&& forall|x: int| 0 <= x < 5 ==> #[trigger] p[x] < 5
}

/// `p` sends each of the positions `0..5` to a distinct value in `0..5`.
pub open spec fn is_perm5(p: Seq<u8>) -> bool {
    &&& p.len() == 5
    &&& forall|x: int| 0 <= x < 5 ==> #[trigger] p[x] < 5
    &&& forall|x: int, y: int| 0 <= x < 5 && 0 <= y < 5 && #[trigger] p[x] == #[trigger] p[y] ==> x == y
}

/// The identity permutation on five points.
pub open spec fn identity5() -> Seq<u8> {
    seq![0u8, 1, 2, 3, 4]
}

/// First apply `a`, then `b`: position `x` goes to `b[a[x]]`.
pub open spec fn compose_spec(a: Seq<u8>, b: Seq<u8>) -> Seq<u8> {
    Seq::new(5, |x: int| b[a[x] as int])
}

/// `a` composed with itself `n` times (`n == 0` gives the identity).
pub open spec fn pow_spec(a: Seq<u8>, n: nat) -> Seq<u8>
    decreases n,
{
    if n == 0 {
        identity5()
    } else {
        compose_spec(pow_spec(a, (n - 1) as nat), a)
    }
}

/// The identity is a permutation.
pub proof fn lemma_identity_is_perm5()
    ensures
        is_perm5(identity5()),
{
}

/// Composing two permutations gives a permutation.
pub proof fn lemma_compose_is_perm5(a: Seq<u8>, b: Seq<u8>)
    requires
        is_perm5(a),
        is_perm5(b),
    ensures
        is_perm5(compose_spec(a, b)),
{
    let h = compose_spec(a, b);
    assert forall|x: int, y: int| 0 <= x < 5 && 0 <= y < 5 && #[trigger] h[x] == #[trigger] h[y] implies x == y by {
        assert(b[a[x] as int] == b[a[y] as int]);
        assert(a[x] < 5 && a[y] < 5);
    }
}

/// Composition is associative.
pub proof fn lemma_compose_assoc(a: Seq<u8>, b: Seq<u8>, c: Seq<u8>)
    requires
        is_perm5(a),
        is_perm5(b),
    ensures
        compose_spec(compose_spec(a, b), c) == compose_spec(a, compose_spec(b, c)),
{
    assert forall|x: int| 0 <= x < 5 implies #[trigger] compose_spec(compose_spec(a, b), c)[x]
        == compose_spec(a, compose_spec(b, c))[x] by {
        assert(a[x] < 5);
    }
    assert(compose_spec(compose_spec(a, b), c) =~= compose_spec(a, compose_spec(b, c)));
}

/// The identity is neutral on both sides.
pub proof fn lemma_compose_identity(a: Seq<u8>)
    requires
        is_perm5(a),
    ensures
        compose_spec(identity5(), a) == a,
        compose_spec(a, identity5()) == a,
{
    assert forall|x: int| 0 <= x < 5 implies #[trigger] compose_spec(a, identity5())[x] == a[x] by {
        assert(a[x] < 5);
    }
    assert(compose_spec(identity5(), a) =~= a);
    assert(compose_spec(a, identity5()) =~= a);
}

/// Every power of a permutation is a permutation.
pub proof fn lemma_pow_is_perm5(a: Seq<u8>, n: nat)
    requires
        is_perm5(a),
    ensures
        is_perm5(pow_spec(a, n)),
    decreases n,
{
    if n == 0 {
        lemma_identity_is_perm5();
    } else {
        lemma_pow_is_perm5(a, (n - 1) as nat);
        lemma_compose_is_perm5(pow_spec(a, (n - 1) as nat), a);
    }
}

/// The first power of `a` is `a`.
pub proof fn lemma_pow_one(a: Seq<u8>)
    requires
        is_perm5(a),
    ensures
        pow_spec(a, 1) == a,
{
    assert(pow_spec(a, 0) == identity5());
    lemma_compose_identity(a);
}

/// Powers add: `a^(m + n) == a^m` followed by `a^n`.
pub proof fn lemma_pow_add(a: Seq<u8>, m: nat, n: nat)
    requires
        is_perm5(a),
    ensures
        pow_spec(a, m + n) == compose_spec(pow_spec(a, m), pow_spec(a, n)),
    decreases n,
{
    lemma_pow_is_perm5(a, m);
    if n == 0 {
        lemma_compose_identity(pow_spec(a, m));
    } else {
        let n1 = (n - 1) as nat;
        lemma_pow_add(a, m, n1);
        lemma_pow_is_perm5(a, n1);
        assert(pow_spec(a, m + n) == compose_spec(pow_spec(a, m + n1), a));
        lemma_compose_assoc(pow_spec(a, m), pow_spec(a, n1), a);
    }
}

/// Squaring halves the exponent: `(a a)^n == a^(2 n)`.
pub proof fn lemma_pow_square(a: Seq<u8>, n: nat)
    requires
        is_perm5(a),
    ensures
        pow_spec(compose_spec(a, a), n) == pow_spec(a, 2 * n),
    decreases n,
{
    if n > 0 {
        let n1 = (n - 1) as nat;
        lemma_pow_square(a, n1);
        lemma_pow_one(a);
        assert(pow_spec(a, 2) == compose_spec(a, a));
        lemma_pow_add(a, 2 * n1, 2);
        assert(2 * n1 + 2 == 2 * n);
    }
}

/// The composite `h[x] == b[a[x]]`: apply `a` first, then `b`.
pub fn compose(a: &[u8; 5], b: &[u8; 5]) -> (h: [u8; 5])
    requires
        is_map5(a@),
        is_map5(b@),
    ensures
        h@ == compose_spec(a@, b@),
        is_map5(h@),
        is_perm5(a@) && is_perm5(b@) ==> is_perm5(h@),
{
    let mut h = [0u8; 5];
    for x in 0..5usize
        invariant
            is_map5(a@),
            is_map5(b@),
            forall|y: int| 0 <= y < x ==> h@[y] == #[trigger] b@[a@[y] as int],
    {
        let ax = a[x] as usize;
        h[x] = b[ax];
    }
    assert(h@ =~= compose_spec(a@, b@));
    proof {
        if is_perm5(a@) && is_perm5(b@) {
            lemma_compose_is_perm5(a@, b@);
        }
    }
    h
}

/// Element-wise equality of two permutations.
pub fn perm_eq(a: &[u8; 5], b: &[u8; 5]) -> (r: bool)
    ensures
        r == (a@ == b@),
{
    let mut i: usize = 0;
    while i < 5
        invariant
            i <= 5,
            forall|j: int| 0 <= j < i ==> a@[j] == b@[j],
        decreases 5 - i,
    {
        if a[i] != b[i] {
            return false;
        }
        i = i + 1;
    }
    assert(a@ =~= b@);
    true
}

/// `base` composed with itself `exp` times, by repeated squaring.
pub fn pow(base: [u8; 5], exp: usize) -> (r: [u8; 5])
    requires
        is_perm5(base@),
    ensures
        r@ == pow_spec(base@, exp as nat),
        is_perm5(r@),
{
    let ghost base0 = base@;
    let ghost exp0 = exp as nat;
    let mut base = base;
    let mut exp = exp;
    let mut result = [0u8, 1, 2, 3, 4];
    assert(result@ =~= identity5());
    proof {
        lemma_identity_is_perm5();
        lemma_pow_is_perm5(base0, exp0);
        lemma_compose_identity(pow_spec(base0, exp0));
    }
    while exp > 0
        invariant
            is_perm5(base@),
            is_perm5(result@),
            compose_spec(result@, pow_spec(base@, exp as nat)) == pow_spec(base0, exp0),
        decreases exp,
    {
        let ghost b = base@;
        let ghost r = result@;
        let ghost q = (exp / 2) as nat;
        proof {
            lemma_pow_square(b, q);
            lemma_pow_is_perm5(b, 2 * q);
            lemma_compose_is_perm5(b, b);
        }
        if exp % 2 == 1 {
            proof {
                lemma_pow_add(b, 1, 2 * q);
                lemma_pow_one(b);
                assert(1 + 2 * q == exp as nat);
                lemma_compose_assoc(r, b, pow_spec(b, 2 * q));
            }
            result = compose(&result, &base);
        } else {
            assert(2 * q == exp as nat);
        }
        base = compose(&base, &base);
        exp = exp / 2;
    }
    proof {
        lemma_compose_identity(result@);
    }
    result
}

} // verus!
