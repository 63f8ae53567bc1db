//! Validating a decimal string against the Verhoeff tables, and computing
//! the check digit that makes one valid.
use vstd::prelude::*;

verus! {

/// `c` is one of the ASCII characters `'0'..='9'`.
pub open spec fn is_ascii_digit(c: char) -> bool {
    '0' <= c && c <= '9'
}

/// The value of the ASCII digit `c`.
pub open spec fn digit_value(c: char) -> u8 {
    (c as u32 - '0' as u32) as u8
}

/// The ASCII character for the digit `v`.
pub open spec fn digit_char(v: int) -> char {
    ('0' as u32 + v) as char
}

/// The values of the ASCII digits of `s`, in order; every other character is dropped.
pub open spec fn digits_of(s: Seq<char>) -> Seq<u8>
    decreases s.len(),
{
    if s.len() == 0 {
        seq![]
    } else if is_ascii_digit(s.last()) {
        digits_of(s.drop_last()).push(digit_value(s.last()))
    } else {
        digits_of(s.drop_last())
    }
}

/// `d` is a 10 x 10 table of labels and `p` eight rows of digits.
pub open spec fn tables_wf(d: Seq<Vec<u8>>, p: Seq<[u8; 10]>) -> bool {
    &&& d.len() == 10
    &&& forall|a: int| 0 <= a < 10 ==> (#[trigger] d[a])@.len() == 10
    &&& forall|a: int, b: int| 0 <= a < 10 && 0 <= b < 10 ==> #[trigger] d[a]@[b] < 10
    &&& p.len() == 8
    &&& forall|k: int, x: int| 0 <= k < 8 && 0 <= x < 10 ==> #[trigger] p[k]@[x] < 10
}

/// One step of the checksum: the accumulator `c` takes in `digit` at position `pos`.
pub open spec fn step(d: Seq<Vec<u8>>, p: Seq<[u8; 10]>, c: int, pos: int, digit: u8) -> int {
    d[c]@[p[pos % 8]@[digit as int] as int] as int
}

/// The accumulator after taking in the digits `ds` from the rightmost to the
/// leftmost, starting from `c`, the rightmost digit at position `pos`.
pub open spec fn fold_digits(d: Seq<Vec<u8>>, p: Seq<[u8; 10]>, c: int, ds: Seq<u8>, pos: int) -> int
    decreases ds.len(),
{
    if ds.len() == 0 {
        c
    } else {
        fold_digits(d, p, step(d, p, c, pos, ds.last()), ds.drop_last(), pos + 1)
    }
}

/// The checksum of `s`: its digits folded from 0, the rightmost at position `start`.
pub open spec fn checksum(d: Seq<Vec<u8>>, p: Seq<[u8; 10]>, s: Seq<char>, start: int) -> int {
    fold_digits(d, p, 0, digits_of(s), start)
}

/// The ASCII digits of `num`, in order, as values `0..10`.
pub fn extract_digits(num: &str) -> (ds: Vec<u8>)
    ensures
        ds@ == digits_of(num@),
        forall|i: int| 0 <= i < ds@.len() ==> #[trigger] ds@[i] < 10,
{
    let mut ds: Vec<u8> = Vec::new();
    for ch in it: num.chars()
        invariant
            it.seq() == num@,
            ds@ == digits_of(num@.subrange(0, it.index() as int)),
            forall|i: int| 0 <= i < ds@.len() ==> #[trigger] ds@[i] < 10,
    {
        let ghost k = it.index() as int;
        assert(num@.subrange(0, k + 1).drop_last() =~= num@.subrange(0, k));
        if '0' <= ch && ch <= '9' {
            let v = (ch as u32 - '0' as u32) as u8;
            ds.push(v);
        }
    }
    assert(num@.subrange(0, num@.len() as int) =~= num@);
    ds
}

/// The accumulator after taking in `digits` from the right, from 0, the
/// rightmost digit at position `start`.
fn fold_from_right(digits: &Vec<u8>, d: &Vec<Vec<u8>>, p: &Vec<[u8; 10]>, start: usize) -> (c: u8)
    requires
        tables_wf(d@, p@),
        start <= 1,
        forall|i: int| 0 <= i < digits@.len() ==> #[trigger] digits@[i] < 10,
    ensures
        c as int == fold_digits(d@, p@, 0, digits@, start as int),
        c < 10,
{
    let n = digits.len();
    let mut c: u8 = 0;
    let mut k: usize = 0;
    assert(digits@.subrange(0, n as int) =~= digits@);
    while k < n
        invariant
            tables_wf(d@, p@),
            start <= 1,
            n == digits@.len(),
            k <= n,
            c < 10,
            forall|i: int| 0 <= i < digits@.len() ==> #[trigger] digits@[i] < 10,
            fold_digits(d@, p@, c as int, digits@.subrange(0, n - k), start + k)
                == fold_digits(d@, p@, 0, digits@, start as int),
        decreases n - k,
    {
        let ghost rest = digits@.subrange(0, n - k);
        assert(rest.drop_last() =~= digits@.subrange(0, n - k - 1));
        let digit = digits[n - 1 - k];
        let pos = start + k;
        let pv = p[pos % 8][digit as usize];
        c = d[c as usize][pv as usize];
        k = k + 1;
    }
    assert(digits@.subrange(0, 0) =~= Seq::<u8>::empty());
    c
}

/// Whether the digits of `num` (other characters ignored) pass the Verhoeff
/// check: their checksum, the rightmost digit at position 0, is 0.
pub fn verhoeff_validate(num: &str, d: &Vec<Vec<u8>>, p: &Vec<[u8; 10]>) -> (r: bool)
    requires
        tables_wf(d@, p@),
    ensures
        r == (checksum(d@, p@, num@, 0) == 0),
{
    let digits = extract_digits(num);
    let c = fold_from_right(&digits, d, p, 0);
    c == 0
}

/// The check digit for `num` (other characters ignored): `inv` of the
/// checksum with the rightmost digit at position 1.
pub fn verhoeff_generate_check_digit(
    num: &str,
    d: &Vec<Vec<u8>>,
    p: &Vec<[u8; 10]>,
    inv: &Vec<u8>,
) -> (r: Option<u8>)
    requires
        tables_wf(d@, p@),
        inv@.len() == 10,
    ensures
        r == Some(inv@[checksum(d@, p@, num@, 1)]),
{
    let digits = extract_digits(num);
    let c = fold_from_right(&digits, d, p, 1);
    Some(inv[c as usize])
}

} // verus!
