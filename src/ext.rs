use crate::field::{fadd, field_add, field_mul, field_sub, fmul, fsub, is_canonical};
use vstd::prelude::*;

verus! {

/// The extension of degree `D` is `F[X] / (X^D - W)`, for the base field `F`.
/// `X^D - 7` is irreducible over the Goldilocks field for `D` = 2 and 4, where
/// the quotient is a field; for other `D` it is a commutative algebra, and
/// every statement here holds of it as such.
pub const W: u64 = 7;

/// The coordinates of a vector of base field elements, as integers.
pub open spec fn ints(v: Seq<u64>) -> Seq<int> {
    v.map_values(|x: u64| x as int)
}

pub proof fn lemma_ints_concat(a: Seq<u64>, b: Seq<u64>)
    ensures
        ints(a + b) == ints(a) + ints(b),
{
    assert(ints(a + b) =~= ints(a) + ints(b));
}

pub proof fn lemma_ints_subrange(a: Seq<u64>, lo: int, hi: int)
    requires
        0 <= lo <= hi <= a.len(),
    ensures
        ints(a.subrange(lo, hi)) == ints(a).subrange(lo, hi),
{
    assert(ints(a.subrange(lo, hi)) =~= ints(a).subrange(lo, hi));
}

/// An extension element of degree `d`: `d` canonical coordinates.
pub open spec fn is_ext(a: Seq<int>, d: nat) -> bool {
    a.len() == d && forall|i: int| 0 <= i < d ==> is_canonical(#[trigger] a[i])
}

pub open spec fn ext_sum(a: Seq<int>, b: Seq<int>) -> Seq<int> {
    Seq::new(a.len(), |i: int| fadd(a[i], b[i]))
}

pub open spec fn ext_diff(a: Seq<int>, b: Seq<int>) -> Seq<int> {
    Seq::new(a.len(), |i: int| fsub(a[i], b[i]))
}

/// Multiplication of an extension element by a base field scalar.
pub open spec fn ext_scale(a: Seq<int>, c: int) -> Seq<int> {
    Seq::new(a.len(), |i: int| fmul(c, a[i]))
}

/// The contribution of `a[i]` to coordinate `k` of `a * b`: it meets the one
/// coordinate of `b` that brings the degree to `k`, reduced by `X^D = W`.
pub open spec fn mul_term(a: Seq<int>, b: Seq<int>, k: int, i: int) -> int {
    if i <= k {
        fmul(a[i], b[k - i])
    } else {
        fmul(W as int, fmul(a[i], b[k + a.len() - i]))
    }
}

/// Coordinate `k` of `a * b`, summed over the first `n` coordinates of `a`.
pub open spec fn mul_acc(a: Seq<int>, b: Seq<int>, k: int, n: nat) -> int
    decreases n,
{
    if n == 0 {
        0
    } else {
        fadd(mul_acc(a, b, k, (n - 1) as nat), mul_term(a, b, k, n - 1))
    }
}

/// The product in `F[X] / (X^d - W)`.
pub open spec fn ext_product(a: Seq<int>, b: Seq<int>) -> Seq<int> {
    Seq::new(a.len(), |k: int| mul_acc(a, b, k, a.len()))
}

/// Coordinate-wise sum of two extension elements.
pub fn add_ext(a: &Vec<u64>, b: &Vec<u64>) -> (r: Vec<u64>)
    requires
        a.len() == b.len(),
        is_ext(ints(a@), a.len() as nat),
        is_ext(ints(b@), b.len() as nat),
    ensures
        ints(r@) == ext_sum(ints(a@), ints(b@)),
        is_ext(ints(r@), a.len() as nat),
{
    let mut r: Vec<u64> = Vec::new();
    let mut i: usize = 0;
    while i < a.len()
        invariant
            i <= a.len(),
            a.len() == b.len(),
            is_ext(ints(a@), a.len() as nat),
            is_ext(ints(b@), b.len() as nat),
            r.len() == i,
            forall|j: int| 0 <= j < i ==> r@[j] as int == fadd(a@[j] as int, b@[j] as int),
        decreases a.len() - i,
    {
        assert(is_canonical(ints(a@)[i as int]) && is_canonical(ints(b@)[i as int]));
        r.push(field_add(a[i], b[i]));
        i = i + 1;
    }
    assert(ints(r@) =~= ext_sum(ints(a@), ints(b@)));
    r
}

/// Coordinate-wise difference of two extension elements.
pub fn sub_ext(a: &Vec<u64>, b: &Vec<u64>) -> (r: Vec<u64>)
    requires
        a.len() == b.len(),
        is_ext(ints(a@), a.len() as nat),
        is_ext(ints(b@), b.len() as nat),
    ensures
        ints(r@) == ext_diff(ints(a@), ints(b@)),
        is_ext(ints(r@), a.len() as nat),
{
    let mut r: Vec<u64> = Vec::new();
    let mut i: usize = 0;
    while i < a.len()
        invariant
            i <= a.len(),
            a.len() == b.len(),
            is_ext(ints(a@), a.len() as nat),
            is_ext(ints(b@), b.len() as nat),
            r.len() == i,
            forall|j: int| 0 <= j < i ==> r@[j] as int == fsub(a@[j] as int, b@[j] as int),
        decreases a.len() - i,
    {
        assert(is_canonical(ints(a@)[i as int]) && is_canonical(ints(b@)[i as int]));
        r.push(field_sub(a[i], b[i]));
        i = i + 1;
    }
    assert(ints(r@) =~= ext_diff(ints(a@), ints(b@)));
    r
}

/// An extension element multiplied by a base field scalar.
pub fn scalar_mul_ext(a: &Vec<u64>, c: u64) -> (r: Vec<u64>)
    requires
        is_ext(ints(a@), a.len() as nat),
        is_canonical(c as int),
    ensures
        ints(r@) == ext_scale(ints(a@), c as int),
        is_ext(ints(r@), a.len() as nat),
{
    let mut r: Vec<u64> = Vec::new();
    let mut i: usize = 0;
    while i < a.len()
        invariant
            i <= a.len(),
            is_ext(ints(a@), a.len() as nat),
            is_canonical(c as int),
            r.len() == i,
            forall|j: int| 0 <= j < i ==> r@[j] as int == fmul(c as int, a@[j] as int),
        decreases a.len() - i,
    {
        assert(is_canonical(ints(a@)[i as int]));
        r.push(field_mul(c, a[i]));
        i = i + 1;
    }
    assert(ints(r@) =~= ext_scale(ints(a@), c as int));
    r
}

/// Coordinate `k` of the product of two extension elements.
fn mul_coordinate(a: &Vec<u64>, b: &Vec<u64>, k: usize) -> (r: u64)
    requires
        a.len() == b.len(),
        k < a.len(),
        is_ext(ints(a@), a.len() as nat),
        is_ext(ints(b@), b.len() as nat),
    ensures
        r as int == mul_acc(ints(a@), ints(b@), k as int, a.len() as nat),
        is_canonical(r as int),
{
    let d = a.len();
    let mut acc: u64 = 0;
    let mut i: usize = 0;
    while i < d
        invariant
            i <= d,
            d == a.len(),
            a.len() == b.len(),
            k < d,
            is_ext(ints(a@), a.len() as nat),
            is_ext(ints(b@), b.len() as nat),
            acc as int == mul_acc(ints(a@), ints(b@), k as int, i as nat),
            is_canonical(acc as int),
        decreases d - i,
    {
        assert(is_canonical(ints(a@)[i as int]));
        let term = if i <= k {
            assert(is_canonical(ints(b@)[k - i]));
            field_mul(a[i], b[k - i])
        } else {
            assert(is_canonical(ints(b@)[d - i + k]));
            let t = field_mul(a[i], b[d - i + k]);
            field_mul(W, t)
        };
        assert(term as int == mul_term(ints(a@), ints(b@), k as int, i as int));
        acc = field_add(acc, term);
        i = i + 1;
    }
    acc
}

/// Product of two extension elements of the same degree.
pub fn mul_ext(a: &Vec<u64>, b: &Vec<u64>) -> (r: Vec<u64>)
    requires
        a.len() == b.len(),
        is_ext(ints(a@), a.len() as nat),
        is_ext(ints(b@), b.len() as nat),
    ensures
        ints(r@) == ext_product(ints(a@), ints(b@)),
        is_ext(ints(r@), a.len() as nat),
{
    let mut r: Vec<u64> = Vec::new();
    let mut k: usize = 0;
    while k < a.len()
        invariant
            k <= a.len(),
            a.len() == b.len(),
            is_ext(ints(a@), a.len() as nat),
            is_ext(ints(b@), b.len() as nat),
            r.len() == k,
            forall|j: int|
                0 <= j < k ==> r@[j] as int == mul_acc(ints(a@), ints(b@), j, a.len() as nat)
                    && is_canonical(r@[j] as int),
        decreases a.len() - k,
    {
        let c = mul_coordinate(a, b, k);
        r.push(c);
        k = k + 1;
    }
    assert(ints(r@) =~= ext_product(ints(a@), ints(b@)));
    r
}

} // verus!
