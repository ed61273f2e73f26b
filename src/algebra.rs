use crate::ext::{
    add_ext, ext_product, ext_scale, ext_sum, ext_diff, ints, is_ext, mul_ext, scalar_mul_ext,
    sub_ext, W,
};
use crate::ext::{mul_acc, mul_term};
use crate::field::{fadd, fmul, fsub, p};
use vstd::prelude::*;

verus! {

/// The coordinates of a sequence of extension elements, as integers.
pub open spec fn ext_ints(v: Seq<Vec<u64>>) -> Seq<Seq<int>> {
    v.map_values(|x: Vec<u64>| ints(x@))
}

/// Every element of `a` is an extension element of degree `e`.
pub open spec fn all_ext(a: Seq<Seq<int>>, e: nat) -> bool {
    forall|i: int| 0 <= i < a.len() ==> is_ext(#[trigger] a[i], e)
}

/// The zero extension element of degree `e`.
pub open spec fn ext_zero(e: nat) -> Seq<int> {
    Seq::new(e, |j: int| 0int)
}

pub open spec fn alg_sum(a: Seq<Seq<int>>, b: Seq<Seq<int>>) -> Seq<Seq<int>> {
    Seq::new(a.len(), |i: int| ext_sum(a[i], b[i]))
}

pub open spec fn alg_diff(a: Seq<Seq<int>>, b: Seq<Seq<int>>) -> Seq<Seq<int>> {
    Seq::new(a.len(), |i: int| ext_diff(a[i], b[i]))
}

/// Multiplication of an algebra element by an extension element.
pub open spec fn alg_scale(a: Seq<Seq<int>>, c: Seq<int>) -> Seq<Seq<int>> {
    Seq::new(a.len(), |i: int| ext_product(c, a[i]))
}

/// The contribution of `a[i]` to coefficient `k` of `a * b`, reduced by `X^D = W`.
pub open spec fn alg_term(a: Seq<Seq<int>>, b: Seq<Seq<int>>, k: int, i: int) -> Seq<int> {
    if i <= k {
        ext_product(a[i], b[k - i])
    } else {
        ext_scale(ext_product(a[i], b[k + a.len() - i]), W as int)
    }
}

/// Coefficient `k` of `a * b`, summed over the first `n` coefficients of `a`.
pub open spec fn alg_acc(a: Seq<Seq<int>>, b: Seq<Seq<int>>, k: int, n: nat, e: nat) -> Seq<int>
    decreases n,
{
    if n == 0 {
        ext_zero(e)
    } else {
        ext_sum(alg_acc(a, b, k, (n - 1) as nat, e), alg_term(a, b, k, n - 1))
    }
}

/// The product in `E[X] / (X^d - W)`, where `E` is the extension of degree `e`.
pub open spec fn alg_product(a: Seq<Seq<int>>, b: Seq<Seq<int>>, e: nat) -> Seq<Seq<int>> {
    Seq::new(a.len(), |k: int| alg_acc(a, b, k, a.len(), e))
}

/// The base field element `x` as an extension element of degree `d`.
pub open spec fn embed(x: int, d: nat) -> Seq<int> {
    Seq::new(d, |j: int| if j == 0 { x } else { 0 })
}

/// Each base field element of `s` as an extension element of degree `d`.
pub open spec fn embed_all(s: Seq<int>, d: nat) -> Seq<Seq<int>> {
    Seq::new(s.len(), |i: int| embed(s[i], d))
}

pub proof fn lemma_embed_field_ops(x: int, y: int, d: nat)
    requires
        d > 0,
    ensures
        ext_sum(embed(x, d), embed(y, d)) == embed(fadd(x, y), d),
        ext_diff(embed(x, d), embed(y, d)) == embed(fsub(x, y), d),
        ext_scale(embed(x, d), y) == embed(fmul(y, x), d),
        ext_product(embed(x, d), embed(y, d)) == embed(fmul(x, y), d),
        ext_zero(d) == embed(0, d),
{
    vstd::arithmetic::div_mod::lemma_small_mod(0, p() as nat);
    assert(fadd(0, 0) == 0 && fsub(0, 0) == 0);
    assert forall|z: int| fmul(z, 0) == 0 && fmul(0, z) == 0 by {
        assert(z * 0 == 0 && 0 * z == 0);
    }
    assert(ext_sum(embed(x, d), embed(y, d)) =~= embed(fadd(x, y), d));
    assert(ext_diff(embed(x, d), embed(y, d)) =~= embed(fsub(x, y), d));
    assert(ext_scale(embed(x, d), y) =~= embed(fmul(y, x), d));
    assert(ext_zero(d) =~= embed(0, d));
    let a = embed(x, d);
    let b = embed(y, d);
    assert forall|k: int| 0 <= k < d implies #[trigger] mul_acc(a, b, k, d) == (if k == 0 {
        fmul(x, y)
    } else {
        0
    }) by {
        lemma_mul_acc_embedded(x, y, d, k, d);
    }
    assert(ext_product(a, b) =~= embed(fmul(x, y), d));
}

proof fn lemma_mul_acc_embedded(x: int, y: int, d: nat, k: int, n: nat)
    requires
        0 <= k < d,
        0 < n <= d,
    ensures
        mul_acc(embed(x, d), embed(y, d), k, n) == (if k == 0 {
            fmul(x, y)
        } else {
            0
        }),
    decreases n,
{
    let a = embed(x, d);
    let b = embed(y, d);
    vstd::arithmetic::div_mod::lemma_small_mod(0, p() as nat);
    assert forall|z: int| fmul(z, 0) == 0 && fmul(0, z) == 0 by {
        assert(z * 0 == 0 && 0 * z == 0);
    }
    let i = n - 1;
    if i > 0 {
        lemma_mul_acc_embedded(x, y, d, k, (n - 1) as nat);
        assert(a[i] == 0);
        assert(mul_term(a, b, k, i) == 0);
        let v = mul_acc(a, b, k, (n - 1) as nat);
        assert(0 <= v < p());
        vstd::arithmetic::div_mod::lemma_small_mod(v as nat, p() as nat);
        assert(mul_acc(a, b, k, n) == fadd(v, 0));
    } else {
        assert(mul_acc(a, b, k, 0) == 0);
        assert(mul_acc(a, b, k, 1) == fadd(0, mul_term(a, b, k, 0)));
        assert(mul_term(a, b, k, 0) == (if k == 0 { fmul(x, y) } else { 0 }));
        let t = mul_term(a, b, k, 0);
        assert(0 <= t < p());
        vstd::arithmetic::div_mod::lemma_small_mod(t as nat, p() as nat);
    }
}

proof fn lemma_alg_acc_embedded(a: Seq<int>, b: Seq<int>, d: nat, k: int, n: nat)
    requires
        a.len() == d,
        b.len() == d,
        0 <= k < d,
        n <= d,
    ensures
        alg_acc(embed_all(a, d), embed_all(b, d), k, n, d) == embed(mul_acc(a, b, k, n), d),
    decreases n,
{
    let ea = embed_all(a, d);
    let eb = embed_all(b, d);
    if n == 0 {
        lemma_embed_field_ops(0, 0, d);
    } else {
        let i = n - 1;
        lemma_alg_acc_embedded(a, b, d, k, (n - 1) as nat);
        if i <= k {
            lemma_embed_field_ops(a[i], b[k - i], d);
        } else {
            lemma_embed_field_ops(a[i], b[k + d - i], d);
            lemma_embed_field_ops(fmul(a[i], b[k + d - i]), W as int, d);
        }
        assert(alg_term(ea, eb, k, i) == embed(mul_term(a, b, k, i), d));
        lemma_embed_field_ops(mul_acc(a, b, k, (n - 1) as nat), mul_term(a, b, k, i), d);
    }
}

/// The algebra operations on embedded base field elements are the extension
/// operations on those elements, embedded.
pub proof fn lemma_alg_ops_embedded(a: Seq<int>, b: Seq<int>, c: int, d: nat)
    requires
        a.len() == d,
        b.len() == d,
        d > 0,
    ensures
        alg_sum(embed_all(a, d), embed_all(b, d)) == embed_all(ext_sum(a, b), d),
        alg_diff(embed_all(a, d), embed_all(b, d)) == embed_all(ext_diff(a, b), d),
        alg_scale(embed_all(a, d), embed(c, d)) == embed_all(ext_scale(a, c), d),
        alg_product(embed_all(a, d), embed_all(b, d), d) == embed_all(ext_product(a, b), d),
{
    assert forall|i: int| 0 <= i < d implies alg_sum(embed_all(a, d), embed_all(b, d))[i]
        == embed_all(ext_sum(a, b), d)[i] && alg_diff(embed_all(a, d), embed_all(b, d))[i]
        == embed_all(ext_diff(a, b), d)[i] && alg_scale(embed_all(a, d), embed(c, d))[i]
        == embed_all(ext_scale(a, c), d)[i] by {
        lemma_embed_field_ops(a[i], b[i], d);
        lemma_embed_field_ops(c, a[i], d);
    }
    assert(alg_sum(embed_all(a, d), embed_all(b, d)) =~= embed_all(ext_sum(a, b), d));
    assert(alg_diff(embed_all(a, d), embed_all(b, d)) =~= embed_all(ext_diff(a, b), d));
    assert(alg_scale(embed_all(a, d), embed(c, d)) =~= embed_all(ext_scale(a, c), d));
    assert forall|k: int| 0 <= k < d implies alg_product(embed_all(a, d), embed_all(b, d), d)[k]
        == embed_all(ext_product(a, b), d)[k] by {
        lemma_alg_acc_embedded(a, b, d, k, d);
    }
    assert(alg_product(embed_all(a, d), embed_all(b, d), d) =~= embed_all(ext_product(a, b), d));
}

/// A copy of an extension element.
pub fn copy_ext(a: &Vec<u64>) -> (r: Vec<u64>)
    ensures
        r@ == a@,
{
    let mut r: Vec<u64> = Vec::new();
    let mut i: usize = 0;
    while i < a.len()
        invariant
            i <= a.len(),
            r@ == a@.subrange(0, i as int),
        decreases a.len() - i,
    {
        r.push(a[i]);
        i = i + 1;
        assert(r@ =~= a@.subrange(0, i as int));
    }
    assert(r@ =~= a@);
    r
}

pub fn add_alg(a: &Vec<Vec<u64>>, b: &Vec<Vec<u64>>, e: usize) -> (r: Vec<Vec<u64>>)
    requires
        a.len() == b.len(),
        all_ext(ext_ints(a@), e as nat),
        all_ext(ext_ints(b@), e as nat),
    ensures
        r.len() == a.len(),
        ext_ints(r@) == alg_sum(ext_ints(a@), ext_ints(b@)),
        all_ext(ext_ints(r@), e as nat),
{
    let mut r: Vec<Vec<u64>> = Vec::new();
    let mut i: usize = 0;
    while i < a.len()
        invariant
            i <= a.len(),
            a.len() == b.len(),
            all_ext(ext_ints(a@), e as nat),
            all_ext(ext_ints(b@), e as nat),
            r.len() == i,
            forall|j: int| 0 <= j < i ==> ints(#[trigger] r@[j]@) == ext_sum(ints(a@[j]@), ints(b@[j]@)) && is_ext(ints(r@[j]@), e as nat),
        decreases a.len() - i,
    {
        assert(is_ext(ext_ints(a@)[i as int], e as nat) && is_ext(ext_ints(b@)[i as int], e as nat));
        r.push(add_ext(&a[i], &b[i]));
        i = i + 1;
    }
    assert(ext_ints(r@) =~= alg_sum(ext_ints(a@), ext_ints(b@)));
    r
}

pub fn sub_alg(a: &Vec<Vec<u64>>, b: &Vec<Vec<u64>>, e: usize) -> (r: Vec<Vec<u64>>)
    requires
        a.len() == b.len(),
        all_ext(ext_ints(a@), e as nat),
        all_ext(ext_ints(b@), e as nat),
    ensures
        r.len() == a.len(),
        ext_ints(r@) == alg_diff(ext_ints(a@), ext_ints(b@)),
        all_ext(ext_ints(r@), e as nat),
{
    let mut r: Vec<Vec<u64>> = Vec::new();
    let mut i: usize = 0;
    while i < a.len()
        invariant
            i <= a.len(),
            a.len() == b.len(),
            all_ext(ext_ints(a@), e as nat),
            all_ext(ext_ints(b@), e as nat),
            r.len() == i,
            forall|j: int| 0 <= j < i ==> ints(#[trigger] r@[j]@) == ext_diff(ints(a@[j]@), ints(b@[j]@)) && is_ext(ints(r@[j]@), e as nat),
        decreases a.len() - i,
    {
        assert(is_ext(ext_ints(a@)[i as int], e as nat) && is_ext(ext_ints(b@)[i as int], e as nat));
        r.push(sub_ext(&a[i], &b[i]));
        i = i + 1;
    }
    assert(ext_ints(r@) =~= alg_diff(ext_ints(a@), ext_ints(b@)));
    r
}

pub fn scalar_mul_alg(a: &Vec<Vec<u64>>, c: &Vec<u64>) -> (r: Vec<Vec<u64>>)
    requires
        is_ext(ints(c@), c.len() as nat),
        all_ext(ext_ints(a@), c.len() as nat),
    ensures
        r.len() == a.len(),
        ext_ints(r@) == alg_scale(ext_ints(a@), ints(c@)),
        all_ext(ext_ints(r@), c.len() as nat),
{
    let mut r: Vec<Vec<u64>> = Vec::new();
    let mut i: usize = 0;
    while i < a.len()
        invariant
            i <= a.len(),
            is_ext(ints(c@), c.len() as nat),
            all_ext(ext_ints(a@), c.len() as nat),
            r.len() == i,
            forall|j: int| 0 <= j < i ==> ints(#[trigger] r@[j]@) == ext_product(ints(c@), ints(a@[j]@)) && is_ext(ints(r@[j]@), c.len() as nat),
        decreases a.len() - i,
    {
        assert(is_ext(ext_ints(a@)[i as int], c.len() as nat));
        r.push(mul_ext(c, &a[i]));
        i = i + 1;
    }
    assert(ext_ints(r@) =~= alg_scale(ext_ints(a@), ints(c@)));
    r
}

/// Coefficient `k` of the product of two algebra elements.
fn mul_alg_coefficient(a: &Vec<Vec<u64>>, b: &Vec<Vec<u64>>, k: usize, e: usize) -> (r: Vec<u64>)
    requires
        a.len() == b.len(),
        k < a.len(),
        all_ext(ext_ints(a@), e as nat),
        all_ext(ext_ints(b@), e as nat),
    ensures
        ints(r@) == alg_acc(ext_ints(a@), ext_ints(b@), k as int, a.len() as nat, e as nat),
        is_ext(ints(r@), e as nat),
{
    let d = a.len();
    let mut acc: Vec<u64> = Vec::new();
    let mut z: usize = 0;
    while z < e
        invariant
            z <= e,
            acc@ == Seq::new(z as nat, |j: int| 0u64),
        decreases e - z,
    {
        acc.push(0);
        z = z + 1;
        assert(acc@ =~= Seq::new(z as nat, |j: int| 0u64));
    }
    assert(ints(acc@) =~= ext_zero(e as nat));
    let ghost av = ext_ints(a@);
    let ghost bv = ext_ints(b@);
    let mut i: usize = 0;
    while i < d
        invariant
            i <= d,
            d == a.len(),
            a.len() == b.len(),
            k < d,
            av == ext_ints(a@),
            bv == ext_ints(b@),
            all_ext(av, e as nat),
            all_ext(bv, e as nat),
            ints(acc@) == alg_acc(av, bv, k as int, i as nat, e as nat),
            is_ext(ints(acc@), e as nat),
        decreases d - i,
    {
        assert(is_ext(av[i as int], e as nat));
        let term = if i <= k {
            assert(is_ext(bv[k - i], e as nat));
            mul_ext(&a[i], &b[k - i])
        } else {
            assert(is_ext(bv[d - i + k], e as nat));
            let t = mul_ext(&a[i], &b[d - i + k]);
            scalar_mul_ext(&t, W)
        };
        assert(ints(term@) == alg_term(av, bv, k as int, i as int));
        acc = add_ext(&acc, &term);
        i = i + 1;
    }
    acc
}

/// Product of two algebra elements of the same degree over the extension of degree `e`.
pub fn mul_alg(a: &Vec<Vec<u64>>, b: &Vec<Vec<u64>>, e: usize) -> (r: Vec<Vec<u64>>)
    requires
        a.len() == b.len(),
        all_ext(ext_ints(a@), e as nat),
        all_ext(ext_ints(b@), e as nat),
    ensures
        r.len() == a.len(),
        ext_ints(r@) == alg_product(ext_ints(a@), ext_ints(b@), e as nat),
        all_ext(ext_ints(r@), e as nat),
{
    let mut r: Vec<Vec<u64>> = Vec::new();
    let mut k: usize = 0;
    while k < a.len()
        invariant
            k <= a.len(),
            a.len() == b.len(),
            all_ext(ext_ints(a@), e as nat),
            all_ext(ext_ints(b@), e as nat),
            r.len() == k,
            forall|j: int|
                0 <= j < k ==> ints(#[trigger] r@[j]@) == alg_acc(ext_ints(a@), ext_ints(b@), j, a.len() as nat, e as nat)
                    && is_ext(ints(r@[j]@), e as nat),
        decreases a.len() - k,
    {
        let c = mul_alg_coefficient(a, b, k, e);
        r.push(c);
        k = k + 1;
    }
    assert(ext_ints(r@) =~= alg_product(ext_ints(a@), ext_ints(b@), e as nat));
    r
}

} // verus!
