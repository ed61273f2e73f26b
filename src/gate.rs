use crate::algebra::{
    add_alg, alg_diff, alg_product, alg_scale, alg_sum, all_ext, copy_ext, embed, embed_all,
    ext_ints, lemma_alg_ops_embedded, mul_alg, scalar_mul_alg, sub_alg,
};
use crate::config::CircuitConfig;
use crate::ext::{
    add_ext, ext_diff, ext_product, ext_scale, ext_sum, ints, is_ext, lemma_ints_concat,
    lemma_ints_subrange, mul_ext, scalar_mul_ext, sub_ext,
};
use crate::field::{fsub, is_canonical, p};
use core::ops::Range;
use vstd::prelude::*;

verus! {

/// The slot of each operand within one operation's `4 * D` wires.
pub const MULTIPLICAND_0: usize = 0;
pub const MULTIPLICAND_1: usize = 1;
pub const ADDEND: usize = 2;
pub const OUTPUT: usize = 3;

/// First wire of operand `slot` of operation `i`, for extension degree `d`.
pub open spec fn slot_start(i: int, slot: int, d: int) -> int {
    4 * d * i + slot * d
}

/// The `d` coordinates of operand `slot` of operation `i` within a row of wires.
pub open spec fn operand<T>(w: Seq<T>, i: int, slot: int, d: int) -> Seq<T> {
    w.subrange(slot_start(i, slot, d), slot_start(i, slot, d) + d)
}

/// The weighted multiply-add `c0 * m0 * m1 + c1 * a` in the extension.
pub open spec fn weighted_mul_add(
    m0: Seq<int>,
    m1: Seq<int>,
    a: Seq<int>,
    c0: int,
    c1: int,
) -> Seq<int> {
    ext_sum(ext_scale(ext_product(m0, m1), c0), ext_scale(a, c1))
}

/// The `d` constraints of operation `i`: its output less the value it should hold.
pub open spec fn op_constraints(w: Seq<int>, c0: int, c1: int, i: int, d: int) -> Seq<int> {
    ext_diff(
        operand(w, i, OUTPUT as int, d),
        weighted_mul_add(
            operand(w, i, MULTIPLICAND_0 as int, d),
            operand(w, i, MULTIPLICAND_1 as int, d),
            operand(w, i, ADDEND as int, d),
            c0,
            c1,
        ),
    )
}

/// The constraints of the first `n` operations, in order.
pub open spec fn gate_constraints(w: Seq<int>, c0: int, c1: int, n: nat, d: int) -> Seq<int>
    decreases n,
{
    if n == 0 {
        seq![]
    } else {
        gate_constraints(w, c0, c1, (n - 1) as nat, d) + op_constraints(w, c0, c1, n - 1, d)
    }
}

/// The wires of operation `i` lie below those of `n` operations.
pub proof fn lemma_op_fits(i: int, n: int, d: int)
    requires
        0 <= i < n,
        0 < d,
    ensures
        4 * d * (i + 1) <= n * 4 * d,
        slot_start(i, 4, d) == 4 * d * (i + 1),
        0 <= slot_start(i, 0, d),
{
    assert(4 * d * (i + 1) <= n * 4 * d) by (nonlinear_arith)
        requires
            0 <= i < n,
            0 < d,
    ;
    assert(slot_start(i, 4, d) == 4 * d * (i + 1)) by (nonlinear_arith);
    assert(0 <= slot_start(i, 0, d)) by (nonlinear_arith)
        requires
            0 <= i,
            0 < d,
    ;
}

/// The weighted multiply-add `c0 * m0 * m1 + c1 * a` in the algebra over
/// the extension of degree `d`.
pub open spec fn alg_weighted_mul_add(
    m0: Seq<Seq<int>>,
    m1: Seq<Seq<int>>,
    a: Seq<Seq<int>>,
    c0: Seq<int>,
    c1: Seq<int>,
    d: int,
) -> Seq<Seq<int>> {
    alg_sum(alg_scale(alg_product(m0, m1, d as nat), c0), alg_scale(a, c1))
}

/// The `d` constraints of operation `i` over a row of extension wires.
pub open spec fn alg_op_constraints(
    w: Seq<Seq<int>>,
    c0: Seq<int>,
    c1: Seq<int>,
    i: int,
    d: int,
) -> Seq<Seq<int>> {
    alg_diff(
        operand(w, i, OUTPUT as int, d),
        alg_weighted_mul_add(
            operand(w, i, MULTIPLICAND_0 as int, d),
            operand(w, i, MULTIPLICAND_1 as int, d),
            operand(w, i, ADDEND as int, d),
            c0,
            c1,
            d,
        ),
    )
}

/// The constraints of the first `n` operations over a row of extension wires.
pub open spec fn alg_gate_constraints(
    w: Seq<Seq<int>>,
    c0: Seq<int>,
    c1: Seq<int>,
    n: nat,
    d: int,
) -> Seq<Seq<int>>
    decreases n,
{
    if n == 0 {
        seq![]
    } else {
        alg_gate_constraints(w, c0, c1, (n - 1) as nat, d) + alg_op_constraints(w, c0, c1, n - 1, d)
    }
}

/// Evaluating a row of base field wires and constants over the extension,
/// each value embedded as an extension element, gives the base field
/// evaluation of that row, embedded, at every coordinate.
pub proof fn lemma_base_and_extension_evaluations_agree(
    w: Seq<int>,
    c0: int,
    c1: int,
    n: nat,
    d: int,
)
    requires
        0 < d,
        w.len() >= n * 4 * d,
    ensures
        alg_gate_constraints(embed_all(w, d as nat), embed(c0, d as nat), embed(c1, d as nat), n, d)
            == embed_all(gate_constraints(w, c0, c1, n, d), d as nat),
    decreases n,
{
    if n > 0 {
        assert((n - 1) * 4 * d <= n * 4 * d) by (nonlinear_arith)
            requires
                0 < d,
                n > 0,
        ;
        lemma_base_and_extension_evaluations_agree(w, c0, c1, (n - 1) as nat, d);
        let i = n - 1;
        let ew = embed_all(w, d as nat);
        let dn = d as nat;
        assert forall|slot: int| 0 <= slot < 4 implies #[trigger] operand(ew, i, slot, d) == embed_all(
            operand(w, i, slot, d),
            dn,
        ) && operand(w, i, slot, d).len() == d by {
            lemma_wire_ranges_within_capacity(n as int, d, i, slot, i, slot);
            assert(operand(ew, i, slot, d) =~= embed_all(operand(w, i, slot, d), dn));
        }
        assert(operand(ew, i, 0, d) == embed_all(operand(w, i, 0, d), dn));
        assert(operand(ew, i, 1, d) == embed_all(operand(w, i, 1, d), dn));
        assert(operand(ew, i, 2, d) == embed_all(operand(w, i, 2, d), dn));
        assert(operand(ew, i, 3, d) == embed_all(operand(w, i, 3, d), dn));
        let m0 = operand(w, i, MULTIPLICAND_0 as int, d);
        let m1 = operand(w, i, MULTIPLICAND_1 as int, d);
        let a = operand(w, i, ADDEND as int, d);
        let out = operand(w, i, OUTPUT as int, d);
        let prod = ext_product(m0, m1);
        lemma_alg_ops_embedded(m0, m1, c0, dn);
        lemma_alg_ops_embedded(prod, a, c0, dn);
        lemma_alg_ops_embedded(a, prod, c1, dn);
        let sp = ext_scale(prod, c0);
        let sa = ext_scale(a, c1);
        lemma_alg_ops_embedded(sp, sa, c0, dn);
        let wma = ext_sum(sp, sa);
        lemma_alg_ops_embedded(out, wma, c0, dn);
        assert(alg_op_constraints(ew, embed(c0, dn), embed(c1, dn), i, d) == embed_all(
            op_constraints(w, c0, c1, i, d),
            dn,
        ));
        let prev = gate_constraints(w, c0, c1, (n - 1) as nat, d);
        let cur = op_constraints(w, c0, c1, i, d);
        assert(embed_all(prev + cur, dn) =~= embed_all(prev, dn) + embed_all(cur, dn));
    }
}

/// Copies the algebra element held by `range` of a row of extension wires.
fn get_local_ext_algebra(wires: &Vec<Vec<u64>>, range: Range<usize>, d: usize) -> (r: Vec<Vec<u64>>)
    requires
        range.start <= range.end <= wires.len(),
        all_ext(ext_ints(wires@), d as nat),
    ensures
        r.len() == range.end - range.start,
        ext_ints(r@) == ext_ints(wires@).subrange(range.start as int, range.end as int),
        all_ext(ext_ints(r@), d as nat),
{
    let mut r: Vec<Vec<u64>> = Vec::new();
    let mut j: usize = range.start;
    while j < range.end
        invariant
            range.start <= j <= range.end <= wires.len(),
            ext_ints(r@) == ext_ints(wires@).subrange(range.start as int, j as int),
        decreases range.end - j,
    {
        let c = copy_ext(&wires[j]);
        let ghost before = r@;
        r.push(c);
        assert(ext_ints(r@) =~= ext_ints(before).push(ints(c@)));
        assert(ext_ints(r@) =~= ext_ints(wires@).subrange(range.start as int, j + 1));
        j = j + 1;
    }
    proof {
        assert forall|k: int| 0 <= k < r.len() implies is_ext(#[trigger] ext_ints(r@)[k], d as nat) by {
            assert(ext_ints(r@)[k] == ext_ints(wires@)[range.start + k]);
        }
    }
    r
}

/// A row whose every output holds the weighted multiply-add of its
/// operation's inputs meets all of its constraints: each evaluates to
/// zero.
pub proof fn lemma_satisfied_row_evaluates_to_zero(
    w: Seq<int>,
    c0: int,
    c1: int,
    n: nat,
    d: int,
)
    requires
        0 < d,
        w.len() >= n * 4 * d,
        forall|i: int|
            0 <= i < n ==> #[trigger] operand(w, i, OUTPUT as int, d) == weighted_mul_add(
                operand(w, i, MULTIPLICAND_0 as int, d),
                operand(w, i, MULTIPLICAND_1 as int, d),
                operand(w, i, ADDEND as int, d),
                c0,
                c1,
            ),
    ensures
        gate_constraints(w, c0, c1, n, d) == Seq::new(n * d as nat, |k: int| 0int),
    decreases n,
{
    if n > 0 {
        assert((n - 1) * 4 * d <= n * 4 * d) by (nonlinear_arith)
            requires
                0 < d,
                n > 0,
        ;
        lemma_satisfied_row_evaluates_to_zero(w, c0, c1, (n - 1) as nat, d);
        let i = n - 1;
        lemma_op_fits(i, n as int, d);
        let out = operand(w, i, OUTPUT as int, d);
        assert(out.len() == d);
        let z = op_constraints(w, c0, c1, i, d);
        assert forall|k: int| 0 <= k < d implies z[k] == 0 by {
            assert(z[k] == fsub(out[k], out[k]));
            assert(out[k] - out[k] == 0);
            assert(0int % p() == 0);
        }
        assert((n - 1) * d + d == n * d) by (nonlinear_arith);
        assert(gate_constraints(w, c0, c1, n, d) =~= Seq::new(n * d as nat, |k: int| 0int));
    }
}

/// The operands of every operation lie below `num_ops * 4 * d`, the wires of
/// the last operation's output end exactly there, and the operands of two
/// distinct operations, or of two slots of one operation, never overlap.
pub proof fn lemma_wire_ranges_within_capacity(n: int, d: int, i: int, slot: int, i2: int, slot2: int)
    requires
        0 < d,
        0 <= i < n,
        0 <= slot < 4,
        0 <= i2 < n,
        0 <= slot2 < 4,
    ensures
        0 <= slot_start(i, slot, d),
        slot_start(i, slot, d) + d <= n * 4 * d,
        slot_start(n - 1, OUTPUT as int, d) + d == n * 4 * d,
        i != i2 || slot != slot2 ==> slot_start(i, slot, d) + d <= slot_start(i2, slot2, d)
            || slot_start(i2, slot2, d) + d <= slot_start(i, slot, d),
{
    lemma_op_fits(i, n, d);
    assert(slot_start(i, slot, d) + d <= slot_start(i, 4, d)) by (nonlinear_arith)
        requires
            slot < 4,
            0 < d,
    ;
    assert(slot_start(n - 1, OUTPUT as int, d) + d == n * 4 * d) by (nonlinear_arith);
    assert(0 <= slot_start(i, slot, d)) by (nonlinear_arith)
        requires
            0 <= i,
            0 <= slot,
            0 < d,
    ;
    if i != i2 || slot != slot2 {
        let a = 4 * i + slot;
        let b = 4 * i2 + slot2;
        assert(slot_start(i, slot, d) == a * d && slot_start(i2, slot2, d) == b * d)
            by (nonlinear_arith)
            requires
                a == 4 * i + slot,
                b == 4 * i2 + slot2,
        ;
        if a == b {
            if i < i2 {
                assert(4 * i + 4 <= 4 * i2);
            } else if i2 < i {
                assert(4 * i2 + 4 <= 4 * i);
            }
        }
        assert(a != b);
        if a < b {
            assert(a * d + d <= b * d) by (nonlinear_arith)
                requires
                    a < b,
                    0 < d,
            ;
        } else {
            assert(b * d + d <= a * d) by (nonlinear_arith)
                requires
                    b < a,
                    0 < d,
            ;
        }
    }
}

/// The constraints read no wire at or beyond `n * 4 * d`: they are the same
/// on any row that agrees with `w` below that column.
pub proof fn lemma_constraints_read_only_gate_wires(w: Seq<int>, c0: int, c1: int, n: nat, d: int)
    requires
        0 < d,
        w.len() >= n * 4 * d,
    ensures
        gate_constraints(w, c0, c1, n, d) == gate_constraints(
            w.subrange(0, n * 4 * d),
            c0,
            c1,
            n,
            d,
        ),
{
    lemma_constraints_prefix(w, c0, c1, n, n, d);
}

proof fn lemma_constraints_prefix(w: Seq<int>, c0: int, c1: int, n: nat, m: nat, d: int)
    requires
        0 < d,
        m <= n,
        w.len() >= n * 4 * d,
    ensures
        gate_constraints(w, c0, c1, m, d) == gate_constraints(w.subrange(0, n * 4 * d), c0, c1, m, d),
    decreases m,
{
    if m > 0 {
        lemma_constraints_prefix(w, c0, c1, n, (m - 1) as nat, d);
        let v = w.subrange(0, n * 4 * d);
        let i = m - 1;
        assert forall|slot: int| 0 <= slot < 4 implies #[trigger] operand(v, i, slot, d) == operand(w, i, slot, d) by {
            lemma_wire_ranges_within_capacity(n as int, d, i, slot, i, slot);
            assert(operand(v, i, slot, d) =~= operand(w, i, slot, d));
        }
        assert(operand(v, i, 0, d) == operand(w, i, 0, d));
        assert(operand(v, i, 1, d) == operand(w, i, 1, d));
        assert(operand(v, i, 2, d) == operand(w, i, 2, d));
        assert(operand(v, i, 3, d) == operand(w, i, 3, d));
    }
}

/// The extension constraints read no wire at or beyond `n * 4 * d`: they are
/// the same on any row of extension wires that agrees with `w` below that
/// column.
pub proof fn lemma_alg_constraints_read_only_gate_wires(
    w: Seq<Seq<int>>,
    c0: Seq<int>,
    c1: Seq<int>,
    n: nat,
    d: int,
)
    requires
        0 < d,
        w.len() >= n * 4 * d,
    ensures
        alg_gate_constraints(w, c0, c1, n, d) == alg_gate_constraints(
            w.subrange(0, n * 4 * d),
            c0,
            c1,
            n,
            d,
        ),
{
    lemma_alg_constraints_prefix(w, c0, c1, n, n, d);
}

proof fn lemma_alg_constraints_prefix(
    w: Seq<Seq<int>>,
    c0: Seq<int>,
    c1: Seq<int>,
    n: nat,
    m: nat,
    d: int,
)
    requires
        0 < d,
        m <= n,
        w.len() >= n * 4 * d,
    ensures
        alg_gate_constraints(w, c0, c1, m, d) == alg_gate_constraints(
            w.subrange(0, n * 4 * d),
            c0,
            c1,
            m,
            d,
        ),
    decreases m,
{
    if m > 0 {
        lemma_alg_constraints_prefix(w, c0, c1, n, (m - 1) as nat, d);
        let v = w.subrange(0, n * 4 * d);
        let i = m - 1;
        assert forall|slot: int| 0 <= slot < 4 implies #[trigger] operand(v, i, slot, d) == operand(w, i, slot, d) by {
            lemma_wire_ranges_within_capacity(n as int, d, i, slot, i, slot);
            assert(operand(v, i, slot, d) =~= operand(w, i, slot, d));
        }
        assert(operand(v, i, 0, d) == operand(w, i, 0, d));
        assert(operand(v, i, 1, d) == operand(w, i, 1, d));
        assert(operand(v, i, 2, d) == operand(w, i, 2, d));
        assert(operand(v, i, 3, d) == operand(w, i, 3, d));
    }
}

/// Copies the extension element held by `range` of a row of base field wires.
fn get_local_ext(wires: &Vec<u64>, range: Range<usize>) -> (r: Vec<u64>)
    requires
        range.start <= range.end <= wires.len(),
        is_ext(ints(wires@), wires.len() as nat),
    ensures
        ints(r@) == ints(wires@).subrange(range.start as int, range.end as int),
        is_ext(ints(r@), (range.end - range.start) as nat),
{
    let mut r: Vec<u64> = Vec::new();
    let mut j: usize = range.start;
    while j < range.end
        invariant
            range.start <= j <= range.end <= wires.len(),
            r@ == wires@.subrange(range.start as int, j as int),
        decreases range.end - j,
    {
        r.push(wires[j]);
        j = j + 1;
        assert(r@ =~= wires@.subrange(range.start as int, j as int));
    }
    proof {
        lemma_ints_subrange(wires@, range.start as int, range.end as int);
        assert forall|k: int| 0 <= k < r.len() implies is_canonical(#[trigger] ints(r@)[k]) by {
            assert(ints(r@)[k] == ints(wires@)[range.start + k]);
        }
    }
    r
}

/// A gate which performs weighted multiply-adds, `result = c0 * x * y + c1 * z`,
/// over the degree-`D` extension; as many as the routed wires allow are packed
/// into one row.
#[derive(Clone, Copy, Debug, PartialEq, Eq)]
pub struct ArithmeticExtensionGate<const D: usize> {
    /// Number of operations performed by one gate.
    pub num_ops: usize,
}

impl<const D: usize> ArithmeticExtensionGate<D> {
    /// The wires of all operations fit in a `usize`.
    pub open spec fn wf(self) -> bool {
        0 < D && self.num_ops * 4 * D <= usize::MAX
    }

    pub fn new_from_config(config: &CircuitConfig) -> (r: Self)
        requires
            0 < D <= usize::MAX / 4,
        ensures
            r.num_ops == config.num_routed_wires as int / (4 * D as int),
            r.wf(),
    {
        Self { num_ops: Self::num_ops(config) }
    }

    /// The largest number of operations whose wires fit among the routed wires.
    pub fn num_ops(config: &CircuitConfig) -> (r: usize)
        requires
            0 < D <= usize::MAX / 4,
        ensures
            r == config.num_routed_wires as int / (4 * D as int),
            r * 4 * D <= config.num_routed_wires,
    {
        let wires_per_op = 4 * D;
        let r = config.num_routed_wires / wires_per_op;
        proof {
            vstd::arithmetic::div_mod::lemma_fundamental_div_mod(
                config.num_routed_wires as int,
                wires_per_op as int,
            );
            vstd::arithmetic::div_mod::lemma_mod_pos_bound(
                config.num_routed_wires as int,
                wires_per_op as int,
            );
            let x = config.num_routed_wires as int;
            let w = wires_per_op as int;
            assert(r * 4 * D <= x) by (nonlinear_arith)
                requires
                    x == w * (x / w) + x % w,
                    x % w >= 0,
                    r == x / w,
                    w == 4 * D,
            ;
        }
        r
    }

    /// The wires of operand `slot` of operation `i`.
    fn slot_range(i: usize, slot: usize) -> (r: Range<usize>)
        requires
            0 < D,
            slot < 4,
            4 * D * (i + 1) <= usize::MAX,
        ensures
            r.start == slot_start(i as int, slot as int, D as int),
            r.end == r.start + D,
    {
        proof {
            assert(4 * D * i + slot * D + D <= 4 * D * (i + 1)) by (nonlinear_arith)
                requires
                    slot < 4,
                    0 < D,
            ;
            assert(4 * D * i <= 4 * D * (i + 1) && slot * D <= 4 * D && 4 * D <= 4 * D * (i + 1))
                by (nonlinear_arith)
                requires
                    slot < 4,
                    0 < D,
            ;
        }
        let start = 4 * D * i + slot * D;
        start..start + D
    }

    pub fn wires_ith_multiplicand_0(i: usize) -> (r: Range<usize>)
        requires
            0 < D,
            4 * D * (i + 1) <= usize::MAX,
        ensures
            r.start == slot_start(i as int, MULTIPLICAND_0 as int, D as int),
            r.end == r.start + D,
    {
        Self::slot_range(i, MULTIPLICAND_0)
    }

    pub fn wires_ith_multiplicand_1(i: usize) -> (r: Range<usize>)
        requires
            0 < D,
            4 * D * (i + 1) <= usize::MAX,
        ensures
            r.start == slot_start(i as int, MULTIPLICAND_1 as int, D as int),
            r.end == r.start + D,
    {
        Self::slot_range(i, MULTIPLICAND_1)
    }

    pub fn wires_ith_addend(i: usize) -> (r: Range<usize>)
        requires
            0 < D,
            4 * D * (i + 1) <= usize::MAX,
        ensures
            r.start == slot_start(i as int, ADDEND as int, D as int),
            r.end == r.start + D,
    {
        Self::slot_range(i, ADDEND)
    }

    pub fn wires_ith_output(i: usize) -> (r: Range<usize>)
        requires
            0 < D,
            4 * D * (i + 1) <= usize::MAX,
        ensures
            r.start == slot_start(i as int, OUTPUT as int, D as int),
            r.end == r.start + D,
    {
        Self::slot_range(i, OUTPUT)
    }

    /// Wires used by one row: four operands of `D` coordinates per operation.
    pub fn num_wires(&self) -> (r: usize)
        requires
            self.wf(),
        ensures
            r == self.num_ops * 4 * D,
    {
        proof {
            assert(self.num_ops * 4 <= self.num_ops * 4 * D) by (nonlinear_arith)
                requires
                    0 < D,
            ;
        }
        self.num_ops * 4 * D
    }

    /// The two weights `c0` and `c1`.
    pub fn num_constants(&self) -> (r: usize)
        ensures
            r == 2,
    {
        2
    }

    /// The largest total degree of a constraint in the wires and constants:
    /// `c0 * m0 * m1` is a product of three of them.
    pub fn degree(&self) -> (r: usize)
        ensures
            r == 3,
    {
        3
    }

    /// One constraint per extension coordinate of each operation.
    pub fn num_constraints(&self) -> (r: usize)
        requires
            self.wf(),
        ensures
            r == self.num_ops * D,
    {
        proof {
            assert(self.num_ops * D <= self.num_ops * 4 * D) by (nonlinear_arith);
        }
        self.num_ops * D
    }

    /// Evaluates the constraints of one row whose wires and constants are
    /// extension elements; the result holds `D` extension elements for each
    /// operation, all zero exactly when every output holds its weighted
    /// multiply-add.
    pub fn eval_unfiltered(&self, local_constants: &Vec<Vec<u64>>, local_wires: &Vec<Vec<u64>>) -> (r:
        Vec<Vec<u64>>)
        requires
            self.wf(),
            local_constants.len() >= 2,
            local_wires.len() >= self.num_ops * 4 * D,
            all_ext(ext_ints(local_constants@), D as nat),
            all_ext(ext_ints(local_wires@), D as nat),
        ensures
            ext_ints(r@) == alg_gate_constraints(
                ext_ints(local_wires@),
                ext_ints(local_constants@)[0],
                ext_ints(local_constants@)[1],
                self.num_ops as nat,
                D as int,
            ),
    {
        let ghost w = ext_ints(local_wires@);
        let ghost c0 = ext_ints(local_constants@)[0];
        let ghost c1 = ext_ints(local_constants@)[1];
        let const_0 = &local_constants[0];
        let const_1 = &local_constants[1];
        assert(is_ext(c0, D as nat) && is_ext(c1, D as nat));
        let mut constraints: Vec<Vec<u64>> = Vec::new();
        let mut i: usize = 0;
        while i < self.num_ops
            invariant
                self.wf(),
                i <= self.num_ops,
                local_wires.len() >= self.num_ops * 4 * D,
                w == ext_ints(local_wires@),
                all_ext(w, D as nat),
                c0 == ints(const_0@),
                c1 == ints(const_1@),
                is_ext(c0, D as nat),
                is_ext(c1, D as nat),
                ext_ints(constraints@) == alg_gate_constraints(w, c0, c1, i as nat, D as int),
            decreases self.num_ops - i,
        {
            proof {
                lemma_op_fits(i as int, self.num_ops as int, D as int);
            }
            let multiplicand_0 = get_local_ext_algebra(local_wires, Self::wires_ith_multiplicand_0(i), D);
            let multiplicand_1 = get_local_ext_algebra(local_wires, Self::wires_ith_multiplicand_1(i), D);
            let addend = get_local_ext_algebra(local_wires, Self::wires_ith_addend(i), D);
            let output = get_local_ext_algebra(local_wires, Self::wires_ith_output(i), D);
            let product = mul_alg(&multiplicand_0, &multiplicand_1, D);
            assert(ints(const_0@).len() == const_0.len() && ints(const_1@).len() == const_1.len());
            let scaled_product = scalar_mul_alg(&product, const_0);
            let scaled_addend = scalar_mul_alg(&addend, const_1);
            let computed_output = add_alg(&scaled_product, &scaled_addend, D);
            let mut diff = sub_alg(&output, &computed_output, D);
            let ghost before = constraints@;
            let ghost added = diff@;
            constraints.append(&mut diff);
            proof {
                assert(ext_ints(before + added) =~= ext_ints(before) + ext_ints(added));
            }
            i = i + 1;
        }
        constraints
    }

    /// Evaluates the constraints of one row of base field wires, appending
    /// them to `yield_constr`; all are zero exactly when every output holds
    /// its weighted multiply-add.
    pub fn eval_unfiltered_base_one(
        &self,
        local_constants: &Vec<u64>,
        local_wires: &Vec<u64>,
        yield_constr: &mut Vec<u64>,
    )
        requires
            self.wf(),
            local_constants.len() >= 2,
            local_wires.len() >= self.num_ops * 4 * D,
            is_ext(ints(local_constants@), local_constants.len() as nat),
            is_ext(ints(local_wires@), local_wires.len() as nat),
        ensures
            ints(final(yield_constr)@) == ints(old(yield_constr)@) + gate_constraints(
                ints(local_wires@),
                local_constants@[0] as int,
                local_constants@[1] as int,
                self.num_ops as nat,
                D as int,
            ),
    {
        let const_0 = local_constants[0];
        let const_1 = local_constants[1];
        assert(is_canonical(ints(local_constants@)[0]) && is_canonical(ints(local_constants@)[1]));
        let ghost w = ints(local_wires@);
        let ghost start = ints(yield_constr@);
        let mut i: usize = 0;
        while i < self.num_ops
            invariant
                self.wf(),
                i <= self.num_ops,
                local_wires.len() >= self.num_ops * 4 * D,
                w == ints(local_wires@),
                is_ext(w, local_wires.len() as nat),
                is_canonical(const_0 as int),
                is_canonical(const_1 as int),
                const_0 == local_constants@[0],
                const_1 == local_constants@[1],
                ints(yield_constr@) == start + gate_constraints(
                    w,
                    const_0 as int,
                    const_1 as int,
                    i as nat,
                    D as int,
                ),
            decreases self.num_ops - i,
        {
            proof {
                lemma_op_fits(i as int, self.num_ops as int, D as int);
            }
            let multiplicand_0 = get_local_ext(local_wires, Self::wires_ith_multiplicand_0(i));
            let multiplicand_1 = get_local_ext(local_wires, Self::wires_ith_multiplicand_1(i));
            let addend = get_local_ext(local_wires, Self::wires_ith_addend(i));
            let output = get_local_ext(local_wires, Self::wires_ith_output(i));
            let product = mul_ext(&multiplicand_0, &multiplicand_1);
            let scaled_product = scalar_mul_ext(&product, const_0);
            let scaled_addend = scalar_mul_ext(&addend, const_1);
            let computed_output = add_ext(&scaled_product, &scaled_addend);
            let mut diff = sub_ext(&output, &computed_output);
            let ghost before = yield_constr@;
            let ghost added = diff@;
            yield_constr.append(&mut diff);
            proof {
                lemma_ints_concat(before, added);
            }
            i = i + 1;
        }
    }
}

} // verus!
