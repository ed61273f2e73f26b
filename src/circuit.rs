use crate::algebra::{alg_acc, alg_diff, alg_product, alg_scale, alg_sum, alg_term, ext_zero};
use crate::field::{fmul, is_canonical, p, ORDER};
use crate::gate::{
    alg_gate_constraints, alg_op_constraints, lemma_op_fits, lemma_wire_ranges_within_capacity,
    operand, slot_start,
    ArithmeticExtensionGate,
};
use core::ops::Range;
use crate::algebra::{all_ext, copy_ext, ext_ints};
use crate::ext::{
    add_ext, ext_diff, ext_product, ext_scale, ext_sum, ints, is_ext, mul_ext, scalar_mul_ext,
    sub_ext, W,
};
use vstd::prelude::*;

verus! {

/// A reference to one extension value of a circuit.
#[derive(Clone, Copy, Debug, PartialEq, Eq, Structural)]
pub struct ExtensionTarget(pub usize);

/// One arithmetic operation of a circuit; its result becomes a new target.
#[derive(Clone, Copy, Debug, PartialEq, Eq, Structural)]
pub enum ExtOp {
    Add(usize, usize),
    Sub(usize, usize),
    Mul(usize, usize),
    /// Multiplication by a base field constant.
    MulBase(u64, usize),
}

/// The value of `op` over the values `v` of the targets before it.
pub open spec fn op_value(v: Seq<Seq<int>>, op: ExtOp) -> Seq<int> {
    match op {
        ExtOp::Add(a, b) => ext_sum(v[a as int], v[b as int]),
        ExtOp::Sub(a, b) => ext_diff(v[a as int], v[b as int]),
        ExtOp::Mul(a, b) => ext_product(v[a as int], v[b as int]),
        ExtOp::MulBase(c, a) => ext_scale(v[a as int], c as int),
    }
}

/// The values of all targets of a circuit: the inputs, then the result of
/// each operation in turn.
pub open spec fn circuit_values(inputs: Seq<Seq<int>>, ops: Seq<ExtOp>) -> Seq<Seq<int>>
    decreases ops.len(),
{
    if ops.len() == 0 {
        inputs
    } else {
        let v = circuit_values(inputs, ops.drop_last());
        v.push(op_value(v, ops.last()))
    }
}

/// The values of a sequence of targets.
pub open spec fn target_values(v: Seq<Seq<int>>, ts: Seq<ExtensionTarget>) -> Seq<Seq<int>> {
    ts.map_values(|t: ExtensionTarget| v[t.0 as int])
}

pub proof fn lemma_values_push(inputs: Seq<Seq<int>>, ops: Seq<ExtOp>, op: ExtOp)
    ensures
        circuit_values(inputs, ops.push(op)) == circuit_values(inputs, ops).push(
            op_value(circuit_values(inputs, ops), op),
        ),
        circuit_values(inputs, ops).len() == inputs.len() + ops.len(),
{
    assert(ops.push(op).drop_last() =~= ops);
    lemma_values_len(inputs, ops);
}

pub proof fn lemma_values_len(inputs: Seq<Seq<int>>, ops: Seq<ExtOp>)
    ensures
        circuit_values(inputs, ops).len() == inputs.len() + ops.len(),
    decreases ops.len(),
{
    if ops.len() > 0 {
        lemma_values_len(inputs, ops.drop_last());
    }
}

/// Records the operations of a circuit over `num_inputs` input values.
#[derive(Clone, Debug)]
pub struct CircuitBuilder {
    pub num_inputs: usize,
    pub ops: Vec<ExtOp>,
}

impl CircuitBuilder {
    pub open spec fn num_targets(self) -> int {
        self.num_inputs + self.ops@.len()
    }

    /// The values of the targets when the inputs hold `inputs`.
    pub open spec fn values(self, inputs: Seq<Seq<int>>) -> Seq<Seq<int>> {
        circuit_values(inputs, self.ops@)
    }

    /// Every target of `ts` exists already.
    pub open spec fn holds(self, ts: Seq<ExtensionTarget>) -> bool {
        forall|j: int| 0 <= j < ts.len() ==> (#[trigger] ts[j]).0 < self.num_targets()
    }

    /// `self` holds the operations of `earlier`, and perhaps more after them.
    /// Each operation reads only the inputs and the targets before it, so the
    /// circuit can be evaluated.
    pub open spec fn runnable(self) -> bool {
        ops_ok(self.num_inputs as int, self.ops@)
    }

    pub open spec fn extends(self, earlier: Self) -> bool {
        self.num_inputs == earlier.num_inputs && earlier.ops@.len() <= self.ops@.len()
            && self.ops@.subrange(0, earlier.ops@.len() as int) == earlier.ops@
    }

    pub fn new(num_inputs: usize) -> (r: Self)
        ensures
            r.num_inputs == num_inputs,
            r.ops@.len() == 0,
            r.runnable(),
    {
        CircuitBuilder { num_inputs, ops: Vec::new() }
    }

    /// The target of input `i`.
    pub fn input(&self, i: usize) -> (r: ExtensionTarget)
        requires
            i < self.num_inputs,
        ensures
            r.0 == i,
    {
        ExtensionTarget(i)
    }

    fn push_op(&mut self, op: ExtOp) -> (r: ExtensionTarget)
        requires
            old(self).num_targets() < usize::MAX,
        ensures
            final(self).num_inputs == old(self).num_inputs,
            final(self).ops@ == old(self).ops@.push(op),
            r.0 == old(self).num_targets(),
            old(self).runnable() && op_ok(op, old(self).num_targets()) ==> final(self).runnable(),
    {
        let r = ExtensionTarget(self.num_inputs + self.ops.len());
        self.ops.push(op);
        proof {
            if old(self).runnable() && op_ok(op, old(self).num_targets()) {
                assert forall|k: int| 0 <= k < self.ops@.len() implies op_ok(
                    #[trigger] self.ops@[k],
                    self.num_inputs + k,
                ) by {
                    if k < old(self).ops@.len() {
                        assert(self.ops@[k] == old(self).ops@[k]);
                    }
                }
            }
        }
        r
    }
}

/// `op` reads target `t`.
pub open spec fn op_reads(op: ExtOp, t: int) -> bool {
    match op {
        ExtOp::Add(a, b) => t == a || t == b,
        ExtOp::Sub(a, b) => t == a || t == b,
        ExtOp::Mul(a, b) => t == a || t == b,
        ExtOp::MulBase(c, a) => t == a,
    }
}

/// The indices of the targets in `ts`.
pub open spec fn target_set(ts: Seq<ExtensionTarget>) -> Set<int> {
    Set::new(|t: int| exists|j: int| 0 <= j < ts.len() && ts[j].0 == t)
}

impl CircuitBuilder {
    /// The operations `self` has beyond `earlier` read only targets made
    /// after `earlier`, and targets of `allowed`.
    pub open spec fn reads_within(self, earlier: Self, allowed: Set<int>) -> bool {
        forall|k: int, t: int|
            earlier.ops@.len() <= k < self.ops@.len() && #[trigger] op_reads(self.ops@[k], t) ==> t
                >= earlier.num_targets() || allowed.contains(t)
    }
}

/// Adding one operation that reads only targets made after `start`, or
/// targets of `allowed`, keeps `reads_within`.
pub proof fn lemma_reads_push(
    next: CircuitBuilder,
    prev: CircuitBuilder,
    start: CircuitBuilder,
    allowed: Set<int>,
    op: ExtOp,
)
    requires
        next.num_inputs == prev.num_inputs,
        next.ops@ == prev.ops@.push(op),
        prev.extends(start),
        prev.reads_within(start, allowed),
        forall|t: int| #[trigger] op_reads(op, t) ==> t >= start.num_targets() || allowed.contains(t),
    ensures
        next.reads_within(start, allowed),
{
    assert forall|k: int, t: int|
        start.ops@.len() <= k < next.ops@.len() && #[trigger] op_reads(next.ops@[k], t) implies t
            >= start.num_targets() || allowed.contains(t) by {
        if k < prev.ops@.len() {
            assert(next.ops@[k] == prev.ops@[k]);
        }
    }
}

/// Reads within `inner` after `mid`, and within `outer` from `start` to
/// `mid`, are reads within `outer` from `start`, when what `inner` allows is
/// made after `start` or allowed by `outer`.
pub proof fn lemma_reads_trans(
    last: CircuitBuilder,
    mid: CircuitBuilder,
    start: CircuitBuilder,
    inner: Set<int>,
    outer: Set<int>,
)
    requires
        last.extends(mid),
        mid.extends(start),
        mid.reads_within(start, outer),
        last.reads_within(mid, inner),
        forall|t: int| #[trigger] inner.contains(t) ==> t >= start.num_targets() || outer.contains(t),
    ensures
        last.reads_within(start, outer),
{
    assert forall|k: int, t: int|
        start.ops@.len() <= k < last.ops@.len() && #[trigger] op_reads(last.ops@[k], t) implies t
            >= start.num_targets() || outer.contains(t) by {
        if k < mid.ops@.len() {
            assert(last.ops@[k] == last.ops@.subrange(0, mid.ops@.len() as int)[k]);
        }
    }
}

pub proof fn lemma_reads_weaken(
    later: CircuitBuilder,
    earlier: CircuitBuilder,
    small: Set<int>,
    large: Set<int>,
)
    requires
        later.reads_within(earlier, small),
        forall|t: int| #[trigger] small.contains(t) ==> t >= earlier.num_targets() || large.contains(t),
    ensures
        later.reads_within(earlier, large),
{
}

/// The operations applied coordinate by coordinate to two algebra targets.
#[derive(Clone, Copy, Debug, PartialEq, Eq, Structural)]
pub enum ZipKind {
    Add,
    Sub,
    Mul,
}

pub open spec fn zip_value(kind: ZipKind, x: Seq<int>, y: Seq<int>) -> Seq<int> {
    match kind {
        ZipKind::Add => ext_sum(x, y),
        ZipKind::Sub => ext_diff(x, y),
        ZipKind::Mul => ext_product(x, y),
    }
}

impl CircuitBuilder {
    /// One new target per coordinate `j`, holding `a[j]` combined with `b[j]`.
    fn zip_op(&mut self, kind: ZipKind, a: &Vec<ExtensionTarget>, b: &Vec<ExtensionTarget>) -> (r:
        Vec<ExtensionTarget>)
        requires
            a.len() == b.len(),
            old(self).holds(a@),
            old(self).holds(b@),
            old(self).num_targets() + a.len() <= usize::MAX,
        ensures
            final(self).extends(*old(self)),
            old(self).runnable() ==> final(self).runnable(),
            final(self).num_targets() == old(self).num_targets() + a.len(),
            final(self).holds(r@),
            final(self).reads_within(*old(self), target_set(a@) + target_set(b@)),
            forall|k: int| 0 <= k < r.len() ==> (#[trigger] r@[k]).0 >= old(self).num_targets(),
            r.len() == a.len(),
            forall|inp: Seq<Seq<int>>, k: int|
                inp.len() == old(self).num_inputs && 0 <= k < a.len() ==> #[trigger] final(self).values(inp)[r@[k].0 as int] == zip_value(
                    kind,
                    old(self).values(inp)[a@[k].0 as int],
                    old(self).values(inp)[b@[k].0 as int],
                ),
    {
        let ghost start = *self;
        let mut r: Vec<ExtensionTarget> = Vec::new();
        let mut j: usize = 0;
        proof {
            assert(self.ops@.subrange(0, self.ops@.len() as int) =~= self.ops@);
        }
        while j < a.len()
            invariant
                j <= a.len(),
                a.len() == b.len(),
                start.holds(a@),
                start.holds(b@),
                start.num_targets() + a.len() <= usize::MAX,
                self.extends(start),
                start.runnable() ==> self.runnable(),
                self.num_targets() == start.num_targets() + j,
                r.len() == j,
                self.reads_within(start, target_set(a@) + target_set(b@)),
                forall|k: int| 0 <= k < j ==> (#[trigger] r@[k]).0 == start.num_targets() + k,
                forall|inp: Seq<Seq<int>>, k: int|
                    inp.len() == start.num_inputs && 0 <= k < j ==> #[trigger] self.values(inp)[r@[k].0 as int]
                        == zip_value(
                        kind,
                        start.values(inp)[a@[k].0 as int],
                        start.values(inp)[b@[k].0 as int],
                    ),
            decreases a.len() - j,
        {
            let ghost prev = *self;
            let op = match kind {
                ZipKind::Add => ExtOp::Add(a[j].0, b[j].0),
                ZipKind::Sub => ExtOp::Sub(a[j].0, b[j].0),
                ZipKind::Mul => ExtOp::Mul(a[j].0, b[j].0),
            };
            let t = self.push_op(op);
            r.push(t);
            proof {
                assert forall|x: int| #[trigger] op_reads(op, x) implies x >= start.num_targets()
                    || (target_set(a@) + target_set(b@)).contains(x) by {
                    assert(a@[j as int].0 == a@[j as int].0 && b@[j as int].0 == b@[j as int].0);
                    if x == a@[j as int].0 {
                        assert(target_set(a@).contains(x));
                    } else {
                        assert(target_set(b@).contains(x));
                    }
                }
                lemma_reads_push(*self, prev, start, target_set(a@) + target_set(b@), op);
                assert(self.ops@.subrange(0, start.ops@.len() as int) =~= prev.ops@.subrange(0, start.ops@.len() as int));
                assert forall|inp: Seq<Seq<int>>, k: int|
                    inp.len() == start.num_inputs && 0 <= k < j + 1 implies #[trigger] self.values(inp)[r@[k].0 as int]
                        == zip_value(
                        kind,
                        start.values(inp)[a@[k].0 as int],
                        start.values(inp)[b@[k].0 as int],
                    ) by {
                    lemma_values_push(inp, prev.ops@, op);
                    lemma_extends_keeps_values(prev, start, inp);
                    assert(a@[j as int].0 < start.num_targets() && b@[j as int].0 < start.num_targets());
                    if k < j {
                        assert(prev.values(inp)[r@[k].0 as int] == zip_value(
                            kind,
                            start.values(inp)[a@[k].0 as int],
                            start.values(inp)[b@[k].0 as int],
                        ));
                    } else {
                        assert(prev.values(inp)[a@[j as int].0 as int] == prev.values(inp).subrange(0, (inp.len() + start.ops@.len()) as int)[a@[j as int].0 as int]);
                        assert(prev.values(inp)[b@[j as int].0 as int] == prev.values(inp).subrange(0, (inp.len() + start.ops@.len()) as int)[b@[j as int].0 as int]);
                    }
                }
            }
            j = j + 1;
        }
        r
    }
}

/// The values of `ts` when the inputs of `b` hold `inputs`.
pub open spec fn builder_values(
    b: CircuitBuilder,
    inputs: Seq<Seq<int>>,
    ts: Seq<ExtensionTarget>,
) -> Seq<Seq<int>> {
    target_values(b.values(inputs), ts)
}

/// `inputs` fits the builder, and each target of `a` holds an element of degree `e`.
pub open spec fn fits(b: CircuitBuilder, inputs: Seq<Seq<int>>, a: Seq<ExtensionTarget>, e: nat) -> bool {
    inputs.len() == b.num_inputs && forall|j: int|
        0 <= j < a.len() ==> (#[trigger] b.values(inputs)[a[j].0 as int]).len() == e
}

impl CircuitBuilder {
    /// Coordinate-wise difference of two algebra targets.
    pub fn sub_ext_algebra(&mut self, a: &Vec<ExtensionTarget>, b: &Vec<ExtensionTarget>) -> (r:
        Vec<ExtensionTarget>)
        requires
            a.len() == b.len(),
            old(self).holds(a@),
            old(self).holds(b@),
            old(self).num_targets() + a.len() <= usize::MAX,
        ensures
            final(self).extends(*old(self)),
            old(self).runnable() ==> final(self).runnable(),
            final(self).num_targets() == old(self).num_targets() + a.len(),
            final(self).holds(r@),
            r.len() == a.len(),
            final(self).reads_within(*old(self), target_set(a@) + target_set(b@)),
            forall|k: int| 0 <= k < r.len() ==> (#[trigger] r@[k]).0 >= old(self).num_targets(),
            forall|inp: Seq<Seq<int>>|
                inp.len() == old(self).num_inputs ==> #[trigger] builder_values(*final(self), inp, r@)
                    == alg_diff(builder_values(*old(self), inp, a@), builder_values(*old(self), inp, b@)),
    {
        let r = self.zip_op(ZipKind::Sub, a, b);
        proof {
            assert forall|inp: Seq<Seq<int>>|
                inp.len() == old(self).num_inputs implies #[trigger] builder_values(*self, inp, r@)
                    == alg_diff(builder_values(*old(self), inp, a@), builder_values(*old(self), inp, b@)) by {
                assert forall|k: int| 0 <= k < a.len() implies #[trigger] self.values(inp)[r@[k].0 as int] == zip_value(ZipKind::Sub, old(self).values(inp)[a@[k].0 as int], old(self).values(inp)[b@[k].0 as int]) by {}
                assert(builder_values(*self, inp, r@) =~= alg_diff(builder_values(*old(self), inp, a@), builder_values(*old(self), inp, b@)));
            }
        }
        r
    }

    /// Each coordinate of an algebra target multiplied by the extension target `c`.
    pub fn scalar_mul_ext_algebra(&mut self, c: ExtensionTarget, a: &Vec<ExtensionTarget>) -> (r:
        Vec<ExtensionTarget>)
        requires
            c.0 < old(self).num_targets(),
            old(self).holds(a@),
            old(self).num_targets() + a.len() <= usize::MAX,
        ensures
            final(self).extends(*old(self)),
            old(self).runnable() ==> final(self).runnable(),
            final(self).num_targets() == old(self).num_targets() + a.len(),
            final(self).holds(r@),
            r.len() == a.len(),
            final(self).reads_within(*old(self), set![c.0 as int] + target_set(a@)),
            forall|k: int| 0 <= k < r.len() ==> (#[trigger] r@[k]).0 >= old(self).num_targets(),
            forall|inp: Seq<Seq<int>>|
                inp.len() == old(self).num_inputs ==> #[trigger] builder_values(*final(self), inp, r@)
                    == alg_scale(builder_values(*old(self), inp, a@), old(self).values(inp)[c.0 as int]),
    {
        let mut cs: Vec<ExtensionTarget> = Vec::new();
        let mut j: usize = 0;
        while j < a.len()
            invariant
                j <= a.len(),
                cs@ == Seq::new(j as nat, |k: int| c),
            decreases a.len() - j,
        {
            cs.push(c);
            j = j + 1;
            assert(cs@ =~= Seq::new(j as nat, |k: int| c));
        }
        let r = self.zip_op(ZipKind::Mul, &cs, a);
        proof {
            assert forall|t: int| #[trigger] (target_set(cs@) + target_set(a@)).contains(t) implies t
                >= old(self).num_targets() || (set![c.0 as int] + target_set(a@)).contains(t) by {
                if target_set(cs@).contains(t) {
                    let j = choose|j: int| 0 <= j < cs@.len() && cs@[j].0 == t;
                    assert(cs@[j] == c);
                }
            }
            lemma_reads_weaken(*self, *old(self), target_set(cs@) + target_set(a@), set![c.0 as int] + target_set(a@));
            assert forall|inp: Seq<Seq<int>>|
                inp.len() == old(self).num_inputs implies #[trigger] builder_values(*self, inp, r@)
                    == alg_scale(builder_values(*old(self), inp, a@), old(self).values(inp)[c.0 as int]) by {
                assert forall|k: int| 0 <= k < a.len() implies #[trigger] self.values(inp)[r@[k].0 as int] == zip_value(ZipKind::Mul, old(self).values(inp)[cs@[k].0 as int], old(self).values(inp)[a@[k].0 as int]) by {}
                assert(builder_values(*self, inp, r@) =~= alg_scale(builder_values(*old(self), inp, a@), old(self).values(inp)[c.0 as int]));
            }
        }
        r
    }

    /// `c * a + b` for an extension target `c` and algebra targets `a`, `b`,
    /// coordinate by coordinate.
    pub fn scalar_mul_add_ext_algebra(
        &mut self,
        c: ExtensionTarget,
        a: &Vec<ExtensionTarget>,
        b: &Vec<ExtensionTarget>,
    ) -> (r: Vec<ExtensionTarget>)
        requires
            a.len() == b.len(),
            c.0 < old(self).num_targets(),
            old(self).holds(a@),
            old(self).holds(b@),
            old(self).num_targets() + 2 * a.len() <= usize::MAX,
        ensures
            final(self).extends(*old(self)),
            old(self).runnable() ==> final(self).runnable(),
            final(self).num_targets() == old(self).num_targets() + 2 * a.len(),
            final(self).holds(r@),
            r.len() == a.len(),
            final(self).reads_within(*old(self), set![c.0 as int] + target_set(a@) + target_set(b@)),
            forall|k: int| 0 <= k < r.len() ==> (#[trigger] r@[k]).0 >= old(self).num_targets(),
            forall|inp: Seq<Seq<int>>|
                inp.len() == old(self).num_inputs ==> #[trigger] builder_values(*final(self), inp, r@)
                    == alg_sum(
                    builder_values(*old(self), inp, b@),
                    alg_scale(builder_values(*old(self), inp, a@), old(self).values(inp)[c.0 as int]),
                ),
    {
        let ghost start = *self;
        let t = self.scalar_mul_ext_algebra(c, a);
        let ghost mid = *self;
        assert(mid.holds(b@));
        let r = self.zip_op(ZipKind::Add, b, &t);
        proof {
            let outer = set![c.0 as int] + target_set(a@) + target_set(b@);
            lemma_reads_weaken(mid, start, set![c.0 as int] + target_set(a@), outer);
            assert forall|x: int| #[trigger] (target_set(b@) + target_set(t@)).contains(x) implies x
                >= start.num_targets() || outer.contains(x) by {
                if target_set(t@).contains(x) {
                    let j = choose|j: int| 0 <= j < t@.len() && t@[j].0 == x;
                    assert(t@[j].0 >= start.num_targets());
                }
            }
            lemma_reads_trans(*self, mid, start, target_set(b@) + target_set(t@), outer);
            assert forall|k: int| 0 <= k < r.len() implies (#[trigger] r@[k]).0 >= start.num_targets() by {
                assert(r@[k].0 >= mid.num_targets());
            }
            assert(self.ops@.subrange(0, start.ops@.len() as int) =~= mid.ops@.subrange(0, start.ops@.len() as int));
            assert forall|inp: Seq<Seq<int>>|
                inp.len() == start.num_inputs implies #[trigger] builder_values(*self, inp, r@)
                    == alg_sum(
                    builder_values(start, inp, b@),
                    alg_scale(builder_values(start, inp, a@), start.values(inp)[c.0 as int]),
                ) by {
                lemma_extends_keeps_values(mid, start, inp);
                assert(builder_values(mid, inp, t@) == alg_scale(builder_values(start, inp, a@), start.values(inp)[c.0 as int]));
                assert forall|k: int| 0 <= k < a.len() implies #[trigger] self.values(inp)[r@[k].0 as int] == ext_sum(start.values(inp)[b@[k].0 as int], mid.values(inp)[t@[k].0 as int]) by {
                    assert(self.values(inp)[r@[k].0 as int] == zip_value(ZipKind::Add, mid.values(inp)[b@[k].0 as int], mid.values(inp)[t@[k].0 as int]));
                    assert(b@[k].0 < start.num_targets());
                    assert(mid.values(inp)[b@[k].0 as int] == mid.values(inp).subrange(0, (inp.len() + start.ops@.len()) as int)[b@[k].0 as int]);
                    assert(builder_values(mid, inp, t@)[k] == mid.values(inp)[t@[k].0 as int]);
                }
                assert(builder_values(*self, inp, r@) =~= alg_sum(
                    builder_values(start, inp, b@),
                    alg_scale(builder_values(start, inp, a@), start.values(inp)[c.0 as int]),
                ));
            }
        }
        r
    }
}

impl CircuitBuilder {
    /// A target holding coefficient `k` of the product of algebra targets `a` and `b`.
    fn mul_coefficient(&mut self, a: &Vec<ExtensionTarget>, b: &Vec<ExtensionTarget>, k: usize) -> (r:
        ExtensionTarget)
        requires
            a.len() == b.len(),
            k < a.len(),
            old(self).holds(a@),
            old(self).holds(b@),
            old(self).num_targets() + 3 * a.len() + 1 <= usize::MAX,
        ensures
            final(self).extends(*old(self)),
            old(self).runnable() ==> final(self).runnable(),
            final(self).num_targets() <= old(self).num_targets() + 3 * a.len() + 1,
            r.0 < final(self).num_targets(),
            r.0 >= old(self).num_targets(),
            final(self).reads_within(*old(self), target_set(a@) + target_set(b@)),
            forall|inp: Seq<Seq<int>>|
                fits(*old(self), inp, a@, a.len() as nat) ==> #[trigger] final(self).values(inp)[r.0 as int]
                    == alg_acc(
                    builder_values(*old(self), inp, a@),
                    builder_values(*old(self), inp, b@),
                    k as int,
                    a.len() as nat,
                    a.len() as nat,
                ),
    {
        let d = a.len();
        let ghost start = *self;
        let ghost dn = d as nat;
        let mut acc = self.push_op(ExtOp::MulBase(0, a[0].0));
        proof {
            assert forall|x: int| #[trigger] op_reads(ExtOp::MulBase(0, a@[0].0), x) implies x
                >= start.num_targets() || (target_set(a@) + target_set(b@)).contains(x) by {
                assert(target_set(a@).contains(a@[0].0 as int));
            }
            assert(start.ops@.subrange(0, start.ops@.len() as int) =~= start.ops@);
            lemma_reads_push(*self, start, start, target_set(a@) + target_set(b@), ExtOp::MulBase(0, a@[0].0));
            vstd::arithmetic::div_mod::lemma_small_mod(0, p() as nat);
            assert(self.ops@.subrange(0, start.ops@.len() as int) =~= start.ops@);
            assert forall|inp: Seq<Seq<int>>| fits(start, inp, a@, dn) implies #[trigger] self.values(inp)[acc.0 as int]
                == alg_acc(builder_values(start, inp, a@), builder_values(start, inp, b@), k as int, 0, dn) by {
                lemma_values_push(inp, start.ops@, ExtOp::MulBase(0, a@[0].0));
                let v = start.values(inp)[a@[0].0 as int];
                assert(v.len() == dn);
                assert forall|x: int| fmul(0, x) == 0 by {
                    assert(0 * x == 0);
                }
                assert(ext_scale(v, 0) =~= ext_zero(dn));
            }
        }
        let mut i: usize = 0;
        while i < d
            invariant
                d == a.len(),
                a.len() == b.len(),
                k < d,
                i <= d,
                start.holds(a@),
                start.holds(b@),
                start.num_targets() + 3 * d + 1 <= usize::MAX,
                self.extends(start),
                start.runnable() ==> self.runnable(),
                self.num_targets() <= start.num_targets() + 1 + 3 * i,
                acc.0 < self.num_targets(),
                acc.0 >= start.num_targets(),
                self.reads_within(start, target_set(a@) + target_set(b@)),
                forall|inp: Seq<Seq<int>>|
                    fits(start, inp, a@, dn) ==> #[trigger] self.values(inp)[acc.0 as int] == alg_acc(
                        builder_values(start, inp, a@),
                        builder_values(start, inp, b@),
                        k as int,
                        i as nat,
                        dn,
                    ),
            decreases d - i,
        {
            let ghost prev = *self;
            let ghost op1 = if i <= k {
                ExtOp::Mul(a@[i as int].0, b@[k - i].0)
            } else {
                ExtOp::Mul(a@[i as int].0, b@[d - i + k].0)
            };
            let t = if i <= k {
                self.push_op(ExtOp::Mul(a[i].0, b[k - i].0))
            } else {
                let m = self.push_op(ExtOp::Mul(a[i].0, b[d - i + k].0));
                self.push_op(ExtOp::MulBase(W, m.0))
            };
            let ghost mid = *self;
            let new_acc = self.push_op(ExtOp::Add(acc.0, t.0));
            proof {
                let after_first = prev.ops@.push(op1);
                let allowed = target_set(a@) + target_set(b@);
                if i <= k {
                    assert(mid.ops@ == after_first);
                    assert(target_set(b@).contains(b@[k - i].0 as int));
                } else {
                    assert(mid.ops@ == after_first.push(ExtOp::MulBase(W, (prev.num_targets()) as usize)));
                    assert(target_set(b@).contains(b@[d - i + k].0 as int));
                }
                assert(target_set(a@).contains(a@[i as int].0 as int));
                assert forall|q: int, x: int|
                    start.ops@.len() <= q < self.ops@.len() && #[trigger] op_reads(self.ops@[q], x) implies x
                        >= start.num_targets() || allowed.contains(x) by {
                    if q < prev.ops@.len() {
                        assert(self.ops@[q] == prev.ops@[q]);
                    } else if q == prev.ops@.len() {
                        assert(self.ops@[q] == op1);
                    }
                }
                assert(self.ops@.subrange(0, start.ops@.len() as int) =~= prev.ops@.subrange(0, start.ops@.len() as int));
                assert forall|inp: Seq<Seq<int>>| fits(start, inp, a@, dn) implies #[trigger] self.values(inp)[new_acc.0 as int]
                    == alg_acc(builder_values(start, inp, a@), builder_values(start, inp, b@), k as int, (i + 1) as nat, dn) by {
                    let av = builder_values(start, inp, a@);
                    let bv = builder_values(start, inp, b@);
                    lemma_extends_keeps_values(prev, start, inp);
                    lemma_values_push(inp, prev.ops@, op1);
                    lemma_values_push(inp, mid.ops@, ExtOp::Add(acc.0, t.0));
                    let pv = prev.values(inp);
                    let cut = (inp.len() + start.ops@.len()) as int;
                    assert(a@[i as int].0 < start.num_targets());
                    assert(pv[a@[i as int].0 as int] == pv.subrange(0, cut)[a@[i as int].0 as int]);
                    assert(av[i as int] == pv[a@[i as int].0 as int]);
                    if i <= k {
                        assert(b@[k - i].0 < start.num_targets());
                        assert(pv[b@[k - i].0 as int] == pv.subrange(0, cut)[b@[k - i].0 as int]);
                        assert(mid.ops@ == after_first);
                        assert(mid.values(inp)[t.0 as int] == alg_term(av, bv, k as int, i as int));
                    } else {
                        assert(b@[d - i + k].0 < start.num_targets());
                        assert(pv[b@[d - i + k].0 as int] == pv.subrange(0, cut)[b@[d - i + k].0 as int]);
                        assert(mid.ops@ == after_first.push(ExtOp::MulBase(W, (prev.num_targets()) as usize)));
                        lemma_values_push(inp, after_first, ExtOp::MulBase(W, (prev.num_targets()) as usize));
                        assert(mid.values(inp)[t.0 as int] == alg_term(av, bv, k as int, i as int));
                    }
                    assert(mid.values(inp)[acc.0 as int] == pv[acc.0 as int]);
                }
            }
            acc = new_acc;
            i = i + 1;
        }
        acc
    }

    /// Product of two algebra targets of the same degree.
    pub fn mul_ext_algebra(&mut self, a: &Vec<ExtensionTarget>, b: &Vec<ExtensionTarget>) -> (r:
        Vec<ExtensionTarget>)
        requires
            a.len() == b.len(),
            old(self).holds(a@),
            old(self).holds(b@),
            old(self).num_targets() + a.len() * (3 * a.len() + 1) <= usize::MAX,
        ensures
            final(self).extends(*old(self)),
            old(self).runnable() ==> final(self).runnable(),
            final(self).num_targets() <= old(self).num_targets() + a.len() * (3 * a.len() + 1),
            final(self).holds(r@),
            r.len() == a.len(),
            final(self).reads_within(*old(self), target_set(a@) + target_set(b@)),
            forall|j: int| 0 <= j < r.len() ==> (#[trigger] r@[j]).0 >= old(self).num_targets(),
            forall|inp: Seq<Seq<int>>|
                fits(*old(self), inp, a@, a.len() as nat) ==> #[trigger] builder_values(*final(self), inp, r@)
                    == alg_product(
                    builder_values(*old(self), inp, a@),
                    builder_values(*old(self), inp, b@),
                    a.len() as nat,
                ),
    {
        let d = a.len();
        let ghost start = *self;
        let ghost dn = d as nat;
        let mut r: Vec<ExtensionTarget> = Vec::new();
        let mut k: usize = 0;
        proof {
            assert(self.ops@.subrange(0, self.ops@.len() as int) =~= self.ops@);
        }
        while k < d
            invariant
                d == a.len(),
                dn == d as nat,
                a.len() == b.len(),
                k <= d,
                start.holds(a@),
                start.holds(b@),
                start.num_targets() + d * (3 * d + 1) <= usize::MAX,
                self.extends(start),
                start.runnable() ==> self.runnable(),
                self.num_targets() <= start.num_targets() + k * (3 * d + 1),
                r.len() == k,
                self.holds(r@),
                self.reads_within(start, target_set(a@) + target_set(b@)),
                forall|j: int| 0 <= j < k ==> (#[trigger] r@[j]).0 >= start.num_targets(),
                forall|inp: Seq<Seq<int>>, j: int|
                    fits(start, inp, a@, dn) && 0 <= j < k ==> #[trigger] self.values(inp)[r@[j].0 as int]
                        == alg_acc(builder_values(start, inp, a@), builder_values(start, inp, b@), j, dn, dn),
            decreases d - k,
        {
            proof {
                assert(k * (3 * d + 1) + 3 * d + 1 <= d * (3 * d + 1)) by (nonlinear_arith)
                    requires
                        k < d,
                ;
                assert forall|j: int| 0 <= j < a.len() implies (#[trigger] a@[j]).0 < self.num_targets() by {
                    assert(a@[j].0 < start.num_targets());
                }
                assert forall|j: int| 0 <= j < b.len() implies (#[trigger] b@[j]).0 < self.num_targets() by {
                    assert(b@[j].0 < start.num_targets());
                }
            }
            let ghost prev = *self;
            let c = self.mul_coefficient(a, b, k);
            proof {
                lemma_reads_trans(*self, prev, start, target_set(a@) + target_set(b@), target_set(a@) + target_set(b@));
                assert(self.ops@.subrange(0, start.ops@.len() as int) =~= prev.ops@.subrange(0, start.ops@.len() as int));
                assert forall|inp: Seq<Seq<int>>, j: int|
                    fits(start, inp, a@, dn) && 0 <= j < k + 1 implies #[trigger] self.values(inp)[r@.push(c)[j].0 as int]
                        == alg_acc(builder_values(start, inp, a@), builder_values(start, inp, b@), j, dn, dn) by {
                    lemma_extends_keeps_values(prev, start, inp);
                    lemma_extends_keeps_values(*self, prev, inp);
                    let cut = (inp.len() + start.ops@.len()) as int;
                    let pv = prev.values(inp);
                    assert forall|q: int| 0 <= q < a.len() implies #[trigger] pv[a@[q].0 as int] == start.values(inp)[a@[q].0 as int] by {
                        assert(a@[q].0 < start.num_targets());
                        assert(pv[a@[q].0 as int] == pv.subrange(0, cut)[a@[q].0 as int]);
                    }
                    assert(builder_values(prev, inp, a@) =~= builder_values(start, inp, a@));
                    assert(builder_values(prev, inp, b@) =~= builder_values(start, inp, b@)) by {
                        assert forall|q: int| 0 <= q < b.len() implies pv[b@[q].0 as int] == start.values(inp)[b@[q].0 as int] by {
                            assert(b@[q].0 < start.num_targets());
                            assert(pv[b@[q].0 as int] == pv.subrange(0, cut)[b@[q].0 as int]);
                        }
                    }
                    assert(fits(prev, inp, a@, dn));
                    if j < k {
                        let cut2 = (inp.len() + prev.ops@.len()) as int;
                        assert(r@[j].0 < prev.num_targets());
                        assert(prev.values(inp)[r@[j].0 as int] == alg_acc(builder_values(start, inp, a@), builder_values(start, inp, b@), j, dn, dn));
                        assert(self.values(inp)[r@[j].0 as int] == self.values(inp).subrange(0, cut2)[r@[j].0 as int]);
                        assert(r@.push(c)[j] == r@[j]);
                    } else {
                        assert(r@.push(c)[j] == c);
                        assert(self.values(inp)[c.0 as int] == alg_acc(builder_values(prev, inp, a@), builder_values(prev, inp, b@), k as int, dn, dn));
                    }
                }
            }
            proof {
                assert(k * (3 * d + 1) + 3 * d + 1 == (k + 1) * (3 * d + 1)) by (nonlinear_arith);
            }
            r.push(c);
            k = k + 1;
        }
        proof {
            assert forall|inp: Seq<Seq<int>>| fits(start, inp, a@, dn) implies #[trigger] builder_values(*self, inp, r@)
                == alg_product(builder_values(start, inp, a@), builder_values(start, inp, b@), dn) by {
                assert forall|j: int| 0 <= j < d implies #[trigger] self.values(inp)[r@[j].0 as int]
                    == alg_acc(builder_values(start, inp, a@), builder_values(start, inp, b@), j, dn, dn) by {}
                assert(builder_values(*self, inp, r@) =~= alg_product(builder_values(start, inp, a@), builder_values(start, inp, b@), dn));
            }
        }
        r
    }
}

/// `op` reads only targets below `bound`, and its constant is a field element.
pub open spec fn op_ok(op: ExtOp, bound: int) -> bool {
    match op {
        ExtOp::Add(a, b) => a < bound && b < bound,
        ExtOp::Sub(a, b) => a < bound && b < bound,
        ExtOp::Mul(a, b) => a < bound && b < bound,
        ExtOp::MulBase(c, a) => a < bound && is_canonical(c as int),
    }
}

/// Each operation reads only the inputs and the results of operations before it.
pub open spec fn ops_ok(num_inputs: int, ops: Seq<ExtOp>) -> bool {
    forall|k: int| 0 <= k < ops.len() ==> op_ok(#[trigger] ops[k], num_inputs + k)
}

fn check_op(op: ExtOp, bound: usize) -> (r: bool)
    ensures
        r == op_ok(op, bound as int),
{
    match op {
        ExtOp::Add(a, b) => a < bound && b < bound,
        ExtOp::Sub(a, b) => a < bound && b < bound,
        ExtOp::Mul(a, b) => a < bound && b < bound,
        ExtOp::MulBase(c, a) => a < bound && c < ORDER,
    }
}

impl CircuitBuilder {
    /// The values of all targets when the inputs hold `inputs`, each an
    /// extension element of degree `e`; `None` when an input is not one, or
    /// when an operation reads a later target or has a constant outside the
    /// field.
    pub fn evaluate(&self, inputs: &Vec<Vec<u64>>, e: usize) -> (r: Option<Vec<Vec<u64>>>)
        ensures
            r is Some <==> (inputs.len() == self.num_inputs && all_ext(ext_ints(inputs@), e as nat)
                && ops_ok(self.num_inputs as int, self.ops@)),
            r matches Some(v) ==> ext_ints(v@) == self.values(ext_ints(inputs@)),
    {
        if inputs.len() != self.num_inputs {
            return None;
        }
        let mut vals: Vec<Vec<u64>> = Vec::new();
        let mut j: usize = 0;
        while j < inputs.len()
            invariant
                j <= inputs.len(),
                ext_ints(vals@) == ext_ints(inputs@).subrange(0, j as int),
                all_ext(ext_ints(vals@), e as nat),
            decreases inputs.len() - j,
        {
            if !check_ext(&inputs[j], e) {
                assert(!is_ext(ext_ints(inputs@)[j as int], e as nat));
                return None;
            }
            let ghost before = vals@;
            vals.push(copy_ext(&inputs[j]));
            assert(ext_ints(vals@) =~= ext_ints(before).push(ints(inputs@[j as int]@)));
            assert(ext_ints(vals@) =~= ext_ints(inputs@).subrange(0, j + 1));
            j = j + 1;
        }
        assert(ext_ints(inputs@).subrange(0, j as int) =~= ext_ints(inputs@));
        let ghost iv = ext_ints(inputs@);
        let mut k: usize = 0;
        while k < self.ops.len()
            invariant
                k <= self.ops.len(),
                iv == ext_ints(inputs@),
                inputs.len() == self.num_inputs,
                all_ext(iv, e as nat),
                vals.len() == self.num_inputs + k,
                ext_ints(vals@) == circuit_values(iv, self.ops@.subrange(0, k as int)),
                all_ext(ext_ints(vals@), e as nat),
                ops_ok(self.num_inputs as int, self.ops@.subrange(0, k as int)),
            decreases self.ops.len() - k,
        {
            let op = self.ops[k];
            if !check_op(op, vals.len()) {
                assert(!ops_ok(self.num_inputs as int, self.ops@)) by {
                    assert(self.ops@[k as int] == op);
                }
                return None;
            }
            let ghost vs = ext_ints(vals@);
            let v = match op {
                ExtOp::Add(a, b) => {
                    assert(is_ext(vs[a as int], e as nat) && is_ext(vs[b as int], e as nat));
                    add_ext(&vals[a], &vals[b])
                },
                ExtOp::Sub(a, b) => {
                    assert(is_ext(vs[a as int], e as nat) && is_ext(vs[b as int], e as nat));
                    sub_ext(&vals[a], &vals[b])
                },
                ExtOp::Mul(a, b) => {
                    assert(is_ext(vs[a as int], e as nat) && is_ext(vs[b as int], e as nat));
                    mul_ext(&vals[a], &vals[b])
                },
                ExtOp::MulBase(c, a) => {
                    assert(is_ext(vs[a as int], e as nat));
                    scalar_mul_ext(&vals[a], c)
                },
            };
            proof {
                let pre = self.ops@.subrange(0, k as int);
                assert(self.ops@.subrange(0, k + 1) =~= pre.push(op));
                lemma_values_push(iv, pre, op);
                assert(ints(v@) == op_value(vs, op));
            }
            let ghost before = vals@;
            vals.push(v);
            proof {
                assert(ext_ints(vals@) =~= ext_ints(before).push(ints(v@)));
                assert forall|q: int| 0 <= q < k + 1 implies op_ok(#[trigger] self.ops@.subrange(0, k + 1)[q], self.num_inputs + q) by {
                    if q < k {
                        assert(self.ops@.subrange(0, k + 1)[q] == self.ops@.subrange(0, k as int)[q]);
                    }
                }
            }
            k = k + 1;
        }
        assert(self.ops@.subrange(0, k as int) =~= self.ops@);
        Some(vals)
    }
}

fn check_ext(a: &Vec<u64>, e: usize) -> (r: bool)
    ensures
        r == is_ext(ints(a@), e as nat),
{
    if a.len() != e {
        return false;
    }
    let mut i: usize = 0;
    while i < a.len()
        invariant
            i <= a.len(),
            forall|j: int| 0 <= j < i ==> is_canonical(#[trigger] ints(a@)[j]),
        decreases a.len() - i,
    {
        if a[i] >= ORDER {
            assert(!is_canonical(ints(a@)[i as int]));
            return false;
        }
        i = i + 1;
    }
    true
}

/// The wires and constants of one row, as targets of a circuit.
#[derive(Clone, Debug)]
pub struct EvaluationTargets {
    pub local_constants: Vec<ExtensionTarget>,
    pub local_wires: Vec<ExtensionTarget>,
}

/// Targets that exist in an earlier builder keep their values, and still exist.
pub proof fn lemma_keeps(
    later: CircuitBuilder,
    earlier: CircuitBuilder,
    inputs: Seq<Seq<int>>,
    ts: Seq<ExtensionTarget>,
)
    requires
        later.extends(earlier),
        earlier.holds(ts),
        inputs.len() == earlier.num_inputs,
    ensures
        builder_values(later, inputs, ts) == builder_values(earlier, inputs, ts),
        later.holds(ts),
{
    lemma_extends_keeps_values(later, earlier, inputs);
    let cut = (inputs.len() + earlier.ops@.len()) as int;
    let lv = later.values(inputs);
    assert forall|q: int| 0 <= q < ts.len() implies #[trigger] lv[ts[q].0 as int] == earlier.values(inputs)[ts[q].0 as int] by {
        assert(ts[q].0 < earlier.num_targets());
        assert(lv[ts[q].0 as int] == lv.subrange(0, cut)[ts[q].0 as int]);
    }
    assert(builder_values(later, inputs, ts) =~= builder_values(earlier, inputs, ts));
    assert forall|q: int| 0 <= q < ts.len() implies (#[trigger] ts[q]).0 < later.num_targets() by {
        assert(ts[q].0 < earlier.num_targets());
    }
}

pub proof fn lemma_extends_trans(c: CircuitBuilder, b: CircuitBuilder, a: CircuitBuilder)
    requires
        c.extends(b),
        b.extends(a),
    ensures
        c.extends(a),
{
    assert(c.ops@.subrange(0, a.ops@.len() as int) =~= b.ops@.subrange(0, a.ops@.len() as int));
}

/// The targets of a slice of `ws` are among the targets of its first `n`.
pub proof fn lemma_slot_in_row(ws: Seq<ExtensionTarget>, v: Seq<ExtensionTarget>, lo: int, hi: int, n: int)
    requires
        0 <= lo <= hi <= n <= ws.len(),
        v == ws.subrange(lo, hi),
    ensures
        forall|x: int| #[trigger] target_set(v).contains(x) ==> target_set(ws.subrange(0, n)).contains(x),
{
    assert forall|x: int| #[trigger] target_set(v).contains(x) implies target_set(ws.subrange(0, n)).contains(x) by {
        let j = choose|j: int| 0 <= j < v.len() && v[j].0 == x;
        assert(ws.subrange(0, n)[lo + j] == v[j]);
    }
}

/// How many targets one multiply-add operation adds to a circuit, at most.
pub open spec fn op_cost(d: int) -> int {
    d * (3 * d + 1) + 4 * d
}

fn get_local_targets(ts: &Vec<ExtensionTarget>, range: Range<usize>) -> (r: Vec<ExtensionTarget>)
    requires
        range.start <= range.end <= ts.len(),
    ensures
        r@ == ts@.subrange(range.start as int, range.end as int),
{
    let mut r: Vec<ExtensionTarget> = Vec::new();
    let mut j: usize = range.start;
    while j < range.end
        invariant
            range.start <= j <= range.end <= ts.len(),
            r@ == ts@.subrange(range.start as int, j as int),
        decreases range.end - j,
    {
        r.push(ts[j]);
        j = j + 1;
        assert(r@ =~= ts@.subrange(range.start as int, j as int));
    }
    r
}

impl<const D: usize> ArithmeticExtensionGate<D> {
    /// Adds to `builder` a circuit that computes the constraints of the row
    /// held by `vars`: for every assignment of the circuit's inputs, its
    /// targets hold what `eval_unfiltered` computes from the values of `vars`.
    pub fn eval_unfiltered_circuit(&self, builder: &mut CircuitBuilder, vars: &EvaluationTargets) -> (r:
        Vec<ExtensionTarget>)
        requires
            self.wf(),
            vars.local_constants.len() >= 2,
            vars.local_wires.len() >= self.num_ops * 4 * D,
            old(builder).holds(vars.local_constants@),
            old(builder).holds(vars.local_wires@),
            old(builder).num_targets() + self.num_ops * op_cost(D as int) <= usize::MAX,
        ensures
            final(builder).extends(*old(builder)),
            old(builder).runnable() ==> final(builder).runnable(),
            r.len() == self.num_ops * D,
            final(builder).reads_within(
                *old(builder),
                set![vars.local_constants@[0].0 as int, vars.local_constants@[1].0 as int] + target_set(vars.local_wires@.subrange(0, self.num_ops * 4 * D)),
            ),
            final(builder).num_targets() <= old(builder).num_targets() + self.num_ops * op_cost(D as int),
            final(builder).holds(r@),
            forall|inp: Seq<Seq<int>>|
                fits(*old(builder), inp, vars.local_wires@, D as nat) ==> #[trigger] builder_values(
                    *final(builder),
                    inp,
                    r@,
                ) == alg_gate_constraints(
                    builder_values(*old(builder), inp, vars.local_wires@),
                    old(builder).values(inp)[vars.local_constants@[0].0 as int],
                    old(builder).values(inp)[vars.local_constants@[1].0 as int],
                    self.num_ops as nat,
                    D as int,
                ),
    {
        let ghost start = *builder;
        let const_0 = vars.local_constants[0];
        let const_1 = vars.local_constants[1];
        let mut constraints: Vec<ExtensionTarget> = Vec::new();
        let mut i: usize = 0;
        proof {
            assert(builder.ops@.subrange(0, builder.ops@.len() as int) =~= builder.ops@);
            assert(vars.local_constants@[0].0 < start.num_targets());
            assert(vars.local_constants@[1].0 < start.num_targets());
        }
        while i < self.num_ops
            invariant
                self.wf(),
                i <= self.num_ops,
                vars.local_wires.len() >= self.num_ops * 4 * D,
                start.holds(vars.local_wires@),
                const_0 == vars.local_constants@[0],
                const_1 == vars.local_constants@[1],
                const_0.0 < start.num_targets(),
                const_1.0 < start.num_targets(),
                start.num_targets() + self.num_ops * op_cost(D as int) <= usize::MAX,
                builder.extends(start),
                start.runnable() ==> builder.runnable(),
                constraints.len() == i * D,
                builder.reads_within(start, set![vars.local_constants@[0].0 as int, vars.local_constants@[1].0 as int] + target_set(vars.local_wires@.subrange(0, self.num_ops * 4 * D))),
                builder.num_targets() <= start.num_targets() + i * op_cost(D as int),
                builder.holds(constraints@),
                forall|inp: Seq<Seq<int>>|
                    fits(start, inp, vars.local_wires@, D as nat) ==> #[trigger] builder_values(*builder, inp, constraints@)
                        == alg_gate_constraints(
                        builder_values(start, inp, vars.local_wires@),
                        start.values(inp)[const_0.0 as int],
                        start.values(inp)[const_1.0 as int],
                        i as nat,
                        D as int,
                    ),
            decreases self.num_ops - i,
        {
            proof {
                lemma_op_fits(i as int, self.num_ops as int, D as int);
                assert(start.num_targets() + i * op_cost(D as int) + op_cost(D as int) <= start.num_targets() + self.num_ops * op_cost(D as int)) by (nonlinear_arith)
                    requires
                        i < self.num_ops,
                        D > 0,
                ;
            }
            let ghost b0 = *builder;
            let r0 = Self::wires_ith_multiplicand_0(i);
            let r1 = Self::wires_ith_multiplicand_1(i);
            let r2 = Self::wires_ith_addend(i);
            let r3 = Self::wires_ith_output(i);
            let multiplicand_0 = get_local_targets(&vars.local_wires, r0);
            let multiplicand_1 = get_local_targets(&vars.local_wires, r1);
            let addend = get_local_targets(&vars.local_wires, r2);
            let output = get_local_targets(&vars.local_wires, r3);
            proof {
                assert forall|q: int| 0 <= q < D implies (#[trigger] multiplicand_0@[q]).0 < b0.num_targets()
                    && multiplicand_1@[q].0 < b0.num_targets() && addend@[q].0 < b0.num_targets()
                    && output@[q].0 < b0.num_targets() by {
                    assert(vars.local_wires@[r0.start + q].0 < start.num_targets());
                    assert(vars.local_wires@[r1.start + q].0 < start.num_targets());
                    assert(vars.local_wires@[r2.start + q].0 < start.num_targets());
                    assert(vars.local_wires@[r3.start + q].0 < start.num_targets());
                }
                assert(D * (3 * D + 1) <= op_cost(D as int));
            }
            let mul = builder.mul_ext_algebra(&multiplicand_0, &multiplicand_1);
            let ghost b1 = *builder;
            let scaled_mul = builder.scalar_mul_ext_algebra(const_0, &mul);
            let ghost b2 = *builder;
            let computed_output = builder.scalar_mul_add_ext_algebra(const_1, &addend, &scaled_mul);
            let ghost b3 = *builder;
            let mut diff = builder.sub_ext_algebra(&output, &computed_output);
            let ghost b4 = *builder;
            let ghost before = constraints@;
            let ghost added = diff@;
            constraints.append(&mut diff);
            proof {
                assert(added.len() == D);
                assert(i * D + D == (i + 1) * D) by (nonlinear_arith);
                let allowed = set![vars.local_constants@[0].0 as int, vars.local_constants@[1].0 as int] + target_set(vars.local_wires@.subrange(0, self.num_ops * 4 * D));
                let n = self.num_ops as int;
                let nw = n * 4 * D;
                let ws = vars.local_wires@;
                lemma_wire_ranges_within_capacity(n, D as int, i as int, 0, i as int, 0);
                lemma_wire_ranges_within_capacity(n, D as int, i as int, 1, i as int, 1);
                lemma_wire_ranges_within_capacity(n, D as int, i as int, 2, i as int, 2);
                lemma_wire_ranges_within_capacity(n, D as int, i as int, 3, i as int, 3);
                lemma_slot_in_row(ws, multiplicand_0@, r0.start as int, r0.end as int, nw);
                lemma_slot_in_row(ws, multiplicand_1@, r1.start as int, r1.end as int, nw);
                lemma_slot_in_row(ws, addend@, r2.start as int, r2.end as int, nw);
                lemma_slot_in_row(ws, output@, r3.start as int, r3.end as int, nw);
                lemma_extends_trans(b1, b0, start);
                lemma_extends_trans(b2, b1, start);
                lemma_extends_trans(b3, b2, start);
                lemma_reads_trans(b1, b0, start, target_set(multiplicand_0@) + target_set(multiplicand_1@), allowed);
                assert forall|x: int| #[trigger] (set![const_0.0 as int] + target_set(mul@)).contains(x) implies x
                    >= start.num_targets() || allowed.contains(x) by {
                    if target_set(mul@).contains(x) {
                        let j = choose|j: int| 0 <= j < mul@.len() && mul@[j].0 == x;
                        assert(mul@[j].0 >= b0.num_targets());
                    }
                }
                lemma_reads_trans(b2, b1, start, set![const_0.0 as int] + target_set(mul@), allowed);
                assert forall|x: int| #[trigger] (set![const_1.0 as int] + target_set(addend@) + target_set(scaled_mul@)).contains(x) implies x
                    >= start.num_targets() || allowed.contains(x) by {
                    if target_set(scaled_mul@).contains(x) {
                        let j = choose|j: int| 0 <= j < scaled_mul@.len() && scaled_mul@[j].0 == x;
                        assert(scaled_mul@[j].0 >= b1.num_targets());
                    }
                }
                lemma_reads_trans(b3, b2, start, set![const_1.0 as int] + target_set(addend@) + target_set(scaled_mul@), allowed);
                assert forall|x: int| #[trigger] (target_set(output@) + target_set(computed_output@)).contains(x) implies x
                    >= start.num_targets() || allowed.contains(x) by {
                    if target_set(computed_output@).contains(x) {
                        let j = choose|j: int| 0 <= j < computed_output@.len() && computed_output@[j].0 == x;
                        assert(computed_output@[j].0 >= b2.num_targets());
                    }
                }
                lemma_reads_trans(b4, b3, start, target_set(output@) + target_set(computed_output@), allowed);
                lemma_extends_trans(b2, b1, b0);
                lemma_extends_trans(b3, b2, b0);
                lemma_extends_trans(b4, b3, b0);
                lemma_extends_trans(b4, b0, start);
                lemma_extends_trans(b1, b0, start);
                lemma_extends_trans(b2, b0, start);
                assert(i * op_cost(D as int) + op_cost(D as int) == (i + 1) * op_cost(D as int)) by (nonlinear_arith);
                let n = D as nat;
                assert forall|inp: Seq<Seq<int>>| fits(start, inp, vars.local_wires@, n) implies #[trigger] builder_values(b4, inp, constraints@)
                    == alg_gate_constraints(
                    builder_values(start, inp, vars.local_wires@),
                    start.values(inp)[const_0.0 as int],
                    start.values(inp)[const_1.0 as int],
                    (i + 1) as nat,
                    D as int,
                ) by {
                    let w = builder_values(start, inp, vars.local_wires@);
                    let c0 = start.values(inp)[const_0.0 as int];
                    let c1 = start.values(inp)[const_1.0 as int];
                    let cs = seq![const_0, const_1];
                    lemma_keeps(b0, start, inp, vars.local_wires@);
                    lemma_keeps(b1, start, inp, cs);
                    lemma_keeps(b2, start, inp, cs);
                    assert(builder_values(b1, inp, cs)[0] == c0);
                    assert(builder_values(b2, inp, cs)[1] == c1);
                    lemma_keeps(b4, b0, inp, before);
                    assert(builder_values(b0, inp, multiplicand_0@) =~= operand(w, i as int, 0, D as int));
                    assert(builder_values(b0, inp, multiplicand_1@) =~= operand(w, i as int, 1, D as int));
                    assert(builder_values(b0, inp, addend@) =~= operand(w, i as int, 2, D as int));
                    assert(builder_values(b0, inp, output@) =~= operand(w, i as int, 3, D as int));
                    let m0 = operand(w, i as int, 0, D as int);
                    let m1 = operand(w, i as int, 1, D as int);
                    let ad = operand(w, i as int, 2, D as int);
                    let out = operand(w, i as int, 3, D as int);
                    assert(builder_values(b0, inp, multiplicand_0@) == m0);
                    assert(builder_values(b0, inp, multiplicand_1@) == m1);
                    assert(builder_values(b0, inp, addend@) == ad);
                    assert(builder_values(b0, inp, output@) == out);
                    assert(fits(b0, inp, multiplicand_0@, n)) by {
                        assert forall|q: int| 0 <= q < multiplicand_0@.len() implies (#[trigger] b0.values(inp)[multiplicand_0@[q].0 as int]).len() == n by {
                            assert(b0.values(inp)[multiplicand_0@[q].0 as int] == builder_values(b0, inp, multiplicand_0@)[q]);
                            assert(multiplicand_0@[q] == vars.local_wires@[r0.start + q]);
                            assert(start.values(inp)[vars.local_wires@[r0.start + q].0 as int].len() == n);
                            assert(builder_values(b0, inp, vars.local_wires@)[r0.start + q] == builder_values(start, inp, vars.local_wires@)[r0.start + q]);
                        }
                    }
                    let prod = builder_values(b1, inp, mul@);
                    assert(prod == alg_product(m0, m1, n));
                    lemma_keeps(b2, b1, inp, mul@);
                    lemma_keeps(b2, b0, inp, addend@);
                    lemma_keeps(b3, b0, inp, output@);
                    assert(builder_values(b2, inp, scaled_mul@) == alg_scale(prod, c0));
                    lemma_keeps(b3, b2, inp, scaled_mul@);
                    assert(builder_values(b3, inp, computed_output@) == alg_sum(alg_scale(prod, c0), alg_scale(ad, c1)));
                    assert(builder_values(b4, inp, added) == alg_op_constraints(w, c0, c1, i as int, D as int));
                    assert(builder_values(b4, inp, before + added) =~= builder_values(b4, inp, before) + builder_values(b4, inp, added));
                }
            }
            i = i + 1;
        }
        constraints
    }
}

/// Values of targets that exist in an earlier builder do not change as
/// operations are added.
pub proof fn lemma_extends_keeps_values(
    later: CircuitBuilder,
    earlier: CircuitBuilder,
    inputs: Seq<Seq<int>>,
)
    requires
        later.extends(earlier),
    ensures
        later.values(inputs).len() == inputs.len() + later.ops@.len(),
        later.values(inputs).subrange(0, (inputs.len() + earlier.ops@.len()) as int) == earlier.values(
            inputs,
        ),
{
    lemma_values_len(inputs, later.ops@);
    lemma_prefix_values(inputs, later.ops@, earlier.ops@);
}

proof fn lemma_prefix_values(inputs: Seq<Seq<int>>, ops: Seq<ExtOp>, prefix: Seq<ExtOp>)
    requires
        prefix.len() <= ops.len(),
        ops.subrange(0, prefix.len() as int) == prefix,
    ensures
        circuit_values(inputs, ops).subrange(0, (inputs.len() + prefix.len()) as int) == circuit_values(
            inputs,
            prefix,
        ),
    decreases ops.len(),
{
    lemma_values_len(inputs, ops);
    lemma_values_len(inputs, prefix);
    if ops.len() > prefix.len() {
        let shorter = ops.drop_last();
        assert(shorter.subrange(0, prefix.len() as int) =~= prefix);
        lemma_prefix_values(inputs, shorter, prefix);
        lemma_values_push(inputs, shorter, ops.last());
        assert(ops == shorter.push(ops.last()));
        lemma_values_len(inputs, shorter);
        assert(circuit_values(inputs, ops).subrange(0, (inputs.len() + prefix.len()) as int)
            =~= circuit_values(inputs, shorter).subrange(0, (inputs.len() + prefix.len()) as int));
    } else {
        assert(ops =~= prefix);
        assert(circuit_values(inputs, ops).subrange(0, (inputs.len() + prefix.len()) as int)
            =~= circuit_values(inputs, ops));
    }
}

} // verus!
