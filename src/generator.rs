use crate::ext::{add_ext, ints, is_ext, mul_ext, scalar_mul_ext};
use crate::field::is_canonical;
use crate::gate::{
    gate_constraints, lemma_op_fits, lemma_satisfied_row_evaluates_to_zero, lemma_wire_ranges_within_capacity,
    operand, slot_start, weighted_mul_add, ArithmeticExtensionGate, ADDEND, MULTIPLICAND_0,
    MULTIPLICAND_1, OUTPUT,
};
use crate::witness::{GeneratedValues, PartitionWitness, Target, Wire, WitnessError};
use core::ops::Range;
use vstd::prelude::*;

verus! {

/// The target of column `column` in row `row`.
pub open spec fn wire_at(row: usize, column: int) -> Target {
    Target::Wire(Wire { row, column: column as usize })
}

/// Every wire of `row` from column `start` on, for `n` columns, has a value.
pub open spec fn all_assigned(wit: PartitionWitness, row: usize, start: int, n: int) -> bool {
    forall|j: int| 0 <= j < n ==> (#[trigger] wit.value(wire_at(row, start + j))).is_some()
}

/// The values of `n` wires of `row` from column `start` on.
pub open spec fn values_at(wit: PartitionWitness, row: usize, start: int, n: int) -> Seq<int> {
    Seq::new(n as nat, |j: int| wit.value(wire_at(row, start + j))->Some_0 as int)
}

/// Reads the extension element held by `range` of `row`, or names a wire of it
/// that has no value yet.
fn extract_extension(witness: &PartitionWitness, row: usize, range: Range<usize>) -> (r: Result<
    Vec<u64>,
    WitnessError,
>)
    requires
        witness.wf(),
        range.start <= range.end,
    ensures
        r is Ok <==> all_assigned(*witness, row, range.start as int, range.end - range.start),
        r matches Ok(v) ==> ints(v@) == values_at(
            *witness,
            row,
            range.start as int,
            range.end - range.start,
        ) && is_ext(ints(v@), (range.end - range.start) as nat),
        r matches Err(e) ==> exists|j: int|
            0 <= j < range.end - range.start && e == WitnessError::Unassigned(
                wire_at(row, range.start + j),
            ) && #[trigger] witness.value(wire_at(row, range.start + j)) is None,
{
    let mut v: Vec<u64> = Vec::new();
    let mut c: usize = range.start;
    while c < range.end
        invariant
            range.start <= c <= range.end,
            witness.wf(),
            v.len() == c - range.start,
            all_assigned(*witness, row, range.start as int, c - range.start),
            forall|j: int|
                0 <= j < v.len() ==> witness.value(wire_at(row, range.start + j)) == Some(
                    #[trigger] v@[j],
                ) && is_canonical(v@[j] as int),
        decreases range.end - c,
    {
        let t = Target::wire(row, c);
        assert(wire_at(row, range.start + (c - range.start)) == t);
        match witness.try_get_target(t) {
            Some(x) => {
                v.push(x);
            },
            None => {
                return Err(WitnessError::Unassigned(t));
            },
        }
        c = c + 1;
    }
    assert(ints(v@) =~= values_at(*witness, row, range.start as int, range.end - range.start));
    Ok(v)
}

/// Computes the output of one operation of an arithmetic extension gate from
/// its multiplicands and addend. It owns the row, weights and operation index
/// it was made with.
#[derive(Clone, Copy, Debug, PartialEq, Eq)]
pub struct ArithmeticExtensionGenerator<const D: usize> {
    pub row: usize,
    pub const_0: u64,
    pub const_1: u64,
    pub i: usize,
}

impl<const D: usize> ArithmeticExtensionGenerator<D> {
    /// The weights are field elements and the operation's wires fit in a `usize`.
    pub open spec fn wf(self) -> bool {
        0 < D && 4 * D * (self.i + 1) <= usize::MAX && is_canonical(self.const_0 as int)
            && is_canonical(self.const_1 as int)
    }

    /// First wire the generator reads: the first multiplicand.
    pub open spec fn input_start(self) -> int {
        slot_start(self.i as int, MULTIPLICAND_0 as int, D as int)
    }

    /// First wire the generator writes: the output.
    pub open spec fn output_start(self) -> int {
        slot_start(self.i as int, OUTPUT as int, D as int)
    }

    /// The output the generator computes from the values in `wit`.
    pub open spec fn computed_output(self, wit: PartitionWitness) -> Seq<int> {
        weighted_mul_add(
            values_at(wit, self.row, slot_start(self.i as int, MULTIPLICAND_0 as int, D as int), D as int),
            values_at(wit, self.row, slot_start(self.i as int, MULTIPLICAND_1 as int, D as int), D as int),
            values_at(wit, self.row, slot_start(self.i as int, ADDEND as int, D as int), D as int),
            self.const_0 as int,
            self.const_1 as int,
        )
    }

    /// The writes of `vals` to the output wires, coordinate by coordinate.
    pub open spec fn output_writes(self, vals: Seq<int>) -> Seq<(Target, u64)> {
        Seq::new(D as nat, |j: int| (wire_at(self.row, self.output_start() + j), vals[j] as u64))
    }

    /// The wires read: both multiplicands and the addend, `3 * D` consecutive columns.
    pub fn dependencies(&self) -> (r: Vec<Target>)
        requires
            self.wf(),
        ensures
            r@ == Seq::new(3 * D as nat, |j: int| wire_at(self.row, self.input_start() + j)),
    {
        let m0 = ArithmeticExtensionGate::<D>::wires_ith_multiplicand_0(self.i);
        let m1 = ArithmeticExtensionGate::<D>::wires_ith_multiplicand_1(self.i);
        let a = ArithmeticExtensionGate::<D>::wires_ith_addend(self.i);
        let mut r: Vec<Target> = Vec::new();
        let mut c: usize = m0.start;
        proof {
            assert(m1.start == m0.end && a.start == m1.end) by (nonlinear_arith)
                requires
                    m0.start == 4 * D * self.i,
                    m0.end == m0.start + D,
                    m1.start == 4 * D * self.i + D,
                    a.start == 4 * D * self.i + 2 * D,
                    m1.end == m1.start + D,
            ;
        }
        while c < a.end
            invariant
                m0.start <= c <= a.end,
                a.end == m0.start + 3 * D,
                m0.start == self.input_start(),
                r@ == Seq::new((c - m0.start) as nat, |j: int| wire_at(self.row, self.input_start() + j)),
            decreases a.end - c,
        {
            r.push(Target::wire(self.row, c));
            c = c + 1;
            assert(r@ =~= Seq::new((c - m0.start) as nat, |j: int| wire_at(self.row, self.input_start() + j)));
        }
        r
    }

    /// Computes the output from the multiplicands and addend held in `witness`
    /// and stages it in `out_buffer`. Fails, staging nothing, when one of
    /// those wires has no value yet.
    pub fn run_once(&self, witness: &PartitionWitness, out_buffer: &mut GeneratedValues) -> (r:
        Result<(), WitnessError>)
        requires
            self.wf(),
            witness.wf(),
        ensures
            r is Ok <==> all_assigned(*witness, self.row, self.input_start(), 3 * D),
            r is Ok ==> final(out_buffer).target_values@ == old(
                out_buffer,
            ).target_values@ + self.output_writes(self.computed_output(*witness)),
            r is Ok ==> is_ext(self.computed_output(*witness), D as nat),
            r matches Err(e) ==> *final(out_buffer) == *old(out_buffer) && exists|j: int|
                0 <= j < 3 * D && e == WitnessError::Unassigned(
                    wire_at(self.row, self.input_start() + j),
                ) && #[trigger] witness.value(wire_at(self.row, self.input_start() + j)) is None,
    {
        let r0 = ArithmeticExtensionGate::<D>::wires_ith_multiplicand_0(self.i);
        let r1 = ArithmeticExtensionGate::<D>::wires_ith_multiplicand_1(self.i);
        let r2 = ArithmeticExtensionGate::<D>::wires_ith_addend(self.i);
        let ro = ArithmeticExtensionGate::<D>::wires_ith_output(self.i);
        proof {
            assert(r1.start == r0.start + D && r2.start == r0.start + 2 * D && ro.start == r0.start
                + 3 * D) by (nonlinear_arith)
                requires
                    r0.start == 4 * D * self.i,
                    r1.start == 4 * D * self.i + D,
                    r2.start == 4 * D * self.i + 2 * D,
                    ro.start == 4 * D * self.i + 3 * D,
            ;
        }
        let ghost s = self.input_start();
        let multiplicand_0 = match extract_extension(witness, self.row, r0) {
            Ok(v) => v,
            Err(e) => {
                assert(!all_assigned(*witness, self.row, s, 3 * D) ) by {
                    let j = choose|j: int| 0 <= j < D && #[trigger] witness.value(wire_at(self.row, s + j)) is None;
                }
                return Err(e);
            },
        };
        let multiplicand_1 = match extract_extension(witness, self.row, r1) {
            Ok(v) => v,
            Err(e) => {
                proof {
                    let j = choose|j: int|
                        0 <= j < D && e == WitnessError::Unassigned(wire_at(self.row, r1.start + j))
                            && #[trigger] witness.value(wire_at(self.row, r1.start + j)) is None;
                    assert(wire_at(self.row, r1.start + j) == wire_at(self.row, s + (j + D)));
                    assert(witness.value(wire_at(self.row, s + (j + D))) is None);
                }
                return Err(e);
            },
        };
        let addend = match extract_extension(witness, self.row, r2) {
            Ok(v) => v,
            Err(e) => {
                proof {
                    let j = choose|j: int|
                        0 <= j < D && e == WitnessError::Unassigned(wire_at(self.row, r2.start + j))
                            && #[trigger] witness.value(wire_at(self.row, r2.start + j)) is None;
                    assert(wire_at(self.row, r2.start + j) == wire_at(self.row, s + (j + 2 * D)));
                    assert(witness.value(wire_at(self.row, s + (j + 2 * D))) is None);
                }
                return Err(e);
            },
        };
        proof {
            assert forall|j: int| 0 <= j < 3 * D implies (#[trigger] witness.value(wire_at(self.row, s + j))).is_some() by {
                if j < D {
                } else if j < 2 * D {
                    assert(wire_at(self.row, s + j) == wire_at(self.row, r1.start + (j - D)));
                } else {
                    assert(wire_at(self.row, s + j) == wire_at(self.row, r2.start + (j - 2 * D)));
                }
            }
        }
        let product = mul_ext(&multiplicand_0, &multiplicand_1);
        let scaled_product = scalar_mul_ext(&product, self.const_0);
        let scaled_addend = scalar_mul_ext(&addend, self.const_1);
        let computed_output = add_ext(&scaled_product, &scaled_addend);
        let ghost start = out_buffer.target_values@;
        let mut j: usize = 0;
        while j < D
            invariant
                j <= D,
                self.wf(),
                ro.start == self.output_start(),
                ro.end == ro.start + D,
                computed_output.len() == D,
                ints(computed_output@) == self.computed_output(*witness),
                out_buffer.target_values@ == start + self.output_writes(self.computed_output(*witness)).subrange(0, j as int),
            decreases D - j,
        {
            out_buffer.set_target(Target::wire(self.row, ro.start + j), computed_output[j]);
            assert(self.output_writes(self.computed_output(*witness)).subrange(0, j + 1) =~= self.output_writes(self.computed_output(*witness)).subrange(0, j as int).push((wire_at(self.row, ro.start + j), computed_output@[j as int])));
            j = j + 1;
        }
        assert(self.output_writes(self.computed_output(*witness)).subrange(0, D as int) =~= self.output_writes(self.computed_output(*witness)));
        Ok(())
    }
}

/// Witness correctness: take a row `w` whose multiplicands and addends are
/// the values that `wit` holds for them, and whose every output is what the
/// generator of that operation computes from `wit`. Then every constraint
/// of `gate` evaluates to zero on that row.
pub proof fn lemma_generated_row_meets_constraints<const D: usize>(
    gate: ArithmeticExtensionGate<D>,
    wit: PartitionWitness,
    w: Seq<int>,
    row: usize,
    c0: u64,
    c1: u64,
)
    requires
        gate.wf(),
        w.len() >= gate.num_ops * 4 * D,
        forall|i: int, slot: int, j: int|
            0 <= i < gate.num_ops && 0 <= slot < 3 && 0 <= j < D ==> #[trigger] wit.value(
                wire_at(row, slot_start(i, slot, D as int) + j),
            ) == Some(w[slot_start(i, slot, D as int) + j] as u64) && 0 <= w[slot_start(i, slot, D as int) + j] <= u64::MAX,
        forall|i: int|
            0 <= i < gate.num_ops ==> #[trigger] operand(w, i, OUTPUT as int, D as int) == (
            ArithmeticExtensionGenerator::<D> { row, const_0: c0, const_1: c1, i: i as usize })
                .computed_output(wit),
    ensures
        gate_constraints(w, c0 as int, c1 as int, gate.num_ops as nat, D as int) == Seq::new(
            (gate.num_ops * D) as nat,
            |k: int| 0int,
        ),
{
    assert forall|i: int|
        0 <= i < gate.num_ops implies #[trigger] operand(w, i, OUTPUT as int, D as int) == weighted_mul_add(
            operand(w, i, MULTIPLICAND_0 as int, D as int),
            operand(w, i, MULTIPLICAND_1 as int, D as int),
            operand(w, i, ADDEND as int, D as int),
            c0 as int,
            c1 as int,
        ) by {
        let g = ArithmeticExtensionGenerator::<D> { row, const_0: c0, const_1: c1, i: i as usize };
        assert forall|slot: int| 0 <= slot < 3 implies #[trigger] values_at(wit, row, slot_start(i, slot, D as int), D as int)
            == operand(w, i, slot, D as int) by {
            lemma_wire_ranges_within_capacity(gate.num_ops as int, D as int, i, slot, i, slot);
            assert forall|j: int| 0 <= j < D implies #[trigger] values_at(wit, row, slot_start(i, slot, D as int), D as int)[j]
                == operand(w, i, slot, D as int)[j] by {
                assert(wit.value(wire_at(row, slot_start(i, slot, D as int) + j)) == Some(w[slot_start(i, slot, D as int) + j] as u64));
            }
            assert(values_at(wit, row, slot_start(i, slot, D as int), D as int) =~= operand(w, i, slot, D as int));
        }
        assert(g.computed_output(wit) == weighted_mul_add(
            values_at(wit, row, slot_start(i, 0, D as int), D as int),
            values_at(wit, row, slot_start(i, 1, D as int), D as int),
            values_at(wit, row, slot_start(i, 2, D as int), D as int),
            c0 as int,
            c1 as int,
        ));
    }
    lemma_satisfied_row_evaluates_to_zero(w, c0 as int, c1 as int, gate.num_ops as nat, D as int);
}

impl<const D: usize> ArithmeticExtensionGate<D> {
    /// One generator per operation, for row `row`, holding that row's weights.
    pub fn generators(&self, row: usize, local_constants: &Vec<u64>) -> (r: Vec<
        ArithmeticExtensionGenerator<D>,
    >)
        requires
            self.wf(),
            self.num_ops > 0 ==> local_constants.len() >= 2,
        ensures
            r@.len() == self.num_ops,
            forall|i: int|
                0 <= i < self.num_ops ==> #[trigger] r@[i] == (ArithmeticExtensionGenerator::<D> {
                    row,
                    const_0: local_constants@[0],
                    const_1: local_constants@[1],
                    i: i as usize,
                }),
            self.num_ops > 0 && is_canonical(local_constants@[0] as int) && is_canonical(
                local_constants@[1] as int,
            ) ==> forall|i: int| 0 <= i < self.num_ops ==> (#[trigger] r@[i]).wf(),
    {
        let mut r: Vec<ArithmeticExtensionGenerator<D>> = Vec::new();
        let mut i: usize = 0;
        while i < self.num_ops
            invariant
                self.wf(),
                i <= self.num_ops,
                self.num_ops > 0 ==> local_constants.len() >= 2,
                r@.len() == i,
                forall|k: int|
                    0 <= k < i ==> #[trigger] r@[k] == (ArithmeticExtensionGenerator::<D> {
                        row,
                        const_0: local_constants@[0],
                        const_1: local_constants@[1],
                        i: k as usize,
                    }),
            decreases self.num_ops - i,
        {
            proof {
                lemma_op_fits(i as int, self.num_ops as int, D as int);
            }
            r.push(
                ArithmeticExtensionGenerator {
                    row,
                    const_0: local_constants[0],
                    const_1: local_constants[1],
                    i,
                },
            );
            i = i + 1;
        }
        proof {
            if self.num_ops > 0 && is_canonical(local_constants@[0] as int) && is_canonical(
                local_constants@[1] as int,
            ) {
                assert forall|k: int| 0 <= k < self.num_ops implies (#[trigger] r@[k]).wf() by {
                    lemma_op_fits(k, self.num_ops as int, D as int);
                    assert(r@[k].i == k);
                }
            }
        }
        r
    }
}

} // verus!
