use plonky2::circuit::{CircuitBuilder, EvaluationTargets, ExtensionTarget};
use plonky2::config::CircuitConfig;
use plonky2::ext::{add_ext, mul_ext, scalar_mul_ext, sub_ext};
use plonky2::field::{field_add, field_mul, field_sub, ORDER};
use plonky2::gate::ArithmeticExtensionGate;
use plonky2::generator::ArithmeticExtensionGenerator;
use plonky2::serial::{write_field, write_usize, Buffer, IoError};
use plonky2::witness::{GeneratedValues, PartitionWitness, Target, Wire, WitnessError};

fn ext_row(w: &[u64], d: usize) -> Vec<u64> {
    assert_eq!(w.len() % d, 0);
    w.to_vec()
}

#[test]
fn field_arithmetic_wraps_at_the_order() {
    assert_eq!(field_add(ORDER - 1, 2), 1);
    assert_eq!(field_sub(1, 2), ORDER - 1);
    assert_eq!(field_mul(ORDER - 1, ORDER - 1), 1);
    assert_eq!(field_mul(1 << 32, 1 << 32), (1u64 << 32) - 1);
}

#[test]
fn extension_product_reduces_by_seven() {
    // (1 + 2X)(3 + 4X) = 3 + 10X + 8X^2, and X^2 = 7.
    assert_eq!(mul_ext(&vec![1, 2], &vec![3, 4]), vec![59, 10]);
    assert_eq!(add_ext(&vec![ORDER - 1, 5], &vec![3, 4]), vec![2, 9]);
    assert_eq!(sub_ext(&vec![1, 5], &vec![3, 4]), vec![ORDER - 2, 1]);
    assert_eq!(scalar_mul_ext(&vec![1, 5], 3), vec![3, 15]);
}

#[test]
fn operations_fill_the_routed_wires() {
    let config = CircuitConfig::standard_recursion_config();
    let g2 = ArithmeticExtensionGate::<2>::new_from_config(&config);
    assert_eq!(g2.num_ops, 10);
    assert_eq!(ArithmeticExtensionGate::<2>::num_ops(&config), 10);
    assert_eq!(g2.num_wires(), 80);
    assert_eq!(g2.num_constraints(), 20);
    assert_eq!(g2.num_constants(), 2);
    assert_eq!(g2.degree(), 3);
    let g4 = ArithmeticExtensionGate::<4>::new_from_config(&config);
    assert_eq!(g4.num_ops, 5);
    assert_eq!(g4.num_wires(), 80);
}

#[test]
fn wire_ranges_tile_each_operation() {
    type G = ArithmeticExtensionGate<2>;
    assert_eq!(G::wires_ith_multiplicand_0(0), 0..2);
    assert_eq!(G::wires_ith_multiplicand_1(0), 2..4);
    assert_eq!(G::wires_ith_addend(0), 4..6);
    assert_eq!(G::wires_ith_output(0), 6..8);
    assert_eq!(G::wires_ith_multiplicand_0(3), 24..26);
    assert_eq!(G::wires_ith_output(9), 78..80);
    let g = G { num_ops: 10 };
    assert_eq!(G::wires_ith_output(g.num_ops - 1).end, g.num_wires());
}

/// The generator fills the output with 3 * 4 + 5 and the row then meets
/// every constraint.
#[test]
fn scenario_multiply_add() {
    let gate = ArithmeticExtensionGate::<2> { num_ops: 1 };
    let constants = vec![1u64, 1];
    let generators = gate.generators(0, &constants);
    assert_eq!(generators.len(), 1);
    let mut witness = PartitionWitness::new();
    for (c, v) in [(0usize, 3u64), (1, 0), (2, 4), (3, 0), (4, 5), (5, 0)] {
        assert_eq!(witness.set_target(Target::wire(0, c), v), Ok(()));
    }
    let mut out = GeneratedValues::empty();
    assert_eq!(generators[0].run_once(&witness, &mut out), Ok(()));
    assert_eq!(out.target_values, vec![(Target::wire(0, 6), 17), (Target::wire(0, 7), 0)]);
    let row = ext_row(&[3, 0, 4, 0, 5, 0, 17, 0], 2);
    let mut constraints = Vec::new();
    gate.eval_unfiltered_base_one(&constants, &row, &mut constraints);
    assert_eq!(constraints, vec![0, 0]);
    let bad_row = ext_row(&[3, 0, 4, 0, 5, 0, 18, 0], 2);
    let mut bad = Vec::new();
    gate.eval_unfiltered_base_one(&constants, &bad_row, &mut bad);
    assert_eq!(bad, vec![1, 0]);
}

/// Running every generator of a gate on arbitrary inputs yields a row on
/// which the base field evaluation is all zeros.
#[test]
fn generated_outputs_satisfy_constraints() {
    let gate = ArithmeticExtensionGate::<2> { num_ops: 3 };
    let constants = vec![9u64, ORDER - 2];
    let mut witness = PartitionWitness::new();
    let mut row = vec![0u64; gate.num_wires()];
    for op in 0..3 {
        for c in ArithmeticExtensionGate::<2>::wires_ith_multiplicand_0(op).start
            ..ArithmeticExtensionGate::<2>::wires_ith_addend(op).end
        {
            let v = (c as u64 * 7919 + 13) % ORDER;
            row[c] = v;
            witness.set_target(Target::wire(4, c), v).unwrap();
        }
    }
    for generator in gate.generators(4, &constants) {
        let mut out = GeneratedValues::empty();
        generator.run_once(&witness, &mut out).unwrap();
        for (t, v) in out.target_values {
            match t {
                Target::Wire(Wire { row: 4, column }) => row[column] = v,
                _ => panic!("unexpected target"),
            }
        }
    }
    let mut constraints = Vec::new();
    gate.eval_unfiltered_base_one(&constants, &row, &mut constraints);
    assert_eq!(constraints.len(), 6);
    assert!(constraints.iter().all(|&x| x == 0));
}

#[test]
fn generator_reads_three_operands() {
    let g = ArithmeticExtensionGenerator::<2> { row: 5, const_0: 1, const_1: 2, i: 1 };
    let deps = g.dependencies();
    let expected: Vec<Target> = (8..14).map(|c| Target::wire(5, c)).collect();
    assert_eq!(deps, expected);
}

#[test]
fn generator_reports_missing_input() {
    let g = ArithmeticExtensionGenerator::<2> { row: 0, const_0: 1, const_1: 1, i: 0 };
    let mut witness = PartitionWitness::new();
    witness.set_target(Target::wire(0, 0), 3).unwrap();
    let mut out = GeneratedValues::empty();
    let r = g.run_once(&witness, &mut out);
    assert_eq!(r, Err(WitnessError::Unassigned(Target::wire(0, 1))));
    assert!(out.target_values.is_empty());
}

#[test]
fn witness_keeps_first_assignment() {
    let mut witness = PartitionWitness::new();
    let t = Target::wire(1, 2);
    assert_eq!(witness.try_get_target(t), None);
    assert_eq!(witness.set_target(t, 5), Ok(()));
    assert_eq!(witness.set_target(t, 5), Ok(()));
    assert_eq!(witness.set_target(t, 6), Err(WitnessError::Conflict(t)));
    assert_eq!(witness.try_get_target(t), Some(5));
    assert_eq!(witness.try_get_target(Target::VirtualTarget { index: 0 }), None);
}

#[test]
fn gate_round_trip() {
    let gate = ArithmeticExtensionGate::<2> { num_ops: 258 };
    let mut bytes = Vec::new();
    gate.serialize(&mut bytes);
    assert_eq!(bytes, vec![2, 1, 0, 0, 0, 0, 0, 0]);
    bytes.push(99);
    let mut buf = Buffer::new(bytes);
    assert_eq!(ArithmeticExtensionGate::<2>::deserialize(&mut buf), Ok(gate));
    assert_eq!(buf.remaining(), 1);
}

#[test]
fn generator_round_trip() {
    let g = ArithmeticExtensionGenerator::<2> { row: 7, const_0: ORDER - 1, const_1: 3, i: 2 };
    let mut bytes = Vec::new();
    g.serialize(&mut bytes);
    assert_eq!(bytes.len(), 32);
    assert_eq!(&bytes[0..8], &[7, 0, 0, 0, 0, 0, 0, 0]);
    let mut buf = Buffer::new(bytes);
    assert_eq!(ArithmeticExtensionGenerator::<2>::deserialize(&mut buf), Ok(g));
    assert_eq!(buf.remaining(), 0);
}

#[test]
fn truncated_bytes_fail_to_decode() {
    let mut buf = Buffer::new(vec![1, 2, 3]);
    assert_eq!(ArithmeticExtensionGate::<2>::deserialize(&mut buf), Err(IoError));
    assert_eq!(buf.pos, 0);
    let mut bytes = Vec::new();
    write_usize(&mut bytes, 1);
    write_field(&mut bytes, 2);
    let mut short = Buffer::new(bytes);
    assert_eq!(ArithmeticExtensionGenerator::<2>::deserialize(&mut short), Err(IoError));
    assert_eq!(short.pos, 0);
}

#[test]
fn non_canonical_weight_fails_to_decode() {
    let mut bytes = Vec::new();
    write_usize(&mut bytes, 1);
    write_field(&mut bytes, ORDER);
    write_field(&mut bytes, 2);
    write_usize(&mut bytes, 0);
    let mut buf = Buffer::new(bytes);
    assert_eq!(ArithmeticExtensionGenerator::<2>::deserialize(&mut buf), Err(IoError));
    assert_eq!(buf.pos, 0);
    let mut b2 = Buffer::new(vec![0xff; 8]);
    assert_eq!(b2.read_field(), Err(IoError));
    assert_eq!(b2.read_u64(), Ok(u64::MAX));
}

/// The circuit built by the in-circuit evaluation, evaluated on the row's
/// values, gives what the direct evaluation gives.
#[test]
fn circuit_matches_direct_evaluation() {
    const D: usize = 2;
    let gate = ArithmeticExtensionGate::<D> { num_ops: 2 };
    let n = gate.num_wires();
    let mut builder = CircuitBuilder::new(n + 2);
    let vars = EvaluationTargets {
        local_wires: (0..n).map(|i| builder.input(i)).collect(),
        local_constants: vec![builder.input(n), builder.input(n + 1)],
    };
    let r: Vec<ExtensionTarget> = gate.eval_unfiltered_circuit(&mut builder, &vars);
    assert_eq!(r.len(), gate.num_constraints());
    let wires: Vec<Vec<u64>> = (0..n as u64).map(|i| vec![(i * i * 31 + 5) % ORDER, (i * 977 + ORDER - 3) % ORDER]).collect();
    let constants = vec![vec![3u64, ORDER - 1], vec![11u64, 2]];
    let mut inputs = wires.clone();
    inputs.extend(constants.clone());
    let values = builder.evaluate(&inputs, D).unwrap();
    let direct = gate.eval_unfiltered(&constants, &wires);
    let from_circuit: Vec<Vec<u64>> = r.iter().map(|t| values[t.0].clone()).collect();
    assert_eq!(from_circuit, direct);
    assert!(direct.iter().any(|v| v.iter().any(|&x| x != 0)));
}

#[test]
fn evaluate_rejects_bad_inputs() {
    let mut builder = CircuitBuilder::new(2);
    let a = vec![builder.input(0)];
    let b = vec![builder.input(1)];
    let d = builder.sub_ext_algebra(&a, &b);
    let ok = builder.evaluate(&vec![vec![5, 1], vec![2, 3]], 2).unwrap();
    assert_eq!(ok[d[0].0], vec![3, ORDER - 2]);
    assert_eq!(builder.evaluate(&vec![vec![5, 1]], 2), None);
    assert_eq!(builder.evaluate(&vec![vec![5, 1], vec![2]], 2), None);
    assert_eq!(builder.evaluate(&vec![vec![5, 1], vec![ORDER, 0]], 2), None);
}

#[test]
fn extension_evaluation_of_a_satisfied_row_is_zero() {
    let gate = ArithmeticExtensionGate::<2> { num_ops: 1 };
    // With m0 = 1 + 2Y, m1 = 3 + 4Y, addend = Y and both weights 1:
    // m0 * m1 = 3 + 10Y + 8Y^2 = 59 + 10Y, so the output must be 59 + 11Y.
    let mut wires = vec![vec![1, 0], vec![2, 0], vec![3, 0], vec![4, 0], vec![0, 0], vec![1, 0], vec![59, 0], vec![11, 0]];
    let constants = vec![vec![1, 0], vec![1, 0]];
    assert_eq!(gate.eval_unfiltered(&constants, &wires), vec![vec![0, 0], vec![0, 0]]);
    wires[6] = vec![66, 0];
    wires[7] = vec![10, 0];
    assert_eq!(gate.eval_unfiltered(&constants, &wires), vec![vec![7, 0], vec![ORDER - 1, 0]]);
}

#[test]
fn identifiers_name_the_parameters() {
    let gate = ArithmeticExtensionGate::<2> { num_ops: 10 };
    assert_eq!(gate.id(), "ArithmeticExtensionGate { num_ops: 10 }");
    let generator = ArithmeticExtensionGenerator::<2> { row: 0, const_0: 0, const_1: 0, i: 0 };
    assert_eq!(generator.id(), "ArithmeticExtensionGenerator");
}

#[test]
fn circom_export_fills_in_parameters() {
    let gate = ArithmeticExtensionGate::<2> { num_ops: 12 };
    let code = gate.export_circom_verification_code();
    assert!(code.starts_with("template ArithmeticExtension12() {\n"));
    assert!(code.contains("signal m[12][2][2];"));
    assert!(code.contains("WiresAlgebraMul(4 * 2 * i, 4 * 2 * i + 2)(wires);"));
    assert!(!code.contains("$NUM_OPS"));
    assert!(!code.contains("$D"));
    assert!(code.contains("$SET_FILTER;"));
    assert!(code.ends_with("}\n}"));
}

#[test]
fn solidity_export_fills_in_operation_count() {
    let gate = ArithmeticExtensionGate::<2> { num_ops: 7 };
    let code = gate.export_solidity_verification_code();
    assert!(code.starts_with("library ArithmeticExtension7Lib {\n"));
    assert!(code.contains("for (uint32 i = 0; i < 7; i++) {"));
    assert!(code.contains("uint64[2][2] memory m"));
    assert!(code.contains("4 * 2 * i + 3 * 2 + j"));
    assert!(!code.contains("$NUM_OPS"));
    assert!(!code.contains("$D"));
    assert!(code.contains("$NUM_GATE_CONSTRAINTS"));
}

#[test]
fn gate_without_operations_makes_no_generators() {
    let gate = ArithmeticExtensionGate::<2> { num_ops: 0 };
    assert!(gate.generators(3, &Vec::new()).is_empty());
    assert_eq!(gate.num_wires(), 0);
    assert_eq!(gate.num_constraints(), 0);
}
