use plonky2::circuit::{CircuitBuilder, EvaluationTargets};
use plonky2::config::CircuitConfig;
use plonky2::field::{field_add, field_mul, field_sub, ORDER};
use plonky2::gate::ArithmeticExtensionGate;

/// A deterministic stream of field elements.
struct Rng(u64);

impl Rng {
    fn next(&mut self) -> u64 {
        self.0 = self.0.wrapping_mul(6364136223846793005).wrapping_add(1442695040888963407);
        (self.0 >> 1) % ORDER
    }

    fn vec(&mut self, n: usize) -> Vec<u64> {
        (0..n).map(|_| self.next()).collect()
    }
}

fn line(a: &[u64], b: &[u64], t: u64) -> Vec<u64> {
    a.iter().zip(b).map(|(&x, &y)| field_add(x, field_mul(t, y))).collect()
}

fn eval_base<const D: usize>(gate: &ArithmeticExtensionGate<D>, c: &[u64], w: &[u64]) -> Vec<u64> {
    let mut out = Vec::new();
    gate.eval_unfiltered_base_one(&c.to_vec(), &w.to_vec(), &mut out);
    out
}

fn ext_line(a: &[Vec<u64>], b: &[Vec<u64>], t: u64) -> Vec<Vec<u64>> {
    a.iter().zip(b).map(|(x, y)| line(x, y, t)).collect()
}

fn differences_vanish(values: Vec<Vec<u64>>, k: usize) -> bool {
    let mut diffs = values;
    for _ in 0..k {
        diffs = diffs.windows(2).map(|p| p[1].iter().zip(&p[0]).map(|(&x, &y)| field_sub(x, y)).collect()).collect();
    }
    diffs.len() == 1 && diffs[0].iter().all(|&x| x == 0)
}

/// Each constraint, evaluated along a line through the space of wires and
/// constants, is a polynomial of degree at most `degree()` in the position
/// on the line: its finite differences of order `degree() + 1` vanish. This
/// holds over the extension and over the base field.
#[test]
fn low_degree() {
    const D: usize = 4;
    let gate = ArithmeticExtensionGate::<D>::new_from_config(&CircuitConfig::standard_recursion_config());
    assert_eq!(gate.num_ops, 5);
    let mut rng = Rng(7);
    let n = gate.num_wires();
    let k = gate.degree() + 1;

    let (wa, wb): (Vec<Vec<u64>>, Vec<Vec<u64>>) = ((0..n).map(|_| rng.vec(D)).collect(), (0..n).map(|_| rng.vec(D)).collect());
    let (ca, cb): (Vec<Vec<u64>>, Vec<Vec<u64>>) = ((0..2).map(|_| rng.vec(D)).collect(), (0..2).map(|_| rng.vec(D)).collect());
    let ext_values: Vec<Vec<u64>> = (0..=k as u64)
        .map(|t| {
            let r = gate.eval_unfiltered(&ext_line(&ca, &cb, t), &ext_line(&wa, &wb, t));
            assert_eq!(r.len(), gate.num_constraints());
            r.concat()
        })
        .collect();
    assert!(differences_vanish(ext_values.clone(), k));
    assert!(!differences_vanish(ext_values, k - 1));

    let (wa, wb) = (rng.vec(n), rng.vec(n));
    let (ca, cb) = (rng.vec(2), rng.vec(2));
    let values: Vec<Vec<u64>> = (0..=k as u64)
        .map(|t| eval_base(&gate, &line(&ca, &cb, t), &line(&wa, &wb, t)))
        .collect();
    assert_eq!(values[0].len(), gate.num_constraints());
    assert!(differences_vanish(values, k));
}

/// The extension evaluation of a row whose values all lie in the base field
/// agrees with the base field evaluation of that row at every coordinate.
#[test]
fn eval_fns() {
    const D: usize = 2;
    let gate = ArithmeticExtensionGate::<D>::new_from_config(&CircuitConfig::standard_recursion_config());
    assert_eq!(gate.num_ops, 10);
    let mut rng = Rng(11);
    let w = rng.vec(gate.num_wires());
    let c = rng.vec(2);
    let base = eval_base(&gate, &c, &w);
    let lift = |x: &u64| vec![*x, 0u64];
    let ext_w: Vec<Vec<u64>> = w.iter().map(lift).collect();
    let ext_c: Vec<Vec<u64>> = c.iter().map(lift).collect();
    let ext = gate.eval_unfiltered(&ext_c, &ext_w);
    assert_eq!(ext.len(), gate.num_constraints());
    for (e, b) in ext.iter().zip(&base) {
        assert_eq!(e, &vec![*b, 0]);
    }

    // The same constraints computed by a circuit over extension-valued inputs.
    let n = gate.num_wires();
    let mut builder = CircuitBuilder::new(n + 2);
    let vars = EvaluationTargets {
        local_wires: (0..n).map(|i| builder.input(i)).collect(),
        local_constants: vec![builder.input(n), builder.input(n + 1)],
    };
    let targets = gate.eval_unfiltered_circuit(&mut builder, &vars);
    let full_w: Vec<Vec<u64>> = (0..n).map(|_| rng.vec(D)).collect();
    let full_c: Vec<Vec<u64>> = (0..2).map(|_| rng.vec(D)).collect();
    let mut inputs = full_w.clone();
    inputs.extend(full_c.iter().cloned());
    let values = builder.evaluate(&inputs, D).unwrap();
    let direct = gate.eval_unfiltered(&full_c, &full_w);
    let in_circuit: Vec<Vec<u64>> = targets.iter().map(|t| values[t.0].clone()).collect();
    assert_eq!(in_circuit, direct);
}
