use vstd::prelude::*;

verus! {

/// The shape of a circuit: how many wires a row has, how many of them take
/// part in copy constraints, and how many constants each gate may read.
#[derive(Clone, Copy, Debug, PartialEq, Eq)]
pub struct CircuitConfig {
    pub num_wires: usize,
    pub num_routed_wires: usize,
    pub num_constants: usize,
    pub use_base_arithmetic_gate: bool,
    pub security_bits: usize,
    pub num_challenges: usize,
    pub zero_knowledge: bool,
    pub max_quotient_degree_factor: usize,
}

impl CircuitConfig {
    /// The configuration used for recursive verification circuits.
    pub fn standard_recursion_config() -> (r: Self)
        ensures
            r.num_wires == 135,
            r.num_routed_wires == 80,
            r.num_constants == 2,
            r.use_base_arithmetic_gate,
            r.security_bits == 100,
            r.num_challenges == 2,
            !r.zero_knowledge,
            r.max_quotient_degree_factor == 8,
    {
        CircuitConfig {
            num_wires: 135,
            num_routed_wires: 80,
            num_constants: 2,
            use_base_arithmetic_gate: true,
            security_bits: 100,
            num_challenges: 2,
            zero_knowledge: false,
            max_quotient_degree_factor: 8,
        }
    }
}

} // verus!
