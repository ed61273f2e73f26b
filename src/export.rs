use crate::gate::ArithmeticExtensionGate;
use crate::generator::ArithmeticExtensionGenerator;
use vstd::prelude::*;

verus! {

/// The decimal digit `d`.
pub open spec fn digit_char(d: nat) -> char {
    seq!['0', '1', '2', '3', '4', '5', '6', '7', '8', '9'][d as int]
}

/// The decimal representation of `n`, without leading zeros.
pub open spec fn decimal(n: nat) -> Seq<char>
    decreases n,
{
    if n < 10 {
        seq![digit_char(n)]
    } else {
        decimal(n / 10) + seq![digit_char(n % 10)]
    }
}

/// What `str::replace` returns: `s` with every occurrence of `from`,
/// taken from left to right without overlap, replaced by `to`.
pub uninterp spec fn replaced(s: Seq<char>, from: Seq<char>, to: Seq<char>) -> Seq<char>;

/// Relies on `usize::to_string` (its `Display` impl): the decimal digits of
/// `n`, with no sign, padding or leading zeros.
#[verifier::external_body]
fn to_decimal(n: usize) -> (r: String)
    ensures
        r@ == decimal(n as nat),
{
    n.to_string()
}

/// Relies on `str::replace`: the result depends on its three arguments alone.
#[verifier::external_body]
fn replace_all(s: &str, from: &str, to: &str) -> (r: String)
    ensures
        r@ == replaced(s@, from@, to@),
{
    s.replace(from, to)
}

/// The identifier of an arithmetic extension gate, before its number of operations is written in.
pub const GATE_ID_TEMPLATE: &'static str = "ArithmeticExtensionGate { num_ops: $NUM_OPS }";

/// A circom template checking the constraints of one row.
pub const CIRCOM_TEMPLATE: &'static str = "template ArithmeticExtension$NUM_OPS() {
  signal input constants[NUM_OPENINGS_CONSTANTS()][2];
  signal input wires[NUM_OPENINGS_WIRES()][2];
  signal input public_input_hash[4];
  signal input constraints[NUM_GATE_CONSTRAINTS()][2];
  signal output out[NUM_GATE_CONSTRAINTS()][2];

  signal filter[2];
  $SET_FILTER;

  signal m[$NUM_OPS][2][2];
  for (var i = 0; i < $NUM_OPS; i++) {
    m[i] <== WiresAlgebraMul(4 * $D * i, 4 * $D * i + $D)(wires);
    for (var j = 0; j < $D; j++) {
      out[i * $D + j] <== ConstraintPush()(constraints[i * $D + j], filter, GlExtSub()(wires[4 * $D * i + 3 * $D + j], GlExtAdd()(GlExtMul()(m[i][j], constants[$NUM_SELECTORS]), GlExtMul()(wires[4 * $D * i + 2 * $D + j], constants[$NUM_SELECTORS + 1]))));
    }
  }

  for (var i = $NUM_OPS * $D; i < NUM_GATE_CONSTRAINTS(); i++) {
    out[i] <== constraints[i];
  }
}";

/// A Solidity library checking the constraints of one row.
pub const SOLIDITY_TEMPLATE: &'static str = "library ArithmeticExtension$NUM_OPSLib {
    using GoldilocksExtLib for uint64[2];
    function set_filter(GatesUtilsLib.EvaluationVars memory ev) internal pure {
        $SET_FILTER;
    }
    function eval(GatesUtilsLib.EvaluationVars memory ev, uint64[2][$NUM_GATE_CONSTRAINTS] memory constraints) internal pure {
        for (uint32 i = 0; i < $NUM_OPS; i++) {
            uint64[2][$D] memory m = GatesUtilsLib.wires_algebra_mul(ev.wires, 4 * $D * i, 4 * $D * i + $D);
            for (uint32 j = 0; j < $D; j++) {
                GatesUtilsLib.push(constraints, ev.filter, i * $D + j, ev.wires[4 * $D * i + 3 * $D + j].sub(m[j].mul(ev.constants[$NUM_SELECTORS]).add(ev.wires[4 * $D * i + 2 * $D + j].mul(ev.constants[$NUM_SELECTORS + 1]))));
            }
        }
    }
}";

impl<const D: usize> ArithmeticExtensionGate<D> {
    /// Name and number of operations, as its debug form shows them.
    pub fn id(&self) -> (r: String)
        ensures
            r@ == replaced(GATE_ID_TEMPLATE@, "$NUM_OPS"@, decimal(self.num_ops as nat)),
    {
        replace_all(GATE_ID_TEMPLATE, "$NUM_OPS", &to_decimal(self.num_ops))
    }

    /// The circom template with the number of operations and the extension
    /// degree written in.
    pub fn export_circom_verification_code(&self) -> (r: String)
        ensures
            r@ == replaced(
                replaced(CIRCOM_TEMPLATE@, "$NUM_OPS"@, decimal(self.num_ops as nat)),
                "$D"@,
                decimal(D as nat),
            ),
    {
        let template_str = replace_all(CIRCOM_TEMPLATE, "$NUM_OPS", &to_decimal(self.num_ops));
        replace_all(template_str.as_str(), "$D", &to_decimal(D))
    }

    /// The Solidity library with the number of operations and the extension
    /// degree written in.
    pub fn export_solidity_verification_code(&self) -> (r: String)
        ensures
            r@ == replaced(
                replaced(SOLIDITY_TEMPLATE@, "$NUM_OPS"@, decimal(self.num_ops as nat)),
                "$D"@,
                decimal(D as nat),
            ),
    {
        let template_str = replace_all(SOLIDITY_TEMPLATE, "$NUM_OPS", &to_decimal(self.num_ops));
        replace_all(template_str.as_str(), "$D", &to_decimal(D))
    }
}

impl<const D: usize> ArithmeticExtensionGenerator<D> {
    pub fn id(&self) -> (r: String)
        ensures
            r@ == "ArithmeticExtensionGenerator"@,
    {
        "ArithmeticExtensionGenerator".to_owned()
    }
}

} // verus!
