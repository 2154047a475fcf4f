//! The closed catalogue of graph operators.
//!
//! Each operator declares a stable identity string, an ordered list of input
//! port labels (its length is the operator's arity), and a pure evaluation
//! function over resolved input samples, the global phase counter and the
//! sample rate. The `Node` enum closes the catalogue so that a graph can be
//! stored, walked and persisted without dynamic dispatch.

use vstd::prelude::*;

use crate::fp::{add64, dbl_of_u32, dbl_of_u64, div64, mul64, sin64, ONE_BITS, TAU_BITS};
use crate::sample::Sample;
use crate::text::chars_of;

verus! {

/// The sine of `phase` times the per-sample phase step of a frequency,
/// scaled to a full circle: one channel of an oscillator's output.
pub open spec fn sine_channel(freq: u64, phase: u64, sample_rate: u32) -> u64 {
    sin64(mul64(mul64(dbl_of_u64(phase), div64(freq, dbl_of_u32(sample_rate))), TAU_BITS))
}

/// The zero-ary placeholder operator; evaluates to the zero sample. The
/// graph's sink is one of these.
#[derive(Clone, Debug)]
pub struct Empty;

impl Empty {
    pub fn get_ident(&self) -> (r: &'static str)
        ensures
            r@ == "Empty"@,
    {
        "Empty"
    }

    pub fn get_input_labels(&self) -> (r: Vec<Vec<char>>)
        ensures
            r@.len() == 0,
    {
        Vec::new()
    }

    pub fn process(&self, inputs: &[Sample], phase: u64, sample_rate: u32) -> (s: Sample)
        ensures
            s == (Sample { l: 0u64, r: 0u64 }),
    {
        Sample::zero()
    }
}

/// A container's input boundary marker: a unary identity pass-through
/// carrying the label of the port it stands for.
#[derive(Clone, Debug)]
pub struct ContainerInput {
    pub label: Vec<char>,
}

impl ContainerInput {
    pub fn get_ident(&self) -> (r: &'static str)
        ensures
            r@ == "ContainerInput"@,
    {
        "ContainerInput"
    }

    pub fn get_input_labels(&self) -> (r: Vec<Vec<char>>)
        ensures
            r@.len() == 1,
            r@[0]@ == self.label@,
    {
        let mut v: Vec<Vec<char>> = Vec::new();
        v.push(self.label.clone());
        v
    }

    pub fn process(&self, inputs: &[Sample], phase: u64, sample_rate: u32) -> (s: Sample)
        requires
            inputs@.len() >= 1,
        ensures
            s == inputs@[0],
    {
        inputs[0]
    }
}

/// A container's output boundary marker: a unary identity pass-through
/// carrying the label of the port it stands for.
#[derive(Clone, Debug)]
pub struct ContainerOutput {
    pub label: Vec<char>,
}

impl ContainerOutput {
    pub fn get_ident(&self) -> (r: &'static str)
        ensures
            r@ == "ContainerOutput"@,
    {
        "ContainerOutput"
    }

    pub fn get_input_labels(&self) -> (r: Vec<Vec<char>>)
        ensures
            r@.len() == 1,
            r@[0]@ == self.label@,
    {
        let mut v: Vec<Vec<char>> = Vec::new();
        v.push(self.label.clone());
        v
    }

    pub fn process(&self, inputs: &[Sample], phase: u64, sample_rate: u32) -> (s: Sample)
        requires
            inputs@.len() >= 1,
        ensures
            s == inputs@[0],
    {
        inputs[0]
    }
}

/// A sine oscillator driven by the global phase counter; its one input is
/// the frequency.
#[derive(Clone, Debug)]
pub struct Sine;

impl Sine {
    pub fn get_ident(&self) -> (r: &'static str)
        ensures
            r@ == "Sine"@,
    {
        "Sine"
    }

    pub fn get_input_labels(&self) -> (r: Vec<Vec<char>>)
        ensures
            r@.len() == 1,
            r@[0]@ == "Frequency"@,
    {
        let mut v: Vec<Vec<char>> = Vec::new();
        v.push(chars_of("Frequency"));
        v
    }

    pub fn process(&self, inputs: &[Sample], phase: u64, sample_rate: u32) -> (s: Sample)
        requires
            inputs@.len() >= 1,
        ensures
            s == (Sample {
                l: sine_channel(inputs@[0].l, phase, sample_rate),
                r: sine_channel(inputs@[0].r, phase, sample_rate),
            }),
    {
        let rate = crate::fp::u32_to_dbl_bits(sample_rate);
        let phase_dbl = crate::fp::u64_to_dbl_bits(phase);
        let delta = inputs[0].div(Sample::mono(rate));
        Sample::mono(phase_dbl).mul(delta).mul(Sample::mono(TAU_BITS)).sin()
    }
}

/// Elementwise addition of its two inputs.
#[derive(Clone, Debug)]
pub struct Add;

impl Add {
    pub fn get_ident(&self) -> (r: &'static str)
        ensures
            r@ == "Add"@,
    {
        "Add"
    }

    pub fn get_input_labels(&self) -> (r: Vec<Vec<char>>)
        ensures
            r@.len() == 2,
            r@[0]@ == "LHS"@,
            r@[1]@ == "RHS"@,
    {
        let mut v: Vec<Vec<char>> = Vec::new();
        v.push(chars_of("LHS"));
        v.push(chars_of("RHS"));
        v
    }

    pub fn process(&self, inputs: &[Sample], phase: u64, sample_rate: u32) -> (s: Sample)
        requires
            inputs@.len() >= 2,
        ensures
            s == (Sample {
                l: add64(inputs@[0].l, inputs@[1].l),
                r: add64(inputs@[0].r, inputs@[1].r),
            }),
    {
        inputs[0].add(inputs[1])
    }
}

/// Elementwise multiplication of its two inputs.
#[derive(Clone, Debug)]
pub struct Mul;

impl Mul {
    pub fn get_ident(&self) -> (r: &'static str)
        ensures
            r@ == "Multiply"@,
    {
        "Multiply"
    }

    pub fn get_input_labels(&self) -> (r: Vec<Vec<char>>)
        ensures
            r@.len() == 2,
            r@[0]@ == "LHS"@,
            r@[1]@ == "RHS"@,
    {
        let mut v: Vec<Vec<char>> = Vec::new();
        v.push(chars_of("LHS"));
        v.push(chars_of("RHS"));
        v
    }

    pub fn process(&self, inputs: &[Sample], phase: u64, sample_rate: u32) -> (s: Sample)
        requires
            inputs@.len() >= 2,
        ensures
            s == (Sample {
                l: mul64(inputs@[0].l, inputs@[1].l),
                r: mul64(inputs@[0].r, inputs@[1].r),
            }),
    {
        inputs[0].mul(inputs[1])
    }
}

/// Elementwise reciprocal of its one input.
#[derive(Clone, Debug)]
pub struct Inv;

impl Inv {
    pub fn get_ident(&self) -> (r: &'static str)
        ensures
            r@ == "Inverse"@,
    {
        "Inverse"
    }

    pub fn get_input_labels(&self) -> (r: Vec<Vec<char>>)
        ensures
            r@.len() == 1,
            r@[0]@ == "Input"@,
    {
        let mut v: Vec<Vec<char>> = Vec::new();
        v.push(chars_of("Input"));
        v
    }

    pub fn process(&self, inputs: &[Sample], phase: u64, sample_rate: u32) -> (s: Sample)
        requires
            inputs@.len() >= 1,
        ensures
            s == (Sample {
                l: div64(ONE_BITS, inputs@[0].l),
                r: div64(ONE_BITS, inputs@[0].r),
            }),
    {
        inputs[0].recip()
    }
}

/// A fixed stored sample; zero-ary, exempt from per-phase recomputation.
#[derive(Clone, Debug)]
pub struct Const(pub Sample);

impl Const {
    pub fn get_ident(&self) -> (r: &'static str)
        ensures
            r@ == "Constant"@,
    {
        "Constant"
    }

    pub fn get_input_labels(&self) -> (r: Vec<Vec<char>>)
        ensures
            r@.len() == 0,
    {
        Vec::new()
    }

    pub fn process(&self, inputs: &[Sample], phase: u64, sample_rate: u32) -> (s: Sample)
        ensures
            s == self.0,
    {
        self.0
    }
}

impl From<Sample> for Const {
    fn from(value: Sample) -> (r: Const)
    {
        Const(value)
    }
}

impl vstd::std_specs::convert::FromSpecImpl<Sample> for Const {
    open spec fn obeys_from_spec() -> bool {
        true
    }

    open spec fn from_spec(value: Sample) -> Const {
        Const(value)
    }
}

/// Builds a constant operator from one scalar, broadcast to both channels.
pub fn c(bits: u64) -> (r: Const)
    ensures
        r == (Const(Sample { l: bits, r: bits })),
{
    Const(Sample::mono(bits))
}

/// A graph operator: one entry of the closed catalogue.
#[derive(Clone, Debug)]
pub enum Node {
    Empty(Empty),
    ContainerInput(ContainerInput),
    ContainerOutput(ContainerOutput),
    Sine(Sine),
    Add(Add),
    Mul(Mul),
    Inv(Inv),
    Const(Const),
}

impl Node {
    /// The number of input ports the operator declares.
    pub open spec fn arity_spec(&self) -> nat {
        match self {
            Node::Empty(_) => 0,
            Node::ContainerInput(_) => 1,
            Node::ContainerOutput(_) => 1,
            Node::Sine(_) => 1,
            Node::Add(_) => 2,
            Node::Mul(_) => 2,
            Node::Inv(_) => 1,
            Node::Const(_) => 0,
        }
    }

    /// Whether the operator is a stored constant, exempt from per-phase
    /// recomputation: exactly the operators whose identity string is
    /// `"Constant"`.
    pub open spec fn is_const_spec(&self) -> bool {
        self is Const
    }

    /// The operator's identity string.
    pub open spec fn ident_spec(&self) -> Seq<char> {
        match self {
            Node::Empty(_) => "Empty"@,
            Node::ContainerInput(_) => "ContainerInput"@,
            Node::ContainerOutput(_) => "ContainerOutput"@,
            Node::Sine(_) => "Sine"@,
            Node::Add(_) => "Add"@,
            Node::Mul(_) => "Multiply"@,
            Node::Inv(_) => "Inverse"@,
            Node::Const(_) => "Constant"@,
        }
    }

    /// What the operator evaluates to, given its resolved inputs, the
    /// global phase counter, and the sample rate.
    pub open spec fn process_spec(&self, inputs: Seq<Sample>, phase: u64, sample_rate: u32) -> Sample {
        match self {
            Node::Empty(_) => Sample { l: 0u64, r: 0u64 },
            Node::ContainerInput(_) => inputs[0],
            Node::ContainerOutput(_) => inputs[0],
            Node::Sine(_) => Sample {
                l: sine_channel(inputs[0].l, phase, sample_rate),
                r: sine_channel(inputs[0].r, phase, sample_rate),
            },
            Node::Add(_) => Sample {
                l: add64(inputs[0].l, inputs[1].l),
                r: add64(inputs[0].r, inputs[1].r),
            },
            Node::Mul(_) => Sample {
                l: mul64(inputs[0].l, inputs[1].l),
                r: mul64(inputs[0].r, inputs[1].r),
            },
            Node::Inv(_) => Sample {
                l: div64(ONE_BITS, inputs[0].l),
                r: div64(ONE_BITS, inputs[0].r),
            },
            Node::Const(n) => n.0,
        }
    }

    /// The number of input ports, as executable code.
    pub fn arity(&self) -> (n: usize)
        ensures
            n == self.arity_spec(),
    {
        match self {
            Node::Empty(_) => 0,
            Node::ContainerInput(_) => 1,
            Node::ContainerOutput(_) => 1,
            Node::Sine(_) => 1,
            Node::Add(_) => 2,
            Node::Mul(_) => 2,
            Node::Inv(_) => 1,
            Node::Const(_) => 0,
        }
    }

    /// Whether the operator is a stored constant.
    pub fn is_const(&self) -> (b: bool)
        ensures
            b == self.is_const_spec(),
    {
        match self {
            Node::Const(_) => true,
            _ => false,
        }
    }

    /// The operator's identity string.
    pub fn get_ident(&self) -> (r: &'static str)
        ensures
            r@ == self.ident_spec(),
    {
        match self {
            Node::Empty(n) => n.get_ident(),
            Node::ContainerInput(n) => n.get_ident(),
            Node::ContainerOutput(n) => n.get_ident(),
            Node::Sine(n) => n.get_ident(),
            Node::Add(n) => n.get_ident(),
            Node::Mul(n) => n.get_ident(),
            Node::Inv(n) => n.get_ident(),
            Node::Const(n) => n.get_ident(),
        }
    }

    /// The operator's input port labels, in port order; their number is the
    /// operator's arity.
    pub fn get_input_labels(&self) -> (r: Vec<Vec<char>>)
        ensures
            r@.len() == self.arity_spec(),
    {
        match self {
            Node::Empty(n) => n.get_input_labels(),
            Node::ContainerInput(n) => n.get_input_labels(),
            Node::ContainerOutput(n) => n.get_input_labels(),
            Node::Sine(n) => n.get_input_labels(),
            Node::Add(n) => n.get_input_labels(),
            Node::Mul(n) => n.get_input_labels(),
            Node::Inv(n) => n.get_input_labels(),
            Node::Const(n) => n.get_input_labels(),
        }
    }

    /// The constant-exemption marker is exactly the identity string: an
    /// operator is exempt from per-phase recomputation precisely when its
    /// identity reads `"Constant"`.
    pub proof fn lemma_const_marker(&self)
        ensures
            self.is_const_spec() <==> self.ident_spec() == "Constant"@,
    {
        reveal_strlit("Empty");
        reveal_strlit("ContainerInput");
        reveal_strlit("ContainerOutput");
        reveal_strlit("Sine");
        reveal_strlit("Add");
        reveal_strlit("Multiply");
        reveal_strlit("Inverse");
        reveal_strlit("Constant");
        match self {
            Node::Empty(_) => {
                assert("Empty"@.len() != "Constant"@.len());
            },
            Node::ContainerInput(_) => {
                assert("ContainerInput"@.len() != "Constant"@.len());
            },
            Node::ContainerOutput(_) => {
                assert("ContainerOutput"@.len() != "Constant"@.len());
            },
            Node::Sine(_) => {
                assert("Sine"@.len() != "Constant"@.len());
            },
            Node::Add(_) => {
                assert("Add"@.len() != "Constant"@.len());
            },
            Node::Mul(_) => {
                assert("Multiply"@[0] != "Constant"@[0]);
                assert("Multiply"@ != "Constant"@);
            },
            Node::Inv(_) => {
                assert("Inverse"@.len() != "Constant"@.len());
            },
            Node::Const(_) => {
            },
        }
    }

    /// Evaluates the operator on its resolved inputs.
    pub fn process(&self, inputs: &[Sample], phase: u64, sample_rate: u32) -> (s: Sample)
        requires
            inputs@.len() >= self.arity_spec(),
        ensures
            s == self.process_spec(inputs@, phase, sample_rate),
    {
        match self {
            Node::Empty(n) => n.process(inputs, phase, sample_rate),
            Node::ContainerInput(n) => n.process(inputs, phase, sample_rate),
            Node::ContainerOutput(n) => n.process(inputs, phase, sample_rate),
            Node::Sine(n) => n.process(inputs, phase, sample_rate),
            Node::Add(n) => n.process(inputs, phase, sample_rate),
            Node::Mul(n) => n.process(inputs, phase, sample_rate),
            Node::Inv(n) => n.process(inputs, phase, sample_rate),
            Node::Const(n) => n.process(inputs, phase, sample_rate),
        }
    }
}

} // verus!
