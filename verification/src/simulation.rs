//! Values that signals take in a simulation.

use vstd::prelude::*;

use crate::vcd_input::Value;

verus! {

/// A value that a signal takes in the simulation.
#[derive(Debug, PartialEq, Eq)]
pub enum SimulationValue {
    Scalar(Value),
    /// Bits of a wider signal, most significant bit first.
    Vector(Vec<Value>),
    String(String),
}

/// A change of a signal in the trace.
#[derive(Debug, PartialEq, Eq)]
pub struct ValueChange {
    /// Identifier code of the signal.
    pub id: String,
    pub value: SimulationValue,
}

/// Content of a [`SimulationValue`].
pub enum ValueModel {
    Scalar(Value),
    Vector(Seq<Value>),
    String(Seq<char>),
}

/// Content of a [`ValueChange`].
pub struct ChangeModel {
    pub id: Seq<char>,
    pub value: ValueModel,
}

impl View for SimulationValue {
    type V = ValueModel;

    open spec fn view(&self) -> ValueModel {
        match *self {
            SimulationValue::Scalar(v) => ValueModel::Scalar(v),
            SimulationValue::Vector(bits) => ValueModel::Vector(bits@),
            SimulationValue::String(s) => ValueModel::String(s@),
        }
    }
}

impl View for ValueChange {
    type V = ChangeModel;

    open spec fn view(&self) -> ChangeModel {
        ChangeModel { id: self.id@, value: self.value@ }
    }
}

/// Contents of a list of changes.
pub open spec fn change_models(changes: Seq<ValueChange>) -> Seq<ChangeModel> {
    Seq::new(changes.len(), |i: int| changes[i]@)
}

/// The character that stands for a logic level.
pub open spec fn value_char(v: Value) -> char {
    match v {
        Value::V0 => '0',
        Value::V1 => '1',
        Value::X => 'x',
        Value::Z => 'z',
    }
}

/// The printed form of a value.
pub open spec fn value_text(v: ValueModel) -> Seq<char> {
    match v {
        ValueModel::Scalar(bit) => seq![value_char(bit)],
        ValueModel::Vector(bits) => Seq::new(bits.len(), |i: int| value_char(bits[i])),
        ValueModel::String(s) => s,
    }
}

/// A level read as a binary digit: only a definite high counts as one.
pub open spec fn bit_of(v: Value) -> nat {
    if v == Value::V1 {
        1
    } else {
        0
    }
}

/// The number that a bit vector writes in binary.
pub open spec fn bits_value(bits: Seq<Value>) -> nat
    decreases bits.len(),
{
    if bits.len() == 0 {
        0
    } else {
        2 * bits_value(bits.drop_last()) + bit_of(bits.last())
    }
}

/// Appends the character of a level to a text.
fn push_value(out: &mut String, v: Value)
    ensures
        final(out)@ == old(out)@.push(value_char(v)),
{
    proof {
        reveal_strlit("0");
        reveal_strlit("1");
        reveal_strlit("x");
        reveal_strlit("z");
    }
    let ghost before = out@;
    match v {
        Value::V0 => out.append("0"),
        Value::V1 => out.append("1"),
        Value::X => out.append("x"),
        Value::Z => out.append("z"),
    }
    assert(out@ =~= before.push(value_char(v)));
}

impl SimulationValue {
    /// Prints the value.
    pub fn text(&self) -> (r: String)
        ensures
            r@ == value_text(self@),
    {
        match self {
            SimulationValue::Scalar(v) => {
                let mut out: String = String::new();
                push_value(&mut out, *v);
                assert(out@ =~= seq![value_char(*v)]);
                out
            },
            SimulationValue::Vector(bits) => {
                let mut out: String = String::new();
                let mut i: usize = 0;
                while i < bits.len()
                    invariant
                        i <= bits.len(),
                        out@ == Seq::new(i as nat, |k: int| value_char(bits@[k])),
                    decreases bits.len() - i,
                {
                    push_value(&mut out, bits[i]);
                    i = i + 1;
                    assert(out@ =~= Seq::new(i as nat, |k: int| value_char(bits@[k])));
                }
                assert(out@ =~= value_text(self@));
                out
            },
            SimulationValue::String(s) => s.clone(),
        }
    }
}

impl Clone for SimulationValue {
    fn clone(&self) -> (r: SimulationValue)
        ensures
            r@ == self@,
    {
        match self {
            SimulationValue::Scalar(v) => SimulationValue::Scalar(*v),
            SimulationValue::Vector(bits) => {
                let copy: Vec<Value> = bits.clone();
                assert(copy@ =~= bits@);
                SimulationValue::Vector(copy)
            },
            SimulationValue::String(s) => SimulationValue::String(s.clone()),
        }
    }
}

/// Reads a bit vector as an unsigned number; bits beyond the lowest 64 are dropped.
pub fn bitvector_to_unsigned(input_vec: &Vec<Value>) -> (r: u64)
    ensures
        r == bits_value(input_vec@) % 0x1_0000_0000_0000_0000,
{
    let mut val: u64 = 0;
    let mut i: usize = 0;
    assert(input_vec@.take(0) =~= Seq::empty());
    while i < input_vec.len()
        invariant
            i <= input_vec.len(),
            val == bits_value(input_vec@.take(i as int)) % 0x1_0000_0000_0000_0000,
        decreases input_vec.len() - i,
    {
        let bit: u64 = if input_vec[i] == Value::V1 {
            1
        } else {
            0
        };
        let ghost head = bits_value(input_vec@.take(i as int)) as int;
        assert(input_vec@.take(i + 1).drop_last() =~= input_vec@.take(i as int));
        let half: u64 = if val >= 0x8000_0000_0000_0000 {
            val - 0x8000_0000_0000_0000
        } else {
            val
        };
        val = 2 * half + bit;
        i = i + 1;
    }
    assert(input_vec@.take(i as int) =~= input_vec@);
    val
}

} // verus!
