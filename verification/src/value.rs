//! Four-state logic values and bit vectors of them.

use vstd::prelude::*;

verus! {

/// One bit of four-state logic.
#[derive(Clone, Copy, Debug, PartialEq, Eq, Structural)]
pub enum Value {
    /// Logic low.
    V0,
    /// Logic high.
    V1,
    /// Unknown or uninitialised.
    X,
    /// High impedance.
    Z,
}

/// The character that stands for a logic value in text.
pub open spec fn value_char(v: Value) -> char {
    match v {
        Value::V0 => '0',
        Value::V1 => '1',
        Value::X => 'x',
        Value::Z => 'z',
    }
}

/// The text of a bit vector: one character for each bit, first bit first.
pub open spec fn vector_chars(bits: Seq<Value>) -> Seq<char> {
    Seq::new(bits.len(), |i: int| value_char(bits[i]))
}

/// Formats the matching `vcd::Value` with its `Display` impl, which writes
/// `0`, `1`, `x` or `z`.
#[verifier::external_body]
fn value_text(v: Value) -> (s: String)
    ensures
        s@ == seq![value_char(v)],
{
    let outside = match v {
        Value::V0 => vcd::Value::V0,
        Value::V1 => vcd::Value::V1,
        Value::X => vcd::Value::X,
        Value::Z => vcd::Value::Z,
    };
    outside.to_string()
}

/// The text of one logic value.
pub fn value_to_string(v: Value) -> (s: String)
    ensures
        s@ == seq![value_char(v)],
{
    value_text(v)
}

/// The text of a bit vector, first bit first.
pub fn vector_to_string(bits: &Vec<Value>) -> (s: String)
    ensures
        s@ == vector_chars(bits@),
{
    let mut s = String::new();
    let mut i: usize = 0;
    while i < bits.len()
        invariant
            i <= bits.len(),
            s@ == vector_chars(bits@.take(i as int)),
        decreases bits.len() - i,
    {
        let one = value_text(bits[i]);
        s.append(one.as_str());
        assert(s@ =~= vector_chars(bits@.take(i + 1)));
        i += 1;
    }
    assert(bits@.take(i as int) =~= bits@);
    s
}

/// True when some bit of the vector is `X` or `Z`.
pub open spec fn has_x_or_z(bits: Seq<Value>) -> bool {
    exists|i: int| 0 <= i < bits.len() && #[trigger] is_x_or_z(bits[i])
}

/// True of the two values that are neither low nor high.
pub open spec fn is_x_or_z(v: Value) -> bool {
    v == Value::X || v == Value::Z
}

/// The number that a vector of `V0` and `V1` bits spells in binary, first bit
/// most significant.
pub open spec fn binary_value(bits: Seq<Value>) -> nat
    decreases bits.len(),
{
    if bits.len() == 0 {
        0
    } else {
        2 * binary_value(bits.drop_last()) + if bits.last() == Value::V1 {
            1nat
        } else {
            0nat
        }
    }
}

/// Whether any bit of the vector is unknown or high impedance.
pub fn vector_contain_x_or_z(vector: &Vec<Value>) -> (found: bool)
    ensures
        found == has_x_or_z(vector@),
{
    let mut i: usize = 0;
    while i < vector.len()
        invariant
            i <= vector.len(),
            !has_x_or_z(vector@.take(i as int)),
        decreases vector.len() - i,
    {
        let ghost before = vector@.take(i as int);
        let ghost after = vector@.take(i + 1);
        match vector[i] {
            Value::X | Value::Z => {
                assert(is_x_or_z(vector@[i as int]));
                return true;
            },
            _ => {},
        }
        assert forall|j: int| 0 <= j < after.len() implies !#[trigger] is_x_or_z(after[j]) by {
            if j < i {
                assert(before[j] == vector@[j]);
            }
        }
        i += 1;
    }
    assert(vector@.take(i as int) =~= vector@);
    false
}

/// The decimal value of a bit vector read as a binary number.
///
/// `None` when a bit is `X` or `Z`, and when the number needs more than 64
/// bits.
pub fn vector_to_base_10(vector: &Vec<Value>) -> (n: Option<u64>)
    ensures
        n is Some <==> !has_x_or_z(vector@) && binary_value(vector@) <= u64::MAX,
        n matches Some(k) ==> k == binary_value(vector@),
{
    let mut acc: u64 = 0;
    let mut i: usize = 0;
    while i < vector.len()
        invariant
            i <= vector.len(),
            !has_x_or_z(vector@.take(i as int)),
            acc == binary_value(vector@.take(i as int)),
        decreases vector.len() - i,
    {
        let ghost before = vector@.take(i as int);
        let ghost after = vector@.take(i + 1);
        assert(after.drop_last() =~= before);
        assert(after.last() == vector@[i as int]);
        let bit: u64 = match vector[i] {
            Value::V0 => 0,
            Value::V1 => 1,
            _ => {
                assert(is_x_or_z(vector@[i as int]));
                return None;
            },
        };
        if acc > (u64::MAX - bit) / 2 {
            proof {
                lemma_binary_value_grows(vector@, i + 1);
            }
            return None;
        }
        acc = acc * 2 + bit;
        assert forall|j: int| 0 <= j < after.len() implies !#[trigger] is_x_or_z(after[j]) by {
            if j < i {
                assert(before[j] == vector@[j]);
            }
        }
        i += 1;
    }
    assert(vector@.take(i as int) =~= vector@);
    Some(acc)
}

/// A prefix of a vector spells a number no larger than the whole vector.
pub proof fn lemma_binary_value_grows(bits: Seq<Value>, k: int)
    requires
        0 <= k <= bits.len(),
    ensures
        binary_value(bits.take(k)) <= binary_value(bits),
    decreases bits.len() - k,
{
    if k == bits.len() {
        assert(bits.take(k) =~= bits);
    } else {
        lemma_binary_value_grows(bits, k + 1);
        assert(bits.take(k + 1).drop_last() =~= bits.take(k));
    }
}

} // verus!
