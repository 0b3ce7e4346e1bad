use vstd::prelude::*;

use crate::interpreter::{RuntimeError, RuntimeErrorType};
use crate::source_mapped::{SourceMappable, SourceMapped};
use crate::value::{SourceValue, Value};

verus! {

/// Whether every operand is a number, and `numbers` holds them in order.
pub open spec fn numbers_of(operands: Seq<SourceValue>, numbers: Seq<u64>) -> bool {
    &&& numbers.len() == operands.len()
    &&& forall|i: int| 0 <= i < operands.len() ==> #[trigger] operands[i].0 == Value::Number(numbers[i])
}

/// The numbers that the operands hold, or `ExpectedNumber` at the first
/// operand that is not a number.
pub fn number_args(operands: &[SourceValue]) -> (res: Result<Vec<u64>, RuntimeError>)
    ensures
        res matches Ok(numbers) ==> numbers_of(operands@, numbers@),
        res matches Err(e) ==> exists|i: int|
            0 <= i < operands@.len() && !(#[trigger] operands@[i].0 is Number)
                && e == SourceMapped(RuntimeErrorType::ExpectedNumber, operands@[i].1)
                && forall|j: int| 0 <= j < i ==> (#[trigger] operands@[j]).0 is Number,
        res is Ok <==> forall|i: int| 0 <= i < operands@.len() ==> (#[trigger] operands@[i]).0 is Number,
{
    let mut numbers: Vec<u64> = Vec::new();
    let mut i: usize = 0;
    while i < operands.len()
        invariant
            i <= operands@.len(),
            numbers_of(operands@.take(i as int), numbers@),
            forall|j: int| 0 <= j < i ==> (#[trigger] operands@[j]).0 is Number,
        decreases operands@.len() - i,
    {
        if let Value::Number(n) = operands[i].0 {
            numbers.push(n);
            assert forall|j: int| 0 <= j < i + 1 implies #[trigger] operands@.take(i + 1)[j].0 == Value::Number(numbers@[j]) by {
                if j < i {
                    assert(operands@.take(i as int)[j] == operands@.take(i + 1)[j]);
                }
            }
        } else {
            let ghost k = i as int;
            assert(!(operands@[k].0 is Number));
            return Err(RuntimeErrorType::ExpectedNumber.source_mapped(operands[i].1));
        }
        i = i + 1;
    }
    assert(operands@.take(i as int) =~= operands@);
    Ok(numbers)
}

} // verus!
