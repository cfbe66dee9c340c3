//! Arithmetic in double precision. The library says which operations are to be
//! carried out and in which order; a function of the caller carries them out.

use crate::double::{Double, FRACTION_COUNT, INFINITY_BITS, ONE_BITS, SIGN_BIT};
use vstd::prelude::*;

verus! {

/// An operation in double precision.
#[derive(Clone, Copy, Debug, PartialEq, Eq, Structural)]
pub enum Operation {
    /// The number nearest to an integer.
    Convert(u64),
    /// The first number plus the second.
    Plus(Double, Double),
    /// The first number minus the second.
    Minus(Double, Double),
    /// The first number times the second.
    Times(Double, Double),
    /// The first number over the second.
    Over(Double, Double),
    /// The natural logarithm of one more than the number.
    LogOnePlus(Double),
    /// The square root of the number.
    Root(Double),
}

/// The results of all operations.
pub type Arithmetic = spec_fn(Operation) -> Double;

/// The function carries out any operation.
pub open spec fn is_total<E: Fn(Operation) -> Double>(evaluate: E) -> bool {
    forall|operation: Operation| #[trigger] call_requires(evaluate, (operation,))
}

/// The function gives the results of the given arithmetic.
pub open spec fn follows<E: Fn(Operation) -> Double>(evaluate: E, arithmetic: Arithmetic) -> bool {
    forall|operation: Operation, result: Double| #[trigger]
        call_ensures(evaluate, (operation,), result) ==> result == arithmetic(operation)
}

/// Carries out an operation.
pub fn carry_out<E: Fn(Operation) -> Double>(evaluate: &E, operation: Operation) -> (result: Double)
    requires
        is_total(*evaluate),
    ensures
        forall|a: Arithmetic| #[trigger] follows(*evaluate, a) ==> result == a(operation),
{
    assert(call_requires(*evaluate, (operation,)));
    evaluate(operation)
}

/// Numbers added up from the first to the last, starting with negative zero, which
/// leaves every number as it is.
pub open spec fn total(values: Seq<Double>, a: Arithmetic) -> Double
    decreases values.len(),
{
    if values.len() == 0 {
        Double { bits: SIGN_BIT }
    } else {
        a(Operation::Plus(total(values.drop_last(), a), values.last()))
    }
}

/// Adds up numbers from the first to the last.
pub fn add_up<E: Fn(Operation) -> Double>(values: &Vec<Double>, evaluate: &E) -> (sum: Double)
    requires
        is_total(*evaluate),
    ensures
        forall|a: Arithmetic| #[trigger] follows(*evaluate, a) ==> sum == total(values@, a),
{
    let mut sum = Double::from_bits(SIGN_BIT);
    let mut i: usize = 0;
    while i < values.len()
        invariant
            is_total(*evaluate),
            i <= values@.len(),
            forall|a: Arithmetic| #[trigger]
                follows(*evaluate, a) ==> sum == total(values@.take(i as int), a),
        decreases values@.len() - i,
    {
        assert(values@.take(i + 1).drop_last() =~= values@.take(i as int));
        sum = carry_out(evaluate, Operation::Plus(sum, values[i]));
        i += 1;
    }
    assert(values@.take(values@.len() as int) =~= values@);
    sum
}

/// The mean of some numbers.
pub open spec fn mean(values: Seq<Double>, a: Arithmetic) -> Double {
    a(Operation::Over(total(values, a), a(Operation::Convert(values.len() as u64))))
}

/// The mean of some numbers.
pub fn mean_of<E: Fn(Operation) -> Double>(values: &Vec<Double>, evaluate: &E) -> (result: Double)
    requires
        is_total(*evaluate),
    ensures
        forall|a: Arithmetic| #[trigger] follows(*evaluate, a) ==> result == mean(values@, a),
{
    let sum = add_up(values, evaluate);
    let count = carry_out(evaluate, Operation::Convert(values.len() as u64));
    carry_out(evaluate, Operation::Over(sum, count))
}

/// The square root of the mean of the squares of some numbers.
pub open spec fn root_mean_square(values: Seq<Double>, a: Arithmetic) -> Double {
    a(
        Operation::Root(
            mean(values.map_values(|value: Double| a(Operation::Times(value, value))), a),
        ),
    )
}

/// The square root of the mean of the squares of some numbers.
pub fn root_mean_square_of<E: Fn(Operation) -> Double>(
    values: &Vec<Double>,
    evaluate: &E,
) -> (result: Double)
    requires
        is_total(*evaluate),
    ensures
        forall|a: Arithmetic| #[trigger]
            follows(*evaluate, a) ==> result == root_mean_square(values@, a),
{
    let mut squares: Vec<Double> = Vec::new();
    let mut i: usize = 0;
    while i < values.len()
        invariant
            is_total(*evaluate),
            i <= values@.len(),
            squares@.len() == i,
            forall|a: Arithmetic, k: int|
                #![trigger follows(*evaluate, a), squares@[k]]
                follows(*evaluate, a) && 0 <= k < i ==> squares@[k] == a(
                    Operation::Times(values@[k], values@[k]),
                ),
        decreases values@.len() - i,
    {
        squares.push(carry_out(evaluate, Operation::Times(values[i], values[i])));
        i += 1;
    }
    assert forall|a: Arithmetic| #[trigger] follows(*evaluate, a) implies squares@
        == values@.map_values(|value: Double| a(Operation::Times(value, value))) by {
        assert(squares@ =~= values@.map_values(
            |value: Double| a(Operation::Times(value, value)),
        ));
    }
    let mean_square = mean_of(&squares, evaluate);
    carry_out(evaluate, Operation::Root(mean_square))
}

/// The largest integer up to which every integer is a double precision number.
pub const EXACT_INTEGERS: u64 = 0x20_0000_0000_0000;

/// What holds of an arithmetic that rounds each result to the nearest number, as
/// IEEE 754 does by default: conversions are exact as far as they can be, the order
/// of numbers survives rounding, and the sum or the difference of two numbers is at
/// most twice as large as the larger of them. To double a number adds one to its
/// exponent. The logarithm of one more than an integer is finite.
pub open spec fn rounds_to_nearest(a: Arithmetic) -> bool {
    &&& forall|n: u64|
        (#[trigger] a(Operation::Convert(n))).finite() && a(Operation::Convert(n)).level() >= 0
    &&& forall|n: u64, r: Double|
        #![trigger a(Operation::Convert(n)), r.ceil()]
        n <= EXACT_INTEGERS && !r.nan() && r.level() <= a(Operation::Convert(n)).level()
            ==> r.ceil() <= n
    &&& forall|r: Double|
        r.finite() && r.level() >= 0 ==> (#[trigger] a(
            Operation::Convert(r.floor() as u64),
        )).level() <= r.level()
    &&& forall|x: Double, y: Double|
        x.finite() && y.finite() && x.level() >= y.level() ==> {
            let difference = #[trigger] a(Operation::Minus(x, y));
            &&& !difference.nan()
            &&& difference.level() >= 0
            &&& y.level() >= 0 ==> difference.level() <= x.level()
        }
    &&& forall|x: Double, y: Double|
        x.finite() && y.finite() && x.level() >= 0 && y.level() >= 0 ==> {
            let product = #[trigger] a(Operation::Times(x, y));
            &&& !product.nan()
            &&& product.level() >= 0
            &&& x.level() <= (Double { bits: ONE_BITS }).level() ==> product.level() <= y.level()
            &&& y.level() <= (Double { bits: ONE_BITS }).level() ==> product.level() <= x.level()
        }
    &&& forall|x: Double, y: Double|
        !x.nan() && !y.nan() && x.level() >= 0 && y.level() >= 0 ==> {
            let sum = #[trigger] a(Operation::Plus(x, y));
            !sum.nan() && sum.level() >= 0
        }
    &&& forall|r: Double|
        r.finite() && r.level() >= 0 && r.floor() < usize::MAX ==> (#[trigger] a(
            Operation::Minus(r, a(Operation::Convert(r.floor() as u64))),
        )).level() <= (Double { bits: ONE_BITS }).level()
    &&& forall|x: Double, y: Double, limit: int|
        #![trigger a(Operation::Plus(x, y)), x.within(limit), y.within(limit)]
        x.within(limit) && y.within(limit) && FRACTION_COUNT <= limit < INFINITY_BITS
            - FRACTION_COUNT ==> a(Operation::Plus(x, y)).within(limit + FRACTION_COUNT)
    &&& forall|x: Double, y: Double, limit: int|
        #![trigger a(Operation::Minus(x, y)), x.within(limit), y.within(limit)]
        x.within(limit) && y.within(limit) && FRACTION_COUNT <= limit < INFINITY_BITS
            - FRACTION_COUNT ==> a(Operation::Minus(x, y)).within(limit + FRACTION_COUNT)
    &&& forall|n: u64| (#[trigger] a(Operation::LogOnePlus(a(Operation::Convert(n))))).finite()
}

} // verus!
