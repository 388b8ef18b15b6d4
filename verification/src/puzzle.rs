//! A number puzzle: five numbers and four operators between them, applied
//! from left to right. An arrangement solves the puzzle when it gives ten.

use vstd::prelude::*;

verus! {

/// The number that solves the puzzle.
pub const TARGET: i32 = 10;

/// The character is one of the four operators.
pub open spec fn is_operator(op: char) -> bool {
    op == '+' || op == '-' || op == '*' || op == '/'
}

/// The quotient of two numbers, rounded towards zero.
pub open spec fn quotient(a: int, b: int) -> int
    recommends
        b != 0,
{
    if a >= 0 && b > 0 {
        a / b
    } else if a < 0 && b < 0 {
        (-a) / (-b)
    } else if a < 0 {
        -((-a) / b)
    } else {
        -(a / (-b))
    }
}

/// What an operator makes of two numbers, or nothing for a division by
/// zero.
pub open spec fn applied(a: int, b: int, op: char) -> Option<int> {
    if op == '+' {
        Some(a + b)
    } else if op == '-' {
        Some(a - b)
    } else if op == '*' {
        Some(a * b)
    } else if b == 0 {
        None
    } else {
        Some(quotient(a, b))
    }
}

/// The number fits the integer type.
pub open spec fn fits(n: int) -> bool {
    i32::MIN <= n <= i32::MAX
}

/// The operator makes of the two numbers a number that fits the integer
/// type.
pub open spec fn computes(a: int, b: int, op: char) -> bool {
    match applied(a, b, op) {
        Some(result) => fits(result),
        None => false,
    }
}

/// Applying the operator at place `i` to what came before gives a number
/// that fits the integer type, if the operator is no division and there is
/// something before.
pub open spec fn step_fits(digits: Seq<i32>, operators: Seq<char>, i: int) -> bool {
    operators[i] != '/' ==> match folded(digits, operators, i as nat) {
        Some(before) => computes(before, digits[i + 1] as int, operators[i]),
        None => true,
    }
}

/// What the operators make of the numbers, applied from left to right
/// starting with the first number, or nothing where a division is by zero
/// or a result does not fit the integer type.
pub open spec fn folded(digits: Seq<i32>, operators: Seq<char>, count: nat) -> Option<int>
    recommends
        count < digits.len(),
        count <= operators.len(),
    decreases count,
{
    if count == 0 {
        Some(digits[0] as int)
    } else {
        match folded(digits, operators, (count - 1) as nat) {
            None => None,
            Some(before) => match applied(
                before,
                digits[count as int] as int,
                operators[count - 1],
            ) {
                Some(result) => if fits(result) {
                    Some(result)
                } else {
                    None
                },
                None => None,
            },
        }
    }
}

/// Applies an operator to two numbers. A division by zero, or one whose
/// quotient does not fit, is an error.
pub fn operate(num1: i32, num2: i32, op: char) -> (r: Result<i32, ()>)
    requires
        is_operator(op),
        op != '/' ==> computes(num1 as int, num2 as int, op),
    ensures
        r matches Ok(result) ==> applied(num1 as int, num2 as int, op) == Some(result as int),
        r is Err <==> op == '/' && (num2 == 0 || (num1 == i32::MIN && num2 == -1)),
{
    if op == '+' {
        Ok(num1 + num2)
    } else if op == '-' {
        Ok(num1 - num2)
    } else if op == '*' {
        Ok(num1 * num2)
    } else {
        proof {
            assert(num1 * -1 == -num1 && num2 * -1 == -num2);
            if num2 != 0 {
                let a = if num1 < 0 { -num1 } else { num1 as int };
                let b = if num2 < 0 { -num2 } else { num2 as int };
                assert(0 <= a / b <= a) by (nonlinear_arith)
                    requires
                        0 <= a,
                        0 < b,
                ;
                assert(num1 == 0 ==> a / b == 0);
                assert(b >= 2 ==> 2 * (a / b) <= a) by (nonlinear_arith)
                    requires
                        0 <= a,
                        0 < b,
                ;
                assert(b == 1 ==> a / b == a) by (nonlinear_arith)
                    requires
                        0 <= a,
                ;
            }
        }
        match num1.checked_div(num2) {
            Some(result) => Ok(result),
            None => Err(()),
        }
    }
}

/// Whether the four operators between the five numbers, applied from left
/// to right, give ten. A division by zero is an error.
pub fn calculate(digits: Vec<i32>, operators: Vec<char>) -> (r: Result<bool, ()>)
    requires
        digits.len() >= 5,
        operators.len() >= 4,
        forall|i: int| 0 <= i < 4 ==> is_operator(#[trigger] operators[i]),
        forall|i: int| 0 <= i < 4 ==> #[trigger] step_fits(digits@, operators@, i),
    ensures
        match r {
            Ok(solved) => folded(digits@, operators@, 4) is Some && solved == (folded(
                digits@,
                operators@,
                4,
            ) == Some(10int)),
            Err(_) => folded(digits@, operators@, 4) is None,
        },
{
    let mut result: i32 = digits[0];
    let mut i: usize = 0;
    while i < 4
        invariant
            i <= 4,
            digits.len() >= 5,
            operators.len() >= 4,
            forall|i: int| 0 <= i < 4 ==> is_operator(#[trigger] operators[i]),
            forall|i: int| 0 <= i < 4 ==> #[trigger] step_fits(digits@, operators@, i),
            folded(digits@, operators@, i as nat) == Some(result as int),
        decreases 4 - i,
    {
        assert(is_operator(operators[i as int]));
        assert(step_fits(digits@, operators@, i as int));
        proof {
            if result == i32::MIN && digits[i + 1] == -1 {
                assert(quotient(result as int, digits[i + 1] as int) == 0x8000_0000);
            }
        }
        match operate(result, digits[i + 1], operators[i]) {
            Ok(next) => {
                result = next;
            },
            Err(_) => {
                proof {
                    reveal_with_fuel(folded, 5);
                }
                return Err(());
            },
        }
        i += 1;
    }
    Ok(result == TARGET)
}

} // verus!
