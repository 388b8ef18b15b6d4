//! The Tribonacci numbers: three ones, and then every number is the sum of
//! the three before it.

use vstd::prelude::*;

verus! {

/// The Tribonacci number at the given place, counted from 0.
pub open spec fn tribonacci(n: nat) -> nat
    decreases n,
{
    if n < 3 {
        1
    } else {
        tribonacci((n - 1) as nat) + tribonacci((n - 2) as nat) + tribonacci((n - 3) as nat)
    }
}

/// The sum of the first `n` Tribonacci numbers.
pub open spec fn tribonacci_sum(n: nat) -> nat
    decreases n,
{
    if n == 0 {
        0
    } else {
        tribonacci_sum((n - 1) as nat) + tribonacci((n - 1) as nat)
    }
}

/// A run of the Tribonacci numbers, with its sum.
#[derive(Debug, PartialEq, Eq)]
pub struct Tribonacci {
    /// The numbers: the first three at least.
    pub values: Vec<u128>,
    /// The sum of as many of them as were asked for.
    pub sum: u128,
}

/// Why no numbers were computed.
#[derive(Debug, PartialEq, Eq)]
pub struct TribonacciError(pub String);

/// The numbers grow, and so does their sum.
pub proof fn lemma_tribonacci_grows(m: nat, n: nat)
    requires
        m <= n,
    ensures
        tribonacci_sum(m) <= tribonacci_sum(n),
        1 <= tribonacci(m),
        m >= 1 ==> tribonacci(m) <= tribonacci_sum((m + 1) as nat),
    decreases n,
{
    if m < n {
        lemma_tribonacci_grows(m, (n - 1) as nat);
    }
    if m >= 1 {
        lemma_tribonacci_positive((m - 1) as nat);
        lemma_tribonacci_positive(m);
    }
    lemma_tribonacci_positive(m);
}

/// Every Tribonacci number is at least one.
pub proof fn lemma_tribonacci_positive(m: nat)
    ensures
        1 <= tribonacci(m),
    decreases m,
{
    if m >= 3 {
        lemma_tribonacci_positive((m - 1) as nat);
    }
}

/// Computes the first `size` Tribonacci numbers and their sum. The first
/// three numbers are given also where fewer were asked for. Where no size
/// is given, the error carries the message.
pub fn compute_tribonacci(size: Option<usize>, error_msg: String) -> (r: Result<
    Tribonacci,
    TribonacciError,
>)
    requires
        size matches Some(n) ==> tribonacci_sum(n as nat) <= u128::MAX,
    ensures
        match (size, r) {
            (Some(n), Ok(run)) => {
                &&& run.values.len() == if n < 3 {
                    3
                } else {
                    n as int
                }
                &&& forall|i: int|
                    0 <= i < run.values.len() ==> #[trigger] run.values[i] == tribonacci(i as nat)
                &&& run.sum == tribonacci_sum(n as nat)
            },
            (None, Err(error)) => error.0 == error_msg,
            _ => false,
        },
{
    let size = match size {
        Some(size) => size,
        None => {
            return Err(TribonacciError(error_msg));
        },
    };
    let mut v: Vec<u128> = Vec::new();
    v.push(1);
    v.push(1);
    v.push(1);
    let mut sum: u128 = size as u128;
    proof {
        reveal_with_fuel(tribonacci_sum, 4);
    }
    if size > 3 {
        sum = 3;
        let mut i: usize = 3;
        while i < size
            invariant
                3 <= i <= size,
                v.len() == i,
                forall|j: int| 0 <= j < i ==> #[trigger] v[j] == tribonacci(j as nat),
                sum == tribonacci_sum(i as nat),
                tribonacci_sum(size as nat) <= u128::MAX,
            decreases size - i,
        {
            proof {
                lemma_tribonacci_grows((i + 1) as nat, size as nat);
            }
            let next: u128 = v[i - 3] + v[i - 2] + v[i - 1];
            v.push(next);
            sum = sum + v[i];
            i = i + 1;
        }
    }
    Ok(Tribonacci { values: v, sum })
}

} // verus!
