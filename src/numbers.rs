//! Small integer helpers: a two-way arithmetic operation, a threshold test
//! and the fizz-buzz classification.
use vstd::prelude::*;

verus! {

/// Values above this are big.
pub const THRESHOLD: i32 = 10;

/// An arithmetic operation on two integers.
#[derive(Clone, Copy, PartialEq, Eq, Structural, Debug)]
pub enum VeryVerboseEnumOfThingsToDoWithNumbers {
    Add,
    Subtract,
}

/// A shorter name for the operation type.
pub type Operations = VeryVerboseEnumOfThingsToDoWithNumbers;

impl VeryVerboseEnumOfThingsToDoWithNumbers {
    /// The mathematical result of applying the operation.
    pub open spec fn result(self, x: int, y: int) -> int {
        match self {
            VeryVerboseEnumOfThingsToDoWithNumbers::Add => x + y,
            VeryVerboseEnumOfThingsToDoWithNumbers::Subtract => x - y,
        }
    }

    /// Applies the operation; the result must fit in an `i32`.
    pub fn run(&self, x: i32, y: i32) -> (r: i32)
        requires
            i32::MIN <= self.result(x as int, y as int) <= i32::MAX,
        ensures
            r as int == self.result(x as int, y as int),
    {
        match self {
            VeryVerboseEnumOfThingsToDoWithNumbers::Add => x + y,
            VeryVerboseEnumOfThingsToDoWithNumbers::Subtract => x - y,
        }
    }
}

/// Whether `n` exceeds `THRESHOLD`.
pub fn is_big(n: i32) -> (r: bool)
    ensures
        r == (n > THRESHOLD),
{
    n > THRESHOLD
}

/// What the fizz-buzz game says for a number.
#[derive(Clone, Copy, PartialEq, Eq, Structural, Debug)]
pub enum FizzBuzz {
    FizzBuzz,
    Fizz,
    Buzz,
    Number(i32),
}

/// "fizzbuzz" for multiples of 15, "fizz" for other multiples of 3, "buzz"
/// for other multiples of 5, and the number itself otherwise.
pub open spec fn fizz_buzz_of(n: int) -> FizzBuzz {
    if n % 15 == 0 {
        FizzBuzz::FizzBuzz
    } else if n % 3 == 0 {
        FizzBuzz::Fizz
    } else if n % 5 == 0 {
        FizzBuzz::Buzz
    } else {
        FizzBuzz::Number(n as i32)
    }
}

/// Classifies `n` for the fizz-buzz game.
pub fn fizz_buzz(n: i32) -> (r: FizzBuzz)
    ensures
        r == fizz_buzz_of(n as int),
{
    if n % 15 == 0 {
        FizzBuzz::FizzBuzz
    } else if n % 3 == 0 {
        FizzBuzz::Fizz
    } else if n % 5 == 0 {
        FizzBuzz::Buzz
    } else {
        FizzBuzz::Number(n)
    }
}

} // verus!
