//! Evaluation of arithmetic expressions written in reverse Polish notation.
use vstd::prelude::*;

verus! {

/// Why an expression has no value.
#[derive(Debug, PartialEq, Eq, Clone, Copy, Structural)]
pub enum ComputeError {
    /// An operator `Divide` found zero on top of the stack.
    DivisionByZero,
    /// The expression is empty, an operator found fewer than two operands, or the expression
    /// did not leave exactly one value.
    EmptyStack,
}

/// A binary operator. Its right operand is the value on top of the stack, its left operand the
/// value below.
#[derive(Debug, Clone, Copy)]
pub enum Operator {
    Plus,
    Minus,
    Times,
    Divide,
}

/// One symbol of an expression.
#[derive(Debug, Clone, Copy)]
pub enum Token {
    Number(i32),
    Op(Operator),
}

/// The quotient of `b` by `a` rounded toward zero, for `a != 0`.
pub open spec fn quotient(b: int, a: int) -> int {
    let magnitude = (if b >= 0 { b } else { -b }) / (if a >= 0 { a } else { -a });
    if (b >= 0) == (a >= 0) {
        magnitude
    } else {
        -magnitude
    }
}

/// The stack that `token` leaves when it meets `stack`, whose top is its last element.
pub open spec fn step(stack: Seq<int>, token: Token) -> Result<Seq<int>, ComputeError> {
    match token {
        Token::Number(n) => Ok(stack.push(n as int)),
        Token::Op(op) => if stack.len() < 2 {
            Err(ComputeError::EmptyStack)
        } else {
            let a = stack[stack.len() - 1];
            let b = stack[stack.len() - 2];
            let rest = stack.take(stack.len() - 2);
            match op {
                Operator::Plus => Ok(rest.push(b + a)),
                Operator::Minus => Ok(rest.push(b - a)),
                Operator::Times => Ok(rest.push(b * a)),
                Operator::Divide => if a == 0 {
                    Err(ComputeError::DivisionByZero)
                } else {
                    Ok(rest.push(quotient(b, a)))
                },
            }
        },
    }
}

/// The stack after all of `tokens` were met in order, starting from the empty stack, or the
/// error of the first token that fails.
pub open spec fn run(tokens: Seq<Token>) -> Result<Seq<int>, ComputeError>
    decreases tokens.len(),
{
    if tokens.len() == 0 {
        Ok(Seq::empty())
    } else {
        match run(tokens.drop_last()) {
            Ok(stack) => step(stack, tokens.last()),
            Err(e) => Err(e),
        }
    }
}

/// The value of the expression `tokens` over the mathematical integers.
pub open spec fn value_of(tokens: Seq<Token>) -> Result<int, ComputeError> {
    if tokens.len() == 0 {
        Err(ComputeError::EmptyStack)
    } else {
        match run(tokens) {
            Ok(stack) => if stack.len() == 1 {
                Ok(stack[0])
            } else {
                Err(ComputeError::EmptyStack)
            },
            Err(e) => Err(e),
        }
    }
}

/// Every value that the evaluation of `tokens` puts on the stack is an `i32`.
pub open spec fn fits_i32(tokens: Seq<Token>) -> bool {
    forall|k: int, j: int|
        0 <= k <= tokens.len() && (#[trigger] run(tokens.take(k))) is Ok && 0 <= j < run(
            tokens.take(k),
        )->Ok_0.len() ==> i32::MIN <= #[trigger] run(tokens.take(k))->Ok_0[j] <= i32::MAX
}

/// The stack of machine integers `stack` read as mathematical integers.
pub open spec fn as_ints(stack: Seq<i32>) -> Seq<int> {
    stack.map_values(|x: i32| x as int)
}

/// Evaluates an expression in reverse Polish notation.
///
/// A number is pushed on the stack. An operator takes the two topmost values off the stack and
/// pushes its result. The value of the expression is the single value left at the end.
pub fn compute(input: &[Token]) -> (result: Result<i32, ComputeError>)
    requires
        fits_i32(input@),
    ensures
        match result {
            Ok(v) => value_of(input@) == Ok::<int, ComputeError>(v as int),
            Err(e) => value_of(input@) == Err::<int, ComputeError>(e),
        },
{
    if input.len() == 0 {
        return Err(ComputeError::EmptyStack);
    }
    let mut stack: Vec<i32> = Vec::new();
    let mut i: usize = 0;
    assert(as_ints(stack@) =~= Seq::<int>::empty());
    while i < input.len()
        invariant
            0 <= i <= input.len(),
            fits_i32(input@),
            run(input@.take(i as int)) == Ok::<Seq<int>, ComputeError>(as_ints(stack@)),
        decreases input.len() - i,
    {
        proof {
            assert(input@.take(i + 1).drop_last() =~= input@.take(i as int));
            assert(input@.take(i + 1).last() == input@[i as int]);
        }
        let ghost before = as_ints(stack@);
        let ghost after = run(input@.take(i + 1));
        match &input[i] {
            Token::Number(n) => {
                stack.push(*n);
                assert(as_ints(stack@) =~= before.push(*n as int));
            },
            Token::Op(op) => {
                if stack.len() < 2 {
                    proof {
                        lemma_error_stays(input@, i + 1);
                    }
                    return Err(ComputeError::EmptyStack);
                }
                let a = stack.pop().unwrap();
                let b = stack.pop().unwrap();
                assert(as_ints(stack@) =~= before.take(before.len() - 2));
                assert(a as int == before[before.len() - 1]);
                assert(b as int == before[before.len() - 2]);
                let ghost rest = as_ints(stack@);
                match op {
                    Operator::Plus => {
                        assert(after == Ok::<Seq<int>, ComputeError>(rest.push(b + a)));
                        assert(after->Ok_0[rest.len() as int] == b + a);
                        stack.push(b + a);
                        assert(as_ints(stack@) =~= rest.push(b + a));
                    },
                    Operator::Minus => {
                        assert(after == Ok::<Seq<int>, ComputeError>(rest.push(b - a)));
                        assert(after->Ok_0[rest.len() as int] == b - a);
                        stack.push(b - a);
                        assert(as_ints(stack@) =~= rest.push(b - a));
                    },
                    Operator::Times => {
                        assert(after == Ok::<Seq<int>, ComputeError>(rest.push(b * a)));
                        assert(after->Ok_0[rest.len() as int] == b * a);
                        stack.push(b * a);
                        assert(as_ints(stack@) =~= rest.push(b * a));
                    },
                    Operator::Divide => {
                        if a == 0 {
                            proof {
                                lemma_error_stays(input@, i + 1);
                            }
                            return Err(ComputeError::DivisionByZero);
                        }
                        assert(after == Ok::<Seq<int>, ComputeError>(
                            rest.push(quotient(b as int, a as int)),
                        ));
                        assert(after->Ok_0[rest.len() as int] == quotient(b as int, a as int));
                        proof {
                            lemma_quotient_cases(b as int, a as int);
                        }
                        let q = b.checked_div(a).unwrap();
                        stack.push(q);
                        assert(as_ints(stack@) =~= rest.push(quotient(b as int, a as int)));
                    },
                }
            },
        }
        i += 1;
    }
    assert(input@.take(i as int) =~= input@);
    if stack.len() != 1 {
        return Err(ComputeError::EmptyStack);
    }
    Ok(stack[0])
}

/// Once a prefix of an expression has failed, the whole expression fails in the same way.
pub proof fn lemma_error_stays(tokens: Seq<Token>, k: int)
    requires
        0 <= k <= tokens.len(),
        run(tokens.take(k)) is Err,
    ensures
        run(tokens) == run(tokens.take(k)),
        k > 0,
    decreases tokens.len(),
{
    if k == tokens.len() {
        assert(tokens.take(k) =~= tokens);
    } else {
        assert(tokens.drop_last().take(k) =~= tokens.take(k));
        lemma_error_stays(tokens.drop_last(), k);
    }
}

/// `quotient` written out by the signs of its arguments.
proof fn lemma_quotient_cases(b: int, a: int)
    requires
        a != 0,
    ensures
        b == 0 ==> quotient(b, a) == 0,
        b > 0 && a > 0 ==> quotient(b, a) == b / a,
        b < 0 && a < 0 ==> quotient(b, a) == (b * -1) / (a * -1),
        b < 0 && a > 0 ==> quotient(b, a) == ((b * -1) / a) * -1,
        b > 0 && a < 0 ==> quotient(b, a) == (b / (a * -1)) * -1,
{
    if b == 0 {
        if a > 0 {
            vstd::arithmetic::div_mod::lemma_div_basics(a);
        } else {
            vstd::arithmetic::div_mod::lemma_div_basics(-a);
        }
    }
}

} // verus!
