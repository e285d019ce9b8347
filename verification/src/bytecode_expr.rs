//! Scalar expressions over a row, as programs for a small stack machine.
use vstd::prelude::*;
use crate::field::{field_sum, Field, FieldValue};
use crate::tuple::{values_of, Tuple};

verus! {

/// The instructions of the stack machine.
#[derive(Debug, Clone, Copy, PartialEq, Eq, Structural)]
pub enum ByteCodes {
    /// Pushes the literal whose index is the next code.
    PushLit,
    /// Pushes the field of the row whose column is the next code.
    PushField,
    /// Replaces the two topmost values by their sum.
    Add,
}

/// The code of `PushLit` in a program.
pub const PUSH_LIT: usize = 0;

/// The code of `PushField` in a program.
pub const PUSH_FIELD: usize = 1;

/// The code of `Add` in a program.
pub const ADD: usize = 2;

/// What the machine leaves when it runs `codes` from `pc` on with `stack`:
/// the topmost value at the end of the program. Nothing where a code is
/// no instruction, an operand is missing or out of range, a sum does not
/// exist, or the stack is empty at the end.
pub open spec fn run(
    codes: Seq<usize>,
    literals: Seq<FieldValue>,
    row: Seq<FieldValue>,
    pc: int,
    stack: Seq<FieldValue>,
) -> Option<FieldValue>
    decreases codes.len() - pc,
{
    if pc < 0 {
        None
    } else if pc >= codes.len() {
        if stack.len() > 0 {
            Some(stack.last())
        } else {
            None
        }
    } else if codes[pc] == PUSH_LIT {
        if pc + 1 < codes.len() && codes[pc + 1] < literals.len() {
            run(codes, literals, row, pc + 2, stack.push(literals[codes[pc + 1] as int]))
        } else {
            None
        }
    } else if codes[pc] == PUSH_FIELD {
        if pc + 1 < codes.len() && codes[pc + 1] < row.len() {
            run(codes, literals, row, pc + 2, stack.push(row[codes[pc + 1] as int]))
        } else {
            None
        }
    } else if codes[pc] == ADD {
        if stack.len() >= 2 {
            match field_sum(stack[stack.len() - 2], stack.last()) {
                Some(sum) => run(
                    codes,
                    literals,
                    row,
                    pc + 1,
                    stack.drop_last().drop_last().push(sum),
                ),
                None => None,
            }
        } else {
            None
        }
    } else {
        None
    }
}

/// A compiled scalar expression.
#[derive(Debug)]
pub struct ByteCodeExpr {
    /// The program: instructions, each followed by its operand if it has
    /// one.
    pub bytecodes: Vec<usize>,
    /// The literals that the program refers to.
    pub literals: Vec<Field>,
}

impl ByteCodeExpr {
    /// The value of the expression on `row`, if it has one.
    pub open spec fn value_on(&self, row: Seq<FieldValue>) -> Option<FieldValue> {
        run(self.bytecodes@, values_of(self.literals@), row, 0, Seq::empty())
    }

    /// The expression without instructions, which has no value.
    pub fn new() -> (expr: ByteCodeExpr)
        ensures
            expr.bytecodes@.len() == 0,
            expr.literals@.len() == 0,
    {
        ByteCodeExpr { bytecodes: Vec::new(), literals: Vec::new() }
    }

    /// Appends a code to the program.
    pub fn add_code(&mut self, code: usize)
        ensures
            final(self).bytecodes@ == old(self).bytecodes@.push(code),
            final(self).literals == old(self).literals,
    {
        self.bytecodes.push(code);
    }

    /// Appends a literal and says under which index the program finds it.
    pub fn add_literal(&mut self, literal: Field) -> (index: usize)
        ensures
            index == old(self).literals@.len(),
            final(self).literals@ == old(self).literals@.push(literal),
            final(self).bytecodes == old(self).bytecodes,
    {
        self.literals.push(literal);
        self.literals.len() - 1
    }

    /// Whether the program has no instruction.
    pub fn is_empty(&self) -> (empty: bool)
        ensures
            empty == (self.bytecodes@.len() == 0),
    {
        self.bytecodes.len() == 0
    }

    /// The value of the expression on `record`, if it has one.
    pub fn try_eval(&self, record: &Tuple) -> (value: Option<Field>)
        ensures
            match value {
                Some(f) => self.value_on(record@) == Some(f@),
                None => self.value_on(record@) is None,
            },
    {
        let mut stack: Vec<Field> = Vec::new();
        let mut pc: usize = 0;
        let ghost literals = values_of(self.literals@);
        proof {
            assert(values_of(stack@) =~= Seq::<FieldValue>::empty());
        }
        while pc < self.bytecodes.len()
            invariant
                pc <= self.bytecodes@.len(),
                literals == values_of(self.literals@),
                self.value_on(record@) == run(
                    self.bytecodes@,
                    literals,
                    record@,
                    pc as int,
                    values_of(stack@),
                ),
            decreases self.bytecodes@.len() - pc,
        {
            let code: usize = self.bytecodes[pc];
            let ghost before = values_of(stack@);
            if code == PUSH_LIT {
                if pc + 1 >= self.bytecodes.len() || self.bytecodes[pc + 1] >= self.literals.len() {
                    return None;
                }
                let literal = self.literals[self.bytecodes[pc + 1]].clone();
                stack.push(literal);
                assert(values_of(stack@) =~= before.push(literal@));
                pc += 2;
            } else if code == PUSH_FIELD {
                if pc + 1 >= self.bytecodes.len() || self.bytecodes[pc + 1]
                    >= record.field_vals.len() {
                    return None;
                }
                let field = record.field_vals[self.bytecodes[pc + 1]].clone();
                stack.push(field);
                assert(values_of(stack@) =~= before.push(field@));
                pc += 2;
            } else if code == ADD {
                if stack.len() < 2 {
                    return None;
                }
                let right = stack.pop().unwrap();
                let left = stack.pop().unwrap();
                assert(right@ == before.last());
                assert(left@ == before[before.len() - 2]);
                match left.plus(&right) {
                    Ok(sum) => {
                        stack.push(sum);
                        assert(values_of(stack@) =~= before.drop_last().drop_last().push(sum@));
                    },
                    Err(_) => {
                        return None;
                    },
                }
                pc += 1;
            } else {
                return None;
            }
        }
        stack.pop()
    }

    /// The value of the expression on `record`. The expression has to
    /// have one.
    pub fn eval(&self, record: &Tuple) -> (value: Field)
        requires
            self.value_on(record@) is Some,
        ensures
            self.value_on(record@) == Some(value@),
    {
        self.try_eval(record).unwrap()
    }
}

/// The expression whose value is the field in column `index`.
pub fn colidx_expr(index: usize) -> (expr: ByteCodeExpr)
    ensures
        forall|row: Seq<FieldValue>|
            #[trigger] expr.value_on(row) == if index < row.len() {
                Some(row[index as int])
            } else {
                None
            },
{
    let mut expr = ByteCodeExpr::new();
    expr.add_code(PUSH_FIELD);
    expr.add_code(index);
    proof {
        assert forall|row: Seq<FieldValue>|
            #[trigger] expr.value_on(row) == if index < row.len() {
                Some(row[index as int])
            } else {
                None
            } by {
            reveal_with_fuel(run, 3);
        }
    }
    expr
}

} // verus!
