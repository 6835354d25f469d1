//! The LIR instruction set: a linear, variable-addressed instruction
//! stream with structured control flow, arithmetic, comparison, a stack
//! abstraction and a match dispatch. Cells hold one byte; a variable
//! occupies exactly one tape cell.

use vstd::prelude::*;

verus! {

/// A byte operand.
pub type Immediate = u8;

/// A variable is addressed by name; the analyzer later assigns the cell.
pub type Variable = String;

#[derive(Debug, Clone, PartialEq)]
pub enum Instruction {
    /// Copy variable `a` into variable `b`; `a` is preserved.
    Copy { a: Variable, b: Variable },
    /// Set variable to a constant value.
    Assign(Variable, Immediate),
    /// Increment variable by one.
    Inc(Variable),
    /// Decrement variable by one.
    Dec(Variable),
    /// Increment variable by a constant.
    IncBy(Variable, Immediate),
    /// Decrement variable by a constant.
    DecBy(Variable, Immediate),
    /// Zero the variable, then read one input byte into it (0 on EOF).
    Read(Variable),
    /// Print the variable's byte.
    Print(Variable),
    /// Print a literal string; `\n`, `\t` and `\r` escapes are honoured.
    PrintMsg(String),
    /// Print the variable as a decimal number, eliding leading zeros.
    PrintC(Variable),
    /// `a += b`; `b` is preserved.
    Add { a: Variable, b: Variable },
    /// `a -= b`; `b` is preserved.
    Sub { a: Variable, b: Variable },
    /// `a *= b`; `b` is preserved.
    Mul { a: Variable, b: Variable },
    /// Euclidean division: `quotient = a / b`, `remainder = a % b`;
    /// `a` and `b` are preserved.
    Div { a: Variable, b: Variable, quotient: Variable, remainder: Variable },
    /// Open a block executed once if `a == b`.
    IfEqual { a: Variable, b: Variable },
    /// Open a block executed once if `a` equals the constant.
    IfEqualConst { a: Variable, b: Immediate },
    /// Open a block executed once if `a` differs from the constant.
    IfNotEqualConst { a: Variable, b: Immediate },
    /// Open a block executed once if `a != b`.
    IfNotEqual { a: Variable, b: Variable },
    /// Open a loop that runs until `a == b`.
    UntilEqual { a: Variable, b: Variable },
    /// Open a loop that runs while the variable is non-zero.
    WhileNotZero(Variable),
    /// Close the innermost open block.
    End,
    /// Compare `a` and `b`: `res` becomes 0 if equal, 1 if `a < b`,
    /// 2 if `a > b`. Both inputs are preserved.
    Compare { a: Variable, b: Variable, res: Variable },
    /// Push the variable's value onto the side-tape stack.
    Push(Variable),
    /// Pop the top of the side-tape stack into the variable.
    Pop(Variable),
    /// Dispatch on the variable's value. The keys must be strictly
    /// ascending; the bodies that follow are separated by `Case` and
    /// appear in reverse numeric order, the default body first.
    Match(Variable, Vec<Immediate>),
    /// Separate two bodies of a `Match`.
    Case(),
    /// Splice literal brainfuck into the output. The fragment must
    /// leave the head where it found it.
    Raw(String),
}

/// Instructions that open a structured block and must be closed by `End`.
pub open spec fn is_block_opener(i: Instruction) -> bool {
    match i {
        Instruction::IfEqual { .. } => true,
        Instruction::IfNotEqual { .. } => true,
        Instruction::UntilEqual { .. } => true,
        Instruction::WhileNotZero(..) => true,
        Instruction::IfEqualConst { .. } => true,
        Instruction::IfNotEqualConst { .. } => true,
        Instruction::Match(..) => true,
        _ => false,
    }
}

/// The change an instruction makes to the block nesting depth.
pub open spec fn nesting_delta(i: Instruction) -> int {
    if is_block_opener(i) {
        1
    } else if i is End {
        -1
    } else {
        0
    }
}

} // verus!
