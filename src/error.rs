//! The conditions that stop a program.
use vstd::prelude::*;
use crate::rpn::Op;

verus! {

/// Why a program was rejected or stopped. Lines and columns count from 1.
#[derive(Debug, Clone, Copy, PartialEq, Eq, Structural)]
pub enum RfError {
    /// A `}` (or `]`) with no opener before it.
    UnmatchedClose { closer: char, line: usize, col: usize },
    /// An opener `{` (or `[`) still open at the end of the source.
    UnclosedOpen { opener: char, line: usize, col: usize, open_line: usize },
    DivisionByZero,
    ModuloByZero,
    /// An operator found fewer than two operands on the stack.
    MissingOperands(Op),
    /// A parenthesis reached evaluation unmatched.
    UnknownOperator(Op),
    /// The expression produced no value.
    EmptyResult,
    /// A character that cannot start a token, with its position in the expression.
    UnexpectedChar { ch: char, pos: usize },
    /// An integer literal out of the 64-bit range.
    BadNumber,
    /// A literal with an exponent marker but no exponent digits.
    BadFloat,
    /// A `name[` with no closing `]`.
    UnclosedIndex,
    /// A macro without `[`.
    MacroMissingOpen,
    /// A macro without `]`.
    MacroMissingClose,
    /// A macro name other than `s` and `l`.
    UnknownMacro,
    /// `$s` applied to text that is not a number.
    SumOfText,
    /// `$l` applied to an integer, which it names.
    LengthOfInt(i64),
    /// A list element that is neither an integer nor quoted text.
    BadListElement,
    /// A list literal that is not `,[ ... ]`.
    BadListLiteral,
    /// A statement that starts with `>`.
    InvalidStatement,
    /// A statement without `>`.
    NoSendOperator,
    /// An augmented send on a combination of values it does not define.
    UnsupportedAugment,
    /// A loop or clause header not followed by `{`.
    ExpectedBrace,
    /// A text literal without its closing quote.
    UnterminatedText,
    /// A text literal expected where there is no `"`.
    NotAString,
    /// A `!` where an if-chain clause (`!?` or `!!`) was expected.
    InvalidIfClause,
    /// A block whose `{` is never closed; the lines of the opener and of the end.
    UnclosedBlock { open_line: usize, line: usize },
    /// A conditional loop ran more iterations than the run allows.
    IterationLimit,
}

} // verus!
