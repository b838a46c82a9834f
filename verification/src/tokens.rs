//! The shared instruction model: tokens produced by lexing, assembled
//! instruction entries with repeat counts and matching-bracket targets, the
//! assembly error, and the well-formedness predicate that the assembler
//! establishes and the executor relies on.

use vstd::prelude::*;

verus! {

/// Number of cells on the tape.
pub const MEMORY_SIZE: usize = 30000;

/// One instruction kind, as lexed from a single source character.
#[derive(Clone, Copy, Debug, PartialEq, Eq, Structural)]
pub enum Tokens {
    /// `-`: subtract from the current cell, wrapping.
    Decrement,
    /// `+`: add to the current cell, wrapping.
    Increment,
    /// `<`: move the cursor left, wrapping at index 0.
    ShiftLeft,
    /// `>`: move the cursor right, wrapping at the last index.
    ShiftRight,
    /// `.`: emit the current cell as one output character.
    Print,
    /// `,`: read one input line and store its parsed value in the cell.
    TakeInput,
    /// `[`: skip past the matching `]` when the current cell is zero.
    StartLoop,
    /// `]`: jump back to the matching `[` when the current cell is non-zero.
    EndLoop,
}

/// One assembled instruction: a token, how many times it applies, and, for
/// brackets only, the index of the partner bracket in the same list.
#[derive(Clone, Copy, Debug, PartialEq, Eq)]
pub struct ASTEntry {
    /// The instruction kind.
    pub token: Tokens,
    /// Repeat count: always at least 1, and exactly 1 for any token that is
    /// not collapsible.
    pub repeat: usize,
    /// For `StartLoop` and `EndLoop`, the index of the matching bracket;
    /// `None` for every other token.
    pub matching_bracket: Option<usize>,
}

/// The one way assembly can fail.
#[derive(Clone, Copy, Debug, PartialEq, Eq, Structural)]
pub enum AssembleError {
    /// The program's brackets do not nest correctly.
    UnbalancedBrackets,
}

/// Tokens whose runs may be merged into a single counted instruction.
/// Brackets never merge (merging would break matching), and neither do
/// `Print` and `TakeInput` (merging would change the observable number of
/// I/O operations).
pub open spec fn collapsible(t: Tokens) -> bool {
    t == Tokens::Increment || t == Tokens::Decrement || t == Tokens::ShiftLeft
        || t == Tokens::ShiftRight
}

/// Executable test for [`collapsible`].
pub fn collapsible_token(t: Tokens) -> (r: bool)
    ensures
        r == collapsible(t),
{
    t == Tokens::Increment || t == Tokens::Decrement || t == Tokens::ShiftLeft
        || t == Tokens::ShiftRight
}

/// The token a source character lexes to, if any; every other character is
/// a comment.
pub open spec fn token_of_char(c: char) -> Option<Tokens> {
    if c == '+' {
        Some(Tokens::Increment)
    } else if c == '-' {
        Some(Tokens::Decrement)
    } else if c == '<' {
        Some(Tokens::ShiftLeft)
    } else if c == '>' {
        Some(Tokens::ShiftRight)
    } else if c == '.' {
        Some(Tokens::Print)
    } else if c == ',' {
        Some(Tokens::TakeInput)
    } else if c == '[' {
        Some(Tokens::StartLoop)
    } else if c == ']' {
        Some(Tokens::EndLoop)
    } else {
        None
    }
}

/// The token of each entry, in order.
pub open spec fn tokens_of(insts: Seq<ASTEntry>) -> Seq<Tokens> {
    insts.map(|i: int, e: ASTEntry| e.token)
}

/// Well-formedness of one assembled entry within its list: the repeat count
/// is positive and only collapsible tokens carry more than 1, and brackets
/// point at a partner of the opposite kind that points back.
pub open spec fn entry_wf(insts: Seq<ASTEntry>, i: int) -> bool {
    let e = insts[i];
    &&& 1 <= e.repeat
    &&& !collapsible(e.token) ==> e.repeat == 1
    &&& e.token == Tokens::StartLoop ==> {
        let j = e.matching_bracket->0;
        &&& e.matching_bracket is Some
        &&& i < j < insts.len()
        &&& insts[j as int].token == Tokens::EndLoop
        &&& insts[j as int].matching_bracket == Some(i as usize)
    }
    &&& e.token == Tokens::EndLoop ==> {
        let j = e.matching_bracket->0;
        &&& e.matching_bracket is Some
        &&& j < i
        &&& insts[j as int].token == Tokens::StartLoop
        &&& insts[j as int].matching_bracket == Some(i as usize)
    }
    &&& e.token != Tokens::StartLoop && e.token != Tokens::EndLoop
        ==> e.matching_bracket is None
}

/// Well-formedness of a whole assembled instruction list. The assembler
/// only ever returns lists with this shape.
pub open spec fn insts_wf(insts: Seq<ASTEntry>) -> bool {
    forall|i: int| 0 <= i < insts.len() ==> #[trigger] entry_wf(insts, i)
}

} // verus!
