//! Words of the language and the tokens that carry them.

use vstd::prelude::*;

verus! {

/// One word of the language. The control words carry the absolute position
/// they transfer to, absent until the blocks have been resolved.
#[derive(Debug, Clone, Copy, PartialEq, Eq)]
pub enum Word {
    OpPush(i32),
    OpPlus,
    OpMinus,
    OpEqual,
    OpDump,
    OpDup,
    OpGt,
    OpIf(Option<usize>),
    OpEnd(Option<usize>),
    OpElse(Option<usize>),
    OpWhile,
    OpDo(Option<usize>),
}

/// A word together with the place in the source where it was read.
/// `row` and `col` are 1-based.
#[derive(Debug, Clone, PartialEq, Eq)]
pub struct Token {
    pub file_path: String,
    pub col: usize,
    pub row: usize,
    pub word: Word,
}

/// What went wrong while resolving or running a program.
#[derive(Debug, Clone, Copy, PartialEq, Eq)]
pub enum ErrorKind {
    /// A value or a pending block was needed and none was there.
    StackEmpty,
    /// A closing word met a pending block of a kind it cannot close.
    BlockMismatch,
    /// The input ended while a block was still open.
    UnclosedBlock,
    /// A control word was executed without a jump target.
    MissingTarget,
}

/// An error with the source location of the token it is reported at.
#[derive(Debug, Clone, PartialEq, Eq)]
pub struct Diagnostic {
    pub kind: ErrorKind,
    pub file_path: String,
    pub row: usize,
    pub col: usize,
}

/// The diagnostic of kind `kind` reported at `token`.
pub open spec fn diagnostic_at(kind: ErrorKind, token: Token) -> Diagnostic {
    Diagnostic { kind, file_path: token.file_path, row: token.row, col: token.col }
}

/// Two tokens read at the same place.
pub open spec fn same_place(a: Token, b: Token) -> bool {
    a.file_path == b.file_path && a.row == b.row && a.col == b.col
}

/// The word that pushes `num`.
pub fn push(num: i32) -> (w: Word)
    ensures
        w == Word::OpPush(num),
{
    Word::OpPush(num)
}

/// The word that adds.
pub fn plus() -> (w: Word)
    ensures
        w == Word::OpPlus,
{
    Word::OpPlus
}

/// The word that subtracts.
pub fn minus() -> (w: Word)
    ensures
        w == Word::OpMinus,
{
    Word::OpMinus
}

/// The word that tests for equality.
pub fn equal() -> (w: Word)
    ensures
        w == Word::OpEqual,
{
    Word::OpEqual
}

/// The word that prints.
pub fn dump() -> (w: Word)
    ensures
        w == Word::OpDump,
{
    Word::OpDump
}

/// The word that duplicates the top value.
pub fn dup() -> (w: Word)
    ensures
        w == Word::OpDup,
{
    Word::OpDup
}

/// The word that tests for greater-than.
pub fn gt() -> (w: Word)
    ensures
        w == Word::OpGt,
{
    Word::OpGt
}

/// An `if` with the given target.
pub fn iff(else_end_idx: Option<usize>) -> (w: Word)
    ensures
        w == Word::OpIf(else_end_idx),
{
    Word::OpIf(else_end_idx)
}

/// An `else` with the given target.
pub fn elze(end_idx: Option<usize>) -> (w: Word)
    ensures
        w == Word::OpElse(end_idx),
{
    Word::OpElse(end_idx)
}

/// An `end` with the given target.
pub fn end(wile_end_idx: Option<usize>) -> (w: Word)
    ensures
        w == Word::OpEnd(wile_end_idx),
{
    Word::OpEnd(wile_end_idx)
}

/// The word `while`.
pub fn wile() -> (w: Word)
    ensures
        w == Word::OpWhile,
{
    Word::OpWhile
}

/// A `do` with the given target.
pub fn doo(wile_end_idx: Option<usize>) -> (w: Word)
    ensures
        w == Word::OpDo(wile_end_idx),
{
    Word::OpDo(wile_end_idx)
}

/// Makes the diagnostic of kind `kind` at `token`.
pub fn diagnose(kind: ErrorKind, token: &Token) -> (d: Diagnostic)
    ensures
        d == diagnostic_at(kind, *token),
{
    Diagnostic { kind, file_path: token.file_path.clone(), row: token.row, col: token.col }
}

/// A copy of `token` that carries `word` in place of its own.
pub fn with_word(token: &Token, word: Word) -> (t: Token)
    ensures
        same_place(t, *token),
        t.word == word,
{
    Token { file_path: token.file_path.clone(), col: token.col, row: token.row, word }
}

/// Turns a missing value into the `StackEmpty` diagnostic at `token`.
pub fn handle_stack_empty<T>(value_in_stack: Option<T>, token: &Token) -> (r: Result<T, Diagnostic>)
    ensures
        r == match value_in_stack {
            Some(x) => Ok::<T, Diagnostic>(x),
            None => Err::<T, Diagnostic>(diagnostic_at(ErrorKind::StackEmpty, *token)),
        },
{
    match value_in_stack {
        None => Err(diagnose(ErrorKind::StackEmpty, token)),
        Some(x) => Ok(x),
    }
}

} // verus!
