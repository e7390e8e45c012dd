//! What can go wrong between words and assembly.

use vstd::prelude::*;
use vstd::string::StringExecFns;
use crate::lexer::{Word, WordView};
use crate::text::{decimal, push_decimal};

verus! {

/// The ways in which a program is rejected.
#[derive(Clone, Copy, Debug, PartialEq, Eq, Structural)]
pub enum ErrorKind {
    /// A word that is no literal, no operator and no keyword.
    InvalidToken,
    /// `do` where the innermost open block is not a `while` without `do`, or
    /// where no block is open.
    UnexpectedDo,
    /// `end` where no block is open, or where the innermost open block is a
    /// `while` that has had no `do`.
    UnexpectedEnd,
    /// `else` where the innermost open block is not an `if` without `else`,
    /// or where no block is open.
    UnmatchedElse,
    /// The input ends while a block is open.
    UnterminatedBlock,
}

/// A rejection, with the word at which it was found.
///
/// For an unterminated block the word is the keyword that opened the
/// innermost block left open.
#[derive(Debug, PartialEq, Eq)]
pub struct CompileError {
    pub kind: ErrorKind,
    pub word: Word,
}

/// The mathematical value of a [`CompileError`].
pub ghost struct CompileErrorView {
    pub kind: ErrorKind,
    pub word: WordView,
}

impl View for CompileError {
    type V = CompileErrorView;

    open spec fn view(&self) -> CompileErrorView {
        CompileErrorView { kind: self.kind, word: self.word@ }
    }
}

impl Clone for CompileError {
    fn clone(&self) -> (r: Self)
        ensures
            r@ == self@,
    {
        CompileError { kind: self.kind, word: self.word.clone() }
    }
}

/// The words that name a kind of error.
pub open spec fn description(kind: ErrorKind) -> Seq<char> {
    match kind {
        ErrorKind::InvalidToken => "invalid token"@,
        ErrorKind::UnexpectedDo => "unexpected do"@,
        ErrorKind::UnexpectedEnd => "unexpected end"@,
        ErrorKind::UnmatchedElse => "unmatched else"@,
        ErrorKind::UnterminatedBlock => "unterminated block"@,
    }
}

/// The diagnostic for an error: file, line and column of the word, the kind
/// of error, and the text of the word.
pub open spec fn diagnostic(e: CompileErrorView) -> Seq<char> {
    e.word.file + ":"@ + decimal(e.word.line) + ":"@ + decimal(e.word.col) + ": "@ + description(
        e.kind,
    ) + ": "@ + e.word.text
}

impl ErrorKind {
    /// The words that name the kind.
    pub fn describe(self) -> (s: &'static str)
        ensures
            s@ == description(self),
    {
        match self {
            ErrorKind::InvalidToken => "invalid token",
            ErrorKind::UnexpectedDo => "unexpected do",
            ErrorKind::UnexpectedEnd => "unexpected end",
            ErrorKind::UnmatchedElse => "unmatched else",
            ErrorKind::UnterminatedBlock => "unterminated block",
        }
    }
}

impl CompileError {
    /// The diagnostic to show for the error.
    pub fn message(&self) -> (s: String)
        ensures
            s@ == diagnostic(self@),
    {
        let mut s: String = self.word.file.clone();
        s.append(":");
        push_decimal(&mut s, self.word.line as u64);
        s.append(":");
        push_decimal(&mut s, self.word.col as u64);
        s.append(": ");
        s.append(self.kind.describe());
        s.append(": ");
        s.append(self.word.text.as_str());
        s
    }
}

} // verus!
