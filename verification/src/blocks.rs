//! The discipline of nested blocks.
//!
//! An `if` opens a block that one `else` may continue and an `end` closes. A
//! `while` opens a block that a `do` must continue before an `end` closes it.
//! The blocks that are open form a stack; every block keyword acts on its top.

use vstd::prelude::*;
use crate::error::ErrorKind;
use crate::token::TokenKind;

verus! {

/// How far an open block has come.
#[derive(Clone, Copy, Debug, PartialEq, Eq, Structural)]
pub enum BlockKind {
    /// After `if`, before any `else`.
    If,
    /// After the `else` of an `if`.
    Else,
    /// After `while`, before its `do`.
    While,
    /// After the `do` of a `while`.
    Do,
}

/// A block that has been opened and not yet closed.
#[derive(Clone, Copy, Debug, PartialEq, Eq, Structural)]
pub struct OpenBlock {
    pub kind: BlockKind,
    /// The identifier that the `else` or `end` to come will carry.
    pub id: u64,
    /// The identifier given at the keyword that opened the block. It differs
    /// from `id` after a `do`, which brings an identifier of its own.
    pub origin: u64,
}

/// The stack of open blocks after a token of kind `t`, or why the token
/// cannot stand where it does.
pub open spec fn block_step(stack: Seq<OpenBlock>, t: TokenKind) -> Result<
    Seq<OpenBlock>,
    ErrorKind,
> {
    match t {
        TokenKind::If(id) => Ok(stack.push(OpenBlock { kind: BlockKind::If, id: id, origin: id })),
        TokenKind::While(id) => Ok(
            stack.push(OpenBlock { kind: BlockKind::While, id: id, origin: id }),
        ),
        TokenKind::Else(id) => if stack.len() > 0 && stack.last().kind == BlockKind::If {
            Ok(
                stack.drop_last().push(
                    OpenBlock { kind: BlockKind::Else, id: id, origin: stack.last().origin },
                ),
            )
        } else {
            Err(ErrorKind::UnmatchedElse)
        },
        TokenKind::Do(id) => if stack.len() > 0 && stack.last().kind == BlockKind::While {
            Ok(
                stack.drop_last().push(
                    OpenBlock { kind: BlockKind::Do, id: id, origin: stack.last().origin },
                ),
            )
        } else {
            Err(ErrorKind::UnexpectedDo)
        },
        TokenKind::End(_) => if stack.len() > 0 && stack.last().kind != BlockKind::While {
            Ok(stack.drop_last())
        } else {
            Err(ErrorKind::UnexpectedEnd)
        },
        _ => Ok(stack),
    }
}

/// Lets a token of kind `t` act on the stack of open blocks. A token that
/// cannot stand where it does leaves the stack as it was.
pub fn apply(stack: &mut Vec<OpenBlock>, t: TokenKind) -> (r: Result<(), ErrorKind>)
    ensures
        match block_step(old(stack)@, t) {
            Ok(after) => r is Ok && final(stack)@ == after,
            Err(e) => r == Err::<(), ErrorKind>(e) && final(stack)@ == old(stack)@,
        },
{
    match t {
        TokenKind::If(id) => {
            stack.push(OpenBlock { kind: BlockKind::If, id: id, origin: id });
            Ok(())
        },
        TokenKind::While(id) => {
            stack.push(OpenBlock { kind: BlockKind::While, id: id, origin: id });
            Ok(())
        },
        TokenKind::Else(id) => {
            let n: usize = stack.len();
            if n > 0 && stack[n - 1].kind == BlockKind::If {
                let origin: u64 = stack[n - 1].origin;
                stack.pop();
                stack.push(OpenBlock { kind: BlockKind::Else, id: id, origin: origin });
                Ok(())
            } else {
                Err(ErrorKind::UnmatchedElse)
            }
        },
        TokenKind::Do(id) => {
            let n: usize = stack.len();
            if n > 0 && stack[n - 1].kind == BlockKind::While {
                let origin: u64 = stack[n - 1].origin;
                stack.pop();
                stack.push(OpenBlock { kind: BlockKind::Do, id: id, origin: origin });
                Ok(())
            } else {
                Err(ErrorKind::UnexpectedDo)
            }
        },
        TokenKind::End(_) => {
            let n: usize = stack.len();
            if n > 0 && stack[n - 1].kind != BlockKind::While {
                stack.pop();
                Ok(())
            } else {
                Err(ErrorKind::UnexpectedEnd)
            }
        },
        _ => Ok(()),
    }
}

} // verus!
