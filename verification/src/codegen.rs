//! The code generator: tokens to instructions, and on to assembly text.
//!
//! Every token is lowered by itself, in order. The generator keeps its own
//! stack of open blocks: what an `end` emits depends on the block that it
//! closes, and the jump back to the top of a loop needs the identifier that
//! the `while` brought.

use vstd::prelude::*;
use crate::assembly::{program_text, render, Instr, Label, LabelKind};
use crate::blocks::{apply, block_step, BlockKind, OpenBlock};
use crate::error::{CompileError, CompileErrorView};
use crate::token::{token_views, Token, TokenKind, TokenView};

verus! {

/// The instructions for a token of kind `t` that meets the open blocks
/// `stack`.
pub open spec fn lower_token(stack: Seq<OpenBlock>, t: TokenKind) -> Seq<Instr> {
    match t {
        TokenKind::IntegerLiteral(v) => seq![Instr::Push(v)],
        TokenKind::Add => seq![Instr::Add],
        TokenKind::Sub => seq![Instr::Sub],
        TokenKind::Mul => seq![Instr::Mul],
        TokenKind::Div => seq![Instr::Div],
        TokenKind::Dup => seq![Instr::Dup],
        TokenKind::Drop => seq![Instr::Drop],
        TokenKind::Swap => seq![Instr::Swap],
        TokenKind::Rotate => seq![Instr::Rotate],
        TokenKind::Over => seq![Instr::Over],
        TokenKind::Equal => seq![Instr::Equal],
        TokenKind::Greater => seq![Instr::Greater],
        TokenKind::Less => seq![Instr::Less],
        TokenKind::Dump => seq![Instr::Dump],
        TokenKind::AsciiDump => seq![Instr::AsciiDump],
        TokenKind::If(id) => seq![Instr::JumpIfZero(Label { kind: LabelKind::EndIf, id: id })],
        TokenKind::Else(id) => seq![
            Instr::Jump(Label { kind: LabelKind::EndElse, id: id }),
            Instr::Mark(Label { kind: LabelKind::EndIf, id: id }),
        ],
        TokenKind::While(id) => seq![Instr::Mark(Label { kind: LabelKind::LoopTop, id: id })],
        TokenKind::Do(id) => seq![Instr::JumpIfZero(Label { kind: LabelKind::EndWhile, id: id })],
        TokenKind::End(id) => if stack.len() == 0 {
            Seq::empty()
        } else {
            match stack.last().kind {
                BlockKind::If => seq![Instr::Mark(Label { kind: LabelKind::EndIf, id: id })],
                BlockKind::Else => seq![Instr::Mark(Label { kind: LabelKind::EndElse, id: id })],
                BlockKind::Do => seq![
                    Instr::Jump(Label { kind: LabelKind::LoopTop, id: stack.last().origin }),
                    Instr::Mark(Label { kind: LabelKind::EndWhile, id: id }),
                ],
                BlockKind::While => Seq::empty(),
            }
        },
    }
}

/// What the generator knows after some tokens.
pub ghost struct GenState {
    /// The blocks that are open, innermost last.
    pub stack: Seq<OpenBlock>,
    /// The instructions emitted so far.
    pub code: Seq<Instr>,
}

/// The state after the first `n` tokens, or the first error among them.
pub open spec fn lower_run(tokens: Seq<TokenView>, n: int) -> Result<GenState, CompileErrorView>
    decreases n,
{
    if n <= 0 {
        Ok(GenState { stack: Seq::empty(), code: Seq::empty() })
    } else {
        match lower_run(tokens, n - 1) {
            Err(e) => Err(e),
            Ok(g) => match block_step(g.stack, tokens[n - 1].kind) {
                Err(e) => Err(CompileErrorView { kind: e, word: tokens[n - 1].word }),
                Ok(stack) => Ok(
                    GenState {
                        stack: stack,
                        code: g.code + lower_token(g.stack, tokens[n - 1].kind),
                    },
                ),
            },
        }
    }
}

/// What [`lower`] returns for the tokens `tokens`: the instructions of all of
/// them, or the error of the first that cannot stand where it does.
pub open spec fn lower_spec(tokens: Seq<TokenView>) -> Result<Seq<Instr>, CompileErrorView> {
    match lower_run(tokens, tokens.len() as int) {
        Err(e) => Err(e),
        Ok(g) => Ok(g.code),
    }
}

/// What [`compile`] returns for the tokens `tokens`: the assembly text of
/// their instructions, or the error of the first that cannot stand where it
/// does.
pub open spec fn compile_spec(tokens: Seq<TokenView>) -> Result<Seq<char>, CompileErrorView> {
    match lower_spec(tokens) {
        Err(e) => Err(e),
        Ok(code) => Ok(program_text(code)),
    }
}

/// The mathematical value of what [`lower`] returns.
pub open spec fn lowered_view(r: Result<Vec<Instr>, CompileError>) -> Result<
    Seq<Instr>,
    CompileErrorView,
> {
    match r {
        Ok(code) => Ok(code@),
        Err(e) => Err(e@),
    }
}

/// The mathematical value of what [`compile`] returns.
pub open spec fn compiled_view(r: Result<String, CompileError>) -> Result<
    Seq<char>,
    CompileErrorView,
> {
    match r {
        Ok(text) => Ok(text@),
        Err(e) => Err(e@),
    }
}

/// An error among the first `k` tokens is the error of any longer run.
pub proof fn lemma_lower_error_persists(tokens: Seq<TokenView>, k: int, n: int)
    requires
        0 <= k <= n,
        lower_run(tokens, k) is Err,
    ensures
        lower_run(tokens, n) == lower_run(tokens, k),
    decreases n - k,
{
    if k < n {
        lemma_lower_error_persists(tokens, k, n - 1);
    }
}

/// Appends to `code` the instructions for a token of kind `t` that meets
/// the open blocks `stack`.
fn push_token(code: &mut Vec<Instr>, stack: &Vec<OpenBlock>, t: TokenKind)
    ensures
        final(code)@ == old(code)@ + lower_token(stack@, t),
{
    let ghost before = code@;
    match t {
        TokenKind::IntegerLiteral(v) => code.push(Instr::Push(v)),
        TokenKind::Add => code.push(Instr::Add),
        TokenKind::Sub => code.push(Instr::Sub),
        TokenKind::Mul => code.push(Instr::Mul),
        TokenKind::Div => code.push(Instr::Div),
        TokenKind::Dup => code.push(Instr::Dup),
        TokenKind::Drop => code.push(Instr::Drop),
        TokenKind::Swap => code.push(Instr::Swap),
        TokenKind::Rotate => code.push(Instr::Rotate),
        TokenKind::Over => code.push(Instr::Over),
        TokenKind::Equal => code.push(Instr::Equal),
        TokenKind::Greater => code.push(Instr::Greater),
        TokenKind::Less => code.push(Instr::Less),
        TokenKind::Dump => code.push(Instr::Dump),
        TokenKind::AsciiDump => code.push(Instr::AsciiDump),
        TokenKind::If(id) => code.push(
            Instr::JumpIfZero(Label { kind: LabelKind::EndIf, id: id }),
        ),
        TokenKind::Else(id) => {
            code.push(Instr::Jump(Label { kind: LabelKind::EndElse, id: id }));
            code.push(Instr::Mark(Label { kind: LabelKind::EndIf, id: id }));
        },
        TokenKind::While(id) => code.push(Instr::Mark(Label { kind: LabelKind::LoopTop, id: id })),
        TokenKind::Do(id) => code.push(
            Instr::JumpIfZero(Label { kind: LabelKind::EndWhile, id: id }),
        ),
        TokenKind::End(id) => {
            let open: usize = stack.len();
            if open > 0 {
                let top: OpenBlock = stack[open - 1];
                match top.kind {
                    BlockKind::If => code.push(
                        Instr::Mark(Label { kind: LabelKind::EndIf, id: id }),
                    ),
                    BlockKind::Else => code.push(
                        Instr::Mark(Label { kind: LabelKind::EndElse, id: id }),
                    ),
                    BlockKind::Do => {
                        code.push(Instr::Jump(Label { kind: LabelKind::LoopTop, id: top.origin }));
                        code.push(Instr::Mark(Label { kind: LabelKind::EndWhile, id: id }));
                    },
                    BlockKind::While => {},
                }
            }
        },
    }
    assert(code@ =~= before + lower_token(stack@, t));
}

/// Lowers tokens to instructions.
///
/// The tokens need not come from the parser: an `else`, a `do` or an `end`
/// that does not fit the blocks that are open is rejected here as there, and
/// the labels are named by the identifiers that the tokens carry. A block may
/// stay open at the end.
pub fn lower(tokens: &Vec<Token>) -> (r: Result<Vec<Instr>, CompileError>)
    ensures
        lowered_view(r) == lower_spec(token_views(tokens@)),
{
    let n: usize = tokens.len();
    let ghost tv = token_views(tokens@);
    let mut stack: Vec<OpenBlock> = Vec::new();
    let mut code: Vec<Instr> = Vec::new();
    let mut i: usize = 0;
    while i < n
        invariant
            i <= n,
            n == tokens@.len(),
            tv == token_views(tokens@),
            lower_run(tv, i as int) == Ok::<GenState, CompileErrorView>(
                GenState { stack: stack@, code: code@ },
            ),
        decreases n - i,
    {
        let token: &Token = &tokens[i];
        assert(tv[i as int] == token@);
        push_token(&mut code, &stack, token.kind);
        match apply(&mut stack, token.kind) {
            Ok(()) => {},
            Err(e) => {
                proof {
                    lemma_lower_error_persists(tv, i + 1, n as int);
                }
                return Err(CompileError { kind: e, word: token.word.clone() });
            },
        }
        i += 1;
    }
    Ok(code)
}

/// Compiles tokens to the assembly text of a whole program.
pub fn compile(tokens: Vec<Token>) -> (r: Result<String, CompileError>)
    ensures
        compiled_view(r) == compile_spec(token_views(tokens@)),
{
    match lower(&tokens) {
        Ok(code) => Ok(render(&code)),
        Err(e) => Err(e),
    }
}

} // verus!
