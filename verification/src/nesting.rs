//! Which keyword belongs to which block.
//!
//! An `else`, a `do` and an `end` act on the innermost block that is open
//! where they stand. This module names, by their positions among the tokens,
//! the keyword that opened that block and the keyword that last continued
//! it, and proves that the parser hands the identifiers on between them.

use vstd::prelude::*;
use crate::assembly::{Instr, Label, LabelKind};
use crate::blocks::{BlockKind, OpenBlock};
use crate::codegen::{lower_run, lower_token};
use crate::labels::{lemma_code_grows, lemma_lower_run_prefix, lemma_run_agrees};
use crate::lexer::WordView;
use crate::parser::{parse_spec, run};
use crate::token::{lemma_simple_carries_no_block, TokenKind, TokenView};

verus! {

/// For each block that is open after the first `n` tokens, innermost last,
/// the position of the `if` or `while` that opened it.
pub open spec fn opened_at(tokens: Seq<TokenView>, n: int) -> Seq<int>
    decreases n,
{
    if n <= 0 {
        Seq::empty()
    } else {
        match tokens[n - 1].kind {
            TokenKind::If(_) => opened_at(tokens, n - 1).push(n - 1),
            TokenKind::While(_) => opened_at(tokens, n - 1).push(n - 1),
            TokenKind::End(_) => opened_at(tokens, n - 1).drop_last(),
            _ => opened_at(tokens, n - 1),
        }
    }
}

/// For each block that is open after the first `n` tokens, innermost last,
/// the position of the keyword that acted on it last: its `if` or `while`,
/// or the `else` or `do` that has continued it since.
pub open spec fn continued_at(tokens: Seq<TokenView>, n: int) -> Seq<int>
    decreases n,
{
    if n <= 0 {
        Seq::empty()
    } else {
        match tokens[n - 1].kind {
            TokenKind::If(_) => continued_at(tokens, n - 1).push(n - 1),
            TokenKind::While(_) => continued_at(tokens, n - 1).push(n - 1),
            TokenKind::Else(_) => continued_at(tokens, n - 1).drop_last().push(n - 1),
            TokenKind::Do(_) => continued_at(tokens, n - 1).drop_last().push(n - 1),
            TokenKind::End(_) => continued_at(tokens, n - 1).drop_last(),
            _ => continued_at(tokens, n - 1),
        }
    }
}

/// The open block `e` is the one that the token at `o` opened and the token
/// at `c` acted on last.
pub open spec fn reflects(tokens: Seq<TokenView>, e: OpenBlock, o: int, c: int) -> bool {
    &&& 0 <= o <= c < tokens.len()
    &&& match e.kind {
        BlockKind::If => c == o && tokens[o].kind == TokenKind::If(e.id) && e.origin == e.id,
        BlockKind::Else => tokens[c].kind == TokenKind::Else(e.id) && tokens[o].kind
            == TokenKind::If(e.origin),
        BlockKind::While => c == o && tokens[o].kind == TokenKind::While(e.id) && e.origin
            == e.id,
        BlockKind::Do => tokens[c].kind == TokenKind::Do(e.id) && tokens[o].kind
            == TokenKind::While(e.origin),
    }
}

/// Every block on the generator's stack after `n` tokens is the one that the
/// keywords at its two positions made.
pub open spec fn stack_reflects(tokens: Seq<TokenView>, n: int) -> bool {
    &&& lower_run(tokens, n) matches Ok(g)
    &&& g.stack.len() == opened_at(tokens, n).len()
    &&& g.stack.len() == continued_at(tokens, n).len()
    &&& forall|h: int|
        0 <= h < g.stack.len() ==> #[trigger] continued_at(tokens, n)[h] < n && reflects(
            tokens,
            g.stack[h],
            opened_at(tokens, n)[h],
            continued_at(tokens, n)[h],
        )
}

/// Whatever tokens the generator accepts, its stack of open blocks holds,
/// for each block, the identifier that its opening keyword brought and the
/// identifier of the keyword that acted on it last.
pub proof fn lemma_stack_reflects(tokens: Seq<TokenView>, n: int)
    requires
        0 <= n <= tokens.len(),
        lower_run(tokens, n) is Ok,
    ensures
        stack_reflects(tokens, n),
    decreases n,
{
    if n > 0 {
        lemma_stack_reflects(tokens, n - 1);
        let before = lower_run(tokens, n - 1)->Ok_0;
        let after = lower_run(tokens, n)->Ok_0;
        let o1 = opened_at(tokens, n - 1);
        let c1 = continued_at(tokens, n - 1);
        let o2 = opened_at(tokens, n);
        let c2 = continued_at(tokens, n);
        assert forall|h: int| 0 <= h < after.stack.len() implies #[trigger] c2[h] < n && reflects(
            tokens,
            after.stack[h],
            o2[h],
            c2[h],
        ) by {
            if h < before.stack.len() {
                assert(c1[h] < n - 1 && reflects(tokens, before.stack[h], o1[h], c1[h]));
            }
        }
    }
}

/// Every block on the parser's stack keeps the identifier that its opening
/// keyword brought, until a `do` brings another.
pub proof fn lemma_ids_kept(words: Seq<WordView>, n: int)
    requires
        run(words, n) is Ok,
    ensures
        forall|h: int|
            0 <= h < run(words, n)->Ok_0.stack.len() && (#[trigger] run(
                words,
                n,
            )->Ok_0.stack[h]).kind != BlockKind::Do ==> run(words, n)->Ok_0.stack[h].id == run(
                words,
                n,
            )->Ok_0.stack[h].origin,
    decreases n,
{
    if n > 0 {
        lemma_ids_kept(words, n - 1);
        let st = run(words, n - 1)->Ok_0;
        let st2 = run(words, n)->Ok_0;
        assert forall|h: int| 0 <= h < st2.stack.len() && (#[trigger] st2.stack[h]).kind
            != BlockKind::Do implies st2.stack[h].id == st2.stack[h].origin by {
            if h < st.stack.len() {
                assert(st.stack[h].kind != BlockKind::Do ==> st.stack[h].id == st.stack[h].origin);
            }
        }
    }
}

/// In the tokens that the parser has made, every `else` and every `end`
/// carries the identifier of the innermost block that is open where it
/// stands.
pub proof fn lemma_closing_ids(words: Seq<WordView>, n: int, k: int)
    requires
        0 <= n <= u64::MAX,
        run(words, n) is Ok,
        0 <= k < run(words, n)->Ok_0.tokens.len(),
    ensures
        lower_run(run(words, n)->Ok_0.tokens, k) is Ok,
        match run(words, n)->Ok_0.tokens[k].kind {
            TokenKind::Else(e) => lower_run(run(words, n)->Ok_0.tokens, k)->Ok_0.stack.len() > 0
                && lower_run(run(words, n)->Ok_0.tokens, k)->Ok_0.stack.last().id == e,
            TokenKind::End(e) => lower_run(run(words, n)->Ok_0.tokens, k)->Ok_0.stack.len() > 0
                && lower_run(run(words, n)->Ok_0.tokens, k)->Ok_0.stack.last().id == e && (
            lower_run(run(words, n)->Ok_0.tokens, k)->Ok_0.stack.last().kind != BlockKind::Do
                ==> lower_run(run(words, n)->Ok_0.tokens, k)->Ok_0.stack.last().origin == e),
            _ => true,
        },
    decreases n,
{
    if n > 0 {
        let st = run(words, n - 1)->Ok_0;
        let st2 = run(words, n)->Ok_0;
        let w = words[n - 1];
        lemma_run_agrees(words, n - 1);
        if k < st.tokens.len() {
            lemma_closing_ids(words, n - 1, k);
            lemma_lower_run_prefix(st.tokens, st2.tokens, k);
        } else {
            lemma_lower_run_prefix(st.tokens, st2.tokens, st.tokens.len() as int);
            lemma_simple_carries_no_block(w.text);
            lemma_ids_kept(words, n - 1);
            if st.stack.len() > 0 {
                assert(st.stack.last() == st.stack[st.stack.len() - 1]);
            }
        }
    }
}

/// What holds of the block keyword at position `k` of `tokens`: the keyword
/// that opened its block, the keyword that acted on the block last, and the
/// instructions that it is lowered to.
pub open spec fn keyword_fits(tokens: Seq<TokenView>, k: int) -> bool {
    let o = opened_at(tokens, k);
    let c = continued_at(tokens, k);
    let emitted = lower_token(lower_run(tokens, k)->Ok_0.stack, tokens[k].kind);
    match tokens[k].kind {
        TokenKind::Else(e) => {
            &&& o.len() > 0
            &&& c.last() == o.last()
            &&& tokens[o.last()].kind == TokenKind::If(e)
            &&& emitted =~= seq![
                Instr::Jump(Label { kind: LabelKind::EndElse, id: e }),
                Instr::Mark(Label { kind: LabelKind::EndIf, id: e }),
            ]
        },
        TokenKind::Do(_) => {
            &&& o.len() > 0
            &&& c.last() == o.last()
            &&& tokens[o.last()].kind is While
        },
        TokenKind::End(e) => {
            &&& o.len() > 0
            &&& match tokens[o.last()].kind {
                TokenKind::If(id) => {
                    &&& id == e
                    &&& if c.last() == o.last() {
                        emitted =~= seq![Instr::Mark(Label { kind: LabelKind::EndIf, id: e })]
                    } else {
                        &&& tokens[c.last()].kind == TokenKind::Else(e)
                        &&& emitted =~= seq![
                            Instr::Mark(Label { kind: LabelKind::EndElse, id: e }),
                        ]
                    }
                },
                TokenKind::While(top) => {
                    &&& tokens[c.last()].kind == TokenKind::Do(e)
                    &&& emitted =~= seq![
                        Instr::Jump(Label { kind: LabelKind::LoopTop, id: top }),
                        Instr::Mark(Label { kind: LabelKind::EndWhile, id: e }),
                    ]
                },
                _ => false,
            }
        },
        _ => true,
    }
}

/// In a program that the parser accepts, an `else` carries the identifier
/// of the `if` whose block it continues, and is lowered to the jump past the
/// `else` branch followed at once by the mark at which the `if` branch ends,
/// which is where the `if` jumps on zero; an `end` that closes the block of an
/// `if` carries the identifier of that `if`, and marks the end of the `if`
/// branch if no `else` came and the end of the `else` branch if one did; a
/// `do` continues the block of a `while`; and an `end` that closes a loop
/// carries the identifier of its `do`, jumps back to the top that its `while`
/// marked, and marks the end of the loop.
pub proof fn lemma_keywords_fit(words: Seq<WordView>, k: int)
    requires
        words.len() <= u64::MAX,
        parse_spec(words) is Ok,
        0 <= k < parse_spec(words)->Ok_0.len(),
    ensures
        keyword_fits(parse_spec(words)->Ok_0, k),
{
    let n = words.len() as int;
    let tokens = parse_spec(words)->Ok_0;
    lemma_closing_ids(words, n, k);
    lemma_stack_reflects(tokens, k);
    lemma_run_agrees(words, n);
    lemma_code_grows(tokens, k + 1, tokens.len() as int);
    let g = lower_run(tokens, k)->Ok_0;
    let o = opened_at(tokens, k);
    let c = continued_at(tokens, k);
    assert(lower_run(tokens, k + 1) is Ok);
    if g.stack.len() > 0 {
        let h = g.stack.len() - 1;
        assert(c[h] < k && reflects(tokens, g.stack[h], o[h], c[h]));
    }
}

} // verus!
