//! Labels and jumps in the code of a parsed program.
//!
//! The parser gives every block its own identifier and the generator names
//! its labels by them. What this module proves of the code that the generator
//! makes of the parser's tokens: no label is marked twice, none is the target
//! of two jumps, every label that is marked is jumped to and every target is
//! marked, the jump to the top of a loop goes backwards, and every other jump
//! goes forwards.

use vstd::prelude::*;
use crate::assembly::{Instr, Label, LabelKind};
use crate::blocks::{block_step, BlockKind, OpenBlock};
use crate::codegen::{lower_run, lower_spec, lower_token, GenState};
use crate::error::CompileErrorView;
use crate::lexer::WordView;
use crate::parser::{commented, parse_spec, resolve_spec, run, takes_fresh_id, ParseState};
use crate::token::{
    classify_spec, lemma_simple_carries_no_block, BlockWord, TokenKind, TokenView, WordClass,
};

verus! {

/// One if the instruction marks the label, zero if not.
pub open spec fn marks_in(i: Instr, l: Label) -> nat {
    if i == Instr::Mark(l) {
        1
    } else {
        0
    }
}

/// One if the instruction jumps to the label, zero if not.
pub open spec fn jumps_in(i: Instr, l: Label) -> nat {
    if i == Instr::Jump(l) || i == Instr::JumpIfZero(l) {
        1
    } else {
        0
    }
}

/// How many times the code marks the label.
pub open spec fn mark_count(code: Seq<Instr>, l: Label) -> nat
    decreases code.len(),
{
    if code.len() == 0 {
        0
    } else {
        mark_count(code.drop_last(), l) + marks_in(code.last(), l)
    }
}

/// How many jumps of the code have the label as their target.
pub open spec fn jump_count(code: Seq<Instr>, l: Label) -> nat
    decreases code.len(),
{
    if code.len() == 0 {
        0
    } else {
        jump_count(code.drop_last(), l) + jumps_in(code.last(), l)
    }
}

/// One if the open block has jumped to the label and has yet to mark it.
pub open spec fn awaits(e: OpenBlock, l: Label) -> nat {
    if (e.kind == BlockKind::If && l == (Label { kind: LabelKind::EndIf, id: e.id })) || (e.kind
        == BlockKind::Else && l == (Label { kind: LabelKind::EndElse, id: e.id })) || (e.kind
        == BlockKind::Do && l == (Label { kind: LabelKind::EndWhile, id: e.id })) {
        1
    } else {
        0
    }
}

/// One if the open block is a loop that has marked the label as its top and
/// has yet to jump back to it.
pub open spec fn loops_at(e: OpenBlock, l: Label) -> nat {
    if (e.kind == BlockKind::While || e.kind == BlockKind::Do) && l == (Label {
        kind: LabelKind::LoopTop,
        id: e.origin,
    }) {
        1
    } else {
        0
    }
}

/// One if the open block is an `if` whose `else`, should it come, will jump
/// to the label.
pub open spec fn keeps_for_else(e: OpenBlock, l: Label) -> nat {
    if e.kind == BlockKind::If && l == (Label { kind: LabelKind::EndElse, id: e.id }) {
        1
    } else {
        0
    }
}

/// How many open blocks have jumped to the label and have yet to mark it.
pub open spec fn awaiting(stack: Seq<OpenBlock>, l: Label) -> nat
    decreases stack.len(),
{
    if stack.len() == 0 {
        0
    } else {
        awaiting(stack.drop_last(), l) + awaits(stack.last(), l)
    }
}

/// How many open loops have the label as their top.
pub open spec fn looping(stack: Seq<OpenBlock>, l: Label) -> nat
    decreases stack.len(),
{
    if stack.len() == 0 {
        0
    } else {
        looping(stack.drop_last(), l) + loops_at(stack.last(), l)
    }
}

/// How many open blocks keep the label for an `else` to come.
pub open spec fn kept_for_else(stack: Seq<OpenBlock>, l: Label) -> nat
    decreases stack.len(),
{
    if stack.len() == 0 {
        0
    } else {
        kept_for_else(stack.drop_last(), l) + keeps_for_else(stack.last(), l)
    }
}

/// What holds of the label `l` while `allocated` identifiers have been given
/// out, the blocks `stack` are open and `code` has been emitted.
pub open spec fn label_inv(allocated: nat, stack: Seq<OpenBlock>, code: Seq<Instr>, l: Label) -> bool {
    &&& jump_count(code, l) <= 1
    &&& mark_count(code, l) <= 1
    &&& l.id > allocated ==> jump_count(code, l) == 0 && mark_count(code, l) == 0 && awaiting(
        stack,
        l,
    ) == 0 && looping(stack, l) == 0 && kept_for_else(stack, l) == 0
    &&& l.kind != LabelKind::LoopTop ==> jump_count(code, l) == mark_count(code, l) + awaiting(
        stack,
        l,
    ) && looping(stack, l) == 0
    &&& l.kind == LabelKind::LoopTop ==> mark_count(code, l) == jump_count(code, l) + looping(
        stack,
        l,
    ) && awaiting(stack, l) == 0
    &&& jump_count(code, l) + kept_for_else(stack, l) <= 1
    &&& l.kind != LabelKind::EndElse ==> kept_for_else(stack, l) == 0
}

/// [`label_inv`] holds of every label.
pub open spec fn labels_inv(allocated: nat, stack: Seq<OpenBlock>, code: Seq<Instr>) -> bool {
    forall|l: Label| #[trigger] label_inv(allocated, stack, code, l)
}

/// Counting after one more instruction.
proof fn lemma_count_push(code: Seq<Instr>, x: Instr, l: Label)
    ensures
        mark_count(code.push(x), l) == mark_count(code, l) + marks_in(x, l),
        jump_count(code.push(x), l) == jump_count(code, l) + jumps_in(x, l),
{
    assert(code.push(x).drop_last() =~= code);
}

/// Counting after one more open block.
proof fn lemma_open_push(stack: Seq<OpenBlock>, e: OpenBlock, l: Label)
    ensures
        awaiting(stack.push(e), l) == awaiting(stack, l) + awaits(e, l),
        looping(stack.push(e), l) == looping(stack, l) + loops_at(e, l),
        kept_for_else(stack.push(e), l) == kept_for_else(stack, l) + keeps_for_else(e, l),
{
    assert(stack.push(e).drop_last() =~= stack);
}

/// A block keyword that the parser accepts keeps [`label_inv`].
proof fn lemma_block_word_keeps_label(
    allocated: nat,
    stack: Seq<OpenBlock>,
    code: Seq<Instr>,
    b: BlockWord,
    l: Label,
)
    requires
        allocated < u64::MAX,
        labels_inv(allocated, stack, code),
        resolve_spec(b, stack, allocated) is Ok,
        block_step(stack, resolve_spec(b, stack, allocated).unwrap()) is Ok,
    ensures
        label_inv(
            if takes_fresh_id(b) {
                allocated + 1
            } else {
                allocated
            },
            block_step(stack, resolve_spec(b, stack, allocated).unwrap()).unwrap(),
            code + lower_token(stack, resolve_spec(b, stack, allocated).unwrap()),
            l,
        ),
{
    let kind = resolve_spec(b, stack, allocated).unwrap();
    let fresh = (allocated + 1) as u64;
    assert(label_inv(allocated, stack, code, l));
    match b {
        BlockWord::If => {
            let x = Instr::JumpIfZero(Label { kind: LabelKind::EndIf, id: fresh });
            let e = OpenBlock { kind: BlockKind::If, id: fresh, origin: fresh };
            assert(code + lower_token(stack, kind) =~= code.push(x));
            lemma_count_push(code, x, l);
            lemma_open_push(stack, e, l);
        },
        BlockWord::While => {
            let x = Instr::Mark(Label { kind: LabelKind::LoopTop, id: fresh });
            let e = OpenBlock { kind: BlockKind::While, id: fresh, origin: fresh };
            assert(code + lower_token(stack, kind) =~= code.push(x));
            lemma_count_push(code, x, l);
            lemma_open_push(stack, e, l);
        },
        BlockWord::Do => {
            let top = stack.last();
            let x = Instr::JumpIfZero(Label { kind: LabelKind::EndWhile, id: fresh });
            let e = OpenBlock { kind: BlockKind::Do, id: fresh, origin: top.origin };
            assert(code + lower_token(stack, kind) =~= code.push(x));
            lemma_count_push(code, x, l);
            lemma_open_push(stack.drop_last(), e, l);
        },
        BlockWord::Else => {
            let top = stack.last();
            let x = Instr::Jump(Label { kind: LabelKind::EndElse, id: top.id });
            let y = Instr::Mark(Label { kind: LabelKind::EndIf, id: top.id });
            let e = OpenBlock { kind: BlockKind::Else, id: top.id, origin: top.origin };
            assert(code + lower_token(stack, kind) =~= code.push(x).push(y));
            lemma_count_push(code, x, l);
            lemma_count_push(code.push(x), y, l);
            lemma_open_push(stack.drop_last(), e, l);
            assert(label_inv(allocated, stack, code, Label { kind: LabelKind::EndElse, id: top.id }));
            assert(label_inv(allocated, stack, code, Label { kind: LabelKind::EndIf, id: top.id }));
        },
        BlockWord::End => {
            let top = stack.last();
            match top.kind {
                BlockKind::If => {
                    let x = Instr::Mark(Label { kind: LabelKind::EndIf, id: top.id });
                    assert(code + lower_token(stack, kind) =~= code.push(x));
                    lemma_count_push(code, x, l);
                    assert(label_inv(
                        allocated,
                        stack,
                        code,
                        Label { kind: LabelKind::EndIf, id: top.id },
                    ));
                },
                BlockKind::Else => {
                    let x = Instr::Mark(Label { kind: LabelKind::EndElse, id: top.id });
                    assert(code + lower_token(stack, kind) =~= code.push(x));
                    lemma_count_push(code, x, l);
                    assert(label_inv(
                        allocated,
                        stack,
                        code,
                        Label { kind: LabelKind::EndElse, id: top.id },
                    ));
                },
                BlockKind::Do => {
                    let x = Instr::Jump(Label { kind: LabelKind::LoopTop, id: top.origin });
                    let y = Instr::Mark(Label { kind: LabelKind::EndWhile, id: top.id });
                    assert(code + lower_token(stack, kind) =~= code.push(x).push(y));
                    lemma_count_push(code, x, l);
                    lemma_count_push(code.push(x), y, l);
                    assert(label_inv(
                        allocated,
                        stack,
                        code,
                        Label { kind: LabelKind::LoopTop, id: top.origin },
                    ));
                    assert(label_inv(
                        allocated,
                        stack,
                        code,
                        Label { kind: LabelKind::EndWhile, id: top.id },
                    ));
                },
                BlockKind::While => {},
            }
        },
    }
}

/// Every jump to the top of a loop stands after the mark of its label,
/// and every other jump stands before the mark of its label.
pub open spec fn directed(code: Seq<Instr>) -> bool {
    forall|i: int, j: int, l: Label|
        #![trigger jumps_in(code[i], l), marks_in(code[j], l)]
        0 <= i < code.len() && 0 <= j < code.len() && jumps_in(code[i], l) == 1 && marks_in(
            code[j],
            l,
        ) == 1 ==> if l.kind == LabelKind::LoopTop {
            j < i
        } else {
            i < j
        }
}

/// The code holds no fewer marks of a label than any one of its instructions.
proof fn lemma_count_covers(code: Seq<Instr>, k: int, l: Label)
    requires
        0 <= k < code.len(),
    ensures
        marks_in(code[k], l) <= mark_count(code, l),
        jumps_in(code[k], l) <= jump_count(code, l),
    decreases code.len(),
{
    if k < code.len() - 1 {
        lemma_count_covers(code.drop_last(), k, l);
    }
}

/// One more instruction that neither jumps nor marks keeps the direction
/// of the jumps.
proof fn lemma_directed_push_plain(code: Seq<Instr>, x: Instr)
    requires
        directed(code),
        forall|l: Label| jumps_in(x, l) == 0 && marks_in(x, l) == 0,
    ensures
        directed(code.push(x)),
{
    let code2 = code.push(x);
    assert forall|i: int, j: int, l: Label|
        #![trigger jumps_in(code2[i], l), marks_in(code2[j], l)]
        0 <= i < code2.len() && 0 <= j < code2.len() && jumps_in(code2[i], l) == 1 && marks_in(
            code2[j],
            l,
        ) == 1 implies if l.kind == LabelKind::LoopTop {
        j < i
    } else {
        i < j
    } by {
        if i < code.len() && j < code.len() {
            assert(jumps_in(code[i], l) == 1 && marks_in(code[j], l) == 1);
        }
    }
}

/// One more jump keeps the direction of the jumps: a jump to the top of a
/// loop, or a jump to a label that is not marked yet.
proof fn lemma_directed_push_jump(code: Seq<Instr>, x: Instr, t: Label)
    requires
        directed(code),
        x == Instr::Jump(t) || x == Instr::JumpIfZero(t),
        t.kind != LabelKind::LoopTop ==> mark_count(code, t) == 0,
    ensures
        directed(code.push(x)),
{
    let code2 = code.push(x);
    assert forall|i: int, j: int, l: Label|
        #![trigger jumps_in(code2[i], l), marks_in(code2[j], l)]
        0 <= i < code2.len() && 0 <= j < code2.len() && jumps_in(code2[i], l) == 1 && marks_in(
            code2[j],
            l,
        ) == 1 implies if l.kind == LabelKind::LoopTop {
        j < i
    } else {
        i < j
    } by {
        if i < code.len() && j < code.len() {
            assert(jumps_in(code[i], l) == 1 && marks_in(code[j], l) == 1);
        } else if j < code.len() {
            lemma_count_covers(code, j, l);
        }
    }
}

/// One more mark keeps the direction of the jumps: the mark of the top of a
/// loop to which nothing jumps yet, or the mark of another label.
proof fn lemma_directed_push_mark(code: Seq<Instr>, t: Label)
    requires
        directed(code),
        t.kind == LabelKind::LoopTop ==> jump_count(code, t) == 0,
    ensures
        directed(code.push(Instr::Mark(t))),
{
    let code2 = code.push(Instr::Mark(t));
    assert forall|i: int, j: int, l: Label|
        #![trigger jumps_in(code2[i], l), marks_in(code2[j], l)]
        0 <= i < code2.len() && 0 <= j < code2.len() && jumps_in(code2[i], l) == 1 && marks_in(
            code2[j],
            l,
        ) == 1 implies if l.kind == LabelKind::LoopTop {
        j < i
    } else {
        i < j
    } by {
        if i < code.len() && j < code.len() {
            assert(jumps_in(code[i], l) == 1 && marks_in(code[j], l) == 1);
        } else if i < code.len() {
            lemma_count_covers(code, i, l);
        }
    }
}

/// A block keyword that the parser accepts keeps the direction of the jumps.
proof fn lemma_block_word_keeps_direction(
    allocated: nat,
    stack: Seq<OpenBlock>,
    code: Seq<Instr>,
    b: BlockWord,
)
    requires
        allocated < u64::MAX,
        labels_inv(allocated, stack, code),
        directed(code),
        resolve_spec(b, stack, allocated) is Ok,
        block_step(stack, resolve_spec(b, stack, allocated).unwrap()) is Ok,
    ensures
        directed(code + lower_token(stack, resolve_spec(b, stack, allocated).unwrap())),
{
    let kind = resolve_spec(b, stack, allocated).unwrap();
    let fresh = (allocated + 1) as u64;
    match b {
        BlockWord::If => {
            let t = Label { kind: LabelKind::EndIf, id: fresh };
            assert(label_inv(allocated, stack, code, t));
            lemma_directed_push_jump(code, Instr::JumpIfZero(t), t);
            assert(code + lower_token(stack, kind) =~= code.push(Instr::JumpIfZero(t)));
        },
        BlockWord::While => {
            let t = Label { kind: LabelKind::LoopTop, id: fresh };
            assert(label_inv(allocated, stack, code, t));
            lemma_directed_push_mark(code, t);
            assert(code + lower_token(stack, kind) =~= code.push(Instr::Mark(t)));
        },
        BlockWord::Do => {
            let t = Label { kind: LabelKind::EndWhile, id: fresh };
            assert(label_inv(allocated, stack, code, t));
            lemma_directed_push_jump(code, Instr::JumpIfZero(t), t);
            assert(code + lower_token(stack, kind) =~= code.push(Instr::JumpIfZero(t)));
        },
        BlockWord::Else => {
            let top = stack.last();
            let t = Label { kind: LabelKind::EndElse, id: top.id };
            let m = Label { kind: LabelKind::EndIf, id: top.id };
            assert(label_inv(allocated, stack, code, t));
            lemma_directed_push_jump(code, Instr::Jump(t), t);
            lemma_directed_push_mark(code.push(Instr::Jump(t)), m);
            assert(code + lower_token(stack, kind) =~= code.push(Instr::Jump(t)).push(
                Instr::Mark(m),
            ));
        },
        BlockWord::End => {
            let top = stack.last();
            match top.kind {
                BlockKind::If => {
                    let m = Label { kind: LabelKind::EndIf, id: top.id };
                    lemma_directed_push_mark(code, m);
                    assert(code + lower_token(stack, kind) =~= code.push(Instr::Mark(m)));
                },
                BlockKind::Else => {
                    let m = Label { kind: LabelKind::EndElse, id: top.id };
                    lemma_directed_push_mark(code, m);
                    assert(code + lower_token(stack, kind) =~= code.push(Instr::Mark(m)));
                },
                BlockKind::Do => {
                    let t = Label { kind: LabelKind::LoopTop, id: top.origin };
                    let m = Label { kind: LabelKind::EndWhile, id: top.id };
                    lemma_directed_push_jump(code, Instr::Jump(t), t);
                    lemma_directed_push_mark(code.push(Instr::Jump(t)), m);
                    assert(code + lower_token(stack, kind) =~= code.push(Instr::Jump(t)).push(
                        Instr::Mark(m),
                    ));
                },
                BlockKind::While => {},
            }
        },
    }
}

/// The generator's state after all of `tokens`, or its first error.
pub open spec fn lowered(tokens: Seq<TokenView>) -> Result<GenState, CompileErrorView> {
    lower_run(tokens, tokens.len() as int)
}

/// The generator, run on the parser's tokens, has reached the parser's stack
/// of open blocks without an error, and its code keeps the labels in order.
pub open spec fn agrees(st: ParseState) -> bool {
    &&& lowered(st.tokens) matches Ok(g)
    &&& g.stack == st.stack
    &&& labels_inv(st.allocated, st.stack, g.code)
    &&& directed(g.code)
}

/// What the generator makes of the first `k` tokens does not depend on the
/// tokens that follow.
pub proof fn lemma_lower_run_prefix(a: Seq<TokenView>, b: Seq<TokenView>, k: int)
    requires
        0 <= k <= a.len() <= b.len(),
        forall|i: int| 0 <= i < a.len() ==> a[i] == b[i],
    ensures
        lower_run(a, k) == lower_run(b, k),
    decreases k,
{
    if k > 0 {
        lemma_lower_run_prefix(a, b, k - 1);
    }
}

/// One more token: the generator's state after it.
proof fn lemma_lowered_push(tokens: Seq<TokenView>, t: TokenView)
    requires
        lowered(tokens) is Ok,
    ensures
        lowered(tokens.push(t)) == match block_step(lowered(tokens)->Ok_0.stack, t.kind) {
            Err(e) => Err::<GenState, CompileErrorView>(
                CompileErrorView { kind: e, word: t.word },
            ),
            Ok(stack) => Ok(
                GenState {
                    stack: stack,
                    code: lowered(tokens)->Ok_0.code + lower_token(
                        lowered(tokens)->Ok_0.stack,
                        t.kind,
                    ),
                },
            ),
        },
{
    let longer = tokens.push(t);
    lemma_lower_run_prefix(tokens, longer, tokens.len() as int);
    assert(longer[longer.len() - 1] == t);
}

/// A token that is no block keyword leaves the labels as they are.
proof fn lemma_plain_token_agrees(st: ParseState, t: TokenView)
    requires
        agrees(st),
        t.kind.spec_block_id() is None,
    ensures
        agrees(ParseState { tokens: st.tokens.push(t), ..st }),
{
    let g = lowered(st.tokens)->Ok_0;
    lemma_lowered_push(st.tokens, t);
    let x = lower_token(g.stack, t.kind)[0];
    assert(g.code + lower_token(g.stack, t.kind) =~= g.code.push(x));
    lemma_directed_push_plain(g.code, x);
    assert forall|l: Label| #[trigger] label_inv(st.allocated, st.stack, g.code.push(x), l) by {
        assert(label_inv(st.allocated, st.stack, g.code, l));
        lemma_count_push(g.code, x, l);
    }
}

/// After any number of words that raise no error, the parser has given out
/// no more identifiers than it has seen words, and the generator agrees with
/// it on the tokens made so far.
pub proof fn lemma_run_agrees(words: Seq<WordView>, n: int)
    requires
        0 <= n <= u64::MAX,
        run(words, n) is Ok,
    ensures
        run(words, n)->Ok_0.allocated <= n,
        agrees(run(words, n)->Ok_0),
    decreases n,
{
    if n <= 0 {
        let st = run(words, n)->Ok_0;
        assert forall|l: Label| #[trigger] label_inv(0, st.stack, Seq::<Instr>::empty(), l) by {}
    } else {
        lemma_run_agrees(words, n - 1);
        let st = run(words, n - 1)->Ok_0;
        let w = words[n - 1];
        if !commented(words, n - 1) {
            match classify_spec(w.text) {
                None => {},
                Some(WordClass::Comment) => {},
                Some(WordClass::Simple(kind)) => {
                    lemma_simple_carries_no_block(w.text);
                    lemma_plain_token_agrees(st, TokenView { kind: kind, word: w });
                },
                Some(WordClass::Block(b)) => {
                    let kind = resolve_spec(b, st.stack, st.allocated).unwrap();
                    let g = lowered(st.tokens)->Ok_0;
                    let st2 = run(words, n)->Ok_0;
                    lemma_lowered_push(st.tokens, TokenView { kind: kind, word: w });
                    lemma_block_word_keeps_direction(st.allocated, st.stack, g.code, b);
                    let code2 = g.code + lower_token(st.stack, kind);
                    assert forall|l: Label| #[trigger]
                        label_inv(st2.allocated, st2.stack, code2, l) by {
                        lemma_block_word_keeps_label(st.allocated, st.stack, g.code, b, l);
                    }
                },
            }
        }
    }
}

/// The tokens of a program that the parser accepts are accepted by the
/// generator too.
pub proof fn lemma_parsed_program_lowers(words: Seq<WordView>)
    requires
        words.len() <= u64::MAX,
        parse_spec(words) is Ok,
    ensures
        lower_spec(parse_spec(words)->Ok_0) is Ok,
{
    lemma_run_agrees(words, words.len() as int);
}

/// In the code of a program that the parser accepts, no label is marked
/// twice, and every label is the target of as many jumps as it has marks:
/// of one jump if it is marked, of none if it is not.
pub proof fn lemma_labels_paired(words: Seq<WordView>, l: Label)
    requires
        words.len() <= u64::MAX,
        parse_spec(words) is Ok,
    ensures
        mark_count(lower_spec(parse_spec(words)->Ok_0)->Ok_0, l) <= 1,
        jump_count(lower_spec(parse_spec(words)->Ok_0)->Ok_0, l) == mark_count(
            lower_spec(parse_spec(words)->Ok_0)->Ok_0,
            l,
        ),
{
    lemma_run_agrees(words, words.len() as int);
    let st = run(words, words.len() as int)->Ok_0;
    let g = lowered(st.tokens)->Ok_0;
    assert(label_inv(st.allocated, st.stack, g.code, l));
}

/// In the code of a program that the parser accepts, the jump to the top
/// of a loop stands after the mark of its label, and every other jump stands
/// before the mark of its label.
pub proof fn lemma_jumps_directed(words: Seq<WordView>)
    requires
        words.len() <= u64::MAX,
        parse_spec(words) is Ok,
    ensures
        directed(lower_spec(parse_spec(words)->Ok_0)->Ok_0),
{
    lemma_run_agrees(words, words.len() as int);
}

/// Every jump that only a zero takes leads to the end of an `if` branch or
/// of a loop, and every other jump leads past an `else` branch or to the top
/// of a loop.
pub open spec fn jumps_fit(code: Seq<Instr>) -> bool {
    forall|i: int|
        0 <= i < code.len() ==> match #[trigger] code[i] {
            Instr::JumpIfZero(l) => l.kind == LabelKind::EndIf || l.kind == LabelKind::EndWhile,
            Instr::Jump(l) => l.kind == LabelKind::EndElse || l.kind == LabelKind::LoopTop,
            _ => true,
        }
}

/// Whatever tokens the generator accepts, each kind of jump leads to the
/// kinds of label that are made for it.
pub proof fn lemma_jumps_fit(tokens: Seq<TokenView>, n: int)
    requires
        lower_run(tokens, n) is Ok,
    ensures
        jumps_fit(lower_run(tokens, n)->Ok_0.code),
    decreases n,
{
    if n > 0 {
        lemma_jumps_fit(tokens, n - 1);
    }
}

/// What the generator has emitted after `k` tokens stays at the beginning
/// of what it has emitted after more.
pub proof fn lemma_code_grows(tokens: Seq<TokenView>, k: int, n: int)
    requires
        0 <= k <= n,
        lower_run(tokens, n) is Ok,
    ensures
        lower_run(tokens, k) is Ok,
        lower_run(tokens, k)->Ok_0.code.len() <= lower_run(tokens, n)->Ok_0.code.len(),
        lower_run(tokens, n)->Ok_0.code.take(lower_run(tokens, k)->Ok_0.code.len() as int)
            == lower_run(tokens, k)->Ok_0.code,
    decreases n - k,
{
    let whole = lower_run(tokens, n)->Ok_0.code;
    if k < n {
        lemma_code_grows(tokens, k, n - 1);
        let shorter = lower_run(tokens, n - 1)->Ok_0.code;
        let early = lower_run(tokens, k)->Ok_0.code;
        assert(whole.take(shorter.len() as int) =~= shorter);
        assert(whole.take(early.len() as int) =~= shorter.take(early.len() as int));
    } else {
        assert(whole.take(whole.len() as int) =~= whole);
    }
}

/// The beginning of a code holds no more marks of a label, and no more jumps
/// to it, than the whole.
proof fn lemma_count_prefix(code: Seq<Instr>, m: int, l: Label)
    requires
        0 <= m <= code.len(),
    ensures
        mark_count(code.take(m), l) <= mark_count(code, l),
        jump_count(code.take(m), l) <= jump_count(code, l),
    decreases code.len() - m,
{
    if m < code.len() {
        lemma_count_prefix(code.drop_last(), m, l);
        assert(code.drop_last().take(m) =~= code.take(m));
    } else {
        assert(code.take(m) =~= code);
    }
}

/// The label to which a token of kind `t` jumps when it is lowered, if it
/// is an `if`, an `else` or a `do`; the label that it marks, if it is a
/// `while`.
pub open spec fn own_label(t: TokenKind) -> Option<Label> {
    match t {
        TokenKind::If(id) => Some(Label { kind: LabelKind::EndIf, id: id }),
        TokenKind::Else(id) => Some(Label { kind: LabelKind::EndElse, id: id }),
        TokenKind::While(id) => Some(Label { kind: LabelKind::LoopTop, id: id }),
        TokenKind::Do(id) => Some(Label { kind: LabelKind::EndWhile, id: id }),
        _ => None,
    }
}

/// In the code of a program that the parser accepts, the label of every
/// `if`, `else`, `while` and `do` is marked once and is the target of one
/// jump: the end of the `if` branch, the end of the `else` branch, the top of
/// the loop and the end of the loop.
pub proof fn lemma_block_token_has_label(words: Seq<WordView>, p: int)
    requires
        words.len() <= u64::MAX,
        parse_spec(words) is Ok,
        0 <= p < parse_spec(words)->Ok_0.len(),
        own_label(parse_spec(words)->Ok_0[p].kind) is Some,
    ensures
        mark_count(
            lower_spec(parse_spec(words)->Ok_0)->Ok_0,
            own_label(parse_spec(words)->Ok_0[p].kind)->Some_0,
        ) == 1,
        jump_count(
            lower_spec(parse_spec(words)->Ok_0)->Ok_0,
            own_label(parse_spec(words)->Ok_0[p].kind)->Some_0,
        ) == 1,
{
    let tokens = parse_spec(words)->Ok_0;
    let l = own_label(tokens[p].kind)->Some_0;
    lemma_parsed_program_lowers(words);
    lemma_labels_paired(words, l);
    let code = lower_spec(tokens)->Ok_0;
    lemma_code_grows(tokens, p + 1, tokens.len() as int);
    lemma_code_grows(tokens, p, p + 1);
    let before = lower_run(tokens, p)->Ok_0;
    let after = lower_run(tokens, p + 1)->Ok_0;
    lemma_count_prefix(code, after.code.len() as int, l);
    let x = lower_token(before.stack, tokens[p].kind)[0];
    match tokens[p].kind {
        TokenKind::Else(id) => {
            let y = Instr::Mark(Label { kind: LabelKind::EndIf, id: id });
            assert(after.code =~= before.code.push(x).push(y));
            lemma_count_push(before.code, x, l);
            lemma_count_push(before.code.push(x), y, l);
        },
        _ => {
            assert(after.code =~= before.code.push(x));
            lemma_count_push(before.code, x, l);
        },
    }
}

} // verus!
