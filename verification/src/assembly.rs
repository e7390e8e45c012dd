//! The generated program: its instructions and their assembly text.
//!
//! The program keeps its operands on the machine stack. The text is written
//! for the flat assembler, as an executable for 64-bit Linux that talks to the
//! system by `syscall`.

use vstd::prelude::*;
use vstd::string::StringExecFns;
use crate::text::{
    decimal, lemma_decimal_tells_apart, push_decimal, push_signed_decimal, signed_decimal,
};

verus! {

/// What a label marks.
#[derive(Clone, Copy, Debug, PartialEq, Eq, Structural)]
pub enum LabelKind {
    /// The end of the branch taken when the condition of an `if` holds.
    EndIf,
    /// The end of the branch that follows an `else`.
    EndElse,
    /// The top of a loop, where its condition begins.
    LoopTop,
    /// The end of a loop.
    EndWhile,
}

/// A label: what it marks, and the identifier of the block it belongs to.
#[derive(Clone, Copy, Debug, PartialEq, Eq, Structural)]
pub struct Label {
    pub kind: LabelKind,
    pub id: u64,
}

/// One step of the generated program.
#[derive(Clone, Copy, Debug, PartialEq, Eq, Structural)]
pub enum Instr {
    /// Push a number.
    Push(i32),
    /// Pop `b`, pop `a`, push `a + b`.
    Add,
    /// Pop `b`, pop `a`, push `a - b`.
    Sub,
    /// Pop `b`, pop `a`, push `a * b`.
    Mul,
    /// Pop `b`, pop `a`, push `a / b`.
    Div,
    /// Push the top once more.
    Dup,
    /// Pop the top and forget it.
    Drop,
    /// Exchange the two topmost operands.
    Swap,
    /// Bring the third operand from the top to the top.
    Rotate,
    /// Push a copy of the second operand from the top.
    Over,
    /// Pop `b`, pop `a`, push one if `a = b` and zero if not.
    Equal,
    /// Pop `b`, pop `a`, push one if `a > b` and zero if not.
    Greater,
    /// Pop `b`, pop `a`, push one if `a < b` and zero if not.
    Less,
    /// Pop a number and print it in decimal, followed by a line feed.
    Dump,
    /// Pop a number and print its low byte as one character.
    AsciiDump,
    /// Pop a number and go to the label if the number is zero.
    JumpIfZero(Label),
    /// Go to the label.
    Jump(Label),
    /// The place that the label names.
    Mark(Label),
}

/// The letters with which the name of a label begins.
pub open spec fn label_prefix(kind: LabelKind) -> Seq<char> {
    match kind {
        LabelKind::EndIf => ".ENDIF_"@,
        LabelKind::EndElse => ".ENDELSE_"@,
        LabelKind::LoopTop => ".WHILE_"@,
        LabelKind::EndWhile => ".ENDWHILE_"@,
    }
}

/// The name of a label in the text: its prefix, then its identifier in
/// decimal.
pub open spec fn label_name(l: Label) -> Seq<char> {
    label_prefix(l.kind) + decimal(l.id as nat)
}

/// The assembly text of one instruction.
pub open spec fn instr_text(i: Instr) -> Seq<char> {
    match i {
        Instr::Push(v) => "    push "@ + signed_decimal(v as int) + "\n"@,
        Instr::Add => "    pop rbx\n    pop rax\n    add rax, rbx\n    push rax\n"@,
        Instr::Sub => "    pop rbx\n    pop rax\n    sub rax, rbx\n    push rax\n"@,
        Instr::Mul => "    pop rbx\n    pop rax\n    mul rbx\n    push rax\n"@,
        Instr::Div => "    pop rbx\n    pop rax\n    div rbx\n    push rax\n"@,
        Instr::Dup => "    pop rax\n    push rax\n    push rax\n"@,
        Instr::Drop => "    pop rax\n"@,
        Instr::Swap => "    pop rax\n    pop rbx\n    push rax\n    push rbx\n"@,
        Instr::Rotate => "    pop rax\n    pop rbx\n    pop rcx\n    push rbx\n    push rax\n    push rcx\n"@,
        Instr::Over => "    pop rax\n    pop rbx\n    push rbx\n    push rax\n    push rbx\n"@,
        Instr::Equal => "    mov rcx, 0\n    mov rdx, 1\n    pop rax\n    pop rbx\n    cmp rax, rbx\n    cmove rcx, rdx\n    push rcx\n"@,
        Instr::Greater => "    mov rcx, 0\n    mov rdx, 1\n    pop rax\n    pop rbx\n    cmp rax, rbx\n    cmovl rcx, rdx\n    push rcx\n"@,
        Instr::Less => "    mov rcx, 0\n    mov rdx, 1\n    pop rax\n    pop rbx\n    cmp rax, rbx\n    cmovg rcx, rdx\n    push rcx\n"@,
        Instr::Dump => "    pop rdi\n    call dump\n"@,
        Instr::AsciiDump => "    pop rdi\n    call asciidump\n"@,
        Instr::JumpIfZero(l) => "    pop rax\n    test rax, rax\n    jz "@ + label_name(l) + "\n"@,
        Instr::Jump(l) => "    jmp "@ + label_name(l) + "\n"@,
        Instr::Mark(l) => label_name(l) + ":\n"@,
    }
}

/// The assembly text of a sequence of instructions: the text of each, in
/// order.
pub open spec fn code_text(code: Seq<Instr>) -> Seq<char>
    decreases code.len(),
{
    if code.len() == 0 {
        Seq::empty()
    } else {
        code_text(code.drop_last()) + instr_text(code.last())
    }
}

/// What stands before the code of every program: the directives for the
/// executable, the routine `dump` that prints a number in decimal, the
/// routine `asciidump` that prints one byte, and the entry label.
pub open spec fn preamble() -> Seq<char> {
    "format ELF64 executable\nentry start\nsegment readable executable\ndump:\n    enter 64, 0\n    mov qword[rbp-56], rdi\n    mov byte[rbp-16], 10\n    mov qword[rbp-8], 1\n.L:\n    mov rcx, qword[rbp-56]\n    mov rdx, -3689348814741910323\n    mov rax, rcx\n    mul rdx\n    shr rdx, 3\n    mov rax, rdx\n    sal rax, 2\n    add rax, rdx\n    add rax, rax\n    sub rcx, rax\n    mov rdx, rcx\n    mov eax, edx\n    lea edx, [rax+48]\n    mov eax, 32\n    sub rax, qword[rbp-8]\n    mov byte[rbp-48+rax], dl\n    add qword[rbp-8], 1\n    mov rax, qword[rbp-56]\n    mov rdx, -3689348814741910323\n    mul rdx\n    mov rax, rdx\n    shr rax, 3\n    mov qword[rbp-56], rax\n    cmp qword[rbp-56], 0\n    jne .L\n    mov eax, 33\n    sub rax, qword[rbp-8]\n    lea rdx, [rbp-48]\n    lea rcx, [rdx+rax]\n    mov rdx, qword[rbp-8]\n    mov rsi, rcx\n    mov rdi, 1\n    mov rax, 1\n    syscall\n    leave\n    ret\nasciidump:\n    push rdi\n    mov rax, 1\n    mov rdi, 1\n    mov rsi, rsp\n    mov rdx, 1\n    syscall\n    pop rdi\n    ret\nstart:\n"@
}

/// What stands after the code of every program: the process ends, with the
/// top of the operand stack as its exit status.
pub open spec fn epilogue() -> Seq<char> {
    "exit:\n    mov rax, 60\n    pop rdi\n    syscall"@
}

/// The whole assembly text of a program with the code `code`.
pub open spec fn program_text(code: Seq<Instr>) -> Seq<char> {
    preamble() + code_text(code) + epilogue()
}

/// Appends the name of the label `l` to `out`.
fn push_label(out: &mut String, l: Label)
    ensures
        final(out)@ == old(out)@ + label_name(l),
{
    match l.kind {
        LabelKind::EndIf => out.append(".ENDIF_"),
        LabelKind::EndElse => out.append(".ENDELSE_"),
        LabelKind::LoopTop => out.append(".WHILE_"),
        LabelKind::EndWhile => out.append(".ENDWHILE_"),
    }
    push_decimal(out, l.id);
    assert(old(out)@ + label_prefix(l.kind) + decimal(l.id as nat) =~= old(out)@ + label_name(l));
}

/// Appends the assembly text of the instruction `i` to `out`.
pub fn push_instr(out: &mut String, i: Instr)
    ensures
        final(out)@ == old(out)@ + instr_text(i),
{
    match i {
        Instr::Push(v) => {
            out.append("    push ");
            push_signed_decimal(out, v);
            out.append("\n");
            assert(old(out)@ + "    push "@ + signed_decimal(v as int) + "\n"@ =~= old(out)@
                + instr_text(i));
        },
        Instr::Add => out.append("    pop rbx\n    pop rax\n    add rax, rbx\n    push rax\n"),
        Instr::Sub => out.append("    pop rbx\n    pop rax\n    sub rax, rbx\n    push rax\n"),
        Instr::Mul => out.append("    pop rbx\n    pop rax\n    mul rbx\n    push rax\n"),
        Instr::Div => out.append("    pop rbx\n    pop rax\n    div rbx\n    push rax\n"),
        Instr::Dup => out.append("    pop rax\n    push rax\n    push rax\n"),
        Instr::Drop => out.append("    pop rax\n"),
        Instr::Swap => out.append("    pop rax\n    pop rbx\n    push rax\n    push rbx\n"),
        Instr::Rotate => out.append(
            "    pop rax\n    pop rbx\n    pop rcx\n    push rbx\n    push rax\n    push rcx\n",
        ),
        Instr::Over => out.append(
            "    pop rax\n    pop rbx\n    push rbx\n    push rax\n    push rbx\n",
        ),
        Instr::Equal => out.append(
            "    mov rcx, 0\n    mov rdx, 1\n    pop rax\n    pop rbx\n    cmp rax, rbx\n    cmove rcx, rdx\n    push rcx\n",
        ),
        Instr::Greater => out.append(
            "    mov rcx, 0\n    mov rdx, 1\n    pop rax\n    pop rbx\n    cmp rax, rbx\n    cmovl rcx, rdx\n    push rcx\n",
        ),
        Instr::Less => out.append(
            "    mov rcx, 0\n    mov rdx, 1\n    pop rax\n    pop rbx\n    cmp rax, rbx\n    cmovg rcx, rdx\n    push rcx\n",
        ),
        Instr::Dump => out.append("    pop rdi\n    call dump\n"),
        Instr::AsciiDump => out.append("    pop rdi\n    call asciidump\n"),
        Instr::JumpIfZero(l) => {
            out.append("    pop rax\n    test rax, rax\n    jz ");
            push_label(out, l);
            out.append("\n");
            assert(old(out)@ + "    pop rax\n    test rax, rax\n    jz "@ + label_name(l) + "\n"@
                =~= old(out)@ + instr_text(i));
        },
        Instr::Jump(l) => {
            out.append("    jmp ");
            push_label(out, l);
            out.append("\n");
            assert(old(out)@ + "    jmp "@ + label_name(l) + "\n"@ =~= old(out)@ + instr_text(i));
        },
        Instr::Mark(l) => {
            push_label(out, l);
            out.append(":\n");
            assert(old(out)@ + label_name(l) + ":\n"@ =~= old(out)@ + instr_text(i));
        },
    }
}

/// Writes the whole assembly text of a program with the code `code`.
pub fn render(code: &Vec<Instr>) -> (text: String)
    ensures
        text@ == program_text(code@),
{
    let mut text: String = String::from_str(
        "format ELF64 executable\nentry start\nsegment readable executable\ndump:\n    enter 64, 0\n    mov qword[rbp-56], rdi\n    mov byte[rbp-16], 10\n    mov qword[rbp-8], 1\n.L:\n    mov rcx, qword[rbp-56]\n    mov rdx, -3689348814741910323\n    mov rax, rcx\n    mul rdx\n    shr rdx, 3\n    mov rax, rdx\n    sal rax, 2\n    add rax, rdx\n    add rax, rax\n    sub rcx, rax\n    mov rdx, rcx\n    mov eax, edx\n    lea edx, [rax+48]\n    mov eax, 32\n    sub rax, qword[rbp-8]\n    mov byte[rbp-48+rax], dl\n    add qword[rbp-8], 1\n    mov rax, qword[rbp-56]\n    mov rdx, -3689348814741910323\n    mul rdx\n    mov rax, rdx\n    shr rax, 3\n    mov qword[rbp-56], rax\n    cmp qword[rbp-56], 0\n    jne .L\n    mov eax, 33\n    sub rax, qword[rbp-8]\n    lea rdx, [rbp-48]\n    lea rcx, [rdx+rax]\n    mov rdx, qword[rbp-8]\n    mov rsi, rcx\n    mov rdi, 1\n    mov rax, 1\n    syscall\n    leave\n    ret\nasciidump:\n    push rdi\n    mov rax, 1\n    mov rdi, 1\n    mov rsi, rsp\n    mov rdx, 1\n    syscall\n    pop rdi\n    ret\nstart:\n",
    );
    let n: usize = code.len();
    let mut i: usize = 0;
    assert(code@.take(0) =~= Seq::<Instr>::empty());
    assert(preamble() + code_text(code@.take(0)) =~= preamble());
    while i < n
        invariant
            i <= n,
            n == code@.len(),
            text@ == preamble() + code_text(code@.take(i as int)),
        decreases n - i,
    {
        proof {
            let upto = code@.take(i + 1);
            assert(upto.drop_last() =~= code@.take(i as int));
            assert(upto.last() == code@[i as int]);
            assert(preamble() + code_text(code@.take(i as int)) + instr_text(code@[i as int])
                =~= preamble() + code_text(upto));
        }
        push_instr(&mut text, code[i]);
        i += 1;
    }
    assert(code@.take(n as int) =~= code@);
    text.append("exit:\n    mov rax, 60\n    pop rdi\n    syscall");
    text
}

/// Two labels with the same name are the same label: labels of different
/// kinds differ in their prefixes, and labels of one kind in the numbers that
/// follow.
pub proof fn lemma_label_names_tell_apart(a: Label, b: Label)
    requires
        label_name(a) == label_name(b),
    ensures
        a == b,
{
    reveal_strlit(".ENDIF_");
    reveal_strlit(".ENDELSE_");
    reveal_strlit(".WHILE_");
    reveal_strlit(".ENDWHILE_");
    let pa = label_prefix(a.kind);
    let pb = label_prefix(b.kind);
    let da = decimal(a.id as nat);
    let db = decimal(b.id as nat);
    assert(label_name(a)[1] == pa[1]);
    assert(label_name(a)[4] == pa[4]);
    assert(label_name(b)[1] == pb[1]);
    assert(label_name(b)[4] == pb[4]);
    assert(a.kind == b.kind);
    assert((pa + da).skip(pa.len() as int) =~= da);
    assert((pb + db).skip(pb.len() as int) =~= db);
    lemma_decimal_tells_apart(a.id as nat, b.id as nat);
}

} // verus!
