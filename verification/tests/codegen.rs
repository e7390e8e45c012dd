use stackc::assembly::{push_instr, render, Instr, Label, LabelKind};
use stackc::blocks::{apply, BlockKind, OpenBlock};
use stackc::codegen::{compile, lower};
use stackc::error::{CompileError, ErrorKind};
use stackc::lexer::{lex, Word};
use stackc::parser::parse;
use stackc::token::{Token, TokenKind};

const HEAD: &str = "format ELF64 executable\nentry start\nsegment readable executable\ndump:\n    enter 64, 0\n    mov qword[rbp-56], rdi\n    mov byte[rbp-16], 10\n    mov qword[rbp-8], 1\n.L:\n    mov rcx, qword[rbp-56]\n    mov rdx, -3689348814741910323\n    mov rax, rcx\n    mul rdx\n    shr rdx, 3\n    mov rax, rdx\n    sal rax, 2\n    add rax, rdx\n    add rax, rax\n    sub rcx, rax\n    mov rdx, rcx\n    mov eax, edx\n    lea edx, [rax+48]\n    mov eax, 32\n    sub rax, qword[rbp-8]\n    mov byte[rbp-48+rax], dl\n    add qword[rbp-8], 1\n    mov rax, qword[rbp-56]\n    mov rdx, -3689348814741910323\n    mul rdx\n    mov rax, rdx\n    shr rax, 3\n    mov qword[rbp-56], rax\n    cmp qword[rbp-56], 0\n    jne .L\n    mov eax, 33\n    sub rax, qword[rbp-8]\n    lea rdx, [rbp-48]\n    lea rcx, [rdx+rax]\n    mov rdx, qword[rbp-8]\n    mov rsi, rcx\n    mov rdi, 1\n    mov rax, 1\n    syscall\n    leave\n    ret\nasciidump:\n    push rdi\n    mov rax, 1\n    mov rdi, 1\n    mov rsi, rsp\n    mov rdx, 1\n    syscall\n    pop rdi\n    ret\nstart:\n";
const TAIL: &str = "exit:\n    mov rax, 60\n    pop rdi\n    syscall";

fn token(kind: TokenKind, text: &str, col: usize) -> Token {
    Token { kind, word: Word { text: text.to_string(), file: "t".to_string(), line: 1, col } }
}

fn tokens_of(kinds: &[TokenKind]) -> Vec<Token> {
    kinds.iter().enumerate().map(|(i, k)| token(*k, "w", i)).collect()
}

fn code_of(text: &str) -> Vec<Instr> {
    lower(&parse(lex(text, "prog.st")).unwrap()).unwrap()
}

fn label(kind: LabelKind, id: u64) -> Label {
    Label { kind, id }
}

fn text_of(i: Instr) -> String {
    let mut s = String::new();
    push_instr(&mut s, i);
    s
}

#[test]
fn no_tokens_give_no_code() {
    assert_eq!(lower(&Vec::new()), Ok(Vec::new()));
}

#[test]
fn an_empty_program_is_head_and_tail() {
    assert_eq!(render(&Vec::new()), format!("{}{}", HEAD, TAIL));
    assert_eq!(compile(Vec::new()), Ok(format!("{}{}", HEAD, TAIL)));
}

#[test]
fn every_operator_is_lowered_to_its_instruction() {
    assert_eq!(
        code_of("5 + - * / dup drop swp rot over = > < dump asciidump"),
        vec![
            Instr::Push(5),
            Instr::Add,
            Instr::Sub,
            Instr::Mul,
            Instr::Div,
            Instr::Dup,
            Instr::Drop,
            Instr::Swap,
            Instr::Rotate,
            Instr::Over,
            Instr::Equal,
            Instr::Greater,
            Instr::Less,
            Instr::Dump,
            Instr::AsciiDump,
        ]
    );
}

#[test]
fn if_end_is_one_jump_and_one_mark() {
    assert_eq!(
        code_of("1 if 10 dump end"),
        vec![
            Instr::Push(1),
            Instr::JumpIfZero(label(LabelKind::EndIf, 1)),
            Instr::Push(10),
            Instr::Dump,
            Instr::Mark(label(LabelKind::EndIf, 1)),
        ]
    );
}

#[test]
fn else_jumps_past_its_branch_and_marks_the_end_of_the_if_branch() {
    assert_eq!(
        code_of("1 if 10 dump else 20 dump end"),
        vec![
            Instr::Push(1),
            Instr::JumpIfZero(label(LabelKind::EndIf, 1)),
            Instr::Push(10),
            Instr::Dump,
            Instr::Jump(label(LabelKind::EndElse, 1)),
            Instr::Mark(label(LabelKind::EndIf, 1)),
            Instr::Push(20),
            Instr::Dump,
            Instr::Mark(label(LabelKind::EndElse, 1)),
        ]
    );
}

#[test]
fn a_loop_jumps_back_to_the_mark_of_its_while() {
    assert_eq!(
        code_of("while 1 do 2 dump end"),
        vec![
            Instr::Mark(label(LabelKind::LoopTop, 1)),
            Instr::Push(1),
            Instr::JumpIfZero(label(LabelKind::EndWhile, 2)),
            Instr::Push(2),
            Instr::Dump,
            Instr::Jump(label(LabelKind::LoopTop, 1)),
            Instr::Mark(label(LabelKind::EndWhile, 2)),
        ]
    );
}

#[test]
fn a_block_in_the_condition_does_not_move_the_top_of_the_loop() {
    assert_eq!(
        code_of("while 1 if 1 else 0 end do end"),
        vec![
            Instr::Mark(label(LabelKind::LoopTop, 1)),
            Instr::Push(1),
            Instr::JumpIfZero(label(LabelKind::EndIf, 2)),
            Instr::Push(1),
            Instr::Jump(label(LabelKind::EndElse, 2)),
            Instr::Mark(label(LabelKind::EndIf, 2)),
            Instr::Push(0),
            Instr::Mark(label(LabelKind::EndElse, 2)),
            Instr::JumpIfZero(label(LabelKind::EndWhile, 3)),
            Instr::Jump(label(LabelKind::LoopTop, 1)),
            Instr::Mark(label(LabelKind::EndWhile, 3)),
        ]
    );
}

#[test]
fn nested_loops_jump_back_each_to_its_own_top() {
    assert_eq!(
        code_of("while 1 do while 0 do end end"),
        vec![
            Instr::Mark(label(LabelKind::LoopTop, 1)),
            Instr::Push(1),
            Instr::JumpIfZero(label(LabelKind::EndWhile, 2)),
            Instr::Mark(label(LabelKind::LoopTop, 3)),
            Instr::Push(0),
            Instr::JumpIfZero(label(LabelKind::EndWhile, 4)),
            Instr::Jump(label(LabelKind::LoopTop, 3)),
            Instr::Mark(label(LabelKind::EndWhile, 4)),
            Instr::Jump(label(LabelKind::LoopTop, 1)),
            Instr::Mark(label(LabelKind::EndWhile, 2)),
        ]
    );
}

#[test]
fn every_label_is_marked_once_and_jumped_to_once() {
    let code = code_of(
        "1 if 2 if 3 else 4 end else while 1 if 0 end do 1 if else end end end \
         while 0 do end 1 if end",
    );
    let mut marks: Vec<Label> = Vec::new();
    let mut targets: Vec<Label> = Vec::new();
    for i in &code {
        match i {
            Instr::Mark(l) => marks.push(*l),
            Instr::Jump(l) => targets.push(*l),
            Instr::JumpIfZero(l) => targets.push(*l),
            _ => {}
        }
    }
    assert_eq!(marks.len(), 12);
    assert_eq!(targets.len(), 12);
    for (i, a) in marks.iter().enumerate() {
        for b in &marks[i + 1..] {
            assert_ne!(a, b);
        }
        assert_eq!(targets.iter().filter(|t| *t == a).count(), 1);
    }
}

#[test]
fn only_the_jump_to_the_top_of_a_loop_goes_backwards() {
    let code = code_of("while 1 if 1 else 0 end do 1 if 2 end end");
    for (at, i) in code.iter().enumerate() {
        let (target, back) = match i {
            Instr::Jump(l) => (*l, l.kind == LabelKind::LoopTop),
            Instr::JumpIfZero(l) => (*l, false),
            _ => continue,
        };
        let mark = code.iter().position(|m| *m == Instr::Mark(target)).unwrap();
        assert_eq!(mark < at, back);
    }
}

#[test]
fn lower_uses_the_identifiers_of_the_tokens() {
    let tokens = tokens_of(&[
        TokenKind::If(7),
        TokenKind::Else(8),
        TokenKind::End(9),
        TokenKind::While(20),
        TokenKind::Do(30),
        TokenKind::End(40),
    ]);
    assert_eq!(
        lower(&tokens),
        Ok(vec![
            Instr::JumpIfZero(label(LabelKind::EndIf, 7)),
            Instr::Jump(label(LabelKind::EndElse, 8)),
            Instr::Mark(label(LabelKind::EndIf, 8)),
            Instr::Mark(label(LabelKind::EndElse, 9)),
            Instr::Mark(label(LabelKind::LoopTop, 20)),
            Instr::JumpIfZero(label(LabelKind::EndWhile, 30)),
            Instr::Jump(label(LabelKind::LoopTop, 20)),
            Instr::Mark(label(LabelKind::EndWhile, 40)),
        ])
    );
}

#[test]
fn lower_lets_a_block_stay_open() {
    let tokens = tokens_of(&[TokenKind::IntegerLiteral(1), TokenKind::If(1)]);
    assert_eq!(
        lower(&tokens),
        Ok(vec![Instr::Push(1), Instr::JumpIfZero(label(LabelKind::EndIf, 1))])
    );
}

#[test]
fn lower_refuses_an_else_without_if() {
    let tokens = vec![token(TokenKind::Add, "+", 0), token(TokenKind::Else(1), "else", 2)];
    let e = lower(&tokens).unwrap_err();
    assert_eq!(e, CompileError { kind: ErrorKind::UnmatchedElse, word: tokens[1].word.clone() });
    let tokens = tokens_of(&[TokenKind::While(1), TokenKind::Else(1)]);
    assert_eq!(lower(&tokens).unwrap_err().kind, ErrorKind::UnmatchedElse);
    let tokens = tokens_of(&[TokenKind::If(1), TokenKind::Else(1), TokenKind::Else(1)]);
    assert_eq!(lower(&tokens).unwrap_err().kind, ErrorKind::UnmatchedElse);
}

#[test]
fn lower_refuses_a_do_without_while() {
    let tokens = vec![token(TokenKind::Do(1), "do", 5)];
    let e = lower(&tokens).unwrap_err();
    assert_eq!(e, CompileError { kind: ErrorKind::UnexpectedDo, word: tokens[0].word.clone() });
    let tokens = tokens_of(&[TokenKind::If(1), TokenKind::Do(2)]);
    assert_eq!(lower(&tokens).unwrap_err().kind, ErrorKind::UnexpectedDo);
}

#[test]
fn lower_refuses_an_end_without_block() {
    let tokens = vec![token(TokenKind::End(1), "end", 9)];
    let e = lower(&tokens).unwrap_err();
    assert_eq!(e, CompileError { kind: ErrorKind::UnexpectedEnd, word: tokens[0].word.clone() });
    let tokens = tokens_of(&[TokenKind::While(1), TokenKind::End(1)]);
    assert_eq!(lower(&tokens).unwrap_err().kind, ErrorKind::UnexpectedEnd);
}

#[test]
fn compile_refuses_what_lower_refuses() {
    let tokens = vec![token(TokenKind::IntegerLiteral(1), "1", 0), token(TokenKind::Do(1), "do", 2)];
    let word = tokens[1].word.clone();
    assert_eq!(compile(tokens), Err(CompileError { kind: ErrorKind::UnexpectedDo, word }));
}

#[test]
fn compile_writes_head_code_and_tail() {
    let tokens = tokens_of(&[TokenKind::IntegerLiteral(2), TokenKind::Dump]);
    assert_eq!(
        compile(tokens),
        Ok(format!("{}    push 2\n    pop rdi\n    call dump\n{}", HEAD, TAIL))
    );
}

#[test]
fn push_is_written_with_its_number() {
    assert_eq!(text_of(Instr::Push(0)), "    push 0\n");
    assert_eq!(text_of(Instr::Push(42)), "    push 42\n");
    assert_eq!(text_of(Instr::Push(-5)), "    push -5\n");
    assert_eq!(text_of(Instr::Push(i32::MAX)), "    push 2147483647\n");
    assert_eq!(text_of(Instr::Push(i32::MIN)), "    push -2147483648\n");
}

#[test]
fn arithmetic_takes_the_top_as_its_second_operand() {
    assert_eq!(text_of(Instr::Add), "    pop rbx\n    pop rax\n    add rax, rbx\n    push rax\n");
    assert_eq!(text_of(Instr::Sub), "    pop rbx\n    pop rax\n    sub rax, rbx\n    push rax\n");
    assert_eq!(text_of(Instr::Mul), "    pop rbx\n    pop rax\n    mul rbx\n    push rax\n");
    assert_eq!(text_of(Instr::Div), "    pop rbx\n    pop rax\n    div rbx\n    push rax\n");
}

#[test]
fn comparisons_push_one_or_zero() {
    let head = "    mov rcx, 0\n    mov rdx, 1\n    pop rax\n    pop rbx\n    cmp rax, rbx\n";
    assert_eq!(text_of(Instr::Equal), format!("{}    cmove rcx, rdx\n    push rcx\n", head));
    assert_eq!(text_of(Instr::Greater), format!("{}    cmovl rcx, rdx\n    push rcx\n", head));
    assert_eq!(text_of(Instr::Less), format!("{}    cmovg rcx, rdx\n    push rcx\n", head));
}

#[test]
fn stack_operators_move_registers() {
    assert_eq!(text_of(Instr::Dup), "    pop rax\n    push rax\n    push rax\n");
    assert_eq!(text_of(Instr::Drop), "    pop rax\n");
    assert_eq!(text_of(Instr::Swap), "    pop rax\n    pop rbx\n    push rax\n    push rbx\n");
    assert_eq!(
        text_of(Instr::Rotate),
        "    pop rax\n    pop rbx\n    pop rcx\n    push rbx\n    push rax\n    push rcx\n"
    );
    assert_eq!(
        text_of(Instr::Over),
        "    pop rax\n    pop rbx\n    push rbx\n    push rax\n    push rbx\n"
    );
}

#[test]
fn printing_calls_the_routines_of_the_head() {
    assert_eq!(text_of(Instr::Dump), "    pop rdi\n    call dump\n");
    assert_eq!(text_of(Instr::AsciiDump), "    pop rdi\n    call asciidump\n");
    assert!(HEAD.contains("\ndump:\n"));
    assert!(HEAD.contains("\nasciidump:\n"));
    assert!(HEAD.ends_with("start:\n"));
}

#[test]
fn jumps_and_marks_name_their_labels() {
    assert_eq!(
        text_of(Instr::JumpIfZero(label(LabelKind::EndIf, 1))),
        "    pop rax\n    test rax, rax\n    jz .ENDIF_1\n"
    );
    assert_eq!(
        text_of(Instr::JumpIfZero(label(LabelKind::EndWhile, 12))),
        "    pop rax\n    test rax, rax\n    jz .ENDWHILE_12\n"
    );
    assert_eq!(text_of(Instr::Jump(label(LabelKind::EndElse, 3))), "    jmp .ENDELSE_3\n");
    assert_eq!(text_of(Instr::Jump(label(LabelKind::LoopTop, 100))), "    jmp .WHILE_100\n");
    assert_eq!(text_of(Instr::Mark(label(LabelKind::EndIf, 10))), ".ENDIF_10:\n");
    assert_eq!(text_of(Instr::Mark(label(LabelKind::EndElse, 0))), ".ENDELSE_0:\n");
    assert_eq!(text_of(Instr::Mark(label(LabelKind::LoopTop, 7))), ".WHILE_7:\n");
    assert_eq!(
        text_of(Instr::Mark(label(LabelKind::EndWhile, u64::MAX))),
        ".ENDWHILE_18446744073709551615:\n"
    );
}

#[test]
fn push_instr_appends() {
    let mut s = String::from("start:\n");
    push_instr(&mut s, Instr::Drop);
    push_instr(&mut s, Instr::Mark(label(LabelKind::EndIf, 2)));
    assert_eq!(s, "start:\n    pop rax\n.ENDIF_2:\n");
}

#[test]
fn render_writes_the_instructions_in_order() {
    let code = vec![Instr::Push(1), Instr::Mark(label(LabelKind::LoopTop, 1)), Instr::Drop];
    assert_eq!(render(&code), format!("{}    push 1\n.WHILE_1:\n    pop rax\n{}", HEAD, TAIL));
}

#[test]
fn apply_opens_continues_and_closes_blocks() {
    let mut stack: Vec<OpenBlock> = Vec::new();
    assert_eq!(apply(&mut stack, TokenKind::If(1)), Ok(()));
    assert_eq!(stack, vec![OpenBlock { kind: BlockKind::If, id: 1, origin: 1 }]);
    assert_eq!(apply(&mut stack, TokenKind::Add), Ok(()));
    assert_eq!(stack.len(), 1);
    assert_eq!(apply(&mut stack, TokenKind::Else(1)), Ok(()));
    assert_eq!(stack, vec![OpenBlock { kind: BlockKind::Else, id: 1, origin: 1 }]);
    assert_eq!(apply(&mut stack, TokenKind::While(2)), Ok(()));
    assert_eq!(apply(&mut stack, TokenKind::Do(3)), Ok(()));
    assert_eq!(
        stack,
        vec![
            OpenBlock { kind: BlockKind::Else, id: 1, origin: 1 },
            OpenBlock { kind: BlockKind::Do, id: 3, origin: 2 },
        ]
    );
    assert_eq!(apply(&mut stack, TokenKind::End(3)), Ok(()));
    assert_eq!(apply(&mut stack, TokenKind::End(1)), Ok(()));
    assert_eq!(stack, Vec::new());
}

#[test]
fn apply_leaves_the_stack_alone_when_it_refuses() {
    let mut stack = vec![OpenBlock { kind: BlockKind::While, id: 4, origin: 4 }];
    let before = stack.clone();
    assert_eq!(apply(&mut stack, TokenKind::End(4)), Err(ErrorKind::UnexpectedEnd));
    assert_eq!(stack, before);
    assert_eq!(apply(&mut stack, TokenKind::Else(4)), Err(ErrorKind::UnmatchedElse));
    assert_eq!(stack, before);
    let mut stack = vec![OpenBlock { kind: BlockKind::Do, id: 5, origin: 4 }];
    let before = stack.clone();
    assert_eq!(apply(&mut stack, TokenKind::Do(6)), Err(ErrorKind::UnexpectedDo));
    assert_eq!(stack, before);
    let mut stack: Vec<OpenBlock> = Vec::new();
    assert_eq!(apply(&mut stack, TokenKind::End(1)), Err(ErrorKind::UnexpectedEnd));
    assert_eq!(apply(&mut stack, TokenKind::Do(1)), Err(ErrorKind::UnexpectedDo));
    assert_eq!(apply(&mut stack, TokenKind::Else(1)), Err(ErrorKind::UnmatchedElse));
    assert_eq!(stack, Vec::new());
}
