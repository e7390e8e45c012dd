use stackc::error::{CompileError, ErrorKind};
use stackc::lexer::{lex, Word};
use stackc::parser::parse;
use stackc::token::{Token, TokenKind};

fn kinds(text: &str) -> Vec<TokenKind> {
    parse(lex(text, "prog.st")).unwrap().iter().map(|t| t.kind).collect()
}

fn failure(text: &str) -> CompileError {
    parse(lex(text, "prog.st")).unwrap_err()
}

fn word(text: &str, line: usize, col: usize) -> Word {
    Word { text: text.to_string(), file: "prog.st".to_string(), line, col }
}

#[test]
fn no_words_give_no_tokens() {
    assert_eq!(parse(Vec::new()), Ok(Vec::new()));
}

#[test]
fn tokens_keep_their_words() {
    assert_eq!(
        parse(lex("2 3\n+ dump", "prog.st")),
        Ok(vec![
            Token { kind: TokenKind::IntegerLiteral(2), word: word("2", 1, 0) },
            Token { kind: TokenKind::IntegerLiteral(3), word: word("3", 1, 2) },
            Token { kind: TokenKind::Add, word: word("+", 2, 0) },
            Token { kind: TokenKind::Dump, word: word("dump", 2, 2) },
        ])
    );
}

#[test]
fn integer_words_become_literals_with_their_value() {
    assert_eq!(
        kinds("0 -7 +8 2147483647 -2147483648 true false"),
        vec![
            TokenKind::IntegerLiteral(0),
            TokenKind::IntegerLiteral(-7),
            TokenKind::IntegerLiteral(8),
            TokenKind::IntegerLiteral(i32::MAX),
            TokenKind::IntegerLiteral(i32::MIN),
            TokenKind::IntegerLiteral(1),
            TokenKind::IntegerLiteral(0),
        ]
    );
}

#[test]
fn every_operator_becomes_its_token() {
    assert_eq!(
        kinds("+ - * / dup drop swp rot over = > < dump asciidump"),
        vec![
            TokenKind::Add,
            TokenKind::Sub,
            TokenKind::Mul,
            TokenKind::Div,
            TokenKind::Dup,
            TokenKind::Drop,
            TokenKind::Swap,
            TokenKind::Rotate,
            TokenKind::Over,
            TokenKind::Equal,
            TokenKind::Greater,
            TokenKind::Less,
            TokenKind::Dump,
            TokenKind::AsciiDump,
        ]
    );
}

#[test]
fn if_and_end_share_one_identifier() {
    assert_eq!(
        kinds("1 if 10 dump end"),
        vec![
            TokenKind::IntegerLiteral(1),
            TokenKind::If(1),
            TokenKind::IntegerLiteral(10),
            TokenKind::Dump,
            TokenKind::End(1),
        ]
    );
}

#[test]
fn if_else_and_end_share_one_identifier() {
    assert_eq!(
        kinds("1 if 10 else 20 end"),
        vec![
            TokenKind::IntegerLiteral(1),
            TokenKind::If(1),
            TokenKind::IntegerLiteral(10),
            TokenKind::Else(1),
            TokenKind::IntegerLiteral(20),
            TokenKind::End(1),
        ]
    );
}

#[test]
fn do_brings_an_identifier_of_its_own() {
    assert_eq!(
        kinds("while 1 do 2 end"),
        vec![
            TokenKind::While(1),
            TokenKind::IntegerLiteral(1),
            TokenKind::Do(2),
            TokenKind::IntegerLiteral(2),
            TokenKind::End(2),
        ]
    );
}

#[test]
fn identifiers_count_up_in_the_order_of_the_text() {
    assert_eq!(
        kinds("if if end else while do end end if end"),
        vec![
            TokenKind::If(1),
            TokenKind::If(2),
            TokenKind::End(2),
            TokenKind::Else(1),
            TokenKind::While(3),
            TokenKind::Do(4),
            TokenKind::End(4),
            TokenKind::End(1),
            TokenKind::If(5),
            TokenKind::End(5),
        ]
    );
}

#[test]
fn a_block_in_the_condition_of_a_loop_keeps_the_loop_apart() {
    assert_eq!(
        kinds("while 1 if 1 else 0 end do end"),
        vec![
            TokenKind::While(1),
            TokenKind::IntegerLiteral(1),
            TokenKind::If(2),
            TokenKind::IntegerLiteral(1),
            TokenKind::Else(2),
            TokenKind::IntegerLiteral(0),
            TokenKind::End(2),
            TokenKind::Do(3),
            TokenKind::End(3),
        ]
    );
}

#[test]
fn rem_hides_the_rest_of_its_line() {
    assert_eq!(
        kinds("1 rem 2 nonsense if\n3"),
        vec![TokenKind::IntegerLiteral(1), TokenKind::IntegerLiteral(3)]
    );
}

#[test]
fn rem_inside_a_comment_changes_nothing() {
    assert_eq!(kinds("rem a rem b\n4 rem\n5"), vec![
        TokenKind::IntegerLiteral(4),
        TokenKind::IntegerLiteral(5),
    ]);
}

#[test]
fn rem_as_the_last_word_of_a_line_hides_nothing_of_the_next() {
    assert_eq!(kinds("rem\n7"), vec![TokenKind::IntegerLiteral(7)]);
}

#[test]
fn a_comment_ends_where_the_line_number_changes() {
    let words = vec![word("rem", 1, 0), word("x", 1, 4), word("1", 2, 0), word("rem", 2, 2),
        word("y", 2, 6), word("2", 1, 0)];
    let tokens = parse(words).unwrap();
    assert_eq!(
        tokens.iter().map(|t| t.kind).collect::<Vec<_>>(),
        vec![TokenKind::IntegerLiteral(1), TokenKind::IntegerLiteral(2)]
    );
}

#[test]
fn a_first_word_on_line_zero_is_read() {
    let tokens = parse(vec![word("5", 0, 0), word("rem", 0, 2), word("6", 0, 6)]).unwrap();
    assert_eq!(tokens.iter().map(|t| t.kind).collect::<Vec<_>>(), vec![
        TokenKind::IntegerLiteral(5),
    ]);
}

#[test]
fn an_unknown_word_is_an_invalid_token() {
    let e = failure("1 2 foo 3");
    assert_eq!(e, CompileError { kind: ErrorKind::InvalidToken, word: word("foo", 1, 4) });
}

#[test]
fn a_number_too_large_is_an_invalid_token() {
    let e = failure("2147483648");
    assert_eq!(e.kind, ErrorKind::InvalidToken);
    assert_eq!(e.word.text, "2147483648");
}

#[test]
fn do_on_an_empty_stack_is_unexpected() {
    let e = failure("1 do 2 end");
    assert_eq!(e, CompileError { kind: ErrorKind::UnexpectedDo, word: word("do", 1, 2) });
}

#[test]
fn do_inside_an_if_is_unexpected() {
    let e = failure("1 if do end");
    assert_eq!(e, CompileError { kind: ErrorKind::UnexpectedDo, word: word("do", 1, 5) });
}

#[test]
fn a_second_do_is_unexpected() {
    let e = failure("while 1 do 2 do end");
    assert_eq!(e, CompileError { kind: ErrorKind::UnexpectedDo, word: word("do", 1, 13) });
}

#[test]
fn end_on_an_empty_stack_is_unexpected() {
    let e = failure("1 end");
    assert_eq!(e, CompileError { kind: ErrorKind::UnexpectedEnd, word: word("end", 1, 2) });
}

#[test]
fn one_end_too_many_is_unexpected() {
    let e = failure("1 if end\nend");
    assert_eq!(e, CompileError { kind: ErrorKind::UnexpectedEnd, word: word("end", 2, 0) });
}

#[test]
fn end_of_a_while_without_do_is_unexpected() {
    let e = failure("while 1 end");
    assert_eq!(e, CompileError { kind: ErrorKind::UnexpectedEnd, word: word("end", 1, 8) });
}

#[test]
fn else_on_an_empty_stack_is_unmatched() {
    let e = failure("else");
    assert_eq!(e, CompileError { kind: ErrorKind::UnmatchedElse, word: word("else", 1, 0) });
}

#[test]
fn else_inside_a_loop_is_unmatched() {
    let e = failure("while 1 else");
    assert_eq!(e, CompileError { kind: ErrorKind::UnmatchedElse, word: word("else", 1, 8) });
    let e = failure("while 1 do else end");
    assert_eq!(e, CompileError { kind: ErrorKind::UnmatchedElse, word: word("else", 1, 11) });
}

#[test]
fn a_second_else_is_unmatched() {
    let e = failure("1 if 2 else 3 else 4 end");
    assert_eq!(e, CompileError { kind: ErrorKind::UnmatchedElse, word: word("else", 1, 14) });
}

#[test]
fn an_open_if_at_the_end_is_unterminated() {
    let e = failure("1 if 2 dump");
    assert_eq!(e, CompileError { kind: ErrorKind::UnterminatedBlock, word: word("if", 1, 2) });
}

#[test]
fn an_open_block_is_named_by_its_opening_word() {
    let e = failure("1 if 2\nelse 3");
    assert_eq!(e, CompileError { kind: ErrorKind::UnterminatedBlock, word: word("if", 1, 2) });
    let e = failure("while 1\n do 2");
    assert_eq!(e, CompileError { kind: ErrorKind::UnterminatedBlock, word: word("while", 1, 0) });
}

#[test]
fn the_innermost_open_block_is_the_one_named() {
    let e = failure("1 if\n  while 1 do\n    1 if 2 end");
    assert_eq!(e, CompileError { kind: ErrorKind::UnterminatedBlock, word: word("while", 2, 2) });
}

#[test]
fn an_open_block_before_a_final_comment_is_unterminated() {
    let e = failure("1 if rem end");
    assert_eq!(e, CompileError { kind: ErrorKind::UnterminatedBlock, word: word("if", 1, 2) });
}

#[test]
fn the_first_error_is_the_one_reported() {
    assert_eq!(failure("end foo").kind, ErrorKind::UnexpectedEnd);
    assert_eq!(failure("foo end").kind, ErrorKind::InvalidToken);
    assert_eq!(failure("if foo").kind, ErrorKind::InvalidToken);
    assert_eq!(failure("if do foo").kind, ErrorKind::UnexpectedDo);
    assert_eq!(failure("foo do").kind, ErrorKind::InvalidToken);
}

#[test]
fn errors_inside_comments_are_not_seen() {
    assert_eq!(kinds("1 rem end do else foo"), vec![TokenKind::IntegerLiteral(1)]);
}

#[test]
fn a_cloned_token_is_equal() {
    let t = Token { kind: TokenKind::If(3), word: word("if", 2, 4) };
    assert_eq!(t.clone(), t);
}
