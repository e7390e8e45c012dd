//! The parser: words to tokens, with blocks resolved.
//!
//! Every word outside a comment is classified. Each `if`, `while` and `do`
//! receives a fresh block identifier, counted from one in the order of the
//! text; an `else` and an `end` carry the identifier of the block on which
//! they act. The first word that cannot stand where it does ends the parse.

use vstd::prelude::*;
use crate::blocks::{apply, block_step, BlockKind, OpenBlock};
use crate::error::{CompileError, CompileErrorView, ErrorKind};
use crate::lexer::{word_views, Word, WordView};
use crate::token::{
    classify, classify_spec, int_literal, lemma_simple_carries_no_block, token_views, BlockWord,
    Token, TokenKind, TokenView, WordClass,
};

verus! {

/// What the parser knows after some words.
pub ghost struct ParseState {
    /// The tokens made so far.
    pub tokens: Seq<TokenView>,
    /// The blocks that are open, innermost last.
    pub stack: Seq<OpenBlock>,
    /// For each open block, the `if` or `while` that opened it.
    pub openers: Seq<WordView>,
    /// How many block identifiers have been given out.
    pub allocated: nat,
}

/// The state before the first word.
pub open spec fn initial_state() -> ParseState {
    ParseState { tokens: Seq::empty(), stack: Seq::empty(), openers: Seq::empty(), allocated: 0 }
}

/// The word at position `k` stands in a comment: it follows, on the same
/// line, a `rem` or a word that itself stands in a comment.
pub open spec fn commented(words: Seq<WordView>, k: int) -> bool
    decreases k,
{
    if k <= 0 || k >= words.len() {
        false
    } else {
        words[k].line == words[k - 1].line && (commented(words, k - 1) || classify_spec(
            words[k - 1].text,
        ) == Some(WordClass::Comment))
    }
}

/// The token kind for a block keyword: a fresh identifier for `if`, `while`
/// and `do`, that of the innermost open block for `else` and `end`.
pub open spec fn resolve_spec(b: BlockWord, stack: Seq<OpenBlock>, allocated: nat) -> Result<
    TokenKind,
    ErrorKind,
> {
    match b {
        BlockWord::If => Ok(TokenKind::If((allocated + 1) as u64)),
        BlockWord::While => Ok(TokenKind::While((allocated + 1) as u64)),
        BlockWord::Do => Ok(TokenKind::Do((allocated + 1) as u64)),
        BlockWord::Else => if stack.len() > 0 {
            Ok(TokenKind::Else(stack.last().id))
        } else {
            Err(ErrorKind::UnmatchedElse)
        },
        BlockWord::End => if stack.len() > 0 {
            Ok(TokenKind::End(stack.last().id))
        } else {
            Err(ErrorKind::UnexpectedEnd)
        },
    }
}

/// The keyword brings a fresh block identifier.
pub open spec fn takes_fresh_id(b: BlockWord) -> bool {
    b == BlockWord::If || b == BlockWord::While || b == BlockWord::Do
}

/// The opening words of the open blocks after the keyword `b`, written as
/// the word `w`, has acted.
pub open spec fn openers_after(openers: Seq<WordView>, b: BlockWord, w: WordView) -> Seq<
    WordView,
> {
    match b {
        BlockWord::If => openers.push(w),
        BlockWord::While => openers.push(w),
        BlockWord::End => openers.drop_last(),
        _ => openers,
    }
}

/// The state after a word that stands outside any comment, or the error
/// that the word raises.
pub open spec fn step(st: ParseState, w: WordView) -> Result<ParseState, CompileErrorView> {
    match classify_spec(w.text) {
        None => Err(CompileErrorView { kind: ErrorKind::InvalidToken, word: w }),
        Some(WordClass::Comment) => Ok(st),
        Some(WordClass::Simple(kind)) => Ok(
            ParseState { tokens: st.tokens.push(TokenView { kind: kind, word: w }), ..st },
        ),
        Some(WordClass::Block(b)) => match resolve_spec(b, st.stack, st.allocated) {
            Err(e) => Err(CompileErrorView { kind: e, word: w }),
            Ok(kind) => match block_step(st.stack, kind) {
                Err(e) => Err(CompileErrorView { kind: e, word: w }),
                Ok(stack) => Ok(
                    ParseState {
                        tokens: st.tokens.push(TokenView { kind: kind, word: w }),
                        stack: stack,
                        openers: openers_after(st.openers, b, w),
                        allocated: if takes_fresh_id(b) {
                            st.allocated + 1
                        } else {
                            st.allocated
                        },
                    },
                ),
            },
        },
    }
}

/// The state after the first `n` words, or the first error among them.
pub open spec fn run(words: Seq<WordView>, n: int) -> Result<ParseState, CompileErrorView>
    decreases n,
{
    if n <= 0 {
        Ok(initial_state())
    } else {
        match run(words, n - 1) {
            Err(e) => Err(e),
            Ok(st) => if commented(words, n - 1) {
                Ok(st)
            } else {
                step(st, words[n - 1])
            },
        }
    }
}

/// What [`parse`] returns for the words `words`: the first error among them;
/// or, if a block is still open after the last word, an unterminated block at
/// the word that opened the innermost one; or else the tokens.
pub open spec fn parse_spec(words: Seq<WordView>) -> Result<Seq<TokenView>, CompileErrorView> {
    match run(words, words.len() as int) {
        Err(e) => Err(e),
        Ok(st) => if st.stack.len() > 0 {
            Err(CompileErrorView { kind: ErrorKind::UnterminatedBlock, word: st.openers.last() })
        } else {
            Ok(st.tokens)
        },
    }
}

/// The mathematical value of what [`parse`] returns.
pub open spec fn parsed_view(r: Result<Vec<Token>, CompileError>) -> Result<
    Seq<TokenView>,
    CompileErrorView,
> {
    match r {
        Ok(tokens) => Ok(token_views(tokens@)),
        Err(e) => Err(e@),
    }
}

/// An error among the first `k` words is the error of any longer run.
pub proof fn lemma_error_persists(words: Seq<WordView>, k: int, n: int)
    requires
        0 <= k <= n,
        run(words, k) is Err,
    ensures
        run(words, n) == run(words, k),
    decreases n - k,
{
    if k < n {
        lemma_error_persists(words, k, n - 1);
    }
}

/// The token kind for a block keyword, given the open blocks and the number
/// of identifiers given out.
fn resolve(b: BlockWord, stack: &Vec<OpenBlock>, allocated: u64) -> (r: Result<
    TokenKind,
    ErrorKind,
>)
    requires
        allocated < u64::MAX,
    ensures
        r == resolve_spec(b, stack@, allocated as nat),
{
    let n: usize = stack.len();
    match b {
        BlockWord::If => Ok(TokenKind::If(allocated + 1)),
        BlockWord::While => Ok(TokenKind::While(allocated + 1)),
        BlockWord::Do => Ok(TokenKind::Do(allocated + 1)),
        BlockWord::Else => if n > 0 {
            Ok(TokenKind::Else(stack[n - 1].id))
        } else {
            Err(ErrorKind::UnmatchedElse)
        },
        BlockWord::End => if n > 0 {
            Ok(TokenKind::End(stack[n - 1].id))
        } else {
            Err(ErrorKind::UnexpectedEnd)
        },
    }
}

/// Turns words into tokens and resolves their blocks.
///
/// Words in a comment, and the `rem` that opens it, leave no token. The parse
/// ends at the first word that stands for nothing or that cannot stand where
/// it does, with that word in the error; a block left open at the end is
/// reported at the word that opened it. No tokens are returned then.
pub fn parse(words: Vec<Word>) -> (r: Result<Vec<Token>, CompileError>)
    ensures
        parsed_view(r) == parse_spec(word_views(words@)),
{
    let n: usize = words.len();
    let ghost wv = word_views(words@);
    let mut tokens: Vec<Token> = Vec::new();
    let mut stack: Vec<OpenBlock> = Vec::new();
    let mut openers: Vec<Word> = Vec::new();
    let mut allocated: u64 = 0;
    let mut in_comment: bool = false;
    let mut prev_line: usize = 0;
    let mut i: usize = 0;
    proof {
        assert(token_views(tokens@) =~= Seq::<TokenView>::empty());
        assert(word_views(openers@) =~= Seq::<WordView>::empty());
    }
    while i < n
        invariant
            i <= n,
            n == words@.len(),
            wv == word_views(words@),
            run(wv, i as int) == Ok::<ParseState, CompileErrorView>(
                ParseState {
                    tokens: token_views(tokens@),
                    stack: stack@,
                    openers: word_views(openers@),
                    allocated: allocated as nat,
                },
            ),
            allocated <= i,
            stack@.len() == openers@.len(),
            i == 0 ==> !in_comment,
            i > 0 ==> prev_line == words@[i - 1].line && in_comment == (commented(wv, i - 1)
                || classify_spec(wv[i - 1].text) == Some(WordClass::Comment)),
        decreases n - i,
    {
        let word: &Word = &words[i];
        assert(wv[i as int] == word@);
        let skip: bool = i > 0 && word.line == prev_line && in_comment;
        assert(skip == commented(wv, i as int));
        prev_line = word.line;
        if skip {
            in_comment = true;
        } else {
            match classify(word.text.as_str()) {
                None => {
                    proof {
                        lemma_error_persists(wv, i + 1, n as int);
                    }
                    return Err(CompileError { kind: ErrorKind::InvalidToken, word: word.clone() });
                },
                Some(WordClass::Comment) => {
                    in_comment = true;
                },
                Some(WordClass::Simple(kind)) => {
                    let token = Token { kind: kind, word: word.clone() };
                    proof {
                        assert(token_views(tokens@.push(token)) =~= token_views(tokens@).push(
                            token@,
                        ));
                    }
                    tokens.push(token);
                    in_comment = false;
                },
                Some(WordClass::Block(b)) => {
                    let kind: TokenKind = match resolve(b, &stack, allocated) {
                        Ok(kind) => kind,
                        Err(e) => {
                            proof {
                                lemma_error_persists(wv, i + 1, n as int);
                            }
                            return Err(CompileError { kind: e, word: word.clone() });
                        },
                    };
                    match apply(&mut stack, kind) {
                        Ok(()) => {},
                        Err(e) => {
                            proof {
                                lemma_error_persists(wv, i + 1, n as int);
                            }
                            return Err(CompileError { kind: e, word: word.clone() });
                        },
                    }
                    match b {
                        BlockWord::If => {
                            let opener = word.clone();
                            proof {
                                assert(word_views(openers@.push(opener)) =~= word_views(
                                    openers@,
                                ).push(opener@));
                            }
                            openers.push(opener);
                            allocated = allocated + 1;
                        },
                        BlockWord::While => {
                            let opener = word.clone();
                            proof {
                                assert(word_views(openers@.push(opener)) =~= word_views(
                                    openers@,
                                ).push(opener@));
                            }
                            openers.push(opener);
                            allocated = allocated + 1;
                        },
                        BlockWord::Do => {
                            allocated = allocated + 1;
                        },
                        BlockWord::Else => {},
                        BlockWord::End => {
                            proof {
                                assert(word_views(openers@.drop_last()) =~= word_views(
                                    openers@,
                                ).drop_last());
                            }
                            openers.pop();
                        },
                    }
                    let token = Token { kind: kind, word: word.clone() };
                    proof {
                        assert(token_views(tokens@.push(token)) =~= token_views(tokens@).push(
                            token@,
                        ));
                    }
                    tokens.push(token);
                    in_comment = false;
                },
            }
        }
        i += 1;
    }
    let open: usize = openers.len();
    if open > 0 {
        let opener: Word = openers[open - 1].clone();
        assert(word_views(openers@).last() == opener@);
        return Err(CompileError { kind: ErrorKind::UnterminatedBlock, word: opener });
    }
    Ok(tokens)
}

/// A word outside any comment whose text reads as a signed integer becomes
/// an integer literal with that value, whatever came before it.
pub proof fn lemma_integer_word_becomes_literal(words: Seq<WordView>, n: int, v: i32)
    requires
        0 < n <= words.len(),
        run(words, n - 1) is Ok,
        !commented(words, n - 1),
        int_literal(words[n - 1].text) == Some(v),
    ensures
        run(words, n) == Ok::<ParseState, CompileErrorView>(
            ParseState {
                tokens: run(words, n - 1)->Ok_0.tokens.push(
                    TokenView { kind: TokenKind::IntegerLiteral(v), word: words[n - 1] },
                ),
                ..run(words, n - 1)->Ok_0
            },
        ),
{
}

/// The kind `kind` is what a word of class `class` becomes.
pub open spec fn kind_fits(kind: TokenKind, class: Option<WordClass>) -> bool {
    match class {
        Some(WordClass::Simple(k)) => kind == k,
        Some(WordClass::Block(BlockWord::If)) => kind is If,
        Some(WordClass::Block(BlockWord::Else)) => kind is Else,
        Some(WordClass::Block(BlockWord::While)) => kind is While,
        Some(WordClass::Block(BlockWord::Do)) => kind is Do,
        Some(WordClass::Block(BlockWord::End)) => kind is End,
        _ => false,
    }
}

/// Every token that the parser makes is what the text of its own word
/// stands for, and its word is one of the words given.
pub proof fn lemma_tokens_are_classified(words: Seq<WordView>, n: int, k: int)
    requires
        0 <= n <= words.len(),
        run(words, n) is Ok,
        0 <= k < run(words, n)->Ok_0.tokens.len(),
    ensures
        kind_fits(
            run(words, n)->Ok_0.tokens[k].kind,
            classify_spec(run(words, n)->Ok_0.tokens[k].word.text),
        ),
        exists|j: int| 0 <= j < n && words[j] == run(words, n)->Ok_0.tokens[k].word,
    decreases n,
{
    if n > 0 {
        let st = run(words, n - 1)->Ok_0;
        if k < st.tokens.len() {
            lemma_tokens_are_classified(words, n - 1, k);
            let j = choose|j: int| 0 <= j < n - 1 && words[j] == st.tokens[k].word;
            assert(0 <= j < n && words[j] == run(words, n)->Ok_0.tokens[k].word);
        } else {
            assert(words[n - 1] == run(words, n)->Ok_0.tokens[k].word);
        }
    }
}

/// How many of the first `n` tokens brought a fresh block identifier.
pub open spec fn fresh_before(tokens: Seq<TokenView>, n: int) -> nat
    decreases n,
{
    if n <= 0 {
        0
    } else {
        fresh_before(tokens, n - 1) + match tokens[n - 1].kind {
            TokenKind::If(_) => 1nat,
            TokenKind::While(_) => 1nat,
            TokenKind::Do(_) => 1nat,
            _ => 0nat,
        }
    }
}

/// Counting fresh identifiers among the first tokens does not depend on the
/// tokens that follow.
proof fn lemma_fresh_before_prefix(a: Seq<TokenView>, b: Seq<TokenView>, k: int)
    requires
        0 <= k <= a.len() <= b.len(),
        forall|i: int| 0 <= i < a.len() ==> a[i] == b[i],
    ensures
        fresh_before(a, k) == fresh_before(b, k),
    decreases k,
{
    if k > 0 {
        lemma_fresh_before_prefix(a, b, k - 1);
    }
}

/// Block identifiers are given out in the order of the text, counted from
/// one: every `if`, `while` and `do` carries one more than the number of
/// such keywords before it.
pub proof fn lemma_ids_count_up(words: Seq<WordView>, n: int, k: int)
    requires
        0 <= n <= words.len(),
        n <= u64::MAX,
        run(words, n) is Ok,
        0 <= k < run(words, n)->Ok_0.tokens.len(),
    ensures
        run(words, n)->Ok_0.allocated == fresh_before(
            run(words, n)->Ok_0.tokens,
            run(words, n)->Ok_0.tokens.len() as int,
        ),
        run(words, n)->Ok_0.allocated <= n,
        match run(words, n)->Ok_0.tokens[k].kind {
            TokenKind::If(id) => id == fresh_before(run(words, n)->Ok_0.tokens, k) + 1,
            TokenKind::While(id) => id == fresh_before(run(words, n)->Ok_0.tokens, k) + 1,
            TokenKind::Do(id) => id == fresh_before(run(words, n)->Ok_0.tokens, k) + 1,
            _ => true,
        },
    decreases n,
{
    lemma_allocated_counts(words, n);
    if n > 0 {
        let st = run(words, n - 1)->Ok_0;
        let st2 = run(words, n)->Ok_0;
        lemma_allocated_counts(words, n - 1);
        if k < st.tokens.len() {
            lemma_ids_count_up(words, n - 1, k);
            lemma_fresh_before_prefix(st.tokens, st2.tokens, k);
        } else {
            lemma_fresh_before_prefix(st.tokens, st2.tokens, st.tokens.len() as int);
            lemma_simple_carries_no_block(words[n - 1].text);
        }
    }
}

/// The parser has given out as many identifiers as it has made tokens that
/// bring one, and no more than it has seen words.
proof fn lemma_allocated_counts(words: Seq<WordView>, n: int)
    requires
        0 <= n <= words.len(),
        run(words, n) is Ok,
    ensures
        run(words, n)->Ok_0.allocated == fresh_before(
            run(words, n)->Ok_0.tokens,
            run(words, n)->Ok_0.tokens.len() as int,
        ),
        run(words, n)->Ok_0.allocated <= n,
    decreases n,
{
    if n > 0 {
        let st = run(words, n - 1)->Ok_0;
        let st2 = run(words, n)->Ok_0;
        lemma_allocated_counts(words, n - 1);
        lemma_fresh_before_prefix(st.tokens, st2.tokens, st.tokens.len() as int);
        lemma_simple_carries_no_block(words[n - 1].text);
    }
}

/// An `end` that meets no open block is rejected as unexpected, at its own
/// word.
pub proof fn lemma_end_without_block(words: Seq<WordView>, n: int)
    requires
        0 < n <= words.len(),
        run(words, n - 1) is Ok,
        run(words, n - 1)->Ok_0.stack.len() == 0,
        !commented(words, n - 1),
        classify_spec(words[n - 1].text) == Some(WordClass::Block(BlockWord::End)),
    ensures
        parse_spec(words) == Err::<Seq<TokenView>, CompileErrorView>(
            CompileErrorView { kind: ErrorKind::UnexpectedEnd, word: words[n - 1] },
        ),
{
    lemma_error_persists(words, n, words.len() as int);
}

/// A `do` that meets no open block is rejected as unexpected, at its own
/// word.
pub proof fn lemma_do_without_block(words: Seq<WordView>, n: int)
    requires
        0 < n <= words.len(),
        run(words, n - 1) is Ok,
        run(words, n - 1)->Ok_0.stack.len() == 0,
        !commented(words, n - 1),
        classify_spec(words[n - 1].text) == Some(WordClass::Block(BlockWord::Do)),
    ensures
        parse_spec(words) == Err::<Seq<TokenView>, CompileErrorView>(
            CompileErrorView { kind: ErrorKind::UnexpectedDo, word: words[n - 1] },
        ),
{
    lemma_error_persists(words, n, words.len() as int);
}

/// A block that is open after the last word is rejected as unterminated, at
/// the word that opened the innermost such block.
pub proof fn lemma_open_block_at_end(words: Seq<WordView>)
    requires
        run(words, words.len() as int) is Ok,
        run(words, words.len() as int)->Ok_0.stack.len() > 0,
    ensures
        parse_spec(words) == Err::<Seq<TokenView>, CompileErrorView>(
            CompileErrorView {
                kind: ErrorKind::UnterminatedBlock,
                word: run(words, words.len() as int)->Ok_0.openers.last(),
            },
        ),
{
}

/// As long as no word reads `while`, no loop is open.
proof fn lemma_no_while_no_loop(words: Seq<WordView>, n: int)
    requires
        0 <= n <= words.len(),
        run(words, n) is Ok,
        forall|j: int|
            0 <= j < n ==> classify_spec(#[trigger] words[j].text) != Some(
                WordClass::Block(BlockWord::While),
            ),
    ensures
        forall|h: int|
            0 <= h < run(words, n)->Ok_0.stack.len() ==> (#[trigger] run(
                words,
                n,
            )->Ok_0.stack[h]).kind != BlockKind::While,
    decreases n,
{
    if n > 0 {
        lemma_no_while_no_loop(words, n - 1);
        let st = run(words, n - 1)->Ok_0;
        let st2 = run(words, n)->Ok_0;
        lemma_simple_carries_no_block(words[n - 1].text);
        assert(classify_spec(words[n - 1].text) != Some(WordClass::Block(BlockWord::While)));
        assert forall|h: int| 0 <= h < st2.stack.len() implies (#[trigger] st2.stack[h]).kind
            != BlockKind::While by {
            if h < st.stack.len() {
                assert(st.stack[h].kind != BlockKind::While);
            }
        }
    }
}

/// A `do` before which no word reads `while` is rejected as unexpected, at
/// its own word, if no word before it was rejected.
pub proof fn lemma_do_without_while(words: Seq<WordView>, n: int)
    requires
        0 < n <= words.len(),
        run(words, n - 1) is Ok,
        !commented(words, n - 1),
        classify_spec(words[n - 1].text) == Some(WordClass::Block(BlockWord::Do)),
        forall|j: int|
            0 <= j < n - 1 ==> classify_spec(#[trigger] words[j].text) != Some(
                WordClass::Block(BlockWord::While),
            ),
    ensures
        parse_spec(words) == Err::<Seq<TokenView>, CompileErrorView>(
            CompileErrorView { kind: ErrorKind::UnexpectedDo, word: words[n - 1] },
        ),
{
    lemma_no_while_no_loop(words, n - 1);
    let st = run(words, n - 1)->Ok_0;
    if st.stack.len() > 0 {
        assert(st.stack.last() == st.stack[st.stack.len() - 1]);
    }
    lemma_error_persists(words, n, words.len() as int);
}

} // verus!
