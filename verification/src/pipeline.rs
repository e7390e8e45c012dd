//! From source text to assembly text in one call.

use vstd::prelude::*;
use crate::assembly::program_text;
use crate::codegen::{compile, compile_spec, compiled_view, lower_spec};
use crate::error::{CompileError, CompileErrorView};
use crate::labels::lemma_parsed_program_lowers;
use crate::lexer::{lemma_fewer_words_than_chars, lex, lex_spec};
use crate::parser::{parse, parse_spec};

verus! {

/// What [`compile_source`] returns for the text `text` of the file `file`:
/// the error of the parser, if it has one, or else what the generator makes
/// of the tokens.
pub open spec fn compile_source_spec(text: Seq<char>, file: Seq<char>) -> Result<
    Seq<char>,
    CompileErrorView,
> {
    match parse_spec(lex_spec(text, file)) {
        Err(e) => Err(e),
        Ok(tokens) => compile_spec(tokens),
    }
}

/// Compiles the source text of the file `file_path` to assembly text. No
/// text is returned for a program that is rejected.
pub fn compile_source(text: &str, file_path: &str) -> (r: Result<String, CompileError>)
    ensures
        compiled_view(r) == compile_source_spec(text@, file_path@),
{
    match parse(lex(text, file_path)) {
        Ok(tokens) => compile(tokens),
        Err(e) => Err(e),
    }
}

/// A text is rejected if and only if the parser rejects its words, and
/// then with the parser's error: the generator never rejects what the parser
/// has accepted. A text that is accepted compiles to the program text of the
/// instructions of its tokens.
pub proof fn lemma_rejected_by_parser_alone(text: Seq<char>, file: Seq<char>)
    requires
        text.len() <= u64::MAX,
    ensures
        match parse_spec(lex_spec(text, file)) {
            Err(e) => compile_source_spec(text, file) == Err::<Seq<char>, CompileErrorView>(e),
            Ok(tokens) => lower_spec(tokens) is Ok && compile_source_spec(
                text,
                file,
            ) == Ok::<Seq<char>, CompileErrorView>(
                program_text(lower_spec(tokens)->Ok_0),
            ),
        },
{
    let words = lex_spec(text, file);
    lemma_fewer_words_than_chars(text, file, text.len() as int);
    if parse_spec(words) is Ok {
        lemma_parsed_program_lowers(words);
    }
}

} // verus!
