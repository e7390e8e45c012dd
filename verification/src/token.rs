//! Tokens, and the classification of a word by its text.

use vstd::prelude::*;
use crate::lexer::{Word, WordView};
use crate::text::{
    all_digits, chars_of, decimal, digit_of, digits_value, is_digit, lemma_decimal_reads_back,
    lemma_digits_value_grows, signed_decimal, str_eq,
};

verus! {

/// What a token is.
///
/// An integer literal carries its value. The five block keywords carry the
/// identifier of the block that they open, continue or close.
#[derive(Clone, Copy, Debug, PartialEq, Eq, Structural)]
pub enum TokenKind {
    IntegerLiteral(i32),
    Add,
    Sub,
    Mul,
    Div,
    Dup,
    Drop,
    Swap,
    Rotate,
    Over,
    Equal,
    Greater,
    Less,
    Dump,
    AsciiDump,
    If(u64),
    Else(u64),
    While(u64),
    Do(u64),
    End(u64),
}

/// A classified word.
#[derive(Debug, PartialEq, Eq)]
pub struct Token {
    pub kind: TokenKind,
    pub word: Word,
}

/// The mathematical value of a [`Token`].
pub ghost struct TokenView {
    pub kind: TokenKind,
    pub word: WordView,
}

impl View for Token {
    type V = TokenView;

    open spec fn view(&self) -> TokenView {
        TokenView { kind: self.kind, word: self.word@ }
    }
}

impl Clone for Token {
    fn clone(&self) -> (r: Self)
        ensures
            r@ == self@,
    {
        Token { kind: self.kind, word: self.word.clone() }
    }
}

/// The values of a sequence of tokens.
pub open spec fn token_views(tokens: Seq<Token>) -> Seq<TokenView> {
    tokens.map_values(|t: Token| t@)
}

impl TokenKind {
    /// The block identifier that the kind carries, if it is a block keyword.
    pub open spec fn spec_block_id(self) -> Option<u64> {
        match self {
            TokenKind::If(id) => Some(id),
            TokenKind::Else(id) => Some(id),
            TokenKind::While(id) => Some(id),
            TokenKind::Do(id) => Some(id),
            TokenKind::End(id) => Some(id),
            _ => None,
        }
    }

    /// The block identifier that the kind carries, if it is a block keyword.
    #[verifier::when_used_as_spec(spec_block_id)]
    pub fn block_id(self) -> (r: Option<u64>)
        ensures
            r == self.spec_block_id(),
    {
        match self {
            TokenKind::If(id) => Some(id),
            TokenKind::Else(id) => Some(id),
            TokenKind::While(id) => Some(id),
            TokenKind::Do(id) => Some(id),
            TokenKind::End(id) => Some(id),
            _ => None,
        }
    }

    /// The value that the kind carries, if it is an integer literal.
    pub open spec fn spec_value(self) -> Option<i32> {
        match self {
            TokenKind::IntegerLiteral(v) => Some(v),
            _ => None,
        }
    }

    /// The value that the kind carries, if it is an integer literal.
    #[verifier::when_used_as_spec(spec_value)]
    pub fn value(self) -> (r: Option<i32>)
        ensures
            r == self.spec_value(),
    {
        match self {
            TokenKind::IntegerLiteral(v) => Some(v),
            _ => None,
        }
    }
}

/// A keyword that takes part in a block.
#[derive(Clone, Copy, Debug, PartialEq, Eq, Structural)]
pub enum BlockWord {
    If,
    Else,
    While,
    Do,
    End,
}

/// What the text of a word stands for.
#[derive(Clone, Copy, Debug, PartialEq, Eq, Structural)]
pub enum WordClass {
    /// A token that is complete by itself: an integer literal or an operator.
    Simple(TokenKind),
    /// A block keyword, whose token needs a block identifier.
    Block(BlockWord),
    /// `rem`: the rest of the line is a comment.
    Comment,
}

/// The text carries a sign: it begins with `+` or `-`.
pub open spec fn has_sign(s: Seq<char>) -> bool {
    s.len() > 0 && (s[0] == '+' || s[0] == '-')
}

/// The digits of the text: what follows its sign, if it has one.
pub open spec fn unsigned_part(s: Seq<char>) -> Seq<char> {
    if has_sign(s) {
        s.skip(1)
    } else {
        s
    }
}

/// The number that the text writes, sign included, whatever its size.
pub open spec fn written_value(s: Seq<char>) -> int {
    if s.len() > 0 && s[0] == '-' {
        -(digits_value(unsigned_part(s)) as int)
    } else {
        digits_value(unsigned_part(s)) as int
    }
}

/// The value of the text as a signed integer literal: an optional `+` or `-`,
/// then one digit or more, and nothing else, with a value that fits in 32
/// bits. `None` for any other text.
pub open spec fn int_literal(s: Seq<char>) -> Option<i32> {
    if unsigned_part(s).len() > 0 && all_digits(unsigned_part(s)) && i32::MIN <= written_value(s)
        <= i32::MAX {
        Some(written_value(s) as i32)
    } else {
        None
    }
}

/// Reads the text as a signed integer literal.
pub fn parse_int(text: &str) -> (r: Option<i32>)
    ensures
        r == int_literal(text@),
{
    let chars = chars_of(text);
    let n: usize = chars.len();
    if n == 0 {
        return None;
    }
    let negative: bool = chars[0] == '-';
    let first: usize = if negative || chars[0] == '+' {
        1
    } else {
        0
    };
    if first >= n {
        return None;
    }
    let ghost digits = unsigned_part(text@);
    assert(digits == text@.skip(first as int));
    let mut acc: i64 = 0;
    let mut i: usize = first;
    assert(digits.take(0) =~= Seq::<char>::empty());
    while i < n
        invariant
            first <= i <= n,
            first <= 1,
            n == text@.len(),
            chars@ == text@,
            digits == text@.skip(first as int),
            digits == unsigned_part(text@),
            forall|k: int| 0 <= k < i - first ==> is_digit(#[trigger] digits[k]),
            acc == digits_value(digits.take(i - first)),
            0 <= acc <= 2147483648,
        decreases n - i,
    {
        let c: char = chars[i];
        if !(c >= '0' && c <= '9') {
            assert(digits[i - first] == c);
            assert(!is_digit(digits[i - first]));
            return None;
        }
        let d: i64 = (c as u32 - '0' as u32) as i64;
        proof {
            let upto = digits.take(i - first + 1);
            assert(upto.drop_last() =~= digits.take(i - first));
            assert(upto.last() == c);
            assert(d == digit_of(c));
        }
        acc = acc * 10 + d;
        if acc > 2147483648 {
            proof {
                lemma_digits_value_grows(digits, i - first + 1);
                assert(digits_value(digits) > 2147483648);
            }
            return None;
        }
        i += 1;
    }
    assert(digits.take(n - first) =~= digits);
    if negative {
        Some((-acc) as i32)
    } else if acc <= 2147483647 {
        Some(acc as i32)
    } else {
        None
    }
}

/// What the text of a word stands for, if anything.
///
/// A text that reads as a signed integer is a literal. `true` and `false` are
/// the literals one and zero. Then come the operators and the block keywords,
/// each by its exact spelling, and `rem`, which opens a comment.
pub open spec fn classify_spec(text: Seq<char>) -> Option<WordClass> {
    if int_literal(text) is Some {
        Some(WordClass::Simple(TokenKind::IntegerLiteral(int_literal(text).unwrap())))
    } else if text == "true"@ {
        Some(WordClass::Simple(TokenKind::IntegerLiteral(1)))
    } else if text == "false"@ {
        Some(WordClass::Simple(TokenKind::IntegerLiteral(0)))
    } else if text == "+"@ {
        Some(WordClass::Simple(TokenKind::Add))
    } else if text == "-"@ {
        Some(WordClass::Simple(TokenKind::Sub))
    } else if text == "*"@ {
        Some(WordClass::Simple(TokenKind::Mul))
    } else if text == "/"@ {
        Some(WordClass::Simple(TokenKind::Div))
    } else if text == "="@ {
        Some(WordClass::Simple(TokenKind::Equal))
    } else if text == "<"@ {
        Some(WordClass::Simple(TokenKind::Less))
    } else if text == ">"@ {
        Some(WordClass::Simple(TokenKind::Greater))
    } else if text == "dup"@ {
        Some(WordClass::Simple(TokenKind::Dup))
    } else if text == "drop"@ {
        Some(WordClass::Simple(TokenKind::Drop))
    } else if text == "swp"@ {
        Some(WordClass::Simple(TokenKind::Swap))
    } else if text == "rot"@ {
        Some(WordClass::Simple(TokenKind::Rotate))
    } else if text == "over"@ {
        Some(WordClass::Simple(TokenKind::Over))
    } else if text == "dump"@ {
        Some(WordClass::Simple(TokenKind::Dump))
    } else if text == "asciidump"@ {
        Some(WordClass::Simple(TokenKind::AsciiDump))
    } else if text == "if"@ {
        Some(WordClass::Block(BlockWord::If))
    } else if text == "else"@ {
        Some(WordClass::Block(BlockWord::Else))
    } else if text == "while"@ {
        Some(WordClass::Block(BlockWord::While))
    } else if text == "do"@ {
        Some(WordClass::Block(BlockWord::Do))
    } else if text == "end"@ {
        Some(WordClass::Block(BlockWord::End))
    } else if text == "rem"@ {
        Some(WordClass::Comment)
    } else {
        None
    }
}

/// Classifies a word by its text; `None` for a text that stands for nothing.
pub fn classify(text: &str) -> (r: Option<WordClass>)
    ensures
        r == classify_spec(text@),
{
    match parse_int(text) {
        Some(v) => Some(WordClass::Simple(TokenKind::IntegerLiteral(v))),
        None => {
            if str_eq(text, "true") {
                Some(WordClass::Simple(TokenKind::IntegerLiteral(1)))
            } else if str_eq(text, "false") {
                Some(WordClass::Simple(TokenKind::IntegerLiteral(0)))
            } else if str_eq(text, "+") {
                Some(WordClass::Simple(TokenKind::Add))
            } else if str_eq(text, "-") {
                Some(WordClass::Simple(TokenKind::Sub))
            } else if str_eq(text, "*") {
                Some(WordClass::Simple(TokenKind::Mul))
            } else if str_eq(text, "/") {
                Some(WordClass::Simple(TokenKind::Div))
            } else if str_eq(text, "=") {
                Some(WordClass::Simple(TokenKind::Equal))
            } else if str_eq(text, "<") {
                Some(WordClass::Simple(TokenKind::Less))
            } else if str_eq(text, ">") {
                Some(WordClass::Simple(TokenKind::Greater))
            } else if str_eq(text, "dup") {
                Some(WordClass::Simple(TokenKind::Dup))
            } else if str_eq(text, "drop") {
                Some(WordClass::Simple(TokenKind::Drop))
            } else if str_eq(text, "swp") {
                Some(WordClass::Simple(TokenKind::Swap))
            } else if str_eq(text, "rot") {
                Some(WordClass::Simple(TokenKind::Rotate))
            } else if str_eq(text, "over") {
                Some(WordClass::Simple(TokenKind::Over))
            } else if str_eq(text, "dump") {
                Some(WordClass::Simple(TokenKind::Dump))
            } else if str_eq(text, "asciidump") {
                Some(WordClass::Simple(TokenKind::AsciiDump))
            } else if str_eq(text, "if") {
                Some(WordClass::Block(BlockWord::If))
            } else if str_eq(text, "else") {
                Some(WordClass::Block(BlockWord::Else))
            } else if str_eq(text, "while") {
                Some(WordClass::Block(BlockWord::While))
            } else if str_eq(text, "do") {
                Some(WordClass::Block(BlockWord::Do))
            } else if str_eq(text, "end") {
                Some(WordClass::Block(BlockWord::End))
            } else if str_eq(text, "rem") {
                Some(WordClass::Comment)
            } else {
                None
            }
        },
    }
}

/// A text that is classified as a token complete by itself stands for a
/// literal or an operator, never for a block keyword.
pub proof fn lemma_simple_carries_no_block(text: Seq<char>)
    ensures
        classify_spec(text) matches Some(WordClass::Simple(kind)) ==> kind.spec_block_id() is None,
{
}

/// A text that reads as a signed integer is classified as the literal of
/// that integer.
pub proof fn lemma_integer_is_literal(text: Seq<char>, v: i32)
    requires
        int_literal(text) == Some(v),
    ensures
        classify_spec(text) == Some(WordClass::Simple(TokenKind::IntegerLiteral(v))),
{
}

/// The decimal notation of a 32-bit integer reads as the literal of that
/// integer.
pub proof fn lemma_signed_decimal_reads_back(v: i32)
    ensures
        int_literal(signed_decimal(v as int)) == Some(v),
{
    let s = signed_decimal(v as int);
    if v < 0 {
        let m = (-v) as nat;
        lemma_decimal_reads_back(m);
        assert(s[0] == '-');
        assert(s.skip(1) =~= decimal(m));
    } else {
        lemma_decimal_reads_back(v as nat);
        assert(is_digit(s[0]));
    }
}

} // verus!
