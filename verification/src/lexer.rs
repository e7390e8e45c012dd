//! The lexer: source text to words with their positions.
//!
//! A word is a maximal run of characters that are not ASCII whitespace. There
//! is no quoting and no escaping. Each word carries the file it came from, its
//! line (counted from one) and the column of its first character (counted
//! from zero).

use vstd::prelude::*;
use crate::text::{chars_of, char_is_space, is_space};

verus! {

/// A word of the source text and where it stands.
#[derive(Debug, PartialEq, Eq)]
pub struct Word {
    pub text: String,
    pub file: String,
    pub line: usize,
    pub col: usize,
}

/// The mathematical value of a [`Word`].
pub ghost struct WordView {
    pub text: Seq<char>,
    pub file: Seq<char>,
    pub line: nat,
    pub col: nat,
}

impl View for Word {
    type V = WordView;

    open spec fn view(&self) -> WordView {
        WordView { text: self.text@, file: self.file@, line: self.line as nat, col: self.col as nat }
    }
}

impl Clone for Word {
    fn clone(&self) -> (r: Self)
        ensures
            r@ == self@,
    {
        Word { text: self.text.clone(), file: self.file.clone(), line: self.line, col: self.col }
    }
}

/// The values of a sequence of words.
pub open spec fn word_views(words: Seq<Word>) -> Seq<WordView> {
    words.map_values(|w: Word| w@)
}

/// The values of the pairs that [`lex_line`] returns.
pub open spec fn pair_views(pairs: Seq<(String, usize)>) -> Seq<(Seq<char>, nat)> {
    pairs.map_values(|p: (String, usize)| (p.0@, p.1 as nat))
}

/// A word begins at position `i` of `s`.
pub open spec fn word_start(s: Seq<char>, i: int) -> bool {
    0 <= i < s.len() && !is_space(s[i]) && (i == 0 || is_space(s[i - 1]))
}

/// The first position at or after `i` that holds whitespace or lies past the
/// end of `s`: where a word that begins at `i` ends.
pub open spec fn word_end(s: Seq<char>, i: int) -> int
    decreases s.len() - i,
{
    if i < 0 || i >= s.len() || is_space(s[i]) {
        i
    } else {
        word_end(s, i + 1)
    }
}

/// The words of `s` that begin before position `n`, in order, each with the
/// position at which it begins.
pub open spec fn words_before(s: Seq<char>, n: int) -> Seq<(Seq<char>, nat)>
    decreases n,
{
    if n <= 0 {
        Seq::empty()
    } else if word_start(s, n - 1) {
        words_before(s, n - 1).push((s.subrange(n - 1, word_end(s, n - 1)), (n - 1) as nat))
    } else {
        words_before(s, n - 1)
    }
}

/// The words of one line, each with its column.
pub open spec fn line_words(s: Seq<char>) -> Seq<(Seq<char>, nat)> {
    words_before(s, s.len() as int)
}

/// The number of line feeds before position `p` of `s`.
pub open spec fn newlines_before(s: Seq<char>, p: int) -> nat
    decreases p,
{
    if p <= 0 || p > s.len() {
        0
    } else if s[p - 1] == '\n' {
        newlines_before(s, p - 1) + 1
    } else {
        newlines_before(s, p - 1)
    }
}

/// Where the line that holds position `p` begins: after the last line feed
/// before `p`, or at zero.
pub open spec fn line_begin(s: Seq<char>, p: int) -> int
    decreases p,
{
    if p <= 0 || p > s.len() {
        0
    } else if s[p - 1] == '\n' {
        p
    } else {
        line_begin(s, p - 1)
    }
}

/// The word of `s` that begins at position `p`, read from the file `file`.
pub open spec fn word_at(s: Seq<char>, file: Seq<char>, p: int) -> WordView {
    WordView {
        text: s.subrange(p, word_end(s, p)),
        file: file,
        line: newlines_before(s, p) + 1,
        col: (p - line_begin(s, p)) as nat,
    }
}

/// The words of `s` that begin before position `n`, in order.
pub open spec fn text_words_before(s: Seq<char>, file: Seq<char>, n: int) -> Seq<WordView>
    decreases n,
{
    if n <= 0 {
        Seq::empty()
    } else if word_start(s, n - 1) {
        text_words_before(s, file, n - 1).push(word_at(s, file, n - 1))
    } else {
        text_words_before(s, file, n - 1)
    }
}

/// What [`lex`] returns for the text `s` of the file `file`.
pub open spec fn lex_spec(s: Seq<char>, file: Seq<char>) -> Seq<WordView> {
    text_words_before(s, file, s.len() as int)
}

/// A run of characters without whitespace that stops at whitespace or at the
/// end is one word.
proof fn lemma_word_end(s: Seq<char>, i: int, j: int)
    requires
        0 <= i <= j <= s.len(),
        forall|k: int| i <= k < j ==> !is_space(s[k]),
        j == s.len() || is_space(s[j]),
    ensures
        word_end(s, i) == j,
    decreases j - i,
{
    if i < j {
        lemma_word_end(s, i + 1, j);
    }
}

/// No word begins inside a run of characters without whitespace.
proof fn lemma_no_start_inside(s: Seq<char>, i: int, j: int)
    requires
        0 <= i < j <= s.len(),
        forall|k: int| i <= k < j ==> !is_space(s[k]),
    ensures
        words_before(s, j) == words_before(s, i + 1),
    decreases j - i,
{
    if i + 1 < j {
        lemma_no_start_inside(s, i, j - 1);
        assert(!word_start(s, j - 1));
    }
}

/// Splits one line into its words, each with the column at which it begins.
pub fn lex_line(line: &str) -> (words: Vec<(String, usize)>)
    ensures
        pair_views(words@) == line_words(line@),
{
    let chars = chars_of(line);
    let n: usize = chars.len();
    let mut words: Vec<(String, usize)> = Vec::new();
    let mut i: usize = 0;
    assert(pair_views(words@) =~= words_before(line@, 0));
    while i < n
        invariant
            i <= n,
            n == line@.len(),
            chars@ == line@,
            i == 0 || i == n || is_space(line@[i - 1]),
            pair_views(words@) == words_before(line@, i as int),
        decreases n - i,
    {
        if char_is_space(chars[i]) {
            assert(!word_start(line@, i as int));
            i += 1;
        } else {
            let start: usize = i;
            let mut j: usize = i + 1;
            while j < n && !char_is_space(chars[j])
                invariant
                    start < j <= n,
                    n == line@.len(),
                    chars@ == line@,
                    forall|k: int| start <= k < j ==> !is_space(line@[k]),
                decreases n - j,
            {
                j += 1;
            }
            let text: String = line.substring_char(start, j).to_owned();
            proof {
                lemma_word_end(line@, start as int, j as int);
                lemma_no_start_inside(line@, start as int, j as int);
                assert(word_start(line@, start as int));
                let ghost before = words@;
                let ghost item = (text@, start as nat);
                assert(pair_views(before.push((text, start))) =~= pair_views(before).push(item));
            }
            words.push((text, start));
            if j < n {
                assert(!word_start(line@, j as int));
                i = j + 1;
            } else {
                i = n;
            }
        }
    }
    words
}

/// The words of one line, placed in the file `file` at line `line`.
pub open spec fn located(pairs: Seq<(Seq<char>, nat)>, file: Seq<char>, line: nat) -> Seq<WordView> {
    pairs.map_values(
        |p: (Seq<char>, nat)| WordView { text: p.0, file: file, line: line, col: p.1 },
    )
}

/// A word ends at or after the position at which it is looked for, and not
/// past the end of the text.
proof fn lemma_word_end_bounds(s: Seq<char>, i: int)
    requires
        0 <= i <= s.len(),
    ensures
        i <= word_end(s, i) <= s.len(),
    decreases s.len() - i,
{
    if i < s.len() && !is_space(s[i]) {
        lemma_word_end_bounds(s, i + 1);
    }
}

/// Within a line that runs from `a` to `e`, words end where they end in the
/// line taken alone.
proof fn lemma_word_end_in_line(s: Seq<char>, a: int, e: int, p: int)
    requires
        0 <= a <= p <= e <= s.len(),
        e == s.len() || s[e] == '\n',
    ensures
        word_end(s, p) == a + word_end(s.subrange(a, e), p - a),
    decreases e - p,
{
    let sub = s.subrange(a, e);
    if p < e {
        assert(sub[p - a] == s[p]);
        if !is_space(s[p]) {
            lemma_word_end_in_line(s, a, e, p + 1);
        }
    }
}

/// No line feed between `a` and `p`: both lie on one line, which begins at `a`.
proof fn lemma_same_line(s: Seq<char>, a: int, p: int)
    requires
        0 <= a <= p <= s.len(),
        a == 0 || s[a - 1] == '\n',
        forall|k: int| a <= k < p ==> s[k] != '\n',
    ensures
        newlines_before(s, p) == newlines_before(s, a),
        line_begin(s, p) == a,
    decreases p - a,
{
    if a < p {
        lemma_same_line(s, a, p - 1);
    }
}

/// The words that begin in the first `m` positions of the line from `a` to
/// `e` are those of the line taken alone, placed at its line number.
proof fn lemma_line_in_text(s: Seq<char>, file: Seq<char>, a: int, e: int, m: int)
    requires
        0 <= a <= e <= s.len(),
        a == 0 || s[a - 1] == '\n',
        forall|k: int| a <= k < e ==> s[k] != '\n',
        e == s.len() || s[e] == '\n',
        0 <= m <= e - a,
    ensures
        text_words_before(s, file, a + m) == text_words_before(s, file, a) + located(
            words_before(s.subrange(a, e), m),
            file,
            newlines_before(s, a) + 1,
        ),
    decreases m,
{
    let sub = s.subrange(a, e);
    let line = newlines_before(s, a) + 1;
    if m == 0 {
        assert(located(words_before(sub, 0), file, line) =~= Seq::<WordView>::empty());
        assert(text_words_before(s, file, a) + Seq::<WordView>::empty() =~= text_words_before(
            s,
            file,
            a,
        ));
    } else {
        lemma_line_in_text(s, file, a, e, m - 1);
        let q = m - 1;
        let p = a + q;
        assert(sub[q] == s[p]);
        if q > 0 {
            assert(sub[q - 1] == s[p - 1]);
        }
        assert(word_start(s, p) == word_start(sub, q));
        if word_start(s, p) {
            lemma_word_end_in_line(s, a, e, p);
            lemma_word_end_bounds(sub, q);
            lemma_same_line(s, a, p);
            assert(s.subrange(p, word_end(s, p)) =~= sub.subrange(q, word_end(sub, q)));
            let pair = (sub.subrange(q, word_end(sub, q)), q as nat);
            assert(word_at(s, file, p) == WordView {
                text: pair.0,
                file: file,
                line: line,
                col: pair.1,
            });
            assert(located(words_before(sub, q).push(pair), file, line) =~= located(
                words_before(sub, q),
                file,
                line,
            ).push(word_at(s, file, p)));
            assert(text_words_before(s, file, a + m) =~= text_words_before(s, file, a) + located(
                words_before(sub, m),
                file,
                line,
            ));
        }
    }
}

/// Splits the text of the file `file_path` into its words.
///
/// Words are separated by ASCII whitespace, of which any run counts as one
/// separator; a line without a word contributes nothing.
pub fn lex(text: &str, file_path: &str) -> (words: Vec<Word>)
    ensures
        word_views(words@) == lex_spec(text@, file_path@),
{
    let chars = chars_of(text);
    let n: usize = chars.len();
    let mut words: Vec<Word> = Vec::new();
    let mut newlines: usize = 0;
    let mut begin: usize = 0;
    assert(word_views(words@) =~= text_words_before(text@, file_path@, 0));
    loop
        invariant_except_break
            begin <= n,
            begin == 0 || text@[begin - 1] == '\n',
            newlines == newlines_before(text@, begin as int),
            newlines <= begin,
            word_views(words@) == text_words_before(text@, file_path@, begin as int),
        invariant
            n == text@.len(),
            chars@ == text@,
        ensures
            word_views(words@) == lex_spec(text@, file_path@),
        decreases n - begin,
    {
        let mut end: usize = begin;
        while end < n && chars[end] != '\n'
            invariant
                begin <= end <= n,
                n == text@.len(),
                chars@ == text@,
                forall|k: int| begin <= k < end ==> text@[k] != '\n',
            decreases n - end,
        {
            end += 1;
        }
        let line = text.substring_char(begin, end);
        let found = lex_line(line);
        let ghost base = words@;
        let mut k: usize = 0;
        proof {
            if begin == end {
                assert(pair_views(found@).len() == 0);
            }
            assert(located(pair_views(found@).take(0), file_path@, (newlines + 1) as nat)
                =~= Seq::<WordView>::empty());
            assert(word_views(base) + Seq::<WordView>::empty() =~= word_views(base));
        }
        while k < found.len()
            invariant
                k <= found.len(),
                newlines <= begin <= end <= n,
                begin < end || found.len() == 0,
                word_views(words@) == word_views(base) + located(
                    pair_views(found@).take(k as int),
                    file_path@,
                    (newlines + 1) as nat,
                ),
            decreases found.len() - k,
        {
            let word = Word {
                text: found[k].0.clone(),
                file: file_path.to_owned(),
                line: newlines + 1,
                col: found[k].1,
            };
            proof {
                let pairs = pair_views(found@);
                let at = (newlines + 1) as nat;
                assert(pairs.take(k + 1) =~= pairs.take(k as int).push(pairs[k as int]));
                assert(located(pairs.take(k + 1), file_path@, at) =~= located(
                    pairs.take(k as int),
                    file_path@,
                    at,
                ).push(word@));
                assert(word_views(words@.push(word)) =~= word_views(words@).push(word@));
            }
            words.push(word);
            k += 1;
        }
        proof {
            let pairs = pair_views(found@);
            assert(pairs.take(found.len() as int) =~= pairs);
            lemma_line_in_text(text@, file_path@, begin as int, end as int, end - begin);
        }
        if end >= n {
            break;
        }
        proof {
            assert(!word_start(text@, end as int));
            lemma_same_line(text@, begin as int, end as int);
        }
        begin = end + 1;
        newlines += 1;
    }
    words
}

/// No word begins in a stretch of whitespace.
proof fn lemma_blank_stretch(s: Seq<char>, file: Seq<char>, n: int)
    requires
        0 <= n <= s.len(),
        forall|i: int| 0 <= i < n ==> is_space(s[i]),
    ensures
        text_words_before(s, file, n) == Seq::<WordView>::empty(),
        words_before(s, n) == Seq::<(Seq<char>, nat)>::empty(),
    decreases n,
{
    if n > 0 {
        lemma_blank_stretch(s, file, n - 1);
    }
}

/// A text of nothing but whitespace, and so the empty text, has no words.
pub proof fn lemma_blank_text_has_no_words(s: Seq<char>, file: Seq<char>)
    requires
        forall|i: int| 0 <= i < s.len() ==> is_space(s[i]),
    ensures
        lex_spec(s, file) == Seq::<WordView>::empty(),
        line_words(s) == Seq::<(Seq<char>, nat)>::empty(),
{
    lemma_blank_stretch(s, file, s.len() as int);
}

/// From a position that holds no whitespace up to the end of its word there
/// is no whitespace.
proof fn lemma_word_unbroken(s: Seq<char>, i: int, k: int)
    requires
        0 <= i <= k < word_end(s, i),
    ensures
        k < s.len(),
        !is_space(s[k]),
    decreases k - i,
{
    if i < k {
        lemma_word_unbroken(s, i + 1, k);
    }
}

/// Every word of a text begins where a word begins.
proof fn lemma_words_begin(s: Seq<char>, file: Seq<char>, n: int, k: int)
    requires
        0 <= n <= s.len(),
        0 <= k < text_words_before(s, file, n).len(),
    ensures
        exists|p: int| word_start(s, p) && text_words_before(s, file, n)[k] == word_at(s, file, p),
    decreases n,
{
    if n > 0 {
        let before = text_words_before(s, file, n - 1);
        if k < before.len() {
            lemma_words_begin(s, file, n - 1, k);
        } else {
            assert(word_start(s, n - 1));
        }
    }
}

/// Every word of a text is of one character or more, none of them
/// whitespace; it carries the name of the file, and a line number of one or
/// more.
pub proof fn lemma_words_are_unbroken(s: Seq<char>, file: Seq<char>, k: int)
    requires
        0 <= k < lex_spec(s, file).len(),
    ensures
        lex_spec(s, file)[k].text.len() > 0,
        forall|i: int|
            0 <= i < lex_spec(s, file)[k].text.len() ==> !is_space(lex_spec(s, file)[k].text[i]),
        lex_spec(s, file)[k].file == file,
        lex_spec(s, file)[k].line >= 1,
{
    lemma_words_begin(s, file, s.len() as int, k);
    let p = choose|p: int| word_start(s, p) && lex_spec(s, file)[k] == word_at(s, file, p);
    let w = word_at(s, file, p);
    lemma_word_end_bounds(s, p + 1);
    assert forall|i: int| 0 <= i < w.text.len() implies !is_space(w.text[i]) by {
        lemma_word_unbroken(s, p, p + i);
    }
}

/// A text has no more words than characters.
pub proof fn lemma_fewer_words_than_chars(s: Seq<char>, file: Seq<char>, n: int)
    requires
        0 <= n <= s.len(),
    ensures
        text_words_before(s, file, n).len() <= n,
    decreases n,
{
    if n > 0 {
        lemma_fewer_words_than_chars(s, file, n - 1);
    }
}

/// The words of a text without a line feed are the words of its one line,
/// at line one, with their columns.
pub proof fn lemma_one_line(s: Seq<char>, file: Seq<char>)
    requires
        forall|i: int| 0 <= i < s.len() ==> s[i] != '\n',
    ensures
        lex_spec(s, file) == located(line_words(s), file, 1),
{
    lemma_line_in_text(s, file, 0, s.len() as int, s.len() as int);
    assert(s.subrange(0, s.len() as int) =~= s);
    assert(Seq::<WordView>::empty() + located(line_words(s), file, 1) =~= located(
        line_words(s),
        file,
        1,
    ));
}

} // verus!
