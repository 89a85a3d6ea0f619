//! From source lines to tokens: splitting a line into words, recognising
//! each word, and loading a whole program.

use vstd::prelude::*;
use vstd::string::{StrSliceExecFns, StringExecFns};
use crate::token::{Word, Token, Diagnostic, plus, minus, dump, equal, dup, gt, iff, end, elze, wile, doo, push};
use crate::resolve::{crossreference_blocks, structural_error, well_nested, resolved_from};

verus! {

/// Whether `char::is_whitespace` holds of `c`.
pub uninterp spec fn char_is_whitespace(c: char) -> bool;

/// The value that `str::parse::<i32>` gives for `text`, if it gives one.
pub uninterp spec fn parsed_i32(text: Seq<char>) -> Option<i32>;

/// Calls `char::is_whitespace`. The result is a fixed property of the
/// character, named `char_is_whitespace`; nothing more is claimed of it.
#[verifier::external_body]
fn is_blank(c: char) -> (b: bool)
    ensures
        b == char_is_whitespace(c),
{
    c.is_whitespace()
}

/// Calls `str::parse::<i32>` and drops the reason of a failure. The result
/// depends on the text alone and is named `parsed_i32`; nothing more is
/// claimed of it.
#[verifier::external_body]
fn parse_number(text: &str) -> (r: Option<i32>)
    ensures
        r == parsed_i32(text@),
{
    text.parse::<i32>().ok()
}

/// A word of a line with the 1-based column of its first character.
pub struct Spelling {
    pub text: Seq<char>,
    pub col: int,
}

/// For each character of `line`, whether it is whitespace.
pub open spec fn blanks(line: Seq<char>) -> Seq<bool> {
    Seq::new(line.len(), |i: int| char_is_whitespace(line[i]))
}

/// The end of the run of characters that are not blank and start at `from`.
pub open spec fn word_end(blank: Seq<bool>, from: int) -> int
    decreases blank.len() - from,
{
    if 0 <= from < blank.len() && !blank[from] {
        word_end(blank, from + 1)
    } else {
        from
    }
}

/// A word starts at `at`: a character that is not blank, at the start of
/// the line or after a blank one.
pub open spec fn word_starts(blank: Seq<bool>, at: int) -> bool {
    0 <= at < blank.len() && !blank[at] && (at == 0 || blank[at - 1])
}

/// The words that start at or after `from`, left to right. Each runs from
/// its start to the next blank character or the end of the line.
pub open spec fn words_from(line: Seq<char>, blank: Seq<bool>, from: int) -> Seq<Spelling>
    decreases line.len() - from,
{
    if !(0 <= from < line.len()) {
        Seq::empty()
    } else if word_starts(blank, from) {
        seq![Spelling { text: line.subrange(from, word_end(blank, from)), col: from + 1 }]
            + words_from(line, blank, from + 1)
    } else {
        words_from(line, blank, from + 1)
    }
}

/// The words of `line`, whitespace being what `char::is_whitespace` says.
pub open spec fn words_of(line: Seq<char>) -> Seq<Spelling> {
    words_from(line, blanks(line), 0)
}

/// The words of a pair list as plain values.
pub open spec fn spellings(words: Seq<(String, usize)>) -> Seq<Spelling> {
    Seq::new(words.len(), |k: int| Spelling { text: words[k].0@, col: words[k].1 as int })
}

/// Tells for each character of `line` whether it is whitespace.
pub fn blank_mask(line: &str) -> (mask: Vec<bool>)
    ensures
        mask@ == blanks(line@),
{
    let n: usize = line.unicode_len();
    let mut mask: Vec<bool> = Vec::new();
    let mut i: usize = 0;
    while i < n
        invariant
            n == line@.len(),
            i <= n,
            mask@.len() == i,
            forall|k: int| 0 <= k < i ==> mask@[k] == char_is_whitespace(line@[k]),
        decreases n - i,
    {
        mask.push(is_blank(line.get_char(i)));
        i += 1;
    }
    assert(mask@ =~= blanks(line@));
    mask
}

/// Splits `line` into its words, given for each character whether it is blank.
pub fn split_words(line: &str, blank: &Vec<bool>) -> (words: Vec<(String, usize)>)
    requires
        blank@.len() == line@.len(),
    ensures
        spellings(words@) == words_from(line@, blank@, 0),
{
    let n: usize = blank.len();
    let mut words: Vec<(String, usize)> = Vec::new();
    let mut at: usize = 0;
    while at < n
        invariant
            n == line@.len(),
            n == blank@.len(),
            at <= n,
            spellings(words@) + words_from(line@, blank@, at as int) == words_from(
                line@,
                blank@,
                0,
            ),
        decreases n - at,
    {
        if !blank[at] && (at == 0 || blank[at - 1]) {
            let mut stop: usize = at;
            while stop < n && !blank[stop]
                invariant
                    n == blank@.len(),
                    at <= stop <= n,
                    word_end(blank@, stop as int) == word_end(blank@, at as int),
                decreases n - stop,
            {
                stop += 1;
            }
            let ghost before = words@;
            let text = String::from_str(line.substring_char(at, stop));
            words.push((text, at + 1));
            assert(spellings(words@) =~= spellings(before) + seq![
                Spelling { text: line@.subrange(at as int, stop as int), col: at + 1 },
            ]);
            assert(spellings(words@) + words_from(line@, blank@, at + 1) =~= spellings(before)
                + words_from(line@, blank@, at as int));
        }
        at += 1;
    }
    assert(spellings(words@) + words_from(line@, blank@, n as int) =~= spellings(words@));
    words
}

/// Splits `line` into its whitespace-delimited words, each with the 1-based
/// column of its first character.
pub fn find_word_and_col(line: &str) -> (words: Vec<(String, usize)>)
    ensures
        spellings(words@) == words_of(line@),
{
    let mask = blank_mask(line);
    split_words(line, &mask)
}

/// Why a source could not be turned into tokens.
#[derive(Debug, Clone, PartialEq, Eq)]
pub enum LexError {
    /// The source has no lines at all.
    NoLines,
    /// A word is neither a keyword nor a 32-bit integer.
    BadWord { file_path: String, row: usize, col: usize, word: String },
}

/// Why a program could not be loaded.
#[derive(Debug, Clone, PartialEq, Eq)]
pub enum LoadError {
    Lex(LexError),
    Structure(Diagnostic),
}

/// A token without its file: row, column and word.
pub struct Lexeme {
    pub row: int,
    pub col: int,
    pub word: Word,
}

/// The place and text of a word that is not part of the language.
pub struct BadSpot {
    pub row: int,
    pub col: int,
    pub text: Seq<char>,
}

/// The word that a keyword spells.
pub open spec fn keyword(text: Seq<char>) -> Option<Word> {
    if text == "+"@ {
        Some(Word::OpPlus)
    } else if text == "-"@ {
        Some(Word::OpMinus)
    } else if text == "."@ {
        Some(Word::OpDump)
    } else if text == "="@ {
        Some(Word::OpEqual)
    } else if text == "dup"@ {
        Some(Word::OpDup)
    } else if text == ">"@ {
        Some(Word::OpGt)
    } else if text == "if"@ {
        Some(Word::OpIf(None))
    } else if text == "end"@ {
        Some(Word::OpEnd(None))
    } else if text == "else"@ {
        Some(Word::OpElse(None))
    } else if text == "while"@ {
        Some(Word::OpWhile)
    } else if text == "do"@ {
        Some(Word::OpDo(None))
    } else {
        None
    }
}

/// The word that `text` stands for, given what it parses to as a number:
/// a keyword first, else a push of that number.
pub open spec fn recognize(text: Seq<char>, parsed: Option<i32>) -> Option<Word> {
    match keyword(text) {
        Some(w) => Some(w),
        None => match parsed {
            Some(v) => Some(Word::OpPush(v)),
            None => None,
        },
    }
}

/// The lexemes of the first `n` words of row `row`, or the first word
/// among them that is not part of the language.
pub open spec fn line_lexemes(words: Seq<Spelling>, row: int, n: nat) -> Result<
    Seq<Lexeme>,
    BadSpot,
>
    decreases n,
{
    if n == 0 {
        Ok(Seq::empty())
    } else {
        let last = words[n - 1];
        match line_lexemes(words, row, (n - 1) as nat) {
            Err(e) => Err(e),
            Ok(ls) => match recognize(last.text, parsed_i32(last.text)) {
                Some(word) => Ok(ls.push(Lexeme { row, col: last.col, word })),
                None => Err(BadSpot { row, col: last.col, text: last.text }),
            },
        }
    }
}

/// The lexemes of the first `n` lines, rows counted from 1, or the first
/// word among them that is not part of the language.
pub open spec fn lexemes(lines: Seq<String>, n: nat) -> Result<Seq<Lexeme>, BadSpot>
    decreases n,
{
    if n == 0 {
        Ok(Seq::empty())
    } else {
        let words = words_of(lines[n - 1]@);
        match lexemes(lines, (n - 1) as nat) {
            Err(e) => Err(e),
            Ok(ls) => match line_lexemes(words, n as int, words.len()) {
                Err(e) => Err(e),
                Ok(more) => Ok(ls + more),
            },
        }
    }
}

/// Row, column and word of each token.
pub open spec fn lexeme_seq(tokens: Seq<Token>) -> Seq<Lexeme> {
    Seq::new(
        tokens.len(),
        |k: int| Lexeme { row: tokens[k].row as int, col: tokens[k].col as int, word: tokens[k].word },
    )
}

/// `tokens` are the tokens of the source `lines` read from `path`.
pub open spec fn lexed(path: Seq<char>, lines: Seq<String>, tokens: Seq<Token>) -> bool {
    &&& lines.len() > 0
    &&& lexemes(lines, lines.len()) == Ok::<Seq<Lexeme>, BadSpot>(lexeme_seq(tokens))
    &&& forall|k: int| 0 <= k < tokens.len() ==> (#[trigger] tokens[k]).file_path@ == path
}

/// `e` is the error that lexing the source `lines` read from `path` gives.
pub open spec fn lex_fails_with(path: Seq<char>, lines: Seq<String>, e: LexError) -> bool {
    match e {
        LexError::NoLines => lines.len() == 0,
        LexError::BadWord { file_path, row, col, word } => {
            &&& lines.len() > 0
            &&& file_path@ == path
            &&& lexemes(lines, lines.len()) == Err::<Seq<Lexeme>, BadSpot>(
                BadSpot { row: row as int, col: col as int, text: word@ },
            )
        },
    }
}

/// Once a word of a line is bad, the line stays bad.
pub proof fn lemma_line_error_stays(words: Seq<Spelling>, row: int, k: nat, n: nat)
    requires
        k <= n,
        line_lexemes(words, row, k) is Err,
    ensures
        line_lexemes(words, row, n) == line_lexemes(words, row, k),
    decreases n,
{
    if k < n {
        lemma_line_error_stays(words, row, k, (n - 1) as nat);
    }
}

/// Once a line is bad, the source stays bad.
pub proof fn lemma_lex_error_stays(lines: Seq<String>, k: nat, n: nat)
    requires
        k <= n,
        lexemes(lines, k) is Err,
    ensures
        lexemes(lines, n) == lexemes(lines, k),
    decreases n,
{
    if k < n {
        lemma_lex_error_stays(lines, k, (n - 1) as nat);
    }
}

/// Whether two texts hold the same characters.
pub fn same_text(a: &str, b: &str) -> (r: bool)
    ensures
        r == (a@ == b@),
{
    let n: usize = a.unicode_len();
    if b.unicode_len() != n {
        return false;
    }
    let mut i: usize = 0;
    while i < n
        invariant
            n == a@.len(),
            n == b@.len(),
            i <= n,
            forall|k: int| 0 <= k < i ==> a@[k] == b@[k],
        decreases n - i,
    {
        if a.get_char(i) != b.get_char(i) {
            return false;
        }
        i += 1;
    }
    assert(a@ =~= b@);
    true
}

/// The word that a keyword spells, if `text` is one.
pub fn keyword_of(text: &str) -> (r: Option<Word>)
    ensures
        r == keyword(text@),
{
    if same_text(text, "+") {
        Some(plus())
    } else if same_text(text, "-") {
        Some(minus())
    } else if same_text(text, ".") {
        Some(dump())
    } else if same_text(text, "=") {
        Some(equal())
    } else if same_text(text, "dup") {
        Some(dup())
    } else if same_text(text, ">") {
        Some(gt())
    } else if same_text(text, "if") {
        Some(iff(None))
    } else if same_text(text, "end") {
        Some(end(None))
    } else if same_text(text, "else") {
        Some(elze(None))
    } else if same_text(text, "while") {
        Some(wile())
    } else if same_text(text, "do") {
        Some(doo(None))
    } else {
        None
    }
}

/// The word that `text` stands for, given what it parses to as a number.
pub fn word_from(text: &str, parsed: Option<i32>) -> (r: Option<Word>)
    ensures
        r == recognize(text@, parsed),
{
    match keyword_of(text) {
        Some(w) => Some(w),
        None => match parsed {
            Some(v) => Some(push(v)),
            None => None,
        },
    }
}

/// The word that `text` stands for: a keyword, or a push of the 32-bit
/// integer it parses to.
pub fn lex_word(text: &str) -> (r: Option<Word>)
    ensures
        r == recognize(text@, parsed_i32(text@)),
{
    word_from(text, parse_number(text))
}

/// Turns the source `lines` read from `program_path` into tokens.
pub fn lex_file(program_path: &str, lines: &Vec<String>) -> (r: Result<Vec<Token>, LexError>)
    ensures
        match r {
            Ok(tokens) => lexed(program_path@, lines@, tokens@),
            Err(e) => lex_fails_with(program_path@, lines@, e),
        },
{
    if lines.len() == 0 {
        return Err(LexError::NoLines);
    }
    let mut tokens: Vec<Token> = Vec::new();
    let mut row_idx: usize = 0;
    assert(lexeme_seq(tokens@) =~= Seq::empty());
    while row_idx < lines.len()
        invariant
            row_idx <= lines@.len(),
            lexemes(lines@, row_idx as nat) == Ok::<Seq<Lexeme>, BadSpot>(lexeme_seq(tokens@)),
            forall|k: int| 0 <= k < tokens@.len() ==> (#[trigger] tokens@[k]).file_path@ == program_path@,
        decreases lines@.len() - row_idx,
    {
        let row_no: usize = row_idx + 1;
        let words = find_word_and_col(lines[row_idx].as_str());
        let ghost base = lexeme_seq(tokens@);
        let ghost mut more: Seq<Lexeme> = Seq::empty();
        let mut k: usize = 0;
        assert(lexeme_seq(tokens@) =~= base + more);
        while k < words.len()
            invariant
                k <= words@.len(),
                row_idx < lines@.len(),
                row_no == row_idx + 1,
                spellings(words@) == words_of(lines@[row_idx as int]@),
                line_lexemes(spellings(words@), row_no as int, k as nat) == Ok::<Seq<Lexeme>, BadSpot>(more),
                lexeme_seq(tokens@) == base + more,
                lexemes(lines@, row_idx as nat) == Ok::<Seq<Lexeme>, BadSpot>(base),
                forall|k: int| 0 <= k < tokens@.len() ==> (#[trigger] tokens@[k]).file_path@ == program_path@,
            decreases words@.len() - k,
        {
            let text = words[k].0.as_str();
            let col_no: usize = words[k].1;
            assert(spellings(words@)[k as int].text == text@);
            match lex_word(text) {
                Some(word) => {
                    let ghost before = tokens@;
                    tokens.push(Token { file_path: String::from_str(program_path), col: col_no, row: row_no, word });
                    proof {
                        let lexeme = Lexeme { row: row_no as int, col: col_no as int, word };
                        assert(lexeme_seq(tokens@) =~= lexeme_seq(before).push(lexeme));
                        more = more.push(lexeme);
                        assert(lexeme_seq(tokens@) =~= base + more);
                    }
                },
                None => {
                    proof {
                        lemma_line_error_stays(spellings(words@), row_no as int, (k + 1) as nat, words@.len());
                        lemma_lex_error_stays(lines@, row_no as nat, lines@.len());
                    }
                    return Err(LexError::BadWord {
                        file_path: String::from_str(program_path),
                        row: row_no,
                        col: col_no,
                        word: String::from_str(text),
                    });
                },
            }
            k += 1;
        }
        row_idx += 1;
    }
    Ok(tokens)
}

/// Lexes the source `lines` read from `program_path` and resolves its blocks.
pub fn load_program_from_file(program_path: &str, lines: &Vec<String>) -> (r: Result<Vec<Token>, LoadError>)
    ensures
        match r {
            Ok(program) => exists|tokens: Seq<Token>| #[trigger]
                lexed(program_path@, lines@, tokens) && well_nested(tokens) && resolved_from(
                    tokens,
                    program@,
                ),
            Err(LoadError::Lex(e)) => lex_fails_with(program_path@, lines@, e),
            Err(LoadError::Structure(d)) => exists|tokens: Seq<Token>| #[trigger]
                lexed(program_path@, lines@, tokens) && structural_error(tokens) == Some(d),
        },
{
    match lex_file(program_path, lines) {
        Err(e) => Err(LoadError::Lex(e)),
        Ok(tokens) => {
            let ghost lexed_tokens = tokens@;
            match crossreference_blocks(tokens) {
                Ok(program) => {
                    assert(lexed(program_path@, lines@, lexed_tokens));
                    Ok(program)
                },
                Err(d) => {
                    assert(lexed(program_path@, lines@, lexed_tokens));
                    Err(LoadError::Structure(d))
                },
            }
        },
    }
}

} // verus!
