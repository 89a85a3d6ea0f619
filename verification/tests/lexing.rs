use rusty_forth::lexer::{
    blank_mask, find_word_and_col, keyword_of, lex_file, lex_word, load_program_from_file,
    same_text, split_words, word_from, LexError, LoadError,
};
use rusty_forth::token::{Token, Word};

fn pairs(words: &[(&str, usize)]) -> Vec<(String, usize)> {
    words.iter().map(|(w, c)| (w.to_string(), *c)).collect()
}

fn lines(source: &[&str]) -> Vec<String> {
    source.iter().map(|l| l.to_string()).collect()
}

#[test]
fn words_carry_the_column_of_their_first_character() {
    assert_eq!(find_word_and_col("1 2 + ."), pairs(&[("1", 1), ("2", 3), ("+", 5), (".", 7)]));
    assert_eq!(find_word_and_col("12  345"), pairs(&[("12", 1), ("345", 5)]));
}

#[test]
fn blank_runs_and_edges_give_no_words() {
    assert_eq!(find_word_and_col(""), pairs(&[]));
    assert_eq!(find_word_and_col("   \t "), pairs(&[]));
    assert_eq!(find_word_and_col("  if\t\tend  "), pairs(&[("if", 3), ("end", 7)]));
    assert_eq!(find_word_and_col("x"), pairs(&[("x", 1)]));
}

#[test]
fn columns_count_characters() {
    assert_eq!(find_word_and_col("\u{e9}\u{e9} \u{3000}ab"), pairs(&[("\u{e9}\u{e9}", 1), ("ab", 5)]));
}

#[test]
fn mask_marks_whitespace() {
    assert_eq!(blank_mask("a b\tc\n"), vec![false, true, false, true, false, true]);
    assert_eq!(blank_mask(""), Vec::<bool>::new());
}

#[test]
fn split_follows_the_given_mask() {
    let mask = vec![false, false, true, false, true];
    assert_eq!(split_words("ab,c;", &mask), pairs(&[("ab", 1), ("c", 4)]));
    let none = vec![false; 5];
    assert_eq!(split_words("a b c", &none), pairs(&[("a b c", 1)]));
}

#[test]
fn texts_compare_by_characters() {
    assert!(same_text("while", "while"));
    assert!(same_text("", ""));
    assert!(!same_text("do", "dup"));
    assert!(!same_text("do", "d"));
    assert!(!same_text("if", "of"));
}

#[test]
fn keywords_are_recognised() {
    assert_eq!(keyword_of("+"), Some(Word::OpPlus));
    assert_eq!(keyword_of("-"), Some(Word::OpMinus));
    assert_eq!(keyword_of("."), Some(Word::OpDump));
    assert_eq!(keyword_of("="), Some(Word::OpEqual));
    assert_eq!(keyword_of("dup"), Some(Word::OpDup));
    assert_eq!(keyword_of(">"), Some(Word::OpGt));
    assert_eq!(keyword_of("if"), Some(Word::OpIf(None)));
    assert_eq!(keyword_of("end"), Some(Word::OpEnd(None)));
    assert_eq!(keyword_of("else"), Some(Word::OpElse(None)));
    assert_eq!(keyword_of("while"), Some(Word::OpWhile));
    assert_eq!(keyword_of("do"), Some(Word::OpDo(None)));
    assert_eq!(keyword_of("If"), None);
    assert_eq!(keyword_of("12"), None);
    assert_eq!(keyword_of(""), None);
}

#[test]
fn keyword_wins_over_number() {
    assert_eq!(word_from("+", Some(5)), Some(Word::OpPlus));
    assert_eq!(word_from("7", Some(7)), Some(Word::OpPush(7)));
    assert_eq!(word_from("seven", None), None);
}

#[test]
fn numbers_are_32_bit_integers() {
    assert_eq!(lex_word("0"), Some(Word::OpPush(0)));
    assert_eq!(lex_word("42"), Some(Word::OpPush(42)));
    assert_eq!(lex_word("-17"), Some(Word::OpPush(-17)));
    assert_eq!(lex_word("+8"), Some(Word::OpPush(8)));
    assert_eq!(lex_word("2147483647"), Some(Word::OpPush(2147483647)));
    assert_eq!(lex_word("-2147483648"), Some(Word::OpPush(-2147483648)));
    assert_eq!(lex_word("2147483648"), None);
    assert_eq!(lex_word("1.5"), None);
    assert_eq!(lex_word("abc"), None);
    assert_eq!(lex_word("-"), Some(Word::OpMinus));
}

#[test]
fn tokens_carry_file_row_and_column() {
    let tokens = lex_file("dir/p.rf", &lines(&["1 if", "", "  2 .", "end"])).expect("lexes");
    let expected = vec![
        Token { file_path: "dir/p.rf".to_string(), row: 1, col: 1, word: Word::OpPush(1) },
        Token { file_path: "dir/p.rf".to_string(), row: 1, col: 3, word: Word::OpIf(None) },
        Token { file_path: "dir/p.rf".to_string(), row: 3, col: 3, word: Word::OpPush(2) },
        Token { file_path: "dir/p.rf".to_string(), row: 3, col: 5, word: Word::OpDump },
        Token { file_path: "dir/p.rf".to_string(), row: 4, col: 1, word: Word::OpEnd(None) },
    ];
    assert_eq!(tokens, expected);
}

#[test]
fn source_without_lines_is_rejected() {
    assert_eq!(lex_file("p.rf", &Vec::new()), Err(LexError::NoLines));
    assert_eq!(load_program_from_file("p.rf", &Vec::new()), Err(LoadError::Lex(LexError::NoLines)));
}

#[test]
fn blank_source_has_no_tokens() {
    assert_eq!(lex_file("p.rf", &lines(&["", "   "])), Ok(Vec::new()));
}

#[test]
fn first_bad_word_is_reported() {
    let e = lex_file("p.rf", &lines(&["1 2 +", "3 foo bar"])).expect_err("bad word");
    assert_eq!(
        e,
        LexError::BadWord { file_path: "p.rf".to_string(), row: 2, col: 3, word: "foo".to_string() }
    );
    let e = load_program_from_file("p.rf", &lines(&["end 99999999999"])).expect_err("bad word");
    assert_eq!(
        e,
        LoadError::Lex(LexError::BadWord {
            file_path: "p.rf".to_string(),
            row: 1,
            col: 5,
            word: "99999999999".to_string()
        })
    );
}

#[test]
fn loading_resolves_blocks() {
    let program = load_program_from_file("p.rf", &lines(&["0 if 1 .", "end"])).expect("loads");
    let words: Vec<Word> = program.iter().map(|t| t.word).collect();
    assert_eq!(
        words,
        vec![
            Word::OpPush(0),
            Word::OpIf(Some(4)),
            Word::OpPush(1),
            Word::OpDump,
            Word::OpEnd(Some(5))
        ]
    );
    assert_eq!(program[4].row, 2);
    assert_eq!(program[4].col, 1);
}
