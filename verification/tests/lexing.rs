use graphrite_core::lexer::{Lexer, Token, TokenKind};

fn tok(kind: TokenKind, line: usize, col: usize) -> Token {
    Token { kind, line, col }
}

fn ident(text: &str) -> TokenKind {
    TokenKind::Identifier(text.to_string())
}

fn kinds(src: &str) -> Vec<TokenKind> {
    Lexer::tokenize(src).into_iter().map(|t| t.kind).collect()
}

#[test]
fn empty_text_is_the_end_marker_alone() {
    assert_eq!(Lexer::tokenize(""), vec![tok(TokenKind::Eof, 1, 1)]);
}

#[test]
fn open_last_line_gets_a_newline_at_column_one() {
    assert_eq!(
        Lexer::tokenize("a"),
        vec![
            tok(ident("a"), 1, 1),
            tok(TokenKind::Newline, 1, 1),
            tok(TokenKind::Eof, 2, 1),
        ]
    );
}

#[test]
fn closed_line_gets_its_newline_where_it_stands() {
    assert_eq!(
        Lexer::tokenize("a\n"),
        vec![
            tok(ident("a"), 1, 1),
            tok(TokenKind::Newline, 1, 2),
            tok(TokenKind::Eof, 2, 1),
        ]
    );
}

#[test]
fn direction_is_a_keyword() {
    assert_eq!(
        Lexer::tokenize("direction LR\n"),
        vec![
            tok(TokenKind::DirectionKw, 1, 1),
            tok(ident("LR"), 1, 11),
            tok(TokenKind::Newline, 1, 13),
            tok(TokenKind::Eof, 2, 1),
        ]
    );
}

#[test]
fn longer_word_is_no_keyword() {
    assert_eq!(
        kinds("directions direction_ Direction"),
        vec![
            ident("directions"),
            ident("direction_"),
            ident("Direction"),
            TokenKind::Newline,
            TokenKind::Eof,
        ]
    );
}

#[test]
fn arrows_with_and_without_spaces() {
    assert_eq!(
        Lexer::tokenize("a-->b -.-> c"),
        vec![
            tok(ident("a"), 1, 1),
            tok(TokenKind::ArrowFlow, 1, 2),
            tok(ident("b"), 1, 5),
            tok(TokenKind::ArrowCond, 1, 7),
            tok(ident("c"), 1, 12),
            tok(TokenKind::Newline, 1, 1),
            tok(TokenKind::Eof, 2, 1),
        ]
    );
}

#[test]
fn broken_arrows_are_passed_over() {
    assert_eq!(
        kinds("a - b -- c -> d -.- e ->\n"),
        vec![
            ident("a"),
            ident("b"),
            ident("c"),
            ident("d"),
            ident("e"),
            TokenKind::Newline,
            TokenKind::Eof,
        ]
    );
}

#[test]
fn arrow_at_the_very_end() {
    assert_eq!(
        kinds("-->"),
        vec![TokenKind::ArrowFlow, TokenKind::Newline, TokenKind::Eof]
    );
    assert_eq!(
        kinds("-.->"),
        vec![TokenKind::ArrowCond, TokenKind::Newline, TokenKind::Eof]
    );
    assert_eq!(kinds("--"), vec![TokenKind::Newline, TokenKind::Eof]);
}

#[test]
fn brackets_and_pipe() {
    assert_eq!(
        Lexer::tokenize("[|]\n"),
        vec![
            tok(TokenKind::LBracket, 1, 1),
            tok(TokenKind::Pipe, 1, 2),
            tok(TokenKind::RBracket, 1, 3),
            tok(TokenKind::Newline, 1, 4),
            tok(TokenKind::Eof, 2, 1),
        ]
    );
}

#[test]
fn string_literal_resolves_its_two_escapes() {
    assert_eq!(
        Lexer::tokenize("\"a\\\"b\\\\c\\n\" x\n"),
        vec![
            tok(TokenKind::StringLit("a\"b\\c\\n".to_string()), 1, 1),
            tok(ident("x"), 1, 13),
            tok(TokenKind::Newline, 1, 14),
            tok(TokenKind::Eof, 2, 1),
        ]
    );
}

#[test]
fn open_string_literal_stops_at_the_end_of_the_line() {
    assert_eq!(
        Lexer::tokenize("\"abc\nx"),
        vec![
            tok(TokenKind::StringLit("abc".to_string()), 1, 1),
            tok(TokenKind::Newline, 1, 5),
            tok(ident("x"), 2, 1),
            tok(TokenKind::Newline, 2, 1),
            tok(TokenKind::Eof, 3, 1),
        ]
    );
}

#[test]
fn backslash_before_the_end_of_the_line_is_kept() {
    assert_eq!(
        kinds("\"ab\\\n"),
        vec![
            TokenKind::StringLit("ab\\".to_string()),
            TokenKind::Newline,
            TokenKind::Eof,
        ]
    );
    assert_eq!(
        kinds("\"ab\\"),
        vec![
            TokenKind::StringLit("ab\\".to_string()),
            TokenKind::Newline,
            TokenKind::Eof,
        ]
    );
}

#[test]
fn comment_runs_to_the_end_of_its_line() {
    assert_eq!(
        Lexer::tokenize("a %% note [x]\nb"),
        vec![
            tok(ident("a"), 1, 1),
            tok(TokenKind::Comment(" note [x]".to_string()), 1, 3),
            tok(TokenKind::Newline, 1, 14),
            tok(ident("b"), 2, 1),
            tok(TokenKind::Newline, 2, 1),
            tok(TokenKind::Eof, 3, 1),
        ]
    );
}

#[test]
fn empty_comment_and_single_percent() {
    assert_eq!(
        kinds("%%\n% a\n"),
        vec![
            TokenKind::Comment(String::new()),
            TokenKind::Newline,
            ident("a"),
            TokenKind::Newline,
            TokenKind::Eof,
        ]
    );
}

#[test]
fn unknown_characters_are_passed_over() {
    assert_eq!(
        Lexer::tokenize("a $ 7 _b\t#c\r\n"),
        vec![
            tok(ident("a"), 1, 1),
            tok(ident("b"), 1, 8),
            tok(ident("c"), 1, 11),
            tok(TokenKind::Newline, 1, 13),
            tok(TokenKind::Eof, 2, 1),
        ]
    );
}

#[test]
fn identifier_takes_digits_and_underscores_after_a_letter() {
    assert_eq!(
        kinds("a1_b2 9x"),
        vec![ident("a1_b2"), ident("x"), TokenKind::Newline, TokenKind::Eof]
    );
}

#[test]
fn columns_count_characters() {
    assert_eq!(
        Lexer::tokenize("\"\u{e9}\u{8d8a}\" x\n"),
        vec![
            tok(TokenKind::StringLit("\u{e9}\u{8d8a}".to_string()), 1, 1),
            tok(ident("x"), 1, 6),
            tok(TokenKind::Newline, 1, 7),
            tok(TokenKind::Eof, 2, 1),
        ]
    );
}

#[test]
fn blank_lines_keep_their_newlines() {
    assert_eq!(
        Lexer::tokenize("\n\n  \nx\n"),
        vec![
            tok(TokenKind::Newline, 1, 1),
            tok(TokenKind::Newline, 2, 1),
            tok(TokenKind::Newline, 3, 3),
            tok(ident("x"), 4, 1),
            tok(TokenKind::Newline, 4, 2),
            tok(TokenKind::Eof, 5, 1),
        ]
    );
}

fn newline_tokens(src: &str) -> usize {
    kinds(src)
        .iter()
        .filter(|k| matches!(k, TokenKind::Newline))
        .count()
}

#[test]
fn one_newline_token_for_each_line() {
    let cases = [
        ("", 0),
        ("\n", 1),
        ("a", 1),
        ("a\n", 1),
        ("a\nb", 2),
        ("%% c\n\"open\n\n", 3),
        ("a --> b %% c\nx[\"X\"]\n", 2),
        ("\"never closed", 1),
        ("%% only a comment", 1),
    ];
    for (src, lines) in cases {
        assert_eq!(newline_tokens(src), lines, "{:?}", src);
        assert_eq!(src.lines().count(), lines, "{:?}", src);
    }
}

#[test]
fn end_marker_closes_every_stream_and_stands_nowhere_else() {
    for src in ["", "a", "a\n", "direction LR\na[\"A\"]\n", "%% c", "\"x"] {
        let toks = Lexer::tokenize(src);
        let last = toks.len() - 1;
        for (k, t) in toks.iter().enumerate() {
            assert_eq!(matches!(t.kind, TokenKind::Eof), k == last, "{:?}", src);
        }
        if last > 0 {
            assert!(matches!(toks[last - 1].kind, TokenKind::Newline));
        }
    }
}

#[test]
fn tokens_of_a_line_stand_in_growing_columns() {
    let toks = Lexer::tokenize("  a[\"A\"] --> | b %% c\n x -.-> y\n");
    for pair in toks.windows(2) {
        if !matches!(pair[0].kind, TokenKind::Newline) && !matches!(pair[1].kind, TokenKind::Newline) {
            assert_eq!(pair[0].line, pair[1].line);
            assert!(pair[0].col < pair[1].col);
        }
    }
}
