use rlox::scanner::{number_lexemes, Scanner, ScannerError};
use rlox::token::{Token, TokenKind};

fn kinds_of(source: &str) -> Vec<TokenKind> {
    let mut scanner = Scanner::new(source);
    let mut kinds = Vec::new();
    while let Some(item) = scanner.next() {
        kinds.push(item.expect("expected a token").kind);
    }
    kinds
}

fn tokens_of(source: &str) -> Vec<Result<Token<'_>, ScannerError>> {
    let mut scanner = Scanner::new(source);
    let mut items = Vec::new();
    while let Some(item) = scanner.next() {
        items.push(item);
    }
    items
}

#[test]
fn single_character_tokens() {
    assert_eq!(
        kinds_of("( ) { } ; , . + - * /"),
        vec![
            TokenKind::LParen,
            TokenKind::RParen,
            TokenKind::LCurly,
            TokenKind::RCurly,
            TokenKind::Semicolon,
            TokenKind::Comma,
            TokenKind::Dot,
            TokenKind::Plus,
            TokenKind::Minus,
            TokenKind::Star,
            TokenKind::Slash,
        ]
    );
}

#[test]
fn one_or_two_character_operators() {
    assert_eq!(
        kinds_of("! != = == < <= > >= =="),
        vec![
            TokenKind::Bang,
            TokenKind::BangEq,
            TokenKind::Equal,
            TokenKind::EqualEqual,
            TokenKind::Lt,
            TokenKind::LtEq,
            TokenKind::Gt,
            TokenKind::GtEq,
            TokenKind::EqualEqual,
        ]
    );
}

#[test]
fn keywords_and_identifiers() {
    assert_eq!(
        kinds_of("and or true false if else while for class super this fun return nil print var"),
        vec![
            TokenKind::And,
            TokenKind::Or,
            TokenKind::True,
            TokenKind::False,
            TokenKind::If,
            TokenKind::Else,
            TokenKind::While,
            TokenKind::For,
            TokenKind::Class,
            TokenKind::Super,
            TokenKind::This,
            TokenKind::Fun,
            TokenKind::Return,
            TokenKind::Nil,
            TokenKind::Print,
            TokenKind::Var,
        ]
    );
    assert_eq!(
        kinds_of("andx _and ands2 x"),
        vec![
            TokenKind::Identifier,
            TokenKind::Identifier,
            TokenKind::Identifier,
            TokenKind::Identifier,
        ]
    );
}

#[test]
fn identifier_lexemes_and_lines() {
    let items = tokens_of("foo\nbar_9");
    let t0 = items[0].as_ref().expect("token");
    let t1 = items[1].as_ref().expect("token");
    assert_eq!(t0.lexeme, "foo");
    assert_eq!(t0.line, 1);
    assert_eq!(t1.lexeme, "bar_9");
    assert_eq!(t1.line, 2);
}

#[test]
fn number_lexeme_spans_digits_and_dot() {
    let items = tokens_of("12.5 7 007 3.");
    let lexemes: Vec<&str> = items
        .iter()
        .map(|i| i.as_ref().expect("token").lexeme)
        .collect();
    assert_eq!(lexemes, vec!["12.5", "7", "007", "3."]);
    for i in &items {
        assert_eq!(i.as_ref().expect("token").kind, TokenKind::Number);
    }
}

#[test]
fn bad_number_multiple_dots() {
    let items = tokens_of("1.2.3");
    assert_eq!(items.len(), 1);
    match &items[0] {
        Err(ScannerError::BadNumber { line, n }) => {
            assert_eq!(*line, 1);
            assert_eq!(n, "1.2.3");
        }
        other => panic!("expected BadNumber, got {:?}", other),
    }
}

#[test]
fn bad_number_non_ascii_digit() {
    // An Arabic-Indic digit is numeric, so it begins a number run, but the
    // run denotes no double-precision value.
    let items = tokens_of("\u{0661}\u{0662}");
    assert_eq!(items.len(), 1);
    match &items[0] {
        Err(ScannerError::BadNumber { line, .. }) => assert_eq!(*line, 1),
        other => panic!("expected BadNumber, got {:?}", other),
    }
}

#[test]
fn string_lexeme_excludes_quotes() {
    let items = tokens_of(" \"hello world\" ");
    let t = items[0].as_ref().expect("token");
    assert_eq!(t.kind, TokenKind::Str);
    assert_eq!(t.lexeme, "hello world");
}

#[test]
fn unterminated_string_reports_starting_line() {
    let items = tokens_of("\"abc");
    assert_eq!(items.len(), 1);
    match &items[0] {
        Err(ScannerError::UnterminatedString { line }) => assert_eq!(*line, 1),
        other => panic!("expected UnterminatedString, got {:?}", other),
    }
    let items = tokens_of("\n\n\"abc");
    match &items[0] {
        Err(ScannerError::UnterminatedString { line }) => assert_eq!(*line, 3),
        other => panic!("expected UnterminatedString, got {:?}", other),
    }
}

#[test]
fn bad_char_reported_and_scanning_continues() {
    let items = tokens_of("1 @ 2");
    assert_eq!(items.len(), 3);
    assert_eq!(items[0].as_ref().expect("token").kind, TokenKind::Number);
    match &items[1] {
        Err(ScannerError::BadChar { line, c }) => {
            assert_eq!(*line, 1);
            assert_eq!(*c, '@');
        }
        other => panic!("expected BadChar, got {:?}", other),
    }
    assert_eq!(items[2].as_ref().expect("token").kind, TokenKind::Number);
}

#[test]
fn scanner_error_line_accessor() {
    let e = ScannerError::BadChar { line: 7, c: '#' };
    assert_eq!(e.line(), 7);
    let e = ScannerError::BadNumber {
        line: 9,
        n: String::from("1..2"),
    };
    assert_eq!(e.line(), 9);
    let e = ScannerError::UnterminatedString { line: 3 };
    assert_eq!(e.line(), 3);
}

#[test]
fn comments_run_to_line_end() {
    let items = tokens_of("1 // 2 + 3\n4");
    let lexemes: Vec<&str> = items
        .iter()
        .map(|i| i.as_ref().expect("token").lexeme)
        .collect();
    assert_eq!(lexemes, vec!["1", "4"]);
    assert_eq!(items[1].as_ref().expect("token").line, 2);
}

#[test]
fn comment_at_end_of_input() {
    let items = tokens_of("1 // trailing");
    assert_eq!(items.len(), 1);
    assert_eq!(items[0].as_ref().expect("token").lexeme, "1");
}

#[test]
fn line_counting_skips_whitespace_runs() {
    let items = tokens_of("1 \n\n  2\t3");
    let lines: Vec<u32> = items
        .iter()
        .map(|i| i.as_ref().expect("token").line)
        .collect();
    assert_eq!(lines, vec![1, 3, 3]);
}

#[test]
fn slash_alone_is_a_token() {
    assert_eq!(kinds_of("1 / 2"), vec![
        TokenKind::Number,
        TokenKind::Slash,
        TokenKind::Number,
    ]);
}

#[test]
fn number_lexemes_in_scan_order() {
    let lex = number_lexemes("1 + 2.5 * (3) // 4\n\"5\" 6.");
    assert_eq!(lex, vec!["1", "2.5", "3", "6."]);
}

#[test]
fn number_lexemes_skip_malformed_runs() {
    let lex = number_lexemes("1.2.3 4");
    assert_eq!(lex, vec!["4"]);
}

#[test]
fn empty_source_scans_to_nothing() {
    assert_eq!(tokens_of("").len(), 0);
    assert_eq!(tokens_of("   \n\t ").len(), 0);
    assert_eq!(tokens_of("// only a comment").len(), 0);
}

#[test]
fn leading_dot_is_its_own_token() {
    assert_eq!(kinds_of(".5"), vec![TokenKind::Dot, TokenKind::Number]);
}

#[test]
fn crlf_counts_one_line() {
    let items = tokens_of("1\r\n2");
    assert_eq!(items[0].as_ref().expect("token").line, 1);
    assert_eq!(items[1].as_ref().expect("token").line, 2);
}
