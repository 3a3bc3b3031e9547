use rlox::lexer::{Lexer, Token, TokenKind};

fn scan_all(source: &str) -> Vec<Token> {
    let mut lexer = Lexer::from(source);
    let mut tokens = Vec::new();
    loop {
        let tok = lexer.scan_token();
        let done = tok.kind == TokenKind::Eof;
        tokens.push(tok);
        if done {
            break;
        }
    }
    tokens
}

fn kinds(source: &str) -> Vec<TokenKind> {
    scan_all(source).into_iter().map(|t| t.kind).collect()
}

#[test]
fn single_character_tokens() {
    assert_eq!(
        kinds("(){};,.-+*/"),
        vec![
            TokenKind::LeftParen,
            TokenKind::RightParen,
            TokenKind::LeftBrace,
            TokenKind::RightBrace,
            TokenKind::Semicolon,
            TokenKind::Comma,
            TokenKind::Dot,
            TokenKind::Minus,
            TokenKind::Plus,
            TokenKind::Star,
            TokenKind::Slash,
            TokenKind::Eof,
        ]
    );
}

#[test]
fn one_or_two_character_tokens() {
    assert_eq!(
        kinds("! != = == > >= < <="),
        vec![
            TokenKind::Bang,
            TokenKind::BangEqual,
            TokenKind::Equal,
            TokenKind::EqualEqual,
            TokenKind::Greater,
            TokenKind::GreaterEqual,
            TokenKind::Less,
            TokenKind::LessEqual,
            TokenKind::Eof,
        ]
    );
    let toks = scan_all("!===");
    assert_eq!(toks[0].lexeme, "!=");
    assert_eq!(toks[1].lexeme, "==");
}

#[test]
fn every_keyword_is_recognized() {
    let words = [
        ("and", TokenKind::And),
        ("class", TokenKind::Class),
        ("else", TokenKind::Else),
        ("false", TokenKind::False),
        ("for", TokenKind::For),
        ("fun", TokenKind::Fun),
        ("if", TokenKind::If),
        ("nil", TokenKind::Nil),
        ("or", TokenKind::Or),
        ("print", TokenKind::Print),
        ("return", TokenKind::Return),
        ("super", TokenKind::Super),
        ("this", TokenKind::This),
        ("true", TokenKind::True),
        ("var", TokenKind::Var),
        ("while", TokenKind::While),
    ];
    for (word, kind) in words {
        let toks = scan_all(word);
        assert_eq!(toks[0].kind, kind, "{word}");
        assert_eq!(toks[0].lexeme, word);
        assert_eq!(toks[1].kind, TokenKind::Eof);
    }
}

#[test]
fn near_keywords_are_identifiers() {
    for word in ["an", "andy", "classy", "f", "fa", "fals", "fort", "funny", "th", "thi", "tru",
        "truth", "t", "vars", "whiles", "orb", "_and", "And", "x1_y"]
    {
        let toks = scan_all(word);
        assert_eq!(toks[0].kind, TokenKind::Identifier, "{word}");
        assert_eq!(toks[0].lexeme, word);
    }
}

#[test]
fn numbers_with_and_without_fraction() {
    let toks = scan_all("123 1.5 7.");
    assert_eq!(toks[0].kind, TokenKind::Number);
    assert_eq!(toks[0].lexeme, "123");
    assert_eq!(toks[1].kind, TokenKind::Number);
    assert_eq!(toks[1].lexeme, "1.5");
    assert_eq!(toks[2].kind, TokenKind::Number);
    assert_eq!(toks[2].lexeme, "7");
    assert_eq!(toks[3].kind, TokenKind::Dot);
    assert_eq!(toks[4].kind, TokenKind::Eof);
}

#[test]
fn string_literal_keeps_its_quotes() {
    let toks = scan_all("\"hello world\"");
    assert_eq!(toks[0].kind, TokenKind::String);
    assert_eq!(toks[0].lexeme, "\"hello world\"");
    assert_eq!(toks[0].line, 1);
}

#[test]
fn string_spanning_lines_ends_on_its_last_line() {
    let toks = scan_all("\"a\nb\nc\" x");
    assert_eq!(toks[0].kind, TokenKind::String);
    assert_eq!(toks[0].line, 3);
    assert_eq!(toks[1].kind, TokenKind::Identifier);
    assert_eq!(toks[1].line, 3);
}

#[test]
fn unterminated_string_is_an_error() {
    let toks = scan_all("\"abc");
    assert_eq!(toks[0].kind, TokenKind::Error);
    assert_eq!(toks[0].lexeme, "Unterminated string");
    assert_eq!(toks[1].kind, TokenKind::Eof);
}

#[test]
fn unrecognized_character_is_an_error() {
    let toks = scan_all("@ x");
    assert_eq!(toks[0].kind, TokenKind::Error);
    assert_eq!(toks[0].lexeme, "Unrecognized character");
    assert_eq!(toks[1].kind, TokenKind::Identifier);
    assert_eq!(toks[1].lexeme, "x");
}

#[test]
fn comments_and_blanks_are_skipped_and_lines_counted() {
    let toks = scan_all("// a comment\n  var x\t=\r\n// another\n 1;");
    let got: Vec<(TokenKind, usize)> = toks.iter().map(|t| (t.kind, t.line)).collect();
    assert_eq!(
        got,
        vec![
            (TokenKind::Var, 2),
            (TokenKind::Identifier, 2),
            (TokenKind::Equal, 2),
            (TokenKind::Number, 4),
            (TokenKind::Semicolon, 4),
            (TokenKind::Eof, 4),
        ]
    );
}

#[test]
fn comment_at_end_of_text() {
    assert_eq!(kinds("x // trailing"), vec![TokenKind::Identifier, TokenKind::Eof]);
}

#[test]
fn end_of_text_repeats_eof() {
    let mut lexer = Lexer::from("  ");
    for _ in 0..3 {
        let tok = lexer.scan_token();
        assert_eq!(tok.kind, TokenKind::Eof);
        assert_eq!(tok.lexeme, "");
        assert_eq!(tok.line, 1);
    }
}

#[test]
fn empty_source_gives_eof() {
    let toks = scan_all("");
    assert_eq!(toks.len(), 1);
    assert_eq!(toks[0].kind, TokenKind::Eof);
}

#[test]
fn peek_looks_at_the_current_byte() {
    let mut lexer = Lexer::from("ab c");
    assert_eq!(lexer.peek(), 'a');
    let tok = lexer.scan_token();
    assert_eq!(tok.lexeme, "ab");
    assert_eq!(lexer.peek(), ' ');
    let tok = lexer.scan_token();
    assert_eq!(tok.lexeme, "c");
    assert_eq!(lexer.peek(), '\0');
}

#[test]
fn lexemes_are_the_source_text() {
    let source = "fun add(a, b) { return a + b; }";
    let toks = scan_all(source);
    let joined: Vec<&str> = toks.iter().map(|t| t.lexeme.as_str()).collect();
    assert_eq!(
        joined,
        vec!["fun", "add", "(", "a", ",", "b", ")", "{", "return", "a", "+", "b", ";", "}", ""]
    );
}

#[test]
fn non_ascii_bytes_are_reported_and_skipped() {
    let toks = scan_all("é x");
    assert_eq!(toks[0].kind, TokenKind::Error);
    assert_eq!(toks[0].lexeme, "Unrecognized character");
    let last = &toks[toks.len() - 2];
    assert_eq!(last.kind, TokenKind::Identifier);
    assert_eq!(last.lexeme, "x");
}

#[test]
fn scanning_always_reaches_eof() {
    let source = "var s = \"x\" ; @ # 12.5.3 // c\n!";
    let toks = scan_all(source);
    assert!(toks.len() <= source.len() + 1);
    assert_eq!(toks.last().unwrap().kind, TokenKind::Eof);
}

#[test]
fn tokens_tile_the_text_and_end_within_its_length() {
    let source = "var x = 1; // note\n  print x;";
    let tokens = scan_all(source);
    assert!(tokens.len() <= source.len() + 1);
    let mut lengths = 0;
    for t in &tokens[..tokens.len() - 1] {
        assert!(!t.lexeme.is_empty());
        lengths += t.lexeme.len();
    }
    assert!(lengths <= source.len());
    let mut lexer = Lexer::from(source);
    for _ in 0..tokens.len() {
        lexer.scan_token();
    }
    assert_eq!(lexer.scan_token().kind, TokenKind::Eof);
    assert_eq!(lexer.scan_token().kind, TokenKind::Eof);
}
