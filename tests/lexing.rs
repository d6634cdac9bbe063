use fluid_parser::lexer::Lexer;
use fluid_parser::numeral::{parse_decimal, parse_i32, parse_u32, Decimal};
use fluid_parser::parser::Parser;
use fluid_parser::token::TokenType;

#[test]
fn skips_header_line_and_spaces() {
    let mut l = Lexer::new("# header line\n  Fl_Box {a b}\t}");
    let t = l.next();
    assert_eq!(t.typ, TokenType::Word);
    assert_eq!(t.word, "Fl_Box");
    assert_eq!((t.start, t.end), (16, 22));
    let t = l.next();
    assert_eq!(t.typ, TokenType::OpenBrace);
    assert_eq!((t.start, t.end), (23, 24));
    let t = l.next();
    assert_eq!(t.word, "a");
    let t = l.next();
    assert_eq!(t.word, "b");
    assert_eq!(l.next().typ, TokenType::CloseBrace);
    assert_eq!(l.next().typ, TokenType::CloseBrace);
    let t = l.next();
    assert_eq!(t.typ, TokenType::Eof);
    assert_eq!((t.start, t.end), (30, 30));
    let t = l.next();
    assert_eq!(t.typ, TokenType::Eof);
    assert_eq!((t.start, t.end), (30, 30));
}

#[test]
fn open_brace_does_not_end_a_word() {
    let mut l = Lexer::new("a{b} c");
    let t = l.next();
    assert_eq!(t.typ, TokenType::Word);
    assert_eq!(t.word, "a{b");
    assert_eq!((t.start, t.end), (0, 3));
    let t = l.next();
    assert_eq!(t.typ, TokenType::CloseBrace);
    assert_eq!((t.start, t.end), (3, 4));
    let t = l.next();
    assert_eq!(t.word, "c");
    assert_eq!((t.start, t.end), (5, 6));
    for _ in 0..3 {
        let t = l.next();
        assert_eq!(t.typ, TokenType::Eof);
        assert_eq!((t.start, t.end), (6, 6));
    }
}

#[test]
fn code_steps_over_trailing_block() {
    let p = Parser::new(Lexer::new("{x = 1;} {}"));
    let (code, next) = p.consume_code(0).unwrap();
    assert_eq!(code, "x = 1;");
    assert_eq!(next, 7);
    let (code, next) = p.consume_braced_string(0).unwrap();
    assert_eq!(code, "x = 1;");
    assert_eq!(next, 5);
}

#[test]
fn parser_starts_at_first_token() {
    let p = Parser::new(Lexer::new("{ }"));
    assert_eq!(p.i, 0);
    assert_eq!(p.tokens.len(), 3);
    assert_eq!(p.tokens[0].typ, TokenType::OpenBrace);
    assert_eq!((p.tokens[1].start, p.tokens[1].end), (2, 3));
    assert_eq!((p.tokens[2].typ, p.tokens[2].start), (TokenType::Eof, 3));
}

#[test]
fn parse_leaves_cursor_at_end() {
    let mut p = Parser::new(Lexer::new("version 1 x"));
    assert!(p.parse().is_ok());
    assert_eq!(p.i, 3);
}

#[test]
fn multibyte_words() {
    let mut l = Lexer::new("label {héllo wörld}");
    assert_eq!(l.next().word, "label");
    l.next();
    let t = l.next();
    assert_eq!(t.word, "héllo");
    assert_eq!((t.start, t.end), (7, 13));
}

#[test]
fn parser_keeps_all_tokens() {
    let p = Parser::new(Lexer::new("x { y }"));
    assert_eq!(p.tokens.len(), 5);
    assert_eq!(p.tokens[4].typ, TokenType::Eof);
    assert_eq!(p.i, 0);
}

#[test]
fn hash_without_space_is_a_word() {
    let mut l = Lexer::new("#x y");
    assert_eq!(l.next().word, "#x");
}

#[test]
fn unsigned_numerals() {
    assert_eq!(parse_u32(b"0"), Some(0));
    assert_eq!(parse_u32(b"+42"), Some(42));
    assert_eq!(parse_u32(b"4294967295"), Some(4294967295));
    assert_eq!(parse_u32(b"4294967296"), None);
    assert_eq!(parse_u32(b"-1"), None);
    assert_eq!(parse_u32(b""), None);
    assert_eq!(parse_u32(b"+"), None);
    assert_eq!(parse_u32(b"12a"), None);
}

#[test]
fn signed_numerals() {
    assert_eq!(parse_i32(b"-2147483648"), Some(-2147483648));
    assert_eq!(parse_i32(b"2147483647"), Some(2147483647));
    assert_eq!(parse_i32(b"2147483648"), None);
    assert_eq!(parse_i32(b"-0"), Some(0));
    assert_eq!(parse_i32(b"-"), None);
    assert_eq!(parse_i32(b"--1"), None);
}

#[test]
fn decimal_numerals() {
    assert_eq!(parse_decimal(b"1.0400"), Some(Decimal { negative: false, mantissa: 10400, exponent: -4 }));
    assert_eq!(parse_decimal(b"5."), Some(Decimal { negative: false, mantissa: 5, exponent: 0 }));
    assert_eq!(parse_decimal(b"-.5"), Some(Decimal { negative: true, mantissa: 5, exponent: -1 }));
    assert_eq!(parse_decimal(b"2E-3"), Some(Decimal { negative: false, mantissa: 2, exponent: -3 }));
    assert_eq!(parse_decimal(b"."), None);
    assert_eq!(parse_decimal(b"abc"), None);
    assert_eq!(parse_decimal(b"1e"), None);
    assert_eq!(parse_decimal(b"inf"), None);
    assert_eq!(parse_decimal(b"18446744073709551615"), Some(Decimal { negative: false, mantissa: 18446744073709551615, exponent: 0 }));
    assert_eq!(parse_decimal(b"18446744073709551616"), None);
}
