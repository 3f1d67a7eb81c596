
use lom::lexer::{Lexer, Token};

#[test]
fn test_basic_tokens() {
    let src = "fn add(x: Int, y: Int) -> Int\n    x + y\nend";
    let tokens = Lexer::new(src).tokenize().unwrap();
    assert_eq!(tokens[0].token, Token::Fn);
    assert!(matches!(tokens[1].token, Token::Ident(ref s) if s == "add"));
    assert_eq!(tokens[2].token, Token::LParen);
}

#[test]
fn test_operators() {
    let src = "1 + 2 == 3";
    let tokens = Lexer::new(src).tokenize().unwrap();
    assert_eq!(tokens[0].token, Token::Int(1));
    assert_eq!(tokens[1].token, Token::Plus);
    assert_eq!(tokens[2].token, Token::Int(2));
    assert_eq!(tokens[3].token, Token::Eq);
    assert_eq!(tokens[4].token, Token::Int(3));
}

#[test]
fn test_compound_assign_tokens() {
    // v0.4.1 P0-3: += -= *= /= 是独立 token(最长匹配)
    let src = "x += 1\nx -= 2\nx *= 3\nx /= 4";
    let tokens = Lexer::new(src).tokenize().unwrap();
    assert_eq!(tokens[1].token, Token::PlusEq);
    assert_eq!(tokens[4].token, Token::MinusEq);
    assert_eq!(tokens[7].token, Token::StarEq);
    assert_eq!(tokens[10].token, Token::SlashEq);
}

#[test]
fn test_arrow_minus_eq_distinct() {
    // -> 与 -= 不混淆;单独 - 仍是 Minus
    // token 序列:fn f ( ) -> Int(标识符) 1 - 2 end
    let src = "fn f() -> Int\n    1 - 2\nend";
    let tokens = Lexer::new(src).tokenize().unwrap();
    assert_eq!(tokens[4].token, Token::Arrow);
    assert_eq!(tokens[7].token, Token::Minus);
}

#[test]
fn test_string() {
    let src = "\"hello\\nworld\"";
    let tokens = Lexer::new(src).tokenize().unwrap();
    assert_eq!(tokens[0].token, Token::Str("hello\nworld".to_string()));
}

#[test]
fn test_float() {
    let src = "3.14";
    let tokens = Lexer::new(src).tokenize().unwrap();
    assert!(matches!(&tokens[0].token, Token::Float(t) if t.parse::<f64>().unwrap() == 3.14));
}

#[test]
fn test_comments() {
    let src = "# 注释\nlet x = 1 #- 块注释 -# + 2";
    let tokens = Lexer::new(src).tokenize().unwrap();
    assert_eq!(tokens[0].token, Token::Let);
    assert!(matches!(tokens[1].token, Token::Ident(ref s) if s == "x"));
    assert_eq!(tokens[2].token, Token::Assign);
    assert_eq!(tokens[3].token, Token::Int(1));
    assert_eq!(tokens[4].token, Token::Plus);
    assert_eq!(tokens[5].token, Token::Int(2));
}


#[test]
fn test_positions_and_eof() {
    let src = "let x\n  = 42";
    let tokens = Lexer::new(src).tokenize().unwrap();
    assert_eq!((tokens[0].line, tokens[0].col), (1, 1));
    assert_eq!((tokens[1].line, tokens[1].col), (1, 5));
    assert_eq!((tokens[2].line, tokens[2].col), (2, 3));
    assert_eq!(tokens[3].token, Token::Int(42));
    assert_eq!((tokens[3].line, tokens[3].col), (2, 5));
    assert_eq!(tokens[4].token, Token::Eof);
    assert_eq!((tokens[4].line, tokens[4].col), (2, 7));
}

#[test]
fn test_unexpected_char_error() {
    let err = Lexer::new("let a = 1 @ 2").tokenize().unwrap_err();
    assert_eq!(err.message, "意外字符 '@'");
    assert_eq!((err.line, err.col), (1, 11));
}

#[test]
fn test_unclosed_string_errors() {
    let err = Lexer::new("x = \"abc").tokenize().unwrap_err();
    assert_eq!(err.message, "未闭合的字符串");
    assert_eq!((err.line, err.col), (1, 5));
    let err = Lexer::new("\"abc\\").tokenize().unwrap_err();
    assert_eq!(err.message, "未闭合的字符串转义");
}

#[test]
fn test_integer_overflow_error() {
    let err = Lexer::new("99999999999999999999").tokenize().unwrap_err();
    assert_eq!(err.message, "无效整数: 99999999999999999999");
    let ok = Lexer::new("9223372036854775807").tokenize().unwrap();
    assert_eq!(ok[0].token, Token::Int(i64::MAX));
}

#[test]
fn test_recover_agrees_with_strict() {
    let src = "fn f() -> Int\n  1 + 2\nend";
    let strict = Lexer::new(src).tokenize().unwrap();
    let (tokens, errors) = Lexer::new(src).tokenize_recover();
    assert!(errors.is_empty());
    assert_eq!(tokens, strict);
}

#[test]
fn test_recover_skips_bad_bytes() {
    let src = "a @ b $ c";
    let (tokens, errors) = Lexer::new(src).tokenize_recover();
    assert_eq!(errors.len(), 2);
    assert_eq!(errors[0].message, "意外字符 '@'");
    assert_eq!(errors[1].col, 7);
    assert_eq!(tokens.len(), 4);
    assert_eq!(tokens[3].token, Token::Eof);
    let strict = Lexer::new(src).tokenize().unwrap_err();
    assert_eq!(strict.message, errors[0].message);
    assert_eq!((strict.line, strict.col), (errors[0].line, errors[0].col));
}

#[test]
fn test_block_comment_unclosed_and_keywords() {
    let tokens = Lexer::new("match enum from import as #- never closed").tokenize().unwrap();
    assert_eq!(tokens[0].token, Token::Match);
    assert_eq!(tokens[1].token, Token::Enum);
    assert_eq!(tokens[2].token, Token::From);
    assert_eq!(tokens[3].token, Token::Import);
    assert_eq!(tokens[4].token, Token::As);
    assert_eq!(tokens[5].token, Token::Eof);
    let ops = Lexer::new("|> | => ? != <= >= %").tokenize().unwrap();
    let kinds: Vec<Token> = ops.into_iter().map(|t| t.token).collect();
    assert_eq!(kinds, vec![Token::Pipe, Token::Bar, Token::FatArrow, Token::Question, Token::NotEq, Token::LtEq, Token::GtEq, Token::Percent, Token::Eof]);
}

#[test]
fn lex_error_describes_itself() {
    let e = lom::lexer::LexError { message: "意外字符 '@'".to_string(), line: 2, col: 7 };
    assert_eq!(e.describe(), "词法错误 (2:7): 意外字符 '@'");
    let p = lom::parser::ParseError { message: "期望 'end'".to_string(), line: 10, col: 1 };
    assert_eq!(p.describe(), "语法错误 (10:1): 期望 'end'");
}
