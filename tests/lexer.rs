use lua_compiler::error::LuaError;
use lua_compiler::lex::{Lex, Token};
use lua_compiler::value::Decimal;

fn tokens(src: &str) -> Result<Vec<Token>, LuaError> {
    let mut lex = Lex::new(src.as_bytes().to_vec());
    let mut out = Vec::new();
    loop {
        let t = lex.next()?;
        if t == Token::Eos {
            return Ok(out);
        }
        out.push(t);
    }
}

fn name(s: &str) -> Token {
    Token::Name(s.as_bytes().to_vec())
}

#[test]
fn lexes_names_keywords_and_operators() {
    assert_eq!(
        tokens("local a = b").unwrap(),
        vec![Token::Local, name("a"), Token::Assign, name("b")]
    );
    assert_eq!(
        tokens("x_1 while whiles").unwrap(),
        vec![name("x_1"), Token::While, name("whiles")]
    );
}

#[test]
fn lexes_two_byte_operators() {
    assert_eq!(
        tokens("== ~= <= >= << >> // :: .. ... = ~ < > / : .").unwrap(),
        vec![
            Token::Equal,
            Token::NotEq,
            Token::LesEq,
            Token::GreEq,
            Token::ShiftL,
            Token::ShiftR,
            Token::Idiv,
            Token::DoubColon,
            Token::Concat,
            Token::Dots,
            Token::Assign,
            Token::BitXor,
            Token::Less,
            Token::Greater,
            Token::Div,
            Token::Colon,
            Token::Dot,
        ]
    );
}

#[test]
fn lexes_single_byte_punctuation() {
    assert_eq!(
        tokens("+-*%^#&|(){}[];,").unwrap(),
        vec![
            Token::Add,
            Token::Sub,
            Token::Mul,
            Token::Mod,
            Token::Pow,
            Token::Len,
            Token::BitAnd,
            Token::BitOr,
            Token::ParL,
            Token::ParR,
            Token::CurlyL,
            Token::CurlyR,
            Token::SqurL,
            Token::SqurR,
            Token::SemiColon,
            Token::Comma,
        ]
    );
}

#[test]
fn skips_white_space_and_line_comments() {
    assert_eq!(
        tokens("a -- a comment\n\t b --last").unwrap(),
        vec![name("a"), name("b")]
    );
    assert_eq!(tokens("a - b").unwrap(), vec![name("a"), Token::Sub, name("b")]);
}

#[test]
fn lexes_numbers() {
    assert_eq!(
        tokens("0 42 9223372036854775807").unwrap(),
        vec![
            Token::Integer(0),
            Token::Integer(42),
            Token::Integer(9223372036854775807)
        ]
    );
    assert_eq!(
        tokens("1.5 .25 3. 2.50").unwrap(),
        vec![
            Token::Float(Decimal { int_part: 1, frac: 5, frac_len: 1 }),
            Token::Float(Decimal { int_part: 0, frac: 25, frac_len: 2 }),
            Token::Float(Decimal { int_part: 3, frac: 0, frac_len: 0 }),
            Token::Float(Decimal { int_part: 2, frac: 5, frac_len: 1 }),
        ]
    );
}

#[test]
fn refuses_unsupported_numbers() {
    assert_eq!(tokens("0x10"), Err(LuaError::HexUnsupported));
    assert_eq!(tokens("1e5"), Err(LuaError::ExponentUnsupported));
    assert_eq!(tokens("12abc"), Err(LuaError::MalformedNumber));
    assert_eq!(tokens("9223372036854775808"), Err(LuaError::MalformedNumber));
}

#[test]
fn lexes_strings() {
    assert_eq!(
        tokens("'hi' \"a b\" ''").unwrap(),
        vec![
            Token::Strng(b"hi".to_vec()),
            Token::Strng(b"a b".to_vec()),
            Token::Strng(Vec::new())
        ]
    );
    assert_eq!(tokens("'it''s'").unwrap().len(), 2);
}

#[test]
fn refuses_bad_strings_and_characters() {
    assert_eq!(tokens("'abc"), Err(LuaError::UnterminatedString));
    assert_eq!(tokens("'ab\ncd'"), Err(LuaError::UnterminatedString));
    assert_eq!(tokens("'a\\n'"), Err(LuaError::EscapeUnsupported));
    assert_eq!(tokens("a $ b"), Err(LuaError::UnexpectedChar(b'$')));
    assert_eq!(tokens("--[[ long ]]"), Err(LuaError::LongCommentUnsupported));
}

#[test]
fn end_of_input_repeats() {
    let mut lex = Lex::new(b"a".to_vec());
    assert_eq!(lex.next(), Ok(name("a")));
    assert_eq!(lex.next(), Ok(Token::Eos));
    assert_eq!(lex.next(), Ok(Token::Eos));
    assert_eq!(lex.peek(), Ok(&Token::Eos));
}

#[test]
fn nul_byte_ends_input() {
    assert_eq!(tokens("a\0b").unwrap(), vec![name("a")]);
}

#[test]
fn peek_does_not_consume() {
    let mut lex = Lex::new(b"x = 1".to_vec());
    assert_eq!(lex.peek(), Ok(&name("x")));
    assert_eq!(lex.peek(), Ok(&name("x")));
    assert_eq!(lex.next(), Ok(name("x")));
    assert_eq!(lex.peek(), Ok(&Token::Assign));
    assert_eq!(lex.next(), Ok(Token::Assign));
    assert_eq!(lex.next(), Ok(Token::Integer(1)));
    assert_eq!(lex.next(), Ok(Token::Eos));
}
