use lua_rs::lex::{Lex, ScanError};
use lua_rs::token::Token;

fn tokens(src: &str) -> Vec<Result<Token, ScanError>> {
    let mut lex = Lex::new(src.as_bytes().to_vec());
    let mut out = Vec::new();
    loop {
        let t = lex.next();
        let stop = matches!(t, Ok(Token::EOF) | Err(_));
        out.push(t);
        if stop {
            return out;
        }
    }
}

fn name(s: &str) -> Token {
    Token::Name(s.as_bytes().to_vec())
}

#[test]
fn comment_is_skipped_up_to_its_newline() {
    assert_eq!(tokens("--comment\nreturn"), vec![Ok(Token::Return), Ok(Token::EOF)]);
}

#[test]
fn comment_at_end_of_input() {
    assert_eq!(tokens("x -- trailing"), vec![Ok(name("x")), Ok(Token::EOF)]);
}

#[test]
fn equal_and_not_equal_are_single_tokens() {
    assert_eq!(
        tokens("1 == 2"),
        vec![Ok(Token::Integer(1)), Ok(Token::Equal), Ok(Token::Integer(2)), Ok(Token::EOF)]
    );
    assert_eq!(
        tokens("1 ~= 2"),
        vec![Ok(Token::Integer(1)), Ok(Token::NotEq), Ok(Token::Integer(2)), Ok(Token::EOF)]
    );
}

#[test]
fn unterminated_string_is_an_error() {
    assert_eq!(tokens("\"abc"), vec![Err(ScanError::UnfinishedString)]);
    assert_eq!(tokens("'ab\ncd'"), vec![Err(ScanError::UnfinishedString)]);
}

#[test]
fn operators_long_and_short() {
    assert_eq!(
        tokens("// / <= << < >= >> > :: : .. ... . ~ = - + * ^ # & | ( ) { } [ ] ; ,"),
        vec![
            Ok(Token::Idiv), Ok(Token::Div), Ok(Token::LesEq), Ok(Token::ShiftL), Ok(Token::Less),
            Ok(Token::GreEq), Ok(Token::ShiftR), Ok(Token::Greater), Ok(Token::DoubleColon),
            Ok(Token::Colon), Ok(Token::Concat), Ok(Token::Dots), Ok(Token::Dot), Ok(Token::BitXor),
            Ok(Token::Assign), Ok(Token::Sub), Ok(Token::Add), Ok(Token::Mul), Ok(Token::Pow),
            Ok(Token::Len), Ok(Token::BitAnd), Ok(Token::BitOr), Ok(Token::ParL), Ok(Token::ParR),
            Ok(Token::CurlyL), Ok(Token::CurlyR), Ok(Token::SqurL), Ok(Token::SqurR),
            Ok(Token::SemiColon), Ok(Token::Comma), Ok(Token::EOF),
        ]
    );
}

#[test]
fn short_operator_at_end_of_input() {
    assert_eq!(tokens("x="), vec![Ok(name("x")), Ok(Token::Assign), Ok(Token::EOF)]);
}

#[test]
fn keywords_and_names() {
    assert_eq!(
        tokens("local localx while _a1 nil true false"),
        vec![
            Ok(Token::Local), Ok(name("localx")), Ok(Token::While), Ok(name("_a1")),
            Ok(Token::Nil), Ok(Token::True), Ok(Token::False), Ok(Token::EOF),
        ]
    );
}

#[test]
fn name_at_end_of_input_is_read_once() {
    assert_eq!(tokens("abc"), vec![Ok(name("abc")), Ok(Token::EOF)]);
}

#[test]
fn integer_literals() {
    assert_eq!(tokens("42"), vec![Ok(Token::Integer(42)), Ok(Token::EOF)]);
    assert_eq!(tokens("9223372036854775807"), vec![Ok(Token::Integer(i64::MAX)), Ok(Token::EOF)]);
    assert_eq!(tokens("9223372036854775808"), vec![Err(ScanError::InvalidInteger)]);
    assert_eq!(tokens("0x10"), vec![Err(ScanError::InvalidInteger)]);
    assert_eq!(tokens("1e5"), vec![Err(ScanError::InvalidInteger)]);
}

#[test]
fn float_literals_keep_their_text() {
    assert_eq!(tokens("1.5"), vec![Ok(Token::Float(b"1.5".to_vec())), Ok(Token::EOF)]);
    assert_eq!(tokens(".5"), vec![Ok(Token::Float(b".5".to_vec())), Ok(Token::EOF)]);
    assert_eq!(tokens("2.5e3"), vec![Ok(Token::Float(b"2.5e3".to_vec())), Ok(Token::EOF)]);
    assert_eq!(tokens("3."), vec![Ok(Token::Float(b"3.".to_vec())), Ok(Token::EOF)]);
    assert_eq!(tokens("1.2.3"), vec![Err(ScanError::InvalidFloat)]);
    assert_eq!(tokens("1.5e"), vec![Err(ScanError::InvalidFloat)]);
    assert_eq!(tokens("1.b"), vec![Err(ScanError::InvalidFloat)]);
}

#[test]
fn every_accepted_float_parses_as_f64() {
    for src in ["1.5", ".5", "2.5e3", "3.", "0.000", "10.25e10"] {
        assert!(src.parse::<f64>().is_ok());
        assert!(matches!(tokens(src)[0], Ok(Token::Float(_))));
    }
}

#[test]
fn strings_and_escaped_quotes() {
    assert_eq!(
        tokens("'a\\'b' \"x\""),
        vec![
            Ok(Token::String(b"a\\'b".to_vec())),
            Ok(Token::String(b"x".to_vec())),
            Ok(Token::EOF),
        ]
    );
}

#[test]
fn invalid_character() {
    assert_eq!(tokens("@"), vec![Err(ScanError::InvalidChar(b'@'))]);
    assert_eq!(tokens("%"), vec![Err(ScanError::InvalidChar(b'%'))]);
}

#[test]
fn peak_does_not_consume() {
    let mut lex = Lex::new(b"a = 1".to_vec());
    assert_eq!(lex.next(), Ok(name("a")));
    assert_eq!(lex.peak(), Ok(Token::Assign));
    assert_eq!(lex.peak(), Ok(Token::Assign));
    assert_eq!(lex.next(), Ok(Token::Assign));
    assert_eq!(lex.next(), Ok(Token::Integer(1)));
    assert_eq!(lex.peak(), Ok(Token::EOF));
    assert_eq!(lex.next(), Ok(Token::EOF));
}

#[test]
fn nul_byte_ends_the_input() {
    let mut lex = Lex::new(b"a\0b".to_vec());
    assert_eq!(lex.next(), Ok(name("a")));
    assert_eq!(lex.next(), Ok(Token::EOF));
    assert_eq!(lex.next(), Ok(Token::EOF));
    assert_eq!(lex.peak(), Ok(Token::EOF));
    assert_eq!(lex.next(), Ok(Token::EOF));
    assert_eq!(tokens("x -- note \0 y\nz"), vec![Ok(name("x")), Ok(Token::EOF)]);
}

#[test]
fn end_of_input_repeats_after_peak() {
    let mut lex = Lex::new(b"a\0b".to_vec());
    assert_eq!(lex.next(), Ok(name("a")));
    assert_eq!(lex.peak(), Ok(Token::EOF));
    assert_eq!(lex.peak(), Ok(Token::EOF));
    assert_eq!(lex.next(), Ok(Token::EOF));
    assert_eq!(lex.next(), Ok(Token::EOF));
    let mut lex = Lex::new(b"".to_vec());
    assert_eq!(lex.peak(), Ok(Token::EOF));
    assert_eq!(lex.next(), Ok(Token::EOF));
    assert_eq!(lex.peak(), Ok(Token::EOF));
}
