use ijson::errors::Error;
use ijson::errors::ResultIterator;
use ijson::lexer::{number_syntax, Lexeme, Lexer};
use ijson::path::{compile, Token};

#[test]
fn compile_paths() {
    assert!(compile("").is_empty());
    assert_eq!(
        compile("docs.item.meta"),
        vec![Token::Literal("docs".to_string()), Token::Item, Token::Literal("meta".to_string())]
    );
    assert_eq!(compile("item"), vec![Token::Item]);
    assert_eq!(
        compile("a..ключ"),
        vec![
            Token::Literal("a".to_string()),
            Token::Literal(String::new()),
            Token::Literal("ключ".to_string())
        ]
    );
    assert_eq!(compile("items"), vec![Token::Literal("items".to_string())]);
}

#[test]
fn number_grammar() {
    for ok in ["0", "-0", "12", "1.5", "1e5", "1E+5", "-2.25e-3", "10000000000"] {
        assert!(number_syntax(&ok.as_bytes().to_vec()), "{}", ok);
    }
    for bad in ["", "-", "01", "1.", ".5", "1e", "1e+", "+1", "1-2", "1.2.3"] {
        assert!(!number_syntax(&bad.as_bytes().to_vec()), "{}", bad);
    }
}

#[test]
fn lexer_sequence_and_stop() {
    let mut l = Lexer::new(br#" { "a" : [ true , null , -1 ] } "#.to_vec());
    let mut got = Vec::new();
    while let Some(x) = l.next_lexeme() {
        got.push(x.unwrap());
    }
    assert_eq!(
        got,
        vec![
            Lexeme::OpenBrace,
            Lexeme::Str("a".to_string()),
            Lexeme::Colon,
            Lexeme::OpenBracket,
            Lexeme::True,
            Lexeme::Comma,
            Lexeme::Null,
            Lexeme::Comma,
            Lexeme::Num("-1".to_string()),
            Lexeme::CloseBracket,
            Lexeme::CloseBrace,
        ]
    );
    let mut l = Lexer::new(b"[tru, 1]".to_vec());
    assert_eq!(l.next_lexeme(), Some(Ok(Lexeme::OpenBracket)));
    assert!(matches!(l.next_lexeme(), Some(Err(_))));
    assert_eq!(l.next_lexeme(), None);
}

#[test]
fn result_iterator_starts_open() {
    let r = ResultIterator::new(3u8);
    assert!(!r.is_errored());
}

#[test]
fn result_iterator_drains_until_first_error() {
    let mut r = ResultIterator::new(());
    let items: Vec<Result<u64, Error>> = vec![Ok(1), Err(Error::Utf8), Ok(2)];
    assert_eq!(r.drain(items), vec![Ok(1), Err(Error::Utf8)]);
    assert!(r.is_errored());
    assert_eq!(r.drain(vec![Ok(3)]), Vec::<Result<u64, Error>>::new());
    let mut r = ResultIterator::new(());
    assert_eq!(r.drain(vec![Ok(1u64), Ok(2)]), vec![Ok(1), Ok(2)]);
    assert!(!r.is_errored());
    assert_eq!(r.guard(Some(Err::<u64, Error>(Error::MoreLexemes))), Some(Err(Error::MoreLexemes)));
    assert_eq!(r.guard(Some(Ok::<u64, Error>(5))), None);
}

#[test]
fn error_messages() {
    assert_eq!(Error::Unmatched(']').message(), "Unmatched container terminator: ]");
    assert_eq!(Error::Unexpected("}".to_string()).message(), "Unexpected lexeme: '}'");
    assert_eq!(Error::IO("gone".to_string()).message(), "I/O Error: gone");
    assert_eq!(Error::MoreLexemes.message(), "More lexemes expected");
}
