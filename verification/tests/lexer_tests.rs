use model_checker::parsing::lexer::{
    lexer, LTLToken as L, LTLTokenAtomic as A, LTLTokenBinaryInfix as B, LTLTokenUnaryPrefix as U,
};
use model_checker::parsing::parsing_error::ErrorKind;

#[test]
fn lexer_test_operators() {
    assert_eq!(
        lexer("a!Ub&)Xa(").unwrap().0,
        vec![
            L::Atomic(A::AP(0)),
            L::UnaryPrefix(U::Not),
            L::BinaryInfix(B::Until),
            L::Atomic(A::AP(1)),
            L::BinaryInfix(B::And),
            L::CloseParenthesis,
            L::UnaryPrefix(U::Next),
            L::Atomic(A::AP(0)),
            L::OpenParenthesis
        ]
    );
}

#[test]
fn lexer_test_long_variables() {
    assert_eq!(
        lexer("aUntilB U a_until_b aUntilB").unwrap().0,
        vec![
            L::Atomic(A::AP(0)),
            L::BinaryInfix(B::Until),
            L::Atomic(A::AP(1)),
            L::Atomic(A::AP(0))
        ]
    );
}

#[test]
fn lexer_test_invalid_chars() {
    assert_eq!(*lexer("Zahl").unwrap_err().kind(), ErrorKind::UnexpectedToken);
    assert_eq!(*lexer("a ? b").unwrap_err().kind(), ErrorKind::UnexpectedToken);
}

#[test]
fn lexer_reports_the_byte_offset() {
    let err = lexer("a ? b").unwrap_err();
    assert_eq!(err.at(), 2);
    let err = lexer("Zahl").unwrap_err();
    assert_eq!(err.at(), 0);
    let err = lexer("ab & c\u{e9}").unwrap_err();
    assert_eq!(*err.kind(), ErrorKind::UnexpectedToken);
    assert_eq!(err.at(), 6);
    assert_eq!(err.message(), "Unexpected token");
}

#[test]
fn lexer_reads_every_operator() {
    assert_eq!(
        lexer("( ) ! & | U X O R W G F 0 1 p").unwrap().0,
        vec![
            L::OpenParenthesis,
            L::CloseParenthesis,
            L::UnaryPrefix(U::Not),
            L::BinaryInfix(B::And),
            L::BinaryInfix(B::Or),
            L::BinaryInfix(B::Until),
            L::UnaryPrefix(U::Next),
            L::UnaryPrefix(U::Next),
            L::BinaryInfix(B::Release),
            L::BinaryInfix(B::WeakUntil),
            L::UnaryPrefix(U::Generally),
            L::UnaryPrefix(U::Future),
            L::Atomic(A::False),
            L::Atomic(A::True),
            L::Atomic(A::AP(0)),
        ]
    );
}

#[test]
fn lexer_skips_blanks_of_every_kind() {
    assert_eq!(
        lexer(" a\t&\n\rb\u{b}\u{c}").unwrap().0,
        vec![L::Atomic(A::AP(0)), L::BinaryInfix(B::And), L::Atomic(A::AP(1))]
    );
}

#[test]
fn lexer_names_end_at_the_first_other_character() {
    let (tokens, names) = lexer("aXb1_Z&a").unwrap();
    assert_eq!(tokens, vec![L::Atomic(A::AP(0)), L::BinaryInfix(B::And), L::Atomic(A::AP(1))]);
    assert_eq!(names.get("aXb1_Z"), Some(0));
    assert_eq!(names.get("a"), Some(1));
}

#[test]
fn lexer_numbers_names_in_order_of_first_appearance() {
    let (tokens, names) = lexer("c & (b U c) | a & b").unwrap();
    assert_eq!(names.len(), 3);
    assert!(!names.is_empty());
    assert_eq!(names.get("c"), Some(0));
    assert_eq!(names.get("b"), Some(1));
    assert_eq!(names.get("a"), Some(2));
    assert_eq!(names.get("d"), None);
    let ids: Vec<u8> = tokens
        .iter()
        .filter_map(|token| match token {
            L::Atomic(A::AP(id)) => Some(*id),
            _ => None,
        })
        .collect();
    assert_eq!(ids, vec![0, 1, 0, 2, 1]);
}

#[test]
fn lexer_refuses_a_text_without_names() {
    assert_eq!(*lexer("").unwrap_err().kind(), ErrorKind::NoAPs);
    assert_eq!(*lexer("X 1").unwrap_err().kind(), ErrorKind::NoAPs);
    assert_eq!(lexer("1 | 0").unwrap_err().message(), "No atomic propositions");
    // a character that belongs to no token is found first
    assert_eq!(*lexer("1 ?").unwrap_err().kind(), ErrorKind::UnexpectedToken);
}

#[test]
fn lexer_takes_as_many_names_as_a_symbol_has_bits() {
    let mut text = String::new();
    for i in 0..64 {
        text.push_str(&format!("ap{} & ", i));
    }
    text.push_str("ap0");
    let (_, names) = lexer(&text).unwrap();
    assert_eq!(names.len(), 64);
    assert_eq!(names.get("ap63"), Some(63));

    let offset = text.len() + 3;
    text.push_str(" & q");
    let err = lexer(&text).unwrap_err();
    assert_eq!(*err.kind(), ErrorKind::TooManyAPs);
    assert_eq!(err.at(), offset);
    assert_eq!(err.message(), "Too many atomic propositions");
}

#[test]
fn test_operators() {
    let ap = |id: u8| L::Atomic(A::AP(id));
    assert_eq!(
        lexer("a!Ub&)Xa(").map(|read| read.0).map_err(|err| *err.kind()),
        Ok(vec![
            ap(0),
            L::UnaryPrefix(U::Not),
            L::BinaryInfix(B::Until),
            ap(1),
            L::BinaryInfix(B::And),
            L::CloseParenthesis,
            L::UnaryPrefix(U::Next),
            ap(0),
            L::OpenParenthesis
        ])
    );
}

#[test]
fn test_long_variables() {
    let ap = |id: u8| L::Atomic(A::AP(id));
    assert_eq!(
        lexer("aUntilB U a_until_b aUntilB").map(|read| read.0).map_err(|err| *err.kind()),
        Ok(vec![ap(0), L::BinaryInfix(B::Until), ap(1), ap(0)])
    );
}

#[test]
fn test_invalid_chars() {
    assert_eq!(*lexer("Zahl").unwrap_err().kind(), ErrorKind::UnexpectedToken);
    assert_eq!(*lexer("a ? b").unwrap_err().kind(), ErrorKind::UnexpectedToken);
}
