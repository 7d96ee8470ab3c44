use model_checker::parsing::lexer::{
    lexer, LTLToken as L, LTLTokenAtomic as A, LTLTokenBinaryInfix as B, LTLTokenUnaryPrefix as U,
};
use model_checker::parsing::parser::{
    parser, LTLAtomicKind, LTLBinaryInfixKind, LTLFormulaBuilding, LTLUnaryPrefixKind,
};
use model_checker::parsing::parsing_error::ErrorKind::{self, ShittySyntax};
use model_checker::parsing::{parse, LTLFormula as F};
use model_checker::ModelCheckingErrorKind;

fn read(text: &str) -> F {
    parser(lexer(text).unwrap().0).unwrap()
}

fn fails(text: &str) -> ErrorKind {
    *parser(lexer(text).unwrap().0).unwrap_err().kind()
}

fn truth() -> F {
    F::not(F::and(F::ap(0), F::not(F::ap(0))))
}

#[test]
fn parser_test_basic_parsing() {
    assert_eq!(
        parser(vec![
            L::UnaryPrefix(U::Next),
            L::Atomic(A::AP(0)),
            L::BinaryInfix(B::And),
            L::Atomic(A::AP(1)),
            L::BinaryInfix(B::Until),
            L::UnaryPrefix(U::Not),
            L::Atomic(A::AP(0))
        ]),
        Ok(F::until(F::and(F::next(F::ap(0)), F::ap(1),), F::not(F::ap(0)), false))
    );
}

#[test]
fn parser_test_proper_errors() {
    assert_eq!(*parser(vec![]).unwrap_err().kind(), ShittySyntax);
    assert_eq!(
        *parser(vec![L::Atomic(A::AP(0)), L::Atomic(A::AP(1))]).unwrap_err().kind(),
        ShittySyntax
    );
    assert_eq!(
        *parser(vec![L::BinaryInfix(B::Until), L::Atomic(A::AP(0))]).unwrap_err().kind(),
        ShittySyntax
    );
    assert_eq!(
        *parser(vec![L::Atomic(A::AP(0)), L::UnaryPrefix(U::Next)]).unwrap_err().kind(),
        ShittySyntax
    );
    assert_eq!(
        *parser(vec![L::OpenParenthesis, L::OpenParenthesis, L::Atomic(A::AP(0)), L::CloseParenthesis])
            .unwrap_err()
            .kind(),
        ErrorKind::UnmatchedOpenParenthesis
    );
    assert_eq!(
        *parser(vec![L::OpenParenthesis, L::Atomic(A::AP(0)), L::CloseParenthesis, L::CloseParenthesis])
            .unwrap_err()
            .kind(),
        ErrorKind::UnmatchedCloseParenthesis
    );
    assert_eq!(
        *parser(vec![L::CloseParenthesis, L::Atomic(A::AP(0)), L::OpenParenthesis])
            .unwrap_err()
            .kind(),
        ErrorKind::UnmatchedCloseParenthesis
    );
    assert_eq!(
        *parser(vec![
            L::Atomic(A::AP(0)),
            L::BinaryInfix(B::And),
            L::OpenParenthesis,
            L::CloseParenthesis
        ])
        .unwrap_err()
        .kind(),
        ErrorKind::EmptyParenthesis
    )
}

#[test]
fn parser_reads_a_nested_formula() {
    // (a & (b U c)) | !d
    assert_eq!(
        read("(a & (b U c)) | !d"),
        F::not(F::and(
            F::not(F::and(F::ap(0), F::until(F::ap(1), F::ap(2), false))),
            F::not(F::not(F::ap(3)))
        ))
    );
}

#[test]
fn parser_names_the_kind_of_each_error() {
    assert_eq!(fails("a &"), ErrorKind::ShittySyntax);
    assert_eq!(fails("(a"), ErrorKind::UnmatchedOpenParenthesis);
    assert_eq!(fails("a | ()"), ErrorKind::EmptyParenthesis);
    assert_eq!(fails("a)"), ErrorKind::UnmatchedCloseParenthesis);
    assert_eq!(fails("a (b)"), ErrorKind::ShittySyntax);
    assert_eq!(fails("(a &) b"), ErrorKind::ShittySyntax);
    assert_eq!(fails("(a b)"), ErrorKind::ShittySyntax);
    assert_eq!(fails("a & (b |"), ErrorKind::UnmatchedOpenParenthesis);
    assert_eq!(fails("! & a"), ErrorKind::ShittySyntax);
    let err = parser(vec![L::OpenParenthesis, L::CloseParenthesis]).unwrap_err();
    assert_eq!(*err.kind(), ErrorKind::EmptyParenthesis);
    assert_eq!(err.at(), 0);
    assert_eq!(err.message(), "Empty parenthesis");
    assert_eq!(
        parser(vec![L::OpenParenthesis]).unwrap_err().message(),
        "Unmatched open parenthesis"
    );
    assert_eq!(
        parser(vec![L::CloseParenthesis]).unwrap_err().message(),
        "Unmatched close parenthesis"
    );
    assert_eq!(parser(vec![]).unwrap_err().message(), "Syntax error");
}

#[test]
fn parser_binds_by_precedence() {
    // unary over and over or over implies over until
    assert_eq!(read("a U b & c"), F::until(F::ap(0), F::and(F::ap(1), F::ap(2)), false));
    assert_eq!(read("a & b U c"), F::until(F::and(F::ap(0), F::ap(1)), F::ap(2), false));
    assert_eq!(read("!a & b"), F::and(F::not(F::ap(0)), F::ap(1)));
    assert_eq!(read("X a U b"), F::until(F::next(F::ap(0)), F::ap(1), false));
    assert_eq!(
        read("a | b & c"),
        F::not(F::and(F::not(F::ap(0)), F::not(F::and(F::ap(1), F::ap(2)))))
    );
    assert_eq!(
        read("a & b | c"),
        F::not(F::and(F::not(F::and(F::ap(0), F::ap(1))), F::not(F::ap(2))))
    );
    assert_eq!(read("(a U b) & c"), F::and(F::until(F::ap(0), F::ap(1), false), F::ap(2)));
    assert_eq!(read("!(a & b)"), F::not(F::and(F::ap(0), F::ap(1))));
    assert_eq!(read("! ! a"), F::not(F::not(F::ap(0))));
    // implies has no character of its own, but binds between or and until
    assert_eq!(
        parser(vec![
            L::Atomic(A::AP(0)),
            L::BinaryInfix(B::Until),
            L::Atomic(A::AP(1)),
            L::BinaryInfix(B::Implies),
            L::Atomic(A::AP(2)),
            L::BinaryInfix(B::Or),
            L::Atomic(A::AP(3)),
        ]),
        Ok(F::until(
            F::ap(0),
            F::not(F::and(
                F::ap(1),
                F::not(F::not(F::and(F::not(F::ap(2)), F::not(F::ap(3)))))
            )),
            false
        ))
    );
}

#[test]
fn parser_groups_equal_operators_to_the_right() {
    assert_eq!(read("a U b U c"), F::until(F::ap(0), F::until(F::ap(1), F::ap(2), false), false));
    assert_eq!(read("a & b & c"), F::and(F::ap(0), F::and(F::ap(1), F::ap(2))));
    assert_eq!(
        read("a U b R c"),
        F::until(F::ap(0), F::not(F::until(F::not(F::ap(1)), F::not(F::ap(2)), false)), false)
    );
}

#[test]
fn parser_writes_derived_operators_with_the_core() {
    assert_eq!(read("a & 1"), F::and(F::ap(0), truth()));
    assert_eq!(read("a & 0"), F::and(F::ap(0), F::and(F::ap(0), F::not(F::ap(0)))));
    assert_eq!(read("F a"), F::until(truth(), F::ap(0), false));
    assert_eq!(read("G a"), F::not(F::until(truth(), F::not(F::ap(0)), false)));
    assert_eq!(read("a | b"), F::not(F::and(F::not(F::ap(0)), F::not(F::ap(1)))));
    assert_eq!(
        read("a R b"),
        F::not(F::until(F::not(F::ap(0)), F::not(F::ap(1)), false))
    );
    let a_until_b = F::until(F::ap(0), F::ap(1), false);
    let always_a = F::not(F::until(truth(), F::not(F::ap(0)), false));
    assert_eq!(read("a W b"), F::not(F::and(F::not(a_until_b), F::not(always_a))));
    assert_eq!(read("a W b"), F::until(F::ap(0), F::ap(1), true));
    assert_eq!(
        parser(vec![L::Atomic(A::AP(0)), L::BinaryInfix(B::Implies), L::Atomic(A::AP(1))]),
        Ok(F::not(F::and(F::ap(0), F::not(F::ap(1)))))
    );
    assert_eq!(read("O a"), F::next(F::ap(0)));
}

#[test]
fn parser_reads_back_what_was_written() {
    let formulas = vec![
        read("(a & (b U c)) | !d"),
        read("G(a | b) U X X c"),
        read("a W (b R F c)"),
        F::and(F::ap(1), F::ap(0)),
        F::until(F::until(F::ap(0), F::ap(1), false), F::ap(2), false),
    ];
    for formula in formulas {
        let written = LTLFormulaBuilding::from_formula(&formula);
        assert_eq!(written.to_formula(), formula);
        assert_eq!(parser(written.to_tokens()), Ok(formula));
    }
}

#[test]
fn parser_reads_back_every_operator() {
    let a = || Box::new(LTLFormulaBuilding::Atomics(LTLAtomicKind::AP(0)));
    let t = || Box::new(LTLFormulaBuilding::Atomics(LTLAtomicKind::True));
    let tree = LTLFormulaBuilding::BinaryInfix(
        LTLBinaryInfixKind::WeakUntil,
        Box::new(LTLFormulaBuilding::UnaryPrefix(
            LTLUnaryPrefixKind::Generally,
            Box::new(LTLFormulaBuilding::BinaryInfix(LTLBinaryInfixKind::Implies, a(), t())),
        )),
        Box::new(LTLFormulaBuilding::UnaryPrefix(LTLUnaryPrefixKind::Future, a())),
    );
    assert_eq!(tree.operator_precedence(), 200);
    assert_eq!(LTLBinaryInfixKind::And.operator_precedence(), 800);
    assert_eq!(LTLBinaryInfixKind::Or.operator_precedence(), 600);
    assert_eq!(LTLBinaryInfixKind::Implies.operator_precedence(), 400);
    assert_eq!(LTLBinaryInfixKind::Release.operator_precedence(), 200);
    assert_eq!(LTLUnaryPrefixKind::Not.operator_precedence(), 1000);
    assert_eq!(a().operator_precedence(), 1200);
    let tokens = tree.to_tokens();
    assert_eq!(tokens.len(), 13);
    assert_eq!(tokens[0], L::OpenParenthesis);
    assert_eq!(parser(tokens), Ok(tree.to_formula()));
}

#[test]
fn parse_reads_text() {
    let (formula, names) = parse("req U (ack & !req)").unwrap();
    assert_eq!(formula, F::until(F::ap(0), F::and(F::ap(1), F::not(F::ap(0))), false));
    assert_eq!(names.get("req"), Some(0));
    assert_eq!(names.get("ack"), Some(1));
    assert_eq!(formula.duplicate(), formula);
    assert!(formula.same(&formula.duplicate()));
    assert!(!formula.same(&F::ap(0)));
}

#[test]
fn parse_names_the_fault() {
    assert_eq!(*parse("X 1").unwrap_err().kind(), ModelCheckingErrorKind::FormulaNoAPs);
    assert_eq!(
        parse("").unwrap_err().message(),
        "Formula must contain an atomic proposition"
    );
    match parse("a $").unwrap_err().kind() {
        ModelCheckingErrorKind::FormulaSytaxError(err) => {
            assert_eq!(*err.kind(), ErrorKind::UnexpectedToken);
            assert_eq!(err.at(), 2);
        }
        other => panic!("{:?}", other),
    }
    match parse("a &").unwrap_err().kind() {
        ModelCheckingErrorKind::FormulaSytaxError(err) => {
            assert_eq!(*err.kind(), ErrorKind::ShittySyntax)
        }
        other => panic!("{:?}", other),
    }
    assert_eq!(parse("(a").unwrap_err().message(), "Unmatched open parenthesis");
}

#[test]
fn test_basic_parsing() {
    assert_eq!(
        parser(vec![
            L::UnaryPrefix(U::Next),
            L::Atomic(A::AP(0)),
            L::BinaryInfix(B::And),
            L::Atomic(A::AP(1)),
            L::BinaryInfix(B::Until),
            L::UnaryPrefix(U::Not),
            L::Atomic(A::AP(0))
        ]),
        Ok(F::Until(
            Box::new(F::And(Box::new(F::Next(Box::new(F::AP(0)))), Box::new(F::AP(1)),)),
            Box::new(F::Not(Box::new(F::AP(0)))),
        ))
    );
}

#[test]
fn test_proper_errors() {
    let ap = |id: u8| L::Atomic(A::AP(id));
    assert_eq!(*parser(vec![]).unwrap_err().kind(), ShittySyntax);
    assert_eq!(*parser(vec![ap(0), ap(1)]).unwrap_err().kind(), ShittySyntax);
    assert_eq!(
        *parser(vec![L::BinaryInfix(B::Until), ap(0)]).unwrap_err().kind(),
        ShittySyntax
    );
    assert_eq!(
        *parser(vec![ap(0), L::UnaryPrefix(U::Next)]).unwrap_err().kind(),
        ShittySyntax
    );
    assert_eq!(
        *parser(vec![L::OpenParenthesis, L::OpenParenthesis, ap(0), L::CloseParenthesis])
            .unwrap_err()
            .kind(),
        ErrorKind::UnmatchedOpenParenthesis
    );
    assert_eq!(
        *parser(vec![L::OpenParenthesis, ap(0), L::CloseParenthesis, L::CloseParenthesis])
            .unwrap_err()
            .kind(),
        ErrorKind::UnmatchedCloseParenthesis
    );
    assert_eq!(
        *parser(vec![L::CloseParenthesis, ap(0), L::OpenParenthesis])
            .unwrap_err()
            .kind(),
        ErrorKind::UnmatchedCloseParenthesis
    );
    assert_eq!(
        *parser(vec![ap(0), L::BinaryInfix(B::And), L::OpenParenthesis, L::CloseParenthesis])
            .unwrap_err()
            .kind(),
        ErrorKind::EmptyParenthesis
    )
}

#[test]
fn a_formula_is_written_as_text() {
    let (formula, names) = parse("req U (ack & !req)").unwrap();
    let text = String::from_utf8(formula.to_text(&names).unwrap()).unwrap();
    assert_eq!(text, "req U ( ack & ( ! req ) ) ");
    let (formula, names) = parse("X X go").unwrap();
    assert_eq!(formula.to_text(&names).unwrap(), b"X ( X go ) ".to_vec());
    assert_eq!(names.name(0), Some(&b"go".to_vec()));
    assert_eq!(names.name(1), None);
    // an atomic proposition without a name cannot be written
    assert_eq!(F::and(F::ap(0), F::ap(1)).to_text(&names), None);
}

#[test]
fn what_is_written_is_read_as_the_same_formula() {
    for text in [
        "(a & (b U c)) | !d",
        "G(a | b) U X X c",
        "1 U x",
        "0 | y & 1",
        "F G z",
        "b W (a R F c) W b",
        "long_Name1 & !(other | long_Name1)",
    ] {
        let (formula, names) = parse(text).unwrap();
        let written = String::from_utf8(formula.to_text(&names).unwrap()).unwrap();
        let (again, names_again) = parse(&written).unwrap();
        assert_eq!(again, formula);
        assert_eq!(names_again.len(), names.len());
        for id in 0..names.len() {
            assert_eq!(names_again.name(id as u8), names.name(id as u8));
        }
    }
}
