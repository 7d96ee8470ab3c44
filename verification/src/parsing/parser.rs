//! From tokens to a formula, by precedence climbing.

use crate::parsing::lexer::{LTLToken, LTLTokenAtomic, LTLTokenBinaryInfix, LTLTokenUnaryPrefix};
use crate::parsing::parsing_error::{ErrorKind, ParsingError};
use crate::parsing::{always, either, falsity, truth, weak_until, LTLFormula};
use vstd::prelude::*;

verus! {

#[derive(Debug, Clone, Copy, PartialEq, Eq, Structural)]
pub enum LTLBinaryInfixKind {
    And,
    Or,
    Implies,
    Until,
    WeakUntil,
    Release,
}

/// How tightly an operand of one's own binds: above every operator between two operands.
pub const UNARY_PRECEDENCE: u32 = 1000;

/// How tightly an atom binds: above every operator.
pub const ATOMIC_PRECEDENCE: u32 = 1200;

impl LTLBinaryInfixKind {
    /// How tightly the operator binds; the higher, the tighter.
    pub open spec fn precedence(self) -> u32 {
        match self {
            LTLBinaryInfixKind::And => 800,
            LTLBinaryInfixKind::Or => 600,
            LTLBinaryInfixKind::Implies => 400,
            LTLBinaryInfixKind::Until | LTLBinaryInfixKind::WeakUntil | LTLBinaryInfixKind::Release => 200,
        }
    }

    pub fn operator_precedence(&self) -> (r: u32)
        ensures
            r == self.precedence(),
            0 < r < UNARY_PRECEDENCE,
    {
        match self {
            LTLBinaryInfixKind::And => 800,
            LTLBinaryInfixKind::Or => 600,
            LTLBinaryInfixKind::Implies => 400,
            LTLBinaryInfixKind::Until | LTLBinaryInfixKind::WeakUntil | LTLBinaryInfixKind::Release => 200,
        }
    }
}

#[derive(Debug, Clone, Copy, PartialEq, Eq, Structural)]
pub enum LTLUnaryPrefixKind {
    Not,
    Next,
    Future,
    Generally,
}

impl LTLUnaryPrefixKind {
    pub fn operator_precedence(&self) -> (r: u32)
        ensures
            r == UNARY_PRECEDENCE,
    {
        UNARY_PRECEDENCE
    }
}

#[derive(Debug, Clone, Copy, PartialEq, Eq, Structural)]
pub enum LTLAtomicKind {
    AP(u8),
    True,
    False,
}

/// A formula as it is written, with every operator of the syntax.
#[derive(Debug, PartialEq, Eq)]
pub enum LTLFormulaBuilding {
    BinaryInfix(LTLBinaryInfixKind, Box<LTLFormulaBuilding>, Box<LTLFormulaBuilding>),
    UnaryPrefix(LTLUnaryPrefixKind, Box<LTLFormulaBuilding>),
    Atomics(LTLAtomicKind),
}

/// The operator that a token stands for.
pub open spec fn binary_kind(token: LTLTokenBinaryInfix) -> LTLBinaryInfixKind {
    match token {
        LTLTokenBinaryInfix::And => LTLBinaryInfixKind::And,
        LTLTokenBinaryInfix::Or => LTLBinaryInfixKind::Or,
        LTLTokenBinaryInfix::Implies => LTLBinaryInfixKind::Implies,
        LTLTokenBinaryInfix::Until => LTLBinaryInfixKind::Until,
        LTLTokenBinaryInfix::WeakUntil => LTLBinaryInfixKind::WeakUntil,
        LTLTokenBinaryInfix::Release => LTLBinaryInfixKind::Release,
    }
}

/// The operator that a token stands for.
pub open spec fn unary_kind(token: LTLTokenUnaryPrefix) -> LTLUnaryPrefixKind {
    match token {
        LTLTokenUnaryPrefix::Next => LTLUnaryPrefixKind::Next,
        LTLTokenUnaryPrefix::Not => LTLUnaryPrefixKind::Not,
        LTLTokenUnaryPrefix::Future => LTLUnaryPrefixKind::Future,
        LTLTokenUnaryPrefix::Generally => LTLUnaryPrefixKind::Generally,
    }
}

/// The atom that a token stands for.
pub open spec fn atomic_kind(token: LTLTokenAtomic) -> LTLAtomicKind {
    match token {
        LTLTokenAtomic::AP(ap) => LTLAtomicKind::AP(ap),
        LTLTokenAtomic::True => LTLAtomicKind::True,
        LTLTokenAtomic::False => LTLAtomicKind::False,
    }
}

/// The formula over the core operators that a written formula stands for.
pub open spec fn desugar(tree: LTLFormulaBuilding) -> LTLFormula
    decreases tree,
{
    match tree {
        LTLFormulaBuilding::BinaryInfix(kind, phi1, phi2) => {
            let f1 = desugar(*phi1);
            let f2 = desugar(*phi2);
            match kind {
                LTLBinaryInfixKind::And => LTLFormula::And(Box::new(f1), Box::new(f2)),
                LTLBinaryInfixKind::Or => either(f1, f2),
                LTLBinaryInfixKind::Implies => LTLFormula::Not(
                    Box::new(LTLFormula::And(Box::new(f1), Box::new(LTLFormula::Not(Box::new(f2))))),
                ),
                LTLBinaryInfixKind::Until => LTLFormula::Until(Box::new(f1), Box::new(f2)),
                LTLBinaryInfixKind::WeakUntil => weak_until(f1, f2),
                LTLBinaryInfixKind::Release => LTLFormula::Not(
                    Box::new(
                        LTLFormula::Until(
                            Box::new(LTLFormula::Not(Box::new(f1))),
                            Box::new(LTLFormula::Not(Box::new(f2))),
                        ),
                    ),
                ),
            }
        },
        LTLFormulaBuilding::UnaryPrefix(kind, phi) => {
            let f = desugar(*phi);
            match kind {
                LTLUnaryPrefixKind::Not => LTLFormula::Not(Box::new(f)),
                LTLUnaryPrefixKind::Next => LTLFormula::Next(Box::new(f)),
                LTLUnaryPrefixKind::Future => LTLFormula::Until(Box::new(truth()), Box::new(f)),
                LTLUnaryPrefixKind::Generally => always(f),
            }
        },
        LTLFormulaBuilding::Atomics(LTLAtomicKind::AP(ap)) => LTLFormula::AP(ap),
        LTLFormulaBuilding::Atomics(LTLAtomicKind::False) => falsity(),
        LTLFormulaBuilding::Atomics(LTLAtomicKind::True) => truth(),
    }
}

impl LTLFormulaBuilding {
    pub fn operator_precedence(&self) -> (r: u32)
        ensures
            r == match *self {
                LTLFormulaBuilding::BinaryInfix(kind, _, _) => kind.precedence(),
                LTLFormulaBuilding::UnaryPrefix(_, _) => UNARY_PRECEDENCE,
                LTLFormulaBuilding::Atomics(_) => ATOMIC_PRECEDENCE,
            },
    {
        match self {
            LTLFormulaBuilding::BinaryInfix(kind, _, _) => kind.operator_precedence(),
            LTLFormulaBuilding::UnaryPrefix(kind, _) => kind.operator_precedence(),
            LTLFormulaBuilding::Atomics(_) => ATOMIC_PRECEDENCE,
        }
    }

    /// Writes the formula over the core operators.
    pub fn to_formula(&self) -> (r: LTLFormula)
        ensures
            r == desugar(*self),
        decreases *self,
    {
        match self {
            LTLFormulaBuilding::BinaryInfix(kind, phi1, phi2) => {
                let f1 = phi1.to_formula();
                let f2 = phi2.to_formula();
                match kind {
                    LTLBinaryInfixKind::And => LTLFormula::and(f1, f2),
                    LTLBinaryInfixKind::Or => LTLFormula::not(
                        LTLFormula::and(LTLFormula::not(f1), LTLFormula::not(f2)),
                    ),
                    LTLBinaryInfixKind::Implies => LTLFormula::not(LTLFormula::and(f1, LTLFormula::not(f2))),
                    LTLBinaryInfixKind::Until => LTLFormula::until(f1, f2, false),
                    LTLBinaryInfixKind::WeakUntil => LTLFormula::until(f1, f2, true),
                    LTLBinaryInfixKind::Release => LTLFormula::not(
                        LTLFormula::until(LTLFormula::not(f1), LTLFormula::not(f2), false),
                    ),
                }
            },
            LTLFormulaBuilding::UnaryPrefix(kind, phi) => {
                let f = phi.to_formula();
                match kind {
                    LTLUnaryPrefixKind::Not => LTLFormula::not(f),
                    LTLUnaryPrefixKind::Next => LTLFormula::next(f),
                    LTLUnaryPrefixKind::Future => LTLFormula::until(LTLFormula::truth(), f, false),
                    LTLUnaryPrefixKind::Generally => LTLFormula::not(
                        LTLFormula::until(LTLFormula::truth(), LTLFormula::not(f), false),
                    ),
                }
            },
            LTLFormulaBuilding::Atomics(LTLAtomicKind::AP(ap)) => LTLFormula::ap(*ap),
            LTLFormulaBuilding::Atomics(LTLAtomicKind::False) => LTLFormula::falsity(),
            LTLFormulaBuilding::Atomics(LTLAtomicKind::True) => LTLFormula::truth(),
        }
    }
}

/// What parsing from some position gives: the formula read and the position
/// behind it, or the kind of error.
pub type Parsed = Result<(LTLFormulaBuilding, int), ErrorKind>;

/// Reads one operand at `pos`: an atom, a prefix operator with its operand,
/// or a formula in parentheses. `nested` says whether `pos` lies inside
/// parentheses.
pub open spec fn parse_operand(tokens: Seq<LTLToken>, pos: int, nested: bool) -> Parsed
    decreases tokens.len() - pos, 1nat,
{
    if pos < 0 || pos >= tokens.len() {
        Err(
            if nested {
                ErrorKind::UnmatchedOpenParenthesis
            } else {
                ErrorKind::ShittySyntax
            },
        )
    } else {
        match tokens[pos] {
            LTLToken::Atomic(atomic) => Ok((LTLFormulaBuilding::Atomics(atomic_kind(atomic)), pos + 1)),
            LTLToken::UnaryPrefix(prefix) => match parse_operand(tokens, pos + 1, nested) {
                Ok((phi, next)) => Ok((LTLFormulaBuilding::UnaryPrefix(unary_kind(prefix), Box::new(phi)), next)),
                Err(kind) => Err(kind),
            },
            LTLToken::OpenParenthesis => if pos + 1 < tokens.len() && tokens[pos + 1]
                == LTLToken::CloseParenthesis {
                Err(ErrorKind::EmptyParenthesis)
            } else {
                match parse_formula(tokens, pos + 1, 0, true) {
                    Ok((phi, next)) => if next >= tokens.len() {
                        Err(ErrorKind::UnmatchedOpenParenthesis)
                    } else if tokens[next] == LTLToken::CloseParenthesis {
                        Ok((phi, next + 1))
                    } else {
                        Err(ErrorKind::ShittySyntax)
                    },
                    Err(kind) => Err(kind),
                }
            },
            LTLToken::CloseParenthesis => Err(
                if nested {
                    ErrorKind::ShittySyntax
                } else {
                    ErrorKind::UnmatchedCloseParenthesis
                },
            ),
            LTLToken::BinaryInfix(_) => Err(ErrorKind::ShittySyntax),
        }
    }
}

/// Reads at `pos` an operand and, behind it, every binary operator that binds
/// at least as tightly as `min_precedence`, each with its right-hand side.
pub open spec fn parse_formula(tokens: Seq<LTLToken>, pos: int, min_precedence: u32, nested: bool) -> Parsed
    decreases tokens.len() - pos, 2nat,
{
    match parse_operand(tokens, pos, nested) {
        Ok((left, next)) => if pos < next <= tokens.len() {
            parse_tail(tokens, left, next, min_precedence, nested)
        } else {
            Err(ErrorKind::ShittySyntax)
        },
        Err(kind) => Err(kind),
    }
}

/// Goes on behind the formula `left`, which ends before `pos`: as long as a
/// binary operator follows that binds at least as tightly as
/// `min_precedence`, it takes `left` as its left-hand side, and as its
/// right-hand side what follows with operators that bind at least as tightly
/// as itself. So operators of equal precedence group to the right.
pub open spec fn parse_tail(
    tokens: Seq<LTLToken>,
    left: LTLFormulaBuilding,
    pos: int,
    min_precedence: u32,
    nested: bool,
) -> Parsed
    decreases tokens.len() - pos, 0nat,
{
    if 0 <= pos < tokens.len() && tokens[pos] is BinaryInfix && binary_kind(tokens[pos]->BinaryInfix_0).precedence()
        >= min_precedence {
        let kind = binary_kind(tokens[pos]->BinaryInfix_0);
        match parse_formula(tokens, pos + 1, kind.precedence(), nested) {
            Ok((right, next)) => if pos < next <= tokens.len() {
                parse_tail(
                    tokens,
                    LTLFormulaBuilding::BinaryInfix(kind, Box::new(left), Box::new(right)),
                    next,
                    min_precedence,
                    nested,
                )
            } else {
                Err(ErrorKind::ShittySyntax)
            },
            Err(kind) => Err(kind),
        }
    } else {
        Ok((left, pos))
    }
}

/// Reads the whole of `tokens` as one formula.
pub open spec fn parse_tokens(tokens: Seq<LTLToken>) -> Result<LTLFormulaBuilding, ErrorKind> {
    match parse_formula(tokens, 0, 0, false) {
        Ok((tree, next)) => if next >= tokens.len() {
            Ok(tree)
        } else if tokens[next] == LTLToken::CloseParenthesis {
            Err(ErrorKind::UnmatchedCloseParenthesis)
        } else {
            Err(ErrorKind::ShittySyntax)
        },
        Err(kind) => Err(kind),
    }
}

fn to_binary_kind(token: LTLTokenBinaryInfix) -> (r: LTLBinaryInfixKind)
    ensures
        r == binary_kind(token),
{
    match token {
        LTLTokenBinaryInfix::And => LTLBinaryInfixKind::And,
        LTLTokenBinaryInfix::Or => LTLBinaryInfixKind::Or,
        LTLTokenBinaryInfix::Implies => LTLBinaryInfixKind::Implies,
        LTLTokenBinaryInfix::Until => LTLBinaryInfixKind::Until,
        LTLTokenBinaryInfix::WeakUntil => LTLBinaryInfixKind::WeakUntil,
        LTLTokenBinaryInfix::Release => LTLBinaryInfixKind::Release,
    }
}

fn to_unary_kind(token: LTLTokenUnaryPrefix) -> (r: LTLUnaryPrefixKind)
    ensures
        r == unary_kind(token),
{
    match token {
        LTLTokenUnaryPrefix::Next => LTLUnaryPrefixKind::Next,
        LTLTokenUnaryPrefix::Not => LTLUnaryPrefixKind::Not,
        LTLTokenUnaryPrefix::Future => LTLUnaryPrefixKind::Future,
        LTLTokenUnaryPrefix::Generally => LTLUnaryPrefixKind::Generally,
    }
}

fn to_atomic_kind(token: LTLTokenAtomic) -> (r: LTLAtomicKind)
    ensures
        r == atomic_kind(token),
{
    match token {
        LTLTokenAtomic::AP(ap) => LTLAtomicKind::AP(ap),
        LTLTokenAtomic::True => LTLAtomicKind::True,
        LTLTokenAtomic::False => LTLAtomicKind::False,
    }
}

/// Whether `r` is what `parsed` says, with a position that moved on from `pos`.
pub open spec fn agrees(
    r: Result<(LTLFormulaBuilding, usize), ErrorKind>,
    parsed: Parsed,
    pos: usize,
    len: nat,
) -> bool {
    match parsed {
        Ok((tree, next)) => r matches Ok((t, n)) && t == tree && n == next && pos < n <= len,
        Err(kind) => r matches Err(k) && k == kind,
    }
}

fn operand(tokens: &Vec<LTLToken>, pos: usize, nested: bool) -> (r: Result<
    (LTLFormulaBuilding, usize),
    ErrorKind,
>)
    requires
        pos <= tokens@.len(),
    ensures
        agrees(r, parse_operand(tokens@, pos as int, nested), pos, tokens@.len()),
    decreases tokens@.len() - pos, 1nat,
{
    if pos >= tokens.len() {
        return Err(
            if nested {
                ErrorKind::UnmatchedOpenParenthesis
            } else {
                ErrorKind::ShittySyntax
            },
        );
    }
    match tokens[pos] {
        LTLToken::Atomic(atomic) => Ok((LTLFormulaBuilding::Atomics(to_atomic_kind(atomic)), pos + 1)),
        LTLToken::UnaryPrefix(prefix) => match operand(tokens, pos + 1, nested) {
            Ok((phi, next)) => Ok((LTLFormulaBuilding::UnaryPrefix(to_unary_kind(prefix), Box::new(phi)), next)),
            Err(kind) => Err(kind),
        },
        LTLToken::OpenParenthesis => {
            if pos + 1 < tokens.len() {
                if let LTLToken::CloseParenthesis = tokens[pos + 1] {
                    return Err(ErrorKind::EmptyParenthesis);
                }
            }
            match formula(tokens, pos + 1, 0, true) {
                Ok((phi, next)) => {
                    if next >= tokens.len() {
                        Err(ErrorKind::UnmatchedOpenParenthesis)
                    } else if let LTLToken::CloseParenthesis = tokens[next] {
                        Ok((phi, next + 1))
                    } else {
                        Err(ErrorKind::ShittySyntax)
                    }
                },
                Err(kind) => Err(kind),
            }
        },
        LTLToken::CloseParenthesis => Err(
            if nested {
                ErrorKind::ShittySyntax
            } else {
                ErrorKind::UnmatchedCloseParenthesis
            },
        ),
        LTLToken::BinaryInfix(_) => Err(ErrorKind::ShittySyntax),
    }
}

fn formula(tokens: &Vec<LTLToken>, pos: usize, min_precedence: u32, nested: bool) -> (r: Result<
    (LTLFormulaBuilding, usize),
    ErrorKind,
>)
    requires
        pos <= tokens@.len(),
    ensures
        agrees(r, parse_formula(tokens@, pos as int, min_precedence, nested), pos, tokens@.len()),
    decreases tokens@.len() - pos, 2nat,
{
    match operand(tokens, pos, nested) {
        Ok((left, next)) => tail(tokens, left, next, min_precedence, nested, Ghost(pos)),
        Err(kind) => Err(kind),
    }
}

fn tail(
    tokens: &Vec<LTLToken>,
    left: LTLFormulaBuilding,
    pos: usize,
    min_precedence: u32,
    nested: bool,
    Ghost(start): Ghost<usize>,
) -> (r: Result<(LTLFormulaBuilding, usize), ErrorKind>)
    requires
        start < pos <= tokens@.len(),
    ensures
        agrees(r, parse_tail(tokens@, left, pos as int, min_precedence, nested), start, tokens@.len()),
        r matches Ok((_, n)) ==> pos <= n,
    decreases tokens@.len() - pos, 0nat,
{
    if pos < tokens.len() {
        if let LTLToken::BinaryInfix(infix) = tokens[pos] {
            let kind = to_binary_kind(infix);
            let precedence = kind.operator_precedence();
            if precedence >= min_precedence {
                return match formula(tokens, pos + 1, precedence, nested) {
                    Ok((right, next)) => tail(
                        tokens,
                        LTLFormulaBuilding::BinaryInfix(kind, Box::new(left), Box::new(right)),
                        next,
                        min_precedence,
                        nested,
                        Ghost(start),
                    ),
                    Err(kind) => Err(kind),
                };
            }
        }
    }
    Ok((left, pos))
}

/// Reads the tokens as one formula and writes it over the core operators.
/// Of two operators between operands the one of higher precedence binds
/// tighter, and operators of equal precedence group to the right.
pub fn parser(tokens: Vec<LTLToken>) -> (r: Result<LTLFormula, ParsingError>)
    ensures
        match parse_tokens(tokens@) {
            Ok(tree) => r matches Ok(phi) && phi == desugar(tree),
            Err(kind) => r matches Err(e) && e.spec_kind() == kind && e.spec_at() == 0 && e.spec_formula()
                == Seq::<char>::empty(),
        },
{
    proof {
        reveal_strlit("");
    }
    match formula(&tokens, 0, 0, false) {
        Ok((tree, next)) => {
            if next >= tokens.len() {
                Ok(tree.to_formula())
            } else if let LTLToken::CloseParenthesis = tokens[next] {
                Err(ParsingError::new(ErrorKind::UnmatchedCloseParenthesis, "", None))
            } else {
                Err(ParsingError::new(ErrorKind::ShittySyntax, "", None))
            }
        },
        Err(kind) => Err(ParsingError::new(kind, "", None)),
    }
}

/// The token that stands for an operator.
pub open spec fn binary_token(kind: LTLBinaryInfixKind) -> LTLTokenBinaryInfix {
    match kind {
        LTLBinaryInfixKind::And => LTLTokenBinaryInfix::And,
        LTLBinaryInfixKind::Or => LTLTokenBinaryInfix::Or,
        LTLBinaryInfixKind::Implies => LTLTokenBinaryInfix::Implies,
        LTLBinaryInfixKind::Until => LTLTokenBinaryInfix::Until,
        LTLBinaryInfixKind::WeakUntil => LTLTokenBinaryInfix::WeakUntil,
        LTLBinaryInfixKind::Release => LTLTokenBinaryInfix::Release,
    }
}

/// The token that stands for an operator.
pub open spec fn unary_token(kind: LTLUnaryPrefixKind) -> LTLTokenUnaryPrefix {
    match kind {
        LTLUnaryPrefixKind::Next => LTLTokenUnaryPrefix::Next,
        LTLUnaryPrefixKind::Not => LTLTokenUnaryPrefix::Not,
        LTLUnaryPrefixKind::Future => LTLTokenUnaryPrefix::Future,
        LTLUnaryPrefixKind::Generally => LTLTokenUnaryPrefix::Generally,
    }
}

/// The token that stands for an atom.
pub open spec fn atomic_token(kind: LTLAtomicKind) -> LTLTokenAtomic {
    match kind {
        LTLAtomicKind::AP(ap) => LTLTokenAtomic::AP(ap),
        LTLAtomicKind::True => LTLTokenAtomic::True,
        LTLAtomicKind::False => LTLTokenAtomic::False,
    }
}

/// The tokens of a written formula, with every operand that is not an atom in parentheses.
pub open spec fn unparse(tree: LTLFormulaBuilding) -> Seq<LTLToken>
    decreases tree, 0nat,
{
    match tree {
        LTLFormulaBuilding::Atomics(kind) => seq![LTLToken::Atomic(atomic_token(kind))],
        LTLFormulaBuilding::UnaryPrefix(kind, phi) => seq![LTLToken::UnaryPrefix(unary_token(kind))]
            + unparse_operand(*phi),
        LTLFormulaBuilding::BinaryInfix(kind, phi1, phi2) => unparse_operand(*phi1)
            + seq![LTLToken::BinaryInfix(binary_token(kind))] + unparse_operand(*phi2),
    }
}

/// The tokens of a written formula where it stands as an operand: in
/// parentheses, unless it is an atom.
pub open spec fn unparse_operand(tree: LTLFormulaBuilding) -> Seq<LTLToken>
    decreases tree, 1nat,
{
    if tree is Atomics {
        unparse(tree)
    } else {
        seq![LTLToken::OpenParenthesis] + unparse(tree) + seq![LTLToken::CloseParenthesis]
    }
}

/// The same formula, written with the core operators alone.
pub open spec fn embed(phi: LTLFormula) -> LTLFormulaBuilding
    decreases phi,
{
    match phi {
        LTLFormula::AP(ap) => LTLFormulaBuilding::Atomics(LTLAtomicKind::AP(ap)),
        LTLFormula::Not(a) => LTLFormulaBuilding::UnaryPrefix(LTLUnaryPrefixKind::Not, Box::new(embed(*a))),
        LTLFormula::And(a, b) => LTLFormulaBuilding::BinaryInfix(
            LTLBinaryInfixKind::And,
            Box::new(embed(*a)),
            Box::new(embed(*b)),
        ),
        LTLFormula::Next(a) => LTLFormulaBuilding::UnaryPrefix(LTLUnaryPrefixKind::Next, Box::new(embed(*a))),
        LTLFormula::Until(a, b) => LTLFormulaBuilding::BinaryInfix(
            LTLBinaryInfixKind::Until,
            Box::new(embed(*a)),
            Box::new(embed(*b)),
        ),
    }
}

/// Whether `piece` stands in `tokens` at `pos`.
pub open spec fn stands_at(tokens: Seq<LTLToken>, pos: int, piece: Seq<LTLToken>) -> bool {
    &&& 0 <= pos
    &&& pos + piece.len() <= tokens.len()
    &&& forall|i: int| 0 <= i < piece.len() ==> tokens[pos + i] == #[trigger] piece[i]
}

proof fn lemma_stands_at_split(tokens: Seq<LTLToken>, pos: int, x: Seq<LTLToken>, y: Seq<LTLToken>)
    requires
        stands_at(tokens, pos, x + y),
    ensures
        stands_at(tokens, pos, x),
        stands_at(tokens, pos + x.len(), y),
{
    assert forall|i: int| 0 <= i < x.len() implies tokens[pos + i] == #[trigger] x[i] by {
        assert((x + y)[i] == x[i]);
    }
    assert forall|i: int| 0 <= i < y.len() implies tokens[pos + x.len() + i] == #[trigger] y[i] by {
        assert((x + y)[x.len() + i] == y[i]);
    }
}

/// What is written never begins with a closing parenthesis or a binary operator.
proof fn lemma_unparse_head(tree: LTLFormulaBuilding)
    ensures
        unparse(tree).len() > 0,
        unparse(tree)[0] != LTLToken::CloseParenthesis,
        unparse_operand(tree).len() > 0,
        unparse_operand(tree)[0] != LTLToken::CloseParenthesis,
    decreases tree,
{
    match tree {
        LTLFormulaBuilding::Atomics(_) => {},
        LTLFormulaBuilding::UnaryPrefix(_, _) => {},
        LTLFormulaBuilding::BinaryInfix(_, phi1, _) => {
            lemma_unparse_head(*phi1);
        },
    }
}

/// An operand that was written is read back as it was, whatever stands around it.
pub proof fn lemma_operand_read_back(tokens: Seq<LTLToken>, pos: int, nested: bool, tree: LTLFormulaBuilding)
    requires
        stands_at(tokens, pos, unparse_operand(tree)),
    ensures
        parse_operand(tokens, pos, nested) == Ok::<_, ErrorKind>((tree, pos + unparse_operand(tree).len())),
    decreases tree, 1nat,
{
    let piece = unparse_operand(tree);
    assert(tokens[pos + 0] == piece[0]);
    match tree {
        LTLFormulaBuilding::Atomics(kind) => {},
        _ => {
            let inner = unparse(tree);
            lemma_unparse_head(tree);
            let open = seq![LTLToken::OpenParenthesis];
            let close = seq![LTLToken::CloseParenthesis];
            lemma_stands_at_split(tokens, pos, open + inner, close);
            lemma_stands_at_split(tokens, pos, open, inner);
            assert(tokens[pos + 1 + 0] == inner[0]);
            assert(tokens[pos + 1 + inner.len() + 0] == close[0]);
            lemma_formula_read_back(tokens, pos + 1, true, tree);
        },
    }
}

/// A formula that was written is read back as it was, where no binary
/// operator follows it.
pub proof fn lemma_formula_read_back(tokens: Seq<LTLToken>, pos: int, nested: bool, tree: LTLFormulaBuilding)
    requires
        stands_at(tokens, pos, unparse(tree)),
        pos + unparse(tree).len() < tokens.len() ==> !(tokens[pos + unparse(tree).len()] is BinaryInfix),
    ensures
        parse_formula(tokens, pos, 0, nested) == Ok::<_, ErrorKind>((tree, pos + unparse(tree).len())),
    decreases tree, 0nat,
{
    let piece = unparse(tree);
    assert(tokens[pos + 0] == piece[0]);
    match tree {
        LTLFormulaBuilding::Atomics(kind) => {},
        LTLFormulaBuilding::UnaryPrefix(kind, phi) => {
            let head = seq![LTLToken::UnaryPrefix(unary_token(kind))];
            lemma_stands_at_split(tokens, pos, head, unparse_operand(*phi));
            lemma_operand_read_back(tokens, pos + 1, nested, *phi);
        },
        LTLFormulaBuilding::BinaryInfix(kind, phi1, phi2) => {
            let left = unparse_operand(*phi1);
            let middle = seq![LTLToken::BinaryInfix(binary_token(kind))];
            let right = unparse_operand(*phi2);
            lemma_stands_at_split(tokens, pos, left + middle, right);
            lemma_stands_at_split(tokens, pos, left, middle);
            lemma_operand_read_back(tokens, pos, nested, *phi1);
            let at_operator = pos + left.len();
            assert(tokens[at_operator + 0] == middle[0]);
            assert(binary_kind(binary_token(kind)) == kind);
            lemma_operand_read_back(tokens, at_operator + 1, nested, *phi2);
            let end = at_operator + 1 + right.len();
            assert(end == pos + piece.len());
            assert(parse_tail(tokens, *phi2, end, kind.precedence(), nested) == Ok::<_, ErrorKind>((*phi2, end)));
            assert(parse_formula(tokens, at_operator + 1, kind.precedence(), nested) == Ok::<_, ErrorKind>(
                (*phi2, end),
            ));
            assert(parse_tail(tokens, tree, end, 0, nested) == Ok::<_, ErrorKind>((tree, end)));
        },
    }
}

/// Writing a formula and reading the tokens back gives the formula that was
/// written: with every operator of the syntax, the same tree.
pub proof fn lemma_read_back(tree: LTLFormulaBuilding)
    ensures
        parse_tokens(unparse(tree)) == Ok::<_, ErrorKind>(tree),
{
    lemma_formula_read_back(unparse(tree), 0, false, tree);
}

/// A formula over the core operators is what its written form stands for.
pub proof fn lemma_desugar_embed(phi: LTLFormula)
    ensures
        desugar(embed(phi)) == phi,
    decreases phi,
{
    match phi {
        LTLFormula::AP(_) => {},
        LTLFormula::Not(a) => {
            lemma_desugar_embed(*a);
        },
        LTLFormula::And(a, b) => {
            lemma_desugar_embed(*a);
            lemma_desugar_embed(*b);
        },
        LTLFormula::Next(a) => {
            lemma_desugar_embed(*a);
        },
        LTLFormula::Until(a, b) => {
            lemma_desugar_embed(*a);
            lemma_desugar_embed(*b);
        },
    }
}

/// Reading the written form of a formula over the core operators gives that formula again.
pub proof fn lemma_core_read_back(phi: LTLFormula)
    ensures
        parse_tokens(unparse(embed(phi))) matches Ok(tree) && desugar(tree) == phi,
{
    lemma_read_back(embed(phi));
    lemma_desugar_embed(phi);
}

/// The operators outside the core are read as what they abbreviate: for
/// written formulas `a` and `b` that stand for `f` and `g`, "finally `a`" is
/// read as `true` until `f`, "globally `a`" as not (`true` until not `f`),
/// "`a` or `b`" as not (not `f` and not `g`), "`a` implies `b`" as not (`f`
/// and not `g`), "`a` releases `b`" as not (not `f` until not `g`), and "`a`
/// weakly until `b`" as (`f` until `g`) or globally `f`.
pub proof fn lemma_derived_operators(a: LTLFormulaBuilding, b: LTLFormulaBuilding)
    ensures
        ({
            let f = desugar(a);
            let g = desugar(b);
            let unary = |kind: LTLUnaryPrefixKind| LTLFormulaBuilding::UnaryPrefix(kind, Box::new(a));
            let binary = |kind: LTLBinaryInfixKind| LTLFormulaBuilding::BinaryInfix(kind, Box::new(a), Box::new(b));
            let read = |tree: LTLFormulaBuilding| desugar(parse_tokens(unparse(tree))->Ok_0);
            &&& read(unary(LTLUnaryPrefixKind::Future)) == LTLFormula::Until(Box::new(truth()), Box::new(f))
            &&& read(unary(LTLUnaryPrefixKind::Generally)) == LTLFormula::Not(
                Box::new(LTLFormula::Until(Box::new(truth()), Box::new(LTLFormula::Not(Box::new(f))))),
            )
            &&& read(binary(LTLBinaryInfixKind::Or)) == LTLFormula::Not(
                Box::new(
                    LTLFormula::And(Box::new(LTLFormula::Not(Box::new(f))), Box::new(LTLFormula::Not(Box::new(g)))),
                ),
            )
            &&& read(binary(LTLBinaryInfixKind::Implies)) == LTLFormula::Not(
                Box::new(LTLFormula::And(Box::new(f), Box::new(LTLFormula::Not(Box::new(g))))),
            )
            &&& read(binary(LTLBinaryInfixKind::Release)) == LTLFormula::Not(
                Box::new(
                    LTLFormula::Until(Box::new(LTLFormula::Not(Box::new(f))), Box::new(LTLFormula::Not(Box::new(g)))),
                ),
            )
            &&& read(binary(LTLBinaryInfixKind::WeakUntil)) == either(
                LTLFormula::Until(Box::new(f), Box::new(g)),
                always(f),
            )
        }),
{
    lemma_read_back(LTLFormulaBuilding::UnaryPrefix(LTLUnaryPrefixKind::Future, Box::new(a)));
    lemma_read_back(LTLFormulaBuilding::UnaryPrefix(LTLUnaryPrefixKind::Generally, Box::new(a)));
    lemma_read_back(LTLFormulaBuilding::BinaryInfix(LTLBinaryInfixKind::Or, Box::new(a), Box::new(b)));
    lemma_read_back(LTLFormulaBuilding::BinaryInfix(LTLBinaryInfixKind::Implies, Box::new(a), Box::new(b)));
    lemma_read_back(LTLFormulaBuilding::BinaryInfix(LTLBinaryInfixKind::Release, Box::new(a), Box::new(b)));
    lemma_read_back(LTLFormulaBuilding::BinaryInfix(LTLBinaryInfixKind::WeakUntil, Box::new(a), Box::new(b)));
}

/// Whether a kind of error is one that the order of the tokens can be at fault for.
pub open spec fn of_order(kind: ErrorKind) -> bool {
    kind == ErrorKind::ShittySyntax || kind == ErrorKind::UnmatchedOpenParenthesis || kind
        == ErrorKind::UnmatchedCloseParenthesis || kind == ErrorKind::EmptyParenthesis
}

/// Reading an operand fails only for the order of the tokens.
pub proof fn lemma_operand_errors(tokens: Seq<LTLToken>, pos: int, nested: bool)
    ensures
        parse_operand(tokens, pos, nested) matches Err(kind) ==> of_order(kind),
    decreases tokens.len() - pos, 1nat,
{
    if 0 <= pos < tokens.len() {
        match tokens[pos] {
            LTLToken::UnaryPrefix(_) => {
                lemma_operand_errors(tokens, pos + 1, nested);
            },
            LTLToken::OpenParenthesis => {
                lemma_formula_errors(tokens, pos + 1, 0, true);
            },
            _ => {},
        }
    }
}

/// Reading a formula fails only for the order of the tokens.
pub proof fn lemma_formula_errors(tokens: Seq<LTLToken>, pos: int, min_precedence: u32, nested: bool)
    ensures
        parse_formula(tokens, pos, min_precedence, nested) matches Err(kind) ==> of_order(kind),
    decreases tokens.len() - pos, 2nat,
{
    lemma_operand_errors(tokens, pos, nested);
    match parse_operand(tokens, pos, nested) {
        Ok((left, next)) => {
            if pos < next <= tokens.len() {
                lemma_tail_errors(tokens, left, next, min_precedence, nested);
            }
        },
        Err(_) => {},
    }
}

/// Going on behind a formula fails only for the order of the tokens.
pub proof fn lemma_tail_errors(
    tokens: Seq<LTLToken>,
    left: LTLFormulaBuilding,
    pos: int,
    min_precedence: u32,
    nested: bool,
)
    ensures
        parse_tail(tokens, left, pos, min_precedence, nested) matches Err(kind) ==> of_order(kind),
    decreases tokens.len() - pos, 0nat,
{
    if 0 <= pos < tokens.len() && tokens[pos] is BinaryInfix && binary_kind(tokens[pos]->BinaryInfix_0).precedence()
        >= min_precedence {
        let kind = binary_kind(tokens[pos]->BinaryInfix_0);
        lemma_formula_errors(tokens, pos + 1, kind.precedence(), nested);
        match parse_formula(tokens, pos + 1, kind.precedence(), nested) {
            Ok((right, next)) => {
                if pos < next <= tokens.len() {
                    lemma_tail_errors(
                        tokens,
                        LTLFormulaBuilding::BinaryInfix(kind, Box::new(left), Box::new(right)),
                        next,
                        min_precedence,
                        nested,
                    );
                }
            },
            Err(_) => {},
        }
    }
}

fn to_binary_token(kind: LTLBinaryInfixKind) -> (r: LTLTokenBinaryInfix)
    ensures
        r == binary_token(kind),
{
    match kind {
        LTLBinaryInfixKind::And => LTLTokenBinaryInfix::And,
        LTLBinaryInfixKind::Or => LTLTokenBinaryInfix::Or,
        LTLBinaryInfixKind::Implies => LTLTokenBinaryInfix::Implies,
        LTLBinaryInfixKind::Until => LTLTokenBinaryInfix::Until,
        LTLBinaryInfixKind::WeakUntil => LTLTokenBinaryInfix::WeakUntil,
        LTLBinaryInfixKind::Release => LTLTokenBinaryInfix::Release,
    }
}

fn to_unary_token(kind: LTLUnaryPrefixKind) -> (r: LTLTokenUnaryPrefix)
    ensures
        r == unary_token(kind),
{
    match kind {
        LTLUnaryPrefixKind::Next => LTLTokenUnaryPrefix::Next,
        LTLUnaryPrefixKind::Not => LTLTokenUnaryPrefix::Not,
        LTLUnaryPrefixKind::Future => LTLTokenUnaryPrefix::Future,
        LTLUnaryPrefixKind::Generally => LTLTokenUnaryPrefix::Generally,
    }
}

fn to_atomic_token(kind: LTLAtomicKind) -> (r: LTLTokenAtomic)
    ensures
        r == atomic_token(kind),
{
    match kind {
        LTLAtomicKind::AP(ap) => LTLTokenAtomic::AP(ap),
        LTLAtomicKind::True => LTLTokenAtomic::True,
        LTLAtomicKind::False => LTLTokenAtomic::False,
    }
}

impl LTLFormulaBuilding {
    /// Puts the tokens of the formula behind `tokens`.
    fn write(&self, tokens: &mut Vec<LTLToken>)
        ensures
            final(tokens)@ == old(tokens)@ + unparse(*self),
        decreases *self, 0nat,
    {
        match self {
            LTLFormulaBuilding::Atomics(kind) => {
                tokens.push(LTLToken::Atomic(to_atomic_token(*kind)));
                assert(tokens@ =~= old(tokens)@ + unparse(*self));
            },
            LTLFormulaBuilding::UnaryPrefix(kind, phi) => {
                tokens.push(LTLToken::UnaryPrefix(to_unary_token(*kind)));
                phi.write_operand(tokens);
                assert(tokens@ =~= old(tokens)@ + unparse(*self));
            },
            LTLFormulaBuilding::BinaryInfix(kind, phi1, phi2) => {
                phi1.write_operand(tokens);
                tokens.push(LTLToken::BinaryInfix(to_binary_token(*kind)));
                phi2.write_operand(tokens);
                assert(tokens@ =~= old(tokens)@ + unparse(*self));
            },
        }
    }

    /// Puts the tokens of the formula behind `tokens`, in parentheses unless it is an atom.
    fn write_operand(&self, tokens: &mut Vec<LTLToken>)
        ensures
            final(tokens)@ == old(tokens)@ + unparse_operand(*self),
        decreases *self, 1nat,
    {
        match self {
            LTLFormulaBuilding::Atomics(_) => {
                self.write(tokens);
            },
            _ => {
                tokens.push(LTLToken::OpenParenthesis);
                self.write(tokens);
                tokens.push(LTLToken::CloseParenthesis);
                assert(tokens@ =~= old(tokens)@ + unparse_operand(*self));
            },
        }
    }

    /// The tokens of the formula, with every operand that is not an atom in
    /// parentheses. Reading them gives the formula again.
    pub fn to_tokens(&self) -> (r: Vec<LTLToken>)
        ensures
            r@ == unparse(*self),
            parse_tokens(r@) == Ok::<_, ErrorKind>(*self),
    {
        let mut tokens: Vec<LTLToken> = Vec::new();
        self.write(&mut tokens);
        proof {
            assert(tokens@ =~= unparse(*self));
            lemma_read_back(*self);
        }
        tokens
    }

    /// The formula `phi`, written with the core operators alone.
    pub fn from_formula(phi: &LTLFormula) -> (r: LTLFormulaBuilding)
        ensures
            r == embed(*phi),
            desugar(r) == *phi,
        decreases *phi,
    {
        proof {
            lemma_desugar_embed(*phi);
        }
        match phi {
            LTLFormula::AP(ap) => LTLFormulaBuilding::Atomics(LTLAtomicKind::AP(*ap)),
            LTLFormula::Not(a) => LTLFormulaBuilding::UnaryPrefix(
                LTLUnaryPrefixKind::Not,
                Box::new(LTLFormulaBuilding::from_formula(a)),
            ),
            LTLFormula::And(a, b) => LTLFormulaBuilding::BinaryInfix(
                LTLBinaryInfixKind::And,
                Box::new(LTLFormulaBuilding::from_formula(a)),
                Box::new(LTLFormulaBuilding::from_formula(b)),
            ),
            LTLFormula::Next(a) => LTLFormulaBuilding::UnaryPrefix(
                LTLUnaryPrefixKind::Next,
                Box::new(LTLFormulaBuilding::from_formula(a)),
            ),
            LTLFormula::Until(a, b) => LTLFormulaBuilding::BinaryInfix(
                LTLBinaryInfixKind::Until,
                Box::new(LTLFormulaBuilding::from_formula(a)),
                Box::new(LTLFormulaBuilding::from_formula(b)),
            ),
        }
    }
}

} // verus!
