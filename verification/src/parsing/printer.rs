//! From tokens back to text.

use crate::parsing::lexer::{
    ApMap, is_name_part, is_name_start, is_space, lemma_name_end_bounds, lex, lex_from, name_end, operator_of, LTLToken,
    LTLTokenAtomic, LTLTokenBinaryInfix, LTLTokenUnaryPrefix, AMPERSAND, BANG, BAR, BLANK, CLOSE, DIGIT_0, DIGIT_1,
    MAX_APS, OPEN, UPPER_F, UPPER_G, UPPER_R, UPPER_U, UPPER_W, UPPER_X,
};
use crate::parsing::parser::{
    atomic_kind, binary_kind, desugar, embed, lemma_desugar_embed, lemma_read_back, parse_formula, parse_operand, parse_tail, parse_tokens, unary_kind, unparse,
    unparse_operand, LTLAtomicKind, LTLBinaryInfixKind, LTLFormulaBuilding, LTLUnaryPrefixKind,
};
use crate::parsing::parsing_error::ErrorKind;
use crate::parsing::{always, either, falsity, parse_text, truth, weak_until, LTLFormula};
use crate::seqs::{lemma_position, position};
use vstd::prelude::*;

verus! {

/// Whether `name` can be the name of an atomic proposition: a lower-case
/// letter, and behind it letters, digits and underscores.
pub open spec fn valid_name(name: Seq<u8>) -> bool {
    &&& name.len() > 0
    &&& is_name_start(name[0])
    &&& forall|t: int| 0 < t < name.len() ==> is_name_part(#[trigger] name[t])
}

/// Whether `names` can be the names of the atomic propositions of one
/// formula: each is a name, no two are the same, and a symbol has a bit for each.
pub open spec fn valid_names(names: Seq<Seq<u8>>) -> bool {
    &&& names.len() <= MAX_APS
    &&& names.no_duplicates()
    &&& forall|i: int| 0 <= i < names.len() ==> valid_name(#[trigger] names[i])
}

/// The text of a token. The token for "implies" has none.
pub open spec fn token_text(token: LTLToken, names: Seq<Seq<u8>>) -> Seq<u8> {
    match token {
        LTLToken::OpenParenthesis => seq![OPEN],
        LTLToken::CloseParenthesis => seq![CLOSE],
        LTLToken::Atomic(LTLTokenAtomic::AP(id)) => names[id as int],
        LTLToken::Atomic(LTLTokenAtomic::True) => seq![DIGIT_1],
        LTLToken::Atomic(LTLTokenAtomic::False) => seq![DIGIT_0],
        LTLToken::UnaryPrefix(LTLTokenUnaryPrefix::Next) => seq![UPPER_X],
        LTLToken::UnaryPrefix(LTLTokenUnaryPrefix::Not) => seq![BANG],
        LTLToken::UnaryPrefix(LTLTokenUnaryPrefix::Future) => seq![UPPER_F],
        LTLToken::UnaryPrefix(LTLTokenUnaryPrefix::Generally) => seq![UPPER_G],
        LTLToken::BinaryInfix(LTLTokenBinaryInfix::And) => seq![AMPERSAND],
        LTLToken::BinaryInfix(LTLTokenBinaryInfix::Or) => seq![BAR],
        LTLToken::BinaryInfix(LTLTokenBinaryInfix::Until) => seq![UPPER_U],
        LTLToken::BinaryInfix(LTLTokenBinaryInfix::WeakUntil) => seq![UPPER_W],
        LTLToken::BinaryInfix(LTLTokenBinaryInfix::Release) => seq![UPPER_R],
        LTLToken::BinaryInfix(LTLTokenBinaryInfix::Implies) => Seq::empty(),
    }
}

/// The text of the tokens: the text of each, with a blank behind it.
pub open spec fn rendered(tokens: Seq<LTLToken>, names: Seq<Seq<u8>>) -> Seq<u8>
    decreases tokens.len(),
{
    if tokens.len() == 0 {
        Seq::empty()
    } else {
        token_text(tokens[0], names) + seq![BLANK] + rendered(tokens.drop_first(), names)
    }
}

/// Whether each token has a text.
pub open spec fn writable(tokens: Seq<LTLToken>) -> bool {
    forall|i: int| 0 <= i < tokens.len() ==> #[trigger] tokens[i] != LTLToken::BinaryInfix(LTLTokenBinaryInfix::Implies)
}

/// Where the atomic propositions of the tokens first appear in the order of
/// their identifiers, after those below `count` have appeared: the number
/// of identifiers that have appeared in the end. `None` says that an
/// identifier appears before a lower one has.
pub open spec fn numbered(tokens: Seq<LTLToken>, count: nat) -> Option<nat>
    decreases tokens.len(),
{
    if tokens.len() == 0 {
        Some(count)
    } else {
        match tokens[0] {
            LTLToken::Atomic(LTLTokenAtomic::AP(id)) => if id < count {
                numbered(tokens.drop_first(), count)
            } else if id == count {
                numbered(tokens.drop_first(), count + 1)
            } else {
                None
            },
            _ => numbered(tokens.drop_first(), count),
        }
    }
}

/// No identifier is forgotten: the count never falls.
pub proof fn lemma_numbered_grows(tokens: Seq<LTLToken>, count: nat)
    ensures
        numbered(tokens, count) matches Some(end) ==> end >= count,
    decreases tokens.len(),
{
    if tokens.len() > 0 {
        lemma_numbered_grows(tokens.drop_first(), count);
        lemma_numbered_grows(tokens.drop_first(), count + 1);
    }
}

/// A name that runs up to a character that cannot go on with it ends there.
proof fn lemma_name_run(s: Seq<u8>, from: int, to: int)
    requires
        0 <= from <= to <= s.len(),
        forall|t: int| from <= t < to ==> is_name_part(#[trigger] s[t]),
        to < s.len() ==> !is_name_part(s[to]),
    ensures
        name_end(s, from) == to,
    decreases to - from,
{
    if from < to {
        lemma_name_run(s, from + 1, to);
    }
}

/// Reading the text of tokens gives the tokens again, where the names are
/// names, each token has a text and the atomic propositions first appear
/// in the order of their identifiers.
pub proof fn lemma_lex_rendered(
    s: Seq<u8>,
    i: int,
    done: Seq<LTLToken>,
    rest: Seq<LTLToken>,
    names: Seq<Seq<u8>>,
    count: nat,
)
    requires
        0 <= i <= s.len(),
        s.skip(i) == rendered(rest, names),
        valid_names(names),
        writable(rest),
        count <= names.len(),
        numbered(rest, count) == Some(names.len()),
    ensures
        lex_from(s, i, done, names.take(count as int)) == Ok::<_, (ErrorKind, nat)>((done + rest, names)),
    decreases rest.len(),
{
    let seen = names.take(count as int);
    if rest.len() == 0 {
        assert(s.skip(i).len() == 0);
        assert(done + rest =~= done);
        assert(seen =~= names);
    } else {
        let token = rest[0];
        let text = token_text(token, names);
        let later = rest.drop_first();
        let tail = rendered(later, names);
        assert(rendered(rest, names) == text + seq![BLANK] + tail);
        assert(writable(later)) by {
            assert forall|j: int| 0 <= j < later.len() implies #[trigger] later[j] != LTLToken::BinaryInfix(
                LTLTokenBinaryInfix::Implies,
            ) by {
                assert(later[j] == rest[j + 1]);
            }
        }
        assert(token != LTLToken::BinaryInfix(LTLTokenBinaryInfix::Implies));
        assert forall|t: int| 0 <= t < text.len() implies s[i + t] == #[trigger] text[t] by {
            assert(s.skip(i)[t] == text[t]);
        }
        assert(s[i + text.len()] == BLANK) by {
            assert(s.skip(i)[text.len() as int] == BLANK);
        }
        let end = i + text.len();
        assert(s.skip(end + 1) =~= tail) by {
            assert forall|t: int| 0 <= t < tail.len() implies s.skip(end + 1)[t] == tail[t] by {
                assert(s.skip(i)[text.len() + 1 + t] == tail[t]);
            }
        }
        assert(done.push(token) + later =~= done + rest);
        match token {
            LTLToken::Atomic(LTLTokenAtomic::AP(id)) => {
                assert(id <= count);
                lemma_numbered_grows(later, count + 1);
                assert(id < names.len());
                let name = names[id as int];
                assert(valid_name(name));
                assert(s[i + 0] == name[0]);
                assert forall|t: int| i + 1 <= t < end implies is_name_part(#[trigger] s[t]) by {
                    assert(s[i + (t - i)] == name[t - i]);
                }
                lemma_name_run(s, i + 1, end);
                assert(s.subrange(i, end) =~= name);
                lemma_position(seen, name);
                if id < count {
                    assert(seen[id as int] == name);
                    assert forall|j: int| 0 <= j < id implies seen[j] != name by {
                        assert(names[j] != names[id as int]);
                    }
                    assert(position(seen, name) == Some(id as nat));
                    lemma_lex_rendered(s, end + 1, done.push(token), later, names, count);
                    assert(lex_from(s, end, done.push(token), seen) == lex_from(s, end + 1, done.push(token), seen));
                    assert(lex_from(s, i, done, seen) == lex_from(s, end, done.push(token), seen));
                } else {
                    assert forall|j: int| 0 <= j < seen.len() implies seen[j] != name by {
                        assert(names[j] != names[id as int]);
                    }
                    assert(position(seen, name) is None);
                    let more = names.take(count as int + 1);
                    assert(seen.push(name) =~= more);
                    lemma_lex_rendered(s, end + 1, done.push(token), later, names, count + 1);
                    assert(lex_from(s, end, done.push(token), more) == lex_from(s, end + 1, done.push(token), more));
                    assert(seen.len() == count);
                    assert(lex_from(s, i, done, seen) == lex_from(s, end, done.push(token), more));
                }
            },
            _ => {
                assert(text.len() == 1);
                assert(s[i + 0] == text[0]);
                assert(operator_of(s[i]) == Some(token));
                lemma_lex_rendered(s, end + 1, done.push(token), later, names, count);
                assert(lex_from(s, end, done.push(token), seen) == lex_from(s, end + 1, done.push(token), seen));
                assert(lex_from(s, i, done, seen) == lex_from(s, end, done.push(token), seen));
            },
        }
    }
}

/// The text of tokens is read as these tokens, with the same names.
pub proof fn lemma_lex_of_rendered(tokens: Seq<LTLToken>, names: Seq<Seq<u8>>)
    requires
        valid_names(names),
        names.len() > 0,
        writable(tokens),
        numbered(tokens, 0) == Some(names.len()),
    ensures
        lex(rendered(tokens, names)) == Ok::<_, (ErrorKind, nat)>((tokens, names)),
{
    let s = rendered(tokens, names);
    assert(s.skip(0) =~= s);
    lemma_lex_rendered(s, 0, Seq::empty(), tokens, names, 0);
    assert(names.take(0) =~= Seq::<Seq<u8>>::empty());
    assert(Seq::<LTLToken>::empty() + tokens =~= tokens);
}

/// What one atomic proposition does to the count of identifiers that have
/// appeared: nothing where its identifier has appeared, one more where it
/// is the next one. `None` says that a lower identifier has yet to appear.
pub open spec fn counted(token: LTLToken, count: nat) -> Option<nat> {
    match token {
        LTLToken::Atomic(LTLTokenAtomic::AP(id)) => if id < count {
            Some(count)
        } else if id == count {
            Some(count + 1)
        } else {
            None
        },
        _ => Some(count),
    }
}

/// Counting over two runs of tokens is counting over the first and going on over the second.
pub proof fn lemma_numbered_concat(a: Seq<LTLToken>, b: Seq<LTLToken>, count: nat)
    ensures
        numbered(a + b, count) == match numbered(a, count) {
            Some(middle) => numbered(b, middle),
            None => None,
        },
    decreases a.len(),
{
    if a.len() == 0 {
        assert(a + b =~= b);
    } else {
        assert((a + b).drop_first() =~= a.drop_first() + b);
        assert((a + b)[0] == a[0]);
        lemma_numbered_concat(a.drop_first(), b, count);
        lemma_numbered_concat(a.drop_first(), b, count + 1);
    }
}

/// Counting over a single token.
pub proof fn lemma_numbered_one(token: LTLToken, count: nat)
    ensures
        numbered(seq![token], count) == counted(token, count),
{
    let one = seq![token];
    assert(one.drop_first() =~= Seq::<LTLToken>::empty());
    assert(one[0] == token);
    assert(numbered(one.drop_first(), count) == Some(count));
    assert(numbered(one.drop_first(), count + 1) == Some(count + 1));
}

/// The characters of a name behind its first are characters of a name.
proof fn lemma_name_parts(s: Seq<u8>, from: int, t: int)
    requires
        0 <= from <= t < name_end(s, from),
        from <= s.len(),
    ensures
        t < s.len(),
        is_name_part(s[t]),
    decreases t - from,
{
    lemma_name_end_bounds(s, from);
    if from < t {
        lemma_name_parts(s, from + 1, t);
    }
}

/// What is read without error is well numbered: the names are names, no
/// token is the one for "implies", and the atomic propositions first
/// appear in the order of their identifiers.
pub proof fn lemma_lex_numbered(s: Seq<u8>, i: int, tokens: Seq<LTLToken>, names: Seq<Seq<u8>>)
    requires
        0 <= i <= s.len(),
        valid_names(names),
        writable(tokens),
        numbered(tokens, 0) == Some(names.len()),
        lex_from(s, i, tokens, names) is Ok,
    ensures
        ({
            let read = lex_from(s, i, tokens, names)->Ok_0;
            valid_names(read.1) && writable(read.0) && numbered(read.0, 0) == Some(read.1.len())
        }),
    decreases s.len() - i,
{
    if i >= s.len() {
    } else if is_name_start(s[i]) {
        let j = name_end(s, i + 1);
        lemma_name_end_bounds(s, i + 1);
        let name = s.subrange(i, j);
        assert(valid_name(name)) by {
            assert forall|t: int| 0 < t < name.len() implies is_name_part(#[trigger] name[t]) by {
                lemma_name_parts(s, i + 1, i + t);
            }
        }
        lemma_position(names, name);
        match position(names, name) {
            Some(k) => {
                let token = LTLToken::Atomic(LTLTokenAtomic::AP(k as u8));
                lemma_numbered_concat(tokens, seq![token], 0);
                lemma_numbered_one(token, names.len());
                assert(tokens.push(token) =~= tokens + seq![token]);
                assert(writable(tokens.push(token))) by {
                    assert forall|x: int| 0 <= x < tokens.len() + 1 implies #[trigger] tokens.push(token)[x]
                        != LTLToken::BinaryInfix(LTLTokenBinaryInfix::Implies) by {
                        if x < tokens.len() {
                            assert(tokens.push(token)[x] == tokens[x]);
                        }
                    }
                }
                lemma_lex_numbered(s, j, tokens.push(token), names);
            },
            None => {
                let token = LTLToken::Atomic(LTLTokenAtomic::AP(names.len() as u8));
                let more = names.push(name);
                lemma_numbered_concat(tokens, seq![token], 0);
                lemma_numbered_one(token, names.len());
                assert(tokens.push(token) =~= tokens + seq![token]);
                assert(writable(tokens.push(token))) by {
                    assert forall|x: int| 0 <= x < tokens.len() + 1 implies #[trigger] tokens.push(token)[x]
                        != LTLToken::BinaryInfix(LTLTokenBinaryInfix::Implies) by {
                        if x < tokens.len() {
                            assert(tokens.push(token)[x] == tokens[x]);
                        }
                    }
                }
                assert(valid_names(more)) by {
                    assert forall|x: int| 0 <= x < more.len() implies valid_name(#[trigger] more[x]) by {
                        if x < names.len() {
                            assert(more[x] == names[x]);
                        }
                    }
                    assert(!names.contains(name));
                }
                lemma_lex_numbered(s, j, tokens.push(token), more);
            },
        }
    } else if is_space(s[i]) {
        lemma_lex_numbered(s, i + 1, tokens, names);
    } else {
        let token = operator_of(s[i])->0;
        lemma_numbered_concat(tokens, seq![token], 0);
        lemma_numbered_one(token, names.len());
        assert(tokens.push(token) =~= tokens + seq![token]);
        assert(writable(tokens.push(token))) by {
            assert forall|x: int| 0 <= x < tokens.len() + 1 implies #[trigger] tokens.push(token)[x]
                != LTLToken::BinaryInfix(LTLTokenBinaryInfix::Implies) by {
                if x < tokens.len() {
                    assert(tokens.push(token)[x] == tokens[x]);
                }
            }
        }
        lemma_lex_numbered(s, i + 1, tokens.push(token), names);
    }
}

/// Counting over the atomic propositions of a written formula, from left to right.
pub open spec fn numbered_tree(tree: LTLFormulaBuilding, count: nat) -> Option<nat>
    decreases tree,
{
    match tree {
        LTLFormulaBuilding::Atomics(LTLAtomicKind::AP(id)) => counted(
            LTLToken::Atomic(LTLTokenAtomic::AP(id)),
            count,
        ),
        LTLFormulaBuilding::Atomics(_) => Some(count),
        LTLFormulaBuilding::UnaryPrefix(_, phi) => numbered_tree(*phi, count),
        LTLFormulaBuilding::BinaryInfix(_, phi1, phi2) => match numbered_tree(*phi1, count) {
            Some(middle) => numbered_tree(*phi2, middle),
            None => None,
        },
    }
}

/// Counting over the atomic propositions of a formula, from left to right.
pub open spec fn numbered_formula(phi: LTLFormula, count: nat) -> Option<nat>
    decreases phi,
{
    match phi {
        LTLFormula::AP(id) => counted(LTLToken::Atomic(LTLTokenAtomic::AP(id)), count),
        LTLFormula::Not(a) => numbered_formula(*a, count),
        LTLFormula::Next(a) => numbered_formula(*a, count),
        LTLFormula::And(a, b) => match numbered_formula(*a, count) {
            Some(middle) => numbered_formula(*b, middle),
            None => None,
        },
        LTLFormula::Until(a, b) => match numbered_formula(*a, count) {
            Some(middle) => numbered_formula(*b, middle),
            None => None,
        },
    }
}

/// Counting over the tokens of a written formula is counting over the formula.
pub proof fn lemma_numbered_unparse(tree: LTLFormulaBuilding, count: nat)
    ensures
        numbered(unparse(tree), count) == numbered_tree(tree, count),
        numbered(unparse_operand(tree), count) == numbered_tree(tree, count),
    decreases tree,
{
    match tree {
        LTLFormulaBuilding::Atomics(kind) => {
            lemma_numbered_one(unparse(tree)[0], count);
            assert(unparse(tree) =~= seq![unparse(tree)[0]]);
        },
        LTLFormulaBuilding::UnaryPrefix(kind, phi) => {
            let head = seq![unparse(tree)[0]];
            lemma_numbered_unparse(*phi, count);
            lemma_numbered_one(head[0], count);
            lemma_numbered_concat(head, unparse_operand(*phi), count);
            assert(unparse(tree) =~= head + unparse_operand(*phi));
        },
        LTLFormulaBuilding::BinaryInfix(kind, phi1, phi2) => {
            let left = unparse_operand(*phi1);
            let right = unparse_operand(*phi2);
            let middle = seq![unparse(tree)[left.len() as int]];
            assert(unparse(tree) =~= left + (middle + right));
            lemma_numbered_unparse(*phi1, count);
            lemma_numbered_concat(left, middle + right, count);
            match numbered_tree(*phi1, count) {
                Some(after) => {
                    lemma_numbered_concat(middle, right, after);
                    lemma_numbered_one(middle[0], after);
                    lemma_numbered_unparse(*phi2, after);
                },
                None => {},
            }
        },
    }
    if !(tree is Atomics) {
        let open = seq![LTLToken::OpenParenthesis];
        let close = seq![LTLToken::CloseParenthesis];
        let inner = unparse(tree);
        assert(unparse_operand(tree) =~= open + (inner + close));
        lemma_numbered_concat(open, inner + close, count);
        lemma_numbered_one(LTLToken::OpenParenthesis, count);
        lemma_numbered_concat(inner, close, count);
        match numbered(inner, count) {
            Some(after) => {
                lemma_numbered_one(LTLToken::CloseParenthesis, after);
            },
            None => {},
        }
    }
}

/// Counting over a formula is counting over its written form.
pub proof fn lemma_numbered_embed(phi: LTLFormula, count: nat)
    ensures
        numbered_tree(embed(phi), count) == numbered_formula(phi, count),
    decreases phi,
{
    match phi {
        LTLFormula::AP(_) => {},
        LTLFormula::Not(a) => {
            lemma_numbered_embed(*a, count);
        },
        LTLFormula::Next(a) => {
            lemma_numbered_embed(*a, count);
        },
        LTLFormula::And(a, b) => {
            lemma_numbered_embed(*a, count);
            match numbered_formula(*a, count) {
                Some(middle) => lemma_numbered_embed(*b, middle),
                None => {},
            }
        },
        LTLFormula::Until(a, b) => {
            lemma_numbered_embed(*a, count);
            match numbered_formula(*a, count) {
                Some(middle) => lemma_numbered_embed(*b, middle),
                None => {},
            }
        },
    }
}

/// The written form of a formula over the core operators holds no token for "implies".
pub proof fn lemma_writable_embed(phi: LTLFormula)
    ensures
        writable(unparse(embed(phi))),
        writable(unparse_operand(embed(phi))),
    decreases phi,
{
    let tree = embed(phi);
    match phi {
        LTLFormula::AP(_) => {},
        LTLFormula::Not(a) => {
            lemma_writable_embed(*a);
        },
        LTLFormula::Next(a) => {
            lemma_writable_embed(*a);
        },
        LTLFormula::And(a, b) => {
            lemma_writable_embed(*a);
            lemma_writable_embed(*b);
        },
        LTLFormula::Until(a, b) => {
            lemma_writable_embed(*a);
            lemma_writable_embed(*b);
        },
    }
    assert(writable(unparse(tree)));
    assert(writable(unparse_operand(tree)));
}

/// Counting over a stretch of tokens is counting over its first part and
/// going on over the rest.
proof fn lemma_numbered_split(tokens: Seq<LTLToken>, from: int, middle: int, to: int, count: nat)
    requires
        0 <= from <= middle <= to <= tokens.len(),
    ensures
        numbered(tokens.subrange(from, to), count) == match numbered(tokens.subrange(from, middle), count) {
            Some(after) => numbered(tokens.subrange(middle, to), after),
            None => None,
        },
{
    assert(tokens.subrange(from, to) =~= tokens.subrange(from, middle) + tokens.subrange(middle, to));
    lemma_numbered_concat(tokens.subrange(from, middle), tokens.subrange(middle, to), count);
}

/// Counting over the one token at a position.
proof fn lemma_numbered_at(tokens: Seq<LTLToken>, pos: int, count: nat)
    requires
        0 <= pos < tokens.len(),
    ensures
        numbered(tokens.subrange(pos, pos + 1), count) == counted(tokens[pos], count),
{
    assert(tokens.subrange(pos, pos + 1) =~= seq![tokens[pos]]);
    lemma_numbered_one(tokens[pos], count);
}

/// Counting over the tokens of an operand that was read is counting over the operand.
pub proof fn lemma_operand_numbered(tokens: Seq<LTLToken>, pos: int, nested: bool, count: nat)
    requires
        0 <= pos,
    ensures
        parse_operand(tokens, pos, nested) matches Ok((tree, next)) ==> pos < next <= tokens.len() && numbered(
            tokens.subrange(pos, next),
            count,
        ) == numbered_tree(tree, count),
    decreases tokens.len() - pos, 1nat,
{
    if pos < tokens.len() {
        match tokens[pos] {
            LTLToken::Atomic(atomic) => {
                lemma_numbered_at(tokens, pos, count);
            },
            LTLToken::UnaryPrefix(prefix) => {
                lemma_operand_numbered(tokens, pos + 1, nested, count);
                match parse_operand(tokens, pos + 1, nested) {
                    Ok((phi, next)) => {
                        lemma_numbered_split(tokens, pos, pos + 1, next, count);
                        lemma_numbered_at(tokens, pos, count);
                    },
                    Err(_) => {},
                }
            },
            LTLToken::OpenParenthesis => {
                lemma_formula_numbered(tokens, pos + 1, 0, true, count);
                match parse_formula(tokens, pos + 1, 0, true) {
                    Ok((phi, next)) => {
                        if next < tokens.len() && tokens[next] == LTLToken::CloseParenthesis {
                            lemma_numbered_split(tokens, pos, pos + 1, next + 1, count);
                            lemma_numbered_at(tokens, pos, count);
                            lemma_numbered_split(tokens, pos + 1, next, next + 1, count);
                            match numbered(tokens.subrange(pos + 1, next), count) {
                                Some(after) => {
                                    lemma_numbered_at(tokens, next, after);
                                },
                                None => {},
                            }
                        }
                    },
                    Err(_) => {},
                }
            },
            _ => {},
        }
    }
}

/// Counting over the tokens of a formula that was read is counting over the formula.
pub proof fn lemma_formula_numbered(tokens: Seq<LTLToken>, pos: int, min_precedence: u32, nested: bool, count: nat)
    requires
        0 <= pos,
    ensures
        parse_formula(tokens, pos, min_precedence, nested) matches Ok((tree, next)) ==> pos < next <= tokens.len()
            && numbered(tokens.subrange(pos, next), count) == numbered_tree(tree, count),
    decreases tokens.len() - pos, 2nat,
{
    lemma_operand_numbered(tokens, pos, nested, count);
    match parse_operand(tokens, pos, nested) {
        Ok((left, middle)) => {
            if pos < middle <= tokens.len() {
                lemma_tail_numbered(tokens, left, middle, min_precedence, nested, count);
                match parse_tail(tokens, left, middle, min_precedence, nested) {
                    Ok((tree, next)) => {
                        lemma_numbered_split(tokens, pos, middle, next, count);
                    },
                    Err(_) => {},
                }
            }
        },
        Err(_) => {},
    }
}

/// Counting over the formula that going on gives is counting over the
/// formula before and going on over the tokens that were read.
pub proof fn lemma_tail_numbered(
    tokens: Seq<LTLToken>,
    left: LTLFormulaBuilding,
    pos: int,
    min_precedence: u32,
    nested: bool,
    count: nat,
)
    requires
        0 <= pos <= tokens.len(),
    ensures
        parse_tail(tokens, left, pos, min_precedence, nested) matches Ok((tree, next)) ==> pos <= next
            <= tokens.len() && numbered_tree(tree, count) == match numbered_tree(left, count) {
            Some(after) => numbered(tokens.subrange(pos, next), after),
            None => None,
        },
    decreases tokens.len() - pos, 0nat,
{
    if 0 <= pos < tokens.len() && tokens[pos] is BinaryInfix && binary_kind(tokens[pos]->BinaryInfix_0).precedence()
        >= min_precedence {
        let kind = binary_kind(tokens[pos]->BinaryInfix_0);
        match parse_formula(tokens, pos + 1, kind.precedence(), nested) {
            Ok((right, middle)) => {
                if pos < middle <= tokens.len() {
                    let joined = LTLFormulaBuilding::BinaryInfix(kind, Box::new(left), Box::new(right));
                    lemma_tail_numbered(tokens, joined, middle, min_precedence, nested, count);
                    match parse_tail(tokens, joined, middle, min_precedence, nested) {
                        Ok((tree, next)) => {
                            match numbered_tree(left, count) {
                                Some(after) => {
                                    lemma_formula_numbered(tokens, pos + 1, kind.precedence(), nested, after);
                                    lemma_numbered_split(tokens, pos, pos + 1, next, after);
                                    lemma_numbered_at(tokens, pos, after);
                                    lemma_numbered_split(tokens, pos + 1, middle, next, after);
                                },
                                None => {},
                            }
                        },
                        Err(_) => {},
                    }
                }
            },
            Err(_) => {},
        }
    } else {
        assert(tokens.subrange(pos, pos) =~= Seq::<LTLToken>::empty());
    }
}

/// Counting over tokens that were read as a formula is counting over the formula.
pub proof fn lemma_parse_numbered(tokens: Seq<LTLToken>, count: nat)
    ensures
        parse_tokens(tokens) matches Ok(tree) ==> numbered(tokens, count) == numbered_tree(tree, count),
{
    lemma_formula_numbered(tokens, 0, 0, false, count);
    match parse_formula(tokens, 0, 0, false) {
        Ok((tree, next)) => {
            if next >= tokens.len() {
                assert(tokens.subrange(0, next) =~= tokens);
            }
        },
        Err(_) => {},
    }
}

/// Counting never lowers the count.
pub proof fn lemma_formula_grows(phi: LTLFormula, count: nat)
    ensures
        numbered_formula(phi, count) matches Some(end) ==> end >= count,
    decreases phi,
{
    match phi {
        LTLFormula::AP(_) => {},
        LTLFormula::Not(a) => lemma_formula_grows(*a, count),
        LTLFormula::Next(a) => lemma_formula_grows(*a, count),
        LTLFormula::And(a, b) => {
            lemma_formula_grows(*a, count);
            match numbered_formula(*a, count) {
                Some(middle) => lemma_formula_grows(*b, middle),
                None => {},
            }
        },
        LTLFormula::Until(a, b) => {
            lemma_formula_grows(*a, count);
            match numbered_formula(*a, count) {
                Some(middle) => lemma_formula_grows(*b, middle),
                None => {},
            }
        },
    }
}

/// Counting from one identifier more ends where it ended before, or one
/// beyond the start where that is more.
pub proof fn lemma_formula_from_one_more(phi: LTLFormula, count: nat)
    requires
        numbered_formula(phi, count) is Some,
    ensures
        numbered_formula(phi, count + 1) == Some(
            if numbered_formula(phi, count)->0 >= count + 1 {
                numbered_formula(phi, count)->0
            } else {
                count + 1
            },
        ),
    decreases phi,
{
    match phi {
        LTLFormula::AP(_) => {},
        LTLFormula::Not(a) => lemma_formula_from_one_more(*a, count),
        LTLFormula::Next(a) => lemma_formula_from_one_more(*a, count),
        LTLFormula::And(a, b) => {
            lemma_formula_from_one_more(*a, count);
            let middle = numbered_formula(*a, count)->0;
            lemma_formula_grows(*a, count);
            lemma_formula_grows(*b, middle);
            if middle < count + 1 {
                lemma_formula_from_one_more(*b, middle);
            }
        },
        LTLFormula::Until(a, b) => {
            lemma_formula_from_one_more(*a, count);
            let middle = numbered_formula(*a, count)->0;
            lemma_formula_grows(*a, count);
            lemma_formula_grows(*b, middle);
            if middle < count + 1 {
                lemma_formula_from_one_more(*b, middle);
            }
        },
    }
}

/// Counting over a formula once more, when all its identifiers have
/// appeared, changes nothing.
pub proof fn lemma_formula_again(phi: LTLFormula, count: nat, later: nat)
    requires
        numbered_formula(phi, count) is Some,
        later >= numbered_formula(phi, count)->0,
    ensures
        numbered_formula(phi, later) == Some(later),
    decreases phi,
{
    match phi {
        LTLFormula::AP(_) => {},
        LTLFormula::Not(a) => lemma_formula_again(*a, count, later),
        LTLFormula::Next(a) => lemma_formula_again(*a, count, later),
        LTLFormula::And(a, b) => {
            let middle = numbered_formula(*a, count)->0;
            lemma_formula_grows(*b, middle);
            lemma_formula_again(*a, count, later);
            lemma_formula_again(*b, middle, later);
        },
        LTLFormula::Until(a, b) => {
            let middle = numbered_formula(*a, count)->0;
            lemma_formula_grows(*b, middle);
            lemma_formula_again(*a, count, later);
            lemma_formula_again(*b, middle, later);
        },
    }
}

/// Whether `end` is `count`, or 1 where `count` is 0: what writing `true`
/// and `false` with the first atomic proposition does to a count.
pub open spec fn bumped(count: nat, end: nat) -> bool {
    end == count || (count == 0 && end == 1)
}

/// `true` and `false` count the first atomic proposition.
proof fn lemma_constants_numbered(count: nat)
    ensures
        numbered_formula(truth(), count) == Some(if count == 0 { 1nat } else { count }),
        numbered_formula(falsity(), count) == Some(if count == 0 { 1nat } else { count }),
{
    let zero = LTLFormula::AP(0);
    let not_zero = LTLFormula::Not(Box::new(zero));
    let after = numbered_formula(zero, count)->0;
    assert(numbered_formula(not_zero, after) == numbered_formula(zero, after));
    assert(numbered_formula(falsity(), count) == numbered_formula(not_zero, after));
    assert(numbered_formula(truth(), count) == numbered_formula(falsity(), count));
}

/// Counting from a bumped count ends at the bumped end.
proof fn lemma_formula_bumped(phi: LTLFormula, count: nat, start: nat)
    requires
        numbered_formula(phi, count) is Some,
        bumped(count, start),
    ensures
        numbered_formula(phi, start) is Some,
        numbered_formula(phi, start)->0 == if start == count {
            numbered_formula(phi, count)->0
        } else if numbered_formula(phi, count)->0 >= 1 {
            numbered_formula(phi, count)->0
        } else {
            1
        },
{
    if start != count {
        lemma_formula_from_one_more(phi, count);
    }
}

/// Writing a formula over the core operators keeps the order in which the
/// atomic propositions first appear: counting ends where it ended for the
/// written formula, or at 1 where that was 0.
pub proof fn lemma_desugar_numbered(tree: LTLFormulaBuilding, count: nat)
    requires
        numbered_tree(tree, count) is Some,
    ensures
        numbered_formula(desugar(tree), count) is Some,
        bumped(numbered_tree(tree, count)->0, numbered_formula(desugar(tree), count)->0),
    decreases tree,
{
    lemma_constants_numbered(count);
    match tree {
        LTLFormulaBuilding::Atomics(_) => {},
        LTLFormulaBuilding::UnaryPrefix(kind, phi) => {
            lemma_desugar_numbered(*phi, count);
            let f = desugar(*phi);
            let start = numbered_formula(truth(), count)->0;
            lemma_formula_bumped(f, count, start);
            let not_f = LTLFormula::Not(Box::new(f));
            assert(numbered_formula(not_f, start) == numbered_formula(f, start));
            match kind {
                LTLUnaryPrefixKind::Not => {},
                LTLUnaryPrefixKind::Next => {},
                LTLUnaryPrefixKind::Future => {},
                LTLUnaryPrefixKind::Generally => {
                    let until = LTLFormula::Until(Box::new(truth()), Box::new(not_f));
                    assert(numbered_formula(until, count) == numbered_formula(not_f, start));
                    assert(numbered_formula(always(f), count) == numbered_formula(until, count));
                },
            }
        },
        LTLFormulaBuilding::BinaryInfix(kind, phi1, phi2) => {
            lemma_desugar_numbered(*phi1, count);
            let middle = numbered_tree(*phi1, count)->0;
            lemma_desugar_numbered(*phi2, middle);
            let f1 = desugar(*phi1);
            let f2 = desugar(*phi2);
            let after1 = numbered_formula(f1, count)->0;
            lemma_formula_bumped(f2, middle, after1);
            let after2 = numbered_formula(f2, after1)->0;
            assert(bumped(numbered_tree(tree, count)->0, after2));
            let not1 = LTLFormula::Not(Box::new(f1));
            let not2 = LTLFormula::Not(Box::new(f2));
            assert(numbered_formula(not1, count) == numbered_formula(f1, count));
            assert(numbered_formula(not2, after1) == numbered_formula(f2, after1));
            match kind {
                LTLBinaryInfixKind::And => {},
                LTLBinaryInfixKind::Or => {
                    let both = LTLFormula::And(Box::new(not1), Box::new(not2));
                    assert(numbered_formula(both, count) == Some(after2));
                    assert(numbered_formula(either(f1, f2), count) == numbered_formula(both, count));
                },
                LTLBinaryInfixKind::Implies => {
                    let both = LTLFormula::And(Box::new(f1), Box::new(not2));
                    assert(numbered_formula(both, count) == Some(after2));
                    assert(numbered_formula(desugar(tree), count) == numbered_formula(both, count));
                },
                LTLBinaryInfixKind::Until => {},
                LTLBinaryInfixKind::Release => {
                    let until = LTLFormula::Until(Box::new(not1), Box::new(not2));
                    assert(numbered_formula(until, count) == Some(after2));
                    assert(numbered_formula(desugar(tree), count) == numbered_formula(until, count));
                },
                LTLBinaryInfixKind::WeakUntil => {
                    let until = LTLFormula::Until(Box::new(f1), Box::new(f2));
                    assert(numbered_formula(until, count) == Some(after2));
                    let not_until = LTLFormula::Not(Box::new(until));
                    assert(numbered_formula(not_until, count) == Some(after2));
                    lemma_constants_numbered(after2);
                    let start = numbered_formula(truth(), after2)->0;
                    lemma_formula_grows(f2, after1);
                    lemma_formula_again(f1, count, start);
                    assert(numbered_formula(not1, start) == numbered_formula(f1, start));
                    let forever = LTLFormula::Until(Box::new(truth()), Box::new(not1));
                    assert(numbered_formula(forever, after2) == Some(start));
                    assert(numbered_formula(always(f1), after2) == numbered_formula(forever, after2));
                    let not_always = LTLFormula::Not(Box::new(always(f1)));
                    assert(numbered_formula(not_always, after2) == Some(start));
                    let both = LTLFormula::And(Box::new(not_until), Box::new(not_always));
                    assert(numbered_formula(both, count) == Some(start));
                    assert(numbered_formula(either(until, always(f1)), count) == numbered_formula(both, count));
                    assert(desugar(tree) == weak_until(f1, f2));
                },
            }
        },
    }
}

/// The text of a formula over the core operators: that of its tokens, with
/// every operand that is not an atom in parentheses.
pub open spec fn pretty(phi: LTLFormula, names: Seq<Seq<u8>>) -> Seq<u8> {
    rendered(unparse(embed(phi)), names)
}

/// A text that is read as a formula can be written again from the formula
/// and the names, and what is written is read as the same formula with the
/// same names.
pub proof fn lemma_parse_pretty(s: Seq<u8>)
    requires
        parse_text(s) is Ok,
    ensures
        parse_text(pretty(parse_text(s)->Ok_0.0, parse_text(s)->Ok_0.1)) == parse_text(s),
{
    let none = Seq::<LTLToken>::empty();
    let tokens = lex(s)->Ok_0.0;
    let names = lex(s)->Ok_0.1;
    let tree = parse_tokens(tokens)->Ok_0;
    let phi = desugar(tree);
    assert(numbered(none, 0) == Some(0nat));
    lemma_lex_numbered(s, 0, none, Seq::empty());
    lemma_parse_numbered(tokens, 0);
    lemma_desugar_numbered(tree, 0);
    lemma_numbered_embed(phi, 0);
    lemma_numbered_unparse(embed(phi), 0);
    lemma_writable_embed(phi);
    let written = unparse(embed(phi));
    lemma_lex_of_rendered(written, names);
    lemma_read_back(embed(phi));
    lemma_desugar_embed(phi);
}

/// Whether each atomic proposition of the tokens has a name among `amount` names.
pub open spec fn ids_named(tokens: Seq<LTLToken>, amount: nat) -> bool {
    forall|i: int|
        0 <= i < tokens.len() ==> (#[trigger] tokens[i] matches LTLToken::Atomic(LTLTokenAtomic::AP(id)) ==> id
            < amount)
}

/// The text of tokens with one more token is the text of the tokens with
/// the text of that token and a blank behind it.
proof fn lemma_rendered_push(tokens: Seq<LTLToken>, token: LTLToken, names: Seq<Seq<u8>>)
    ensures
        rendered(tokens.push(token), names) == rendered(tokens, names) + token_text(token, names) + seq![BLANK],
    decreases tokens.len(),
{
    let longer = tokens.push(token);
    let text = token_text(token, names);
    if tokens.len() == 0 {
        assert(longer.drop_first() =~= Seq::<LTLToken>::empty());
        assert(longer[0] == token);
        assert(rendered(longer.drop_first(), names) =~= Seq::<u8>::empty());
        assert(rendered(longer, names) == text + seq![BLANK] + rendered(longer.drop_first(), names));
        assert(rendered(tokens, names) =~= Seq::<u8>::empty());
        assert(rendered(longer, names) =~= rendered(tokens, names) + text + seq![BLANK]);
    } else {
        assert(longer.drop_first() =~= tokens.drop_first().push(token));
        assert(longer[0] == tokens[0]);
        lemma_rendered_push(tokens.drop_first(), token, names);
        let head = token_text(tokens[0], names) + seq![BLANK];
        assert(rendered(longer, names) == head + rendered(longer.drop_first(), names));
        assert(rendered(tokens, names) == head + rendered(tokens.drop_first(), names));
        assert(rendered(longer, names) =~= rendered(tokens, names) + text + seq![BLANK]);
    }
}

/// The character that stands for a token other than an atomic proposition.
fn token_char(token: LTLToken) -> (r: Option<u8>)
    ensures
        match r {
            Some(c) => !(token is Atomic && token->Atomic_0 is AP) && forall|names: Seq<Seq<u8>>|
                #[trigger] token_text(token, names) == seq![c],
            None => token is Atomic && token->Atomic_0 is AP || token == LTLToken::BinaryInfix(
                LTLTokenBinaryInfix::Implies,
            ),
        },
{
    match token {
        LTLToken::OpenParenthesis => Some(OPEN),
        LTLToken::CloseParenthesis => Some(CLOSE),
        LTLToken::Atomic(LTLTokenAtomic::AP(_)) => None,
        LTLToken::Atomic(LTLTokenAtomic::True) => Some(DIGIT_1),
        LTLToken::Atomic(LTLTokenAtomic::False) => Some(DIGIT_0),
        LTLToken::UnaryPrefix(LTLTokenUnaryPrefix::Next) => Some(UPPER_X),
        LTLToken::UnaryPrefix(LTLTokenUnaryPrefix::Not) => Some(BANG),
        LTLToken::UnaryPrefix(LTLTokenUnaryPrefix::Future) => Some(UPPER_F),
        LTLToken::UnaryPrefix(LTLTokenUnaryPrefix::Generally) => Some(UPPER_G),
        LTLToken::BinaryInfix(LTLTokenBinaryInfix::And) => Some(AMPERSAND),
        LTLToken::BinaryInfix(LTLTokenBinaryInfix::Or) => Some(BAR),
        LTLToken::BinaryInfix(LTLTokenBinaryInfix::Until) => Some(UPPER_U),
        LTLToken::BinaryInfix(LTLTokenBinaryInfix::WeakUntil) => Some(UPPER_W),
        LTLToken::BinaryInfix(LTLTokenBinaryInfix::Release) => Some(UPPER_R),
        LTLToken::BinaryInfix(LTLTokenBinaryInfix::Implies) => None,
    }
}

/// The text of the tokens, as bytes: the text of each token with a blank
/// behind it. `None` where an atomic proposition has no name.
pub fn render(tokens: &Vec<LTLToken>, names: &ApMap) -> (r: Option<Vec<u8>>)
    ensures
        match r {
            Some(text) => ids_named(tokens@, names@.len()) && text@ == rendered(tokens@, names@),
            None => !ids_named(tokens@, names@.len()),
        },
{
    let mut text: Vec<u8> = Vec::new();
    let mut i: usize = 0;
    while i < tokens.len()
        invariant
            i <= tokens@.len(),
            ids_named(tokens@.take(i as int), names@.len()),
            text@ == rendered(tokens@.take(i as int), names@),
        decreases tokens@.len() - i,
    {
        let token = tokens[i];
        proof {
            lemma_rendered_push(tokens@.take(i as int), token, names@);
            assert(tokens@.take(i as int).push(token) =~= tokens@.take(i + 1));
        }
        let ghost before = text@;
        match token_char(token) {
            Some(c) => {
                text.push(c);
                assert(token_text(token, names@) == seq![c]);
                assert(text@ =~= before + token_text(token, names@));
            },
            None => {
                if let LTLToken::Atomic(LTLTokenAtomic::AP(id)) = token {
                    match names.name(id) {
                        Some(name) => {
                            let mut t: usize = 0;
                            while t < name.len()
                                invariant
                                    t <= name@.len(),
                                    text@ == before + name@.take(t as int),
                                decreases name@.len() - t,
                            {
                                text.push(name[t]);
                                assert(text@ =~= before + name@.take(t + 1));
                                t = t + 1;
                            }
                            assert(name@.take(t as int) =~= name@);
                            assert(id < names@.len());
                        },
                        None => {
                            assert(tokens@[i as int] == token);
                            return None;
                        },
                    }
                } else {
                    assert(text@ =~= before + token_text(token, names@));
                }
            },
        }
        text.push(BLANK);
        proof {
            assert(text@ =~= before + token_text(token, names@) + seq![BLANK]);
            assert(token matches LTLToken::Atomic(LTLTokenAtomic::AP(id)) ==> id < names@.len());
            assert(tokens@.take(i + 1)[i as int] == token);
            assert forall|j: int| 0 <= j < i + 1 implies (#[trigger] tokens@.take(i + 1)[j] matches LTLToken::Atomic(
                LTLTokenAtomic::AP(id),
            ) ==> id < names@.len()) by {
                if j < i {
                    assert(tokens@.take(i as int)[j] == tokens@.take(i + 1)[j]);
                }
            }
        }
        i = i + 1;
    }
    assert(tokens@.take(i as int) =~= tokens@);
    Some(text)
}

impl LTLFormula {
    /// The text of the formula, as bytes, with `names` for its atomic
    /// propositions and every operand that is not an atom in parentheses.
    /// `None` where an atomic proposition has no name.
    pub fn to_text(&self, names: &ApMap) -> (r: Option<Vec<u8>>)
        ensures
            match r {
                Some(text) => text@ == pretty(*self, names@),
                None => !ids_named(unparse(embed(*self)), names@.len()),
            },
    {
        let tokens = LTLFormulaBuilding::from_formula(self).to_tokens();
        render(&tokens, names)
    }
}

} // verus!
