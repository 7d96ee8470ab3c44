//! From the text of a formula to its tokens.

use crate::parsing::parsing_error::{ErrorKind, ParsingError};
use crate::seqs::{lemma_position, position};
use vstd::prelude::*;
use vstd::string::StringSliceAdditionalSpecFns;

verus! {

#[derive(Debug, Clone, Copy, PartialEq, Eq, Structural)]
pub enum LTLTokenUnaryPrefix {
    Next,
    Not,
    Future,
    Generally,
}

#[derive(Debug, Clone, Copy, PartialEq, Eq, Structural)]
pub enum LTLTokenBinaryInfix {
    And,
    Or,
    /// No character stands for it: only a caller that builds tokens can use it.
    Implies,
    Until,
    WeakUntil,
    Release,
}

#[derive(Debug, Clone, Copy, PartialEq, Eq, Structural)]
pub enum LTLTokenAtomic {
    AP(u8),
    True,
    False,
}

#[derive(Debug, Clone, Copy, PartialEq, Eq, Structural)]
pub enum LTLToken {
    BinaryInfix(LTLTokenBinaryInfix),
    UnaryPrefix(LTLTokenUnaryPrefix),
    Atomic(LTLTokenAtomic),
    OpenParenthesis,
    CloseParenthesis,
}

/// The most atomic propositions that one formula can name: one for each bit of a symbol.
pub const MAX_APS: usize = 64;

/// The characters of the syntax, as bytes.
pub const LOWER_A: u8 = 97;
pub const LOWER_Z: u8 = 122;
pub const UPPER_A: u8 = 65;
pub const UPPER_Z: u8 = 90;
pub const DIGIT_0: u8 = 48;
pub const DIGIT_1: u8 = 49;
pub const DIGIT_9: u8 = 57;
pub const UNDERSCORE: u8 = 95;
pub const BLANK: u8 = 32;
pub const TAB: u8 = 9;
pub const CARRIAGE_RETURN: u8 = 13;
pub const OPEN: u8 = 40;
pub const CLOSE: u8 = 41;
pub const BANG: u8 = 33;
pub const AMPERSAND: u8 = 38;
pub const BAR: u8 = 124;
pub const UPPER_U: u8 = 85;
pub const UPPER_X: u8 = 88;
pub const UPPER_O: u8 = 79;
pub const UPPER_R: u8 = 82;
pub const UPPER_W: u8 = 87;
pub const UPPER_G: u8 = 71;
pub const UPPER_F: u8 = 70;

/// Blank, tab, line feed, vertical tab, form feed and carriage return.
pub open spec fn is_space(c: u8) -> bool {
    c == BLANK || (TAB <= c && c <= CARRIAGE_RETURN)
}

/// A lower-case letter: what the name of an atomic proposition begins with.
pub open spec fn is_name_start(c: u8) -> bool {
    LOWER_A <= c && c <= LOWER_Z
}

/// A letter, a digit or an underscore: what the name of an atomic proposition goes on with.
pub open spec fn is_name_part(c: u8) -> bool {
    (LOWER_A <= c && c <= LOWER_Z) || (UPPER_A <= c && c <= UPPER_Z) || (DIGIT_0 <= c && c <= DIGIT_9)
        || c == UNDERSCORE
}

/// The token that a single character stands for, if any.
pub open spec fn operator_of(c: u8) -> Option<LTLToken> {
    if c == OPEN {
        Some(LTLToken::OpenParenthesis)
    } else if c == CLOSE {
        Some(LTLToken::CloseParenthesis)
    } else if c == BANG {
        Some(LTLToken::UnaryPrefix(LTLTokenUnaryPrefix::Not))
    } else if c == AMPERSAND {
        Some(LTLToken::BinaryInfix(LTLTokenBinaryInfix::And))
    } else if c == BAR {
        Some(LTLToken::BinaryInfix(LTLTokenBinaryInfix::Or))
    } else if c == UPPER_U {
        Some(LTLToken::BinaryInfix(LTLTokenBinaryInfix::Until))
    } else if c == UPPER_X || c == UPPER_O {
        Some(LTLToken::UnaryPrefix(LTLTokenUnaryPrefix::Next))
    } else if c == UPPER_R {
        Some(LTLToken::BinaryInfix(LTLTokenBinaryInfix::Release))
    } else if c == UPPER_W {
        Some(LTLToken::BinaryInfix(LTLTokenBinaryInfix::WeakUntil))
    } else if c == UPPER_G {
        Some(LTLToken::UnaryPrefix(LTLTokenUnaryPrefix::Generally))
    } else if c == UPPER_F {
        Some(LTLToken::UnaryPrefix(LTLTokenUnaryPrefix::Future))
    } else if c == DIGIT_0 {
        Some(LTLToken::Atomic(LTLTokenAtomic::False))
    } else if c == DIGIT_1 {
        Some(LTLToken::Atomic(LTLTokenAtomic::True))
    } else {
        None
    }
}

/// Where the name that runs through offset `i` ends: the first offset from
/// `i` on that holds no name character, or the end of the text.
pub open spec fn name_end(s: Seq<u8>, i: int) -> int
    decreases s.len() - i,
{
    if 0 <= i < s.len() && is_name_part(s[i]) {
        name_end(s, i + 1)
    } else {
        i
    }
}

/// What reading gives: the tokens and the names in the order of their
/// identifiers, or the kind of error and the byte offset at which it stands.
pub type Lexed = Result<(Seq<LTLToken>, Seq<Seq<u8>>), (ErrorKind, nat)>;

/// Reads `s` from offset `i` on, after `tokens` were read and `names` were seen.
/// Blanks are skipped. A lower-case letter starts a name, which runs as far as
/// name characters go; a name seen before keeps its identifier, a new one
/// gets the next. Any other character is an operator or an error.
pub open spec fn lex_from(s: Seq<u8>, i: int, tokens: Seq<LTLToken>, names: Seq<Seq<u8>>) -> Lexed
    decreases s.len() - i,
{
    if i < 0 || i >= s.len() {
        Ok((tokens, names))
    } else if is_name_start(s[i]) {
        let j = name_end(s, i + 1);
        proof {
            lemma_name_end_bounds(s, i + 1);
        }
        {
            let name = s.subrange(i, j);
            let found = position(names, name);
            if found is Some {
                lex_from(
                    s,
                    j,
                    tokens.push(LTLToken::Atomic(LTLTokenAtomic::AP(found->0 as u8))),
                    names,
                )
            } else if names.len() >= MAX_APS {
                Err((ErrorKind::TooManyAPs, i as nat))
            } else {
                lex_from(
                    s,
                    j,
                    tokens.push(LTLToken::Atomic(LTLTokenAtomic::AP(names.len() as u8))),
                    names.push(name),
                )
            }
        }
    } else if is_space(s[i]) {
        lex_from(s, i + 1, tokens, names)
    } else {
        match operator_of(s[i]) {
            Some(token) => lex_from(s, i + 1, tokens.push(token), names),
            None => Err((ErrorKind::UnexpectedToken, i as nat)),
        }
    }
}

/// Reads the whole of `s`. A text without any atomic proposition is refused.
pub open spec fn lex(s: Seq<u8>) -> Lexed {
    match lex_from(s, 0, Seq::empty(), Seq::empty()) {
        Ok((tokens, names)) => if names.len() == 0 {
            Err((ErrorKind::NoAPs, 0))
        } else {
            Ok((tokens, names))
        },
        Err(e) => Err(e),
    }
}

/// A name ends no earlier than it was looked for, and within the text.
pub proof fn lemma_name_end_bounds(s: Seq<u8>, i: int)
    requires
        0 <= i <= s.len(),
    ensures
        i <= name_end(s, i) <= s.len(),
    decreases s.len() - i,
{
    if i < s.len() && is_name_part(s[i]) {
        lemma_name_end_bounds(s, i + 1);
    }
}

/// The names that stand in `s` from offset `i` on, in their order, each as
/// often as it stands there.
pub open spec fn names_from(s: Seq<u8>, i: int) -> Seq<Seq<u8>>
    decreases s.len() - i,
{
    if i < 0 || i >= s.len() {
        Seq::empty()
    } else if is_name_start(s[i]) {
        let j = name_end(s, i + 1);
        proof {
            lemma_name_end_bounds(s, i + 1);
        }
        seq![s.subrange(i, j)] + names_from(s, j)
    } else {
        names_from(s, i + 1)
    }
}

/// `seen`, and behind it the names of `more` that `seen` lacks, each once, in
/// the order in which they first appear.
pub open spec fn first_seen(seen: Seq<Seq<u8>>, more: Seq<Seq<u8>>) -> Seq<Seq<u8>>
    decreases more.len(),
{
    if more.len() == 0 {
        seen
    } else if seen.contains(more[0]) {
        first_seen(seen, more.drop_first())
    } else {
        first_seen(seen.push(more[0]), more.drop_first())
    }
}

/// The identifiers that the tokens for atomic propositions carry, in their order.
pub open spec fn ap_ids(tokens: Seq<LTLToken>) -> Seq<u8>
    decreases tokens.len(),
{
    if tokens.len() == 0 {
        Seq::empty()
    } else {
        match tokens.last() {
            LTLToken::Atomic(LTLTokenAtomic::AP(id)) => ap_ids(tokens.drop_last()).push(id),
            _ => ap_ids(tokens.drop_last()),
        }
    }
}

/// Reading on from offset `i` keeps the names seen so far where they are,
/// appends the new ones in the order in which they first appear, and gives
/// each name that it meets a token with the index of that name.
pub proof fn lemma_lex_from_names(s: Seq<u8>, i: int, tokens: Seq<LTLToken>, names: Seq<Seq<u8>>)
    requires
        0 <= i <= s.len(),
        names.no_duplicates(),
        names.len() <= MAX_APS,
        lex_from(s, i, tokens, names) is Ok,
    ensures
        ({
            let read = lex_from(s, i, tokens, names)->Ok_0;
            let found = names_from(s, i);
            &&& read.1 == first_seen(names, found)
            &&& read.1.no_duplicates()
            &&& names.len() <= read.1.len()
            &&& forall|k: int| 0 <= k < names.len() ==> read.1[k] == names[k]
            &&& ap_ids(read.0).len() == ap_ids(tokens).len() + found.len()
            &&& forall|k: int| 0 <= k < ap_ids(tokens).len() ==> ap_ids(read.0)[k] == ap_ids(tokens)[k]
            &&& forall|k: int|
                0 <= k < found.len() ==> {
                    let id = #[trigger] ap_ids(read.0)[ap_ids(tokens).len() + k];
                    id < read.1.len() && read.1[id as int] == found[k]
                }
        }),
    decreases s.len() - i,
{
    if i >= s.len() {
    } else if is_name_start(s[i]) {
        let j = name_end(s, i + 1);
        lemma_name_end_bounds(s, i + 1);
        let name = s.subrange(i, j);
        let found = names_from(s, i);
        let rest = names_from(s, j);
        assert(found.drop_first() =~= rest);
        assert(found[0] == name);
        lemma_position(names, name);
        let read = lex_from(s, i, tokens, names)->Ok_0;
        match position(names, name) {
            Some(p) => {
                let token = LTLToken::Atomic(LTLTokenAtomic::AP(p as u8));
                let longer = tokens.push(token);
                assert(longer.drop_last() =~= tokens);
                assert(ap_ids(longer) == ap_ids(tokens).push(p as u8));
                lemma_lex_from_names(s, j, longer, names);
                assert(names.contains(name));
                assert forall|k: int| 0 <= k < ap_ids(tokens).len() implies ap_ids(read.0)[k] == ap_ids(tokens)[k] by {
                    assert(ap_ids(longer)[k] == ap_ids(tokens)[k]);
                }
                assert forall|k: int| 0 <= k < found.len() implies {
                    let id = #[trigger] ap_ids(read.0)[ap_ids(tokens).len() + k];
                    id < read.1.len() && read.1[id as int] == found[k]
                } by {
                    if k == 0 {
                        assert(ap_ids(read.0)[ap_ids(tokens).len() as int] == ap_ids(longer)[ap_ids(tokens).len() as int]);
                        assert(read.1[p as int] == names[p as int]);
                    } else {
                        assert(found[k] == rest[k - 1]);
                        assert(ap_ids(read.0)[ap_ids(longer).len() + (k - 1)] == ap_ids(read.0)[ap_ids(tokens).len() + k]);
                    }
                }
            },
            None => {
                let id = names.len() as u8;
                let token = LTLToken::Atomic(LTLTokenAtomic::AP(id));
                let longer = tokens.push(token);
                let more = names.push(name);
                assert(longer.drop_last() =~= tokens);
                assert(ap_ids(longer) == ap_ids(tokens).push(id));
                assert(!names.contains(name));
                assert(more.no_duplicates());
                lemma_lex_from_names(s, j, longer, more);
                assert forall|k: int| 0 <= k < ap_ids(tokens).len() implies ap_ids(read.0)[k] == ap_ids(tokens)[k] by {
                    assert(ap_ids(longer)[k] == ap_ids(tokens)[k]);
                }
                assert forall|k: int| 0 <= k < names.len() implies read.1[k] == names[k] by {
                    assert(more[k] == names[k]);
                }
                assert forall|k: int| 0 <= k < found.len() implies {
                    let id = #[trigger] ap_ids(read.0)[ap_ids(tokens).len() + k];
                    id < read.1.len() && read.1[id as int] == found[k]
                } by {
                    if k == 0 {
                        assert(ap_ids(read.0)[ap_ids(tokens).len() as int] == ap_ids(longer)[ap_ids(tokens).len() as int]);
                        assert(read.1[names.len() as int] == more[names.len() as int]);
                    } else {
                        assert(found[k] == rest[k - 1]);
                        assert(ap_ids(read.0)[ap_ids(longer).len() + (k - 1)] == ap_ids(read.0)[ap_ids(tokens).len() + k]);
                    }
                }
            },
        }
    } else if is_space(s[i]) {
        lemma_lex_from_names(s, i + 1, tokens, names);
    } else {
        let token = operator_of(s[i])->0;
        let longer = tokens.push(token);
        assert(longer.drop_last() =~= tokens);
        assert(ap_ids(longer) == ap_ids(tokens));
        lemma_lex_from_names(s, i + 1, longer, names);
    }
}

/// Where a text is read without error, its names are numbered in the order
/// in which they first appear: the map holds each name once, the identifier
/// of a name is its index there, and the token for the `k`-th name that
/// stands in the text carries the identifier of that name.
pub proof fn lemma_names_numbered_by_first_appearance(s: Seq<u8>)
    requires
        lex(s) is Ok,
    ensures
        ({
            let tokens = lex(s)->Ok_0.0;
            let names = lex(s)->Ok_0.1;
            let found = names_from(s, 0);
            &&& names == first_seen(Seq::empty(), found)
            &&& names.no_duplicates()
            &&& 0 < names.len() <= MAX_APS
            &&& forall|i: int| 0 <= i < names.len() ==> position(names, #[trigger] names[i]) == Some(i as nat)
            &&& ap_ids(tokens).len() == found.len()
            &&& forall|k: int|
                0 <= k < found.len() ==> position(names, #[trigger] found[k]) == Some(ap_ids(tokens)[k] as nat)
        }),
{
    let none = Seq::<Seq<u8>>::empty();
    lemma_lex_from_names(s, 0, Seq::empty(), none);
    lemma_lex_bounded(s, 0, Seq::empty(), none);
    let tokens = lex(s)->Ok_0.0;
    let names = lex(s)->Ok_0.1;
    let found = names_from(s, 0);
    assert forall|i: int| 0 <= i < names.len() implies position(names, #[trigger] names[i]) == Some(i as nat) by {
        lemma_position(names, names[i]);
    }
    assert forall|k: int| 0 <= k < found.len() implies position(names, #[trigger] found[k]) == Some(
        ap_ids(tokens)[k] as nat,
    ) by {
        lemma_position(names, found[k]);
        let id = ap_ids(tokens)[ap_ids(Seq::<LTLToken>::empty()).len() + k];
        assert(names[id as int] == found[k]);
    }
}

/// Reading never leaves more names than a symbol has bits.
pub proof fn lemma_lex_bounded(s: Seq<u8>, i: int, tokens: Seq<LTLToken>, names: Seq<Seq<u8>>)
    requires
        0 <= i <= s.len(),
        names.len() <= MAX_APS,
        lex_from(s, i, tokens, names) is Ok,
    ensures
        lex_from(s, i, tokens, names)->Ok_0.1.len() <= MAX_APS,
    decreases s.len() - i,
{
    if i >= s.len() {
    } else if is_name_start(s[i]) {
        let j = name_end(s, i + 1);
        lemma_name_end_bounds(s, i + 1);
        let name = s.subrange(i, j);
        match position(names, name) {
            Some(p) => lemma_lex_bounded(s, j, tokens.push(LTLToken::Atomic(LTLTokenAtomic::AP(p as u8))), names),
            None => lemma_lex_bounded(
                s,
                j,
                tokens.push(LTLToken::Atomic(LTLTokenAtomic::AP(names.len() as u8))),
                names.push(name),
            ),
        }
    } else if is_space(s[i]) {
        lemma_lex_bounded(s, i + 1, tokens, names);
    } else {
        lemma_lex_bounded(s, i + 1, tokens.push(operator_of(s[i])->0), names);
    }
}

/// The names of the atomic propositions of one formula. The identifier of a
/// name is its index.
#[derive(Debug)]
pub struct ApMap {
    names: Vec<Vec<u8>>,
}

impl View for ApMap {
    type V = Seq<Seq<u8>>;

    closed spec fn view(&self) -> Self::V {
        names_of(self.names@)
    }
}

/// The names held, each as its bytes.
spec fn names_of(names: Seq<Vec<u8>>) -> Seq<Seq<u8>> {
    Seq::new(names.len(), |i: int| names[i]@)
}

/// The identifier of `name` among `names`: the index at which it first stands.
fn find_name(names: &Vec<Vec<u8>>, name: &[u8]) -> (r: Option<u8>)
    requires
        names@.len() <= MAX_APS,
    ensures
        r == match position(names_of(names@), name@) {
            Some(k) => Some(k as u8),
            None => None,
        },
        r matches Some(id) ==> id < names@.len(),
{
    let mut i: usize = 0;
    while i < names.len()
        invariant
            i <= names@.len(),
            names@.len() <= MAX_APS,
            forall|j: int| 0 <= j < i ==> names_of(names@)[j] != name@,
        decreases names@.len() - i,
    {
        if same_bytes(names[i].as_slice(), name) {
            proof {
                assert(names_of(names@)[i as int] == name@);
                lemma_position(names_of(names@), name@);
            }
            return Some(i as u8);
        }
        i = i + 1;
    }
    proof {
        lemma_position(names_of(names@), name@);
    }
    None
}

/// Whether the two slices hold the same bytes.
fn same_bytes(a: &[u8], b: &[u8]) -> (r: bool)
    ensures
        r == (a@ == b@),
{
    if a.len() != b.len() {
        return false;
    }
    let mut i: usize = 0;
    while i < a.len()
        invariant
            i <= a@.len(),
            a@.len() == b@.len(),
            forall|j: int| 0 <= j < i ==> a@[j] == b@[j],
        decreases a@.len() - i,
    {
        if a[i] != b[i] {
            return false;
        }
        i = i + 1;
    }
    assert(a@ =~= b@);
    true
}

impl ApMap {
    #[verifier::type_invariant]
    spec fn well_formed(&self) -> bool {
        self.names@.len() <= MAX_APS
    }

    /// The number of names.
    pub fn len(&self) -> (r: usize)
        ensures
            r == self@.len(),
            r <= MAX_APS,
    {
        proof {
            use_type_invariant(self);
        }
        self.names.len()
    }

    pub fn is_empty(&self) -> (r: bool)
        ensures
            r == (self@.len() == 0),
    {
        self.names.len() == 0
    }

    /// The name with the identifier `id`, if there is one.
    pub fn name(&self, id: u8) -> (r: Option<&Vec<u8>>)
        ensures
            match r {
                Some(name) => id < self@.len() && name@ == self@[id as int],
                None => id >= self@.len(),
            },
    {
        if (id as usize) < self.names.len() {
            Some(&self.names[id as usize])
        } else {
            None
        }
    }

    /// The identifier of `name`: the index at which it first stands.
    pub fn get(&self, name: &str) -> (r: Option<u8>)
        ensures
            r == match position(self@, name.spec_bytes()) {
                Some(k) => Some(k as u8),
                None => None,
            },
            r matches Some(id) ==> id < self@.len(),
            self@.len() <= MAX_APS,
    {
        proof {
            use_type_invariant(self);
        }
        find_name(&self.names, name.as_bytes())
    }
}

fn name_start(c: u8) -> (r: bool)
    ensures
        r == is_name_start(c),
{
    LOWER_A <= c && c <= LOWER_Z
}

fn name_part(c: u8) -> (r: bool)
    ensures
        r == is_name_part(c),
{
    (LOWER_A <= c && c <= LOWER_Z) || (UPPER_A <= c && c <= UPPER_Z) || (DIGIT_0 <= c && c <= DIGIT_9)
        || c == UNDERSCORE
}

fn space(c: u8) -> (r: bool)
    ensures
        r == is_space(c),
{
    c == BLANK || (TAB <= c && c <= CARRIAGE_RETURN)
}

fn operator_token(c: u8) -> (r: Option<LTLToken>)
    ensures
        r == operator_of(c),
{
    if c == OPEN {
        Some(LTLToken::OpenParenthesis)
    } else if c == CLOSE {
        Some(LTLToken::CloseParenthesis)
    } else if c == BANG {
        Some(LTLToken::UnaryPrefix(LTLTokenUnaryPrefix::Not))
    } else if c == AMPERSAND {
        Some(LTLToken::BinaryInfix(LTLTokenBinaryInfix::And))
    } else if c == BAR {
        Some(LTLToken::BinaryInfix(LTLTokenBinaryInfix::Or))
    } else if c == UPPER_U {
        Some(LTLToken::BinaryInfix(LTLTokenBinaryInfix::Until))
    } else if c == UPPER_X || c == UPPER_O {
        Some(LTLToken::UnaryPrefix(LTLTokenUnaryPrefix::Next))
    } else if c == UPPER_R {
        Some(LTLToken::BinaryInfix(LTLTokenBinaryInfix::Release))
    } else if c == UPPER_W {
        Some(LTLToken::BinaryInfix(LTLTokenBinaryInfix::WeakUntil))
    } else if c == UPPER_G {
        Some(LTLToken::UnaryPrefix(LTLTokenUnaryPrefix::Generally))
    } else if c == UPPER_F {
        Some(LTLToken::UnaryPrefix(LTLTokenUnaryPrefix::Future))
    } else if c == DIGIT_0 {
        Some(LTLToken::Atomic(LTLTokenAtomic::False))
    } else if c == DIGIT_1 {
        Some(LTLToken::Atomic(LTLTokenAtomic::True))
    } else {
        None
    }
}

/// Reads the tokens of `text` and numbers the names of its atomic
/// propositions in the order in which they first appear.
pub fn lexer(text: &str) -> (r: Result<(Vec<LTLToken>, ApMap), ParsingError>)
    ensures
        match lex(text.spec_bytes()) {
            Ok((tokens, names)) => r matches Ok((t, m)) && t@ == tokens && m@ == names,
            Err((kind, at)) => r matches Err(e) && e.spec_kind() == kind && e.spec_at() == at
                && e.spec_formula() == text@,
        },
{
    let bytes = text.as_bytes();
    let ghost s = text.spec_bytes();
    let mut tokens: Vec<LTLToken> = Vec::new();
    let mut names: Vec<Vec<u8>> = Vec::new();
    assert(names_of(names@) =~= Seq::<Seq<u8>>::empty());
    let mut i: usize = 0;
    while i < bytes.len()
        invariant
            i <= s.len(),
            bytes@ == s,
            s == text.spec_bytes(),
            names@.len() <= MAX_APS,
            lex_from(s, i as int, tokens@, names_of(names@)) == lex_from(s, 0, Seq::empty(), Seq::empty()),
        decreases s.len() - i,
    {
        let c = bytes[i];
        if name_start(c) {
            let mut name: Vec<u8> = Vec::new();
            name.push(c);
            let mut j: usize = i + 1;
            assert(name@ =~= s.subrange(i as int, j as int));
            while j < bytes.len() && name_part(bytes[j])
                invariant
                    i < j <= s.len(),
                    bytes@ == s,
                    name@ == s.subrange(i as int, j as int),
                    name_end(s, j as int) == name_end(s, i + 1),
                decreases s.len() - j,
            {
                name.push(bytes[j]);
                assert(name@ =~= s.subrange(i as int, j + 1));
                j = j + 1;
            }
            assert(name_end(s, j as int) == j);
            match find_name(&names, name.as_slice()) {
                Some(id) => {
                    tokens.push(LTLToken::Atomic(LTLTokenAtomic::AP(id)));
                },
                None => {
                    if names.len() >= MAX_APS {
                        return Err(ParsingError::new(ErrorKind::TooManyAPs, text, Some(i)));
                    }
                    let id = names.len() as u8;
                    let ghost before = names_of(names@);
                    names.push(name);
                    assert(names_of(names@) =~= before.push(name@));
                    tokens.push(LTLToken::Atomic(LTLTokenAtomic::AP(id)));
                },
            }
            i = j;
        } else if space(c) {
            i = i + 1;
        } else {
            match operator_token(c) {
                Some(token) => {
                    tokens.push(token);
                    i = i + 1;
                },
                None => {
                    return Err(ParsingError::new(ErrorKind::UnexpectedToken, text, Some(i)));
                },
            }
        }
    }
    if names.len() == 0 {
        Err(ParsingError::new(ErrorKind::NoAPs, text, None))
    } else {
        Ok((tokens, ApMap { names }))
    }
}

} // verus!
