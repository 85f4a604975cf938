//! Boolean query expressions over property names: the abstract syntax tree,
//! the combinators that build it, the canonical serializer, and the parser.
//!
//! The grammar, with whitespace tolerated at every seam:
//!
//! ```text
//! property     = [A-Za-z] [A-Za-z0-9_\-./:]*     (not a keyword, case-insensitively)
//! keyword      = "not" | "and" | "or" | "xor"
//! not_op       = "not" \s+  |  "!"
//! term         = not_op term | "(" subexpr ")" | property
//! and_op       = term (\s+ "and" \s+ term)+
//! or_op        = term (\s+ "or"  \s+ term)+
//! xor_op       = term (\s+ "xor" \s+ term)+
//! sub_op       = term (\s+ "-"   \s+ term)+
//! subexpr      = and_op | or_op | xor_op | sub_op | term
//! expression   = "*" | subexpr
//! ```
//!
//! Mixed operators at one level are rejected; parenthesize instead.  `*`
//! (the root) is valid only as the whole expression.

use vstd::prelude::*;
use vstd::string::StringSliceAdditionalSpecFns;

verus! {

/// A parse failure.
#[derive(Debug, PartialEq, Eq, Clone)]
pub enum Error {
    /// The parser rejected the input.
    Invalid(String),
    /// A prefix parsed but trailing characters remain; they are returned.
    InvalidEndOfInput(String),
    /// The input is longer than `MAX_LENGTH` bytes.
    InputStringToolLong,
}

/// The longest accepted expression, in bytes.
pub const MAX_LENGTH: usize = 2048;

/// A boolean expression.  N-ary nodes keep their children in order; `Sub`
/// is left-associative.
#[derive(Debug)]
pub enum Expression {
    Root,
    Property(String),
    Or(Vec<Expression>),
    And(Vec<Expression>),
    Xor(Vec<Expression>),
    Sub(Vec<Expression>),
    Not(Box<Expression>),
}

/// The mathematical shape of an expression: the same tree over character
/// sequences.
pub enum SpecExpr {
    Root,
    Property(Seq<char>),
    Or(Seq<SpecExpr>),
    And(Seq<SpecExpr>),
    Xor(Seq<SpecExpr>),
    Sub(Seq<SpecExpr>),
    Not(Box<SpecExpr>),
}

/// The view of one expression, defined together with the views of a
/// sequence of expressions.
pub open spec fn expr_view(e: Expression) -> SpecExpr
    decreases e,
{
    match e {
        Expression::Root => SpecExpr::Root,
        Expression::Property(n) => SpecExpr::Property(n@),
        Expression::Or(cs) => SpecExpr::Or(view_seq(cs@)),
        Expression::And(cs) => SpecExpr::And(view_seq(cs@)),
        Expression::Xor(cs) => SpecExpr::Xor(view_seq(cs@)),
        Expression::Sub(cs) => SpecExpr::Sub(view_seq(cs@)),
        Expression::Not(b) => SpecExpr::Not(Box::new(expr_view(*b))),
    }
}

/// The views of a sequence of expressions.
pub open spec fn view_seq(s: Seq<Expression>) -> Seq<SpecExpr>
    decreases s,
{
    if s.len() == 0 {
        Seq::<SpecExpr>::empty()
    } else {
        view_seq(s.drop_last()).push(expr_view(s.last()))
    }
}

impl View for Expression {
    type V = SpecExpr;

    open spec fn view(&self) -> SpecExpr {
        expr_view(*self)
    }
}

/// The views of a sequence, element by element.
pub proof fn lemma_view_seq(s: Seq<Expression>)
    ensures
        view_seq(s).len() == s.len(),
        forall|i: int| 0 <= i < s.len() ==> view_seq(s)[i] == (#[trigger] s[i])@,
    decreases s,
{
    if s.len() > 0 {
        lemma_view_seq(s.drop_last());
        assert forall|i: int| 0 <= i < s.len() implies view_seq(s)[i] == (#[trigger] s[i])@ by {
            if i < s.len() - 1 {
                assert(s.drop_last()[i] == s[i]);
            }
        }
    }
}

impl Expression {
    /// A property leaf for `name`.
    pub fn property(name: &str) -> (r: Expression)
        ensures
            r@ == SpecExpr::Property(name@),
    {
        Expression::Property(name.to_owned())
    }

    /// Conjunction; same-kind children on either side are flattened.
    pub fn and(self, rhs: Expression) -> (r: Expression)
        ensures
            r@ == spec_and(self@, rhs@),
    {
        match (self, rhs) {
            (Expression::And(mut l), Expression::And(mut r2)) => {
                let ghost lv = l@;
                let ghost rv = r2@;
                l.append(&mut r2);
                proof {
                    lemma_view_append(lv, rv);
                }
                Expression::And(l)
            },
            (Expression::And(mut l), b) => {
                let ghost lv = l@;
                proof {
                    lemma_view_push(lv, b);
                }
                l.push(b);
                Expression::And(l)
            },
            (a, Expression::And(r2)) => {
                let ghost av = a@;
                let ghost rv = r2@;
                let mut v: Vec<Expression> = Vec::new();
                v.push(a);
                proof {
                    lemma_view_seq(v@);
                    assert(view_seq(v@) =~= seq![av]);
                }
                let ghost vv = v@;
                let mut r2 = r2;
                v.append(&mut r2);
                proof {
                    lemma_view_append(vv, rv);
                }
                Expression::And(v)
            },
            (a, b) => {
                let ghost av = a@;
                let ghost bv = b@;
                let mut v: Vec<Expression> = Vec::new();
                v.push(a);
                let ghost v1 = v@;
                proof {
                    assert(v1[0]@ == av);
                }
                v.push(b);
                proof {
                    assert(v@ == v1.push(v@[1]));
                    assert(v@[0]@ == av && v@[1]@ == bv);
                    lemma_view_seq(v@);
                    assert(view_seq(v@) =~= seq![av, bv]);
                }
                Expression::And(v)
            },
        }
    }

    /// Disjunction; same-kind children on either side are flattened.
    pub fn or(self, rhs: Expression) -> (r: Expression)
        ensures
            r@ == spec_or(self@, rhs@),
    {
        match (self, rhs) {
            (Expression::Or(mut l), Expression::Or(mut r2)) => {
                let ghost lv = l@;
                let ghost rv = r2@;
                l.append(&mut r2);
                proof {
                    lemma_view_append(lv, rv);
                }
                Expression::Or(l)
            },
            (Expression::Or(mut l), b) => {
                let ghost lv = l@;
                proof {
                    lemma_view_push(lv, b);
                }
                l.push(b);
                Expression::Or(l)
            },
            (a, Expression::Or(r2)) => {
                let ghost av = a@;
                let ghost rv = r2@;
                let mut v: Vec<Expression> = Vec::new();
                v.push(a);
                proof {
                    lemma_view_seq(v@);
                    assert(view_seq(v@) =~= seq![av]);
                }
                let ghost vv = v@;
                let mut r2 = r2;
                v.append(&mut r2);
                proof {
                    lemma_view_append(vv, rv);
                }
                Expression::Or(v)
            },
            (a, b) => {
                let ghost av = a@;
                let ghost bv = b@;
                let mut v: Vec<Expression> = Vec::new();
                v.push(a);
                let ghost v1 = v@;
                proof {
                    assert(v1[0]@ == av);
                }
                v.push(b);
                proof {
                    assert(v@ == v1.push(v@[1]));
                    assert(v@[0]@ == av && v@[1]@ == bv);
                    lemma_view_seq(v@);
                    assert(view_seq(v@) =~= seq![av, bv]);
                }
                Expression::Or(v)
            },
        }
    }

    /// Symmetric difference; same-kind children on either side are flattened.
    pub fn xor(self, rhs: Expression) -> (r: Expression)
        ensures
            r@ == spec_xor(self@, rhs@),
    {
        match (self, rhs) {
            (Expression::Xor(mut l), Expression::Xor(mut r2)) => {
                let ghost lv = l@;
                let ghost rv = r2@;
                l.append(&mut r2);
                proof {
                    lemma_view_append(lv, rv);
                }
                Expression::Xor(l)
            },
            (Expression::Xor(mut l), b) => {
                let ghost lv = l@;
                proof {
                    lemma_view_push(lv, b);
                }
                l.push(b);
                Expression::Xor(l)
            },
            (a, Expression::Xor(r2)) => {
                let ghost av = a@;
                let ghost rv = r2@;
                let mut v: Vec<Expression> = Vec::new();
                v.push(a);
                proof {
                    lemma_view_seq(v@);
                    assert(view_seq(v@) =~= seq![av]);
                }
                let ghost vv = v@;
                let mut r2 = r2;
                v.append(&mut r2);
                proof {
                    lemma_view_append(vv, rv);
                }
                Expression::Xor(v)
            },
            (a, b) => {
                let ghost av = a@;
                let ghost bv = b@;
                let mut v: Vec<Expression> = Vec::new();
                v.push(a);
                let ghost v1 = v@;
                proof {
                    assert(v1[0]@ == av);
                }
                v.push(b);
                proof {
                    assert(v@ == v1.push(v@[1]));
                    assert(v@[0]@ == av && v@[1]@ == bv);
                    lemma_view_seq(v@);
                    assert(view_seq(v@) =~= seq![av, bv]);
                }
                Expression::Xor(v)
            },
        }
    }

    /// Difference; same-kind children on either side are flattened.
    pub fn sub(self, rhs: Expression) -> (r: Expression)
        ensures
            r@ == spec_sub(self@, rhs@),
    {
        match (self, rhs) {
            (Expression::Sub(mut l), Expression::Sub(mut r2)) => {
                let ghost lv = l@;
                let ghost rv = r2@;
                l.append(&mut r2);
                proof {
                    lemma_view_append(lv, rv);
                }
                Expression::Sub(l)
            },
            (Expression::Sub(mut l), b) => {
                let ghost lv = l@;
                proof {
                    lemma_view_push(lv, b);
                }
                l.push(b);
                Expression::Sub(l)
            },
            (a, Expression::Sub(r2)) => {
                let ghost av = a@;
                let ghost rv = r2@;
                let mut v: Vec<Expression> = Vec::new();
                v.push(a);
                proof {
                    lemma_view_seq(v@);
                    assert(view_seq(v@) =~= seq![av]);
                }
                let ghost vv = v@;
                let mut r2 = r2;
                v.append(&mut r2);
                proof {
                    lemma_view_append(vv, rv);
                }
                Expression::Sub(v)
            },
            (a, b) => {
                let ghost av = a@;
                let ghost bv = b@;
                let mut v: Vec<Expression> = Vec::new();
                v.push(a);
                let ghost v1 = v@;
                proof {
                    assert(v1[0]@ == av);
                }
                v.push(b);
                proof {
                    assert(v@ == v1.push(v@[1]));
                    assert(v@[0]@ == av && v@[1]@ == bv);
                    lemma_view_seq(v@);
                    assert(view_seq(v@) =~= seq![av, bv]);
                }
                Expression::Sub(v)
            },
        }
    }

    /// Negation; a double negation collapses.
    pub fn not(self) -> (r: Expression)
        ensures
            r@ == spec_not(self@),
    {
        match self {
            Expression::Not(b) => *b,
            e => Expression::Not(Box::new(e)),
        }
    }
}

/// What `Expression::and` builds, at the level of views.
pub open spec fn spec_and(a: SpecExpr, b: SpecExpr) -> SpecExpr {
    match (a, b) {
        (SpecExpr::And(l), SpecExpr::And(r)) => SpecExpr::And(l + r),
        (SpecExpr::And(l), rb) => SpecExpr::And(l.push(rb)),
        (la, SpecExpr::And(r)) => SpecExpr::And(seq![la] + r),
        (la, rb) => SpecExpr::And(seq![la, rb]),
    }
}

/// What `Expression::or` builds, at the level of views.
pub open spec fn spec_or(a: SpecExpr, b: SpecExpr) -> SpecExpr {
    match (a, b) {
        (SpecExpr::Or(l), SpecExpr::Or(r)) => SpecExpr::Or(l + r),
        (SpecExpr::Or(l), rb) => SpecExpr::Or(l.push(rb)),
        (la, SpecExpr::Or(r)) => SpecExpr::Or(seq![la] + r),
        (la, rb) => SpecExpr::Or(seq![la, rb]),
    }
}

/// What `Expression::xor` builds, at the level of views.
pub open spec fn spec_xor(a: SpecExpr, b: SpecExpr) -> SpecExpr {
    match (a, b) {
        (SpecExpr::Xor(l), SpecExpr::Xor(r)) => SpecExpr::Xor(l + r),
        (SpecExpr::Xor(l), rb) => SpecExpr::Xor(l.push(rb)),
        (la, SpecExpr::Xor(r)) => SpecExpr::Xor(seq![la] + r),
        (la, rb) => SpecExpr::Xor(seq![la, rb]),
    }
}

/// What `Expression::sub` builds, at the level of views.
pub open spec fn spec_sub(a: SpecExpr, b: SpecExpr) -> SpecExpr {
    match (a, b) {
        (SpecExpr::Sub(l), SpecExpr::Sub(r)) => SpecExpr::Sub(l + r),
        (SpecExpr::Sub(l), rb) => SpecExpr::Sub(l.push(rb)),
        (la, SpecExpr::Sub(r)) => SpecExpr::Sub(seq![la] + r),
        (la, rb) => SpecExpr::Sub(seq![la, rb]),
    }
}

/// What `Expression::not` builds, at the level of views.
pub open spec fn spec_not(a: SpecExpr) -> SpecExpr {
    match a {
        SpecExpr::Not(b) => *b,
        e => SpecExpr::Not(Box::new(e)),
    }
}

/// Whitespace tolerated by the grammar: space, tab, carriage return, line
/// feed.
pub open spec fn is_space_char(c: char) -> bool {
    c == ' ' || c == '\t' || c == '\r' || c == '\n'
}

/// An ASCII letter.
pub open spec fn is_alpha_char(c: char) -> bool {
    (('a' as u32) <= (c as u32) && (c as u32) <= ('z' as u32)) || (('A' as u32) <= (c as u32)
        && (c as u32) <= ('Z' as u32))
}

/// An ASCII digit.
pub open spec fn is_digit_char(c: char) -> bool {
    ('0' as u32) <= (c as u32) && (c as u32) <= ('9' as u32)
}

/// A character allowed after the first one of a property name.
pub open spec fn is_word_char(c: char) -> bool {
    is_alpha_char(c) || is_digit_char(c) || c == '_' || c == '-' || c == '.' || c == '/' || c
        == ':'
}

/// Whether `c` equals the lower-case letter `lower`, ignoring ASCII case.
pub open spec fn char_eq_nocase(c: char, lower: char) -> bool {
    c == lower || (('A' as u32) <= (c as u32) && (c as u32) <= ('Z' as u32) && (c as u32) + 32
        == (lower as u32))
}

/// Whether the word equals the given keyword, ignoring ASCII case.
pub open spec fn word_is(w: Seq<char>, kw: Seq<char>) -> bool {
    w.len() == kw.len() && (forall|i: int| 0 <= i < w.len() ==> char_eq_nocase(#[trigger] w[i], kw[i]))
}

/// Whether the word is one of the reserved keywords, ignoring case.
pub open spec fn is_keyword(w: Seq<char>) -> bool {
    ||| word_is(w, seq!['n', 'o', 't'])
    ||| word_is(w, seq!['a', 'n', 'd'])
    ||| word_is(w, seq!['o', 'r'])
    ||| word_is(w, seq!['x', 'o', 'r'])
}

/// A valid property name: a letter, then word characters, and not a
/// keyword.
pub open spec fn is_valid_name(w: Seq<char>) -> bool {
    &&& w.len() >= 1
    &&& is_alpha_char(w[0])
    &&& forall|i: int| 0 <= i < w.len() ==> is_word_char(#[trigger] w[i])
    &&& !is_keyword(w)
}

/// Decide `char_eq_nocase`.
pub(crate) fn eq_nocase(c: char, lower: char) -> (r: bool)
    ensures
        r == char_eq_nocase(c, lower),
{
    c == lower || ((c as u32) >= 65 && (c as u32) <= 90 && (c as u32) + 32 == (lower as u32))
}

/// Decide whether a character is grammar whitespace.
pub(crate) fn is_space(c: char) -> (r: bool)
    ensures
        r == is_space_char(c),
{
    c == ' ' || c == '\t' || c == '\r' || c == '\n'
}

/// Decide whether a character is an ASCII letter.
pub(crate) fn is_alpha(c: char) -> (r: bool)
    ensures
        r == is_alpha_char(c),
{
    ((c as u32) >= 97 && (c as u32) <= 122) || ((c as u32) >= 65 && (c as u32) <= 90)
}

/// Decide whether a character may continue a property name.
pub(crate) fn is_word(c: char) -> (r: bool)
    ensures
        r == is_word_char(c),
{
    is_alpha(c) || ((c as u32) >= 48 && (c as u32) <= 57) || c == '_' || c == '-' || c == '.'
        || c == '/' || c == ':'
}

/// Decide whether the characters `w[from..to]` spell a keyword, ignoring
/// case.
pub(crate) fn range_is_keyword(w: &Vec<char>, from: usize, to: usize) -> (r: bool)
    requires
        from <= to <= w@.len(),
    ensures
        r == is_keyword(w@.subrange(from as int, to as int)),
{
    let ghost sub = w@.subrange(from as int, to as int);
    let len = to - from;
    let r = if len == 3 {
        (eq_nocase(w[from], 'n') && eq_nocase(w[from + 1], 'o') && eq_nocase(w[from + 2], 't'))
            || (eq_nocase(w[from], 'a') && eq_nocase(w[from + 1], 'n') && eq_nocase(
            w[from + 2],
            'd',
        )) || (eq_nocase(w[from], 'x') && eq_nocase(w[from + 1], 'o') && eq_nocase(
            w[from + 2],
            'r',
        ))
    } else if len == 2 {
        eq_nocase(w[from], 'o') && eq_nocase(w[from + 1], 'r')
    } else {
        false
    };
    proof {
        assert(sub.len() == len);
        assert(forall|i: int| 0 <= i < sub.len() ==> sub[i] == w@[from + i]);
        if len == 3 {
            assert(word_is(sub, seq!['n', 'o', 't']) == (char_eq_nocase(sub[0], 'n')
                && char_eq_nocase(sub[1], 'o') && char_eq_nocase(sub[2], 't'))) by {
                if char_eq_nocase(sub[0], 'n') && char_eq_nocase(sub[1], 'o') && char_eq_nocase(
                    sub[2],
                    't',
                ) {
                    assert forall|i: int| 0 <= i < sub.len() implies char_eq_nocase(
                        #[trigger] sub[i],
                        seq!['n', 'o', 't'][i],
                    ) by {
                        assert(i == 0 || i == 1 || i == 2);
                    }
                }
            }
            assert(word_is(sub, seq!['a', 'n', 'd']) == (char_eq_nocase(sub[0], 'a')
                && char_eq_nocase(sub[1], 'n') && char_eq_nocase(sub[2], 'd'))) by {
                if char_eq_nocase(sub[0], 'a') && char_eq_nocase(sub[1], 'n') && char_eq_nocase(
                    sub[2],
                    'd',
                ) {
                    assert forall|i: int| 0 <= i < sub.len() implies char_eq_nocase(
                        #[trigger] sub[i],
                        seq!['a', 'n', 'd'][i],
                    ) by {
                        assert(i == 0 || i == 1 || i == 2);
                    }
                }
            }
            assert(word_is(sub, seq!['x', 'o', 'r']) == (char_eq_nocase(sub[0], 'x')
                && char_eq_nocase(sub[1], 'o') && char_eq_nocase(sub[2], 'r'))) by {
                if char_eq_nocase(sub[0], 'x') && char_eq_nocase(sub[1], 'o') && char_eq_nocase(
                    sub[2],
                    'r',
                ) {
                    assert forall|i: int| 0 <= i < sub.len() implies char_eq_nocase(
                        #[trigger] sub[i],
                        seq!['x', 'o', 'r'][i],
                    ) by {
                        assert(i == 0 || i == 1 || i == 2);
                    }
                }
            }
        } else if len == 2 {
            assert(word_is(sub, seq!['o', 'r']) == (char_eq_nocase(sub[0], 'o')
                && char_eq_nocase(sub[1], 'r'))) by {
                if char_eq_nocase(sub[0], 'o') && char_eq_nocase(sub[1], 'r') {
                    assert forall|i: int| 0 <= i < sub.len() implies char_eq_nocase(
                        #[trigger] sub[i],
                        seq!['o', 'r'][i],
                    ) by {
                        assert(i == 0 || i == 1);
                    }
                }
            }
        }
    }
    r
}

/// Whether `s` is a legal property name by the expression grammar: a
/// letter, then letters, digits or separators, and not a reserved keyword.
pub fn validate_property_name(s: &str) -> (r: bool)
    ensures
        r == is_valid_name(s@),
{
    let n = s.unicode_len();
    if n == 0 {
        return false;
    }
    if !is_alpha(s.get_char(0)) {
        return false;
    }
    let mut cs: Vec<char> = Vec::new();
    let mut i: usize = 0;
    while i < n
        invariant
            0 <= i <= n,
            n == s@.len(),
            cs@.len() == i,
            forall|j: int| 0 <= j < i ==> cs@[j] == s@[j],
            forall|j: int| 0 <= j < i ==> is_word_char(#[trigger] s@[j]),
        decreases n - i,
    {
        let c = s.get_char(i);
        if !is_word(c) {
            return false;
        }
        cs.push(c);
        i = i + 1;
    }
    proof {
        assert(cs@ =~= s@);
        assert(cs@.subrange(0, n as int) =~= s@);
    }
    !range_is_keyword(&cs, 0, n)
}

/// Every n-ary node of the expression has at least one child, so the
/// evaluator and the serializer have a first child to fold from.
pub open spec fn nonempty_nary(e: SpecExpr) -> bool
    decreases e,
{
    match e {
        SpecExpr::Root => true,
        SpecExpr::Property(_) => true,
        SpecExpr::Or(cs) => cs.len() >= 1 && (forall|i: int|
            0 <= i < cs.len() ==> nonempty_nary(#[trigger] cs[i])),
        SpecExpr::And(cs) => cs.len() >= 1 && (forall|i: int|
            0 <= i < cs.len() ==> nonempty_nary(#[trigger] cs[i])),
        SpecExpr::Xor(cs) => cs.len() >= 1 && (forall|i: int|
            0 <= i < cs.len() ==> nonempty_nary(#[trigger] cs[i])),
        SpecExpr::Sub(cs) => cs.len() >= 1 && (forall|i: int|
            0 <= i < cs.len() ==> nonempty_nary(#[trigger] cs[i])),
        SpecExpr::Not(b) => nonempty_nary(*b),
    }
}

/// The canonical text of an expression: `*` for the root, the bare name for
/// a property, `not (..)` for a negation, and children joined by the
/// operator inside one pair of parentheses for an n-ary node (no
/// parentheses when there is a single child).
pub open spec fn spec_serialize(e: SpecExpr) -> Seq<char>
    decreases e, 1int,
{
    match e {
        SpecExpr::Root => seq!['*'],
        SpecExpr::Property(n) => n,
        SpecExpr::Not(b) => seq!['n', 'o', 't', ' ', '('] + spec_serialize(*b) + seq![')'],
        SpecExpr::And(cs) => spec_join(cs, seq![' ', 'a', 'n', 'd', ' ']),
        SpecExpr::Or(cs) => spec_join(cs, seq![' ', 'o', 'r', ' ']),
        SpecExpr::Xor(cs) => spec_join(cs, seq![' ', 'x', 'o', 'r', ' ']),
        SpecExpr::Sub(cs) => spec_join(cs, seq![' ', '-', ' ']),
    }
}

/// Children joined by a separator: bare when there is one child, in
/// parentheses when there are more.
pub open spec fn spec_join(cs: Seq<SpecExpr>, sep: Seq<char>) -> Seq<char>
    decreases cs, cs.len() + 1,
{
    if cs.len() == 0 {
        Seq::<char>::empty()
    } else if cs.len() == 1 {
        ser_children(cs, 1, sep)
    } else {
        seq!['('] + ser_children(cs, cs.len() as int, sep) + seq![')']
    }
}

/// The first `i` children, serialized and joined by `sep`.
pub open spec fn ser_children(cs: Seq<SpecExpr>, i: int, sep: Seq<char>) -> Seq<char>
    decreases cs, i,
{
    if i <= 0 || i > cs.len() {
        Seq::<char>::empty()
    } else if i == 1 {
        spec_serialize(cs[0])
    } else {
        ser_children(cs, i - 1, sep) + sep + spec_serialize(cs[i - 1])
    }
}

impl Expression {
    /// The canonical text of this expression; reparsing it yields an equal
    /// expression.
    pub fn serialize(&self) -> (r: String)
        requires
            nonempty_nary(self@),
        ensures
            r@ == spec_serialize(self@),
        decreases self, 1int,
    {
        match self {
            Expression::Root => {
                let r = String::from_str("*");
                proof {
                    reveal_strlit("*");
                    assert(r@ =~= seq!['*']);
                }
                r
            },
            Expression::Property(n) => n.clone(),
            Expression::Not(b) => {
                let mut out = String::from_str("not (");
                let inner = (&**b).serialize();
                out.append(inner.as_str());
                out.append(")");
                proof {
                    reveal_strlit("not (");
                    reveal_strlit(")");
                    assert("not ("@ =~= seq!['n', 'o', 't', ' ', '(']);
                    assert(")"@ =~= seq![')']);
                }
                out
            },
            Expression::And(cs) => {
                proof {
                    lemma_view_seq(cs@);
                    reveal_strlit(" and ");
                    assert(" and "@ =~= seq![' ', 'a', 'n', 'd', ' ']);
                }
                join(" and ", cs)
            },
            Expression::Or(cs) => {
                proof {
                    lemma_view_seq(cs@);
                    reveal_strlit(" or ");
                    assert(" or "@ =~= seq![' ', 'o', 'r', ' ']);
                }
                join(" or ", cs)
            },
            Expression::Xor(cs) => {
                proof {
                    lemma_view_seq(cs@);
                    reveal_strlit(" xor ");
                    assert(" xor "@ =~= seq![' ', 'x', 'o', 'r', ' ']);
                }
                join(" xor ", cs)
            },
            Expression::Sub(cs) => {
                proof {
                    lemma_view_seq(cs@);
                    reveal_strlit(" - ");
                    assert(" - "@ =~= seq![' ', '-', ' ']);
                }
                join(" - ", cs)
            },
        }
    }
}

impl Expression {
    /// Parse a query expression.  Inputs over `MAX_LENGTH` bytes are
    /// rejected outright; a parse that leaves trailing characters reports
    /// them; any other failure of the grammar is `Invalid`.
    pub fn parse(input: &str) -> (r: Result<Expression, Error>)
        ensures
            match r {
                Ok(e) => input.spec_bytes().len() <= MAX_LENGTH
                    && crate::parser::spec_expression(input@) == crate::parser::SpecParse::Found(
                    e@,
                    input@.len() as int,
                ) && nonempty_nary(e@),
                Err(err) => match err {
                    Error::InputStringToolLong => input.spec_bytes().len() > MAX_LENGTH,
                    Error::InvalidEndOfInput(rest) => input.spec_bytes().len() <= MAX_LENGTH
                        && (crate::parser::spec_expression(input@) matches
                        crate::parser::SpecParse::Found(_, j) && 0 <= j < input@.len() && rest@
                        == input@.skip(j)),
                    Error::Invalid(_) => input.spec_bytes().len() <= MAX_LENGTH && (
                    crate::parser::spec_expression(input@) is Miss
                        || crate::parser::spec_expression(input@) is Halt),
                },
            },
    {
        let byte_len = input.as_bytes().len();
        proof {
            assert(byte_len == input.spec_bytes().len());
        }
        if byte_len > MAX_LENGTH {
            return Err(Error::InputStringToolLong);
        }
        proof {
            crate::text::lemma_utf8_at_least_one_byte(input@);
        }
        let n = input.unicode_len();
        let mut chars: Vec<char> = Vec::new();
        let mut i: usize = 0;
        while i < n
            invariant
                0 <= i <= n,
                n == input@.len(),
                n <= MAX_LENGTH,
                chars@.len() == i,
                forall|j: int| 0 <= j < i ==> chars@[j] == input@[j],
            decreases n - i,
        {
            chars.push(input.get_char(i));
            i = i + 1;
        }
        proof {
            assert(chars@ =~= input@);
        }
        match crate::parser::p_expression(&chars) {
            crate::parser::ParseStep::Found(e, j) => {
                if j == chars.len() {
                    Ok(e)
                } else {
                    let rest = input.substring_char(j, n).to_owned();
                    proof {
                        assert(rest@ =~= input@.skip(j as int));
                    }
                    Err(Error::InvalidEndOfInput(rest))
                }
            },
            _ => Err(Error::Invalid(String::from_str("the expression grammar rejects the input"))),
        }
    }
}

/// Serialize the children and join them with `sep`, wrapping two or more in
/// parentheses.
fn join(sep: &str, expressions: &Vec<Expression>) -> (r: String)
    requires
        expressions@.len() >= 1,
        forall|i: int|
            0 <= i < expressions@.len() ==> nonempty_nary(#[trigger] view_seq(expressions@)[i]),
    ensures
        r@ == spec_join(view_seq(expressions@), sep@),
    decreases expressions@, 0int,
{
    proof {
        lemma_view_seq(expressions@);
    }
    let ghost vs = view_seq(expressions@);
    let n = expressions.len();
    if n == 1 {
        let r = expressions[0].serialize();
        proof {
            assert(spec_join(vs, sep@) == ser_children(vs, 1, sep@));
        }
        r
    } else {
        let mut out = String::from_str("(");
        proof {
            reveal_strlit("(");
            assert("("@ =~= seq!['(']);
        }
        let first = expressions[0].serialize();
        out.append(first.as_str());
        proof {
            assert(out@ =~= seq!['('] + ser_children(vs, 1, sep@));
        }
        let mut i: usize = 1;
        while i < n
            invariant
                1 <= i <= n,
                n == expressions@.len(),
                n >= 2,
                vs == view_seq(expressions@),
                vs.len() == n,
                forall|j: int| 0 <= j < n ==> vs[j] == (#[trigger] expressions@[j])@,
                forall|j: int| 0 <= j < n ==> nonempty_nary(#[trigger] vs[j]),
                out@ == seq!['('] + ser_children(vs, i as int, sep@),
            decreases n - i,
        {
            out.append(sep);
            let piece = expressions[i].serialize();
            out.append(piece.as_str());
            proof {
                assert(out@ =~= seq!['('] + (ser_children(vs, i as int, sep@) + sep@
                    + spec_serialize(vs[i as int])));
                assert(ser_children(vs, i as int + 1, sep@) == ser_children(vs, i as int, sep@)
                    + sep@ + spec_serialize(vs[i as int]));
            }
            i = i + 1;
        }
        out.append(")");
        proof {
            reveal_strlit(")");
            assert(")"@ =~= seq![')']);
            assert(out@ =~= seq!['('] + ser_children(vs, n as int, sep@) + seq![')']);
        }
        out
    }
}

/// Appending expression sequences appends their views.
pub proof fn lemma_view_append(a: Seq<Expression>, b: Seq<Expression>)
    ensures
        view_seq(a + b) == view_seq(a) + view_seq(b),
{
    lemma_view_seq(a);
    lemma_view_seq(b);
    lemma_view_seq(a + b);
    assert forall|i: int| 0 <= i < a.len() + b.len() implies view_seq(a + b)[i] == (view_seq(a)
        + view_seq(b))[i] by {
        if i < a.len() {
            assert((a + b)[i] == a[i]);
        } else {
            assert((a + b)[i] == b[i - a.len()]);
        }
    }
    assert(view_seq(a + b) =~= view_seq(a) + view_seq(b));
}

/// Pushing an expression pushes its view.
pub proof fn lemma_view_push(a: Seq<Expression>, e: Expression)
    ensures
        view_seq(a.push(e)) == view_seq(a).push(e@),
{
    assert(a.push(e).drop_last() =~= a);
    assert(view_seq(a.push(e)) =~= view_seq(a).push(e@));
}

} // verus!
