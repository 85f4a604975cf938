//! The expression parser: a recursive-descent reading of the grammar in
//! `expression`, specified by spec-level parsing functions over character
//! sequences and implemented by executable functions proved to match them.
//!
//! The parser distinguishes a recoverable miss (another alternative may
//! apply) from a hard halt: once a `not`, `!` or `(` has committed to a
//! term, a failure inside it rejects the whole input.

use vstd::prelude::*;

use crate::expression::{
    char_eq_nocase, is_alpha_char, is_keyword, is_space_char, is_word_char, is_alpha, is_space,
    is_word, range_is_keyword, view_seq, lemma_view_seq, Expression, SpecExpr,
    nonempty_nary,
};
use crate::text::string_from_chars;

verus! {

/// The n-ary operators of the grammar.
#[derive(Clone, Copy, Debug)]
pub enum Op {
    And,
    Or,
    Xor,
    Sub,
}

/// The keyword that separates children of the operator.
pub open spec fn kw_seq(op: Op) -> Seq<char> {
    match op {
        Op::And => seq!['a', 'n', 'd'],
        Op::Or => seq!['o', 'r'],
        Op::Xor => seq!['x', 'o', 'r'],
        Op::Sub => seq!['-'],
    }
}

/// The n-ary node of the operator.
pub open spec fn mk_nary(op: Op, cs: Seq<SpecExpr>) -> SpecExpr {
    match op {
        Op::And => SpecExpr::And(cs),
        Op::Or => SpecExpr::Or(cs),
        Op::Xor => SpecExpr::Xor(cs),
        Op::Sub => SpecExpr::Sub(cs),
    }
}

/// What one spec-level parsing step returns.
pub enum SpecParse {
    /// A parse: the expression and the position after it.
    Found(SpecExpr, int),
    /// No parse here; another alternative may apply.
    Miss,
    /// A hard failure after the input committed to an alternative.
    Halt,
}

/// What a spec-level operator chain returns.
pub enum SpecChain {
    /// One or more repetitions and the position after the last.
    Parts(Seq<SpecExpr>, int),
    /// No repetition at all; the plain term stands by itself.
    Empty,
    /// A hard failure inside a repetition.
    Fail,
}

/// The first position at or after `i` that does not hold whitespace.
pub open spec fn skip_ws(s: Seq<char>, i: int) -> int
    decreases s.len() - i,
{
    if 0 <= i < s.len() && is_space_char(s[i]) {
        skip_ws(s, i + 1)
    } else {
        i
    }
}

/// The first position at or after `i` that does not hold a word character.
pub open spec fn word_end(s: Seq<char>, i: int) -> int
    decreases s.len() - i,
{
    if 0 <= i < s.len() && is_word_char(s[i]) {
        word_end(s, i + 1)
    } else {
        i
    }
}

/// Whether `kw` occurs at position `i`, ignoring ASCII case.
pub open spec fn match_nocase_at(s: Seq<char>, i: int, kw: Seq<char>) -> bool {
    &&& i >= 0
    &&& i + kw.len() <= s.len()
    &&& forall|j: int| 0 <= j < kw.len() ==> char_eq_nocase(s[i + j], #[trigger] kw[j])
}

/// Parse a property name at `i`: a letter, then word characters, rejected
/// when the word is a keyword.
pub open spec fn spec_property(s: Seq<char>, i: int) -> SpecParse {
    if 0 <= i < s.len() && is_alpha_char(s[i]) {
        let j = word_end(s, i);
        if is_keyword(s.subrange(i, j)) {
            SpecParse::Miss
        } else {
            SpecParse::Found(SpecExpr::Property(s.subrange(i, j)), j)
        }
    } else {
        SpecParse::Miss
    }
}

/// The position after a negation marker at `i`: `not` followed by at least
/// one whitespace character (all consumed), or `!`.
pub open spec fn spec_not_prefix(s: Seq<char>, i: int) -> Option<int> {
    if match_nocase_at(s, i, seq!['n', 'o', 't']) && i + 3 < s.len() && is_space_char(s[i + 3]) {
        Some(skip_ws(s, i + 3))
    } else if 0 <= i < s.len() && s[i] == '!' {
        Some(i + 1)
    } else {
        None
    }
}

/// Parse a term at `i`: a negated term, a parenthesized subexpression, or a
/// property.  A failure after `not`, `!` or `(` committed is a halt, except
/// that a missing closing parenthesis is a miss, as the grammar leaves the
/// closing delimiter outside the committed region.
pub open spec fn spec_term(s: Seq<char>, i: int) -> SpecParse
    decreases s.len() - i, 1int,
{
    match spec_not_prefix(s, i) {
        Some(j) => if i < j <= s.len() {
            match spec_term(s, j) {
                SpecParse::Found(e, j2) => SpecParse::Found(SpecExpr::Not(Box::new(e)), j2),
                _ => SpecParse::Halt,
            }
        } else {
            // a negation marker always advances; this branch is unreachable
            SpecParse::Halt
        },
        None => if 0 <= i < s.len() && s[i] == '(' {
            match spec_subexpr(s, i + 1) {
                SpecParse::Found(e, j) => if j < s.len() && s[j] == ')' {
                    SpecParse::Found(e, j + 1)
                } else {
                    SpecParse::Miss
                },
                _ => SpecParse::Halt,
            }
        } else {
            spec_property(s, i)
        },
    }
}

/// Parse one repetition of `op` at `i`: whitespace, the keyword, whitespace,
/// then a term.
pub open spec fn spec_rep(s: Seq<char>, i: int, op: Op) -> SpecParse
    decreases s.len() - i, 1int,
{
    let j1 = skip_ws(s, i);
    if j1 <= i || j1 > s.len() {
        SpecParse::Miss
    } else if !match_nocase_at(s, j1, kw_seq(op)) {
        SpecParse::Miss
    } else {
        let j2 = j1 + kw_seq(op).len();
        let j3 = skip_ws(s, j2);
        if j3 <= j2 || j3 > s.len() {
            SpecParse::Miss
        } else {
            spec_term(s, j3)
        }
    }
}

/// Parse as many repetitions of `op` as stand at `i`; at least one is
/// needed, and a halt inside any repetition rejects the input.
pub open spec fn spec_chain(s: Seq<char>, i: int, op: Op) -> SpecChain
    decreases s.len() - i, 2int,
{
    match spec_rep(s, i, op) {
        SpecParse::Found(t, j) => if i < j <= s.len() {
            match spec_chain(s, j, op) {
                SpecChain::Parts(ts, j2) => SpecChain::Parts(seq![t] + ts, j2),
                SpecChain::Empty => SpecChain::Parts(seq![t], j),
                SpecChain::Fail => SpecChain::Fail,
            }
        } else {
            // a repetition always advances; this branch is unreachable
            SpecChain::Fail
        },
        SpecParse::Miss => SpecChain::Empty,
        SpecParse::Halt => SpecChain::Fail,
    }
}

/// After a first term, try each operator in turn; the first whose chain has
/// a repetition forms the n-ary node, and with no repetition at all the term
/// stands by itself.
pub open spec fn spec_op_alt(s: Seq<char>, first: SpecExpr, j1: int) -> SpecParse
    decreases s.len() - j1, 3int,
{
    match spec_chain(s, j1, Op::And) {
        SpecChain::Parts(ts, j2) => SpecParse::Found(mk_nary(Op::And, seq![first] + ts), j2),
        SpecChain::Fail => SpecParse::Halt,
        SpecChain::Empty => match spec_chain(s, j1, Op::Or) {
            SpecChain::Parts(ts, j2) => SpecParse::Found(mk_nary(Op::Or, seq![first] + ts), j2),
            SpecChain::Fail => SpecParse::Halt,
            SpecChain::Empty => match spec_chain(s, j1, Op::Xor) {
                SpecChain::Parts(ts, j2) => SpecParse::Found(
                    mk_nary(Op::Xor, seq![first] + ts),
                    j2,
                ),
                SpecChain::Fail => SpecParse::Halt,
                SpecChain::Empty => match spec_chain(s, j1, Op::Sub) {
                    SpecChain::Parts(ts, j2) => SpecParse::Found(
                        mk_nary(Op::Sub, seq![first] + ts),
                        j2,
                    ),
                    SpecChain::Fail => SpecParse::Halt,
                    SpecChain::Empty => SpecParse::Found(first, j1),
                },
            },
        },
    }
}

/// Parse a subexpression at `i`: surrounding whitespace stripped, a first
/// term, then the operator alternatives.  Any failure here is a halt: the
/// grammar commits once a subexpression is expected.
pub open spec fn spec_subexpr(s: Seq<char>, i: int) -> SpecParse
    decreases s.len() - i, 4int,
{
    let j0 = skip_ws(s, i);
    if j0 < i || j0 > s.len() {
        // whitespace skipping never retreats; this branch is unreachable
        SpecParse::Halt
    } else {
        match spec_term(s, j0) {
            SpecParse::Found(first, j1) => if j0 < j1 <= s.len() {
                match spec_op_alt(s, first, j1) {
                    SpecParse::Found(e, j2) => SpecParse::Found(e, skip_ws(s, j2)),
                    _ => SpecParse::Halt,
                }
            } else {
                // a term always advances; this branch is unreachable
                SpecParse::Halt
            },
            _ => SpecParse::Halt,
        }
    }
}

/// Parse a whole expression: either `*` standing alone, or a subexpression.
pub open spec fn spec_expression(s: Seq<char>) -> SpecParse {
    let i0 = skip_ws(s, 0);
    if 0 <= i0 < s.len() && s[i0] == '*' {
        SpecParse::Found(SpecExpr::Root, skip_ws(s, i0 + 1))
    } else {
        spec_subexpr(s, 0)
    }
}

/// The expression of a `Found` outcome.
pub open spec fn found_expr(p: SpecParse) -> SpecExpr {
    match p {
        SpecParse::Found(e, _) => e,
        _ => SpecExpr::Root,
    }
}

/// Whitespace skipping stays between its start and the end of the input,
/// covers only whitespace, and stops at none.
pub proof fn lemma_skip_ws(s: Seq<char>, i: int)
    requires
        0 <= i <= s.len(),
    ensures
        i <= skip_ws(s, i) <= s.len(),
        forall|j: int| i <= j < skip_ws(s, i) ==> is_space_char(#[trigger] s[j]),
        skip_ws(s, i) < s.len() ==> !is_space_char(s[skip_ws(s, i)]),
    decreases s.len() - i,
{
    if i < s.len() && is_space_char(s[i]) {
        lemma_skip_ws(s, i + 1);
    }
}

/// Word scanning stays between its start and the end of the input, covers
/// only word characters, and stops at none.
pub proof fn lemma_word_end(s: Seq<char>, i: int)
    requires
        0 <= i <= s.len(),
    ensures
        i <= word_end(s, i) <= s.len(),
        forall|j: int| i <= j < word_end(s, i) ==> is_word_char(#[trigger] s[j]),
        word_end(s, i) < s.len() ==> !is_word_char(s[word_end(s, i)]),
    decreases s.len() - i,
{
    if i < s.len() && is_word_char(s[i]) {
        lemma_word_end(s, i + 1);
    }
}

/// An input no longer than the parser ever sees; positions then never
/// overflow.
pub open spec fn input_fits(s: Seq<char>) -> bool {
    s.len() <= 0x10000000
}

/// What one executable parsing step returns.
pub(crate) enum ParseStep {
    Found(Expression, usize),
    Miss,
    Halt,
}

/// What an executable operator chain returns.
pub(crate) enum ChainStep {
    Parts(Vec<Expression>, usize),
    Empty,
    Fail,
}

/// Whether an executable step returns what the spec-level step says, with a
/// well-formed expression at an advanced position.
pub(crate) open spec fn step_models(r: ParseStep, sp: SpecParse, s: Seq<char>, i: int) -> bool {
    match r {
        ParseStep::Found(e, j) => sp == SpecParse::Found(e@, j as int) && i < j <= s.len()
            && nonempty_nary(e@),
        ParseStep::Miss => sp == SpecParse::Miss,
        ParseStep::Halt => sp == SpecParse::Halt,
    }
}

/// Whether an executable chain returns what the spec-level chain says, with
/// well-formed parts at an advanced position.
pub(crate) open spec fn chain_models(r: ChainStep, sc: SpecChain, s: Seq<char>, i: int) -> bool {
    match r {
        ChainStep::Parts(ts, j) => sc == SpecChain::Parts(view_seq(ts@), j as int) && i < j
            <= s.len() && ts@.len() >= 1 && (forall|k: int|
            0 <= k < ts@.len() ==> nonempty_nary(#[trigger] view_seq(ts@)[k])),
        ChainStep::Empty => sc == SpecChain::Empty,
        ChainStep::Fail => sc == SpecChain::Fail,
    }
}

/// Skip whitespace from `i`.
fn e_skip_ws(s: &Vec<char>, i: usize) -> (r: usize)
    requires
        i <= s@.len(),
        input_fits(s@),
    ensures
        r as int == skip_ws(s@, i as int),
        i <= r <= s@.len(),
{
    let n = s.len();
    let mut j = i;
    while j < n && is_space(s[j])
        invariant
            i <= j <= n,
            n == s@.len(),
            input_fits(s@),
            skip_ws(s@, i as int) == skip_ws(s@, j as int),
        decreases n - j,
    {
        j = j + 1;
    }
    j
}

/// Scan word characters from `i`.
fn e_word_end(s: &Vec<char>, i: usize) -> (r: usize)
    requires
        i <= s@.len(),
        input_fits(s@),
    ensures
        r as int == word_end(s@, i as int),
        i <= r <= s@.len(),
{
    let n = s.len();
    let mut j = i;
    while j < n && is_word(s[j])
        invariant
            i <= j <= n,
            n == s@.len(),
            input_fits(s@),
            word_end(s@, i as int) == word_end(s@, j as int),
        decreases n - j,
    {
        j = j + 1;
    }
    j
}

/// Decide whether `not` stands at `i`, ignoring case.
fn e_match_not(s: &Vec<char>, i: usize) -> (r: bool)
    requires
        i <= s@.len(),
        input_fits(s@),
    ensures
        r == match_nocase_at(s@, i as int, seq!['n', 'o', 't']),
{
    let ghost kw = seq!['n', 'o', 't'];
    if i + 3 <= s.len() {
        let r = crate::expression::eq_nocase(s[i], 'n') && crate::expression::eq_nocase(
            s[i + 1],
            'o',
        ) && crate::expression::eq_nocase(s[i + 2], 't');
        proof {
            if r {
                assert forall|j: int| 0 <= j < kw.len() implies char_eq_nocase(
                    s@[i + j],
                    #[trigger] kw[j],
                ) by {
                    assert(j == 0 || j == 1 || j == 2);
                }
            }
            if match_nocase_at(s@, i as int, kw) {
                assert(char_eq_nocase(s@[i + 0], kw[0]));
                assert(char_eq_nocase(s@[i + 1], kw[1]));
                assert(char_eq_nocase(s@[i + 2], kw[2]));
            }
        }
        r
    } else {
        false
    }
}

/// Decide whether the keyword of `op` stands at `i`, ignoring case.
fn e_match_kw(s: &Vec<char>, i: usize, op: Op) -> (r: bool)
    requires
        i <= s@.len(),
        input_fits(s@),
    ensures
        r == match_nocase_at(s@, i as int, kw_seq(op)),
{
    let ghost kw = kw_seq(op);
    match op {
        Op::And => {
            if i + 3 <= s.len() {
                let r = crate::expression::eq_nocase(s[i], 'a') && crate::expression::eq_nocase(
                    s[i + 1],
                    'n',
                ) && crate::expression::eq_nocase(s[i + 2], 'd');
                proof {
                    if r {
                        assert forall|j: int| 0 <= j < kw.len() implies char_eq_nocase(
                            s@[i + j],
                            #[trigger] kw[j],
                        ) by {
                            assert(j == 0 || j == 1 || j == 2);
                        }
                    }
                    if match_nocase_at(s@, i as int, kw) {
                        assert(char_eq_nocase(s@[i + 0], kw[0]));
                        assert(char_eq_nocase(s@[i + 1], kw[1]));
                        assert(char_eq_nocase(s@[i + 2], kw[2]));
                    }
                }
                r
            } else {
                false
            }
        },
        Op::Or => {
            if i + 2 <= s.len() {
                let r = crate::expression::eq_nocase(s[i], 'o') && crate::expression::eq_nocase(
                    s[i + 1],
                    'r',
                );
                proof {
                    if r {
                        assert forall|j: int| 0 <= j < kw.len() implies char_eq_nocase(
                            s@[i + j],
                            #[trigger] kw[j],
                        ) by {
                            assert(j == 0 || j == 1);
                        }
                    }
                    if match_nocase_at(s@, i as int, kw) {
                        assert(char_eq_nocase(s@[i + 0], kw[0]));
                        assert(char_eq_nocase(s@[i + 1], kw[1]));
                    }
                }
                r
            } else {
                false
            }
        },
        Op::Xor => {
            if i + 3 <= s.len() {
                let r = crate::expression::eq_nocase(s[i], 'x') && crate::expression::eq_nocase(
                    s[i + 1],
                    'o',
                ) && crate::expression::eq_nocase(s[i + 2], 'r');
                proof {
                    if r {
                        assert forall|j: int| 0 <= j < kw.len() implies char_eq_nocase(
                            s@[i + j],
                            #[trigger] kw[j],
                        ) by {
                            assert(j == 0 || j == 1 || j == 2);
                        }
                    }
                    if match_nocase_at(s@, i as int, kw) {
                        assert(char_eq_nocase(s@[i + 0], kw[0]));
                        assert(char_eq_nocase(s@[i + 1], kw[1]));
                        assert(char_eq_nocase(s@[i + 2], kw[2]));
                    }
                }
                r
            } else {
                false
            }
        },
        Op::Sub => {
            if i + 1 <= s.len() {
                let r = s[i] == '-';
                proof {
                    if r {
                        assert forall|j: int| 0 <= j < kw.len() implies char_eq_nocase(
                            s@[i + j],
                            #[trigger] kw[j],
                        ) by {
                            assert(j == 0);
                        }
                    }
                    if match_nocase_at(s@, i as int, kw) {
                        assert(char_eq_nocase(s@[i + 0], kw[0]));
                    }
                }
                r
            } else {
                false
            }
        },
    }
}

/// The keyword length of `op`.
fn e_kw_len(op: Op) -> (r: usize)
    ensures
        r == kw_seq(op).len(),
{
    match op {
        Op::And => 3,
        Op::Or => 2,
        Op::Xor => 3,
        Op::Sub => 1,
    }
}

/// Parse a property name at `i`.
fn p_property(s: &Vec<char>, i: usize) -> (r: ParseStep)
    requires
        i <= s@.len(),
        input_fits(s@),
    ensures
        step_models(r, spec_property(s@, i as int), s@, i as int),
{
    if i < s.len() && is_alpha(s[i]) {
        let j = e_word_end(s, i);
        proof {
            lemma_word_end(s@, i as int);
        }
        if range_is_keyword(s, i, j) {
            ParseStep::Miss
        } else {
            let mut word: Vec<char> = Vec::new();
            let mut k = i;
            while k < j
                invariant
                    i <= k <= j <= s@.len(),
                    word@.len() == k - i,
                    forall|t: int| 0 <= t < word@.len() ==> word@[t] == s@[i + t],
                decreases j - k,
            {
                word.push(s[k]);
                k = k + 1;
            }
            proof {
                assert(word@ =~= s@.subrange(i as int, j as int));
            }
            let name = string_from_chars(&word);
            ParseStep::Found(Expression::Property(name), j)
        }
    } else {
        ParseStep::Miss
    }
}

/// The position after a negation marker at `i`, if one stands there.
fn p_not_prefix(s: &Vec<char>, i: usize) -> (r: Option<usize>)
    requires
        i <= s@.len(),
        input_fits(s@),
    ensures
        match r {
            Some(j) => spec_not_prefix(s@, i as int) == Some(j as int) && i < j <= s@.len(),
            None => spec_not_prefix(s@, i as int) is None,
        },
{
    if e_match_not(s, i) && i + 3 < s.len() && is_space(s[i + 3]) {
        proof {
            lemma_skip_ws(s@, i as int + 3);
        }
        Some(e_skip_ws(s, i + 3))
    } else if i < s.len() && s[i] == '!' {
        Some(i + 1)
    } else {
        None
    }
}

/// Parse a term at `i`.
fn p_term(s: &Vec<char>, i: usize) -> (r: ParseStep)
    requires
        i <= s@.len(),
        input_fits(s@),
    ensures
        step_models(r, spec_term(s@, i as int), s@, i as int),
    decreases s@.len() - i, 1int,
{
    match p_not_prefix(s, i) {
        Some(j) => match p_term(s, j) {
            ParseStep::Found(e, j2) => ParseStep::Found(Expression::Not(Box::new(e)), j2),
            _ => ParseStep::Halt,
        },
        None => {
            if i < s.len() && s[i] == '(' {
                match p_subexpr(s, i + 1) {
                    ParseStep::Found(e, j) => {
                        if j < s.len() && s[j] == ')' {
                            ParseStep::Found(e, j + 1)
                        } else {
                            ParseStep::Miss
                        }
                    },
                    _ => ParseStep::Halt,
                }
            } else {
                p_property(s, i)
            }
        },
    }
}

/// Parse one repetition of `op` at `i`.
fn p_rep(s: &Vec<char>, i: usize, op: Op) -> (r: ParseStep)
    requires
        i <= s@.len(),
        input_fits(s@),
    ensures
        step_models(r, spec_rep(s@, i as int, op), s@, i as int),
    decreases s@.len() - i, 1int,
{
    let j1 = e_skip_ws(s, i);
    if j1 <= i {
        ParseStep::Miss
    } else if !e_match_kw(s, j1, op) {
        ParseStep::Miss
    } else {
        let j2 = j1 + e_kw_len(op);
        proof {
            assert(j2 <= s@.len());
        }
        let j3 = e_skip_ws(s, j2);
        if j3 <= j2 {
            ParseStep::Miss
        } else {
            p_term(s, j3)
        }
    }
}

/// Parse as many repetitions of `op` as stand at `i`.
fn p_chain(s: &Vec<char>, i: usize, op: Op) -> (r: ChainStep)
    requires
        i <= s@.len(),
        input_fits(s@),
    ensures
        chain_models(r, spec_chain(s@, i as int, op), s@, i as int),
    decreases s@.len() - i, 2int,
{
    match p_rep(s, i, op) {
        ParseStep::Found(t, j) => {
            let ghost tv = t@;
            match p_chain(s, j, op) {
                ChainStep::Parts(ts, j2) => {
                    let ghost tsv = ts@;
                    let mut v: Vec<Expression> = Vec::new();
                    v.push(t);
                    proof {
                        lemma_view_seq(v@);
                        assert(view_seq(v@) =~= seq![tv]);
                    }
                    let ghost vv = v@;
                    let mut ts = ts;
                    v.append(&mut ts);
                    proof {
                        crate::expression::lemma_view_append(vv, tsv);
                        lemma_view_seq(v@);
                    }
                    ChainStep::Parts(v, j2)
                },
                ChainStep::Empty => {
                    let mut v: Vec<Expression> = Vec::new();
                    v.push(t);
                    proof {
                        lemma_view_seq(v@);
                        assert(view_seq(v@) =~= seq![tv]);
                    }
                    ChainStep::Parts(v, j)
                },
                ChainStep::Fail => ChainStep::Fail,
            }
        },
        ParseStep::Miss => ChainStep::Empty,
        ParseStep::Halt => ChainStep::Fail,
    }
}

/// After a first term, try each operator in turn.
fn p_op_alt(s: &Vec<char>, first: Expression, j1: usize) -> (r: ParseStep)
    requires
        j1 <= s@.len(),
        input_fits(s@),
        nonempty_nary(first@),
    ensures
        match r {
            ParseStep::Found(e, j) => spec_op_alt(s@, first@, j1 as int) == SpecParse::Found(
                e@,
                j as int,
            ) && j1 <= j <= s@.len() && nonempty_nary(e@),
            ParseStep::Miss => spec_op_alt(s@, first@, j1 as int) == SpecParse::Miss,
            ParseStep::Halt => spec_op_alt(s@, first@, j1 as int) == SpecParse::Halt,
        },
    decreases s@.len() - j1, 3int,
{
    let ghost fv = first@;
    match p_chain(s, j1, Op::And) {
        ChainStep::Parts(ts, j2) => ParseStep::Found(assemble(Op::And, first, ts), j2),
        ChainStep::Fail => ParseStep::Halt,
        ChainStep::Empty => match p_chain(s, j1, Op::Or) {
            ChainStep::Parts(ts, j2) => ParseStep::Found(assemble(Op::Or, first, ts), j2),
            ChainStep::Fail => ParseStep::Halt,
            ChainStep::Empty => match p_chain(s, j1, Op::Xor) {
                ChainStep::Parts(ts, j2) => ParseStep::Found(assemble(Op::Xor, first, ts), j2),
                ChainStep::Fail => ParseStep::Halt,
                ChainStep::Empty => match p_chain(s, j1, Op::Sub) {
                    ChainStep::Parts(ts, j2) => ParseStep::Found(
                        assemble(Op::Sub, first, ts),
                        j2,
                    ),
                    ChainStep::Fail => ParseStep::Halt,
                    ChainStep::Empty => ParseStep::Found(first, j1),
                },
            },
        },
    }
}

/// Build the n-ary node of `op` from a first child and the chained rest.
fn assemble(op: Op, first: Expression, ts: Vec<Expression>) -> (r: Expression)
    requires
        nonempty_nary(first@),
        ts@.len() >= 1,
        forall|k: int| 0 <= k < ts@.len() ==> nonempty_nary(#[trigger] view_seq(ts@)[k]),
    ensures
        r@ == mk_nary(op, seq![first@] + view_seq(ts@)),
        nonempty_nary(r@),
{
    let ghost fv = first@;
    let ghost tsv = ts@;
    let mut v: Vec<Expression> = Vec::new();
    v.push(first);
    proof {
        lemma_view_seq(v@);
        assert(view_seq(v@) =~= seq![fv]);
    }
    let ghost vv = v@;
    let mut ts = ts;
    v.append(&mut ts);
    proof {
        crate::expression::lemma_view_append(vv, tsv);
        lemma_view_seq(v@);
        assert forall|k: int| 0 <= k < view_seq(v@).len() implies nonempty_nary(
            #[trigger] view_seq(v@)[k],
        ) by {
            assert(view_seq(v@) == seq![fv] + view_seq(tsv));
            if k > 0 {
                assert(view_seq(v@)[k] == view_seq(tsv)[k - 1]);
            }
        }
    }
    match op {
        Op::And => Expression::And(v),
        Op::Or => Expression::Or(v),
        Op::Xor => Expression::Xor(v),
        Op::Sub => Expression::Sub(v),
    }
}

/// Parse a subexpression at `i`.
fn p_subexpr(s: &Vec<char>, i: usize) -> (r: ParseStep)
    requires
        i <= s@.len(),
        input_fits(s@),
    ensures
        step_models(r, spec_subexpr(s@, i as int), s@, i as int),
    decreases s@.len() - i, 4int,
{
    let j0 = e_skip_ws(s, i);
    match p_term(s, j0) {
        ParseStep::Found(first, j1) => match p_op_alt(s, first, j1) {
            ParseStep::Found(e, j2) => {
                let j3 = e_skip_ws(s, j2);
                proof {
                    lemma_skip_ws(s@, j2 as int);
                }
                ParseStep::Found(e, j3)
            },
            _ => ParseStep::Halt,
        },
        _ => ParseStep::Halt,
    }
}

/// Parse a whole expression: `*` standing alone, or a subexpression.
pub(crate) fn p_expression(s: &Vec<char>) -> (r: ParseStep)
    requires
        input_fits(s@),
    ensures
        match r {
            ParseStep::Found(e, j) => spec_expression(s@) == SpecParse::Found(e@, j as int) && j
                <= s@.len() && nonempty_nary(e@),
            ParseStep::Miss => spec_expression(s@) == SpecParse::Miss,
            ParseStep::Halt => spec_expression(s@) == SpecParse::Halt,
        },
{
    let i0 = e_skip_ws(s, 0);
    if i0 < s.len() && s[i0] == '*' {
        let j = e_skip_ws(s, i0 + 1);
        ParseStep::Found(Expression::Root, j)
    } else {
        p_subexpr(s, 0)
    }
}

} // verus!
