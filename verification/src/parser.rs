//! The pattern parser.
//!
//! A pattern is parsed by recursive descent.  Alternation (`|`) binds
//! loosest; concatenation (adjacent terms) binds next; the postfix repetition
//! operators `*`, `+` and `?` bind tightest and apply to the immediately
//! preceding atom: a literal character, `.`, `^`, `$`, an escaped character,
//! or a parenthesized sub-expression.
//!
//! The grammar is written down twice: once as the executable parser on
//! [`Ast`], and once as the mathematical parser [`sp_parse`] on the mirror
//! type [`Re`].  Every executable parsing function is proved to return
//! exactly what its mathematical counterpart returns, so the contract of
//! [`parse`] pins both the tree on success and the error on failure.

use vstd::prelude::*;

verus! {

/// A parsed pattern: the syntax tree the parser builds.
#[derive(Debug)]
pub enum Ast {
    /// A literal character.
    Char(char),
    /// `.`: any single character.
    Dot,
    /// `^`: the start-of-input anchor.
    Caret,
    /// `$`: the end-of-input anchor.
    Dollar,
    /// Concatenation of two or more terms.
    Sequence(Vec<Ast>),
    /// Alternation of two branches.
    Or(Box<Ast>, Box<Ast>),
    /// Zero or more repetitions.
    Star(Box<Ast>),
    /// One or more repetitions.
    Plus(Box<Ast>),
    /// Zero or one occurrence.
    Question(Box<Ast>),
}

/// The mathematical form of a parsed pattern, used in specifications.
pub ghost enum Re {
    Char(char),
    Dot,
    Caret,
    Dollar,
    Sequence(Seq<Re>),
    Or(Box<Re>, Box<Re>),
    Star(Box<Re>),
    Plus(Box<Re>),
    Question(Box<Re>),
}

/// The mathematical form of a syntax tree.
pub open spec fn re_of(ast: Ast) -> Re
    decreases ast,
{
    match ast {
        Ast::Char(c) => Re::Char(c),
        Ast::Dot => Re::Dot,
        Ast::Caret => Re::Caret,
        Ast::Dollar => Re::Dollar,
        Ast::Sequence(v) => Re::Sequence(seq_re_of(v@)),
        Ast::Or(l, r) => Re::Or(Box::new(re_of(*l)), Box::new(re_of(*r))),
        Ast::Star(e) => Re::Star(Box::new(re_of(*e))),
        Ast::Plus(e) => Re::Plus(Box::new(re_of(*e))),
        Ast::Question(e) => Re::Question(Box::new(re_of(*e))),
    }
}

/// The mathematical form of each tree in a sequence.
pub open spec fn seq_re_of(v: Seq<Ast>) -> Seq<Re>
    decreases v,
{
    if v.len() == 0 {
        Seq::empty()
    } else {
        seq_re_of(v.drop_last()).push(re_of(v.last()))
    }
}

/// `seq_re_of` maps element by element.
pub proof fn lemma_seq_re_of(v: Seq<Ast>)
    ensures
        seq_re_of(v).len() == v.len(),
        forall|i: int| 0 <= i < v.len() ==> seq_re_of(v)[i] == re_of(v[i]),
    decreases v.len(),
{
    if v.len() > 0 {
        lemma_seq_re_of(v.drop_last());
    }
}

/// A pattern syntax error.
#[derive(Debug, Clone, Copy, PartialEq, Eq, Structural)]
pub enum ParseError {
    /// The pattern, a group, or an operand of `|` is empty.
    Empty,
    /// A repetition operator or a `|` with no atom before it, at this position.
    NoPrev(usize),
    /// A `)` with no matching `(`, or input left over after it.
    InvalidRightParen(usize),
    /// A `(` with no matching `)`.
    NoRightParen,
    /// A `\` at the very end of the pattern.
    TrailingEscape,
}

/// Mathematical parse of one atom starting at `pos`.
pub open spec fn sp_atom(s: Seq<char>, pos: int) -> Result<(Re, int), ParseError>
    decreases s.len() - pos, 0int,
{
    if pos < 0 || pos >= s.len() {
        Err(ParseError::Empty)
    } else if s[pos] == '*' || s[pos] == '+' || s[pos] == '?' || s[pos] == '|' {
        Err(ParseError::NoPrev(pos as usize))
    } else if s[pos] == ')' {
        Err(ParseError::InvalidRightParen(pos as usize))
    } else if s[pos] == '(' {
        match sp_alt(s, pos + 1) {
            Ok((a, p)) => if p < s.len() && s[p] == ')' {
                Ok((a, p + 1))
            } else {
                Err(ParseError::NoRightParen)
            },
            Err(e) => Err(e),
        }
    } else if s[pos] == '\\' {
        if pos + 1 < s.len() {
            Ok((Re::Char(s[pos + 1]), pos + 2))
        } else {
            Err(ParseError::TrailingEscape)
        }
    } else if s[pos] == '.' {
        Ok((Re::Dot, pos + 1))
    } else if s[pos] == '^' {
        Ok((Re::Caret, pos + 1))
    } else if s[pos] == '$' {
        Ok((Re::Dollar, pos + 1))
    } else {
        Ok((Re::Char(s[pos]), pos + 1))
    }
}

/// Mathematical parse of the postfix repetition operators after an atom.
pub open spec fn sp_postfix(s: Seq<char>, pos: int, a: Re) -> (Re, int)
    decreases s.len() - pos, 1int,
{
    if 0 <= pos < s.len() && (s[pos] == '*' || s[pos] == '+' || s[pos] == '?') {
        let w = if s[pos] == '*' {
            Re::Star(Box::new(a))
        } else if s[pos] == '+' {
            Re::Plus(Box::new(a))
        } else {
            Re::Question(Box::new(a))
        };
        sp_postfix(s, pos + 1, w)
    } else {
        (a, pos)
    }
}

/// Mathematical parse of one repeated term: an atom and its postfix operators.
pub open spec fn sp_rep(s: Seq<char>, pos: int) -> Result<(Re, int), ParseError>
    decreases s.len() - pos, 2int,
{
    match sp_atom(s, pos) {
        Ok((a, p)) => if pos < p <= s.len() {
            Ok(sp_postfix(s, p, a))
        } else {
            arbitrary()
        },
        Err(e) => Err(e),
    }
}

/// Mathematical parse of a concatenation: repeated terms until the end of the
/// input, a `|`, or a `)`.  `acc` holds the terms parsed so far.
pub open spec fn sp_cat(s: Seq<char>, pos: int, acc: Seq<Re>) -> Result<(Re, int), ParseError>
    decreases s.len() - pos, 3int,
{
    if pos >= s.len() || s[pos] == '|' || s[pos] == ')' {
        if acc.len() == 0 {
            Err(ParseError::Empty)
        } else if acc.len() == 1 {
            Ok((acc[0], pos))
        } else {
            Ok((Re::Sequence(acc), pos))
        }
    } else {
        match sp_rep(s, pos) {
            Ok((a, p)) => if pos < p <= s.len() {
                sp_cat(s, p, acc.push(a))
            } else {
                arbitrary()
            },
            Err(e) => Err(e),
        }
    }
}

/// Mathematical parse of an alternation, folding `|` to the right.
pub open spec fn sp_alt(s: Seq<char>, pos: int) -> Result<(Re, int), ParseError>
    decreases s.len() - pos, 4int,
{
    match sp_cat(s, pos, Seq::empty()) {
        Ok((l, p)) => if pos < p <= s.len() {
            if p < s.len() && s[p] == '|' {
                match sp_alt(s, p + 1) {
                    Ok((r, p2)) => Ok((Re::Or(Box::new(l), Box::new(r)), p2)),
                    Err(e) => Err(e),
                }
            } else {
                Ok((l, p))
            }
        } else {
            arbitrary()
        },
        Err(e) => Err(e),
    }
}

/// Mathematical parse of a whole pattern.
pub open spec fn sp_parse(s: Seq<char>) -> Result<Re, ParseError> {
    match sp_alt(s, 0) {
        Ok((a, p)) => if p == s.len() {
            Ok(a)
        } else {
            Err(ParseError::InvalidRightParen(p as usize))
        },
        Err(e) => Err(e),
    }
}

/// `re_of` on a single literal character.
proof fn lemma_re_of_char(c: char)
    ensures
        re_of(Ast::Char(c)) == Re::Char(c),
{
}

/// The mathematical form of a parse result.
pub open spec fn res_re(r: Result<(Ast, usize), ParseError>) -> Result<(Re, int), ParseError> {
    match r {
        Ok((a, p)) => Ok((re_of(a), p as int)),
        Err(e) => Err(e),
    }
}

/// The mathematical form of a whole-pattern parse result.
pub open spec fn parse_view(r: Result<Ast, ParseError>) -> Result<Re, ParseError> {
    match r {
        Ok(a) => Ok(re_of(a)),
        Err(e) => Err(e),
    }
}

#[verifier::rlimit(100)]
fn p_atom(s: &[char], pos: usize) -> (r: Result<(Ast, usize), ParseError>)
    requires
        pos <= s@.len(),
    ensures
        res_re(r) == sp_atom(s@, pos as int),
        r matches Ok(t) ==> pos < t.1 <= s@.len(),
    decreases s@.len() - pos, 0int,
{
    let n: usize = s.len();
    proof {
        assert(s@.len() == n as nat);
    }
    if pos >= s.len() {
        Err(ParseError::Empty)
    } else {
        let c = s[pos];
        proof {
            assert(c == s@[pos as int]);
        }
        if c == '*' || c == '+' || c == '?' || c == '|' {
            Err(ParseError::NoPrev(pos))
        } else if c == ')' {
            Err(ParseError::InvalidRightParen(pos))
        } else if c == '(' {
            match p_alt(s, pos + 1) {
                Ok((a, p)) => {
                    if p < s.len() && s[p] == ')' {
                        Ok((a, p + 1))
                    } else {
                        Err(ParseError::NoRightParen)
                    }
                },
                Err(e) => Err(e),
            }
        } else if c == '\\' {
            if pos + 1 < s.len() {
                let c2 = s[pos + 1];
                proof {
                    lemma_re_of_char(c2);
                }
                Ok((Ast::Char(c2), pos + 2))
            } else {
                Err(ParseError::TrailingEscape)
            }
        } else if c == '.' {
            Ok((Ast::Dot, pos + 1))
        } else if c == '^' {
            Ok((Ast::Caret, pos + 1))
        } else if c == '$' {
            Ok((Ast::Dollar, pos + 1))
        } else {
            proof {
                lemma_re_of_char(c);
            }
            Ok((Ast::Char(c), pos + 1))
        }
    }
}

fn p_postfix(s: &[char], pos: usize, a: Ast) -> (r: (Ast, usize))
    requires
        pos <= s@.len(),
    ensures
        (re_of(r.0), r.1 as int) == sp_postfix(s@, pos as int, re_of(a)),
        pos <= r.1 <= s@.len(),
    decreases s@.len() - pos, 1int,
{
    let n: usize = s.len();
    proof {
        assert(s@.len() == n as nat);
    }
    if pos < s.len() {
        let c = s[pos];
        if c == '*' {
            p_postfix(s, pos + 1, Ast::Star(Box::new(a)))
        } else if c == '+' {
            p_postfix(s, pos + 1, Ast::Plus(Box::new(a)))
        } else if c == '?' {
            p_postfix(s, pos + 1, Ast::Question(Box::new(a)))
        } else {
            (a, pos)
        }
    } else {
        (a, pos)
    }
}

fn p_rep(s: &[char], pos: usize) -> (r: Result<(Ast, usize), ParseError>)
    requires
        pos <= s@.len(),
    ensures
        res_re(r) == sp_rep(s@, pos as int),
        r matches Ok(t) ==> pos < t.1 <= s@.len(),
    decreases s@.len() - pos, 2int,
{
    let n: usize = s.len();
    proof {
        assert(s@.len() == n as nat);
    }
    match p_atom(s, pos) {
        Ok((a, p)) => {
            let t = p_postfix(s, p, a);
            Ok(t)
        },
        Err(e) => Err(e),
    }
}

fn p_cat(s: &[char], pos: usize, acc: Vec<Ast>) -> (r: Result<(Ast, usize), ParseError>)
    requires
        pos <= s@.len(),
    ensures
        res_re(r) == sp_cat(s@, pos as int, seq_re_of(acc@)),
        r matches Ok(t) ==> pos <= t.1 <= s@.len(),
        acc@.len() == 0 ==> (r matches Ok(t) ==> pos < t.1),
    decreases s@.len() - pos, 3int,
{
    let n: usize = s.len();
    proof {
        assert(s@.len() == n as nat);
    }
    proof {
        lemma_seq_re_of(acc@);
    }
    if pos >= s.len() || s[pos] == '|' || s[pos] == ')' {
        if acc.len() == 0 {
            Err(ParseError::Empty)
        } else if acc.len() == 1 {
            let mut acc = acc;
            let a = match acc.pop() {
                Some(a) => a,
                None => {
                    proof {
                        assert(false);
                    }
                    Ast::Dot
                },
            };
            Ok((a, pos))
        } else {
            Ok((Ast::Sequence(acc), pos))
        }
    } else {
        match p_rep(s, pos) {
            Ok((a, p)) => {
                let mut acc2 = acc;
                let ghost old_acc = acc2@;
                acc2.push(a);
                proof {
                    assert(acc2@.drop_last() =~= old_acc);
                    assert(acc2@.last() == a);
                    assert(seq_re_of(acc2@) == seq_re_of(old_acc).push(re_of(a)));
                }
                p_cat(s, p, acc2)
            },
            Err(e) => Err(e),
        }
    }
}

fn p_alt(s: &[char], pos: usize) -> (r: Result<(Ast, usize), ParseError>)
    requires
        pos <= s@.len(),
    ensures
        res_re(r) == sp_alt(s@, pos as int),
        r matches Ok(t) ==> pos < t.1 <= s@.len(),
    decreases s@.len() - pos, 4int,
{
    let n: usize = s.len();
    proof {
        assert(s@.len() == n as nat);
    }
    let acc: Vec<Ast> = Vec::new();
    proof {
        assert(seq_re_of(acc@) =~= Seq::<Re>::empty());
    }
    match p_cat(s, pos, acc) {
        Ok((l, p)) => {
            if p < s.len() && s[p] == '|' {
                match p_alt(s, p + 1) {
                    Ok((rr, p2)) => Ok((Ast::Or(Box::new(l), Box::new(rr)), p2)),
                    Err(e) => Err(e),
                }
            } else {
                Ok((l, p))
            }
        },
        Err(e) => Err(e),
    }
}

/// Parses a whole pattern, given as its character sequence.
///
/// Returns exactly what the mathematical parser returns: the syntax tree on
/// success, and the syntax error on failure — a repetition operator with no
/// atom before it, a malformed alternation, unbalanced or empty parentheses,
/// input left over after a closing parenthesis, or a trailing escape.
pub fn parse(pattern: &[char]) -> (r: Result<Ast, ParseError>)
    ensures
        parse_view(r) == sp_parse(pattern@),
{
    match p_alt(pattern, 0) {
        Ok((a, p)) => {
            if p == pattern.len() {
                Ok(a)
            } else {
                Err(ParseError::InvalidRightParen(p))
            }
        },
        Err(e) => Err(e),
    }
}

/// A pattern that begins with a bare repetition or alternation operator
/// (`*`, `+`, `?`, `|`) is rejected by the parser, whatever follows it.
pub proof fn lemma_leading_operator_rejected(s: Seq<char>)
    requires
        s.len() > 0,
        s[0] == '*' || s[0] == '+' || s[0] == '?' || s[0] == '|',
    ensures
        sp_parse(s) is Err,
{
    if s[0] == '|' {
        assert(sp_cat(s, 0, Seq::empty()) == Err::<(Re, int), ParseError>(ParseError::Empty));
    } else {
        assert(sp_atom(s, 0) == Err::<(Re, int), ParseError>(ParseError::NoPrev(0)));
        assert(sp_rep(s, 0) == Err::<(Re, int), ParseError>(ParseError::NoPrev(0)));
        assert(sp_cat(s, 0, Seq::empty()) == Err::<(Re, int), ParseError>(ParseError::NoPrev(0)));
    }
    assert(sp_alt(s, 0) is Err);
}

} // verus!
