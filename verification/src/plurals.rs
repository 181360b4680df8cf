//! Plural formulas: the expression tree, its evaluation, the search for
//! operators outside parentheses and the parser.

use crate::error::Error;
use crate::text::{
    chars_of, decimal_up_to, lemma_trim_of_trimmed, lemma_trim_shape, occurs_at, parse_decimal,
    range_is, trim, trim_slice,
};
use vstd::prelude::*;
use vstd::slice::slice_subrange;

verus! {

/// Binary operators of a plural formula.
#[derive(Clone, Copy, Debug, PartialEq, Eq)]
pub enum Operator {
    Equal,
    NotEqual,
    GreaterOrEqual,
    SmallerOrEqual,
    Greater,
    Smaller,
    And,
    Or,
    Modulo,
}

/// A plural formula.
#[derive(Debug, PartialEq, Eq)]
pub enum Ast {
    /// `x ? a : b`; the three trees are `x`, `a` and `b`.
    Ternary(Box<Ast>, Box<Ast>, Box<Ast>),
    /// The variable `n`.
    N,
    /// An integer literal.
    Integer(u64),
    /// A binary operator with its operands.
    Op(Operator, Box<Ast>, Box<Ast>),
    /// Logical negation.
    Not(Box<Ast>),
}

impl Clone for Ast {
    /// A copy of the formula.
    fn clone(&self) -> (r: Ast)
        ensures
            r == *self,
        decreases self,
    {
        match self {
            Ast::Ternary(cond, ok, nok) => {
                let cond: Ast = (**cond).clone();
                let ok: Ast = (**ok).clone();
                let nok: Ast = (**nok).clone();
                Ast::Ternary(Box::new(cond), Box::new(ok), Box::new(nok))
            },
            Ast::N => Ast::N,
            Ast::Integer(x) => Ast::Integer(*x),
            Ast::Op(op, lhs, rhs) => {
                let lhs: Ast = (**lhs).clone();
                let rhs: Ast = (**rhs).clone();
                Ast::Op(*op, Box::new(lhs), Box::new(rhs))
            },
            Ast::Not(val) => {
                let val: Ast = (**val).clone();
                Ast::Not(Box::new(val))
            },
        }
    }
}

/// Truth values of a formula are the numbers 0 and 1.
pub open spec fn truth(b: bool) -> nat {
    if b {
        1
    } else {
        0
    }
}

/// The value of `lhs op rhs`. A remainder by zero is 0.
pub open spec fn apply(op: Operator, lhs: nat, rhs: nat) -> nat {
    match op {
        Operator::Equal => truth(lhs == rhs),
        Operator::NotEqual => truth(lhs != rhs),
        Operator::GreaterOrEqual => truth(lhs >= rhs),
        Operator::SmallerOrEqual => truth(lhs <= rhs),
        Operator::Greater => truth(lhs > rhs),
        Operator::Smaller => truth(lhs < rhs),
        Operator::And => truth(lhs != 0 && rhs != 0),
        Operator::Or => truth(lhs != 0 || rhs != 0),
        Operator::Modulo => if rhs == 0 {
            0
        } else {
            lhs % rhs
        },
    }
}

/// The count that a formula sees for the argument `n`: `n` itself, and for a
/// negative `n` its two's complement reading as an unsigned 64-bit number.
pub open spec fn count_of(n: i64) -> nat {
    if n >= 0 {
        n as nat
    } else {
        (n + 0x1_0000_0000_0000_0000) as nat
    }
}

impl Ast {
    /// The value of the formula for the count `n`.
    pub open spec fn eval(self, n: nat) -> nat
        decreases self,
    {
        match self {
            Ast::Ternary(cond, ok, nok) => if cond.eval(n) == 0 {
                nok.eval(n)
            } else {
                ok.eval(n)
            },
            Ast::N => n,
            Ast::Integer(x) => x as nat,
            Ast::Op(op, lhs, rhs) => apply(op, lhs.eval(n), rhs.eval(n)),
            Ast::Not(val) => truth(val.eval(n) == 0),
        }
    }

    /// Evaluates the formula for the count `n`.
    pub fn resolve(&self, n: u64) -> (r: u64)
        ensures
            r == self.eval(n as nat),
        decreases self,
    {
        match self {
            Ast::Ternary(cond, ok, nok) => {
                if cond.resolve(n) == 0 {
                    nok.resolve(n)
                } else {
                    ok.resolve(n)
                }
            },
            Ast::N => n,
            Ast::Integer(x) => *x,
            Ast::Op(op, lhs, rhs) => {
                let a = lhs.resolve(n);
                let b = rhs.resolve(n);
                apply_operator(*op, a, b)
            },
            Ast::Not(val) => {
                if val.resolve(n) == 0 {
                    1
                } else {
                    0
                }
            },
        }
    }
}

/// Computes `lhs op rhs`.
pub fn apply_operator(op: Operator, lhs: u64, rhs: u64) -> (r: u64)
    ensures
        r == apply(op, lhs as nat, rhs as nat),
{
    match op {
        Operator::Equal => bit(lhs == rhs),
        Operator::NotEqual => bit(lhs != rhs),
        Operator::GreaterOrEqual => bit(lhs >= rhs),
        Operator::SmallerOrEqual => bit(lhs <= rhs),
        Operator::Greater => bit(lhs > rhs),
        Operator::Smaller => bit(lhs < rhs),
        Operator::And => bit(lhs != 0 && rhs != 0),
        Operator::Or => bit(lhs != 0 || rhs != 0),
        Operator::Modulo => {
            if rhs == 0 {
                0
            } else {
                lhs % rhs
            }
        },
    }
}

fn bit(b: bool) -> (r: u64)
    ensures
        r == truth(b),
{
    if b {
        1
    } else {
        0
    }
}

/// Reads `n` as an unsigned 64-bit count.
pub fn count(n: i64) -> (r: u64)
    ensures
        r == count_of(n),
{
    if n >= 0 {
        n as u64
    } else {
        let below: u64 = (n + 1 + i64::MAX) as u64;
        below + 0x8000_0000_0000_0000u64
    }
}

/// How many parentheses are open after the first `k` characters of `src`:
/// the opening ones among them less the closing ones.
pub open spec fn depth_before(src: Seq<char>, k: int) -> int
    decreases k,
{
    if k <= 0 {
        0
    } else {
        depth_before(src, k - 1) + (if src[k - 1] == '(' {
            1int
        } else if src[k - 1] == ')' {
            -1int
        } else {
            0int
        })
    }
}

/// The token `pat` stands in `src` at `i`, outside parentheses: no
/// parenthesis is open where the token ends.
pub open spec fn stands_outside(src: Seq<char>, pat: Seq<char>, i: int) -> bool {
    occurs_at(src, pat, i) && depth_before(src, i + pat.len()) == 0
}

/// Where the token `pat` first stands in `src` outside parentheses, looking
/// from `from` on.
pub open spec fn token_from(src: Seq<char>, pat: Seq<char>, from: int) -> Option<int>
    decreases src.len() + 1 - from,
{
    if from < 0 || from + pat.len() > src.len() {
        None
    } else if stands_outside(src, pat, from) {
        Some(from)
    } else {
        token_from(src, pat, from + 1)
    }
}

/// Where the token `pat` first stands in `src` outside parentheses.
pub open spec fn token_position(src: Seq<char>, pat: Seq<char>) -> Option<int> {
    token_from(src, pat, 0)
}

/// `token_from` finds a place where the token stands outside parentheses,
/// and the first such place from `from` on; it finds none only where there
/// is none.
pub proof fn lemma_token_from(src: Seq<char>, pat: Seq<char>, from: int)
    requires
        0 <= from,
    ensures
        match token_from(src, pat, from) {
            Some(i) => from <= i && stands_outside(src, pat, i) && forall|j: int|
                from <= j < i ==> !stands_outside(src, pat, j),
            None => forall|j: int| from <= j ==> !stands_outside(src, pat, j),
        },
    decreases src.len() + 1 - from,
{
    if from + pat.len() <= src.len() && !stands_outside(src, pat, from) {
        lemma_token_from(src, pat, from + 1);
    }
}

/// The place that `token_position` gives is the first at which the token
/// stands outside parentheses, and it gives none only where the token stands
/// nowhere outside parentheses.
pub proof fn lemma_token_position(src: Seq<char>, pat: Seq<char>)
    ensures
        match token_position(src, pat) {
            Some(i) => stands_outside(src, pat, i) && forall|j: int|
                0 <= j < i ==> !stands_outside(src, pat, j),
            None => forall|j: int| !stands_outside(src, pat, j),
        },
{
    lemma_token_from(src, pat, 0);
}

/// The token has no parenthesis in it; every operator token is such a one.
pub open spec fn plain(pat: Seq<char>) -> bool {
    forall|k: int| 0 <= k < pat.len() ==> pat[k] != '(' && pat[k] != ')'
}

/// Over the first `k` characters of a token without parentheses the number
/// of open parentheses does not change.
proof fn lemma_depth_within_token(src: Seq<char>, pat: Seq<char>, i: int, k: int)
    requires
        occurs_at(src, pat, i),
        plain(pat),
        0 <= k <= pat.len(),
    ensures
        depth_before(src, i + k) == depth_before(src, i),
    decreases k,
{
    if k > 0 {
        lemma_depth_within_token(src, pat, i, k - 1);
        assert(src[i + k - 1] == src.subrange(i, i + pat.len())[k - 1]);
    }
}

/// A token without parentheses stands outside parentheses exactly where it
/// stands and no parenthesis is open before it.
pub proof fn lemma_stands_outside_plain(src: Seq<char>, pat: Seq<char>, i: int)
    requires
        plain(pat),
    ensures
        stands_outside(src, pat, i) <==> occurs_at(src, pat, i) && depth_before(src, i) == 0,
{
    if occurs_at(src, pat, i) {
        lemma_depth_within_token(src, pat, i, pat.len() as int);
    }
}

/// A token that was found lies inside the text.
pub proof fn lemma_token_position_bounds(src: Seq<char>, pat: Seq<char>)
    ensures
        token_position(src, pat) matches Some(i) ==> 0 <= i && i + pat.len() <= src.len()
            && src.subrange(i, i + pat.len()) == pat,
{
    lemma_token_position(src, pat);
}

/// Finds where the token `pat` first stands in `src` outside parentheses.
pub fn index_of(src: &[char], pat: &[char]) -> (r: Option<usize>)
    ensures
        match r {
            Some(i) => stands_outside(src@, pat@, i as int) && forall|j: int|
                0 <= j < i ==> !stands_outside(src@, pat@, j),
            None => forall|j: int| !stands_outside(src@, pat@, j),
        },
        match r {
            Some(i) => token_position(src@, pat@) == Some(i as int),
            None => token_position(src@, pat@) is None,
        },
{
    let n = src.len();
    let m = pat.len();
    proof {
        lemma_token_position(src@, pat@);
    }
    if m > n {
        return None;
    }
    let mut depth: i128 = 0;
    let mut end: usize = 0;
    while end < m
        invariant
            end <= m <= n,
            n == src.len(),
            depth == depth_before(src@, end as int),
            -end <= depth <= end,
        decreases m - end,
    {
        depth = step_depth(depth, src[end]);
        end += 1;
    }
    loop
        invariant
            m <= end <= n,
            n == src.len(),
            m == pat.len(),
            depth == depth_before(src@, end as int),
            -end <= depth <= end,
            token_position(src@, pat@) == token_from(src@, pat@, end - m),
        decreases n - end,
    {
        proof {
            lemma_token_position(src@, pat@);
        }
        if depth == 0 && range_is(src, end - m, end, pat) {
            return Some(end - m);
        }
        if end == n {
            assert(token_from(src@, pat@, end - m + 1) is None);
            return None;
        }
        depth = step_depth(depth, src[end]);
        end += 1;
    }
}

/// The number of open parentheses after one more character.
fn step_depth(depth: i128, ch: char) -> (r: i128)
    requires
        -0x1_0000_0000_0000_0000 <= depth <= 0x1_0000_0000_0000_0000,
    ensures
        r == depth + (if ch == '(' {
            1int
        } else if ch == ')' {
            -1int
        } else {
            0int
        }),
{
    if ch == '(' {
        depth + 1
    } else if ch == ')' {
        depth - 1
    } else {
        depth
    }
}

/// Where the parenthesis closes that leaves `depth` parentheses open just
/// before position `pos`.
pub open spec fn closing(src: Seq<char>, pos: int, depth: int) -> Option<int>
    decreases src.len() - pos,
{
    if pos < 0 || pos >= src.len() {
        None
    } else {
        let inner = if src[pos] == '(' {
            depth + 1
        } else if src[pos] == ')' {
            depth - 1
        } else {
            depth
        };
        if inner == 0 {
            Some(pos)
        } else {
            closing(src, pos + 1, inner)
        }
    }
}

/// The text starts with a parenthesis whose matching parenthesis is its last
/// character.
pub open spec fn is_wrapped(src: Seq<char>) -> bool {
    src.len() > 0 && src[0] == '(' && closing(src, 1, 1) == Some(src.len() - 1)
}

/// Tells whether `src` starts with a parenthesis that its last character closes.
pub fn wrapped(src: &[char]) -> (r: bool)
    ensures
        r == is_wrapped(src@),
{
    if src.len() == 0 || src[0] != '(' {
        return false;
    }
    let mut depth: i128 = 1;
    let mut pos: usize = 1;
    while pos < src.len()
        invariant
            1 <= pos <= src.len(),
            1 <= depth <= pos,
            src@[0] == '(',
            closing(src@, 1, 1) == closing(src@, pos as int, depth as int),
        decreases src.len() - pos,
    {
        let ch = src[pos];
        let ghost before = depth as int;
        if ch == '(' {
            depth += 1;
        } else if ch == ')' {
            depth -= 1;
        }
        if depth == 0 {
            assert(closing(src@, pos as int, before) == Some(pos as int));
            return pos == src.len() - 1;
        }
        assert(closing(src@, pos as int, before) == closing(src@, pos + 1, depth as int));
        pos += 1;
    }
    false
}

/// The text of each binary operator.
pub open spec fn token(op: Operator) -> Seq<char> {
    match op {
        Operator::Equal => seq!['=', '='],
        Operator::NotEqual => seq!['!', '='],
        Operator::GreaterOrEqual => seq!['>', '='],
        Operator::SmallerOrEqual => seq!['<', '='],
        Operator::Greater => seq!['>'],
        Operator::Smaller => seq!['<'],
        Operator::And => seq!['&', '&'],
        Operator::Or => seq!['|', '|'],
        Operator::Modulo => seq!['%'],
    }
}

/// The binary operator that is looked for at each level of the grammar, from
/// the one that binds least (level 1) to the one that binds most (level 10).
/// Level 3 is the ternary operator.
pub open spec fn operator_at(level: nat) -> Option<Operator> {
    if level == 1 {
        Some(Operator::And)
    } else if level == 2 {
        Some(Operator::Or)
    } else if level == 4 {
        Some(Operator::GreaterOrEqual)
    } else if level == 5 {
        Some(Operator::Greater)
    } else if level == 6 {
        Some(Operator::SmallerOrEqual)
    } else if level == 7 {
        Some(Operator::Smaller)
    } else if level == 8 {
        Some(Operator::Equal)
    } else if level == 9 {
        Some(Operator::NotEqual)
    } else if level == 10 {
        Some(Operator::Modulo)
    } else {
        None
    }
}

/// The tree of a binary operator whose operands were parsed.
pub open spec fn binary(op: Operator, lhs: Option<Ast>, rhs: Option<Ast>) -> Option<Ast> {
    match (lhs, rhs) {
        (Some(l), Some(r)) => Some(Ast::Op(op, Box::new(l), Box::new(r))),
        _ => None,
    }
}

/// The tree of a ternary operator whose operands were parsed.
pub open spec fn ternary(cond: Option<Ast>, ok: Option<Ast>, nok: Option<Ast>) -> Option<Ast> {
    match (cond, ok, nok) {
        (Some(c), Some(t), Some(e)) => Some(Ast::Ternary(Box::new(c), Box::new(t), Box::new(e))),
        _ => None,
    }
}

/// The tree of a negation whose operand was parsed.
pub open spec fn negation(val: Option<Ast>) -> Option<Ast> {
    match val {
        Some(v) => Some(Ast::Not(Box::new(v))),
        None => None,
    }
}

/// The tree of a text without operators: a decimal literal that fits 64 bits,
/// or the variable `n`.
pub open spec fn leaf(src: Seq<char>) -> Option<Ast> {
    match decimal_up_to(src, u64::MAX as nat) {
        Some(v) => Some(Ast::Integer(v as u64)),
        None => if src == seq!['n'] {
            Some(Ast::N)
        } else {
            None
        },
    }
}

/// The tree that the formula `src` denotes, if it is one.
///
/// White space around the formula is dropped; what is left is read by
/// `parse_from`, from the outermost level of the grammar.
pub open spec fn parse_text(src: Seq<char>) -> Option<Ast>
    decreases src.len(), 15nat,
    via parse_text_decreases
{
    parse_from(trim(src), 0)
}

/// The tree that `src` denotes when read from the given level of the grammar.
///
/// - Level 0: a text wrapped in parentheses denotes what its inside denotes.
/// - Levels 1 to 10, but 3: the text is split at the first place where the
///   level's operator stands outside parentheses; each side is a formula.
/// - Level 3: the text is split at the first `?` and the first `:` that stand
///   outside parentheses, the `?` first; the three parts are formulas.
/// - Level 11: after a leading `!` comes a formula.
/// - Level 12 and beyond: a decimal literal or `n`.
///
/// A level at which nothing is found hands the text to the next one.
pub open spec fn parse_from(src: Seq<char>, level: nat) -> Option<Ast>
    decreases src.len(), 14 - level,
    via parse_from_decreases
{
    let len = src.len() as int;
    if level == 0 {
        if is_wrapped(src) {
            parse_text(src.subrange(1, len - 1))
        } else {
            parse_from(src, 1)
        }
    } else if level == 3 {
        match token_position(src, seq!['?']) {
            Some(i) => match token_position(src, seq![':']) {
                Some(l) => if i < l {
                    ternary(
                        parse_text(src.subrange(0, i)),
                        parse_text(src.subrange(i + 1, l)),
                        parse_text(src.subrange(l + 1, len)),
                    )
                } else {
                    None
                },
                None => None,
            },
            None => parse_from(src, 4),
        }
    } else if level <= 10 {
        let op = operator_at(level)->0;
        match token_position(src, token(op)) {
            Some(i) => binary(
                op,
                parse_text(src.subrange(0, i)),
                parse_text(src.subrange(i + token(op).len(), len)),
            ),
            None => parse_from(src, level + 1),
        }
    } else if level == 11 {
        if token_position(src, seq!['!']) == Some(0int) {
            negation(parse_text(src.subrange(1, len)))
        } else {
            parse_from(src, 12)
        }
    } else {
        leaf(src)
    }
}

#[via_fn]
proof fn parse_text_decreases(src: Seq<char>) {
    lemma_trim_shape(src);
}

#[via_fn]
proof fn parse_from_decreases(src: Seq<char>, level: nat) {
    lemma_token_position_bounds(src, seq!['?']);
    lemma_token_position_bounds(src, seq![':']);
    lemma_token_position_bounds(src, seq!['!']);
    if 1 <= level <= 10 && level != 3 {
        lemma_token_position_bounds(src, token(operator_at(level)->0));
    }
}

/// How the outcome of parsing relates to the tree that the text denotes.
pub open spec fn parsed(r: Result<Ast, Error>, expected: Option<Ast>) -> bool {
    match r {
        Ok(ast) => expected == Some(ast),
        Err(e) => e is PluralParsing && expected is None,
    }
}

impl Ast {
    /// Parses a plural formula.
    pub fn parse(src: &str) -> (r: Result<Ast, Error>)
        ensures
            parsed(r, parse_text(src@)),
    {
        let chars = chars_of(src);
        Ast::parse_chars(chars.as_slice())
    }

    /// Parses a plural formula given as characters.
    pub fn parse_chars(src: &[char]) -> (r: Result<Ast, Error>)
        ensures
            parsed(r, parse_text(src@)),
        decreases src@.len(), 15nat,
    {
        proof {
            lemma_trim_shape(src@);
        }
        Ast::parse_parens(trim_slice(src))
    }

    /// Drops the parentheses around a formula that is wrapped in them.
    fn parse_parens(src: &[char]) -> (r: Result<Ast, Error>)
        ensures
            parsed(r, parse_from(src@, 0)),
        decreases src@.len(), 14nat,
    {
        if wrapped(src) {
            Ast::parse_chars(slice_subrange(src, 1, src.len() - 1))
        } else {
            Ast::parse_and(src)
        }
    }

    /// Parses the two sides of the operator `op`, which stands at `i`.
    fn parse_operands(op: Operator, src: &[char], i: usize, width: usize) -> (r: Result<
        Ast,
        Error,
    >)
        requires
            token_position(src@, token(op)) == Some(i as int),
            width == token(op).len(),
        ensures
            parsed(
                r,
                binary(
                    op,
                    parse_text(src@.subrange(0, i as int)),
                    parse_text(src@.subrange(i + width, src@.len() as int)),
                ),
            ),
        decreases src@.len(), 0nat,
    {
        proof {
            lemma_token_position_bounds(src@, token(op));
        }
        let len = src.len();
        let lhs = match Ast::parse_chars(slice_subrange(src, 0, i)) {
            Ok(ast) => ast,
            Err(e) => {
                return Err(e);
            },
        };
        let rhs = match Ast::parse_chars(slice_subrange(src, i + width, len)) {
            Ok(ast) => ast,
            Err(e) => {
                return Err(e);
            },
        };
        Ok(Ast::Op(op, Box::new(lhs), Box::new(rhs)))
    }

    /// Splits at the first `&&` outside parentheses.
    fn parse_and(src: &[char]) -> (r: Result<Ast, Error>)
        ensures
            parsed(r, parse_from(src@, 1)),
        decreases src@.len(), 13nat,
    {
        let pat = ['&', '&'];
        assert(pat@ =~= token(Operator::And));
        match index_of(src, pat.as_slice()) {
            Some(i) => Ast::parse_operands(Operator::And, src, i, 2),
            None => Ast::parse_or(src),
        }
    }

    /// Splits at the first `||` outside parentheses.
    fn parse_or(src: &[char]) -> (r: Result<Ast, Error>)
        ensures
            parsed(r, parse_from(src@, 2)),
        decreases src@.len(), 12nat,
    {
        let pat = ['|', '|'];
        assert(pat@ =~= token(Operator::Or));
        match index_of(src, pat.as_slice()) {
            Some(i) => Ast::parse_operands(Operator::Or, src, i, 2),
            None => Ast::parse_ternary(src),
        }
    }

    /// Splits at the first `?` and the first `:` outside parentheses.
    fn parse_ternary(src: &[char]) -> (r: Result<Ast, Error>)
        ensures
            parsed(r, parse_from(src@, 3)),
        decreases src@.len(), 11nat,
    {
        let len = src.len();
        let question = ['?'];
        let colon = [':'];
        assert(question@ =~= seq!['?']);
        assert(colon@ =~= seq![':']);
        proof {
            lemma_token_position_bounds(src@, seq!['?']);
            lemma_token_position_bounds(src@, seq![':']);
        }
        match index_of(src, question.as_slice()) {
            Some(i) => match index_of(src, colon.as_slice()) {
                Some(l) => {
                    if i < l {
                        let cond = match Ast::parse_chars(slice_subrange(src, 0, i)) {
                            Ok(ast) => ast,
                            Err(e) => { return Err(e); },
                        };
                        let ok = match Ast::parse_chars(slice_subrange(src, i + 1, l)) {
                            Ok(ast) => ast,
                            Err(e) => { return Err(e); },
                        };
                        let nok = match Ast::parse_chars(slice_subrange(src, l + 1, len)) {
                            Ok(ast) => ast,
                            Err(e) => { return Err(e); },
                        };
                        Ok(Ast::Ternary(Box::new(cond), Box::new(ok), Box::new(nok)))
                    } else {
                        Err(Error::PluralParsing)
                    }
                },
                None => Err(Error::PluralParsing),
            },
            None => Ast::parse_ge(src),
        }
    }

    /// Splits at the first `>=` outside parentheses.
    fn parse_ge(src: &[char]) -> (r: Result<Ast, Error>)
        ensures
            parsed(r, parse_from(src@, 4)),
        decreases src@.len(), 10nat,
    {
        let pat = ['>', '='];
        assert(pat@ =~= token(Operator::GreaterOrEqual));
        match index_of(src, pat.as_slice()) {
            Some(i) => Ast::parse_operands(Operator::GreaterOrEqual, src, i, 2),
            None => Ast::parse_gt(src),
        }
    }

    /// Splits at the first `>` outside parentheses.
    fn parse_gt(src: &[char]) -> (r: Result<Ast, Error>)
        ensures
            parsed(r, parse_from(src@, 5)),
        decreases src@.len(), 9nat,
    {
        let pat = ['>'];
        assert(pat@ =~= token(Operator::Greater));
        match index_of(src, pat.as_slice()) {
            Some(i) => Ast::parse_operands(Operator::Greater, src, i, 1),
            None => Ast::parse_le(src),
        }
    }

    /// Splits at the first `<=` outside parentheses.
    fn parse_le(src: &[char]) -> (r: Result<Ast, Error>)
        ensures
            parsed(r, parse_from(src@, 6)),
        decreases src@.len(), 8nat,
    {
        let pat = ['<', '='];
        assert(pat@ =~= token(Operator::SmallerOrEqual));
        match index_of(src, pat.as_slice()) {
            Some(i) => Ast::parse_operands(Operator::SmallerOrEqual, src, i, 2),
            None => Ast::parse_lt(src),
        }
    }

    /// Splits at the first `<` outside parentheses.
    fn parse_lt(src: &[char]) -> (r: Result<Ast, Error>)
        ensures
            parsed(r, parse_from(src@, 7)),
        decreases src@.len(), 7nat,
    {
        let pat = ['<'];
        assert(pat@ =~= token(Operator::Smaller));
        match index_of(src, pat.as_slice()) {
            Some(i) => Ast::parse_operands(Operator::Smaller, src, i, 1),
            None => Ast::parse_eq(src),
        }
    }

    /// Splits at the first `==` outside parentheses.
    fn parse_eq(src: &[char]) -> (r: Result<Ast, Error>)
        ensures
            parsed(r, parse_from(src@, 8)),
        decreases src@.len(), 6nat,
    {
        let pat = ['=', '='];
        assert(pat@ =~= token(Operator::Equal));
        match index_of(src, pat.as_slice()) {
            Some(i) => Ast::parse_operands(Operator::Equal, src, i, 2),
            None => Ast::parse_neq(src),
        }
    }

    /// Splits at the first `!=` outside parentheses.
    fn parse_neq(src: &[char]) -> (r: Result<Ast, Error>)
        ensures
            parsed(r, parse_from(src@, 9)),
        decreases src@.len(), 5nat,
    {
        let pat = ['!', '='];
        assert(pat@ =~= token(Operator::NotEqual));
        match index_of(src, pat.as_slice()) {
            Some(i) => Ast::parse_operands(Operator::NotEqual, src, i, 2),
            None => Ast::parse_mod(src),
        }
    }

    /// Splits at the first `%` outside parentheses.
    fn parse_mod(src: &[char]) -> (r: Result<Ast, Error>)
        ensures
            parsed(r, parse_from(src@, 10)),
        decreases src@.len(), 4nat,
    {
        let pat = ['%'];
        assert(pat@ =~= token(Operator::Modulo));
        match index_of(src, pat.as_slice()) {
            Some(i) => Ast::parse_operands(Operator::Modulo, src, i, 1),
            None => Ast::parse_not(src),
        }
    }

    /// Reads a leading `!`.
    fn parse_not(src: &[char]) -> (r: Result<Ast, Error>)
        ensures
            parsed(r, parse_from(src@, 11)),
        decreases src@.len(), 3nat,
    {
        let pat = ['!'];
        assert(pat@ =~= seq!['!']);
        let leading = match index_of(src, pat.as_slice()) {
            Some(i) => i == 0,
            None => false,
        };
        if leading {
            proof {
                lemma_token_position_bounds(src@, seq!['!']);
            }
            match Ast::parse_chars(slice_subrange(src, 1, src.len())) {
                Ok(ast) => Ok(Ast::Not(Box::new(ast))),
                Err(e) => Err(e),
            }
        } else {
            Ast::parse_int(src)
        }
    }

    /// Reads a decimal literal.
    fn parse_int(src: &[char]) -> (r: Result<Ast, Error>)
        ensures
            parsed(r, parse_from(src@, 12)),
    {
        match parse_decimal(src, u64::MAX) {
            Some(x) => Ok(Ast::Integer(x)),
            None => Ast::parse_n(src),
        }
    }

    /// Reads the variable `n`.
    fn parse_n(src: &[char]) -> (r: Result<Ast, Error>)
        ensures
            parsed(
                r,
                if src@ == seq!['n'] {
                    Some(Ast::N)
                } else {
                    None
                },
            ),
    {
        if src.len() == 1 && src[0] == 'n' {
            assert(src@ =~= seq!['n']);
            Ok(Ast::N)
        } else {
            Err(Error::PluralParsing)
        }
    }
}

/// A rule that picks the plural form for a count, supplied by the caller.
///
/// A form that a message does not have makes the catalog fall back on the
/// untranslated text, so a rule may answer any number.
pub trait PluralRule: Send + Sync {
    /// Whether `form` is a form that the rule may pick for `n` objects. A
    /// rule that tells nothing of itself may pick any form.
    open spec fn answers(&self, n: i64, form: usize) -> bool {
        true
    }

    /// The number of the plural form to use for `n` objects.
    fn form(&self, n: i64) -> (r: usize)
        ensures
            self.answers(n, r),
    ;
}

/// The rule of English and similar languages: the plural is used for every
/// count but 1. It is the rule type of a catalog for which the caller has
/// supplied none.
#[derive(Clone, Copy, Debug)]
pub struct English;

impl PluralRule for English {
    /// The form of the default rule.
    open spec fn answers(&self, n: i64, form: usize) -> bool {
        form == default_form(n)
    }

    fn form(&self, n: i64) -> (r: usize) {
        default_resolver(n)
    }
}

/// A function or closure used as a plural rule.
pub struct FnRule<F: Fn(i64) -> usize> {
    f: F,
}

impl<F: Fn(i64) -> usize> FnRule<F> {
    #[verifier::type_invariant]
    spec fn accepts_every_count(self) -> bool {
        forall|n: i64| call_requires(self.f, (n,))
    }

    /// The function that the rule calls.
    pub closed spec fn function(self) -> F {
        self.f
    }

    /// Wraps a function that can be called with every count.
    pub fn new(f: F) -> (r: Self)
        requires
            forall|n: i64| call_requires(f, (n,)),
        ensures
            r.function() == f,
    {
        FnRule { f }
    }

    /// Calls the function with `n`.
    pub fn call(&self, n: i64) -> (r: usize)
        ensures
            call_ensures(self.function(), (n,), r),
    {
        proof {
            use_type_invariant(self);
        }
        (self.f)(n)
    }
}

impl<F: Fn(i64) -> usize + Copy> Clone for FnRule<F> {
    /// A rule that calls the same function.
    fn clone(&self) -> (r: Self)
        ensures
            r.function() == self.function(),
    {
        proof {
            use_type_invariant(self);
        }
        FnRule { f: self.f }
    }
}

impl<F: Fn(i64) -> usize + Send + Sync> PluralRule for FnRule<F> {
    /// The forms that the function may return for `n`.
    open spec fn answers(&self, n: i64, form: usize) -> bool {
        call_ensures(self.function(), (n,), form)
    }

    fn form(&self, n: i64) -> (r: usize) {
        self.call(n)
    }
}

/// The rule that a catalog uses to pick a plural form.
#[derive(Debug)]
pub enum Resolver<R: PluralRule = English> {
    /// A plural formula; `Ast::parse` makes one.
    Expr(Ast),
    /// A rule supplied by the caller.
    Function(R),
}

/// The form number for a value of a formula: the value itself, and the
/// largest number there is for a value too large to be a form number.
pub open spec fn form_index(value: nat) -> usize {
    if value > usize::MAX {
        usize::MAX
    } else {
        value as usize
    }
}

/// The formula `n != 1`, the rule of English and of a catalog that names none.
pub open spec fn default_formula() -> Ast {
    Ast::Op(Operator::NotEqual, Box::new(Ast::N), Box::new(Ast::Integer(1)))
}

/// The form that the rule of English picks: 0 for one object, 1 otherwise.
pub open spec fn default_form(n: i64) -> usize {
    if n == 1 {
        0
    } else {
        1
    }
}

/// The default formula picks the forms of the default rule.
pub proof fn lemma_default_formula(n: i64)
    ensures
        form_index(default_formula().eval(count_of(n))) == default_form(n),
{
    reveal_with_fuel(Ast::eval, 2);
}

impl<F: Fn(i64) -> usize + Send + Sync> Resolver<FnRule<F>> {
    /// The rule that calls `f`: for `n` objects it picks what `f` returns.
    pub fn from_fn(f: F) -> (r: Self)
        requires
            forall|n: i64| call_requires(f, (n,)),
        ensures
            r matches Resolver::Function(rule) && rule.function() == f,
            forall|n: i64, form: usize| #[trigger]
                r.picks(n, form) <==> call_ensures(f, (n,), form),
    {
        Resolver::Function(FnRule::new(f))
    }
}

impl<R: PluralRule + Clone> Clone for Resolver<R> {
    /// A copy of the rule: the same formula, or a copy of the caller's rule.
    fn clone(&self) -> (r: Self)
        ensures
            match *self {
                Resolver::Expr(ast) => r == Resolver::<R>::Expr(ast),
                Resolver::Function(rule) => r matches Resolver::Function(copy) && cloned(
                    rule,
                    copy,
                ),
            },
    {
        match self {
            Resolver::Expr(ast) => Resolver::Expr(ast.clone()),
            Resolver::Function(rule) => Resolver::Function(rule.clone()),
        }
    }
}

impl Resolver<English> {
    /// The rule of a catalog that names none: `n != 1`.
    pub fn default_rule() -> (r: Self)
        ensures
            r == Resolver::<English>::Expr(default_formula()),
    {
        Resolver::Expr(default_ast())
    }
}

impl<R: PluralRule> Resolver<R> {
    /// Whether `form` is a form that the rule may pick for `n` objects: for
    /// a formula its value, for a rule supplied by the caller what that rule
    /// answers.
    pub open spec fn picks(self, n: i64, form: usize) -> bool {
        match self {
            Resolver::Expr(ast) => form == form_index(ast.eval(count_of(n))),
            Resolver::Function(rule) => rule.answers(n, form),
        }
    }

    /// Returns the number of the plural form to use for `n` objects.
    pub fn resolve(&self, n: i64) -> (r: usize)
        ensures
            self.picks(n, r),
    {
        match self {
            Resolver::Expr(ast) => {
                let value = ast.resolve(count(n));
                if value > usize::MAX as u64 {
                    usize::MAX
                } else {
                    value as usize
                }
            },
            Resolver::Function(rule) => rule.form(n),
        }
    }
}

/// Builds the formula `n != 1`.
pub fn default_ast() -> (r: Ast)
    ensures
        r == default_formula(),
{
    Ast::Op(Operator::NotEqual, Box::new(Ast::N), Box::new(Ast::Integer(1)))
}

/// The default plural rule, that of English and similar languages: the
/// plural is used for every count but 1.
pub fn default_resolver(n: i64) -> (r: usize)
    ensures
        r == default_form(n),
{
    if n == 1 {
        0
    } else {
        1
    }
}

/// A formula in parentheses denotes what the formula denotes, provided that
/// the closing parenthesis matches the opening one.
pub proof fn lemma_parentheses_change_nothing(inner: Seq<char>)
    requires
        is_wrapped(seq!['('] + inner + seq![')']),
    ensures
        parse_text(seq!['('] + inner + seq![')']) == parse_text(inner),
{
    let outer = seq!['('] + inner + seq![')'];
    assert(outer[0] == '(');
    assert(outer.last() == ')');
    lemma_trim_of_trimmed(outer);
    assert(outer.subrange(1, outer.len() - 1) =~= inner);
}

} // verus!
