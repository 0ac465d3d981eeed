//! Parses and evaluates gettext `Plural-Forms` header expressions.
//!
//! A `.mo` catalog's header entry carries a line like
//! `Plural-Forms: nplurals=3; plural=(n%10==1 && n%100!=11) ? 0 : ((n%10>=2 && n%10<=4 && (n%100<10 || n%100>=20)) ? 1 : 2);`
//! The `plural` part is a small C conditional-expression language with one free variable,
//! `n`. It is tokenized and parsed once per catalog, then evaluated for each count.
use vstd::prelude::*;

use crate::po::{digits_value, leading_digits};
use crate::text::{
    ascii_white_space, chars_of, digit, find, find_exec, has_prefix, is_ascii_white_space,
    is_digit, lines_of, skip, slice_of, split_lines, starts_with, trim_start, trim_start_vec,
    without_prefix,
};

verus! {

#[derive(PartialEq, Eq, Structural, Clone, Copy)]
pub enum Token {
    Num(i64),
    N,
    Question,
    Colon,
    OrOr,
    AndAnd,
    EqEq,
    Ne,
    Le,
    Ge,
    Lt,
    Gt,
    Plus,
    Minus,
    Star,
    Slash,
    Percent,
    Bang,
    LParen,
    RParen,
}

#[derive(PartialEq, Eq, Structural, Clone, Copy)]
pub enum BinOp {
    Or,
    And,
    Eq,
    Ne,
    Lt,
    Le,
    Gt,
    Ge,
    Add,
    Sub,
    Mul,
    Div,
    Mod,
}

pub enum Expr {
    N,
    Num(i64),
    Not(Box<Expr>),
    Neg(Box<Expr>),
    Bin(BinOp, Box<Expr>, Box<Expr>),
    Ternary(Box<Expr>, Box<Expr>, Box<Expr>),
}

pub open spec fn cons(t: Token, rest: Option<Seq<Token>>) -> Option<Seq<Token>> {
    match rest {
        Some(r) => Some(seq![t] + r),
        None => None,
    }
}

/// How many digits start at `i`.
pub open spec fn digit_run(s: Seq<char>, i: int) -> nat
    decreases s.len() - i,
{
    if 0 <= i < s.len() && is_digit(s[i]) {
        1 + digit_run(s, i + 1)
    } else {
        0
    }
}

pub proof fn lemma_digit_run(s: Seq<char>, i: int)
    requires
        0 <= i <= s.len(),
    ensures
        i + digit_run(s, i) <= s.len(),
        forall|k: int| i <= k < i + digit_run(s, i) ==> is_digit(#[trigger] s[k]),
    decreases s.len() - i,
{
    if i < s.len() && is_digit(s[i]) {
        lemma_digit_run(s, i + 1);
    }
}

/// The single-character token `c` stands for, when it stands for one on its own.
pub open spec fn single_token(c: char) -> Option<Token> {
    if c == 'n' {
        Some(Token::N)
    } else if c == '?' {
        Some(Token::Question)
    } else if c == ':' {
        Some(Token::Colon)
    } else if c == '(' {
        Some(Token::LParen)
    } else if c == ')' {
        Some(Token::RParen)
    } else if c == '+' {
        Some(Token::Plus)
    } else if c == '-' {
        Some(Token::Minus)
    } else if c == '*' {
        Some(Token::Star)
    } else if c == '/' {
        Some(Token::Slash)
    } else if c == '%' {
        Some(Token::Percent)
    } else {
        None
    }
}

/// The token `c` starts when followed by `next` (a two-character operator wins), and how
/// many characters it takes; `None` when `c` starts no token.
pub open spec fn op_token(c: char, next: Option<char>) -> Option<(Token, nat)> {
    if c == '!' {
        if next == Some('=') {
            Some((Token::Ne, 2))
        } else {
            Some((Token::Bang, 1))
        }
    } else if c == '=' && next == Some('=') {
        Some((Token::EqEq, 2))
    } else if c == '<' {
        if next == Some('=') {
            Some((Token::Le, 2))
        } else {
            Some((Token::Lt, 1))
        }
    } else if c == '>' {
        if next == Some('=') {
            Some((Token::Ge, 2))
        } else {
            Some((Token::Gt, 1))
        }
    } else if c == '&' && next == Some('&') {
        Some((Token::AndAnd, 2))
    } else if c == '|' && next == Some('|') {
        Some((Token::OrOr, 2))
    } else {
        match single_token(c) {
            Some(t) => Some((t, 1)),
            None => None,
        }
    }
}

pub open spec fn next_char(s: Seq<char>, i: int) -> Option<char> {
    if i + 1 < s.len() {
        Some(s[i + 1])
    } else {
        None
    }
}

/// The tokens of `s` from `i` on; `None` at any character that starts no token, or at a
/// number too large for an `i64`. Only ASCII characters start tokens.
pub open spec fn tokens_from(s: Seq<char>, i: int) -> Option<Seq<Token>>
    decreases s.len() - i,
{
    if i < 0 || i >= s.len() {
        Some(seq![])
    } else if is_ascii_white_space(s[i]) {
        tokens_from(s, i + 1)
    } else if is_digit(s[i]) {
        proof {
            lemma_digit_run(s, i);
        }
        let len = digit_run(s, i);
        let v = digits_value(s.subrange(i, i + len));
        if v > i64::MAX {
            None
        } else {
            cons(Token::Num(v as i64), tokens_from(s, i + len))
        }
    } else {
        match op_token(s[i], next_char(s, i)) {
            Some((t, len)) => cons(t, tokens_from(s, i + len)),
            None => None,
        }
    }
}

/// The operator a token stands for at a binary precedence level: 1 `||`, 2 `&&`,
/// 3 equality, 4 relational, 5 additive, 6 multiplicative.
pub open spec fn level_op(level: nat, t: Token) -> Option<BinOp> {
    if level == 1 && t == Token::OrOr {
        Some(BinOp::Or)
    } else if level == 2 && t == Token::AndAnd {
        Some(BinOp::And)
    } else if level == 3 && t == Token::EqEq {
        Some(BinOp::Eq)
    } else if level == 3 && t == Token::Ne {
        Some(BinOp::Ne)
    } else if level == 4 && t == Token::Lt {
        Some(BinOp::Lt)
    } else if level == 4 && t == Token::Le {
        Some(BinOp::Le)
    } else if level == 4 && t == Token::Gt {
        Some(BinOp::Gt)
    } else if level == 4 && t == Token::Ge {
        Some(BinOp::Ge)
    } else if level == 5 && t == Token::Plus {
        Some(BinOp::Add)
    } else if level == 5 && t == Token::Minus {
        Some(BinOp::Sub)
    } else if level == 6 && t == Token::Star {
        Some(BinOp::Mul)
    } else if level == 6 && t == Token::Slash {
        Some(BinOp::Div)
    } else if level == 6 && t == Token::Percent {
        Some(BinOp::Mod)
    } else {
        None
    }
}

pub open spec fn tok_is(t: Seq<Token>, p: int, k: Token) -> bool {
    0 <= p < t.len() && t[p] == k
}

pub open spec fn level_rank(level: nat) -> int {
    if level >= 7 {
        15
    } else {
        10 * (8 - level) + 5
    }
}

/// `cond ? then : else`, right-associative and lowest in precedence, as in C.
pub open spec fn p_ternary(t: Seq<Token>, pos: int) -> Option<(Expr, int)>
    decreases t.len() - pos, 100int,
{
    match p_level(t, pos, 1) {
        None => None,
        Some((c, p1)) => if !(pos <= p1 <= t.len()) {
            None
        } else if tok_is(t, p1, Token::Question) {
            match p_ternary(t, p1 + 1) {
                None => None,
                Some((a, p2)) => if !(p1 + 1 <= p2 <= t.len()) {
                    None
                } else if tok_is(t, p2, Token::Colon) {
                    match p_ternary(t, p2 + 1) {
                        None => None,
                        Some((b, p3)) => Some(
                            (Expr::Ternary(Box::new(c), Box::new(a), Box::new(b)), p3),
                        ),
                    }
                } else {
                    None
                },
            }
        } else {
            Some((c, p1))
        },
    }
}

/// A left-associative chain of the operators of `level` (unary below level 6).
pub open spec fn p_level(t: Seq<Token>, pos: int, level: nat) -> Option<(Expr, int)>
    decreases t.len() - pos, level_rank(level),
{
    if level >= 7 {
        p_unary(t, pos)
    } else {
        match p_level(t, pos, level + 1) {
            None => None,
            Some((l, p1)) => if pos <= p1 <= t.len() {
                p_rest(t, p1, level, l)
            } else {
                None
            },
        }
    }
}

/// The rest of a chain at `level` after its left operand `lhs`.
pub open spec fn p_rest(t: Seq<Token>, pos: int, level: nat, lhs: Expr) -> Option<(Expr, int)>
    decreases t.len() - pos, level_rank(level) - 1,
{
    if 0 <= pos < t.len() && level < 7 && level_op(level, t[pos]) is Some {
        match p_level(t, pos + 1, level + 1) {
            None => None,
            Some((r, p2)) => if pos + 1 <= p2 <= t.len() {
                p_rest(
                    t,
                    p2,
                    level,
                    Expr::Bin(level_op(level, t[pos])->0, Box::new(lhs), Box::new(r)),
                )
            } else {
                None
            },
        }
    } else {
        Some((lhs, pos))
    }
}

/// `!e`, `-e`, or a primary expression.
pub open spec fn p_unary(t: Seq<Token>, pos: int) -> Option<(Expr, int)>
    decreases t.len() - pos, 10int,
{
    if tok_is(t, pos, Token::Bang) {
        match p_unary(t, pos + 1) {
            Some((e, p)) => Some((Expr::Not(Box::new(e)), p)),
            None => None,
        }
    } else if tok_is(t, pos, Token::Minus) {
        match p_unary(t, pos + 1) {
            Some((e, p)) => Some((Expr::Neg(Box::new(e)), p)),
            None => None,
        }
    } else {
        p_primary(t, pos)
    }
}

/// A number, `n`, or a parenthesized expression.
pub open spec fn p_primary(t: Seq<Token>, pos: int) -> Option<(Expr, int)>
    decreases t.len() - pos, 5int,
{
    if pos < 0 || pos >= t.len() {
        None
    } else {
        match t[pos] {
            Token::Num(v) => Some((Expr::Num(v), pos + 1)),
            Token::N => Some((Expr::N, pos + 1)),
            Token::LParen => match p_ternary(t, pos + 1) {
                None => None,
                Some((e, p)) => if tok_is(t, p, Token::RParen) {
                    Some((e, p + 1))
                } else {
                    None
                },
            },
            _ => None,
        }
    }
}

/// The expression `s` spells, when its tokens form exactly one expression.
pub open spec fn parse_expr_spec(s: Seq<char>) -> Option<Expr> {
    match tokens_from(s, 0) {
        None => None,
        Some(t) => match p_ternary(t, 0) {
            Some((e, p)) => if p == t.len() {
                Some(e)
            } else {
                None
            },
            None => None,
        },
    }
}

pub open spec fn truth(b: bool) -> i64 {
    if b {
        1
    } else {
        0
    }
}

/// The value of a binary operation with C semantics: comparisons and logical operators
/// yield 0/1, division and remainder by zero yield 0; `None` on `i64` overflow.
pub open spec fn apply_op(op: BinOp, l: i64, r: i64) -> Option<i64> {
    match op {
        BinOp::Or => Some(truth(l != 0 || r != 0)),
        BinOp::And => Some(truth(l != 0 && r != 0)),
        BinOp::Eq => Some(truth(l == r)),
        BinOp::Ne => Some(truth(l != r)),
        BinOp::Lt => Some(truth(l < r)),
        BinOp::Le => Some(truth(l <= r)),
        BinOp::Gt => Some(truth(l > r)),
        BinOp::Ge => Some(truth(l >= r)),
        BinOp::Add => l.checked_add(r),
        BinOp::Sub => l.checked_sub(r),
        BinOp::Mul => l.checked_mul(r),
        BinOp::Div => if r == 0 {
            Some(0)
        } else {
            l.checked_div(r)
        },
        BinOp::Mod => if r == 0 {
            Some(0)
        } else {
            l.checked_rem(r)
        },
    }
}

/// The value of `e` at `n`; both sides of `&&`/`||` are evaluated, only the chosen branch of
/// `?:`. `None` where the arithmetic overflows an `i64`.
pub open spec fn eval_spec(e: Expr, n: i64) -> Option<i64>
    decreases e,
{
    match e {
        Expr::Num(v) => Some(v),
        Expr::N => Some(n),
        Expr::Not(x) => match eval_spec(*x, n) {
            Some(v) => Some(truth(v == 0)),
            None => None,
        },
        Expr::Neg(x) => match eval_spec(*x, n) {
            Some(v) => (0i64).checked_sub(v),
            None => None,
        },
        Expr::Ternary(c, a, b) => match eval_spec(*c, n) {
            Some(cv) => if cv != 0 {
                eval_spec(*a, n)
            } else {
                eval_spec(*b, n)
            },
            None => None,
        },
        Expr::Bin(op, l, r) => match (eval_spec(*l, n), eval_spec(*r, n)) {
            (Some(lv), Some(rv)) => apply_op(op, lv, rv),
            _ => None,
        },
    }
}

/// Reads the run of digits at `start`: its value when it fits an `i64`, and where it ends.
fn read_number(s: &[char], start: usize) -> (r: (Option<i64>, usize))
    requires
        start < s.len(),
        is_digit(s@[start as int]),
    ensures
        r.1 == start + digit_run(s@, start as int),
        start < r.1 <= s.len(),
        r.0 matches Some(v) ==> v as int == digits_value(s@.subrange(start as int, r.1 as int)),
        r.0 is None <==> digits_value(s@.subrange(start as int, r.1 as int)) > i64::MAX,
{
    let n = s.len();
    let mut i = start;
    proof {
        lemma_digit_run(s@, start as int);
    }
    while i < n && digit(s[i])
        invariant
            start <= i <= n,
            n == s.len(),
            digit_run(s@, start as int) == (i - start) + digit_run(s@, i as int),
            forall|k: int| start <= k < i ==> is_digit(#[trigger] s@[k]),
        decreases n - i,
    {
        i = i + 1;
    }
    assert(digit_run(s@, i as int) == 0);
    assert(i == start + digit_run(s@, start as int));
    assert(i > start) by {
        assert(digit_run(s@, start as int) >= 1);
    }
    let ghost ds = s@.subrange(start as int, i as int);
    let mut v: i64 = 0;
    let mut k = start;
    assert(ds.take(0) =~= Seq::<char>::empty());
    while k < i
        invariant
            start <= k <= i <= n,
            start < i,
            i == start + digit_run(s@, start as int),
            n == s.len(),
            ds == s@.subrange(start as int, i as int),
            forall|m: int| start <= m < i ==> is_digit(#[trigger] s@[m]),
            v as int == digits_value(ds.take(k - start)),
            v >= 0,
        decreases i - k,
    {
        assert(ds.take(k + 1 - start).drop_last() =~= ds.take(k - start));
        assert(ds.take(k + 1 - start).last() == s@[k as int]);
        assert(is_digit(s@[k as int]));
        let d = (s[k] as u32 - '0' as u32) as i64;
        assert(digits_value(ds.take(k + 1 - start)) == v * 10 + d);
        match v.checked_mul(10) {
            Some(m) => match m.checked_add(d) {
                Some(x) => {
                    v = x;
                },
                None => {
                    proof {
                        crate::po::lemma_digits_value_prefix(ds, k + 1 - start);
                    }
                    return (None, i);
                },
            },
            None => {
                proof {
                    crate::po::lemma_digits_value_prefix(ds, k + 1 - start);
                }
                return (None, i);
            },
        }
        k = k + 1;
    }
    assert(ds.take(k - start) =~= ds);
    (Some(v), i)
}

fn tokenize_chars(s: &[char]) -> (r: Option<Vec<Token>>)
    ensures
        (match r {
            Some(v) => Some(v@),
            None => None::<Seq<Token>>,
        }) == tokens_from(s@, 0),
{
    let n = s.len();
    let mut i: usize = 0;
    let mut toks: Vec<Token> = Vec::new();
    while i < n
        invariant
            i <= n,
            n == s.len(),
            tokens_from(s@, 0) == (match tokens_from(s@, i as int) {
                Some(r) => Some(toks@ + r),
                None => None::<Seq<Token>>,
            }),
        decreases n - i,
    {
        let c = s[i];
        if ascii_white_space(c) {
            i = i + 1;
            continue;
        }
        if digit(c) {
            let (v, end) = read_number(s, i);
            match v {
                Some(v) => {
                    let ghost before = toks@;
                    toks.push(Token::Num(v));
                    assert(toks@ =~= before + seq![Token::Num(v)]);
                },
                None => {
                    return None;
                },
            }
            i = end;
            continue;
        }
        let has_next = i + 1 < n;
        let next_eq = has_next && s[i + 1] == '=';
        let tok: Token;
        let mut len: usize = 1;
        if c == '!' {
            if next_eq {
                tok = Token::Ne;
                len = 2;
            } else {
                tok = Token::Bang;
            }
        } else if c == '=' && next_eq {
            tok = Token::EqEq;
            len = 2;
        } else if c == '<' {
            if next_eq {
                tok = Token::Le;
                len = 2;
            } else {
                tok = Token::Lt;
            }
        } else if c == '>' {
            if next_eq {
                tok = Token::Ge;
                len = 2;
            } else {
                tok = Token::Gt;
            }
        } else if c == '&' && has_next && s[i + 1] == '&' {
            tok = Token::AndAnd;
            len = 2;
        } else if c == '|' && has_next && s[i + 1] == '|' {
            tok = Token::OrOr;
            len = 2;
        } else if c == 'n' {
            tok = Token::N;
        } else if c == '?' {
            tok = Token::Question;
        } else if c == ':' {
            tok = Token::Colon;
        } else if c == '(' {
            tok = Token::LParen;
        } else if c == ')' {
            tok = Token::RParen;
        } else if c == '+' {
            tok = Token::Plus;
        } else if c == '-' {
            tok = Token::Minus;
        } else if c == '*' {
            tok = Token::Star;
        } else if c == '/' {
            tok = Token::Slash;
        } else if c == '%' {
            tok = Token::Percent;
        } else {
            return None;
        }
        assert(op_token(c, next_char(s@, i as int)) == Some((tok, len as nat)));
        let ghost before = toks@;
        toks.push(tok);
        assert(toks@ =~= before + seq![tok]);
        i = i + len;
    }
    assert(tokens_from(s@, i as int) == Some(Seq::<Token>::empty()));
    assert(toks@ + Seq::<Token>::empty() =~= toks@);
    Some(toks)
}

fn level_op_exec(level: usize, t: Token) -> (r: Option<BinOp>)
    ensures
        r == level_op(level as nat, t),
{
    if level == 1 && t == Token::OrOr {
        Some(BinOp::Or)
    } else if level == 2 && t == Token::AndAnd {
        Some(BinOp::And)
    } else if level == 3 && t == Token::EqEq {
        Some(BinOp::Eq)
    } else if level == 3 && t == Token::Ne {
        Some(BinOp::Ne)
    } else if level == 4 && t == Token::Lt {
        Some(BinOp::Lt)
    } else if level == 4 && t == Token::Le {
        Some(BinOp::Le)
    } else if level == 4 && t == Token::Gt {
        Some(BinOp::Gt)
    } else if level == 4 && t == Token::Ge {
        Some(BinOp::Ge)
    } else if level == 5 && t == Token::Plus {
        Some(BinOp::Add)
    } else if level == 5 && t == Token::Minus {
        Some(BinOp::Sub)
    } else if level == 6 && t == Token::Star {
        Some(BinOp::Mul)
    } else if level == 6 && t == Token::Slash {
        Some(BinOp::Div)
    } else if level == 6 && t == Token::Percent {
        Some(BinOp::Mod)
    } else {
        None
    }
}

fn eat(t: &Vec<Token>, pos: usize, k: Token) -> (r: bool)
    ensures
        r == tok_is(t@, pos as int, k),
{
    pos < t.len() && t[pos] == k
}

/// Parses `cond ? then : else` at `pos`.
fn ternary(t: &Vec<Token>, pos: usize) -> (r: Option<(Expr, usize)>)
    requires
        pos <= t.len(),
    ensures
        (match r {
            Some((e, p)) => Some((e, p as int)),
            None => None::<(Expr, int)>,
        }) == p_ternary(t@, pos as int),
        r matches Some((e, p)) ==> pos <= p <= t.len(),
    decreases t@.len() - pos, 100int,
{
    let (c, p1) = match chain(t, pos, 1) {
        Some(x) => x,
        None => {
            return None;
        },
    };
    if eat(t, p1, Token::Question) {
        let (a, p2) = match ternary(t, p1 + 1) {
            Some(x) => x,
            None => {
                return None;
            },
        };
        if !eat(t, p2, Token::Colon) {
            return None;
        }
        let (b, p3) = match ternary(t, p2 + 1) {
            Some(x) => x,
            None => {
                return None;
            },
        };
        Some((Expr::Ternary(Box::new(c), Box::new(a), Box::new(b)), p3))
    } else {
        Some((c, p1))
    }
}

/// Parses a left-associative chain of the operators of `level` at `pos`.
fn chain(t: &Vec<Token>, pos: usize, level: usize) -> (r: Option<(Expr, usize)>)
    requires
        pos <= t.len(),
        1 <= level <= 7,
    ensures
        (match r {
            Some((e, p)) => Some((e, p as int)),
            None => None::<(Expr, int)>,
        }) == p_level(t@, pos as int, level as nat),
        r matches Some((e, p)) ==> pos <= p <= t.len(),
    decreases t@.len() - pos, level_rank(level as nat),
{
    if level >= 7 {
        return unary(t, pos);
    }
    let (l, p1) = match chain(t, pos, level + 1) {
        Some(x) => x,
        None => {
            return None;
        },
    };
    rest(t, p1, level, l)
}

/// Parses the rest of a chain at `level` after its left operand `lhs`.
fn rest(t: &Vec<Token>, pos: usize, level: usize, lhs: Expr) -> (r: Option<(Expr, usize)>)
    requires
        pos <= t.len(),
        1 <= level <= 6,
    ensures
        (match r {
            Some((e, p)) => Some((e, p as int)),
            None => None::<(Expr, int)>,
        }) == p_rest(t@, pos as int, level as nat, lhs),
        r matches Some((e, p)) ==> pos <= p <= t.len(),
    decreases t@.len() - pos, level_rank(level as nat) - 1,
{
    if pos < t.len() {
        match level_op_exec(level, t[pos]) {
            Some(op) => {
                let (r, p2) = match chain(t, pos + 1, level + 1) {
                    Some(x) => x,
                    None => {
                        return None;
                    },
                };
                return rest(t, p2, level, Expr::Bin(op, Box::new(lhs), Box::new(r)));
            },
            None => {},
        }
    }
    Some((lhs, pos))
}

/// Parses `!e`, `-e` or a primary expression at `pos`.
fn unary(t: &Vec<Token>, pos: usize) -> (r: Option<(Expr, usize)>)
    requires
        pos <= t.len(),
    ensures
        (match r {
            Some((e, p)) => Some((e, p as int)),
            None => None::<(Expr, int)>,
        }) == p_unary(t@, pos as int),
        r matches Some((e, p)) ==> pos <= p <= t.len(),
    decreases t@.len() - pos, 10int,
{
    if eat(t, pos, Token::Bang) {
        return match unary(t, pos + 1) {
            Some((e, p)) => Some((Expr::Not(Box::new(e)), p)),
            None => None,
        };
    }
    if eat(t, pos, Token::Minus) {
        return match unary(t, pos + 1) {
            Some((e, p)) => Some((Expr::Neg(Box::new(e)), p)),
            None => None,
        };
    }
    primary(t, pos)
}

/// Parses a number, `n`, or a parenthesized expression at `pos`.
fn primary(t: &Vec<Token>, pos: usize) -> (r: Option<(Expr, usize)>)
    requires
        pos <= t.len(),
    ensures
        (match r {
            Some((e, p)) => Some((e, p as int)),
            None => None::<(Expr, int)>,
        }) == p_primary(t@, pos as int),
        r matches Some((e, p)) ==> pos <= p <= t.len(),
    decreases t@.len() - pos, 5int,
{
    if pos >= t.len() {
        return None;
    }
    match t[pos] {
        Token::Num(v) => Some((Expr::Num(v), pos + 1)),
        Token::N => Some((Expr::N, pos + 1)),
        Token::LParen => {
            let (e, p) = match ternary(t, pos + 1) {
                Some(x) => x,
                None => {
                    return None;
                },
            };
            if !eat(t, p, Token::RParen) {
                return None;
            }
            Some((e, p + 1))
        },
        _ => None,
    }
}

fn parse_expr(s: &[char]) -> (r: Option<Expr>)
    ensures
        r == parse_expr_spec(s@),
{
    let toks = match tokenize_chars(s) {
        Some(t) => t,
        None => {
            return None;
        },
    };
    let (expr, pos) = match ternary(&toks, 0) {
        Some(x) => x,
        None => {
            return None;
        },
    };
    if pos == toks.len() {
        Some(expr)
    } else {
        None
    }
}

fn eval(expr: &Expr, n: i64) -> (r: Option<i64>)
    ensures
        r == eval_spec(*expr, n),
    decreases expr,
{
    match expr {
        Expr::Num(v) => Some(*v),
        Expr::N => Some(n),
        Expr::Not(e) => match eval(e, n) {
            Some(v) => Some(if v == 0 {
                1
            } else {
                0
            }),
            None => None,
        },
        Expr::Neg(e) => match eval(e, n) {
            Some(v) => (0i64).checked_sub(v),
            None => None,
        },
        Expr::Ternary(c, t, f) => match eval(c, n) {
            Some(cv) => if cv != 0 {
                eval(t, n)
            } else {
                eval(f, n)
            },
            None => None,
        },
        Expr::Bin(op, l, r) => {
            let lv = eval(l, n);
            let rv = eval(r, n);
            match (lv, rv) {
                (Some(lv), Some(rv)) => match op {
                    BinOp::Or => Some(if lv != 0 || rv != 0 {
                        1
                    } else {
                        0
                    }),
                    BinOp::And => Some(if lv != 0 && rv != 0 {
                        1
                    } else {
                        0
                    }),
                    BinOp::Eq => Some(if lv == rv {
                        1
                    } else {
                        0
                    }),
                    BinOp::Ne => Some(if lv != rv {
                        1
                    } else {
                        0
                    }),
                    BinOp::Lt => Some(if lv < rv {
                        1
                    } else {
                        0
                    }),
                    BinOp::Le => Some(if lv <= rv {
                        1
                    } else {
                        0
                    }),
                    BinOp::Gt => Some(if lv > rv {
                        1
                    } else {
                        0
                    }),
                    BinOp::Ge => Some(if lv >= rv {
                        1
                    } else {
                        0
                    }),
                    BinOp::Add => lv.checked_add(rv),
                    BinOp::Sub => lv.checked_sub(rv),
                    BinOp::Mul => lv.checked_mul(rv),
                    BinOp::Div => if rv == 0 {
                        Some(0)
                    } else {
                        lv.checked_div(rv)
                    },
                    BinOp::Mod => if rv == 0 {
                        Some(0)
                    } else {
                        lv.checked_rem(rv)
                    },
                },
                _ => None,
            }
        },
    }
}

/// The count and the expression a header's `Plural-Forms` line gives, when it has one that
/// parses: `nplurals` must be a positive count that fits a `usize`.
pub open spec fn header_rule(header: Seq<char>) -> Option<(nat, Expr)> {
    match first_plural_forms_line(lines_of(header), 0) {
        None => None,
        Some(li) => {
            let rest = without_prefix(trim_start(lines_of(header)[li]), "Plural-Forms:"@);
            match (second_piece(rest, "nplurals="@), second_piece(rest, "plural="@)) {
                (Some(np), Some(pp)) => {
                    let ds = leading_digits(np);
                    if ds.len() == 0 || digits_value(ds) > usize::MAX || digits_value(ds) == 0 {
                        None
                    } else {
                        match parse_expr_spec(first_piece(pp, seq![';'])) {
                            Some(e) => Some((digits_value(ds), e)),
                            None => None,
                        }
                    }
                },
                _ => None,
            }
        },
    }
}

/// Index of the first line, from `i` on, that (leading whitespace aside) starts with
/// `Plural-Forms:`.
pub open spec fn first_plural_forms_line(lines: Seq<Seq<char>>, i: int) -> Option<int>
    decreases lines.len() - i,
{
    if i < 0 || i >= lines.len() {
        None
    } else if has_prefix(trim_start(lines[i]), "Plural-Forms:"@) {
        Some(i)
    } else {
        first_plural_forms_line(lines, i + 1)
    }
}

/// `s.split(pat).nth(1)`: the text between the first and the second occurrence of `pat`.
pub open spec fn second_piece(s: Seq<char>, pat: Seq<char>) -> Option<Seq<char>> {
    match find(s, pat) {
        None => None,
        Some(a) => {
            let after = s.skip(a + pat.len());
            Some(first_piece(after, pat))
        },
    }
}

/// `s.split(pat).next()`: the text before the first occurrence of `pat`.
pub open spec fn first_piece(s: Seq<char>, pat: Seq<char>) -> Seq<char> {
    match find(s, pat) {
        Some(b) => s.take(b),
        None => s,
    }
}

/// The form index for count `n` under a rule with `nplurals` forms: the expression's value
/// at `n` (a count beyond `i64::MAX` evaluated as `i64::MAX`), 0 when negative, clamped to
/// `nplurals - 1`.
pub open spec fn index_spec(nplurals: nat, expr: Expr, n: u64) -> int {
    let x: i64 = if n > i64::MAX {
        i64::MAX
    } else {
        n as i64
    };
    let v = eval_spec(expr, x)->0;
    let idx: int = if v < 0 || v > usize::MAX {
        0
    } else {
        v as int
    };
    let top: int = if nplurals == 0 {
        0
    } else {
        nplurals - 1
    };
    if idx < top {
        idx
    } else {
        top
    }
}

/// A parsed `Plural-Forms` rule: the number of plural forms the language has, and the
/// expression that picks a form index (0-based) for a given count.
pub struct PluralRule {
    nplurals: usize,
    expr: Expr,
}

impl PluralRule {
    pub closed spec fn nplurals_spec(&self) -> nat {
        self.nplurals as nat
    }

    pub closed spec fn expr_spec(&self) -> Expr {
        self.expr
    }

    /// Whether the rule's expression evaluates at `n` without overflowing an `i64`.
    pub open spec fn evaluates_at(&self, n: u64) -> bool {
        eval_spec(
            self.expr_spec(),
            if n > i64::MAX {
                i64::MAX
            } else {
                n as i64
            },
        ) is Some
    }

    /// Parses a `.mo` header's `Plural-Forms: nplurals=N; plural=EXPR;` line, if present.
    /// `None` if the header lacks the line or the expression fails to parse.
    pub fn parse_from_header(header: &str) -> (r: Option<Self>)
        ensures
            (match r {
                Some(rule) => Some((rule.nplurals_spec(), rule.expr_spec())),
                None => None::<(nat, Expr)>,
            }) == header_rule(header@),
    {
        let chars = chars_of(header);
        let lines = split_lines(&chars);
        let ghost l = crate::text::views(lines@);
        let tag = chars_of("Plural-Forms:");
        let mut li: usize = 0;
        while li < lines.len() && !starts_with(&trim_start_vec(&lines[li]), &tag)
            invariant
                li <= lines.len(),
                l == crate::text::views(lines@),
                l == lines_of(header@),
                tag@ == "Plural-Forms:"@,
                first_plural_forms_line(l, 0) == first_plural_forms_line(l, li as int),
            decreases lines.len() - li,
        {
            assert(l[li as int] == lines@[li as int]@);
            li = li + 1;
        }
        if li == lines.len() {
            return None;
        }
        assert(l[li as int] == lines@[li as int]@);
        let t = trim_start_vec(&lines[li]);
        let rest = skip(&t, tag.len());
        let np = match second_piece_exec(&rest, &chars_of("nplurals=")) {
            Some(p) => p,
            None => {
                return None;
            },
        };
        let pp = match second_piece_exec(&rest, &chars_of("plural=")) {
            Some(p) => p,
            None => {
                return None;
            },
        };
        let nplurals = match crate::po::parse_leading_count(&np) {
            Some(v) => v,
            None => {
                return None;
            },
        };
        let semi: Vec<char> = vec![';'];
        assert(semi@ =~= seq![';']);
        let expr_text = first_piece_exec(&pp, &semi);
        let expr = match parse_expr(&expr_text) {
            Some(e) => e,
            None => {
                return None;
            },
        };
        Some(PluralRule { nplurals, expr })
    }

    /// Evaluates the rule for count `n`, returning a form index clamped to `[0, nplurals)`.
    pub fn index_for(&self, n: u64) -> (r: usize)
        requires
            self.evaluates_at(n),
        ensures
            r as int == index_spec(self.nplurals_spec(), self.expr_spec(), n),
            self.nplurals_spec() > 0 ==> r < self.nplurals_spec(),
    {
        let x: i64 = if n > i64::MAX as u64 {
            i64::MAX
        } else {
            n as i64
        };
        let v = match eval(&self.expr, x) {
            Some(v) => v,
            None => {
                return 0;
            },
        };
        let idx: usize = if v < 0 || v as u64 > usize::MAX as u64 {
            0
        } else {
            v as usize
        };
        let top = if self.nplurals == 0 {
            0
        } else {
            self.nplurals - 1
        };
        if idx < top {
            idx
        } else {
            top
        }
    }
    /// Evaluates the rule for count `n` as [`Self::index_for`] does, or `None` where the
    /// expression overflows an `i64` at `n`.
    pub fn checked_index_for(&self, n: u64) -> (r: Option<usize>)
        ensures
            r is Some <==> self.evaluates_at(n),
            r matches Some(i) ==> i as int == index_spec(self.nplurals_spec(), self.expr_spec(), n),
            r matches Some(i) ==> (self.nplurals_spec() > 0 ==> i < self.nplurals_spec()),
    {
        let x: i64 = if n > i64::MAX as u64 {
            i64::MAX
        } else {
            n as i64
        };
        if eval(&self.expr, x).is_none() {
            return None;
        }
        Some(self.index_for(n))
    }
}

fn first_piece_exec(s: &[char], pat: &[char]) -> (r: Vec<char>)
    ensures
        r@ == first_piece(s@, pat@),
{
    match find_exec(s, pat) {
        Some(b) => {
            proof {
                crate::text::lemma_find_from_bounds(s@, pat@, 0);
            }
            let r = slice_of(s, 0, b);
            assert(r@ =~= s@.take(b as int));
            r
        },
        None => {
            let r = slice_of(s, 0, s.len());
            assert(r@ =~= s@);
            r
        },
    }
}

fn second_piece_exec(s: &[char], pat: &[char]) -> (r: Option<Vec<char>>)
    ensures
        (match r {
            Some(v) => Some(v@),
            None => None::<Seq<char>>,
        }) == second_piece(s@, pat@),
{
    match find_exec(s, pat) {
        Some(a) => {
            proof {
                crate::text::lemma_find_from_bounds(s@, pat@, 0);
            }
            assert(s@.len() == s.len());
            let after = skip(s, a + pat.len());
            Some(first_piece_exec(&after, pat))
        },
        None => None,
    }
}


/// The value of `a op b` at `n`, for the operator `op`.
pub open spec fn bin_at(op: BinOp, a: Expr, b: Expr, n: i64) -> Option<i64> {
    eval_spec(Expr::Bin(op, Box::new(a), Box::new(b)), n)
}

/// The comparison operators compare the values of their two sides as integers: each gives 1
/// where the comparison holds and 0 where it does not. So `a<=b` is 1 exactly where `a<b` or
/// `a==b` is, `a>=b` is `b<=a`, `a>b` is `b<a`, `a!=b` is the negation of `a==b`, and a side
/// compared with a side of the same value is `==`, `<=` and `>=` to it but not `<`, `>` or
/// `!=`.
pub proof fn law_comparisons_follow_integer_order(a: Expr, b: Expr, n: i64)
    requires
        eval_spec(a, n) is Some,
        eval_spec(b, n) is Some,
    ensures
        ({
            let x = eval_spec(a, n)->0;
            let y = eval_spec(b, n)->0;
            &&& bin_at(BinOp::Eq, a, b, n) == Some(if x == y { 1i64 } else { 0i64 })
            &&& bin_at(BinOp::Ne, a, b, n) == Some(if x != y { 1i64 } else { 0i64 })
            &&& bin_at(BinOp::Lt, a, b, n) == Some(if x < y { 1i64 } else { 0i64 })
            &&& bin_at(BinOp::Le, a, b, n) == Some(if x <= y { 1i64 } else { 0i64 })
            &&& bin_at(BinOp::Gt, a, b, n) == Some(if x > y { 1i64 } else { 0i64 })
            &&& bin_at(BinOp::Ge, a, b, n) == Some(if x >= y { 1i64 } else { 0i64 })
            &&& (bin_at(BinOp::Le, a, b, n) == Some(1i64)) == (bin_at(BinOp::Lt, a, b, n) == Some(1i64)
                || bin_at(BinOp::Eq, a, b, n) == Some(1i64))
            &&& bin_at(BinOp::Ge, a, b, n) == bin_at(BinOp::Le, b, a, n)
            &&& bin_at(BinOp::Gt, a, b, n) == bin_at(BinOp::Lt, b, a, n)
            &&& x == y ==> {
                &&& bin_at(BinOp::Eq, a, b, n) == Some(1i64)
                &&& bin_at(BinOp::Le, a, b, n) == Some(1i64)
                &&& bin_at(BinOp::Ge, a, b, n) == Some(1i64)
                &&& bin_at(BinOp::Lt, a, b, n) == Some(0i64)
                &&& bin_at(BinOp::Gt, a, b, n) == Some(0i64)
                &&& bin_at(BinOp::Ne, a, b, n) == Some(0i64)
            }
        }),
{
}

/// The arithmetic operators compute on the values of their two sides as integers, giving no
/// value where the result leaves the `i64` range; dividing or taking the remainder by zero
/// gives 0, and for a side that is not negative divided by a positive one `/` is the
/// quotient and `%` the remainder (so `n%10` is the last decimal digit of `n`).
pub proof fn law_arithmetic_on_values(a: Expr, b: Expr, n: i64)
    requires
        eval_spec(a, n) is Some,
        eval_spec(b, n) is Some,
    ensures
        ({
            let x = eval_spec(a, n)->0 as int;
            let y = eval_spec(b, n)->0 as int;
            &&& bin_at(BinOp::Add, a, b, n) == (if i64::MIN <= x + y <= i64::MAX {
                Some((x + y) as i64)
            } else {
                None
            })
            &&& bin_at(BinOp::Sub, a, b, n) == (if i64::MIN <= x - y <= i64::MAX {
                Some((x - y) as i64)
            } else {
                None
            })
            &&& bin_at(BinOp::Mul, a, b, n) == (if i64::MIN <= x * y <= i64::MAX {
                Some((x * y) as i64)
            } else {
                None
            })
            &&& y == 0 ==> bin_at(BinOp::Div, a, b, n) == Some(0i64) && bin_at(BinOp::Mod, a, b, n)
                == Some(0i64)
            &&& x >= 0 && y > 0 ==> bin_at(BinOp::Div, a, b, n) == Some((x / y) as i64) && bin_at(
                BinOp::Mod,
                a,
                b,
                n,
            ) == Some((x % y) as i64)
        }),
{
    let x = eval_spec(a, n)->0 as int;
    let y = eval_spec(b, n)->0 as int;
    if x >= 0 && y > 0 {
        assert(0 <= x % y < y) by (nonlinear_arith)
            requires
                x >= 0,
                y > 0,
        ;
        assert(0 <= x / y <= x) by (nonlinear_arith)
            requires
                x >= 0,
                y > 0,
        ;
        assert(x == 0 ==> x % y == 0 && x / y == 0) by (nonlinear_arith)
            requires
                y > 0,
        ;
    }
}

/// `&&`, `||` and `!` treat a value as true exactly when it is not 0 and give 1 or 0, and
/// `c ? t : e` takes `t` where `c` is not 0 and `e` where it is.
pub proof fn law_logic_on_values(a: Expr, b: Expr, c: Expr, n: i64)
    requires
        eval_spec(a, n) is Some,
        eval_spec(b, n) is Some,
        eval_spec(c, n) is Some,
    ensures
        ({
            let x = eval_spec(a, n)->0;
            let y = eval_spec(b, n)->0;
            let z = eval_spec(c, n)->0;
            &&& bin_at(BinOp::And, a, b, n) == Some(if x != 0 && y != 0 { 1i64 } else { 0i64 })
            &&& bin_at(BinOp::Or, a, b, n) == Some(if x != 0 || y != 0 { 1i64 } else { 0i64 })
            &&& eval_spec(Expr::Not(Box::new(a)), n) == Some(if x == 0 { 1i64 } else { 0i64 })
            &&& eval_spec(Expr::Neg(Box::new(a)), n) == (if x == i64::MIN {
                None
            } else {
                Some((-x) as i64)
            })
            &&& eval_spec(Expr::Ternary(Box::new(c), Box::new(a), Box::new(b)), n) == Some(
                if z != 0 {
                    x
                } else {
                    y
                },
            )
        }),
{
}

/// A number compared with itself: `k<=k` and `k>=k` are 1 and `k<k` is 0, whatever the count.
pub proof fn law_number_against_itself(k: i64, n: i64)
    ensures
        bin_at(BinOp::Le, Expr::Num(k), Expr::Num(k), n) == Some(1i64),
        bin_at(BinOp::Ge, Expr::Num(k), Expr::Num(k), n) == Some(1i64),
        bin_at(BinOp::Lt, Expr::Num(k), Expr::Num(k), n) == Some(0i64),
{
    law_comparisons_follow_integer_order(Expr::Num(k), Expr::Num(k), n);
}

} // verus!
