//! From tokens to programs.
use crate::ast::ActView;
use crate::lambda::{lambdas_view, BinOp, Lambda, LambdaView};
use crate::syntax::{
    choices_view, processes_view, Act, Declaration, DeclarationView, Process, ProcessView,
    Program,
};
use crate::tokenizer::{tokens_view, Keyword, Token, TokenView};
use crate::values::{patterns_view, Decimal, Pattern, PatternView, Type, TypeView};
use vstd::prelude::*;

verus! {

/// Why a list of tokens is no program.
#[derive(Clone, Copy, Debug, PartialEq, Eq, Structural)]
pub enum ParseError {
    /// A token that cannot stand where it stands.
    UnexpectedToken,
    /// The tokens end where more must follow.
    UnexpectedEnd,
    /// Tokens follow the last declaration.
    TrailingTokens,
    /// A number of copies that the machine cannot count.
    CountTooLarge,
}

/// The token at place `i`, if there is one.
pub open spec fn at(ts: Seq<TokenView>, i: int) -> Option<TokenView> {
    if 0 <= i < ts.len() {
        Some(ts[i])
    } else {
        None
    }
}

/// The refusal of what stands at place `i`, where something else must stand.
pub open spec fn refuse(ts: Seq<TokenView>, i: int) -> ParseError {
    if 0 <= i < ts.len() {
        ParseError::UnexpectedToken
    } else {
        ParseError::UnexpectedEnd
    }
}

/// The place behind the token `t`, which must stand at place `i`.
pub open spec fn expect(ts: Seq<TokenView>, i: int, t: TokenView) -> Result<int, ParseError> {
    if at(ts, i) == Some(t) {
        Ok(i + 1)
    } else {
        Err(refuse(ts, i))
    }
}

/// The identifier that must stand at place `i`, and the place behind it.
pub open spec fn expect_ident(ts: Seq<TokenView>, i: int) -> Result<(Seq<char>, int), ParseError> {
    match at(ts, i) {
        Some(TokenView::Identifier(n)) => Ok((n, i + 1)),
        _ => Err(refuse(ts, i)),
    }
}

/// Whether a pattern can start with the token.
pub open spec fn starts_pattern(t: Option<TokenView>) -> bool {
    t == Some(TokenView::Underscore) || t == Some(TokenView::LPar) || (t matches Some(
        TokenView::Identifier(_),
    ))
}

/// The pattern that starts at place `i`, and the place behind it:
/// `_`, a name, or patterns in parentheses with commas between them.
pub open spec fn pattern_spec(ts: Seq<TokenView>, i: int) -> Result<(PatternView, int), ParseError>
    decreases ts.len() - i, 1nat,
{
    match at(ts, i) {
        Some(TokenView::Underscore) => Ok((PatternView::Wildcard, i + 1)),
        Some(TokenView::Identifier(n)) => Ok((PatternView::Name(n), i + 1)),
        Some(TokenView::LPar) => match patterns_spec(ts, i + 1) {
            Err(e) => Err(e),
            Ok((ps, j)) => match expect(ts, j, TokenView::RPar) {
                Err(e) => Err(e),
                Ok(k) => Ok((PatternView::Tuple(ps), k)),
            },
        },
        _ => Err(refuse(ts, i)),
    }
}

/// The patterns with commas between them that start at place `i`, none where
/// no pattern starts there, and the place behind them.
pub open spec fn patterns_spec(ts: Seq<TokenView>, i: int) -> Result<
    (Seq<PatternView>, int),
    ParseError,
>
    decreases ts.len() - i, 2nat,
{
    if !starts_pattern(at(ts, i)) {
        Ok((Seq::empty(), i))
    } else {
        match pattern_spec(ts, i) {
            Err(e) => Err(e),
            Ok((p, j)) => if j <= i || j > ts.len() {
                Err(ParseError::UnexpectedToken)
            } else {
                more_patterns_spec(ts, j, seq![p])
            },
        }
    }
}

/// The patterns `seen` and those that follow from place `i` on, each behind a comma.
pub open spec fn more_patterns_spec(ts: Seq<TokenView>, i: int, seen: Seq<PatternView>) -> Result<
    (Seq<PatternView>, int),
    ParseError,
>
    decreases ts.len() - i, 0nat,
{
    if at(ts, i) == Some(TokenView::Comma) {
        match pattern_spec(ts, i + 1) {
            Err(e) => Err(e),
            Ok((p, j)) => if j <= i || j > ts.len() {
                Err(ParseError::UnexpectedToken)
            } else {
                more_patterns_spec(ts, j, seen.push(p))
            },
        }
    } else {
        Ok((seen, i))
    }
}

/// How tightly an operator binds: `*` and `/` tightest, then `+` and `-`,
/// then the comparisons.
pub open spec fn tightness(op: BinOp) -> int {
    match op {
        BinOp::Plus => 6,
        BinOp::Sub => 6,
        BinOp::Times => 7,
        BinOp::Div => 7,
        _ => 5,
    }
}

/// The operator that the token is, and how tightly it binds.
pub open spec fn operator(t: Option<TokenView>) -> Option<(BinOp, int)> {
    match t {
        Some(TokenView::Equals) => Some((BinOp::Equal, tightness(BinOp::Equal))),
        Some(TokenView::Less) => Some((BinOp::Less, tightness(BinOp::Less))),
        Some(TokenView::Greater) => Some((BinOp::Greater, tightness(BinOp::Greater))),
        Some(TokenView::LEq) => Some((BinOp::LEq, tightness(BinOp::LEq))),
        Some(TokenView::GEq) => Some((BinOp::GEq, tightness(BinOp::GEq))),
        Some(TokenView::NotEqual) => Some((BinOp::NotEqual, tightness(BinOp::NotEqual))),
        Some(TokenView::Plus) => Some((BinOp::Plus, tightness(BinOp::Plus))),
        Some(TokenView::Dash) => Some((BinOp::Sub, tightness(BinOp::Sub))),
        Some(TokenView::Star) => Some((BinOp::Times, tightness(BinOp::Times))),
        Some(TokenView::Slash) => Some((BinOp::Div, tightness(BinOp::Div))),
        _ => None,
    }
}

/// Whether an expression can start with the token.
pub open spec fn starts_lambda(t: Option<TokenView>) -> bool {
    match t {
        Some(TokenView::Integer(_)) => true,
        Some(TokenView::Float(_)) => true,
        Some(TokenView::Keyword(Keyword::True)) => true,
        Some(TokenView::Keyword(Keyword::False)) => true,
        Some(TokenView::Keyword(Keyword::Fun)) => true,
        Some(TokenView::Keyword(Keyword::If)) => true,
        Some(TokenView::Identifier(_)) => true,
        Some(TokenView::LPar) => true,
        _ => false,
    }
}

/// The expression without operators on top that starts at place `i`, and the
/// place behind it: a literal, a variable, `fun x => e`,
/// `if c then e else e`, or an expression in parentheses.
pub open spec fn lambda_spec(ts: Seq<TokenView>, i: int) -> Result<(LambdaView, int), ParseError>
    decreases ts.len() - i, 0nat,
{
    match at(ts, i) {
        Some(TokenView::Integer(n)) => Ok(
            (LambdaView::IntLiteral { i: n, t: TypeView::Integer }, i + 1),
        ),
        Some(TokenView::Float(f)) => Ok((LambdaView::FloatLiteral { f, t: TypeView::Float }, i + 1)),
        Some(TokenView::Keyword(Keyword::True)) => Ok(
            (LambdaView::True { t: TypeView::Bool }, i + 1),
        ),
        Some(TokenView::Keyword(Keyword::False)) => Ok(
            (LambdaView::False { t: TypeView::Bool }, i + 1),
        ),
        Some(TokenView::Identifier(n)) => Ok((LambdaView::Var { v: n, t: TypeView::TVar }, i + 1)),
        Some(TokenView::Keyword(Keyword::Fun)) => match expect_ident(ts, i + 1) {
            Err(e) => Err(e),
            Ok((x, j)) => match expect(ts, j, TokenView::RightArrow) {
                Err(e) => Err(e),
                Ok(k) => match expr_spec(ts, k) {
                    Err(e) => Err(e),
                    Ok((body, m)) => Ok(
                        (LambdaView::Abs { x, e: Box::new(body), t: TypeView::TVar }, m),
                    ),
                },
            },
        },
        Some(TokenView::Keyword(Keyword::If)) => match expr_spec(ts, i + 1) {
            Err(e) => Err(e),
            Ok((c, j)) => match expect(ts, j, TokenView::Keyword(Keyword::Then)) {
                Err(e) => Err(e),
                Ok(k) => match (if k <= i || k > ts.len() {
                    Err(ParseError::UnexpectedToken)
                } else {
                    expr_spec(ts, k)
                }) {
                    Err(e) => Err(e),
                    Ok((e1, m)) => match expect(ts, m, TokenView::Keyword(Keyword::Else)) {
                        Err(e) => Err(e),
                        Ok(n) => match (if n <= i || n > ts.len() {
                            Err(ParseError::UnexpectedToken)
                        } else {
                            expr_spec(ts, n)
                        }) {
                            Err(e) => Err(e),
                            Ok((e2, q)) => Ok(
                                (
                                    LambdaView::IfExpr {
                                        c: Box::new(c),
                                        e1: Box::new(e1),
                                        e2: Box::new(e2),
                                        t: TypeView::TVar,
                                    },
                                    q,
                                ),
                            ),
                        },
                    },
                },
            },
        },
        Some(TokenView::LPar) => match expr_spec(ts, i + 1) {
            Err(e) => Err(e),
            Ok((inner, j)) => match expect(ts, j, TokenView::RPar) {
                Err(e) => Err(e),
                Ok(k) => Ok((inner, k)),
            },
        },
        _ => Err(refuse(ts, i)),
    }
}

/// The expression that starts at place `i`, and the place behind it. Binary
/// operators associate to the left; `*` and `/` bind tighter than `+` and
/// `-`, and these tighter than the comparisons.
pub open spec fn expr_spec(ts: Seq<TokenView>, i: int) -> Result<(LambdaView, int), ParseError>
    decreases ts.len() - i, 1nat,
{
    match lambda_spec(ts, i) {
        Err(e) => Err(e),
        Ok((l, j)) => if j <= i || j > ts.len() {
            Err(ParseError::UnexpectedToken)
        } else {
            climb_spec(ts, 0, l, j)
        },
    }
}

/// The expression `l` with the operators that follow at place `i` and bind
/// no looser than `min`, and their right operands.
pub open spec fn climb_spec(ts: Seq<TokenView>, min: int, l: LambdaView, i: int) -> Result<
    (LambdaView, int),
    ParseError,
>
    decreases ts.len() - i, 2nat,
{
    match operator(at(ts, i)) {
        None => Ok((l, i)),
        Some((op, prec)) => if prec < min {
            Ok((l, i))
        } else {
            match lambda_spec(ts, i + 1) {
                Err(e) => Err(e),
                Ok((r, j)) => if j <= i || j > ts.len() {
                    Err(ParseError::UnexpectedToken)
                } else {
                    match raise_spec(ts, prec, r, j) {
                        Err(e) => Err(e),
                        Ok((r2, k)) => if k <= i || k > ts.len() {
                            Err(ParseError::UnexpectedToken)
                        } else {
                            climb_spec(
                                ts,
                                min,
                                LambdaView::BinExpr {
                                    b: op,
                                    l: Box::new(l),
                                    r: Box::new(r2),
                                    t: TypeView::TVar,
                                },
                                k,
                            )
                        },
                    }
                },
            }
        },
    }
}

/// The right operand `r` with the operators that follow at place `i` and
/// bind tighter than `prec`, and their right operands.
pub open spec fn raise_spec(ts: Seq<TokenView>, prec: int, r: LambdaView, i: int) -> Result<
    (LambdaView, int),
    ParseError,
>
    decreases ts.len() - i, 3nat,
{
    match operator(at(ts, i)) {
        None => Ok((r, i)),
        Some((_, next)) => if next > prec {
            match climb_spec(ts, next, r, i) {
                Err(e) => Err(e),
                Ok((r2, j)) => if j <= i || j > ts.len() {
                    Err(ParseError::UnexpectedToken)
                } else {
                    raise_spec(ts, prec, r2, j)
                },
            }
        } else {
            Ok((r, i))
        },
    }
}

/// What parsing a pattern returned, with the pattern by its view.
pub open spec fn parsed_pattern(r: Result<(Pattern, usize), ParseError>) -> Result<
    (PatternView, int),
    ParseError,
> {
    match r {
        Ok((p, j)) => Ok((p@, j as int)),
        Err(e) => Err(e),
    }
}

/// What parsing patterns returned, with the patterns by their view.
pub open spec fn parsed_patterns(r: Result<(Vec<Pattern>, usize), ParseError>) -> Result<
    (Seq<PatternView>, int),
    ParseError,
> {
    match r {
        Ok((ps, j)) => Ok((patterns_view(ps@), j as int)),
        Err(e) => Err(e),
    }
}

/// What parsing an expression returned, with the expression by its view.
pub open spec fn parsed_lambda(r: Result<(Lambda, usize), ParseError>) -> Result<
    (LambdaView, int),
    ParseError,
> {
    match r {
        Ok((e, j)) => Ok((e@, j as int)),
        Err(e) => Err(e),
    }
}

/// The view of a list with one pattern more.
proof fn lemma_patterns_push(ps: Seq<Pattern>, p: Pattern)
    ensures
        patterns_view(ps.push(p)) == patterns_view(ps).push(p@),
{
    assert(ps.push(p).drop_last() =~= ps);
}

/// The view of a list with one expression more.
proof fn lemma_lambdas_push(es: Seq<Lambda>, e: Lambda)
    ensures
        lambdas_view(es.push(e)) == lambdas_view(es).push(e@),
{
    assert(es.push(e).drop_last() =~= es);
}

/// Why what stands at place `i` is refused.
fn refusal(ts: &Vec<Token>, i: usize) -> (e: ParseError)
    ensures
        e == refuse(tokens_view(ts@), i as int),
{
    if i < ts.len() {
        ParseError::UnexpectedToken
    } else {
        ParseError::UnexpectedEnd
    }
}

/// Whether two tokens are the same.
pub fn same_token(a: &Token, b: &Token) -> (r: bool)
    ensures
        r == (a@ == b@),
{
    match (a, b) {
        (Token::QMark, Token::QMark) => true,
        (Token::ExMark, Token::ExMark) => true,
        (Token::At, Token::At) => true,
        (Token::Equals, Token::Equals) => true,
        (Token::Less, Token::Less) => true,
        (Token::Greater, Token::Greater) => true,
        (Token::LEq, Token::LEq) => true,
        (Token::GEq, Token::GEq) => true,
        (Token::NotEqual, Token::NotEqual) => true,
        (Token::LPar, Token::LPar) => true,
        (Token::RPar, Token::RPar) => true,
        (Token::Colon, Token::Colon) => true,
        (Token::Semicolon, Token::Semicolon) => true,
        (Token::Pipe, Token::Pipe) => true,
        (Token::Underscore, Token::Underscore) => true,
        (Token::Comma, Token::Comma) => true,
        (Token::Plus, Token::Plus) => true,
        (Token::Dash, Token::Dash) => true,
        (Token::Star, Token::Star) => true,
        (Token::Slash, Token::Slash) => true,
        (Token::RightArrow, Token::RightArrow) => true,
        (Token::Integer(x), Token::Integer(y)) => *x == *y,
        (Token::Float(x), Token::Float(y)) => x.digits == y.digits && x.scale == y.scale,
        (Token::Keyword(x), Token::Keyword(y)) => *x == *y,
        (Token::Identifier(x), Token::Identifier(y)) => *x == *y,
        _ => false,
    }
}

/// Whether the token `t` stands at place `i`.
fn is_at(ts: &Vec<Token>, i: usize, t: &Token) -> (b: bool)
    ensures
        b == (at(tokens_view(ts@), i as int) == Some(t@)),
        b ==> i < ts.len(),
{
    i < ts.len() && same_token(&ts[i], t)
}

/// Steps over the token `t`, which must stand at place `i`.
fn expected(ts: &Vec<Token>, i: usize, t: &Token) -> (r: Result<usize, ParseError>)
    ensures
        match r {
            Ok(j) => Ok(j as int),
            Err(e) => Err(e),
        } == expect(tokens_view(ts@), i as int, t@),
        r matches Ok(j) ==> j == i + 1 && j <= ts.len(),
{
    if is_at(ts, i, t) {
        Ok(i + 1)
    } else {
        Err(refusal(ts, i))
    }
}

/// Reads the identifier that must stand at place `i`.
fn expected_ident(ts: &Vec<Token>, i: usize) -> (r: Result<(String, usize), ParseError>)
    ensures
        match r {
            Ok((n, j)) => Ok((n@, j as int)),
            Err(e) => Err(e),
        } == expect_ident(tokens_view(ts@), i as int),
        r matches Ok((_, j)) ==> j == i + 1 && j <= ts.len(),
{
    if i < ts.len() {
        match &ts[i] {
            Token::Identifier(n) => Ok((n.clone(), i + 1)),
            _ => Err(ParseError::UnexpectedToken),
        }
    } else {
        Err(ParseError::UnexpectedEnd)
    }
}

/// Whether a pattern can start at place `i`.
fn pattern_starts(ts: &Vec<Token>, i: usize) -> (b: bool)
    ensures
        b == starts_pattern(at(tokens_view(ts@), i as int)),
{
    if i < ts.len() {
        match &ts[i] {
            Token::Underscore => true,
            Token::LPar => true,
            Token::Identifier(_) => true,
            _ => false,
        }
    } else {
        false
    }
}

/// Parses the pattern that starts at place `i`.
pub fn pattern(ts: &Vec<Token>, i: usize) -> (r: Result<(Pattern, usize), ParseError>)
    ensures
        parsed_pattern(r) == pattern_spec(tokens_view(ts@), i as int),
        r matches Ok((_, j)) ==> i < j <= ts.len(),
    decreases ts.len() - i, 1nat,
{
    if i >= ts.len() {
        return Err(ParseError::UnexpectedEnd);
    }
    match &ts[i] {
        Token::Underscore => Ok((Pattern::Wildcard, i + 1)),
        Token::Identifier(n) => Ok((Pattern::Name(n.clone()), i + 1)),
        Token::LPar => match patterns(ts, i + 1) {
            Err(e) => Err(e),
            Ok((ps, j)) => match expected(ts, j, &Token::RPar) {
                Err(e) => Err(e),
                Ok(k) => Ok((Pattern::Tuple(ps), k)),
            },
        },
        _ => Err(ParseError::UnexpectedToken),
    }
}

/// Parses the patterns with commas between them that start at place `i`.
pub fn patterns(ts: &Vec<Token>, i: usize) -> (r: Result<(Vec<Pattern>, usize), ParseError>)
    requires
        i <= ts.len(),
    ensures
        parsed_patterns(r) == patterns_spec(tokens_view(ts@), i as int),
        r matches Ok((_, j)) ==> i <= j <= ts.len(),
    decreases ts.len() - i, 2nat,
{
    if !pattern_starts(ts, i) {
        let none: Vec<Pattern> = Vec::new();
        proof {
            assert(patterns_view(none@) =~= Seq::<PatternView>::empty());
        }
        return Ok((none, i));
    }
    match pattern(ts, i) {
        Err(e) => Err(e),
        Ok((p, j)) => {
            let mut seen: Vec<Pattern> = Vec::new();
            proof {
                assert(patterns_view(seen@) =~= Seq::<PatternView>::empty());
                lemma_patterns_push(seen@, p);
                assert(Seq::<PatternView>::empty().push(p@) =~= seq![p@]);
            }
            seen.push(p);
            more_patterns(ts, j, seen)
        },
    }
}

/// Parses the patterns that follow `seen` from place `i` on, each behind a comma.
fn more_patterns(ts: &Vec<Token>, i: usize, seen: Vec<Pattern>) -> (r: Result<
    (Vec<Pattern>, usize),
    ParseError,
>)
    requires
        i <= ts.len(),
    ensures
        parsed_patterns(r) == more_patterns_spec(
            tokens_view(ts@),
            i as int,
            patterns_view(seen@),
        ),
        r matches Ok((_, j)) ==> i <= j <= ts.len(),
    decreases ts.len() - i, 0nat,
{
    if is_at(ts, i, &Token::Comma) {
        match pattern(ts, i + 1) {
            Err(e) => Err(e),
            Ok((p, j)) => {
                let mut seen = seen;
                proof {
                    lemma_patterns_push(seen@, p);
                }
                seen.push(p);
                more_patterns(ts, j, seen)
            },
        }
    } else {
        Ok((seen, i))
    }
}

impl BinOp {
    /// The operator that the token writes, if it writes one.
    pub fn from_token(t: &Token) -> (r: Option<BinOp>)
        ensures
            r == match operator(Some(t@)) {
                Some((op, _)) => Some(op),
                None => None,
            },
    {
        match t {
            Token::Equals => Some(BinOp::Equal),
            Token::Less => Some(BinOp::Less),
            Token::Greater => Some(BinOp::Greater),
            Token::LEq => Some(BinOp::LEq),
            Token::GEq => Some(BinOp::GEq),
            Token::NotEqual => Some(BinOp::NotEqual),
            Token::Plus => Some(BinOp::Plus),
            Token::Dash => Some(BinOp::Sub),
            Token::Star => Some(BinOp::Times),
            Token::Slash => Some(BinOp::Div),
            _ => None,
        }
    }

    /// How tightly the operator binds.
    pub fn precedence(self) -> (p: u8)
        ensures
            p == tightness(self),
    {
        match self {
            BinOp::Plus => 6,
            BinOp::Sub => 6,
            BinOp::Times => 7,
            BinOp::Div => 7,
            _ => 5,
        }
    }
}

/// The operator at place `i`, if one stands there, and how tightly it binds.
fn operator_at(ts: &Vec<Token>, i: usize) -> (r: Option<(BinOp, u8)>)
    ensures
        match r {
            Some((op, prec)) => Some((op, prec as int)),
            None => None,
        } == operator(at(tokens_view(ts@), i as int)),
        r is Some ==> i < ts.len(),
{
    if i >= ts.len() {
        return None;
    }
    match BinOp::from_token(&ts[i]) {
        Some(op) => Some((op, op.precedence())),
        None => None,
    }
}

/// Parses `fun x => e`, where `fun` stands at place `i`.
fn abstraction(ts: &Vec<Token>, i: usize) -> (r: Result<(Lambda, usize), ParseError>)
    requires
        i < ts.len(),
        ts[i as int]@ == TokenView::Keyword(Keyword::Fun),
    ensures
        parsed_lambda(r) == lambda_spec(tokens_view(ts@), i as int),
        r matches Ok((_, j)) ==> i < j <= ts.len(),
    decreases ts.len() - i, 0nat,
{
    match expected_ident(ts, i + 1) {
        Err(e) => Err(e),
        Ok((x, j)) => match expected(ts, j, &Token::RightArrow) {
            Err(e) => Err(e),
            Ok(k) => match expr(ts, k) {
                Err(e) => Err(e),
                Ok((body, m)) => Ok((Lambda::Abs { x, e: Box::new(body), t: Type::TVar }, m)),
            },
        },
    }
}

/// Parses `if c then e else e`, where `if` stands at place `i`.
fn conditional(ts: &Vec<Token>, i: usize) -> (r: Result<(Lambda, usize), ParseError>)
    requires
        i < ts.len(),
        ts[i as int]@ == TokenView::Keyword(Keyword::If),
    ensures
        parsed_lambda(r) == lambda_spec(tokens_view(ts@), i as int),
        r matches Ok((_, j)) ==> i < j <= ts.len(),
    decreases ts.len() - i, 0nat,
{
    let (c, j) = match expr(ts, i + 1) {
        Err(e) => {
            return Err(e);
        },
        Ok(x) => x,
    };
    let k = match expected(ts, j, &Token::Keyword(Keyword::Then)) {
        Err(e) => {
            return Err(e);
        },
        Ok(k) => k,
    };
    let (e1, m) = match expr(ts, k) {
        Err(e) => {
            return Err(e);
        },
        Ok(x) => x,
    };
    let n = match expected(ts, m, &Token::Keyword(Keyword::Else)) {
        Err(e) => {
            return Err(e);
        },
        Ok(n) => n,
    };
    let (e2, q) = match expr(ts, n) {
        Err(e) => {
            return Err(e);
        },
        Ok(x) => x,
    };
    Ok(
        (
            Lambda::IfExpr { c: Box::new(c), e1: Box::new(e1), e2: Box::new(e2), t: Type::TVar },
            q,
        ),
    )
}

/// Parses the expression without operators on top that starts at place `i`.
pub fn lambda(ts: &Vec<Token>, i: usize) -> (r: Result<(Lambda, usize), ParseError>)
    ensures
        parsed_lambda(r) == lambda_spec(tokens_view(ts@), i as int),
        r matches Ok((_, j)) ==> i < j <= ts.len(),
    decreases ts.len() - i, 1nat,
{
    if i >= ts.len() {
        return Err(ParseError::UnexpectedEnd);
    }
    match &ts[i] {
        Token::Integer(n) => Ok((Lambda::IntLiteral { i: *n, t: Type::Integer }, i + 1)),
        Token::Float(f) => Ok((Lambda::FloatLiteral { f: *f, t: Type::Float }, i + 1)),
        Token::Keyword(Keyword::True) => Ok((Lambda::True { t: Type::Bool }, i + 1)),
        Token::Keyword(Keyword::False) => Ok((Lambda::False { t: Type::Bool }, i + 1)),
        Token::Identifier(n) => Ok((Lambda::Var { v: n.clone(), t: Type::TVar }, i + 1)),
        Token::Keyword(Keyword::Fun) => abstraction(ts, i),
        Token::Keyword(Keyword::If) => conditional(ts, i),
        Token::LPar => match expr(ts, i + 1) {
            Err(e) => Err(e),
            Ok((inner, j)) => match expected(ts, j, &Token::RPar) {
                Err(e) => Err(e),
                Ok(k) => Ok((inner, k)),
            },
        },
        _ => Err(ParseError::UnexpectedToken),
    }
}

/// Parses the expression that starts at place `i`.
pub fn expr(ts: &Vec<Token>, i: usize) -> (r: Result<(Lambda, usize), ParseError>)
    ensures
        parsed_lambda(r) == expr_spec(tokens_view(ts@), i as int),
        r matches Ok((_, j)) ==> i < j <= ts.len(),
    decreases ts.len() - i, 2nat,
{
    match lambda(ts, i) {
        Err(e) => Err(e),
        Ok((l, j)) => climb(ts, 0, l, j),
    }
}

/// Parses the operators that follow `l` at place `i` and bind no looser
/// than `min`, and their right operands.
fn climb(ts: &Vec<Token>, min: u8, l: Lambda, i: usize) -> (r: Result<(Lambda, usize), ParseError>)
    requires
        i <= ts.len(),
    ensures
        parsed_lambda(r) == climb_spec(tokens_view(ts@), min as int, l@, i as int),
        r matches Ok((_, j)) ==> i <= j <= ts.len(),
        r matches Ok((_, j)) ==> (operator(at(tokens_view(ts@), i as int)) matches Some((_, p))
            && p >= min) ==> i < j,
    decreases ts.len() - i, 3nat,
{
    match operator_at(ts, i) {
        None => Ok((l, i)),
        Some((op, prec)) => {
            if prec < min {
                return Ok((l, i));
            }
            match lambda(ts, i + 1) {
                Err(e) => Err(e),
                Ok((r, j)) => match raise(ts, prec, r, j) {
                    Err(e) => Err(e),
                    Ok((r2, k)) => climb(
                        ts,
                        min,
                        Lambda::BinExpr { b: op, l: Box::new(l), r: Box::new(r2), t: Type::TVar },
                        k,
                    ),
                },
            }
        },
    }
}

/// Parses the operators that follow the right operand `r` at place `i` and
/// bind tighter than `prec`, and their right operands.
fn raise(ts: &Vec<Token>, prec: u8, r: Lambda, i: usize) -> (res: Result<
    (Lambda, usize),
    ParseError,
>)
    requires
        i <= ts.len(),
    ensures
        parsed_lambda(res) == raise_spec(tokens_view(ts@), prec as int, r@, i as int),
        res matches Ok((_, j)) ==> i <= j <= ts.len(),
    decreases ts.len() - i, 4nat,
{
    match operator_at(ts, i) {
        None => Ok((r, i)),
        Some((_, next)) => {
            if next > prec {
                match climb(ts, next, r, i) {
                    Err(e) => Err(e),
                    Ok((r2, j)) => raise(ts, prec, r2, j),
                }
            } else {
                Ok((r, i))
            }
        },
    }
}

/// The decimal that must stand at place `i`, and the place behind it.
pub open spec fn expect_float(ts: Seq<TokenView>, i: int) -> Result<(Decimal, int), ParseError> {
    match at(ts, i) {
        Some(TokenView::Float(f)) => Ok((f, i + 1)),
        _ => Err(refuse(ts, i)),
    }
}

/// The action that starts at place `i`, and the place behind it:
/// `?c;` or `!c;`.
pub open spec fn action_spec(ts: Seq<TokenView>, i: int) -> Result<(ActView, int), ParseError> {
    match at(ts, i) {
        Some(TokenView::QMark) => match expect_ident(ts, i + 1) {
            Err(e) => Err(e),
            Ok((c, j)) => match expect(ts, j, TokenView::Semicolon) {
                Err(e) => Err(e),
                Ok(k) => Ok((ActView::Input(c), k)),
            },
        },
        Some(TokenView::ExMark) => match expect_ident(ts, i + 1) {
            Err(e) => Err(e),
            Ok((c, j)) => match expect(ts, j, TokenView::Semicolon) {
                Err(e) => Err(e),
                Ok(k) => Ok((ActView::Output(c), k)),
            },
        },
        _ => Err(refuse(ts, i)),
    }
}

/// The expressions with commas between them that start at place `i`, none
/// where no expression starts there, and the place behind them. None of
/// them has an operator on top.
pub open spec fn arguments_spec(ts: Seq<TokenView>, i: int) -> Result<
    (Seq<LambdaView>, int),
    ParseError,
> {
    if !starts_lambda(at(ts, i)) {
        Ok((Seq::empty(), i))
    } else {
        match lambda_spec(ts, i) {
            Err(e) => Err(e),
            Ok((e, j)) => more_arguments_spec(ts, j, seq![e]),
        }
    }
}

/// The expressions `seen` and those that follow from place `i` on, each behind a comma.
pub open spec fn more_arguments_spec(ts: Seq<TokenView>, i: int, seen: Seq<LambdaView>) -> Result<
    (Seq<LambdaView>, int),
    ParseError,
>
    decreases ts.len() - i,
{
    if at(ts, i) == Some(TokenView::Comma) {
        match lambda_spec(ts, i + 1) {
            Err(e) => Err(e),
            Ok((e, j)) => if j <= i || j > ts.len() {
                Err(ParseError::UnexpectedToken)
            } else {
                more_arguments_spec(ts, j, seen.push(e))
            },
        }
    } else {
        Ok((seen, i))
    }
}

/// The guarded process that starts at place `i`, and the place behind it.
pub open spec fn guarded_spec(ts: Seq<TokenView>, i: int) -> Result<
    ((ActView, ProcessView), int),
    ParseError,
>
    decreases ts.len() - i, 0nat,
{
    match action_spec(ts, i) {
        Err(e) => Err(e),
        Ok((a, j)) => if j <= i || j > ts.len() {
            Err(ParseError::UnexpectedToken)
        } else {
            match process_spec(ts, j) {
                Err(e) => Err(e),
                Ok((p, k)) => Ok(((a, p), k)),
            }
        },
    }
}

/// The process that starts at place `i`, and the place behind it.
///
/// ```text
/// process := "let" "new" ident "@" decimal "in" process
///          | "val" pattern "=" expression "in" process
///          | "(" process ("|" process)+ ")"
///          | "end"
///          | "do" action process ("or" action process)+
///          | action process
///          | ident "(" (expression ("," expression)*)? ")"
///          | integer "of" process
///          | "replicate" action process
/// ```
pub open spec fn process_spec(ts: Seq<TokenView>, i: int) -> Result<(ProcessView, int), ParseError>
    decreases ts.len() - i, 1nat,
{
    match at(ts, i) {
        Some(TokenView::Keyword(Keyword::Let)) => match expect(
            ts,
            i + 1,
            TokenView::Keyword(Keyword::New),
        ) {
            Err(e) => Err(e),
            Ok(j) => match expect_ident(ts, j) {
                Err(e) => Err(e),
                Ok((c, k)) => match expect(ts, k, TokenView::At) {
                    Err(e) => Err(e),
                    Ok(m) => match expect_float(ts, m) {
                        Err(e) => Err(e),
                        Ok((r, n)) => match expect(ts, n, TokenView::Keyword(Keyword::In)) {
                            Err(e) => Err(e),
                            Ok(q) => match process_spec(ts, q) {
                                Err(e) => Err(e),
                                Ok((p, end)) => Ok(
                                    (ProcessView::Restriction(c, r, Box::new(p)), end),
                                ),
                            },
                        },
                    },
                },
            },
        },
        Some(TokenView::Keyword(Keyword::Val)) => match pattern_spec(ts, i + 1) {
            Err(e) => Err(e),
            Ok((pat, j)) => match expect(ts, j, TokenView::Equals) {
                Err(e) => Err(e),
                Ok(k) => match lambda_spec(ts, k) {
                    Err(e) => Err(e),
                    Ok((e, m)) => match expect(ts, m, TokenView::Keyword(Keyword::In)) {
                        Err(e) => Err(e),
                        Ok(n) => match (if n <= i || n > ts.len() {
                            Err(ParseError::UnexpectedToken)
                        } else {
                            process_spec(ts, n)
                        }) {
                            Err(e) => Err(e),
                            Ok((p, end)) => Ok((ProcessView::LetVal(pat, e, Box::new(p)), end)),
                        },
                    },
                },
            },
        },
        Some(TokenView::LPar) => match process_spec(ts, i + 1) {
            Err(e) => Err(e),
            Ok((p, j)) => if at(ts, j) != Some(TokenView::Pipe) || j <= i {
                Err(refuse(ts, j))
            } else {
                match parallel_rest_spec(ts, j, seq![p]) {
                    Err(e) => Err(e),
                    Ok((ps, k)) => match expect(ts, k, TokenView::RPar) {
                        Err(e) => Err(e),
                        Ok(end) => Ok((ProcessView::Parallel(ps), end)),
                    },
                }
            },
        },
        Some(TokenView::Keyword(Keyword::End)) => Ok((ProcessView::Termination, i + 1)),
        Some(TokenView::Keyword(Keyword::Do)) => match guarded_spec(ts, i + 1) {
            Err(e) => Err(e),
            Ok((g, j)) => if at(ts, j) != Some(TokenView::Keyword(Keyword::Or)) || j <= i {
                Err(refuse(ts, j))
            } else {
                match choice_rest_spec(ts, j, seq![g]) {
                    Err(e) => Err(e),
                    Ok((gs, end)) => Ok((ProcessView::Choice(gs), end)),
                }
            },
        },
        Some(TokenView::QMark) => match guarded_spec(ts, i) {
            Err(e) => Err(e),
            Ok((g, end)) => Ok((ProcessView::Action(g.0, Box::new(g.1)), end)),
        },
        Some(TokenView::ExMark) => match guarded_spec(ts, i) {
            Err(e) => Err(e),
            Ok((g, end)) => Ok((ProcessView::Action(g.0, Box::new(g.1)), end)),
        },
        Some(TokenView::Identifier(name)) => match expect(ts, i + 1, TokenView::LPar) {
            Err(e) => Err(e),
            Ok(j) => match arguments_spec(ts, j) {
                Err(e) => Err(e),
                Ok((args, k)) => match expect(ts, k, TokenView::RPar) {
                    Err(e) => Err(e),
                    Ok(end) => Ok((ProcessView::Instance(name, args), end)),
                },
            },
        },
        Some(TokenView::Integer(n)) => match expect(ts, i + 1, TokenView::Keyword(Keyword::Of)) {
            Err(e) => Err(e),
            Ok(j) => match process_spec(ts, j) {
                Err(e) => Err(e),
                Ok((p, end)) => if 0 <= n <= usize::MAX {
                    Ok((ProcessView::Repetition(n as nat, Box::new(p)), end))
                } else {
                    Err(ParseError::CountTooLarge)
                },
            },
        },
        Some(TokenView::Keyword(Keyword::Replicate)) => match action_spec(ts, i + 1) {
            Err(e) => Err(e),
            Ok((a, j)) => match (if j <= i || j > ts.len() {
                Err(ParseError::UnexpectedToken)
            } else {
                process_spec(ts, j)
            }) {
                Err(e) => Err(e),
                Ok((p, end)) => Ok((ProcessView::Replication(a, Box::new(p)), end)),
            },
        },
        _ => Err(refuse(ts, i)),
    }
}

/// The processes `seen` and those that follow from place `i` on, each behind `|`.
pub open spec fn parallel_rest_spec(ts: Seq<TokenView>, i: int, seen: Seq<ProcessView>) -> Result<
    (Seq<ProcessView>, int),
    ParseError,
>
    decreases ts.len() - i, 2nat,
{
    if at(ts, i) == Some(TokenView::Pipe) {
        match process_spec(ts, i + 1) {
            Err(e) => Err(e),
            Ok((p, j)) => if j <= i || j > ts.len() {
                Err(ParseError::UnexpectedToken)
            } else {
                parallel_rest_spec(ts, j, seen.push(p))
            },
        }
    } else {
        Ok((seen, i))
    }
}

/// The guarded processes `seen` and those that follow from place `i` on, each behind `or`.
pub open spec fn choice_rest_spec(
    ts: Seq<TokenView>,
    i: int,
    seen: Seq<(ActView, ProcessView)>,
) -> Result<(Seq<(ActView, ProcessView)>, int), ParseError>
    decreases ts.len() - i, 2nat,
{
    if at(ts, i) == Some(TokenView::Keyword(Keyword::Or)) {
        match guarded_spec(ts, i + 1) {
            Err(e) => Err(e),
            Ok((g, j)) => if j <= i || j > ts.len() {
                Err(ParseError::UnexpectedToken)
            } else {
                choice_rest_spec(ts, j, seen.push(g))
            },
        }
    } else {
        Ok((seen, i))
    }
}

/// Whether a declaration can start with the token.
pub open spec fn starts_declaration(t: Option<TokenView>) -> bool {
    t == Some(TokenView::Keyword(Keyword::New)) || t == Some(TokenView::Keyword(Keyword::Run))
        || t == Some(TokenView::Keyword(Keyword::Val)) || t == Some(
        TokenView::Keyword(Keyword::Let),
    )
}

/// The declaration that starts at place `i`, and the place behind it.
///
/// ```text
/// declaration := "new" ident "@" decimal
///              | "run" process
///              | "val" pattern "=" expression
///              | "let" ident "(" (pattern ("," pattern)*)? ")" "=" process
/// ```
pub open spec fn declaration_spec(ts: Seq<TokenView>, i: int) -> Result<
    (DeclarationView, int),
    ParseError,
> {
    match at(ts, i) {
        Some(TokenView::Keyword(Keyword::New)) => match expect_ident(ts, i + 1) {
            Err(e) => Err(e),
            Ok((c, j)) => match expect(ts, j, TokenView::At) {
                Err(e) => Err(e),
                Ok(k) => match expect_float(ts, k) {
                    Err(e) => Err(e),
                    Ok((r, end)) => Ok((DeclarationView::NewChannel(c, r), end)),
                },
            },
        },
        Some(TokenView::Keyword(Keyword::Run)) => match process_spec(ts, i + 1) {
            Err(e) => Err(e),
            Ok((p, end)) => Ok((DeclarationView::Run(p), end)),
        },
        Some(TokenView::Keyword(Keyword::Val)) => match pattern_spec(ts, i + 1) {
            Err(e) => Err(e),
            Ok((pat, j)) => match expect(ts, j, TokenView::Equals) {
                Err(e) => Err(e),
                Ok(k) => match lambda_spec(ts, k) {
                    Err(e) => Err(e),
                    Ok((e, end)) => Ok((DeclarationView::Val(pat, e), end)),
                },
            },
        },
        Some(TokenView::Keyword(Keyword::Let)) => match expect_ident(ts, i + 1) {
            Err(e) => Err(e),
            Ok((name, j)) => match expect(ts, j, TokenView::LPar) {
                Err(e) => Err(e),
                Ok(k) => match patterns_spec(ts, k) {
                    Err(e) => Err(e),
                    Ok((formals, m)) => match expect(ts, m, TokenView::RPar) {
                        Err(e) => Err(e),
                        Ok(n) => match expect(ts, n, TokenView::Equals) {
                            Err(e) => Err(e),
                            Ok(q) => match process_spec(ts, q) {
                                Err(e) => Err(e),
                                Ok((body, end)) => Ok(
                                    (DeclarationView::Def(name, formals, body), end),
                                ),
                            },
                        },
                    },
                },
            },
        },
        _ => Err(refuse(ts, i)),
    }
}

/// The declarations `seen` and those that follow from place `i` to the end
/// of the tokens.
pub open spec fn declarations_spec(ts: Seq<TokenView>, i: int, seen: Seq<DeclarationView>) -> Result<
    Seq<DeclarationView>,
    ParseError,
>
    decreases ts.len() - i,
{
    if starts_declaration(at(ts, i)) {
        match declaration_spec(ts, i) {
            Err(e) => Err(e),
            Ok((d, j)) => if j <= i || j > ts.len() {
                Err(ParseError::UnexpectedToken)
            } else {
                declarations_spec(ts, j, seen.push(d))
            },
        }
    } else if 0 <= i < ts.len() {
        Err(ParseError::TrailingTokens)
    } else {
        Ok(seen)
    }
}

/// The program that the tokens write: one declaration or more.
pub open spec fn program_spec(ts: Seq<TokenView>) -> Result<Seq<DeclarationView>, ParseError> {
    if !starts_declaration(at(ts, 0)) {
        Err(refuse(ts, 0))
    } else {
        declarations_spec(ts, 0, Seq::empty())
    }
}

/// What parsing a process returned, with the process by its view.
pub open spec fn parsed_process(r: Result<(Process, usize), ParseError>) -> Result<
    (ProcessView, int),
    ParseError,
> {
    match r {
        Ok((p, j)) => Ok((p@, j as int)),
        Err(e) => Err(e),
    }
}

/// What parsing a guarded process returned, with its parts by their views.
pub open spec fn parsed_guarded(r: Result<((Act, Process), usize), ParseError>) -> Result<
    ((ActView, ProcessView), int),
    ParseError,
> {
    match r {
        Ok((g, j)) => Ok(((g.0@, g.1@), j as int)),
        Err(e) => Err(e),
    }
}

/// The declarations of a list, one by one.
pub open spec fn declarations_view(ds: Seq<Declaration>) -> Seq<DeclarationView> {
    Seq::new(ds.len(), |k: int| ds[k]@)
}

/// The view of a list with one process more.
proof fn lemma_processes_push(ps: Seq<Process>, p: Process)
    ensures
        processes_view(ps.push(p)) == processes_view(ps).push(p@),
{
    assert(ps.push(p).drop_last() =~= ps);
}

/// The view of a list with one guarded process more.
proof fn lemma_choices_push(cs: Seq<(Act, Process)>, g: (Act, Process))
    ensures
        choices_view(cs.push(g)) == choices_view(cs).push((g.0@, g.1@)),
{
    assert(cs.push(g).drop_last() =~= cs);
}

/// Reads the decimal that must stand at place `i`.
fn expected_float(ts: &Vec<Token>, i: usize) -> (r: Result<(Decimal, usize), ParseError>)
    ensures
        match r {
            Ok((f, j)) => Ok((f, j as int)),
            Err(e) => Err(e),
        } == expect_float(tokens_view(ts@), i as int),
        r matches Ok((_, j)) ==> j == i + 1 && j <= ts.len(),
{
    if i < ts.len() {
        match &ts[i] {
            Token::Float(f) => Ok((*f, i + 1)),
            _ => Err(ParseError::UnexpectedToken),
        }
    } else {
        Err(ParseError::UnexpectedEnd)
    }
}

/// Parses the action that starts at place `i`.
pub fn action(ts: &Vec<Token>, i: usize) -> (r: Result<(Act, usize), ParseError>)
    ensures
        match r {
            Ok((a, j)) => Ok((a@, j as int)),
            Err(e) => Err(e),
        } == action_spec(tokens_view(ts@), i as int),
        r matches Ok((_, j)) ==> i < j <= ts.len(),
{
    if i >= ts.len() {
        return Err(ParseError::UnexpectedEnd);
    }
    let input = match &ts[i] {
        Token::QMark => true,
        Token::ExMark => false,
        _ => {
            return Err(ParseError::UnexpectedToken);
        },
    };
    match expected_ident(ts, i + 1) {
        Err(e) => Err(e),
        Ok((c, j)) => match expected(ts, j, &Token::Semicolon) {
            Err(e) => Err(e),
            Ok(k) => if input {
                Ok((Act::Input(c), k))
            } else {
                Ok((Act::Output(c), k))
            },
        },
    }
}

/// Whether an expression can start at place `i`.
fn lambda_starts(ts: &Vec<Token>, i: usize) -> (b: bool)
    ensures
        b == starts_lambda(at(tokens_view(ts@), i as int)),
{
    if i < ts.len() {
        match &ts[i] {
            Token::Integer(_) => true,
            Token::Float(_) => true,
            Token::Keyword(Keyword::True) => true,
            Token::Keyword(Keyword::False) => true,
            Token::Keyword(Keyword::Fun) => true,
            Token::Keyword(Keyword::If) => true,
            Token::Identifier(_) => true,
            Token::LPar => true,
            _ => false,
        }
    } else {
        false
    }
}

/// Parses the expressions with commas between them that start at place `i`.
pub fn arguments(ts: &Vec<Token>, i: usize) -> (r: Result<(Vec<Lambda>, usize), ParseError>)
    requires
        i <= ts.len(),
    ensures
        match r {
            Ok((es, j)) => Ok((lambdas_view(es@), j as int)),
            Err(e) => Err(e),
        } == arguments_spec(tokens_view(ts@), i as int),
        r matches Ok((_, j)) ==> i <= j <= ts.len(),
{
    if !lambda_starts(ts, i) {
        let none: Vec<Lambda> = Vec::new();
        proof {
            assert(lambdas_view(none@) =~= Seq::<LambdaView>::empty());
        }
        return Ok((none, i));
    }
    match lambda(ts, i) {
        Err(e) => Err(e),
        Ok((e, j)) => {
            let mut seen: Vec<Lambda> = Vec::new();
            proof {
                assert(lambdas_view(seen@) =~= Seq::<LambdaView>::empty());
                lemma_lambdas_push(seen@, e);
                assert(Seq::<LambdaView>::empty().push(e@) =~= seq![e@]);
            }
            seen.push(e);
            more_arguments(ts, j, seen)
        },
    }
}

/// Parses the expressions that follow `seen` from place `i` on, each behind a comma.
fn more_arguments(ts: &Vec<Token>, i: usize, seen: Vec<Lambda>) -> (r: Result<
    (Vec<Lambda>, usize),
    ParseError,
>)
    requires
        i <= ts.len(),
    ensures
        match r {
            Ok((es, j)) => Ok((lambdas_view(es@), j as int)),
            Err(e) => Err(e),
        } == more_arguments_spec(tokens_view(ts@), i as int, lambdas_view(seen@)),
        r matches Ok((_, j)) ==> i <= j <= ts.len(),
    decreases ts.len() - i,
{
    if is_at(ts, i, &Token::Comma) {
        match lambda(ts, i + 1) {
            Err(e) => Err(e),
            Ok((e, j)) => {
                let mut seen = seen;
                proof {
                    lemma_lambdas_push(seen@, e);
                }
                seen.push(e);
                more_arguments(ts, j, seen)
            },
        }
    } else {
        Ok((seen, i))
    }
}

/// Parses the guarded process that starts at place `i`.
pub fn guarded(ts: &Vec<Token>, i: usize) -> (r: Result<((Act, Process), usize), ParseError>)
    ensures
        parsed_guarded(r) == guarded_spec(tokens_view(ts@), i as int),
        r matches Ok((_, j)) ==> i < j <= ts.len(),
    decreases ts.len() - i, 1nat,
{
    match action(ts, i) {
        Err(e) => Err(e),
        Ok((a, j)) => match process(ts, j) {
            Err(e) => Err(e),
            Ok((p, k)) => Ok(((a, p), k)),
        },
    }
}

/// Parses `let new c@r in P`, where `let` stands at place `i`.
fn restriction(ts: &Vec<Token>, i: usize) -> (r: Result<(Process, usize), ParseError>)
    requires
        i < ts.len(),
        ts[i as int]@ == TokenView::Keyword(Keyword::Let),
    ensures
        parsed_process(r) == process_spec(tokens_view(ts@), i as int),
        r matches Ok((_, j)) ==> i < j <= ts.len(),
    decreases ts.len() - i, 0nat,
{
    let j = match expected(ts, i + 1, &Token::Keyword(Keyword::New)) {
        Err(e) => {
            return Err(e);
        },
        Ok(j) => j,
    };
    let (c, k) = match expected_ident(ts, j) {
        Err(e) => {
            return Err(e);
        },
        Ok(x) => x,
    };
    let m = match expected(ts, k, &Token::At) {
        Err(e) => {
            return Err(e);
        },
        Ok(m) => m,
    };
    let (rate, n) = match expected_float(ts, m) {
        Err(e) => {
            return Err(e);
        },
        Ok(x) => x,
    };
    let q = match expected(ts, n, &Token::Keyword(Keyword::In)) {
        Err(e) => {
            return Err(e);
        },
        Ok(q) => q,
    };
    match process(ts, q) {
        Err(e) => Err(e),
        Ok((p, end)) => Ok((Process::Restriction(c, rate, Box::new(p)), end)),
    }
}

/// Parses `val pattern = e in P`, where `val` stands at place `i`.
fn binding(ts: &Vec<Token>, i: usize) -> (r: Result<(Process, usize), ParseError>)
    requires
        i < ts.len(),
        ts[i as int]@ == TokenView::Keyword(Keyword::Val),
    ensures
        parsed_process(r) == process_spec(tokens_view(ts@), i as int),
        r matches Ok((_, j)) ==> i < j <= ts.len(),
    decreases ts.len() - i, 0nat,
{
    let (pat, j) = match pattern(ts, i + 1) {
        Err(e) => {
            return Err(e);
        },
        Ok(x) => x,
    };
    let k = match expected(ts, j, &Token::Equals) {
        Err(e) => {
            return Err(e);
        },
        Ok(k) => k,
    };
    let (e, m) = match lambda(ts, k) {
        Err(e) => {
            return Err(e);
        },
        Ok(x) => x,
    };
    let n = match expected(ts, m, &Token::Keyword(Keyword::In)) {
        Err(e) => {
            return Err(e);
        },
        Ok(n) => n,
    };
    match process(ts, n) {
        Err(e) => Err(e),
        Ok((p, end)) => Ok((Process::LetVal(pat, e, Box::new(p)), end)),
    }
}

/// Parses `(P | Q | ..)`, where `(` stands at place `i`.
fn parallel(ts: &Vec<Token>, i: usize) -> (r: Result<(Process, usize), ParseError>)
    requires
        i < ts.len(),
        ts[i as int]@ == TokenView::LPar,
    ensures
        parsed_process(r) == process_spec(tokens_view(ts@), i as int),
        r matches Ok((_, j)) ==> i < j <= ts.len(),
    decreases ts.len() - i, 0nat,
{
    let (p, j) = match process(ts, i + 1) {
        Err(e) => {
            return Err(e);
        },
        Ok(x) => x,
    };
    if !is_at(ts, j, &Token::Pipe) {
        return Err(refusal(ts, j));
    }
    let mut seen: Vec<Process> = Vec::new();
    proof {
        assert(processes_view(seen@) =~= Seq::<ProcessView>::empty());
        lemma_processes_push(seen@, p);
        assert(Seq::<ProcessView>::empty().push(p@) =~= seq![p@]);
    }
    seen.push(p);
    let (ps, k) = match parallel_rest(ts, j, seen) {
        Err(e) => {
            return Err(e);
        },
        Ok(x) => x,
    };
    match expected(ts, k, &Token::RPar) {
        Err(e) => Err(e),
        Ok(end) => Ok((Process::Parallel(ps), end)),
    }
}

/// Parses `do a P or b Q ..`, where `do` stands at place `i`.
fn choice(ts: &Vec<Token>, i: usize) -> (r: Result<(Process, usize), ParseError>)
    requires
        i < ts.len(),
        ts[i as int]@ == TokenView::Keyword(Keyword::Do),
    ensures
        parsed_process(r) == process_spec(tokens_view(ts@), i as int),
        r matches Ok((_, j)) ==> i < j <= ts.len(),
    decreases ts.len() - i, 0nat,
{
    let (g, j) = match guarded(ts, i + 1) {
        Err(e) => {
            return Err(e);
        },
        Ok(x) => x,
    };
    if !is_at(ts, j, &Token::Keyword(Keyword::Or)) {
        return Err(refusal(ts, j));
    }
    let mut seen: Vec<(Act, Process)> = Vec::new();
    proof {
        assert(choices_view(seen@) =~= Seq::<(ActView, ProcessView)>::empty());
        lemma_choices_push(seen@, g);
        assert(Seq::<(ActView, ProcessView)>::empty().push((g.0@, g.1@)) =~= seq![(g.0@, g.1@)]);
    }
    seen.push(g);
    match choice_rest(ts, j, seen) {
        Err(e) => Err(e),
        Ok((gs, end)) => Ok((Process::Choice(gs), end)),
    }
}

/// Parses `name(e, ..)`, where the name stands at place `i`.
fn instance(ts: &Vec<Token>, i: usize) -> (r: Result<(Process, usize), ParseError>)
    requires
        i < ts.len(),
        ts[i as int]@ is Identifier,
    ensures
        parsed_process(r) == process_spec(tokens_view(ts@), i as int),
        r matches Ok((_, j)) ==> i < j <= ts.len(),
{
    let name = match &ts[i] {
        Token::Identifier(n) => n.clone(),
        _ => unreached(),
    };
    let j = match expected(ts, i + 1, &Token::LPar) {
        Err(e) => {
            return Err(e);
        },
        Ok(j) => j,
    };
    let (args, k) = match arguments(ts, j) {
        Err(e) => {
            return Err(e);
        },
        Ok(x) => x,
    };
    match expected(ts, k, &Token::RPar) {
        Err(e) => Err(e),
        Ok(end) => Ok((Process::Instance(name, args), end)),
    }
}

/// Parses `n of P`, where the number stands at place `i`.
fn repetition(ts: &Vec<Token>, i: usize) -> (r: Result<(Process, usize), ParseError>)
    requires
        i < ts.len(),
        ts[i as int]@ is Integer,
    ensures
        parsed_process(r) == process_spec(tokens_view(ts@), i as int),
        r matches Ok((_, j)) ==> i < j <= ts.len(),
    decreases ts.len() - i, 0nat,
{
    let n: i64 = match &ts[i] {
        Token::Integer(n) => *n,
        _ => unreached(),
    };
    let j = match expected(ts, i + 1, &Token::Keyword(Keyword::Of)) {
        Err(e) => {
            return Err(e);
        },
        Ok(j) => j,
    };
    match process(ts, j) {
        Err(e) => Err(e),
        Ok((p, end)) => {
            if n < 0 || (n as u64) > (usize::MAX as u64) {
                return Err(ParseError::CountTooLarge);
            }
            Ok((Process::Repetition(n as usize, Box::new(p)), end))
        },
    }
}

/// Parses `replicate a P`, where `replicate` stands at place `i`.
fn replication(ts: &Vec<Token>, i: usize) -> (r: Result<(Process, usize), ParseError>)
    requires
        i < ts.len(),
        ts[i as int]@ == TokenView::Keyword(Keyword::Replicate),
    ensures
        parsed_process(r) == process_spec(tokens_view(ts@), i as int),
        r matches Ok((_, j)) ==> i < j <= ts.len(),
    decreases ts.len() - i, 0nat,
{
    match action(ts, i + 1) {
        Err(e) => Err(e),
        Ok((a, j)) => match process(ts, j) {
            Err(e) => Err(e),
            Ok((p, end)) => Ok((Process::Replication(a, Box::new(p)), end)),
        },
    }
}

/// Parses the process that starts at place `i`.
pub fn process(ts: &Vec<Token>, i: usize) -> (r: Result<(Process, usize), ParseError>)
    ensures
        parsed_process(r) == process_spec(tokens_view(ts@), i as int),
        r matches Ok((_, j)) ==> i < j <= ts.len(),
    decreases ts.len() - i, 2nat,
{
    if i >= ts.len() {
        return Err(ParseError::UnexpectedEnd);
    }
    match &ts[i] {
        Token::Keyword(Keyword::Let) => restriction(ts, i),
        Token::Keyword(Keyword::Val) => binding(ts, i),
        Token::LPar => parallel(ts, i),
        Token::Keyword(Keyword::End) => Ok((Process::Termination, i + 1)),
        Token::Keyword(Keyword::Do) => choice(ts, i),
        Token::QMark => match guarded(ts, i) {
            Err(e) => Err(e),
            Ok((g, end)) => Ok((Process::Action(g.0, Box::new(g.1)), end)),
        },
        Token::ExMark => match guarded(ts, i) {
            Err(e) => Err(e),
            Ok((g, end)) => Ok((Process::Action(g.0, Box::new(g.1)), end)),
        },
        Token::Identifier(_) => instance(ts, i),
        Token::Integer(_) => repetition(ts, i),
        Token::Keyword(Keyword::Replicate) => replication(ts, i),
        _ => Err(ParseError::UnexpectedToken),
    }
}

/// Parses the processes that follow `seen` from place `i` on, each behind `|`.
fn parallel_rest(ts: &Vec<Token>, i: usize, seen: Vec<Process>) -> (r: Result<
    (Vec<Process>, usize),
    ParseError,
>)
    requires
        i <= ts.len(),
    ensures
        match r {
            Ok((ps, j)) => Ok((processes_view(ps@), j as int)),
            Err(e) => Err(e),
        } == parallel_rest_spec(tokens_view(ts@), i as int, processes_view(seen@)),
        r matches Ok((_, j)) ==> i <= j <= ts.len(),
    decreases ts.len() - i, 3nat,
{
    if is_at(ts, i, &Token::Pipe) {
        match process(ts, i + 1) {
            Err(e) => Err(e),
            Ok((p, j)) => {
                let mut seen = seen;
                proof {
                    lemma_processes_push(seen@, p);
                }
                seen.push(p);
                parallel_rest(ts, j, seen)
            },
        }
    } else {
        Ok((seen, i))
    }
}

/// Parses the guarded processes that follow `seen` from place `i` on, each behind `or`.
fn choice_rest(ts: &Vec<Token>, i: usize, seen: Vec<(Act, Process)>) -> (r: Result<
    (Vec<(Act, Process)>, usize),
    ParseError,
>)
    requires
        i <= ts.len(),
    ensures
        match r {
            Ok((gs, j)) => Ok((choices_view(gs@), j as int)),
            Err(e) => Err(e),
        } == choice_rest_spec(tokens_view(ts@), i as int, choices_view(seen@)),
        r matches Ok((_, j)) ==> i <= j <= ts.len(),
    decreases ts.len() - i, 3nat,
{
    if is_at(ts, i, &Token::Keyword(Keyword::Or)) {
        match guarded(ts, i + 1) {
            Err(e) => Err(e),
            Ok((g, j)) => {
                let mut seen = seen;
                proof {
                    lemma_choices_push(seen@, g);
                }
                seen.push(g);
                choice_rest(ts, j, seen)
            },
        }
    } else {
        Ok((seen, i))
    }
}

/// Whether a declaration can start at place `i`.
fn declaration_starts(ts: &Vec<Token>, i: usize) -> (b: bool)
    ensures
        b == starts_declaration(at(tokens_view(ts@), i as int)),
        b ==> i < ts.len(),
{
    if i < ts.len() {
        match &ts[i] {
            Token::Keyword(Keyword::New) => true,
            Token::Keyword(Keyword::Run) => true,
            Token::Keyword(Keyword::Val) => true,
            Token::Keyword(Keyword::Let) => true,
            _ => false,
        }
    } else {
        false
    }
}

/// Parses `let name(pattern, ..) = P`, where `let` stands at place `i`.
fn definition(ts: &Vec<Token>, i: usize) -> (r: Result<(Declaration, usize), ParseError>)
    requires
        i < ts.len(),
        ts[i as int]@ == TokenView::Keyword(Keyword::Let),
    ensures
        match r {
            Ok((d, j)) => Ok((d@, j as int)),
            Err(e) => Err(e),
        } == declaration_spec(tokens_view(ts@), i as int),
        r matches Ok((_, j)) ==> i < j <= ts.len(),
{
    let (name, j) = match expected_ident(ts, i + 1) {
        Err(e) => {
            return Err(e);
        },
        Ok(x) => x,
    };
    let k = match expected(ts, j, &Token::LPar) {
        Err(e) => {
            return Err(e);
        },
        Ok(k) => k,
    };
    let (formals, m) = match patterns(ts, k) {
        Err(e) => {
            return Err(e);
        },
        Ok(x) => x,
    };
    let n = match expected(ts, m, &Token::RPar) {
        Err(e) => {
            return Err(e);
        },
        Ok(n) => n,
    };
    let q = match expected(ts, n, &Token::Equals) {
        Err(e) => {
            return Err(e);
        },
        Ok(q) => q,
    };
    match process(ts, q) {
        Err(e) => Err(e),
        Ok((body, end)) => Ok((Declaration::Def(name, formals, body), end)),
    }
}

/// Parses `new c@r`, where `new` stands at place `i`.
fn channel(ts: &Vec<Token>, i: usize) -> (r: Result<(Declaration, usize), ParseError>)
    requires
        i < ts.len(),
        ts[i as int]@ == TokenView::Keyword(Keyword::New),
    ensures
        match r {
            Ok((d, j)) => Ok((d@, j as int)),
            Err(e) => Err(e),
        } == declaration_spec(tokens_view(ts@), i as int),
        r matches Ok((_, j)) ==> i < j <= ts.len(),
{
    let (c, j) = match expected_ident(ts, i + 1) {
        Err(e) => {
            return Err(e);
        },
        Ok(x) => x,
    };
    let k = match expected(ts, j, &Token::At) {
        Err(e) => {
            return Err(e);
        },
        Ok(k) => k,
    };
    match expected_float(ts, k) {
        Err(e) => Err(e),
        Ok((rate, end)) => Ok((Declaration::NewChannel(c, rate), end)),
    }
}

/// Parses `val pattern = e`, where `val` stands at place `i`.
fn value(ts: &Vec<Token>, i: usize) -> (r: Result<(Declaration, usize), ParseError>)
    requires
        i < ts.len(),
        ts[i as int]@ == TokenView::Keyword(Keyword::Val),
    ensures
        match r {
            Ok((d, j)) => Ok((d@, j as int)),
            Err(e) => Err(e),
        } == declaration_spec(tokens_view(ts@), i as int),
        r matches Ok((_, j)) ==> i < j <= ts.len(),
{
    let (pat, j) = match pattern(ts, i + 1) {
        Err(e) => {
            return Err(e);
        },
        Ok(x) => x,
    };
    let k = match expected(ts, j, &Token::Equals) {
        Err(e) => {
            return Err(e);
        },
        Ok(k) => k,
    };
    match lambda(ts, k) {
        Err(e) => Err(e),
        Ok((e, end)) => Ok((Declaration::Val(pat, e), end)),
    }
}

/// Parses `run P`, where `run` stands at place `i`.
fn running(ts: &Vec<Token>, i: usize) -> (r: Result<(Declaration, usize), ParseError>)
    requires
        i < ts.len(),
        ts[i as int]@ == TokenView::Keyword(Keyword::Run),
    ensures
        match r {
            Ok((d, j)) => Ok((d@, j as int)),
            Err(e) => Err(e),
        } == declaration_spec(tokens_view(ts@), i as int),
        r matches Ok((_, j)) ==> i < j <= ts.len(),
{
    match process(ts, i + 1) {
        Err(e) => Err(e),
        Ok((p, end)) => Ok((Declaration::Run(p), end)),
    }
}

/// Parses the declaration that starts at place `i`.
pub fn declaration(ts: &Vec<Token>, i: usize) -> (r: Result<(Declaration, usize), ParseError>)
    ensures
        match r {
            Ok((d, j)) => Ok((d@, j as int)),
            Err(e) => Err(e),
        } == declaration_spec(tokens_view(ts@), i as int),
        r matches Ok((_, j)) ==> i < j <= ts.len(),
{
    if i >= ts.len() {
        return Err(ParseError::UnexpectedEnd);
    }
    match &ts[i] {
        Token::Keyword(Keyword::New) => channel(ts, i),
        Token::Keyword(Keyword::Run) => running(ts, i),
        Token::Keyword(Keyword::Val) => value(ts, i),
        Token::Keyword(Keyword::Let) => definition(ts, i),
        _ => Err(ParseError::UnexpectedToken),
    }
}

/// Parses the declarations that follow `seen` from place `i` to the end.
fn declarations(ts: &Vec<Token>, i: usize, seen: Vec<Declaration>) -> (r: Result<
    Vec<Declaration>,
    ParseError,
>)
    requires
        i <= ts.len(),
    ensures
        match r {
            Ok(ds) => Ok(declarations_view(ds@)),
            Err(e) => Err(e),
        } == declarations_spec(tokens_view(ts@), i as int, declarations_view(seen@)),
    decreases ts.len() - i,
{
    if declaration_starts(ts, i) {
        match declaration(ts, i) {
            Err(e) => Err(e),
            Ok((d, j)) => {
                let mut seen = seen;
                let ghost before = seen@;
                let ghost dv = d@;
                seen.push(d);
                proof {
                    assert(declarations_view(seen@) =~= declarations_view(before).push(dv));
                }
                declarations(ts, j, seen)
            },
        }
    } else if i < ts.len() {
        Err(ParseError::TrailingTokens)
    } else {
        Ok(seen)
    }
}

/// What parsing a program returned, with the program by its view.
pub open spec fn parsed_program(r: Result<Program, ParseError>) -> Result<
    Seq<DeclarationView>,
    ParseError,
> {
    match r {
        Ok(p) => Ok(p@),
        Err(e) => Err(e),
    }
}

/// Parses a program: one declaration or more, and nothing behind them.
pub fn program(ts: &Vec<Token>) -> (r: Result<Program, ParseError>)
    ensures
        parsed_program(r) == program_spec(tokens_view(ts@)),
{
    if !declaration_starts(ts, 0) {
        return Err(refusal(ts, 0));
    }
    let none: Vec<Declaration> = Vec::new();
    proof {
        assert(declarations_view(none@) =~= Seq::<DeclarationView>::empty());
    }
    match declarations(ts, 0, none) {
        Err(e) => Err(e),
        Ok(ds) => {
            proof {
                assert(Program::Prog(ds)@ =~= declarations_view(ds@));
            }
            Ok(Program::Prog(ds))
        },
    }
}

} // verus!
