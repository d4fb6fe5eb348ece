//! The value language: expressions, substitution and evaluation.
use crate::names::Order;
use crate::values::{decimal_order, Decimal, Substitutable, Type, TypeView};
use vstd::prelude::*;
use vstd::string::*;

verus! {

/// A binary operator of the value language.
#[derive(Clone, Copy, Debug, PartialEq, Eq, Structural)]
pub enum BinOp {
    Plus,
    Sub,
    Times,
    Div,
    Equal,
    Less,
    Greater,
    LEq,
    GEq,
    NotEqual,
}

/// Why an expression has no value.
#[derive(Clone, Copy, Debug, PartialEq, Eq, Structural)]
pub enum EvalError {
    /// Arithmetic or comparison on something that is no number.
    NotNumeric,
    /// An index into something that is no tuple.
    NotATuple,
    /// An index that the tuple does not have.
    IndexOutOfRange,
    /// An application of something that is no abstraction.
    NotAFunction,
    /// A condition that is neither true nor false.
    NotABoolean,
    /// An integer result outside the 64-bit range.
    Overflow,
    /// An integer division by zero.
    DivisionByZero,
    /// A sum, difference, product or quotient of two decimal literals, which
    /// this library does not compute.
    DecimalArithmetic,
    /// The expression nests deeper than the evaluation budget.
    TooDeep,
}

/// An expression of the value language. Every node carries a type tag `t`.
#[derive(Debug)]
pub enum Lambda {
    IntLiteral { i: i64, t: Type },
    FloatLiteral { f: Decimal, t: Type },
    True { t: Type },
    False { t: Type },
    Var { v: String, t: Type },
    Tuple { tup: Vec<Lambda>, t: Type },
    Index { i: i64, e: Box<Lambda>, t: Type },
    Abs { x: String, e: Box<Lambda>, t: Type },
    App { lhs: Box<Lambda>, rhs: Box<Lambda>, t: Type },
    IfExpr { c: Box<Lambda>, e1: Box<Lambda>, e2: Box<Lambda>, t: Type },
    BinExpr { b: BinOp, l: Box<Lambda>, r: Box<Lambda>, t: Type },
}

/// What a [`Lambda`] is, with names as sequences of characters.
pub ghost enum LambdaView {
    IntLiteral { i: i64, t: TypeView },
    FloatLiteral { f: Decimal, t: TypeView },
    True { t: TypeView },
    False { t: TypeView },
    Var { v: Seq<char>, t: TypeView },
    Tuple { tup: Seq<LambdaView>, t: TypeView },
    Index { i: i64, e: Box<LambdaView>, t: TypeView },
    Abs { x: Seq<char>, e: Box<LambdaView>, t: TypeView },
    App { lhs: Box<LambdaView>, rhs: Box<LambdaView>, t: TypeView },
    IfExpr { c: Box<LambdaView>, e1: Box<LambdaView>, e2: Box<LambdaView>, t: TypeView },
    BinExpr { b: BinOp, l: Box<LambdaView>, r: Box<LambdaView>, t: TypeView },
}

impl View for Lambda {
    type V = LambdaView;

    open spec fn view(&self) -> LambdaView
        decreases self,
    {
        match self {
            Lambda::IntLiteral { i, t } => LambdaView::IntLiteral { i: *i, t: t@ },
            Lambda::FloatLiteral { f, t } => LambdaView::FloatLiteral { f: *f, t: t@ },
            Lambda::True { t } => LambdaView::True { t: t@ },
            Lambda::False { t } => LambdaView::False { t: t@ },
            Lambda::Var { v, t } => LambdaView::Var { v: v@, t: t@ },
            Lambda::Tuple { tup, t } => LambdaView::Tuple { tup: lambdas_view(tup@), t: t@ },
            Lambda::Index { i, e, t } => LambdaView::Index { i: *i, e: Box::new((**e)@), t: t@ },
            Lambda::Abs { x, e, t } => LambdaView::Abs { x: x@, e: Box::new((**e)@), t: t@ },
            Lambda::App { lhs, rhs, t } => LambdaView::App {
                lhs: Box::new((**lhs)@),
                rhs: Box::new((**rhs)@),
                t: t@,
            },
            Lambda::IfExpr { c, e1, e2, t } => LambdaView::IfExpr {
                c: Box::new((**c)@),
                e1: Box::new((**e1)@),
                e2: Box::new((**e2)@),
                t: t@,
            },
            Lambda::BinExpr { b, l, r, t } => LambdaView::BinExpr {
                b: *b,
                l: Box::new((**l)@),
                r: Box::new((**r)@),
                t: t@,
            },
        }
    }
}

/// The expressions of a list, one by one.
pub open spec fn lambdas_view(es: Seq<Lambda>) -> Seq<LambdaView>
    decreases es,
{
    if es.len() == 0 {
        Seq::empty()
    } else {
        lambdas_view(es.drop_last()).push(es.last()@)
    }
}

/// The view of a list has the view of each element at its place.
pub proof fn lemma_lambdas_view(es: Seq<Lambda>)
    ensures
        lambdas_view(es).len() == es.len(),
        forall|k: int| 0 <= k < es.len() ==> (#[trigger] lambdas_view(es)[k]) == es[k]@,
    decreases es.len(),
{
    if es.len() > 0 {
        lemma_lambdas_view(es.drop_last());
        assert(lambdas_view(es) == lambdas_view(es.drop_last()).push(es.last()@));
    } else {
        assert(lambdas_view(es) == Seq::<LambdaView>::empty());
    }
}

/// The type tag of an expression.
pub open spec fn type_of(e: LambdaView) -> TypeView {
    match e {
        LambdaView::IntLiteral { t, .. } => t,
        LambdaView::FloatLiteral { t, .. } => t,
        LambdaView::True { t } => t,
        LambdaView::False { t } => t,
        LambdaView::Var { t, .. } => t,
        LambdaView::Tuple { t, .. } => t,
        LambdaView::Index { t, .. } => t,
        LambdaView::Abs { t, .. } => t,
        LambdaView::App { t, .. } => t,
        LambdaView::IfExpr { t, .. } => t,
        LambdaView::BinExpr { t, .. } => t,
    }
}

/// `e` with `dest` in place of every variable named `src`. A binder of the same
/// name does not stop the replacement: binders are taken to be fresh.
pub open spec fn substitute_spec(e: LambdaView, src: Seq<char>, dest: LambdaView) -> LambdaView
    decreases e,
{
    match e {
        LambdaView::IntLiteral { .. } => e,
        LambdaView::FloatLiteral { .. } => e,
        LambdaView::True { .. } => e,
        LambdaView::False { .. } => e,
        LambdaView::Var { v, .. } => if v == src {
            dest
        } else {
            e
        },
        LambdaView::Tuple { tup, t } => LambdaView::Tuple {
            tup: Seq::new(
                tup.len(),
                |k: int|
                    if 0 <= k < tup.len() {
                        substitute_spec(tup[k], src, dest)
                    } else {
                        e
                    },
            ),
            t,
        },
        LambdaView::Index { i, e: inner, t } => LambdaView::Index {
            i,
            e: Box::new(substitute_spec(*inner, src, dest)),
            t,
        },
        LambdaView::Abs { x, e: body, t } => LambdaView::Abs {
            x,
            e: Box::new(substitute_spec(*body, src, dest)),
            t,
        },
        LambdaView::App { lhs, rhs, t } => LambdaView::App {
            lhs: Box::new(substitute_spec(*lhs, src, dest)),
            rhs: Box::new(substitute_spec(*rhs, src, dest)),
            t,
        },
        LambdaView::IfExpr { c, e1, e2, t } => LambdaView::IfExpr {
            c: Box::new(substitute_spec(*c, src, dest)),
            e1: Box::new(substitute_spec(*e1, src, dest)),
            e2: Box::new(substitute_spec(*e2, src, dest)),
            t,
        },
        LambdaView::BinExpr { b, l, r, t } => LambdaView::BinExpr {
            b,
            l: Box::new(substitute_spec(*l, src, dest)),
            r: Box::new(substitute_spec(*r, src, dest)),
            t,
        },
    }
}

/// Whether a variable named `x` stands anywhere in `e`.
pub open spec fn occurs(e: LambdaView, x: Seq<char>) -> bool
    decreases e,
{
    match e {
        LambdaView::IntLiteral { .. } => false,
        LambdaView::FloatLiteral { .. } => false,
        LambdaView::True { .. } => false,
        LambdaView::False { .. } => false,
        LambdaView::Var { v, .. } => v == x,
        LambdaView::Tuple { tup, .. } => exists|k: int|
            0 <= k < tup.len() && occurs(#[trigger] tup[k], x),
        LambdaView::Index { e: inner, .. } => occurs(*inner, x),
        LambdaView::Abs { e: body, .. } => occurs(*body, x),
        LambdaView::App { lhs, rhs, .. } => occurs(*lhs, x) || occurs(*rhs, x),
        LambdaView::IfExpr { c, e1, e2, .. } => occurs(*c, x) || occurs(*e1, x) || occurs(*e2, x),
        LambdaView::BinExpr { l, r, .. } => occurs(*l, x) || occurs(*r, x),
    }
}

/// Replacing a variable that does not occur changes nothing.
pub proof fn lemma_substitute_absent(e: LambdaView, x: Seq<char>, v: LambdaView)
    requires
        !occurs(e, x),
    ensures
        substitute_spec(e, x, v) == e,
    decreases e,
{
    match e {
        LambdaView::Tuple { tup, t } => {
            let out = substitute_spec(e, x, v)->tup;
            assert forall|k: int| 0 <= k < tup.len() implies out[k] == tup[k] by {
                assert(!occurs(tup[k], x));
                lemma_substitute_absent(tup[k], x, v);
            }
            assert(out =~= tup);
        },
        LambdaView::Index { e: inner, .. } => {
            lemma_substitute_absent(*inner, x, v);
        },
        LambdaView::Abs { e: body, .. } => {
            lemma_substitute_absent(*body, x, v);
        },
        LambdaView::App { lhs, rhs, .. } => {
            lemma_substitute_absent(*lhs, x, v);
            lemma_substitute_absent(*rhs, x, v);
        },
        LambdaView::IfExpr { c, e1, e2, .. } => {
            lemma_substitute_absent(*c, x, v);
            lemma_substitute_absent(*e1, x, v);
            lemma_substitute_absent(*e2, x, v);
        },
        LambdaView::BinExpr { l, r, .. } => {
            lemma_substitute_absent(*l, x, v);
            lemma_substitute_absent(*r, x, v);
        },
        _ => {},
    }
}

/// Two replacements of different variables can be made in either order, when
/// neither value mentions the other's variable.
pub proof fn lemma_substitute_commutes(
    e: LambdaView,
    x: Seq<char>,
    v1: LambdaView,
    y: Seq<char>,
    v2: LambdaView,
)
    requires
        x != y,
        !occurs(v1, y),
        !occurs(v2, x),
    ensures
        substitute_spec(substitute_spec(e, x, v1), y, v2) == substitute_spec(
            substitute_spec(e, y, v2),
            x,
            v1,
        ),
    decreases e,
{
    match e {
        LambdaView::Var { v, .. } => {
            if v == x {
                lemma_substitute_absent(v1, y, v2);
            } else if v == y {
                lemma_substitute_absent(v2, x, v1);
            }
        },
        LambdaView::Tuple { tup, t } => {
            let a = substitute_spec(substitute_spec(e, x, v1), y, v2)->tup;
            let b = substitute_spec(substitute_spec(e, y, v2), x, v1)->tup;
            assert forall|k: int| 0 <= k < tup.len() implies a[k] == b[k] by {
                lemma_substitute_commutes(tup[k], x, v1, y, v2);
            }
            assert(a =~= b);
        },
        LambdaView::Index { e: inner, .. } => {
            lemma_substitute_commutes(*inner, x, v1, y, v2);
        },
        LambdaView::Abs { e: body, .. } => {
            lemma_substitute_commutes(*body, x, v1, y, v2);
        },
        LambdaView::App { lhs, rhs, .. } => {
            lemma_substitute_commutes(*lhs, x, v1, y, v2);
            lemma_substitute_commutes(*rhs, x, v1, y, v2);
        },
        LambdaView::IfExpr { c, e1, e2, .. } => {
            lemma_substitute_commutes(*c, x, v1, y, v2);
            lemma_substitute_commutes(*e1, x, v1, y, v2);
            lemma_substitute_commutes(*e2, x, v1, y, v2);
        },
        LambdaView::BinExpr { l, r, .. } => {
            lemma_substitute_commutes(*l, x, v1, y, v2);
            lemma_substitute_commutes(*r, x, v1, y, v2);
        },
        _ => {},
    }
}

/// The view of `true` or `false`, tagged as a boolean.
pub open spec fn boolean(b: bool) -> LambdaView {
    if b {
        LambdaView::True { t: TypeView::Bool }
    } else {
        LambdaView::False { t: TypeView::Bool }
    }
}

/// The two numbers that a binary operator works on.
pub ghost enum Operands {
    Integers(i64, i64),
    Decimals(Decimal, Decimal),
}

/// The two numbers that a binary operator works on: two integer literals
/// or two decimal literals, whatever their tags. Anything else is no pair
/// of numbers.
pub open spec fn operands(l: LambdaView, r: LambdaView) -> Result<Operands, EvalError> {
    match (l, r) {
        (LambdaView::IntLiteral { i: x, .. }, LambdaView::IntLiteral { i: y, .. }) => Ok(
            Operands::Integers(x, y),
        ),
        (LambdaView::FloatLiteral { f: a, .. }, LambdaView::FloatLiteral { f: b, .. }) => Ok(
            Operands::Decimals(a, b),
        ),
        _ => Err(EvalError::NotNumeric),
    }
}

/// What a comparison says of two numbers that stand as `o` says.
pub open spec fn comparison(op: BinOp, o: Order) -> bool {
    match op {
        BinOp::Equal => o == Order::Same,
        BinOp::Less => o == Order::Before,
        BinOp::Greater => o == Order::After,
        BinOp::LEq => o != Order::After,
        BinOp::GEq => o != Order::Before,
        _ => o != Order::Same,
    }
}

/// An integer result tagged `t`, if it fits in 64 bits.
pub open spec fn integer_result(n: int, t: TypeView) -> Result<LambdaView, EvalError> {
    if i64::MIN <= n <= i64::MAX {
        Ok(LambdaView::IntLiteral { i: n as i64, t })
    } else {
        Err(EvalError::Overflow)
    }
}

/// The quotient of `x` by a nonzero `y`, rounded toward zero.
pub open spec fn quotient(x: int, y: int) -> int {
    if x == 0 {
        0
    } else if x > 0 && y > 0 {
        x / y
    } else if x < 0 && y < 0 {
        (x * -1) / (y * -1)
    } else if x < 0 {
        ((x * -1) / y) * -1
    } else {
        (x / (y * -1)) * -1
    }
}

/// What operator `op` gives on the values `l` and `r`. The operands
/// decide, not the tag of the expression: two integers are added,
/// subtracted, multiplied, divided and compared, and an integer result
/// keeps the tag of the left operand. Two decimals are compared, by the
/// numbers that they write; their sums, differences, products and
/// quotients are not computed. There is no result where an operand is no
/// number or the two differ in kind.
pub open spec fn binop_spec(op: BinOp, l: LambdaView, r: LambdaView) -> Result<
    LambdaView,
    EvalError,
> {
    match operands(l, r) {
        Err(e) => Err(e),
        Ok(Operands::Decimals(a, b)) => match op {
            BinOp::Plus => Err(EvalError::DecimalArithmetic),
            BinOp::Sub => Err(EvalError::DecimalArithmetic),
            BinOp::Times => Err(EvalError::DecimalArithmetic),
            BinOp::Div => Err(EvalError::DecimalArithmetic),
            _ => Ok(boolean(comparison(op, decimal_order(a, b)))),
        },
        Ok(Operands::Integers(x, y)) => match op {
            BinOp::Plus => integer_result(x + y, type_of(l)),
            BinOp::Sub => integer_result(x - y, type_of(l)),
            BinOp::Times => integer_result(x * y, type_of(l)),
            BinOp::Div => if y == 0 {
                Err(EvalError::DivisionByZero)
            } else {
                integer_result(quotient(x as int, y as int), type_of(l))
            },
            BinOp::Equal => Ok(boolean(x == y)),
            BinOp::Less => Ok(boolean(x < y)),
            BinOp::Greater => Ok(boolean(x > y)),
            BinOp::LEq => Ok(boolean(x <= y)),
            BinOp::GEq => Ok(boolean(x >= y)),
            BinOp::NotEqual => Ok(boolean(x != y)),
        },
    }
}

/// An operator refuses its operands as no numbers exactly where they are
/// not two integer literals and not two decimal literals. The tags of the
/// operands have no part in it.
pub proof fn lemma_numbers_are_taken(op: BinOp, l: LambdaView, r: LambdaView)
    ensures
        binop_spec(op, l, r) == Err::<LambdaView, EvalError>(EvalError::NotNumeric) <==> !((l is IntLiteral
            && r is IntLiteral) || (l is FloatLiteral && r is FloatLiteral)),
        l is IntLiteral && r is IntLiteral && !(op is Plus || op is Sub || op is Times || op is Div)
            ==> binop_spec(op, l, r) is Ok,
        l is FloatLiteral && r is FloatLiteral && !(op is Plus || op is Sub || op is Times
            || op is Div) ==> binop_spec(op, l, r) is Ok,
{
}

/// The value of `e`, or why it has none. `fuel` bounds how deep the
/// evaluation may nest; an expression that needs more has no value.
pub open spec fn eval_spec(e: LambdaView, fuel: nat) -> Result<LambdaView, EvalError>
    decreases fuel, 0nat,
{
    if fuel == 0 {
        Err(EvalError::TooDeep)
    } else {
        let less = (fuel - 1) as nat;
        match e {
            LambdaView::IntLiteral { .. } => Ok(e),
            LambdaView::FloatLiteral { .. } => Ok(e),
            LambdaView::True { .. } => Ok(e),
            LambdaView::False { .. } => Ok(e),
            LambdaView::Var { .. } => Ok(e),
            LambdaView::Abs { .. } => Ok(e),
            LambdaView::Tuple { tup, t } => match eval_all(tup, less) {
                Ok(vs) => Ok(LambdaView::Tuple { tup: vs, t }),
                Err(err) => Err(err),
            },
            LambdaView::Index { i, e: inner, .. } => match eval_spec(*inner, less) {
                Ok(LambdaView::Tuple { tup, .. }) => if 0 <= i < tup.len() {
                    eval_spec(tup[i as int], less)
                } else {
                    Err(EvalError::IndexOutOfRange)
                },
                Ok(_) => Err(EvalError::NotATuple),
                Err(err) => Err(err),
            },
            LambdaView::App { lhs, rhs, .. } => match eval_spec(*lhs, less) {
                Ok(LambdaView::Abs { x, e: body, .. }) => match eval_spec(*rhs, less) {
                    Ok(v) => eval_spec(substitute_spec(*body, x, v), less),
                    Err(err) => Err(err),
                },
                Ok(_) => Err(EvalError::NotAFunction),
                Err(err) => Err(err),
            },
            LambdaView::IfExpr { c, e1, e2, .. } => match eval_spec(*c, less) {
                Ok(LambdaView::True { .. }) => eval_spec(*e1, less),
                Ok(LambdaView::False { .. }) => eval_spec(*e2, less),
                Ok(_) => Err(EvalError::NotABoolean),
                Err(err) => Err(err),
            },
            LambdaView::BinExpr { b, l, r, .. } => match eval_spec(*l, less) {
                Err(err) => Err(err),
                Ok(lv) => match eval_spec(*r, less) {
                    Err(err) => Err(err),
                    Ok(rv) => binop_spec(b, lv, rv),
                },
            },
        }
    }
}

/// The values of the expressions of a list, from the first on, or the first
/// failure among them.
pub open spec fn eval_all(es: Seq<LambdaView>, fuel: nat) -> Result<Seq<LambdaView>, EvalError>
    decreases fuel, 1 + es.len(),
{
    if es.len() == 0 {
        Ok(Seq::empty())
    } else {
        match eval_all(es.drop_last(), fuel) {
            Err(err) => Err(err),
            Ok(vs) => match eval_spec(es.last(), fuel) {
                Err(err) => Err(err),
                Ok(v) => Ok(vs.push(v)),
            },
        }
    }
}

/// Whether the expression is one that evaluation ends in: a literal, a
/// truth value, an abstraction, a variable that nothing was put in for, or a
/// tuple of such.
pub open spec fn settled(v: LambdaView) -> bool
    decreases v,
{
    match v {
        LambdaView::IntLiteral { .. } => true,
        LambdaView::FloatLiteral { .. } => true,
        LambdaView::True { .. } => true,
        LambdaView::False { .. } => true,
        LambdaView::Var { .. } => true,
        LambdaView::Abs { .. } => true,
        LambdaView::Tuple { tup, .. } => forall|k: int|
            0 <= k < tup.len() ==> settled(#[trigger] tup[k]),
        _ => false,
    }
}

/// What evaluation returns is settled: no index, application, condition or
/// operator is left on top of it or on top of a component of it.
pub proof fn lemma_eval_settles(e: LambdaView, fuel: nat)
    ensures
        eval_spec(e, fuel) matches Ok(v) ==> settled(v),
    decreases fuel, 0nat,
{
    if fuel > 0 {
        let less = (fuel - 1) as nat;
        match e {
            LambdaView::Tuple { tup, t } => {
                lemma_eval_all_settles(tup, less);
            },
            LambdaView::Index { i, e: inner, .. } => {
                match eval_spec(*inner, less) {
                    Ok(LambdaView::Tuple { tup, .. }) => {
                        if 0 <= i < tup.len() {
                            lemma_eval_settles(tup[i as int], less);
                        }
                    },
                    _ => {},
                }
            },
            LambdaView::App { lhs, rhs, .. } => {
                match eval_spec(*lhs, less) {
                    Ok(LambdaView::Abs { x, e: body, .. }) => {
                        match eval_spec(*rhs, less) {
                            Ok(v) => {
                                lemma_eval_settles(substitute_spec(*body, x, v), less);
                            },
                            Err(_) => {},
                        }
                    },
                    _ => {},
                }
            },
            LambdaView::IfExpr { c, e1, e2, .. } => {
                lemma_eval_settles(*e1, less);
                lemma_eval_settles(*e2, less);
            },
            _ => {},
        }
    }
}

/// What [`lemma_eval_settles`] says, of the expressions of a list.
pub proof fn lemma_eval_all_settles(es: Seq<LambdaView>, fuel: nat)
    ensures
        eval_all(es, fuel) matches Ok(vs) ==> vs.len() == es.len() && forall|k: int|
            0 <= k < vs.len() ==> settled(#[trigger] vs[k]),
    decreases fuel, 1 + es.len(),
{
    if es.len() > 0 {
        lemma_eval_all_settles(es.drop_last(), fuel);
        lemma_eval_settles(es.last(), fuel);
    }
}

/// Evaluation leaves a settled expression as it is, where its budget reaches.
pub proof fn lemma_settled_stays(v: LambdaView, fuel: nat)
    requires
        settled(v),
    ensures
        eval_spec(v, fuel) == Ok::<LambdaView, EvalError>(v) || eval_spec(v, fuel) == Err::<
            LambdaView,
            EvalError,
        >(EvalError::TooDeep),
    decreases fuel, 0nat,
{
    if fuel > 0 {
        match v {
            LambdaView::Tuple { tup, t } => {
                lemma_settled_all_stay(tup, (fuel - 1) as nat);
            },
            _ => {},
        }
    }
}

/// What [`lemma_settled_stays`] says, of the expressions of a list.
pub proof fn lemma_settled_all_stay(vs: Seq<LambdaView>, fuel: nat)
    requires
        forall|k: int| 0 <= k < vs.len() ==> settled(#[trigger] vs[k]),
    ensures
        eval_all(vs, fuel) == Ok::<Seq<LambdaView>, EvalError>(vs) || eval_all(vs, fuel) == Err::<
            Seq<LambdaView>,
            EvalError,
        >(EvalError::TooDeep),
    decreases fuel, 1 + vs.len(),
{
    if vs.len() > 0 {
        assert forall|k: int| 0 <= k < vs.drop_last().len() implies settled(
            #[trigger] vs.drop_last()[k],
        ) by {
            assert(vs.drop_last()[k] == vs[k]);
        }
        lemma_settled_all_stay(vs.drop_last(), fuel);
        assert(settled(vs[vs.len() - 1]));
        lemma_settled_stays(vs.last(), fuel);
        assert(vs.drop_last().push(vs.last()) =~= vs);
    } else {
        assert(vs =~= Seq::<LambdaView>::empty());
    }
}

/// A failure among the first `k` expressions is the failure of the whole list.
pub proof fn lemma_eval_all_prefix(es: Seq<LambdaView>, k: int, fuel: nat)
    requires
        0 <= k <= es.len(),
        eval_all(es.take(k), fuel) is Err,
    ensures
        eval_all(es, fuel) == eval_all(es.take(k), fuel),
    decreases es.len() - k,
{
    if k < es.len() {
        assert(es.take(k + 1).drop_last() =~= es.take(k));
        assert(eval_all(es.take(k + 1), fuel) == eval_all(es.take(k), fuel));
        lemma_eval_all_prefix(es, k + 1, fuel);
    } else {
        assert(es.take(k) =~= es);
    }
}

/// What an evaluation returned, with the value by its view.
pub open spec fn outcome(r: Result<Lambda, EvalError>) -> Result<LambdaView, EvalError> {
    match r {
        Ok(v) => Ok(v@),
        Err(e) => Err(e),
    }
}

/// How deep [`Lambda::eval`] lets an evaluation nest.
pub const EVAL_DEPTH: usize = 1024;

impl Clone for Lambda {
    fn clone(&self) -> (r: Lambda)
        ensures
            r@ == self@,
        decreases self,
    {
        match self {
            Lambda::IntLiteral { i, t } => Lambda::IntLiteral { i: *i, t: t.clone() },
            Lambda::FloatLiteral { f, t } => Lambda::FloatLiteral { f: *f, t: t.clone() },
            Lambda::True { t } => Lambda::True { t: t.clone() },
            Lambda::False { t } => Lambda::False { t: t.clone() },
            Lambda::Var { v, t } => Lambda::Var { v: v.clone(), t: t.clone() },
            Lambda::Tuple { tup, t } => {
                proof {
                    assert(decreases_to!(*self => self->tup));
                }
                Lambda::Tuple { tup: clone_lambdas(tup), t: t.clone() }
            },
            Lambda::Index { i, e, t } => Lambda::Index {
                i: *i,
                e: Box::new((**e).clone()),
                t: t.clone(),
            },
            Lambda::Abs { x, e, t } => Lambda::Abs {
                x: x.clone(),
                e: Box::new((**e).clone()),
                t: t.clone(),
            },
            Lambda::App { lhs, rhs, t } => Lambda::App {
                lhs: Box::new((**lhs).clone()),
                rhs: Box::new((**rhs).clone()),
                t: t.clone(),
            },
            Lambda::IfExpr { c, e1, e2, t } => Lambda::IfExpr {
                c: Box::new((**c).clone()),
                e1: Box::new((**e1).clone()),
                e2: Box::new((**e2).clone()),
                t: t.clone(),
            },
            Lambda::BinExpr { b, l, r, t } => Lambda::BinExpr {
                b: *b,
                l: Box::new((**l).clone()),
                r: Box::new((**r).clone()),
                t: t.clone(),
            },
        }
    }
}

/// A copy of a list of expressions.
pub fn clone_lambdas(es: &Vec<Lambda>) -> (out: Vec<Lambda>)
    ensures
        lambdas_view(out@) == lambdas_view(es@),
    decreases es,
{
    let mut out: Vec<Lambda> = Vec::new();
    let mut k: usize = 0;
    while k < es.len()
        invariant
            k <= es.len(),
            out.len() == k,
            forall|j: int| 0 <= j < k ==> out[j]@ == es[j]@,
        decreases es.len() - k,
    {
        proof {
            vstd::std_specs::vec::axiom_vec_index_decreases(*es, k as int);
        }
        out.push(es[k].clone());
        k += 1;
    }
    proof {
        lemma_lambdas_view(out@);
        lemma_lambdas_view(es@);
        assert(lambdas_view(out@) =~= lambdas_view(es@));
    }
    out
}

impl Lambda {
    /// The type tag of the expression.
    pub fn t(&self) -> (t: &Type)
        ensures
            t@ == type_of(self@),
    {
        match self {
            Lambda::IntLiteral { t, .. } => t,
            Lambda::FloatLiteral { t, .. } => t,
            Lambda::True { t } => t,
            Lambda::False { t } => t,
            Lambda::Var { t, .. } => t,
            Lambda::Tuple { t, .. } => t,
            Lambda::Index { t, .. } => t,
            Lambda::Abs { t, .. } => t,
            Lambda::App { t, .. } => t,
            Lambda::IfExpr { t, .. } => t,
            Lambda::BinExpr { t, .. } => t,
        }
    }

    /// The integer that the expression is, if it is an integer literal.
    pub fn as_int(&self) -> (r: Option<i64>)
        ensures
            r == match self@ {
                LambdaView::IntLiteral { i, .. } => Some(i),
                _ => None,
            },
    {
        match self {
            Lambda::IntLiteral { i, .. } => Some(*i),
            _ => None,
        }
    }

    /// The decimal that the expression is, if it is a decimal literal.
    pub fn as_decimal(&self) -> (r: Option<Decimal>)
        ensures
            r == match self@ {
                LambdaView::FloatLiteral { f, .. } => Some(f),
                _ => None,
            },
    {
        match self {
            Lambda::FloatLiteral { f, .. } => Some(*f),
            _ => None,
        }
    }

    /// The truth value that the expression is, if it is `true` or `false`.
    pub fn as_bool(&self) -> (r: Option<bool>)
        ensures
            r == match self@ {
                LambdaView::True { .. } => Some(true),
                LambdaView::False { .. } => Some(false),
                _ => None,
            },
    {
        match self {
            Lambda::True { .. } => Some(true),
            Lambda::False { .. } => Some(false),
            _ => None,
        }
    }

    /// `true` or `false` as an expression, tagged as a boolean.
    pub fn from_bool(b: bool) -> (r: Lambda)
        ensures
            r@ == boolean(b),
    {
        if b {
            Lambda::True { t: Type::Bool }
        } else {
            Lambda::False { t: Type::Bool }
        }
    }

    /// The expression with `dest` in place of every variable named `src`.
    pub fn substitute_value(&self, src: &String, dest: &Lambda) -> (r: Lambda)
        ensures
            r@ == substitute_spec(self@, src@, dest@),
        decreases self,
    {
        match self {
            Lambda::IntLiteral { .. } => self.clone(),
            Lambda::FloatLiteral { .. } => self.clone(),
            Lambda::True { .. } => self.clone(),
            Lambda::False { .. } => self.clone(),
            Lambda::Var { v, .. } => if *v == *src {
                dest.clone()
            } else {
                self.clone()
            },
            Lambda::Tuple { tup, t } => {
                let mut out: Vec<Lambda> = Vec::new();
                let mut k: usize = 0;
                while k < tup.len()
                    invariant
                        k <= tup.len(),
                        out.len() == k,
                        forall|j: int|
                            0 <= j < k ==> out[j]@ == substitute_spec(tup[j]@, src@, dest@),
                        *self == (Lambda::Tuple { tup: *tup, t: *t }),
                    decreases tup.len() - k,
                {
                    proof {
                        vstd::std_specs::vec::axiom_vec_index_decreases(*tup, k as int);
                        assert(decreases_to!(*self => self->tup));
                    }
                    out.push(tup[k].substitute_value(src, dest));
                    k += 1;
                }
                proof {
                    lemma_lambdas_view(out@);
                    lemma_lambdas_view(tup@);
                    assert(lambdas_view(out@) =~= substitute_spec(self@, src@, dest@)->tup);
                }
                Lambda::Tuple { tup: out, t: t.clone() }
            },
            Lambda::Index { i, e, t } => Lambda::Index {
                i: *i,
                e: Box::new(e.substitute_value(src, dest)),
                t: t.clone(),
            },
            Lambda::Abs { x, e, t } => Lambda::Abs {
                x: x.clone(),
                e: Box::new(e.substitute_value(src, dest)),
                t: t.clone(),
            },
            Lambda::App { lhs, rhs, t } => Lambda::App {
                lhs: Box::new(lhs.substitute_value(src, dest)),
                rhs: Box::new(rhs.substitute_value(src, dest)),
                t: t.clone(),
            },
            Lambda::IfExpr { c, e1, e2, t } => Lambda::IfExpr {
                c: Box::new(c.substitute_value(src, dest)),
                e1: Box::new(e1.substitute_value(src, dest)),
                e2: Box::new(e2.substitute_value(src, dest)),
                t: t.clone(),
            },
            Lambda::BinExpr { b, l, r, t } => Lambda::BinExpr {
                b: *b,
                l: Box::new(l.substitute_value(src, dest)),
                r: Box::new(r.substitute_value(src, dest)),
                t: t.clone(),
            },
        }
    }

    /// The value of the expression, found within [`EVAL_DEPTH`] nested steps.
    pub fn eval(&self) -> (r: Result<Lambda, EvalError>)
        ensures
            outcome(r) == eval_spec(self@, EVAL_DEPTH as nat),
    {
        self.eval_within(EVAL_DEPTH)
    }

    /// The value of the expression, found within `fuel` nested steps.
    pub fn eval_within(&self, fuel: usize) -> (r: Result<Lambda, EvalError>)
        ensures
            outcome(r) == eval_spec(self@, fuel as nat),
        decreases fuel,
    {
        if fuel == 0 {
            return Err(EvalError::TooDeep);
        }
        let less: usize = fuel - 1;
        match self {
            Lambda::IntLiteral { .. } => Ok(self.clone()),
            Lambda::FloatLiteral { .. } => Ok(self.clone()),
            Lambda::True { .. } => Ok(self.clone()),
            Lambda::False { .. } => Ok(self.clone()),
            Lambda::Var { .. } => Ok(self.clone()),
            Lambda::Abs { .. } => Ok(self.clone()),
            Lambda::Tuple { tup, t } => {
                let mut out: Vec<Lambda> = Vec::new();
                let mut k: usize = 0;
                proof {
                    lemma_lambdas_view(tup@);
                    assert(lambdas_view(tup@).take(0) =~= Seq::<LambdaView>::empty());
                    assert(lambdas_view(out@) =~= Seq::<LambdaView>::empty());
                }
                while k < tup.len()
                    invariant
                        k <= tup.len(),
                        out.len() == k,
                        fuel > 0,
                        less == fuel - 1,
                        self@ == (LambdaView::Tuple { tup: lambdas_view(tup@), t: t@ }),
                        lambdas_view(tup@).len() == tup.len(),
                        forall|j: int|
                            0 <= j < tup.len() ==> (#[trigger] lambdas_view(tup@)[j]) == tup[j]@,
                        eval_all(lambdas_view(tup@).take(k as int), less as nat) == Ok::<
                            Seq<LambdaView>,
                            EvalError,
                        >(lambdas_view(out@)),
                    decreases tup.len() - k,
                {
                    let ghost es = lambdas_view(tup@);
                    proof {
                        assert(es.take(k + 1).drop_last() =~= es.take(k as int));
                        assert(es.take(k + 1).last() == tup[k as int]@);
                    }
                    match tup[k].eval_within(less) {
                        Err(err) => {
                            proof {
                                assert(eval_all(es.take(k + 1), less as nat) == Err::<
                                    Seq<LambdaView>,
                                    EvalError,
                                >(err));
                                lemma_eval_all_prefix(es, k + 1, less as nat);
                            }
                            return Err(err);
                        },
                        Ok(v) => {
                            let ghost before = out@;
                            out.push(v);
                            proof {
                                assert(out@.drop_last() =~= before);
                                assert(lambdas_view(out@) == lambdas_view(before).push(v@));
                            }
                        },
                    }
                    k += 1;
                }
                proof {
                    assert(lambdas_view(tup@).take(k as int) =~= lambdas_view(tup@));
                }
                Ok(Lambda::Tuple { tup: out, t: t.clone() })
            },
            Lambda::Index { i, e, .. } => {
                match e.eval_within(less) {
                    Err(err) => Err(err),
                    Ok(Lambda::Tuple { tup, .. }) => {
                        proof {
                            lemma_lambdas_view(tup@);
                        }
                        if 0 <= *i && (*i as u64) < (tup.len() as u64) {
                            let at: usize = *i as usize;
                            tup[at].eval_within(less)
                        } else {
                            Err(EvalError::IndexOutOfRange)
                        }
                    },
                    Ok(_) => Err(EvalError::NotATuple),
                }
            },
            Lambda::App { lhs, rhs, .. } => {
                match lhs.eval_within(less) {
                    Err(err) => Err(err),
                    Ok(Lambda::Abs { x, e, .. }) => {
                        match rhs.eval_within(less) {
                            Err(err) => Err(err),
                            Ok(v) => e.substitute_value(&x, &v).eval_within(less),
                        }
                    },
                    Ok(_) => Err(EvalError::NotAFunction),
                }
            },
            Lambda::IfExpr { c, e1, e2, .. } => {
                match c.eval_within(less) {
                    Err(err) => Err(err),
                    Ok(Lambda::True { .. }) => e1.eval_within(less),
                    Ok(Lambda::False { .. }) => e2.eval_within(less),
                    Ok(_) => Err(EvalError::NotABoolean),
                }
            },
            Lambda::BinExpr { b, l, r, t } => {
                match l.eval_within(less) {
                    Err(err) => Err(err),
                    Ok(lv) => match r.eval_within(less) {
                        Err(err) => Err(err),
                        Ok(rv) => b.eval(t.clone(), lv, rv),
                    },
                }
            },
        }
    }
}

impl Substitutable<Lambda> for Lambda {
    fn substitute(&self, src: &str, dest: Lambda) -> (r: Lambda)
        ensures
            r@ == substitute_spec(self@, src@, dest@),
    {
        let name = String::from_str(src);
        self.substitute_value(&name, &dest)
    }
}

impl BinOp {
    /// Applies the operator to two values. The operands decide what is
    /// computed; the tag `t` of the expression that holds the operator
    /// does not bear on the result.
    pub fn eval(self, t: Type, l: Lambda, r: Lambda) -> (res: Result<Lambda, EvalError>)
        ensures
            outcome(res) == binop_spec(self, l@, r@),
    {
        let (x, y): (i64, i64) = match (&l, &r) {
            (Lambda::IntLiteral { i: x, .. }, Lambda::IntLiteral { i: y, .. }) => (*x, *y),
            (Lambda::FloatLiteral { f: a, .. }, Lambda::FloatLiteral { f: b, .. }) => {
                let o = a.compare(b);
                return match self {
                    BinOp::Plus => Err(EvalError::DecimalArithmetic),
                    BinOp::Sub => Err(EvalError::DecimalArithmetic),
                    BinOp::Times => Err(EvalError::DecimalArithmetic),
                    BinOp::Div => Err(EvalError::DecimalArithmetic),
                    BinOp::Equal => Ok(Lambda::from_bool(o == Order::Same)),
                    BinOp::Less => Ok(Lambda::from_bool(o == Order::Before)),
                    BinOp::Greater => Ok(Lambda::from_bool(o == Order::After)),
                    BinOp::LEq => Ok(Lambda::from_bool(o != Order::After)),
                    BinOp::GEq => Ok(Lambda::from_bool(o != Order::Before)),
                    BinOp::NotEqual => Ok(Lambda::from_bool(o != Order::Same)),
                };
            },
            _ => {
                return Err(EvalError::NotNumeric);
            },
        };
        let number: Option<i64> = match self {
            BinOp::Plus => x.checked_add(y),
            BinOp::Sub => x.checked_sub(y),
            BinOp::Times => x.checked_mul(y),
            BinOp::Div => {
                if y == 0 {
                    return Err(EvalError::DivisionByZero);
                }
                x.checked_div(y)
            },
            BinOp::Equal => {
                return Ok(Lambda::from_bool(x == y));
            },
            BinOp::Less => {
                return Ok(Lambda::from_bool(x < y));
            },
            BinOp::Greater => {
                return Ok(Lambda::from_bool(x > y));
            },
            BinOp::LEq => {
                return Ok(Lambda::from_bool(x <= y));
            },
            BinOp::GEq => {
                return Ok(Lambda::from_bool(x >= y));
            },
            BinOp::NotEqual => {
                return Ok(Lambda::from_bool(x != y));
            },
        };
        match number {
            Some(n) => Ok(Lambda::IntLiteral { i: n, t: l.t().clone() }),
            None => Err(EvalError::Overflow),
        }
    }
}

} // verus!
