use spisim::ast::{Act, Process};
use spisim::lambda::{BinOp, EvalError, Lambda};
use spisim::names::Order;
use spisim::values::{Decimal, Pattern, Substitutable, Type};

fn num(i: i64) -> Lambda {
    Lambda::IntLiteral { i, t: Type::Integer }
}

fn dec(digits: u64, scale: u32) -> Lambda {
    Lambda::FloatLiteral { f: Decimal { digits, scale }, t: Type::Float }
}

fn var(v: &str) -> Lambda {
    Lambda::Var { v: v.to_string(), t: Type::TVar }
}

fn tuple(tup: Vec<Lambda>) -> Lambda {
    Lambda::Tuple { tup, t: Type::Tuple }
}

fn index(i: i64, e: Lambda) -> Lambda {
    Lambda::Index { i, e: Box::new(e), t: Type::TVar }
}

fn abs(x: &str, e: Lambda) -> Lambda {
    Lambda::Abs { x: x.to_string(), e: Box::new(e), t: Type::TVar }
}

fn app(lhs: Lambda, rhs: Lambda) -> Lambda {
    Lambda::App { lhs: Box::new(lhs), rhs: Box::new(rhs), t: Type::TVar }
}

fn cond(c: Lambda, e1: Lambda, e2: Lambda) -> Lambda {
    Lambda::IfExpr { c: Box::new(c), e1: Box::new(e1), e2: Box::new(e2), t: Type::TVar }
}

fn bin(b: BinOp, l: Lambda, r: Lambda) -> Lambda {
    Lambda::BinExpr { b, l: Box::new(l), r: Box::new(r), t: Type::Integer }
}

fn show<T: std::fmt::Debug>(x: &T) -> String {
    format!("{:?}", x)
}

fn value(e: &Lambda) -> String {
    show(&e.eval())
}

#[test]
fn literals_and_abstractions_are_values() {
    assert_eq!(value(&num(7)), "Ok(IntLiteral { i: 7, t: Integer })");
    assert_eq!(
        value(&dec(15, 1)),
        "Ok(FloatLiteral { f: Decimal { digits: 15, scale: 1 }, t: Float })"
    );
    assert_eq!(value(&Lambda::True { t: Type::Bool }), "Ok(True { t: Bool })");
    assert_eq!(value(&var("x")), "Ok(Var { v: \"x\", t: TVar })");
    assert_eq!(show(&abs("x", var("x")).eval()), show(&Ok::<Lambda, EvalError>(abs("x", var("x")))));
}

#[test]
fn integer_arithmetic() {
    assert_eq!(value(&bin(BinOp::Plus, num(2), num(3))), "Ok(IntLiteral { i: 5, t: Integer })");
    assert_eq!(value(&bin(BinOp::Sub, num(2), num(3))), "Ok(IntLiteral { i: -1, t: Integer })");
    assert_eq!(value(&bin(BinOp::Times, num(-4), num(3))), "Ok(IntLiteral { i: -12, t: Integer })");
    assert_eq!(value(&bin(BinOp::Div, num(7), num(2))), "Ok(IntLiteral { i: 3, t: Integer })");
    assert_eq!(value(&bin(BinOp::Div, num(-7), num(2))), "Ok(IntLiteral { i: -3, t: Integer })");
    assert_eq!(value(&bin(BinOp::Div, num(7), num(-2))), "Ok(IntLiteral { i: -3, t: Integer })");
    assert_eq!(value(&bin(BinOp::Div, num(-7), num(-2))), "Ok(IntLiteral { i: 3, t: Integer })");
    assert_eq!(
        value(&bin(BinOp::Plus, bin(BinOp::Times, num(2), num(3)), num(4))),
        "Ok(IntLiteral { i: 10, t: Integer })"
    );
}

#[test]
fn integer_comparisons() {
    let yes = "Ok(True { t: Bool })";
    let no = "Ok(False { t: Bool })";
    assert_eq!(value(&bin(BinOp::Equal, num(2), num(2))), yes);
    assert_eq!(value(&bin(BinOp::Equal, num(2), num(3))), no);
    assert_eq!(value(&bin(BinOp::NotEqual, num(2), num(3))), yes);
    assert_eq!(value(&bin(BinOp::Less, num(2), num(3))), yes);
    assert_eq!(value(&bin(BinOp::Less, num(3), num(3))), no);
    assert_eq!(value(&bin(BinOp::Greater, num(4), num(3))), yes);
    assert_eq!(value(&bin(BinOp::LEq, num(3), num(3))), yes);
    assert_eq!(value(&bin(BinOp::GEq, num(2), num(3))), no);
}

#[test]
fn decimals_are_compared_by_the_numbers_they_write() {
    let yes = "Ok(True { t: Bool })";
    let no = "Ok(False { t: Bool })";
    let float = |b: BinOp, l: Lambda, r: Lambda| Lambda::BinExpr {
        b,
        l: Box::new(l),
        r: Box::new(r),
        t: Type::Float,
    };
    // 1.50 and 1.5 write one number
    assert_eq!(value(&float(BinOp::Equal, dec(150, 2), dec(15, 1))), yes);
    assert_eq!(value(&float(BinOp::NotEqual, dec(150, 2), dec(15, 1))), no);
    assert_eq!(value(&float(BinOp::LEq, dec(150, 2), dec(15, 1))), yes);
    assert_eq!(value(&float(BinOp::GEq, dec(150, 2), dec(15, 1))), yes);
    assert_eq!(value(&float(BinOp::Less, dec(150, 2), dec(15, 1))), no);
    assert_eq!(value(&float(BinOp::Greater, dec(150, 2), dec(15, 1))), no);
    // 0.25 is below 0.3, though 25 is above 3
    assert_eq!(value(&float(BinOp::Less, dec(25, 2), dec(3, 1))), yes);
    assert_eq!(value(&float(BinOp::LEq, dec(25, 2), dec(3, 1))), yes);
    assert_eq!(value(&float(BinOp::Greater, dec(25, 2), dec(3, 1))), no);
    assert_eq!(value(&float(BinOp::GEq, dec(25, 2), dec(3, 1))), no);
    assert_eq!(value(&float(BinOp::Equal, dec(25, 2), dec(3, 1))), no);
    assert_eq!(value(&float(BinOp::NotEqual, dec(25, 2), dec(3, 1))), yes);
    assert_eq!(value(&float(BinOp::Greater, dec(3, 1), dec(25, 2))), yes);
    // zero is zero at every scale, and far scales do not overflow
    assert_eq!(value(&float(BinOp::Equal, dec(0, 0), dec(0, 4_000_000_000))), yes);
    assert_eq!(value(&float(BinOp::Less, dec(1, 4_000_000_000), dec(1, 0))), yes);
    assert_eq!(value(&float(BinOp::Greater, dec(u64::MAX, 0), dec(u64::MAX, 60))), yes);
    assert_eq!(value(&float(BinOp::Less, dec(0, 0), dec(1, 4_000_000_000))), yes);
    assert_eq!(dec(5, 1).as_decimal().unwrap().compare(&Decimal { digits: 50, scale: 2 }), Order::Same);
    assert_eq!(Decimal { digits: 9, scale: 1 }.compare(&Decimal { digits: 1, scale: 0 }), Order::Before);
    assert_eq!(Decimal { digits: 11, scale: 1 }.compare(&Decimal { digits: 1, scale: 0 }), Order::After);
}

#[test]
fn arithmetic_fails_outside_its_range() {
    assert_eq!(value(&bin(BinOp::Plus, num(i64::MAX), num(1))), "Err(Overflow)");
    assert_eq!(value(&bin(BinOp::Sub, num(i64::MIN), num(1))), "Err(Overflow)");
    assert_eq!(value(&bin(BinOp::Times, num(i64::MAX), num(2))), "Err(Overflow)");
    assert_eq!(value(&bin(BinOp::Div, num(i64::MIN), num(-1))), "Err(Overflow)");
    assert_eq!(value(&bin(BinOp::Div, num(1), num(0))), "Err(DivisionByZero)");
}

#[test]
fn arithmetic_wants_numbers() {
    assert_eq!(value(&bin(BinOp::Plus, Lambda::True { t: Type::Bool }, num(1))), "Err(NotNumeric)");
    assert_eq!(value(&bin(BinOp::Plus, num(1), Lambda::True { t: Type::Bool })), "Err(NotNumeric)");
    assert_eq!(value(&bin(BinOp::Plus, num(1), dec(1, 0))), "Err(NotNumeric)");
    assert_eq!(value(&bin(BinOp::Plus, dec(1, 0), num(1))), "Err(NotNumeric)");
    assert_eq!(value(&bin(BinOp::Plus, dec(1, 0), dec(2, 0))), "Err(DecimalArithmetic)");
    assert_eq!(value(&bin(BinOp::Sub, dec(1, 0), dec(2, 0))), "Err(DecimalArithmetic)");
    assert_eq!(value(&bin(BinOp::Times, dec(1, 0), dec(2, 0))), "Err(DecimalArithmetic)");
    assert_eq!(value(&bin(BinOp::Div, dec(1, 0), dec(2, 0))), "Err(DecimalArithmetic)");
    assert_eq!(value(&bin(BinOp::Less, dec(1, 0), num(2))), "Err(NotNumeric)");
}

#[test]
fn the_operands_decide_not_the_tag_of_the_expression() {
    let untyped = Lambda::BinExpr {
        b: BinOp::Plus,
        l: Box::new(num(1)),
        r: Box::new(num(2)),
        t: Type::TVar,
    };
    assert_eq!(value(&untyped), "Ok(IntLiteral { i: 3, t: Integer })");
    let compared = Lambda::BinExpr {
        b: BinOp::Less,
        l: Box::new(num(1)),
        r: Box::new(num(2)),
        t: Type::TVar,
    };
    assert_eq!(value(&compared), "Ok(True { t: Bool })");
    let decimals = Lambda::BinExpr {
        b: BinOp::GEq,
        l: Box::new(dec(25, 2)),
        r: Box::new(dec(3, 1)),
        t: Type::TVar,
    };
    assert_eq!(value(&decimals), "Ok(False { t: Bool })");
    assert_eq!(
        show(&BinOp::Plus.eval(Type::Float, num(1), num(2))),
        "Ok(IntLiteral { i: 3, t: Integer })"
    );
    assert_eq!(
        show(&BinOp::Times.eval(Type::Bool, num(4), num(5))),
        "Ok(IntLiteral { i: 20, t: Integer })"
    );
    assert_eq!(show(&BinOp::Div.eval(Type::TVar, num(1), num(0))), "Err(DivisionByZero)");
    assert_eq!(
        show(&BinOp::Plus.eval(Type::Integer, num(1), Lambda::True { t: Type::Bool })),
        "Err(NotNumeric)"
    );
}

#[test]
fn tuples_and_indices() {
    let pair = tuple(vec![bin(BinOp::Plus, num(1), num(1)), num(5)]);
    assert_eq!(
        value(&pair),
        "Ok(Tuple { tup: [IntLiteral { i: 2, t: Integer }, IntLiteral { i: 5, t: Integer }], t: Tuple })"
    );
    assert_eq!(value(&index(0, pair.clone())), "Ok(IntLiteral { i: 2, t: Integer })");
    assert_eq!(value(&index(1, pair.clone())), "Ok(IntLiteral { i: 5, t: Integer })");
    assert_eq!(value(&index(2, pair.clone())), "Err(IndexOutOfRange)");
    assert_eq!(value(&index(-1, pair.clone())), "Err(IndexOutOfRange)");
    assert_eq!(value(&index(0, num(3))), "Err(NotATuple)");
    assert_eq!(value(&tuple(vec![num(1), index(0, num(3)), index(9, pair)])), "Err(NotATuple)");
    assert_eq!(value(&tuple(vec![])), "Ok(Tuple { tup: [], t: Tuple })");
}

#[test]
fn application_evaluates_the_body_with_the_argument_in() {
    let twice = abs("x", bin(BinOp::Plus, var("x"), var("x")));
    assert_eq!(
        value(&app(twice, bin(BinOp::Plus, num(1), num(2)))),
        "Ok(IntLiteral { i: 6, t: Integer })"
    );
    let successor = abs("x", bin(BinOp::Plus, var("x"), num(1)));
    let applied = app(successor, num(2)).eval().unwrap();
    assert_eq!(show(&applied), "IntLiteral { i: 3, t: Integer }");
    assert_eq!(show(&applied.eval()), "Ok(IntLiteral { i: 3, t: Integer })");
    let constant = abs("x", abs("y", var("x")));
    assert_eq!(
        show(&app(constant, num(7)).eval()),
        show(&Ok::<Lambda, EvalError>(abs("y", num(7))))
    );
    let broken = abs("x", index(0, var("x")));
    assert_eq!(value(&app(broken, num(1))), "Err(NotATuple)");
    assert_eq!(value(&app(num(1), num(2))), "Err(NotAFunction)");
    assert_eq!(value(&app(num(1), index(0, num(2)))), "Err(NotAFunction)");
    assert_eq!(value(&app(abs("x", var("x")), index(0, num(2)))), "Err(NotATuple)");
}

#[test]
fn conditions_choose() {
    let yes = Lambda::True { t: Type::Bool };
    let no = Lambda::False { t: Type::Bool };
    assert_eq!(value(&cond(yes, num(1), index(0, num(2)))), "Ok(IntLiteral { i: 1, t: Integer })");
    assert_eq!(value(&cond(no, index(0, num(2)), num(2))), "Ok(IntLiteral { i: 2, t: Integer })");
    assert_eq!(value(&cond(num(0), num(1), num(2))), "Err(NotABoolean)");
    assert_eq!(
        value(&cond(bin(BinOp::Less, num(1), num(2)), num(1), num(2))),
        "Ok(IntLiteral { i: 1, t: Integer })"
    );
}

#[test]
fn evaluation_has_a_budget() {
    assert_eq!(show(&num(1).eval_within(0)), "Err(TooDeep)");
    assert_eq!(show(&num(1).eval_within(1)), "Ok(IntLiteral { i: 1, t: Integer })");
    assert_eq!(show(&bin(BinOp::Plus, num(1), num(2)).eval_within(1)), "Err(TooDeep)");
    assert_eq!(
        show(&bin(BinOp::Plus, num(1), num(2)).eval_within(2)),
        "Ok(IntLiteral { i: 3, t: Integer })"
    );
    // An expression that evaluates to itself again and again.
    let d = abs("x", index(0, tuple(vec![app(var("x"), var("x"))])));
    let knot = index(0, tuple(vec![app(d.clone(), d)]));
    assert_eq!(show(&knot.eval()), "Err(TooDeep)");
}

#[test]
fn substitution_replaces_every_occurrence() {
    let e = tuple(vec![
        var("x"),
        var("y"),
        abs("x", var("x")),
        bin(BinOp::Plus, var("x"), num(1)),
        cond(var("x"), index(0, var("x")), app(var("y"), var("x"))),
    ]);
    let expected = tuple(vec![
        num(9),
        var("y"),
        abs("x", num(9)),
        bin(BinOp::Plus, num(9), num(1)),
        cond(num(9), index(0, num(9)), app(var("y"), num(9))),
    ]);
    assert_eq!(show(&e.substitute("x", num(9))), show(&expected));
    assert_eq!(show(&e.substitute("z", num(9))), show(&e));
    assert_eq!(show(&e.substitute_value(&"x".to_string(), &num(9))), show(&expected));
}

#[test]
fn substitutions_of_different_variables_commute() {
    let e = tuple(vec![var("x"), bin(BinOp::Times, var("y"), var("x")), abs("z", var("y"))]);
    let v1 = tuple(vec![num(1), var("a")]);
    let v2 = bin(BinOp::Plus, var("b"), num(2));
    let one = e.substitute("x", v1.clone()).substitute("y", v2.clone());
    let other = e.substitute("y", v2).substitute("x", v1);
    assert_eq!(show(&one), show(&other));
    assert_eq!(
        show(&one),
        show(&tuple(vec![
            tuple(vec![num(1), var("a")]),
            bin(
                BinOp::Times,
                bin(BinOp::Plus, var("b"), num(2)),
                tuple(vec![num(1), var("a")])
            ),
            abs("z", bin(BinOp::Plus, var("b"), num(2))),
        ]))
    );
}

fn sample() -> Process {
    Process::Parallel(
        Box::new(Process::Restriction(
            "c".to_string(),
            Decimal { digits: 1, scale: 0 },
            Box::new(Process::Summation(vec![
                (Act::Input("c".to_string()), Process::Instance("P".to_string(), vec![var("x")])),
                (Act::Output("d".to_string()), Process::Termination),
            ])),
        )),
        Box::new(Process::LetVal(
            "y".to_string(),
            bin(BinOp::Plus, var("x"), num(1)),
            Box::new(Process::Repetition(
                2,
                Box::new(Process::Replication(
                    Act::Output("c".to_string()),
                    Box::new(Process::Instance("Q".to_string(), vec![var("y"), var("x")])),
                )),
            )),
        )),
    )
}

#[test]
fn channels_are_renamed_in_actions_only() {
    let renamed = sample().substitute("c", "k");
    let expected = Process::Parallel(
        Box::new(Process::Restriction(
            "c".to_string(),
            Decimal { digits: 1, scale: 0 },
            Box::new(Process::Summation(vec![
                (Act::Input("k".to_string()), Process::Instance("P".to_string(), vec![var("x")])),
                (Act::Output("d".to_string()), Process::Termination),
            ])),
        )),
        Box::new(Process::LetVal(
            "y".to_string(),
            bin(BinOp::Plus, var("x"), num(1)),
            Box::new(Process::Repetition(
                2,
                Box::new(Process::Replication(
                    Act::Output("k".to_string()),
                    Box::new(Process::Instance("Q".to_string(), vec![var("y"), var("x")])),
                )),
            )),
        )),
    );
    assert_eq!(show(&renamed), show(&expected));
    assert_eq!(show(&sample().substitute("x", "k")), show(&sample()));
    assert_eq!(show(&Act::Input("a".to_string()).substitute("a", "b")), "Input(\"b\")");
    assert_eq!(show(&Act::Output("a".to_string()).substitute("b", "c")), "Output(\"a\")");
    assert_eq!(show(&Act::Output("a".to_string()).substitute("a", num(1))), "Output(\"a\")");
}

#[test]
fn values_are_bound_in_bindings_and_arguments() {
    let bound = sample().substitute("x", num(4));
    let expected = Process::Parallel(
        Box::new(Process::Restriction(
            "c".to_string(),
            Decimal { digits: 1, scale: 0 },
            Box::new(Process::Summation(vec![
                (Act::Input("c".to_string()), Process::Instance("P".to_string(), vec![num(4)])),
                (Act::Output("d".to_string()), Process::Termination),
            ])),
        )),
        Box::new(Process::LetVal(
            "y".to_string(),
            bin(BinOp::Plus, num(4), num(1)),
            Box::new(Process::Repetition(
                2,
                Box::new(Process::Replication(
                    Act::Output("c".to_string()),
                    Box::new(Process::Instance("Q".to_string(), vec![var("y"), num(4)])),
                )),
            )),
        )),
    );
    assert_eq!(show(&bound), show(&expected));
    assert_eq!(show(&sample().substitute("x", &num(4))), show(&expected));
    assert_eq!(show(&sample().substitute("c", num(4))), show(&sample()));
}

#[test]
fn bindings_of_different_variables_commute_in_processes() {
    let one = sample().substitute("x", num(4)).substitute("y", var("w"));
    let other = sample().substitute("y", var("w")).substitute("x", num(4));
    assert_eq!(show(&one), show(&other));
}

#[test]
fn patterns_take_values_apart() {
    let p = Process::Instance("P".to_string(), vec![var("a"), var("b"), var("c")]);
    let name = |n: &str| Pattern::Name(n.to_string());
    assert_eq!(show(&p.replace(&Pattern::Wildcard, &num(1))), show(&Some(p.clone())));
    assert_eq!(
        show(&p.replace(&name("a"), &num(1))),
        show(&Some(Process::Instance("P".to_string(), vec![num(1), var("b"), var("c")])))
    );
    let pattern = Pattern::Tuple(vec![
        name("a"),
        Pattern::Wildcard,
        Pattern::Tuple(vec![name("b"), name("c")]),
    ]);
    let val = tuple(vec![num(1), num(2), tuple(vec![num(3), num(4)])]);
    assert_eq!(
        show(&p.replace(&pattern, &val)),
        show(&Some(Process::Instance("P".to_string(), vec![num(1), num(3), num(4)])))
    );
    assert_eq!(show(&p.replace(&pattern, &num(1))), "None");
    assert_eq!(show(&p.replace(&pattern, &tuple(vec![num(1), num(2)]))), "None");
    assert_eq!(
        show(&p.replace(&pattern, &tuple(vec![num(1), num(2), tuple(vec![num(3)])]))),
        "None"
    );
    assert_eq!(
        show(&p.replace(&Pattern::Tuple(vec![]), &tuple(vec![]))),
        show(&Some(p.clone()))
    );
    assert_eq!(
        show(&p.replace_all(&vec![name("a"), name("b")], &vec![num(7), num(8)])),
        show(&Some(Process::Instance("P".to_string(), vec![num(7), num(8), var("c")])))
    );
    assert_eq!(show(&p.replace_all(&vec![name("a")], &vec![])), "None");
}

#[test]
fn a_later_binding_sees_an_earlier_value() {
    let p = Process::Instance("P".to_string(), vec![var("a"), var("b")]);
    let formals = vec![Pattern::Name("a".to_string()), Pattern::Name("b".to_string())];
    assert_eq!(
        show(&p.replace_all(&formals, &vec![var("b"), num(2)])),
        show(&Some(Process::Instance("P".to_string(), vec![num(2), num(2)])))
    );
}

#[test]
fn clones_are_equal() {
    assert_eq!(show(&sample().clone()), show(&sample()));
    let t = Type::Function(
        Box::new(Type::Channel(Some(Box::new(Type::Integer)))),
        Box::new(Type::Constructor(vec![Type::Bool, Type::Tuple, Type::Channel(None)])),
    );
    assert_eq!(show(&t.clone()), show(&t));
    assert_eq!(show(num(3).t()), "Integer");
    assert_eq!(show(&Lambda::from_bool(true)), "True { t: Bool }");
    assert_eq!(show(&Lambda::from_bool(false)), "False { t: Bool }");
}
