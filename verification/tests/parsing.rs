use spisim::machineterm::MachineTerm;
use spisim::parser::{expr, pattern, program, ParseError};
use spisim::machine::Reduction;
use spisim::sim::Simulator;
use spisim::syntax::{Act, Declaration, Process, Program};
use spisim::tokenizer::{tokenize, Keyword, Token};
use spisim::values::{Decimal, Pattern};

fn parse(text: &str) -> Result<Program, ParseError> {
    program(&tokenize(text).expect("the text has tokens"))
}

fn loaded(text: &str) -> Simulator {
    let mut sim = Simulator::new();
    assert_eq!(sim.load(&parse(text).expect("the text is a program")), Ok(()));
    sim
}

fn cells(sim: &Simulator) -> usize {
    match sim.machine_term() {
        MachineTerm::SummList(list) => list.len(),
        MachineTerm::TopRestriction(_, _, _) => panic!("a restriction is on top"),
    }
}

fn counts(sim: &Simulator, c: &str) -> (usize, usize, u128, u128) {
    let r = sim.store().channel(c).expect("the channel is registered");
    (r.incount, r.outcount, r.mixcount, r.ax)
}

fn shape(text: &str) -> String {
    format!("{:?}", parse(text))
}

#[test]
fn a_declared_channel() {
    match parse("new a@1.0") {
        Ok(Program::Prog(ds)) => {
            assert_eq!(ds.len(), 1);
            match &ds[0] {
                Declaration::NewChannel(c, r) => {
                    assert_eq!(c, "a");
                    assert_eq!(*r, Decimal { digits: 10, scale: 1 });
                }
                other => panic!("{:?}", other),
            }
        }
        other => panic!("{:?}", other),
    }
}

#[test]
fn a_parallel_composition_lists_its_parts() {
    match parse("run (!a; end | ?b; end | end)") {
        Ok(Program::Prog(ds)) => match &ds[0] {
            Declaration::Run(Process::Parallel(ps)) => {
                assert_eq!(ps.len(), 3);
                match &ps[0] {
                    Process::Action(Act::Output(c), _) => assert_eq!(c, "a"),
                    other => panic!("{:?}", other),
                }
                match &ps[1] {
                    Process::Action(Act::Input(c), _) => assert_eq!(c, "b"),
                    other => panic!("{:?}", other),
                }
                assert!(matches!(ps[2], Process::Termination));
            }
            other => panic!("{:?}", other),
        },
        other => panic!("{:?}", other),
    }
}

#[test]
fn every_form_of_process_is_read() {
    assert_eq!(
        shape("run let new c@0.5 in end"),
        "Ok(Prog([Run(Restriction(\"c\", Decimal { digits: 5, scale: 1 }, Termination))]))"
    );
    assert_eq!(
        shape("run val x = 3 in end"),
        "Ok(Prog([Run(LetVal(Name(\"x\"), IntLiteral { i: 3, t: Integer }, Termination))]))"
    );
    assert_eq!(
        shape("run do ?a; end or !b; end"),
        "Ok(Prog([Run(Choice([(Input(\"a\"), Termination), (Output(\"b\"), Termination)]))]))"
    );
    assert_eq!(
        shape("run P(1, x)"),
        "Ok(Prog([Run(Instance(\"P\", [IntLiteral { i: 1, t: Integer }, Var { v: \"x\", t: TVar }]))]))"
    );
    assert_eq!(shape("run P()"), "Ok(Prog([Run(Instance(\"P\", []))]))");
    assert_eq!(shape("run 3 of end"), "Ok(Prog([Run(Repetition(3, Termination))]))");
    assert_eq!(
        shape("run replicate ?a; end"),
        "Ok(Prog([Run(Replication(Input(\"a\"), Termination))]))"
    );
}

#[test]
fn every_form_of_declaration_is_read() {
    assert_eq!(
        shape("val (x, _) = true"),
        "Ok(Prog([Val(Tuple([Name(\"x\"), Wildcard]), True { t: Bool })]))"
    );
    assert_eq!(
        shape("let P(x, (y, z)) = end"),
        "Ok(Prog([Def(\"P\", [Name(\"x\"), Tuple([Name(\"y\"), Name(\"z\")])], Termination)]))"
    );
    assert_eq!(shape("let P() = end run P()"), "Ok(Prog([Def(\"P\", [], Termination), Run(Instance(\"P\", []))]))");
}

#[test]
fn patterns_are_read() {
    let ts = tokenize("(a, (_, b), ())").unwrap();
    match pattern(&ts, 0) {
        Ok((Pattern::Tuple(ps), end)) => {
            assert_eq!(end, ts.len());
            assert_eq!(ps.len(), 3);
            assert!(matches!(&ps[0], Pattern::Name(n) if n == "a"));
            assert!(matches!(&ps[1], Pattern::Tuple(inner) if inner.len() == 2));
            assert!(matches!(&ps[2], Pattern::Tuple(inner) if inner.is_empty()));
        }
        other => panic!("{:?}", other),
    }
    assert_eq!(format!("{:?}", pattern(&tokenize("(a,)").unwrap(), 0)), "Err(UnexpectedToken)");
    assert_eq!(format!("{:?}", pattern(&tokenize("(a").unwrap(), 0)), "Err(UnexpectedEnd)");
}

#[test]
fn operators_bind_as_in_arithmetic() {
    let text = |t: &str| format!("{:?}", expr(&tokenize(t).unwrap(), 0).map(|(e, _)| e));
    let plain = |t: &str| text(t).replace(", t: TVar", "").replace(", t: Integer", "");
    assert_eq!(
        plain("1 + 2 * 3"),
        "Ok(BinExpr { b: Plus, l: IntLiteral { i: 1 }, r: BinExpr { b: Times, l: IntLiteral { i: 2 }, r: IntLiteral { i: 3 } } })"
    );
    assert_eq!(
        plain("1 - 2 - 3"),
        "Ok(BinExpr { b: Sub, l: BinExpr { b: Sub, l: IntLiteral { i: 1 }, r: IntLiteral { i: 2 } }, r: IntLiteral { i: 3 } })"
    );
    assert_eq!(
        plain("1 * 2 + 3"),
        "Ok(BinExpr { b: Plus, l: BinExpr { b: Times, l: IntLiteral { i: 1 }, r: IntLiteral { i: 2 } }, r: IntLiteral { i: 3 } })"
    );
    assert_eq!(
        plain("1 + 2 < 3 * 4"),
        "Ok(BinExpr { b: Less, l: BinExpr { b: Plus, l: IntLiteral { i: 1 }, r: IntLiteral { i: 2 } }, r: BinExpr { b: Times, l: IntLiteral { i: 3 }, r: IntLiteral { i: 4 } } })"
    );
    assert_eq!(
        plain("(1 + 2) / x"),
        "Ok(BinExpr { b: Div, l: BinExpr { b: Plus, l: IntLiteral { i: 1 }, r: IntLiteral { i: 2 } }, r: Var { v: \"x\" } })"
    );
    assert_eq!(
        plain("fun x => if x >= 1 then x else 0"),
        "Ok(Abs { x: \"x\", e: IfExpr { c: BinExpr { b: GEq, l: Var { v: \"x\" }, r: IntLiteral { i: 1 } }, e1: Var { v: \"x\" }, e2: IntLiteral { i: 0 } } })"
    );
    assert_eq!(text("1 +"), "Err(UnexpectedEnd)");
    assert_eq!(text("fun 1"), "Err(UnexpectedToken)");
}

#[test]
fn what_is_no_program_is_refused() {
    assert!(matches!(parse(""), Err(ParseError::UnexpectedEnd)));
    assert!(matches!(parse("end"), Err(ParseError::UnexpectedToken)));
    assert!(matches!(parse("run end )"), Err(ParseError::TrailingTokens)));
    assert!(matches!(parse("run"), Err(ParseError::UnexpectedEnd)));
    assert!(matches!(parse("run (end)"), Err(ParseError::UnexpectedToken)));
    assert!(matches!(parse("run (end | end"), Err(ParseError::UnexpectedEnd)));
    assert!(matches!(parse("run do ?a; end"), Err(ParseError::UnexpectedEnd)));
    assert!(matches!(parse("run ?a end"), Err(ParseError::UnexpectedToken)));
    assert!(matches!(parse("new a@1"), Err(ParseError::UnexpectedToken)));
    assert!(matches!(parse("run let x"), Err(ParseError::UnexpectedToken)));
    assert!(matches!(parse("run P(1,)"), Err(ParseError::UnexpectedToken)));
}

#[test]
fn a_negative_count_of_copies_is_refused() {
    let ts = vec![
        Token::Keyword(Keyword::Run),
        Token::Integer(-1),
        Token::Keyword(Keyword::Of),
        Token::Keyword(Keyword::End),
    ];
    assert!(matches!(program(&ts), Err(ParseError::CountTooLarge)));
}

#[test]
fn unary_reaction_from_text() {
    let mut sim = loaded("new a@1.0 run (!a; end | ?a; end)");
    assert_eq!(counts(&sim, "a"), (1, 1, 0, 1));
    assert_eq!(sim.reduce_on("a"), Ok(Reduction::Fired));
    assert_eq!(cells(&sim), 0);
    assert_eq!(sim.reduce_on("a"), Ok(Reduction::Deadlock));
}

#[test]
fn dimerisation_from_text() {
    let mut sim =
        loaded("new a@2.0 let S()=!a;S() let T()=?a;T() run (10 of S() | 10 of T())");
    let rate = sim.store().channel("a").unwrap().rate;
    assert_eq!(rate, Decimal { digits: 20, scale: 1 });
    for _ in 0..40 {
        assert_eq!(counts(&sim, "a"), (10, 10, 0, 100));
        assert_eq!(sim.reduce_on("a"), Ok(Reduction::Fired));
    }
    assert_eq!(sim.store().instance_count("S"), Some(10));
    assert_eq!(sim.store().instance_count("T"), Some(10));
}

#[test]
fn choice_from_text() {
    let mut sim = loaded("new a@1.0 new b@1.0 run (do ?a; end or ?b; end | !a; end)");
    assert_eq!(counts(&sim, "a"), (1, 1, 0, 1));
    assert_eq!(counts(&sim, "b"), (1, 0, 0, 0));
    let active = sim.store().activities();
    assert_eq!(active.len(), 1);
    assert_eq!(active[0].channel, "a");
    assert_eq!(sim.reduce_on("a"), Ok(Reduction::Fired));
    assert_eq!(cells(&sim), 0);
    assert_eq!(counts(&sim, "b"), (0, 0, 0, 0));
}

#[test]
fn instance_accounting_from_text() {
    let mut sim = loaded("new a@1.0 let P()=?a;end run (P() | !a;end)");
    assert_eq!(sim.store().instance_count("P"), Some(1));
    assert_eq!(sim.reduce_on("a"), Ok(Reduction::Fired));
    assert_eq!(sim.store().instance_count("P"), Some(0));
    assert_eq!(cells(&sim), 0);
}

#[test]
fn replication_from_text() {
    let mut sim = loaded("new a@1.0 run (replicate !a; end | ?a; end)");
    assert_eq!(counts(&sim, "a"), (1, 1, 0, 1));
    assert_eq!(sim.reduce_on("a"), Ok(Reduction::Fired));
    assert_eq!(counts(&sim, "a"), (0, 1, 0, 0));
    assert_eq!(sim.reduce_on("a"), Ok(Reduction::Deadlock));
}

#[test]
fn scoped_channels_from_text() {
    let mut sim = loaded(
        "run (let new c@1.0 in (!c; end | ?c; end) | let new c@1.0 in (!c; end | ?c; end))",
    );
    let active = sim.store().activities();
    assert_eq!(active.len(), 2);
    assert_ne!(active[0].channel, active[1].channel);
    assert_eq!((active[0].ax, active[1].ax), (1, 1));
    assert!(sim.store().channel("c").is_none());
    assert_eq!(sim.reduce_on(""), Ok(Reduction::Peeled));
    assert_eq!(sim.reduce_on(""), Ok(Reduction::Peeled));
    assert_eq!(sim.reduce_on(&active[1].channel), Ok(Reduction::Fired));
    assert_eq!(counts(&sim, &active[0].channel), (1, 1, 0, 1));
    assert_eq!(sim.reduce_on(&active[0].channel), Ok(Reduction::Fired));
    assert_eq!(cells(&sim), 0);
}

#[test]
fn operators_read_from_text_have_values() {
    let value = |t: &str| {
        let (e, _) = expr(&tokenize(t).unwrap(), 0).expect("the text is an expression");
        format!("{:?}", e.eval())
    };
    assert_eq!(value("1 + 2"), "Ok(IntLiteral { i: 3, t: Integer })");
    assert_eq!(value("1 + 2 * 3"), "Ok(IntLiteral { i: 7, t: Integer })");
    assert_eq!(value("(1 + 2) / 2"), "Ok(IntLiteral { i: 1, t: Integer })");
    assert_eq!(value("1 + 2 < 3 * 4"), "Ok(True { t: Bool })");
    assert_eq!(value("1.5 <= 1.25"), "Ok(False { t: Bool })");
    assert_eq!(value("if 1 < 2 then 10 else 20"), "Ok(IntLiteral { i: 10, t: Integer })");
    assert_eq!(value("1 + true"), "Err(NotNumeric)");
    assert_eq!(value("1 < 1.5"), "Err(NotNumeric)");
    assert_eq!(value("1 / 0"), "Err(DivisionByZero)");
}

#[test]
fn a_sum_bound_in_a_process_is_computed() {
    let mut sim = loaded("new a@1.0 run val x = (1 + 2) in (!a; end | ?a; end)");
    assert_eq!(counts(&sim, "a"), (1, 1, 0, 1));
    assert_eq!(sim.reduce_on("a"), Ok(Reduction::Fired));
    assert_eq!(cells(&sim), 0);
}
