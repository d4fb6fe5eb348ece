use spisim::ast::{Act, Process};
use spisim::desugar::{destruct, recurse, SyntaxError};
use spisim::lambda::{BinOp, EvalError, Lambda};
use spisim::machineterm::{MachineTerm, Summ};
use spisim::machine::{MachineError, Reduction, DEPTH_LIMIT};
use spisim::sim::Simulator;
use spisim::store::Definition;
use spisim::symgen::SymbolGenerator;
use spisim::syntax;
use spisim::values::{Decimal, Pattern, Type};

fn one() -> Decimal {
    Decimal { digits: 10, scale: 1 }
}

fn num(i: i64) -> Lambda {
    Lambda::IntLiteral { i, t: Type::Integer }
}

fn var(v: &str) -> Lambda {
    Lambda::Var { v: v.to_string(), t: Type::TVar }
}

fn input(c: &str, then: Process) -> Process {
    Process::Summation(vec![(Act::Input(c.to_string()), then)])
}

fn output(c: &str, then: Process) -> Process {
    Process::Summation(vec![(Act::Output(c.to_string()), then)])
}

fn par(l: Process, r: Process) -> Process {
    Process::Parallel(Box::new(l), Box::new(r))
}

fn show<T: std::fmt::Debug>(x: &T) -> String {
    format!("{:?}", x)
}

/// A simulator that has the channels `a`, `b` and `c`.
fn machine() -> Simulator {
    let mut sim = Simulator::new();
    let program = syntax::Program::Prog(vec![
        syntax::Declaration::NewChannel("a".to_string(), one()),
        syntax::Declaration::NewChannel("b".to_string(), one()),
        syntax::Declaration::NewChannel("c".to_string(), one()),
    ]);
    assert_eq!(sim.load(&program), Ok(()));
    sim
}

fn list(sim: &Simulator) -> &Vec<Summ> {
    match sim.machine_term() {
        MachineTerm::SummList(list) => list,
        MachineTerm::TopRestriction(_, _, _) => panic!("a restriction is on top"),
    }
}

fn guards(sim: &Simulator) -> Vec<String> {
    list(sim).iter().map(|cell| show(&cell.1.iter().map(|b| &b.0).collect::<Vec<_>>())).collect()
}

/// Walks through the term and checks the store's counts of every channel.
fn in_step(sim: &Simulator) {
    let mut term = sim.machine_term();
    while let MachineTerm::TopRestriction(_, _, inner) = term {
        term = inner;
    }
    let cells = match term {
        MachineTerm::SummList(cells) => cells,
        MachineTerm::TopRestriction(_, _, _) => unreachable!(),
    };
    let mut names: Vec<String> = Vec::new();
    for cell in cells.iter() {
        assert!(!cell.1.is_empty());
        for (act, _) in cell.1.iter() {
            names.push(act.channel().clone());
        }
    }
    for c in ["a", "b", "c", "0", "1", "2", "3"].iter() {
        names.push(c.to_string());
    }
    for name in names.iter() {
        let mut ins = 0usize;
        let mut outs = 0usize;
        let mut mix = 0u128;
        for cell in cells.iter() {
            let i = cell.1.iter().filter(|b| matches!(&b.0, Act::Input(c) if c == name)).count();
            let o = cell.1.iter().filter(|b| matches!(&b.0, Act::Output(c) if c == name)).count();
            ins += i;
            outs += o;
            mix += (i * o) as u128;
        }
        match sim.store().channel(name) {
            Some(r) => {
                assert_eq!((r.incount, r.outcount, r.mixcount), (ins, outs, mix));
                assert_eq!(r.ax, (ins * outs) as u128 - mix);
            }
            None => assert_eq!((ins, outs, mix), (0, 0, 0)),
        }
    }
}

#[test]
fn a_new_simulator_is_empty() {
    let sim = Simulator::new();
    assert!(list(&sim).is_empty());
    assert!(sim.store().activities().is_empty());
    assert!(sim.store().instance_rows().is_empty());
    assert_eq!(DEPTH_LIMIT, 4096);
}

#[test]
fn an_empty_program_comes_to_rest_at_once() {
    let mut sim = Simulator::new();
    assert_eq!(sim.load(&syntax::Program::Prog(vec![])), Ok(()));
    assert!(list(&sim).is_empty());
    assert_eq!(sim.reduce_on(""), Ok(Reduction::Deadlock));
    assert_eq!(sim.reduce_on("a"), Ok(Reduction::Deadlock));
    assert!(list(&sim).is_empty());
}

#[test]
fn termination_builds_nothing() {
    let mut sim = machine();
    assert_eq!(sim.spawn(&Process::Termination), Ok(()));
    assert!(list(&sim).is_empty());
    in_step(&sim);
}

#[test]
fn no_copies_are_termination() {
    let mut sim = machine();
    assert_eq!(sim.spawn(&input("a", Process::Termination)), Ok(()));
    let before = (show(sim.machine_term()), show(sim.store()));
    let none = Process::Repetition(0, Box::new(par(input("a", Process::Termination), output("b", Process::Termination))));
    assert_eq!(sim.spawn(&none), Ok(()));
    assert_eq!((show(sim.machine_term()), show(sim.store())), before);
    assert_eq!(sim.spawn(&Process::Termination), Ok(()));
    assert_eq!((show(sim.machine_term()), show(sim.store())), before);
}

#[test]
fn copies_are_built_one_by_one() {
    let mut sim = machine();
    let three = Process::Repetition(3, Box::new(par(input("a", Process::Termination), output("b", Process::Termination))));
    assert_eq!(sim.spawn(&three), Ok(()));
    assert_eq!(
        guards(&sim),
        vec![
            "[Input(\"a\")]",
            "[Output(\"b\")]",
            "[Input(\"a\")]",
            "[Output(\"b\")]",
            "[Input(\"a\")]",
            "[Output(\"b\")]"
        ]
    );
    let a = sim.store().channel("a").unwrap();
    assert_eq!((a.incount, a.outcount, a.ax), (3, 0, 0));
    in_step(&sim);
}

#[test]
fn the_leftmost_process_stands_at_the_head() {
    let mut sim = machine();
    let p = par(
        input("a", Process::Termination),
        par(output("b", Process::Termination), input("c", Process::Termination)),
    );
    assert_eq!(sim.spawn(&p), Ok(()));
    assert_eq!(guards(&sim), vec!["[Input(\"a\")]", "[Output(\"b\")]", "[Input(\"c\")]"]);
    assert_eq!(sim.spawn(&output("c", Process::Termination)), Ok(()));
    assert_eq!(
        guards(&sim),
        vec!["[Output(\"c\")]", "[Input(\"a\")]", "[Output(\"b\")]", "[Input(\"c\")]"]
    );
    in_step(&sim);
}

#[test]
fn construct_builds_on_the_term_it_is_given() {
    let mut sim = machine();
    let below = MachineTerm::TopRestriction(
        "b".to_string(),
        one(),
        Box::new(MachineTerm::SummList(vec![Summ::new(
            None,
            vec![(Act::Input("b".to_string()), Process::Termination)],
        )])),
    );
    let built = sim.construct(&output("a", Process::Termination), below, 5).unwrap();
    assert_eq!(
        show(&built),
        "TopRestriction(\"b\", Decimal { digits: 10, scale: 1 }, SummList([Summ(None, [(Output(\"a\"), Termination)]), Summ(None, [(Input(\"b\"), Termination)])]))"
    );
    assert_eq!(show(&sim.construct(&Process::Termination, MachineTerm::empty(), 0)), "Err(TooDeep)");
    assert_eq!(
        show(&sim.construct(&Process::Termination, MachineTerm::empty(), 1)),
        "Ok(SummList([]))"
    );
}

#[test]
fn a_restriction_goes_to_the_top_under_a_fresh_name() {
    let mut sim = machine();
    let p = par(
        input("c", Process::Termination),
        Process::Restriction(
            "c".to_string(),
            Decimal { digits: 5, scale: 0 },
            Box::new(par(input("c", Process::Termination), output("c", output("a", Process::Termination)))),
        ),
    );
    assert_eq!(sim.spawn(&p), Ok(()));
    assert_eq!(
        show(sim.machine_term()),
        "TopRestriction(\"0\", Decimal { digits: 5, scale: 0 }, SummList([Summ(None, [(Input(\"c\"), Termination)]), Summ(None, [(Input(\"0\"), Termination)]), Summ(None, [(Output(\"0\"), Summation([(Output(\"a\"), Termination)]))])]))"
    );
    let fresh = sim.store().channel("0").unwrap();
    assert_eq!((fresh.incount, fresh.outcount, fresh.ax), (1, 1, 1));
    assert_eq!(fresh.rate, Decimal { digits: 5, scale: 0 });
    let c = sim.store().channel("c").unwrap();
    assert_eq!((c.incount, c.outcount), (1, 0));
    in_step(&sim);
    assert_eq!(sim.reduce_on("0"), Ok(Reduction::Peeled));
    let fresh = sim.store().channel("0").unwrap();
    assert_eq!((fresh.incount, fresh.outcount, fresh.ax), (1, 1, 1));
    in_step(&sim);
    assert_eq!(sim.reduce_on("0"), Ok(Reduction::Fired));
    assert_eq!(guards(&sim), vec!["[Output(\"a\")]", "[Input(\"c\")]"]);
    in_step(&sim);
}

#[test]
fn a_bound_value_is_evaluated_and_put_in() {
    let mut sim = machine();
    let program = syntax::Program::Prog(vec![syntax::Declaration::Def(
        "P".to_string(),
        vec![Pattern::Name("n".to_string())],
        syntax::Process::Action(
            syntax::Act::Input("a".to_string()),
            Box::new(syntax::Process::Instance("Q".to_string(), vec![var("n"), var("m")])),
        ),
    )]);
    assert_eq!(sim.load(&program), Ok(()));
    let sum = Lambda::BinExpr {
        b: BinOp::Plus,
        l: Box::new(num(1)),
        r: Box::new(num(2)),
        t: Type::Integer,
    };
    let p = Process::LetVal(
        "m".to_string(),
        sum,
        Box::new(Process::Instance("P".to_string(), vec![var("m")])),
    );
    assert_eq!(sim.spawn(&p), Ok(()));
    assert_eq!(
        show(list(&sim)),
        "[Summ(Some(\"P\"), [(Input(\"a\"), Instance(\"Q\", [IntLiteral { i: 3, t: Integer }, Var { v: \"m\", t: TVar }]))])]"
    );
    assert_eq!(sim.store().instance_count("P"), Some(1));
}

#[test]
fn what_cannot_be_built_is_refused() {
    let fails = |p: Process| {
        let mut sim = machine();
        sim.spawn(&p)
    };
    assert_eq!(fails(Process::Summation(vec![])), Err(MachineError::EmptySummation));
    assert_eq!(fails(input("z", Process::Termination)), Err(MachineError::UnknownChannel));
    assert_eq!(
        fails(Process::Instance("P".to_string(), vec![])),
        Err(MachineError::UndefinedInstance)
    );
    let not_a_tuple = Lambda::Index { i: 0, e: Box::new(num(1)), t: Type::TVar };
    assert_eq!(
        fails(Process::LetVal("x".to_string(), not_a_tuple, Box::new(Process::Termination))),
        Err(MachineError::Eval(EvalError::NotATuple))
    );
    assert_eq!(
        fails(par(Process::Summation(vec![]), input("z", Process::Termination))),
        Err(MachineError::UnknownChannel)
    );
    let mut sim = machine();
    assert_eq!(sim.spawn(&input("a", Process::Termination)), Ok(()));
    assert_eq!(sim.spawn(&Process::Summation(vec![])), Err(MachineError::EmptySummation));
    assert!(list(&sim).is_empty());
}

#[test]
fn arguments_must_match_the_parameters() {
    let with = |formals: Vec<Pattern>, args: Vec<Lambda>| {
        let mut sim = machine();
        let mut gen = SymbolGenerator::new();
        let body = Process::from_syntax(
            &syntax::Process::Action(
                syntax::Act::Input("a".to_string()),
                Box::new(syntax::Process::Termination),
            ),
            &mut gen,
        )
        .unwrap();
        assert_eq!(show(&body), "Summation([(Input(\"a\"), Termination)])");
        let program = syntax::Program::Prog(vec![syntax::Declaration::Def(
            "P".to_string(),
            formals,
            syntax::Process::Action(
                syntax::Act::Input("a".to_string()),
                Box::new(syntax::Process::Termination),
            ),
        )]);
        assert_eq!(sim.load(&program), Ok(()));
        let r = sim.spawn(&Process::Instance("P".to_string(), args));
        (r, sim.store().instance_count("P"))
    };
    let x = || Pattern::Name("x".to_string());
    assert_eq!(with(vec![x()], vec![num(1)]), (Ok(()), Some(1)));
    assert_eq!(with(vec![], vec![]), (Ok(()), Some(1)));
    assert_eq!(with(vec![x()], vec![]), (Err(MachineError::PatternMismatch), Some(1)));
    assert_eq!(with(vec![], vec![num(1)]), (Err(MachineError::PatternMismatch), Some(1)));
    assert_eq!(
        with(vec![Pattern::Tuple(vec![x()])], vec![num(1)]),
        (Err(MachineError::PatternMismatch), Some(1))
    );
    let pair = Lambda::Tuple { tup: vec![num(1), num(2)], t: Type::Tuple };
    assert_eq!(
        with(vec![Pattern::Tuple(vec![x(), Pattern::Wildcard])], vec![pair]),
        (Ok(()), Some(1))
    );
}

#[test]
fn processes_may_nest_only_so_deep() {
    let forever = syntax::Program::Prog(vec![
        syntax::Declaration::Def(
            "S".to_string(),
            vec![],
            syntax::Process::Parallel(vec![
                syntax::Process::Instance("S".to_string(), vec![]),
                syntax::Process::Termination,
            ]),
        ),
        syntax::Declaration::Run(syntax::Process::Instance("S".to_string(), vec![])),
    ]);
    let mut sim = Simulator::with_depth(50);
    assert_eq!(sim.load(&forever), Err(MachineError::TooDeep));
    assert!(list(&sim).is_empty());
    let mut shallow = Simulator::with_depth(2);
    let p = par(input("a", Process::Termination), Process::Termination);
    assert_eq!(shallow.spawn(&p), Err(MachineError::UnknownChannel));
    let nested = par(par(Process::Termination, Process::Termination), Process::Termination);
    assert_eq!(shallow.spawn(&nested), Err(MachineError::TooDeep));
    assert_eq!(shallow.spawn(&par(Process::Termination, Process::Termination)), Ok(()));
}

#[test]
fn an_instance_that_unfolds_to_no_choice_stays_counted() {
    let program = syntax::Program::Prog(vec![
        syntax::Declaration::NewChannel("a".to_string(), one()),
        syntax::Declaration::Def(
            "P".to_string(),
            vec![],
            syntax::Process::Parallel(vec![
                syntax::Process::Action(
                    syntax::Act::Input("a".to_string()),
                    Box::new(syntax::Process::Termination),
                ),
                syntax::Process::Action(
                    syntax::Act::Output("a".to_string()),
                    Box::new(syntax::Process::Termination),
                ),
            ]),
        ),
        syntax::Declaration::Run(syntax::Process::Instance("P".to_string(), vec![])),
    ]);
    let mut sim = Simulator::new();
    assert_eq!(sim.load(&program), Ok(()));
    assert_eq!(sim.store().instance_count("P"), Some(1));
    assert_eq!(show(list(&sim)).matches("Summ(None").count(), 2);
    assert_eq!(sim.reduce_on("a"), Ok(Reduction::Fired));
    assert_eq!(sim.store().instance_count("P"), Some(1));
    assert!(list(&sim).is_empty());
}

#[test]
fn fire_takes_the_guards_it_is_told() {
    let mut sim = machine();
    let p = par(
        input("a", output("b", Process::Termination)),
        par(
            output("a", Process::Termination),
            par(
                input("a", output("c", Process::Termination)),
                output("a", input("c", Process::Termination)),
            ),
        ),
    );
    assert_eq!(sim.spawn(&p), Ok(()));
    in_step(&sim);
    assert_eq!(sim.fire("a", 1, 1), Ok(()));
    assert_eq!(
        guards(&sim),
        vec!["[Input(\"c\")]", "[Output(\"c\")]", "[Input(\"a\")]", "[Output(\"a\")]"]
    );
    in_step(&sim);
    assert_eq!(sim.fire("c", 0, 0), Ok(()));
    assert_eq!(guards(&sim), vec!["[Input(\"a\")]", "[Output(\"a\")]"]);
    assert_eq!(sim.fire("a", 1, 0), Err(MachineError::GuardNotFound));
    assert_eq!(guards(&sim), vec!["[Input(\"a\")]", "[Output(\"a\")]"]);
    assert_eq!(sim.fire("a", 0, 1), Err(MachineError::GuardNotFound));
    assert_eq!(guards(&sim), vec!["[Output(\"a\")]"]);
    assert_eq!(sim.fire("zz", 0, 0), Err(MachineError::GuardNotFound));
}

#[test]
fn an_input_may_take_its_only_partner_along() {
    let mut sim = machine();
    let both = Process::Summation(vec![
        (Act::Input("a".to_string()), Process::Termination),
        (Act::Output("a".to_string()), Process::Termination),
    ]);
    assert_eq!(sim.spawn(&par(both, input("a", Process::Termination))), Ok(()));
    let a = sim.store().channel("a").unwrap();
    assert_eq!((a.incount, a.outcount, a.mixcount, a.ax), (2, 1, 1, 1));
    in_step(&sim);
    assert_eq!(sim.fire("a", 0, 0), Err(MachineError::NoPartner));
    assert_eq!(guards(&sim), vec!["[Input(\"a\")]"]);
    in_step(&sim);
    let mut sim = machine();
    let both = Process::Summation(vec![
        (Act::Input("a".to_string()), Process::Termination),
        (Act::Output("a".to_string()), Process::Termination),
    ]);
    assert_eq!(sim.spawn(&par(both, input("a", Process::Termination))), Ok(()));
    assert_eq!(sim.fire("a", 1, 0), Ok(()));
    assert!(list(&sim).is_empty());
    in_step(&sim);
}

#[test]
fn a_choice_of_an_input_and_an_output_cannot_fire_alone() {
    let mut sim = machine();
    let both = Process::Summation(vec![
        (Act::Input("a".to_string()), Process::Termination),
        (Act::Output("a".to_string()), Process::Termination),
    ]);
    assert_eq!(sim.spawn(&both), Ok(()));
    let a = sim.store().channel("a").unwrap();
    assert_eq!((a.incount, a.outcount, a.mixcount, a.ax), (1, 1, 1, 0));
    assert_eq!(sim.reduce_on("a"), Ok(Reduction::Deadlock));
    assert_eq!(guards(&sim).len(), 1);
}

#[test]
fn a_deadlock_changes_nothing() {
    let mut sim = machine();
    assert_eq!(sim.spawn(&par(input("a", Process::Termination), output("b", Process::Termination))), Ok(()));
    let before = (show(sim.machine_term()), show(sim.store()));
    for chan in ["a", "b", "c", "nowhere", ""].iter() {
        assert_eq!(sim.reduce_on(chan), Ok(Reduction::Deadlock));
        assert_eq!((show(sim.machine_term()), show(sim.store())), before);
    }
}

#[test]
fn a_replication_never_leaves() {
    let mut sim = machine();
    let p = par(
        Process::Replication(
            Act::Output("a".to_string()),
            Box::new(input("b", Process::Termination)),
        ),
        Process::Replication(Act::Input("a".to_string()), Box::new(Process::Termination)),
    );
    assert_eq!(sim.spawn(&p), Ok(()));
    for step in 1..8 {
        let a = sim.store().channel("a").unwrap();
        assert_eq!((a.incount, a.outcount, a.ax), (1, 1, 1));
        assert_eq!(sim.reduce_on("a"), Ok(Reduction::Fired));
        assert_eq!(sim.store().channel("b").unwrap().incount, step);
        in_step(&sim);
    }
}

#[test]
fn the_counts_stay_in_step_through_a_run() {
    let program = syntax::Program::Prog(vec![
        syntax::Declaration::NewChannel("a".to_string(), one()),
        syntax::Declaration::NewChannel("b".to_string(), one()),
        syntax::Declaration::Def(
            "P".to_string(),
            vec![],
            syntax::Process::Choice(vec![
                (
                    syntax::Act::Input("a".to_string()),
                    syntax::Process::Instance("P".to_string(), vec![]),
                ),
                (
                    syntax::Act::Output("b".to_string()),
                    syntax::Process::Restriction(
                        "k".to_string(),
                        one(),
                        Box::new(syntax::Process::Action(
                            syntax::Act::Output("k".to_string()),
                            Box::new(syntax::Process::Termination),
                        )),
                    ),
                ),
            ]),
        ),
        syntax::Declaration::Run(syntax::Process::Parallel(vec![
            syntax::Process::Repetition(
                4,
                Box::new(syntax::Process::Instance("P".to_string(), vec![])),
            ),
            syntax::Process::Replication(
                syntax::Act::Output("a".to_string()),
                Box::new(syntax::Process::Termination),
            ),
            syntax::Process::Repetition(
                3,
                Box::new(syntax::Process::Action(
                    syntax::Act::Input("b".to_string()),
                    Box::new(syntax::Process::Termination),
                )),
            ),
        ])),
    ]);
    let mut sim = Simulator::new();
    assert_eq!(sim.load(&program), Ok(()));
    in_step(&sim);
    let mut fired = 0;
    for _ in 0..60 {
        let active = sim.store().activities();
        let chan = if sim.machine_term().is_restr() || active.is_empty() {
            String::new()
        } else {
            active[fired % active.len()].channel.clone()
        };
        match sim.reduce_on(&chan) {
            Ok(Reduction::Fired) => fired += 1,
            Ok(Reduction::Peeled) => {}
            Ok(Reduction::Deadlock) => panic!("a replication is there"),
            Err(e) => panic!("{:?}", e),
        }
        in_step(&sim);
    }
    assert!(fired > 50);
    assert_eq!(sim.store().channel("b").unwrap().incount, 0);
    assert_eq!(sim.store().instance_count("P"), Some(1));
}

#[test]
fn a_program_is_loaded_in_the_order_of_its_declarations() {
    let program = syntax::Program::Prog(vec![
        syntax::Declaration::Run(syntax::Process::Action(
            syntax::Act::Input("a".to_string()),
            Box::new(syntax::Process::Termination),
        )),
        syntax::Declaration::NewChannel("a".to_string(), one()),
        syntax::Declaration::Run(syntax::Process::Instance("P".to_string(), vec![])),
        syntax::Declaration::Def(
            "P".to_string(),
            vec![],
            syntax::Process::Action(
                syntax::Act::Output("a".to_string()),
                Box::new(syntax::Process::Termination),
            ),
        ),
    ]);
    let mut sim = Simulator::new();
    assert_eq!(sim.load(&program), Ok(()));
    assert_eq!(guards(&sim), vec!["[Input(\"a\")]", "[Output(\"a\")]"]);
    assert_eq!(show(&list(&sim)[1].0), "Some(\"P\")");
    assert_eq!(sim.store().instance_count("P"), Some(1));
    in_step(&sim);
}

#[test]
fn a_program_that_cannot_be_loaded_is_refused() {
    let load = |ds: Vec<syntax::Declaration>| Simulator::new().load(&syntax::Program::Prog(ds));
    assert_eq!(
        load(vec![syntax::Declaration::Val(Pattern::Name("x".to_string()), num(1))]),
        Err(MachineError::TopLevelVal)
    );
    assert_eq!(
        load(vec![syntax::Declaration::Def(
            "P".to_string(),
            vec![],
            syntax::Process::Parallel(vec![])
        )]),
        Err(MachineError::Syntax(SyntaxError::EmptyParallel))
    );
    assert_eq!(
        load(vec![syntax::Declaration::Run(syntax::Process::LetVal(
            Pattern::Wildcard,
            num(1),
            Box::new(syntax::Process::Termination)
        ))]),
        Err(MachineError::Syntax(SyntaxError::WildcardBinding))
    );
    assert_eq!(
        load(vec![syntax::Declaration::Run(syntax::Process::Action(
            syntax::Act::Input("a".to_string()),
            Box::new(syntax::Process::Termination)
        ))]),
        Err(MachineError::UnknownChannel)
    );
}

#[test]
fn written_processes_become_processes_of_the_machine() {
    let lower = |p: &syntax::Process| {
        let mut gen = SymbolGenerator::new();
        show(&Process::from_syntax(p, &mut gen))
    };
    let end = || syntax::Process::Termination;
    let recv = |c: &str| syntax::Process::Action(syntax::Act::Input(c.to_string()), Box::new(end()));
    assert_eq!(lower(&end()), "Ok(Termination)");
    assert_eq!(lower(&recv("a")), "Ok(Summation([(Input(\"a\"), Termination)]))");
    assert_eq!(
        lower(&syntax::Process::Parallel(vec![recv("a"), recv("b"), recv("c")])),
        "Ok(Parallel(Summation([(Input(\"a\"), Termination)]), Parallel(Summation([(Input(\"b\"), Termination)]), Summation([(Input(\"c\"), Termination)]))))"
    );
    assert_eq!(lower(&syntax::Process::Parallel(vec![end()])), "Ok(Termination)");
    assert_eq!(lower(&syntax::Process::Parallel(vec![])), "Err(EmptyParallel)");
    assert_eq!(
        lower(&syntax::Process::Choice(vec![
            (syntax::Act::Input("a".to_string()), end()),
            (syntax::Act::Output("b".to_string()), end()),
            (syntax::Act::Input("c".to_string()), end()),
        ])),
        "Ok(Summation([(Input(\"a\"), Termination), (Output(\"b\"), Termination), (Input(\"c\"), Termination)]))"
    );
    assert_eq!(
        lower(&syntax::Process::Restriction("c".to_string(), one(), Box::new(recv("c")))),
        "Ok(Restriction(\"c\", Decimal { digits: 10, scale: 1 }, Summation([(Input(\"c\"), Termination)])))"
    );
    assert_eq!(
        lower(&syntax::Process::Repetition(4, Box::new(end()))),
        "Ok(Repetition(4, Termination))"
    );
    assert_eq!(
        lower(&syntax::Process::Replication(syntax::Act::Output("a".to_string()), Box::new(end()))),
        "Ok(Replication(Output(\"a\"), Termination))"
    );
    assert_eq!(
        lower(&syntax::Process::Instance("P".to_string(), vec![num(1)])),
        "Ok(Instance(\"P\", [IntLiteral { i: 1, t: Integer }]))"
    );
    assert_eq!(
        lower(&syntax::Process::LetVal(Pattern::Name("x".to_string()), num(1), Box::new(end()))),
        "Ok(LetVal(\"x\", IntLiteral { i: 1, t: Integer }, Termination))"
    );
    assert_eq!(
        lower(&syntax::Process::LetVal(Pattern::Wildcard, num(1), Box::new(end()))),
        "Err(WildcardBinding)"
    );
    assert_eq!(show(&Act::from_syntax(&syntax::Act::Output("q".to_string()))), "Output(\"q\")");
}

#[test]
fn a_tuple_pattern_becomes_a_chain_of_bindings() {
    let mut gen = SymbolGenerator::new();
    let name = |n: &str| Pattern::Name(n.to_string());
    let pattern = Pattern::Tuple(vec![name("x"), Pattern::Tuple(vec![name("y")]), name("z")]);
    let written = syntax::Process::LetVal(
        pattern,
        var("t"),
        Box::new(syntax::Process::Termination),
    );
    let unit = |v: &str| format!("Var {{ v: \"{}\", t: Unit }}", v);
    let part =
        |i: usize, of: &str| format!("Index {{ i: {}, e: {}, t: Unit }}", i, unit(of));
    let chain = [
        ("0", "Var { v: \"t\", t: TVar }".to_string()),
        ("1", part(0, "0")),
        ("x", unit("1")),
        ("2", part(1, "0")),
        ("3", part(0, "2")),
        ("y", unit("3")),
        ("4", part(2, "0")),
        ("z", unit("4")),
    ];
    let mut expected = "Termination".to_string();
    for (name, value) in chain.iter().rev() {
        expected = format!("LetVal(\"{}\", {}, {})", name, value, expected);
    }
    assert_eq!(show(&Process::from_syntax(&written, &mut gen)), format!("Ok({})", expected));
    assert_eq!(spisim::symgen::next(&mut gen), "5");
    let mut gen = SymbolGenerator::new();
    assert_eq!(
        show(&recurse(&name("x"), "p".to_string(), &mut gen)),
        format!("Ok([(\"x\", {})])", unit("p"))
    );
    assert_eq!(show(&recurse(&Pattern::Wildcard, "p".to_string(), &mut gen)), "Err(WildcardBinding)");
    assert_eq!(
        show(&recurse(&Pattern::Tuple(vec![name("x"), Pattern::Wildcard]), "p".to_string(), &mut gen)),
        "Err(WildcardBinding)"
    );
    assert_eq!(spisim::symgen::next(&mut gen), "2");
    assert_eq!(
        show(&destruct(&Pattern::Tuple(vec![]), num(1), Process::Termination, &mut gen)),
        "Ok(LetVal(\"3\", IntLiteral { i: 1, t: Integer }, Termination))"
    );
    assert_eq!(
        show(&destruct(&Pattern::Wildcard, num(1), Process::Termination, &mut gen)),
        "Err(WildcardBinding)"
    );
}

#[test]
fn a_definition_is_a_value_of_its_own() {
    let d = Definition { formals: vec![Pattern::Wildcard], body: Process::Termination };
    assert_eq!(show(&d), "Definition { formals: [Wildcard], body: Termination }");
}

#[test]
fn an_instance_is_gone_as_soon_as_its_choice_is_taken() {
    let program = syntax::Program::Prog(vec![
        syntax::Declaration::NewChannel("a".to_string(), one()),
        syntax::Declaration::Def(
            "P".to_string(),
            vec![],
            syntax::Process::Action(
                syntax::Act::Input("a".to_string()),
                Box::new(syntax::Process::Instance("Nobody".to_string(), vec![])),
            ),
        ),
        syntax::Declaration::Run(syntax::Process::Parallel(vec![
            syntax::Process::Instance("P".to_string(), vec![]),
            syntax::Process::Action(
                syntax::Act::Output("a".to_string()),
                Box::new(syntax::Process::Termination),
            ),
        ])),
    ]);
    let mut sim = Simulator::new();
    assert_eq!(sim.load(&program), Ok(()));
    assert_eq!(sim.store().instance_count("P"), Some(1));
    assert_eq!(sim.fire("a", 0, 0), Err(MachineError::UndefinedInstance));
    assert_eq!(sim.store().instance_count("P"), Some(0));
    assert_eq!(sim.store().instance_count("Nobody"), Some(1));
    assert!(list(&sim).is_empty());
}

#[test]
fn the_fresh_names_may_run_out() {
    let last = || SymbolGenerator::starting_at(usize::MAX - 1);
    let local =
        || Process::Restriction("c".to_string(), one(), Box::new(Process::Termination));
    let mut sim = Simulator::with_symbols(last(), 10);
    assert_eq!(sim.spawn(&local()), Ok(()));
    assert_eq!(
        show(sim.machine_term()),
        format!(
            "TopRestriction(\"{}\", Decimal {{ digits: 10, scale: 1 }}, SummList([]))",
            usize::MAX - 1
        )
    );
    assert_eq!(sim.spawn(&local()), Err(MachineError::SymbolsExhausted));
    let mut gen = last();
    assert!(!gen.exhausted());
    let pair = Pattern::Tuple(vec![Pattern::Name("x".to_string())]);
    assert_eq!(
        show(&destruct(&pair, num(1), Process::Termination, &mut gen)),
        "Err(SymbolsExhausted)"
    );
    assert!(gen.exhausted());
    assert_eq!(
        show(&destruct(&pair, num(1), Process::Termination, &mut gen)),
        "Err(SymbolsExhausted)"
    );
    let written = syntax::Process::LetVal(
        Pattern::Tuple(vec![]),
        num(1),
        Box::new(syntax::Process::Termination),
    );
    assert_eq!(show(&Process::from_syntax(&written, &mut gen)), "Err(SymbolsExhausted)");
    let mut sim = Simulator::with_symbols(SymbolGenerator::starting_at(usize::MAX), 10);
    assert_eq!(
        sim.load(&syntax::Program::Prog(vec![syntax::Declaration::Run(written)])),
        Err(MachineError::Syntax(SyntaxError::SymbolsExhausted))
    );
}

#[test]
fn a_tuple_pattern_binds_its_names_to_the_components() {
    let mut sim = machine();
    let name = |n: &str| Pattern::Name(n.to_string());
    let pair = |a: Lambda, b: Lambda| Lambda::Tuple { tup: vec![a, b], t: Type::Tuple };
    let written = syntax::Process::LetVal(
        Pattern::Tuple(vec![name("x"), Pattern::Tuple(vec![name("y"), name("z")])]),
        pair(num(1), pair(num(2), num(3))),
        Box::new(syntax::Process::Action(
            syntax::Act::Input("a".to_string()),
            Box::new(syntax::Process::Instance(
                "P".to_string(),
                vec![var("z"), var("x"), var("y"), var("w")],
            )),
        )),
    );
    let program = syntax::Program::Prog(vec![syntax::Declaration::Run(written)]);
    assert_eq!(sim.load(&program), Ok(()));
    assert_eq!(
        show(list(&sim)),
        "[Summ(None, [(Input(\"a\"), Instance(\"P\", [IntLiteral { i: 3, t: Integer }, IntLiteral { i: 1, t: Integer }, IntLiteral { i: 2, t: Integer }, Var { v: \"w\", t: TVar }]))])]"
    );
}

#[test]
fn a_choice_keeps_the_order_in_which_it_is_written() {
    let program = syntax::Program::Prog(vec![
        syntax::Declaration::NewChannel("a".to_string(), one()),
        syntax::Declaration::NewChannel("b".to_string(), one()),
        syntax::Declaration::Run(syntax::Process::Choice(vec![
            (syntax::Act::Input("a".to_string()), syntax::Process::Termination),
            (syntax::Act::Input("b".to_string()), syntax::Process::Termination),
            (syntax::Act::Input("a".to_string()), syntax::Process::Termination),
        ])),
    ]);
    let mut sim = Simulator::new();
    assert_eq!(sim.load(&program), Ok(()));
    assert_eq!(guards(&sim), vec!["[Input(\"a\"), Input(\"b\"), Input(\"a\")]"]);
    assert_eq!(sim.machine_term().seek(Act::Input("a".to_string()), 0), Some((0, 0)));
    assert_eq!(sim.machine_term().seek(Act::Input("b".to_string()), 0), Some((0, 1)));
    assert_eq!(sim.machine_term().seek(Act::Input("a".to_string()), 1), Some((0, 2)));
}
