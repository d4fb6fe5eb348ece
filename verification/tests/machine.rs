use spisim::machineterm::MachineTerm;
use spisim::machine::{MachineError, Reduction};
use spisim::sim::Simulator;
use spisim::store::ChannelRecord;
use spisim::syntax::{Act, Declaration, Process, Program};
use spisim::values::Decimal;

fn rate(digits: u64, scale: u32) -> Decimal {
    Decimal { digits, scale }
}

fn send(c: &str, then: Process) -> Process {
    Process::Action(Act::Output(c.to_string()), Box::new(then))
}

fn receive(c: &str, then: Process) -> Process {
    Process::Action(Act::Input(c.to_string()), Box::new(then))
}

fn channel(sim: &Simulator, c: &str) -> ChannelRecord {
    sim.store().channel(c).expect("the channel is registered")
}

fn cells(sim: &Simulator) -> usize {
    match sim.machine_term() {
        MachineTerm::SummList(list) => list.len(),
        MachineTerm::TopRestriction(_, _, _) => panic!("a restriction is on top"),
    }
}

#[test]
fn unary_reaction_empties_the_term() {
    let program = Program::Prog(vec![
        Declaration::NewChannel("a".to_string(), rate(10, 1)),
        Declaration::Run(Process::Parallel(vec![
            send("a", Process::Termination),
            receive("a", Process::Termination),
        ])),
    ]);
    let mut sim = Simulator::new();
    assert_eq!(sim.load(&program), Ok(()));
    let a = channel(&sim, "a");
    assert_eq!((a.incount, a.outcount, a.mixcount, a.ax), (1, 1, 0, 1));
    assert_eq!(cells(&sim), 2);
    assert_eq!(sim.reduce_on("a"), Ok(Reduction::Fired));
    assert_eq!(cells(&sim), 0);
    let a = channel(&sim, "a");
    assert_eq!((a.incount, a.outcount, a.mixcount, a.ax), (0, 0, 0, 0));
    assert_eq!(sim.reduce_on("a"), Ok(Reduction::Deadlock));
    assert_eq!(cells(&sim), 0);
}

#[test]
fn dimerisation_keeps_ten_on_each_side() {
    let program = Program::Prog(vec![
        Declaration::NewChannel("a".to_string(), rate(20, 1)),
        Declaration::Def(
            "S".to_string(),
            vec![],
            send("a", Process::Instance("S".to_string(), vec![])),
        ),
        Declaration::Def(
            "T".to_string(),
            vec![],
            receive("a", Process::Instance("T".to_string(), vec![])),
        ),
        Declaration::Run(Process::Parallel(vec![
            Process::Repetition(10, Box::new(Process::Instance("S".to_string(), vec![]))),
            Process::Repetition(10, Box::new(Process::Instance("T".to_string(), vec![]))),
        ])),
    ]);
    let mut sim = Simulator::new();
    assert_eq!(sim.load(&program), Ok(()));
    for _ in 0..25 {
        let a = channel(&sim, "a");
        assert_eq!((a.incount, a.outcount, a.mixcount, a.ax), (10, 10, 0, 100));
        assert_eq!(a.rate, rate(20, 1));
        assert_eq!(sim.store().instance_count("S"), Some(10));
        assert_eq!(sim.store().instance_count("T"), Some(10));
        assert_eq!(cells(&sim), 20);
        assert_eq!(sim.reduce_on("a"), Ok(Reduction::Fired));
    }
}

#[test]
fn choice_takes_its_other_guard_along() {
    let program = Program::Prog(vec![
        Declaration::NewChannel("a".to_string(), rate(10, 1)),
        Declaration::NewChannel("b".to_string(), rate(10, 1)),
        Declaration::Run(Process::Parallel(vec![
            Process::Choice(vec![
                (Act::Input("a".to_string()), Process::Termination),
                (Act::Input("b".to_string()), Process::Termination),
            ]),
            send("a", Process::Termination),
        ])),
    ]);
    let mut sim = Simulator::new();
    assert_eq!(sim.load(&program), Ok(()));
    let a = channel(&sim, "a");
    let b = channel(&sim, "b");
    assert_eq!((a.incount, a.outcount, a.ax), (1, 1, 1));
    assert_eq!((b.incount, b.outcount, b.ax), (1, 0, 0));
    let active = sim.store().activities();
    assert_eq!(active.len(), 1);
    assert_eq!(active[0].channel, "a");
    assert_eq!(active[0].ax, 1);
    assert_eq!(sim.reduce_on("b"), Err(MachineError::InactiveChannel));
    assert_eq!(sim.reduce_on("a"), Ok(Reduction::Fired));
    assert_eq!(cells(&sim), 0);
    let b = channel(&sim, "b");
    assert_eq!((b.incount, b.outcount, b.ax), (0, 0, 0));
}

#[test]
fn instance_is_counted_and_retired() {
    let program = Program::Prog(vec![
        Declaration::NewChannel("a".to_string(), rate(10, 1)),
        Declaration::Def("P".to_string(), vec![], receive("a", Process::Termination)),
        Declaration::Run(Process::Parallel(vec![
            Process::Instance("P".to_string(), vec![]),
            send("a", Process::Termination),
        ])),
    ]);
    let mut sim = Simulator::new();
    assert_eq!(sim.load(&program), Ok(()));
    assert_eq!(sim.store().instance_count("P"), Some(1));
    assert_eq!(sim.reduce_on("a"), Ok(Reduction::Fired));
    assert_eq!(sim.store().instance_count("P"), Some(0));
    assert_eq!(cells(&sim), 0);
}

#[test]
fn replication_comes_back() {
    let program = Program::Prog(vec![
        Declaration::NewChannel("a".to_string(), rate(10, 1)),
        Declaration::Run(Process::Parallel(vec![
            Process::Replication(Act::Output("a".to_string()), Box::new(Process::Termination)),
            receive("a", Process::Termination),
        ])),
    ]);
    let mut sim = Simulator::new();
    assert_eq!(sim.load(&program), Ok(()));
    assert_eq!(sim.reduce_on("a"), Ok(Reduction::Fired));
    let a = channel(&sim, "a");
    assert_eq!((a.incount, a.outcount, a.ax), (0, 1, 0));
    assert_eq!(cells(&sim), 1);
    assert_eq!(sim.reduce_on("a"), Ok(Reduction::Deadlock));
}

#[test]
fn restrictions_get_names_of_their_own() {
    let local = || {
        Process::Restriction(
            "c".to_string(),
            rate(10, 1),
            Box::new(Process::Parallel(vec![
                send("c", Process::Termination),
                receive("c", Process::Termination),
            ])),
        )
    };
    let program = Program::Prog(vec![Declaration::Run(Process::Parallel(vec![local(), local()]))]);
    let mut sim = Simulator::new();
    assert_eq!(sim.load(&program), Ok(()));
    let active = sim.store().activities();
    assert_eq!(active.len(), 2);
    assert_ne!(active[0].channel, active[1].channel);
    assert_eq!((active[0].ax, active[1].ax), (1, 1));
    assert_eq!((active[0].rate, active[1].rate), (rate(10, 1), rate(10, 1)));
    assert_eq!(sim.reduce_on(""), Ok(Reduction::Peeled));
    assert_eq!(sim.reduce_on(""), Ok(Reduction::Peeled));
    assert_eq!(sim.store().activities().len(), 2);
    let first = active[0].channel.clone();
    let second = active[1].channel.clone();
    assert_eq!(sim.reduce_on(&first), Ok(Reduction::Fired));
    assert_eq!(channel(&sim, &second).ax, 1);
    assert_eq!(sim.reduce_on(&second), Ok(Reduction::Fired));
    assert_eq!(cells(&sim), 0);
    assert_eq!(sim.reduce_on(&second), Ok(Reduction::Deadlock));
}
