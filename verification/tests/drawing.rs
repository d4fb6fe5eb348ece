use spisim::gillespie::{pick, propensities};
use spisim::machineterm::MachineTerm;
use spisim::parser::program;
use spisim::machine::Reduction;
use spisim::sim::Simulator;
use spisim::store::Activity;
use spisim::tokenizer::tokenize;
use spisim::values::Decimal;

fn activity(channel: &str, ax: u128, digits: u64, scale: u32) -> Activity {
    Activity { channel: channel.to_string(), ax, rate: Decimal { digits, scale } }
}

fn loaded(text: &str) -> Simulator {
    let mut sim = Simulator::new();
    let parsed = program(&tokenize(text).expect("the text has tokens")).expect("a program");
    assert_eq!(sim.load(&parsed), Ok(()));
    sim
}

fn cells(sim: &Simulator) -> usize {
    match sim.machine_term() {
        MachineTerm::SummList(list) => list.len(),
        MachineTerm::TopRestriction(_, _, _) => panic!("a restriction is on top"),
    }
}

#[test]
fn propensities_are_activity_times_rate() {
    let active = vec![
        activity("a", 100, 20, 1),
        activity("b", 3, 125, 3),
        activity("c", 1, 7, 0),
        activity("d", 5, 0, 2),
    ];
    let p = propensities(&active).expect("the numbers are small");
    assert_eq!(p.scale, 3);
    assert_eq!(p.weights, vec![200_000, 375, 7_000, 0]);
    assert_eq!(p.total, 207_375);
}

#[test]
fn no_channel_has_no_propensity() {
    let p = propensities(&vec![]).expect("nothing overflows");
    assert_eq!((p.weights.len(), p.total, p.scale), (0, 0, 0));
}

#[test]
fn propensities_may_be_too_large() {
    assert!(propensities(&vec![activity("a", u128::MAX, 2, 0)]).is_none());
    assert!(propensities(&vec![activity("a", 1, 1, 0), activity("b", 1, 1, 39)]).is_none());
    assert!(propensities(&vec![activity("a", 1, 1, 0), activity("b", 1, 1, 38)]).is_some());
    assert!(propensities(&vec![activity("a", u128::MAX, 1, 0), activity("b", 1, 1, 0)]).is_none());
    let zero = propensities(&vec![activity("a", 1, 0, 0), activity("b", 1, 0, 60)]);
    assert_eq!(zero.expect("zero times anything is zero").total, 0);
    let edge = propensities(&vec![activity("a", u128::MAX, 1, 0)]).expect("it just fits");
    assert_eq!(edge.total, u128::MAX);
}

#[test]
fn a_ticket_draws_the_channel_whose_share_it_falls_in() {
    let active = vec![
        activity("a", 2, 15, 1),
        activity("b", 4, 0, 0),
        activity("c", 1, 5, 1),
        activity("d", 1, 1, 0),
    ];
    let p = propensities(&active).unwrap();
    assert_eq!(p.weights, vec![30, 0, 5, 10]);
    let drawn: Vec<usize> = (0..p.total).map(|m| pick(&active, &p, m)).collect();
    for (m, i) in drawn.iter().enumerate() {
        let expected = if m < 30 {
            0
        } else if m < 35 {
            2
        } else {
            3
        };
        assert_eq!(*i, expected);
    }
    assert_eq!(drawn.len(), 45);
}

#[test]
fn reduce_draws_the_only_channel_that_can_fire() {
    let mut sim = loaded("new a@1.0 new b@1.0 run (do ?a; end or ?b; end | !a; end)");
    assert_eq!(sim.reduce(), Ok(Reduction::Fired));
    assert_eq!(cells(&sim), 0);
    assert_eq!(sim.reduce(), Ok(Reduction::Deadlock));
    assert_eq!(sim.reduce(), Ok(Reduction::Deadlock));
}

#[test]
fn reduce_peels_before_it_fires() {
    let mut sim = loaded(
        "run (let new c@1.0 in (!c; end | ?c; end) | let new c@2.5 in (!c; end | ?c; end))",
    );
    assert!(sim.machine_term().is_restr());
    assert_eq!(sim.reduce(), Ok(Reduction::Peeled));
    assert!(sim.machine_term().is_restr());
    assert_eq!(sim.reduce(), Ok(Reduction::Peeled));
    assert_eq!(cells(&sim), 4);
    let p = propensities(&sim.store().activities()).unwrap();
    assert_eq!((p.weights.clone(), p.total, p.scale), (vec![25, 10], 35, 1));
    assert_eq!(sim.reduce(), Ok(Reduction::Fired));
    assert_eq!(cells(&sim), 2);
    assert_eq!(sim.store().activities().len(), 1);
    assert_eq!(sim.reduce(), Ok(Reduction::Fired));
    assert_eq!(cells(&sim), 0);
    assert_eq!(sim.reduce(), Ok(Reduction::Deadlock));
}

#[test]
fn reduce_runs_a_population() {
    let mut sim = loaded(
        "new a@2.0 new b@0.5 let S()=!a;S() let T()=?a;do ?a;T() or !b;T() let U()=?b;end \
         run (10 of S() | 10 of T() | 5 of U())",
    );
    let mut fired = 0;
    for _ in 0..200 {
        match sim.reduce() {
            Ok(Reduction::Fired) => fired += 1,
            other => panic!("{:?}", other),
        }
        let a = sim.store().channel("a").unwrap();
        assert_eq!((a.incount, a.outcount, a.mixcount), (10, 10, 0));
        let b = sim.store().channel("b").unwrap();
        assert_eq!(b.mixcount, 0);
        assert_eq!(b.ax, (b.incount * b.outcount) as u128);
        assert_eq!(sim.store().instance_count("S"), Some(10));
        assert_eq!(sim.store().instance_count("T"), Some(10 - b.outcount));
        assert_eq!(sim.store().instance_count("U"), Some(b.incount));
        assert_eq!(cells(&sim), 20 + b.incount);
    }
    assert_eq!(fired, 200);
}

#[test]
fn channels_without_a_rate_cannot_be_drawn() {
    let mut sim = loaded("new a@0.0 run (!a; end | ?a; end)");
    assert_eq!(sim.store().channel("a").unwrap().ax, 1);
    assert_eq!(sim.reduce(), Ok(Reduction::Deadlock));
    assert_eq!(cells(&sim), 2);
    assert_eq!(sim.reduce_on("a"), Ok(Reduction::Fired));
    assert_eq!(cells(&sim), 0);
}

#[test]
fn propensities_that_do_not_fit_stop_the_machine() {
    let mut sim = loaded(
        "new a@1.0 new b@0.000000000000000000000000000000000000001 \
         run (!a; end | ?a; end | !b; end | ?b; end)",
    );
    assert_eq!(sim.store().channel("b").unwrap().rate, Decimal { digits: 1, scale: 39 });
    assert_eq!(sim.reduce(), Err(spisim::machine::MachineError::CountOutOfRange));
    assert_eq!(cells(&sim), 4);
    assert_eq!(sim.reduce_on("b"), Ok(Reduction::Fired));
    assert_eq!(sim.reduce(), Ok(Reduction::Fired));
    assert_eq!(cells(&sim), 0);
}

#[test]
fn one_channel_alone_is_always_drawn() {
    let active = vec![activity("a", 100, 20, 1)];
    let p = propensities(&active).expect("the numbers are small");
    assert_eq!((p.weights.clone(), p.total, p.scale), (vec![2000], 2000, 1));
    for m in [0u128, 1, 999, 1999] {
        assert_eq!(pick(&active, &p, m), 0);
    }
}

#[test]
fn two_scoped_channels_at_one_rate_have_twice_the_rate() {
    let mut sim = loaded(
        "run (let new c@1.0 in (!c; end | ?c; end) | let new c@1.0 in (!c; end | ?c; end))",
    );
    assert_eq!(sim.reduce(), Ok(Reduction::Peeled));
    assert_eq!(sim.reduce(), Ok(Reduction::Peeled));
    let active = sim.store().activities();
    assert_eq!(active.len(), 2);
    assert!(active[0].channel < active[1].channel);
    let p = propensities(&active).unwrap();
    assert_eq!((p.weights.clone(), p.total, p.scale), (vec![10, 10], 20, 1));
    let other = sim.store().channel(&active[1].channel).unwrap();
    assert_eq!(sim.reduce_on(&active[0].channel), Ok(Reduction::Fired));
    assert_eq!(sim.store().channel(&active[1].channel), Some(other));
    let spent = sim.store().channel(&active[0].channel).unwrap();
    assert_eq!((spent.incount, spent.outcount, spent.mixcount, spent.ax), (0, 0, 0, 0));
    assert_eq!(cells(&sim), 2);
    let left = sim.store().activities();
    assert_eq!(left.len(), 1);
    assert_eq!(left[0].channel, active[1].channel);
}
