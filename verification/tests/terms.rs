use spisim::ast::{Act, Process};
use spisim::machineterm::{same_act, MachineTerm, Summ, Tally};
use spisim::names::{compare, Order, Table};
use spisim::store::{ChannelRecord, Definition, Store, StoreError};
use spisim::symgen::{next, numeral, reset, SymbolGenerator};
use spisim::values::{Decimal, Pattern};

fn input(c: &str) -> (Act, Process) {
    (Act::Input(c.to_string()), Process::Termination)
}

fn output(c: &str) -> (Act, Process) {
    (Act::Output(c.to_string()), Process::Termination)
}

fn one() -> Decimal {
    Decimal { digits: 1, scale: 0 }
}

fn tally(inputs: usize, outputs: usize) -> Tally {
    Tally { inputs, outputs, mixed: (inputs * outputs) as u128 }
}

fn record(s: &Store, c: &str) -> (usize, usize, u128, u128) {
    let r = s.channel(c).expect("the channel is registered");
    (r.incount, r.outcount, r.mixcount, r.ax)
}

#[test]
fn fresh_names_count_up() {
    let mut g = SymbolGenerator::new();
    assert!(!g.exhausted());
    assert_eq!(next(&mut g), "0");
    assert_eq!(next(&mut g), "1");
    for _ in 2..9 {
        next(&mut g);
    }
    assert_eq!(next(&mut g), "9");
    assert_eq!(next(&mut g), "10");
    assert_eq!(next(&mut g), "11");
    reset(&mut g);
    assert_eq!(next(&mut g), "0");
}

#[test]
fn numerals_are_decimal() {
    assert_eq!(numeral(0), "0");
    assert_eq!(numeral(7), "7");
    assert_eq!(numeral(10), "10");
    assert_eq!(numeral(1203), "1203");
    assert_eq!(numeral(usize::MAX), usize::MAX.to_string());
}

#[test]
fn names_compare_in_dictionary_order() {
    assert_eq!(compare("a", "b"), Order::Before);
    assert_eq!(compare("b", "a"), Order::After);
    assert_eq!(compare("ab", "ab"), Order::Same);
    assert_eq!(compare("a", "ab"), Order::Before);
    assert_eq!(compare("ab", "a"), Order::After);
    assert_eq!(compare("", ""), Order::Same);
    assert_eq!(compare("", "a"), Order::Before);
    assert_eq!(compare("10", "9"), Order::Before);
    assert_eq!(compare("Z", "a"), Order::Before);
    assert_eq!(compare("é", "z"), Order::After);
}

#[test]
fn a_table_keeps_its_names_in_order() {
    let mut t: Table<u32> = Table::new();
    assert_eq!(t.len(), 0);
    t.insert("m".to_string(), 1);
    t.insert("a".to_string(), 2);
    t.insert("z".to_string(), 3);
    t.insert("b".to_string(), 4);
    assert_eq!(t.len(), 4);
    let names: Vec<String> = (0..t.len()).map(|i| t.key_at(i).clone()).collect();
    assert_eq!(names, vec!["a", "b", "m", "z"]);
    let values: Vec<u32> = (0..t.len()).map(|i| *t.value_at(i)).collect();
    assert_eq!(values, vec![2, 4, 1, 3]);
    assert_eq!(t.get(&"m".to_string()), Some(&1));
    assert_eq!(t.get(&"n".to_string()), None);
    assert_eq!(t.position(&"z".to_string()), Some(3));
    assert_eq!(t.position(&"y".to_string()), None);
    assert!(t.contains(&"a".to_string()));
    assert!(!t.contains(&"".to_string()));
    t.insert("m".to_string(), 9);
    assert_eq!(t.len(), 4);
    assert_eq!(t.get(&"m".to_string()), Some(&9));
}

#[test]
fn a_summation_counts_its_guards() {
    let cell = Summ::new(
        Some("P".to_string()),
        vec![input("a"), output("a"), input("b"), input("a"), output("c")],
    );
    let counts = cell.get_act_counts();
    assert_eq!(counts.len(), 3);
    assert_eq!(counts.get(&"a".to_string()), Some(&Tally { inputs: 2, outputs: 1, mixed: 2 }));
    assert_eq!(counts.get(&"b".to_string()), Some(&Tally { inputs: 1, outputs: 0, mixed: 0 }));
    assert_eq!(counts.get(&"c".to_string()), Some(&Tally { inputs: 0, outputs: 1, mixed: 0 }));
    assert_eq!(counts.get(&"d".to_string()), None);
    assert_eq!(Summ::new(None, vec![]).get_act_counts().len(), 0);
    let (act, _) = cell.index(4);
    assert!(same_act(&act, &Act::Output("c".to_string())));
    assert!(!same_act(&act, &Act::Input("c".to_string())));
    assert!(!same_act(&act, &Act::Output("a".to_string())));
    assert_eq!(format!("{:?}", cell.clone()), format!("{:?}", cell));
}

fn term() -> MachineTerm {
    MachineTerm::SummList(vec![
        Summ::new(None, vec![input("a"), output("b")]),
        Summ::new(None, vec![output("a")]),
        Summ::new(None, vec![input("b"), input("a"), input("a")]),
        Summ::new(None, vec![output("a"), input("a")]),
    ])
}

#[test]
fn seek_walks_the_list_in_order() {
    let t = term();
    let a_in = || Act::Input("a".to_string());
    assert_eq!(t.seek(a_in(), 0), Some((0, 0)));
    assert_eq!(t.seek(a_in(), 1), Some((2, 1)));
    assert_eq!(t.seek(a_in(), 2), Some((2, 2)));
    assert_eq!(t.seek(a_in(), 3), Some((3, 1)));
    assert_eq!(t.seek(a_in(), 4), None);
    assert_eq!(t.seek(Act::Output("a".to_string()), 0), Some((1, 0)));
    assert_eq!(t.seek(Act::Output("a".to_string()), 1), Some((3, 0)));
    assert_eq!(t.seek(Act::Output("b".to_string()), 0), Some((0, 1)));
    assert_eq!(t.seek(Act::Output("b".to_string()), 1), None);
    assert_eq!(t.seek(Act::Input("c".to_string()), 0), None);
    assert_eq!(MachineTerm::empty().seek(a_in(), 0), None);
    let wrapped = MachineTerm::TopRestriction("c".to_string(), one(), Box::new(term()));
    assert_eq!(wrapped.seek(a_in(), 0), None);
}

#[test]
fn the_two_shapes_of_a_term() {
    let list = term();
    assert!(list.is_summlist());
    assert!(!list.is_restr());
    assert!(MachineTerm::empty().is_summlist());
    let wrapped = MachineTerm::TopRestriction(
        "c".to_string(),
        Decimal { digits: 25, scale: 1 },
        Box::new(term()),
    );
    assert!(wrapped.is_restr());
    assert!(!wrapped.is_summlist());
    assert_eq!(wrapped.take_chan(), ("c".to_string(), Decimal { digits: 25, scale: 1 }));
    assert_eq!(format!("{:?}", wrapped.take_inner()), format!("{:?}", term()));
    assert_eq!(format!("{:?}", wrapped.clone()), format!("{:?}", wrapped));
}

#[test]
fn a_summation_is_taken_out_of_the_list() {
    let mut t = term();
    let taken = t.take_summ(1);
    assert_eq!(format!("{:?}", taken), format!("{:?}", Summ::new(None, vec![output("a")])));
    match &t {
        MachineTerm::SummList(list) => assert_eq!(list.len(), 3),
        MachineTerm::TopRestriction(_, _, _) => unreachable!(),
    }
    assert_eq!(t.seek(Act::Output("a".to_string()), 0), Some((2, 0)));
    assert_eq!(t.seek(Act::Input("a".to_string()), 1), Some((1, 1)));
}

#[test]
fn a_new_channel_starts_at_zero() {
    let mut s = Store::new();
    assert!(s.channel("a").is_none());
    s.add_channel("a", Decimal { digits: 15, scale: 1 });
    assert_eq!(
        s.channel("a"),
        Some(ChannelRecord {
            rate: Decimal { digits: 15, scale: 1 },
            incount: 0,
            outcount: 0,
            mixcount: 0,
            ax: 0
        })
    );
    assert!(s.quiet());
    assert!(s.activities().is_empty());
}

#[test]
fn registering_again_keeps_the_counts() {
    let mut s = Store::new();
    s.add_channel("a", one());
    let mut counts: Table<Tally> = Table::new();
    counts.insert("a".to_string(), tally(2, 3));
    assert_eq!(s.add_counts(&counts), Ok(()));
    let before = s.channel("a");
    s.add_channel("a", one());
    assert_eq!(s.channel("a"), before);
    assert_eq!(record(&s, "a"), (2, 3, 6, 0));
    s.add_channel("a", Decimal { digits: 7, scale: 0 });
    assert_eq!(record(&s, "a"), (2, 3, 6, 0));
    assert_eq!(s.channel("a").unwrap().rate, Decimal { digits: 7, scale: 0 });
}

#[test]
fn counts_go_up_and_down() {
    let mut s = Store::new();
    s.add_channel("a", one());
    s.add_channel("b", Decimal { digits: 3, scale: 0 });
    let mut first: Table<Tally> = Table::new();
    first.insert("a".to_string(), tally(1, 0));
    first.insert("b".to_string(), tally(1, 1));
    let mut second: Table<Tally> = Table::new();
    second.insert("a".to_string(), tally(1, 2));
    assert_eq!(s.add_counts(&first), Ok(()));
    assert_eq!(record(&s, "a"), (1, 0, 0, 0));
    assert_eq!(record(&s, "b"), (1, 1, 1, 0));
    assert!(s.quiet());
    assert_eq!(s.add_counts(&second), Ok(()));
    // two inputs, two outputs, and the two pairs of the second summation are mixed
    assert_eq!(record(&s, "a"), (2, 2, 2, 2));
    assert!(!s.quiet());
    let active = s.activities();
    assert_eq!(active.len(), 1);
    assert_eq!(active[0].channel, "a");
    assert_eq!(active[0].ax, 2);
    assert_eq!(active[0].rate, one());
    assert_eq!(s.remove_counts(&first), Ok(()));
    assert_eq!(record(&s, "a"), (1, 2, 2, 0));
    assert_eq!(record(&s, "b"), (0, 0, 0, 0));
    assert_eq!(s.remove_counts(&second), Ok(()));
    assert_eq!(record(&s, "a"), (0, 0, 0, 0));
}

#[test]
fn activities_come_in_dictionary_order() {
    let mut s = Store::new();
    for c in ["q", "b", "x", "a"].iter() {
        s.add_channel(c, one());
    }
    let mut counts: Table<Tally> = Table::new();
    counts.insert("x".to_string(), tally(1, 0));
    counts.insert("b".to_string(), tally(2, 0));
    counts.insert("q".to_string(), tally(1, 0));
    assert_eq!(s.add_counts(&counts), Ok(()));
    let mut more: Table<Tally> = Table::new();
    more.insert("x".to_string(), tally(0, 3));
    more.insert("b".to_string(), tally(0, 1));
    assert_eq!(s.add_counts(&more), Ok(()));
    let active: Vec<(String, u128)> =
        s.activities().into_iter().map(|a| (a.channel, a.ax)).collect();
    assert_eq!(active, vec![("b".to_string(), 2), ("x".to_string(), 3)]);
}

#[test]
fn counts_are_refused_as_a_whole() {
    let mut s = Store::new();
    s.add_channel("a", one());
    let mut unknown: Table<Tally> = Table::new();
    unknown.insert("a".to_string(), tally(1, 1));
    unknown.insert("z".to_string(), tally(1, 0));
    assert_eq!(s.add_counts(&unknown), Err(StoreError::UnknownChannel));
    assert_eq!(record(&s, "a"), (0, 0, 0, 0));
    assert_eq!(s.remove_counts(&unknown), Err(StoreError::UnknownChannel));
    let mut much: Table<Tally> = Table::new();
    much.insert("a".to_string(), tally(1, 0));
    assert_eq!(s.remove_counts(&much), Err(StoreError::OutOfRange));
    assert_eq!(record(&s, "a"), (0, 0, 0, 0));
    let mut huge: Table<Tally> = Table::new();
    huge.insert("a".to_string(), Tally { inputs: usize::MAX, outputs: 0, mixed: 0 });
    assert_eq!(s.add_counts(&huge), Ok(()));
    assert_eq!(s.add_counts(&much), Err(StoreError::OutOfRange));
    assert_eq!(record(&s, "a"), (usize::MAX, 0, 0, 0));
    let mut mixed: Table<Tally> = Table::new();
    mixed.insert("a".to_string(), Tally { inputs: 0, outputs: 0, mixed: 1 });
    assert_eq!(s.add_counts(&mixed), Err(StoreError::OutOfRange));
}

#[test]
fn instances_are_counted() {
    let mut s = Store::new();
    assert_eq!(s.instance_count("P"), None);
    assert_eq!(s.destroy("P".to_string()), Err(StoreError::OutOfRange));
    assert_eq!(s.create("P".to_string()), Ok(()));
    assert_eq!(s.create("P".to_string()), Ok(()));
    assert_eq!(s.instance_count("P"), Some(2));
    assert_eq!(s.destroy("P".to_string()), Ok(()));
    assert_eq!(s.destroy("P".to_string()), Ok(()));
    assert_eq!(s.instance_count("P"), Some(0));
    assert_eq!(s.destroy("P".to_string()), Err(StoreError::OutOfRange));
    assert_eq!(s.instance_count("P"), Some(0));
}

#[test]
fn definitions_are_kept_by_name() {
    let mut s = Store::new();
    assert!(s.definition(&"P".to_string()).is_none());
    s.create("P".to_string()).unwrap();
    s.define(
        "P".to_string(),
        Definition { formals: vec![Pattern::Wildcard], body: Process::Termination },
    );
    s.define("A".to_string(), Definition { formals: vec![], body: Process::Termination });
    assert_eq!(s.instance_count("P"), Some(1));
    assert_eq!(s.instance_count("A"), Some(0));
    let d = s.definition(&"P".to_string()).expect("P is defined");
    assert_eq!(format!("{:?}", d.formals), "[Wildcard]");
    assert_eq!(format!("{:?}", d.body), "Termination");
    assert_eq!(s.instance_rows(), vec![("A".to_string(), 0), ("P".to_string(), 1)]);
}
