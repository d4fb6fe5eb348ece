//! What the machine does, as mathematics: the state, the term that a
//! process builds, a reaction, and the loading of a program.
use crate::accounting::{
    consistent, counted, inhabited, lemma_construct, lemma_found_exists, lemma_origins_remove,
    lemma_remove_cell_consistent, origins, staffed,
};
use crate::ast::{bind_spec, rename_spec, replace_all_spec, ActView, ProcessView};
use crate::desugar::{lower_spec, SyntaxError};
use crate::lambda::{eval_spec, EvalError, EVAL_DEPTH};
use crate::machineterm::{
    cells, found_at, mentions, pending, prefix, tallies, MachineTerm, Summ, SummView, TermView,
};
use crate::store::{all_fit, all_known, shift_all, ChannelRecord, DefinitionView};
use crate::symgen::decimal;
use crate::syntax;
use crate::syntax::DeclarationView;
use crate::values::Decimal;
use vstd::prelude::*;

verus! {

/// Why the machine stopped short.
#[derive(Clone, Copy, Debug, PartialEq, Eq, Structural)]
pub enum MachineError {
    /// A guard is on a channel that was never declared.
    UnknownChannel,
    /// A count of guards or of instances would leave its range.
    CountOutOfRange,
    /// A summation has no guarded process.
    EmptySummation,
    /// An instance names a definition that does not exist.
    UndefinedInstance,
    /// The arguments of an instance do not match the formal parameters.
    PatternMismatch,
    /// A bound value has no value.
    Eval(EvalError),
    /// The processes nest deeper than the machine's limit.
    TooDeep,
    /// The fresh names are used up.
    SymbolsExhausted,
    /// The channel chosen to fire has no pair that can react.
    InactiveChannel,
    /// The chosen input left no output to react with.
    NoPartner,
    /// The list has no such guard: a restriction is on top, or the guard was
    /// chosen beyond the number of guards.
    GuardNotFound,
    /// A value is declared at the top of the program.
    TopLevelVal,
    /// A written process is no process of the machine.
    Syntax(SyntaxError),
}

/// What a step of the machine did.
#[derive(Clone, Copy, Debug, PartialEq, Eq, Structural)]
pub enum Reduction {
    /// The restriction on top was registered and taken off the term.
    Peeled,
    /// No channel has a propensity to fire: nothing changed, and nothing will.
    Deadlock,
    /// An input and an output on the chosen channel reacted.
    Fired,
}

/// Whether the error is one that stops the building of a term.
pub open spec fn stops_building(e: MachineError) -> bool {
    e == MachineError::UnknownChannel || e == MachineError::CountOutOfRange || e
        == MachineError::EmptySummation || e == MachineError::UndefinedInstance || e
        == MachineError::PatternMismatch || e is Eval || e == MachineError::TooDeep || e
        == MachineError::SymbolsExhausted
}

/// How deep [`Simulator::new`] lets processes nest while the term is built.
pub const DEPTH_LIMIT: usize = 4096;

/// What the machine knows besides its term: the store and the next fresh name.
pub ghost struct MachineState {
    pub channels: Map<Seq<char>, ChannelRecord>,
    pub definitions: Map<Seq<char>, DefinitionView>,
    pub instances: Map<Seq<char>, usize>,
    pub counter: nat,
}

/// The channels with `name` registered at `rate`: a channel that is there
/// keeps its counts.
pub open spec fn register(
    chans: Map<Seq<char>, ChannelRecord>,
    name: Seq<char>,
    rate: Decimal,
) -> Map<Seq<char>, ChannelRecord> {
    chans.insert(
        name,
        if chans.contains_key(name) {
            ChannelRecord { rate, ..chans[name] }
        } else {
            ChannelRecord { rate, incount: 0, outcount: 0, mixcount: 0, ax: 0 }
        },
    )
}

/// The number of live instances of `name`; none where it has no count.
pub open spec fn live(instances: Map<Seq<char>, usize>, name: Seq<char>) -> nat {
    if instances.contains_key(name) {
        instances[name] as nat
    } else {
        0
    }
}

/// Puts a new summation with the guarded processes `bs` at the head of `list`
/// and adds its guards to the counts of the channels.
pub open spec fn add_cell_spec(
    st: MachineState,
    origin: Option<Seq<char>>,
    bs: Seq<(ActView, ProcessView)>,
    list: Seq<SummView>,
) -> (MachineState, Result<TermView, MachineError>) {
    if bs.len() == 0 {
        (st, Err(MachineError::EmptySummation))
    } else if bs.len() > usize::MAX {
        (st, Err(MachineError::CountOutOfRange))
    } else if !all_known(st.channels, tallies(bs)) {
        (st, Err(MachineError::UnknownChannel))
    } else if !all_fit(st.channels, tallies(bs), true) {
        (st, Err(MachineError::CountOutOfRange))
    } else {
        (
            MachineState { channels: shift_all(st.channels, tallies(bs), true), ..st },
            Ok(TermView::SummList(seq![SummView { origin, branches: bs }] + list)),
        )
    }
}

/// The term that `construct` builds from process `p` on top of term `t`, and
/// the state it leaves, or why it stopped and the state it stopped in.
/// `depth` bounds how deep the processes may nest.
pub open spec fn construct_spec(st: MachineState, p: ProcessView, t: TermView, depth: nat) -> (
    MachineState,
    Result<TermView, MachineError>,
)
    decreases depth, 1nat, prefix(t).len(),
{
    match t {
        TermView::TopRestriction(c, r, inner) => {
            let (st1, res) = construct_spec(st, p, *inner, depth);
            (
                st1,
                match res {
                    Ok(t1) => Ok(TermView::TopRestriction(c, r, Box::new(t1))),
                    Err(e) => Err(e),
                },
            )
        },
        TermView::SummList(list) => {
            if depth == 0 {
                (st, Err(MachineError::TooDeep))
            } else {
                let less = (depth - 1) as nat;
                match p {
                    ProcessView::Restriction(c, r, body) => {
                        if st.counter >= usize::MAX {
                            (st, Err(MachineError::SymbolsExhausted))
                        } else {
                            let fresh = decimal(st.counter);
                            let st1 = MachineState {
                                channels: register(st.channels, fresh, r),
                                counter: st.counter + 1,
                                ..st
                            };
                            let (st2, res) = construct_spec(
                                st1,
                                rename_spec(*body, c, fresh),
                                t,
                                less,
                            );
                            (
                                st2,
                                match res {
                                    Ok(t1) => Ok(TermView::TopRestriction(fresh, r, Box::new(t1))),
                                    Err(e) => Err(e),
                                },
                            )
                        }
                    },
                    ProcessView::LetVal(x, e, body) => match eval_spec(e, EVAL_DEPTH as nat) {
                        Err(err) => (st, Err(MachineError::Eval(err))),
                        Ok(v) => construct_spec(st, bind_spec(*body, x, v), t, less),
                    },
                    ProcessView::Parallel(l, r) => {
                        let (st1, res) = construct_spec(st, *r, t, less);
                        match res {
                            Err(e) => (st1, Err(e)),
                            Ok(t1) => construct_spec(st1, *l, t1, less),
                        }
                    },
                    ProcessView::Summation(bs) => add_cell_spec(st, None, bs, list),
                    ProcessView::Instance(name, args) => {
                        if live(st.instances, name) >= usize::MAX {
                            (st, Err(MachineError::CountOutOfRange))
                        } else {
                            let st1 = MachineState {
                                instances: st.instances.insert(
                                    name,
                                    (live(st.instances, name) + 1) as usize,
                                ),
                                ..st
                            };
                            if !st1.definitions.contains_key(name) {
                                (st1, Err(MachineError::UndefinedInstance))
                            } else {
                                let d = st1.definitions[name];
                                match replace_all_spec(d.body, d.formals, args) {
                                    None => (st1, Err(MachineError::PatternMismatch)),
                                    Some(body) => match body {
                                        ProcessView::Summation(bs) => add_cell_spec(
                                            st1,
                                            Some(name),
                                            bs,
                                            list,
                                        ),
                                        _ => construct_spec(st1, body, t, less),
                                    },
                                }
                            }
                        }
                    },
                    ProcessView::Repetition(k, body) => repeat_spec(st, *body, t, k, less),
                    ProcessView::Replication(a, body) => add_cell_spec(
                        st,
                        None,
                        seq![(a, ProcessView::Parallel(body, Box::new(p)))],
                        list,
                    ),
                    ProcessView::Termination => (st, Ok(t)),
                }
            }
        },
    }
}

/// The term built by `k` copies of `p`, one after the other, on top of `t`.
pub open spec fn repeat_spec(st: MachineState, p: ProcessView, t: TermView, k: nat, depth: nat) -> (
    MachineState,
    Result<TermView, MachineError>,
)
    decreases depth, 2nat, k,
{
    if k == 0 {
        (st, Ok(t))
    } else {
        let (st1, res) = construct_spec(st, p, t, depth);
        match res {
            Err(e) => (st1, Err(e)),
            Ok(t1) => repeat_spec(st1, p, t1, (k - 1) as nat, depth),
        }
    }
}

/// The instances with one live instance of `origin` less, where the
/// summation came from a definition; `None` where that definition has no
/// live instance.
pub open spec fn retire(instances: Map<Seq<char>, usize>, origin: Option<Seq<char>>) -> Option<
    Map<Seq<char>, usize>,
> {
    match origin {
        None => Some(instances),
        Some(n) => if live(instances, n) == 0 {
            None
        } else {
            Some(instances.insert(n, (live(instances, n) - 1) as usize))
        },
    }
}

/// Takes out of the list the summation whose guard is the action `a` with `k`
/// such guards before it, and its guards off the counts of the store, and
/// counts the instance that it came from as gone. Gives the state and the
/// term that are left, and the summation with the place of the guard in it.
pub open spec fn take_spec(st: MachineState, t: TermView, a: ActView, k: nat) -> (
    MachineState,
    TermView,
    Result<(SummView, int), MachineError>,
) {
    if t is TopRestriction || pending(cells(t), a) <= k {
        (st, t, Err(MachineError::GuardNotFound))
    } else {
        let list = cells(t);
        let at = choose|at: (int, int)| found_at(list, a, k, at.0, at.1);
        let cell = list[at.0];
        let rest = TermView::SummList(list.remove(at.0));
        if !all_known(st.channels, tallies(cell.branches)) {
            (st, rest, Err(MachineError::UnknownChannel))
        } else if !all_fit(st.channels, tallies(cell.branches), false) {
            (st, rest, Err(MachineError::CountOutOfRange))
        } else {
            let st1 = MachineState {
                channels: shift_all(st.channels, tallies(cell.branches), false),
                ..st
            };
            match retire(st1.instances, cell.origin) {
                None => (st1, rest, Err(MachineError::CountOutOfRange)),
                Some(left) => (MachineState { instances: left, ..st1 }, rest, Ok((cell, at.1))),
            }
        }
    }
}

/// Builds the two processes that a reaction set free, the one behind the
/// input first, on top of the term. Where a process cannot be built, the
/// term is left empty.
pub open spec fn resume_spec(
    st: MachineState,
    t: TermView,
    depth: nat,
    input: (SummView, int),
    output: (SummView, int),
) -> (MachineState, TermView, Result<(), MachineError>) {
    let nothing = TermView::SummList(Seq::empty());
    let (st1, r1) = construct_spec(st, input.0.branches[input.1].1, t, depth);
    match r1 {
        Err(e) => (st1, nothing, Err(e)),
        Ok(t1) => {
            let (st2, r2) = construct_spec(st1, output.0.branches[output.1].1, t1, depth);
            match r2 {
                Err(e) => (st2, nothing, Err(e)),
                Ok(t2) => (st2, t2, Ok(())),
            }
        },
    }
}

/// One reaction on channel `chan`: the input with `i_in` inputs on the
/// channel before it and, of the guards that are left when its summation is
/// gone, the output with `i_out` outputs on the channel before it.
pub open spec fn fire_spec(
    st: MachineState,
    t: TermView,
    depth: nat,
    chan: Seq<char>,
    i_in: nat,
    i_out: nat,
) -> (MachineState, TermView, Result<(), MachineError>) {
    let (st1, t1, r1) = take_spec(st, t, ActView::Input(chan), i_in);
    match r1 {
        Err(e) => (st1, t1, Err(e)),
        Ok(input) => if counted(st1.channels, chan).1 == 0 {
            (st1, t1, Err(MachineError::NoPartner))
        } else {
            let (st2, t2, r2) = take_spec(st1, t1, ActView::Output(chan), i_out);
            match r2 {
                Err(e) => (st2, t2, Err(e)),
                Ok(output) => resume_spec(st2, t2, depth, input, output),
            }
        },
    }
}

/// The state after the declarations `ds`, taken in their order, and the
/// processes that they run, in their order. A channel is registered, a
/// definition is stored with its body made a process of the machine, and
/// its count of instances starts at zero where it has none. A value at the
/// top is refused.
pub open spec fn declare_spec(st: MachineState, ds: Seq<DeclarationView>) -> (
    MachineState,
    Result<Seq<syntax::ProcessView>, MachineError>,
)
    decreases ds.len(),
{
    if ds.len() == 0 {
        (st, Ok(Seq::empty()))
    } else {
        let (st1, r) = declare_spec(st, ds.drop_last());
        match r {
            Err(e) => (st1, Err(e)),
            Ok(runs) => match ds.last() {
                DeclarationView::NewChannel(c, rate) => (
                    MachineState { channels: register(st1.channels, c, rate), ..st1 },
                    Ok(runs),
                ),
                DeclarationView::Run(p) => (st1, Ok(runs.push(p))),
                DeclarationView::Val(_, _) => (st1, Err(MachineError::TopLevelVal)),
                DeclarationView::Def(name, formals, body) => {
                    let (res, n1) = lower_spec(body, st1.counter);
                    match res {
                        Err(e) => (
                            MachineState { counter: n1, ..st1 },
                            Err(MachineError::Syntax(e)),
                        ),
                        Ok(q) => (
                            MachineState {
                                counter: n1,
                                definitions: st1.definitions.insert(
                                    name,
                                    DefinitionView { formals, body: q },
                                ),
                                instances: if st1.instances.contains_key(name) {
                                    st1.instances
                                } else {
                                    st1.instances.insert(name, 0)
                                },
                                ..st1
                            },
                            Ok(runs),
                        ),
                    }
                },
            },
        }
    }
}

/// The term built from the written processes `runs` on top of `t`, the last
/// of them first, so that the first comes to stand at the head.
pub open spec fn run_spec(
    st: MachineState,
    runs: Seq<syntax::ProcessView>,
    t: TermView,
    depth: nat,
) -> (MachineState, Result<TermView, MachineError>)
    decreases runs.len(),
{
    if runs.len() == 0 {
        (st, Ok(t))
    } else {
        let (res, n1) = lower_spec(runs.last(), st.counter);
        let st1 = MachineState { counter: n1, ..st };
        match res {
            Err(e) => (st1, Err(MachineError::Syntax(e))),
            Ok(p) => {
                let (st2, r) = construct_spec(st1, p, t, depth);
                match r {
                    Err(e) => (st2, Err(e)),
                    Ok(t1) => run_spec(st2, runs.drop_last(), t1, depth),
                }
            },
        }
    }
}

/// The state and the term after the program `ds` is loaded on top of the
/// term `t`: first its declarations, then the processes that it runs. Where
/// a process cannot be built, the term is left empty.
pub open spec fn load_spec(st: MachineState, t: TermView, ds: Seq<DeclarationView>, depth: nat) -> (
    MachineState,
    TermView,
    Result<(), MachineError>,
) {
    let (st1, r) = declare_spec(st, ds);
    match r {
        Err(e) => (st1, t, Err(e)),
        Ok(runs) => {
            let (st2, r2) = run_spec(st1, runs, t, depth);
            match r2 {
                Err(e) => (st2, TermView::SummList(Seq::empty()), Err(e)),
                Ok(t2) => (st2, t2, Ok(())),
            }
        },
    }
}

/// Running written processes keeps the counts in step with the guards,
/// every summation inhabited, and every definition staffed.
pub proof fn lemma_run(st: MachineState, runs: Seq<syntax::ProcessView>, t: TermView, depth: nat)
    requires
        consistent(st.channels, cells(t)),
        inhabited(cells(t)),
        staffed(st.instances, cells(t)),
        run_spec(st, runs, t, depth).1 is Ok,
    ensures
        consistent(
            run_spec(st, runs, t, depth).0.channels,
            cells(run_spec(st, runs, t, depth).1->Ok_0),
        ),
        inhabited(cells(run_spec(st, runs, t, depth).1->Ok_0)),
        staffed(
            run_spec(st, runs, t, depth).0.instances,
            cells(run_spec(st, runs, t, depth).1->Ok_0),
        ),
    decreases runs.len(),
{
    if runs.len() > 0 {
        let (res, n1) = lower_spec(runs.last(), st.counter);
        let st1 = MachineState { counter: n1, ..st };
        match res {
            Err(e) => {},
            Ok(p) => {
                lemma_construct(st1, p, t, depth);
                let (st2, r) = construct_spec(st1, p, t, depth);
                match r {
                    Err(e) => {},
                    Ok(t1) => {
                        lemma_run(st2, runs.drop_last(), t1, depth);
                    },
                }
            },
        }
    }
}

/// Declarations leave the counts of the channels as they are, and keep
/// every definition staffed.
pub proof fn lemma_declare(st: MachineState, ds: Seq<DeclarationView>, list: Seq<SummView>)
    requires
        staffed(st.instances, list),
    ensures
        staffed(declare_spec(st, ds).0.instances, list),
        forall|c: Seq<char>| #[trigger]
            counted(declare_spec(st, ds).0.channels, c) == counted(st.channels, c),
    decreases ds.len(),
{
    if ds.len() > 0 {
        lemma_declare(st, ds.drop_last(), list);
        let st1 = declare_spec(st, ds.drop_last()).0;
        let st2 = declare_spec(st, ds).0;
        assert forall|n: Seq<char>| #[trigger] origins(list, n) <= live(st2.instances, n) by {
            assert(origins(list, n) <= live(st1.instances, n));
        }
        assert forall|c: Seq<char>| #[trigger]
            counted(st2.channels, c) == counted(st.channels, c) by {
            assert(counted(st1.channels, c) == counted(st.channels, c));
        }
    }
}

/// With the counts in step and every definition staffed, the guard that
/// has `k` guards like it before it is found and taken, for every `k` below
/// the number of such guards, and what is left is in step and staffed.
pub proof fn lemma_take(st: MachineState, t: TermView, a: ActView, k: nat)
    requires
        t is SummList,
        consistent(st.channels, cells(t)),
        inhabited(cells(t)),
        staffed(st.instances, cells(t)),
        k < pending(cells(t), a),
    ensures
        take_spec(st, t, a, k).2 is Ok,
        consistent(take_spec(st, t, a, k).0.channels, cells(take_spec(st, t, a, k).1)),
        inhabited(cells(take_spec(st, t, a, k).1)),
        staffed(take_spec(st, t, a, k).0.instances, cells(take_spec(st, t, a, k).1)),
{
    let list = cells(t);
    lemma_found_exists(list, a, k);
    let at = choose|at: (int, int)| found_at(list, a, k, at.0, at.1);
    let cell = list[at.0];
    let rest = list.remove(at.0);
    lemma_remove_cell_consistent(st.channels, list, at.0);
    if cell.origin is Some {
        lemma_origins_remove(list, at.0, cell.origin->0);
        assert(origins(list, cell.origin->0) <= live(st.instances, cell.origin->0));
    }
    assert forall|n: Seq<char>| #[trigger]
        origins(rest, n) <= live(take_spec(st, t, a, k).0.instances, n) by {
        lemma_origins_remove(list, at.0, n);
        assert(origins(list, n) <= live(st.instances, n));
    }
    assert forall|i: int| 0 <= i < rest.len() implies 0 < (#[trigger] rest[i]).branches.len()
        <= usize::MAX by {
        if i < at.0 {
            assert(rest[i] == list[i]);
        } else {
            assert(rest[i] == list[i + 1]);
        }
    }
}

/// Reactions on different channels do not disturb one another: taking a
/// summation leaves the record of every channel that none of its guards is
/// on as it is.
pub proof fn lemma_take_other(st: MachineState, t: TermView, a: ActView, k: nat, d: Seq<char>)
    requires
        take_spec(st, t, a, k).2 is Ok,
        !mentions(take_spec(st, t, a, k).2->Ok_0.0.branches, d),
    ensures
        take_spec(st, t, a, k).0.channels.contains_key(d) == st.channels.contains_key(d),
        st.channels.contains_key(d) ==> take_spec(st, t, a, k).0.channels[d] == st.channels[d],
{
}

/// The state and the term that are left when the input of a reaction on
/// `chan` is taken, and the summation of the input.
pub open spec fn input_taken(st: MachineState, t: TermView, chan: Seq<char>, i_in: nat) -> (
    MachineState,
    TermView,
    Result<(SummView, int), MachineError>,
) {
    take_spec(st, t, ActView::Input(chan), i_in)
}

/// The state and the term that are left when the input of a reaction on
/// `chan` and then its output are taken, and the summation of the output.
pub open spec fn output_taken(
    st: MachineState,
    t: TermView,
    chan: Seq<char>,
    i_in: nat,
    i_out: nat,
) -> (MachineState, TermView, Result<(SummView, int), MachineError>) {
    let first = input_taken(st, t, chan, i_in);
    take_spec(first.0, first.1, ActView::Output(chan), i_out)
}

/// The list without its summations at the two different places `p` and `q`.
pub open spec fn without_two(list: Seq<SummView>, p: int, q: int) -> Seq<SummView> {
    list.remove(p).remove(
        if q < p {
            q
        } else {
            q - 1
        },
    )
}

/// What a reaction uses up. Where the input and the output of a reaction on
/// channel `chan` are found and taken, they stand in two different
/// summations of the list, the one with a guard that is an input on `chan`,
/// the other with a guard that is an output on it. Those two summations
/// leave the list and every other stays, in its order. A channel that
/// neither of the two has a guard on keeps its record, and names and
/// definitions stay as they are. The reaction then builds the two processes
/// behind the guards, unless the input took the last output along. The
/// result gives the places of the two summations, each with the place of
/// its guard.
pub proof fn lemma_fire_consumes(
    st: MachineState,
    t: TermView,
    depth: nat,
    chan: Seq<char>,
    i_in: nat,
    i_out: nat,
) -> (at: ((int, int), (int, int)))
    requires
        input_taken(st, t, chan, i_in).2 is Ok,
        output_taken(st, t, chan, i_in, i_out).2 is Ok,
    ensures
        t is SummList,
        0 <= at.0.0 < cells(t).len(),
        0 <= at.1.0 < cells(t).len(),
        at.0.0 != at.1.0,
        0 <= at.0.1 < cells(t)[at.0.0].branches.len(),
        0 <= at.1.1 < cells(t)[at.1.0].branches.len(),
        cells(t)[at.0.0].branches[at.0.1].0 == ActView::Input(chan),
        cells(t)[at.1.0].branches[at.1.1].0 == ActView::Output(chan),
        input_taken(st, t, chan, i_in).2 == Ok::<(SummView, int), MachineError>(
            (cells(t)[at.0.0], at.0.1),
        ),
        output_taken(st, t, chan, i_in, i_out).2 == Ok::<(SummView, int), MachineError>(
            (cells(t)[at.1.0], at.1.1),
        ),
        output_taken(st, t, chan, i_in, i_out).1 == TermView::SummList(
            without_two(cells(t), at.0.0, at.1.0),
        ),
        without_two(cells(t), at.0.0, at.1.0).len() == cells(t).len() - 2,
        output_taken(st, t, chan, i_in, i_out).0.counter == st.counter,
        output_taken(st, t, chan, i_in, i_out).0.definitions == st.definitions,
        forall|x: Seq<char>|
            #![trigger st.channels.contains_key(x)]
            !mentions(cells(t)[at.0.0].branches, x) && !mentions(cells(t)[at.1.0].branches, x) ==> {
                &&& output_taken(st, t, chan, i_in, i_out).0.channels.contains_key(x)
                    == st.channels.contains_key(x)
                &&& st.channels.contains_key(x) ==> output_taken(
                    st,
                    t,
                    chan,
                    i_in,
                    i_out,
                ).0.channels[x] == st.channels[x]
            },
        fire_spec(st, t, depth, chan, i_in, i_out) == if counted(
            input_taken(st, t, chan, i_in).0.channels,
            chan,
        ).1 == 0 {
            (
                input_taken(st, t, chan, i_in).0,
                input_taken(st, t, chan, i_in).1,
                Err::<(), MachineError>(MachineError::NoPartner),
            )
        } else {
            resume_spec(
                output_taken(st, t, chan, i_in, i_out).0,
                output_taken(st, t, chan, i_in, i_out).1,
                depth,
                (cells(t)[at.0.0], at.0.1),
                (cells(t)[at.1.0], at.1.1),
            )
        },
{
    let list = cells(t);
    let input = ActView::Input(chan);
    let output = ActView::Output(chan);
    lemma_found_exists(list, input, i_in);
    let a1 = choose|at: (int, int)| found_at(list, input, i_in, at.0, at.1);
    let first = input_taken(st, t, chan, i_in);
    let rest = list.remove(a1.0);
    assert(first.1 == TermView::SummList(rest));
    assert(cells(first.1) == rest);
    lemma_found_exists(rest, output, i_out);
    let a2 = choose|at: (int, int)| found_at(rest, output, i_out, at.0, at.1);
    let q = if a2.0 < a1.0 {
        a2.0
    } else {
        a2.0 + 1
    };
    assert(rest[a2.0] == list[q]);
    let second = output_taken(st, t, chan, i_in, i_out);
    assert(second.1 == TermView::SummList(rest.remove(a2.0)));
    assert forall|x: Seq<char>|
        #![trigger st.channels.contains_key(x)]
        !mentions(list[a1.0].branches, x) && !mentions(list[q].branches, x) implies {
        &&& second.0.channels.contains_key(x) == st.channels.contains_key(x)
        &&& st.channels.contains_key(x) ==> second.0.channels[x] == st.channels[x]
    } by {
        lemma_take_other(st, t, input, i_in, x);
        lemma_take_other(first.0, first.1, output, i_out, x);
    }
    ((a1.0, a1.1), (q, a2.1))
}

/// A reaction that succeeds found and took both of its guards, and the
/// input did not take the last output along.
pub proof fn lemma_fired_took_both(
    st: MachineState,
    t: TermView,
    depth: nat,
    chan: Seq<char>,
    i_in: nat,
    i_out: nat,
)
    requires
        fire_spec(st, t, depth, chan, i_in, i_out).2 is Ok,
    ensures
        input_taken(st, t, chan, i_in).2 is Ok,
        output_taken(st, t, chan, i_in, i_out).2 is Ok,
        counted(input_taken(st, t, chan, i_in).0.channels, chan).1 > 0,
{
}

/// No copies of a process build what the process that does nothing builds.
pub proof fn lemma_no_copies(st: MachineState, p: ProcessView, t: TermView, depth: nat)
    ensures
        construct_spec(st, ProcessView::Repetition(0, Box::new(p)), t, depth) == construct_spec(
            st,
            ProcessView::Termination,
            t,
            depth,
        ),
    decreases prefix(t).len(),
{
    let copies = ProcessView::Repetition(0, Box::new(p));
    match t {
        TermView::TopRestriction(c, r, inner) => {
            lemma_no_copies(st, p, *inner, depth);
            assert(construct_spec(st, copies, t, depth).0 == construct_spec(
                st,
                copies,
                *inner,
                depth,
            ).0);
            assert(construct_spec(st, ProcessView::Termination, t, depth).0 == construct_spec(
                st,
                ProcessView::Termination,
                *inner,
                depth,
            ).0);
        },
        TermView::SummList(_) => {
            if depth > 0 {
                assert(repeat_spec(st, p, t, 0, (depth - 1) as nat) == (
                    st,
                    Ok::<TermView, MachineError>(t),
                ));
            }
        },
    }
}

/// A program without declarations leaves the machine as it is.
pub proof fn lemma_empty_program(st: MachineState, t: TermView, depth: nat)
    ensures
        load_spec(st, t, Seq::empty(), depth) == (st, t, Ok::<(), MachineError>(())),
{
    assert(declare_spec(st, Seq::empty()) == (
        st,
        Ok::<Seq<syntax::ProcessView>, MachineError>(Seq::empty()),
    ));
    assert(run_spec(st, Seq::empty(), t, depth) == (st, Ok::<TermView, MachineError>(t)));
}

/// A refusal among the first `k` declarations is the refusal of them all.
pub proof fn lemma_declare_prefix(st: MachineState, ds: Seq<DeclarationView>, k: int)
    requires
        0 <= k <= ds.len(),
        declare_spec(st, ds.take(k)).1 is Err,
    ensures
        declare_spec(st, ds) == declare_spec(st, ds.take(k)),
    decreases ds.len() - k,
{
    if k < ds.len() {
        assert(ds.take(k + 1).drop_last() =~= ds.take(k));
        assert(declare_spec(st, ds.take(k + 1)) == declare_spec(st, ds.take(k)));
        lemma_declare_prefix(st, ds, k + 1);
    } else {
        assert(ds.take(k) =~= ds);
    }
}

/// What a construction returned, with the term by its view.
pub open spec fn built(r: Result<MachineTerm, MachineError>) -> Result<TermView, MachineError> {
    match r {
        Ok(t) => Ok(t@),
        Err(e) => Err(e),
    }
}

/// What taking a guard returned, with the summation by its view.
pub open spec fn taken(r: Result<(Summ, usize), MachineError>) -> Result<
    (SummView, int),
    MachineError,
> {
    match r {
        Ok((cell, j)) => Ok((cell@, j as int)),
        Err(e) => Err(e),
    }
}

/// What a step returned, as a reaction sees it.
pub open spec fn fired(r: Result<Reduction, MachineError>) -> Result<(), MachineError> {
    match r {
        Ok(_) => Ok(()),
        Err(e) => Err(e),
    }
}

} // verus!
