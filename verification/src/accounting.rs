//! The counts of the store against the guards of the machine term.
use crate::ast::{bind_spec, channel_of, rename_spec, replace_all_spec, ActView, ProcessView};
use crate::lambda::{eval_spec, EVAL_DEPTH};
use crate::machine::{
    add_cell_spec, construct_spec, live, register, repeat_spec, stops_building, MachineState,
};
use crate::machineterm::{
    cells, found_at, guards, lemma_guards_bound, lemma_guards_take, mentions, mixed, pending,
    prefix, tallies, SummView, TermView,
};
use crate::store::{all_fit, all_known, can_shift, shift_all, shifted, ChannelRecord};
use crate::symgen::decimal;
use crate::values::Decimal;
use vstd::prelude::*;

verus! {

/// The inputs, the outputs and the mixed pairs that `chans` counts on channel
/// `c`: none where it lacks `c`.
pub open spec fn counted(chans: Map<Seq<char>, ChannelRecord>, c: Seq<char>) -> (nat, nat, nat) {
    if chans.contains_key(c) {
        (chans[c].incount as nat, chans[c].outcount as nat, chans[c].mixcount as nat)
    } else {
        (0, 0, 0)
    }
}

/// The inputs, the outputs and the mixed pairs on channel `c` that a walk
/// through the summations of `list` finds.
pub open spec fn scanned(list: Seq<SummView>, c: Seq<char>) -> (nat, nat, nat) {
    (pending(list, ActView::Input(c)), pending(list, ActView::Output(c)), mixed(list, c))
}

/// The store counts on every channel what a walk through the list finds.
pub open spec fn consistent(chans: Map<Seq<char>, ChannelRecord>, list: Seq<SummView>) -> bool {
    forall|c: Seq<char>| #[trigger] counted(chans, c) == scanned(list, c)
}

/// Every summation of the list has a guarded process, and no more of them
/// than a machine word counts.
pub open spec fn inhabited(list: Seq<SummView>) -> bool {
    forall|i: int| 0 <= i < list.len() ==> 0 < (#[trigger] list[i]).branches.len() <= usize::MAX
}

/// The number of summations of `list` that came from the definition `n`.
pub open spec fn origins(list: Seq<SummView>, n: Seq<char>) -> nat
    decreases list.len(),
{
    if list.len() == 0 {
        0
    } else {
        origins(list.drop_last(), n) + if list.last().origin == Some(n) {
            1nat
        } else {
            0nat
        }
    }
}

/// Every definition has at least as many live instances as summations of
/// the list came from it: no summation is taken that was not counted.
pub open spec fn staffed(instances: Map<Seq<char>, usize>, list: Seq<SummView>) -> bool {
    forall|n: Seq<char>| #[trigger] origins(list, n) <= live(instances, n)
}

/// A summation put into the list adds itself to those of its definition.
pub proof fn lemma_origins_insert(list: Seq<SummView>, i: int, cell: SummView, n: Seq<char>)
    requires
        0 <= i <= list.len(),
    ensures
        origins(list.insert(i, cell), n) == origins(list, n) + if cell.origin == Some(n) {
            1nat
        } else {
            0nat
        },
    decreases list.len() - i,
{
    let more = list.insert(i, cell);
    if i == list.len() {
        assert(more.drop_last() =~= list);
    } else {
        assert(more.drop_last() =~= list.drop_last().insert(i, cell));
        assert(more.last() == list.last());
        lemma_origins_insert(list.drop_last(), i, cell, n);
    }
}

/// A summation taken out of the list is one less of those of its definition.
pub proof fn lemma_origins_remove(list: Seq<SummView>, i: int, n: Seq<char>)
    requires
        0 <= i < list.len(),
    ensures
        origins(list, n) == origins(list.remove(i), n) + if list[i].origin == Some(n) {
            1nat
        } else {
            0nat
        },
{
    let rest = list.remove(i);
    assert(rest.insert(i, list[i]) =~= list);
    lemma_origins_insert(rest, i, list[i], n);
}

/// Among the guards of a summation that are the action `a`, there is one
/// with `m` such guards before it, for every `m` below their number.
pub proof fn lemma_guard_exists(bs: Seq<(ActView, ProcessView)>, a: ActView, m: nat) -> (j: int)
    requires
        m < guards(bs, a),
    ensures
        0 <= j < bs.len(),
        bs[j].0 == a,
        guards(bs.take(j), a) == m,
    decreases bs.len(),
{
    let front = bs.drop_last();
    if m < guards(front, a) {
        let j = lemma_guard_exists(front, a, m);
        assert(front.take(j) =~= bs.take(j));
        j
    } else {
        assert(bs.take(bs.len() - 1) =~= front);
        bs.len() - 1
    }
}

/// Among the guards of the list that are the action `a`, there is one with
/// `k` such guards before it, for every `k` below their number.
pub proof fn lemma_found_exists(list: Seq<SummView>, a: ActView, k: nat) -> (at: (int, int))
    requires
        k < pending(list, a),
    ensures
        found_at(list, a, k, at.0, at.1),
    decreases list.len(),
{
    let front = list.drop_last();
    if k < pending(front, a) {
        let at = lemma_found_exists(front, a, k);
        assert(front.take(at.0) =~= list.take(at.0));
        at
    } else {
        let i = list.len() - 1;
        assert(list.take(i) =~= front);
        let j = lemma_guard_exists(list[i].branches, a, (k - pending(front, a)) as nat);
        (i, j)
    }
}

/// A summation put into the list adds its guards to those of the list.
pub proof fn lemma_pending_insert(list: Seq<SummView>, i: int, cell: SummView, a: ActView)
    requires
        0 <= i <= list.len(),
    ensures
        pending(list.insert(i, cell), a) == pending(list, a) + guards(cell.branches, a),
    decreases list.len() - i,
{
    let more = list.insert(i, cell);
    if i == list.len() {
        assert(more.drop_last() =~= list);
    } else {
        assert(more.drop_last() =~= list.drop_last().insert(i, cell));
        assert(more.last() == list.last());
        lemma_pending_insert(list.drop_last(), i, cell, a);
    }
}

/// A summation put into the list adds its mixed pairs to those of the list.
pub proof fn lemma_mixed_insert(list: Seq<SummView>, i: int, cell: SummView, c: Seq<char>)
    requires
        0 <= i <= list.len(),
    ensures
        mixed(list.insert(i, cell), c) == mixed(list, c) + guards(
            cell.branches,
            ActView::Input(c),
        ) * guards(cell.branches, ActView::Output(c)),
    decreases list.len() - i,
{
    let more = list.insert(i, cell);
    if i == list.len() {
        assert(more.drop_last() =~= list);
    } else {
        assert(more.drop_last() =~= list.drop_last().insert(i, cell));
        assert(more.last() == list.last());
        lemma_mixed_insert(list.drop_last(), i, cell, c);
    }
}

/// A summation taken out of the list takes its guards and its mixed pairs with it.
pub proof fn lemma_scanned_remove(list: Seq<SummView>, i: int, c: Seq<char>)
    requires
        0 <= i < list.len(),
    ensures
        pending(list, ActView::Input(c)) == pending(list.remove(i), ActView::Input(c)) + guards(
            list[i].branches,
            ActView::Input(c),
        ),
        pending(list, ActView::Output(c)) == pending(list.remove(i), ActView::Output(c)) + guards(
            list[i].branches,
            ActView::Output(c),
        ),
        mixed(list, c) == mixed(list.remove(i), c) + guards(list[i].branches, ActView::Input(c))
            * guards(list[i].branches, ActView::Output(c)),
{
    let rest = list.remove(i);
    assert(rest.insert(i, list[i]) =~= list);
    lemma_pending_insert(rest, i, list[i], ActView::Input(c));
    lemma_pending_insert(rest, i, list[i], ActView::Output(c));
    lemma_mixed_insert(rest, i, list[i], c);
}

/// The mixed pairs are among the pairs: no walk finds a negative activity.
pub proof fn lemma_mixed_bound(list: Seq<SummView>, c: Seq<char>)
    ensures
        mixed(list, c) <= pending(list, ActView::Input(c)) * pending(list, ActView::Output(c)),
    decreases list.len(),
{
    if list.len() > 0 {
        lemma_mixed_bound(list.drop_last(), c);
        let a = pending(list.drop_last(), ActView::Input(c)) as int;
        let b = pending(list.drop_last(), ActView::Output(c)) as int;
        let x = guards(list.last().branches, ActView::Input(c)) as int;
        let y = guards(list.last().branches, ActView::Output(c)) as int;
        let m = mixed(list.drop_last(), c) as int;
        assert(m + x * y <= (a + x) * (b + y)) by (nonlinear_arith)
            requires
                m <= a * b,
                a >= 0,
                b >= 0,
                x >= 0,
                y >= 0,
        ;
    } else {
        assert(0 * 0 == 0) by (nonlinear_arith);
    }
}

/// Registering a channel leaves every count as it is.
pub proof fn lemma_register_counted(
    chans: Map<Seq<char>, ChannelRecord>,
    name: Seq<char>,
    rate: Decimal,
    c: Seq<char>,
)
    ensures
        counted(register(chans, name, rate), c) == counted(chans, c),
{
}

/// Registering a channel that is there, at the rate that it has, changes
/// nothing; registering a channel twice is registering it once.
pub proof fn lemma_register_idempotent(
    chans: Map<Seq<char>, ChannelRecord>,
    name: Seq<char>,
    rate: Decimal,
)
    ensures
        chans.contains_key(name) && chans[name].rate == rate ==> register(chans, name, rate)
            == chans,
        register(register(chans, name, rate), name, rate) == register(chans, name, rate),
{
    if chans.contains_key(name) && chans[name].rate == rate {
        assert(register(chans, name, rate) =~= chans);
    }
    assert(register(register(chans, name, rate), name, rate) =~= register(chans, name, rate));
}

/// With the counts in step, the guards of a new summation go onto the counts
/// and the summation onto the list, and the counts are in step again.
pub proof fn lemma_add_cell_consistent(
    st: MachineState,
    origin: Option<Seq<char>>,
    bs: Seq<(ActView, ProcessView)>,
    list: Seq<SummView>,
)
    requires
        consistent(st.channels, list),
        add_cell_spec(st, origin, bs, list).1 is Ok,
    ensures
        consistent(
            add_cell_spec(st, origin, bs, list).0.channels,
            cells(add_cell_spec(st, origin, bs, list).1->Ok_0),
        ),
{
    let cell = SummView { origin, branches: bs };
    let after = shift_all(st.channels, tallies(bs), true);
    let more = seq![cell] + list;
    assert(more =~= list.insert(0, cell));
    assert(bs.len() <= usize::MAX);
    assert(all_known(st.channels, tallies(bs)));
    assert(all_fit(st.channels, tallies(bs), true));
    assert(add_cell_spec(st, origin, bs, list).0.channels == after);
    assert(cells(add_cell_spec(st, origin, bs, list).1->Ok_0) == more);
    assert forall|c: Seq<char>| #[trigger] counted(after, c) == scanned(more, c) by {
        lemma_pending_insert(list, 0, cell, ActView::Input(c));
        lemma_pending_insert(list, 0, cell, ActView::Output(c));
        lemma_mixed_insert(list, 0, cell, c);
        lemma_guards_bound(bs, c);
        assert(counted(st.channels, c) == scanned(list, c));
        let gi = guards(bs, ActView::Input(c)) as int;
        let go = guards(bs, ActView::Output(c)) as int;
        assert(0 <= gi * go <= 0xffff_ffff_ffff_ffff * 0xffff_ffff_ffff_ffff) by (nonlinear_arith)
            requires
                0 <= gi <= 0xffff_ffff_ffff_ffff,
                0 <= go <= 0xffff_ffff_ffff_ffff,
        ;
        if tallies(bs).contains_key(c) {
            assert(st.channels.contains_key(c));
            let r = st.channels[c];
            let t = tallies(bs)[c];
            assert(can_shift(r, t, true));
            assert(t.inputs == gi);
            assert(t.outputs == go);
            assert(t.mixed == gi * go);
            let ni = r.incount + t.inputs;
            let no = r.outcount + t.outputs;
            assert(0 <= ni * no <= 0xffff_ffff_ffff_ffff * 0xffff_ffff_ffff_ffff)
                by (nonlinear_arith)
                requires
                    0 <= ni <= 0xffff_ffff_ffff_ffff,
                    0 <= no <= 0xffff_ffff_ffff_ffff,
            ;
            assert(after[c] == shifted(r, t, true));
            assert(after[c].incount == ni);
            assert(after[c].outcount == no);
            assert(after[c].mixcount == r.mixcount + gi * go);
        } else {
            assert(gi == 0 && go == 0);
            assert(gi * go == 0) by (nonlinear_arith)
                requires
                    gi == 0,
            ;
            assert(after.contains_key(c) == st.channels.contains_key(c));
            if after.contains_key(c) {
                assert(after[c] == st.channels[c]);
            }
        }
    }
}

/// With the counts in step, the counts of a summation of the list can be
/// taken from the store, and the counts are in step with the rest of the list.
pub proof fn lemma_remove_cell_consistent(
    chans: Map<Seq<char>, ChannelRecord>,
    list: Seq<SummView>,
    i: int,
)
    requires
        consistent(chans, list),
        0 <= i < list.len(),
        list[i].branches.len() <= usize::MAX,
    ensures
        all_known(chans, tallies(list[i].branches)),
        all_fit(chans, tallies(list[i].branches), false),
        consistent(shift_all(chans, tallies(list[i].branches), false), list.remove(i)),
{
    let bs = list[i].branches;
    let rest = list.remove(i);
    let after = shift_all(chans, tallies(bs), false);
    assert forall|c: Seq<char>| tallies(bs).contains_key(c) implies chans.contains_key(c)
        && can_shift(chans[c], tallies(bs)[c], false) by {
        lemma_remove_cell_at(chans, list, i, c);
    }
    assert forall|c: Seq<char>| #[trigger] counted(after, c) == scanned(rest, c) by {
        lemma_remove_cell_at(chans, list, i, c);
    }
}

/// What [`lemma_remove_cell_consistent`] says, of one channel.
proof fn lemma_remove_cell_at(
    chans: Map<Seq<char>, ChannelRecord>,
    list: Seq<SummView>,
    i: int,
    c: Seq<char>,
)
    requires
        consistent(chans, list),
        0 <= i < list.len(),
        list[i].branches.len() <= usize::MAX,
    ensures
        tallies(list[i].branches).contains_key(c) ==> chans.contains_key(c) && can_shift(
            chans[c],
            tallies(list[i].branches)[c],
            false,
        ),
        counted(shift_all(chans, tallies(list[i].branches), false), c) == scanned(
            list.remove(i),
            c,
        ),
{
    let bs = list[i].branches;
    let rest = list.remove(i);
    lemma_scanned_remove(list, i, c);
    lemma_guards_bound(bs, c);
    lemma_mixed_bound(rest, c);
    assert(counted(chans, c) == scanned(list, c));
    let gi = guards(bs, ActView::Input(c)) as int;
    let go = guards(bs, ActView::Output(c)) as int;
    assert(0 <= gi * go <= 0xffff_ffff_ffff_ffff * 0xffff_ffff_ffff_ffff) by (nonlinear_arith)
        requires
            0 <= gi <= 0xffff_ffff_ffff_ffff,
            0 <= go <= 0xffff_ffff_ffff_ffff,
    ;
    if tallies(bs).contains_key(c) {
        assert(mentions(bs, c));
        let k = choose|k: int| 0 <= k < bs.len() && channel_of(#[trigger] bs[k].0) == c;
        lemma_guards_take(bs, bs[k].0, k);
        assert(gi + go > 0);
        assert(chans.contains_key(c));
    } else {
        assert(0 * 0 == 0) by (nonlinear_arith);
    }
}

/// Building a term keeps the counts in step with the guards, keeps every
/// summation inhabited and every definition staffed, and leaves the
/// definitions as they are. It fails only for what stops building.
pub proof fn lemma_construct(st: MachineState, p: ProcessView, t: TermView, depth: nat)
    ensures
        construct_spec(st, p, t, depth).0.definitions == st.definitions,
        construct_spec(st, p, t, depth).0.counter >= st.counter,
        consistent(st.channels, cells(t)) && construct_spec(st, p, t, depth).1 is Ok
            ==> consistent(
            construct_spec(st, p, t, depth).0.channels,
            cells(construct_spec(st, p, t, depth).1->Ok_0),
        ),
        inhabited(cells(t)) && construct_spec(st, p, t, depth).1 is Ok ==> inhabited(
            cells(construct_spec(st, p, t, depth).1->Ok_0),
        ),
        construct_spec(st, p, t, depth).1 matches Err(e) ==> stops_building(e),
        forall|n: Seq<char>| #[trigger]
            live(construct_spec(st, p, t, depth).0.instances, n) >= live(st.instances, n),
        staffed(st.instances, cells(t)) && construct_spec(st, p, t, depth).1 is Ok ==> staffed(
            construct_spec(st, p, t, depth).0.instances,
            cells(construct_spec(st, p, t, depth).1->Ok_0),
        ),
    decreases depth, 1nat, prefix(t).len(),
{
    match t {
        TermView::TopRestriction(c, r, inner) => {
            lemma_construct(st, p, *inner, depth);
        },
        TermView::SummList(list) => {
            if depth > 0 {
                let less = (depth - 1) as nat;
                match p {
                    ProcessView::Restriction(c, r, body) => {
                        if st.counter < usize::MAX {
                            let fresh = decimal(st.counter);
                            let st1 = MachineState {
                                channels: register(st.channels, fresh, r),
                                counter: st.counter + 1,
                                ..st
                            };
                            assert forall|d: Seq<char>| #[trigger]
                                counted(st1.channels, d) == counted(st.channels, d) by {
                                lemma_register_counted(st.channels, fresh, r, d);
                            }
                            lemma_construct(st1, rename_spec(*body, c, fresh), t, less);
                        }
                    },
                    ProcessView::LetVal(x, e, body) => {
                        match eval_spec(e, EVAL_DEPTH as nat) {
                            Err(_) => {},
                            Ok(v) => {
                                lemma_construct(st, bind_spec(*body, x, v), t, less);
                            },
                        }
                    },
                    ProcessView::Parallel(l, r) => {
                        lemma_construct(st, *r, t, less);
                        let (st1, res) = construct_spec(st, *r, t, less);
                        match res {
                            Err(_) => {},
                            Ok(t1) => {
                                lemma_construct(st1, *l, t1, less);
                            },
                        }
                    },
                    ProcessView::Summation(bs) => {
                        lemma_add_cell(st, None, bs, list);
                    },
                    ProcessView::Instance(name, args) => {
                        if live(st.instances, name) < usize::MAX {
                            let st1 = MachineState {
                                instances: st.instances.insert(
                                    name,
                                    (live(st.instances, name) + 1) as usize,
                                ),
                                ..st
                            };
                            assert forall|n: Seq<char>| #[trigger]
                                live(st1.instances, n) >= live(st.instances, n) by {}
                            if staffed(st.instances, list) {
                                assert forall|n: Seq<char>| #[trigger]
                                    origins(list, n) <= live(st1.instances, n) by {
                                    assert(origins(list, n) <= live(st.instances, n));
                                }
                                assert(origins(list, name) <= live(st.instances, name));
                            }
                            if st1.definitions.contains_key(name) {
                                let d = st1.definitions[name];
                                match replace_all_spec(d.body, d.formals, args) {
                                    None => {},
                                    Some(body) => match body {
                                        ProcessView::Summation(bs) => {
                                            lemma_add_cell(st1, Some(name), bs, list);
                                        },
                                        _ => {
                                            lemma_construct(st1, body, t, less);
                                            let st2 = construct_spec(st1, body, t, less).0;
                                            assert forall|n: Seq<char>| #[trigger]
                                                live(st2.instances, n) >= live(
                                                    st.instances,
                                                    n,
                                                ) by {
                                                assert(live(st2.instances, n) >= live(
                                                    st1.instances,
                                                    n,
                                                ));
                                                assert(live(st1.instances, n) >= live(
                                                    st.instances,
                                                    n,
                                                ));
                                            }
                                        },
                                    },
                                }
                            }
                        }
                    },
                    ProcessView::Repetition(k, body) => {
                        lemma_repeat(st, *body, t, k, less);
                    },
                    ProcessView::Replication(a, body) => {
                        lemma_add_cell(
                            st,
                            None,
                            seq![(a, ProcessView::Parallel(body, Box::new(p)))],
                            list,
                        );
                    },
                    ProcessView::Termination => {},
                }
            }
        },
    }
}

/// What [`lemma_construct`] says, of a new summation.
pub proof fn lemma_add_cell(
    st: MachineState,
    origin: Option<Seq<char>>,
    bs: Seq<(ActView, ProcessView)>,
    list: Seq<SummView>,
)
    ensures
        add_cell_spec(st, origin, bs, list).0.definitions == st.definitions,
        add_cell_spec(st, origin, bs, list).0.counter == st.counter,
        consistent(st.channels, list) && add_cell_spec(st, origin, bs, list).1 is Ok
            ==> consistent(
            add_cell_spec(st, origin, bs, list).0.channels,
            cells(add_cell_spec(st, origin, bs, list).1->Ok_0),
        ),
        inhabited(list) && add_cell_spec(st, origin, bs, list).1 is Ok ==> inhabited(
            cells(add_cell_spec(st, origin, bs, list).1->Ok_0),
        ),
        add_cell_spec(st, origin, bs, list).0.instances == st.instances,
        add_cell_spec(st, origin, bs, list).1 matches Err(e) ==> stops_building(e),
        staffed(st.instances, list) && add_cell_spec(st, origin, bs, list).1 is Ok && (
        origin matches Some(n) ==> origins(list, n) < live(st.instances, n)) ==> staffed(
            st.instances,
            cells(add_cell_spec(st, origin, bs, list).1->Ok_0),
        ),
{
    if add_cell_spec(st, origin, bs, list).1 is Ok {
        if consistent(st.channels, list) {
            lemma_add_cell_consistent(st, origin, bs, list);
        }
        let cell = SummView { origin, branches: bs };
        let more = seq![cell] + list;
        assert(more =~= list.insert(0, cell));
        if staffed(st.instances, list) && (origin matches Some(n) ==> origins(list, n) < live(
            st.instances,
            n,
        )) {
            assert forall|n: Seq<char>| #[trigger] origins(more, n) <= live(st.instances, n) by {
                lemma_origins_insert(list, 0, cell, n);
                assert(origins(list, n) <= live(st.instances, n));
            }
        }
    }
}

/// What [`lemma_construct`] says, of a process built some number of times.
pub proof fn lemma_repeat(st: MachineState, p: ProcessView, t: TermView, k: nat, depth: nat)
    ensures
        repeat_spec(st, p, t, k, depth).0.definitions == st.definitions,
        repeat_spec(st, p, t, k, depth).0.counter >= st.counter,
        consistent(st.channels, cells(t)) && repeat_spec(st, p, t, k, depth).1 is Ok
            ==> consistent(
            repeat_spec(st, p, t, k, depth).0.channels,
            cells(repeat_spec(st, p, t, k, depth).1->Ok_0),
        ),
        inhabited(cells(t)) && repeat_spec(st, p, t, k, depth).1 is Ok ==> inhabited(
            cells(repeat_spec(st, p, t, k, depth).1->Ok_0),
        ),
        repeat_spec(st, p, t, k, depth).1 matches Err(e) ==> stops_building(e),
        forall|n: Seq<char>| #[trigger]
            live(repeat_spec(st, p, t, k, depth).0.instances, n) >= live(st.instances, n),
        staffed(st.instances, cells(t)) && repeat_spec(st, p, t, k, depth).1 is Ok ==> staffed(
            repeat_spec(st, p, t, k, depth).0.instances,
            cells(repeat_spec(st, p, t, k, depth).1->Ok_0),
        ),
    decreases depth, 2nat, k,
{
    if k > 0 {
        lemma_construct(st, p, t, depth);
        let (st1, res) = construct_spec(st, p, t, depth);
        match res {
            Err(_) => {},
            Ok(t1) => {
                lemma_repeat(st1, p, t1, (k - 1) as nat, depth);
            },
        }
    }
}

} // verus!
