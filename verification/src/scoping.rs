//! Restricted channels: every restriction gets a name of its own.
use crate::accounting::lemma_construct;
use crate::ast::{
    bind_spec, channel_of, rename_act, rename_spec, replace_all_spec, ActView, ProcessView,
};
use crate::lambda::{eval_spec, EVAL_DEPTH};
use crate::desugar::{lemma_lower_counter, lower_parallel_spec, lower_spec, SyntaxError};
use crate::machine::{
    add_cell_spec, construct_spec, declare_spec, fire_spec, live, load_spec, register,
    repeat_spec, resume_spec, retire, run_spec, take_spec, MachineError, MachineState,
};
use crate::machineterm::{
    found_at, guards, lemma_found_at_pending, lemma_found_at_unique, mentions, pending, prefix,
    tallies, SummView, TermView,
};
use crate::store::{shift_all, ChannelRecord};
use crate::symgen::{decimal, lemma_decimal_injective};
use crate::syntax;
use crate::syntax::DeclarationView;
use crate::values::Decimal;
use vstd::prelude::*;

verus! {

/// Whether the restrictions `added` carry the numerals of the counters `ks`,
/// which rise and lie from `lo` up to, and not with, `hi`.
pub open spec fn numbered(added: Seq<(Seq<char>, Decimal)>, ks: Seq<nat>, lo: nat, hi: nat) -> bool {
    &&& added.len() == ks.len()
    &&& forall|i: int| 0 <= i < ks.len() ==> (#[trigger] added[i]).0 == decimal(ks[i])
    &&& forall|i: int| 0 <= i < ks.len() ==> lo <= #[trigger] ks[i] < hi
    &&& forall|i: int, j: int| 0 <= i < j < ks.len() ==> #[trigger] ks[i] < #[trigger] ks[j]
}

/// Whether the store `chans` has every channel of `added`.
pub open spec fn registered(
    chans: Map<Seq<char>, ChannelRecord>,
    added: Seq<(Seq<char>, Decimal)>,
) -> bool {
    forall|i: int| 0 <= i < added.len() ==> chans.contains_key((#[trigger] added[i]).0)
}

/// Restrictions that carry the numerals of rising counters carry different names.
pub proof fn lemma_numbered_differ(
    added: Seq<(Seq<char>, Decimal)>,
    ks: Seq<nat>,
    lo: nat,
    hi: nat,
    i: int,
    j: int,
)
    requires
        numbered(added, ks, lo, hi),
        0 <= i < j < added.len(),
    ensures
        added[i].0 != added[j].0,
{
    assert(ks[i] < ks[j]);
    lemma_decimal_injective(ks[i], ks[j]);
}

/// Two runs of numbered restrictions, the second from where the first
/// ended, make one.
proof fn lemma_numbered_join(
    a: Seq<(Seq<char>, Decimal)>,
    ka: Seq<nat>,
    b: Seq<(Seq<char>, Decimal)>,
    kb: Seq<nat>,
    lo: nat,
    mid: nat,
    hi: nat,
)
    requires
        numbered(a, ka, lo, mid),
        numbered(b, kb, mid, hi),
        mid <= hi,
        lo <= mid,
    ensures
        numbered(a + b, ka + kb, lo, hi),
{
    let ab = a + b;
    let k = ka + kb;
    assert forall|i: int| 0 <= i < k.len() implies (#[trigger] ab[i]).0 == decimal(k[i]) by {
        if i < a.len() {
            assert(ab[i] == a[i]);
            assert(k[i] == ka[i]);
        } else {
            assert(ab[i] == b[i - a.len()]);
            assert(k[i] == kb[i - a.len()]);
        }
    }
    assert forall|i: int| 0 <= i < k.len() implies lo <= #[trigger] k[i] < hi by {
        if i < a.len() {
            assert(k[i] == ka[i]);
        } else {
            assert(k[i] == kb[i - a.len()]);
        }
    }
    assert forall|i: int, j: int| 0 <= i < j < k.len() implies #[trigger] k[i] < #[trigger] k[j] by {
        if j < a.len() {
            assert(k[i] == ka[i] && k[j] == ka[j]);
        } else if i < a.len() {
            assert(k[i] == ka[i] && k[j] == kb[j - a.len()]);
        } else {
            assert(k[i] == kb[i - a.len()] && k[j] == kb[j - a.len()]);
        }
    }
}

/// A new summation puts no restriction on top and takes no channel away.
proof fn lemma_add_cell_fresh(
    st: MachineState,
    origin: Option<Seq<char>>,
    bs: Seq<(ActView, ProcessView)>,
    list: Seq<SummView>,
)
    ensures
        add_cell_spec(st, origin, bs, list).0.counter == st.counter,
        add_cell_spec(st, origin, bs, list).1 matches Ok(t) ==> prefix(t) == Seq::<
            (Seq<char>, Decimal),
        >::empty(),
        forall|c: Seq<char>|
            st.channels.contains_key(c) ==> #[trigger] add_cell_spec(
                st,
                origin,
                bs,
                list,
            ).0.channels.contains_key(c),
{
}

/// The restrictions that a construction puts on top of the term: they stand
/// behind those that were there, they carry the numerals of the counters
/// that the construction used, which rise, and the store has them all. No
/// channel leaves the store.
pub proof fn lemma_construct_fresh(st: MachineState, p: ProcessView, t: TermView, depth: nat) -> (r: (
    Seq<(Seq<char>, Decimal)>,
    Seq<nat>,
))
    requires
        construct_spec(st, p, t, depth).1 is Ok,
    ensures
        prefix(construct_spec(st, p, t, depth).1->Ok_0) == prefix(t) + r.0,
        numbered(r.0, r.1, st.counter, construct_spec(st, p, t, depth).0.counter),
        registered(construct_spec(st, p, t, depth).0.channels, r.0),
        st.counter <= construct_spec(st, p, t, depth).0.counter,
        forall|c: Seq<char>|
            st.channels.contains_key(c) ==> #[trigger] construct_spec(
                st,
                p,
                t,
                depth,
            ).0.channels.contains_key(c),
    decreases depth, 1nat, prefix(t).len(),
{
    let none: (Seq<(Seq<char>, Decimal)>, Seq<nat>) = (Seq::empty(), Seq::empty());
    lemma_construct(st, p, t, depth);
    match t {
        TermView::TopRestriction(c, rate, inner) => {
            let r = lemma_construct_fresh(st, p, *inner, depth);
            assert(prefix(t) + r.0 =~= seq![(c, rate)] + (prefix(*inner) + r.0));
            r
        },
        TermView::SummList(list) => {
            let less = (depth - 1) as nat;
            match p {
                ProcessView::Restriction(c, rate, body) => {
                    let fresh = decimal(st.counter);
                    let st1 = MachineState {
                        channels: register(st.channels, fresh, rate),
                        counter: st.counter + 1,
                        ..st
                    };
                    let r1 = lemma_construct_fresh(st1, rename_spec(*body, c, fresh), t, less);
                    let st2 = construct_spec(st1, rename_spec(*body, c, fresh), t, less).0;
                    let one = seq![(fresh, rate)];
                    let k = seq![st.counter];
                    assert(numbered(one, k, st.counter, st1.counter));
                    lemma_numbered_join(one, k, r1.0, r1.1, st.counter, st1.counter, st2.counter);
                    let added = one + r1.0;
                    assert(prefix(t) + added =~= one + (prefix(t) + r1.0));
                    assert(st1.channels.contains_key(fresh));
                    assert forall|i: int| 0 <= i < added.len() implies st2.channels.contains_key(
                        (#[trigger] added[i]).0,
                    ) by {
                        if i > 0 {
                            assert(added[i] == r1.0[i - 1]);
                        }
                    }
                    (added, k + r1.1)
                },
                ProcessView::LetVal(x, e, body) => {
                    match eval_spec(e, EVAL_DEPTH as nat) {
                        Err(_) => none,
                        Ok(v) => lemma_construct_fresh(st, bind_spec(*body, x, v), t, less),
                    }
                },
                ProcessView::Parallel(l, r) => {
                    let first = lemma_construct_fresh(st, *r, t, less);
                    let (st1, res) = construct_spec(st, *r, t, less);
                    let t1 = res->Ok_0;
                    let second = lemma_construct_fresh(st1, *l, t1, less);
                    let st2 = construct_spec(st1, *l, t1, less).0;
                    lemma_numbered_join(
                        first.0,
                        first.1,
                        second.0,
                        second.1,
                        st.counter,
                        st1.counter,
                        st2.counter,
                    );
                    let added = first.0 + second.0;
                    assert(prefix(t) + added =~= (prefix(t) + first.0) + second.0);
                    assert forall|i: int| 0 <= i < added.len() implies st2.channels.contains_key(
                        (#[trigger] added[i]).0,
                    ) by {
                        if i < first.0.len() {
                            assert(added[i] == first.0[i]);
                            assert(st1.channels.contains_key(first.0[i].0));
                        } else {
                            assert(added[i] == second.0[i - first.0.len()]);
                        }
                    }
                    (added, first.1 + second.1)
                },
                ProcessView::Summation(bs) => {
                    lemma_add_cell_fresh(st, None, bs, list);
                    assert(prefix(t) + none.0 =~= prefix(t));
                    none
                },
                ProcessView::Instance(name, args) => {
                    let st1 = MachineState {
                        instances: st.instances.insert(
                            name,
                            (live(st.instances, name) + 1) as usize,
                        ),
                        ..st
                    };
                    let d = st1.definitions[name];
                    match replace_all_spec(d.body, d.formals, args) {
                        None => none,
                        Some(body) => match body {
                            ProcessView::Summation(bs) => {
                                lemma_add_cell_fresh(st1, Some(name), bs, list);
                                assert(prefix(t) + none.0 =~= prefix(t));
                                none
                            },
                            _ => lemma_construct_fresh(st1, body, t, less),
                        },
                    }
                },
                ProcessView::Repetition(k, body) => lemma_repeat_fresh(st, *body, t, k, less),
                ProcessView::Replication(a, body) => {
                    lemma_add_cell_fresh(
                        st,
                        None,
                        seq![(a, ProcessView::Parallel(body, Box::new(p)))],
                        list,
                    );
                    assert(prefix(t) + none.0 =~= prefix(t));
                    none
                },
                ProcessView::Termination => {
                    assert(prefix(t) + none.0 =~= prefix(t));
                    none
                },
            }
        },
    }
}

/// What [`lemma_construct_fresh`] says, of a process built some number of times.
pub proof fn lemma_repeat_fresh(st: MachineState, p: ProcessView, t: TermView, k: nat, depth: nat) -> (r:
    (Seq<(Seq<char>, Decimal)>, Seq<nat>))
    requires
        repeat_spec(st, p, t, k, depth).1 is Ok,
    ensures
        prefix(repeat_spec(st, p, t, k, depth).1->Ok_0) == prefix(t) + r.0,
        numbered(r.0, r.1, st.counter, repeat_spec(st, p, t, k, depth).0.counter),
        registered(repeat_spec(st, p, t, k, depth).0.channels, r.0),
        st.counter <= repeat_spec(st, p, t, k, depth).0.counter,
        forall|c: Seq<char>|
            st.channels.contains_key(c) ==> #[trigger] repeat_spec(
                st,
                p,
                t,
                k,
                depth,
            ).0.channels.contains_key(c),
    decreases depth, 2nat, k,
{
    if k == 0 {
        let none: (Seq<(Seq<char>, Decimal)>, Seq<nat>) = (Seq::empty(), Seq::empty());
        assert(prefix(t) + none.0 =~= prefix(t));
        none
    } else {
        let first = lemma_construct_fresh(st, p, t, depth);
        let (st1, res) = construct_spec(st, p, t, depth);
        let t1 = res->Ok_0;
        let second = lemma_repeat_fresh(st1, p, t1, (k - 1) as nat, depth);
        let st2 = repeat_spec(st1, p, t1, (k - 1) as nat, depth).0;
        lemma_numbered_join(
            first.0,
            first.1,
            second.0,
            second.1,
            st.counter,
            st1.counter,
            st2.counter,
        );
        let added = first.0 + second.0;
        assert(prefix(t) + added =~= (prefix(t) + first.0) + second.0);
        assert forall|i: int| 0 <= i < added.len() implies st2.channels.contains_key(
            (#[trigger] added[i]).0,
        ) by {
            if i < first.0.len() {
                assert(added[i] == first.0[i]);
                assert(st1.channels.contains_key(first.0[i].0));
            } else {
                assert(added[i] == second.0[i - first.0.len()]);
            }
        }
        (added, first.1 + second.1)
    }
}

/// Numbered restrictions stay numbered where the counters may start lower.
proof fn lemma_numbered_from(
    added: Seq<(Seq<char>, Decimal)>,
    ks: Seq<nat>,
    lower: nat,
    lo: nat,
    hi: nat,
)
    requires
        numbered(added, ks, lo, hi),
        lower <= lo,
    ensures
        numbered(added, ks, lower, hi),
{
    assert forall|i: int| 0 <= i < ks.len() implies lower <= #[trigger] ks[i] < hi by {
        assert(lo <= ks[i] < hi);
    }
}

/// What [`lemma_construct_fresh`] says, of the processes that a program runs.
pub proof fn lemma_run_fresh(
    st: MachineState,
    runs: Seq<syntax::ProcessView>,
    t: TermView,
    depth: nat,
) -> (r: (Seq<(Seq<char>, Decimal)>, Seq<nat>))
    requires
        run_spec(st, runs, t, depth).1 is Ok,
    ensures
        prefix(run_spec(st, runs, t, depth).1->Ok_0) == prefix(t) + r.0,
        numbered(r.0, r.1, st.counter, run_spec(st, runs, t, depth).0.counter),
        registered(run_spec(st, runs, t, depth).0.channels, r.0),
        st.counter <= run_spec(st, runs, t, depth).0.counter,
        forall|c: Seq<char>|
            st.channels.contains_key(c) ==> #[trigger] run_spec(
                st,
                runs,
                t,
                depth,
            ).0.channels.contains_key(c),
    decreases runs.len(),
{
    if runs.len() == 0 {
        let none: (Seq<(Seq<char>, Decimal)>, Seq<nat>) = (Seq::empty(), Seq::empty());
        assert(prefix(t) + none.0 =~= prefix(t));
        none
    } else {
        lemma_lower_counter(runs.last(), st.counter);
        let (res, n1) = lower_spec(runs.last(), st.counter);
        let st1 = MachineState { counter: n1, ..st };
        let p = res->Ok_0;
        let first = lemma_construct_fresh(st1, p, t, depth);
        let (st2, built) = construct_spec(st1, p, t, depth);
        let t1 = built->Ok_0;
        let second = lemma_run_fresh(st2, runs.drop_last(), t1, depth);
        let st3 = run_spec(st2, runs.drop_last(), t1, depth).0;
        lemma_numbered_join(
            first.0,
            first.1,
            second.0,
            second.1,
            st1.counter,
            st2.counter,
            st3.counter,
        );
        let added = first.0 + second.0;
        lemma_numbered_from(added, first.1 + second.1, st.counter, st1.counter, st3.counter);
        assert(prefix(t) + added =~= (prefix(t) + first.0) + second.0);
        assert forall|i: int| 0 <= i < added.len() implies st3.channels.contains_key(
            (#[trigger] added[i]).0,
        ) by {
            if i < first.0.len() {
                assert(added[i] == first.0[i]);
                assert(st2.channels.contains_key(first.0[i].0));
            } else {
                assert(added[i] == second.0[i - first.0.len()]);
            }
        }
        (added, first.1 + second.1)
    }
}

/// The declarations of a program use fresh names and give none back.
pub proof fn lemma_declare_counter(st: MachineState, ds: Seq<DeclarationView>)
    ensures
        declare_spec(st, ds).0.counter >= st.counter,
    decreases ds.len(),
{
    if ds.len() > 0 {
        lemma_declare_counter(st, ds.drop_last());
        let st1 = declare_spec(st, ds.drop_last()).0;
        match ds.last() {
            DeclarationView::Def(_, _, body) => {
                lemma_lower_counter(body, st1.counter);
            },
            _ => {},
        }
    }
}

/// Scoped channels of a loaded program: every restriction that the program
/// runs into comes to stand on top of the term, behind those that were
/// there, under a numeral of its own that no restriction before it or beside
/// it carries, and the store has that channel.
pub proof fn lemma_load_fresh(st: MachineState, t: TermView, ds: Seq<DeclarationView>, depth: nat) -> (r:
    (Seq<(Seq<char>, Decimal)>, Seq<nat>))
    requires
        load_spec(st, t, ds, depth).2 is Ok,
    ensures
        prefix(load_spec(st, t, ds, depth).1) == prefix(t) + r.0,
        numbered(r.0, r.1, st.counter, load_spec(st, t, ds, depth).0.counter),
        registered(load_spec(st, t, ds, depth).0.channels, r.0),
        forall|i: int, j: int|
            0 <= i < j < r.0.len() ==> (#[trigger] r.0[i]).0 != (#[trigger] r.0[j]).0,
{
    lemma_declare_counter(st, ds);
    let (st1, runs) = declare_spec(st, ds);
    let r = lemma_run_fresh(st1, runs->Ok_0, t, depth);
    let st2 = run_spec(st1, runs->Ok_0, t, depth).0;
    lemma_numbered_from(r.0, r.1, st.counter, st1.counter, st2.counter);
    assert forall|i: int, j: int| 0 <= i < j < r.0.len() implies (#[trigger] r.0[i]).0 != (
    #[trigger] r.0[j]).0 by {
        lemma_numbered_differ(r.0, r.1, st.counter, st2.counter, i, j);
    }
    r
}

/// The process `let new c@rate in (!c; end | ?c; end)`.
pub open spec fn scoped_pair(c: Seq<char>, rate: Decimal) -> ProcessView {
    ProcessView::Restriction(
        c,
        rate,
        Box::new(
            ProcessView::Parallel(
                Box::new(ProcessView::Summation(seq![(ActView::Output(c), ProcessView::Termination)])),
                Box::new(ProcessView::Summation(seq![(ActView::Input(c), ProcessView::Termination)])),
            ),
        ),
    )
}

/// The summation of the one guard `a` before the process that does nothing.
pub open spec fn lone(a: ActView) -> SummView {
    SummView { origin: None, branches: seq![(a, ProcessView::Termination)] }
}

/// The record of a channel with one input and one output that can react.
pub open spec fn one_pair(rate: Decimal) -> ChannelRecord {
    ChannelRecord { rate, incount: 1, outcount: 1, mixcount: 0, ax: 1 }
}

/// What `let new c@rate in (!c; end | ?c; end)` builds, where the next
/// fresh name is no channel yet: a restriction under the fresh name around
/// the output and the input on it, at the head of the list, and the fresh
/// channel in the store with one pair that can react.
pub proof fn lemma_scoped_pair(
    st: MachineState,
    c: Seq<char>,
    rate: Decimal,
    list: Seq<SummView>,
    depth: nat,
)
    requires
        depth >= 3,
        st.counter < usize::MAX,
        !st.channels.contains_key(decimal(st.counter)),
    ensures
        construct_spec(st, scoped_pair(c, rate), TermView::SummList(list), depth) == (
            MachineState {
                channels: st.channels.insert(decimal(st.counter), one_pair(rate)),
                counter: st.counter + 1,
                ..st
            },
            Ok::<TermView, MachineError>(
                TermView::TopRestriction(
                    decimal(st.counter),
                    rate,
                    Box::new(
                        TermView::SummList(
                            seq![
                                lone(ActView::Output(decimal(st.counter))),
                                lone(ActView::Input(decimal(st.counter))),
                            ] + list,
                        ),
                    ),
                ),
            ),
        ),
{
    let fresh = decimal(st.counter);
    let t = TermView::SummList(list);
    let st1 = MachineState {
        channels: register(st.channels, fresh, rate),
        counter: st.counter + 1,
        ..st
    };
    let out_c = ProcessView::Summation(seq![(ActView::Output(c), ProcessView::Termination)]);
    let in_c = ProcessView::Summation(seq![(ActView::Input(c), ProcessView::Termination)]);
    let body = ProcessView::Parallel(Box::new(out_c), Box::new(in_c));
    let ins = seq![(ActView::Input(fresh), ProcessView::Termination)];
    let outs = seq![(ActView::Output(fresh), ProcessView::Termination)];
    let out_f = ProcessView::Summation(outs);
    let in_f = ProcessView::Summation(ins);
    assert(rename_spec(ProcessView::Termination, c, fresh) == ProcessView::Termination);
    let renamed_out = rename_spec(out_c, c, fresh)->Summation_0;
    let renamed_in = rename_spec(in_c, c, fresh)->Summation_0;
    assert(out_c->Summation_0.len() == 1 && in_c->Summation_0.len() == 1);
    assert(renamed_out.len() == 1 && renamed_in.len() == 1);
    assert(renamed_out[0] == (
        rename_act(out_c->Summation_0[0].0, c, fresh),
        rename_spec(out_c->Summation_0[0].1, c, fresh),
    ));
    assert(renamed_in[0] == (
        rename_act(in_c->Summation_0[0].0, c, fresh),
        rename_spec(in_c->Summation_0[0].1, c, fresh),
    ));
    assert(renamed_out =~= outs);
    assert(renamed_in =~= ins);
    assert(rename_spec(body, c, fresh) == ProcessView::Parallel(Box::new(out_f), Box::new(in_f)));
    let d2 = (depth - 2) as nat;
    // the input goes to the list first
    lemma_lone_counts(ins, ActView::Input(fresh), fresh);
    let zero = ChannelRecord { rate, incount: 0, outcount: 0, mixcount: 0, ax: 0 };
    assert(st1.channels[fresh] == zero);
    let chans2 = shift_all(st1.channels, tallies(ins), true);
    let one_in = ChannelRecord { rate, incount: 1, outcount: 0, mixcount: 0, ax: 0 };
    assert(chans2 =~= st1.channels.insert(fresh, one_in)) by {
        assert(0 * 0 == 0) by (nonlinear_arith);
        assert(1 * 0 == 0) by (nonlinear_arith);
    }
    let st2 = MachineState { channels: chans2, ..st1 };
    let list2 = seq![lone(ActView::Input(fresh))] + list;
    assert(add_cell_spec(st1, None, ins, list) == (
        st2,
        Ok::<TermView, MachineError>(TermView::SummList(list2)),
    )) by {
        assert(1 * 0 == 0) by (nonlinear_arith);
    }
    assert(construct_spec(st1, in_f, t, d2) == add_cell_spec(st1, None, ins, list));
    // then the output
    lemma_lone_counts(outs, ActView::Output(fresh), fresh);
    let chans3 = shift_all(st2.channels, tallies(outs), true);
    assert(chans3 =~= st.channels.insert(fresh, one_pair(rate))) by {
        assert(1 * 1 == 1) by (nonlinear_arith);
        assert(0 * 1 == 0) by (nonlinear_arith);
    }
    let st3 = MachineState { channels: chans3, ..st2 };
    let list3 = seq![lone(ActView::Output(fresh))] + list2;
    assert(list3 =~= seq![lone(ActView::Output(fresh)), lone(ActView::Input(fresh))] + list);
    assert(add_cell_spec(st2, None, outs, list2) == (
        st3,
        Ok::<TermView, MachineError>(TermView::SummList(list3)),
    )) by {
        assert(1 * 1 == 1) by (nonlinear_arith);
        assert(0 * 1 == 0) by (nonlinear_arith);
    }
    assert(construct_spec(st2, out_f, TermView::SummList(list2), d2) == add_cell_spec(
        st2,
        None,
        outs,
        list2,
    ));
    assert(construct_spec(st1, rename_spec(body, c, fresh), t, (depth - 1) as nat) == (
        st3,
        Ok::<TermView, MachineError>(TermView::SummList(list3)),
    ));
}

/// Two copies of `let new c@rate in (!c; end | ?c; end)` side by side, where
/// the next two fresh names are no channels yet: two restrictions on top,
/// under two different fresh names, around four summations, of which none
/// has a guard on a name that both copies share; and in the store each of
/// the two fresh channels with one pair that can react, whatever the other
/// does, and every other channel as it was.
pub proof fn lemma_two_scoped_pairs(
    st: MachineState,
    c: Seq<char>,
    rate: Decimal,
    list: Seq<SummView>,
    depth: nat,
)
    requires
        depth >= 4,
        st.counter + 1 < usize::MAX,
        !st.channels.contains_key(decimal(st.counter)),
        !st.channels.contains_key(decimal(st.counter + 1)),
    ensures
        decimal(st.counter) != decimal(st.counter + 1),
        construct_spec(
            st,
            ProcessView::Parallel(
                Box::new(scoped_pair(c, rate)),
                Box::new(scoped_pair(c, rate)),
            ),
            TermView::SummList(list),
            depth,
        ) == (
            MachineState {
                channels: st.channels.insert(decimal(st.counter), one_pair(rate)).insert(
                    decimal(st.counter + 1),
                    one_pair(rate),
                ),
                counter: st.counter + 2,
                ..st
            },
            Ok::<TermView, MachineError>(
                TermView::TopRestriction(
                    decimal(st.counter),
                    rate,
                    Box::new(
                        TermView::TopRestriction(
                            decimal(st.counter + 1),
                            rate,
                            Box::new(
                                TermView::SummList(
                                    seq![
                                        lone(ActView::Output(decimal(st.counter + 1))),
                                        lone(ActView::Input(decimal(st.counter + 1))),
                                        lone(ActView::Output(decimal(st.counter))),
                                        lone(ActView::Input(decimal(st.counter))),
                                    ] + list,
                                ),
                            ),
                        ),
                    ),
                ),
            ),
        ),
{
    let first = decimal(st.counter);
    let second = decimal(st.counter + 1);
    lemma_decimal_injective(st.counter, st.counter + 1);
    let less = (depth - 1) as nat;
    lemma_scoped_pair(st, c, rate, list, less);
    let st1 = MachineState {
        channels: st.channels.insert(first, one_pair(rate)),
        counter: st.counter + 1,
        ..st
    };
    let list1 = seq![lone(ActView::Output(first)), lone(ActView::Input(first))] + list;
    let t1 = TermView::TopRestriction(first, rate, Box::new(TermView::SummList(list1)));
    lemma_scoped_pair(st1, c, rate, list1, less);
    let list2 = seq![lone(ActView::Output(second)), lone(ActView::Input(second))] + list1;
    assert(list2 =~= seq![
        lone(ActView::Output(second)),
        lone(ActView::Input(second)),
        lone(ActView::Output(first)),
        lone(ActView::Input(first)),
    ] + list);
    let st2 = MachineState {
        channels: st1.channels.insert(second, one_pair(rate)),
        counter: st1.counter + 1,
        ..st1
    };
    assert(construct_spec(st1, scoped_pair(c, rate), t1, less) == (
        st2,
        Ok::<TermView, MachineError>(
            TermView::TopRestriction(
                first,
                rate,
                Box::new(
                    TermView::TopRestriction(second, rate, Box::new(TermView::SummList(list2))),
                ),
            ),
        ),
    ));
}

/// The written process `let new c@rate in (!c; end | ?c; end)`.
pub open spec fn written_pair(c: Seq<char>, rate: Decimal) -> syntax::ProcessView {
    syntax::ProcessView::Restriction(
        c,
        rate,
        Box::new(
            syntax::ProcessView::Parallel(
                seq![
                    syntax::ProcessView::Action(
                        ActView::Output(c),
                        Box::new(syntax::ProcessView::Termination),
                    ),
                    syntax::ProcessView::Action(
                        ActView::Input(c),
                        Box::new(syntax::ProcessView::Termination),
                    ),
                ],
            ),
        ),
    )
}

/// The written pair stands for the pair, and takes no fresh name.
pub proof fn lemma_written_pair(c: Seq<char>, rate: Decimal, n: nat)
    ensures
        lower_spec(written_pair(c, rate), n) == (
            Ok::<ProcessView, SyntaxError>(scoped_pair(c, rate)),
            n,
        ),
{
    let end = syntax::ProcessView::Termination;
    let send = syntax::ProcessView::Action(ActView::Output(c), Box::new(end));
    let recv = syntax::ProcessView::Action(ActView::Input(c), Box::new(end));
    let both = seq![send, recv];
    let out_c = ProcessView::Summation(seq![(ActView::Output(c), ProcessView::Termination)]);
    let in_c = ProcessView::Summation(seq![(ActView::Input(c), ProcessView::Termination)]);
    assert(lower_spec(end, n) == (Ok::<ProcessView, SyntaxError>(ProcessView::Termination), n));
    assert(lower_spec(send, n) == (Ok::<ProcessView, SyntaxError>(out_c), n));
    assert(lower_spec(recv, n) == (Ok::<ProcessView, SyntaxError>(in_c), n));
    assert(both.last() == recv);
    assert(both.drop_last() =~= seq![send]);
    assert(seq![send].last() == send);
    assert(seq![send].drop_last() =~= Seq::<syntax::ProcessView>::empty());
    let body = ProcessView::Parallel(Box::new(out_c), Box::new(in_c));
    assert(lower_parallel_spec(Seq::<syntax::ProcessView>::empty(), body, n) == (
        Ok::<ProcessView, SyntaxError>(body),
        n,
    ));
    assert(lower_parallel_spec(seq![send], in_c, n) == (
        Ok::<ProcessView, SyntaxError>(body),
        n,
    ));
    assert(lower_spec(syntax::ProcessView::Parallel(both), n) == (
        Ok::<ProcessView, SyntaxError>(body),
        n,
    ));
}

/// Scoped channel freshening, for a program that runs two copies of
/// `let new c@rate in (!c; end | ?c; end)` side by side and declares nothing,
/// loaded on an empty term where the next two fresh names are no channels
/// yet: the term is two restrictions, under two different fresh names,
/// around the four summations `!c1`, `?c1`, `!c2`, `?c2`; and the store has
/// each of the two fresh channels with one input, one output, no mixed pair
/// and activity one.
pub proof fn lemma_load_two_scoped_pairs(st: MachineState, c: Seq<char>, rate: Decimal, depth: nat)
    requires
        depth >= 4,
        st.counter + 1 < usize::MAX,
        !st.channels.contains_key(decimal(st.counter)),
        !st.channels.contains_key(decimal(st.counter + 1)),
    ensures
        decimal(st.counter) != decimal(st.counter + 1),
        load_spec(
            st,
            TermView::SummList(Seq::empty()),
            seq![
                DeclarationView::Run(
                    syntax::ProcessView::Parallel(
                        seq![written_pair(c, rate), written_pair(c, rate)],
                    ),
                ),
            ],
            depth,
        ) == (
            MachineState {
                channels: st.channels.insert(decimal(st.counter), one_pair(rate)).insert(
                    decimal(st.counter + 1),
                    one_pair(rate),
                ),
                counter: st.counter + 2,
                ..st
            },
            TermView::TopRestriction(
                decimal(st.counter),
                rate,
                Box::new(
                    TermView::TopRestriction(
                        decimal(st.counter + 1),
                        rate,
                        Box::new(
                            TermView::SummList(
                                seq![
                                    lone(ActView::Output(decimal(st.counter + 1))),
                                    lone(ActView::Input(decimal(st.counter + 1))),
                                    lone(ActView::Output(decimal(st.counter))),
                                    lone(ActView::Input(decimal(st.counter))),
                                ],
                            ),
                        ),
                    ),
                ),
            ),
            Ok::<(), MachineError>(()),
        ),
{
    let n = st.counter;
    let wp = written_pair(c, rate);
    let sp = scoped_pair(c, rate);
    let two = seq![wp, wp];
    let written = syntax::ProcessView::Parallel(two);
    let built = ProcessView::Parallel(Box::new(sp), Box::new(sp));
    lemma_written_pair(c, rate, n);
    assert(two.last() == wp);
    assert(two.drop_last() =~= seq![wp]);
    assert(seq![wp].last() == wp);
    assert(seq![wp].drop_last() =~= Seq::<syntax::ProcessView>::empty());
    assert(lower_parallel_spec(Seq::<syntax::ProcessView>::empty(), built, n) == (
        Ok::<ProcessView, SyntaxError>(built),
        n,
    ));
    assert(lower_parallel_spec(seq![wp], sp, n) == (Ok::<ProcessView, SyntaxError>(built), n));
    assert(lower_spec(written, n) == (Ok::<ProcessView, SyntaxError>(built), n));
    let ds = seq![DeclarationView::Run(written)];
    assert(ds.drop_last() =~= Seq::<DeclarationView>::empty());
    assert(ds.last() == DeclarationView::Run(written));
    assert(declare_spec(st, Seq::<DeclarationView>::empty()) == (
        st,
        Ok::<Seq<syntax::ProcessView>, MachineError>(Seq::empty()),
    ));
    let runs = seq![written];
    assert(Seq::<syntax::ProcessView>::empty().push(written) =~= runs);
    assert(declare_spec(st, ds) == (st, Ok::<Seq<syntax::ProcessView>, MachineError>(runs)));
    let empty = Seq::<SummView>::empty();
    let t = TermView::SummList(empty);
    lemma_two_scoped_pairs(st, c, rate, empty, depth);
    let (st2, r) = construct_spec(st, built, t, depth);
    assert(runs.last() == written);
    assert(runs.drop_last() =~= Seq::<syntax::ProcessView>::empty());
    assert(MachineState { counter: n, ..st } == st);
    assert(run_spec(st2, Seq::<syntax::ProcessView>::empty(), r->Ok_0, depth) == (
        st2,
        Ok::<TermView, MachineError>(r->Ok_0),
    ));
    assert(run_spec(st, runs, t, depth) == (st2, r));
    assert(seq![
        lone(ActView::Output(decimal(st.counter + 1))),
        lone(ActView::Input(decimal(st.counter + 1))),
        lone(ActView::Output(decimal(st.counter))),
        lone(ActView::Input(decimal(st.counter))),
    ] + empty =~= seq![
        lone(ActView::Output(decimal(st.counter + 1))),
        lone(ActView::Input(decimal(st.counter + 1))),
        lone(ActView::Output(decimal(st.counter))),
        lone(ActView::Input(decimal(st.counter))),
    ]);
}

/// The record of a channel at `rate` on which nothing is pending.
pub open spec fn spent(rate: Decimal) -> ChannelRecord {
    ChannelRecord { rate, incount: 0, outcount: 0, mixcount: 0, ax: 0 }
}

/// A list that holds, behind the summations `pre` and before the summations
/// `post`, the two summations `!c; end` and `?c; end`.
pub open spec fn around_pair(pre: Seq<SummView>, c: Seq<char>, post: Seq<SummView>) -> Seq<
    SummView,
> {
    pre + seq![lone(ActView::Output(c)), lone(ActView::Input(c))] + post
}

/// A pair reacts alone. Where `!c; end` and `?c; end` are the first
/// summations of the list with a guard on `c`, and the store has for `c`
/// the one pair that can react: the reaction on `c` takes those two out of
/// the list and leaves every other summation where it stands; in the store
/// nothing is pending on `c` any more, and every other channel is as it
/// was.
pub proof fn lemma_pair_reacts(
    st: MachineState,
    c: Seq<char>,
    rate: Decimal,
    pre: Seq<SummView>,
    post: Seq<SummView>,
    depth: nat,
)
    requires
        depth > 0,
        st.channels.contains_key(c),
        st.channels[c] == one_pair(rate),
        pending(pre, ActView::Input(c)) == 0,
        pending(pre, ActView::Output(c)) == 0,
    ensures
        fire_spec(st, TermView::SummList(around_pair(pre, c, post)), depth, c, 0, 0) == (
            MachineState { channels: st.channels.insert(c, spent(rate)), ..st },
            TermView::SummList(pre + post),
            Ok::<(), MachineError>(()),
        ),
{
    let input = ActView::Input(c);
    let output = ActView::Output(c);
    let ins = seq![(input, ProcessView::Termination)];
    let outs = seq![(output, ProcessView::Termination)];
    let list = around_pair(pre, c, post);
    let t = TermView::SummList(list);
    let p = pre.len() as int;
    lemma_lone_counts(ins, input, c);
    lemma_lone_counts(outs, output, c);
    assert(ins.take(0) =~= Seq::<(ActView, ProcessView)>::empty());
    assert(outs.take(0) =~= Seq::<(ActView, ProcessView)>::empty());
    assert(outs.drop_last() =~= Seq::<(ActView, ProcessView)>::empty());
    assert(guards(outs.drop_last(), input) == 0);
    assert(guards(outs, input) == 0);
    // the input is found behind the output
    assert(list[p + 1] == lone(input));
    assert(list.take(p + 1) =~= pre.push(lone(output)));
    assert(pre.push(lone(output)).drop_last() =~= pre);
    assert(pending(list.take(p + 1), input) == 0);
    assert(guards(ins.take(0), input) == 0);
    assert(found_at(list, input, 0, p + 1, 0));
    lemma_found_at_pending(list, input, 0, p + 1, 0);
    let w1 = (p + 1, 0int);
    assert(found_at(list, input, 0, w1.0, w1.1));
    let a1 = choose|at: (int, int)| found_at(list, input, 0, at.0, at.1);
    lemma_found_at_unique(list, input, 0, a1.0, a1.1, p + 1, 0);
    let rest = list.remove(p + 1);
    assert(rest =~= pre + seq![lone(output)] + post);
    let one_out = ChannelRecord { rate, incount: 0, outcount: 1, mixcount: 0, ax: 0 };
    let chans1 = shift_all(st.channels, tallies(ins), false);
    assert(chans1 =~= st.channels.insert(c, one_out)) by {
        assert(0 * 1 == 0) by (nonlinear_arith);
    }
    let st1 = MachineState { channels: chans1, ..st };
    assert(retire(st1.instances, None) == Some(st1.instances));
    assert(MachineState { instances: st1.instances, ..st1 } == st1);
    assert(take_spec(st, t, input, 0) == (
        st1,
        TermView::SummList(rest),
        Ok::<(SummView, int), MachineError>((lone(input), 0)),
    )) by {
        assert(0 * 1 == 0) by (nonlinear_arith);
    }
    // the output is found where it was
    assert(rest[p] == lone(output));
    assert(rest.take(p) =~= pre);
    assert(guards(outs.take(0), output) == 0);
    assert(found_at(rest, output, 0, p, 0));
    lemma_found_at_pending(rest, output, 0, p, 0);
    let w2 = (p, 0int);
    assert(found_at(rest, output, 0, w2.0, w2.1));
    let a2 = choose|at: (int, int)| found_at(rest, output, 0, at.0, at.1);
    lemma_found_at_unique(rest, output, 0, a2.0, a2.1, p, 0);
    let last = rest.remove(p);
    assert(last =~= pre + post);
    let chans2 = shift_all(chans1, tallies(outs), false);
    assert(chans2 =~= st.channels.insert(c, spent(rate))) by {
        assert(0 * 0 == 0) by (nonlinear_arith);
    }
    let st2 = MachineState { channels: chans2, ..st1 };
    assert(retire(st2.instances, None) == Some(st2.instances));
    assert(MachineState { instances: st2.instances, ..st2 } == st2);
    let t1 = TermView::SummList(rest);
    assert(take_spec(st1, t1, output, 0) == (
        st2,
        TermView::SummList(last),
        Ok::<(SummView, int), MachineError>((lone(output), 0)),
    )) by {
        assert(0 * 0 == 0) by (nonlinear_arith);
    }
    // neither guard sets a process free
    let t2 = TermView::SummList(last);
    assert(construct_spec(st2, ProcessView::Termination, t2, depth) == (
        st2,
        Ok::<TermView, MachineError>(t2),
    ));
    assert(lone(input).branches[0].1 == ProcessView::Termination);
    assert(lone(output).branches[0].1 == ProcessView::Termination);
    assert(resume_spec(st2, t2, depth, (lone(input), 0), (lone(output), 0)) == (
        st2,
        t2,
        Ok::<(), MachineError>(()),
    ));
    assert(st2 == MachineState { channels: st.channels.insert(c, spent(rate)), ..st });
}

/// Two scoped pairs do not disturb one another. Where the list begins with
/// `!d; end`, `?d; end`, `!c; end`, `?c; end` on two different channels, as
/// two restrictions at one rate leave it, and the store has for each of the
/// two the one pair that can react: the reaction on `c` leaves the record
/// of `d` and the two summations on `d` as they are, and the reaction on
/// `d` leaves the record of `c` and the two summations on `c` as they are.
pub proof fn lemma_scoped_pairs_react(
    st: MachineState,
    c: Seq<char>,
    d: Seq<char>,
    rate: Decimal,
    list: Seq<SummView>,
    depth: nat,
)
    requires
        depth > 0,
        c != d,
        st.channels.contains_key(c),
        st.channels.contains_key(d),
        st.channels[c] == one_pair(rate),
        st.channels[d] == one_pair(rate),
    ensures
        fire_spec(
            st,
            TermView::SummList(
                seq![
                    lone(ActView::Output(d)),
                    lone(ActView::Input(d)),
                    lone(ActView::Output(c)),
                    lone(ActView::Input(c)),
                ] + list,
            ),
            depth,
            c,
            0,
            0,
        ) == (
            MachineState { channels: st.channels.insert(c, spent(rate)), ..st },
            TermView::SummList(seq![lone(ActView::Output(d)), lone(ActView::Input(d))] + list),
            Ok::<(), MachineError>(()),
        ),
        st.channels.insert(c, spent(rate))[d] == one_pair(rate),
        fire_spec(
            st,
            TermView::SummList(
                seq![
                    lone(ActView::Output(d)),
                    lone(ActView::Input(d)),
                    lone(ActView::Output(c)),
                    lone(ActView::Input(c)),
                ] + list,
            ),
            depth,
            d,
            0,
            0,
        ) == (
            MachineState { channels: st.channels.insert(d, spent(rate)), ..st },
            TermView::SummList(seq![lone(ActView::Output(c)), lone(ActView::Input(c))] + list),
            Ok::<(), MachineError>(()),
        ),
        st.channels.insert(d, spent(rate))[c] == one_pair(rate),
{
    let all = seq![
        lone(ActView::Output(d)),
        lone(ActView::Input(d)),
        lone(ActView::Output(c)),
        lone(ActView::Input(c)),
    ] + list;
    let on_d = seq![lone(ActView::Output(d)), lone(ActView::Input(d))];
    let on_c = seq![lone(ActView::Output(c)), lone(ActView::Input(c))];
    let none = Seq::<SummView>::empty();
    // the pair on `c` stands behind the pair on `d`
    let outs = seq![(ActView::Output(d), ProcessView::Termination)];
    let ins = seq![(ActView::Input(d), ProcessView::Termination)];
    lemma_lone_counts(outs, ActView::Output(d), d);
    lemma_lone_counts(ins, ActView::Input(d), d);
    assert(outs.drop_last() =~= Seq::<(ActView, ProcessView)>::empty());
    assert(ins.drop_last() =~= Seq::<(ActView, ProcessView)>::empty());
    assert(guards(outs.drop_last(), ActView::Input(c)) == 0);
    assert(guards(outs.drop_last(), ActView::Output(c)) == 0);
    assert(guards(ins.drop_last(), ActView::Input(c)) == 0);
    assert(guards(ins.drop_last(), ActView::Output(c)) == 0);
    assert(guards(outs, ActView::Input(c)) == 0);
    assert(guards(outs, ActView::Output(c)) == 0);
    assert(guards(ins, ActView::Input(c)) == 0);
    assert(guards(ins, ActView::Output(c)) == 0);
    assert(on_d.drop_last() =~= seq![lone(ActView::Output(d))]);
    assert(on_d.drop_last().drop_last() =~= none);
    assert(pending(on_d.drop_last().drop_last(), ActView::Input(c)) == 0);
    assert(pending(on_d.drop_last().drop_last(), ActView::Output(c)) == 0);
    assert(pending(on_d.drop_last(), ActView::Input(c)) == 0);
    assert(pending(on_d.drop_last(), ActView::Output(c)) == 0);
    assert(pending(on_d, ActView::Input(c)) == 0);
    assert(pending(on_d, ActView::Output(c)) == 0);
    assert(around_pair(on_d, c, list) =~= all);
    lemma_pair_reacts(st, c, rate, on_d, list, depth);
    // the pair on `d` stands first
    assert(pending(none, ActView::Input(d)) == 0);
    assert(pending(none, ActView::Output(d)) == 0);
    assert(around_pair(none, d, on_c + list) =~= all);
    assert(none + (on_c + list) =~= on_c + list);
    lemma_pair_reacts(st, d, rate, none, on_c + list, depth);
}

/// The counts of a summation of one guard: one on its channel, by its kind.
proof fn lemma_lone_counts(bs: Seq<(ActView, ProcessView)>, a: ActView, c: Seq<char>)
    requires
        bs == seq![(a, ProcessView::Termination)],
        channel_of(a) == c,
    ensures
        tallies(bs).dom() == set![c],
        tallies(bs)[c].inputs == (if a is Input { 1int } else { 0int }),
        tallies(bs)[c].outputs == (if a is Output { 1int } else { 0int }),
        tallies(bs)[c].mixed == 0,
{
    assert(bs.drop_last() =~= Seq::<(ActView, ProcessView)>::empty());
    assert(guards(bs, ActView::Input(c)) == (if a is Input { 1nat } else { 0nat })) by {
        assert(guards(bs.drop_last(), ActView::Input(c)) == 0);
    }
    assert(guards(bs, ActView::Output(c)) == (if a is Output { 1nat } else { 0nat })) by {
        assert(guards(bs.drop_last(), ActView::Output(c)) == 0);
    }
    assert(1 * 0 == 0) by (nonlinear_arith);
    assert(0 * 1 == 0) by (nonlinear_arith);
    assert forall|d: Seq<char>| tallies(bs).dom().contains(d) <==> d == c by {
        if d == c {
            assert(channel_of(bs[0].0) == c);
        }
    }
    assert(tallies(bs).dom() =~= set![c]);
}

} // verus!
