//! The machine term: a prefix of restrictions around a list of summations.
use crate::ast::{
    branches_view, channel_of, clone_branches, lemma_branches_view, Act, ActView, Process,
    ProcessView,
};
use crate::names::Table;
use crate::values::Decimal;
use vstd::prelude::*;

verus! {

/// How often one channel is waited on in one summation.
#[derive(Clone, Copy, Debug, PartialEq, Eq, Structural)]
pub struct Tally {
    /// The number of inputs on the channel.
    pub inputs: usize,
    /// The number of outputs on the channel.
    pub outputs: usize,
    /// The product of the two: the pairs that cannot react, as both stand in
    /// one choice.
    pub mixed: u128,
}

/// A summation of the machine term: the name of the definition that it
/// unfolded from, if any, and its guarded processes.
#[derive(Debug)]
pub struct Summ(pub Option<String>, pub Vec<(Act, Process)>);

/// What a [`Summ`] is, with names as sequences of characters.
pub ghost struct SummView {
    pub origin: Option<Seq<char>>,
    pub branches: Seq<(ActView, ProcessView)>,
}

impl View for Summ {
    type V = SummView;

    open spec fn view(&self) -> SummView {
        SummView {
            origin: match self.0 {
                Some(n) => Some(n@),
                None => None,
            },
            branches: branches_view(self.1@),
        }
    }
}

/// The state of the machine: restrictions on top, a list of summations below.
#[derive(Debug)]
pub enum MachineTerm {
    TopRestriction(String, Decimal, Box<MachineTerm>),
    SummList(Vec<Summ>),
}

/// What a [`MachineTerm`] is, with names as sequences of characters.
pub ghost enum TermView {
    TopRestriction(Seq<char>, Decimal, Box<TermView>),
    SummList(Seq<SummView>),
}

impl View for MachineTerm {
    type V = TermView;

    open spec fn view(&self) -> TermView
        decreases self,
    {
        match self {
            MachineTerm::TopRestriction(c, r, inner) => TermView::TopRestriction(
                c@,
                *r,
                Box::new((**inner)@),
            ),
            MachineTerm::SummList(cells) => TermView::SummList(summs_view(cells@)),
        }
    }
}

/// The summations of a list, one by one.
pub open spec fn summs_view(cells: Seq<Summ>) -> Seq<SummView> {
    Seq::new(cells.len(), |k: int| cells[k]@)
}

/// The number of guards of `bs` that are the action `a`.
pub open spec fn guards(bs: Seq<(ActView, ProcessView)>, a: ActView) -> nat
    decreases bs.len(),
{
    if bs.len() == 0 {
        0
    } else {
        guards(bs.drop_last(), a) + if bs.last().0 == a {
            1nat
        } else {
            0nat
        }
    }
}

/// Whether some guard of `bs` is on channel `c`.
pub open spec fn mentions(bs: Seq<(ActView, ProcessView)>, c: Seq<char>) -> bool {
    exists|k: int| 0 <= k < bs.len() && channel_of(#[trigger] bs[k].0) == c
}

/// The number of guards that are the action `a`, over all summations of `cells`.
pub open spec fn pending(cells: Seq<SummView>, a: ActView) -> nat
    decreases cells.len(),
{
    if cells.len() == 0 {
        0
    } else {
        pending(cells.drop_last(), a) + guards(cells.last().branches, a)
    }
}

/// The number of pairs of an input and an output on channel `c` that stand in
/// one and the same summation of `cells`.
pub open spec fn mixed(cells: Seq<SummView>, c: Seq<char>) -> nat
    decreases cells.len(),
{
    if cells.len() == 0 {
        0
    } else {
        mixed(cells.drop_last(), c) + guards(cells.last().branches, ActView::Input(c)) * guards(
            cells.last().branches,
            ActView::Output(c),
        )
    }
}

/// The restrictions on top of a term, from the outermost in.
pub open spec fn prefix(t: TermView) -> Seq<(Seq<char>, Decimal)>
    decreases t,
{
    match t {
        TermView::TopRestriction(c, r, inner) => seq![(c, r)] + prefix(*inner),
        TermView::SummList(_) => Seq::empty(),
    }
}

/// The summations below the restrictions of a term.
pub open spec fn cells(t: TermView) -> Seq<SummView>
    decreases t,
{
    match t {
        TermView::TopRestriction(_, _, inner) => cells(*inner),
        TermView::SummList(list) => list,
    }
}

/// The term that has the restrictions `pre` on top of the summations `list`.
pub open spec fn wrap(pre: Seq<(Seq<char>, Decimal)>, list: Seq<SummView>) -> TermView
    decreases pre.len(),
{
    if pre.len() == 0 {
        TermView::SummList(list)
    } else {
        TermView::TopRestriction(pre[0].0, pre[0].1, Box::new(wrap(pre.skip(1), list)))
    }
}

/// Every term is in top normal form: it is its restrictions wrapped around
/// its list of summations, and nothing else.
pub proof fn lemma_top_normal_form(t: TermView)
    ensures
        t == wrap(prefix(t), cells(t)),
    decreases t,
{
    match t {
        TermView::TopRestriction(c, r, inner) => {
            lemma_top_normal_form(*inner);
            assert(prefix(t).skip(1) =~= prefix(*inner));
        },
        TermView::SummList(_) => {},
    }
}

/// The guards of a list count those of its parts.
pub proof fn lemma_guards_bound(bs: Seq<(ActView, ProcessView)>, c: Seq<char>)
    ensures
        guards(bs, ActView::Input(c)) + guards(bs, ActView::Output(c)) <= bs.len(),
        !mentions(bs, c) ==> guards(bs, ActView::Input(c)) == 0 && guards(
            bs,
            ActView::Output(c),
        ) == 0,
    decreases bs.len(),
{
    if bs.len() > 0 {
        lemma_guards_bound(bs.drop_last(), c);
        if !mentions(bs, c) {
            assert(channel_of(bs[bs.len() - 1].0) != c);
            assert forall|k: int| 0 <= k < bs.drop_last().len() implies channel_of(
                #[trigger] bs.drop_last()[k].0,
            ) != c by {
                assert(channel_of(bs[k].0) != c);
            }
        }
    }
}

/// For each channel that a guard of `bs` is on: the number of inputs on it, of
/// outputs on it, and the product of the two.
pub open spec fn tallies(bs: Seq<(ActView, ProcessView)>) -> Map<Seq<char>, Tally> {
    Map::new(
        |c: Seq<char>| mentions(bs, c),
        |c: Seq<char>|
            Tally {
                inputs: guards(bs, ActView::Input(c)) as usize,
                outputs: guards(bs, ActView::Output(c)) as usize,
                mixed: (guards(bs, ActView::Input(c)) * guards(bs, ActView::Output(c))) as u128,
            },
    )
}

/// Whether two actions are the same.
pub fn same_act(a: &Act, b: &Act) -> (r: bool)
    ensures
        r == (a@ == b@),
{
    match (a, b) {
        (Act::Input(x), Act::Input(y)) => *x == *y,
        (Act::Output(x), Act::Output(y)) => *x == *y,
        _ => false,
    }
}

impl Clone for Summ {
    fn clone(&self) -> (r: Summ)
        ensures
            r@ == self@,
    {
        let origin = match &self.0 {
            Some(n) => Some(n.clone()),
            None => None,
        };
        Summ(origin, clone_branches(&self.1))
    }
}

impl Summ {
    /// A summation that unfolded from the definition `origin`, or from none.
    pub fn new(origin: Option<String>, s: Vec<(Act, Process)>) -> (r: Summ)
        ensures
            r == Summ(origin, s),
    {
        Summ(origin, s)
    }

    /// The guarded process at place `i`.
    pub fn index(&self, i: usize) -> (r: (Act, Process))
        requires
            i < self@.branches.len(),
        ensures
            (r.0@, r.1@) == self@.branches[i as int],
    {
        proof {
            lemma_branches_view(self.1@);
        }
        (self.1[i].0.clone(), self.1[i].1.clone())
    }

    /// How often the channel `c` is waited on in this summation.
    fn count(&self, c: &String) -> (t: Tally)
        ensures
            t.inputs == guards(self@.branches, ActView::Input(c@)),
            t.outputs == guards(self@.branches, ActView::Output(c@)),
            t.mixed == t.inputs * t.outputs,
    {
        let ghost bs = self@.branches;
        proof {
            lemma_branches_view(self.1@);
            assert(bs.take(0) =~= Seq::<(ActView, ProcessView)>::empty());
        }
        let mut inputs: usize = 0;
        let mut outputs: usize = 0;
        let mut k: usize = 0;
        while k < self.1.len()
            invariant
                k <= self.1.len(),
                bs == self@.branches,
                bs.len() == self.1.len(),
                forall|j: int| 0 <= j < bs.len() ==> (#[trigger] bs[j]).0 == self.1[j].0@,
                inputs == guards(bs.take(k as int), ActView::Input(c@)),
                outputs == guards(bs.take(k as int), ActView::Output(c@)),
                inputs + outputs <= k,
            decreases self.1.len() - k,
        {
            proof {
                assert(bs.take(k + 1).drop_last() =~= bs.take(k as int));
                assert(bs.take(k + 1).last() == bs[k as int]);
            }
            match &self.1[k].0 {
                Act::Input(x) => {
                    if *x == *c {
                        inputs += 1;
                    }
                },
                Act::Output(x) => {
                    if *x == *c {
                        outputs += 1;
                    }
                },
            }
            k += 1;
        }
        proof {
            assert(bs.take(k as int) =~= bs);
            assert(inputs * outputs <= 0xffff_ffff_ffff_ffff * 0xffff_ffff_ffff_ffff)
                by (nonlinear_arith)
                requires
                    inputs <= 0xffff_ffff_ffff_ffff,
                    outputs <= 0xffff_ffff_ffff_ffff,
            ;
        }
        Tally { inputs, outputs, mixed: (inputs as u128) * (outputs as u128) }
    }

    /// For each channel that a guard of this summation is on: the number of
    /// its inputs on the channel, of its outputs, and the product of the two.
    pub fn get_act_counts(&self) -> (counts: Table<Tally>)
        ensures
            counts.wf(),
            counts@ == tallies(self@.branches),
    {
        let ghost bs = self@.branches;
        proof {
            lemma_branches_view(self.1@);
        }
        let mut counts: Table<Tally> = Table::new();
        let mut k: usize = 0;
        while k < self.1.len()
            invariant
                k <= self.1.len(),
                bs == self@.branches,
                bs.len() == self.1.len(),
                forall|j: int| 0 <= j < bs.len() ==> (#[trigger] bs[j]).0 == self.1[j].0@,
                counts.wf(),
                forall|c: Seq<char>|
                    counts@.contains_key(c) <==> exists|j: int|
                        0 <= j < k && channel_of(#[trigger] bs[j].0) == c,
                forall|c: Seq<char>| #[trigger]
                    counts@.contains_key(c) ==> {
                        &&& counts@[c].inputs == guards(bs, ActView::Input(c))
                        &&& counts@[c].outputs == guards(bs, ActView::Output(c))
                        &&& counts@[c].mixed == counts@[c].inputs * counts@[c].outputs
                    },
            decreases self.1.len() - k,
        {
            let c = self.1[k].0.channel();
            let ghost before = counts@;
            if !counts.contains(c) {
                let t = self.count(c);
                counts.insert(c.clone(), t);
            }
            proof {
                assert(counts@.contains_key(c@));
                assert(channel_of(bs[k as int].0) == c@);
                assert forall|d: Seq<char>| counts@.contains_key(d) <==> exists|j: int|
                    0 <= j < k + 1 && channel_of(#[trigger] bs[j].0) == d by {
                    if counts@.contains_key(d) && d != c@ {
                        assert(before.contains_key(d));
                        let j = choose|j: int| 0 <= j < k && channel_of(#[trigger] bs[j].0) == d;
                        assert(0 <= j < k + 1 && channel_of(bs[j].0) == d);
                    }
                    if exists|j: int| 0 <= j < k + 1 && channel_of(#[trigger] bs[j].0) == d {
                        let j = choose|j: int|
                            0 <= j < k + 1 && channel_of(#[trigger] bs[j].0) == d;
                        if j < k {
                            assert(before.contains_key(d));
                        }
                    }
                }
            }
            k += 1;
        }
        proof {
            assert forall|c: Seq<char>| counts@.contains_key(c) implies counts@[c] == tallies(
                bs,
            )[c] by {
                lemma_guards_bound(bs, c);
            }
            assert(counts@ =~= tallies(bs));
        }
        counts
    }
}

/// Whether the guard at place `j` of the summation at place `i` is the action
/// `a` and has exactly `k` such guards before it, summations taken in the
/// order of the list and guards in the order of their summation.
pub open spec fn found_at(list: Seq<SummView>, a: ActView, k: nat, i: int, j: int) -> bool {
    &&& 0 <= i < list.len()
    &&& 0 <= j < list[i].branches.len()
    &&& list[i].branches[j].0 == a
    &&& pending(list.take(i), a) + guards(list[i].branches.take(j), a) == k
}

/// The guards of the first summations are among the guards of all.
pub proof fn lemma_pending_take(list: Seq<SummView>, a: ActView, i: int)
    requires
        0 <= i <= list.len(),
    ensures
        pending(list.take(i), a) <= pending(list, a),
        i < list.len() ==> pending(list.take(i), a) + guards(list[i].branches, a) <= pending(
            list,
            a,
        ),
    decreases list.len() - i,
{
    if i < list.len() {
        assert(list.take(i + 1).drop_last() =~= list.take(i));
        lemma_pending_take(list, a, i + 1);
    } else {
        assert(list.take(i) =~= list);
    }
}

/// The guards among the first of a summation are among its guards, and one
/// more where the next guard is the action.
pub proof fn lemma_guards_take(bs: Seq<(ActView, ProcessView)>, a: ActView, j: int)
    requires
        0 <= j <= bs.len(),
    ensures
        guards(bs.take(j), a) <= guards(bs, a),
        j < bs.len() && bs[j].0 == a ==> guards(bs.take(j), a) < guards(bs, a),
    decreases bs.len() - j,
{
    if j < bs.len() {
        assert(bs.take(j + 1).drop_last() =~= bs.take(j));
        lemma_guards_take(bs, a, j + 1);
    } else {
        assert(bs.take(j) =~= bs);
    }
}

/// A guard can be found only where the list has more guards than were to be
/// passed over.
pub proof fn lemma_found_at_pending(list: Seq<SummView>, a: ActView, k: nat, i: int, j: int)
    requires
        found_at(list, a, k, i, j),
    ensures
        k < pending(list, a),
{
    lemma_pending_take(list, a, i);
    lemma_guards_take(list[i].branches, a, j);
}

/// The guards before a later place are at least those before an earlier one,
/// and more where the guard at the earlier place is the action.
proof fn lemma_guards_before(bs: Seq<(ActView, ProcessView)>, a: ActView, j: int, k: int)
    requires
        0 <= j < k <= bs.len(),
    ensures
        guards(bs.take(j), a) <= guards(bs.take(k), a),
        bs[j].0 == a ==> guards(bs.take(j), a) < guards(bs.take(k), a),
{
    assert(bs.take(k).take(j) =~= bs.take(j));
    lemma_guards_take(bs.take(k), a, j);
}

/// No two places hold the guard that has so many guards before it.
pub proof fn lemma_found_at_unique(
    list: Seq<SummView>,
    a: ActView,
    k: nat,
    i: int,
    j: int,
    i2: int,
    j2: int,
)
    requires
        found_at(list, a, k, i, j),
        found_at(list, a, k, i2, j2),
    ensures
        i == i2,
        j == j2,
{
    if i < i2 {
        assert(list.take(i2).take(i) =~= list.take(i));
        lemma_pending_take(list.take(i2), a, i);
        lemma_guards_take(list[i].branches, a, j);
    } else if i2 < i {
        assert(list.take(i).take(i2) =~= list.take(i2));
        lemma_pending_take(list.take(i), a, i2);
        lemma_guards_take(list[i2].branches, a, j2);
    } else if j < j2 {
        lemma_guards_before(list[i].branches, a, j, j2);
    } else if j2 < j {
        lemma_guards_before(list[i].branches, a, j2, j);
    }
}

impl Clone for MachineTerm {
    fn clone(&self) -> (r: MachineTerm)
        ensures
            r@ == self@,
        decreases self,
    {
        match self {
            MachineTerm::TopRestriction(c, r, inner) => MachineTerm::TopRestriction(
                c.clone(),
                *r,
                Box::new((**inner).clone()),
            ),
            MachineTerm::SummList(list) => {
                let mut out: Vec<Summ> = Vec::new();
                let mut k: usize = 0;
                while k < list.len()
                    invariant
                        k <= list.len(),
                        out.len() == k,
                        forall|j: int| 0 <= j < k ==> out[j]@ == list[j]@,
                    decreases list.len() - k,
                {
                    out.push(list[k].clone());
                    k += 1;
                }
                assert(summs_view(out@) =~= summs_view(list@));
                MachineTerm::SummList(out)
            },
        }
    }
}

impl MachineTerm {
    /// The term with no restriction and no summation.
    pub fn empty() -> (t: MachineTerm)
        ensures
            t@ == TermView::SummList(Seq::empty()),
    {
        let t = MachineTerm::SummList(Vec::new());
        assert(summs_view(Seq::<Summ>::empty()) =~= Seq::<SummView>::empty());
        t
    }

    /// Whether the term is a list of summations, with no restriction on top.
    pub fn is_summlist(&self) -> (b: bool)
        ensures
            b == (self@ is SummList),
    {
        match self {
            MachineTerm::TopRestriction(_, _, _) => false,
            MachineTerm::SummList(_) => true,
        }
    }

    /// Whether the term has a restriction on top.
    pub fn is_restr(&self) -> (b: bool)
        ensures
            b == (self@ is TopRestriction),
    {
        match self {
            MachineTerm::TopRestriction(_, _, _) => true,
            MachineTerm::SummList(_) => false,
        }
    }

    /// Finds the guard that is the action `elem` and has `count` such guards
    /// before it: the place of its summation in the list, and its place in
    /// that summation. Summations are walked in the order of the list, the
    /// guards of each in their order. `None` where the term has a restriction
    /// on top, or no more than `count` such guards.
    pub fn seek(&self, elem: Act, count: usize) -> (r: Option<(usize, usize)>)
        ensures
            match r {
                Some((i, j)) => self@ is SummList && found_at(
                    cells(self@),
                    elem@,
                    count as nat,
                    i as int,
                    j as int,
                ),
                None => self@ is TopRestriction || pending(cells(self@), elem@) <= count,
            },
    {
        match self {
            MachineTerm::TopRestriction(_, _, _) => None,
            MachineTerm::SummList(list) => {
                let ghost all = cells(self@);
                let ghost a = elem@;
                let mut c: usize = count;
                let mut i: usize = 0;
                proof {
                    assert(all.take(0) =~= Seq::<SummView>::empty());
                }
                while i < list.len()
                    invariant
                        i <= list.len(),
                        self@ is SummList,
                        all == cells(self@),
                        all == summs_view(list@),
                        a == elem@,
                        c + pending(all.take(i as int), a) == count,
                    decreases list.len() - i,
                {
                    let cell = &list[i];
                    let ghost bs = cell@.branches;
                    let mut j: usize = 0;
                    proof {
                        lemma_branches_view(cell.1@);
                        assert(bs.take(0) =~= Seq::<(ActView, ProcessView)>::empty());
                        assert(all[i as int] == cell@);
                    }
                    while j < cell.1.len()
                        invariant
                            j <= cell.1.len(),
                            i < list.len(),
                            self@ is SummList,
                            all == cells(self@),
                            all == summs_view(list@),
                            all[i as int] == cell@,
                            a == elem@,
                            bs == cell@.branches,
                            bs.len() == cell.1.len(),
                            forall|k: int|
                                0 <= k < bs.len() ==> (#[trigger] bs[k]).0 == cell.1[k].0@,
                            c + pending(all.take(i as int), a) + guards(bs.take(j as int), a)
                                == count,
                        decreases cell.1.len() - j,
                    {
                        proof {
                            assert(bs.take(j + 1).drop_last() =~= bs.take(j as int));
                            assert(bs.take(j + 1).last() == bs[j as int]);
                        }
                        if same_act(&cell.1[j].0, &elem) {
                            if c == 0 {
                                return Some((i, j));
                            } else {
                                c -= 1;
                            }
                        }
                        j += 1;
                    }
                    proof {
                        assert(bs.take(j as int) =~= bs);
                        assert(all.take(i + 1).drop_last() =~= all.take(i as int));
                        assert(all.take(i + 1).last() == all[i as int]);
                    }
                    i += 1;
                }
                proof {
                    assert(all.take(i as int) =~= all);
                }
                None
            },
        }
    }

    /// The channel of the restriction on top, and its rate.
    pub fn take_chan(&self) -> (r: (String, Decimal))
        requires
            self@ is TopRestriction,
        ensures
            r.0@ == self@->TopRestriction_0,
            r.1 == self@->TopRestriction_1,
    {
        match self {
            MachineTerm::TopRestriction(n, r, _) => (n.clone(), *r),
            MachineTerm::SummList(_) => unreached(),
        }
    }

    /// The term below the restriction on top.
    pub fn take_inner(&self) -> (r: MachineTerm)
        requires
            self@ is TopRestriction,
        ensures
            r@ == *self@->TopRestriction_2,
    {
        match self {
            MachineTerm::TopRestriction(_, _, t) => (**t).clone(),
            MachineTerm::SummList(_) => unreached(),
        }
    }

    /// Takes the summation at place `i` out of the list.
    pub fn take_summ(&mut self, i: usize) -> (r: Summ)
        requires
            old(self)@ is SummList,
            i < cells(old(self)@).len(),
        ensures
            r@ == cells(old(self)@)[i as int],
            final(self)@ == TermView::SummList(cells(old(self)@).remove(i as int)),
    {
        match self {
            MachineTerm::TopRestriction(_, _, _) => unreached(),
            MachineTerm::SummList(list) => {
                let r = list.remove(i);
                proof {
                    assert(summs_view(list@) =~= cells(old(self)@).remove(i as int));
                }
                r
            },
        }
    }
}

} // verus!
