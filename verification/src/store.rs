//! The store: channels with their activity, definitions, and instance counts.
use crate::ast::{Process, ProcessView};
use crate::machineterm::Tally;
use crate::names::{before, lemma_before_irreflexive, lemma_before_transitive, Table};
use crate::values::{patterns_view, Decimal, Pattern, PatternView};
use vstd::prelude::*;
use vstd::string::*;

verus! {

/// What the store keeps of a channel.
#[derive(Clone, Copy, Debug, PartialEq, Eq, Structural)]
pub struct ChannelRecord {
    /// The kinetic rate of the channel.
    pub rate: Decimal,
    /// The number of pending inputs on the channel.
    pub incount: usize,
    /// The number of pending outputs on the channel.
    pub outcount: usize,
    /// The number of pairs of an input and an output that stand in one summation.
    pub mixcount: u128,
    /// The number of pairs of an input and an output that can react:
    /// `incount * outcount - mixcount`.
    pub ax: u128,
}

impl ChannelRecord {
    /// The activity is what the three counts make it, and is not negative.
    pub open spec fn balanced(&self) -> bool {
        &&& self.mixcount <= self.incount * self.outcount
        &&& self.ax == self.incount * self.outcount - self.mixcount
    }
}

/// A process definition: its formal parameters and its body.
#[derive(Debug)]
pub struct Definition {
    pub formals: Vec<Pattern>,
    pub body: Process,
}

/// What a [`Definition`] is, with names as sequences of characters.
pub ghost struct DefinitionView {
    pub formals: Seq<PatternView>,
    pub body: ProcessView,
}

impl View for Definition {
    type V = DefinitionView;

    open spec fn view(&self) -> DefinitionView {
        DefinitionView { formals: patterns_view(self.formals@), body: self.body@ }
    }
}

/// Why the store refused a change.
#[derive(Clone, Copy, Debug, PartialEq, Eq, Structural)]
pub enum StoreError {
    /// A count was to change for a channel that the store does not have.
    UnknownChannel,
    /// A count would leave its range: above the largest number, below zero, or
    /// more mixed pairs than pairs.
    OutOfRange,
}

/// A channel that can fire: its name, the number of pairs that can react on
/// it, and its rate.
#[derive(Debug)]
pub struct Activity {
    pub channel: String,
    pub ax: u128,
    pub rate: Decimal,
}

/// What an [`Activity`] is, with the name as a sequence of characters.
pub ghost struct ActivityView {
    pub channel: Seq<char>,
    pub ax: u128,
    pub rate: Decimal,
}

impl View for Activity {
    type V = ActivityView;

    open spec fn view(&self) -> ActivityView {
        ActivityView { channel: self.channel@, ax: self.ax, rate: self.rate }
    }
}

/// The activities of a list, one by one.
pub open spec fn activities_view(v: Seq<Activity>) -> Seq<ActivityView> {
    Seq::new(v.len(), |k: int| v[k]@)
}

/// The channels among `names` that can fire, in the order of `names`.
pub open spec fn active(names: Seq<Seq<char>>, chans: Map<Seq<char>, ChannelRecord>) -> Seq<
    ActivityView,
>
    decreases names.len(),
{
    if names.len() == 0 {
        Seq::empty()
    } else {
        let rest = active(names.drop_last(), chans);
        let r = chans[names.last()];
        if r.ax > 0 {
            rest.push(ActivityView { channel: names.last(), ax: r.ax, rate: r.rate })
        } else {
            rest
        }
    }
}

/// Every channel that can fire is one of `chans`, with its activity, which is
/// not zero, and its rate.
pub proof fn lemma_active(names: Seq<Seq<char>>, chans: Map<Seq<char>, ChannelRecord>, i: int)
    requires
        0 <= i < active(names, chans).len(),
        forall|k: int| 0 <= k < names.len() ==> chans.contains_key(#[trigger] names[k]),
    ensures
        chans.contains_key(active(names, chans)[i].channel),
        chans[active(names, chans)[i].channel].ax == active(names, chans)[i].ax,
        chans[active(names, chans)[i].channel].rate == active(names, chans)[i].rate,
        active(names, chans)[i].ax > 0,
    decreases names.len(),
{
    if names.len() > 0 {
        let rest = active(names.drop_last(), chans);
        assert(chans.contains_key(names[names.len() - 1]));
        if i < rest.len() {
            assert forall|k: int| 0 <= k < names.drop_last().len() implies chans.contains_key(
                #[trigger] names.drop_last()[k],
            ) by {
                assert(names.drop_last()[k] == names[k]);
            }
            lemma_active(names.drop_last(), chans, i);
        }
    }
}

/// A channel among `names` that has an activity is one of those that can fire.
pub proof fn lemma_active_has(
    names: Seq<Seq<char>>,
    chans: Map<Seq<char>, ChannelRecord>,
    k: int,
) -> (i: int)
    requires
        0 <= k < names.len(),
        chans[names[k]].ax > 0,
    ensures
        0 <= i < active(names, chans).len(),
        active(names, chans)[i] == (ActivityView {
            channel: names[k],
            ax: chans[names[k]].ax,
            rate: chans[names[k]].rate,
        }),
    decreases names.len(),
{
    let rest = active(names.drop_last(), chans);
    if k == names.len() - 1 {
        rest.len() as int
    } else {
        assert(names.drop_last()[k] == names[k]);
        lemma_active_has(names.drop_last(), chans, k)
    }
}

/// The channels that can fire stand in the order of `names`: each is one of
/// `names`, and one that stands before another among them stands before it
/// among `names`. So none is listed twice where no name is.
pub proof fn lemma_active_order(
    names: Seq<Seq<char>>,
    chans: Map<Seq<char>, ChannelRecord>,
    i: int,
    j: int,
) -> (at: (int, int))
    requires
        0 <= i < j < active(names, chans).len(),
    ensures
        0 <= at.0 < at.1 < names.len(),
        names[at.0] == active(names, chans)[i].channel,
        names[at.1] == active(names, chans)[j].channel,
    decreases names.len(),
{
    let front = names.drop_last();
    let rest = active(front, chans);
    if j < rest.len() {
        let at = lemma_active_order(front, chans, i, j);
        assert(front[at.0] == names[at.0] && front[at.1] == names[at.1]);
        at
    } else {
        let k = lemma_active_place(front, chans, i);
        assert(front[k] == names[k]);
        (k, names.len() - 1)
    }
}

/// Every channel that can fire is one of `names`.
pub proof fn lemma_active_place(
    names: Seq<Seq<char>>,
    chans: Map<Seq<char>, ChannelRecord>,
    i: int,
) -> (k: int)
    requires
        0 <= i < active(names, chans).len(),
    ensures
        0 <= k < names.len(),
        names[k] == active(names, chans)[i].channel,
    decreases names.len(),
{
    let front = names.drop_last();
    let rest = active(front, chans);
    if i < rest.len() {
        let k = lemma_active_place(front, chans, i);
        assert(front[k] == names[k]);
        k
    } else {
        names.len() - 1
    }
}

/// Where every channel among `names` has an activity, every one of them can
/// fire: they are listed one for one, each with its activity and its rate.
pub proof fn lemma_active_all(names: Seq<Seq<char>>, chans: Map<Seq<char>, ChannelRecord>)
    requires
        forall|k: int| 0 <= k < names.len() ==> chans[#[trigger] names[k]].ax > 0,
    ensures
        active(names, chans).len() == names.len(),
        forall|k: int|
            0 <= k < names.len() ==> (#[trigger] active(names, chans)[k]) == (ActivityView {
                channel: names[k],
                ax: chans[names[k]].ax,
                rate: chans[names[k]].rate,
            }),
    decreases names.len(),
{
    if names.len() > 0 {
        let front = names.drop_last();
        assert forall|k: int| 0 <= k < front.len() implies chans[#[trigger] front[k]].ax > 0 by {
            assert(front[k] == names[k]);
        }
        lemma_active_all(front, chans);
        assert(chans[names[names.len() - 1]].ax > 0);
        assert forall|k: int| 0 <= k < names.len() implies (#[trigger] active(names, chans)[k])
            == (ActivityView {
            channel: names[k],
            ax: chans[names[k]].ax,
            rate: chans[names[k]].rate,
        }) by {
            if k < front.len() {
                assert(active(names, chans)[k] == active(front, chans)[k]);
                assert(front[k] == names[k]);
            }
        }
    }
}

/// The channels that can fire among two lists of names, one behind the
/// other, are those of the first and behind them those of the second.
pub proof fn lemma_active_joined(
    front: Seq<Seq<char>>,
    back: Seq<Seq<char>>,
    chans: Map<Seq<char>, ChannelRecord>,
)
    ensures
        active(front + back, chans) == active(front, chans) + active(back, chans),
    decreases back.len(),
{
    if back.len() == 0 {
        assert(front + back =~= front);
        assert(active(front, chans) + active(back, chans) =~= active(front, chans));
    } else {
        let all = front + back;
        assert(all.drop_last() =~= front + back.drop_last());
        assert(all.last() == back.last());
        lemma_active_joined(front, back.drop_last(), chans);
        let r = chans[back.last()];
        let entry = ActivityView { channel: back.last(), ax: r.ax, rate: r.rate };
        if r.ax > 0 {
            assert(active(all, chans) == active(all.drop_last(), chans).push(entry));
            assert(active(back, chans) == active(back.drop_last(), chans).push(entry));
            assert((active(front, chans) + active(back.drop_last(), chans)).push(entry) =~= active(
                front,
                chans,
            ) + active(back.drop_last(), chans).push(entry));
        } else {
            assert(active(all, chans) == active(all.drop_last(), chans));
            assert(active(back, chans) == active(back.drop_last(), chans));
        }
    }
}

/// Where no channel among `names` has an activity, none of them can fire.
pub proof fn lemma_active_idle(names: Seq<Seq<char>>, chans: Map<Seq<char>, ChannelRecord>)
    requires
        forall|k: int| 0 <= k < names.len() ==> chans[#[trigger] names[k]].ax == 0,
    ensures
        active(names, chans).len() == 0,
    decreases names.len(),
{
    if names.len() > 0 {
        let front = names.drop_last();
        assert forall|k: int| 0 <= k < front.len() implies chans[#[trigger] front[k]].ax == 0 by {
            assert(front[k] == names[k]);
        }
        lemma_active_idle(front, chans);
        assert(chans[names[names.len() - 1]].ax == 0);
    }
}

/// Where one channel among `names` has an activity and no other, it alone
/// can fire, with its activity and its rate.
pub proof fn lemma_active_one(names: Seq<Seq<char>>, chans: Map<Seq<char>, ChannelRecord>, k: int)
    requires
        0 <= k < names.len(),
        chans[names[k]].ax > 0,
        forall|j: int| 0 <= j < names.len() && j != k ==> chans[#[trigger] names[j]].ax == 0,
    ensures
        active(names, chans) == seq![
            ActivityView { channel: names[k], ax: chans[names[k]].ax, rate: chans[names[k]].rate },
        ],
{
    let front = names.take(k);
    let one = seq![names[k]];
    let back = names.skip(k + 1);
    assert(names =~= (front + one) + back);
    lemma_active_joined(front + one, back, chans);
    lemma_active_joined(front, one, chans);
    assert forall|j: int| 0 <= j < front.len() implies chans[#[trigger] front[j]].ax == 0 by {
        assert(front[j] == names[j]);
    }
    lemma_active_idle(front, chans);
    assert forall|j: int| 0 <= j < back.len() implies chans[#[trigger] back[j]].ax == 0 by {
        assert(back[j] == names[j + k + 1]);
    }
    lemma_active_idle(back, chans);
    assert(chans[one[0]].ax > 0);
    lemma_active_all(one, chans);
    assert(active(names, chans) =~= seq![
        ActivityView { channel: names[k], ax: chans[names[k]].ax, rate: chans[names[k]].rate },
    ]);
}

/// Where two channels among `names` have an activity and no other, those
/// two can fire and no other, in the order of `names`, each with its
/// activity and its rate.
pub proof fn lemma_active_two(
    names: Seq<Seq<char>>,
    chans: Map<Seq<char>, ChannelRecord>,
    k: int,
    l: int,
)
    requires
        0 <= k < l < names.len(),
        chans[names[k]].ax > 0,
        chans[names[l]].ax > 0,
        forall|j: int|
            0 <= j < names.len() && j != k && j != l ==> chans[#[trigger] names[j]].ax == 0,
    ensures
        active(names, chans) == seq![
            ActivityView { channel: names[k], ax: chans[names[k]].ax, rate: chans[names[k]].rate },
            ActivityView { channel: names[l], ax: chans[names[l]].ax, rate: chans[names[l]].rate },
        ],
{
    let front = names.take(l);
    let back = names.skip(l);
    assert(names =~= front + back);
    lemma_active_joined(front, back, chans);
    assert(front[k] == names[k]);
    assert forall|j: int| 0 <= j < front.len() && j != k implies chans[#[trigger] front[j]].ax
        == 0 by {
        assert(front[j] == names[j]);
    }
    lemma_active_one(front, chans, k);
    assert(back[0] == names[l]);
    assert forall|j: int| 0 <= j < back.len() && j != 0 implies chans[#[trigger] back[j]].ax
        == 0 by {
        assert(back[j] == names[j + l]);
    }
    lemma_active_one(back, chans, 0);
    assert(active(names, chans) =~= seq![
        ActivityView { channel: names[k], ax: chans[names[k]].ax, rate: chans[names[k]].rate },
        ActivityView { channel: names[l], ax: chans[names[l]].ax, rate: chans[names[l]].rate },
    ]);
}

/// Where no channel has an activity, no channel can fire.
pub proof fn lemma_active_none(names: Seq<Seq<char>>, chans: Map<Seq<char>, ChannelRecord>)
    requires
        forall|c: Seq<char>| activity(chans, c) == 0,
        forall|k: int| 0 <= k < names.len() ==> chans.contains_key(#[trigger] names[k]),
    ensures
        active(names, chans).len() == 0,
    decreases names.len(),
{
    if names.len() > 0 {
        assert(chans.contains_key(names[names.len() - 1]));
        assert(activity(chans, names.last()) == 0);
        assert forall|k: int| 0 <= k < names.drop_last().len() implies chans.contains_key(
            #[trigger] names.drop_last()[k],
        ) by {
            assert(names.drop_last()[k] == names[k]);
        }
        lemma_active_none(names.drop_last(), chans);
    }
}

/// The activity that `chans` has for channel `c`: none where it lacks `c`.
pub open spec fn activity(chans: Map<Seq<char>, ChannelRecord>, c: Seq<char>) -> nat {
    if chans.contains_key(c) {
        chans[c].ax as nat
    } else {
        0
    }
}

/// Whether no channel of `chans` has an activity: the sum of the
/// activities is zero.
pub open spec fn idle(chans: Map<Seq<char>, ChannelRecord>) -> bool {
    forall|c: Seq<char>| activity(chans, c) == 0
}

/// Whether the counts of `r` can go up by `t` (`up`) or down by `t`.
pub open spec fn can_shift(r: ChannelRecord, t: Tally, up: bool) -> bool {
    if up {
        &&& r.incount + t.inputs <= usize::MAX
        &&& r.outcount + t.outputs <= usize::MAX
        &&& r.mixcount + t.mixed <= (r.incount + t.inputs) * (r.outcount + t.outputs)
    } else {
        &&& t.inputs <= r.incount
        &&& t.outputs <= r.outcount
        &&& t.mixed <= r.mixcount
        &&& r.mixcount - t.mixed <= (r.incount - t.inputs) * (r.outcount - t.outputs)
    }
}

/// The record `r` with its counts up by `t` (`up`) or down by `t`, and its
/// activity made anew from them.
pub open spec fn shifted(r: ChannelRecord, t: Tally, up: bool) -> ChannelRecord {
    let incount = if up {
        r.incount + t.inputs
    } else {
        r.incount - t.inputs
    };
    let outcount = if up {
        r.outcount + t.outputs
    } else {
        r.outcount - t.outputs
    };
    let mixcount = if up {
        r.mixcount + t.mixed
    } else {
        r.mixcount - t.mixed
    };
    ChannelRecord {
        rate: r.rate,
        incount: incount as usize,
        outcount: outcount as usize,
        mixcount: mixcount as u128,
        ax: (incount * outcount - mixcount) as u128,
    }
}

/// The channels `chans` with the counts of each channel of `counts` shifted.
pub open spec fn shift_all(
    chans: Map<Seq<char>, ChannelRecord>,
    counts: Map<Seq<char>, Tally>,
    up: bool,
) -> Map<Seq<char>, ChannelRecord> {
    Map::new(
        |c: Seq<char>| chans.contains_key(c),
        |c: Seq<char>|
            if counts.contains_key(c) {
                shifted(chans[c], counts[c], up)
            } else {
                chans[c]
            },
    )
}

/// Whether `chans` has every channel of `counts`.
pub open spec fn all_known(
    chans: Map<Seq<char>, ChannelRecord>,
    counts: Map<Seq<char>, Tally>,
) -> bool {
    forall|c: Seq<char>| counts.contains_key(c) ==> chans.contains_key(c)
}

/// Whether the counts of every channel of `counts` can be shifted.
pub open spec fn all_fit(
    chans: Map<Seq<char>, ChannelRecord>,
    counts: Map<Seq<char>, Tally>,
    up: bool,
) -> bool {
    forall|c: Seq<char>|
        counts.contains_key(c) && chans.contains_key(c) ==> can_shift(chans[c], counts[c], up)
}

/// The largest product of two counts fits in 128 bits.
proof fn lemma_product_fits(a: int, b: int)
    requires
        0 <= a <= usize::MAX,
        0 <= b <= usize::MAX,
    ensures
        0 <= a * b <= u128::MAX,
{
    assert(0 <= a * b <= 0xffff_ffff_ffff_ffff * 0xffff_ffff_ffff_ffff) by (nonlinear_arith)
        requires
            0 <= a <= 0xffff_ffff_ffff_ffff,
            0 <= b <= 0xffff_ffff_ffff_ffff,
    ;
}

/// Checks whether the counts of a record can be shifted, and shifts them.
fn shift(r: &ChannelRecord, t: &Tally, up: bool) -> (res: Option<ChannelRecord>)
    requires
        r.balanced(),
    ensures
        res is Some <==> can_shift(*r, *t, up),
        res matches Some(s) ==> s == shifted(*r, *t, up) && s.balanced(),
{
    let incount: usize;
    let outcount: usize;
    let mixcount: u128;
    if up {
        incount = match r.incount.checked_add(t.inputs) {
            Some(n) => n,
            None => {
                return None;
            },
        };
        outcount = match r.outcount.checked_add(t.outputs) {
            Some(n) => n,
            None => {
                return None;
            },
        };
        proof {
            lemma_product_fits(incount as int, outcount as int);
        }
        mixcount = match r.mixcount.checked_add(t.mixed) {
            Some(n) => n,
            None => {
                return None;
            },
        };
    } else {
        if t.inputs > r.incount || t.outputs > r.outcount || t.mixed > r.mixcount {
            return None;
        }
        incount = r.incount - t.inputs;
        outcount = r.outcount - t.outputs;
        mixcount = r.mixcount - t.mixed;
    }
    proof {
        lemma_product_fits(incount as int, outcount as int);
    }
    let pairs: u128 = (incount as u128) * (outcount as u128);
    if mixcount > pairs {
        return None;
    }
    Some(ChannelRecord { rate: r.rate, incount, outcount, mixcount, ax: pairs - mixcount })
}

/// The store of the machine.
#[derive(Debug)]
pub struct Store {
    chans: Table<ChannelRecord>,
    defs: Table<Definition>,
    instance_counts: Table<usize>,
}

impl Store {
    /// The record of each channel.
    pub closed spec fn channels(&self) -> Map<Seq<char>, ChannelRecord> {
        self.chans@
    }

    /// The names of the channels, in dictionary order.
    pub closed spec fn channel_names(&self) -> Seq<Seq<char>> {
        self.chans.keys()
    }

    /// Each definition by its name.
    pub closed spec fn definitions(&self) -> Map<Seq<char>, DefinitionView> {
        Map::new(|name: Seq<char>| self.defs@.contains_key(name), |name: Seq<char>| self.defs@[name]@)
    }

    /// The number of live instances of each definition.
    pub closed spec fn instances(&self) -> Map<Seq<char>, usize> {
        self.instance_counts@
    }

    /// The names that have an instance count, in dictionary order.
    pub closed spec fn instance_names(&self) -> Seq<Seq<char>> {
        self.instance_counts.keys()
    }

    /// The tables are in order and every record is balanced.
    pub closed spec fn wf(&self) -> bool {
        &&& self.chans.wf()
        &&& self.defs.wf()
        &&& self.instance_counts.wf()
        &&& forall|c: Seq<char>| #[trigger]
            self.chans@.contains_key(c) ==> self.chans@[c].balanced()
    }

    /// The number of pending inputs on `c`; none where the store lacks `c`.
    pub open spec fn incount(&self, c: Seq<char>) -> nat {
        if self.channels().contains_key(c) {
            self.channels()[c].incount as nat
        } else {
            0
        }
    }

    /// The number of pending outputs on `c`; none where the store lacks `c`.
    pub open spec fn outcount(&self, c: Seq<char>) -> nat {
        if self.channels().contains_key(c) {
            self.channels()[c].outcount as nat
        } else {
            0
        }
    }

    /// The number of mixed pairs on `c`; none where the store lacks `c`.
    pub open spec fn mixcount(&self, c: Seq<char>) -> nat {
        if self.channels().contains_key(c) {
            self.channels()[c].mixcount as nat
        } else {
            0
        }
    }

    /// The activity of `c`; none where the store lacks `c`.
    pub open spec fn ax(&self, c: Seq<char>) -> nat {
        activity(self.channels(), c)
    }

    /// In a well-formed store no count is negative, and the activity of every
    /// channel is `incount * outcount - mixcount`.
    pub proof fn lemma_balanced(&self, c: Seq<char>)
        requires
            self.wf(),
        ensures
            self.incount(c) >= 0,
            self.outcount(c) >= 0,
            self.mixcount(c) >= 0,
            self.mixcount(c) <= self.incount(c) * self.outcount(c),
            self.ax(c) == self.incount(c) * self.outcount(c) - self.mixcount(c),
            self.ax(c) >= 0,
    {
        if self.chans@.contains_key(c) {
            assert(self.chans@[c].balanced());
        } else {
            assert(0 * 0 == 0) by (nonlinear_arith);
        }
    }

    /// The channels that can fire are the channels of the store that have
    /// an activity, each once and in dictionary order, each with its activity
    /// and its rate.
    pub proof fn lemma_activities(&self, c: Seq<char>)
        requires
            self.wf(),
        ensures
            (exists|i: int|
                0 <= i < active(self.channel_names(), self.channels()).len() && (#[trigger] active(
                    self.channel_names(),
                    self.channels(),
                )[i]).channel == c) <==> activity(self.channels(), c) > 0,
            forall|i: int|
                0 <= i < active(self.channel_names(), self.channels()).len() ==> {
                    let a = #[trigger] active(self.channel_names(), self.channels())[i];
                    &&& self.channels().contains_key(a.channel)
                    &&& a.ax == self.channels()[a.channel].ax
                    &&& a.rate == self.channels()[a.channel].rate
                    &&& a.ax > 0
                },
            forall|i: int, j: int|
                0 <= i < j < active(self.channel_names(), self.channels()).len() ==> before(
                    (#[trigger] active(self.channel_names(), self.channels())[i]).channel,
                    (#[trigger] active(self.channel_names(), self.channels())[j]).channel,
                ),
    {
        let names = self.channel_names();
        let chans = self.channels();
        let acts = active(names, chans);
        self.lemma_names();
        assert forall|k: int| 0 <= k < names.len() implies chans.contains_key(
            #[trigger] names[k],
        ) by {
            assert(names.contains(names[k]));
        }
        assert forall|i: int| 0 <= i < acts.len() implies {
            let a = #[trigger] acts[i];
            &&& chans.contains_key(a.channel)
            &&& a.ax == chans[a.channel].ax
            &&& a.rate == chans[a.channel].rate
            &&& a.ax > 0
        } by {
            lemma_active(names, chans, i);
        }
        assert forall|i: int, j: int| 0 <= i < j < acts.len() implies before(
            (#[trigger] acts[i]).channel,
            (#[trigger] acts[j]).channel,
        ) by {
            let at = lemma_active_order(names, chans, i, j);
            assert(before(names[at.0], names[at.1]));
        }
        if activity(chans, c) > 0 {
            assert(names.contains(c));
            let k = choose|k: int| 0 <= k < names.len() && names[k] == c;
            let i = lemma_active_has(names, chans, k);
            assert(acts[i].channel == c);
        }
        if exists|i: int| 0 <= i < acts.len() && (#[trigger] acts[i]).channel == c {
            let i = choose|i: int| 0 <= i < acts.len() && (#[trigger] acts[i]).channel == c;
            lemma_active(names, chans, i);
        }
    }

    /// Where one channel has an activity and no other, `activities` lists
    /// that channel alone, with its activity and its rate.
    pub proof fn lemma_one_active(&self, c: Seq<char>)
        requires
            self.wf(),
            activity(self.channels(), c) > 0,
            forall|x: Seq<char>| x != c ==> activity(self.channels(), x) == 0,
        ensures
            active(self.channel_names(), self.channels()) == seq![
                ActivityView {
                    channel: c,
                    ax: self.channels()[c].ax,
                    rate: self.channels()[c].rate,
                },
            ],
    {
        let names = self.channel_names();
        let chans = self.channels();
        self.lemma_names();
        assert(names.contains(c));
        let k = choose|k: int| 0 <= k < names.len() && names[k] == c;
        assert forall|j: int| 0 <= j < names.len() && j != k implies chans[#[trigger] names[j]].ax
            == 0 by {
            lemma_before_irreflexive(c);
            assert(names.contains(names[j]));
            assert(activity(chans, names[j]) == 0);
        }
        lemma_active_one(names, chans, k);
    }

    /// Where two channels have an activity and no other, `activities` lists
    /// those two and no other, each with its activity and its rate, the one
    /// that comes first in the dictionary first.
    pub proof fn lemma_two_active(&self, c: Seq<char>, d: Seq<char>)
        requires
            self.wf(),
            c != d,
            activity(self.channels(), c) > 0,
            activity(self.channels(), d) > 0,
            forall|x: Seq<char>| x != c && x != d ==> activity(self.channels(), x) == 0,
        ensures
            before(c, d) || before(d, c),
            active(self.channel_names(), self.channels()) == if before(c, d) {
                seq![
                    ActivityView {
                        channel: c,
                        ax: self.channels()[c].ax,
                        rate: self.channels()[c].rate,
                    },
                    ActivityView {
                        channel: d,
                        ax: self.channels()[d].ax,
                        rate: self.channels()[d].rate,
                    },
                ]
            } else {
                seq![
                    ActivityView {
                        channel: d,
                        ax: self.channels()[d].ax,
                        rate: self.channels()[d].rate,
                    },
                    ActivityView {
                        channel: c,
                        ax: self.channels()[c].ax,
                        rate: self.channels()[c].rate,
                    },
                ]
            },
    {
        let names = self.channel_names();
        let chans = self.channels();
        self.lemma_names();
        assert(names.contains(c));
        assert(names.contains(d));
        let k = choose|k: int| 0 <= k < names.len() && names[k] == c;
        let l = choose|l: int| 0 <= l < names.len() && names[l] == d;
        assert forall|j: int|
            0 <= j < names.len() && j != k && j != l implies chans[#[trigger] names[j]].ax == 0 by {
            lemma_before_irreflexive(c);
            lemma_before_irreflexive(d);
            assert(names.contains(names[j]));
            assert(activity(chans, names[j]) == 0);
        }
        if k < l {
            assert(before(names[k], names[l]));
            lemma_active_two(names, chans, k, l);
        } else {
            assert(before(names[l], names[k]));
            if before(c, d) {
                lemma_before_transitive(c, d, c);
                lemma_before_irreflexive(c);
            }
            lemma_active_two(names, chans, l, k);
        }
    }

    /// The names of a well-formed store stand in dictionary order, each once,
    /// and are the names that have a record or a count.
    pub proof fn lemma_names(&self)
        requires
            self.wf(),
        ensures
            forall|i: int, j: int|
                0 <= i < j < self.channel_names().len() ==> before(
                    #[trigger] self.channel_names()[i],
                    #[trigger] self.channel_names()[j],
                ),
            forall|c: Seq<char>| self.channels().contains_key(c) <==> self.channel_names().contains(c),
            forall|i: int, j: int|
                0 <= i < j < self.instance_names().len() ==> before(
                    #[trigger] self.instance_names()[i],
                    #[trigger] self.instance_names()[j],
                ),
            forall|c: Seq<char>|
                self.instances().contains_key(c) <==> self.instance_names().contains(c),
    {
        self.chans.lemma_table();
        self.instance_counts.lemma_table();
    }

    /// A store with no channel, no definition and no count.
    pub fn new() -> (s: Store)
        ensures
            s.wf(),
            s.channels() == Map::<Seq<char>, ChannelRecord>::empty(),
            s.definitions() == Map::<Seq<char>, DefinitionView>::empty(),
            s.instances() == Map::<Seq<char>, usize>::empty(),
    {
        let s = Store { chans: Table::new(), defs: Table::new(), instance_counts: Table::new() };
        assert(s.definitions() =~= Map::<Seq<char>, DefinitionView>::empty());
        s
    }

    /// Registers the channel `name` with `rate`. A channel that the store has
    /// already keeps its counts and takes the rate.
    pub fn add_channel(&mut self, name: &str, rate: Decimal)
        requires
            old(self).wf(),
        ensures
            final(self).wf(),
            final(self).channels() == old(self).channels().insert(
                name@,
                if old(self).channels().contains_key(name@) {
                    ChannelRecord { rate, ..old(self).channels()[name@] }
                } else {
                    ChannelRecord { rate, incount: 0, outcount: 0, mixcount: 0, ax: 0 }
                },
            ),
            final(self).definitions() == old(self).definitions(),
            final(self).instances() == old(self).instances(),
            final(self).instance_names() == old(self).instance_names(),
            forall|c: Seq<char>|
                {
                    &&& final(self).incount(c) == old(self).incount(c)
                    &&& final(self).outcount(c) == old(self).outcount(c)
                    &&& final(self).mixcount(c) == old(self).mixcount(c)
                    &&& final(self).ax(c) == old(self).ax(c)
                },
            old(self).channels().contains_key(name@) && old(self).channels()[name@].rate == rate
                ==> final(self).channels() == old(self).channels(),
    {
        let key = String::from_str(name);
        let record = match self.chans.get(&key) {
            Some(r) => ChannelRecord {
                rate,
                incount: r.incount,
                outcount: r.outcount,
                mixcount: r.mixcount,
                ax: r.ax,
            },
            None => ChannelRecord { rate, incount: 0, outcount: 0, mixcount: 0, ax: 0 },
        };
        proof {
            if self.chans@.contains_key(key@) {
                assert(self.chans@[key@].balanced());
            }
            assert(0 * 0 == 0) by (nonlinear_arith);
        }
        self.chans.insert(key, record);
        proof {
            if old(self).channels().contains_key(name@) && old(self).channels()[name@].rate
                == rate {
                assert(self.channels() =~= old(self).channels());
            }
        }
    }

    /// The record of channel `name`, if the store has it.
    pub fn channel(&self, name: &str) -> (r: Option<ChannelRecord>)
        requires
            self.wf(),
        ensures
            r is Some <==> self.channels().contains_key(name@),
            r matches Some(rec) ==> rec == self.channels()[name@] && rec.balanced(),
    {
        let key = String::from_str(name);
        match self.chans.get(&key) {
            Some(r) => {
                proof {
                    assert(self.chans@[key@].balanced());
                }
                Some(*r)
            },
            None => None,
        }
    }

    /// The channels that can fire, in dictionary order of their names.
    pub fn activities(&self) -> (r: Vec<Activity>)
        requires
            self.wf(),
        ensures
            activities_view(r@) == active(self.channel_names(), self.channels()),
    {
        let ghost names = self.chans.keys();
        let ghost chans = self.chans@;
        proof {
            self.chans.lemma_table();
            assert(names.take(0) =~= Seq::<Seq<char>>::empty());
        }
        let mut out: Vec<Activity> = Vec::new();
        let mut i: usize = 0;
        while i < self.chans.len()
            invariant
                i <= self.chans.keys().len(),
                names == self.chans.keys(),
                chans == self.chans@,
                names.len() == self.chans.values().len(),
                forall|j: int|
                    0 <= j < names.len() ==> chans.contains_key(#[trigger] names[j])
                        && chans[names[j]] == self.chans.values()[j],
                activities_view(out@) == active(names.take(i as int), chans),
            decreases self.chans.keys().len() - i,
        {
            proof {
                assert(names.take(i + 1).drop_last() =~= names.take(i as int));
                assert(names.take(i + 1).last() == names[i as int]);
            }
            let record = self.chans.value_at(i);
            if record.ax > 0 {
                let ghost before_push = out@;
                out.push(
                    Activity {
                        channel: self.chans.key_at(i).clone(),
                        ax: record.ax,
                        rate: record.rate,
                    },
                );
                proof {
                    assert(activities_view(out@) =~= activities_view(before_push).push(
                        ActivityView { channel: names[i as int], ax: record.ax, rate: record.rate },
                    ));
                }
            }
            i += 1;
        }
        proof {
            assert(names.take(i as int) =~= names);
        }
        out
    }

    /// Whether no channel can fire.
    pub fn quiet(&self) -> (b: bool)
        requires
            self.wf(),
        ensures
            b == idle(self.channels()),
    {
        proof {
            self.chans.lemma_table();
        }
        let mut i: usize = 0;
        while i < self.chans.len()
            invariant
                i <= self.chans.keys().len(),
                self.chans.keys().len() == self.chans.values().len(),
                forall|j: int|
                    0 <= j < self.chans.keys().len() ==> self.chans@.contains_key(
                        #[trigger] self.chans.keys()[j],
                    ) && self.chans@[self.chans.keys()[j]] == self.chans.values()[j],
                forall|c: Seq<char>| self.chans@.contains_key(c) <==> self.chans.keys().contains(c),
                forall|j: int| 0 <= j < i ==> (#[trigger] self.chans.values()[j]).ax == 0,
            decreases self.chans.keys().len() - i,
        {
            if self.chans.value_at(i).ax > 0 {
                proof {
                    let c = self.chans.keys()[i as int];
                    assert(self.chans@.contains_key(c));
                    assert(activity(self.channels(), c) > 0);
                }
                return false;
            }
            i += 1;
        }
        proof {
            assert forall|c: Seq<char>| activity(self.channels(), c) == 0 by {
                if self.chans@.contains_key(c) {
                    assert(self.chans.keys().contains(c));
                    let j = choose|j: int|
                        0 <= j < self.chans.keys().len() && self.chans.keys()[j] == c;
                    assert(self.chans.values()[j].ax == 0);
                }
            }
        }
        true
    }

    /// Shifts the counts of every channel of `counts`, or changes nothing.
    fn adjust(&mut self, counts: &Table<Tally>, up: bool) -> (r: Result<(), StoreError>)
        requires
            old(self).wf(),
            counts.wf(),
        ensures
            final(self).wf(),
            final(self).definitions() == old(self).definitions(),
            final(self).instances() == old(self).instances(),
            final(self).instance_names() == old(self).instance_names(),
            match r {
                Ok(()) => {
                    &&& all_known(old(self).channels(), counts@)
                    &&& all_fit(old(self).channels(), counts@, up)
                    &&& final(self).channels() == shift_all(old(self).channels(), counts@, up)
                },
                Err(StoreError::UnknownChannel) => {
                    &&& !all_known(old(self).channels(), counts@)
                    &&& final(self).channels() == old(self).channels()
                    &&& final(self).channel_names() == old(self).channel_names()
                },
                Err(StoreError::OutOfRange) => {
                    &&& all_known(old(self).channels(), counts@)
                    &&& !all_fit(old(self).channels(), counts@, up)
                    &&& final(self).channels() == old(self).channels()
                    &&& final(self).channel_names() == old(self).channel_names()
                },
            },
    {
        let ghost keys = counts.keys();
        let ghost start = self.chans@;
        proof {
            counts.lemma_table();
        }
        // First the new records are made, and nothing is changed: a channel
        // may be unknown, or a count may not fit.
        let mut records: Vec<ChannelRecord> = Vec::new();
        let mut unknown: bool = false;
        let mut unfit: bool = false;
        let mut i: usize = 0;
        while i < counts.len()
            invariant
                i <= counts.keys().len(),
                self.wf(),
                *self == *old(self),
                start == self.chans@,
                keys == counts.keys(),
                keys.len() == counts.values().len(),
                forall|j: int|
                    0 <= j < keys.len() ==> counts@.contains_key(#[trigger] keys[j]) && counts@[keys[j]]
                        == counts.values()[j],
                unknown <==> exists|j: int| 0 <= j < i && !start.contains_key(#[trigger] keys[j]),
                unfit <==> exists|j: int|
                    0 <= j < i && start.contains_key(#[trigger] keys[j]) && !can_shift(
                        start[keys[j]],
                        counts@[keys[j]],
                        up,
                    ),
                !unknown && !unfit ==> records.len() == i,
                !unknown && !unfit ==> forall|j: int|
                    0 <= j < i ==> (#[trigger] records[j]) == shifted(
                        start[keys[j]],
                        counts@[keys[j]],
                        up,
                    ) && records[j].balanced(),
            decreases counts.keys().len() - i,
        {
            match self.chans.get(counts.key_at(i)) {
                None => {
                    unknown = true;
                },
                Some(record) => {
                    proof {
                        assert(self.chans@[keys[i as int]].balanced());
                    }
                    match shift(record, counts.value_at(i), up) {
                        None => {
                            unfit = true;
                        },
                        Some(next) => {
                            records.push(next);
                        },
                    }
                },
            }
            i += 1;
        }
        if unknown {
            return Err(StoreError::UnknownChannel);
        }
        proof {
            counts.lemma_table();
            assert forall|c: Seq<char>| counts@.contains_key(c) implies start.contains_key(c) by {
                assert(keys.contains(c));
                let j = choose|j: int| 0 <= j < keys.len() && keys[j] == c;
                assert(keys[j] == c);
            }
        }
        if unfit {
            return Err(StoreError::OutOfRange);
        }
        proof {
            counts.lemma_table();
            assert forall|c: Seq<char>|
                counts@.contains_key(c) && start.contains_key(c) implies can_shift(
                start[c],
                counts@[c],
                up,
            ) by {
                assert(keys.contains(c));
                let j = choose|j: int| 0 <= j < keys.len() && keys[j] == c;
                assert(keys[j] == c);
            }
        }
        // Then every new record takes the place of the old one.
        let mut i: usize = 0;
        while i < counts.len()
            invariant
                i <= counts.keys().len(),
                self.wf(),
                self.defs == old(self).defs,
                self.instance_counts == old(self).instance_counts,
                start == old(self).chans@,
                keys == counts.keys(),
                keys.len() == counts.values().len(),
                keys.no_duplicates(),
                records.len() == keys.len(),
                forall|j: int|
                    0 <= j < keys.len() ==> (#[trigger] records[j]) == shifted(
                        start[keys[j]],
                        counts@[keys[j]],
                        up,
                    ) && records[j].balanced(),
                all_known(start, counts@),
                forall|j: int|
                    0 <= j < keys.len() ==> counts@.contains_key(#[trigger] keys[j]) && counts@[keys[j]]
                        == counts.values()[j],
                self.chans@ == Map::new(
                    |c: Seq<char>| start.contains_key(c),
                    |c: Seq<char>|
                        if keys.take(i as int).contains(c) {
                            shifted(start[c], counts@[c], up)
                        } else {
                            start[c]
                        },
                ),
            decreases counts.keys().len() - i,
        {
            let name = counts.key_at(i);
            let ghost c = keys[i as int];
            proof {
                assert(start.contains_key(c));
            }
            let ghost before_insert = self.chans@;
            self.chans.insert(name.clone(), records[i]);
            proof {
                assert(keys.take(i + 1) =~= keys.take(i as int).push(c));
                assert forall|d: Seq<char>| keys.take(i + 1).contains(d) <==> (d == c || keys.take(
                    i as int,
                ).contains(d)) by {
                    if keys.take(i as int).contains(d) {
                        let j = choose|j: int|
                            0 <= j < keys.take(i as int).len() && keys.take(i as int)[j] == d;
                        assert(keys.take(i + 1)[j] == d);
                    }
                    if d == c {
                        assert(keys.take(i + 1)[i as int] == d);
                    }
                }
                assert(self.chans@ =~= Map::new(
                    |c: Seq<char>| start.contains_key(c),
                    |c: Seq<char>|
                        if keys.take(i + 1).contains(c) {
                            shifted(start[c], counts@[c], up)
                        } else {
                            start[c]
                        },
                ));
                assert forall|d: Seq<char>| #[trigger]
                    self.chans@.contains_key(d) implies self.chans@[d].balanced() by {
                    if d != c {
                        assert(before_insert.contains_key(d));
                        assert(before_insert[d].balanced());
                    }
                }
            }
            i += 1;
        }
        proof {
            assert(keys.take(i as int) =~= keys);
            assert(self.chans@ =~= shift_all(start, counts@, up));
        }
        Ok(())
    }

    /// Adds the counts of a new summation to the channels. Every channel of
    /// `counts` must be one of the store, and every count must stay in range:
    /// else nothing changes.
    pub fn add_counts(&mut self, counts: &Table<Tally>) -> (r: Result<(), StoreError>)
        requires
            old(self).wf(),
            counts.wf(),
        ensures
            final(self).wf(),
            final(self).definitions() == old(self).definitions(),
            final(self).instances() == old(self).instances(),
            final(self).instance_names() == old(self).instance_names(),
            match r {
                Ok(()) => {
                    &&& all_known(old(self).channels(), counts@)
                    &&& all_fit(old(self).channels(), counts@, true)
                    &&& final(self).channels() == shift_all(old(self).channels(), counts@, true)
                },
                Err(StoreError::UnknownChannel) => {
                    &&& !all_known(old(self).channels(), counts@)
                    &&& final(self).channels() == old(self).channels()
                    &&& final(self).channel_names() == old(self).channel_names()
                },
                Err(StoreError::OutOfRange) => {
                    &&& all_known(old(self).channels(), counts@)
                    &&& !all_fit(old(self).channels(), counts@, true)
                    &&& final(self).channels() == old(self).channels()
                    &&& final(self).channel_names() == old(self).channel_names()
                },
            },
    {
        self.adjust(counts, true)
    }

    /// Takes the counts of a summation that is gone from the channels. Every
    /// channel of `counts` must be one of the store, and no count may fall
    /// below zero: else nothing changes.
    pub fn remove_counts(&mut self, counts: &Table<Tally>) -> (r: Result<(), StoreError>)
        requires
            old(self).wf(),
            counts.wf(),
        ensures
            final(self).wf(),
            final(self).definitions() == old(self).definitions(),
            final(self).instances() == old(self).instances(),
            final(self).instance_names() == old(self).instance_names(),
            match r {
                Ok(()) => {
                    &&& all_known(old(self).channels(), counts@)
                    &&& all_fit(old(self).channels(), counts@, false)
                    &&& final(self).channels() == shift_all(old(self).channels(), counts@, false)
                },
                Err(StoreError::UnknownChannel) => {
                    &&& !all_known(old(self).channels(), counts@)
                    &&& final(self).channels() == old(self).channels()
                    &&& final(self).channel_names() == old(self).channel_names()
                },
                Err(StoreError::OutOfRange) => {
                    &&& all_known(old(self).channels(), counts@)
                    &&& !all_fit(old(self).channels(), counts@, false)
                    &&& final(self).channels() == old(self).channels()
                    &&& final(self).channel_names() == old(self).channel_names()
                },
            },
    {
        self.adjust(counts, false)
    }

    /// Counts one more live instance of the definition `instance_name`.
    /// Nothing changes where the count is at the largest number.
    pub fn create(&mut self, instance_name: String) -> (r: Result<(), StoreError>)
        requires
            old(self).wf(),
        ensures
            final(self).wf(),
            final(self).channels() == old(self).channels(),
            final(self).channel_names() == old(self).channel_names(),
            final(self).definitions() == old(self).definitions(),
            match r {
                Ok(()) => final(self).instances() == old(self).instances().insert(
                    instance_name@,
                    (old(self).live(instance_name@) + 1) as usize,
                ) && old(self).live(instance_name@) < usize::MAX,
                Err(e) => e == StoreError::OutOfRange && old(self).live(instance_name@)
                    == usize::MAX && final(self).instances() == old(self).instances()
                    && final(self).instance_names() == old(self).instance_names(),
            },
    {
        let count: usize = match self.instance_counts.get(&instance_name) {
            Some(n) => *n,
            None => 0,
        };
        if count == usize::MAX {
            return Err(StoreError::OutOfRange);
        }
        self.instance_counts.insert(instance_name, count + 1);
        Ok(())
    }

    /// Counts one live instance less of the definition `instance_name`.
    /// Nothing changes where it has none.
    pub fn destroy(&mut self, instance_name: String) -> (r: Result<(), StoreError>)
        requires
            old(self).wf(),
        ensures
            final(self).wf(),
            final(self).channels() == old(self).channels(),
            final(self).channel_names() == old(self).channel_names(),
            final(self).definitions() == old(self).definitions(),
            match r {
                Ok(()) => final(self).instances() == old(self).instances().insert(
                    instance_name@,
                    (old(self).live(instance_name@) - 1) as usize,
                ) && old(self).live(instance_name@) > 0,
                Err(e) => e == StoreError::OutOfRange && old(self).live(instance_name@) == 0
                    && final(self).instances() == old(self).instances()
                    && final(self).instance_names() == old(self).instance_names(),
            },
    {
        let count: usize = match self.instance_counts.get(&instance_name) {
            Some(n) => *n,
            None => 0,
        };
        if count == 0 {
            return Err(StoreError::OutOfRange);
        }
        self.instance_counts.insert(instance_name, count - 1);
        Ok(())
    }

    /// The number of live instances of `name`; none where it has no count.
    pub open spec fn live(&self, name: Seq<char>) -> nat {
        if self.instances().contains_key(name) {
            self.instances()[name] as nat
        } else {
            0
        }
    }

    /// Gives the name `name` the definition `def`, and starts its count of
    /// live instances at zero where it has none.
    pub fn define(&mut self, name: String, def: Definition)
        requires
            old(self).wf(),
        ensures
            final(self).wf(),
            final(self).channels() == old(self).channels(),
            final(self).channel_names() == old(self).channel_names(),
            final(self).definitions() == old(self).definitions().insert(name@, def@),
            final(self).instances() == if old(self).instances().contains_key(name@) {
                old(self).instances()
            } else {
                old(self).instances().insert(name@, 0)
            },
    {
        if !self.instance_counts.contains(&name) {
            self.instance_counts.insert(name.clone(), 0);
        }
        self.defs.insert(name, def);
        assert(self.definitions() =~= old(self).definitions().insert(name@, def@));
    }

    /// The definition of `name`, if it has one.
    pub fn definition(&self, name: &String) -> (r: Option<&Definition>)
        requires
            self.wf(),
        ensures
            r is Some <==> self.definitions().contains_key(name@),
            r matches Some(d) ==> d@ == self.definitions()[name@],
    {
        self.defs.get(name)
    }

    /// The number of live instances of `name`, if it has a count.
    pub fn instance_count(&self, name: &str) -> (r: Option<usize>)
        requires
            self.wf(),
        ensures
            r is Some <==> self.instances().contains_key(name@),
            r matches Some(n) ==> n == self.instances()[name@],
    {
        let key = String::from_str(name);
        match self.instance_counts.get(&key) {
            Some(n) => Some(*n),
            None => None,
        }
    }

    /// The names that have an instance count, in dictionary order, each with
    /// its count.
    pub fn instance_rows(&self) -> (rows: Vec<(String, usize)>)
        requires
            self.wf(),
        ensures
            rows.len() == self.instance_names().len(),
            forall|i: int|
                0 <= i < rows.len() ==> (#[trigger] rows[i]).0@ == self.instance_names()[i]
                    && rows[i].1 == self.instances()[self.instance_names()[i]],
    {
        let ghost names = self.instance_counts.keys();
        let ghost counts = self.instance_counts@;
        proof {
            self.instance_counts.lemma_table();
        }
        let mut rows: Vec<(String, usize)> = Vec::new();
        let mut i: usize = 0;
        while i < self.instance_counts.len()
            invariant
                i <= names.len(),
                rows.len() == i,
                names == self.instance_counts.keys(),
                counts == self.instance_counts@,
                names.len() == self.instance_counts.values().len(),
                forall|j: int|
                    0 <= j < names.len() ==> counts[#[trigger] names[j]]
                        == self.instance_counts.values()[j],
                forall|j: int|
                    0 <= j < i ==> (#[trigger] rows[j]).0@ == names[j] && rows[j].1
                        == counts[names[j]],
            decreases names.len() - i,
        {
            rows.push((self.instance_counts.key_at(i).clone(), *self.instance_counts.value_at(i)));
            i += 1;
        }
        rows
    }
}

} // verus!
