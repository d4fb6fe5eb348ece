//! Which channel fires: the draw of the direct method, in whole numbers.
//!
//! A channel fires with a chance in proportion to its propensity, the
//! product of its activity and its rate. The rates are decimals, so every
//! propensity is a whole number of units of the finest decimal place among
//! them, and a channel is drawn by a whole number below their sum.
use crate::store::{activities_view, Activity, ActivityView};
use crate::values::{lemma_pow10_positive, pow10, power_of_ten};
use vstd::prelude::*;

verus! {

/// The largest number of decimal places among the rates of `acts`.
pub open spec fn finest(acts: Seq<ActivityView>) -> nat
    decreases acts.len(),
{
    if acts.len() == 0 {
        0
    } else {
        let rest = finest(acts.drop_last());
        if acts.last().rate.scale > rest {
            acts.last().rate.scale as nat
        } else {
            rest
        }
    }
}

/// The propensity of `a`, the product of its activity and its rate, in
/// units of ten to the power minus `scale`.
pub open spec fn weight(a: ActivityView, scale: nat) -> nat {
    a.ax as nat * a.rate.digits as nat * pow10((scale - a.rate.scale) as nat)
}

/// The sum of the propensities of `acts`, in units of ten to the power minus `scale`.
pub open spec fn total(acts: Seq<ActivityView>, scale: nat) -> nat
    decreases acts.len(),
{
    if acts.len() == 0 {
        0
    } else {
        total(acts.drop_last(), scale) + weight(acts.last(), scale)
    }
}

/// The place of the channel that the ticket `m` draws: the first whose
/// propensity, added to those before it, exceeds `m`.
pub open spec fn drawn(acts: Seq<ActivityView>, scale: nat, m: nat, i: int) -> bool {
    &&& 0 <= i < acts.len()
    &&& total(acts.take(i), scale) <= m < total(acts.take(i + 1), scale)
}

/// No rate has more decimal places than the finest.
pub proof fn lemma_finest(acts: Seq<ActivityView>, i: int)
    requires
        0 <= i < acts.len(),
    ensures
        acts[i].rate.scale <= finest(acts),
        finest(acts.take(i)) <= finest(acts),
    decreases acts.len(),
{
    if i < acts.len() - 1 {
        lemma_finest(acts.drop_last(), i);
        assert(acts.drop_last().take(i) =~= acts.take(i));
    } else {
        assert(acts.take(i) =~= acts.drop_last());
    }
}

/// The propensities of the first channels sum to no more than those of all.
pub proof fn lemma_total_take(acts: Seq<ActivityView>, scale: nat, i: int)
    requires
        0 <= i <= acts.len(),
    ensures
        total(acts.take(i), scale) <= total(acts, scale),
        i < acts.len() ==> total(acts.take(i + 1), scale) == total(acts.take(i), scale) + weight(
            acts[i],
            scale,
        ),
    decreases acts.len() - i,
{
    if i < acts.len() {
        assert(acts.take(i + 1).drop_last() =~= acts.take(i));
        lemma_total_take(acts, scale, i + 1);
    } else {
        assert(acts.take(i) =~= acts);
    }
}

/// Where a channel that can fire has a rate above zero, the sum of the
/// propensities is above zero.
pub proof fn lemma_total_positive(acts: Seq<ActivityView>, i: int)
    requires
        0 <= i < acts.len(),
        acts[i].ax > 0,
        acts[i].rate.digits > 0,
    ensures
        total(acts, finest(acts)) > 0,
{
    let scale = finest(acts);
    lemma_finest(acts, i);
    lemma_pow10_positive((scale - acts[i].rate.scale) as nat);
    lemma_total_take(acts, scale, i);
    lemma_total_take(acts, scale, i + 1);
    let a = acts[i].ax as nat;
    let d = acts[i].rate.digits as nat;
    let p = pow10((scale - acts[i].rate.scale) as nat);
    assert(a * d * p > 0) by (nonlinear_arith)
        requires
            a > 0,
            d > 0,
            p > 0,
    ;
}

/// One channel that can fire, alone: the sum of the propensities is its
/// own, the product of its activity and its rate, counted in units of the
/// last decimal place of the rate, and every ticket below the sum draws it.
pub proof fn lemma_total_of_one(acts: Seq<ActivityView>)
    requires
        acts.len() == 1,
    ensures
        finest(acts) == acts[0].rate.scale,
        total(acts, finest(acts)) == acts[0].ax * acts[0].rate.digits,
        forall|m: nat|
            m < total(acts, finest(acts)) ==> #[trigger] drawn(acts, finest(acts), m, 0),
{
    assert(acts.drop_last().len() == 0);
    assert(finest(acts.drop_last()) == 0);
    let scale = finest(acts);
    assert(scale == acts[0].rate.scale);
    assert(pow10(0) == 1);
    let a = acts[0].ax as nat;
    let d = acts[0].rate.digits as nat;
    assert(a * d * 1 == a * d) by (nonlinear_arith);
    assert(weight(acts[0], scale) == a * d);
    assert(total(acts.drop_last(), scale) == 0);
    assert(total(acts, scale) == a * d);
    assert(acts.take(1) =~= acts);
    assert(acts.take(0) =~= acts.drop_last());
}

/// Two channels at one rate, with one pair each that can react, have twice
/// the rate for the sum of their propensities.
pub proof fn lemma_total_of_two(acts: Seq<ActivityView>)
    requires
        acts.len() == 2,
        acts[0].ax == 1,
        acts[1].ax == 1,
        acts[0].rate == acts[1].rate,
    ensures
        finest(acts) == acts[0].rate.scale,
        total(acts, finest(acts)) == 2 * acts[0].rate.digits,
{
    let front = acts.drop_last();
    assert(front.len() == 1);
    assert(front.drop_last().len() == 0);
    assert(finest(front.drop_last()) == 0);
    assert(finest(front) == acts[0].rate.scale);
    assert(finest(acts) == acts[0].rate.scale);
    let scale = finest(acts);
    assert(pow10(0) == 1);
    let d = acts[0].rate.digits as nat;
    assert(1 * d * 1 == d) by (nonlinear_arith);
    assert(weight(acts[0], scale) == d);
    assert(weight(acts[1], scale) == d);
    assert(total(front.drop_last(), scale) == 0);
    assert(total(front, scale) == d);
    assert(total(acts, scale) == d + d);
}

/// A ticket draws one channel and no other.
pub proof fn lemma_drawn_unique(acts: Seq<ActivityView>, scale: nat, m: nat, i: int, j: int)
    requires
        drawn(acts, scale, m, i),
        drawn(acts, scale, m, j),
    ensures
        i == j,
{
    if i < j {
        assert(acts.take(j).take(i + 1) =~= acts.take(i + 1));
        lemma_total_take(acts.take(j), scale, i + 1);
    } else if j < i {
        assert(acts.take(i).take(j + 1) =~= acts.take(j + 1));
        lemma_total_take(acts.take(i), scale, j + 1);
    }
}

/// The propensities of the channels that can fire, as whole numbers.
#[derive(Debug)]
pub struct Propensities {
    /// The propensity of each channel, in units of ten to the power minus `scale`.
    pub weights: Vec<u128>,
    /// Their sum.
    pub total: u128,
    /// The number of decimal places of the unit.
    pub scale: u32,
}

/// The largest number of decimal places among the rates.
fn finest_scale(active: &Vec<Activity>) -> (s: u32)
    ensures
        s == finest(activities_view(active@)),
{
    let ghost acts = activities_view(active@);
    let mut s: u32 = 0;
    let mut i: usize = 0;
    proof {
        assert(acts.take(0) =~= Seq::<ActivityView>::empty());
    }
    while i < active.len()
        invariant
            i <= active.len(),
            acts == activities_view(active@),
            s == finest(acts.take(i as int)),
        decreases active.len() - i,
    {
        proof {
            assert(acts.take(i + 1).drop_last() =~= acts.take(i as int));
            assert(acts.take(i + 1).last() == active[i as int]@);
        }
        if active[i].rate.scale > s {
            s = active[i].rate.scale;
        }
        i += 1;
    }
    proof {
        assert(acts.take(i as int) =~= acts);
    }
    s
}

/// The propensity of one channel, if it fits in 128 bits.
fn weigh(a: &Activity, scale: u32) -> (r: Option<u128>)
    requires
        a.rate.scale <= scale,
    ensures
        r matches Some(w) ==> w == weight(a@, scale as nat),
        r is None ==> weight(a@, scale as nat) > u128::MAX,
{
    let base = match a.ax.checked_mul(a.rate.digits as u128) {
        None => {
            proof {
                lemma_pow10_positive((scale - a.rate.scale) as nat);
                lemma_product_at_least(
                    a.ax as nat * a.rate.digits as nat,
                    pow10((scale - a.rate.scale) as nat),
                );
            }
            return None;
        },
        Some(b) => b,
    };
    if base == 0 {
        assert(weight(a@, scale as nat) == 0) by (nonlinear_arith)
            requires
                a@.ax as nat * a@.rate.digits as nat == 0,
                weight(a@, scale as nat) == a@.ax as nat * a@.rate.digits as nat * pow10(
                    (scale - a@.rate.scale) as nat,
                ),
        ;
        return Some(0);
    }
    let unit = match power_of_ten(scale - a.rate.scale) {
        None => {
            proof {
                lemma_product_at_least(pow10((scale - a.rate.scale) as nat), base as nat);
                assert(base as nat * pow10((scale - a.rate.scale) as nat) == pow10(
                    (scale - a.rate.scale) as nat,
                ) * base as nat) by (nonlinear_arith);
            }
            return None;
        },
        Some(u) => u,
    };
    base.checked_mul(unit)
}

/// A product with a factor of one or more is at least the other factor.
proof fn lemma_product_at_least(a: nat, b: nat)
    requires
        b >= 1,
    ensures
        a * b >= a,
{
    assert(a * b >= a) by (nonlinear_arith)
        requires
            b >= 1,
            a >= 0,
    ;
}

/// What weighing returned: the propensities by their sequence, their sum and
/// their unit.
pub open spec fn weighed(
    r: Option<Propensities>,
    acts: Seq<ActivityView>,
) -> bool {
    match r {
        Some(p) => {
            &&& p.scale == finest(acts)
            &&& p.weights.len() == acts.len()
            &&& forall|i: int|
                0 <= i < acts.len() ==> (#[trigger] p.weights[i]) == weight(acts[i], finest(acts))
            &&& p.total == total(acts, finest(acts))
        },
        None => total(acts, finest(acts)) > u128::MAX,
    }
}

/// The propensities of the channels that can fire, in units of the finest
/// decimal place among their rates, and their sum. `None` where the sum does
/// not fit in 128 bits.
pub fn propensities(active: &Vec<Activity>) -> (r: Option<Propensities>)
    ensures
        weighed(r, activities_view(active@)),
{
    let ghost acts = activities_view(active@);
    let scale = finest_scale(active);
    let mut weights: Vec<u128> = Vec::new();
    let mut sum: u128 = 0;
    let mut i: usize = 0;
    proof {
        assert(acts.take(0) =~= Seq::<ActivityView>::empty());
    }
    while i < active.len()
        invariant
            i <= active.len(),
            acts == activities_view(active@),
            scale == finest(acts),
            weights.len() == i,
            forall|j: int| 0 <= j < i ==> (#[trigger] weights[j]) == weight(acts[j], scale as nat),
            sum == total(acts.take(i as int), scale as nat),
        decreases active.len() - i,
    {
        proof {
            lemma_finest(acts, i as int);
            lemma_total_take(acts, scale as nat, i as int);
            lemma_total_take(acts, scale as nat, i + 1);
        }
        let w = match weigh(&active[i], scale) {
            None => {
                return None;
            },
            Some(w) => w,
        };
        sum = match sum.checked_add(w) {
            None => {
                return None;
            },
            Some(s) => s,
        };
        weights.push(w);
        i += 1;
    }
    proof {
        assert(acts.take(i as int) =~= acts);
    }
    Some(Propensities { weights, total: sum, scale })
}

/// The place of the channel that the ticket `m` draws.
pub fn pick(active: &Vec<Activity>, p: &Propensities, m: u128) -> (i: usize)
    requires
        weighed(Some(*p), activities_view(active@)),
        m < p.total,
    ensures
        drawn(
            activities_view(active@),
            finest(activities_view(active@)),
            m as nat,
            i as int,
        ),
{
    let ghost acts = activities_view(active@);
    let ghost scale = finest(acts);
    let mut below: u128 = 0;
    let mut i: usize = 0;
    proof {
        assert(acts.take(0) =~= Seq::<ActivityView>::empty());
    }
    while i < p.weights.len()
        invariant
            i <= p.weights.len(),
            acts == activities_view(active@),
            scale == finest(acts),
            weighed(Some(*p), acts),
            m < p.total,
            below == total(acts.take(i as int), scale),
            below <= m,
        decreases p.weights.len() - i,
    {
        proof {
            lemma_total_take(acts, scale, i as int);
            lemma_total_take(acts, scale, i + 1);
        }
        let upto: u128 = below + p.weights[i];
        if m < upto {
            return i;
        }
        below = upto;
        i += 1;
    }
    proof {
        assert(acts.take(i as int) =~= acts);
    }
    0
}

} // verus!
