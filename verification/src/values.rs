//! Patterns, types and numbers that the languages share.
use crate::names::Order;
use vstd::prelude::*;

verus! {

/// A decimal number `digits / 10^scale`, as a literal of the source language
/// writes it: `2.50` is `digits` 250 with `scale` 2.
#[derive(Clone, Copy, Debug, PartialEq, Eq, Structural)]
pub struct Decimal {
    pub digits: u64,
    pub scale: u32,
}

/// Ten to the power `n`.
pub open spec fn pow10(n: nat) -> nat
    decreases n,
{
    if n == 0 {
        1
    } else {
        10 * pow10((n - 1) as nat)
    }
}

/// A power of ten is at least one.
pub proof fn lemma_pow10_positive(n: nat)
    ensures
        pow10(n) >= 1,
    decreases n,
{
    if n > 0 {
        lemma_pow10_positive((n - 1) as nat);
    }
}

/// The powers of ten rise.
pub proof fn lemma_pow10_grows(a: nat, b: nat)
    requires
        a <= b,
    ensures
        pow10(a) <= pow10(b),
    decreases b,
{
    if a < b {
        lemma_pow10_grows(a, (b - 1) as nat);
    }
}

/// Ten to the power `n`, if it fits in 128 bits.
pub fn power_of_ten(n: u32) -> (r: Option<u128>)
    ensures
        r matches Some(p) ==> p == pow10(n as nat),
        r is None ==> pow10(n as nat) > u128::MAX,
{
    let mut p: u128 = 1;
    let mut k: u32 = 0;
    while k < n
        invariant
            k <= n,
            p == pow10(k as nat),
        decreases n - k,
    {
        p = match p.checked_mul(10) {
            None => {
                proof {
                    lemma_pow10_grows((k + 1) as nat, n as nat);
                }
                return None;
            },
            Some(next) => next,
        };
        k += 1;
    }
    Some(p)
}

/// The decimal `d` in units of ten to the power minus `scale`, a whole
/// number where `scale` is no less than the decimal's own.
pub open spec fn units(d: Decimal, scale: nat) -> nat {
    d.digits as nat * pow10((scale - d.scale) as nat)
}

/// The larger of the two numbers of decimal places.
pub open spec fn common_scale(a: Decimal, b: Decimal) -> nat {
    if a.scale >= b.scale {
        a.scale as nat
    } else {
        b.scale as nat
    }
}

/// How the number that `a` writes stands to the number that `b` writes:
/// the two are compared in units of the finer decimal place.
pub open spec fn decimal_order(a: Decimal, b: Decimal) -> Order {
    let scale = common_scale(a, b);
    if units(a, scale) < units(b, scale) {
        Order::Before
    } else if units(a, scale) == units(b, scale) {
        Order::Same
    } else {
        Order::After
    }
}

/// The digits `digits` with `places` zeros behind them, if that fits in 128 bits.
fn scale_up(digits: u64, places: u32) -> (r: Option<u128>)
    ensures
        r matches Some(v) ==> v == digits as nat * pow10(places as nat),
        r is None ==> digits as nat * pow10(places as nat) > u128::MAX,
{
    if digits == 0 {
        assert(0 * pow10(places as nat) == 0) by (nonlinear_arith);
        return Some(0);
    }
    match power_of_ten(places) {
        None => {
            assert(digits as nat * pow10(places as nat) >= pow10(places as nat))
                by (nonlinear_arith)
                requires
                    digits >= 1,
            ;
            None
        },
        Some(p) => (digits as u128).checked_mul(p),
    }
}

impl Decimal {
    /// Compares the numbers that two decimals write.
    pub fn compare(&self, other: &Decimal) -> (o: Order)
        ensures
            o == decimal_order(*self, *other),
    {
        let (mine, yours) = if self.scale >= other.scale {
            (scale_up(self.digits, 0), scale_up(other.digits, self.scale - other.scale))
        } else {
            (scale_up(self.digits, other.scale - self.scale), scale_up(other.digits, 0))
        };
        proof {
            assert(pow10(0) == 1);
            assert(self.digits as nat * 1 == self.digits) by (nonlinear_arith);
            assert(other.digits as nat * 1 == other.digits) by (nonlinear_arith);
        }
        match (mine, yours) {
            (Some(x), Some(y)) => if x < y {
                Order::Before
            } else if x == y {
                Order::Same
            } else {
                Order::After
            },
            (None, _) => Order::After,
            (Some(_), None) => Order::Before,
        }
    }
}

/// Replaces a name by something of kind `I` throughout a term.
pub trait Substitutable<I>: Sized {
    fn substitute(&self, src: &str, dest: I) -> Self;
}

/// The left side of a binding, and a formal parameter of a definition.
#[derive(Debug)]
pub enum Pattern {
    Wildcard,
    Name(String),
    Tuple(Vec<Pattern>),
}

/// What a [`Pattern`] is, with its names as sequences of characters.
pub ghost enum PatternView {
    Wildcard,
    Name(Seq<char>),
    Tuple(Seq<PatternView>),
}

impl View for Pattern {
    type V = PatternView;

    open spec fn view(&self) -> PatternView
        decreases self,
    {
        match self {
            Pattern::Wildcard => PatternView::Wildcard,
            Pattern::Name(n) => PatternView::Name(n@),
            Pattern::Tuple(ps) => PatternView::Tuple(patterns_view(ps@)),
        }
    }
}

/// The patterns of a list, one by one.
pub open spec fn patterns_view(ps: Seq<Pattern>) -> Seq<PatternView>
    decreases ps,
{
    if ps.len() == 0 {
        Seq::empty()
    } else {
        patterns_view(ps.drop_last()).push(ps.last()@)
    }
}

/// The view of a list has the view of each element at its place.
pub proof fn lemma_patterns_view(ps: Seq<Pattern>)
    ensures
        patterns_view(ps).len() == ps.len(),
        forall|k: int| 0 <= k < ps.len() ==> (#[trigger] patterns_view(ps)[k]) == ps[k]@,
    decreases ps.len(),
{
    if ps.len() > 0 {
        lemma_patterns_view(ps.drop_last());
        assert(patterns_view(ps) == patterns_view(ps.drop_last()).push(ps.last()@));
    } else {
        assert(patterns_view(ps) == Seq::<PatternView>::empty());
    }
}

/// A copy of a list of patterns.
pub fn clone_patterns(ps: &Vec<Pattern>) -> (out: Vec<Pattern>)
    ensures
        patterns_view(out@) == patterns_view(ps@),
    decreases ps,
{
    let mut out: Vec<Pattern> = Vec::new();
    let mut i: usize = 0;
    while i < ps.len()
        invariant
            i <= ps.len(),
            out.len() == i,
            forall|k: int| 0 <= k < i ==> out[k]@ == ps[k]@,
        decreases ps.len() - i,
    {
        proof {
            vstd::std_specs::vec::axiom_vec_index_decreases(*ps, i as int);
        }
        out.push(ps[i].clone());
        i += 1;
    }
    proof {
        lemma_patterns_view(out@);
        lemma_patterns_view(ps@);
        assert(patterns_view(out@) =~= patterns_view(ps@));
    }
    out
}

impl Clone for Pattern {
    fn clone(&self) -> (r: Pattern)
        ensures
            r@ == self@,
        decreases self,
    {
        match self {
            Pattern::Wildcard => Pattern::Wildcard,
            Pattern::Name(n) => Pattern::Name(n.clone()),
            Pattern::Tuple(ps) => {
                proof {
                    assert(decreases_to!(*self => self->Tuple_0));
                }
                Pattern::Tuple(clone_patterns(ps))
            },
        }
    }
}

/// The type that an expression of the value language is tagged with.
#[derive(Debug)]
pub enum Type {
    Unit,
    TVar,
    Integer,
    Float,
    Bool,
    Channel(Option<Box<Type>>),
    Constructor(Vec<Type>),
    Tuple,
    Function(Box<Type>, Box<Type>),
}

/// What a [`Type`] is, with its lists as sequences.
pub ghost enum TypeView {
    Unit,
    TVar,
    Integer,
    Float,
    Bool,
    Channel(Option<Box<TypeView>>),
    Constructor(Seq<TypeView>),
    Tuple,
    Function(Box<TypeView>, Box<TypeView>),
}

impl View for Type {
    type V = TypeView;

    open spec fn view(&self) -> TypeView
        decreases self,
    {
        match self {
            Type::Unit => TypeView::Unit,
            Type::TVar => TypeView::TVar,
            Type::Integer => TypeView::Integer,
            Type::Float => TypeView::Float,
            Type::Bool => TypeView::Bool,
            Type::Channel(None) => TypeView::Channel(None),
            Type::Channel(Some(c)) => TypeView::Channel(Some(Box::new((**c)@))),
            Type::Constructor(ts) => TypeView::Constructor(types_view(ts@)),
            Type::Tuple => TypeView::Tuple,
            Type::Function(a, b) => TypeView::Function(Box::new((**a)@), Box::new((**b)@)),
        }
    }
}

/// The types of a list, one by one.
pub open spec fn types_view(ts: Seq<Type>) -> Seq<TypeView>
    decreases ts,
{
    if ts.len() == 0 {
        Seq::empty()
    } else {
        types_view(ts.drop_last()).push(ts.last()@)
    }
}

/// The view of a list has the view of each element at its place.
pub proof fn lemma_types_view(ts: Seq<Type>)
    ensures
        types_view(ts).len() == ts.len(),
        forall|k: int| 0 <= k < ts.len() ==> (#[trigger] types_view(ts)[k]) == ts[k]@,
    decreases ts.len(),
{
    if ts.len() > 0 {
        lemma_types_view(ts.drop_last());
        assert(types_view(ts) == types_view(ts.drop_last()).push(ts.last()@));
    } else {
        assert(types_view(ts) == Seq::<TypeView>::empty());
    }
}

impl Clone for Type {
    fn clone(&self) -> (r: Type)
        ensures
            r@ == self@,
        decreases self,
    {
        match self {
            Type::Unit => Type::Unit,
            Type::TVar => Type::TVar,
            Type::Integer => Type::Integer,
            Type::Float => Type::Float,
            Type::Bool => Type::Bool,
            Type::Channel(None) => Type::Channel(None),
            Type::Channel(Some(c)) => Type::Channel(Some(Box::new((**c).clone()))),
            Type::Constructor(ts) => {
                let mut out: Vec<Type> = Vec::new();
                let mut i: usize = 0;
                while i < ts.len()
                    invariant
                        i <= ts.len(),
                        out.len() == i,
                        forall|k: int| 0 <= k < i ==> out[k]@ == ts[k]@,
                        *self == Type::Constructor(*ts),
                    decreases ts.len() - i,
                {
                    proof {
                        vstd::std_specs::vec::axiom_vec_index_decreases(*ts, i as int);
                        assert(decreases_to!(*self => self->Constructor_0));
                    }
                    out.push(ts[i].clone());
                    i += 1;
                }
                proof {
                    lemma_types_view(out@);
                    lemma_types_view(ts@);
                    assert(types_view(out@) =~= types_view(ts@));
                }
                Type::Constructor(out)
            },
            Type::Tuple => Type::Tuple,
            Type::Function(a, b) => Type::Function(
                Box::new((**a).clone()),
                Box::new((**b).clone()),
            ),
        }
    }
}

} // verus!


