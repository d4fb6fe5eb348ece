//! From the surface syntax to the processes that the machine runs.
use crate::ast::{branches_view, lemma_branches_view, Act, ActView, Process, ProcessView};
use crate::lambda::{clone_lambdas, Lambda, LambdaView};
use crate::symgen::{decimal, next, SymbolGenerator};
use crate::syntax;
use crate::syntax::{lemma_choices_view, lemma_processes_view};
use crate::values::{lemma_patterns_view, patterns_view, Pattern, PatternView, Type, TypeView};
use vstd::prelude::*;

verus! {

/// Why a written process is no process of the machine.
#[derive(Clone, Copy, Debug, PartialEq, Eq, Structural)]
pub enum SyntaxError {
    /// A value is bound to the wildcard pattern.
    WildcardBinding,
    /// A parallel composition of no process.
    EmptyParallel,
    /// The fresh names are used up.
    SymbolsExhausted,
    /// A tuple pattern has more components than an index can number.
    TupleTooWide,
}

/// The variable `name`.
pub open spec fn variable(name: Seq<char>) -> LambdaView {
    LambdaView::Var { v: name, t: TypeView::Unit }
}

/// Component `i` of the tuple that the variable `parent` holds.
pub open spec fn component(i: int, parent: Seq<char>) -> LambdaView {
    LambdaView::Index { i: i as i64, e: Box::new(variable(parent)), t: TypeView::Unit }
}

/// The bindings that take the value of variable `parent` apart along pattern
/// `pat`, and the counter of fresh names after them. A name is bound to the
/// parent. Each component of a tuple is bound to a fresh name, and the
/// bindings of the pattern at that component, taken below the fresh name,
/// follow it. A wildcard binds nothing and is refused.
pub open spec fn bindings_spec(pat: PatternView, parent: Seq<char>, n: nat) -> (
    Result<Seq<(Seq<char>, LambdaView)>, SyntaxError>,
    nat,
)
    decreases pat,
{
    match pat {
        PatternView::Wildcard => (Err(SyntaxError::WildcardBinding), n),
        PatternView::Name(x) => (Ok(seq![(x, variable(parent))]), n),
        PatternView::Tuple(ps) => items_spec(ps, parent, n),
    }
}

/// The bindings of the components of a tuple pattern, from the first on:
/// for each component the binding of a fresh name to it, and then the
/// bindings of its pattern below that name.
pub open spec fn items_spec(ps: Seq<PatternView>, parent: Seq<char>, n: nat) -> (
    Result<Seq<(Seq<char>, LambdaView)>, SyntaxError>,
    nat,
)
    decreases ps,
{
    if ps.len() == 0 {
        (Ok(Seq::empty()), n)
    } else {
        let (r, n1) = items_spec(ps.drop_last(), parent, n);
        match r {
            Err(e) => (Err(e), n1),
            Ok(items) => if ps.len() - 1 > i64::MAX {
                (Err(SyntaxError::TupleTooWide), n1)
            } else if n1 >= usize::MAX {
                (Err(SyntaxError::SymbolsExhausted), n1)
            } else {
                let v = decimal(n1);
                let (sub, n2) = bindings_spec(ps.last(), v, n1 + 1);
                match sub {
                    Err(e) => (Err(e), n2),
                    Ok(inner) => (
                        Ok(items.push((v, component(ps.len() - 1, parent))) + inner),
                        n2,
                    ),
                }
            },
        }
    }
}

/// The process `base` below the bindings `items`, the first outermost.
pub open spec fn wrap_bindings(items: Seq<(Seq<char>, LambdaView)>, base: ProcessView) -> ProcessView
    decreases items.len(),
{
    if items.len() == 0 {
        base
    } else {
        wrap_bindings(
            items.drop_last(),
            ProcessView::LetVal(items.last().0, items.last().1, Box::new(base)),
        )
    }
}

/// The process `base` with the value `e` bound to a fresh variable and
/// taken apart along the tuple pattern `pat` around it.
pub open spec fn destruct_spec(pat: PatternView, e: LambdaView, base: ProcessView, n: nat) -> (
    Result<ProcessView, SyntaxError>,
    nat,
) {
    if n >= usize::MAX {
        (Err(SyntaxError::SymbolsExhausted), n)
    } else {
        let fresh = decimal(n);
        let (r, n1) = bindings_spec(pat, fresh, n + 1);
        match r {
            Err(err) => (Err(err), n1),
            Ok(items) => (Ok(ProcessView::LetVal(fresh, e, Box::new(wrap_bindings(items, base)))), n1),
        }
    }
}

/// The process of the machine that the written process `p` stands for, and
/// the counter of fresh names after it.
pub open spec fn lower_spec(p: syntax::ProcessView, n: nat) -> (
    Result<ProcessView, SyntaxError>,
    nat,
)
    decreases p,
{
    match p {
        syntax::ProcessView::Restriction(c, r, body) => {
            let (res, n1) = lower_spec(*body, n);
            match res {
                Err(e) => (Err(e), n1),
                Ok(q) => (Ok(ProcessView::Restriction(c, r, Box::new(q))), n1),
            }
        },
        syntax::ProcessView::LetVal(pat, e, body) => match pat {
            PatternView::Wildcard => (Err(SyntaxError::WildcardBinding), n),
            PatternView::Name(x) => {
                let (res, n1) = lower_spec(*body, n);
                match res {
                    Err(err) => (Err(err), n1),
                    Ok(q) => (Ok(ProcessView::LetVal(x, e, Box::new(q))), n1),
                }
            },
            PatternView::Tuple(_) => {
                let (res, n1) = lower_spec(*body, n);
                match res {
                    Err(err) => (Err(err), n1),
                    Ok(q) => destruct_spec(pat, e, q, n1),
                }
            },
        },
        syntax::ProcessView::Parallel(ps) => if ps.len() == 0 {
            (Err(SyntaxError::EmptyParallel), n)
        } else {
            let (res, n1) = lower_spec(ps.last(), n);
            match res {
                Err(e) => (Err(e), n1),
                Ok(q) => lower_parallel_spec(ps.drop_last(), q, n1),
            }
        },
        syntax::ProcessView::Action(a, body) => {
            let (res, n1) = lower_spec(*body, n);
            match res {
                Err(e) => (Err(e), n1),
                Ok(q) => (Ok(ProcessView::Summation(seq![(a, q)])), n1),
            }
        },
        syntax::ProcessView::Choice(cs) => {
            let (res, n1) = lower_choice_spec(cs, n);
            match res {
                Err(e) => (Err(e), n1),
                Ok(bs) => (Ok(ProcessView::Summation(bs)), n1),
            }
        },
        syntax::ProcessView::Instance(name, args) => (Ok(ProcessView::Instance(name, args)), n),
        syntax::ProcessView::Repetition(k, body) => {
            let (res, n1) = lower_spec(*body, n);
            match res {
                Err(e) => (Err(e), n1),
                Ok(q) => (Ok(ProcessView::Repetition(k, Box::new(q))), n1),
            }
        },
        syntax::ProcessView::Replication(a, body) => {
            let (res, n1) = lower_spec(*body, n);
            match res {
                Err(e) => (Err(e), n1),
                Ok(q) => (Ok(ProcessView::Replication(a, Box::new(q))), n1),
            }
        },
        syntax::ProcessView::Termination => (Ok(ProcessView::Termination), n),
    }
}

/// The written processes `ps` side by side with `right`, which stands to the
/// right of them all. They are taken from the last to the first.
pub open spec fn lower_parallel_spec(ps: Seq<syntax::ProcessView>, right: ProcessView, n: nat) -> (
    Result<ProcessView, SyntaxError>,
    nat,
)
    decreases ps,
{
    if ps.len() == 0 {
        (Ok(right), n)
    } else {
        let (res, n1) = lower_spec(ps.last(), n);
        match res {
            Err(e) => (Err(e), n1),
            Ok(q) => lower_parallel_spec(
                ps.drop_last(),
                ProcessView::Parallel(Box::new(q), Box::new(right)),
                n1,
            ),
        }
    }
}

/// The guarded processes of a written choice, in the order in which they
/// are written.
pub open spec fn lower_choice_spec(cs: Seq<(ActView, syntax::ProcessView)>, n: nat) -> (
    Result<Seq<(ActView, ProcessView)>, SyntaxError>,
    nat,
)
    decreases cs,
{
    if cs.len() == 0 {
        (Ok(Seq::empty()), n)
    } else {
        let (rest, n1) = lower_choice_spec(cs.drop_last(), n);
        match rest {
            Err(e) => (Err(e), n1),
            Ok(bs) => {
                let (res, n2) = lower_spec(cs.last().1, n1);
                match res {
                    Err(e) => (Err(e), n2),
                    Ok(q) => (Ok(bs.push((cs.last().0, q))), n2),
                }
            },
        }
    }
}

/// Taking a value apart uses fresh names and gives none back.
pub proof fn lemma_bindings_counter(pat: PatternView, parent: Seq<char>, n: nat)
    ensures
        bindings_spec(pat, parent, n).1 >= n,
    decreases pat,
{
    match pat {
        PatternView::Tuple(ps) => {
            lemma_items_counter(ps, parent, n);
        },
        _ => {},
    }
}

/// What [`lemma_bindings_counter`] says, of the components of a tuple pattern.
pub proof fn lemma_items_counter(ps: Seq<PatternView>, parent: Seq<char>, n: nat)
    ensures
        items_spec(ps, parent, n).1 >= n,
    decreases ps,
{
    if ps.len() > 0 {
        lemma_items_counter(ps.drop_last(), parent, n);
        let n1 = items_spec(ps.drop_last(), parent, n).1;
        lemma_bindings_counter(ps.last(), decimal(n1), n1 + 1);
    }
}

/// Making a written process a process of the machine uses fresh names and
/// gives none back.
pub proof fn lemma_lower_counter(p: syntax::ProcessView, n: nat)
    ensures
        lower_spec(p, n).1 >= n,
    decreases p,
{
    match p {
        syntax::ProcessView::Restriction(_, _, body) => {
            lemma_lower_counter(*body, n);
        },
        syntax::ProcessView::LetVal(pat, _, body) => {
            lemma_lower_counter(*body, n);
            let n1 = lower_spec(*body, n).1;
            lemma_bindings_counter(pat, decimal(n1), n1 + 1);
        },
        syntax::ProcessView::Parallel(ps) => {
            if ps.len() > 0 {
                lemma_lower_counter(ps.last(), n);
                let (res, n1) = lower_spec(ps.last(), n);
                if res is Ok {
                    lemma_lower_parallel_counter(ps.drop_last(), res->Ok_0, n1);
                }
            }
        },
        syntax::ProcessView::Action(_, body) => {
            lemma_lower_counter(*body, n);
        },
        syntax::ProcessView::Choice(cs) => {
            lemma_lower_choice_counter(cs, n);
        },
        syntax::ProcessView::Repetition(_, body) => {
            lemma_lower_counter(*body, n);
        },
        syntax::ProcessView::Replication(_, body) => {
            lemma_lower_counter(*body, n);
        },
        _ => {},
    }
}

/// What [`lemma_lower_counter`] says, of the parts of a parallel composition.
pub proof fn lemma_lower_parallel_counter(
    ps: Seq<syntax::ProcessView>,
    right: ProcessView,
    n: nat,
)
    ensures
        lower_parallel_spec(ps, right, n).1 >= n,
    decreases ps,
{
    if ps.len() > 0 {
        lemma_lower_counter(ps.last(), n);
        let (res, n1) = lower_spec(ps.last(), n);
        if res is Ok {
            lemma_lower_parallel_counter(
                ps.drop_last(),
                ProcessView::Parallel(Box::new(res->Ok_0), Box::new(right)),
                n1,
            );
        }
    }
}

/// What [`lemma_lower_counter`] says, of the guarded processes of a choice.
pub proof fn lemma_lower_choice_counter(cs: Seq<(ActView, syntax::ProcessView)>, n: nat)
    ensures
        lower_choice_spec(cs, n).1 >= n,
    decreases cs,
{
    if cs.len() > 0 {
        lemma_lower_choice_counter(cs.drop_last(), n);
        let n1 = lower_choice_spec(cs.drop_last(), n).1;
        lemma_lower_counter(cs.last().1, n1);
    }
}

/// What a conversion returned, with the process by its view.
pub open spec fn lowered(r: Result<Process, SyntaxError>) -> Result<ProcessView, SyntaxError> {
    match r {
        Ok(p) => Ok(p@),
        Err(e) => Err(e),
    }
}

/// The bindings of a list, with names as sequences of characters.
pub open spec fn bindings_view(items: Seq<(String, Lambda)>) -> Seq<(Seq<char>, LambdaView)> {
    Seq::new(items.len(), |k: int| (items[k].0@, items[k].1@))
}

/// What a walk along a pattern returned, with the bindings by their view.
pub open spec fn bound(r: Result<Vec<(String, Lambda)>, SyntaxError>) -> Result<
    Seq<(Seq<char>, LambdaView)>,
    SyntaxError,
> {
    match r {
        Ok(items) => Ok(bindings_view(items@)),
        Err(e) => Err(e),
    }
}

impl Act {
    /// The action that the written action stands for.
    pub fn from_syntax(syn: &syntax::Act) -> (a: Act)
        ensures
            a@ == syn@,
    {
        match syn {
            syntax::Act::Input(c) => Act::Input(c.clone()),
            syntax::Act::Output(c) => Act::Output(c.clone()),
        }
    }
}

/// Walks along pattern `pat` below the variable `parent` and gives the
/// bindings that take the variable's value apart.
pub fn recurse(pat: &Pattern, parent: String, gen: &mut SymbolGenerator) -> (r: Result<
    Vec<(String, Lambda)>,
    SyntaxError,
>)
    ensures
        (bound(r), final(gen)@) == bindings_spec(pat@, parent@, old(gen)@),
    decreases pat, 0nat,
{
    match pat {
        Pattern::Wildcard => Err(SyntaxError::WildcardBinding),
        Pattern::Name(x) => {
            let mut items: Vec<(String, Lambda)> = Vec::new();
            items.push((x.clone(), Lambda::Var { v: parent, t: Type::Unit }));
            proof {
                assert(bindings_view(items@) =~= seq![(x@, variable(parent@))]);
            }
            Ok(items)
        },
        Pattern::Tuple(ps) => {
            proof {
                lemma_patterns_view(ps@);
                assert(patterns_view(ps@).take(ps.len() as int) =~= patterns_view(ps@));
            }
            recurse_items(ps, ps.len(), &parent, gen)
        },
    }
}

/// The bindings of the first `upto` components of a tuple pattern.
fn recurse_items(ps: &Vec<Pattern>, upto: usize, parent: &String, gen: &mut SymbolGenerator) -> (r:
    Result<Vec<(String, Lambda)>, SyntaxError>)
    requires
        upto <= ps.len(),
    ensures
        (bound(r), final(gen)@) == items_spec(
            patterns_view(ps@).take(upto as int),
            parent@,
            old(gen)@,
        ),
    decreases ps, upto,
{
    let ghost all = patterns_view(ps@);
    proof {
        lemma_patterns_view(ps@);
    }
    if upto == 0 {
        let items: Vec<(String, Lambda)> = Vec::new();
        proof {
            assert(bindings_view(items@) =~= Seq::<(Seq<char>, LambdaView)>::empty());
        }
        return Ok(items);
    }
    proof {
        assert(all.take(upto as int).drop_last() =~= all.take(upto - 1));
        assert(all.take(upto as int).last() == ps[upto - 1]@);
    }
    let mut items = match recurse_items(ps, upto - 1, parent, gen) {
        Err(e) => {
            return Err(e);
        },
        Ok(items) => items,
    };
    let at: usize = upto - 1;
    if (at as u64) > 0x7fff_ffff_ffff_ffffu64 {
        return Err(SyntaxError::TupleTooWide);
    }
    if gen.exhausted() {
        return Err(SyntaxError::SymbolsExhausted);
    }
    let v = next(gen);
    proof {
        vstd::std_specs::vec::axiom_vec_index_decreases(*ps, upto - 1);
    }
    match recurse(&ps[upto - 1], v.clone(), gen) {
        Err(e) => Err(e),
        Ok(inner) => {
            let mut inner = inner;
            let ghost before = items@;
            let ghost below = inner@;
            let var = Lambda::Var { v: parent.clone(), t: Type::Unit };
            assert(var@ == variable(parent@));
            let part = Lambda::Index { i: at as i64, e: Box::new(var), t: Type::Unit };
            assert(part@ == component(upto - 1, parent@));
            let ghost name = v@;
            items.push((v, part));
            items.append(&mut inner);
            proof {
                assert(bindings_view(items@) =~= bindings_view(before).push(
                    (name, component(upto - 1, parent@)),
                ) + bindings_view(below));
            }
            Ok(items)
        },
    }
}

/// Puts the first `upto` bindings of `items` around `base`, the first outermost.
fn wrap(items: &Vec<(String, Lambda)>, upto: usize, base: Process) -> (r: Process)
    requires
        upto <= items.len(),
    ensures
        r@ == wrap_bindings(bindings_view(items@).take(upto as int), base@),
    decreases upto,
{
    if upto == 0 {
        return base;
    }
    let ghost all = bindings_view(items@);
    proof {
        assert(all.take(upto as int).drop_last() =~= all.take(upto - 1));
        assert(all.take(upto as int).last() == all[upto - 1]);
    }
    let inner = Process::LetVal(
        items[upto - 1].0.clone(),
        items[upto - 1].1.clone(),
        Box::new(base),
    );
    wrap(items, upto - 1, inner)
}

/// Binds the value `expr` to a fresh variable around `base` and takes it
/// apart along the tuple pattern `pat`.
pub fn destruct(pat: &Pattern, expr: Lambda, base: Process, gen: &mut SymbolGenerator) -> (r:
    Result<Process, SyntaxError>)
    ensures
        (lowered(r), final(gen)@) == destruct_spec(pat@, expr@, base@, old(gen)@),
{
    if gen.exhausted() {
        return Err(SyntaxError::SymbolsExhausted);
    }
    let fresh = next(gen);
    match recurse(pat, fresh.clone(), gen) {
        Err(e) => Err(e),
        Ok(items) => {
            proof {
                assert(bindings_view(items@).take(items.len() as int) =~= bindings_view(items@));
            }
            let inner = wrap(&items, items.len(), base);
            Ok(Process::LetVal(fresh, expr, Box::new(inner)))
        },
    }
}

impl Process {
    /// The process of the machine that the written process stands for. A
    /// parallel composition nests to the right, a guarded process becomes a
    /// choice of one, the guarded processes of a choice keep their order,
    /// and a binding of a tuple pattern becomes a chain of bindings: the
    /// value under a fresh name, each component under a fresh name, and the
    /// names of the pattern below those.
    pub fn from_syntax(syn: &syntax::Process, gen: &mut SymbolGenerator) -> (r: Result<
        Process,
        SyntaxError,
    >)
        ensures
            (lowered(r), final(gen)@) == lower_spec(syn@, old(gen)@),
        decreases syn, 0nat,
    {
        match syn {
            syntax::Process::Restriction(c, rate, body) => {
                match Process::from_syntax(body, gen) {
                    Err(e) => Err(e),
                    Ok(q) => Ok(Process::Restriction(c.clone(), *rate, Box::new(q))),
                }
            },
            syntax::Process::LetVal(pat, e, body) => match pat {
                Pattern::Wildcard => Err(SyntaxError::WildcardBinding),
                Pattern::Name(x) => {
                    match Process::from_syntax(body, gen) {
                        Err(err) => Err(err),
                        Ok(q) => Ok(Process::LetVal(x.clone(), e.clone(), Box::new(q))),
                    }
                },
                Pattern::Tuple(_) => {
                    match Process::from_syntax(body, gen) {
                        Err(err) => Err(err),
                        Ok(q) => destruct(pat, e.clone(), q, gen),
                    }
                },
            },
            syntax::Process::Parallel(ps) => {
                proof {
                    lemma_processes_view(ps@);
                    assert(decreases_to!(*syn => syn->Parallel_0));
                }
                if ps.len() == 0 {
                    return Err(SyntaxError::EmptyParallel);
                }
                let last: usize = ps.len() - 1;
                proof {
                    vstd::std_specs::vec::axiom_vec_index_decreases(*ps, last as int);
                    assert(syn@->Parallel_0.drop_last() =~= syn@->Parallel_0.take(last as int));
                }
                match Process::from_syntax(&ps[last], gen) {
                    Err(e) => Err(e),
                    Ok(q) => lower_parallel(ps, last, q, gen),
                }
            },
            syntax::Process::Action(a, body) => {
                match Process::from_syntax(body, gen) {
                    Err(e) => Err(e),
                    Ok(q) => {
                        let mut bs: Vec<(Act, Process)> = Vec::new();
                        bs.push((Act::from_syntax(a), q));
                        proof {
                            lemma_branches_view(bs@);
                            assert(branches_view(bs@) =~= seq![(a@, q@)]);
                        }
                        Ok(Process::Summation(bs))
                    },
                }
            },
            syntax::Process::Choice(cs) => {
                proof {
                    lemma_choices_view(cs@);
                    assert(decreases_to!(*syn => syn->Choice_0));
                    assert(syn@->Choice_0.take(cs.len() as int) =~= syn@->Choice_0);
                }
                match lower_choice(cs, cs.len(), gen) {
                    Err(e) => Err(e),
                    Ok(bs) => Ok(Process::Summation(bs)),
                }
            },
            syntax::Process::Instance(name, args) => Ok(
                Process::Instance(name.clone(), clone_lambdas(args)),
            ),
            syntax::Process::Repetition(n, body) => {
                match Process::from_syntax(body, gen) {
                    Err(e) => Err(e),
                    Ok(q) => Ok(Process::Repetition(*n, Box::new(q))),
                }
            },
            syntax::Process::Replication(a, body) => {
                match Process::from_syntax(body, gen) {
                    Err(e) => Err(e),
                    Ok(q) => Ok(Process::Replication(Act::from_syntax(a), Box::new(q))),
                }
            },
            syntax::Process::Termination => Ok(Process::Termination),
        }
    }
}

/// Puts the first `upto` written processes of `ps` to the left of `right`.
fn lower_parallel(
    ps: &Vec<syntax::Process>,
    upto: usize,
    right: Process,
    gen: &mut SymbolGenerator,
) -> (r: Result<Process, SyntaxError>)
    requires
        upto <= ps.len(),
    ensures
        (lowered(r), final(gen)@) == lower_parallel_spec(
            syntax::processes_view(ps@).take(upto as int),
            right@,
            old(gen)@,
        ),
    decreases ps, upto,
{
    let ghost all = syntax::processes_view(ps@);
    proof {
        lemma_processes_view(ps@);
    }
    if upto == 0 {
        return Ok(right);
    }
    proof {
        assert(all.take(upto as int).drop_last() =~= all.take(upto - 1));
        assert(all.take(upto as int).last() == ps[upto - 1]@);
        vstd::std_specs::vec::axiom_vec_index_decreases(*ps, upto - 1);
    }
    match Process::from_syntax(&ps[upto - 1], gen) {
        Err(e) => Err(e),
        Ok(q) => lower_parallel(
            ps,
            upto - 1,
            Process::Parallel(Box::new(q), Box::new(right)),
            gen,
        ),
    }
}

/// The first `upto` guarded processes of a written choice, in their order.
fn lower_choice(cs: &Vec<(syntax::Act, syntax::Process)>, upto: usize, gen: &mut SymbolGenerator) -> (r:
    Result<Vec<(Act, Process)>, SyntaxError>)
    requires
        upto <= cs.len(),
    ensures
        (
            match r {
                Ok(bs) => Ok(branches_view(bs@)),
                Err(e) => Err(e),
            },
            final(gen)@,
        ) == lower_choice_spec(syntax::choices_view(cs@).take(upto as int), old(gen)@),
    decreases cs, upto,
{
    let ghost all = syntax::choices_view(cs@);
    proof {
        lemma_choices_view(cs@);
    }
    if upto == 0 {
        let bs: Vec<(Act, Process)> = Vec::new();
        proof {
            lemma_branches_view(bs@);
            assert(branches_view(bs@) =~= Seq::<(ActView, ProcessView)>::empty());
        }
        return Ok(bs);
    }
    proof {
        assert(all.take(upto as int).drop_last() =~= all.take(upto - 1));
        assert(all.take(upto as int).last() == (cs[upto - 1].0@, cs[upto - 1].1@));
        vstd::std_specs::vec::axiom_vec_index_decreases(*cs, upto - 1);
    }
    match lower_choice(cs, upto - 1, gen) {
        Err(e) => Err(e),
        Ok(rest) => {
            match Process::from_syntax(&cs[upto - 1].1, gen) {
                Err(e) => Err(e),
                Ok(q) => {
                    let mut bs = rest;
                    let ghost before = bs@;
                    let ghost last = (cs[upto - 1].0@, q@);
                    bs.push((Act::from_syntax(&cs[upto - 1].0), q));
                    proof {
                        lemma_branches_view(bs@);
                        lemma_branches_view(before);
                        assert(branches_view(bs@) =~= branches_view(before).push(last));
                    }
                    Ok(bs)
                },
            }
        },
    }
}

} // verus!
