//! Programs as they are written: the surface syntax.
use crate::ast::ActView;
use crate::lambda::{clone_lambdas, lambdas_view, Lambda, LambdaView};
use crate::values::{clone_patterns, patterns_view, Decimal, Pattern, PatternView};
use vstd::prelude::*;

verus! {

/// An action on a channel, as written.
#[derive(Debug)]
pub enum Act {
    Input(String),
    Output(String),
}

impl View for Act {
    type V = ActView;

    open spec fn view(&self) -> ActView {
        match self {
            Act::Input(c) => ActView::Input(c@),
            Act::Output(c) => ActView::Output(c@),
        }
    }
}

impl Clone for Act {
    fn clone(&self) -> (r: Act)
        ensures
            r@ == self@,
    {
        match self {
            Act::Input(c) => Act::Input(c.clone()),
            Act::Output(c) => Act::Output(c.clone()),
        }
    }
}

/// A process, as written.
#[derive(Debug)]
pub enum Process {
    /// `let new c@r in P`
    Restriction(String, Decimal, Box<Process>),
    /// `val pattern = e in P`
    LetVal(Pattern, Lambda, Box<Process>),
    /// `(P | Q | ..)`
    Parallel(Vec<Process>),
    /// `a P`
    Action(Act, Box<Process>),
    /// `do a P or b Q ..`
    Choice(Vec<(Act, Process)>),
    /// `name(e, ..)`
    Instance(String, Vec<Lambda>),
    /// `n of P`
    Repetition(usize, Box<Process>),
    /// `replicate a P`
    Replication(Act, Box<Process>),
    /// `end`
    Termination,
}

/// What a written [`Process`] is, with names as sequences of characters.
pub ghost enum ProcessView {
    Restriction(Seq<char>, Decimal, Box<ProcessView>),
    LetVal(PatternView, LambdaView, Box<ProcessView>),
    Parallel(Seq<ProcessView>),
    Action(ActView, Box<ProcessView>),
    Choice(Seq<(ActView, ProcessView)>),
    Instance(Seq<char>, Seq<LambdaView>),
    Repetition(nat, Box<ProcessView>),
    Replication(ActView, Box<ProcessView>),
    Termination,
}

impl View for Process {
    type V = ProcessView;

    open spec fn view(&self) -> ProcessView
        decreases self,
    {
        match self {
            Process::Restriction(c, r, p) => ProcessView::Restriction(c@, *r, Box::new((**p)@)),
            Process::LetVal(pat, e, p) => ProcessView::LetVal(pat@, e@, Box::new((**p)@)),
            Process::Parallel(ps) => ProcessView::Parallel(processes_view(ps@)),
            Process::Action(a, p) => ProcessView::Action(a@, Box::new((**p)@)),
            Process::Choice(cs) => ProcessView::Choice(choices_view(cs@)),
            Process::Instance(name, args) => ProcessView::Instance(name@, lambdas_view(args@)),
            Process::Repetition(n, p) => ProcessView::Repetition(*n as nat, Box::new((**p)@)),
            Process::Replication(a, p) => ProcessView::Replication(a@, Box::new((**p)@)),
            Process::Termination => ProcessView::Termination,
        }
    }
}

/// The processes of a list, one by one.
pub open spec fn processes_view(ps: Seq<Process>) -> Seq<ProcessView>
    decreases ps,
{
    if ps.len() == 0 {
        Seq::empty()
    } else {
        processes_view(ps.drop_last()).push(ps.last()@)
    }
}

/// The view of a list has the view of each element at its place.
pub proof fn lemma_processes_view(ps: Seq<Process>)
    ensures
        processes_view(ps).len() == ps.len(),
        forall|k: int| 0 <= k < ps.len() ==> (#[trigger] processes_view(ps)[k]) == ps[k]@,
    decreases ps.len(),
{
    if ps.len() > 0 {
        lemma_processes_view(ps.drop_last());
        assert(processes_view(ps) == processes_view(ps.drop_last()).push(ps.last()@));
    } else {
        assert(processes_view(ps) == Seq::<ProcessView>::empty());
    }
}

/// The guarded processes of a list, one by one.
pub open spec fn choices_view(cs: Seq<(Act, Process)>) -> Seq<(ActView, ProcessView)>
    decreases cs,
{
    if cs.len() == 0 {
        Seq::empty()
    } else {
        choices_view(cs.drop_last()).push((cs.last().0@, cs.last().1@))
    }
}

/// The view of a list has the view of each element at its place.
pub proof fn lemma_choices_view(cs: Seq<(Act, Process)>)
    ensures
        choices_view(cs).len() == cs.len(),
        forall|k: int|
            0 <= k < cs.len() ==> (#[trigger] choices_view(cs)[k]) == (cs[k].0@, cs[k].1@),
    decreases cs.len(),
{
    if cs.len() > 0 {
        lemma_choices_view(cs.drop_last());
        assert(choices_view(cs) == choices_view(cs.drop_last()).push((cs.last().0@, cs.last().1@)));
    } else {
        assert(choices_view(cs) == Seq::<(ActView, ProcessView)>::empty());
    }
}

impl Clone for Process {
    fn clone(&self) -> (r: Process)
        ensures
            r@ == self@,
        decreases self,
    {
        match self {
            Process::Restriction(c, rate, p) => Process::Restriction(
                c.clone(),
                *rate,
                Box::new((**p).clone()),
            ),
            Process::LetVal(pat, e, p) => Process::LetVal(
                pat.clone(),
                e.clone(),
                Box::new((**p).clone()),
            ),
            Process::Parallel(ps) => {
                let mut out: Vec<Process> = Vec::new();
                let mut k: usize = 0;
                while k < ps.len()
                    invariant
                        k <= ps.len(),
                        out.len() == k,
                        forall|j: int| 0 <= j < k ==> out[j]@ == ps[j]@,
                        *self == Process::Parallel(*ps),
                    decreases ps.len() - k,
                {
                    proof {
                        vstd::std_specs::vec::axiom_vec_index_decreases(*ps, k as int);
                        assert(decreases_to!(*self => self->Parallel_0));
                    }
                    out.push(ps[k].clone());
                    k += 1;
                }
                proof {
                    lemma_processes_view(out@);
                    lemma_processes_view(ps@);
                    assert(processes_view(out@) =~= processes_view(ps@));
                }
                Process::Parallel(out)
            },
            Process::Action(a, p) => Process::Action(a.clone(), Box::new((**p).clone())),
            Process::Choice(cs) => {
                let mut out: Vec<(Act, Process)> = Vec::new();
                let mut k: usize = 0;
                while k < cs.len()
                    invariant
                        k <= cs.len(),
                        out.len() == k,
                        forall|j: int|
                            0 <= j < k ==> out[j].0@ == cs[j].0@ && out[j].1@ == cs[j].1@,
                        *self == Process::Choice(*cs),
                    decreases cs.len() - k,
                {
                    proof {
                        vstd::std_specs::vec::axiom_vec_index_decreases(*cs, k as int);
                        assert(decreases_to!(*self => self->Choice_0));
                    }
                    out.push((cs[k].0.clone(), cs[k].1.clone()));
                    k += 1;
                }
                proof {
                    lemma_choices_view(out@);
                    lemma_choices_view(cs@);
                    assert(choices_view(out@) =~= choices_view(cs@));
                }
                Process::Choice(out)
            },
            Process::Instance(name, args) => Process::Instance(name.clone(), clone_lambdas(args)),
            Process::Repetition(n, p) => Process::Repetition(*n, Box::new((**p).clone())),
            Process::Replication(a, p) => Process::Replication(a.clone(), Box::new((**p).clone())),
            Process::Termination => Process::Termination,
        }
    }
}

/// A declaration of a program.
#[derive(Debug)]
pub enum Declaration {
    /// `new c@r`
    NewChannel(String, Decimal),
    /// `run P`
    Run(Process),
    /// `val pattern = e`
    Val(Pattern, Lambda),
    /// `let name(pattern, ..) = P`
    Def(String, Vec<Pattern>, Process),
}

/// What a [`Declaration`] is, with names as sequences of characters.
pub ghost enum DeclarationView {
    NewChannel(Seq<char>, Decimal),
    Run(ProcessView),
    Val(PatternView, LambdaView),
    Def(Seq<char>, Seq<PatternView>, ProcessView),
}

impl View for Declaration {
    type V = DeclarationView;

    open spec fn view(&self) -> DeclarationView {
        match self {
            Declaration::NewChannel(c, r) => DeclarationView::NewChannel(c@, *r),
            Declaration::Run(p) => DeclarationView::Run(p@),
            Declaration::Val(pat, e) => DeclarationView::Val(pat@, e@),
            Declaration::Def(name, formals, body) => DeclarationView::Def(
                name@,
                patterns_view(formals@),
                body@,
            ),
        }
    }
}

impl Clone for Declaration {
    fn clone(&self) -> (r: Declaration)
        ensures
            r@ == self@,
    {
        match self {
            Declaration::NewChannel(c, rate) => Declaration::NewChannel(c.clone(), *rate),
            Declaration::Run(p) => Declaration::Run(p.clone()),
            Declaration::Val(pat, e) => Declaration::Val(pat.clone(), e.clone()),
            Declaration::Def(name, formals, body) => Declaration::Def(
                name.clone(),
                clone_patterns(formals),
                body.clone(),
            ),
        }
    }
}

/// A program: its declarations in the order in which they are written.
#[derive(Debug)]
pub enum Program {
    Prog(Vec<Declaration>),
}

impl View for Program {
    type V = Seq<DeclarationView>;

    open spec fn view(&self) -> Seq<DeclarationView> {
        match self {
            Program::Prog(ds) => Seq::new(ds.len() as nat, |k: int| ds[k]@),
        }
    }
}

impl Clone for Program {
    fn clone(&self) -> (r: Program)
        ensures
            r@ == self@,
    {
        match self {
            Program::Prog(ds) => {
                let mut out: Vec<Declaration> = Vec::new();
                let mut k: usize = 0;
                while k < ds.len()
                    invariant
                        k <= ds.len(),
                        out.len() == k,
                        forall|j: int| 0 <= j < k ==> out[j]@ == ds[j]@,
                    decreases ds.len() - k,
                {
                    out.push(ds[k].clone());
                    k += 1;
                }
                let r = Program::Prog(out);
                assert(r@ =~= self@);
                r
            },
        }
    }
}

} // verus!
