//! Processes as the machine runs them, and substitution on them.
use crate::lambda::{
    clone_lambdas, lambdas_view, lemma_lambdas_view, lemma_substitute_commutes, occurs,
    substitute_spec, Lambda, LambdaView,
};
use crate::values::{
    lemma_patterns_view, patterns_view, Decimal, Pattern, PatternView, Substitutable,
};
use vstd::prelude::*;
use vstd::string::*;

verus! {

/// An action on a channel: to receive on it or to send on it.
#[derive(Debug)]
pub enum Act {
    Input(String),
    Output(String),
}

/// What an [`Act`] is, with the channel's name as a sequence of characters.
pub ghost enum ActView {
    Input(Seq<char>),
    Output(Seq<char>),
}

impl View for Act {
    type V = ActView;

    open spec fn view(&self) -> ActView {
        match self {
            Act::Input(c) => ActView::Input(c@),
            Act::Output(c) => ActView::Output(c@),
        }
    }
}

impl Clone for Act {
    fn clone(&self) -> (r: Act)
        ensures
            r@ == self@,
    {
        match self {
            Act::Input(c) => Act::Input(c.clone()),
            Act::Output(c) => Act::Output(c.clone()),
        }
    }
}

/// A process.
#[derive(Debug)]
pub enum Process {
    /// A channel with a rate, local to the process.
    Restriction(String, Decimal, Box<Process>),
    /// A variable bound to a value in the process.
    LetVal(String, Lambda, Box<Process>),
    /// Two processes side by side.
    Parallel(Box<Process>, Box<Process>),
    /// A choice among guarded processes.
    Summation(Vec<(Act, Process)>),
    /// A definition applied to arguments.
    Instance(String, Vec<Lambda>),
    /// So many copies of the process side by side.
    Repetition(usize, Box<Process>),
    /// A guarded process that stays when it has fired.
    Replication(Act, Box<Process>),
    /// The process that does nothing.
    Termination,
}

/// What a [`Process`] is, with names as sequences of characters.
pub ghost enum ProcessView {
    Restriction(Seq<char>, Decimal, Box<ProcessView>),
    LetVal(Seq<char>, LambdaView, Box<ProcessView>),
    Parallel(Box<ProcessView>, Box<ProcessView>),
    Summation(Seq<(ActView, ProcessView)>),
    Instance(Seq<char>, Seq<LambdaView>),
    Repetition(nat, Box<ProcessView>),
    Replication(ActView, Box<ProcessView>),
    Termination,
}

impl View for Process {
    type V = ProcessView;

    open spec fn view(&self) -> ProcessView
        decreases self,
    {
        match self {
            Process::Restriction(c, r, p) => ProcessView::Restriction(c@, *r, Box::new((**p)@)),
            Process::LetVal(x, e, p) => ProcessView::LetVal(x@, e@, Box::new((**p)@)),
            Process::Parallel(p, q) => ProcessView::Parallel(
                Box::new((**p)@),
                Box::new((**q)@),
            ),
            Process::Summation(bs) => ProcessView::Summation(branches_view(bs@)),
            Process::Instance(name, args) => ProcessView::Instance(name@, lambdas_view(args@)),
            Process::Repetition(n, p) => ProcessView::Repetition(*n as nat, Box::new((**p)@)),
            Process::Replication(a, p) => ProcessView::Replication(a@, Box::new((**p)@)),
            Process::Termination => ProcessView::Termination,
        }
    }
}

/// The guarded processes of a list, one by one.
pub open spec fn branches_view(bs: Seq<(Act, Process)>) -> Seq<(ActView, ProcessView)>
    decreases bs,
{
    if bs.len() == 0 {
        Seq::empty()
    } else {
        branches_view(bs.drop_last()).push((bs.last().0@, bs.last().1@))
    }
}

/// The view of a list has the view of each element at its place.
pub proof fn lemma_branches_view(bs: Seq<(Act, Process)>)
    ensures
        branches_view(bs).len() == bs.len(),
        forall|k: int|
            0 <= k < bs.len() ==> (#[trigger] branches_view(bs)[k]) == (bs[k].0@, bs[k].1@),
    decreases bs.len(),
{
    if bs.len() > 0 {
        lemma_branches_view(bs.drop_last());
        assert(branches_view(bs) == branches_view(bs.drop_last()).push(
            (bs.last().0@, bs.last().1@),
        ));
    } else {
        assert(branches_view(bs) == Seq::<(ActView, ProcessView)>::empty());
    }
}

/// The action with channel `dest` in place of channel `src`.
pub open spec fn rename_act(a: ActView, src: Seq<char>, dest: Seq<char>) -> ActView {
    match a {
        ActView::Input(c) => ActView::Input(
            if c == src {
                dest
            } else {
                c
            },
        ),
        ActView::Output(c) => ActView::Output(
            if c == src {
                dest
            } else {
                c
            },
        ),
    }
}

/// The process with channel `dest` in place of channel `src` in every action.
/// A restriction of the same name does not stop the replacement.
pub open spec fn rename_spec(p: ProcessView, src: Seq<char>, dest: Seq<char>) -> ProcessView
    decreases p,
{
    match p {
        ProcessView::Restriction(c, r, body) => ProcessView::Restriction(
            c,
            r,
            Box::new(rename_spec(*body, src, dest)),
        ),
        ProcessView::LetVal(x, e, body) => ProcessView::LetVal(
            x,
            e,
            Box::new(rename_spec(*body, src, dest)),
        ),
        ProcessView::Parallel(l, r) => ProcessView::Parallel(
            Box::new(rename_spec(*l, src, dest)),
            Box::new(rename_spec(*r, src, dest)),
        ),
        ProcessView::Summation(bs) => ProcessView::Summation(
            Seq::new(
                bs.len(),
                |k: int|
                    if 0 <= k < bs.len() {
                        (rename_act(bs[k].0, src, dest), rename_spec(bs[k].1, src, dest))
                    } else {
                        (ActView::Input(src), p)
                    },
            ),
        ),
        ProcessView::Instance(name, args) => p,
        ProcessView::Repetition(n, body) => ProcessView::Repetition(
            n,
            Box::new(rename_spec(*body, src, dest)),
        ),
        ProcessView::Replication(a, body) => ProcessView::Replication(
            rename_act(a, src, dest),
            Box::new(rename_spec(*body, src, dest)),
        ),
        ProcessView::Termination => p,
    }
}

/// Whether an action of the process, at any depth, is on channel `c`.
pub open spec fn acts_on(p: ProcessView, c: Seq<char>) -> bool
    decreases p,
{
    match p {
        ProcessView::Restriction(_, _, body) => acts_on(*body, c),
        ProcessView::LetVal(_, _, body) => acts_on(*body, c),
        ProcessView::Parallel(l, r) => acts_on(*l, c) || acts_on(*r, c),
        ProcessView::Summation(bs) => any_acts_on(bs, c),
        ProcessView::Instance(_, _) => false,
        ProcessView::Repetition(_, body) => acts_on(*body, c),
        ProcessView::Replication(a, body) => channel_of(a) == c || acts_on(*body, c),
        ProcessView::Termination => false,
    }
}

/// Whether a guard of the list, or an action of a process behind one, is on
/// channel `c`.
pub open spec fn any_acts_on(bs: Seq<(ActView, ProcessView)>, c: Seq<char>) -> bool
    decreases bs,
{
    if bs.len() == 0 {
        false
    } else {
        any_acts_on(bs.drop_last(), c) || channel_of(bs.last().0) == c || acts_on(bs.last().1, c)
    }
}

/// A renamed channel is gone: no action of the process is on the old name,
/// and the actions on other names are on them still.
pub proof fn lemma_rename_scopes(p: ProcessView, src: Seq<char>, dest: Seq<char>, c: Seq<char>)
    requires
        src != dest,
    ensures
        !acts_on(rename_spec(p, src, dest), src),
        c != src && c != dest ==> acts_on(rename_spec(p, src, dest), c) == acts_on(p, c),
    decreases p,
{
    match p {
        ProcessView::Restriction(_, _, body) => {
            lemma_rename_scopes(*body, src, dest, c);
        },
        ProcessView::LetVal(_, _, body) => {
            lemma_rename_scopes(*body, src, dest, c);
        },
        ProcessView::Parallel(l, r) => {
            lemma_rename_scopes(*l, src, dest, c);
            lemma_rename_scopes(*r, src, dest, c);
        },
        ProcessView::Summation(bs) => {
            let out = rename_spec(p, src, dest)->Summation_0;
            assert(out.len() == bs.len());
            lemma_rename_branches(bs, out, src, dest, c);
        },
        ProcessView::Repetition(_, body) => {
            lemma_rename_scopes(*body, src, dest, c);
        },
        ProcessView::Replication(_, body) => {
            lemma_rename_scopes(*body, src, dest, c);
        },
        _ => {},
    }
}

/// What [`lemma_rename_scopes`] says, of the guarded processes of a list
/// and their renamed forms.
pub proof fn lemma_rename_branches(
    bs: Seq<(ActView, ProcessView)>,
    out: Seq<(ActView, ProcessView)>,
    src: Seq<char>,
    dest: Seq<char>,
    c: Seq<char>,
)
    requires
        src != dest,
        out.len() == bs.len(),
        forall|k: int|
            0 <= k < bs.len() ==> (#[trigger] out[k]) == (
                rename_act(bs[k].0, src, dest),
                rename_spec(bs[k].1, src, dest),
            ),
    ensures
        !any_acts_on(out, src),
        c != src && c != dest ==> any_acts_on(out, c) == any_acts_on(bs, c),
    decreases bs,
{
    if bs.len() > 0 {
        let last = bs.len() - 1;
        assert(out[last] == (
            rename_act(bs[last].0, src, dest),
            rename_spec(bs[last].1, src, dest),
        ));
        assert forall|k: int| 0 <= k < bs.drop_last().len() implies (#[trigger] out.drop_last()[k])
            == (
            rename_act(bs.drop_last()[k].0, src, dest),
            rename_spec(bs.drop_last()[k].1, src, dest),
        ) by {
            assert(out.drop_last()[k] == out[k]);
        }
        lemma_rename_branches(bs.drop_last(), out.drop_last(), src, dest, c);
        lemma_rename_scopes(bs.last().1, src, dest, c);
    }
}

/// The process with value `dest` in place of every variable named `src`, in
/// the values that it binds and in the arguments that it passes. A binding of
/// the same name does not stop the replacement: binders are taken to be
/// fresh. Actions carry no values and stay as they are.
pub open spec fn bind_spec(p: ProcessView, src: Seq<char>, dest: LambdaView) -> ProcessView
    decreases p,
{
    match p {
        ProcessView::Restriction(c, r, body) => ProcessView::Restriction(
            c,
            r,
            Box::new(bind_spec(*body, src, dest)),
        ),
        ProcessView::LetVal(x, e, body) => ProcessView::LetVal(
            x,
            substitute_spec(e, src, dest),
            Box::new(bind_spec(*body, src, dest)),
        ),
        ProcessView::Parallel(l, r) => ProcessView::Parallel(
            Box::new(bind_spec(*l, src, dest)),
            Box::new(bind_spec(*r, src, dest)),
        ),
        ProcessView::Summation(bs) => ProcessView::Summation(
            Seq::new(
                bs.len(),
                |k: int|
                    if 0 <= k < bs.len() {
                        (bs[k].0, bind_spec(bs[k].1, src, dest))
                    } else {
                        (ActView::Input(src), p)
                    },
            ),
        ),
        ProcessView::Instance(name, args) => ProcessView::Instance(
            name,
            Seq::new(args.len(), |k: int| substitute_spec(args[k], src, dest)),
        ),
        ProcessView::Repetition(n, body) => ProcessView::Repetition(
            n,
            Box::new(bind_spec(*body, src, dest)),
        ),
        ProcessView::Replication(a, body) => ProcessView::Replication(
            a,
            Box::new(bind_spec(*body, src, dest)),
        ),
        ProcessView::Termination => p,
    }
}

/// Two replacements of different variables in a process can be made in either
/// order, when neither value mentions the other's variable.
pub proof fn lemma_bind_commutes(
    p: ProcessView,
    x: Seq<char>,
    v1: LambdaView,
    y: Seq<char>,
    v2: LambdaView,
)
    requires
        x != y,
        !occurs(v1, y),
        !occurs(v2, x),
    ensures
        bind_spec(bind_spec(p, x, v1), y, v2) == bind_spec(bind_spec(p, y, v2), x, v1),
    decreases p,
{
    match p {
        ProcessView::Restriction(_, _, body) => {
            lemma_bind_commutes(*body, x, v1, y, v2);
        },
        ProcessView::LetVal(_, e, body) => {
            lemma_substitute_commutes(e, x, v1, y, v2);
            lemma_bind_commutes(*body, x, v1, y, v2);
        },
        ProcessView::Parallel(l, r) => {
            lemma_bind_commutes(*l, x, v1, y, v2);
            lemma_bind_commutes(*r, x, v1, y, v2);
        },
        ProcessView::Summation(bs) => {
            let a = bind_spec(bind_spec(p, x, v1), y, v2)->Summation_0;
            let b = bind_spec(bind_spec(p, y, v2), x, v1)->Summation_0;
            assert forall|k: int| 0 <= k < bs.len() implies a[k] == b[k] by {
                lemma_bind_commutes(bs[k].1, x, v1, y, v2);
            }
            assert(a =~= b);
        },
        ProcessView::Instance(_, args) => {
            let a = bind_spec(bind_spec(p, x, v1), y, v2)->Instance_1;
            let b = bind_spec(bind_spec(p, y, v2), x, v1)->Instance_1;
            assert forall|k: int| 0 <= k < args.len() implies a[k] == b[k] by {
                lemma_substitute_commutes(args[k], x, v1, y, v2);
            }
            assert(a =~= b);
        },
        ProcessView::Repetition(_, body) => {
            lemma_bind_commutes(*body, x, v1, y, v2);
        },
        ProcessView::Replication(_, body) => {
            lemma_bind_commutes(*body, x, v1, y, v2);
        },
        ProcessView::Termination => {},
    }
}

/// The process with the names of pattern `pat` bound to the matching parts of
/// value `val`, or `None` where a tuple pattern meets a value that is no tuple
/// of the same length.
pub open spec fn replace_spec(p: ProcessView, pat: PatternView, val: LambdaView) -> Option<
    ProcessView,
>
    decreases pat,
{
    match pat {
        PatternView::Wildcard => Some(p),
        PatternView::Name(n) => Some(bind_spec(p, n, val)),
        PatternView::Tuple(ps) => match val {
            LambdaView::Tuple { tup, .. } => replace_all_spec(p, ps, tup),
            _ => None,
        },
    }
}

/// The process with each pattern of `pats` bound to the value of `vals` at the
/// same place, from the first on, or `None` where the lists differ in length
/// or one pattern does not match.
pub open spec fn replace_all_spec(
    p: ProcessView,
    pats: Seq<PatternView>,
    vals: Seq<LambdaView>,
) -> Option<ProcessView>
    decreases pats,
{
    if pats.len() != vals.len() {
        None
    } else if pats.len() == 0 {
        Some(p)
    } else {
        match replace_all_spec(p, pats.drop_last(), vals.drop_last()) {
            None => None,
            Some(q) => replace_spec(q, pats.last(), vals.last()),
        }
    }
}

/// The processes of an optional result, by its view.
pub open spec fn option_view(r: Option<Process>) -> Option<ProcessView> {
    match r {
        Some(p) => Some(p@),
        None => None,
    }
}

/// A mismatch among the first `k` patterns is a mismatch of the whole list.
pub proof fn lemma_replace_all_prefix(
    p: ProcessView,
    pats: Seq<PatternView>,
    vals: Seq<LambdaView>,
    k: int,
)
    requires
        pats.len() == vals.len(),
        0 <= k <= pats.len(),
        replace_all_spec(p, pats.take(k), vals.take(k)) is None,
    ensures
        replace_all_spec(p, pats, vals) is None,
    decreases pats.len() - k,
{
    if k < pats.len() {
        assert(pats.take(k + 1).drop_last() =~= pats.take(k));
        assert(vals.take(k + 1).drop_last() =~= vals.take(k));
        assert(replace_all_spec(p, pats.take(k + 1), vals.take(k + 1)) is None);
        lemma_replace_all_prefix(p, pats, vals, k + 1);
    } else {
        assert(pats.take(k) =~= pats);
        assert(vals.take(k) =~= vals);
    }
}

impl Act {
    /// The channel that the action is on.
    pub fn channel(&self) -> (c: &String)
        ensures
            c@ == channel_of(self@),
    {
        match self {
            Act::Input(c) => c,
            Act::Output(c) => c,
        }
    }

    /// The action with channel `dest` in place of channel `src`.
    pub fn substitute_channel(&self, src: &String, dest: &String) -> (r: Act)
        ensures
            r@ == rename_act(self@, src@, dest@),
    {
        match self {
            Act::Input(c) => Act::Input(
                if *c == *src {
                    dest.clone()
                } else {
                    c.clone()
                },
            ),
            Act::Output(c) => Act::Output(
                if *c == *src {
                    dest.clone()
                } else {
                    c.clone()
                },
            ),
        }
    }
}

/// The channel of an action.
pub open spec fn channel_of(a: ActView) -> Seq<char> {
    match a {
        ActView::Input(c) => c,
        ActView::Output(c) => c,
    }
}

impl<'a> Substitutable<&'a str> for Act {
    fn substitute(&self, src: &str, dest: &'a str) -> (r: Act)
        ensures
            r@ == rename_act(self@, src@, dest@),
    {
        self.substitute_channel(&String::from_str(src), &String::from_str(dest))
    }
}

impl Substitutable<Lambda> for Act {
    /// Actions carry no values: the action stays as it is.
    fn substitute(&self, src: &str, dest: Lambda) -> (r: Act)
        ensures
            r@ == self@,
    {
        self.clone()
    }
}

impl Clone for Process {
    fn clone(&self) -> (r: Process)
        ensures
            r@ == self@,
        decreases self,
    {
        match self {
            Process::Restriction(c, r, p) => Process::Restriction(
                c.clone(),
                *r,
                Box::new((**p).clone()),
            ),
            Process::LetVal(x, e, p) => Process::LetVal(
                x.clone(),
                e.clone(),
                Box::new((**p).clone()),
            ),
            Process::Parallel(p, q) => Process::Parallel(
                Box::new((**p).clone()),
                Box::new((**q).clone()),
            ),
            Process::Summation(bs) => {
                proof {
                    assert(decreases_to!(*self => self->Summation_0));
                }
                Process::Summation(clone_branches(bs))
            },
            Process::Instance(name, args) => Process::Instance(name.clone(), clone_lambdas(args)),
            Process::Repetition(n, p) => Process::Repetition(*n, Box::new((**p).clone())),
            Process::Replication(a, p) => Process::Replication(
                a.clone(),
                Box::new((**p).clone()),
            ),
            Process::Termination => Process::Termination,
        }
    }
}

/// A copy of a list of guarded processes.
pub fn clone_branches(bs: &Vec<(Act, Process)>) -> (out: Vec<(Act, Process)>)
    ensures
        branches_view(out@) == branches_view(bs@),
    decreases bs,
{
    let mut out: Vec<(Act, Process)> = Vec::new();
    let mut k: usize = 0;
    while k < bs.len()
        invariant
            k <= bs.len(),
            out.len() == k,
            forall|j: int| 0 <= j < k ==> out[j].0@ == bs[j].0@ && out[j].1@ == bs[j].1@,
        decreases bs.len() - k,
    {
        proof {
            vstd::std_specs::vec::axiom_vec_index_decreases(*bs, k as int);
        }
        out.push((bs[k].0.clone(), bs[k].1.clone()));
        k += 1;
    }
    proof {
        lemma_branches_view(out@);
        lemma_branches_view(bs@);
        assert(branches_view(out@) =~= branches_view(bs@));
    }
    out
}

impl Process {
    /// The process with channel `dest` in place of channel `src` in every action.
    pub fn substitute_channel(&self, src: &String, dest: &String) -> (r: Process)
        ensures
            r@ == rename_spec(self@, src@, dest@),
        decreases self,
    {
        match self {
            Process::Restriction(c, r, p) => Process::Restriction(
                c.clone(),
                *r,
                Box::new(p.substitute_channel(src, dest)),
            ),
            Process::LetVal(x, e, p) => Process::LetVal(
                x.clone(),
                e.clone(),
                Box::new(p.substitute_channel(src, dest)),
            ),
            Process::Parallel(p, q) => Process::Parallel(
                Box::new(p.substitute_channel(src, dest)),
                Box::new(q.substitute_channel(src, dest)),
            ),
            Process::Summation(bs) => {
                let mut out: Vec<(Act, Process)> = Vec::new();
                let mut k: usize = 0;
                while k < bs.len()
                    invariant
                        k <= bs.len(),
                        out.len() == k,
                        forall|j: int|
                            0 <= j < k ==> out[j].0@ == rename_act(bs[j].0@, src@, dest@)
                                && out[j].1@ == rename_spec(bs[j].1@, src@, dest@),
                        *self == Process::Summation(*bs),
                    decreases bs.len() - k,
                {
                    proof {
                        vstd::std_specs::vec::axiom_vec_index_decreases(*bs, k as int);
                        assert(decreases_to!(*self => self->Summation_0));
                    }
                    out.push(
                        (bs[k].0.substitute_channel(src, dest), bs[k].1.substitute_channel(src, dest)),
                    );
                    k += 1;
                }
                proof {
                    lemma_branches_view(out@);
                    lemma_branches_view(bs@);
                    assert(branches_view(out@) =~= rename_spec(self@, src@, dest@)->Summation_0);
                }
                Process::Summation(out)
            },
            Process::Instance(..) => self.clone(),
            Process::Repetition(n, p) => Process::Repetition(
                *n,
                Box::new(p.substitute_channel(src, dest)),
            ),
            Process::Replication(a, p) => Process::Replication(
                a.substitute_channel(src, dest),
                Box::new(p.substitute_channel(src, dest)),
            ),
            Process::Termination => Process::Termination,
        }
    }

    /// The process with value `dest` in place of every variable named `src`.
    pub fn substitute_value(&self, src: &String, dest: &Lambda) -> (r: Process)
        ensures
            r@ == bind_spec(self@, src@, dest@),
        decreases self,
    {
        match self {
            Process::Restriction(c, r, p) => Process::Restriction(
                c.clone(),
                *r,
                Box::new(p.substitute_value(src, dest)),
            ),
            Process::LetVal(x, e, p) => Process::LetVal(
                x.clone(),
                e.substitute_value(src, dest),
                Box::new(p.substitute_value(src, dest)),
            ),
            Process::Parallel(p, q) => Process::Parallel(
                Box::new(p.substitute_value(src, dest)),
                Box::new(q.substitute_value(src, dest)),
            ),
            Process::Summation(bs) => {
                let mut out: Vec<(Act, Process)> = Vec::new();
                let mut k: usize = 0;
                while k < bs.len()
                    invariant
                        k <= bs.len(),
                        out.len() == k,
                        forall|j: int|
                            0 <= j < k ==> out[j].0@ == bs[j].0@ && out[j].1@ == bind_spec(
                                bs[j].1@,
                                src@,
                                dest@,
                            ),
                        *self == Process::Summation(*bs),
                    decreases bs.len() - k,
                {
                    proof {
                        vstd::std_specs::vec::axiom_vec_index_decreases(*bs, k as int);
                        assert(decreases_to!(*self => self->Summation_0));
                    }
                    out.push((bs[k].0.clone(), bs[k].1.substitute_value(src, dest)));
                    k += 1;
                }
                proof {
                    lemma_branches_view(out@);
                    lemma_branches_view(bs@);
                    assert(branches_view(out@) =~= bind_spec(self@, src@, dest@)->Summation_0);
                }
                Process::Summation(out)
            },
            Process::Instance(name, args) => {
                let mut out: Vec<Lambda> = Vec::new();
                let mut k: usize = 0;
                while k < args.len()
                    invariant
                        k <= args.len(),
                        out.len() == k,
                        forall|j: int|
                            0 <= j < k ==> out[j]@ == substitute_spec(args[j]@, src@, dest@),
                    decreases args.len() - k,
                {
                    out.push(args[k].substitute_value(src, dest));
                    k += 1;
                }
                proof {
                    lemma_lambdas_view(out@);
                    lemma_lambdas_view(args@);
                    assert(lambdas_view(out@) =~= bind_spec(self@, src@, dest@)->Instance_1);
                }
                Process::Instance(name.clone(), out)
            },
            Process::Repetition(n, p) => Process::Repetition(
                *n,
                Box::new(p.substitute_value(src, dest)),
            ),
            Process::Replication(a, p) => Process::Replication(
                a.clone(),
                Box::new(p.substitute_value(src, dest)),
            ),
            Process::Termination => Process::Termination,
        }
    }

    /// Binds the names of pattern `formals` to the matching parts of `vals`.
    /// `None` where a tuple pattern meets a value that is no tuple of the same
    /// length.
    pub fn replace(&self, formals: &Pattern, vals: &Lambda) -> (r: Option<Process>)
        ensures
            option_view(r) == replace_spec(self@, formals@, vals@),
        decreases formals,
    {
        match formals {
            Pattern::Wildcard => Some(self.clone()),
            Pattern::Name(n) => Some(self.substitute_value(n, vals)),
            Pattern::Tuple(ps) => match vals {
                Lambda::Tuple { tup, .. } => {
                    proof {
                        assert(decreases_to!(*formals => formals->Tuple_0));
                    }
                    self.replace_all(ps, tup)
                },
                _ => None,
            },
        }
    }

    /// Binds each pattern of `formals` to the value of `vals` at the same
    /// place, from the first on. `None` where the lists differ in length or a
    /// pattern does not match.
    pub fn replace_all(&self, formals: &Vec<Pattern>, vals: &Vec<Lambda>) -> (r: Option<Process>)
        ensures
            option_view(r) == replace_all_spec(
                self@,
                patterns_view(formals@),
                lambdas_view(vals@),
            ),
        decreases formals,
    {
        proof {
            lemma_patterns_view(formals@);
            lemma_lambdas_view(vals@);
        }
        if formals.len() != vals.len() {
            return None;
        }
        let ghost pats = patterns_view(formals@);
        let ghost vs = lambdas_view(vals@);
        let mut current = self.clone();
        let mut k: usize = 0;
        proof {
            assert(pats.take(0) =~= Seq::<PatternView>::empty());
            assert(vs.take(0) =~= Seq::<LambdaView>::empty());
        }
        while k < formals.len()
            invariant
                k <= formals.len(),
                formals.len() == vals.len(),
                pats == patterns_view(formals@),
                vs == lambdas_view(vals@),
                pats.len() == formals.len(),
                vs.len() == vals.len(),
                forall|j: int| 0 <= j < formals.len() ==> (#[trigger] pats[j]) == formals[j]@,
                forall|j: int| 0 <= j < vals.len() ==> (#[trigger] vs[j]) == vals[j]@,
                replace_all_spec(self@, pats.take(k as int), vs.take(k as int)) == Some(current@),
            decreases formals.len() - k,
        {
            proof {
                vstd::std_specs::vec::axiom_vec_index_decreases(*formals, k as int);
                assert(pats.take(k + 1).drop_last() =~= pats.take(k as int));
                assert(vs.take(k + 1).drop_last() =~= vs.take(k as int));
            }
            match current.replace(&formals[k], &vals[k]) {
                None => {
                    proof {
                        assert(replace_all_spec(self@, pats.take(k + 1), vs.take(k + 1)) is None);
                        lemma_replace_all_prefix(self@, pats, vs, k + 1);
                    }
                    return None;
                },
                Some(next) => {
                    current = next;
                },
            }
            k += 1;
        }
        proof {
            assert(pats.take(k as int) =~= pats);
            assert(vs.take(k as int) =~= vs);
        }
        Some(current)
    }
}

impl<'a> Substitutable<&'a str> for Process {
    fn substitute(&self, src: &str, dest: &'a str) -> (r: Process)
        ensures
            r@ == rename_spec(self@, src@, dest@),
    {
        self.substitute_channel(&String::from_str(src), &String::from_str(dest))
    }
}

impl Substitutable<Lambda> for Process {
    fn substitute(&self, src: &str, dest: Lambda) -> (r: Process)
        ensures
            r@ == bind_spec(self@, src@, dest@),
    {
        self.substitute_value(&String::from_str(src), &dest)
    }
}

impl<'a> Substitutable<&'a Lambda> for Process {
    fn substitute(&self, src: &str, dest: &'a Lambda) -> (r: Process)
        ensures
            r@ == bind_spec(self@, src@, dest@),
    {
        self.substitute_value(&String::from_str(src), dest)
    }
}

} // verus!
