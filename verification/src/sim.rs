//! The simulator: it builds the machine term from processes and fires one
//! reaction at a time.
use crate::accounting::{
    consistent, counted, inhabited, lemma_construct, origins, scanned, staffed,
};
use crate::ast::{
    branches_view, clone_branches, lemma_branches_view, Act, ActView, Process, ProcessView,
};
use crate::gillespie::{
    drawn, finest, lemma_total_of_one, lemma_total_of_two, lemma_total_positive, pick,
    propensities, total, weighed,
};
use crate::machine::{
    add_cell_spec, built, construct_spec, declare_spec, fire_spec, fired, lemma_declare_prefix,
    lemma_run, lemma_take, live, load_spec, register, repeat_spec, resume_spec, run_spec,
    stops_building, take_spec, taken, MachineError, MachineState, Reduction, DEPTH_LIMIT,
};
use crate::machineterm::{
    cells, found_at, lemma_found_at_pending, lemma_found_at_unique, mixed, pending, prefix,
    summs_view, MachineTerm, Summ, TermView,
};
use crate::store::{
    active, activities_view, activity, idle, lemma_active, lemma_active_has, lemma_active_none,
    ActivityView, ChannelRecord, Definition, DefinitionView, Store, StoreError,
};
use crate::symgen::{next, SymbolGenerator};
use crate::syntax;
use crate::syntax::DeclarationView;
use crate::values::clone_patterns;
use vstd::prelude::*;
use vstd::string::*;

verus! {

/// The type `rand::rngs::ThreadRng`, a handle to a thread's random number
/// generator, made known to the verifier, which sees nothing inside it.
#[verifier::external_type_specification]
#[verifier::external_body]
pub struct ExThreadRng(rand::rngs::ThreadRng);

/// A wrapper of `rand::thread_rng`: a handle to the calling thread's random
/// number generator. Nothing is claimed of it.
#[verifier::external_body]
fn thread_generator() -> rand::rngs::ThreadRng {
    rand::thread_rng()
}

/// A wrapper of `rand::Rng::gen_range` on `0` and `bound`: a number drawn at
/// random. The contract claims what holds of every draw: it is below `bound`.
/// The bound must not be zero, as the range would be empty.
#[verifier::external_body]
fn draw_below(rng: &mut rand::rngs::ThreadRng, bound: u128) -> (r: u128)
    requires
        bound > 0,
    ensures
        r < bound,
{
    rand::Rng::gen_range(rng, 0, bound)
}

/// The simulator: the store, the machine term, and where the fresh names and
/// the random numbers come from.
#[derive(Debug)]
pub struct Simulator {
    s: Store,
    mt: MachineTerm,
    gen: SymbolGenerator,
    rng: rand::rngs::ThreadRng,
    depth: usize,
}

impl Simulator {
    /// The store and the next fresh name.
    pub closed spec fn state(&self) -> MachineState {
        MachineState {
            channels: self.s.channels(),
            definitions: self.s.definitions(),
            instances: self.s.instances(),
            counter: self.gen@,
        }
    }

    /// The machine term.
    pub closed spec fn term(&self) -> TermView {
        self.mt@
    }

    /// How deep processes may nest while the term is built.
    pub closed spec fn depth_limit(&self) -> nat {
        self.depth as nat
    }

    /// The store is well formed.
    pub closed spec fn store_wf(&self) -> bool {
        self.s.wf()
    }

    /// The channels that can fire, in dictionary order of their names.
    pub closed spec fn activities(&self) -> Seq<ActivityView> {
        active(self.s.channel_names(), self.s.channels())
    }

    /// The store is well formed, it counts on every channel the guards that
    /// a walk through the term finds, every summation of the term has a
    /// guarded process, and every definition has at least as many live
    /// instances as summations of the term came from it.
    pub closed spec fn wf(&self) -> bool {
        &&& self.s.wf()
        &&& consistent(self.s.channels(), cells(self.mt@))
        &&& inhabited(cells(self.mt@))
        &&& staffed(self.s.instances(), cells(self.mt@))
    }

    /// What holds of every well-formed simulator, for every channel `c`: the
    /// store counts the inputs, the outputs and the mixed pairs on `c` that a
    /// walk through the summations of the term finds, the activity of `c` is
    /// `incount * outcount - mixcount`, and it is not negative. And no
    /// definition has fewer live instances than summations that came from it.
    pub proof fn lemma_wf(&self, c: Seq<char>)
        requires
            self.wf(),
        ensures
            self.store_wf(),
            consistent(self.state().channels, cells(self.term())),
            inhabited(cells(self.term())),
            staffed(self.state().instances, cells(self.term())),
            counted(self.state().channels, c).0 == pending(cells(self.term()), ActView::Input(c)),
            counted(self.state().channels, c).1 == pending(cells(self.term()), ActView::Output(c)),
            counted(self.state().channels, c).2 == mixed(cells(self.term()), c),
            activity(self.state().channels, c) == pending(cells(self.term()), ActView::Input(c))
                * pending(cells(self.term()), ActView::Output(c)) - mixed(cells(self.term()), c),
            activity(self.state().channels, c) >= 0,
    {
        assert(counted(self.s.channels(), c) == scanned(cells(self.mt@), c));
        self.s.lemma_balanced(c);
    }

    /// When the machine is at rest. Where no channel has an activity, the
    /// sum of the propensities is zero: a step changes nothing. Where a channel
    /// has an activity and a rate above zero, it is not: a step fires a
    /// reaction or fails.
    pub proof fn lemma_rest(&self, c: Seq<char>)
        requires
            self.wf(),
        ensures
            idle(self.state().channels) ==> total(self.activities(), finest(self.activities()))
                == 0,
            activity(self.state().channels, c) > 0 && self.state().channels[c].rate.digits > 0
                ==> total(self.activities(), finest(self.activities())) > 0,
    {
        let names = self.s.channel_names();
        let chans = self.s.channels();
        self.s.lemma_names();
        assert forall|k: int| 0 <= k < names.len() implies chans.contains_key(
            #[trigger] names[k],
        ) by {
            assert(names.contains(names[k]));
        }
        if idle(chans) {
            lemma_active_none(names, chans);
        }
        if activity(chans, c) > 0 && chans[c].rate.digits > 0 {
            assert(names.contains(c));
            let k = choose|k: int| 0 <= k < names.len() && names[k] == c;
            let i = lemma_active_has(names, chans, k);
            lemma_total_positive(self.activities(), i);
        }
    }

    /// One channel alone. Where one channel has an activity and no other,
    /// it is the one channel that can fire, the sum of the propensities is
    /// the product of its activity and its rate, counted in units of the
    /// last decimal place of the rate, and whatever ticket is drawn below
    /// that sum, it draws that channel.
    pub proof fn lemma_one_channel(&self, c: Seq<char>)
        requires
            self.wf(),
            activity(self.state().channels, c) > 0,
            forall|x: Seq<char>| x != c ==> activity(self.state().channels, x) == 0,
        ensures
            self.activities() == seq![
                ActivityView {
                    channel: c,
                    ax: self.state().channels[c].ax,
                    rate: self.state().channels[c].rate,
                },
            ],
            finest(self.activities()) == self.state().channels[c].rate.scale,
            total(self.activities(), finest(self.activities())) == self.state().channels[c].ax
                * self.state().channels[c].rate.digits,
            forall|m: nat|
                m < total(self.activities(), finest(self.activities())) ==> #[trigger] drawn(
                    self.activities(),
                    finest(self.activities()),
                    m,
                    0,
                ),
    {
        self.s.lemma_one_active(c);
        lemma_total_of_one(self.activities());
    }

    /// Two channels at one rate. Where two channels have one pair each that
    /// can react, at the same rate, and no other channel has an activity,
    /// those two can fire and no other, and the sum of the propensities is
    /// twice the rate, counted in units of its last decimal place.
    pub proof fn lemma_two_channels(&self, c: Seq<char>, d: Seq<char>)
        requires
            self.wf(),
            c != d,
            activity(self.state().channels, c) == 1,
            activity(self.state().channels, d) == 1,
            self.state().channels[c].rate == self.state().channels[d].rate,
            forall|x: Seq<char>| x != c && x != d ==> activity(self.state().channels, x) == 0,
        ensures
            self.activities().len() == 2,
            self.activities()[0].ax == 1,
            self.activities()[1].ax == 1,
            self.activities()[0].rate == self.state().channels[c].rate,
            self.activities()[1].rate == self.state().channels[c].rate,
            (self.activities()[0].channel == c && self.activities()[1].channel == d) || (
            self.activities()[0].channel == d && self.activities()[1].channel == c),
            finest(self.activities()) == self.state().channels[c].rate.scale,
            total(self.activities(), finest(self.activities())) == 2
                * self.state().channels[c].rate.digits,
    {
        self.s.lemma_two_active(c, d);
        lemma_total_of_two(self.activities());
    }

    /// A simulator with an empty store and an empty term, its fresh names at
    /// zero, that lets processes nest [`DEPTH_LIMIT`] deep.
    pub fn new() -> (sim: Simulator)
        ensures
            sim.wf(),
            sim.store_wf(),
            sim.term() == TermView::SummList(Seq::empty()),
            sim.state().channels == Map::<Seq<char>, ChannelRecord>::empty(),
            sim.state().definitions == Map::<Seq<char>, DefinitionView>::empty(),
            sim.state().instances == Map::<Seq<char>, usize>::empty(),
            sim.state().counter == 0,
            sim.depth_limit() == DEPTH_LIMIT,
    {
        Simulator::with_depth(DEPTH_LIMIT)
    }

    /// A simulator like that of [`Simulator::new`], that lets processes nest
    /// `depth` deep.
    pub fn with_depth(depth: usize) -> (sim: Simulator)
        ensures
            sim.wf(),
            sim.store_wf(),
            sim.term() == TermView::SummList(Seq::empty()),
            sim.state().channels == Map::<Seq<char>, ChannelRecord>::empty(),
            sim.state().definitions == Map::<Seq<char>, DefinitionView>::empty(),
            sim.state().instances == Map::<Seq<char>, usize>::empty(),
            sim.state().counter == 0,
            sim.depth_limit() == depth,
    {
        Simulator::with_symbols(SymbolGenerator::new(), depth)
    }

    /// A simulator like that of [`Simulator::new`], that takes its fresh
    /// names from `gen` and lets processes nest `depth` deep.
    pub fn with_symbols(gen: SymbolGenerator, depth: usize) -> (sim: Simulator)
        ensures
            sim.wf(),
            sim.store_wf(),
            sim.term() == TermView::SummList(Seq::empty()),
            sim.state().channels == Map::<Seq<char>, ChannelRecord>::empty(),
            sim.state().definitions == Map::<Seq<char>, DefinitionView>::empty(),
            sim.state().instances == Map::<Seq<char>, usize>::empty(),
            sim.state().counter == gen@,
            sim.depth_limit() == depth,
    {
        let sim = Simulator {
            s: Store::new(),
            mt: MachineTerm::empty(),
            gen,
            rng: thread_generator(),
            depth,
        };
        assert(consistent(sim.s.channels(), cells(sim.mt@))) by {
            assert forall|c: Seq<char>| #[trigger]
                counted(sim.s.channels(), c) == scanned(
                    cells(sim.mt@),
                    c,
                ) by {}
        }
        assert(staffed(sim.s.instances(), cells(sim.mt@))) by {
            assert forall|n: Seq<char>| #[trigger]
                origins(cells(sim.mt@), n) <= live(sim.s.instances(), n) by {}
        }
        sim
    }

    /// The store.
    pub fn store(&self) -> (s: &Store)
        ensures
            s.wf() == self.store_wf(),
            s.channels() == self.state().channels,
            s.definitions() == self.state().definitions,
            s.instances() == self.state().instances,
            active(s.channel_names(), s.channels()) == self.activities(),
    {
        &self.s
    }

    /// The machine term.
    pub fn machine_term(&self) -> (t: &MachineTerm)
        ensures
            t@ == self.term(),
    {
        &self.mt
    }

    /// Puts a new summation at the head of `list` and adds its guards to the
    /// counts of the channels.
    fn add_cell(&mut self, origin: Option<String>, branches: Vec<(Act, Process)>, list: Vec<Summ>) -> (r:
        Result<MachineTerm, MachineError>)
        requires
            old(self).store_wf(),
        ensures
            final(self).store_wf(),
            final(self).term() == old(self).term(),
            final(self).depth_limit() == old(self).depth_limit(),
            (final(self).state(), built(r)) == add_cell_spec(
                old(self).state(),
                match origin {
                    Some(n) => Some(n@),
                    None => None,
                },
                branches_view(branches@),
                summs_view(list@),
            ),
    {
        proof {
            lemma_branches_view(branches@);
        }
        if branches.len() == 0 {
            return Err(MachineError::EmptySummation);
        }
        let cell = Summ(origin, branches);
        let counts = cell.get_act_counts();
        match self.s.add_counts(&counts) {
            Err(StoreError::UnknownChannel) => Err(MachineError::UnknownChannel),
            Err(StoreError::OutOfRange) => Err(MachineError::CountOutOfRange),
            Ok(()) => {
                let mut list = list;
                let ghost before = list@;
                let ghost cv = cell@;
                list.insert(0, cell);
                proof {
                    assert(summs_view(list@) =~= seq![cv] + summs_view(before));
                }
                Ok(MachineTerm::SummList(list))
            },
        }
    }

    /// Builds the machine term of process `proc` on top of `term`: the
    /// summations of `proc` go to the head of the list, its restrictions to
    /// the top, under fresh names, and the store takes the new guards, the new
    /// channels and the new instances. Where the store counted the guards of
    /// `term`, it counts those of the term that is built.
    pub fn construct(&mut self, proc: &Process, term: MachineTerm, depth: usize) -> (r: Result<
        MachineTerm,
        MachineError,
    >)
        requires
            old(self).store_wf(),
        ensures
            final(self).store_wf(),
            final(self).term() == old(self).term(),
            final(self).depth_limit() == old(self).depth_limit(),
            (final(self).state(), built(r)) == construct_spec(
                old(self).state(),
                proc@,
                term@,
                depth as nat,
            ),
            r matches Ok(out) ==> {
                &&& consistent(old(self).state().channels, cells(term@)) ==> consistent(
                    final(self).state().channels,
                    cells(out@),
                )
                &&& inhabited(cells(term@)) ==> inhabited(cells(out@))
                &&& staffed(old(self).state().instances, cells(term@)) ==> staffed(
                    final(self).state().instances,
                    cells(out@),
                )
            },
        decreases depth, 1nat, prefix(term@).len(),
    {
        proof {
            lemma_construct(self.state(), proc@, term@, depth as nat);
        }
        match term {
            MachineTerm::TopRestriction(c, r, inner) => {
                match self.construct(proc, *inner, depth) {
                    Ok(t1) => Ok(MachineTerm::TopRestriction(c, r, Box::new(t1))),
                    Err(e) => Err(e),
                }
            },
            MachineTerm::SummList(list) => {
                if depth == 0 {
                    return Err(MachineError::TooDeep);
                }
                let less: usize = depth - 1;
                match proc {
                    Process::Restriction(c, r, body) => {
                        if self.gen.exhausted() {
                            return Err(MachineError::SymbolsExhausted);
                        }
                        let fresh = next(&mut self.gen);
                        self.s.add_channel(fresh.as_str(), *r);
                        let renamed = body.substitute_channel(c, &fresh);
                        match self.construct(&renamed, MachineTerm::SummList(list), less) {
                            Ok(t1) => Ok(MachineTerm::TopRestriction(fresh, *r, Box::new(t1))),
                            Err(e) => Err(e),
                        }
                    },
                    Process::LetVal(x, e, body) => {
                        match e.eval() {
                            Err(err) => Err(MachineError::Eval(err)),
                            Ok(v) => {
                                let bound = body.substitute_value(x, &v);
                                self.construct(&bound, MachineTerm::SummList(list), less)
                            },
                        }
                    },
                    Process::Parallel(l, r) => {
                        match self.construct(r, MachineTerm::SummList(list), less) {
                            Err(e) => Err(e),
                            Ok(t1) => self.construct(l, t1, less),
                        }
                    },
                    Process::Summation(bs) => self.add_cell(None, clone_branches(bs), list),
                    Process::Instance(name, args) => {
                        match self.s.create(name.clone()) {
                            Err(_) => {
                                return Err(MachineError::CountOutOfRange);
                            },
                            Ok(()) => {},
                        }
                        let body = match self.s.definition(name) {
                            None => {
                                return Err(MachineError::UndefinedInstance);
                            },
                            Some(d) => match d.body.replace_all(&d.formals, args) {
                                None => {
                                    return Err(MachineError::PatternMismatch);
                                },
                                Some(b) => b,
                            },
                        };
                        match body {
                            Process::Summation(branches) => self.add_cell(
                                Some(name.clone()),
                                branches,
                                list,
                            ),
                            other => self.construct(&other, MachineTerm::SummList(list), less),
                        }
                    },
                    Process::Repetition(n, body) => {
                        let mut current = MachineTerm::SummList(list);
                        let mut k: usize = 0;
                        while k < *n
                            invariant
                                k <= *n,
                                depth > 0,
                                less == depth - 1,
                                term@ is SummList,
                                proc@ == ProcessView::Repetition(*n as nat, Box::new((**body)@)),
                                self.store_wf(),
                                self.term() == old(self).term(),
                                self.depth_limit() == old(self).depth_limit(),
                                repeat_spec(
                                    self.state(),
                                    (**body)@,
                                    current@,
                                    (*n - k) as nat,
                                    less as nat,
                                ) == repeat_spec(
                                    old(self).state(),
                                    (**body)@,
                                    term@,
                                    *n as nat,
                                    less as nat,
                                ),
                            decreases *n - k,
                        {
                            let ghost before = self.state();
                            let ghost seen = current@;
                            match self.construct(body, current, less) {
                                Err(e) => {
                                    proof {
                                        assert(repeat_spec(
                                            before,
                                            (**body)@,
                                            seen,
                                            (*n - k) as nat,
                                            less as nat,
                                        ) == (self.state(), Err::<TermView, MachineError>(e)));
                                    }
                                    return Err(e);
                                },
                                Ok(t1) => {
                                    current = t1;
                                    proof {
                                        assert(repeat_spec(
                                            before,
                                            (**body)@,
                                            seen,
                                            (*n - k) as nat,
                                            less as nat,
                                        ) == repeat_spec(
                                            self.state(),
                                            (**body)@,
                                            current@,
                                            (*n - k - 1) as nat,
                                            less as nat,
                                        ));
                                    }
                                },
                            }
                            k += 1;
                        }
                        Ok(current)
                    },
                    Process::Replication(a, body) => {
                        let mut branches: Vec<(Act, Process)> = Vec::new();
                        branches.push(
                            (
                                a.clone(),
                                Process::Parallel(
                                    Box::new((**body).clone()),
                                    Box::new(proc.clone()),
                                ),
                            ),
                        );
                        proof {
                            lemma_branches_view(branches@);
                            assert(branches_view(branches@) =~= seq![
                                (
                                    a@,
                                    ProcessView::Parallel(Box::new((**body)@), Box::new(proc@)),
                                ),
                            ]);
                        }
                        self.add_cell(None, branches, list)
                    },
                    Process::Termination => Ok(MachineTerm::SummList(list)),
                }
            },
        }
    }

    /// Builds the process `proc` on top of the machine term. Where it cannot
    /// be built, the term is left empty.
    pub fn spawn(&mut self, proc: &Process) -> (r: Result<(), MachineError>)
        requires
            old(self).store_wf(),
        ensures
            final(self).store_wf(),
            final(self).depth_limit() == old(self).depth_limit(),
            match construct_spec(
                old(self).state(),
                proc@,
                old(self).term(),
                old(self).depth_limit(),
            ) {
                (st, Ok(t)) => r is Ok && final(self).state() == st && final(self).term() == t,
                (st, Err(e)) => r == Err::<(), MachineError>(e) && final(self).state() == st
                    && final(self).term() == TermView::SummList(Seq::empty()),
            },
            old(self).wf() && r is Ok ==> final(self).wf(),
    {
        let depth: usize = self.depth;
        proof {
            lemma_construct(self.state(), proc@, self.mt@, depth as nat);
        }
        let mut t = MachineTerm::empty();
        std::mem::swap(&mut self.mt, &mut t);
        match self.construct(proc, t, depth) {
            Err(e) => Err(e),
            Ok(t1) => {
                self.mt = t1;
                Ok(())
            },
        }
    }

    /// Takes the declarations of the program, in their order.
    fn declare<'a>(&mut self, decls: &'a Vec<syntax::Declaration>) -> (r: Result<
        Vec<&'a syntax::Process>,
        MachineError,
    >)
        requires
            old(self).store_wf(),
        ensures
            final(self).store_wf(),
            final(self).term() == old(self).term(),
            final(self).depth_limit() == old(self).depth_limit(),
            (
                final(self).state(),
                match r {
                    Ok(runs) => Ok(Seq::new(runs.len() as nat, |k: int| runs[k]@)),
                    Err(e) => Err(e),
                },
            ) == declare_spec(
                old(self).state(),
                Seq::new(decls.len() as nat, |k: int| decls[k]@),
            ),
            old(self).wf() ==> final(self).wf(),
    {
        let ghost ds = Seq::new(decls.len() as nat, |k: int| decls[k]@);
        let ghost st0 = self.state();
        let mut runs: Vec<&'a syntax::Process> = Vec::new();
        let mut i: usize = 0;
        proof {
            assert(ds.take(0) =~= Seq::<DeclarationView>::empty());
            assert(Seq::new(runs.len() as nat, |k: int| runs[k]@) =~= Seq::<
                syntax::ProcessView,
            >::empty());
        }
        while i < decls.len()
            invariant
                i <= decls.len(),
                ds == Seq::new(decls.len() as nat, |k: int| decls[k]@),
                st0 == old(self).state(),
                self.store_wf(),
                self.term() == old(self).term(),
                self.depth_limit() == old(self).depth_limit(),
                old(self).wf() ==> self.wf(),
                declare_spec(st0, ds.take(i as int)) == (
                    self.state(),
                    Ok::<Seq<syntax::ProcessView>, MachineError>(
                        Seq::new(runs.len() as nat, |k: int| runs[k]@),
                    ),
                ),
            decreases decls.len() - i,
        {
            let ghost seen = Seq::new(runs.len() as nat, |k: int| runs[k]@);
            proof {
                assert(ds.take(i + 1).drop_last() =~= ds.take(i as int));
                assert(ds.take(i + 1).last() == decls[i as int]@);
            }
            match &decls[i] {
                syntax::Declaration::NewChannel(c, rate) => {
                    proof {
                        assert forall|d: Seq<char>| #[trigger]
                            counted(register(self.s.channels(), c@, *rate), d) == counted(
                                self.s.channels(),
                                d,
                            ) by {}
                    }
                    self.s.add_channel(c.as_str(), *rate);
                },
                syntax::Declaration::Run(p) => {
                    runs.push(p);
                    proof {
                        assert(Seq::new(runs.len() as nat, |k: int| runs[k]@) =~= seen.push(p@));
                    }
                },
                syntax::Declaration::Val(_, _) => {
                    proof {
                        lemma_declare_prefix(st0, ds, i + 1);
                    }
                    return Err(MachineError::TopLevelVal);
                },
                syntax::Declaration::Def(name, formals, body) => {
                    match Process::from_syntax(body, &mut self.gen) {
                        Err(e) => {
                            proof {
                                lemma_declare_prefix(st0, ds, i + 1);
                            }
                            return Err(MachineError::Syntax(e));
                        },
                        Ok(q) => {
                            self.s.define(
                                name.clone(),
                                Definition { formals: clone_patterns(formals), body: q },
                            );
                        },
                    }
                },
            }
            i += 1;
        }
        proof {
            assert(ds.take(i as int) =~= ds);
        }
        Ok(runs)
    }

    /// Builds the first `upto` of the written processes `runs` on top of
    /// `term`, the last of them first.
    fn run(&mut self, runs: &Vec<&syntax::Process>, upto: usize, term: MachineTerm) -> (r: Result<
        MachineTerm,
        MachineError,
    >)
        requires
            old(self).store_wf(),
            upto <= runs.len(),
        ensures
            final(self).store_wf(),
            final(self).term() == old(self).term(),
            final(self).depth_limit() == old(self).depth_limit(),
            (final(self).state(), built(r)) == run_spec(
                old(self).state(),
                Seq::new(runs.len() as nat, |k: int| runs[k]@).take(upto as int),
                term@,
                old(self).depth_limit(),
            ),
        decreases upto,
    {
        if upto == 0 {
            return Ok(term);
        }
        let ghost all = Seq::new(runs.len() as nat, |k: int| runs[k]@);
        proof {
            assert(all.take(upto as int).drop_last() =~= all.take(upto - 1));
            assert(all.take(upto as int).last() == runs[upto - 1]@);
        }
        let depth: usize = self.depth;
        match Process::from_syntax(runs[upto - 1], &mut self.gen) {
            Err(e) => Err(MachineError::Syntax(e)),
            Ok(p) => match self.construct(&p, term, depth) {
                Err(e) => Err(e),
                Ok(t1) => self.run(runs, upto - 1, t1),
            },
        }
    }

    /// Loads a program: registers its channels and stores its definitions,
    /// in the order of the declarations, and then builds the processes that it
    /// runs on top of the term, so that the first of them comes to stand at the
    /// head. On a new simulator the term is built from nothing.
    pub fn load(&mut self, p: &syntax::Program) -> (r: Result<(), MachineError>)
        requires
            old(self).store_wf(),
        ensures
            final(self).store_wf(),
            final(self).depth_limit() == old(self).depth_limit(),
            (final(self).state(), final(self).term(), r) == load_spec(
                old(self).state(),
                old(self).term(),
                p@,
                old(self).depth_limit(),
            ),
            old(self).wf() && r is Ok ==> final(self).wf(),
    {
        match p {
            syntax::Program::Prog(decls) => {
                let runs = match self.declare(decls) {
                    Err(e) => {
                        return Err(e);
                    },
                    Ok(runs) => runs,
                };
                let ghost all = Seq::new(runs.len() as nat, |k: int| runs[k]@);
                proof {
                    assert(all.take(runs.len() as int) =~= all);
                    let depth = self.depth as nat;
                    if old(self).wf() && run_spec(self.state(), all, self.mt@, depth).1 is Ok {
                        lemma_run(self.state(), all, self.mt@, depth);
                    }
                }
                let mut t = MachineTerm::empty();
                std::mem::swap(&mut self.mt, &mut t);
                match self.run(&runs, runs.len(), t) {
                    Err(e) => Err(e),
                    Ok(t2) => {
                        self.mt = t2;
                        Ok(())
                    },
                }
            },
        }
    }

    /// Takes out of the list the summation whose guard is `act` with `k`
    /// such guards before it, and its guards off the counts of the store, and
    /// counts the instance that it came from as gone.
    fn take(&mut self, act: Act, k: usize) -> (r: Result<(Summ, usize), MachineError>)
        requires
            old(self).store_wf(),
        ensures
            final(self).store_wf(),
            final(self).depth_limit() == old(self).depth_limit(),
            (final(self).state(), final(self).term(), taken(r)) == take_spec(
                old(self).state(),
                old(self).term(),
                act@,
                k as nat,
            ),
            r matches Ok((cell, j)) ==> j < cell@.branches.len(),
            old(self).wf() ==> final(self).wf() && (r is Ok <==> old(self).term() is SummList && k
                < pending(cells(old(self).term()), act@)),
    {
        let ghost a = act@;
        let ghost list = cells(self.mt@);
        let (i, j) = match self.mt.seek(act, k) {
            None => {
                return Err(MachineError::GuardNotFound);
            },
            Some(at) => at,
        };
        proof {
            lemma_found_at_pending(list, a, k as nat, i as int, j as int);
            let at = choose|at: (int, int)| found_at(list, a, k as nat, at.0, at.1);
            assert(found_at(list, a, k as nat, (i as int, j as int).0, (i as int, j as int).1));
            lemma_found_at_unique(list, a, k as nat, i as int, j as int, at.0, at.1);
            if old(self).wf() {
                lemma_take(self.state(), self.mt@, a, k as nat);
            }
        }
        let cell = self.mt.take_summ(i);
        let counts = cell.get_act_counts();
        match self.s.remove_counts(&counts) {
            Err(StoreError::UnknownChannel) => {
                return Err(MachineError::UnknownChannel);
            },
            Err(StoreError::OutOfRange) => {
                return Err(MachineError::CountOutOfRange);
            },
            Ok(()) => {},
        }
        match &cell.0 {
            Some(name) => match self.s.destroy(name.clone()) {
                Err(_) => {
                    return Err(MachineError::CountOutOfRange);
                },
                Ok(()) => {},
            },
            None => {},
        }
        Ok((cell, j))
    }

    /// Builds the two processes that a reaction set free.
    fn resume(&mut self, input: (Summ, usize), output: (Summ, usize)) -> (r: Result<
        (),
        MachineError,
    >)
        requires
            old(self).store_wf(),
            input.1 < input.0@.branches.len(),
            output.1 < output.0@.branches.len(),
        ensures
            final(self).depth_limit() == old(self).depth_limit(),
            (final(self).state(), final(self).term(), r) == resume_spec(
                old(self).state(),
                old(self).term(),
                old(self).depth_limit(),
                (input.0@, input.1 as int),
                (output.0@, output.1 as int),
            ),
            final(self).store_wf(),
            old(self).wf() && r is Ok ==> final(self).wf(),
            r matches Err(e) ==> stops_building(e),
    {
        let depth: usize = self.depth;
        let ghost st0 = self.state();
        let ghost t0 = self.mt@;
        proof {
            lemma_branches_view(input.0.1@);
            lemma_branches_view(output.0.1@);
            lemma_construct(st0, input.0@.branches[input.1 as int].1, t0, depth as nat);
        }
        let mut t = MachineTerm::empty();
        std::mem::swap(&mut self.mt, &mut t);
        let t1 = match self.construct(&input.0.1[input.1].1, t, depth) {
            Err(e) => {
                return Err(e);
            },
            Ok(t1) => t1,
        };
        proof {
            lemma_construct(self.state(), output.0@.branches[output.1 as int].1, t1@, depth as nat);
        }
        let t2 = match self.construct(&output.0.1[output.1].1, t1, depth) {
            Err(e) => {
                return Err(e);
            },
            Ok(t2) => t2,
        };
        self.mt = t2;
        Ok(())
    }

    /// Fires one reaction on channel `chan`: of the inputs on the channel, the
    /// one with `i_in` before it, and of the outputs on the channel that are
    /// left when the summation of that input is gone, the one with `i_out`
    /// before it. The two summations leave the term, and the processes behind
    /// the two guards are built on top of it.
    pub fn fire(&mut self, chan: &str, i_in: usize, i_out: usize) -> (r: Result<(), MachineError>)
        requires
            old(self).store_wf(),
        ensures
            final(self).store_wf(),
            final(self).depth_limit() == old(self).depth_limit(),
            (final(self).state(), final(self).term(), r) == fire_spec(
                old(self).state(),
                old(self).term(),
                old(self).depth_limit(),
                chan@,
                i_in as nat,
                i_out as nat,
            ),
            old(self).wf() && r is Ok ==> final(self).wf(),
    {
        let name = String::from_str(chan);
        let input = match self.take(Act::Input(name.clone()), i_in) {
            Err(e) => {
                return Err(e);
            },
            Ok(x) => x,
        };
        let outcount: usize = match self.s.channel(chan) {
            Some(record) => record.outcount,
            None => 0,
        };
        if outcount == 0 {
            return Err(MachineError::NoPartner);
        }
        let output = match self.take(Act::Output(name), i_out) {
            Err(e) => {
                return Err(e);
            },
            Ok(x) => x,
        };
        self.resume(input, output)
    }

    /// One step of the machine, on a channel that the caller has chosen. A
    /// restriction on top of the term is registered and taken off. Else,
    /// where no channel can fire, nothing changes. Else a reaction fires on
    /// channel `chan`, which must be one that can fire: an input on it is
    /// drawn at random, and then an output among those that are left when the
    /// summation of the input is gone. The step fails only where the input
    /// took the last output along, or where a process that the reaction set
    /// free cannot be built.
    pub fn reduce_on(&mut self, chan: &str) -> (r: Result<Reduction, MachineError>)
        requires
            old(self).wf(),
        ensures
            final(self).depth_limit() == old(self).depth_limit(),
            final(self).store_wf(),
            r is Ok ==> final(self).wf(),
            r matches Err(e) ==> e == MachineError::InactiveChannel || e
                == MachineError::NoPartner || stops_building(e),
            match old(self).term() {
                TermView::TopRestriction(c, rate, inner) => {
                    &&& r == Ok::<Reduction, MachineError>(Reduction::Peeled)
                    &&& final(self).term() == *inner
                    &&& final(self).state() == MachineState {
                        channels: register(old(self).state().channels, c, rate),
                        ..old(self).state()
                    }
                },
                TermView::SummList(_) => if idle(old(self).state().channels) {
                    &&& r == Ok::<Reduction, MachineError>(Reduction::Deadlock)
                    &&& final(self).term() == old(self).term()
                    &&& final(self).state() == old(self).state()
                } else if activity(old(self).state().channels, chan@) == 0 {
                    &&& r == Err::<Reduction, MachineError>(MachineError::InactiveChannel)
                    &&& final(self).term() == old(self).term()
                    &&& final(self).state() == old(self).state()
                } else {
                    &&& r != Ok::<Reduction, MachineError>(Reduction::Deadlock)
                    &&& r != Ok::<Reduction, MachineError>(Reduction::Peeled)
                    &&& r != Err::<Reduction, MachineError>(MachineError::InactiveChannel)
                    &&& exists|i_in: nat, i_out: nat|
                        i_in < counted(old(self).state().channels, chan@).0 && (
                        final(self).state(),
                        final(self).term(),
                        fired(r),
                    ) == #[trigger] fire_spec(
                        old(self).state(),
                        old(self).term(),
                        old(self).depth_limit(),
                        chan@,
                        i_in,
                        i_out,
                    )
                },
            },
    {
        if self.mt.is_restr() {
            let mut t = MachineTerm::empty();
            std::mem::swap(&mut self.mt, &mut t);
            match t {
                MachineTerm::TopRestriction(c, rate, inner) => {
                    proof {
                        assert forall|d: Seq<char>| #[trigger]
                            counted(register(self.s.channels(), c@, rate), d) == counted(
                                self.s.channels(),
                                d,
                            ) by {}
                    }
                    self.s.add_channel(c.as_str(), rate);
                    self.mt = *inner;
                },
                MachineTerm::SummList(_) => unreached(),
            }
            return Ok(Reduction::Peeled);
        }
        if self.s.quiet() {
            return Ok(Reduction::Deadlock);
        }
        let record = match self.s.channel(chan) {
            None => {
                return Err(MachineError::InactiveChannel);
            },
            Some(record) => record,
        };
        if record.ax == 0 {
            return Err(MachineError::InactiveChannel);
        }
        proof {
            assert(record.incount > 0) by (nonlinear_arith)
                requires
                    record.ax == record.incount * record.outcount - record.mixcount,
                    record.ax > 0,
                    record.mixcount >= 0,
                    record.incount >= 0,
            ;
            self.lemma_wf(chan@);
        }
        let name = String::from_str(chan);
        let i_in: usize = draw_below(&mut self.rng, record.incount as u128) as usize;
        let ghost st0 = self.state();
        let ghost t0 = self.term();
        let ghost depth = self.depth_limit();
        proof {
            assert(st0 == old(self).state());
            assert(t0 == old(self).term());
            assert(depth == old(self).depth_limit());
            assert(i_in < counted(st0.channels, chan@).0);
            assert(activity(old(self).state().channels, chan@) != 0);
        }
        let input = match self.take(Act::Input(name.clone()), i_in) {
            Err(e) => {
                proof {
                    assert((self.state(), self.term(), Err::<(), MachineError>(e)) == fire_spec(
                        st0,
                        t0,
                        depth,
                        chan@,
                        i_in as nat,
                        0,
                    ));
                }
                return Err(e);
            },
            Ok(x) => x,
        };
        let outcount: usize = match self.s.channel(chan) {
            Some(record) => record.outcount,
            None => 0,
        };
        if outcount == 0 {
            proof {
                assert((self.state(), self.term(), Err::<(), MachineError>(MachineError::NoPartner))
                    == fire_spec(st0, t0, depth, chan@, i_in as nat, 0));
            }
            return Err(MachineError::NoPartner);
        }
        let i_out: usize = draw_below(&mut self.rng, outcount as u128) as usize;
        let output = match self.take(Act::Output(name), i_out) {
            Err(e) => {
                proof {
                    assert((self.state(), self.term(), Err::<(), MachineError>(e)) == fire_spec(
                        st0,
                        t0,
                        depth,
                        chan@,
                        i_in as nat,
                        i_out as nat,
                    ));
                }
                return Err(e);
            },
            Ok(x) => x,
        };
        let res = self.resume(input, output);
        proof {
            assert((self.state(), self.term(), res) == fire_spec(
                st0,
                t0,
                depth,
                chan@,
                i_in as nat,
                i_out as nat,
            ));
        }
        match res {
            Ok(()) => Ok(Reduction::Fired),
            Err(e) => Err(e),
        }
    }

    /// One step of the machine. A restriction on top of the term is
    /// registered and taken off. Else, where no channel has a propensity to
    /// fire, nothing changes. Else a channel fires, drawn at random with a
    /// chance in proportion to its propensity, the product of its activity
    /// and its rate: an input on it is drawn at random, and then an output
    /// among those that are left when the summation of the input is gone.
    /// The step fails only where the propensities do not fit in 128 bits,
    /// where the input took the last output along, or where a process that
    /// the reaction set free cannot be built.
    pub fn reduce(&mut self) -> (r: Result<Reduction, MachineError>)
        requires
            old(self).wf(),
        ensures
            final(self).depth_limit() == old(self).depth_limit(),
            final(self).store_wf(),
            r is Ok ==> final(self).wf(),
            r matches Err(e) ==> e == MachineError::NoPartner || stops_building(e),
            old(self).term() is SummList && idle(old(self).state().channels) ==> r == Ok::<
                Reduction,
                MachineError,
            >(Reduction::Deadlock),
            match old(self).term() {
                TermView::TopRestriction(c, rate, inner) => {
                    &&& r == Ok::<Reduction, MachineError>(Reduction::Peeled)
                    &&& final(self).term() == *inner
                    &&& final(self).state() == MachineState {
                        channels: register(old(self).state().channels, c, rate),
                        ..old(self).state()
                    }
                },
                TermView::SummList(_) => {
                    let acts = old(self).activities();
                    if total(acts, finest(acts)) == 0 {
                        &&& r == Ok::<Reduction, MachineError>(Reduction::Deadlock)
                        &&& final(self).term() == old(self).term()
                        &&& final(self).state() == old(self).state()
                    } else if total(acts, finest(acts)) > u128::MAX {
                        &&& r == Err::<Reduction, MachineError>(MachineError::CountOutOfRange)
                        &&& final(self).term() == old(self).term()
                        &&& final(self).state() == old(self).state()
                    } else {
                        &&& r != Ok::<Reduction, MachineError>(Reduction::Deadlock)
                        &&& r != Ok::<Reduction, MachineError>(Reduction::Peeled)
                        &&& exists|m: nat, i: int, i_in: nat, i_out: nat|
                            #![trigger
                                drawn(acts, finest(acts), m, i),
                                fire_spec(
                                    old(self).state(),
                                    old(self).term(),
                                    old(self).depth_limit(),
                                    acts[i].channel,
                                    i_in,
                                    i_out,
                                )]
                            m < total(acts, finest(acts)) && drawn(acts, finest(acts), m, i)
                                && i_in < counted(old(self).state().channels, acts[i].channel).0
                                && (final(self).state(), final(self).term(), fired(r)) == fire_spec(
                                old(self).state(),
                                old(self).term(),
                                old(self).depth_limit(),
                                acts[i].channel,
                                i_in,
                                i_out,
                            )
                    }
                },
            },
    {
        if self.mt.is_restr() {
            return self.reduce_on("");
        }
        proof {
            let names = self.s.channel_names();
            let chans = self.s.channels();
            self.s.lemma_names();
            assert forall|k: int| 0 <= k < names.len() implies chans.contains_key(
                #[trigger] names[k],
            ) by {
                assert(names.contains(names[k]));
            }
            if idle(chans) {
                lemma_active_none(names, chans);
            }
        }
        let active_now = self.s.activities();
        let ghost acts = self.activities();
        proof {
            assert(acts == activities_view(active_now@));
            assert(acts == old(self).activities());
            assert(self.state() == old(self).state());
            assert(self.term() == old(self).term());
            assert(old(self).term() is SummList);
        }
        let weights = match propensities(&active_now) {
            None => {
                proof {
                    assert(weighed(None, acts));
                    assert(total(acts, finest(acts)) > u128::MAX);
                }
                return Err(MachineError::CountOutOfRange);
            },
            Some(p) => p,
        };
        if weights.total == 0 {
            return Ok(Reduction::Deadlock);
        }
        let m = draw_below(&mut self.rng, weights.total);
        let i = pick(&active_now, &weights, m);
        proof {
            lemma_active(self.s.channel_names(), self.s.channels(), i as int);
            assert(!idle(self.s.channels())) by {
                assert(activity(self.s.channels(), acts[i as int].channel) > 0);
            }
        }
        let ghost st0 = self.state();
        let ghost t0 = self.term();
        let ghost depth = self.depth_limit();
        let r = self.reduce_on(active_now[i].channel.as_str());
        proof {
            assert(st0 == old(self).state());
            assert(t0 == old(self).term());
            assert(depth == old(self).depth_limit());
            assert(acts == old(self).activities());
            assert(acts[i as int].channel == active_now[i as int].channel@);
            assert(activity(st0.channels, acts[i as int].channel) != 0);
            let (i_in, i_out) = choose|i_in: nat, i_out: nat|
                i_in < counted(st0.channels, acts[i as int].channel).0 && (
                    self.state(),
                    self.term(),
                    fired(r),
                ) == #[trigger] fire_spec(st0, t0, depth, acts[i as int].channel, i_in, i_out);
            assert(drawn(acts, finest(acts), m as nat, i as int));
            assert((self.state(), self.term(), fired(r)) == fire_spec(
                st0,
                t0,
                depth,
                acts[i as int].channel,
                i_in,
                i_out,
            ));
        }
        r
    }
}

} // verus!
