//! Names in dictionary order, and tables keyed by name.
use vstd::prelude::*;
use vstd::string::*;

verus! {

/// Whether `a` from place `i` on comes before `b` from place `i` on, in
/// dictionary order by character code.
pub open spec fn before_from(a: Seq<char>, b: Seq<char>, i: int) -> bool
    decreases a.len() - i,
{
    if i < 0 || i >= b.len() {
        false
    } else if i >= a.len() {
        true
    } else if a[i] != b[i] {
        (a[i] as int) < (b[i] as int)
    } else {
        before_from(a, b, i + 1)
    }
}

/// Whether `a` comes strictly before `b` in dictionary order by character code.
pub open spec fn before(a: Seq<char>, b: Seq<char>) -> bool {
    before_from(a, b, 0)
}

/// Where two names agree up to place `i`, their order is the order of the rests.
pub proof fn lemma_before_skip(a: Seq<char>, b: Seq<char>, i: int)
    requires
        0 <= i <= a.len(),
        i <= b.len(),
        forall|j: int| 0 <= j < i ==> a[j] == b[j],
    ensures
        before(a, b) == before_from(a, b, i),
    decreases i,
{
    if i > 0 {
        lemma_before_skip(a, b, i - 1);
    }
}

/// No name comes before itself.
pub proof fn lemma_before_irreflexive(a: Seq<char>)
    ensures
        !before(a, a),
{
    lemma_before_skip(a, a, a.len() as int);
}

/// Dictionary order from place `i` on is transitive.
proof fn lemma_before_from_transitive(a: Seq<char>, b: Seq<char>, c: Seq<char>, i: int)
    requires
        0 <= i,
        before_from(a, b, i),
        before_from(b, c, i),
    ensures
        before_from(a, c, i),
    decreases a.len() - i,
{
    if i < a.len() && a[i] == b[i] && b[i] == c[i] {
        lemma_before_from_transitive(a, b, c, i + 1);
    }
}

/// Dictionary order is transitive.
pub proof fn lemma_before_transitive(a: Seq<char>, b: Seq<char>, c: Seq<char>)
    requires
        before(a, b),
        before(b, c),
    ensures
        before(a, c),
{
    lemma_before_from_transitive(a, b, c, 0);
}

/// How one name stands to another in dictionary order.
#[derive(Clone, Copy, Debug, PartialEq, Eq, Structural)]
pub enum Order {
    Before,
    Same,
    After,
}

/// The characters of a text.
pub fn characters(s: &str) -> (v: Vec<char>)
    ensures
        v@ == s@,
{
    let mut v: Vec<char> = Vec::new();
    for c in it: s.chars()
        invariant
            it.seq() == s@,
            v@ == it.seq().take(it.index() as int),
    {
        v.push(c);
    }
    assert(v@ =~= s@);
    v
}

/// Compares two names in dictionary order by character code.
pub fn compare(a: &str, b: &str) -> (o: Order)
    ensures
        o == Order::Before <==> before(a@, b@),
        o == Order::Same <==> a@ == b@,
        o == Order::After <==> before(b@, a@),
{
    let x = characters(a);
    let y = characters(b);
    let mut i: usize = 0;
    while i < x.len() && i < y.len()
        invariant
            x@ == a@,
            y@ == b@,
            i <= x.len(),
            i <= y.len(),
            forall|j: int| 0 <= j < i ==> a@[j] == b@[j],
        decreases x.len() - i,
    {
        let c: char = x[i];
        let d: char = y[i];
        if c != d {
            proof {
                lemma_before_skip(a@, b@, i as int);
                lemma_before_skip(b@, a@, i as int);
            }
            if c < d {
                return Order::Before;
            } else {
                return Order::After;
            }
        }
        i += 1;
    }
    proof {
        lemma_before_skip(a@, b@, i as int);
        lemma_before_skip(b@, a@, i as int);
    }
    if x.len() < y.len() {
        Order::Before
    } else if y.len() < x.len() {
        Order::After
    } else {
        assert(a@ =~= b@);
        Order::Same
    }
}

/// A table from names to values, kept in dictionary order of the names.
#[derive(Debug)]
pub struct Table<V> {
    entries: Vec<(String, V)>,
}

impl<V> Table<V> {
    /// The names of the table, in dictionary order.
    pub closed spec fn keys(&self) -> Seq<Seq<char>> {
        Seq::new(self.entries.len() as nat, |i: int| self.entries[i].0@)
    }

    /// The values of the table, each at the place of its name in [`Self::keys`].
    pub closed spec fn values(&self) -> Seq<V> {
        Seq::new(self.entries.len() as nat, |i: int| self.entries[i].1)
    }

    /// The names stand in strictly rising order.
    pub closed spec fn wf(&self) -> bool {
        forall|i: int, j: int|
            0 <= i < j < self.entries.len() ==> before(
                #[trigger] self.entries[i].0@,
                #[trigger] self.entries[j].0@,
            )
    }

    /// How the names and the values of a well-formed table hang together.
    pub proof fn lemma_table(&self)
        requires
            self.wf(),
        ensures
            self.keys().len() == self.values().len(),
            self.keys().no_duplicates(),
            forall|i: int, j: int|
                0 <= i < j < self.keys().len() ==> before(
                    #[trigger] self.keys()[i],
                    #[trigger] self.keys()[j],
                ),
            forall|k: Seq<char>| self@.contains_key(k) <==> self.keys().contains(k),
            forall|i: int|
                0 <= i < self.keys().len() ==> self@.contains_key(#[trigger] self.keys()[i])
                    && self@[self.keys()[i]] == self.values()[i],
            self@.dom().finite(),
    {
        let keys = self.keys();
        assert forall|i: int, j: int| 0 <= i < j < keys.len() implies before(
            #[trigger] keys[i],
            #[trigger] keys[j],
        ) by {
            assert(before(self.entries[i].0@, self.entries[j].0@));
        }
        assert forall|i: int, j: int|
            0 <= i < keys.len() && 0 <= j < keys.len() && i != j implies keys[i] != keys[j] by {
            lemma_before_irreflexive(keys[i]);
            if i < j {
                assert(before(keys[i], keys[j]));
            } else {
                assert(before(keys[j], keys[i]));
            }
        }
        assert forall|i: int| 0 <= i < keys.len() implies self@.contains_key(#[trigger] keys[i])
            && self@[keys[i]] == self.values()[i] by {
            self.lemma_entry(i);
        }
        assert forall|k: Seq<char>| self@.contains_key(k) implies keys.contains(k) by {
            let i = choose|i: int| 0 <= i < self.entries.len() && self.entries[i].0@ == k;
            assert(keys[i] == k);
        }
        assert(self@.dom() =~= keys.to_set());
        vstd::seq_lib::seq_to_set_is_finite(keys);
    }

    /// The name at place `i` has the value at place `i`.
    proof fn lemma_entry(&self, i: int)
        requires
            self.wf(),
            0 <= i < self.entries.len(),
        ensures
            self@.contains_key(self.entries[i].0@),
            self@[self.entries[i].0@] == self.entries[i].1,
    {
        let k = self.entries[i].0@;
        let j = choose|j: int| 0 <= j < self.entries.len() && self.entries[j].0@ == k;
        lemma_before_irreflexive(k);
        if i < j {
            assert(before(self.entries[i].0@, self.entries[j].0@));
        } else if j < i {
            assert(before(self.entries[j].0@, self.entries[i].0@));
        }
    }

    /// A table with no name.
    pub fn new() -> (t: Table<V>)
        ensures
            t.wf(),
            t@ == Map::<Seq<char>, V>::empty(),
            t.keys() == Seq::<Seq<char>>::empty(),
    {
        let t = Table { entries: Vec::new() };
        assert(t@ =~= Map::<Seq<char>, V>::empty());
        assert(t.keys() =~= Seq::<Seq<char>>::empty());
        t
    }

    /// The number of names.
    pub fn len(&self) -> (n: usize)
        ensures
            n == self.keys().len(),
            n == self.values().len(),
    {
        self.entries.len()
    }

    /// The name at place `i` in dictionary order.
    pub fn key_at(&self, i: usize) -> (k: &String)
        requires
            i < self.keys().len(),
        ensures
            k@ == self.keys()[i as int],
    {
        &self.entries[i].0
    }

    /// The value of the name at place `i` in dictionary order.
    pub fn value_at(&self, i: usize) -> (v: &V)
        requires
            i < self.values().len(),
        ensures
            *v == self.values()[i as int],
    {
        &self.entries[i].1
    }

    /// The place of `name`, or the place where it would stand.
    fn locate(&self, name: &String) -> (r: (bool, usize))
        requires
            self.wf(),
        ensures
            r.1 <= self.entries.len(),
            r.0 ==> r.1 < self.entries.len() && self.entries[r.1 as int].0@ == name@,
            !r.0 ==> !self@.contains_key(name@),
            forall|j: int| 0 <= j < r.1 ==> before(#[trigger] self.entries[j].0@, name@),
            forall|j: int|
                r.1 + (if r.0 { 1int } else { 0int }) <= j < self.entries.len() ==> before(
                    name@,
                    #[trigger] self.entries[j].0@,
                ),
    {
        let mut i: usize = 0;
        while i < self.entries.len()
            invariant
                self.wf(),
                i <= self.entries.len(),
                forall|j: int| 0 <= j < i ==> before(#[trigger] self.entries[j].0@, name@),
            decreases self.entries.len() - i,
        {
            match compare(self.entries[i].0.as_str(), name.as_str()) {
                Order::Before => {},
                Order::Same => {
                    assert forall|j: int| i + 1 <= j < self.entries.len() implies before(
                        name@,
                        #[trigger] self.entries[j].0@,
                    ) by {
                        assert(before(self.entries[i as int].0@, self.entries[j].0@));
                    }
                    return (true, i);
                },
                Order::After => {
                    assert forall|j: int| i <= j < self.entries.len() implies before(
                        name@,
                        #[trigger] self.entries[j].0@,
                    ) by {
                        if i < j {
                            assert(before(self.entries[i as int].0@, self.entries[j].0@));
                            lemma_before_transitive(
                                name@,
                                self.entries[i as int].0@,
                                self.entries[j].0@,
                            );
                        }
                    }
                    proof {
                        self.lemma_absent(name@, i as int);
                    }
                    return (false, i);
                },
            }
            i += 1;
        }
        proof {
            self.lemma_absent(name@, i as int);
        }
        (false, i)
    }

    /// A name that falls between two neighbours of the table is not in it.
    proof fn lemma_absent(&self, name: Seq<char>, at: int)
        requires
            0 <= at <= self.entries.len(),
            forall|j: int| 0 <= j < at ==> before(#[trigger] self.entries[j].0@, name),
            forall|j: int| at <= j < self.entries.len() ==> before(name, #[trigger] self.entries[j].0@),
        ensures
            !self@.contains_key(name),
    {
        lemma_before_irreflexive(name);
        if self@.contains_key(name) {
            let j = choose|j: int| 0 <= j < self.entries.len() && self.entries[j].0@ == name;
            if j < at {
                assert(before(self.entries[j].0@, name));
            } else {
                assert(before(name, self.entries[j].0@));
            }
        }
    }

    /// The place of `name` in dictionary order, if the table has it.
    pub fn position(&self, name: &String) -> (r: Option<usize>)
        requires
            self.wf(),
        ensures
            r is Some <==> self@.contains_key(name@),
            r matches Some(i) ==> i < self.keys().len() && self.keys()[i as int] == name@,
    {
        let (found, at) = self.locate(name);
        if found {
            proof {
                self.lemma_entry(at as int);
            }
            Some(at)
        } else {
            None
        }
    }

    /// The value of `name`, if the table has it.
    pub fn get(&self, name: &String) -> (r: Option<&V>)
        requires
            self.wf(),
        ensures
            r is Some <==> self@.contains_key(name@),
            r matches Some(v) ==> *v == self@[name@],
    {
        let (found, at) = self.locate(name);
        if found {
            proof {
                self.lemma_entry(at as int);
            }
            Some(&self.entries[at].1)
        } else {
            None
        }
    }

    /// Whether the table has `name`.
    pub fn contains(&self, name: &String) -> (b: bool)
        requires
            self.wf(),
        ensures
            b == self@.contains_key(name@),
    {
        self.locate(name).0
    }

    /// Gives `name` the value `v`, whether or not it had one.
    pub fn insert(&mut self, name: String, v: V)
        requires
            old(self).wf(),
        ensures
            final(self).wf(),
            final(self)@ == old(self)@.insert(name@, v),
    {
        let (found, at) = self.locate(&name);
        let ghost before_entries = self.entries@;
        let ghost key = name@;
        if found {
            self.entries.set(at, (name, v));
            assert(self.wf()) by {
                assert forall|i: int, j: int| 0 <= i < j < self.entries.len() implies before(
                    #[trigger] self.entries[i].0@,
                    #[trigger] self.entries[j].0@,
                ) by {
                    assert(before(before_entries[i].0@, before_entries[j].0@));
                }
            }
        } else {
            self.entries.insert(at, (name, v));
            assert(self.wf()) by {
                assert forall|i: int, j: int| 0 <= i < j < self.entries.len() implies before(
                    #[trigger] self.entries[i].0@,
                    #[trigger] self.entries[j].0@,
                ) by {
                    if i < at && j > at {
                        assert(before(before_entries[i].0@, key));
                        assert(before(key, before_entries[j - 1].0@));
                        lemma_before_transitive(
                            before_entries[i].0@,
                            key,
                            before_entries[j - 1].0@,
                        );
                    } else if i < at && j < at {
                        assert(before(before_entries[i].0@, before_entries[j].0@));
                    } else if i < at && j == at {
                        assert(before(before_entries[i].0@, key));
                    } else if i == at {
                        assert(before(key, before_entries[j - 1].0@));
                    } else {
                        assert(before(before_entries[i - 1].0@, before_entries[j - 1].0@));
                    }
                }
            }
        }
        proof {
            let old_table = *old(self);
            let new_table = *self;
            assert forall|k: Seq<char>| new_table@.contains_key(k) <==> old_table@.insert(
                key,
                v,
            ).contains_key(k) by {
                if new_table@.contains_key(k) {
                    let j = choose|j: int|
                        0 <= j < new_table.entries.len() && new_table.entries[j].0@ == k;
                    if k != key {
                        if found {
                            assert(before_entries[j].0@ == k);
                        } else if j < at {
                            assert(before_entries[j].0@ == k);
                        } else {
                            assert(before_entries[j - 1].0@ == k);
                        }
                    }
                }
                if old_table@.insert(key, v).contains_key(k) {
                    if k == key {
                        assert(new_table.entries[at as int].0@ == k);
                    } else {
                        let j = choose|j: int|
                            0 <= j < before_entries.len() && before_entries[j].0@ == k;
                        if found || j < at {
                            assert(new_table.entries[j].0@ == k);
                        } else {
                            assert(new_table.entries[j + 1].0@ == k);
                        }
                    }
                }
            }
            assert forall|k: Seq<char>| new_table@.contains_key(k) implies new_table@[k]
                == old_table@.insert(key, v)[k] by {
                if k == key {
                    new_table.lemma_entry(at as int);
                } else {
                    let j = choose|j: int|
                        0 <= j < before_entries.len() && before_entries[j].0@ == k;
                    old_table.lemma_entry(j);
                    if found || j < at {
                        new_table.lemma_entry(j);
                    } else {
                        new_table.lemma_entry(j + 1);
                    }
                }
            }
            assert(new_table@ =~= old_table@.insert(key, v));
        }
    }
}

impl<V> View for Table<V> {
    type V = Map<Seq<char>, V>;

    /// The value of each name.
    closed spec fn view(&self) -> Map<Seq<char>, V> {
        Map::new(
            |k: Seq<char>| exists|i: int| 0 <= i < self.entries.len() && self.entries[i].0@ == k,
            |k: Seq<char>|
                self.entries[choose|i: int|
                    0 <= i < self.entries.len() && self.entries[i].0@ == k].1,
        )
    }
}

} // verus!
