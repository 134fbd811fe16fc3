//! The variables of a program and their values. There is one environment
//! for a whole evaluation: a block has no variables of its own.
use crate::value::{EvArray, Value};
use vstd::prelude::*;

verus! {

/// A variable with its value.
#[derive(Debug)]
pub struct Binding {
    pub name: String,
    pub value: EvArray,
}

/// The values of the variables. Where a name stands twice among the
/// entries, the later entry counts.
#[derive(Debug)]
pub struct Environment {
    pub entries: Vec<Binding>,
}

/// The map that the first `n` entries make.
pub open spec fn bound(entries: Seq<Binding>, n: nat) -> Map<Seq<char>, Value>
    decreases n,
{
    if n == 0 || n > entries.len() {
        Map::empty()
    } else {
        bound(entries, (n - 1) as nat).insert(entries[n - 1].name@, entries[n - 1].value@)
    }
}

impl View for Environment {
    type V = Map<Seq<char>, Value>;

    open spec fn view(&self) -> Map<Seq<char>, Value> {
        bound(self.entries@, self.entries.len() as nat)
    }
}

/// A name that no entry holds is not in the map.
pub proof fn lemma_bound_without(entries: Seq<Binding>, n: nat, name: Seq<char>)
    requires
        n <= entries.len(),
        forall|k: int| 0 <= k < n ==> entries[k].name@ != name,
    ensures
        !bound(entries, n).contains_key(name),
    decreases n,
{
    if n > 0 {
        lemma_bound_without(entries, (n - 1) as nat, name);
    }
}

/// The map gives a name the value of the last entry that holds the name.
pub proof fn lemma_bound_last(entries: Seq<Binding>, n: nat, name: Seq<char>, j: int)
    requires
        0 <= j < n <= entries.len(),
        entries[j].name@ == name,
        forall|k: int| j < k < n ==> entries[k].name@ != name,
    ensures
        bound(entries, n).contains_key(name),
        bound(entries, n)[name] == entries[j].value@,
    decreases n,
{
    if j < n - 1 {
        lemma_bound_last(entries, (n - 1) as nat, name, j);
    }
}

/// The map of the first `n` entries does not depend on the entries behind
/// them.
pub proof fn lemma_bound_prefix(a: Seq<Binding>, b: Seq<Binding>, n: nat)
    requires
        n <= a.len(),
        n <= b.len(),
        forall|k: int| 0 <= k < n ==> a[k] == b[k],
    ensures
        bound(a, n) == bound(b, n),
    decreases n,
{
    if n > 0 {
        lemma_bound_prefix(a, b, (n - 1) as nat);
    }
}

/// A new value in the last entry that holds a name changes the map at that
/// name and nowhere else.
pub proof fn lemma_bound_update(entries: Seq<Binding>, n: nat, j: int, b: Binding)
    requires
        0 <= j < n <= entries.len(),
        entries[j].name@ == b.name@,
        forall|k: int| j < k < n ==> entries[k].name@ != b.name@,
    ensures
        bound(entries.update(j, b), n) == bound(entries, n).insert(b.name@, b.value@),
    decreases n,
{
    let changed = entries.update(j, b);
    if j == n - 1 {
        lemma_bound_prefix(changed, entries, (n - 1) as nat);
        assert(bound(changed, n) =~= bound(entries, n).insert(b.name@, b.value@));
    } else {
        lemma_bound_update(entries, (n - 1) as nat, j, b);
        assert(bound(changed, n) =~= bound(entries, n).insert(b.name@, b.value@));
    }
}

impl Environment {
    /// An environment without variables.
    pub fn new() -> (r: Environment)
        ensures
            r@ == Map::<Seq<char>, Value>::empty(),
    {
        Environment { entries: Vec::new() }
    }

    /// The place of the last entry that holds `name`.
    #[verifier::loop_isolation(false)]
    fn find(&self, name: &String) -> (r: Option<usize>)
        ensures
            match r {
                Some(j) => j < self.entries.len() && self.entries[j as int].name@ == name@
                    && forall|k: int|
                    j < k < self.entries.len() ==> self.entries[k].name@ != name@,
                None => forall|k: int| 0 <= k < self.entries.len() ==> self.entries[k].name@ != name@,
            },
    {
        let mut i: usize = self.entries.len();
        while i > 0
            invariant
                i <= self.entries.len(),
                forall|k: int| i <= k < self.entries.len() ==> self.entries[k].name@ != name@,
            decreases i,
        {
            if self.entries[i - 1].name == *name {
                return Some(i - 1);
            }
            i -= 1;
        }
        None
    }

    /// Whether the variable has a value.
    pub fn contains_key(&self, name: &String) -> (r: bool)
        ensures
            r == self@.contains_key(name@),
    {
        match self.find(name) {
            Some(j) => {
                proof {
                    lemma_bound_last(
                        self.entries@,
                        self.entries.len() as nat,
                        name@,
                        j as int,
                    );
                }
                true
            },
            None => {
                proof {
                    lemma_bound_without(self.entries@, self.entries.len() as nat, name@);
                }
                false
            },
        }
    }

    /// A copy of the variable's value, if it has one.
    pub fn get(&self, name: &String) -> (r: Option<EvArray>)
        ensures
            match r {
                Some(v) => self@.contains_key(name@) && self@[name@] == v@,
                None => !self@.contains_key(name@),
            },
    {
        match self.find(name) {
            Some(j) => {
                proof {
                    lemma_bound_last(
                        self.entries@,
                        self.entries.len() as nat,
                        name@,
                        j as int,
                    );
                }
                Some(self.entries[j].value.duplicate())
            },
            None => {
                proof {
                    lemma_bound_without(self.entries@, self.entries.len() as nat, name@);
                }
                None
            },
        }
    }

    /// Gives the variable a value, in place of the one it had.
    pub fn insert(&mut self, name: String, value: EvArray)
        ensures
            final(self)@ == old(self)@.insert(name@, value@),
    {
        let found = self.find(&name);
        let b = Binding { name, value };
        match found {
            Some(j) => {
                proof {
                    lemma_bound_update(self.entries@, self.entries.len() as nat, j as int, b);
                }
                self.entries.set(j, b);
            },
            None => {
                let ghost before = self.entries@;
                self.entries.push(b);
                proof {
                    lemma_bound_prefix(self.entries@, before, before.len());
                }
            },
        }
    }
}

} // verus!
