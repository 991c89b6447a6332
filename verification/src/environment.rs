use vstd::prelude::*;

verus! {

/// The run's live mapping from variable name to the bit pattern of its
/// most recently assigned value.  It is kept as the ordered list of
/// bindings; a later binding for a name shadows every earlier one, so the
/// abstract view of the whole list is a map in which the last binding for
/// each name wins.
pub struct Environment {
    entries: Vec<(String, u64)>,
}

/// The map described by a list of bindings: later bindings win.
pub open spec fn bindings_map(entries: Seq<(String, u64)>) -> Map<Seq<char>, u64>
    decreases entries.len(),
{
    if entries.len() == 0 {
        Map::empty()
    } else {
        bindings_map(entries.drop_last()).insert(entries.last().0@, entries.last().1)
    }
}

impl View for Environment {
    type V = Map<Seq<char>, u64>;

    closed spec fn view(&self) -> Map<Seq<char>, u64> {
        bindings_map(self.entries@)
    }
}

/// A name is in the map iff some binding carries it.
proof fn lemma_bindings_map_domain(entries: Seq<(String, u64)>, name: Seq<char>)
    ensures
        bindings_map(entries).contains_key(name) <==> exists|i: int|
            0 <= i < entries.len() && entries[i].0@ == name,
    decreases entries.len(),
{
    if entries.len() > 0 {
        lemma_bindings_map_domain(entries.drop_last(), name);
        if bindings_map(entries).contains_key(name) && entries.last().0@ != name {
            let i = choose|i: int|
                0 <= i < entries.drop_last().len() && entries.drop_last()[i].0@ == name;
            assert(entries[i].0@ == name);
        }
        if exists|i: int| 0 <= i < entries.len() && entries[i].0@ == name {
            let i = choose|i: int| 0 <= i < entries.len() && entries[i].0@ == name;
            if i < entries.len() - 1 {
                assert(entries.drop_last()[i].0@ == name);
            }
        }
    }
}

/// The map's value for a name is the value of the last binding that
/// carries that name.
proof fn lemma_bindings_map_last(entries: Seq<(String, u64)>, j: int)
    requires
        0 <= j < entries.len(),
        forall|i: int| j < i < entries.len() ==> entries[i].0@ != entries[j].0@,
    ensures
        bindings_map(entries).contains_key(entries[j].0@),
        bindings_map(entries)[entries[j].0@] == entries[j].1,
    decreases entries.len(),
{
    if j == entries.len() - 1 {
    } else {
        lemma_bindings_map_last(entries.drop_last(), j);
    }
}

impl Environment {
    /// A fresh environment, with no variable bound.
    pub fn new() -> (r: Environment)
        ensures
            r@ == Map::<Seq<char>, u64>::empty(),
    {
        Environment { entries: Vec::new() }
    }

    /// The current value bound to `name`, or `None` if `name` was never
    /// assigned.
    pub fn get(&self, name: &String) -> (r: Option<u64>)
        ensures
            r == if self@.contains_key(name@) {
                Some(self@[name@])
            } else {
                None::<u64>
            },
    {
        let n = self.entries.len();
        let mut k: usize = n;
        while k > 0
            invariant
                k <= n,
                n == self.entries@.len(),
                forall|i: int| k <= i < n ==> self.entries@[i].0@ != name@,
            decreases k,
        {
            k = k - 1;
            if self.entries[k].0.eq(name) {
                proof {
                    lemma_bindings_map_last(self.entries@, k as int);
                }
                return Some(self.entries[k].1);
            }
        }
        proof {
            lemma_bindings_map_domain(self.entries@, name@);
        }
        None
    }

    /// Bind `value` under `name`, inserting the name or overwriting its
    /// previous value.
    pub fn set(&mut self, name: String, value: u64)
        ensures
            final(self)@ == old(self)@.insert(name@, value),
    {
        let ghost before = self.entries@;
        self.entries.push((name, value));
        proof {
            assert(self.entries@.drop_last() =~= before);
        }
    }
}

} // verus!
