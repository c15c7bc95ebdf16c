//! The table of named variables: name to last-assigned value, mutated only
//! by the assignment form of the evaluator.

use vstd::prelude::*;

verus! {

/// Looks a name up in a variable map: the stored value, or `None` where the
/// name was never assigned.
pub open spec fn spec_lookup(m: Map<Seq<char>, i32>, name: Seq<char>) -> Option<i32> {
    if m.dom().contains(name) {
        Some(m[name])
    } else {
        None
    }
}

/// A mapping from variable name to last-assigned value.  Insertion order is
/// irrelevant; a later assignment to the same name replaces the value.
#[derive(Debug)]
pub struct VarTable {
    entries: Vec<(String, i32)>,
}

spec fn map_of(es: Seq<(String, i32)>) -> Map<Seq<char>, i32>
    decreases es.len(),
{
    if es.len() == 0 {
        Map::empty()
    } else {
        map_of(es.drop_last()).insert(es.last().0@, es.last().1)
    }
}

impl View for VarTable {
    type V = Map<Seq<char>, i32>;

    /// The mapping the table holds: each name to the value assigned to it
    /// last.
    closed spec fn view(&self) -> Map<Seq<char>, i32> {
        map_of(self.entries@)
    }
}

impl VarTable {
    /// An empty table: no name has a value.
    pub fn new() -> (r: VarTable)
        ensures
            r@ == Map::<Seq<char>, i32>::empty(),
    {
        let r = VarTable { entries: Vec::new() };
        proof {
            assert(r.entries@.len() == 0);
        }
        r
    }

    /// The value stored under `name`, or `None` where none was.
    pub fn get(&self, name: &String) -> (r: Option<i32>)
        ensures
            r == spec_lookup(self@, name@),
    {
        let n = self.entries.len();
        let mut i = n;
        proof {
            assert(self.entries@.take(n as int) =~= self.entries@);
        }
        while i > 0
            invariant
                i <= n,
                n == self.entries@.len(),
                spec_lookup(map_of(self.entries@), name@) == spec_lookup(
                    map_of(self.entries@.take(i as int)),
                    name@,
                ),
            decreases i,
        {
            i = i - 1;
            let hit = self.entries[i].0.eq(name);
            proof {
                assert(self.entries@.take(i + 1).drop_last() =~= self.entries@.take(i as int));
                assert(self.entries@.take(i + 1).last() == self.entries@[i as int]);
            }
            if hit {
                return Some(self.entries[i].1);
            }
        }
        proof {
            assert(self.entries@.take(0) =~= Seq::<(String, i32)>::empty());
        }
        None
    }

    /// Stores `value` under `name`, replacing any earlier value.
    pub fn set(&mut self, name: &String, value: i32)
        ensures
            final(self)@ == old(self)@.insert(name@, value),
    {
        self.entries.push((name.clone(), value));
        proof {
            assert(self.entries@.drop_last() =~= old(self).entries@);
            assert(self.entries@.last() == (self.entries@[self.entries@.len() - 1]));
        }
    }
}

} // verus!
