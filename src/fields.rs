//! The per-entity field table: group code to value, last write wins.
use vstd::prelude::*;

verus! {

/// The map that a log of writes leaves behind: later writes overwrite
/// earlier ones.
pub open spec fn table_of<V>(log: Seq<(i32, V)>) -> Map<int, V>
    decreases log.len(),
{
    if log.len() == 0 {
        Map::empty()
    } else {
        table_of(log.drop_last()).insert(log.last().0 as int, log.last().1)
    }
}

/// The value stored under `code`, or `absent` when there is none.
pub open spec fn value_or<V>(table: Map<int, V>, code: int, absent: V) -> V {
    if table.contains_key(code) {
        table[code]
    } else {
        absent
    }
}

/// Field values of one entity, keyed by group code.
pub struct FieldTable<V> {
    log: Vec<(i32, V)>,
}

impl<V> View for FieldTable<V> {
    type V = Map<int, V>;

    closed spec fn view(&self) -> Map<int, V> {
        table_of(self.log@)
    }
}

impl<V: Copy> FieldTable<V> {
    /// An empty table.
    pub fn new() -> (t: Self)
        ensures
            t@ == Map::<int, V>::empty(),
    {
        FieldTable { log: Vec::new() }
    }

    /// Stores `value` under `code`, replacing what was there.
    pub fn set(&mut self, code: i32, value: V)
        ensures
            final(self)@ == old(self)@.insert(code as int, value),
    {
        let ghost before = self.log@;
        self.log.push((code, value));
        assert(self.log@.drop_last() =~= before);
    }

    /// Removes every field.
    pub fn clear(&mut self)
        ensures
            final(self)@ == Map::<int, V>::empty(),
    {
        self.log.clear();
    }

    /// The value stored under `code`, or `absent` when the code was never set.
    pub fn get_or(&self, code: i32, absent: V) -> (r: V)
        ensures
            r == value_or(self@, code as int, absent),
    {
        let n = self.log.len();
        let mut j: usize = n;
        assert(self.log@.subrange(0, n as int) =~= self.log@);
        while j > 0
            invariant
                j <= n,
                n == self.log@.len(),
                table_of(self.log@.subrange(0, j as int)).contains_key(code as int)
                    == self@.contains_key(code as int),
                table_of(self.log@.subrange(0, j as int)).contains_key(code as int) ==> table_of(
                    self.log@.subrange(0, j as int),
                )[code as int] == self@[code as int],
            decreases j,
        {
            let entry = self.log[j - 1];
            let ghost prefix = self.log@.subrange(0, j as int);
            assert(prefix.drop_last() =~= self.log@.subrange(0, j - 1));
            if entry.0 == code {
                return entry.1;
            }
            j = j - 1;
        }
        assert(self.log@.subrange(0, 0) =~= Seq::<(i32, V)>::empty());
        absent
    }
}

} // verus!
