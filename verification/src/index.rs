//! The reverse-dependency index: for each name, the tasks that wait for it.

use vstd::hash_map::StringHashMap;
use vstd::prelude::*;

verus! {

/// The entries of `list` as positions in the model.
pub open spec fn positions(list: Seq<usize>) -> Seq<int> {
    list.map_values(|position: usize| position as int)
}

/// Maps a name to the positions of the tasks that declared it as a
/// dependency, in the order in which they were recorded. The name need not
/// belong to a registered task.
pub struct ReverseIndex {
    /// Where in `lists` the list of a name stands.
    slots: StringHashMap<usize>,
    lists: Vec<Vec<usize>>,
}

impl ReverseIndex {
    /// Every name has a list of its own.
    pub closed spec fn wf(&self) -> bool {
        &&& forall|name: Seq<char>| #[trigger]
            self.slots@.contains_key(name) ==> self.slots@[name] < self.lists@.len()
        &&& forall|a: Seq<char>, b: Seq<char>|
            #[trigger] self.slots@.contains_key(a) && #[trigger] self.slots@.contains_key(b) && a
                != b ==> self.slots@[a] != self.slots@[b]
    }

    /// The tasks recorded for `name`, oldest first; none for a name that was
    /// never recorded.
    pub closed spec fn dependents(&self, name: Seq<char>) -> Seq<int> {
        if self.slots@.contains_key(name) {
            positions(self.lists@[self.slots@[name] as int]@)
        } else {
            Seq::empty()
        }
    }

    /// An index without entries.
    pub fn new() -> (index: Self)
        ensures
            index.wf(),
            forall|name: Seq<char>| #[trigger] index.dependents(name) == Seq::<int>::empty(),
    {
        ReverseIndex { slots: StringHashMap::new(), lists: Vec::new() }
    }

    /// Appends `position` to the list of `name`, which is created if absent.
    pub fn record(&mut self, name: &str, position: usize)
        requires
            old(self).wf(),
        ensures
            final(self).wf(),
            forall|other: Seq<char>| #[trigger]
                final(self).dependents(other) == if other == name@ {
                    old(self).dependents(other).push(position as int)
                } else {
                    old(self).dependents(other)
                },
    {
        broadcast use vstd::string::group_string_axioms;

        let found: Option<usize> = match self.slots.get(name) {
            Some(slot) => Some(*slot),
            None => None,
        };
        match found {
            Some(slot) => {
                self.lists[slot].push(position);
                assert(positions(self.lists@[slot as int]@) =~= positions(
                    old(self).lists@[slot as int]@,
                ).push(position as int));
            },
            None => {
                let slot: usize = self.lists.len();
                let mut list: Vec<usize> = Vec::new();
                list.push(position);
                self.lists.push(list);
                self.slots.insert(name.to_string(), slot);
                assert(positions(list@) =~= Seq::<int>::empty().push(position as int));
            },
        }
    }

    /// The list of `name`, if one was recorded.
    pub fn get(&self, name: &str) -> (list: Option<&Vec<usize>>)
        requires
            self.wf(),
        ensures
            match list {
                Some(found) => positions(found@) == self.dependents(name@),
                None => self.dependents(name@) == Seq::<int>::empty(),
            },
    {
        match self.slots.get(name) {
            Some(slot) => Some(&self.lists[*slot]),
            None => None,
        }
    }
}

} // verus!
