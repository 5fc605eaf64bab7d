use std::collections::HashMap;
use vstd::prelude::*;

verus! {

/// Remembers the last line shown for each slot, so that a line is shown again
/// only when it has changed.
#[derive(Debug, Clone)]
pub struct ChangePrinter {
    prev: HashMap<u32, String>,
}

impl View for ChangePrinter {
    type V = Map<u32, Seq<char>>;

    /// The last line shown for each slot.
    closed spec fn view(&self) -> Map<u32, Seq<char>> {
        self.prev@.map_values(|line: String| line@)
    }
}

impl ChangePrinter {
    pub fn new() -> (printer: Self)
        ensures
            printer@ == Map::<u32, Seq<char>>::empty(),
    {
        let printer = Self { prev: HashMap::new() };
        assert(printer@ =~= Map::<u32, Seq<char>>::empty());
        printer
    }

    /// Records `new` as the line of `slot` and says whether it is to be shown:
    /// it is unless it is the line that the slot showed last.
    pub fn print(&mut self, slot: u32, new: String) -> (shown: bool)
        ensures
            shown == !(old(self)@.contains_key(slot) && old(self)@[slot] == new@),
            final(self)@ == old(self)@.insert(slot, new@),
    {
        broadcast use vstd::std_specs::hash::group_hash_axioms;

        let same = match self.prev.get(&slot) {
            Some(prev) => *prev == new,
            None => false,
        };
        if same {
            assert(self@ =~= old(self)@.insert(slot, new@));
            false
        } else {
            self.prev.insert(slot, new);
            assert(self@ =~= old(self)@.insert(slot, new@));
            true
        }
    }

    /// Forgets the line of `slot`, so that the next line for it is shown.
    pub fn remove(&mut self, slot: u32)
        ensures
            final(self)@ == old(self)@.remove(slot),
    {
        broadcast use vstd::std_specs::hash::group_hash_axioms;

        self.prev.remove(&slot);
        assert(self@ =~= old(self)@.remove(slot));
    }
}

impl Default for ChangePrinter {
    fn default() -> (printer: Self)
        ensures
            printer@ == Map::<u32, Seq<char>>::empty(),
    {
        ChangePrinter::new()
    }
}

} // verus!
