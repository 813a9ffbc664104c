//! The table of registered file slots.

use vstd::prelude::*;

verus! {

/// The slots of a worker: which are in use and which can be handed out.
pub struct FileTable {
    /// The slots that are not in use; the next one to hand out is the last.
    unused: Vec<u32>,
    /// For each slot whether it is in use.
    in_use: Vec<bool>,
}

/// The slots below `capacity` that are in use.
pub struct FilesView {
    pub capacity: u32,
    pub used: Set<u32>,
}

impl View for FileTable {
    type V = FilesView;

    closed spec fn view(&self) -> FilesView {
        FilesView {
            capacity: self.in_use@.len() as u32,
            used: Set::new(|slot: u32| slot < self.in_use@.len() && self.in_use@[slot as int]),
        }
    }
}

impl FileTable {
    /// The list of unused slots holds each slot that is not in use once.
    pub closed spec fn wf(&self) -> bool {
        &&& self.in_use@.len() <= u32::MAX
        &&& self.unused@.no_duplicates()
        &&& forall|slot: u32| #[trigger]
            self.unused@.contains(slot) <==> slot < self.in_use@.len()
                && !self.in_use@[slot as int]
    }

    /// A table of `capacity` slots, none of them in use.
    pub fn new(capacity: u32) -> (table: Self)
        ensures
            table.wf(),
            table@.capacity == capacity,
            table@.used == Set::<u32>::empty(),
    {
        let mut unused: Vec<u32> = Vec::new();
        let mut in_use: Vec<bool> = Vec::new();
        let mut next: u32 = capacity;
        while next > 0
            invariant
                next <= capacity,
                unused@.len() == capacity - next,
                in_use@.len() == capacity - next,
                forall|k: int| 0 <= k < unused@.len() ==> #[trigger] unused@[k] == capacity - 1 - k,
                forall|k: int| 0 <= k < in_use@.len() ==> !#[trigger] in_use@[k],
            decreases next,
        {
            next -= 1;
            unused.push(next);
            in_use.push(false);
        }
        let table = FileTable { unused, in_use };
        proof {
            assert forall|slot: u32| #[trigger] unused@.contains(slot) <==> slot < in_use@.len()
                && !in_use@[slot as int] by {
                if slot < capacity {
                    assert(unused@[capacity - 1 - slot] == slot);
                }
            }
            assert(table@.used =~= Set::<u32>::empty());
        }
        table
    }

    /// Takes a slot into use; `None` where all are in use.
    pub fn acquire(&mut self) -> (slot: Option<u32>)
        requires
            old(self).wf(),
        ensures
            final(self).wf(),
            final(self)@.capacity == old(self)@.capacity,
            match slot {
                Some(s) => {
                    &&& s < old(self)@.capacity
                    &&& !old(self)@.used.contains(s)
                    &&& final(self)@.used == old(self)@.used.insert(s)
                },
                None => {
                    &&& forall|s: u32| s < old(self)@.capacity ==> old(self)@.used.contains(s)
                    &&& final(self)@.used == old(self)@.used
                },
            },
    {
        match self.unused.pop() {
            Some(slot) => {
                let ghost before = old(self).unused@;
                assert(before.last() == slot);
                assert(before.contains(slot));
                self.in_use[slot as usize] = true;
                proof {
                    assert forall|s: u32| #[trigger] self.unused@.contains(s) <==> s
                        < self.in_use@.len() && !self.in_use@[s as int] by {
                        if self.unused@.contains(s) {
                            let k = choose|k: int| 0 <= k < self.unused@.len() && self.unused@[k] == s;
                            assert(before[k] == s);
                            assert(before.contains(s));
                        }
                        if s < self.in_use@.len() && !self.in_use@[s as int] {
                            assert(before.contains(s));
                            let k = choose|k: int| 0 <= k < before.len() && before[k] == s;
                            assert(self.unused@[k] == s);
                        }
                    }
                    assert(self@.used =~= old(self)@.used.insert(slot));
                }
                Some(slot)
            },
            None => {
                assert forall|s: u32| s < self@.capacity implies self@.used.contains(s) by {
                    assert(!self.unused@.contains(s));
                }
                None
            },
        }
    }

    /// Gives a slot back. A slot that is not in use is left as it is.
    pub fn release(&mut self, slot: u32)
        requires
            old(self).wf(),
        ensures
            final(self).wf(),
            final(self)@.capacity == old(self)@.capacity,
            final(self)@.used == old(self)@.used.remove(slot),
    {
        if (slot as usize) < self.in_use.len() && self.in_use[slot as usize] {
            let ghost before = self.unused@;
            assert(!before.contains(slot));
            self.in_use[slot as usize] = false;
            self.unused.push(slot);
            proof {
                assert forall|s: u32| #[trigger] self.unused@.contains(s) <==> s
                    < self.in_use@.len() && !self.in_use@[s as int] by {
                    if self.unused@.contains(s) && s != slot {
                        let k = choose|k: int| 0 <= k < self.unused@.len() && self.unused@[k] == s;
                        assert(before[k] == s);
                        assert(before.contains(s));
                    }
                    if s == slot {
                        assert(self.unused@[before.len() as int] == s);
                    } else if before.contains(s) {
                        let k = choose|k: int| 0 <= k < before.len() && before[k] == s;
                        assert(self.unused@[k] == s);
                    }
                }
            }
        }
        assert(self@.used =~= old(self)@.used.remove(slot));
    }
}

/// Only slots below the capacity are ever in use.
pub proof fn law_used_slots_are_in_range(table: FileTable, slot: u32)
    requires
        table.wf(),
        table@.used.contains(slot),
    ensures
        slot < table@.capacity,
{
}

} // verus!
