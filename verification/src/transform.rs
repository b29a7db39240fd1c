//! Replacing every element by its image under a function.

use vstd::prelude::*;
use crate::{Node, TList};

verus! {

impl<T> TList<T> {
    /// Replaces every element by what `f` makes of it, in sequence order.
    pub fn traverse<F>(&mut self, f: &F) where F: Fn(T) -> T
        requires
            old(self).wf(),
            forall|i: int| 0 <= i < old(self)@.len() ==> f.requires((#[trigger] old(self)@[i],)),
        ensures
            final(self).wf(),
            final(self)@.len() == old(self)@.len(),
            forall|i: int|
                0 <= i < old(self)@.len() ==> f.ensures((old(self)@[i],), #[trigger] final(self)@[i]),
            final(self).handles() == old(self).handles(),
            final(self).slots() == old(self).slots(),
            final(self).free_slots() == old(self).free_slots(),
            old(self).black_balanced() ==> final(self).black_balanced(),
    {
        let len = self.len();
        let mut i: usize = 0;
        while i < len
            invariant
                self.wf(),
                i <= len,
                len == old(self)@.len(),
                self@.len() == len,
                self.handles() == old(self).handles(),
                self.slots() == old(self).slots(),
                self.free_slots() == old(self).free_slots(),
                old(self).black_balanced() ==> self.black_balanced(),
                forall|j: int| 0 <= j < i ==> f.ensures((old(self)@[j],), #[trigger] self@[j]),
                forall|j: int| i <= j < len ==> #[trigger] self@[j] == old(self)@[j],
                forall|j: int| 0 <= j < len ==> f.requires((#[trigger] old(self)@[j],)),
            decreases len - i,
        {
            let ghost before = *self;
            let search_idx = self.search(i);
            if let Some(idx) = search_idx {
                proof {
                    assert(before.live(before.order@[i as int]));
                    assert(before@[i as int] == before.node(idx).data);
                }
                let taken = self.node_list[idx].take();
                if let Some(node) = taken {
                    let Node { data, color, parent, left, right, size } = node;
                    let data = f(data);
                    self.node_list[idx] = Some(Node { data, color, parent, left, right, size });
                    proof {
                        assert(self.node_list@ =~= before.node_list@.update(
                            idx as int,
                            Some(Node { data, ..before.node(idx) }),
                        ));
                        before.lemma_data_replaced(self, idx, data);
                    }
                }
            }
            i += 1;
        }
    }
}

} // verus!
