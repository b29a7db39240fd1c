//! Walking the sequence in order, by reference or by value.

use vstd::prelude::*;
use crate::TList;

verus! {

/// A walk over the elements of a list in sequence order, by reference.
pub struct Iter<'a, T> {
    tree: &'a TList<T>,
    loc: usize,
}

impl<'a, T> View for Iter<'a, T> {
    type V = Seq<T>;

    /// The elements that are still to come.
    closed spec fn view(&self) -> Seq<T> {
        self.tree@.skip(self.loc as int)
    }
}

impl<'a, T> Iter<'a, T> {
    /// The walk is over a sound list and has not run past its end.
    pub closed spec fn wf(&self) -> bool {
        self.tree.structure_ok() && self.loc <= self.tree@.len()
    }

    /// The next element, if one is left.
    pub fn next(&mut self) -> (r: Option<&'a T>)
        requires
            old(self).wf(),
        ensures
            final(self).wf(),
            old(self)@.len() == 0 ==> r is None && final(self)@ == old(self)@,
            old(self)@.len() > 0 ==> r == Some(&old(self)@[0]) && final(self)@ == old(self)@.skip(1),
    {
        if self.loc >= self.tree.len() {
            return None;
        }
        let nxt = self.tree.get(self.loc);
        self.loc += 1;
        proof {
            assert(self@ =~= old(self)@.skip(1));
        }
        nxt
    }

    /// The number of elements that are still to come, as lower and upper
    /// bound.
    pub fn size_hint(&self) -> (r: (usize, Option<usize>))
        requires
            self.wf(),
        ensures
            r.0 == self@.len(),
            r.1 == Some(r.0),
    {
        let exact = self.tree.len() - self.loc;
        (exact, Some(exact))
    }
}

/// A walk over the elements of a list in sequence order that hands the
/// elements out and uses the list up.
pub struct IntoIter<T> {
    tree: TList<T>,
    /// The slots of the elements that are still to come, the next one last.
    traversal_list: Vec<usize>,
}

impl<T> View for IntoIter<T> {
    type V = Seq<T>;

    /// The elements that are still to come.
    closed spec fn view(&self) -> Seq<T> {
        Seq::new(
            self.traversal_list@.len(),
            |i: int| self.tree.node(self.traversal_list@[self.traversal_list@.len() - 1 - i]).data,
        )
    }
}

impl<T> IntoIter<T> {
    /// The slots still to be emptied are occupied, each listed once.
    pub closed spec fn wf(&self) -> bool {
        &&& forall|i: int|
            0 <= i < self.traversal_list@.len() ==> self.tree.live(#[trigger] self.traversal_list@[i])
        &&& forall|i: int, j: int|
            0 <= i < j < self.traversal_list@.len() ==> self.traversal_list@[i]
                != self.traversal_list@[j]
    }

    /// The next element, if one is left.
    pub fn next(&mut self) -> (r: Option<T>)
        requires
            old(self).wf(),
        ensures
            final(self).wf(),
            old(self)@.len() == 0 ==> r is None && final(self)@ == old(self)@,
            old(self)@.len() > 0 ==> r == Some(old(self)@[0]) && final(self)@ == old(self)@.skip(1),
    {
        let idx = match self.traversal_list.pop() {
            Some(idx) => idx,
            None => {
                return None;
            },
        };
        proof {
            assert(old(self).tree.live(old(self).traversal_list@[old(self).traversal_list@.len() - 1]));
        }
        let taken = self.tree.node_list[idx].take();
        proof {
            assert forall|i: int| 0 <= i < self.traversal_list@.len() implies self.tree.live(
                #[trigger] self.traversal_list@[i],
            ) by {
                assert(old(self).tree.live(old(self).traversal_list@[i]));
            }
            assert(self@ =~= old(self)@.skip(1)) by {
                assert forall|i: int| 0 <= i < self@.len() implies self@[i] == old(self)@.skip(1)[i] by {
                    let j = self.traversal_list@.len() - 1 - i;
                    assert(old(self).tree.live(old(self).traversal_list@[j]));
                }
            }
        }
        match taken {
            Some(node) => Some(node.data),
            None => None,
        }
    }

    /// The number of elements that are still to come, as lower and upper
    /// bound.
    pub fn size_hint(&self) -> (r: (usize, Option<usize>))
        ensures
            r.0 == self@.len(),
            r.1 == Some(r.0),
    {
        let exact = self.traversal_list.len();
        (exact, Some(exact))
    }
}

impl<T> TList<T> {
    /// A walk over the elements in sequence order, by reference. Each call
    /// starts afresh at the first element.
    pub fn iter(&self) -> (it: Iter<'_, T>)
        requires
            self.structure_ok(),
        ensures
            it.wf(),
            it@ == self@,
    {
        let it = Iter { tree: self, loc: 0 };
        proof {
            assert(it@ =~= self@);
        }
        it
    }

    /// Uses the list up and hands its elements out in sequence order.
    pub fn into_iter(self) -> (it: IntoIter<T>)
        requires
            self.structure_ok(),
        ensures
            it.wf(),
            it@ == self@,
    {
        let len = self.len();
        let mut traversal_list: Vec<usize> = Vec::new();
        let mut i: usize = len;
        while i > 0
            invariant
                self.structure_ok(),
                len == self@.len(),
                i <= len,
                traversal_list@.len() == len - i,
                forall|j: int|
                    0 <= j < traversal_list@.len() ==> #[trigger] traversal_list@[j]
                        == self.handles()[len - 1 - j],
            decreases i,
        {
            i -= 1;
            match self.search(i) {
                Some(idx) => {
                    traversal_list.push(idx);
                },
                None => {},
            }
        }
        let it = IntoIter { tree: self, traversal_list };
        proof {
            assert forall|j: int| 0 <= j < it.traversal_list@.len() implies it.tree.live(
                #[trigger] it.traversal_list@[j],
            ) by {
                assert(self.live(self.order@[len - 1 - j]));
            }
            assert forall|a: int, b: int| 0 <= a < b < it.traversal_list@.len() implies it.traversal_list@[a]
                != it.traversal_list@[b] by {
                assert(self.live(self.order@[len - 1 - a]));
                assert(self.live(self.order@[len - 1 - b]));
            }
            assert(it@ =~= self@);
        }
        it
    }
}

} // verus!
