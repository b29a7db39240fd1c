//! Insertion at a rank, and appending.

use vstd::prelude::*;
use crate::{Color, Span, TList};

mod attach;
mod descend;
mod repair;

verus! {

impl<T> TList<T> {
    /// Makes `elem` the only element of an empty list.
    fn push_first(&mut self, elem: T)
        requires
            old(self).wf(),
            old(self)@.len() == 0,
        ensures
            final(self).wf(),
            final(self)@ == old(self)@.push(elem),
            final(self).handles() == old(self).handles().push(old(self).next_slot()),
            final(self).slots() == old(self).slots_with_room(),
            final(self).free_slots() == old(self).free_slots_after_next(),
            final(self).black_balanced(),
    {
        let ghost prev = *self;
        let insert_idx = self.add_leaf(elem);
        let ghost mid = *self;
        self.set_color(insert_idx, Color::Black);
        self.root_idx = insert_idx;
        proof {
            self.order@ = seq![insert_idx];
            assert(self.order@ =~= prev.order@.push(insert_idx));
            self.span@ = self.span@.insert(insert_idx, Span { lo: 0, pos: 0, hi: 1 });
            assert forall|i: int| 0 <= i < self.free_list@.len() implies self.vacant(
                #[trigger] self.free_list@[i],
            ) by {
                assert(mid.vacant(mid.free_list@[i]));
            }
            assert forall|x: usize| self.live(x) implies x == insert_idx by {
                assert(mid.live(x));
                if x != insert_idx {
                    assert(prev.live(x));
                    assert(prev.linked(x));
                }
            }
            assert forall|x: usize| self.live(x) implies #[trigger] self.linked(x) by {}
            assert forall|x: usize| self.live(x) implies #[trigger] self.sized(x) by {}
            assert forall|x: usize| self.live(x) implies #[trigger] self.no_red_red(x) by {}
            assert(self@ =~= prev@.push(elem));
            let bh = Map::<usize, nat>::empty().insert(insert_idx, 1);
            assert forall|x: usize| self.live(x) implies #[trigger] self.balanced_at(bh, x) by {}
            assert(self.balanced_by(bh));
        }
    }

    /// Inserts `elem` so that it becomes the element at rank `index`; the
    /// elements from that rank on move one rank up. An `index` at or beyond
    /// the length appends.
    pub fn insert(&mut self, elem: T, index: usize)
        requires
            old(self).wf(),
        ensures
            final(self).wf(),
            final(self)@ == old(self)@.insert(
                if index <= old(self)@.len() {
                    index as int
                } else {
                    old(self)@.len() as int
                },
                elem,
            ),
            final(self).handles() == old(self).handles().insert(
                if index <= old(self)@.len() {
                    index as int
                } else {
                    old(self)@.len() as int
                },
                old(self).next_slot(),
            ),
            final(self).slots() == old(self).slots_with_room(),
            final(self).free_slots() == old(self).free_slots_after_next(),
            old(self).black_balanced() ==> final(self).black_balanced(),
    {
        let len = self.len();
        if len == 0 {
            proof {
                assert(self@.insert(0, elem) =~= self@.push(elem));
                assert(self.handles().insert(0, self.next_slot()) =~= self.handles().push(
                    self.next_slot(),
                ));
            }
            self.push_first(elem);
            return ;
        }
        let k = if index > len {
            len
        } else {
            index
        };
        let ghost prev = *self;
        let ghost bh = if prev.black_balanced() {
            choose|bh: Map<usize, nat>| prev.balanced_by(bh)
        } else {
            Map::empty()
        };

        let insert_idx = self.add_leaf(elem);
        let ghost mid = *self;
        let (parent, side) = self.descend_for_insert(k, Ghost(prev), Ghost(insert_idx));
        self.attach_leaf(parent, side, insert_idx, k, Ghost(prev), Ghost(mid));
        let ghost hung = *self;
        let ghost grown = bh.insert(insert_idx, 0);
        proof {
            prev.lemma_hung_colors(&hung, parent, side, insert_idx, bh);
        }
        let Ghost(out) = self.insert_fix_up(insert_idx, Ghost(grown));
        proof {
            if prev.black_balanced() {
                assert(self.balanced_by(out));
            }
        }
    }

    /// A red leaf hung into a well-coloured tree is the only red node that
    /// may have a red parent, and it leaves the black heights as they are.
    proof fn lemma_hung_colors(
        &self,
        post: &TList<T>,
        parent: usize,
        side: crate::Dir,
        leaf: usize,
        bh: Map<usize, nat>,
    )
        requires
            self.wf(),
            self@.len() > 0,
            self.live(parent),
            !self.live(leaf),
            crate::kid(self.node(parent), side) is None,
            post.structure_ok(),
            post.hung(self, parent, side, leaf),
            post.node(leaf).color == Color::Red,
            post.node(leaf).left is None,
            post.node(leaf).right is None,
        ensures
            post.red_violation_at(leaf),
            self.balanced_by(bh) ==> post.balanced_by(bh.insert(leaf, 0)),
    {
        assert forall|x: usize| post.live(x) implies #[trigger] post.no_red_red_but(x, leaf) by {
            if x != leaf {
                assert(self.live(x));
                assert(self.no_red_red(x));
                assert(self.linked(x));
            }
        }
        assert(self.linked(self.root()));
        if self.balanced_by(bh) {
            assert forall|x: usize| post.live(x) implies #[trigger] post.balanced_at(
                bh.insert(leaf, 0),
                x,
            ) by {
                if x != leaf {
                    assert(self.live(x));
                    assert(self.balanced_at(bh, x));
                    assert(self.linked(x));
                }
            }
        }
    }

    /// Appends `elem` to the sequence.
    pub fn push(&mut self, elem: T)
        requires
            old(self).wf(),
        ensures
            final(self).wf(),
            final(self)@ == old(self)@.push(elem),
            final(self).handles() == old(self).handles().push(old(self).next_slot()),
            final(self).slots() == old(self).slots_with_room(),
            final(self).free_slots() == old(self).free_slots_after_next(),
            old(self).black_balanced() ==> final(self).black_balanced(),
    {
        if self.len() == 0 {
            self.push_first(elem);
        } else {
            let loc = self.len();
            proof {
                assert(self@.insert(loc as int, elem) =~= self@.push(elem));
                assert(self.handles().insert(loc as int, self.next_slot()) =~= self.handles().push(
                    self.next_slot(),
                ));
            }
            self.insert(elem, loc);
        }
    }

    /// Inserts `elem` at rank `index` if there is such a rank, and appends it
    /// otherwise.
    pub fn insert_or_push(&mut self, elem: T, index: usize)
        requires
            old(self).wf(),
        ensures
            final(self).wf(),
            index < old(self)@.len() ==> final(self)@ == old(self)@.insert(index as int, elem),
            index >= old(self)@.len() ==> final(self)@ == old(self)@.push(elem),
            index < old(self)@.len() ==> final(self).handles() == old(self).handles().insert(
                index as int,
                old(self).next_slot(),
            ),
            index >= old(self)@.len() ==> final(self).handles() == old(self).handles().push(
                old(self).next_slot(),
            ),
            final(self).slots() == old(self).slots_with_room(),
            final(self).free_slots() == old(self).free_slots_after_next(),
            old(self).black_balanced() ==> final(self).black_balanced(),
    {
        if index >= self.len() {
            self.push(elem);
        } else {
            self.insert(elem, index);
        }
    }
}

} // verus!
