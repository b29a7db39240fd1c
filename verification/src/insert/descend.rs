//! The walk from the root to the place of a new element, which adds one to
//! the size of every node that it visits.

use vstd::prelude::*;
use crate::{Dir, Node, TList};

verus! {

impl<T> TList<T> {
    /// A set of nodes that holds the root and, with every node but `last`,
    /// the child of that node on the path of an insertion at rank `k`, holds
    /// every node on that path.
    proof fn lemma_path_complete(&self, k: int, visited: Set<usize>, last: usize, x: usize)
        requires
            self.structure_ok(),
            0 <= k <= self.order@.len(),
            self.order@.len() > 0,
            visited.contains(self.root_idx),
            self.path_child(k, last) is None,
            forall|v: usize| #[trigger]
                visited.contains(v) ==> self.live(v) && (v == last || (self.path_child(k, v) matches Some(
                    c,
                ) && visited.contains(c))),
            self.live(x),
            self.on_path(k, x),
        ensures
            visited.contains(x),
        decreases self.order@.len() - (self.span_of(x).hi - self.span_of(x).lo),
    {
        assert(self.linked(x));
        match self.node(x).parent {
            None => {},
            Some(p) => {
                assert(self.linked(p));
                self.lemma_path_complete(k, visited, last, p);
            },
        }
    }

    /// Walks from the root to the node below which an element inserted at
    /// rank `k` is to hang, and adds one to the size of every node on the way.
    /// Returns that node and the side on which it has room.
    pub(crate) fn descend_for_insert(
        &mut self,
        k: usize,
        Ghost(prev): Ghost<TList<T>>,
        Ghost(leaf): Ghost<usize>,
    ) -> (r: (usize, Dir))
        requires
            prev.structure_ok(),
            prev.handles().len() > 0,
            k <= prev.handles().len(),
            old(self).allocated(&prev, leaf, old(self).node(leaf)),
        ensures
            final(self).sizes_grown(old(self), leaf, k as int),
            prev.live(r.0),
            prev.on_path(k as int, r.0),
            prev.path_child(k as int, r.0) is None,
            forall|z: usize|
                prev.live(z) && prev.on_path(k as int, z) && z != r.0 ==> #[trigger] prev.path_child(
                    k as int,
                    z,
                ) is Some,
            r.1 == Dir::Left <==> k <= prev.span_of(r.0).pos,
    {
        let ghost mid = *self;
        let ghost mut visited: Set<usize> = Set::empty();
        let mut rest: usize = k;
        let mut search_idx: usize = self.root_idx;
        let mut side = Dir::Left;
        proof {
            assert(prev.linked(prev.root_idx));
            assert(self.node_list@.len() == self.node_list.len());
        }
        loop
            invariant_except_break
                forall|v: usize| #[trigger]
                    visited.contains(v) ==> prev.span_of(v).hi - prev.span_of(v).lo > prev.span_of(
                        search_idx,
                    ).hi - prev.span_of(search_idx).lo,
                rest == k - prev.span_of(search_idx).lo,
                forall|v: usize| #[trigger]
                    visited.contains(v) ==> prev.live(v) && prev.on_path(k as int, v) && (
                    prev.path_child(k as int, v) matches Some(c) && (visited.contains(c) || c
                        == search_idx)),
            invariant
                prev.structure_ok(),
                prev.order@.len() > 0,
                prev.order@.len() < usize::MAX,
                k <= prev.order@.len(),
                mid.allocated(&prev, leaf, mid.node(leaf)),
                self.node_list@.len() == mid.node_list@.len(),
                self.free_list@ == mid.free_list@,
                self.root_idx == mid.root_idx,
                self.order@ == mid.order@,
                self.span@ == mid.span@,
                forall|z: usize|
                    #![trigger self.live(z)]
                    #![trigger mid.live(z)]
                    self.live(z) == mid.live(z),
                forall|z: usize|
                    #![trigger self.node(z)]
                    #![trigger mid.node(z)]
                    mid.live(z) ==> self.node(z) == (Node {
                        size: if visited.contains(z) {
                            (mid.node(z).size + 1) as usize
                        } else {
                            mid.node(z).size
                        },
                        ..mid.node(z)
                    }),
                prev.live(search_idx),
                prev.on_path(k as int, search_idx),
                search_idx == prev.root_idx || visited.contains(prev.root_idx),
            ensures
                visited.contains(search_idx),
                prev.path_child(k as int, search_idx) is None,
                side == Dir::Left <==> k <= prev.span_of(search_idx).pos,
                forall|v: usize| #[trigger]
                    visited.contains(v) ==> prev.live(v) && prev.on_path(k as int, v) && (v
                        == search_idx || (prev.path_child(k as int, v) matches Some(c)
                        && visited.contains(c))),
            decreases prev.span_of(search_idx).hi - prev.span_of(search_idx).lo,
        {
            proof {
                assert(prev.linked(search_idx) && prev.sized(search_idx));
                assert(mid.live(search_idx));
                if let Some(l) = prev.node(search_idx).left {
                    assert(prev.linked(l) && prev.sized(l));
                    assert(mid.live(l));
                }
                if let Some(r) = prev.node(search_idx).right {
                    assert(prev.linked(r) && prev.sized(r));
                    assert(mid.live(r));
                }
            }
            let size = match &self.node_list[search_idx] {
                Some(node) => node.size,
                None => 0,
            };
            self.set_size(search_idx, size + 1);
            let rank = self.get_child_size(search_idx, Dir::Left);
            let ghost here = search_idx;
            if rest > rank {
                match self.get_child_idx(search_idx, Dir::Right) {
                    Some(new_idx) => {
                        rest -= rank + 1;
                        proof {
                            visited = visited.insert(here);
                        }
                        search_idx = new_idx;
                    },
                    None => {
                        proof {
                            visited = visited.insert(here);
                        }
                        side = Dir::Right;
                        break ;
                    },
                }
            } else {
                match self.get_child_idx(search_idx, Dir::Left) {
                    Some(new_idx) => {
                        proof {
                            visited = visited.insert(here);
                        }
                        search_idx = new_idx;
                    },
                    None => {
                        proof {
                            visited = visited.insert(here);
                        }
                        side = Dir::Left;
                        break ;
                    },
                }
            }
        }
        proof {
            assert forall|z: usize| mid.live(z) && z != leaf && mid.on_path(k as int, z) implies visited.contains(
                z,
            ) by {
                prev.lemma_path_complete(k as int, visited, search_idx, z);
            }
        }
        (search_idx, side)
    }
}

} // verus!
