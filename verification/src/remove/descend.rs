//! The walk from the root to the node that a removal takes out of the tree,
//! which takes one from the size of every node that it passes.

use vstd::prelude::*;
use crate::{Dir, Node, TList};

verus! {

impl<T> TList<T> {
    /// In `visited` every node has, on the side of position `p`, a child
    /// that is in `visited` or is `y`.
    spec fn leads_to(&self, visited: Set<usize>, y: usize, p: int) -> bool {
        forall|v: usize| #[trigger]
            visited.contains(v) ==> self.live(v) && ((p < self.span_of(v).pos && (self.node(
                v,
            ).left matches Some(c) && (visited.contains(c) || c == y))) || (p > self.span_of(v).pos
                && (self.node(v).right matches Some(c) && (visited.contains(c) || c == y))))
    }

    /// A set of nodes that leads from the root down to the node `y` at
    /// position `p` holds every other node whose span holds `p`.
    proof fn lemma_path_to_node(&self, visited: Set<usize>, y: usize, p: int, x: usize)
        requires
            self.structure_ok(),
            self.live(y),
            self.span_of(y).pos == p,
            visited.contains(self.root_idx) || self.root_idx == y,
            self.leads_to(visited, y, p),
            self.live(x),
            self.holds(p, x),
        ensures
            visited.contains(x) || x == y,
        decreases self.order@.len() - (self.span_of(x).hi - self.span_of(x).lo),
    {
        assert(self.linked(x));
        match self.node(x).parent {
            None => {},
            Some(q) => {
                assert(self.linked(q));
                self.lemma_path_to_node(visited, y, p, q);
            },
        }
    }

    /// Walks from the root to the node at rank `k` and, where that node has
    /// two children, on to the node that follows it in the sequence. Takes
    /// one from the size of every node above the node where the walk ends.
    /// Returns the node at rank `k` and the node where the walk ended, which
    /// has at most one child.
    pub(crate) fn descend_for_remove(&mut self, k: usize) -> (r: (usize, usize))
        requires
            old(self).structure_ok(),
            k < old(self).handles().len(),
        ensures
            r.0 == old(self).handles()[k as int],
            old(self).live(r.1),
            r.1 == r.0 ==> old(self).node(r.0).left is None || old(self).node(r.0).right is None,
            r.1 != r.0 ==> old(self).node(r.1).left is None && old(self).span_of(r.1).pos == k + 1
                && old(self).node(r.0).left is Some && old(self).node(r.0).right is Some,
            final(self).sizes_shrunk(old(self), r.1, old(self).span_of(r.1).pos),
    {
        let ghost prev = *self;
        let ghost mut visited: Set<usize> = Set::empty();
        let mut rest: usize = k;
        let mut cur: usize = self.root_idx;
        proof {
            assert(prev.linked(prev.root_idx));
        }
        loop
            invariant_except_break
                rest == k - prev.span_of(cur).lo,
            invariant
                prev.structure_ok(),
                k < prev.order@.len(),
                self.node_list@.len() == prev.node_list@.len(),
                self.free_list@ == prev.free_list@,
                self.root_idx == prev.root_idx,
                self.order@ == prev.order@,
                self.span@ == prev.span@,
                forall|z: usize|
                    #![trigger self.live(z)]
                    #![trigger prev.live(z)]
                    self.live(z) == prev.live(z),
                forall|z: usize|
                    #![trigger self.node(z)]
                    #![trigger prev.node(z)]
                    prev.live(z) ==> self.node(z) == (Node {
                        size: if visited.contains(z) {
                            (prev.node(z).size - 1) as usize
                        } else {
                            prev.node(z).size
                        },
                        ..prev.node(z)
                    }),
                prev.live(cur),
                prev.holds(k as int, cur),
                cur == prev.root_idx || visited.contains(prev.root_idx),
                forall|v: usize| #[trigger]
                    visited.contains(v) ==> prev.span_of(v).hi - prev.span_of(v).lo > prev.span_of(
                        cur,
                    ).hi - prev.span_of(cur).lo,
                forall|v: usize| #[trigger]
                    visited.contains(v) ==> prev.span_of(v).lo <= prev.span_of(cur).lo && prev.span_of(
                        cur,
                    ).hi <= prev.span_of(v).hi,
                forall|v: usize| #[trigger]
                    visited.contains(v) ==> prev.live(v) && ((prev.span_of(cur).hi <= prev.span_of(
                        v,
                    ).pos && (prev.node(v).left matches Some(c) && (visited.contains(c) || c == cur)))
                        || (prev.span_of(cur).lo > prev.span_of(v).pos && (prev.node(
                        v,
                    ).right matches Some(c) && (visited.contains(c) || c == cur)))),
            ensures
                prev.span_of(cur).pos == k,
            decreases prev.span_of(cur).hi - prev.span_of(cur).lo,
        {
            proof {
                assert(prev.linked(cur) && prev.sized(cur));
                if let Some(l) = prev.node(cur).left {
                    assert(prev.linked(l) && prev.sized(l));
                }
                if let Some(r) = prev.node(cur).right {
                    assert(prev.linked(r) && prev.sized(r));
                }
            }
            let rank = self.get_child_size(cur, Dir::Left);
            if rank == rest {
                break ;
            }
            let size = match &self.node_list[cur] {
                Some(node) => node.size,
                None => 1,
            };
            let ghost here = cur;
            if rest < rank {
                match self.get_child_idx(cur, Dir::Left) {
                    Some(idx) => {
                        self.set_size(cur, size - 1);
                        proof {
                            visited = visited.insert(here);
                        }
                        cur = idx;
                    },
                    None => {
                        break ;
                    },
                }
            } else {
                match self.get_child_idx(cur, Dir::Right) {
                    Some(idx) => {
                        self.set_size(cur, size - 1);
                        rest -= rank + 1;
                        proof {
                            visited = visited.insert(here);
                        }
                        cur = idx;
                    },
                    None => {
                        break ;
                    },
                }
            }
        }
        let z = cur;
        proof {
            assert(prev.linked(z));
        }
        let z_left = self.get_child_idx(z, Dir::Left);
        let z_right = self.get_child_idx(z, Dir::Right);
        let mut y = z;
        match (z_left, z_right) {
            (Some(_), Some(r)) => {
                cur = r;
                let size = match &self.node_list[z] {
                    Some(node) => node.size,
                    None => 1,
                };
                proof {
                    assert(prev.sized(z));
                    assert(prev.linked(r));
                }
                self.set_size(z, size - 1);
                proof {
                    visited = visited.insert(z);
                }
                loop
                    invariant
                        prev.structure_ok(),
                        k < prev.order@.len(),
                        self.node_list@.len() == prev.node_list@.len(),
                        self.free_list@ == prev.free_list@,
                        self.root_idx == prev.root_idx,
                        self.order@ == prev.order@,
                        self.span@ == prev.span@,
                        forall|z: usize|
                            #![trigger self.live(z)]
                            #![trigger prev.live(z)]
                            self.live(z) == prev.live(z),
                        forall|z: usize|
                            #![trigger self.node(z)]
                            #![trigger prev.node(z)]
                            prev.live(z) ==> self.node(z) == (Node {
                                size: if visited.contains(z) {
                                    (prev.node(z).size - 1) as usize
                                } else {
                                    prev.node(z).size
                                },
                                ..prev.node(z)
                            }),
                        prev.live(cur),
                        prev.span_of(cur).lo == k + 1,
                        visited.contains(z),
                        visited.contains(prev.root_idx),
                        forall|v: usize| #[trigger]
                            visited.contains(v) ==> prev.span_of(v).lo <= prev.span_of(cur).lo
                                && prev.span_of(cur).hi <= prev.span_of(v).hi,
                        forall|v: usize| #[trigger]
                            visited.contains(v) ==> prev.span_of(v).hi - prev.span_of(v).lo
                                > prev.span_of(cur).hi - prev.span_of(cur).lo,
                        forall|v: usize| #[trigger]
                            visited.contains(v) ==> prev.live(v) && ((prev.span_of(cur).hi
                                <= prev.span_of(v).pos && (prev.node(v).left matches Some(c) && (
                            visited.contains(c) || c == cur))) || (prev.span_of(cur).lo
                                > prev.span_of(v).pos && (prev.node(v).right matches Some(c) && (
                            visited.contains(c) || c == cur)))),
                    ensures
                        prev.node(cur).left is None,
                    decreases prev.span_of(cur).hi - prev.span_of(cur).lo,
                {
                    proof {
                        assert(prev.linked(cur) && prev.sized(cur));
                    }
                    match self.get_child_idx(cur, Dir::Left) {
                        Some(l) => {
                            let size = match &self.node_list[cur] {
                                Some(node) => node.size,
                                None => 1,
                            };
                            self.set_size(cur, size - 1);
                            proof {
                                visited = visited.insert(cur);
                                assert(prev.linked(l));
                            }
                            cur = l;
                        },
                        None => {
                            break ;
                        },
                    }
                }
                y = cur;
            },
            _ => {},
        }
        proof {
            let p = prev.span_of(y).pos;
            assert(prev.linked(y));
            assert(prev.leads_to(visited, y, p)) by {
                assert forall|v: usize| #[trigger] visited.contains(v) implies prev.live(v) && ((p
                    < prev.span_of(v).pos && (prev.node(v).left matches Some(c) && (visited.contains(c)
                    || c == y))) || (p > prev.span_of(v).pos && (prev.node(v).right matches Some(c)
                    && (visited.contains(c) || c == y)))) by {}
            }
            assert forall|x: usize| prev.live(x) && x != y && prev.holds(p, x) implies visited.contains(
                x,
            ) by {
                prev.lemma_path_to_node(visited, y, p, x);
            }
            assert forall|x: usize| visited.contains(x) implies x != y && prev.holds(p, x) by {
                assert(prev.linked(x));
            }
        }
        (z, y)
    }
}

} // verus!
