//! What holds of every list: the sizes, the ranks, the colours and the
//! black counts, and how insertion, appending and removal go together.

use vstd::arithmetic::power2::{lemma2_to64, lemma_pow2_strictly_increases, lemma_pow2_unfold, pow2};
use vstd::prelude::*;
use crate::{black_weight, Color, TList};

verus! {

/// Inserting at the rank that equals the length is appending.
pub proof fn lemma_insert_at_end_appends<T>(s: Seq<T>, elem: T)
    ensures
        s.insert(s.len() as int, elem) == s.push(elem),
{
    assert(s.insert(s.len() as int, elem) =~= s.push(elem));
}

/// After an insertion at rank `i` the new element stands at rank `i`,
/// and removing the element at rank `i` gives the sequence back.
pub proof fn lemma_remove_undoes_insert<T>(s: Seq<T>, i: int, elem: T)
    requires
        0 <= i <= s.len(),
    ensures
        s.insert(i, elem)[i] == elem,
        s.insert(i, elem).remove(i) == s,
{
    assert(s.insert(i, elem).remove(i) =~= s);
}

impl<T> TList<T> {
    /// The size stored in a node is one more than the sizes stored in its
    /// children, an absent child counting zero.
    pub proof fn lemma_sizes_add_up(&self)
        requires
            self.structure_ok(),
        ensures
            forall|x: usize|
                self.live(x) ==> (#[trigger] self.node(x)).size == 1 + self.size_of(
                    self.node(x).left,
                ) + self.size_of(self.node(x).right),
    {
        assert forall|x: usize| self.live(x) implies (#[trigger] self.node(x)).size == 1
            + self.size_of(self.node(x).left) + self.size_of(self.node(x).right) by {
            assert(self.linked(x) && self.sized(x));
            if let Some(l) = self.node(x).left {
                assert(self.sized(l));
            }
            if let Some(r) = self.node(x).right {
                assert(self.sized(r));
            }
        }
    }

    /// The size stored in the root is the length of the sequence.
    pub proof fn lemma_root_size(&self)
        requires
            self.structure_ok(),
            self@.len() > 0,
        ensures
            self.live(self.root()),
            self.node(self.root()).size == self@.len(),
    {
        assert(self.linked(self.root()) && self.sized(self.root()));
    }

    /// A node stands in the sequence behind the nodes of its left subtree:
    /// its rank is the first rank of its span plus the size of its left
    /// child, the subtree of the left child covers the ranks before it and
    /// that of the right child the ranks behind it.
    pub proof fn lemma_rank_by_left_size(&self, x: usize)
        requires
            self.structure_ok(),
            self.live(x),
        ensures
            0 <= self.span_of(x).lo <= self.span_of(x).pos < self.span_of(x).hi <= self@.len(),
            self.span_of(x).pos == self.span_of(x).lo + self.size_of(self.node(x).left),
            self.handles()[self.span_of(x).pos] == x,
            self@[self.span_of(x).pos] == self.node(x).data,
            self.node(x).left matches Some(l) ==> self.span_of(l).lo == self.span_of(x).lo
                && self.span_of(l).hi == self.span_of(x).pos,
            self.node(x).right matches Some(r) ==> self.span_of(r).lo == self.span_of(x).pos + 1
                && self.span_of(r).hi == self.span_of(x).hi,
    {
        assert(self.linked(x));
        if let Some(l) = self.node(x).left {
            assert(self.sized(l));
        }
    }

    /// In a list that is in order the root is black and no red node has a
    /// red child.
    pub proof fn lemma_colors(&self)
        requires
            self.wf(),
        ensures
            self@.len() > 0 ==> self.node(self.root()).color == Color::Black,
            forall|x: usize|
                #![trigger self.node(x)]
                self.live(x) && self.node(x).color == Color::Red ==> !self.is_red(self.node(x).left)
                    && !self.is_red(self.node(x).right),
    {
        assert forall|x: usize|
            #![trigger self.node(x)]
            self.live(x) && self.node(x).color == Color::Red implies !self.is_red(self.node(x).left)
            && !self.is_red(self.node(x).right) by {
            assert(self.no_red_red(x));
        }
    }

    /// `path` leads from its first node down, from each node to one of its
    /// children, and ends at a node that lacks a child.
    pub open spec fn descends(&self, path: Seq<usize>) -> bool
        decreases path.len(),
    {
        &&& path.len() > 0
        &&& self.live(path[0])
        &&& if path.len() == 1 {
            self.node(path[0]).left is None || self.node(path[0]).right is None
        } else {
            &&& self.node(path[0]).left == Some(path[1]) || self.node(path[0]).right == Some(
                path[1],
            )
            &&& self.descends(path.skip(1))
        }
    }

    /// The number of black nodes on `path`.
    pub open spec fn black_count(&self, path: Seq<usize>) -> nat
        decreases path.len(),
    {
        if path.len() == 0 {
            0
        } else {
            black_weight(self.node(path[0]).color) + self.black_count(path.skip(1))
        }
    }

    /// Black heights count the black nodes of every path down to an absent
    /// child.
    pub proof fn lemma_black_count(&self, bh: Map<usize, nat>, path: Seq<usize>)
        requires
            self.balanced_by(bh),
            self.descends(path),
        ensures
            self.black_count(path) == bh[path[0]],
        decreases path.len(),
    {
        let x = path[0];
        assert(self.balanced_at(bh, x));
        let rest = path.skip(1);
        if path.len() == 1 {
            assert(rest.len() == 0);
            assert(self.black_count(rest) == 0);
        } else {
            assert(rest[0] == path[1]);
            self.lemma_black_count(bh, rest);
        }
    }

    /// In a black-balanced list any two paths from the same node down to an
    /// absent child pass through the same number of black nodes.
    pub proof fn lemma_equal_black_counts(&self, first: Seq<usize>, second: Seq<usize>)
        requires
            self.black_balanced(),
            self.descends(first),
            self.descends(second),
            first[0] == second[0],
        ensures
            self.black_count(first) == self.black_count(second),
    {
        let bh = choose|bh: Map<usize, nat>| self.balanced_by(bh);
        self.lemma_black_count(bh, first);
        self.lemma_black_count(bh, second);
    }

    /// A path on which no red node follows a red one has at most twice as
    /// many nodes as black nodes, and one more if it begins with a red node.
    pub proof fn lemma_path_length(&self, path: Seq<usize>)
        requires
            self.structure_ok(),
            self.all_no_red_red(),
            self.descends(path),
        ensures
            path.len() <= 2 * self.black_count(path) + (1 - black_weight(self.node(path[0]).color)),
        decreases path.len(),
    {
        let x = path[0];
        let rest = path.skip(1);
        assert(self.no_red_red(x));
        if path.len() == 1 {
            assert(rest.len() == 0);
            assert(self.black_count(rest) == 0);
        } else {
            assert(rest[0] == path[1]);
            self.lemma_path_length(rest);
        }
    }

    /// A subtree with black height `b` has at least two to the power of
    /// `b`, less one, nodes.
    pub proof fn lemma_size_by_black_height(&self, bh: Map<usize, nat>, x: usize)
        requires
            self.structure_ok(),
            self.balanced_by(bh),
            self.live(x),
        ensures
            pow2(bh[x]) <= self.node(x).size + 1,
        decreases self.node(x).size,
    {
        self.lemma_sizes_add_up();
        assert(self.linked(x));
        assert(self.balanced_at(bh, x));
        lemma2_to64();
        if let Some(c) = self.node(x).left {
            assert(self.linked(c) && self.sized(c));
            self.lemma_size_by_black_height(bh, c);
        }
        if let Some(c) = self.node(x).right {
            assert(self.linked(c) && self.sized(c));
            self.lemma_size_by_black_height(bh, c);
        }
        if bh[x] > 0 {
            lemma_pow2_unfold(bh[x]);
        }
    }

    /// In a list that is in order and black-balanced, a path from the root
    /// down to an absent child is short: two to the power of half its
    /// length is at most the length of the sequence plus one.
    pub proof fn lemma_paths_are_short(&self, path: Seq<usize>)
        requires
            self.wf(),
            self.black_balanced(),
            self.descends(path),
            path[0] == self.root(),
        ensures
            pow2(path.len() / 2) <= self@.len() + 1,
    {
        let bh = choose|bh: Map<usize, nat>| self.balanced_by(bh);
        assert(self.linked(self.root()) && self.sized(self.root()));
        self.lemma_path_length(path);
        self.lemma_black_count(bh, path);
        self.lemma_size_by_black_height(bh, self.root());
        let half = path.len() / 2;
        if half < bh[self.root()] {
            lemma_pow2_strictly_increases(half, bh[self.root()]);
        }
    }
}

} // verus!
