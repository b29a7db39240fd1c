//! Taking a list apart into its slot store, and putting one together from a
//! slot store that is found to hold a tree.

use vstd::prelude::*;
use crate::arena::same_link;
use crate::{Color, Node, Span, TList};

verus! {

/// A subtree that is still to be walked: the slot of its root, the
/// positions that it has to cover, the parent that its root has to name and
/// whether that parent is red.
struct Visit {
    idx: usize,
    lo: usize,
    hi: usize,
    parent: Option<usize>,
    under_red: bool,
}

/// What is known while the slots are walked.
struct Probe<T> {
    /// The slots.
    nodes: Seq<Option<Node<T>>>,
    /// The slot of the root.
    root: usize,
    /// The number of positions.
    n: int,
    /// The slots that the walk has been to.
    seen: Seq<bool>,
    /// For every position that the walk has given out the slot that got it.
    order: Seq<usize>,
    /// For every slot that the walk has been to the span of its subtree.
    span: Map<usize, Span>,
}

/// Position `i` lies in the range of a subtree that is still to be walked.
spec fn awaited(stack: Seq<Visit>, i: int) -> bool {
    exists|j: int| 0 <= j < stack.len() && (#[trigger] stack[j]).lo <= i < stack[j].hi
}

/// A subtree that is still to be walked stands for the child `c` of `x`
/// with the range from `lo` to `hi`.
spec fn due(stack: Seq<Visit>, c: usize, x: usize, lo: int, hi: int) -> bool {
    exists|j: int|
        0 <= j < stack.len() && (#[trigger] stack[j]).idx == c && stack[j].parent == Some(x)
            && stack[j].lo == lo && stack[j].hi == hi
}

/// The ranges of the subtrees still to be walked lie one behind the other.
spec fn in_row(stack: Seq<Visit>) -> bool {
    forall|i: int, j: int|
        0 <= i < j < stack.len() ==> (#[trigger] stack[i]).hi <= (#[trigger] stack[j]).lo
}

impl<T> Probe<T> {
    /// The walk has been to slot `x`.
    spec fn met(self, x: usize) -> bool {
        (x as int) < self.nodes.len() && self.seen[x as int] && self.nodes[x as int] is Some
    }

    /// The node in slot `x`.
    spec fn at(self, x: usize) -> Node<T> {
        self.nodes[x as int]->0
    }

    /// The subtree `e` hangs below a node that the walk has been to, or is
    /// the whole tree.
    spec fn visit_ok(self, e: Visit) -> bool {
        &&& 0 <= e.lo < e.hi <= self.n
        &&& match e.parent {
            None => e.lo == 0 && e.hi == self.n && e.idx == self.root && !e.under_red,
            Some(p) => self.met(p) && e.under_red == (self.at(p).color == Color::Red) && ((self.at(
                p,
            ).left == Some(e.idx) && self.span[p].lo == e.lo && self.span[p].pos == e.hi) || (
            self.at(p).right == Some(e.idx) && self.span[p].pos + 1 == e.lo && self.span[p].hi
                == e.hi)),
        }
    }

    /// The node `x` is linked as far as the walk has come: a child that the
    /// walk has not been to is due.
    spec fn half_linked(self, stack: Seq<Visit>, x: usize) -> bool {
        let n = self.at(x);
        let s = self.span[x];
        &&& 0 <= s.lo <= s.pos < s.hi <= self.n
        &&& self.order[s.pos] == x
        &&& !awaited(stack, s.pos)
        &&& n.size == s.hi - s.lo
        &&& match n.left {
            None => s.lo == s.pos,
            Some(l) => (self.met(l) && self.at(l).parent == Some(x) && self.span[l].lo == s.lo
                && self.span[l].hi == s.pos) || due(stack, l, x, s.lo, s.pos),
        }
        &&& match n.right {
            None => s.hi == s.pos + 1,
            Some(r) => (self.met(r) && self.at(r).parent == Some(x) && self.span[r].lo == s.pos + 1
                && self.span[r].hi == s.hi) || due(stack, r, x, s.pos + 1, s.hi),
        }
        &&& match n.parent {
            None => x == self.root && s.lo == 0 && s.hi == self.n && n.color == Color::Black,
            Some(p) => self.met(p) && (self.at(p).left == Some(x) || self.at(p).right == Some(x))
                && !(self.at(p).color == Color::Red && n.color == Color::Red),
        }
    }

    /// What holds between two steps of the walk.
    spec fn walking(self, stack: Seq<Visit>) -> bool {
        &&& self.seen.len() == self.nodes.len()
        &&& self.order.len() == self.n
        &&& self.n > 0
        &&& in_row(stack)
        &&& forall|j: int| 0 <= j < stack.len() ==> self.visit_ok(#[trigger] stack[j])
        &&& forall|i: int|
            0 <= i < self.n ==> self.met(#[trigger] self.order[i]) && self.span[self.order[i]].pos
                == i || awaited(stack, i)
        &&& forall|x: usize| self.met(x) ==> #[trigger] self.half_linked(stack, x)
        &&& if self.met(self.root) {
            self.at(self.root).parent is None
        } else {
            stack.len() == 1 && stack[0].parent is None && stack[0].idx == self.root
        }
    }

    /// `self` comes from `before` by one step of the walk: the subtree `e`
    /// has left the list `stack0`, the walk has been to its root, which
    /// stands at position `pos`, and the subtrees below that root have made
    /// `stack2`.
    spec fn step_from(
        self,
        before: Probe<T>,
        stack0: Seq<Visit>,
        stack2: Seq<Visit>,
        e: Visit,
        pos: int,
    ) -> bool {
        let node = self.at(e.idx);
        let red = node.color == Color::Red;
        &&& stack0.len() > 0
        &&& e == stack0.last()
        &&& (e.idx as int) < self.nodes.len()
        &&& self.nodes[e.idx as int] is Some
        &&& !before.seen[e.idx as int]
        &&& node.parent == e.parent
        &&& node.size == e.hi - e.lo
        &&& !(red && e.under_red)
        &&& e.parent is None ==> !red
        &&& e.lo <= pos < e.hi
        &&& match node.left {
            None => pos == e.lo,
            Some(l) => (l as int) < self.nodes.len() && self.nodes[l as int] is Some && pos == e.lo
                + self.at(l).size && e.lo < pos,
        }
        &&& match node.right {
            None => pos + 1 == e.hi,
            Some(r) => pos + 1 < e.hi,
        }
        &&& stack2 == ({
            let s1 = stack0.drop_last();
            let s2 = match node.left {
                Some(l) => s1.push(
                    Visit { idx: l, lo: e.lo, hi: pos as usize, parent: Some(e.idx), under_red: red },
                ),
                None => s1,
            };
            match node.right {
                Some(r) => s2.push(
                    Visit {
                        idx: r,
                        lo: (pos + 1) as usize,
                        hi: e.hi,
                        parent: Some(e.idx),
                        under_red: red,
                    },
                ),
                None => s2,
            }
        })
        &&& self.nodes == before.nodes
        &&& self.root == before.root
        &&& self.n == before.n
        &&& self.seen == before.seen.update(e.idx as int, true)
        &&& self.order == before.order.update(pos, e.idx)
        &&& self.span == before.span.insert(e.idx, Span { lo: e.lo as int, pos, hi: e.hi as int })
    }

    /// A step of the walk keeps what holds between two steps, and the next
    /// subtree is smaller than the one just walked.
    proof fn lemma_step(self, before: Probe<T>, stack0: Seq<Visit>, stack2: Seq<Visit>, e: Visit, pos: int)
        requires
            before.walking(stack0),
            self.step_from(before, stack0, stack2, e, pos),
        ensures
            self.walking(stack2),
            stack2.len() > 0 ==> stack2.last().hi < e.hi || (stack2.last().hi == e.hi
                && stack2.last().hi - stack2.last().lo < e.hi - e.lo),
    {
        self.lemma_step_visits(before, stack0, stack2, e, pos);
        self.lemma_step_positions(before, stack0, stack2, e, pos);
        self.lemma_step_linked(before, stack0, stack2, e, pos);
    }

    /// After a step the subtrees still to be walked are in order, each below
    /// a node that the walk has been to.
    proof fn lemma_step_visits(
        self,
        before: Probe<T>,
        stack0: Seq<Visit>,
        stack2: Seq<Visit>,
        e: Visit,
        pos: int,
    )
        requires
            before.walking(stack0),
            self.step_from(before, stack0, stack2, e, pos),
        ensures
            in_row(stack2),
            forall|j: int| 0 <= j < stack2.len() ==> self.visit_ok(#[trigger] stack2[j]),
            if self.met(self.root) {
                self.at(self.root).parent is None
            } else {
                stack2.len() == 1 && stack2[0].parent is None && stack2[0].idx == self.root
            },
            stack2.len() > 0 ==> stack2.last().hi < e.hi || (stack2.last().hi == e.hi
                && stack2.last().hi - stack2.last().lo < e.hi - e.lo),
    {
        let top = stack0.len() - 1;
        let s1 = stack0.drop_last();
        let node = self.at(e.idx);
        assert(before.visit_ok(stack0[top]));
        assert forall|j: int| 0 <= j < s1.len() implies s1[j] == stack0[j] && stack2[j]
            == stack0[j] by {}
        assert forall|j: int| 0 <= j < stack2.len() implies self.visit_ok(#[trigger] stack2[j]) by {
            if j < s1.len() {
                assert(before.visit_ok(stack0[j]));
                if let Some(p) = stack0[j].parent {
                    assert(before.met(p));
                    assert(p != e.idx);
                }
            }
        }
        assert(in_row(stack2)) by {
            assert forall|i: int, j: int| 0 <= i < j < stack2.len() implies (#[trigger] stack2[i]).hi
                <= (#[trigger] stack2[j]).lo by {
                if j < s1.len() {
                } else if i < s1.len() {
                    assert(stack0[i].hi <= stack0[top].lo);
                }
            }
        }
        if stack2.len() > 0 && node.left is None && node.right is None {
            assert(stack2.last() == stack0[top - 1]);
        }
    }

    /// After a step every position has been given out or is awaited.
    proof fn lemma_step_positions(
        self,
        before: Probe<T>,
        stack0: Seq<Visit>,
        stack2: Seq<Visit>,
        e: Visit,
        pos: int,
    )
        requires
            before.walking(stack0),
            self.step_from(before, stack0, stack2, e, pos),
        ensures
            forall|i: int|
                0 <= i < self.n ==> self.met(#[trigger] self.order[i]) && self.span[self.order[i]].pos
                    == i || awaited(stack2, i),
    {
        let top = stack0.len() - 1;
        let s1 = stack0.drop_last();
        let node = self.at(e.idx);
        assert(before.visit_ok(stack0[top]));
        assert forall|i: int| 0 <= i < self.n implies self.met(#[trigger] self.order[i])
            && self.span[self.order[i]].pos == i || awaited(stack2, i) by {
            if i == pos {
            } else if before.met(before.order[i]) && before.span[before.order[i]].pos == i {
                assert(before.order[i] != e.idx);
            } else {
                assert(awaited(stack0, i));
                let j = choose|j: int|
                    0 <= j < stack0.len() && (#[trigger] stack0[j]).lo <= i < stack0[j].hi;
                if j < top {
                    assert(stack2[j] == stack0[j]);
                } else if i < pos {
                    assert(node.left is Some);
                    assert(stack2[s1.len() as int].lo <= i < stack2[s1.len() as int].hi);
                } else {
                    assert(node.right is Some);
                    assert(stack2[stack2.len() - 1].lo <= i < stack2[stack2.len() - 1].hi);
                }
            }
        }
    }

    /// A position that was not awaited before a step, or that the step has
    /// given out, is not awaited after it.
    proof fn lemma_step_unawaited(
        self,
        before: Probe<T>,
        stack0: Seq<Visit>,
        stack2: Seq<Visit>,
        e: Visit,
        pos: int,
        i: int,
    )
        requires
            before.walking(stack0),
            self.step_from(before, stack0, stack2, e, pos),
            !awaited(stack0, i) || i == pos,
        ensures
            !awaited(stack2, i),
    {
        let top = stack0.len() - 1;
        let s1 = stack0.drop_last();
        assert(before.visit_ok(stack0[top]));
        if awaited(stack2, i) {
            let j = choose|j: int| 0 <= j < stack2.len() && (#[trigger] stack2[j]).lo <= i < stack2[j].hi;
            if j < s1.len() {
                assert(stack2[j] == stack0[j]);
                assert(stack0[j].hi <= stack0[top].lo);
                assert(stack0[j].lo <= i < stack0[j].hi);
            } else {
                assert(stack0[top].lo <= i < stack0[top].hi);
            }
        }
    }

    /// After a step every node that the walk has been to is linked as far as
    /// the walk has come.
    proof fn lemma_step_linked(
        self,
        before: Probe<T>,
        stack0: Seq<Visit>,
        stack2: Seq<Visit>,
        e: Visit,
        pos: int,
    )
        requires
            before.walking(stack0),
            self.step_from(before, stack0, stack2, e, pos),
        ensures
            forall|x: usize| self.met(x) ==> #[trigger] self.half_linked(stack2, x),
    {
        let top = stack0.len() - 1;
        let s1 = stack0.drop_last();
        let node = self.at(e.idx);
        assert(before.visit_ok(stack0[top]));
        assert forall|x: usize| self.met(x) implies #[trigger] self.half_linked(stack2, x) by {
            if x == e.idx {
                self.lemma_step_unawaited(before, stack0, stack2, e, pos, pos);
                if node.left is Some {
                    assert(stack2[s1.len() as int].idx == node.left->0);
                }
                if node.right is Some {
                    assert(stack2[stack2.len() - 1].idx == node.right->0);
                }
            } else {
                assert(before.met(x));
                assert(before.half_linked(stack0, x));
                let n = before.at(x);
                let s = before.span[x];
                self.lemma_step_unawaited(before, stack0, stack2, e, pos, s.pos);
                assert(s.pos != pos) by {
                    assert(stack0[top].lo <= pos < stack0[top].hi);
                }
                if let Some(l) = n.left {
                    if due(stack0, l, x, s.lo, s.pos) {
                        let j = choose|j: int|
                            0 <= j < stack0.len() && (#[trigger] stack0[j]).idx == l
                                && stack0[j].parent == Some(x) && stack0[j].lo == s.lo
                                && stack0[j].hi == s.pos;
                        if j < top {
                            assert(stack2[j] == stack0[j]);
                        }
                    } else {
                        assert(before.met(l));
                    }
                }
                if let Some(r) = n.right {
                    if due(stack0, r, x, s.pos + 1, s.hi) {
                        let j = choose|j: int|
                            0 <= j < stack0.len() && (#[trigger] stack0[j]).idx == r
                                && stack0[j].parent == Some(x) && stack0[j].lo == s.pos + 1
                                && stack0[j].hi == s.hi;
                        if j < top {
                            assert(stack2[j] == stack0[j]);
                        }
                    } else {
                        assert(before.met(r));
                    }
                }
                if let Some(p) = n.parent {
                    assert(before.met(p));
                }
            }
        }
    }
}

/// The size that the slots record for the child link `c`.
spec fn link_size<T>(nodes: Seq<Option<Node<T>>>, c: Option<usize>) -> int {
    match c {
        Some(l) => (nodes[l as int]->0).size as int,
        None => 0,
    }
}

/// The node in the slot that `e` names can be the root of the subtree `e`:
/// the walk has not been there, the node names the parent and has the size
/// that `e` asks for, it is not a red node below a red one nor a red root,
/// and its children leave it a position within the range of `e`.
spec fn fits<T>(nodes: Seq<Option<Node<T>>>, seen: Seq<bool>, e: Visit) -> bool {
    let node = nodes[e.idx as int]->0;
    let red = node.color == Color::Red;
    let pos = e.lo + link_size(nodes, node.left);
    &&& (e.idx as int) < nodes.len()
    &&& nodes[e.idx as int] is Some
    &&& !seen[e.idx as int]
    &&& node.parent == e.parent
    &&& node.size == e.hi - e.lo
    &&& !(red && e.under_red)
    &&& e.parent is None ==> !red
    &&& node.left matches Some(l) ==> (l as int) < nodes.len() && nodes[l as int] is Some
        && link_size(nodes, node.left) >= 1
    &&& pos < e.hi
    &&& match node.right {
        None => pos + 1 == e.hi,
        Some(r) => pos + 1 < e.hi,
    }
}

/// The free list names free slots, each once, and not more than there are.
spec fn free_fits<T>(nodes: Seq<Option<Node<T>>>, free: Seq<usize>) -> bool {
    &&& free.len() <= nodes.len()
    &&& forall|i: int|
        0 <= i < free.len() ==> ((#[trigger] free[i]) as int) < nodes.len() && nodes[free[i] as int] is None
    &&& forall|i: int, j: int| 0 <= i < j < free.len() ==> free[i] != free[j]
}

/// Whether the free list fits the slots.
fn free_list_fits<T>(node_list: &Vec<Option<Node<T>>>, free_list: &Vec<usize>) -> (ok: bool)
    ensures
        ok == free_fits(node_list@, free_list@),
{
    if free_list.len() > node_list.len() {
        return false;
    }
    let mut listed: Vec<bool> = Vec::new();
    let mut k: usize = 0;
    while k < node_list.len()
        invariant
            k <= node_list@.len(),
            listed@.len() == k,
            forall|x: int| 0 <= x < k ==> !listed@[x],
        decreases node_list@.len() - k,
    {
        listed.push(false);
        k += 1;
    }
    let mut i: usize = 0;
    while i < free_list.len()
        invariant
            i <= free_list@.len(),
            listed@.len() == node_list@.len(),
            forall|j: int|
                0 <= j < i ==> ((#[trigger] free_list@[j]) as int) < node_list@.len()
                    && node_list@[free_list@[j] as int] is None && listed@[free_list@[j] as int],
            forall|a: int, b: int| 0 <= a < b < i ==> free_list@[a] != free_list@[b],
            forall|x: int|
                0 <= x < listed@.len() && #[trigger] listed@[x] ==> exists|j: int|
                    0 <= j < i && #[trigger] free_list@[j] == x,
        decreases free_list@.len() - i,
    {
        let f = free_list[i];
        if f >= node_list.len() {
            return false;
        }
        if node_list[f].is_some() {
            return false;
        }
        if listed[f] {
            proof {
                let j = choose|j: int| 0 <= j < i && #[trigger] free_list@[j] == f;
                assert(free_list@[j] == free_list@[i as int]);
            }
            return false;
        }
        let ghost before = listed@;
        listed[f] = true;
        proof {
            assert forall|x: int| 0 <= x < listed@.len() && #[trigger] listed@[x] implies exists|j: int|
                0 <= j < i + 1 && #[trigger] free_list@[j] == x by {
                if x == f {
                    assert(free_list@[i as int] == x);
                } else {
                    assert(before[x]);
                    let j = choose|j: int| 0 <= j < i && #[trigger] free_list@[j] == x;
                    assert(free_list@[j] == x);
                }
            }
        }
        i += 1;
    }
    true
}

/// Whether the walk has been to every occupied slot.
fn all_met<T>(node_list: &Vec<Option<Node<T>>>, visited: &Vec<bool>) -> (ok: bool)
    requires
        visited@.len() == node_list@.len(),
    ensures
        ok == (forall|x: int| 0 <= x < node_list@.len() && node_list@[x] is Some ==> visited@[x]),
{
    let mut x: usize = 0;
    while x < node_list.len()
        invariant
            x <= node_list@.len(),
            visited@.len() == node_list@.len(),
            forall|y: int| 0 <= y < x && node_list@[y] is Some ==> visited@[y],
        decreases node_list@.len() - x,
    {
        if node_list[x].is_some() && !visited[x] {
            return false;
        }
        x += 1;
    }
    true
}

/// Looks at the node that is to be the root of the subtree `e` and returns
/// the position at which it stands, if the node fits.
fn inspect<T>(node_list: &Vec<Option<Node<T>>>, visited: &Vec<bool>, e: &Visit) -> (r: Option<usize>)
    requires
        visited@.len() == node_list@.len(),
        e.lo <= e.hi,
    ensures
        r is Some == fits(node_list@, visited@, *e),
        r matches Some(pos) ==> pos == e.lo + link_size(
            node_list@,
            (node_list@[e.idx as int]->0).left,
        ),
{
    if e.idx >= node_list.len() {
        return None;
    }
    let node = match &node_list[e.idx] {
        Some(node) => node,
        None => {
            return None;
        },
    };
    if visited[e.idx] {
        return None;
    }
    if !same_link(node.parent, e.parent) {
        return None;
    }
    let width = e.hi - e.lo;
    if node.size != width {
        return None;
    }
    let red = match node.color {
        Color::Red => true,
        Color::Black => false,
    };
    if red && (e.under_red || e.parent.is_none()) {
        return None;
    }
    let left_size = match node.left {
        None => 0,
        Some(l) => {
            if l >= node_list.len() {
                return None;
            }
            match &node_list[l] {
                Some(left_node) => {
                    if left_node.size == 0 {
                        return None;
                    }
                    left_node.size
                },
                None => {
                    return None;
                },
            }
        },
    };
    if left_size >= width {
        return None;
    }
    let pos = e.lo + left_size;
    match node.right {
        None => {
            if pos + 1 != e.hi {
                return None;
            }
        },
        Some(_) => {
            if pos + 1 >= e.hi {
                return None;
            }
        },
    }
    Some(pos)
}

impl<T> TList<T> {
    /// The slot store, the free list and the root handle of the list.
    pub closed spec fn made_of(&self, nodes: Seq<Option<Node<T>>>, free: Seq<usize>, root: usize) -> bool {
        self.node_list@ == nodes && self.free_list@ == free && self.root_idx == root
    }

    /// There is a list in order that has this slot store, this free list
    /// and this root handle.
    pub open spec fn valid_parts(nodes: Seq<Option<Node<T>>>, free: Seq<usize>, root: usize) -> bool {
        exists|list: TList<T>| list.made_of(nodes, free, root) && list.wf()
    }

    /// Takes the list apart into its slot store, its free list and its root
    /// handle.
    pub fn into_parts(self) -> (r: (Vec<Option<Node<T>>>, Vec<usize>, usize))
        ensures
            self.made_of(r.0@, r.1@, r.2),
    {
        (self.node_list, self.free_list, self.root_idx)
    }

    /// The list in order expects the subtree `e` where the walk expects it.
    spec fn expects(&self, e: Visit) -> bool {
        &&& self.live(e.idx)
        &&& self.span_of(e.idx).lo == e.lo
        &&& self.span_of(e.idx).hi == e.hi
        &&& self.node(e.idx).parent == e.parent
        &&& e.under_red == (e.parent matches Some(p) && self.node(p).color == Color::Red)
    }

    /// The walk has found what the list in order `self` holds.
    spec fn agrees(&self, probe: Probe<T>, stack: Seq<Visit>) -> bool {
        &&& self.node_list@ == probe.nodes
        &&& self.root_idx == probe.root
        &&& self.order@.len() == probe.n
        &&& self.wf()
        &&& forall|j: int| 0 <= j < stack.len() ==> self.expects(#[trigger] stack[j])
        &&& forall|x: usize| probe.met(x) ==> #[trigger] self.span_of(x) == probe.span[x]
    }

    /// Where there is a list in order with these slots, the node that is to
    /// be the root of the next subtree fits.
    proof fn lemma_accepts(&self, probe: Probe<T>, stack: Seq<Visit>)
        requires
            stack.len() > 0,
            probe.walking(stack),
            self.agrees(probe, stack),
        ensures
            fits(probe.nodes, probe.seen, stack.last()),
    {
        let e = stack.last();
        let top = stack.len() - 1;
        assert(self.expects(stack[top]));
        assert(probe.visit_ok(stack[top]));
        assert(self.linked(e.idx) && self.sized(e.idx));
        assert(self.no_red_red(e.idx));
        if let Some(l) = self.node(e.idx).left {
            assert(self.linked(l) && self.sized(l));
        }
        if let Some(r) = self.node(e.idx).right {
            assert(self.linked(r));
        }
        if let Some(p) = e.parent {
            assert(self.linked(p));
            assert(self.no_red_red(p));
        } else {
            assert(self.root_black());
        }
        if probe.seen[e.idx as int] {
            assert(probe.met(e.idx));
            assert(probe.half_linked(stack, e.idx));
            assert(self.span_of(e.idx) == probe.span[e.idx]);
            assert(stack[top].lo <= probe.span[e.idx].pos < stack[top].hi);
        }
    }

    /// Where there is a list in order with these slots, it agrees with the
    /// walk after a step as it did before.
    proof fn lemma_step_agrees(
        &self,
        probe: Probe<T>,
        before: Probe<T>,
        stack0: Seq<Visit>,
        stack2: Seq<Visit>,
        e: Visit,
        pos: int,
    )
        requires
            before.walking(stack0),
            probe.step_from(before, stack0, stack2, e, pos),
            self.agrees(before, stack0),
        ensures
            self.agrees(probe, stack2),
    {
        let top = stack0.len() - 1;
        let s1 = stack0.drop_last();
        assert(self.expects(stack0[top]));
        assert(self.linked(e.idx) && self.sized(e.idx));
        if let Some(l) = self.node(e.idx).left {
            assert(self.linked(l) && self.sized(l));
        }
        if let Some(r) = self.node(e.idx).right {
            assert(self.linked(r));
        }
        assert forall|j: int| 0 <= j < stack2.len() implies self.expects(#[trigger] stack2[j]) by {
            if j < s1.len() {
                assert(stack2[j] == stack0[j]);
                assert(self.expects(stack0[j]));
            }
        }
        assert forall|x: usize| probe.met(x) implies #[trigger] self.span_of(x) == probe.span[x] by {
            if x != e.idx {
                assert(before.met(x));
            }
        }
    }

    /// Where there is a list in order with these slots and the walk has
    /// come to its end, the walk has been to every occupied slot.
    proof fn lemma_all_met(&self, probe: Probe<T>, stack: Seq<Visit>, x: usize)
        requires
            stack.len() == 0,
            probe.walking(stack),
            self.agrees(probe, stack),
            self.live(x),
        ensures
            probe.met(x),
    {
        assert(self.linked(x));
        let p = self.span_of(x).pos;
        assert(!awaited(stack, p));
        let v = probe.order[p];
        assert(probe.met(v) && probe.span[v].pos == p);
        assert(self.span_of(v) == probe.span[v]);
        assert(self.live(v));
        assert(self.linked(v));
    }

    /// A walk that has come to its end and has been to every occupied slot
    /// has found a list in order.
    proof fn lemma_walked(&self, probe: Probe<T>, stack: Seq<Visit>)
        requires
            stack.len() == 0,
            probe.walking(stack),
            self.node_list@ == probe.nodes,
            self.root_idx == probe.root,
            self.order@ == probe.order,
            self.span@ == probe.span,
            free_fits(self.node_list@, self.free_list@),
            probe.n == self.node_list@.len() - self.free_list@.len(),
            forall|x: int| 0 <= x < probe.nodes.len() && probe.nodes[x] is Some ==> probe.seen[x],
        ensures
            self.wf(),
    {
        assert forall|x: usize| self.live(x) implies probe.met(x) by {}
        assert forall|x: usize| self.live(x) implies #[trigger] self.linked(x) by {
            assert(probe.half_linked(stack, x));
        }
        assert forall|x: usize| self.live(x) implies #[trigger] self.sized(x) by {
            assert(probe.half_linked(stack, x));
        }
        assert forall|i: int| 0 <= i < self.order@.len() implies self.live(
            #[trigger] self.order@[i],
        ) && self.span_of(self.order@[i]).pos == i by {
            assert(!awaited(stack, i));
            assert(probe.met(probe.order[i]));
        }
        assert forall|x: usize| self.live(x) implies #[trigger] self.no_red_red(x) by {
            assert(probe.half_linked(stack, x));
            if let Some(l) = self.node(x).left {
                assert(probe.half_linked(stack, l));
            }
            if let Some(r) = self.node(x).right {
                assert(probe.half_linked(stack, r));
            }
        }
        assert(probe.half_linked(stack, self.root_idx));
    }

    /// Puts a list together from a slot store, a free list and a root
    /// handle, if they are those of a list in order: the free list names the
    /// free slots, and the occupied slots form one tree below the root, with
    /// parent links that answer the child links, the size of its subtree in
    /// every node, a black root and no red node below a red one.
    pub fn from_parts(node_list: Vec<Option<Node<T>>>, free_list: Vec<usize>, root_idx: usize) -> (r:
        Option<TList<T>>)
        ensures
            r is Some == Self::valid_parts(node_list@, free_list@, root_idx),
            r matches Some(list) ==> list.made_of(node_list@, free_list@, root_idx) && list.wf(),
    {
        let ghost valid = Self::valid_parts(node_list@, free_list@, root_idx);
        let ghost witness = choose|list: TList<T>|
            list.made_of(node_list@, free_list@, root_idx) && list.wf();
        if !free_list_fits(&node_list, &free_list) {
            proof {
                if valid {
                    assert forall|i: int| 0 <= i < free_list@.len() implies ((
                    #[trigger] free_list@[i]) as int) < node_list@.len()
                        && node_list@[free_list@[i] as int] is None by {
                        assert(witness.vacant(witness.free_list@[i]));
                    }
                }
            }
            return None;
        }
        let count = node_list.len() - free_list.len();
        let mut visited: Vec<bool> = Vec::new();
        let mut k: usize = 0;
        while k < node_list.len()
            invariant
                k <= node_list@.len(),
                visited@.len() == k,
                forall|x: int| 0 <= x < k ==> !visited@[x],
            decreases node_list@.len() - k,
        {
            visited.push(false);
            k += 1;
        }
        let ghost mut probe = Probe {
            nodes: node_list@,
            root: root_idx,
            n: count as int,
            seen: visited@,
            order: Seq::new(count as nat, |i: int| 0usize),
            span: Map::empty(),
        };
        let mut stack: Vec<Visit> = Vec::new();
        if count > 0 {
            stack.push(Visit { idx: root_idx, lo: 0, hi: count, parent: None, under_red: false });
            proof {
                assert(probe.visit_ok(stack@[0]));
                assert forall|i: int| 0 <= i < probe.n implies probe.met(#[trigger] probe.order[i])
                    && probe.span[probe.order[i]].pos == i || awaited(stack@, i) by {
                    assert(stack@[0].lo <= i < stack@[0].hi);
                }
                if valid {
                    assert(witness.linked(root_idx));
                    assert(witness.expects(stack@[0]));
                }
            }
            loop
                invariant
                    count > 0,
                    visited@.len() == node_list@.len(),
                    probe.nodes == node_list@,
                    probe.root == root_idx,
                    probe.n == count,
                    probe.seen == visited@,
                    probe.walking(stack@),
                    valid ==> witness.agrees(probe, stack@),
                    valid == Self::valid_parts(node_list@, free_list@, root_idx),
                ensures
                    stack@.len() == 0,
                decreases
                        (if stack@.len() > 0 {
                            stack@.last().hi as int
                        } else {
                            0
                        }),
                        (if stack@.len() > 0 {
                            stack@.last().hi - stack@.last().lo
                        } else {
                            0
                        }),
            {
                let ghost before = probe;
                let ghost stack0 = stack@;
                let e = match stack.pop() {
                    Some(e) => e,
                    None => {
                        break ;
                    },
                };
                proof {
                    assert(before.visit_ok(stack0[stack0.len() - 1]));
                }
                let pos = match inspect(&node_list, &visited, &e) {
                    Some(pos) => pos,
                    None => {
                        proof {
                            if valid {
                                witness.lemma_accepts(before, stack0);
                            }
                        }
                        return None;
                    },
                };
                let (left, right, red) = match &node_list[e.idx] {
                    Some(node) => (
                        node.left,
                        node.right,
                        match node.color {
                            Color::Red => true,
                            Color::Black => false,
                        },
                    ),
                    None => (None, None, false),
                };
                if let Some(l) = left {
                    stack.push(Visit { idx: l, lo: e.lo, hi: pos, parent: Some(e.idx), under_red: red });
                }
                if let Some(r) = right {
                    stack.push(
                        Visit { idx: r, lo: pos + 1, hi: e.hi, parent: Some(e.idx), under_red: red },
                    );
                }
                visited[e.idx] = true;
                proof {
                    probe = Probe {
                        seen: visited@,
                        order: before.order.update(pos as int, e.idx),
                        span: before.span.insert(
                            e.idx,
                            Span { lo: e.lo as int, pos: pos as int, hi: e.hi as int },
                        ),
                        ..before
                    };
                    assert(probe.step_from(before, stack0, stack@, e, pos as int));
                    probe.lemma_step(before, stack0, stack@, e, pos as int);
                    if valid {
                        witness.lemma_step_agrees(probe, before, stack0, stack@, e, pos as int);
                    }
                }
            }
        }
        if !all_met(&node_list, &visited) {
            proof {
                if valid {
                    if count > 0 {
                        assert forall|x: int|
                            0 <= x < node_list@.len() && node_list@[x] is Some implies visited@[x] by {
                            witness.lemma_all_met(probe, stack@, x as usize);
                        }
                    } else {
                        assert forall|x: int|
                            0 <= x < node_list@.len() && node_list@[x] is Some implies visited@[x] by {
                            assert(witness.live(x as usize));
                            assert(witness.linked(x as usize));
                        }
                    }
                }
            }
            return None;
        }
        let ghost nodes = node_list@;
        let ghost free = free_list@;
        let list = TList {
            node_list,
            free_list,
            root_idx,
            order: Ghost(probe.order),
            span: Ghost(probe.span),
        };
        proof {
            if count > 0 {
                list.lemma_walked(probe, stack@);
            } else {
                assert forall|x: usize| !list.live(x) by {
                    if list.live(x) {
                        assert(visited@[x as int]);
                    }
                }
                assert(list.structure_ok());
                assert(list@.len() == 0);
            }
            assert(list.made_of(nodes, free, root_idx) && list.wf());
            assert(Self::valid_parts(nodes, free, root_idx));
        }
        Some(list)
    }
}

} // verus!
