//! The slot store: allocation and release of slots, and access to the
//! fields of the node in a slot.

use vstd::prelude::*;
use crate::{flip, Color, Dir, Node, TList};

verus! {

/// Number of slots of a list made by [`TList::new`].
pub const INITIAL_SIZE: usize = 256;

/// The other side.
pub(crate) fn flip_dir(d: Dir) -> (r: Dir)
    ensures
        r == flip(d),
{
    match d {
        Dir::Left => Dir::Right,
        Dir::Right => Dir::Left,
    }
}

/// Whether `a` and `b` are the same side.
pub(crate) fn same_dir(a: Dir, b: Dir) -> (r: bool)
    ensures
        r == (a == b),
{
    match (a, b) {
        (Dir::Left, Dir::Left) => true,
        (Dir::Right, Dir::Right) => true,
        _ => false,
    }
}

/// Whether `a` and `b` are the same link.
pub(crate) fn same_link(a: Option<usize>, b: Option<usize>) -> (r: bool)
    ensures
        r == (a == b),
{
    match (a, b) {
        (Some(x), Some(y)) => x == y,
        (None, None) => true,
        _ => false,
    }
}

impl<T> Node<T> {
    /// The node without parent or children that holds `elem`.
    pub open spec fn leaf(elem: T, color: Color) -> Node<T> {
        Node { data: elem, color, parent: None, left: None, right: None, size: 1 }
    }

    /// A node without parent or children.
    pub fn new_leaf(elem: T, color: Color) -> (node: Node<T>)
        ensures
            node == Node::<T>::leaf(elem, color),
    {
        Node { data: elem, color, parent: None, left: None, right: None, size: 1 }
    }
}

impl<T> TList<T> {
    // ----- constructors and counts --------------------------------------------

    /// An empty list with room for [`INITIAL_SIZE`] elements.
    pub fn new() -> (list: TList<T>)
        ensures
            list.wf(),
            list@ == Seq::<T>::empty(),
            list.slots() == INITIAL_SIZE,
            list.handles() == Seq::<usize>::empty(),
            list.free_slots() == Seq::new(INITIAL_SIZE as nat, |i: int| i as usize),
            list.black_balanced(),
    {
        Self::with_capacity(INITIAL_SIZE)
    }

    /// An empty list with room for `capacity` elements.
    pub fn with_capacity(capacity: usize) -> (list: TList<T>)
        ensures
            list.wf(),
            list@ == Seq::<T>::empty(),
            list.slots() == capacity,
            list.handles() == Seq::<usize>::empty(),
            list.free_slots() == Seq::new(capacity as nat, |i: int| i as usize),
            forall|x: usize| !list.live(x),
            list.black_balanced(),
    {
        let mut node_list: Vec<Option<Node<T>>> = Vec::with_capacity(capacity);
        let mut free_list: Vec<usize> = Vec::with_capacity(capacity);
        let mut i: usize = 0;
        while i < capacity
            invariant
                i <= capacity,
                node_list@.len() == i,
                free_list@.len() == i,
                forall|j: int| 0 <= j < i ==> node_list@[j] is None,
                forall|j: int| 0 <= j < i ==> free_list@[j] == j,
            decreases capacity - i,
        {
            node_list.push(None);
            free_list.push(i);
            i += 1;
        }
        let list = TList {
            node_list,
            free_list,
            root_idx: 0,
            order: Ghost(Seq::empty()),
            span: Ghost(Map::empty()),
        };
        proof {
            assert(list@ =~= Seq::<T>::empty());
            assert(list.balanced_by(Map::empty()));
            assert(list.free_list@ =~= Seq::new(capacity as nat, |i: int| i as usize));
        }
        list
    }

    /// The number of elements.
    pub fn len(&self) -> (n: usize)
        requires
            self.structure_ok(),
        ensures
            n == self@.len(),
    {
        self.node_list.len() - self.free_list.len()
    }

    /// The number of elements that the list can hold without growing its
    /// slot store.
    pub fn capacity(&self) -> (n: usize)
        ensures
            n == self.slots(),
    {
        self.node_list.len()
    }

    /// Handle of the root node, which is meaningful while the list is not empty.
    pub fn root_idx(&self) -> (r: usize)
        ensures
            r == self.root(),
    {
        self.root_idx
    }

    /// The node in slot `index`, if the slot exists and is occupied.
    pub fn node_at(&self, index: usize) -> (r: Option<&Node<T>>)
        ensures
            self.live(index) ==> r == Some(&self.node(index)),
            !self.live(index) ==> r is None,
    {
        if index < self.node_list.len() {
            self.node_list[index].as_ref()
        } else {
            None
        }
    }

    // ----- slots ---------------------------------------------------------------

    /// Grows the slot store by one slot and half as many again as there are
    /// elements, lists the new slots as free, and hands out one of them.
    pub(crate) fn realloc(&mut self) -> (idx: usize)
        requires
            old(self).free_ok(),
            old(self).free_list@.len() == 0,
        ensures
            final(self).free_ok(),
            final(self).vacant(idx),
            idx == old(self).node_list@.len() + old(self).node_list@.len() / 2,
            final(self).free_list@ == Seq::new(
                old(self).node_list@.len() / 2,
                |i: int| (old(self).node_list@.len() + i) as usize,
            ),
            forall|i: int| 0 <= i < final(self).free_list@.len() ==> final(self).free_list@[i] != idx,
            final(self).node_list@.len() == old(self).node_list@.len() + 1 + old(
                self,
            ).node_list@.len() / 2,
            final(self).free_list@.len() == old(self).node_list@.len() / 2,
            forall|i: int|
                0 <= i < old(self).node_list@.len() ==> final(self).node_list@[i] == old(
                    self,
                ).node_list@[i],
            forall|i: int|
                old(self).node_list@.len() <= i < final(self).node_list@.len()
                    ==> final(self).node_list@[i] is None,
            final(self).root_idx == old(self).root_idx,
            final(self).order@ == old(self).order@,
            final(self).span@ == old(self).span@,
    {
        let current_len = self.node_list.len() - self.free_list.len();
        assert(current_len >> 1 == current_len / 2) by (bit_vector);
        let additional = 1 + (current_len >> 1);
        let mut i: usize = 0;
        while i < additional
            invariant
                i <= additional,
                current_len == old(self).node_list@.len(),
                self.node_list@.len() == current_len + i,
                self.free_list@.len() == i,
                forall|j: int| 0 <= j < i ==> self.free_list@[j] == current_len + j,
                forall|j: int| current_len <= j < current_len + i ==> self.node_list@[j] is None,
                forall|j: int| 0 <= j < current_len ==> self.node_list@[j] == old(self).node_list@[j],
                self.root_idx == old(self).root_idx,
                self.order@ == old(self).order@,
                self.span@ == old(self).span@,
            decreases additional - i,
        {
            let slot = self.node_list.len();
            self.node_list.push(None);
            self.free_list.push(slot);
            i += 1;
        }
        let ghost listed = self.free_list@;
        let last = self.free_list.pop();
        proof {
            assert(self.free_list@ =~= Seq::new(
                old(self).node_list@.len() / 2,
                |i: int| (old(self).node_list@.len() + i) as usize,
            ));
            assert(last == Some(listed[listed.len() - 1]));
        }
        match last {
            Some(idx) => idx,
            None => 0,
        }
    }

    /// Puts `elem` into a free slot as a red node without links and returns
    /// the handle of the slot.
    pub(crate) fn add_leaf(&mut self, elem: T) -> (idx: usize)
        requires
            old(self).free_ok(),
        ensures
            final(self).allocated(old(self), idx, Node::<T>::leaf(elem, Color::Red)),
    {
        let leaf = Node::new_leaf(elem, Color::Red);
        let insert_idx = match self.free_list.pop() {
            Some(insert_idx) => insert_idx,
            None => self.realloc(),
        };
        proof {
            if old(self).free_list@.len() > 0 {
                assert(old(self).vacant(old(self).free_list@[old(self).free_list@.len() - 1]));
            }
        }
        self.node_list[insert_idx] = Some(leaf);
        proof {
            assert forall|i: int| 0 <= i < self.free_list@.len() implies self.vacant(
                #[trigger] self.free_list@[i],
            ) by {
                if old(self).free_list@.len() > 0 {
                    assert(old(self).vacant(old(self).free_list@[i]));
                }
            }
        }
        insert_idx
    }

    /// Empties the occupied slot `idx`, lists it as free and returns the node
    /// that it held.
    pub(crate) fn release(&mut self, idx: usize) -> (node: Option<Node<T>>)
        requires
            old(self).free_ok(),
            old(self).live(idx),
        ensures
            node == Some(old(self).node(idx)),
            final(self).free_ok(),
            final(self).node_list@ == old(self).node_list@.update(idx as int, None),
            final(self).free_list@ == old(self).free_list@.push(idx),
            final(self).root_idx == old(self).root_idx,
            final(self).order@ == old(self).order@,
            final(self).span@ == old(self).span@,
    {
        let taken = self.node_list[idx].take();
        self.free_list.push(idx);
        proof {
            assert forall|i: int| 0 <= i < self.free_list@.len() implies self.vacant(
                #[trigger] self.free_list@[i],
            ) by {
                if i < old(self).free_list@.len() {
                    assert(old(self).vacant(old(self).free_list@[i]));
                }
            }
            assert forall|i: int, j: int| 0 <= i < j < self.free_list@.len() implies self.free_list@[i]
                != self.free_list@[j] by {
                assert(old(self).vacant(old(self).free_list@[i]));
            }
        }
        taken
    }

    // ----- reading a node ---------------------------------------------------

    /// The child of the node in slot `index` on the side `dir`.
    pub(crate) fn get_child_idx(&self, index: usize, dir: Dir) -> (r: Option<usize>)
        requires
            self.live(index),
        ensures
            r == match dir {
                Dir::Left => self.node(index).left,
                Dir::Right => self.node(index).right,
            },
    {
        match &self.node_list[index] {
            Some(node) => match dir {
                Dir::Left => node.left,
                Dir::Right => node.right,
            },
            None => None,
        }
    }

    /// The parent of the node in slot `index`.
    pub(crate) fn get_parent_idx(&self, index: usize) -> (r: Option<usize>)
        requires
            self.live(index),
        ensures
            r == self.node(index).parent,
    {
        match &self.node_list[index] {
            Some(node) => node.parent,
            None => None,
        }
    }

    /// The parent of the parent of the node in slot `index`.
    pub(crate) fn get_grandparent_idx(&self, index: usize) -> (r: Option<usize>)
        requires
            self.live(index),
            self.node(index).parent matches Some(p) ==> self.live(p),
        ensures
            r == match self.node(index).parent {
                Some(p) => self.node(p).parent,
                None => None,
            },
    {
        match self.get_parent_idx(index) {
            Some(p) => self.get_parent_idx(p),
            None => None,
        }
    }

    /// The size of the subtree below the child of `index` on the side `dir`,
    /// zero where there is no child.
    pub(crate) fn get_child_size(&self, index: usize, dir: Dir) -> (r: usize)
        requires
            self.live(index),
            self.node(index).left matches Some(c) ==> self.live(c),
            self.node(index).right matches Some(c) ==> self.live(c),
        ensures
            r == match dir {
                Dir::Left => self.size_of(self.node(index).left),
                Dir::Right => self.size_of(self.node(index).right),
            },
    {
        match self.get_child_idx(index, dir) {
            Some(c_idx) => match &self.node_list[c_idx] {
                Some(node) => node.size,
                None => 0,
            },
            None => 0,
        }
    }

    /// The colour of the node in slot `index`.
    pub(crate) fn color_at(&self, index: usize) -> (r: Color)
        requires
            self.live(index),
        ensures
            r == self.node(index).color,
    {
        match &self.node_list[index] {
            Some(node) => node.color,
            None => Color::Black,
        }
    }

    /// Whether the child link `c` leads to a red node.
    pub(crate) fn link_is_red(&self, c: Option<usize>) -> (r: bool)
        requires
            c matches Some(y) ==> self.live(y),
        ensures
            r == self.is_red(c),
    {
        match c {
            Some(y) => match self.color_at(y) {
                Color::Red => true,
                Color::Black => false,
            },
            None => false,
        }
    }

    // ----- writing a node -----------------------------------------------------

    /// Writes the colour of the node in slot `x`.
    pub(crate) fn set_color(&mut self, x: usize, color: Color)
        requires
            old(self).live(x),
        ensures
            final(self).replaced(old(self), x, Node { color, ..old(self).node(x) }),
    {
        match &mut self.node_list[x] {
            Some(node) => {
                node.color = color;
            },
            None => {},
        }
    }

    /// Writes the parent link of the node in slot `x`.
    pub(crate) fn set_parent(&mut self, x: usize, parent: Option<usize>)
        requires
            old(self).live(x),
        ensures
            final(self).replaced(old(self), x, Node { parent, ..old(self).node(x) }),
    {
        match &mut self.node_list[x] {
            Some(node) => {
                node.parent = parent;
            },
            None => {},
        }
    }

    /// Writes the left child link of the node in slot `x`.
    pub(crate) fn set_left(&mut self, x: usize, left: Option<usize>)
        requires
            old(self).live(x),
        ensures
            final(self).replaced(old(self), x, Node { left, ..old(self).node(x) }),
    {
        match &mut self.node_list[x] {
            Some(node) => {
                node.left = left;
            },
            None => {},
        }
    }

    /// Writes the right child link of the node in slot `x`.
    pub(crate) fn set_right(&mut self, x: usize, right: Option<usize>)
        requires
            old(self).live(x),
        ensures
            final(self).replaced(old(self), x, Node { right, ..old(self).node(x) }),
    {
        match &mut self.node_list[x] {
            Some(node) => {
                node.right = right;
            },
            None => {},
        }
    }

    /// In the node `p` the child link that leads to `u` is made to lead to
    /// `v`; where there is no `p`, `v` becomes the root.
    pub(crate) fn replace_child(&mut self, p: Option<usize>, u: usize, v: usize)
        requires
            p matches Some(pp) ==> old(self).live(pp),
        ensures
            match p {
                Some(pp) => final(self).replaced(
                    old(self),
                    pp,
                    if old(self).node(pp).left == Some(u) {
                        Node { left: Some(v), ..old(self).node(pp) }
                    } else {
                        Node { right: Some(v), ..old(self).node(pp) }
                    },
                ),
                None => final(self).rerooted(old(self), v),
            },
    {
        match p {
            Some(p_idx) => {
                let is_left = match self.get_child_idx(p_idx, Dir::Left) {
                    Some(c) => c == u,
                    None => false,
                };
                if is_left {
                    self.set_left(p_idx, Some(v));
                } else {
                    self.set_right(p_idx, Some(v));
                }
            },
            None => {
                self.root_idx = v;
            },
        }
    }

    /// Recomputes the size of the node in slot `x` from the sizes of its
    /// children.
    pub(crate) fn refresh_size(&mut self, x: usize)
        requires
            old(self).live(x),
            old(self).node(x).left matches Some(c) ==> old(self).live(c),
            old(self).node(x).right matches Some(c) ==> old(self).live(c),
            1 + old(self).size_of(old(self).node(x).left) + old(self).size_of(
                old(self).node(x).right,
            ) <= usize::MAX,
        ensures
            final(self).replaced(
                old(self),
                x,
                Node {
                    size: (1 + old(self).size_of(old(self).node(x).left) + old(self).size_of(
                        old(self).node(x).right,
                    )) as usize,
                    ..old(self).node(x)
                },
            ),
    {
        let size = self.get_child_size(x, Dir::Left) + self.get_child_size(x, Dir::Right) + 1;
        self.set_size(x, size);
    }

    /// Writes the size of the node in slot `x`.
    pub(crate) fn set_size(&mut self, x: usize, size: usize)
        requires
            old(self).live(x),
        ensures
            final(self).replaced(old(self), x, Node { size, ..old(self).node(x) }),
    {
        match &mut self.node_list[x] {
            Some(node) => {
                node.size = size;
            },
            None => {},
        }
    }
}

} // verus!
