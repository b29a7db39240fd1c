//! The repair of the colours after an insertion.

use vstd::prelude::*;
use crate::arena::{flip_dir, same_dir};
use crate::{flip, kid, Color, Dir, Node, TList};

verus! {

impl<T> TList<T> {
    /// The parent and the uncle of the red node `z` are red: both become
    /// black, the grandparent becomes red and is the node to repair next.
    fn fix_red_uncle(
        &mut self,
        z: usize,
        p: usize,
        gp: usize,
        y: usize,
        Ghost(bh): Ghost<Map<usize, nat>>,
    ) -> (out: Ghost<Map<usize, nat>>)
        requires
            old(self).red_violation_at(z),
            old(self).node(z).parent == Some(p),
            old(self).node(p).parent == Some(gp),
            old(self).node(p).color == Color::Red,
            old(self).live(y),
            old(self).node(y).color == Color::Red,
            y != p,
            old(self).node(gp).left == Some(y) || old(self).node(gp).right == Some(y),
        ensures
            final(self).red_violation_at(gp),
            final(self)@ == old(self)@,
            final(self).handles() == old(self).handles(),
            final(self).slots() == old(self).slots(),
            final(self).free_slots() == old(self).free_slots(),
            final(self).span_of(gp) == old(self).span_of(gp),
            old(self).balanced_by(bh) ==> final(self).balanced_by(out@),
    {
        let ghost s0 = *self;
        proof {
            assert(s0.linked(z));
            assert(s0.linked(p));
            assert(s0.linked(gp));
            assert(s0.linked(y));
            assert(s0.no_red_red_but(gp, z));
        }
        self.paint(y, Color::Black);
        self.paint(p, Color::Black);
        self.paint(gp, Color::Red);
        let ghost out = bh.insert(y, bh[y] + 1).insert(p, bh[p] + 1);
        proof {
            assert forall|x: usize| self.live(x) implies #[trigger] self.no_red_red_but(x, gp) by {
                assert(s0.no_red_red_but(x, z));
                assert(s0.linked(x));
            }
            if s0.balanced_by(bh) {
                assert forall|x: usize| self.live(x) implies #[trigger] self.balanced_at(out, x) by {
                    assert(s0.balanced_at(bh, x));
                    assert(s0.linked(x));
                }
            }
        }
        Ghost(out)
    }

    /// The red node `z` and its red parent `p` lie on the same side `d`, and
    /// the uncle of `z` is not red: `p` becomes black, the grandparent red,
    /// and a rotation puts `p` in the place of the grandparent.
    fn fix_outer(
        &mut self,
        z: usize,
        p: usize,
        gp: usize,
        d: Dir,
        Ghost(bh): Ghost<Map<usize, nat>>,
    ) -> (out: Ghost<Map<usize, nat>>)
        requires
            old(self).red_violation_at(z),
            old(self).node(z).parent == Some(p),
            old(self).node(p).parent == Some(gp),
            old(self).node(p).color == Color::Red,
            kid(old(self).node(gp), d) == Some(p),
            kid(old(self).node(p), d) == Some(z),
            !old(self).is_red(kid(old(self).node(gp), flip(d))),
        ensures
            final(self).structure_ok(),
            final(self).colors_ok(),
            final(self)@ == old(self)@,
            final(self).handles() == old(self).handles(),
            final(self).slots() == old(self).slots(),
            final(self).free_slots() == old(self).free_slots(),
            old(self).balanced_by(bh) ==> final(self).balanced_by(out@),
    {
        let ghost s0 = *self;
        proof {
            assert(s0.linked(z));
            assert(s0.linked(p));
            assert(s0.linked(gp));
        }
        self.paint(p, Color::Black);
        let ghost s1 = *self;
        self.paint(gp, Color::Red);
        let ghost s2 = *self;
        self.rotate(gp, flip_dir(d));
        let ghost out = bh.insert(gp, (bh[gp] - 1) as nat).insert(p, bh[p] + 1);
        proof {
            s0.lemma_fix_outer(&s1, &s2, self, z, p, gp, d, bh);
        }
        Ghost(out)
    }

    /// The colours after the outer case of the repair.
    #[verifier::rlimit(40)]
    proof fn lemma_fix_outer(
        &self,
        s1: &TList<T>,
        s2: &TList<T>,
        post: &TList<T>,
        z: usize,
        p: usize,
        gp: usize,
        d: Dir,
        bh: Map<usize, nat>,
    )
        requires
            self.red_violation_at(z),
            self.node(z).parent == Some(p),
            self.node(p).parent == Some(gp),
            self.node(p).color == Color::Red,
            kid(self.node(gp), d) == Some(p),
            kid(self.node(p), d) == Some(z),
            !self.is_red(kid(self.node(gp), flip(d))),
            s1.replaced(self, p, Node { color: Color::Black, ..self.node(p) }),
            s2.replaced(s1, gp, Node { color: Color::Red, ..s1.node(gp) }),
            post.rotated_frame(s2, gp, p),
            post.turned(s2, gp, flip(d)),
            post.handles() == self.handles(),
        ensures
            post.colors_ok(),
            self.balanced_by(bh) ==> post.balanced_by(
                bh.insert(gp, (bh[gp] - 1) as nat).insert(p, bh[p] + 1),
            ),
    {
        reveal(TList::turned);
        let out = bh.insert(gp, (bh[gp] - 1) as nat).insert(p, bh[p] + 1);
        assert(self.linked(z));
        assert(self.linked(p));
        assert(self.linked(gp));
        assert(self.no_red_red_but(gp, z));
        assert(self.no_red_red_but(p, z));
        assert(self.linked(self.root()));
        assert(forall|x: usize| #[trigger] post.live(x) == self.live(x)) by {
            assert forall|x: usize| #[trigger] post.live(x) == self.live(x) by {
                assert(s2.live(x) == post.live(x));
            }
        }
        assert forall|x: usize| post.live(x) implies #[trigger] post.no_red_red(x) by {
            assert(self.no_red_red_but(x, z));
            assert(self.linked(x));
            assert(s2.live(x));
            if x == gp {
            } else if x == p {
            } else {
                assert(s2.node(x) == self.node(x));
            }
        }
        assert(post.root_black());
        if self.balanced_by(bh) {
            assert(self.balanced_at(bh, gp));
            assert(self.balanced_at(bh, p));
            assert(self.balanced_at(bh, z));
            assert forall|x: usize| post.live(x) implies #[trigger] post.balanced_at(out, x) by {
                assert(self.balanced_at(bh, x));
                assert(self.linked(x));
                assert(s2.live(x));
                if x == gp {
                } else if x == p {
                } else {
                    assert(s2.node(x) == self.node(x));
                }
            }
        }
    }

    /// The red node `z` lies on the other side of its red parent `p` than
    /// `p` lies of the grandparent, on whose side `d` it is: a rotation of
    /// `p` brings `z` between the two, and `p` is the node to repair next.
    fn fix_inner(
        &mut self,
        z: usize,
        p: usize,
        gp: usize,
        d: Dir,
        Ghost(bh): Ghost<Map<usize, nat>>,
    )
        requires
            old(self).red_violation_at(z),
            old(self).node(z).parent == Some(p),
            old(self).node(p).parent == Some(gp),
            old(self).node(p).color == Color::Red,
            kid(old(self).node(gp), d) == Some(p),
            kid(old(self).node(p), flip(d)) == Some(z),
            !old(self).is_red(kid(old(self).node(gp), flip(d))),
        ensures
            final(self).red_violation_at(p),
            final(self).node(p).parent == Some(z),
            final(self).node(z).parent == Some(gp),
            final(self).node(z).color == Color::Red,
            kid(final(self).node(gp), d) == Some(z),
            kid(final(self).node(z), d) == Some(p),
            !final(self).is_red(kid(final(self).node(gp), flip(d))),
            final(self)@ == old(self)@,
            final(self).handles() == old(self).handles(),
            final(self).slots() == old(self).slots(),
            final(self).free_slots() == old(self).free_slots(),
            old(self).balanced_by(bh) ==> final(self).balanced_by(bh),
    {
        proof {
            assert(self.linked(z));
        }
        self.rotate(p, d);
        proof {
            old(self).lemma_fix_inner(self, z, p, gp, d, bh);
        }
    }

    /// The colours after the inner case of the repair.
    #[verifier::rlimit(40)]
    proof fn lemma_fix_inner(
        &self,
        post: &TList<T>,
        z: usize,
        p: usize,
        gp: usize,
        d: Dir,
        bh: Map<usize, nat>,
    )
        requires
            self.red_violation_at(z),
            self.node(z).parent == Some(p),
            self.node(p).parent == Some(gp),
            self.node(p).color == Color::Red,
            kid(self.node(gp), d) == Some(p),
            kid(self.node(p), flip(d)) == Some(z),
            !self.is_red(kid(self.node(gp), flip(d))),
            post.structure_ok(),
            post.rotated_frame(self, p, z),
            post.turned(self, p, d),
        ensures
            post.red_violation_at(p),
            post.node(p).parent == Some(z),
            post.node(z).parent == Some(gp),
            post.node(z).color == Color::Red,
            kid(post.node(gp), d) == Some(z),
            kid(post.node(z), d) == Some(p),
            !post.is_red(kid(post.node(gp), flip(d))),
            self.balanced_by(bh) ==> post.balanced_by(bh),
    {
        reveal(TList::turned);
        assert(self.linked(z));
        assert(self.linked(p));
        assert(self.linked(gp));
        assert(self.no_red_red_but(gp, z));
        assert(self.no_red_red_but(p, z));
        assert(self.no_red_red_but(z, z));
        assert(self.linked(self.root()));
        if let Some(u) = kid(self.node(gp), flip(d)) {
            assert(self.linked(u));
        }
        assert forall|x: usize| post.live(x) implies #[trigger] post.no_red_red_but(x, p) by {
            assert(self.live(x));
            assert(self.no_red_red_but(x, z));
            assert(self.linked(x));
        }
        if self.balanced_by(bh) {
            assert(self.balanced_at(bh, p));
            assert(self.balanced_at(bh, z));
            assert forall|x: usize| post.live(x) implies #[trigger] post.balanced_at(bh, x) by {
                assert(self.live(x));
                assert(self.balanced_at(bh, x));
                assert(self.linked(x));
            }
        }
    }

    /// Repairs the colours after the red node in slot `index` has been
    /// inserted: while that node has a red parent, either both parent and
    /// uncle turn black and the grandparent red, which moves the repair two
    /// levels up, or one or two rotations end it. At last the root is made
    /// black.
    pub(crate) fn insert_fix_up(&mut self, index: usize, Ghost(bh): Ghost<Map<usize, nat>>) -> (out:
        Ghost<Map<usize, nat>>)
        requires
            old(self).red_violation_at(index),
        ensures
            final(self).wf(),
            final(self)@ == old(self)@,
            final(self).handles() == old(self).handles(),
            final(self).slots() == old(self).slots(),
            final(self).free_slots() == old(self).free_slots(),
            old(self).balanced_by(bh) ==> final(self).balanced_by(out@),
    {
        let mut z_idx = index;
        let ghost mut cur = bh;
        loop
            invariant_except_break
                self.red_violation_at(z_idx),
            invariant
                self.structure_ok(),
                self@ == old(self)@,
                self.handles() == old(self).handles(),
                self.slots() == old(self).slots(),
                self.free_slots() == old(self).free_slots(),
                old(self).balanced_by(bh) ==> self.balanced_by(cur),
            ensures
                self.all_no_red_red(),
                self@.len() > 0,
            decreases self.handles().len() - (self.span_of(z_idx).hi - self.span_of(z_idx).lo),
        {
            proof {
                assert(self.linked(z_idx));
            }
            let z_p = match self.get_parent_idx(z_idx) {
                Some(idx) => idx,
                None => {
                    proof {
                        self.lemma_violation_without_red_parent(z_idx);
                    }
                    break ;
                },
            };
            let red_parent = match self.color_at(z_p) {
                Color::Red => true,
                Color::Black => false,
            };
            if !red_parent {
                proof {
                    self.lemma_violation_without_red_parent(z_idx);
                }
                break ;
            }
            proof {
                assert(self.linked(z_p));
                assert(self.no_red_red_but(z_p, z_idx));
            }
            // The root is black, so a red parent has a parent of its own.
            let gp_idx = match self.get_grandparent_idx(z_idx) {
                Some(idx) => idx,
                None => {
                    break ;
                },
            };
            proof {
                assert(self.linked(gp_idx));
            }
            let z_p_dir = match self.get_child_idx(gp_idx, Dir::Left) {
                Some(c) => if c == z_p {
                    Dir::Left
                } else {
                    Dir::Right
                },
                None => Dir::Right,
            };
            let y_idx = self.get_child_idx(gp_idx, flip_dir(z_p_dir));
            proof {
                if let Some(y) = y_idx {
                    assert(self.linked(y));
                }
            }
            if self.link_is_red(y_idx) {
                let y = match y_idx {
                    Some(y) => y,
                    None => {
                        break ;
                    },
                };
                let ghost before = *self;
                let next = self.fix_red_uncle(z_idx, z_p, gp_idx, y, Ghost(cur));
                proof {
                    cur = next@;
                    assert(before.linked(z_idx));
                    assert(before.linked(z_p));
                }
                z_idx = gp_idx;
            } else {
                let z_dir = match self.get_child_idx(z_p, Dir::Left) {
                    Some(c) => if c == z_idx {
                        Dir::Left
                    } else {
                        Dir::Right
                    },
                    None => Dir::Right,
                };
                let mut low = z_idx;
                let mut mid = z_p;
                if !same_dir(z_dir, z_p_dir) {
                    self.fix_inner(z_idx, z_p, gp_idx, z_p_dir, Ghost(cur));
                    low = z_p;
                    mid = z_idx;
                }
                let next = self.fix_outer(low, mid, gp_idx, z_p_dir, Ghost(cur));
                proof {
                    cur = next@;
                }
                break ;
            }
        }
        let ghost before = *self;
        let ghost root_was_red = before.node(before.root_idx).color == Color::Red;
        self.paint(self.root_idx, Color::Black);
        let ghost root = self.root_idx;
        let ghost out = if root_was_red {
            cur.insert(root, cur[root] + 1)
        } else {
            cur
        };
        proof {
            assert(before.linked(root));
            assert forall|x: usize| self.live(x) implies #[trigger] self.no_red_red(x) by {
                assert(before.no_red_red(x));
                assert(before.linked(x));
            }
            if old(self).balanced_by(bh) {
                assert forall|x: usize| self.live(x) implies #[trigger] self.balanced_at(out, x) by {
                    assert(before.balanced_at(cur, x));
                    assert(before.linked(x));
                }
            }
        }
        Ghost(out)
    }

    /// Where the parent of the red node `z` is not red, no red node has a
    /// red child.
    proof fn lemma_violation_without_red_parent(&self, z: usize)
        requires
            self.red_violation_at(z),
            !self.is_red(self.node(z).parent),
        ensures
            self.all_no_red_red(),
            self@.len() > 0,
    {
        assert(self.linked(z));
        assert forall|x: usize| self.live(x) implies #[trigger] self.no_red_red(x) by {
            assert(self.no_red_red_but(x, z));
            assert(self.linked(x));
        }
    }
}

} // verus!
