//! The repair of the colours after a removal.

use vstd::prelude::*;
use crate::arena::{flip_dir, same_link};
use crate::{flip, kid, Color, Dir, Node, TList};

verus! {

impl<T> TList<T> {
    /// The sibling `w` of the link `x` is red: it becomes black, the parent
    /// `q` red, and a rotation of `q` down to the side `d` of `x` gives `x` a
    /// sibling that is not red.
    fn fix_red_sibling(
        &mut self,
        x: Option<usize>,
        q: usize,
        w: usize,
        d: Dir,
        Ghost(bh): Ghost<Map<usize, nat>>,
    ) -> (out: Ghost<Map<usize, nat>>)
        requires
            old(self).black_missing_at(x, Some(q)),
            !old(self).is_red(x),
            kid(old(self).node(q), d) == x,
            kid(old(self).node(q), flip(d)) == Some(w),
            old(self).node(w).color == Color::Red,
        ensures
            final(self).black_missing_at(x, Some(q)),
            !final(self).is_red(x),
            kid(final(self).node(q), d) == x,
            !final(self).is_red(kid(final(self).node(q), flip(d))),
            final(self).node(q).color == Color::Red,
            final(self)@ == old(self)@,
            final(self).handles() == old(self).handles(),
            final(self).slots() == old(self).slots(),
            final(self).free_slots() == old(self).free_slots(),
            old(self).deficit_by(bh, x, Some(q)) ==> final(self).deficit_by(out@, x, Some(q)),
    {
        let ghost s0 = *self;
        proof {
            assert(s0.linked(q));
            assert(s0.linked(w));
        }
        self.paint(w, Color::Black);
        let ghost s1 = *self;
        self.paint(q, Color::Red);
        let ghost s2 = *self;
        self.rotate(q, d);
        let ghost out = bh.insert(q, (bh[q] - 1) as nat).insert(w, bh[w] + 1);
        proof {
            s0.lemma_fix_red_sibling(&s1, &s2, self, x, q, w, d, bh);
        }
        Ghost(out)
    }

    /// The colours after the case of the red sibling.
    #[verifier::rlimit(40)]
    proof fn lemma_fix_red_sibling(
        &self,
        s1: &TList<T>,
        s2: &TList<T>,
        post: &TList<T>,
        x: Option<usize>,
        q: usize,
        w: usize,
        d: Dir,
        bh: Map<usize, nat>,
    )
        requires
            self.black_missing_at(x, Some(q)),
            !self.is_red(x),
            kid(self.node(q), d) == x,
            kid(self.node(q), flip(d)) == Some(w),
            self.node(w).color == Color::Red,
            s1.replaced(self, w, Node { color: Color::Black, ..self.node(w) }),
            s2.replaced(s1, q, Node { color: Color::Red, ..s1.node(q) }),
            post.structure_ok(),
            post.rotated_frame(s2, q, w),
            post.turned(s2, q, d),
            post@ == self@,
        ensures
            post.black_missing_at(x, Some(q)),
            !post.is_red(x),
            kid(post.node(q), d) == x,
            !post.is_red(kid(post.node(q), flip(d))),
            post.node(q).color == Color::Red,
            self.deficit_by(bh, x, Some(q)) ==> post.deficit_by(
                bh.insert(q, (bh[q] - 1) as nat).insert(w, bh[w] + 1),
                x,
                Some(q),
            ),
    {
        reveal(TList::turned);
        let out = bh.insert(q, (bh[q] - 1) as nat).insert(w, bh[w] + 1);
        assert(self.linked(q));
        assert(self.linked(w));
        assert(self.no_red_red_about(q, x));
        assert(self.no_red_red_about(w, x));
        assert(self.linked(self.root()));
        if let Some(c) = x {
            assert(self.linked(c));
        }
        if let Some(n) = kid(self.node(w), d) {
            assert(self.linked(n));
        }
        assert(forall|v: usize| #[trigger] post.live(v) == self.live(v)) by {
            assert forall|v: usize| #[trigger] post.live(v) == self.live(v) by {
                assert(s2.live(v) == post.live(v));
            }
        }
        assert forall|v: usize| post.live(v) implies #[trigger] post.no_red_red_about(v, x) by {
            assert(self.no_red_red_about(v, x));
            assert(self.linked(v));
            assert(s2.live(v));
            if v == q {
            } else if v == w {
            } else {
                assert(s2.node(v) == self.node(v));
            }
        }
        assert(post.linked(q));
        if self.deficit_by(bh, x, Some(q)) {
            assert(self.balanced_at(bh, w));
            assert forall|v: usize| post.live(v) && v != q implies #[trigger] post.balanced_at(
                out,
                v,
            ) by {
                assert(self.linked(v));
                assert(s2.live(v));
                if v == w {
                } else {
                    assert(self.balanced_at(bh, v));
                    assert(s2.node(v) == self.node(v));
                }
            }
            assert(post.short_on(out, q, x, d));
        }
    }

    /// The sibling `w` of the link `x` is black and has no red child: it
    /// becomes red, which takes a black node from its side too, and the
    /// parent `q` is the link to repair next.
    fn fix_black_nephews(
        &mut self,
        x: Option<usize>,
        q: usize,
        w: usize,
        d: Dir,
        Ghost(bh): Ghost<Map<usize, nat>>,
    ) -> (out: Ghost<Map<usize, nat>>)
        requires
            old(self).black_missing_at(x, Some(q)),
            !old(self).is_red(x),
            kid(old(self).node(q), d) == x,
            kid(old(self).node(q), flip(d)) == Some(w),
            old(self).node(w).color == Color::Black,
            !old(self).is_red(old(self).node(w).left),
            !old(self).is_red(old(self).node(w).right),
        ensures
            final(self).black_missing_at(Some(q), old(self).node(q).parent),
            final(self).node(q) == old(self).node(q),
            final(self).span_of(q) == old(self).span_of(q),
            old(self).node(q).parent matches Some(g) ==> final(self).span_of(g) == old(self).span_of(
                g,
            ),
            final(self)@ == old(self)@,
            final(self).handles() == old(self).handles(),
            final(self).slots() == old(self).slots(),
            final(self).free_slots() == old(self).free_slots(),
            old(self).deficit_by(bh, x, Some(q)) ==> final(self).deficit_by(
                out@,
                Some(q),
                old(self).node(q).parent,
            ),
    {
        proof {
            assert(self.linked(q));
        }
        self.paint(w, Color::Red);
        let ghost out = bh.insert(w, (bh[w] - 1) as nat).insert(q, (bh[q] - 1) as nat);
        proof {
            old(self).lemma_fix_black_nephews(self, x, q, w, d, bh);
        }
        Ghost(out)
    }

    /// The colours after the case of the black sibling without a red child.
    proof fn lemma_fix_black_nephews(
        &self,
        post: &TList<T>,
        x: Option<usize>,
        q: usize,
        w: usize,
        d: Dir,
        bh: Map<usize, nat>,
    )
        requires
            self.black_missing_at(x, Some(q)),
            !self.is_red(x),
            kid(self.node(q), d) == x,
            kid(self.node(q), flip(d)) == Some(w),
            self.node(w).color == Color::Black,
            !self.is_red(self.node(w).left),
            !self.is_red(self.node(w).right),
            post.structure_ok(),
            post.replaced(self, w, Node { color: Color::Red, ..self.node(w) }),
            post@ == self@,
        ensures
            post.black_missing_at(Some(q), self.node(q).parent),
            self.deficit_by(bh, x, Some(q)) ==> post.deficit_by(
                bh.insert(w, (bh[w] - 1) as nat).insert(q, (bh[q] - 1) as nat),
                Some(q),
                self.node(q).parent,
            ),
    {
        let out = bh.insert(w, (bh[w] - 1) as nat).insert(q, (bh[q] - 1) as nat);
        assert(self.linked(q));
        assert(self.linked(w));
        assert(self.linked(self.root()));
        if let Some(c) = x {
            assert(self.linked(c));
        }
        assert forall|v: usize| post.live(v) implies #[trigger] post.no_red_red_about(v, Some(q)) by {
            assert(self.no_red_red_about(v, x));
            assert(self.linked(v));
        }
        if self.deficit_by(bh, x, Some(q)) {
            assert(self.balanced_at(bh, w));
            assert forall|v: usize|
                post.live(v) && Some(v) != self.node(q).parent implies #[trigger] post.balanced_at(
                out,
                v,
            ) by {
                assert(self.linked(v));
                if v == q {
                } else {
                    assert(self.balanced_at(bh, v));
                }
            }
            if let Some(g) = self.node(q).parent {
                assert(self.linked(g));
                assert(self.balanced_at(bh, g));
                if self.node(g).left == Some(q) {
                    assert(post.short_on(out, g, Some(q), Dir::Left));
                } else {
                    assert(post.short_on(out, g, Some(q), Dir::Right));
                }
            }
        }
    }

    /// The sibling `w` of the link `x` is black, its child next to `x` is
    /// red and its other child is not: that child becomes black, `w` red,
    /// and a rotation of `w` away from `x` makes the child the sibling of
    /// `x`, with `w` as its red child on the far side.
    fn fix_near_nephew(
        &mut self,
        x: Option<usize>,
        q: usize,
        w: usize,
        d: Dir,
        Ghost(bh): Ghost<Map<usize, nat>>,
    ) -> (r: (usize, Ghost<Map<usize, nat>>))
        requires
            old(self).black_missing_at(x, Some(q)),
            !old(self).is_red(x),
            kid(old(self).node(q), d) == x,
            kid(old(self).node(q), flip(d)) == Some(w),
            old(self).node(w).color == Color::Black,
            old(self).is_red(kid(old(self).node(w), d)),
            !old(self).is_red(kid(old(self).node(w), flip(d))),
        ensures
            final(self).black_missing_at(x, Some(q)),
            !final(self).is_red(x),
            kid(final(self).node(q), d) == x,
            kid(final(self).node(q), flip(d)) == Some(r.0),
            final(self).node(r.0).color == Color::Black,
            final(self).is_red(kid(final(self).node(r.0), flip(d))),
            final(self)@ == old(self)@,
            final(self).handles() == old(self).handles(),
            final(self).slots() == old(self).slots(),
            final(self).free_slots() == old(self).free_slots(),
            old(self).deficit_by(bh, x, Some(q)) ==> final(self).deficit_by(r.1@, x, Some(q)),
    {
        let ghost s0 = *self;
        proof {
            assert(s0.linked(q));
            assert(s0.linked(w));
        }
        let near = match self.get_child_idx(w, d) {
            Some(near) => near,
            None => w,
        };
        self.paint(near, Color::Black);
        let ghost s1 = *self;
        self.paint(w, Color::Red);
        let ghost s2 = *self;
        self.rotate(w, flip_dir(d));
        let ghost out = bh.insert(near, bh[near] + 1).insert(w, (bh[w] - 1) as nat);
        proof {
            s0.lemma_fix_near_nephew(&s1, &s2, self, x, q, w, near, d, bh);
        }
        (near, Ghost(out))
    }

    /// The colours after the case of the red child next to `x`.
    #[verifier::rlimit(40)]
    proof fn lemma_fix_near_nephew(
        &self,
        s1: &TList<T>,
        s2: &TList<T>,
        post: &TList<T>,
        x: Option<usize>,
        q: usize,
        w: usize,
        near: usize,
        d: Dir,
        bh: Map<usize, nat>,
    )
        requires
            self.black_missing_at(x, Some(q)),
            !self.is_red(x),
            kid(self.node(q), d) == x,
            kid(self.node(q), flip(d)) == Some(w),
            self.node(w).color == Color::Black,
            kid(self.node(w), d) == Some(near),
            self.node(near).color == Color::Red,
            !self.is_red(kid(self.node(w), flip(d))),
            s1.replaced(self, near, Node { color: Color::Black, ..self.node(near) }),
            s2.replaced(s1, w, Node { color: Color::Red, ..s1.node(w) }),
            post.structure_ok(),
            post.rotated_frame(s2, w, near),
            post.turned(s2, w, flip(d)),
            post@ == self@,
        ensures
            post.black_missing_at(x, Some(q)),
            !post.is_red(x),
            kid(post.node(q), d) == x,
            kid(post.node(q), flip(d)) == Some(near),
            post.node(near).color == Color::Black,
            post.is_red(kid(post.node(near), flip(d))),
            self.deficit_by(bh, x, Some(q)) ==> post.deficit_by(
                bh.insert(near, bh[near] + 1).insert(w, (bh[w] - 1) as nat),
                x,
                Some(q),
            ),
    {
        reveal(TList::turned);
        let out = bh.insert(near, bh[near] + 1).insert(w, (bh[w] - 1) as nat);
        assert(self.linked(q));
        assert(self.linked(w));
        assert(self.linked(near));
        assert(self.no_red_red_about(near, x));
        assert(self.linked(self.root()));
        if let Some(c) = x {
            assert(self.linked(c));
        }
        assert(forall|v: usize| #[trigger] post.live(v) == self.live(v)) by {
            assert forall|v: usize| #[trigger] post.live(v) == self.live(v) by {
                assert(s2.live(v) == post.live(v));
            }
        }
        assert forall|v: usize| post.live(v) implies #[trigger] post.no_red_red_about(v, x) by {
            assert(self.no_red_red_about(v, x));
            assert(self.linked(v));
            assert(s2.live(v));
            if v == near {
            } else if v == w {
            } else {
                assert(s2.node(v) == self.node(v));
            }
        }
        assert(post.linked(q));
        if self.deficit_by(bh, x, Some(q)) {
            assert(self.balanced_at(bh, w));
            assert(self.balanced_at(bh, near));
            assert forall|v: usize| post.live(v) && v != q implies #[trigger] post.balanced_at(
                out,
                v,
            ) by {
                assert(self.linked(v));
                assert(s2.live(v));
                if v == w {
                } else if v == near {
                } else {
                    assert(self.balanced_at(bh, v));
                    assert(s2.node(v) == self.node(v));
                }
            }
            assert(post.short_on(out, q, x, d));
        }
    }

    /// The sibling `w` of the link `x` is black and its child on the far
    /// side is red: `w` takes the colour of the parent `q`, `q` and that
    /// child become black, and a rotation of `q` down to the side of `x`
    /// gives the subtree of `x` its black node back.
    fn fix_far_nephew(
        &mut self,
        x: Option<usize>,
        q: usize,
        w: usize,
        d: Dir,
        Ghost(bh): Ghost<Map<usize, nat>>,
    ) -> (out: Ghost<Map<usize, nat>>)
        requires
            old(self).black_missing_at(x, Some(q)),
            !old(self).is_red(x),
            kid(old(self).node(q), d) == x,
            kid(old(self).node(q), flip(d)) == Some(w),
            old(self).node(w).color == Color::Black,
            old(self).is_red(kid(old(self).node(w), flip(d))),
        ensures
            final(self).structure_ok(),
            final(self).colors_ok(),
            final(self)@ == old(self)@,
            final(self)@.len() > 0,
            final(self).handles() == old(self).handles(),
            final(self).slots() == old(self).slots(),
            final(self).free_slots() == old(self).free_slots(),
            old(self).deficit_by(bh, x, Some(q)) ==> final(self).balanced_by(out@),
    {
        let ghost s0 = *self;
        proof {
            assert(s0.linked(q));
            assert(s0.linked(w));
        }
        let far = match self.get_child_idx(w, flip_dir(d)) {
            Some(far) => far,
            None => w,
        };
        let q_color = self.color_at(q);
        self.paint(w, q_color);
        let ghost s1 = *self;
        self.paint(q, Color::Black);
        let ghost s2 = *self;
        self.paint(far, Color::Black);
        let ghost s3 = *self;
        self.rotate(q, d);
        let ghost out = bh.insert(far, bh[far] + 1).insert(q, bh[w]).insert(w, bh[q]);
        proof {
            s0.lemma_fix_far_nephew(&s1, &s2, &s3, self, x, q, w, far, d, bh);
        }
        Ghost(out)
    }

    /// The colours after the case of the red child on the far side.
    #[verifier::rlimit(40)]
    proof fn lemma_fix_far_nephew(
        &self,
        s1: &TList<T>,
        s2: &TList<T>,
        s3: &TList<T>,
        post: &TList<T>,
        x: Option<usize>,
        q: usize,
        w: usize,
        far: usize,
        d: Dir,
        bh: Map<usize, nat>,
    )
        requires
            self.black_missing_at(x, Some(q)),
            !self.is_red(x),
            kid(self.node(q), d) == x,
            kid(self.node(q), flip(d)) == Some(w),
            self.node(w).color == Color::Black,
            kid(self.node(w), flip(d)) == Some(far),
            self.node(far).color == Color::Red,
            s1.replaced(self, w, Node { color: self.node(q).color, ..self.node(w) }),
            s2.replaced(s1, q, Node { color: Color::Black, ..s1.node(q) }),
            s3.replaced(s2, far, Node { color: Color::Black, ..s2.node(far) }),
            post.structure_ok(),
            post.rotated_frame(s3, q, w),
            post.turned(s3, q, d),
            post@ == self@,
        ensures
            post.colors_ok(),
            post@.len() > 0,
            self.deficit_by(bh, x, Some(q)) ==> post.balanced_by(
                bh.insert(far, bh[far] + 1).insert(q, bh[w]).insert(w, bh[q]),
            ),
    {
        reveal(TList::turned);
        let out = bh.insert(far, bh[far] + 1).insert(q, bh[w]).insert(w, bh[q]);
        assert(self.linked(q));
        assert(self.linked(w));
        assert(self.linked(far));
        assert(self.no_red_red_about(q, x));
        assert(self.no_red_red_about(far, x));
        assert(self.linked(self.root()));
        if let Some(c) = x {
            assert(self.linked(c));
        }
        assert(forall|v: usize| #[trigger] post.live(v) == self.live(v)) by {
            assert forall|v: usize| #[trigger] post.live(v) == self.live(v) by {
                assert(s3.live(v) == post.live(v));
            }
        }
        assert forall|v: usize| post.live(v) implies #[trigger] post.no_red_red(v) by {
            assert(self.no_red_red_about(v, x));
            assert(self.linked(v));
            assert(s3.live(v));
            if v == q {
            } else if v == w {
            } else if v == far {
            } else {
                assert(s3.node(v) == self.node(v));
            }
        }
        assert(post.root_black());
        if self.deficit_by(bh, x, Some(q)) {
            assert(self.balanced_at(bh, w));
            assert(self.balanced_at(bh, far));
            assert forall|v: usize| post.live(v) implies #[trigger] post.balanced_at(out, v) by {
                assert(self.linked(v));
                assert(s3.live(v));
                if v == q {
                } else if v == w {
                } else if v == far {
                } else {
                    assert(self.balanced_at(bh, v));
                    assert(s3.node(v) == self.node(v));
                }
            }
        }
    }

    /// Where the link `x` does not lead to a red node, no red node has a red
    /// child.
    proof fn lemma_missing_without_red(&self, x: Option<usize>, xp: Option<usize>)
        requires
            self.black_missing_at(x, xp),
            !self.is_red(x),
        ensures
            self.all_no_red_red(),
    {
        assert forall|v: usize| self.live(v) implies #[trigger] self.no_red_red(v) by {
            assert(self.no_red_red_about(v, x));
        }
    }

    /// Where the link `x` below `q` has no sibling, `q` is the link to
    /// repair next; black heights cannot have been short by one there.
    proof fn lemma_missing_moves_up(&self, x: Option<usize>, q: usize, d: Dir, bh: Map<usize, nat>)
        requires
            self.black_missing_at(x, Some(q)),
            !self.is_red(x),
            kid(self.node(q), d) == x,
            kid(self.node(q), flip(d)) is None,
        ensures
            self.black_missing_at(Some(q), self.node(q).parent),
            !self.deficit_by(bh, x, Some(q)),
    {
        self.lemma_missing_without_red(x, Some(q));
        assert(self.linked(q));
        assert(self.linked(self.root()));
        assert forall|v: usize| self.live(v) implies #[trigger] self.no_red_red_about(v, Some(q)) by {
            assert(self.no_red_red(v));
        }
    }

    /// Repairs the colours after a black node has been taken out of the
    /// tree above the link `x`, which hangs below `xp`: as long as `x` is
    /// neither the root nor red, its sibling decides. A red sibling is
    /// rotated away first. A black sibling without a red child becomes red,
    /// which moves the repair one level up. A black sibling with a red child
    /// ends the repair by one or two rotations. At last the node of `x` is
    /// made black.
    pub(crate) fn remove_fix_up(
        &mut self,
        x: Option<usize>,
        xp: Option<usize>,
        Ghost(bh): Ghost<Map<usize, nat>>,
    ) -> (out: Ghost<Map<usize, nat>>)
        requires
            old(self).black_missing_at(x, xp),
        ensures
            final(self).wf(),
            final(self)@ == old(self)@,
            final(self).handles() == old(self).handles(),
            final(self).slots() == old(self).slots(),
            final(self).free_slots() == old(self).free_slots(),
            old(self).deficit_by(bh, x, xp) ==> final(self).balanced_by(out@),
    {
        let mut x = x;
        let mut xp = xp;
        let ghost mut cur = bh;
        let ghost start = old(self).deficit_by(bh, x, xp);
        loop
            invariant
                self.black_missing_at(x, xp),
                self@ == old(self)@,
                self.handles() == old(self).handles(),
                self.slots() == old(self).slots(),
                self.free_slots() == old(self).free_slots(),
                start ==> self.deficit_by(cur, x, xp),
            ensures
                xp is None || self.is_red(x),
            decreases
                    (match xp {
                        Some(q) => 1 + self.handles().len() - (self.span_of(q).hi - self.span_of(
                            q,
                        ).lo),
                        None => 0,
                    }),
        {
            let q = match xp {
                Some(q) => q,
                None => {
                    break ;
                },
            };
            if self.link_is_red(x) {
                break ;
            }
            proof {
                assert(self.linked(q));
                if let Some(g) = self.node(q).parent {
                    assert(self.linked(g));
                }
            }
            let d = if same_link(self.get_child_idx(q, Dir::Left), x) {
                Dir::Left
            } else {
                Dir::Right
            };
            let w = match self.get_child_idx(q, flip_dir(d)) {
                Some(w) => w,
                None => {
                    proof {
                        self.lemma_missing_moves_up(x, q, d, cur);
                    }
                    x = Some(q);
                    xp = self.get_parent_idx(q);
                    continue ;
                },
            };
            proof {
                assert(self.linked(w));
            }
            if self.link_is_red(Some(w)) {
                let next = self.fix_red_sibling(x, q, w, d, Ghost(cur));
                proof {
                    cur = next@;
                    assert(self.linked(q));
                }
                match self.get_child_idx(q, flip_dir(d)) {
                    None => {
                        proof {
                            self.lemma_missing_moves_up(x, q, d, cur);
                        }
                        x = Some(q);
                        xp = self.get_parent_idx(q);
                    },
                    Some(w2) => {
                        proof {
                            assert(self.linked(w2));
                        }
                        let next = self.fix_black_sibling(x, q, w2, d, Ghost(cur));
                        proof {
                            cur = next.2@;
                        }
                        x = next.0;
                        xp = next.1;
                        proof {
                            assert(xp is None || self.is_red(x));
                        }
                    },
                }
                break ;
            } else {
                let next = self.fix_black_sibling(x, q, w, d, Ghost(cur));
                proof {
                    cur = next.2@;
                }
                x = next.0;
                xp = next.1;
            }
        }
        let ghost before = *self;
        let ghost mut out = cur;
        if let Some(c) = x {
            self.paint(c, Color::Black);
            proof {
                if before.is_red(x) {
                    out = cur.insert(c, cur[c] + 1);
                }
            }
        }
        proof {
            before.lemma_fix_done(self, x, xp, cur);
        }
        Ghost(out)
    }

    /// A black sibling `w` of the link `x`: without a red child it becomes
    /// red and the repair goes on at the parent `q`; with one, rotations end
    /// the repair, which is then said to go on at the root. Returns the link
    /// to repair next and its parent.
    fn fix_black_sibling(
        &mut self,
        x: Option<usize>,
        q: usize,
        w: usize,
        d: Dir,
        Ghost(bh): Ghost<Map<usize, nat>>,
    ) -> (r: (Option<usize>, Option<usize>, Ghost<Map<usize, nat>>))
        requires
            old(self).black_missing_at(x, Some(q)),
            !old(self).is_red(x),
            kid(old(self).node(q), d) == x,
            kid(old(self).node(q), flip(d)) == Some(w),
            old(self).node(w).color == Color::Black,
        ensures
            final(self).black_missing_at(r.0, r.1),
            r.1 is Some ==> r.0 == Some(q) && r.1 == old(self).node(q).parent,
            r.1 is Some ==> final(self).node(q) == old(self).node(q),
            r.1 is Some ==> final(self).span_of(q) == old(self).span_of(q),
            r.1 is Some ==> final(self).span_of(r.1->0) == old(self).span_of(r.1->0),
            final(self)@ == old(self)@,
            final(self).handles() == old(self).handles(),
            final(self).slots() == old(self).slots(),
            final(self).free_slots() == old(self).free_slots(),
            old(self).deficit_by(bh, x, Some(q)) ==> final(self).deficit_by(r.2@, r.0, r.1),
    {
        proof {
            assert(self.linked(q));
            assert(self.linked(w));
            if let Some(c) = self.node(w).left {
                assert(self.linked(c));
            }
            if let Some(c) = self.node(w).right {
                assert(self.linked(c));
            }
        }
        let near_link = self.get_child_idx(w, d);
        let far_link = self.get_child_idx(w, flip_dir(d));
        let near_red = self.link_is_red(near_link);
        let far_red = self.link_is_red(far_link);
        if !near_red && !far_red {
            let q_parent = self.get_parent_idx(q);
            let next = self.fix_black_nephews(x, q, w, d, Ghost(bh));
            (Some(q), q_parent, next)
        } else {
            let mut sibling = w;
            let ghost mut cur = bh;
            if !far_red {
                let next = self.fix_near_nephew(x, q, w, d, Ghost(bh));
                sibling = next.0;
                proof {
                    cur = next.1@;
                }
            }
            let next = self.fix_far_nephew(x, q, sibling, d, Ghost(cur));
            proof {
                self.lemma_missing_at_root();
            }
            (Some(self.root_idx), None, next)
        }
    }

    /// A well-coloured tree is in the state of a repair that has arrived at
    /// the root.
    proof fn lemma_missing_at_root(&self)
        requires
            self.structure_ok(),
            self.colors_ok(),
            self@.len() > 0,
        ensures
            self.black_missing_at(Some(self.root()), None),
            forall|bh: Map<usize, nat>|
                self.balanced_by(bh) ==> #[trigger] self.deficit_by(bh, Some(self.root()), None),
    {
        assert forall|v: usize| self.live(v) implies #[trigger] self.no_red_red_about(
            v,
            Some(self.root()),
        ) by {
            assert(self.no_red_red(v));
        }
        assert forall|bh: Map<usize, nat>| self.balanced_by(bh) implies #[trigger] self.deficit_by(
            bh,
            Some(self.root()),
            None,
        ) by {
            assert forall|v: usize| self.live(v) implies #[trigger] self.balanced_at(bh, v) by {}
        }
    }

    /// Making the node of the link `x` black ends a repair that has arrived
    /// at the root or at a red node.
    proof fn lemma_fix_done(
        &self,
        post: &TList<T>,
        x: Option<usize>,
        xp: Option<usize>,
        bh: Map<usize, nat>,
    )
        requires
            self.black_missing_at(x, xp),
            xp is None || self.is_red(x),
            post.structure_ok(),
            match x {
                Some(c) => post.replaced(self, c, Node { color: Color::Black, ..self.node(c) }),
                None => *post == *self,
            },
            post@ == self@,
        ensures
            post.colors_ok(),
            self.deficit_by(bh, x, xp) ==> post.balanced_by(
                if self.is_red(x) {
                    bh.insert(x->0, bh[x->0] + 1)
                } else {
                    bh
                },
            ),
    {
        let out = if self.is_red(x) {
            bh.insert(x->0, bh[x->0] + 1)
        } else {
            bh
        };
        if let Some(c) = x {
            assert(self.linked(c));
        }
        assert forall|v: usize| post.live(v) implies #[trigger] post.no_red_red(v) by {
            assert(self.no_red_red_about(v, x));
            assert(self.linked(v));
        }
        if self.deficit_by(bh, x, xp) {
            assert forall|v: usize| post.live(v) implies #[trigger] post.balanced_at(out, v) by {
                assert(self.linked(v));
                if Some(v) != xp {
                    assert(self.balanced_at(bh, v));
                }
            }
        }
    }
}

} // verus!
