use vstd::prelude::*;
use vstd::set_lib::{lemma_int_range, lemma_len_subset, set_int_range};

verus! {

/// One node of the tree. A node with `tri_count > 0` is a leaf owning the
/// window `[first_tri_index, first_tri_index + tri_count)` of the index
/// permutation; a node with `tri_count == 0` is internal, and its children
/// are `left_child` and `left_child + 1`.
#[derive(Clone, Copy, Debug, PartialEq, Eq, Structural)]
pub struct BvhNode {
    pub left_child: u32,
    pub first_tri_index: u32,
    pub tri_count: u32,
}

impl BvhNode {
    pub open spec fn leaf(self) -> bool {
        self.tri_count > 0
    }

    pub fn is_leaf(&self) -> (r: bool)
        ensures
            r == self.leaf(),
    {
        self.tri_count != 0
    }
}

/// Every value below `n` occurs exactly once in `s`, which has length `n`.
pub open spec fn is_index_permutation(s: Seq<usize>, n: nat) -> bool {
    &&& s.len() == n
    &&& forall|p: int| 0 <= p < n ==> (#[trigger] s[p]) < n
    &&& forall|p: int, q: int| 0 <= p < n && 0 <= q < n && p != q ==> #[trigger] s[p] != #[trigger] s[q]
    &&& forall|t: usize| t < n ==> #[trigger] s.contains(t)
}

/// The largest triangle count whose node indices fit the `u32` fields.
pub const MAX_TRIANGLES: usize = 0x7fff_ffff;

/// A tree over `triangle_indexs.len()` triangles. `nodes` has room for
/// twice as many nodes: node 0 is the root, node 1 is never used, and child
/// pairs are handed out from node 2 on, `open_node` being the next free one.
/// The leaves' windows refer to positions of `triangle_indexs`, a
/// permutation of the triangle indices; the triangles themselves stay with
/// the caller.
pub struct Bvh {
    pub nodes: Vec<BvhNode>,
    pub open_node: usize,
    pub triangle_indexs: Vec<usize>,
    /// The size of each node's window, kept for internal nodes too.
    pub spans: Ghost<Seq<nat>>,
    /// The split positions of the internal nodes.
    pub cuts: Ghost<Set<int>>,
}

impl Bvh {
    pub open spec fn tri_len(self) -> nat {
        self.triangle_indexs@.len()
    }

    pub open spec fn is_live(self, i: int) -> bool {
        i == 0 || (2 <= i < self.open_node)
    }

    pub open spec fn first(self, i: int) -> int {
        self.nodes@[i].first_tri_index as int
    }

    pub open spec fn span(self, i: int) -> int {
        self.spans@[i] as int
    }

    pub open spec fn is_live_leaf(self, i: int) -> bool {
        self.is_live(i) && self.nodes@[i].leaf()
    }

    /// The window of node `i` lies in range and, for an internal node, is
    /// split between its two children.
    pub open spec fn node_ok(self, i: int) -> bool {
        let nd = self.nodes@[i];
        &&& 1 <= self.span(i)
        &&& self.first(i) + self.span(i) <= self.tri_len()
        &&& if nd.tri_count > 0 {
            nd.tri_count == self.span(i)
        } else {
            let l = nd.left_child as int;
            &&& i < l
            &&& 2 <= l
            &&& l + 1 < self.open_node
            &&& self.first(l) == self.first(i)
            &&& self.first(l + 1) == self.first(i) + self.span(l)
            &&& self.span(l) + self.span(l + 1) == self.span(i)
        }
    }

    pub open spec fn leaves_disjoint(self) -> bool {
        forall|p: int, q: int|
            #![trigger self.is_live_leaf(p), self.is_live_leaf(q)]
            self.is_live_leaf(p) && self.is_live_leaf(q) && p != q ==> self.first(p) + self.span(p)
                <= self.first(q) || self.first(q) + self.span(q) <= self.first(p)
    }

    pub open spec fn cuts_ok(self) -> bool {
        &&& forall|c: int| #[trigger] self.cuts@.contains(c) ==> 1 <= c < self.tri_len()
        &&& self.cuts@.finite()
        &&& self.open_node == 2 + 2 * self.cuts@.len()
        &&& forall|p: int, c: int|
            #![trigger self.is_live_leaf(p), self.cuts@.contains(c)]
            self.is_live_leaf(p) && self.cuts@.contains(c) ==> !(self.first(p) < c < self.first(p)
                + self.span(p))
    }

    /// The tree's invariant, holding from construction through every split.
    pub open spec fn wf(self) -> bool {
        &&& 1 <= self.tri_len() <= MAX_TRIANGLES
        &&& self.nodes@.len() == 2 * self.tri_len()
        &&& self.spans@.len() == self.nodes@.len()
        &&& 2 <= self.open_node <= self.nodes@.len()
        &&& self.first(0) == 0
        &&& self.span(0) == self.tri_len()
        &&& forall|i: int| #[trigger] self.is_live(i) ==> self.node_ok(i)
        &&& self.leaves_disjoint()
        &&& self.cuts_ok()
        &&& is_index_permutation(self.triangle_indexs@, self.tri_len())
    }

    /// An empty tree for `size` triangles: the identity permutation and a
    /// root leaf that owns every triangle.
    pub fn new(size: usize) -> (r: Bvh)
        requires
            1 <= size <= MAX_TRIANGLES,
        ensures
            r.wf(),
            r.tri_len() == size,
            r.open_node == 2,
            forall|p: int| 0 <= p < size ==> r.triangle_indexs@[p] == p,
            r.nodes@[0] == (BvhNode { left_child: 0, first_tri_index: 0, tri_count: size as u32 }),
    {
        let blank = BvhNode { left_child: 0, first_tri_index: 0, tri_count: 0 };
        let mut nodes: Vec<BvhNode> = Vec::new();
        let mut k: usize = 0;
        while k < 2 * size
            invariant
                k <= 2 * size,
                size <= MAX_TRIANGLES,
                nodes@.len() == k,
            decreases 2 * size - k,
        {
            nodes.push(blank);
            k = k + 1;
        }
        let mut triangle_indexs: Vec<usize> = Vec::new();
        let mut t: usize = 0;
        while t < size
            invariant
                t <= size,
                triangle_indexs@.len() == t,
                forall|p: int| 0 <= p < t ==> triangle_indexs@[p] == p,
            decreases size - t,
        {
            triangle_indexs.push(t);
            t = t + 1;
        }
        nodes.set(0, BvhNode { left_child: 0, first_tri_index: 0, tri_count: size as u32 });
        let r = Bvh {
            nodes,
            open_node: 2,
            triangle_indexs,
            spans: Ghost(Seq::new((2 * size) as nat, |i: int| if i == 0 { size as nat } else { 1 })),
            cuts: Ghost(Set::empty()),
        };
        assert forall|t: usize| t < size implies #[trigger] r.triangle_indexs@.contains(t) by {
            assert(r.triangle_indexs@[t as int] == t);
        }
        assert(r.cuts@.len() == 0);
        r
    }

    /// Every triangle of the window of node `i` lies on one side by `goes_left`.
    pub open spec fn one_sided(self, i: int, goes_left: Seq<bool>) -> bool {
        self.window_all(goes_left, self.first(i), self.window_end(i), true) || self.window_all(
            goes_left,
            self.first(i),
            self.window_end(i),
            false,
        )
    }

    /// One past the last position of the window of node `i`, read from its
    /// triangle count: meaningful for a leaf.
    pub open spec fn window_end(self, i: int) -> int {
        self.first(i) + self.nodes@[i].tri_count
    }

    pub open spec fn in_window(self, i: int, q: int) -> bool {
        self.first(i) <= q < self.window_end(i)
    }

    /// Every triangle of the window `[lo, hi)` goes left.
    pub open spec fn window_all(self, goes_left: Seq<bool>, lo: int, hi: int, side: bool) -> bool {
        forall|q: int| lo <= q < hi ==> goes_left[#[trigger] self.triangle_indexs@[q] as int] == side
    }

    /// Reordering the index permutation alone keeps the invariant.
    proof fn lemma_reordered_keeps_wf(a: Bvh, b: Bvh)
        requires
            a.wf(),
            b.nodes == a.nodes,
            b.open_node == a.open_node,
            b.spans == a.spans,
            b.cuts == a.cuts,
            is_index_permutation(b.triangle_indexs@, a.tri_len()),
        ensures
            b.wf(),
    {
        assert forall|p: int, q: int|
            #![trigger b.is_live_leaf(p), b.is_live_leaf(q)]
            b.is_live_leaf(p) && b.is_live_leaf(q) && p != q implies b.first(p) + b.span(p) <= b.first(q)
            || b.first(q) + b.span(q) <= b.first(p) by {
            assert(a.is_live_leaf(p) && a.is_live_leaf(q));
        }
        assert forall|p: int, c: int|
            #![trigger b.is_live_leaf(p), b.cuts@.contains(c)]
            b.is_live_leaf(p) && b.cuts@.contains(c) implies !(b.first(p) < c < b.first(p) + b.span(p)) by {
            assert(a.is_live_leaf(p) && a.cuts@.contains(c));
        }
        assert forall|j: int| #[trigger] b.is_live(j) implies b.node_ok(j) by {
            assert(a.is_live(j));
        }
    }

    /// Turning a leaf into an internal node over the next free pair keeps
    /// the invariant, where the pair splits its window at a point inside it.
    proof fn lemma_split_keeps_wf(a: Bvh, b: Bvh, p: int, left_n: int)
        requires
            a.wf(),
            a.is_live_leaf(p),
            0 < left_n < a.nodes@[p].tri_count,
            a.open_node + 2 <= a.nodes@.len(),
            b.triangle_indexs == a.triangle_indexs,
            b.open_node == a.open_node + 2,
            b.nodes@ == a.nodes@.update(
                a.open_node as int,
                BvhNode { left_child: 0, first_tri_index: a.first(p) as u32, tri_count: left_n as u32 },
            ).update(
                a.open_node + 1,
                BvhNode {
                    left_child: 0,
                    first_tri_index: (a.first(p) + left_n) as u32,
                    tri_count: (a.nodes@[p].tri_count - left_n) as u32,
                },
            ).update(p, BvhNode { left_child: a.open_node as u32, first_tri_index: a.first(p) as u32, tri_count: 0 }),
            b.spans@ == a.spans@.update(a.open_node as int, left_n as nat).update(
                a.open_node + 1,
                (a.nodes@[p].tri_count - left_n) as nat,
            ),
            b.cuts@ == a.cuts@.insert(a.first(p) + left_n),
        ensures
            b.wf(),
    {
        let o = a.open_node as int;
        let m = a.first(p) + left_n;
        assert(a.node_ok(p));
        assert(!a.cuts@.contains(m));
        assert(b.cuts@.len() == a.cuts@.len() + 1);
        assert forall|j: int| #[trigger] b.is_live(j) implies b.node_ok(j) by {
            if j != p && j != o && j != o + 1 {
                assert(a.is_live(j));
                assert(a.node_ok(j));
            }
        }
        assert forall|x: int, y: int|
            #![trigger b.is_live_leaf(x), b.is_live_leaf(y)]
            b.is_live_leaf(x) && b.is_live_leaf(y) && x != y implies b.first(x) + b.span(x) <= b.first(y)
            || b.first(y) + b.span(y) <= b.first(x) by {
            if x != o && x != o + 1 && y != o && y != o + 1 {
                assert(a.is_live_leaf(x) && a.is_live_leaf(y));
            } else if x != o && x != o + 1 {
                assert(a.is_live_leaf(x) && a.is_live_leaf(p));
            } else if y != o && y != o + 1 {
                assert(a.is_live_leaf(y) && a.is_live_leaf(p));
            }
        }
        assert forall|x: int, c: int|
            #![trigger b.is_live_leaf(x), b.cuts@.contains(c)]
            b.is_live_leaf(x) && b.cuts@.contains(c) implies !(b.first(x) < c < b.first(x) + b.span(x)) by {
            if x != o && x != o + 1 {
                assert(a.is_live_leaf(x));
                if c != m {
                    assert(a.cuts@.contains(c));
                } else {
                    assert(a.is_live_leaf(p));
                }
            } else if c != m {
                assert(a.cuts@.contains(c));
                assert(a.is_live_leaf(p));
            }
        }
        assert forall|c: int| #[trigger] b.cuts@.contains(c) implies 1 <= c < b.tri_len() by {
            if c != m {
                assert(a.cuts@.contains(c));
            }
        }
    }

    /// What `split_node(i, goes_left)` returns on this tree: `None`, or the
    /// new pair where the split is made.
    pub open spec fn split_result_of(self, i: int, goes_left: Seq<bool>) -> Option<(u32, u32)> {
        if self.nodes@[i].tri_count <= 2 || self.one_sided(i, goes_left) {
            None
        } else {
            Some((self.open_node as u32, (self.open_node + 1) as u32))
        }
    }

    /// What splitting leaf `i` by `goes_left` does, `after` being the tree
    /// that results and `r` the result: the window is reordered with the
    /// left side first and nothing outside it moves; where `r` is a pair, the
    /// leaf has become the parent of that pair, which splits its window.
    pub open spec fn splits_to(self, i: int, goes_left: Seq<bool>, after: Bvh, r: Option<(u32, u32)>) -> bool {
        let nd = self.nodes@[i];
        let f = self.first(i);
        let c = nd.tri_count as int;
        &&& after.tri_len() == self.tri_len()
        &&& forall|q: int|
            0 <= q < self.tri_len() && !self.in_window(i, q) ==> #[trigger] after.triangle_indexs@[q]
                == self.triangle_indexs@[q]
        &&& r == self.split_result_of(i, goes_left)
        &&& c <= 2 ==> after == self
        &&& r is None ==> after.nodes@ == self.nodes@ && after.open_node == self.open_node
        &&& r is None && c > 2 ==> after.one_sided(i, goes_left)
        &&& r matches Some((a, b)) ==> {
            let left_n = after.nodes@[a as int].tri_count as int;
            &&& a == self.open_node
            &&& b == a + 1
            &&& after.open_node == self.open_node + 2
            &&& 0 < left_n < c
            &&& after.nodes@ == self.nodes@.update(
                i,
                BvhNode { left_child: a, first_tri_index: nd.first_tri_index, tri_count: 0 },
            ).update(
                a as int,
                BvhNode { left_child: 0, first_tri_index: nd.first_tri_index, tri_count: left_n as u32 },
            ).update(
                b as int,
                BvhNode { left_child: 0, first_tri_index: (f + left_n) as u32, tri_count: (c - left_n) as u32 },
            )
            &&& after.window_all(goes_left, f, f + left_n, true)
            &&& after.window_all(goes_left, f + left_n, f + c, false)
        }
    }

    /// Partitions the window of the leaf `node_idx` in place so that the
    /// triangles `t` with `goes_left[t]` come first, then splits the leaf in
    /// two where it holds more than two triangles and both sides are
    /// non-empty. The two new leaves are the next free pair of nodes; the
    /// pair's indices are returned.
    pub fn split_node(&mut self, node_idx: usize, goes_left: &Vec<bool>) -> (r: Option<(u32, u32)>)
        requires
            old(self).wf(),
            old(self).is_live_leaf(node_idx as int),
            goes_left@.len() == old(self).tri_len(),
        ensures
            final(self).wf(),
            old(self).splits_to(node_idx as int, goes_left@, *final(self), r),
    {
        let node = self.nodes[node_idx];
        if node.tri_count <= 2 {
            return None;
        }
        let ghost n = self.tri_len() as int;
        let ghost old_perm = self.triangle_indexs@;
        let f = node.first_tri_index as usize;
        let c = node.tri_count as usize;
        assert(self.node_ok(node_idx as int));
        let mut i: usize = f;
        let mut hi: usize = f + c;
        let ghost mut src: Seq<int> = Seq::new(n as nat, |p: int| p);
        let ghost mut dst: Seq<int> = Seq::new(n as nat, |p: int| p);
        while i < hi
            invariant
                f <= i <= hi <= f + c <= n,
                n == self.tri_len(),
                goes_left@.len() == n,
                self.nodes == old(self).nodes,
                self.open_node == old(self).open_node,
                self.spans == old(self).spans,
                self.cuts == old(self).cuts,
                is_index_permutation(old_perm, n as nat),
                forall|q: int| f <= q < i ==> goes_left@[#[trigger] self.triangle_indexs@[q] as int],
                forall|q: int| hi <= q < f + c ==> !goes_left@[#[trigger] self.triangle_indexs@[q] as int],
                src.len() == n,
                dst.len() == n,
                forall|p: int|
                    0 <= p < n ==> {
                        &&& 0 <= #[trigger] src[p] < n
                        &&& self.triangle_indexs@[p] == old_perm[src[p]]
                        &&& dst[src[p]] == p
                        &&& (f <= p < f + c <==> f <= src[p] < f + c)
                        &&& !(f <= p < f + c) ==> src[p] == p
                    },
                forall|q: int|
                    0 <= q < n ==> {
                        &&& 0 <= #[trigger] dst[q] < n
                        &&& src[dst[q]] == q
                        &&& (f <= q < f + c <==> f <= dst[q] < f + c)
                    },
            decreases hi - i,
        {
            let t = self.triangle_indexs[i];
            assert(self.triangle_indexs@[i as int] == old_perm[src[i as int]]);
            if goes_left[t] {
                i = i + 1;
            } else {
                hi = hi - 1;
                let u = self.triangle_indexs[hi];
                self.triangle_indexs.set(i, u);
                self.triangle_indexs.set(hi, t);
                proof {
                    let si = src[i as int];
                    let sh = src[hi as int];
                    src = src.update(i as int, sh).update(hi as int, si);
                    dst = dst.update(si, hi as int).update(sh, i as int);
                }
            }
        }
        let left_n = i - f;
        proof {
            let perm = self.triangle_indexs@;
            assert forall|p: int, q: int| 0 <= p < n && 0 <= q < n && p != q implies #[trigger] perm[p]
                != #[trigger] perm[q] by {
                assert(src[p] != src[q]);
            }
            assert forall|t: usize| t < n implies #[trigger] perm.contains(t) by {
                assert(old_perm.contains(t));
                let p0 = choose|p0: int| 0 <= p0 < n && old_perm[p0] == t;
                assert(perm[dst[p0]] == t);
            }
            assert forall|p: int| 0 <= p < n implies (#[trigger] perm[p]) < n by {
                assert(src[p] < n);
            }
            assert forall|p: int| 0 <= p < n && !(f <= p < f + c) implies #[trigger] perm[p] == old_perm[p] by {
                assert(src[p] == p);
            }
            Self::lemma_reordered_keeps_wf(*old(self), *self);
            if left_n == 0 {
                assert forall|q: int| f <= q < f + c implies goes_left@[#[trigger] old_perm[q] as int] == false by {
                    assert(perm[dst[q]] == old_perm[q]);
                }
            }
            if left_n == c {
                assert forall|q: int| f <= q < f + c implies goes_left@[#[trigger] old_perm[q] as int] == true by {
                    assert(perm[dst[q]] == old_perm[q]);
                }
            }
            if old(self).window_all(goes_left@, f as int, f + c, true) {
                if i < f + c {
                    assert(perm[(f + c - 1) as int] == old_perm[src[(f + c - 1) as int]]);
                }
            }
            if old(self).window_all(goes_left@, f as int, f + c, false) {
                if i > f {
                    assert(perm[f as int] == old_perm[src[f as int]]);
                }
            }
        }
        if left_n == 0 || left_n == c {
            return None;
        }
        let a = self.open_node;
        let ghost before = *self;
        proof {
            let m = (f + left_n) as int;
            assert(!self.cuts@.contains(m));
            let cuts2 = self.cuts@.insert(m);
            lemma_int_range(1, n);
            lemma_len_subset(cuts2, set_int_range(1, n));
        }
        self.nodes.set(a, BvhNode { left_child: 0, first_tri_index: f as u32, tri_count: left_n as u32 });
        self.nodes.set(
            a + 1,
            BvhNode { left_child: 0, first_tri_index: (f + left_n) as u32, tri_count: (c - left_n) as u32 },
        );
        self.nodes.set(node_idx, BvhNode { left_child: a as u32, first_tri_index: f as u32, tri_count: 0 });
        self.open_node = a + 2;
        self.spans = Ghost(self.spans@.update(a as int, left_n as nat).update(a + 1, (c - left_n) as nat));
        self.cuts = Ghost(self.cuts@.insert((f + left_n) as int));
        proof {
            Self::lemma_split_keeps_wf(before, *self, node_idx as int, left_n as int);
            assert(self.nodes@ =~= old(self).nodes@.update(
                node_idx as int,
                BvhNode { left_child: a as u32, first_tri_index: node.first_tri_index, tri_count: 0 },
            ).update(
                a as int,
                BvhNode { left_child: 0, first_tri_index: node.first_tri_index, tri_count: left_n as u32 },
            ).update(
                a + 1,
                BvhNode { left_child: 0, first_tri_index: (f + left_n) as u32, tri_count: (c - left_n) as u32 },
            ));
            assert(forall|q: int|
                0 <= q < old(self).tri_len() && !old(self).in_window(node_idx as int, q) ==> #[trigger] self.triangle_indexs@[q]
                    == old(self).triangle_indexs@[q]);
        }
        Some((a as u32, (a + 1) as u32))
    }

    /// Restores the state that `new` gives: the identity permutation and a
    /// root leaf that owns every triangle, with no other node in use.
    pub fn setup(&mut self)
        requires
            old(self).wf(),
        ensures
            final(self).wf(),
            final(self).tri_len() == old(self).tri_len(),
            final(self).open_node == 2,
            forall|p: int| 0 <= p < final(self).tri_len() ==> final(self).triangle_indexs@[p] == p,
            final(self).nodes@ == old(self).nodes@.update(
                0,
                BvhNode { left_child: 0, first_tri_index: 0, tri_count: old(self).tri_len() as u32 },
            ),
    {
        let size = self.triangle_indexs.len();
        let mut t: usize = 0;
        while t < size
            invariant
                t <= size,
                size == self.triangle_indexs@.len(),
                forall|p: int| 0 <= p < t ==> self.triangle_indexs@[p] == p,
                self.nodes == old(self).nodes,
                self.spans == old(self).spans,
                old(self).wf(),
            decreases size - t,
        {
            self.triangle_indexs.set(t, t);
            t = t + 1;
        }
        self.nodes.set(0, BvhNode { left_child: 0, first_tri_index: 0, tri_count: size as u32 });
        self.open_node = 2;
        self.spans = Ghost(self.spans@.update(0, size as nat));
        self.cuts = Ghost(Set::empty());
        assert forall|t: usize| t < size implies #[trigger] self.triangle_indexs@.contains(t) by {
            assert(self.triangle_indexs@[t as int] == t);
        }
        assert(self.cuts@.len() == 0);
        assert(self.node_ok(0));
        assert forall|x: int, y: int|
            #![trigger self.is_live_leaf(x), self.is_live_leaf(y)]
            self.is_live_leaf(x) && self.is_live_leaf(y) && x != y implies self.first(x) + self.span(x)
            <= self.first(y) || self.first(y) + self.span(y) <= self.first(x) by {}
    }

    /// The triangle indices of the window of leaf `node_idx`, in order.
    pub fn leaf_triangles(&self, node_idx: usize) -> (r: Vec<usize>)
        requires
            self.wf(),
            self.is_live_leaf(node_idx as int),
        ensures
            r@ == self.triangle_indexs@.subrange(self.first(node_idx as int), self.window_end(node_idx as int)),
    {
        let node = self.nodes[node_idx];
        assert(self.node_ok(node_idx as int));
        let f = node.first_tri_index as usize;
        let e = f + node.tri_count as usize;
        let mut r: Vec<usize> = Vec::new();
        let mut q: usize = f;
        while q < e
            invariant
                f <= q <= e <= self.triangle_indexs@.len(),
                r@ == self.triangle_indexs@.subrange(f as int, q as int),
            decreases e - q,
        {
            r.push(self.triangle_indexs[q]);
            q = q + 1;
        }
        r
    }

    /// The positions owned by the leaves under node `i`, leaves taken left
    /// child first.
    pub open spec fn leaf_positions(self, i: int) -> Seq<int>
        decreases self.nodes@.len() - i,
    {
        let nd = self.nodes@[i];
        if nd.tri_count > 0 {
            Seq::new(nd.tri_count as nat, |k: int| self.first(i) + k)
        } else {
            let l = nd.left_child as int;
            if i < l && l + 1 < self.nodes@.len() {
                self.leaf_positions(l) + self.leaf_positions(l + 1)
            } else {
                Seq::empty()
            }
        }
    }

    /// The triangles owned by the leaves under node `i`, in leaf order.
    pub open spec fn leaf_triangle_seq(self, i: int) -> Seq<int> {
        self.leaf_positions(i).map_values(|p: int| self.triangle_indexs@[p] as int)
    }

    /// The leaves under a node own, between them and in order, exactly the
    /// node's window: each position of it once, and nothing outside it.
    pub proof fn lemma_subtree_owns_window(self, i: int)
        requires
            self.wf(),
            self.is_live(i),
        ensures
            self.leaf_positions(i) == Seq::new(self.span(i) as nat, |k: int| self.first(i) + k),
        decreases self.nodes@.len() - i,
    {
        assert(self.node_ok(i));
        let nd = self.nodes@[i];
        if nd.tri_count == 0 {
            let l = nd.left_child as int;
            assert(self.is_live(l) && self.is_live(l + 1));
            self.lemma_subtree_owns_window(l);
            self.lemma_subtree_owns_window(l + 1);
            assert(self.leaf_positions(i) =~= Seq::new(self.span(i) as nat, |k: int| self.first(i) + k));
        } else {
            assert(self.leaf_positions(i) =~= Seq::new(self.span(i) as nat, |k: int| self.first(i) + k));
        }
    }

    /// Taken over all leaves of the tree, the leaf windows hold every triangle
    /// index below the triangle count exactly once.
    pub proof fn lemma_leaves_partition_triangles(self)
        requires
            self.wf(),
        ensures
            self.leaf_triangle_seq(0).len() == self.tri_len(),
            forall|k: int|
                0 <= k < self.tri_len() ==> 0 <= #[trigger] self.leaf_triangle_seq(0)[k] < self.tri_len(),
            forall|j: int, k: int|
                0 <= j < self.tri_len() && 0 <= k < self.tri_len() && j != k
                    ==> #[trigger] self.leaf_triangle_seq(0)[j] != #[trigger] self.leaf_triangle_seq(0)[k],
            forall|t: int| 0 <= t < self.tri_len() ==> #[trigger] self.leaf_triangle_seq(0).contains(t),
    {
        let n = self.tri_len();
        let perm = self.triangle_indexs@;
        self.lemma_subtree_owns_window(0);
        let s = self.leaf_triangle_seq(0);
        assert(self.is_live(0));
        assert forall|k: int| 0 <= k < n implies #[trigger] s[k] == perm[k] as int by {}
        assert forall|t: int| 0 <= t < n implies #[trigger] s.contains(t) by {
            assert(perm.contains(t as usize));
            let p = choose|p: int| 0 <= p < n && perm[p] == t as usize;
            assert(s[p] == t);
        }
        assert forall|j: int, k: int|
            0 <= j < n && 0 <= k < n && j != k implies #[trigger] s[j] != #[trigger] s[k] by {
            assert(perm[j] != perm[k]);
        }
    }
}

} // verus!
