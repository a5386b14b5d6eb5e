use vstd::prelude::*;
use crate::bvh::Bvh;

verus! {

/// The order in which a tree is built: depth first from the root, a node's
/// left child and its whole subtree before the right one. Leaves of at most
/// two triangles are final; every other leaf gets one split attempt, with the
/// sides its triangles fall on as computed by the caller.
pub struct Builder {
    pub stack: Vec<u32>,
    /// The sides each leaf was given when its split was refused.
    pub sides: Ghost<Map<int, Seq<bool>>>,
}

impl Builder {
    /// Leaf `p` is final: too small to split, or its split found every
    /// triangle on one side.
    pub open spec fn settled(self, bvh: Bvh, p: int) -> bool {
        bvh.nodes@[p].tri_count <= 2 || (self.sides@.dom().contains(p) && bvh.one_sided(
            p,
            self.sides@[p],
        ))
    }

    /// The pending nodes are distinct leaves in use; every other leaf in use
    /// is final.
    pub open spec fn wf(self, bvh: Bvh) -> bool {
        &&& bvh.wf()
        &&& forall|k: int| 0 <= k < self.stack@.len() ==> bvh.is_live_leaf(#[trigger] self.stack@[k] as int)
        &&& forall|j: int, k: int|
            0 <= j < self.stack@.len() && 0 <= k < self.stack@.len() && j != k ==> #[trigger] self.stack@[j]
                != #[trigger] self.stack@[k]
        &&& forall|p: int|
            #[trigger] bvh.is_live_leaf(p) && !self.stack@.contains(p as u32) ==> self.settled(bvh, p)
    }

    /// A build that starts at the root of a fresh tree.
    pub fn new(bvh: &Bvh) -> (r: Builder)
        requires
            bvh.wf(),
            bvh.open_node == 2,
        ensures
            r.wf(*bvh),
            r.stack@ == seq![0u32],
    {
        let mut stack: Vec<u32> = Vec::new();
        stack.push(0);
        let r = Builder { stack, sides: Ghost(Map::empty()) };
        assert(bvh.is_live(0));
        assert(bvh.node_ok(0));
        assert(bvh.is_live_leaf(0));
        assert forall|p: int| #[trigger] bvh.is_live_leaf(p) && !r.stack@.contains(p as u32) implies r.settled(
            *bvh,
            p,
        ) by {
            assert(r.stack@[0] == 0u32);
        }
        r
    }

    /// Drops the pending leaves that are too small to split and returns the
    /// next one to split, still pending; `None` once the build is over, when
    /// every leaf in use is final.
    pub fn next_node(&mut self, bvh: &Bvh) -> (r: Option<u32>)
        requires
            old(self).wf(*bvh),
        ensures
            final(self).wf(*bvh),
            final(self).sides == old(self).sides,
            r is None ==> final(self).stack@.len() == 0 && forall|p: int|
                #[trigger] bvh.is_live_leaf(p) ==> final(self).settled(*bvh, p),
            r matches Some(n) ==> {
                &&& final(self).stack@.len() > 0
                &&& n == final(self).stack@.last()
                &&& bvh.nodes@[n as int].tri_count > 2
                &&& old(self).stack@.subrange(0, final(self).stack@.len() as int) == final(self).stack@
            },
    {
        while self.stack.len() > 0
            invariant
                self.wf(*bvh),
                self.sides == old(self).sides,
                self.stack@.len() <= old(self).stack@.len(),
                old(self).stack@.subrange(0, self.stack@.len() as int) == self.stack@,
            decreases self.stack@.len(),
        {
            let top = self.stack[self.stack.len() - 1];
            assert(bvh.is_live_leaf(top as int));
            if bvh.nodes[top as usize].tri_count > 2 {
                return Some(top);
            }
            let ghost before = self.stack@;
            self.stack.pop();
            assert(self.stack@ == before.drop_last());
            assert(old(self).stack@.subrange(0, self.stack@.len() as int) =~= self.stack@);
            assert forall|p: int| #[trigger] bvh.is_live_leaf(p) && !self.stack@.contains(p as u32) implies self.settled(
                *bvh,
                p,
            ) by {
                if p != top as int {
                    if before.contains(p as u32) {
                        let k = choose|k: int| 0 <= k < before.len() && before[k] == p as u32;
                        assert(k != before.len() - 1);
                        assert(self.stack@[k] == p as u32);
                    }
                }
            }
        }
        assert forall|p: int| #[trigger] bvh.is_live_leaf(p) implies self.settled(*bvh, p) by {
            assert(!self.stack@.contains(p as u32));
        }
        None
    }

    /// Takes the next pending leaf off the stack and splits it by
    /// `goes_left` (indexed by triangle). Where the split is made, the new
    /// pair is pushed so that the left child comes next; where it is refused,
    /// the leaf is final and `goes_left` is kept as the reason.
    pub fn split_next(&mut self, bvh: &mut Bvh, goes_left: &Vec<bool>) -> (r: Option<(u32, u32)>)
        requires
            old(self).wf(*old(bvh)),
            old(self).stack@.len() > 0,
            goes_left@.len() == old(bvh).tri_len(),
        ensures
            final(self).wf(*final(bvh)),
            old(bvh).splits_to(old(self).stack@.last() as int, goes_left@, *final(bvh), r),
            r is None ==> final(self).stack@ == old(self).stack@.drop_last(),
            r matches Some((a, b)) ==> final(self).stack@ == old(self).stack@.drop_last().push(b).push(a),
    {
        let top = self.stack.pop().unwrap();
        let ghost rest = self.stack@;
        let ghost b0 = *bvh;
        assert(b0.is_live_leaf(top as int));
        let r = bvh.split_node(top as usize, goes_left);
        let ghost b1 = *bvh;
        proof {
            assert forall|q: int, x: int|
                #![trigger b0.in_window(q, x)]
                b0.is_live_leaf(q) && q != top as int && b0.in_window(q, x) implies b1.triangle_indexs@[x]
                == b0.triangle_indexs@[x] by {
                assert(b0.is_live_leaf(q) && b0.is_live_leaf(top as int));
                assert(b0.node_ok(q) && b0.node_ok(top as int));
            }
        }
        match r {
            None => {
                self.sides = Ghost(self.sides@.insert(top as int, goes_left@));
                assert forall|p: int| #[trigger] b1.is_live_leaf(p) && !self.stack@.contains(p as u32) implies self.settled(
                    b1,
                    p,
                ) by {
                    if p != top as int {
                        assert(b0.is_live_leaf(p));
                        assert(!old(self).stack@.contains(p as u32)) by {
                            if old(self).stack@.contains(p as u32) {
                                let k = choose|k: int| 0 <= k < old(self).stack@.len() && old(self).stack@[k] == p as u32;
                                assert(rest[k] == p as u32);
                            }
                        }
                        assert(old(self).settled(b0, p));
                        if b0.nodes@[p].tri_count > 2 {
                            let sd = self.sides@[p];
                            if b0.window_all(sd, b0.first(p), b0.window_end(p), true) {
                                assert forall|x: int| b1.first(p) <= x < b1.window_end(p) implies sd[#[trigger] b1.triangle_indexs@[x] as int]
                                    == true by {
                                    assert(b0.in_window(p, x));
                                    assert(sd[b0.triangle_indexs@[x] as int]);
                                }
                            } else {
                                assert forall|x: int| b1.first(p) <= x < b1.window_end(p) implies sd[#[trigger] b1.triangle_indexs@[x] as int]
                                    == false by {
                                    assert(b0.in_window(p, x));
                                    assert(!sd[b0.triangle_indexs@[x] as int]);
                                }
                            }
                        }
                    }
                }
                assert forall|k: int| 0 <= k < self.stack@.len() implies b1.is_live_leaf(#[trigger] self.stack@[k] as int) by {
                    assert(old(self).stack@[k] == self.stack@[k]);
                }
            },
            Some((a, b)) => {
                self.stack.push(b);
                self.stack.push(a);
                assert(self.stack@ == rest.push(b).push(a));
                assert forall|k: int| 0 <= k < self.stack@.len() implies b1.is_live_leaf(#[trigger] self.stack@[k] as int) by {
                    if k < rest.len() {
                        assert(old(self).stack@[k] == self.stack@[k]);
                        assert(b0.is_live_leaf(rest[k] as int));
                    }
                }
                assert forall|j: int, k: int|
                    0 <= j < self.stack@.len() && 0 <= k < self.stack@.len() && j != k implies #[trigger] self.stack@[j]
                        != #[trigger] self.stack@[k] by {
                    if j < rest.len() {
                        assert(old(self).stack@[j] == self.stack@[j]);
                        assert(b0.is_live(rest[j] as int));
                    }
                    if k < rest.len() {
                        assert(old(self).stack@[k] == self.stack@[k]);
                        assert(b0.is_live(rest[k] as int));
                    }
                    if j < rest.len() && k < rest.len() {
                        assert(old(self).stack@[j] != old(self).stack@[k]);
                    }
                }
                assert forall|p: int| #[trigger] b1.is_live_leaf(p) && !self.stack@.contains(p as u32) implies self.settled(
                    b1,
                    p,
                ) by {
                    assert(self.stack@[self.stack@.len() - 1] == a);
                    assert(self.stack@[self.stack@.len() - 2] == b);
                    assert(p != a as int && p != b as int && p != top as int);
                    assert(b0.is_live_leaf(p));
                    assert(!old(self).stack@.contains(p as u32)) by {
                        if old(self).stack@.contains(p as u32) {
                            let k = choose|k: int| 0 <= k < old(self).stack@.len() && old(self).stack@[k] == p as u32;
                            assert(rest[k] == p as u32);
                            assert(self.stack@[k] == p as u32);
                        }
                    }
                    assert(old(self).settled(b0, p));
                    if b0.nodes@[p].tri_count > 2 {
                        let sd = self.sides@[p];
                        if b0.window_all(sd, b0.first(p), b0.window_end(p), true) {
                            assert forall|x: int| b1.first(p) <= x < b1.window_end(p) implies sd[#[trigger] b1.triangle_indexs@[x] as int]
                                == true by {
                                assert(b0.in_window(p, x));
                                assert(sd[b0.triangle_indexs@[x] as int]);
                            }
                        } else {
                            assert forall|x: int| b1.first(p) <= x < b1.window_end(p) implies sd[#[trigger] b1.triangle_indexs@[x] as int]
                                == false by {
                                assert(b0.in_window(p, x));
                                assert(!sd[b0.triangle_indexs@[x] as int]);
                            }
                        }
                    }
                }
            },
        }
        r
    }
}

} // verus!
