use vstd::prelude::*;
use crate::bvh::Bvh;

verus! {

/// The order in which a ray visits the nodes of a tree: depth first, from
/// the root, the left child of a node before its right one. A node is
/// entered only where the caller found that the ray meets its box; the
/// subtree of a node whose box is missed is skipped.
pub struct Traversal {
    pub stack: Vec<u32>,
}

/// The triangles that the nodes of `stack` still own, the top of the stack
/// first.
pub open spec fn pending_of(bvh: Bvh, stack: Seq<u32>) -> Seq<int>
    decreases stack.len(),
{
    if stack.len() == 0 {
        Seq::empty()
    } else {
        bvh.leaf_triangle_seq(stack.last() as int) + pending_of(bvh, stack.drop_last())
    }
}

/// Triangle indices as integers.
pub open spec fn as_ints(v: Seq<usize>) -> Seq<int> {
    v.map_values(|t: usize| t as int)
}

impl Traversal {
    pub open spec fn pending(self, bvh: Bvh) -> Seq<int> {
        pending_of(bvh, self.stack@)
    }

    /// Every pending node is a node in use of `bvh`.
    pub open spec fn wf(self, bvh: Bvh) -> bool {
        forall|k: int| 0 <= k < self.stack@.len() ==> bvh.is_live(#[trigger] self.stack@[k] as int)
    }

    /// A traversal that starts at the root: every triangle of a tree is
    /// pending, in leaf order.
    pub fn new() -> (r: Traversal)
        ensures
            r.stack@ == seq![0u32],
            forall|bvh: Bvh| #[trigger] r.pending(bvh) == bvh.leaf_triangle_seq(0),
    {
        let mut stack: Vec<u32> = Vec::new();
        stack.push(0);
        let r = Traversal { stack };
        assert forall|bvh: Bvh| #[trigger] r.pending(bvh) == bvh.leaf_triangle_seq(0) by {
            assert(r.stack@.drop_last() =~= Seq::<u32>::empty());
            assert(pending_of(bvh, Seq::<u32>::empty()) == Seq::<int>::empty());
            assert(r.stack@.last() == 0);
            assert(bvh.leaf_triangle_seq(0) + Seq::<int>::empty() =~= bvh.leaf_triangle_seq(0));
        }
        r
    }

    /// The next node whose box is to be tested, or `None` once the
    /// traversal is over.
    pub fn next_node(&mut self) -> (r: Option<u32>)
        ensures
            old(self).stack@.len() == 0 ==> r is None && final(self).stack@ == old(self).stack@,
            old(self).stack@.len() > 0 ==> r == Some(old(self).stack@.last()) && final(self).stack@
                == old(self).stack@.drop_last(),
            forall|bvh: Bvh|
                #![trigger old(self).pending(bvh)]
                r matches Some(n) ==> old(self).pending(bvh) == bvh.leaf_triangle_seq(n as int)
                    + final(self).pending(bvh),
    {
        self.stack.pop()
    }

    /// Enters `node`, whose box the ray meets. A leaf hands back its
    /// triangles, to be tested in order; an internal node hands back none and
    /// schedules its children, the left one first.
    pub fn enter(&mut self, bvh: &Bvh, node: u32) -> (r: Vec<usize>)
        requires
            bvh.wf(),
            bvh.is_live(node as int),
            old(self).wf(*bvh),
        ensures
            final(self).wf(*bvh),
            bvh.nodes@[node as int].leaf() ==> r@ == bvh.triangle_indexs@.subrange(
                bvh.first(node as int),
                bvh.window_end(node as int),
            ) && final(self).stack@ == old(self).stack@,
            as_ints(r@) + final(self).pending(*bvh) == bvh.leaf_triangle_seq(node as int) + old(
                self,
            ).pending(*bvh),
            !bvh.nodes@[node as int].leaf() ==> r@.len() == 0 && final(self).stack@ == old(self).stack@.push(
                (bvh.nodes@[node as int].left_child + 1) as u32,
            ).push(bvh.nodes@[node as int].left_child),
    {
        let nd = bvh.nodes[node as usize];
        assert(bvh.node_ok(node as int));
        if nd.is_leaf() {
            let r = bvh.leaf_triangles(node as usize);
            assert(as_ints(r@) =~= bvh.leaf_triangle_seq(node as int));
            r
        } else {
            let l = nd.left_child;
            assert(bvh.is_live(l as int) && bvh.is_live(l + 1));
            self.stack.push(l + 1);
            self.stack.push(l);
            assert forall|k: int| 0 <= k < self.stack@.len() implies bvh.is_live(
                #[trigger] self.stack@[k] as int,
            ) by {
                if k < old(self).stack@.len() {
                    assert(old(self).stack@[k] == self.stack@[k]);
                }
            }
            assert(self.stack@.drop_last() =~= old(self).stack@.push((l + 1) as u32));
            assert(old(self).stack@.push((l + 1) as u32).drop_last() =~= old(self).stack@);
            let ghost f = |p: int| bvh.triangle_indexs@[p] as int;
            assert(bvh.leaf_positions(node as int) == bvh.leaf_positions(l as int) + bvh.leaf_positions(
                l + 1,
            ));
            assert((bvh.leaf_positions(l as int) + bvh.leaf_positions(l + 1)).map_values(f)
                =~= bvh.leaf_positions(l as int).map_values(f) + bvh.leaf_positions(l + 1).map_values(f));
            assert(as_ints(Seq::<usize>::empty()) =~= Seq::<int>::empty());
            let ghost above = old(self).stack@.push((l + 1) as u32);
            assert(pending_of(*bvh, above) == bvh.leaf_triangle_seq(l + 1) + old(self).pending(*bvh));
            assert(self.pending(*bvh) == bvh.leaf_triangle_seq(l as int) + pending_of(*bvh, above));
            assert(bvh.leaf_triangle_seq(node as int) == bvh.leaf_triangle_seq(l as int)
                + bvh.leaf_triangle_seq(l + 1));
            assert(bvh.leaf_triangle_seq(l as int) + (bvh.leaf_triangle_seq(l + 1) + old(self).pending(*bvh))
                =~= bvh.leaf_triangle_seq(l as int) + bvh.leaf_triangle_seq(l + 1) + old(self).pending(*bvh));
            Vec::new()
        }
    }
}

} // verus!
