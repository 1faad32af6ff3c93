//! The eight-wide tree: each node collapses a depth-3 subtree of the
//! binary hierarchy, so a ray can be tested against eight child boxes at
//! once and the children visited near-to-far with the branch-free
//! priority word of `traverse`.
//!
//! As in `bvh`, the geometric payload `B` is opaque: flattening only
//! moves boxes from the binary nodes into the wide nodes. Everything
//! index-shaped — which binary nodes are collapsed, where the eight
//! children point, how the seven splitting axes are packed — is verified.

use vstd::prelude::*;

use crate::bvh;
use crate::bvh::child_ok;
use crate::bvh::BVH;
use crate::node_pointer::NodePointer;
use crate::node_stack::NodeStack;
use crate::node_stack::NODE_STACK_UPPER_BOUND;
use crate::traverse::axis_bit_words;
use crate::traverse::axis_words_encode;
use crate::traverse::byte_of;
use crate::traverse::calc_priority_word;
use crate::traverse::lemma_priority_word_bijective;
use crate::traverse::low_path_bits;
use crate::traverse::path_bit;
use crate::traverse::priority_word;
use crate::traverse::slot_with_priority;
use crate::traverse::subtree_width;

verus! {

/// One eight-wide node: eight children with their boxes, and the seven
/// splitting axes of the collapsed subtree packed into two words as
/// `traverse` prescribes.
#[derive(Debug)]
pub struct Node<B> {
    pub bboxes: [B; 8],
    pub children: [NodePointer; 8],
    pub axis_bits_0: u64,
    pub axis_bits_1: u64,
}

impl<B> Node<B> {
    /// The two packed words carry seven axis values below 3, as
    /// `calc_axis_bits` lays them out.
    pub open spec fn axis_bits_wf(self) -> bool {
        exists|axes: (u8, u8, u8, u8, u8, u8, u8)|
            axes.0 < 3 && axes.1 < 3 && axes.2 < 3 && axes.3 < 3 && axes.4 < 3 && axes.5 < 3
                && axes.6 < 3 && axis_words_encode(
                self.axis_bits_0,
                self.axis_bits_1,
                axes.0,
                axes.1,
                axes.2,
                axes.3,
                axes.4,
                axes.5,
                axes.6,
            )
    }

    /// Every child pointer stays inside the arrays; inner children point
    /// strictly forward; the axis words are well-formed.
    pub open spec fn wf_at(self, k: int, n_inners: int, n_leaves: int) -> bool {
        &&& forall|c: int| 0 <= c < 8 ==> child_ok(#[trigger] self.children[c], k, n_inners, n_leaves)
        &&& self.axis_bits_wf()
    }

    /// Packs the seven splitting axes of the collapsed subtree (the
    /// root's, the two depth-one ones, the four depth-two ones) into the
    /// node's two axis words.
    pub fn calc_axis_bits(&mut self, axis_top: u8, axis_child: [u8; 2], axis_gson: [u8; 4])
        requires
            axis_top < 3,
            forall|j: int| 0 <= j < 2 ==> axis_child[j] < 3,
            forall|j: int| 0 <= j < 4 ==> axis_gson[j] < 3,
        ensures
            final(self).bboxes == old(self).bboxes,
            final(self).children == old(self).children,
            axis_words_encode(
                final(self).axis_bits_0,
                final(self).axis_bits_1,
                axis_top,
                axis_child[0],
                axis_child[1],
                axis_gson[0],
                axis_gson[1],
                axis_gson[2],
                axis_gson[3],
            ),
    {
        let (b0, b1) = axis_bit_words(
            axis_top,
            axis_child[0],
            axis_child[1],
            axis_gson[0],
            axis_gson[1],
            axis_gson[2],
            axis_gson[3],
        );
        self.axis_bits_0 = b0;
        self.axis_bits_1 = b1;
    }

    /// Computes the visiting priorities of the eight children for a ray
    /// whose per-axis direction signs are `ray_is_pos` (1 where the
    /// direction is non-negative): byte `c` of the result is child `c`'s
    /// priority, 7 to visit first.
    pub fn calc_traverse_priority(&self, ray_is_pos: &[usize; 3]) -> (r: u64)
        ensures
            r == priority_word(
                self.axis_bits_0,
                self.axis_bits_1,
                ray_is_pos[0] == 1,
                ray_is_pos[1] == 1,
                ray_is_pos[2] == 1,
            ),
    {
        calc_priority_word(self.axis_bits_0, self.axis_bits_1, ray_is_pos)
    }
}

/// For a well-formed wide node and any ray signs, the computed priority
/// word assigns the eight children distinct priorities covering 0
/// through 7 — exactly what `push_hit_children` requires of it.
pub proof fn lemma_node_priorities_valid<B>(n: Node<B>, s0: bool, s1: bool, s2: bool)
    requires
        n.axis_bits_wf(),
    ensures
        forall|c: u64|
            c < 8 ==> #[trigger] byte_of(priority_word(n.axis_bits_0, n.axis_bits_1, s0, s1, s2), c)
                < 8,
        forall|c1: u64, c2: u64|
            c1 < 8 && c2 < 8 && #[trigger] byte_of(
                priority_word(n.axis_bits_0, n.axis_bits_1, s0, s1, s2),
                c1,
            ) == #[trigger] byte_of(priority_word(n.axis_bits_0, n.axis_bits_1, s0, s1, s2), c2)
                ==> c1 == c2,
        forall|j: u8|
            j < 8 ==> #[trigger] slot_with_priority(
                priority_word(n.axis_bits_0, n.axis_bits_1, s0, s1, s2),
                j,
            ) < 8 && byte_of(
                priority_word(n.axis_bits_0, n.axis_bits_1, s0, s1, s2),
                slot_with_priority(priority_word(n.axis_bits_0, n.axis_bits_1, s0, s1, s2), j),
            ) == j,
{
    let axes = choose|axes: (u8, u8, u8, u8, u8, u8, u8)|
        axes.0 < 3 && axes.1 < 3 && axes.2 < 3 && axes.3 < 3 && axes.4 < 3 && axes.5 < 3
            && axes.6 < 3 && axis_words_encode(
            n.axis_bits_0,
            n.axis_bits_1,
            axes.0,
            axes.1,
            axes.2,
            axes.3,
            axes.4,
            axes.5,
            axes.6,
        );
    lemma_priority_word_bijective(
        n.axis_bits_0,
        n.axis_bits_1,
        axes.0,
        axes.1,
        axes.2,
        axes.3,
        axes.4,
        axes.5,
        axes.6,
        s0,
        s1,
        s2,
    );
}

/// Bit `c` of the hit mask: whether the ray hit child `c`'s box.
pub open spec fn mask_bit(mask: u32, c: u64) -> bool {
    (mask >> (c as u32)) & 1 == 1
}

/// The pointers pushed while walking priorities `0, 1, ..., upto - 1`:
/// for each priority in ascending order, the child slot holding it, if
/// its hit bit is set. Pushing in ascending priority order makes the
/// highest-priority (nearest) hit child the top of the stack.
pub open spec fn pushed_children(
    children: Seq<NodePointer>,
    hit_bits: u32,
    pri: u64,
    upto: int,
) -> Seq<NodePointer>
    decreases upto,
{
    if upto <= 0 {
        Seq::empty()
    } else {
        let prev = pushed_children(children, hit_bits, pri, upto - 1);
        let c = slot_with_priority(pri, (upto - 1) as u8);
        if mask_bit(hit_bits, c) {
            prev.push(children[c as int])
        } else {
            prev
        }
    }
}

impl<B> Node<B> {
    /// Pushes the children whose hit bit is set, in ascending priority
    /// order, so that the stack pops them nearest first. `priorities`
    /// must assign each child a distinct priority below 8 (as the
    /// priority word does), and the stack must have room for all eight.
    pub fn push_hit_children(&self, stack: &mut NodeStack, hit_bits: u32, priorities: u64)
        requires
            old(stack)@.len() + 8 <= NODE_STACK_UPPER_BOUND,
            forall|c: u64| c < 8 ==> #[trigger] byte_of(priorities, c) < 8,
            forall|c1: u64, c2: u64|
                c1 < 8 && c2 < 8 && #[trigger] byte_of(priorities, c1) == #[trigger] byte_of(
                    priorities,
                    c2,
                ) ==> c1 == c2,
            forall|k: u8|
                k < 8 ==> #[trigger] slot_with_priority(priorities, k) < 8 && byte_of(
                    priorities,
                    slot_with_priority(priorities, k),
                ) == k,
        ensures
            final(stack)@ == old(stack)@ + pushed_children(
                self.children@,
                hit_bits,
                priorities,
                8,
            ),
            final(stack).wf(),
    {
        let mut ordered: [usize; 8] = [0; 8];
        let mut child_id: u64 = 0;
        while child_id < 8
            invariant
                child_id <= 8,
                forall|c: u64| c < 8 ==> #[trigger] byte_of(priorities, c) < 8,
                forall|c1: u64, c2: u64|
                    c1 < 8 && c2 < 8 && #[trigger] byte_of(priorities, c1) == #[trigger] byte_of(
                        priorities,
                        c2,
                    ) ==> c1 == c2,
                forall|c: u64|
                    c < child_id ==> ordered@[byte_of(priorities, c) as int] == c as usize,
            decreases 8 - child_id,
        {
            let b = (#[verifier::truncate] ((priorities >> (child_id * 8)) as u8)) as usize;
            proof {
                assert(byte_of(priorities, child_id) == ((priorities >> ((8 * child_id)
                    as u64)) as u8));
            }
            ordered[b] = child_id as usize;
            child_id = child_id + 1;
        }
        proof {
            assert forall|k: u64| k < 8 implies ordered@[k as int] as u64 == slot_with_priority(
                priorities,
                k as u8,
            ) && ordered@[k as int] < 8 by {
                let c = slot_with_priority(priorities, k as u8);
                assert(byte_of(priorities, c) == k as u8);
                assert(ordered@[byte_of(priorities, c) as int] == c as usize);
            }
        }
        let ghost stack0 = stack@;
        let mut k: usize = 0;
        while k < 8
            invariant
                k <= 8,
                stack0.len() + 8 <= NODE_STACK_UPPER_BOUND,
                forall|j: u64|
                    j < 8 ==> ordered@[j as int] as u64 == slot_with_priority(priorities, j as u8)
                        && ordered@[j as int] < 8,
                stack@ == stack0 + pushed_children(self.children@, hit_bits, priorities, k as int),
                stack@.len() <= stack0.len() + k,
            decreases 8 - k,
        {
            let cid = ordered[k];
            proof {
                let c = slot_with_priority(priorities, k as u8);
                assert((hit_bits >> (c as u32)) & 1 == 1 <==> hit_bits & (1u32 << (c
                    as u32)) != 0) by (bit_vector)
                    requires
                        c < 8,
                ;
            }
            if hit_bits & (1u32 << (cid as u32)) != 0 {
                stack.push(self.children[cid]);
            }
            k = k + 1;
        }
    }

    /// One verified descent step: computes the priority word for the ray
    /// signs and pushes the hit children in ascending priority order, so
    /// the nearest hit child pops first. Well-formed axis words make the
    /// priorities a permutation, which is all the push needs.
    pub fn push_hit_children_by_sign(
        &self,
        stack: &mut NodeStack,
        hit_bits: u32,
        ray_is_pos: &[usize; 3],
    )
        requires
            old(stack)@.len() + 8 <= NODE_STACK_UPPER_BOUND,
            self.axis_bits_wf(),
        ensures
            final(stack)@ == old(stack)@ + pushed_children(
                self.children@,
                hit_bits,
                priority_word(
                    self.axis_bits_0,
                    self.axis_bits_1,
                    ray_is_pos[0] == 1,
                    ray_is_pos[1] == 1,
                    ray_is_pos[2] == 1,
                ),
                8,
            ),
            final(stack).wf(),
    {
        let priorities = self.calc_traverse_priority(ray_is_pos);
        proof {
            lemma_node_priorities_valid(
                *self,
                ray_is_pos[0] == 1,
                ray_is_pos[1] == 1,
                ray_is_pos[2] == 1,
            );
        }
        self.push_hit_children(stack, hit_bits, priorities);
    }
}

/// Walks the binary subtree under `current` down to depth 3 and records
/// the frontier: one item per reached descendant, carrying the child
/// slot whose bits encode the path taken, the descendant's pointer, and
/// its box. Branch points met on the way deposit their splitting axes in
/// `axes` (slot 0 the root, 1-2 depth one, 3-6 depth two).
fn collect_frontier<B: Copy, L>(
    bvh: &BVH<B, L>,
    current: NodePointer,
    bbox: B,
    depth: usize,
    child_id: u8,
    items: &mut Vec<(u8, NodePointer, B)>,
    axes: &mut [u8; 7],
)
    requires
        bvh.wf(),
        depth <= 3,
        (child_id as int) < (if depth == 0 {
            1int
        } else if depth == 1 {
            2
        } else if depth == 2 {
            4
        } else {
            8
        }),
        child_ok(current, -1, bvh.inners@.len() as int, bvh.leaves@.len() as int),
        forall|j: int| 0 <= j < 7 ==> old(axes)@[j] < 3,
    ensures
        final(items)@.len() > old(items)@.len(),
        final(items)@.len() <= old(items)@.len() + subtree_width(depth as int),
        forall|i: int| 0 <= i < old(items)@.len() ==> final(items)@[i] == old(items)@[i],
        forall|i: int|
            old(items)@.len() <= i < final(items)@.len() ==> {
                let it = #[trigger] final(items)@[i];
                &&& it.0 < 8
                &&& low_path_bits(it.0, depth as int) == child_id as int
                &&& child_ok(it.1, -1, bvh.inners@.len() as int, bvh.leaves@.len() as int)
                &&& (it.1.is_inner_ptr() ==> current.is_inner_ptr() && current.target_index()
                    <= it.1.target_index())
                &&& (it.1.is_inner_ptr() && depth < 3 ==> current.target_index()
                    < it.1.target_index())
                &&& it.1 == frontier_ptr(bvh.inners@, current, it.0, depth as int)
                &&& it.2 == frontier_box(bvh.inners@, current, bbox, it.0, depth as int)
                &&& low_path_bits(
                    it.0,
                    frontier_stop(bvh.inners@, current, it.0, depth as int),
                ) == it.0 as int
            },
        forall|c: u8|
            c < 8 && low_path_bits(c, depth as int) == child_id as int && low_path_bits(
                c,
                #[trigger] frontier_stop(bvh.inners@, current, c, depth as int),
            ) == c as int ==> exists|t: int|
                old(items)@.len() <= t < final(items)@.len() && (#[trigger] final(items)@[t]).0
                    == c,
        forall|i: int, j: int|
            old(items)@.len() <= i < j < final(items)@.len() ==> (#[trigger] final(items)@[i]).0
                != (#[trigger] final(items)@[j]).0,
        forall|j: int| 0 <= j < 7 ==> final(axes)@[j] < 3,
        items_subtree_refs(
            bvh.inners@,
            final(items)@,
            old(items)@.len() as int,
            final(items)@.len() as int,
        ) == bvh::subtree_leaf_refs(bvh.inners@, current, bvh.inners@.len() as int),
        items_wide_count(
            bvh.inners@,
            final(items)@,
            old(items)@.len() as int,
            final(items)@.len() as int,
            bvh.inners@.len() as int,
        ) == wide_nodes_from(bvh.inners@, current, depth as int, bvh.inners@.len() as int) - (
        if depth == 0 && current.is_inner_ptr() {
            1int
        } else {
            0
        }),
    decreases 3 - depth,
{
    if depth == 3 || current.is_leaf() {
        let ghost t = items@.len() as int;
        items.push((child_id, current, bbox));
        proof {
            lemma_items_refs_single(bvh.inners@, items@, t);
            let len = bvh.inners@.len() as int;
            bvh::lemma_wf_range_forward(bvh.inners@, 0, len, bvh.leaves@.len() as int);
            crate::node_pointer::lemma_empty_leaf_is_leaf(current);
            assert(items_wide_count(bvh.inners@, items@, t, t, len) == 0);
            if current.is_leaf_ptr() {
                assert(wide_nodes_from(bvh.inners@, current, 0, len) == 0);
                assert(wide_nodes_from(bvh.inners@, current, depth as int, len) == 0);
            } else {
                assert(wide_nodes_from(bvh.inners@, current, 3, len) == wide_nodes_from(
                    bvh.inners@,
                    current,
                    0,
                    len,
                ));
            }
            assert(frontier_ptr(bvh.inners@, current, child_id, depth as int) == current);
            assert(frontier_box(bvh.inners@, current, bbox, child_id, depth as int) == bbox);
            assert(frontier_stop(bvh.inners@, current, child_id, depth as int) == depth as int);
            assert(low_path_bits(child_id, depth as int) == child_id as int);
            assert forall|c: u8|
                c < 8 && low_path_bits(c, depth as int) == child_id as int && low_path_bits(
                    c,
                    #[trigger] frontier_stop(bvh.inners@, current, c, depth as int),
                ) == c as int implies exists|tt: int|
                t <= tt < items@.len() && (#[trigger] items@[tt]).0 == c by {
                assert(frontier_stop(bvh.inners@, current, c, depth as int) == depth as int);
                assert(c as int == child_id as int);
                assert(items@[t].0 == c);
            }
        }
    } else {
        proof {
            crate::node_pointer::lemma_empty_leaf_is_leaf(current);
        }
        let node_idx = current.index();
        let ax = bvh.inners[node_idx].axis;
        let c0 = bvh.inners[node_idx].children[0];
        let b0 = bvh.inners[node_idx].bboxes[0];
        let c1 = bvh.inners[node_idx].children[1];
        let b1 = bvh.inners[node_idx].bboxes[1];
        if depth == 0 {
            axes[0] = ax;
        } else if depth == 1 {
            axes[1 + child_id as usize] = ax;
        } else {
            axes[3 + child_id as usize] = ax;
        }
        let step: u8 = if depth == 0 {
            1u8
        } else if depth == 1 {
            2u8
        } else {
            4u8
        };
        let ghost before = items@.len();
        collect_frontier(bvh, c0, b0, depth + 1, child_id + step, items, axes);
        let ghost after_left = items@.len();
        let ghost mid_view = items@;
        collect_frontier(bvh, c1, b1, depth + 1, child_id, items, axes);
        proof {
            assert(bvh::node_wf(
                bvh.inners@[node_idx as int],
                node_idx as int,
                bvh.inners@.len() as int,
                bvh.leaves@.len() as int,
            ));
            assert forall|i: int| before <= i < items@.len() implies {
                let it = #[trigger] items@[i];
                &&& low_path_bits(it.0, depth as int) == child_id as int
                &&& (it.1.is_inner_ptr() ==> current.is_inner_ptr() && current.target_index()
                    < it.1.target_index())
            } by {
                crate::node_pointer::lemma_empty_leaf_is_leaf(c0);
                crate::node_pointer::lemma_empty_leaf_is_leaf(c1);
                let s = items@[i].0;
                assert(s % 4 == s % 2 + 2 * ((s / 2) % 2)) by (bit_vector);
                assert(s < 8 ==> s == s % 4 + 4 * ((s / 4) % 2)) by (bit_vector);
                if i < after_left {
                    assert(items@[i] == mid_view[i]);
                    assert(mid_view[i].1.is_inner_ptr() ==> c0.is_inner_ptr()
                        && c0.target_index() <= mid_view[i].1.target_index());
                    assert(c0.is_inner_ptr() ==> node_idx < c0.target_index());
                    assert(low_path_bits(s, depth + 1) == child_id + step);
                    assert(path_bit(s, depth as int));
                    assert(items@[i].1 == frontier_ptr(bvh.inners@, c0, s, depth + 1));
                    assert(items@[i].2 == frontier_box(bvh.inners@, c0, b0, s, depth + 1));
                    assert(frontier_stop(bvh.inners@, current, s, depth as int)
                        == frontier_stop(bvh.inners@, c0, s, depth + 1));
                } else {
                    assert(items@[i].1.is_inner_ptr() ==> c1.is_inner_ptr()
                        && c1.target_index() <= items@[i].1.target_index());
                    assert(c1.is_inner_ptr() ==> node_idx < c1.target_index());
                    assert(low_path_bits(s, depth + 1) == child_id as int);
                    assert(!path_bit(s, depth as int));
                    assert(items@[i].1 == frontier_ptr(bvh.inners@, c1, s, depth + 1));
                    assert(items@[i].2 == frontier_box(bvh.inners@, c1, b1, s, depth + 1));
                    assert(frontier_stop(bvh.inners@, current, s, depth as int)
                        == frontier_stop(bvh.inners@, c1, s, depth + 1));
                }
            }
            assert forall|c: u8|
                c < 8 && low_path_bits(c, depth as int) == child_id as int && low_path_bits(
                    c,
                    #[trigger] frontier_stop(bvh.inners@, current, c, depth as int),
                ) == c as int implies exists|t: int|
                before <= t < items@.len() && (#[trigger] items@[t]).0 == c by {
                assert(c % 4 == c % 2 + 2 * ((c / 2) % 2)) by (bit_vector);
                assert(c < 8 ==> c == c % 4 + 4 * ((c / 4) % 2)) by (bit_vector);
                if path_bit(c, depth as int) {
                    assert(low_path_bits(c, depth + 1) == child_id + step);
                    assert(frontier_stop(bvh.inners@, current, c, depth as int)
                        == frontier_stop(bvh.inners@, c0, c, depth + 1));
                    let t = choose|t: int|
                        before <= t < after_left && (#[trigger] mid_view[t]).0 == c;
                    assert(items@[t].0 == c);
                } else {
                    assert(low_path_bits(c, depth + 1) == child_id as int);
                    assert(frontier_stop(bvh.inners@, current, c, depth as int)
                        == frontier_stop(bvh.inners@, c1, c, depth + 1));
                    let t = choose|t: int|
                        after_left <= t < items@.len() && (#[trigger] items@[t]).0 == c;
                    assert(items@[t].0 == c);
                }
            }
            assert forall|i: int, j: int|
                before <= i < j < items@.len() implies (#[trigger] items@[i]).0 != (
            #[trigger] items@[j]).0 by {
                if i < after_left && after_left <= j {
                    assert(low_path_bits(items@[i].0, depth + 1) != low_path_bits(
                        items@[j].0,
                        depth + 1,
                    ));
                }
            }
            let len = bvh.inners@.len() as int;
            lemma_items_refs_agree(bvh.inners@, mid_view, items@, before as int, after_left as int);
            lemma_items_refs_split(
                bvh.inners@,
                items@,
                before as int,
                after_left as int,
                items@.len() as int,
            );
            lemma_items_wide_agree(
                bvh.inners@,
                mid_view,
                items@,
                before as int,
                after_left as int,
                len,
            );
            lemma_items_wide_split(
                bvh.inners@,
                items@,
                before as int,
                after_left as int,
                items@.len() as int,
                len,
            );
            bvh::lemma_wf_range_forward(bvh.inners@, 0, len, bvh.leaves@.len() as int);
            crate::node_pointer::lemma_empty_leaf_is_leaf(c0);
            crate::node_pointer::lemma_empty_leaf_is_leaf(c1);
            assert(c0.is_leaf_ptr() ==> wide_nodes_from(bvh.inners@, c0, depth + 1, len) == 0);
            assert(c1.is_leaf_ptr() ==> wide_nodes_from(bvh.inners@, c1, depth + 1, len) == 0);
            assert(wide_nodes_from(bvh.inners@, current, depth as int, len) == (if depth == 0 {
                1int
            } else {
                0
            }) + wide_nodes_from(bvh.inners@, c0, depth + 1, len) + wide_nodes_from(
                bvh.inners@,
                c1,
                depth + 1,
                len,
            ));
            assert(bvh::forward_between(bvh.inners@, current.target_index() as int, len)) by {
                assert(forall|k: int|
                    current.target_index() <= k < len ==> bvh::node_forward(
                        #[trigger] bvh.inners@[k],
                        k,
                        len,
                    ));
            }
            assert(bvh::subtree_leaf_refs(bvh.inners@, current, len) == bvh::subtree_leaf_refs(
                bvh.inners@,
                c0,
                len,
            ).add(bvh::subtree_leaf_refs(bvh.inners@, c1, len)));
        }
    }
}

/// The eight-wide hierarchy: the primitives, the wide inner nodes
/// (entry 0 is the root), and the box of the whole scene.
pub struct OBVH<B, L> {
    pub bbox: B,
    pub leaves: Vec<L>,
    pub inners: Vec<Node<B>>,
}

impl<B, L> OBVH<B, L> {
    /// The leaf slots referenced anywhere in the wide tree.
    pub open spec fn leaf_refs(self) -> vstd::multiset::Multiset<nat> {
        wide_leaf_refs_in_range(self.inners@, 0, self.inners@.len() as int)
    }

    /// The index shape of a flattened tree, as in the binary hierarchy.
    pub open spec fn wf(self) -> bool {
        &&& self.inners@.len() >= 1
        &&& self.inners@.len() <= 0x7FFF_FFFF
        &&& self.leaves@.len() <= 0x7FFF_FFFF
        &&& forall|k: int|
            0 <= k < self.inners@.len() ==> (#[trigger] self.inners@[k]).wf_at(
                k,
                self.inners@.len() as int,
                self.leaves@.len() as int,
            )
    }
}

/// Well-formedness of a wide node survives the array growing.
proof fn lemma_node_wf_at_monotone<B>(n: Node<B>, k: int, n1: int, n2: int, nl: int)
    requires
        n.wf_at(k, n1, nl),
        n1 <= n2,
    ensures
        n.wf_at(k, n2, nl),
{
    let axes = choose|axes: (u8, u8, u8, u8, u8, u8, u8)|
        axes.0 < 3 && axes.1 < 3 && axes.2 < 3 && axes.3 < 3 && axes.4 < 3 && axes.5 < 3
            && axes.6 < 3 && axis_words_encode(
            n.axis_bits_0,
            n.axis_bits_1,
            axes.0,
            axes.1,
            axes.2,
            axes.3,
            axes.4,
            axes.5,
            axes.6,
        );
    assert(axis_words_encode(
        n.axis_bits_0,
        n.axis_bits_1,
        axes.0,
        axes.1,
        axes.2,
        axes.3,
        axes.4,
        axes.5,
        axes.6,
    ));
}

impl<B: Copy, L> OBVH<B, L> {
    /// Flattens the binary subtree rooted at `node_ptr` (an inner node of
    /// `bvh`, whose box is `bbox`) into wide nodes appended to `inners`,
    /// and returns the index of the node built for this subtree, always
    /// the first one appended. Returns `None` only when the wide-node
    /// array has grown to the largest index a node pointer can carry.
    #[verifier::rlimit(100)]
    #[verifier::spinoff_prover]
    fn add_inner(
        bvh: &BVH<B, L>,
        node_ptr: NodePointer,
        bbox: B,
        inners: &mut Vec<Node<B>>,
        empty_box: B,
    ) -> (r: Option<usize>)
        requires
            bvh.wf(),
            node_ptr.is_inner_ptr(),
            node_ptr.target_index() < bvh.inners@.len(),
            old(inners)@.len() <= 0x7FFF_FFFF,
        ensures
            final(inners)@.len() <= 0x7FFF_FFFF,
            old(inners)@.len() <= final(inners)@.len(),
            forall|k: int| 0 <= k < old(inners)@.len() ==> final(inners)@[k] == old(inners)@[k],
            r matches Some(idx) ==> idx == old(inners)@.len()
                && old(inners)@.len() < final(inners)@.len()
                && (forall|k: int|
                    old(inners)@.len() <= k < final(inners)@.len()
                        ==> (#[trigger] final(inners)@[k]).wf_at(
                            k, final(inners)@.len() as int, bvh.leaves@.len() as int))
                && wide_leaf_refs_in_range(
                    final(inners)@,
                    old(inners)@.len() as int,
                    final(inners)@.len() as int,
                ) == bvh::subtree_leaf_refs(bvh.inners@, node_ptr, bvh.inners@.len() as int)
                && final(inners)@.len() == old(inners)@.len() + wide_nodes_from(
                    bvh.inners@,
                    node_ptr,
                    0,
                    bvh.inners@.len() as int,
                )
                && node_collapses(
                    final(inners)@[old(inners)@.len() as int],
                    old(inners)@.len() as int,
                    final(inners)@.len() as int,
                    bvh.inners@,
                    node_ptr,
                    bbox,
                )
                && (forall|k: int|
                    old(inners)@.len() <= k < final(inners)@.len()
                        ==> #[trigger] collapses_some_root(
                        final(inners)@[k],
                        k,
                        final(inners)@.len() as int,
                        bvh.inners@,
                    ))
                && (forall|k: int|
                    old(inners)@.len() <= k < final(inners)@.len() ==> #[trigger] wide_reachable(
                        final(inners)@,
                        old(inners)@.len() as int,
                        k,
                        final(inners)@.len() as int,
                    )),
            r is None ==> final(inners)@.len() == 0x7FFF_FFFF && old(inners)@.len()
                + wide_nodes_from(bvh.inners@, node_ptr, 0, bvh.inners@.len() as int)
                > 0x7FFF_FFFF,
        decreases bvh.inners@.len() - node_ptr.target_index(),
    {
        broadcast use vstd::multiset::group_multiset_axioms;

        proof {
            bvh::lemma_wf_range_forward(
                bvh.inners@,
                0,
                bvh.inners@.len() as int,
                bvh.leaves@.len() as int,
            );
        }
        if inners.len() >= 0x7FFF_FFFF {
            proof {
                let len = bvh.inners@.len() as int;
                lemma_wide_nodes_from_nonneg(bvh.inners@, node_ptr, 0, len);
                let n = bvh.inners@[node_ptr.target_index() as int];
                if n.children[0].is_inner_ptr() {
                    lemma_wide_nodes_from_nonneg(bvh.inners@, n.children[0], 1, len);
                }
                if n.children[1].is_inner_ptr() {
                    lemma_wide_nodes_from_nonneg(bvh.inners@, n.children[1], 1, len);
                }
                assert(wide_nodes_from(bvh.inners@, node_ptr, 0, len) >= 1);
            }
            return None;
        }
        let node_idx = inners.len();
        let (pb0, pb1) = axis_bit_words(0, 0, 0, 0, 0, 0, 0);
        inners.push(
            Node {
                bboxes: [empty_box; 8],
                children: [NodePointer::empty_leaf(); 8],
                axis_bits_0: pb0,
                axis_bits_1: pb1,
            },
        );
        let mut items: Vec<(u8, NodePointer, B)> = Vec::new();
        let mut axes: [u8; 7] = [0; 7];
        collect_frontier(bvh, node_ptr, bbox, 0, 0, &mut items, &mut axes);
        let (b0, b1) = axis_bit_words(
            axes[0],
            axes[1],
            axes[2],
            axes[3],
            axes[4],
            axes[5],
            axes[6],
        );
        let mut children: [NodePointer; 8] = [NodePointer::empty_leaf(); 8];
        let mut bboxes: [B; 8] = [empty_box; 8];
        let ghost base = node_idx as int;
        let ghost after_push = inners@;
        let ghost items_view = items@;
        let n_items = items.len();
        proof {
            assert(items_wide_count(
                bvh.inners@,
                items@,
                0,
                0,
                bvh.inners@.len() as int,
            ) == 0);
            lemma_slots_empty(children);
            assert(wide_leaf_refs_in_range(inners@, base + 1, inners@.len() as int)
                =~= vstd::multiset::Multiset::<nat>::empty());
            assert(wide_leaf_refs_in_range(inners@, base + 1, inners@.len() as int).add(
                slots_leaf_refs(children),
            ) =~= items_subtree_refs(bvh.inners@, items@, 0, 0));
        }
        let mut i: usize = 0;
        while i < n_items
            invariant
                bvh.wf(),
                node_ptr.is_inner_ptr(),
                node_ptr.target_index() < bvh.inners@.len(),
                i <= n_items == items@.len(),
                items@ == items_view,
                forall|t: int|
                    0 <= t < items@.len() ==> {
                        let it = #[trigger] items@[t];
                        &&& it.0 < 8
                        &&& child_ok(
                            it.1,
                            -1,
                            bvh.inners@.len() as int,
                            bvh.leaves@.len() as int,
                        )
                        &&& (it.1.is_inner_ptr() ==> node_ptr.target_index()
                            < it.1.target_index())
                        &&& it.1 == frontier_ptr(bvh.inners@, node_ptr, it.0, 0)
                        &&& it.2 == frontier_box(bvh.inners@, node_ptr, bbox, it.0, 0)
                        &&& low_path_bits(
                            it.0,
                            frontier_stop(bvh.inners@, node_ptr, it.0, 0),
                        ) == it.0 as int
                    },
                forall|c: u8|
                    c < 8 && low_path_bits(
                        c,
                        #[trigger] frontier_stop(bvh.inners@, node_ptr, c, 0),
                    ) == c as int ==> exists|t: int|
                        0 <= t < items@.len() && (#[trigger] items@[t]).0 == c,
                forall|t: int|
                    0 <= t < i ==> {
                        let it = #[trigger] items@[t];
                        &&& bboxes[it.0 as int] == it.2
                        &&& (it.1.is_leaf_ptr() ==> children[it.0 as int] == it.1)
                        &&& (it.1.is_inner_ptr() ==> children[it.0 as int].is_inner_ptr() && base
                            < children[it.0 as int].target_index() < inners@.len())
                    },
                forall|k2: int|
                    base + 1 <= k2 < inners@.len() ==> #[trigger] collapses_some_root(
                        inners@[k2],
                        k2,
                        inners@.len() as int,
                        bvh.inners@,
                    ),
                forall|k2: int|
                    base + 1 <= k2 < inners@.len() ==> #[trigger] reachable_via_slot(
                        children,
                        inners@,
                        base,
                        k2,
                        inners@.len() as int,
                    ),
                inners@.len() <= 0x7FFF_FFFF,
                base == old(inners)@.len(),
                base + 1 <= inners@.len(),
                after_push.len() == base + 1,
                forall|k: int| 0 <= k < base + 1 ==> inners@[k] == after_push[k],
                forall|k: int| 0 <= k < base ==> after_push[k] == old(inners)@[k],
                forall|k: int|
                    base + 1 <= k < inners@.len() ==> (#[trigger] inners@[k]).wf_at(
                        k,
                        inners@.len() as int,
                        bvh.leaves@.len() as int,
                    ),
                forall|c: int|
                    0 <= c < 8 ==> child_ok(
                        #[trigger] children[c],
                        base,
                        inners@.len() as int,
                        bvh.leaves@.len() as int,
                    ),
                forall|j: int| 0 <= j < 7 ==> axes[j] < 3,
                axis_words_encode(b0, b1, axes[0], axes[1], axes[2], axes[3], axes[4], axes[5], axes[6]),
                forall|t1: int, t2: int|
                    0 <= t1 < t2 < items@.len() ==> (#[trigger] items@[t1]).0 != (
                    #[trigger] items@[t2]).0,
                forall|c: int|
                    0 <= c < 8 ==> (#[trigger] children[c]).is_empty_leaf_ptr() || (exists|t: int|
                        0 <= t < i && (#[trigger] items@[t]).0 as int == c),
                wide_leaf_refs_in_range(inners@, base + 1, inners@.len() as int).add(
                    slots_leaf_refs(children),
                ) == items_subtree_refs(bvh.inners@, items@, 0, i as int),
                items_subtree_refs(bvh.inners@, items@, 0, items@.len() as int)
                    == bvh::subtree_leaf_refs(bvh.inners@, node_ptr, bvh.inners@.len() as int),
                bvh::forward_between(bvh.inners@, 0, bvh.inners@.len() as int),
                items_wide_count(bvh.inners@, items@, 0, n_items as int, bvh.inners@.len() as int)
                    == wide_nodes_from(bvh.inners@, node_ptr, 0, bvh.inners@.len() as int) - 1,
                inners@.len() == old(inners)@.len() + 1 + items_wide_count(
                    bvh.inners@,
                    items@,
                    0,
                    i as int,
                    bvh.inners@.len() as int,
                ),
            decreases n_items - i,
        {
            let (slot, ptr, bx) = items[i];
            proof {
                assert(items@[i as int] == (slot, ptr, bx));
                let it = items@[i as int];
                assert(it.0 < 8 && child_ok(
                    it.1,
                    -1,
                    bvh.inners@.len() as int,
                    bvh.leaves@.len() as int,
                ) && (it.1.is_inner_ptr() ==> node_ptr.target_index() < it.1.target_index()));
                crate::node_pointer::lemma_empty_leaf_is_leaf(ptr);
            }
            proof {
                if !children[slot as int].is_empty_leaf_ptr() {
                    let t = choose|t: int| 0 <= t < i && items@[t].0 as int == slot as int;
                    assert(items@[t].0 != items@[i as int].0);
                    assert(false);
                }
            }
            let ghost children_before = children;
            let ghost sum_before = wide_leaf_refs_in_range(inners@, base + 1, inners@.len() as int);
            bboxes[slot as usize] = bx;
            if ptr.is_leaf() {
                children[slot as usize] = ptr;
                proof {
                    let len = bvh.inners@.len() as int;
                    assert(items_wide_count(bvh.inners@, items@, 0, i + 1, len)
                        == items_wide_count(bvh.inners@, items@, 0, i as int, len)
                        + wide_nodes_from(bvh.inners@, items@[i as int].1, 0, len));
                    assert(wide_nodes_from(bvh.inners@, ptr, 0, len) == 0);
                    lemma_slots_update(children_before, children, slot as int, ptr);
                    assert(items_subtree_refs(bvh.inners@, items@, 0, i + 1)
                        == items_subtree_refs(bvh.inners@, items@, 0, i as int).add(
                        bvh::subtree_leaf_refs(
                            bvh.inners@,
                            items@[i as int].1,
                            bvh.inners@.len() as int,
                        ),
                    ));
                    assert(bvh::subtree_leaf_refs(bvh.inners@, ptr, bvh.inners@.len() as int)
                        == bvh::ptr_leaf_refs(ptr));
                    assert(sum_before.add(slots_leaf_refs(children)) =~= sum_before.add(
                        slots_leaf_refs(children_before),
                    ).add(bvh::ptr_leaf_refs(ptr)));
                    assert forall|k2: int|
                        base + 1 <= k2 < inners@.len() implies #[trigger] reachable_via_slot(
                        children,
                        inners@,
                        base,
                        k2,
                        inners@.len() as int,
                    ) by {
                        assert(reachable_via_slot(
                            children_before,
                            inners@,
                            base,
                            k2,
                            inners@.len() as int,
                        ));
                        let c = choose|c: int|
                            0 <= c < 8 && children_before[c].is_inner_ptr() && base
                                < children_before[c].target_index() && children_before[
                                c
                            ].target_index() < inners@.len() && wide_reachable(
                                inners@,
                                children_before[c].target_index() as int,
                                k2,
                                inners@.len() as int,
                            );
                        crate::node_pointer::lemma_empty_leaf_is_leaf(
                            children_before[slot as int],
                        );
                        assert(children[c] == children_before[c]);
                    }
                }
            } else {
                let ghost len_before = inners@.len();
                let ghost inners_before = inners@;
                let sub = Self::add_inner(bvh, ptr, bx, inners, empty_box);
                proof {
                    assert forall|k: int|
                        base + 1 <= k < len_before implies (#[trigger] inners@[k]).wf_at(
                        k,
                        inners@.len() as int,
                        bvh.leaves@.len() as int,
                    ) by {
                        lemma_node_wf_at_monotone(
                            inners@[k],
                            k,
                            len_before as int,
                            inners@.len() as int,
                            bvh.leaves@.len() as int,
                        );
                    }
                    assert forall|c: int|
                        0 <= c < 8 implies child_ok(
                        #[trigger] children[c],
                        base,
                        inners@.len() as int,
                        bvh.leaves@.len() as int,
                    ) by {
                        crate::node_pointer::lemma_empty_leaf_is_leaf(children[c]);
                    }
                    assert forall|k2: int|
                        base + 1 <= k2 < len_before implies #[trigger] collapses_some_root(
                        inners@[k2],
                        k2,
                        inners@.len() as int,
                        bvh.inners@,
                    ) by {
                        assert(inners@[k2] == inners_before[k2]);
                        assert(collapses_some_root(
                            inners_before[k2],
                            k2,
                            len_before as int,
                            bvh.inners@,
                        ));
                        let (root, rbox) = choose|root: NodePointer, rbox: B|
                            root.is_inner_ptr() && root.target_index() < bvh.inners@.len()
                                && node_collapses(
                                inners_before[k2],
                                k2,
                                len_before as int,
                                bvh.inners@,
                                root,
                                rbox,
                            );
                        lemma_node_collapses_monotone(
                            inners@[k2],
                            k2,
                            len_before as int,
                            inners@.len() as int,
                            bvh.inners@,
                            root,
                            rbox,
                        );
                        assert(node_collapses(
                            inners@[k2],
                            k2,
                            inners@.len() as int,
                            bvh.inners@,
                            root,
                            rbox,
                        ));
                    }
                }
                match sub {
                    Some(ci) => {
                        children[slot as usize] = NodePointer::new_inner(ci);
                        proof {
                            let len = bvh.inners@.len() as int;
                            assert(items_wide_count(bvh.inners@, items@, 0, i + 1, len)
                                == items_wide_count(bvh.inners@, items@, 0, i as int, len)
                                + wide_nodes_from(bvh.inners@, items@[i as int].1, 0, len));
                            let cur = inners@.len() as int;
                            lemma_wide_refs_agree(inners_before, inners@, base + 1, len_before as int);
                            lemma_wide_refs_split(inners@, base + 1, len_before as int, cur);
                            lemma_slots_update(
                                children_before,
                                children,
                                slot as int,
                                children[slot as int],
                            );
                            assert(bvh::ptr_leaf_refs(children[slot as int])
                                =~= vstd::multiset::Multiset::<nat>::empty());
                            assert(items_subtree_refs(bvh.inners@, items@, 0, i + 1)
                                == items_subtree_refs(bvh.inners@, items@, 0, i as int).add(
                                bvh::subtree_leaf_refs(
                                    bvh.inners@,
                                    items@[i as int].1,
                                    bvh.inners@.len() as int,
                                ),
                            ));
                            assert(wide_leaf_refs_in_range(inners@, base + 1, cur).add(
                                slots_leaf_refs(children),
                            ) =~= sum_before.add(slots_leaf_refs(children_before)).add(
                                bvh::subtree_leaf_refs(
                                    bvh.inners@,
                                    ptr,
                                    bvh.inners@.len() as int,
                                ),
                            ));
                            let nl2 = bvh.leaves@.len() as int;
                            assert forall|m: int|
                                base + 1 <= m < len_before implies (
                            #[trigger] inners_before[m]).wf_at(m, len_before as int, nl2) by {}
                            lemma_wide_wf_forward(
                                inners_before,
                                base + 1,
                                len_before as int,
                                nl2,
                            );
                            assert forall|m: int|
                                base + 1 <= m < cur implies (#[trigger] inners@[m]).wf_at(
                                m,
                                cur,
                                nl2,
                            ) by {}
                            lemma_wide_wf_forward(inners@, base + 1, cur, nl2);
                            assert forall|k2: int|
                                base + 1 <= k2 < cur implies #[trigger] reachable_via_slot(
                                children,
                                inners@,
                                base,
                                k2,
                                cur,
                            ) by {
                                if k2 < len_before {
                                    assert(reachable_via_slot(
                                        children_before,
                                        inners_before,
                                        base,
                                        k2,
                                        len_before as int,
                                    ));
                                    let c = choose|c: int|
                                        0 <= c < 8 && children_before[c].is_inner_ptr() && base
                                            < children_before[c].target_index()
                                            && children_before[c].target_index()
                                            < len_before as int && wide_reachable(
                                            inners_before,
                                            children_before[c].target_index() as int,
                                            k2,
                                            len_before as int,
                                        );
                                    crate::node_pointer::lemma_empty_leaf_is_leaf(
                                        children_before[slot as int],
                                    );
                                    assert(children[c] == children_before[c]);
                                    lemma_wide_reachable_agree(
                                        inners_before,
                                        inners@,
                                        children_before[c].target_index() as int,
                                        k2,
                                        base + 1,
                                        len_before as int,
                                        cur,
                                    );
                                } else {
                                    assert(children[slot as int].is_inner_ptr() && children[
                                        slot as int
                                    ].target_index() == ci);
                                    assert(wide_reachable(inners@, ci as int, k2, cur));
                                }
                            }
                        }
                    },
                    None => {
                        proof {
                            assert forall|k: int|
                                0 <= k < old(inners)@.len() implies inners@[k] == old(
                                inners,
                            )@[k] by {
                                assert(inners@[k] == after_push[k]);
                                assert(after_push[k] == old(inners)@[k]);
                            }
                            let len = bvh.inners@.len() as int;
                            assert(items_wide_count(bvh.inners@, items@, 0, i + 1, len)
                                == items_wide_count(bvh.inners@, items@, 0, i as int, len)
                                + wide_nodes_from(bvh.inners@, items@[i as int].1, 0, len));
                            lemma_items_wide_split(
                                bvh.inners@,
                                items@,
                                0,
                                i + 1,
                                n_items as int,
                                len,
                            );
                            lemma_items_wide_nonneg(
                                bvh.inners@,
                                items@,
                                i + 1,
                                n_items as int,
                                len,
                            );
                            assert(len_before + wide_nodes_from(bvh.inners@, ptr, 0, len)
                                > 0x7FFF_FFFF);
                            assert(old(inners)@.len() + wide_nodes_from(
                                bvh.inners@,
                                node_ptr,
                                0,
                                len,
                            ) > 0x7FFF_FFFF);
                        }
                        return None;
                    },
                }
            }
            i += 1;
        }
        let node = Node { bboxes, children, axis_bits_0: b0, axis_bits_1: b1 };
        let ghost final_len = inners@.len() as int;
        let ghost exit_inners = inners@;
        inners[node_idx] = node;
        proof {
            lemma_wide_refs_agree(exit_inners, inners@, base + 1, final_len);
            lemma_wide_refs_split(inners@, base, base + 1, final_len);
            lemma_wide_refs_single(inners@, base);
            assert(wide_node_leaf_refs(inners@[base]) == slots_leaf_refs(children));
            assert(wide_leaf_refs_in_range(inners@, base, final_len) =~= wide_leaf_refs_in_range(
                exit_inners,
                base + 1,
                final_len,
            ).add(slots_leaf_refs(children)));
            assert(wide_leaf_refs_in_range(inners@, base, final_len) == bvh::subtree_leaf_refs(
                bvh.inners@,
                node_ptr,
                bvh.inners@.len() as int,
            ));
            assert(forall|c: int|
                0 <= c < 8 ==> child_ok(
                    #[trigger] node.children[c],
                    base,
                    final_len,
                    bvh.leaves@.len() as int,
                ));
            let witness: (u8, u8, u8, u8, u8, u8, u8) = (
                axes[0],
                axes[1],
                axes[2],
                axes[3],
                axes[4],
                axes[5],
                axes[6],
            );
            assert(witness.0 < 3 && witness.1 < 3 && witness.2 < 3 && witness.3 < 3 && witness.4
                < 3 && witness.5 < 3 && witness.6 < 3 && axis_words_encode(
                node.axis_bits_0,
                node.axis_bits_1,
                witness.0,
                witness.1,
                witness.2,
                witness.3,
                witness.4,
                witness.5,
                witness.6,
            ));
            assert(node.wf_at(base, final_len, bvh.leaves@.len() as int));
            assert forall|k: int|
                0 <= k < old(inners)@.len() implies inners@[k] == old(inners)@[k] by {
                assert(inners@[k] == after_push[k]);
                assert(after_push[k] == old(inners)@[k]);
            }
            assert forall|c: u8| c < 8 implies ({
                let f = frontier_ptr(bvh.inners@, node_ptr, c, 0);
                &&& (slot_filled(bvh.inners@, node_ptr, c) ==> (f.is_leaf_ptr()
                    ==> #[trigger] node.children[c as int] == f) && (f.is_inner_ptr() ==> node.children[
                    c as int
                ].is_inner_ptr() && base < node.children[c as int].target_index() < final_len)
                    && node.bboxes[c as int] == frontier_box(bvh.inners@, node_ptr, bbox, c, 0))
                &&& (!slot_filled(bvh.inners@, node_ptr, c) ==> node.children[
                    c as int
                ].is_empty_leaf_ptr())
            }) by {
                if slot_filled(bvh.inners@, node_ptr, c) {
                    assert(low_path_bits(
                        c,
                        frontier_stop(bvh.inners@, node_ptr, c, 0),
                    ) == c as int);
                    let t = choose|t: int| 0 <= t < items@.len() && (#[trigger] items@[t]).0 == c;
                    assert(items@[t].1 == frontier_ptr(bvh.inners@, node_ptr, c, 0));
                    assert(items@[t].2 == frontier_box(bvh.inners@, node_ptr, bbox, c, 0));
                    assert(bboxes[c as int] == items@[t].2);
                } else {
                    if !node.children[c as int].is_empty_leaf_ptr() {
                        let t = choose|t: int|
                            0 <= t < items@.len() && (#[trigger] items@[t]).0 as int == c as int;
                        assert(low_path_bits(
                            items@[t].0,
                            frontier_stop(bvh.inners@, node_ptr, items@[t].0, 0),
                        ) == items@[t].0 as int);
                        assert(false);
                    }
                }
            }
            assert(node_collapses(node, base, final_len, bvh.inners@, node_ptr, bbox));
            let nl3 = bvh.leaves@.len() as int;
            assert forall|k: int|
                base <= k < final_len implies (#[trigger] inners@[k]).wf_at(
                k,
                final_len,
                nl3,
            ) by {
                if k > base {
                    assert(inners@[k] == exit_inners[k]);
                }
            }
            lemma_wide_wf_forward(inners@, base, final_len, nl3);
            assert forall|m: int|
                base + 1 <= m < final_len implies (#[trigger] exit_inners[m]).wf_at(
                m,
                final_len,
                nl3,
            ) by {}
            lemma_wide_wf_forward(exit_inners, base + 1, final_len, nl3);
            assert forall|k: int|
                base <= k < final_len implies #[trigger] wide_reachable(
                inners@,
                base,
                k,
                final_len,
            ) by {
                if k != base {
                    assert(reachable_via_slot(children, exit_inners, base, k, final_len));
                    let c = choose|c: int|
                        0 <= c < 8 && children[c].is_inner_ptr() && base < children[
                            c
                        ].target_index() && children[c].target_index() < final_len
                            && wide_reachable(
                            exit_inners,
                            children[c].target_index() as int,
                            k,
                            final_len,
                        );
                    lemma_wide_reachable_agree(
                        exit_inners,
                        inners@,
                        children[c].target_index() as int,
                        k,
                        base + 1,
                        final_len,
                        final_len,
                    );
                    assert(inners@[base].children[c] == children[c]);
                    assert(wide_reachable(
                        inners@,
                        children[c].target_index() as int,
                        k,
                        final_len,
                    ));
                }
            }
            assert forall|k: int|
                base <= k < final_len implies #[trigger] collapses_some_root(
                inners@[k],
                k,
                final_len,
                bvh.inners@,
            ) by {
                if k == base {
                    assert(inners@[base] == node);
                    assert(node_collapses(inners@[k], k, final_len, bvh.inners@, node_ptr, bbox));
                } else {
                    assert(inners@[k] == exit_inners[k]);
                    assert(collapses_some_root(exit_inners[k], k, final_len, bvh.inners@));
                    let (root, rbox) = choose|root: NodePointer, rbox: B|
                        root.is_inner_ptr() && root.target_index() < bvh.inners@.len()
                            && node_collapses(
                            exit_inners[k],
                            k,
                            final_len,
                            bvh.inners@,
                            root,
                            rbox,
                        );
                    assert(node_collapses(inners@[k], k, final_len, bvh.inners@, root, rbox));
                }
            }
        }
        Some(node_idx)
    }

    /// Flattens a whole binary hierarchy. The wide tree keeps the input
    /// tree's scene box, owns the same primitives, and holds exactly
    /// `wide_nodes_needed` wide nodes (one per collapse root). Each wide
    /// node is a faithful collapse of an inner node of the binary tree —
    /// the root node of the binary root — with every child slot holding
    /// the descendant its path bits select together with that path's box,
    /// and the empty-leaf sentinel in the slots no descendant reaches;
    /// every stored wide node is reachable from the wide root by child
    /// steps. The law this build keeps: the wide tree references exactly the
    /// leaf slots that the binary tree's root reaches, so together with
    /// the binary build's contract, the set of leaf pointers of the wide
    /// tree equals the set of input primitives, as a multiset. Returns
    /// `None` exactly when the flattening needs more wide nodes than a
    /// node pointer can index, which the contract states both ways.
    pub fn from_bvh(bvh: BVH<B, L>, empty_box: B) -> (r: Option<OBVH<B, L>>)
        requires
            bvh.wf(),
        ensures
            r matches Some(t) ==> t.wf() && t.leaves == bvh.leaves && t.bbox == bvh.bbox
                && t.inners@.len() == wide_nodes_needed(bvh)
                && bvh::subtree_refs_at_root(bvh.inners@, 0, t.leaf_refs())
                && (forall|p: NodePointer|
                    p.is_inner_ptr() && p.target_index() == 0 ==> #[trigger] node_collapses(
                        t.inners@[0],
                        0,
                        t.inners@.len() as int,
                        bvh.inners@,
                        p,
                        bvh.bbox,
                    ))
                && (forall|k: int|
                    0 <= k < t.inners@.len() ==> #[trigger] collapses_some_root(
                        t.inners@[k],
                        k,
                        t.inners@.len() as int,
                        bvh.inners@,
                    ))
                && (forall|k: int|
                    0 <= k < t.inners@.len() ==> #[trigger] wide_reachable(
                        t.inners@,
                        0,
                        k,
                        t.inners@.len() as int,
                    )),
            r is None <==> wide_nodes_needed(bvh) > 0x7FFF_FFFF,
    {
        let root_ptr = NodePointer::root();
        let bbox = bvh.bbox;
        let mut inners: Vec<Node<B>> = Vec::new();
        proof {
            crate::node_pointer::lemma_root_ptr_exists();
            let pc = choose|p: NodePointer| p.is_inner_ptr() && p.target_index() == 0;
            crate::node_pointer::lemma_inner_ptr_eq(pc, root_ptr);
            assert(wide_nodes_needed(bvh) == wide_nodes_from(
                bvh.inners@,
                root_ptr,
                0,
                bvh.inners@.len() as int,
            ));
        }
        match Self::add_inner(&bvh, root_ptr, bbox, &mut inners, empty_box) {
            Some(_idx) => {
                proof {
                    let want = wide_leaf_refs_in_range(inners@, 0, inners@.len() as int);
                    assert forall|p: NodePointer|
                        p.is_inner_ptr() && p.target_index() == 0
                        implies #[trigger] bvh::subtree_leaf_refs(
                        bvh.inners@,
                        p,
                        bvh.inners@.len() as int,
                    ) == want by {
                        crate::node_pointer::lemma_inner_ptr_eq(p, root_ptr);
                    }
                    assert forall|p: NodePointer|
                        p.is_inner_ptr() && p.target_index() == 0
                        implies #[trigger] node_collapses(
                        inners@[0],
                        0,
                        inners@.len() as int,
                        bvh.inners@,
                        p,
                        bvh.bbox,
                    ) by {
                        crate::node_pointer::lemma_inner_ptr_eq(p, root_ptr);
                        assert(node_collapses(
                            inners@[0],
                            0,
                            inners@.len() as int,
                            bvh.inners@,
                            root_ptr,
                            bbox,
                        ));
                    }
                }
                Some(OBVH { bbox, leaves: bvh.leaves, inners })
            },
            None => None,
        }
    }
}

/// The hit-mask word built from one comparison flag per lane: bit `c` of
/// the result answers for lane `c`, matching the lane order in which the
/// eight child boxes are stored.
pub open spec fn lane_word(
    f0: bool,
    f1: bool,
    f2: bool,
    f3: bool,
    f4: bool,
    f5: bool,
    f6: bool,
    f7: bool,
) -> u32 {
    (if f0 {
        1u32
    } else {
        0u32
    }) | (if f1 {
        2u32
    } else {
        0u32
    }) | (if f2 {
        4u32
    } else {
        0u32
    }) | (if f3 {
        8u32
    } else {
        0u32
    }) | (if f4 {
        16u32
    } else {
        0u32
    }) | (if f5 {
        32u32
    } else {
        0u32
    }) | (if f6 {
        64u32
    } else {
        0u32
    }) | (if f7 {
        128u32
    } else {
        0u32
    })
}

proof fn lemma_lane_word_bit(
    f0: bool,
    f1: bool,
    f2: bool,
    f3: bool,
    f4: bool,
    f5: bool,
    f6: bool,
    f7: bool,
    c: u64,
)
    by (bit_vector)
    requires
        c < 8,
    ensures
        mask_bit(lane_word(f0, f1, f2, f3, f4, f5, f6, f7), c) == (if c == 0 {
            f0
        } else if c == 1 {
            f1
        } else if c == 2 {
            f2
        } else if c == 3 {
            f3
        } else if c == 4 {
            f4
        } else if c == 5 {
            f5
        } else if c == 6 {
            f6
        } else {
            f7
        }),
{
}

/// Packs eight per-lane slab-test outcomes into a hit mask whose bit `c`
/// answers for lane `c`, the same order an eight-wide ordered compare and
/// movemask would produce.
pub fn pack_lane_mask(flags: &[bool; 8]) -> (r: u32)
    ensures
        forall|c: u64| c < 8 ==> #[trigger] mask_bit(r, c) == flags[c as int],
        r == lane_word(
            flags[0],
            flags[1],
            flags[2],
            flags[3],
            flags[4],
            flags[5],
            flags[6],
            flags[7],
        ),
{
    let m: u32 = (if flags[0] {
        1u32
    } else {
        0u32
    }) | (if flags[1] {
        2u32
    } else {
        0u32
    }) | (if flags[2] {
        4u32
    } else {
        0u32
    }) | (if flags[3] {
        8u32
    } else {
        0u32
    }) | (if flags[4] {
        16u32
    } else {
        0u32
    }) | (if flags[5] {
        32u32
    } else {
        0u32
    }) | (if flags[6] {
        64u32
    } else {
        0u32
    }) | (if flags[7] {
        128u32
    } else {
        0u32
    });
    proof {
        assert forall|c: u64| c < 8 implies #[trigger] mask_bit(m, c) == flags[c as int] by {
            lemma_lane_word_bit(
                flags[0],
                flags[1],
                flags[2],
                flags[3],
                flags[4],
                flags[5],
                flags[6],
                flags[7],
                c,
            );
        }
    }
    m
}

/// Law: flattening preserves the leaf pointers. A wide tree whose
/// references match the binary root's (as `from_bvh` ensures) and a
/// binary tree whose root references every one of the `n` leaf slots
/// exactly once (as the binary build ensures) reference the same
/// multiset: the wide tree holds each input primitive exactly once.
pub proof fn lemma_flatten_preserves_leaf_slots<B, L>(b: BVH<B, L>, t: OBVH<B, L>, n: int)
    requires
        bvh::subtree_refs_at_root(b.inners@, 0, bvh::all_slots(n)),
        bvh::subtree_refs_at_root(b.inners@, 0, t.leaf_refs()),
    ensures
        t.leaf_refs() == bvh::all_slots(n),
{
    bvh::lemma_same_root_same_refs(b.inners@, bvh::all_slots(n), t.leaf_refs());
}

/// The leaf slots referenced by eight child pointers.
pub open spec fn slots_leaf_refs(children: [NodePointer; 8]) -> vstd::multiset::Multiset<nat> {
    bvh::ptr_leaf_refs(children[0]).add(bvh::ptr_leaf_refs(children[1])).add(
        bvh::ptr_leaf_refs(children[2]),
    ).add(bvh::ptr_leaf_refs(children[3])).add(bvh::ptr_leaf_refs(children[4])).add(
        bvh::ptr_leaf_refs(children[5]),
    ).add(bvh::ptr_leaf_refs(children[6])).add(bvh::ptr_leaf_refs(children[7]))
}

/// The leaf slots referenced by one wide node.
pub open spec fn wide_node_leaf_refs<B>(n: Node<B>) -> vstd::multiset::Multiset<nat> {
    slots_leaf_refs(n.children)
}

/// All leaf slots referenced by the wide nodes `lo..hi` of the array.
pub open spec fn wide_leaf_refs_in_range<B>(
    inners: Seq<Node<B>>,
    lo: int,
    hi: int,
) -> vstd::multiset::Multiset<nat>
    decreases hi - lo,
{
    if lo >= hi {
        vstd::multiset::Multiset::empty()
    } else {
        wide_leaf_refs_in_range(inners, lo, hi - 1).add(wide_node_leaf_refs(inners[hi - 1]))
    }
}

/// Splitting a range splits its references.
proof fn lemma_wide_refs_split<B>(inners: Seq<Node<B>>, lo: int, mid: int, hi: int)
    requires
        lo <= mid <= hi,
    ensures
        wide_leaf_refs_in_range(inners, lo, hi) == wide_leaf_refs_in_range(inners, lo, mid).add(
            wide_leaf_refs_in_range(inners, mid, hi),
        ),
    decreases hi - mid,
{
    broadcast use vstd::multiset::group_multiset_axioms;

    if mid == hi {
        assert(wide_leaf_refs_in_range(inners, lo, mid).add(
            vstd::multiset::Multiset::<nat>::empty(),
        ) =~= wide_leaf_refs_in_range(inners, lo, mid));
    } else {
        lemma_wide_refs_split(inners, lo, mid, hi - 1);
        assert(wide_leaf_refs_in_range(inners, lo, mid).add(
            wide_leaf_refs_in_range(inners, mid, hi - 1),
        ).add(wide_node_leaf_refs(inners[hi - 1])) =~= wide_leaf_refs_in_range(
            inners,
            lo,
            mid,
        ).add(wide_leaf_refs_in_range(inners, mid, hi - 1).add(wide_node_leaf_refs(
            inners[hi - 1],
        ))));
    }
}

/// References of a range depend only on the nodes in the range.
proof fn lemma_wide_refs_agree<B>(s1: Seq<Node<B>>, s2: Seq<Node<B>>, lo: int, hi: int)
    requires
        forall|k: int| lo <= k < hi ==> s1[k] == s2[k],
    ensures
        wide_leaf_refs_in_range(s1, lo, hi) == wide_leaf_refs_in_range(s2, lo, hi),
    decreases hi - lo,
{
    if lo < hi {
        lemma_wide_refs_agree(s1, s2, lo, hi - 1);
    }
}

/// A one-node range contributes exactly that node's references.
proof fn lemma_wide_refs_single<B>(inners: Seq<Node<B>>, k: int)
    ensures
        wide_leaf_refs_in_range(inners, k, k + 1) =~= wide_node_leaf_refs(inners[k]),
{
    broadcast use vstd::multiset::group_multiset_axioms;

    assert(wide_leaf_refs_in_range(inners, k, k) =~= vstd::multiset::Multiset::<nat>::empty());
}

/// Writing a pointer into a slot that held the empty sentinel adds just
/// that pointer's references.
proof fn lemma_slots_update(
    a: [NodePointer; 8],
    b: [NodePointer; 8],
    s: int,
    p: NodePointer,
)
    requires
        0 <= s < 8,
        a[s].is_empty_leaf_ptr(),
        b[s] == p,
        forall|c: int| 0 <= c < 8 && c != s ==> b[c] == a[c],
    ensures
        slots_leaf_refs(b) =~= slots_leaf_refs(a).add(bvh::ptr_leaf_refs(p)),
{
    broadcast use vstd::multiset::group_multiset_axioms;
}

/// The eight all-sentinel slots reference nothing.
proof fn lemma_slots_empty(a: [NodePointer; 8])
    requires
        forall|c: int| 0 <= c < 8 ==> a[c].is_empty_leaf_ptr(),
    ensures
        slots_leaf_refs(a) =~= vstd::multiset::Multiset::<nat>::empty(),
{
    broadcast use vstd::multiset::group_multiset_axioms;
}

/// Sum of the binary subtree references below each item's pointer.
pub open spec fn items_subtree_refs<B>(
    bvh_inners: Seq<bvh::Node<B>>,
    items: Seq<(u8, NodePointer, B)>,
    lo: int,
    hi: int,
) -> vstd::multiset::Multiset<nat>
    decreases hi - lo,
{
    if lo >= hi {
        vstd::multiset::Multiset::empty()
    } else {
        items_subtree_refs(bvh_inners, items, lo, hi - 1).add(
            bvh::subtree_leaf_refs(bvh_inners, items[hi - 1].1, bvh_inners.len() as int),
        )
    }
}

/// Splitting an item range splits the sum.
proof fn lemma_items_refs_split<B>(
    bvh_inners: Seq<bvh::Node<B>>,
    items: Seq<(u8, NodePointer, B)>,
    lo: int,
    mid: int,
    hi: int,
)
    requires
        lo <= mid <= hi,
    ensures
        items_subtree_refs(bvh_inners, items, lo, hi) == items_subtree_refs(
            bvh_inners,
            items,
            lo,
            mid,
        ).add(items_subtree_refs(bvh_inners, items, mid, hi)),
    decreases hi - mid,
{
    broadcast use vstd::multiset::group_multiset_axioms;

    if mid == hi {
        assert(items_subtree_refs(bvh_inners, items, lo, mid).add(
            vstd::multiset::Multiset::<nat>::empty(),
        ) =~= items_subtree_refs(bvh_inners, items, lo, mid));
    } else {
        lemma_items_refs_split(bvh_inners, items, lo, mid, hi - 1);
        assert(items_subtree_refs(bvh_inners, items, lo, mid).add(
            items_subtree_refs(bvh_inners, items, mid, hi - 1),
        ).add(bvh::subtree_leaf_refs(bvh_inners, items[hi - 1].1, bvh_inners.len() as int))
            =~= items_subtree_refs(bvh_inners, items, lo, mid).add(items_subtree_refs(
            bvh_inners,
            items,
            mid,
            hi - 1,
        ).add(bvh::subtree_leaf_refs(bvh_inners, items[hi - 1].1, bvh_inners.len() as int))));
    }
}

/// The sum over a range depends only on the items in the range.
proof fn lemma_items_refs_agree<B>(
    bvh_inners: Seq<bvh::Node<B>>,
    s1: Seq<(u8, NodePointer, B)>,
    s2: Seq<(u8, NodePointer, B)>,
    lo: int,
    hi: int,
)
    requires
        forall|t: int| lo <= t < hi ==> s1[t] == s2[t],
    ensures
        items_subtree_refs(bvh_inners, s1, lo, hi) == items_subtree_refs(bvh_inners, s2, lo, hi),
    decreases hi - lo,
{
    if lo < hi {
        lemma_items_refs_agree(bvh_inners, s1, s2, lo, hi - 1);
    }
}

/// A one-item range contributes exactly that item's subtree.
proof fn lemma_items_refs_single<B>(
    bvh_inners: Seq<bvh::Node<B>>,
    items: Seq<(u8, NodePointer, B)>,
    t: int,
)
    ensures
        items_subtree_refs(bvh_inners, items, t, t + 1) =~= bvh::subtree_leaf_refs(
            bvh_inners,
            items[t].1,
            bvh_inners.len() as int,
        ),
    decreases 0int,
{
    broadcast use vstd::multiset::group_multiset_axioms;

    assert(items_subtree_refs(bvh_inners, items, t, t) =~= vstd::multiset::Multiset::<
        nat,
    >::empty());
}

/// How many wide nodes the flattening needs for the walk that stands at
/// pointer `p` of the binary array with `depth` levels already descended
/// in the current collapse: a collapse root (depth 0) costs one node
/// plus its descendants' walks; a branch point passes the walk to its
/// children; a leaf or a cut at depth 3 costs what its own collapse
/// costs, nothing for a leaf. Reads only nodes below `hi`.
pub open spec fn wide_nodes_from<B>(
    inners: Seq<bvh::Node<B>>,
    p: NodePointer,
    depth: int,
    hi: int,
) -> int
    decreases hi - p.target_index(), depth
        when 0 <= depth <= 3 && 0 <= hi <= inners.len() && bvh::forward_between(inners, 0, hi)
{
    if p.is_leaf_ptr() || p.target_index() >= hi {
        0
    } else if depth == 3 {
        wide_nodes_from(inners, p, 0, hi)
    } else {
        let n = inners[p.target_index() as int];
        let below = (if n.children[0].is_inner_ptr() {
            wide_nodes_from(inners, n.children[0], depth + 1, hi)
        } else {
            0int
        }) + (if n.children[1].is_inner_ptr() {
            wide_nodes_from(inners, n.children[1], depth + 1, hi)
        } else {
            0int
        });
        if depth == 0 {
            1 + below
        } else {
            below
        }
    }
}

/// The number of wide nodes flattening the whole tree needs.
pub open spec fn wide_nodes_needed<B, L>(b: BVH<B, L>) -> int {
    wide_nodes_from(
        b.inners@,
        choose|p: NodePointer| p.is_inner_ptr() && p.target_index() == 0,
        0,
        b.inners@.len() as int,
    )
}

/// The count is never negative.
proof fn lemma_wide_nodes_from_nonneg<B>(
    inners: Seq<bvh::Node<B>>,
    p: NodePointer,
    depth: int,
    hi: int,
)
    requires
        0 <= depth <= 3,
        0 <= hi <= inners.len(),
        bvh::forward_between(inners, 0, hi),
    ensures
        wide_nodes_from(inners, p, depth, hi) >= 0,
    decreases hi - p.target_index(), depth,
{
    if p.is_leaf_ptr() || p.target_index() >= hi {
    } else if depth == 3 {
        lemma_wide_nodes_from_nonneg(inners, p, 0, hi);
    } else {
        let n = inners[p.target_index() as int];
        if n.children[0].is_inner_ptr() {
            lemma_wide_nodes_from_nonneg(inners, n.children[0], depth + 1, hi);
        }
        if n.children[1].is_inner_ptr() {
            lemma_wide_nodes_from_nonneg(inners, n.children[1], depth + 1, hi);
        }
    }
}

/// Sum, over the items `lo..hi_items` of a frontier list, of the wide
/// nodes each item's own collapse needs.
pub open spec fn items_wide_count<B>(
    bvh_inners: Seq<bvh::Node<B>>,
    items: Seq<(u8, NodePointer, B)>,
    lo: int,
    hi_items: int,
    hi: int,
) -> int
    decreases hi_items - lo,
{
    if lo >= hi_items {
        0
    } else {
        items_wide_count(bvh_inners, items, lo, hi_items - 1, hi) + wide_nodes_from(
            bvh_inners,
            items[hi_items - 1].1,
            0,
            hi,
        )
    }
}

proof fn lemma_items_wide_split<B>(
    bvh_inners: Seq<bvh::Node<B>>,
    items: Seq<(u8, NodePointer, B)>,
    lo: int,
    mid: int,
    hi_items: int,
    hi: int,
)
    requires
        lo <= mid <= hi_items,
    ensures
        items_wide_count(bvh_inners, items, lo, hi_items, hi) == items_wide_count(
            bvh_inners,
            items,
            lo,
            mid,
            hi,
        ) + items_wide_count(bvh_inners, items, mid, hi_items, hi),
    decreases hi_items - mid,
{
    if mid < hi_items {
        lemma_items_wide_split(bvh_inners, items, lo, mid, hi_items - 1, hi);
    }
}

proof fn lemma_items_wide_agree<B>(
    bvh_inners: Seq<bvh::Node<B>>,
    s1: Seq<(u8, NodePointer, B)>,
    s2: Seq<(u8, NodePointer, B)>,
    lo: int,
    hi_items: int,
    hi: int,
)
    requires
        forall|t: int| lo <= t < hi_items ==> s1[t] == s2[t],
    ensures
        items_wide_count(bvh_inners, s1, lo, hi_items, hi) == items_wide_count(
            bvh_inners,
            s2,
            lo,
            hi_items,
            hi,
        ),
    decreases hi_items - lo,
{
    if lo < hi_items {
        lemma_items_wide_agree(bvh_inners, s1, s2, lo, hi_items - 1, hi);
    }
}

/// The items' collapse costs are never negative in sum.
proof fn lemma_items_wide_nonneg<B>(
    bvh_inners: Seq<bvh::Node<B>>,
    items: Seq<(u8, NodePointer, B)>,
    lo: int,
    hi_items: int,
    hi: int,
)
    requires
        0 <= hi <= bvh_inners.len(),
        bvh::forward_between(bvh_inners, 0, hi),
    ensures
        items_wide_count(bvh_inners, items, lo, hi_items, hi) >= 0,
    decreases hi_items - lo,
{
    if lo < hi_items {
        lemma_items_wide_nonneg(bvh_inners, items, lo, hi_items - 1, hi);
        lemma_wide_nodes_from_nonneg(bvh_inners, items[hi_items - 1].1, 0, hi);
    }
}

/// The binary descendant that ends in child slot `c` of the collapse
/// rooted at `p`: follow bit `depth` of `c` at each level (1 = the left
/// child, slot bit convention of the path rule), stop at a leaf or after
/// three levels.
pub open spec fn frontier_ptr<B>(
    inners: Seq<bvh::Node<B>>,
    p: NodePointer,
    c: u8,
    depth: int,
) -> NodePointer
    decreases 3 - depth,
{
    if depth >= 3 || p.is_leaf_ptr() || p.target_index() >= inners.len() {
        p
    } else {
        let n = inners[p.target_index() as int];
        if path_bit(c, depth) {
            frontier_ptr(inners, n.children[0], c, depth + 1)
        } else {
            frontier_ptr(inners, n.children[1], c, depth + 1)
        }
    }
}

/// The box travelling with that descendant: the child box stored at its
/// parent, or `bx` when `p` itself ends the walk.
pub open spec fn frontier_box<B>(
    inners: Seq<bvh::Node<B>>,
    p: NodePointer,
    bx: B,
    c: u8,
    depth: int,
) -> B
    decreases 3 - depth,
{
    if depth >= 3 || p.is_leaf_ptr() || p.target_index() >= inners.len() {
        bx
    } else {
        let n = inners[p.target_index() as int];
        if path_bit(c, depth) {
            frontier_box(inners, n.children[0], n.bboxes[0], c, depth + 1)
        } else {
            frontier_box(inners, n.children[1], n.bboxes[1], c, depth + 1)
        }
    }
}

/// How deep the walk to slot `c` descends before it stops.
pub open spec fn frontier_stop<B>(
    inners: Seq<bvh::Node<B>>,
    p: NodePointer,
    c: u8,
    depth: int,
) -> int
    decreases 3 - depth,
{
    if depth >= 3 || p.is_leaf_ptr() || p.target_index() >= inners.len() {
        depth
    } else {
        let n = inners[p.target_index() as int];
        if path_bit(c, depth) {
            frontier_stop(inners, n.children[0], c, depth + 1)
        } else {
            frontier_stop(inners, n.children[1], c, depth + 1)
        }
    }
}

/// Whether slot `c` receives a descendant at all: a walk that stops
/// early fills the slot whose remaining path bits are zero, so `c` must
/// equal its own low bits below the stopping depth.
pub open spec fn slot_filled<B>(inners: Seq<bvh::Node<B>>, p: NodePointer, c: u8) -> bool {
    low_path_bits(c, frontier_stop(inners, p, c, 0)) == c as int
}

/// The wide node at `k` is a faithful collapse of the binary subtree at
/// `root` carrying box `rbox`: each filled slot holds its path's
/// descendant (a leaf directly, an inner descendant as a pointer to a
/// later wide node) and that path's box; absent slots hold the
/// empty-leaf sentinel.
pub open spec fn node_collapses<B>(
    wide: Node<B>,
    k: int,
    n_wide: int,
    bvh_inners: Seq<bvh::Node<B>>,
    root: NodePointer,
    rbox: B,
) -> bool {
    forall|c: u8|
        c < 8 ==> {
            let f = frontier_ptr(bvh_inners, root, c, 0);
            &&& (slot_filled(bvh_inners, root, c) ==> (f.is_leaf_ptr()
                ==> #[trigger] wide.children[c as int] == f) && (f.is_inner_ptr()
                ==> wide.children[c as int].is_inner_ptr() && k < wide.children[
                c as int
            ].target_index() < n_wide) && wide.bboxes[c as int] == frontier_box(
                bvh_inners,
                root,
                rbox,
                c,
                0,
            ))
            &&& (!slot_filled(bvh_inners, root, c) ==> wide.children[
                c as int
            ].is_empty_leaf_ptr())
        }
}

/// The wide node at `k` is a faithful collapse of some inner node of
/// the binary tree.
pub open spec fn collapses_some_root<B>(
    wide: Node<B>,
    k: int,
    n_wide: int,
    bvh_inners: Seq<bvh::Node<B>>,
) -> bool {
    exists|root: NodePointer, rbox: B|
        root.is_inner_ptr() && root.target_index() < bvh_inners.len() && node_collapses(
            wide,
            k,
            n_wide,
            bvh_inners,
            root,
            rbox,
        )
}

/// Node `k2` hangs below one of the eight child slots already written.
spec fn reachable_via_slot<B>(
    children: [NodePointer; 8],
    inners: Seq<Node<B>>,
    base: int,
    k2: int,
    hi: int,
) -> bool {
    exists|c: int|
        0 <= c < 8 && (#[trigger] children[c]).is_inner_ptr() && base < children[
            c
        ].target_index() && children[c].target_index() < hi && wide_reachable(
            inners,
            children[c].target_index() as int,
            k2,
            hi,
        )
}

/// The collapse relation survives the wide array growing.
proof fn lemma_node_collapses_monotone<B>(
    wide: Node<B>,
    k: int,
    n1: int,
    n2: int,
    bvh_inners: Seq<bvh::Node<B>>,
    root: NodePointer,
    rbox: B,
)
    requires
        node_collapses(wide, k, n1, bvh_inners, root, rbox),
        n1 <= n2,
    ensures
        node_collapses(wide, k, n2, bvh_inners, root, rbox),
{
}

/// Wide children at `k` point strictly forward below `hi`.
pub open spec fn wide_node_forward<B>(n: Node<B>, k: int, hi: int) -> bool {
    forall|c: int| 0 <= c < 8 ==> bvh::ptr_forward(#[trigger] n.children[c], k, hi)
}

/// Every wide node in `lo..hi` has forward children staying below `hi`.
pub open spec fn wide_forward_between<B>(inners: Seq<Node<B>>, lo: int, hi: int) -> bool {
    forall|k: int| lo <= k < hi ==> wide_node_forward(#[trigger] inners[k], k, hi)
}

/// A well-formed wide range is forward.
pub proof fn lemma_wide_wf_forward<B>(inners: Seq<Node<B>>, lo: int, hi: int, nl: int)
    requires
        forall|k: int| lo <= k < hi ==> (#[trigger] inners[k]).wf_at(k, hi, nl),
    ensures
        wide_forward_between(inners, lo, hi),
{
    assert forall|k: int| lo <= k < hi implies wide_node_forward(#[trigger] inners[k], k, hi) by {
        assert forall|c: int| 0 <= c < 8 implies bvh::ptr_forward(
            #[trigger] inners[k].children[c],
            k,
            hi,
        ) by {
            crate::node_pointer::lemma_empty_leaf_is_leaf(inners[k].children[c]);
        }
    }
}

/// Wide node `k` can be reached from wide node `j` by child steps,
/// reading only nodes below `hi`. On the forward arrays the flattening
/// produces, the walk follows strictly increasing indices.
pub open spec fn wide_reachable<B>(inners: Seq<Node<B>>, j: int, k: int, hi: int) -> bool
    decreases hi - j,
        when (0 <= j < hi <= inners.len() && wide_forward_between(inners, j, hi))
{
    ||| j == k
    ||| (inners[j].children[0].is_inner_ptr() && wide_reachable(
        inners,
        inners[j].children[0].target_index() as int,
        k,
        hi,
    ))
    ||| (inners[j].children[1].is_inner_ptr() && wide_reachable(
        inners,
        inners[j].children[1].target_index() as int,
        k,
        hi,
    ))
    ||| (inners[j].children[2].is_inner_ptr() && wide_reachable(
        inners,
        inners[j].children[2].target_index() as int,
        k,
        hi,
    ))
    ||| (inners[j].children[3].is_inner_ptr() && wide_reachable(
        inners,
        inners[j].children[3].target_index() as int,
        k,
        hi,
    ))
    ||| (inners[j].children[4].is_inner_ptr() && wide_reachable(
        inners,
        inners[j].children[4].target_index() as int,
        k,
        hi,
    ))
    ||| (inners[j].children[5].is_inner_ptr() && wide_reachable(
        inners,
        inners[j].children[5].target_index() as int,
        k,
        hi,
    ))
    ||| (inners[j].children[6].is_inner_ptr() && wide_reachable(
        inners,
        inners[j].children[6].target_index() as int,
        k,
        hi,
    ))
    ||| (inners[j].children[7].is_inner_ptr() && wide_reachable(
        inners,
        inners[j].children[7].target_index() as int,
        k,
        hi,
    ))
}

/// Reachability reads only the window it can step through, so it
/// survives widening the bound and edits outside `lo..hi1`.
pub proof fn lemma_wide_reachable_agree<B>(
    s1: Seq<Node<B>>,
    s2: Seq<Node<B>>,
    j: int,
    k: int,
    lo: int,
    hi1: int,
    hi2: int,
)
    requires
        0 <= lo <= j < hi1,
        hi1 <= s1.len(),
        hi1 <= hi2,
        hi2 <= s2.len(),
        wide_forward_between(s1, lo, hi1),
        wide_forward_between(s2, lo, hi2),
        forall|m: int| lo <= m < hi1 ==> s1[m] == s2[m],
    ensures
        wide_reachable(s1, j, k, hi1) == wide_reachable(s2, j, k, hi2),
    decreases hi1 - j,
{
    assert(wide_forward_between(s1, j, hi1)) by {
        assert(forall|m: int| j <= m < hi1 ==> wide_node_forward(#[trigger] s1[m], m, hi1));
    }
    assert(wide_forward_between(s2, j, hi2)) by {
        assert(forall|m: int| j <= m < hi2 ==> wide_node_forward(#[trigger] s2[m], m, hi2));
    }
    assert(s1[j] == s2[j]);
    assert(wide_node_forward(s1[j], j, hi1));
    let n = s1[j];
    if n.children[0].is_inner_ptr() {
        lemma_wide_reachable_agree(s1, s2, n.children[0].target_index() as int, k, lo, hi1, hi2);
    }
    if n.children[1].is_inner_ptr() {
        lemma_wide_reachable_agree(s1, s2, n.children[1].target_index() as int, k, lo, hi1, hi2);
    }
    if n.children[2].is_inner_ptr() {
        lemma_wide_reachable_agree(s1, s2, n.children[2].target_index() as int, k, lo, hi1, hi2);
    }
    if n.children[3].is_inner_ptr() {
        lemma_wide_reachable_agree(s1, s2, n.children[3].target_index() as int, k, lo, hi1, hi2);
    }
    if n.children[4].is_inner_ptr() {
        lemma_wide_reachable_agree(s1, s2, n.children[4].target_index() as int, k, lo, hi1, hi2);
    }
    if n.children[5].is_inner_ptr() {
        lemma_wide_reachable_agree(s1, s2, n.children[5].target_index() as int, k, lo, hi1, hi2);
    }
    if n.children[6].is_inner_ptr() {
        lemma_wide_reachable_agree(s1, s2, n.children[6].target_index() as int, k, lo, hi1, hi2);
    }
    if n.children[7].is_inner_ptr() {
        lemma_wide_reachable_agree(s1, s2, n.children[7].target_index() as int, k, lo, hi1, hi2);
    }
}

} // verus!
