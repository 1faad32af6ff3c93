//! The binary bounding-volume hierarchy: a flat array of inner nodes
//! built once by recursive surface-area-heuristic splitting.
//!
//! The tree is index-shaped: node 0 is the root, every child pointer of
//! an inner node refers either to a later inner node, to a leaf slot of
//! the primitive array, or to the empty-leaf sentinel. The geometric
//! payload `B` (one bounding box per child) is opaque here: the caller
//! supplies the box arithmetic — the surface-area split choice, the
//! centroid ordering and the box union — as functions, and everything
//! index-shaped about the build is verified: which nodes exist, where
//! their children point, and that the leaves of the finished tree are
//! exactly the input primitives.

use vstd::prelude::*;
use vstd::multiset::Multiset;
use vstd::seq_lib::lemma_multiset_commutative;

use crate::node_pointer::NodePointer;

verus! {

/// One inner node: two children, their bounding boxes, and the axis
/// (0, 1 or 2) of the splitting plane that separates them.
#[derive(Debug)]
pub struct Node<B> {
    pub bboxes: [B; 2],
    pub children: [NodePointer; 2],
    pub axis: u8,
}

impl<B> Node<B> {
    /// The child of this node to visit first in the ordered descent: the
    /// left child (slot 0) when the ray direction is non-negative along
    /// the splitting axis, else the right. `ray_is_pos[a]` is 1 exactly
    /// when the direction is non-negative along axis `a`.
    pub fn prior_child(&self, ray_is_pos: &[usize; 3]) -> (r: usize)
        requires
            self.axis < 3,
        ensures
            r < 2,
            (r == 0) == (ray_is_pos[self.axis as int] == 1),
    {
        if ray_is_pos[self.axis as usize] == 1 {
            0
        } else {
            1
        }
    }
}

/// A child pointer of the node at index `k` stays inside the tree: an
/// inner child points strictly forward (the build appends children after
/// their parent), a leaf child points into the primitive array, and the
/// empty-leaf sentinel points nowhere.
pub open spec fn child_ok(p: NodePointer, k: int, n_inners: int, n_leaves: int) -> bool {
    if p.is_empty_leaf_ptr() {
        true
    } else if p.is_leaf_ptr() {
        p.target_index() < n_leaves
    } else {
        k < p.target_index() < n_inners
    }
}

/// Well-formedness of one inner node at index `k`.
pub open spec fn node_wf<B>(n: Node<B>, k: int, n_inners: int, n_leaves: int) -> bool {
    &&& n.axis < 3
    &&& child_ok(n.children[0], k, n_inners, n_leaves)
    &&& child_ok(n.children[1], k, n_inners, n_leaves)
}

/// The leaf index referenced by one pointer, as a multiset: one element
/// for a real leaf, nothing for an inner node or the empty-leaf sentinel.
pub open spec fn ptr_leaf_refs(p: NodePointer) -> Multiset<nat> {
    if p.is_leaf_ptr() && !p.is_empty_leaf_ptr() {
        Multiset::singleton(p.target_index())
    } else {
        Multiset::empty()
    }
}

/// The leaf indices referenced by one node's two children.
pub open spec fn node_leaf_refs<B>(n: Node<B>) -> Multiset<nat> {
    ptr_leaf_refs(n.children[0]).add(ptr_leaf_refs(n.children[1]))
}

/// All leaf indices referenced by the inner nodes `lo..hi` of the array.
pub open spec fn leaf_refs_in_range<B>(inners: Seq<Node<B>>, lo: int, hi: int) -> Multiset<nat>
    decreases hi - lo,
{
    if lo >= hi {
        Multiset::empty()
    } else {
        leaf_refs_in_range(inners, lo, hi - 1).add(node_leaf_refs(inners[hi - 1]))
    }
}

/// Splitting a range splits its leaf references.
pub proof fn lemma_leaf_refs_split<B>(inners: Seq<Node<B>>, lo: int, mid: int, hi: int)
    requires
        lo <= mid <= hi,
    ensures
        leaf_refs_in_range(inners, lo, hi) == leaf_refs_in_range(inners, lo, mid).add(
            leaf_refs_in_range(inners, mid, hi),
        ),
    decreases hi - mid,
{
    if mid == hi {
        assert(leaf_refs_in_range(inners, mid, hi) == Multiset::<nat>::empty());
        assert(leaf_refs_in_range(inners, lo, mid).add(Multiset::<nat>::empty())
            =~= leaf_refs_in_range(inners, lo, mid));
    } else {
        lemma_leaf_refs_split(inners, lo, mid, hi - 1);
        assert(leaf_refs_in_range(inners, lo, mid).add(
            leaf_refs_in_range(inners, mid, hi - 1),
        ).add(node_leaf_refs(inners[hi - 1])) =~= leaf_refs_in_range(inners, lo, mid).add(
            leaf_refs_in_range(inners, mid, hi - 1).add(node_leaf_refs(inners[hi - 1])),
        ));
    }
}

/// Leaf references of a range depend only on the nodes in the range.
pub proof fn lemma_leaf_refs_agree<B>(s1: Seq<Node<B>>, s2: Seq<Node<B>>, lo: int, hi: int)
    requires
        forall|k: int| lo <= k < hi ==> s1[k] == s2[k],
    ensures
        leaf_refs_in_range(s1, lo, hi) == leaf_refs_in_range(s2, lo, hi),
    decreases hi - lo,
{
    if lo < hi {
        lemma_leaf_refs_agree(s1, s2, lo, hi - 1);
    }
}

/// An inner pointer stored at index `k` points strictly forward and
/// below `hi`.
pub open spec fn ptr_forward(p: NodePointer, k: int, hi: int) -> bool {
    p.is_inner_ptr() ==> k < p.target_index() < hi
}

/// Both children point forward.
pub open spec fn node_forward<B>(n: Node<B>, k: int, hi: int) -> bool {
    ptr_forward(n.children[0], k, hi) && ptr_forward(n.children[1], k, hi)
}

/// Every node in `lo..hi` has forward children staying below `hi`.
pub open spec fn forward_between<B>(inners: Seq<Node<B>>, lo: int, hi: int) -> bool {
    forall|k: int| lo <= k < hi ==> node_forward(#[trigger] inners[k], k, hi)
}

/// A well-formed range is forward: its children are inner pointers into
/// the same range or leaves.
pub proof fn lemma_wf_range_forward<B>(inners: Seq<Node<B>>, lo: int, hi: int, nl: int)
    requires
        forall|k: int| lo <= k < hi ==> node_wf(#[trigger] inners[k], k, hi, nl),
    ensures
        forward_between(inners, lo, hi),
{
    assert forall|k: int| lo <= k < hi implies node_forward(#[trigger] inners[k], k, hi) by {
        crate::node_pointer::lemma_empty_leaf_is_leaf(inners[k].children[0]);
        crate::node_pointer::lemma_empty_leaf_is_leaf(inners[k].children[1]);
    }
}

/// The leaf slots referenced anywhere in the subtree hanging from `p`,
/// counted with multiplicity, reading only nodes below `hi`. On the
/// forward-pointing arrays the build produces, the recursion follows
/// strictly increasing indices.
pub open spec fn subtree_leaf_refs<B>(inners: Seq<Node<B>>, p: NodePointer, hi: int) -> Multiset<
    nat,
>
    decreases (if p.is_leaf_ptr() {
        0int
    } else {
        hi - p.target_index() + 1
    })
        when (p.is_inner_ptr() ==> 0 <= p.target_index() < hi <= inners.len() && forward_between(
            inners,
            p.target_index() as int,
            hi,
        ))
{
    if p.is_leaf_ptr() {
        ptr_leaf_refs(p)
    } else {
        let n = inners[p.target_index() as int];
        subtree_leaf_refs(inners, n.children[0], hi).add(
            subtree_leaf_refs(inners, n.children[1], hi),
        )
    }
}

/// Subtree references depend only on the nodes of the range they can
/// reach, so they survive both widening the bound and growing or editing
/// the array outside `lo..hi1`.
pub proof fn lemma_subtree_refs_agree<B>(
    s1: Seq<Node<B>>,
    s2: Seq<Node<B>>,
    p: NodePointer,
    lo: int,
    hi1: int,
    hi2: int,
)
    requires
        0 <= lo,
        hi1 <= s1.len(),
        hi1 <= hi2,
        hi2 <= s2.len(),
        forward_between(s1, lo, hi1),
        forward_between(s2, lo, hi2),
        forall|k: int| lo <= k < hi1 ==> s1[k] == s2[k],
        p.is_inner_ptr() ==> lo <= p.target_index() < hi1,
    ensures
        subtree_leaf_refs(s1, p, hi1) == subtree_leaf_refs(s2, p, hi2),
    decreases (if p.is_leaf_ptr() {
        0int
    } else {
        hi1 - p.target_index() + 1
    }),
{
    if !p.is_leaf_ptr() {
        let t = p.target_index() as int;
        assert(forward_between(s1, t, hi1)) by {
            assert(forall|k: int| t <= k < hi1 ==> node_forward(#[trigger] s1[k], k, hi1));
        }
        assert(forward_between(s2, t, hi2)) by {
            assert(forall|k: int| t <= k < hi2 ==> node_forward(#[trigger] s2[k], k, hi2));
        }
        let n = s1[t];
        assert(s2[t] == n);
        assert(node_forward(n, t, hi1));
        lemma_subtree_refs_agree(s1, s2, n.children[0], lo, hi1, hi2);
        lemma_subtree_refs_agree(s1, s2, n.children[1], lo, hi1, hi2);
    }
}

/// Where a stored child box comes from: the empty box for an absent
/// child, the box the input list pairs with the leaf's slot, or an
/// output of the caller's union function on a list holding exactly the
/// leaf slots of the child's subtree.
pub open spec fn child_box_ok<B, FU: Fn(&Vec<(usize, B)>) -> B>(
    unite_all: FU,
    input: Seq<(usize, B)>,
    empty_box: B,
    inners: Seq<Node<B>>,
    hi: int,
    p: NodePointer,
    bx: B,
) -> bool {
    if p.is_empty_leaf_ptr() {
        bx == empty_box
    } else if p.is_leaf_ptr() {
        exists|j: int|
            0 <= j < input.len() && (#[trigger] input[j]).0 == p.target_index() && input[j].1
                == bx
    } else {
        exists|v: &Vec<(usize, B)>|
            #[trigger] call_ensures(unite_all, (v,), bx) && slot_seq(v@).to_multiset()
                == subtree_leaf_refs(inners, p, hi)
    }
}

/// Every child box stored in the nodes `lo..hi` has an admissible origin.
pub open spec fn boxes_from_unite<B, FU: Fn(&Vec<(usize, B)>) -> B>(
    unite_all: FU,
    input: Seq<(usize, B)>,
    empty_box: B,
    inners: Seq<Node<B>>,
    lo: int,
    hi: int,
) -> bool {
    forall|k: int, c: int|
        lo <= k < hi && 0 <= c < 2 ==> child_box_ok(
            unite_all,
            input,
            empty_box,
            inners,
            hi,
            #[trigger] inners[k].children[c],
            inners[k].bboxes[c],
        )
}

/// Every pair of the two halves of a reordering of `orig` occurs in
/// `orig`.
proof fn lemma_pairs_carried<A>(left: Seq<A>, right: Seq<A>, orig: Seq<A>)
    requires
        (left + right).to_multiset() == orig.to_multiset(),
    ensures
        forall|i: int| 0 <= i < left.len() ==> orig.contains(#[trigger] left[i]),
        forall|i: int| 0 <= i < right.len() ==> orig.contains(#[trigger] right[i]),
{
    broadcast use vstd::seq_lib::group_to_multiset_ensures;

    let both = left + right;
    assert forall|i: int| 0 <= i < both.len() implies orig.contains(#[trigger] both[i]) by {
        assert(both.contains(both[i]));
        assert(both.to_multiset().count(both[i]) > 0);
        assert(orig.to_multiset().count(both[i]) > 0);
    }
    assert forall|i: int| 0 <= i < left.len() implies orig.contains(#[trigger] left[i]) by {
        assert(both[i] == left[i]);
        assert(orig.contains(both[i]));
    }
    assert forall|i: int| 0 <= i < right.len() implies orig.contains(#[trigger] right[i]) by {
        assert(both[left.len() + i] == right[i]);
        assert(orig.contains(both[left.len() + i]));
    }
}

/// Any inner pointer to `root` roots a subtree referencing exactly
/// `want`. Quantifying over the pointer keeps the statement free of a
/// particular pointer encoding.
pub open spec fn subtree_refs_at_root<B>(inners: Seq<Node<B>>, root: int, want: Multiset<
    nat,
>) -> bool {
    forall|p: NodePointer|
        p.is_inner_ptr() && p.target_index() == root ==> #[trigger] subtree_leaf_refs(
            inners,
            p,
            inners.len() as int,
        ) == want
}

/// A freshly built single-node tree: any root pointer to it has exactly
/// the node's own leaf references.
proof fn lemma_single_node_subtree<B>(inners: Seq<Node<B>>, base: int)
    requires
        0 <= base,
        base + 1 <= inners.len(),
        inners[base].children[0].is_leaf_ptr(),
        inners[base].children[1].is_leaf_ptr(),
    ensures
        forall|p: NodePointer|
            p.is_inner_ptr() && p.target_index() == base ==> subtree_leaf_refs(inners, p, base + 1)
                == node_leaf_refs(inners[base]),
{
    assert(forward_between(inners, base, base + 1)) by {
        assert(forall|k: int|
            base <= k < base + 1 ==> node_forward(#[trigger] inners[k], k, base + 1));
    }
    assert forall|p: NodePointer|
        p.is_inner_ptr() && p.target_index() == base implies subtree_leaf_refs(inners, p, base + 1)
        == node_leaf_refs(inners[base]) by {
        lemma_subtree_leaf_children(inners, p, base + 1);
    }
}

/// A node whose children are both leaves (or sentinels) roots a subtree
/// whose references are just its own.
proof fn lemma_subtree_leaf_children<B>(inners: Seq<Node<B>>, p: NodePointer, hi: int)
    requires
        p.is_inner_ptr(),
        0 <= p.target_index() < hi <= inners.len(),
        forward_between(inners, p.target_index() as int, hi),
        inners[p.target_index() as int].children[0].is_leaf_ptr(),
        inners[p.target_index() as int].children[1].is_leaf_ptr(),
    ensures
        subtree_leaf_refs(inners, p, hi) == node_leaf_refs(inners[p.target_index() as int]),
{
    let n = inners[p.target_index() as int];
    assert(subtree_leaf_refs(inners, n.children[0], hi) == ptr_leaf_refs(n.children[0]));
    assert(subtree_leaf_refs(inners, n.children[1], hi) == ptr_leaf_refs(n.children[1]));
}

/// The binary hierarchy: the primitives (leaves), the flat inner-node
/// array whose entry 0 is the root, and the bounding box of the whole
/// scene.
pub struct BVH<B, L> {
    pub leaves: Vec<L>,
    pub inners: Vec<Node<B>>,
    pub bbox: B,
}

impl<B, L> BVH<B, L> {
    /// The index shape every built tree has: a root exists, all indices
    /// fit the 31 bits of a node pointer, every child pointer lands
    /// inside the arrays, and inner children point strictly forward.
    pub open spec fn wf(self) -> bool {
        &&& self.inners@.len() >= 1
        &&& self.inners@.len() <= 0x7FFF_FFFF
        &&& self.leaves@.len() <= 0x7FFF_FFFF
        &&& forall|k: int|
            0 <= k < self.inners@.len() ==> node_wf(
                #[trigger] self.inners@[k],
                k,
                self.inners@.len() as int,
                self.leaves@.len() as int,
            )
    }

    /// The leaf slots referenced anywhere in the tree.
    pub open spec fn leaf_refs(self) -> Multiset<nat> {
        leaf_refs_in_range(self.inners@, 0, self.inners@.len() as int)
    }
}

/// The multiset {0, 1, ..., n-1} of all leaf slots of an n-primitive scene.
pub open spec fn all_slots(n: int) -> Multiset<nat> {
    Seq::new(n as nat, |i: int| i as nat).to_multiset()
}

/// The (slot, box) list the build works on: box `i` paired with slot `i`.
pub open spec fn indexed_boxes<B>(boxes: Seq<B>) -> Seq<(usize, B)> {
    Seq::new(boxes.len(), |i: int| (i as usize, boxes[i]))
}

impl<B, L> BVH<B, L> {
    /// Builds the hierarchy over `leaves`, whose bounding boxes over the
    /// shutter interval are `boxes` (computed by the caller, slot by
    /// slot). The box arithmetic of the surface-area heuristic is
    /// delegated as in `construct`; `unite_all` also provides the box of
    /// the whole scene. The finished tree owns the primitives, is
    /// well-formed, and references every leaf slot exactly once.
    pub fn new<FS, FO, FU>(
        leaves: Vec<L>,
        boxes: Vec<B>,
        pick_split: FS,
        order_along: FO,
        unite_all: FU,
        empty_box: B,
    ) -> (r: BVH<B, L>) where
        B: Copy,
        FS: Fn(&Vec<(usize, B)>) -> (u8, usize) + Copy,
        FO: Fn(Vec<(usize, B)>, u8) -> Vec<(usize, B)> + Copy,
        FU: Fn(&Vec<(usize, B)>) -> B + Copy,

        requires
            boxes@.len() == leaves@.len(),
            2 * leaves@.len() + 1 <= 0x7FFF_FFFF,
            forall|v: &Vec<(usize, B)>| call_requires(pick_split, (v,)),
            forall|v: &Vec<(usize, B)>, out: (u8, usize)|
                call_ensures(pick_split, (v,), out) ==> out.0 < 3 && (v@.len() > 0 ==> out.1
                    < v@.len()),
            forall|v: Vec<(usize, B)>, ax: u8| call_requires(order_along, (v, ax)),
            forall|v: Vec<(usize, B)>, ax: u8, out: Vec<(usize, B)>|
                call_ensures(order_along, (v, ax), out) ==> out@.to_multiset() == v@.to_multiset()
                    && slot_seq(out@).to_multiset() == slot_seq(v@).to_multiset(),
            forall|v: &Vec<(usize, B)>| call_requires(unite_all, (v,)),
        ensures
            r.wf(),
            r.leaves == leaves,
            r.inners@.len() <= (if leaves@.len() == 0 {
                1int
            } else {
                2 * leaves@.len() - 1
            }),
            leaves@.len() == 0 ==> r.inners@.len() == 1
                && r.inners@[0].children[0].is_empty_leaf_ptr()
                && r.inners@[0].children[1].is_empty_leaf_ptr(),
            r.leaf_refs() == all_slots(leaves@.len() as int),
            subtree_refs_at_root(r.inners@, 0, all_slots(leaves@.len() as int)),
            exists|v: &Vec<(usize, B)>|
                v@ == indexed_boxes(boxes@) && #[trigger] call_ensures(unite_all, (v,), r.bbox),
            boxes_from_unite(
                unite_all,
                indexed_boxes(boxes@),
                empty_box,
                r.inners@,
                0,
                r.inners@.len() as int,
            ),
    {
        let n = leaves.len();
        let mut idx_boxes: Vec<(usize, B)> = Vec::new();
        let mut i: usize = 0;
        while i < n
            invariant
                n == leaves@.len() == boxes@.len(),
                i <= n,
                idx_boxes@.len() == i,
                forall|j: int| 0 <= j < i ==> (#[trigger] idx_boxes@[j]) == (j as usize, boxes@[j]),
            decreases n - i,
        {
            idx_boxes.push((i, boxes[i]));
            i += 1;
        }
        proof {
            assert(slot_seq(idx_boxes@) =~= Seq::new(n as nat, |k: int| k as nat));
            assert(idx_boxes@ =~= indexed_boxes(boxes@));
        }
        let ghost scene_list = idx_boxes;
        let bbox = unite_all(&idx_boxes);
        proof {
            assert(call_ensures(unite_all, (&scene_list,), bbox));
        }
        let mut inners: Vec<Node<B>> = Vec::new();
        let _ = construct(
            idx_boxes,
            &mut inners,
            n,
            pick_split,
            order_along,
            unite_all,
            empty_box,
        );
        let result = BVH { leaves, inners, bbox };
        proof {
            assert(call_ensures(unite_all, (&scene_list,), result.bbox));
            assert(scene_list@ == indexed_boxes(boxes@));
            assert(boxes_from_unite(
                unite_all,
                indexed_boxes(boxes@),
                empty_box,
                result.inners@,
                0,
                result.inners@.len() as int,
            ));
        }
        result
    }
}

/// The leaf slots named by a list of (slot, box) pairs, in order.
pub open spec fn slot_seq<B>(s: Seq<(usize, B)>) -> Seq<nat> {
    s.map_values(|p: (usize, B)| p.0 as nat)
}

proof fn lemma_slot_seq_concat<B>(a: Seq<(usize, B)>, b: Seq<(usize, B)>)
    ensures
        slot_seq(a + b) =~= slot_seq(a) + slot_seq(b),
{
}

/// Appends to `nodes` the subtree covering `leaves` (a list of leaf-slot
/// indices with their boxes) and returns the index of its root, which is
/// always the first appended node, so children always sit after their
/// parent.
///
/// The geometry is delegated: `pick_split` returns the cheapest splitting
/// axis and index by the surface-area heuristic; `order_along` sorts the
/// list by box centroid along an axis; `unite_all` computes the union box
/// of a list. When `pick_split` answers index 0 ("left empty, right
/// whole"), the heuristic has failed to discriminate, and the split is
/// forced to the middle of axis 0.
///
/// The contract pins the index shape of everything appended: the new
/// nodes are well-formed at their positions, and the leaf slots they
/// reference are exactly the input `leaves`, as a multiset.
pub fn construct<B, FS, FO, FU>(
    leaves: Vec<(usize, B)>,
    nodes: &mut Vec<Node<B>>,
    n_leaf_total: usize,
    pick_split: FS,
    order_along: FO,
    unite_all: FU,
    empty_box: B,
) -> (root: usize) where
    B: Copy,
    FS: Fn(&Vec<(usize, B)>) -> (u8, usize) + Copy,
    FO: Fn(Vec<(usize, B)>, u8) -> Vec<(usize, B)> + Copy,
    FU: Fn(&Vec<(usize, B)>) -> B + Copy,

    requires
        n_leaf_total <= 0x7FFF_FFFF,
        forall|i: int| 0 <= i < leaves@.len() ==> (#[trigger] leaves@[i]).0 < n_leaf_total,
        old(nodes)@.len() + 2 * leaves@.len() + 1 <= 0x7FFF_FFFF,
        forall|v: &Vec<(usize, B)>| call_requires(pick_split, (v,)),
        forall|v: &Vec<(usize, B)>, out: (u8, usize)|
            call_ensures(pick_split, (v,), out) ==> out.0 < 3 && (v@.len() > 0 ==> out.1
                < v@.len()),
        forall|v: Vec<(usize, B)>, ax: u8| call_requires(order_along, (v, ax)),
        forall|v: Vec<(usize, B)>, ax: u8, out: Vec<(usize, B)>|
            call_ensures(order_along, (v, ax), out) ==> out@.to_multiset() == v@.to_multiset()
                && slot_seq(out@).to_multiset() == slot_seq(v@).to_multiset(),
        forall|v: &Vec<(usize, B)>| call_requires(unite_all, (v,)),
    ensures
        root == old(nodes)@.len(),
        old(nodes)@.len() < final(nodes)@.len(),
        final(nodes)@.len() <= old(nodes)@.len() + (if leaves@.len() == 0 {
            1int
        } else {
            2 * leaves@.len() - 1
        }),
        forall|k: int| 0 <= k < old(nodes)@.len() ==> final(nodes)@[k] == old(nodes)@[k],
        forall|k: int|
            old(nodes)@.len() <= k < final(nodes)@.len() ==> node_wf(
                #[trigger] final(nodes)@[k],
                k,
                final(nodes)@.len() as int,
                n_leaf_total as int,
            ),
        leaf_refs_in_range(
            final(nodes)@,
            old(nodes)@.len() as int,
            final(nodes)@.len() as int,
        ) == slot_seq(leaves@).to_multiset(),
        subtree_refs_at_root(
            final(nodes)@,
            old(nodes)@.len() as int,
            slot_seq(leaves@).to_multiset(),
        ),
        leaves@.len() == 0 ==> final(nodes)@.len() == old(nodes)@.len() + 1
            && final(nodes)@[old(nodes)@.len() as int].children[0].is_empty_leaf_ptr()
            && final(nodes)@[old(nodes)@.len() as int].children[1].is_empty_leaf_ptr(),
        boxes_from_unite(
            unite_all,
            leaves@,
            empty_box,
            final(nodes)@,
            old(nodes)@.len() as int,
            final(nodes)@.len() as int,
        ),
    decreases leaves@.len(),
{
    broadcast use vstd::seq_lib::group_to_multiset_ensures;
    broadcast use vstd::multiset::group_multiset_axioms;

    let ghost leaves_view = leaves@;
    let n = leaves.len();
    let new_node_idx = nodes.len();
    nodes.push(
        Node {
            bboxes: [empty_box, empty_box],
            children: [NodePointer::empty_leaf(), NodePointer::empty_leaf()],
            axis: 0,
        },
    );
    if n == 0 {
        proof {
            assert(slot_seq(leaves_view) =~= Seq::<nat>::empty());
            lemma_leaf_refs_single(nodes@, new_node_idx as int);
            assert(node_leaf_refs(nodes@[new_node_idx as int]) =~= Multiset::<nat>::empty());
            lemma_to_multiset_of_empty::<nat>();
            lemma_single_node_subtree(nodes@, new_node_idx as int);
            assert forall|p: NodePointer|
                p.is_inner_ptr() && p.target_index() == new_node_idx as int
                implies #[trigger] subtree_leaf_refs(nodes@, p, nodes@.len() as int) == slot_seq(
                leaves_view,
            ).to_multiset() by {
                assert(subtree_leaf_refs(nodes@, p, new_node_idx + 1) == node_leaf_refs(
                    nodes@[new_node_idx as int],
                ));
            }
            assert forall|k: int, c: int|
                new_node_idx as int <= k < nodes@.len() && 0 <= c < 2 implies child_box_ok(
                unite_all,
                leaves_view,
                empty_box,
                nodes@,
                nodes@.len() as int,
                #[trigger] nodes@[k].children[c],
                nodes@[k].bboxes[c],
            ) by {
                assert(nodes@[k].children[c].is_empty_leaf_ptr());
                assert(nodes@[k].bboxes[c] == empty_box);
            }
        }
    } else if n == 1 {
        let head = leaves[0];
        let node = Node {
            bboxes: [head.1, empty_box],
            children: [NodePointer::new_leaf(head.0), NodePointer::empty_leaf()],
            axis: 0,
        };
        nodes[new_node_idx] = node;
        proof {
            lemma_leaf_refs_single(nodes@, new_node_idx as int);
            assert(node_leaf_refs(node) =~= Multiset::singleton(head.0 as nat));
            assert(slot_seq(leaves_view) =~= Seq::<nat>::empty().push(head.0 as nat));
            lemma_to_multiset_of_empty::<nat>();
            assert(Seq::<nat>::empty().push(head.0 as nat).to_multiset() =~= Multiset::singleton(
                head.0 as nat,
            ));
            lemma_single_node_subtree(nodes@, new_node_idx as int);
            assert forall|p: NodePointer|
                p.is_inner_ptr() && p.target_index() == new_node_idx as int
                implies #[trigger] subtree_leaf_refs(nodes@, p, nodes@.len() as int) == slot_seq(
                leaves_view,
            ).to_multiset() by {
                assert(subtree_leaf_refs(nodes@, p, new_node_idx + 1) == node_leaf_refs(
                    nodes@[new_node_idx as int],
                ));
            }
            assert forall|k: int, c: int|
                new_node_idx as int <= k < nodes@.len() && 0 <= c < 2 implies child_box_ok(
                unite_all,
                leaves_view,
                empty_box,
                nodes@,
                nodes@.len() as int,
                #[trigger] nodes@[k].children[c],
                nodes@[k].bboxes[c],
            ) by {
                if c == 0 {
                    assert(leaves_view[0] == head);
                    assert(nodes@[k].children[0].target_index() == head.0);
                    assert(nodes@[k].bboxes[0] == head.1);
                } else {
                    assert(nodes@[k].children[1].is_empty_leaf_ptr());
                    assert(nodes@[k].bboxes[1] == empty_box);
                }
            }
        }
    } else if n == 2 {
        let first = leaves[0];
        let second = leaves[1];
        let node = Node {
            bboxes: [first.1, second.1],
            children: [NodePointer::new_leaf(first.0), NodePointer::new_leaf(second.0)],
            axis: 0,
        };
        nodes[new_node_idx] = node;
        proof {
            lemma_leaf_refs_single(nodes@, new_node_idx as int);
            assert(slot_seq(leaves_view) =~= Seq::<nat>::empty().push(first.0 as nat).push(
                second.0 as nat,
            ));
            lemma_to_multiset_of_empty::<nat>();
            assert(node_leaf_refs(node) =~= Seq::<nat>::empty().push(first.0 as nat).push(
                second.0 as nat,
            ).to_multiset());
            lemma_single_node_subtree(nodes@, new_node_idx as int);
            assert forall|p: NodePointer|
                p.is_inner_ptr() && p.target_index() == new_node_idx as int
                implies #[trigger] subtree_leaf_refs(nodes@, p, nodes@.len() as int) == slot_seq(
                leaves_view,
            ).to_multiset() by {
                assert(subtree_leaf_refs(nodes@, p, new_node_idx + 1) == node_leaf_refs(
                    nodes@[new_node_idx as int],
                ));
            }
            assert forall|k: int, c: int|
                new_node_idx as int <= k < nodes@.len() && 0 <= c < 2 implies child_box_ok(
                unite_all,
                leaves_view,
                empty_box,
                nodes@,
                nodes@.len() as int,
                #[trigger] nodes@[k].children[c],
                nodes@[k].bboxes[c],
            ) by {
                if c == 0 {
                    assert(leaves_view[0] == first);
                    assert(nodes@[k].children[0].target_index() == first.0);
                    assert(nodes@[k].bboxes[0] == first.1);
                } else {
                    assert(leaves_view[1] == second);
                    assert(nodes@[k].children[1].target_index() == second.0);
                    assert(nodes@[k].bboxes[1] == second.1);
                }
            }
        }
    } else {
        let (ax0, idx0) = pick_split(&leaves);
        let (ax, idx) = if idx0 == 0 {
            (0u8, n / 2)
        } else {
            (ax0, idx0)
        };
        let mut ordered = order_along(leaves, ax);
        let ghost ordered_view = ordered@;
        proof {
            vstd::seq_lib::to_multiset_len::<nat>(slot_seq(ordered_view));
            vstd::seq_lib::to_multiset_len::<nat>(slot_seq(leaves_view));
        }
        let right = ordered.split_off(idx);
        let left = ordered;
        let ghost left_list = left;
        let ghost right_list = right;
        let ghost left_view = left@;
        let ghost right_view = right@;
        proof {
            assert(left_view + right_view =~= ordered_view);
            lemma_slot_seq_concat(left_view, right_view);
            lemma_multiset_commutative(slot_seq(left_view), slot_seq(right_view));
            lemma_leaf_slots_bounded(left_view, right_view, leaves_view, n_leaf_total as int);
        }
        let left_box = unite_all(&left);
        let right_box = unite_all(&right);
        let left_root = construct(
            left,
            nodes,
            n_leaf_total,
            pick_split,
            order_along,
            unite_all,
            empty_box,
        );
        let ghost nodes_after_left = nodes@;
        let right_root = construct(
            right,
            nodes,
            n_leaf_total,
            pick_split,
            order_along,
            unite_all,
            empty_box,
        );
        let ghost nodes_after_right = nodes@;
        let node = Node {
            bboxes: [left_box, right_box],
            children: [NodePointer::new_inner(left_root), NodePointer::new_inner(right_root)],
            axis: ax,
        };
        nodes[new_node_idx] = node;
        proof {
            let fin = nodes@;
            let base = new_node_idx as int;
            let after_left = nodes_after_left.len() as int;
            let total = fin.len() as int;
            assert(leaf_refs_in_range(fin, base + 1, after_left) == leaf_refs_in_range(
                nodes_after_left,
                base + 1,
                after_left,
            )) by {
                lemma_leaf_refs_agree(fin, nodes_after_left, base + 1, after_left);
            }
            assert(leaf_refs_in_range(fin, after_left, total) == leaf_refs_in_range(
                nodes_after_right,
                after_left,
                total,
            )) by {
                lemma_leaf_refs_agree(fin, nodes_after_right, after_left, total);
            }
            lemma_leaf_refs_split(fin, base + 1, after_left, total);
            lemma_leaf_refs_split(fin, base, base + 1, total);
            lemma_leaf_refs_single(fin, base);
            assert(node_leaf_refs(node) =~= Multiset::<nat>::empty());
            assert(Multiset::<nat>::empty().add(
                slot_seq(left_view).to_multiset().add(slot_seq(right_view).to_multiset()),
            ) =~= slot_seq(left_view).to_multiset().add(slot_seq(right_view).to_multiset()));
            let nl = n_leaf_total as int;
            assert forall|k: int| base <= k < total implies node_wf(
                #[trigger] fin[k],
                k,
                total,
                nl,
            ) by {
                if base + 1 <= k < after_left {
                    assert(fin[k] == nodes_after_left[k]);
                    assert(node_wf(nodes_after_left[k], k, after_left, nl));
                } else if after_left <= k {
                    assert(fin[k] == nodes_after_right[k]);
                    assert(node_wf(nodes_after_right[k], k, total, nl));
                }
            }
            lemma_wf_range_forward(fin, base, total, nl);
            assert forall|k: int| base + 1 <= k < after_left implies node_wf(
                #[trigger] nodes_after_left[k],
                k,
                after_left,
                nl,
            ) by {}
            lemma_wf_range_forward(nodes_after_left, base + 1, after_left, nl);
            assert forall|k: int| after_left <= k < total implies node_wf(
                #[trigger] nodes_after_right[k],
                k,
                total,
                nl,
            ) by {}
            lemma_wf_range_forward(nodes_after_right, after_left, total, nl);
            assert(forward_between(fin, base + 1, total)) by {
                assert(forall|k: int|
                    base + 1 <= k < total ==> node_forward(#[trigger] fin[k], k, total));
            }
            assert(forward_between(fin, after_left, total)) by {
                assert(forall|k: int|
                    after_left <= k < total ==> node_forward(#[trigger] fin[k], k, total));
            }
            let p_left = node.children[0];
            let p_right = node.children[1];
            lemma_subtree_refs_agree(nodes_after_left, fin, p_left, base + 1, after_left, total);
            lemma_subtree_refs_agree(nodes_after_right, fin, p_right, after_left, total, total);
            assert(subtree_leaf_refs(nodes_after_left, p_left, nodes_after_left.len() as int)
                == slot_seq(left_view).to_multiset());
            assert(subtree_leaf_refs(nodes_after_right, p_right, nodes_after_right.len() as int)
                == slot_seq(right_view).to_multiset());
            assert forall|p: NodePointer|
                p.is_inner_ptr() && p.target_index() == new_node_idx as int
                implies #[trigger] subtree_leaf_refs(nodes@, p, nodes@.len() as int) == slot_seq(
                leaves_view,
            ).to_multiset() by {
                assert(subtree_leaf_refs(fin, p, total) == subtree_leaf_refs(
                    fin,
                    p_left,
                    total,
                ).add(subtree_leaf_refs(fin, p_right, total)));
            }
            assert((left_view + right_view).to_multiset() == leaves_view.to_multiset());
            lemma_pairs_carried(left_view, right_view, leaves_view);
            assert(call_ensures(unite_all, (&left_list,), left_box));
            assert(call_ensures(unite_all, (&right_list,), right_box));
            assert forall|k: int, c: int|
                base <= k < total && 0 <= c < 2 implies child_box_ok(
                unite_all,
                leaves_view,
                empty_box,
                fin,
                total,
                #[trigger] fin[k].children[c],
                fin[k].bboxes[c],
            ) by {
                let ptr = fin[k].children[c];
                let bx = fin[k].bboxes[c];
                crate::node_pointer::lemma_empty_leaf_is_leaf(ptr);
                if k == base {
                    if c == 0 {
                        assert(ptr == p_left && bx == left_box);
                        assert(slot_seq(left_list@).to_multiset() == subtree_leaf_refs(
                            fin,
                            p_left,
                            total,
                        ));
                    } else {
                        assert(ptr == p_right && bx == right_box);
                        assert(slot_seq(right_list@).to_multiset() == subtree_leaf_refs(
                            fin,
                            p_right,
                            total,
                        ));
                    }
                } else if k < after_left {
                    assert(fin[k] == nodes_after_left[k]);
                    assert(child_box_ok(
                        unite_all,
                        left_view,
                        empty_box,
                        nodes_after_left,
                        after_left,
                        nodes_after_left[k].children[c],
                        nodes_after_left[k].bboxes[c],
                    ));
                    if ptr.is_empty_leaf_ptr() {
                    } else if ptr.is_leaf_ptr() {
                        let j1 = choose|j: int|
                            0 <= j < left_view.len() && left_view[j].0 == ptr.target_index()
                                && left_view[j].1 == bx;
                        assert(leaves_view.contains(left_view[j1]));
                        let j2 = choose|j: int|
                            0 <= j < leaves_view.len() && leaves_view[j] == left_view[j1];
                        assert(0 <= j2 < leaves_view.len() && leaves_view[j2].0
                            == ptr.target_index() && leaves_view[j2].1 == bx);
                    } else {
                        assert(node_wf(nodes_after_left[k], k, after_left, nl));
                        let v = choose|v: &Vec<(usize, B)>|
                            call_ensures(unite_all, (v,), bx) && slot_seq(v@).to_multiset()
                                == subtree_leaf_refs(nodes_after_left, ptr, after_left);
                        lemma_subtree_refs_agree(
                            nodes_after_left,
                            fin,
                            ptr,
                            base + 1,
                            after_left,
                            total,
                        );
                        assert(call_ensures(unite_all, (v,), bx) && slot_seq(v@).to_multiset()
                            == subtree_leaf_refs(fin, ptr, total));
                    }
                } else {
                    assert(fin[k] == nodes_after_right[k]);
                    assert(child_box_ok(
                        unite_all,
                        right_view,
                        empty_box,
                        nodes_after_right,
                        total,
                        nodes_after_right[k].children[c],
                        nodes_after_right[k].bboxes[c],
                    ));
                    if ptr.is_empty_leaf_ptr() {
                    } else if ptr.is_leaf_ptr() {
                        let j1 = choose|j: int|
                            0 <= j < right_view.len() && right_view[j].0 == ptr.target_index()
                                && right_view[j].1 == bx;
                        assert(leaves_view.contains(right_view[j1]));
                        let j2 = choose|j: int|
                            0 <= j < leaves_view.len() && leaves_view[j] == right_view[j1];
                        assert(0 <= j2 < leaves_view.len() && leaves_view[j2].0
                            == ptr.target_index() && leaves_view[j2].1 == bx);
                    } else {
                        assert(node_wf(nodes_after_right[k], k, total, nl));
                        let v = choose|v: &Vec<(usize, B)>|
                            call_ensures(unite_all, (v,), bx) && slot_seq(v@).to_multiset()
                                == subtree_leaf_refs(nodes_after_right, ptr, total);
                        lemma_subtree_refs_agree(
                            nodes_after_right,
                            fin,
                            ptr,
                            after_left,
                            total,
                            total,
                        );
                        assert(call_ensures(unite_all, (v,), bx) && slot_seq(v@).to_multiset()
                            == subtree_leaf_refs(fin, ptr, total));
                    }
                }
            }
        }
    }
    proof {
        assert(boxes_from_unite(
            unite_all,
            leaves_view,
            empty_box,
            nodes@,
            old(nodes)@.len() as int,
            nodes@.len() as int,
        )) by {
            assert forall|k: int, c: int|
                old(nodes)@.len() as int <= k < nodes@.len() && 0 <= c < 2 implies child_box_ok(
                unite_all,
                leaves_view,
                empty_box,
                nodes@,
                nodes@.len() as int,
                #[trigger] nodes@[k].children[c],
                nodes@[k].bboxes[c],
            ) by {
                assert(child_box_ok(
                    unite_all,
                    leaves_view,
                    empty_box,
                    nodes@,
                    nodes@.len() as int,
                    nodes@[k].children[c],
                    nodes@[k].bboxes[c],
                ));
            }
        }
        assert(subtree_refs_at_root(
            nodes@,
            old(nodes)@.len() as int,
            slot_seq(leaves_view).to_multiset(),
        )) by {
            assert forall|p: NodePointer|
                p.is_inner_ptr() && p.target_index() == old(nodes)@.len()
                implies #[trigger] subtree_leaf_refs(nodes@, p, nodes@.len() as int) == slot_seq(
                leaves_view,
            ).to_multiset() by {
                assert(subtree_leaf_refs(nodes@, p, nodes@.len() as int) == slot_seq(
                    leaves_view,
                ).to_multiset());
            }
        }
    }
    new_node_idx
}

/// A one-node range contributes exactly that node's leaf references.
proof fn lemma_leaf_refs_single<B>(inners: Seq<Node<B>>, k: int)
    ensures
        leaf_refs_in_range(inners, k, k + 1) =~= node_leaf_refs(inners[k]),
{
    broadcast use vstd::multiset::group_multiset_axioms;

    assert(leaf_refs_in_range(inners, k, k) =~= Multiset::<nat>::empty());
}

/// An empty sequence has an empty multiset.
proof fn lemma_to_multiset_of_empty<A>()
    ensures
        Seq::<A>::empty().to_multiset() =~= Multiset::<A>::empty(),
{
    broadcast use vstd::seq_lib::group_to_multiset_ensures;

    let s = Seq::<A>::empty();
    assert forall|a: A| s.to_multiset().count(a) == 0 by {
        assert(!s.contains(a));
    }
}

/// Two claims about the references below the same root agree.
pub proof fn lemma_same_root_same_refs<B>(
    inners: Seq<Node<B>>,
    m1: Multiset<nat>,
    m2: Multiset<nat>,
)
    requires
        subtree_refs_at_root(inners, 0, m1),
        subtree_refs_at_root(inners, 0, m2),
    ensures
        m1 == m2,
{
    crate::node_pointer::lemma_root_ptr_exists();
    let p = choose|p: NodePointer| p.is_inner_ptr() && p.target_index() == 0;
    assert(subtree_leaf_refs(inners, p, inners.len() as int) == m1);
    assert(subtree_leaf_refs(inners, p, inners.len() as int) == m2);
}

/// Every slot named in the two halves of a reordering of `orig` is a
/// slot named in `orig`, hence below the common bound.
proof fn lemma_leaf_slots_bounded<B>(
    left: Seq<(usize, B)>,
    right: Seq<(usize, B)>,
    orig: Seq<(usize, B)>,
    bound: int,
)
    requires
        slot_seq(left + right).to_multiset() == slot_seq(orig).to_multiset(),
        forall|i: int| 0 <= i < orig.len() ==> (#[trigger] orig[i]).0 < bound,
    ensures
        forall|i: int| 0 <= i < left.len() ==> (#[trigger] left[i]).0 < bound,
        forall|i: int| 0 <= i < right.len() ==> (#[trigger] right[i]).0 < bound,
{
    broadcast use vstd::seq_lib::group_to_multiset_ensures;

    let both = left + right;
    assert forall|i: int| 0 <= i < both.len() implies (#[trigger] both[i]).0 < bound by {
        assert(slot_seq(both)[i] == both[i].0 as nat);
        assert(slot_seq(both).contains(both[i].0 as nat));
        assert(slot_seq(both).to_multiset().count(both[i].0 as nat) > 0);
        assert(slot_seq(orig).to_multiset().count(both[i].0 as nat) > 0);
        assert(slot_seq(orig).contains(both[i].0 as nat));
        let j = choose|j: int|
            0 <= j < slot_seq(orig).len() && slot_seq(orig)[j] == both[i].0 as nat;
        assert(orig[j].0 < bound);
    }
    assert forall|i: int| 0 <= i < left.len() implies (#[trigger] left[i]).0 < bound by {
        assert(both[i] == left[i]);
    }
    assert forall|i: int| 0 <= i < right.len() implies (#[trigger] right[i]).0 < bound by {
        assert(both[left.len() + i] == right[i]);
    }
}

} // verus!
