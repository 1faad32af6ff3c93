use ray::bvh::BVH;
use ray::node_pointer::NodePointer;
use ray::node_stack::NodeStack;
use ray::obvh::Node;
use ray::obvh::OBVH;

fn pick_mid(v: &Vec<(usize, ())>) -> (u8, usize) {
    (0, v.len() / 2)
}

fn sort_id(v: Vec<(usize, ())>, _axis: u8) -> Vec<(usize, ())> {
    v
}

fn unite_unit(_v: &Vec<(usize, ())>) {}

fn build_unit_bvh(n: usize) -> BVH<(), u32> {
    let mut leaves: Vec<u32> = Vec::new();
    let mut boxes: Vec<()> = Vec::new();
    let mut i: usize = 0;
    while i < n {
        leaves.push(i as u32);
        boxes.push(());
        i += 1;
    }
    BVH::new(leaves, boxes, pick_mid, sort_id, unite_unit, ())
}

fn leaf_indices_of_bvh(bvh: &BVH<(), u32>) -> Vec<usize> {
    let mut out: Vec<usize> = Vec::new();
    for node in &bvh.inners {
        for c in 0..2usize {
            let p = node.children[c];
            if p.is_leaf() && !p.is_empty_leaf() {
                out.push(p.index());
            }
            if p.is_inner() {
                assert!(p.index() < bvh.inners.len());
            }
        }
    }
    out.sort();
    out
}

fn leaf_indices_of_obvh(obvh: &OBVH<(), u32>) -> Vec<usize> {
    let mut out: Vec<usize> = Vec::new();
    for node in &obvh.inners {
        for c in 0..8usize {
            let p = node.children[c];
            if p.is_leaf() && !p.is_empty_leaf() {
                out.push(p.index());
            }
            if p.is_inner() {
                assert!(p.index() < obvh.inners.len());
            }
        }
    }
    out.sort();
    out
}

#[test]
fn bvh_references_each_leaf_once() {
    for n in [0usize, 1, 2, 3, 5, 8, 13, 100] {
        let bvh = build_unit_bvh(n);
        assert!(bvh.inners.len() >= 1);
        let got = leaf_indices_of_bvh(&bvh);
        let expected: Vec<usize> = (0..n).collect();
        assert_eq!(got, expected);
    }
}

#[test]
fn empty_scene_builds_sentinel_root() {
    let bvh = build_unit_bvh(0);
    assert_eq!(bvh.inners.len(), 1);
    assert!(bvh.inners[0].children[0].is_empty_leaf());
    assert!(bvh.inners[0].children[1].is_empty_leaf());
    let obvh = OBVH::from_bvh(bvh, ()).unwrap();
    assert_eq!(obvh.inners.len(), 1);
    for c in 0..8usize {
        assert!(obvh.inners[0].children[c].is_empty_leaf());
    }
}

#[test]
fn flattening_preserves_the_leaf_set() {
    for n in [1usize, 2, 3, 5, 8, 13, 64, 100] {
        let bvh = build_unit_bvh(n);
        let expected = leaf_indices_of_bvh(&bvh);
        let obvh = OBVH::from_bvh(bvh, ()).unwrap();
        let got = leaf_indices_of_obvh(&obvh);
        assert_eq!(got, expected);
        let full: Vec<usize> = (0..n).collect();
        assert_eq!(got, full);
    }
}

fn pick_degenerate(_v: &Vec<(usize, ())>) -> (u8, usize) {
    // "Left empty, right whole is cheapest": the build must fall back to
    // a middle split on axis 0 instead of recursing forever.
    (2, 0)
}

#[test]
fn degenerate_split_falls_back_to_middle() {
    let mut leaves: Vec<u32> = Vec::new();
    let mut boxes: Vec<()> = Vec::new();
    let mut i: usize = 0;
    while i < 9 {
        leaves.push(i as u32);
        boxes.push(());
        i += 1;
    }
    let bvh = BVH::new(leaves, boxes, pick_degenerate, sort_id, unite_unit, ());
    let got = leaf_indices_of_bvh(&bvh);
    let expected: Vec<usize> = (0..9).collect();
    assert_eq!(got, expected);
    let root = &bvh.inners[0];
    assert_eq!(root.axis, 0);
    assert!(root.children[0].is_inner());
    assert!(root.children[1].is_inner());
}

#[test]
fn collapse_assigns_slots_by_path() {
    // Eight leaves under a middle-split build collapse into one wide
    // node; slot bits encode the path, bit value 1 taking the left
    // (lower) half at each of the three levels.
    let bvh = build_unit_bvh(8);
    let obvh = OBVH::from_bvh(bvh, ()).unwrap();
    assert_eq!(obvh.inners.len(), 1);
    for c in 0..8usize {
        let p = obvh.inners[0].children[c];
        assert!(p.is_leaf() && !p.is_empty_leaf());
        let expected = 4 * (1 - (c & 1)) + 2 * (1 - ((c >> 1) & 1)) + (1 - ((c >> 2) & 1));
        assert_eq!(p.index(), expected);
    }
}

#[test]
fn node_formatting() {
    let node: Node<()> = Node {
        bboxes: [(); 8],
        children: [NodePointer::empty_leaf(); 8],
        axis_bits_0: 0,
        axis_bits_1: 0,
    };
    println!("{:?}", node);
}

#[test]
fn axis_bits_packing() {
    let mut node: Node<()> = Node {
        bboxes: [(); 8],
        children: [NodePointer::empty_leaf(); 8],
        axis_bits_0: 1,
        axis_bits_1: 1,
    };
    node.calc_axis_bits(0, [2, 2], [0, 0, 0, 0]);
    assert_eq!(
        node.axis_bits_0,
        0b0000000000000000000000000000000000000000000000000000000000000000
    );
    assert_eq!(
        node.axis_bits_1,
        0b0000001000000010000000100000001000000010000000100000001000000010
    );
}

fn traverse_priority_answer(
    top_axis: usize,
    child_axis: &[usize; 2],
    gson_axis: &[usize; 4],
    ray_is_pos: &[usize; 3],
    child_id: u8,
    depth: i32,
    priorities: &mut [u8; 8],
    count: &mut u8,
) {
    if depth == 3 {
        priorities[child_id as usize] = 7 - *count;
        *count += 1;
    } else {
        let left_first = if depth == 0 {
            ray_is_pos[top_axis] == 1
        } else if depth == 1 {
            ray_is_pos[child_axis[(child_id % 2) as usize]] == 1
        } else {
            assert_eq!(depth, 2);
            ray_is_pos[gson_axis[(child_id % 4) as usize]] == 1
        };
        let mut first_child_id = child_id | (1u8 << depth);
        let mut second_child_id = child_id;
        if !left_first {
            std::mem::swap(&mut first_child_id, &mut second_child_id);
        }
        traverse_priority_answer(
            top_axis,
            child_axis,
            gson_axis,
            ray_is_pos,
            first_child_id,
            depth + 1,
            priorities,
            count,
        );
        traverse_priority_answer(
            top_axis,
            child_axis,
            gson_axis,
            ray_is_pos,
            second_child_id,
            depth + 1,
            priorities,
            count,
        );
    }
}

#[test]
fn traverse_priority() {
    for top_axis_0 in 0..3usize {
        for child_axis_0 in 0..3usize {
            for child_axis_1 in 0..3usize {
                for gson_axis_0 in 0..3usize {
                    for gson_axis_1 in 0..3usize {
                        for gson_axis_2 in 0..3usize {
                            for gson_axis_3 in 0..3usize {
                                for ray_is_pos_x in 0..2usize {
                                    for ray_is_pos_y in 0..2usize {
                                        for ray_is_pos_z in 0..2usize {
                                            let mut node: Node<()> = Node {
                                                bboxes: [(); 8],
                                                children: [NodePointer::empty_leaf(); 8],
                                                axis_bits_0: 0,
                                                axis_bits_1: 0,
                                            };
                                            node.calc_axis_bits(
                                                top_axis_0 as u8,
                                                [child_axis_0 as u8, child_axis_1 as u8],
                                                [
                                                    gson_axis_0 as u8,
                                                    gson_axis_1 as u8,
                                                    gson_axis_2 as u8,
                                                    gson_axis_3 as u8,
                                                ],
                                            );
                                            let res = node.calc_traverse_priority(&[
                                                ray_is_pos_x,
                                                ray_is_pos_y,
                                                ray_is_pos_z,
                                            ]);
                                            let mut ans = [0u8; 8];
                                            traverse_priority_answer(
                                                top_axis_0,
                                                &[child_axis_0, child_axis_1],
                                                &[
                                                    gson_axis_0,
                                                    gson_axis_1,
                                                    gson_axis_2,
                                                    gson_axis_3,
                                                ],
                                                &[ray_is_pos_x, ray_is_pos_y, ray_is_pos_z],
                                                0,
                                                0,
                                                &mut ans,
                                                &mut 0,
                                            );
                                            for i in 0..8usize {
                                                assert_eq!(ans[i], (res >> (i * 8)) as u8);
                                            }
                                        }
                                    }
                                }
                            }
                        }
                    }
                }
            }
        }
    }
}

#[test]
fn priorities_for_axis_aligned_positive_ray() {
    // All seven axes 0 and a ray positive along every axis: the child
    // whose path goes left at every branch point (slot 7) is nearest.
    let mut node: Node<()> = Node {
        bboxes: [(); 8],
        children: [NodePointer::empty_leaf(); 8],
        axis_bits_0: 0,
        axis_bits_1: 0,
    };
    node.calc_axis_bits(0, [0, 0], [0, 0, 0, 0]);
    let res = node.calc_traverse_priority(&[1, 1, 1]);
    assert_eq!((res >> 56) as u8, 7);
    assert_eq!(res as u8, 0);
    for c in 0..8usize {
        let expected = 4 * (c & 1) + 2 * ((c >> 1) & 1) + ((c >> 2) & 1);
        assert_eq!((res >> (8 * c)) as u8 as usize, expected);
    }
}

#[test]
fn hit_children_pop_nearest_first() {
    let mut node: Node<()> = Node {
        bboxes: [(); 8],
        children: [NodePointer::empty_leaf(); 8],
        axis_bits_0: 0,
        axis_bits_1: 0,
    };
    for c in 0..8usize {
        node.children[c] = NodePointer::new_leaf(c);
    }
    node.calc_axis_bits(0, [0, 0], [0, 0, 0, 0]);
    let pri = node.calc_traverse_priority(&[1, 1, 1]);

    // All eight children hit: they pop in descending priority.
    let mut stack = NodeStack::empty();
    node.push_hit_children(&mut stack, 0xFF, pri);
    assert_eq!(stack.len(), 8);
    let mut popped: Vec<usize> = Vec::new();
    while !stack.is_empty() {
        popped.push(stack.pop().index());
    }
    assert_eq!(popped, vec![7, 3, 5, 1, 6, 2, 4, 0]);

    // Only slots 0 and 7 hit: the nearest (7) pops first.
    let mut stack = NodeStack::empty();
    node.push_hit_children(&mut stack, 0b1000_0001, pri);
    assert_eq!(stack.len(), 2);
    assert_eq!(stack.pop().index(), 7);
    assert_eq!(stack.pop().index(), 0);
    assert!(stack.is_empty());
}
