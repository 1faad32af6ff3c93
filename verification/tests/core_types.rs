use ray::empty::Empty;
use ray::node_pointer::NodePointer;
use ray::node_stack::NodeStack;
use ray::obj_file::ObjFace;
use ray::obj_file::ObjVertex;
use ray::obvh::pack_lane_mask;

#[test]
fn root_pointer_is_inner_zero() {
    let p = NodePointer::root();
    assert!(p.is_inner());
    assert!(!p.is_leaf());
    assert!(!p.is_empty_leaf());
    assert_eq!(p.index(), 0);
}

#[test]
fn leaf_pointer_round_trip() {
    let p = NodePointer::new_leaf(12345);
    assert!(p.is_leaf());
    assert!(!p.is_inner());
    assert!(!p.is_empty_leaf());
    assert_eq!(p.index(), 12345);
    let q = NodePointer::new_inner(7);
    assert!(q.is_inner());
    assert_eq!(q.index(), 7);
    let r = NodePointer::new(true, 0x7FFF_FFFE);
    assert!(r.is_leaf());
    assert_eq!(r.index(), 0x7FFF_FFFE);
}

#[test]
fn empty_leaf_is_leaf() {
    // The sentinel must test as a leaf so that leaf handling subsumes it.
    let p = NodePointer::empty_leaf();
    assert!(p.is_empty_leaf());
    assert!(p.is_leaf());
    assert!(!p.is_inner());
}

#[test]
fn node_stack_is_last_in_first_out() {
    let mut stack = NodeStack::empty();
    assert!(stack.is_empty());
    assert_eq!(stack.len(), 0);
    stack.push(NodePointer::new_leaf(1));
    stack.push(NodePointer::new_inner(2));
    stack.push(NodePointer::new_leaf(3));
    assert_eq!(stack.len(), 3);
    let a = stack.pop();
    assert!(a.is_leaf());
    assert_eq!(a.index(), 3);
    let b = stack.pop();
    assert!(b.is_inner());
    assert_eq!(b.index(), 2);
    let c = stack.pop();
    assert!(c.is_leaf());
    assert_eq!(c.index(), 1);
    assert!(stack.is_empty());
}

#[test]
fn node_stack_holds_its_capacity() {
    let mut stack = NodeStack::empty();
    let mut i: usize = 0;
    while i < 64 {
        stack.push(NodePointer::new_leaf(i));
        i += 1;
    }
    assert_eq!(stack.len(), 64);
    let top = stack.pop();
    assert_eq!(top.index(), 63);
}

#[test]
fn load_and_movemask_order_compatibility() {
    let vec_a: f32 = 0.0;
    let b_arr: [f32; 8] = [4.0, 3.0, 2.0, 1.0, 0.0, -1.0, -2.0, -3.0];
    let mut flags: [bool; 8] = [false; 8];
    let mut i: usize = 0;
    while i < 8 {
        // Ordered comparison: NaN lanes come out false (a miss).
        flags[i] = vec_a <= b_arr[i];
        i += 1;
    }
    let movemask = pack_lane_mask(&flags);
    assert!(movemask == 0b00011111);
}

#[test]
fn lane_mask_edges() {
    assert_eq!(pack_lane_mask(&[false; 8]), 0);
    assert_eq!(pack_lane_mask(&[true; 8]), 255);
    let nan: f32 = f32::NAN;
    // A NaN lane evaluates to a miss under the ordered comparison.
    let flags: [bool; 8] = [0.0 <= nan, true, false, false, false, false, false, false];
    assert_eq!(pack_lane_mask(&flags), 0b0000_0010);
}

#[test]
fn empty_hitable_builds() {
    let e = Empty::new();
    assert!(e == Empty::new());
}

#[test]
fn face_fan_triangulation_indices() {
    // A quad with corners 10, 11, 12, 13 splits into triangles
    // (10, 11, 12) and (10, 12, 13).
    let corners = vec![
        ObjVertex { vertex: 10, tex_coord: None, normal: Some(0) },
        ObjVertex { vertex: 11, tex_coord: Some(1), normal: None },
        ObjVertex { vertex: 12, tex_coord: None, normal: None },
        ObjVertex { vertex: 13, tex_coord: None, normal: None },
    ];
    let face = ObjFace::new(corners);
    assert_eq!(face.vertex_indices_for_triangle(0), (10, 11, 12));
    assert_eq!(face.vertex_indices_for_triangle(1), (10, 12, 13));
}
