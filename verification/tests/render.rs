// End-to-end scenarios: real box geometry drives the verified build,
// flattening and traversal order, and both trees must report the same
// closest hit.

use ray::bvh::BVH;
use ray::node_pointer::NodePointer;
use ray::node_stack::{NodeStack, NODE_STACK_UPPER_BOUND};
use ray::obvh::{pack_lane_mask, OBVH};

#[derive(Clone, Copy, Debug)]
struct Boxf {
    min: [f32; 3],
    max: [f32; 3],
}

impl Boxf {
    fn empty() -> Self {
        Boxf { min: [f32::INFINITY; 3], max: [f32::NEG_INFINITY; 3] }
    }

    fn unite(a: &Boxf, b: &Boxf) -> Boxf {
        let mut r = Boxf::empty();
        for i in 0..3 {
            r.min[i] = a.min[i].min(b.min[i]);
            r.max[i] = a.max[i].max(b.max[i]);
        }
        r
    }

    fn area(&self) -> f32 {
        if self.min[0] > self.max[0] {
            return 0.0;
        }
        let d = [
            self.max[0] - self.min[0],
            self.max[1] - self.min[1],
            self.max[2] - self.min[2],
        ];
        2.0 * (d[0] * d[1] + d[1] * d[2] + d[2] * d[0])
    }

    fn center(&self, axis: usize) -> f32 {
        0.5 * (self.min[axis] + self.max[axis])
    }

    fn hit(&self, origin: &[f32; 3], direction: &[f32; 3], t_min: f32, t_max: f32) -> bool {
        let mut lo = t_min;
        let mut hi = t_max;
        for a in 0..3 {
            let inv_d = 1.0 / direction[a];
            let mut t0 = (self.min[a] - origin[a]) * inv_d;
            let mut t1 = (self.max[a] - origin[a]) * inv_d;
            if inv_d < 0.0 {
                std::mem::swap(&mut t0, &mut t1);
            }
            lo = f32::max(lo, t0);
            hi = f32::min(hi, t1);
            if lo > hi {
                return false;
            }
        }
        true
    }
}

trait Prim {
    fn bounding_box(&self) -> Boxf;
    fn hit(&self, origin: &[f32; 3], direction: &[f32; 3], t_min: f32, t_max: f32) -> Option<f32>;
}

#[derive(Clone, Copy)]
struct SphereF {
    center: [f32; 3],
    radius: f32,
}

impl Prim for SphereF {
    fn bounding_box(&self) -> Boxf {
        Boxf {
            min: [
                self.center[0] - self.radius,
                self.center[1] - self.radius,
                self.center[2] - self.radius,
            ],
            max: [
                self.center[0] + self.radius,
                self.center[1] + self.radius,
                self.center[2] + self.radius,
            ],
        }
    }

    fn hit(&self, origin: &[f32; 3], direction: &[f32; 3], t_min: f32, t_max: f32) -> Option<f32> {
        let oc = [
            origin[0] - self.center[0],
            origin[1] - self.center[1],
            origin[2] - self.center[2],
        ];
        let dot = |x: &[f32; 3], y: &[f32; 3]| x[0] * y[0] + x[1] * y[1] + x[2] * y[2];
        let a = dot(direction, direction);
        let b = dot(&oc, direction);
        let c = dot(&oc, &oc) - self.radius * self.radius;
        let disc = b * b - a * c;
        if disc <= 0.0 {
            return None;
        }
        let sqrt_d = disc.sqrt();
        for t in [(-b - sqrt_d) / a, (-b + sqrt_d) / a] {
            if t_min < t && t < t_max {
                return Some(t);
            }
        }
        None
    }
}

fn pick_split(v: &Vec<(usize, Boxf)>) -> (u8, usize) {
    let mut min_axis = 0u8;
    let mut min_idx = 0usize;
    let mut min_cost = f32::MAX;
    let mut sorted = v.clone();
    for axis in 0..3usize {
        sorted.sort_unstable_by(|a, b| {
            a.1.center(axis).partial_cmp(&b.1.center(axis)).unwrap_or(std::cmp::Ordering::Equal)
        });
        let n = sorted.len();
        let mut areas = vec![(0.0f32, 0.0f32); n + 1];
        let mut front = Boxf::empty();
        let mut back = Boxf::empty();
        for i in 0..n {
            front = Boxf::unite(&front, &sorted[i].1);
            back = Boxf::unite(&back, &sorted[n - i - 1].1);
            areas[i + 1].0 = front.area();
            areas[n - (i + 1)].1 = back.area();
        }
        for i in 0..n {
            let cost = areas[i].0 * i as f32 + areas[i].1 * (n - i) as f32;
            if cost < min_cost {
                min_axis = axis as u8;
                min_idx = i;
                min_cost = cost;
            }
        }
    }
    (min_axis, min_idx)
}

fn order_along(mut v: Vec<(usize, Boxf)>, axis: u8) -> Vec<(usize, Boxf)> {
    v.sort_unstable_by(|a, b| {
        a.1.center(axis as usize)
            .partial_cmp(&b.1.center(axis as usize))
            .unwrap_or(std::cmp::Ordering::Equal)
    });
    v
}

fn unite_all(v: &Vec<(usize, Boxf)>) -> Boxf {
    let mut r = Boxf::empty();
    for (_, b) in v {
        r = Boxf::unite(&r, b);
    }
    r
}

fn build<P: Prim>(prims: Vec<P>) -> BVH<Boxf, P> {
    let boxes: Vec<Boxf> = prims.iter().map(|p| p.bounding_box()).collect();
    BVH::new(prims, boxes, pick_split, order_along, unite_all, Boxf::empty())
}

fn bvh_hit_core<P: Prim>(
    bvh: &BVH<Boxf, P>,
    bbox: &Boxf,
    ptr: NodePointer,
    origin: &[f32; 3],
    direction: &[f32; 3],
    t_min: f32,
    t_max: f32,
) -> Option<f32> {
    if !bbox.hit(origin, direction, t_min, t_max) {
        None
    } else if ptr.is_leaf() {
        if ptr.is_empty_leaf() {
            None
        } else {
            bvh.leaves[ptr.index()].hit(origin, direction, t_min, t_max)
        }
    } else {
        let node = &bvh.inners[ptr.index()];
        let dir_sign = [
            (direction[0] >= 0.0) as usize,
            (direction[1] >= 0.0) as usize,
            (direction[2] >= 0.0) as usize,
        ];
        let prior = node.prior_child(&dir_sign);
        let first = bvh_hit_core(
            bvh,
            &node.bboxes[prior],
            node.children[prior],
            origin,
            direction,
            t_min,
            t_max,
        );
        let limit = first.unwrap_or(t_max);
        let second = bvh_hit_core(
            bvh,
            &node.bboxes[1 - prior],
            node.children[1 - prior],
            origin,
            direction,
            t_min,
            limit,
        );
        second.or(first)
    }
}

fn bvh_hit<P: Prim>(
    bvh: &BVH<Boxf, P>,
    origin: &[f32; 3],
    direction: &[f32; 3],
    t_min: f32,
    t_max: f32,
) -> Option<f32> {
    bvh_hit_core(bvh, &bvh.bbox, NodePointer::root(), origin, direction, t_min, t_max)
}

fn obvh_hit<P: Prim>(
    obvh: &OBVH<Boxf, P>,
    origin: &[f32; 3],
    direction: &[f32; 3],
    t_min: f32,
    t_max: f32,
) -> Option<f32> {
    if !obvh.bbox.hit(origin, direction, t_min, t_max) {
        return None;
    }
    let dir_sign = [
        (direction[0] >= 0.0) as usize,
        (direction[1] >= 0.0) as usize,
        (direction[2] >= 0.0) as usize,
    ];
    let mut t_best = t_max;
    let mut found: Option<f32> = None;
    let mut stack = NodeStack::empty();
    stack.push(NodePointer::root());
    while !stack.is_empty() {
        let ptr = stack.pop();
        if ptr.is_leaf() {
            if ptr.is_empty_leaf() {
                continue;
            }
            if let Some(t) = obvh.leaves[ptr.index()].hit(origin, direction, t_min, t_best) {
                t_best = t;
                found = Some(t);
            }
        } else {
            let node = &obvh.inners[ptr.index()];
            let mut flags = [false; 8];
            for c in 0..8 {
                flags[c] = node.bboxes[c].hit(origin, direction, t_min, t_best);
            }
            let hit_bits = pack_lane_mask(&flags);
            let priorities = node.calc_traverse_priority(&dir_sign);
            assert!(stack.len() + 8 <= NODE_STACK_UPPER_BOUND);
            node.push_hit_children(&mut stack, hit_bits, priorities);
        }
    }
    found
}

#[test]
fn unit_sphere_hit_at_four() {
    // A single unit sphere at the origin: a ray from (0, 0, -5) along +z
    // meets it at t = 4, point (0, 0, -1).
    let bvh = build(vec![SphereF { center: [0.0, 0.0, 0.0], radius: 1.0 }]);
    let t = bvh_hit(&bvh, &[0.0, 0.0, -5.0], &[0.0, 0.0, 1.0], 0.0, f32::MAX);
    assert_eq!(t, Some(4.0));
    let obvh = OBVH::from_bvh(bvh, Boxf::empty()).unwrap();
    let t8 = obvh_hit(&obvh, &[0.0, 0.0, -5.0], &[0.0, 0.0, 1.0], 0.0, f32::MAX);
    assert_eq!(t8, Some(4.0));
}

#[derive(Clone, Copy)]
struct RectangleF {
    origin: [f32; 3],
    edge_u: [f32; 3],
    edge_v: [f32; 3],
}

impl Prim for RectangleF {
    fn bounding_box(&self) -> Boxf {
        let mut b = Boxf::empty();
        for (du, dv) in [(0.0, 0.0), (1.0, 0.0), (0.0, 1.0), (1.0, 1.0)] {
            for a in 0..3 {
                let p = self.origin[a] + du * self.edge_u[a] + dv * self.edge_v[a];
                b.min[a] = b.min[a].min(p - 1e-4);
                b.max[a] = b.max[a].max(p + 1e-4);
            }
        }
        b
    }

    fn hit(&self, origin: &[f32; 3], direction: &[f32; 3], t_min: f32, t_max: f32) -> Option<f32> {
        let cross = |x: &[f32; 3], y: &[f32; 3]| {
            [
                x[1] * y[2] - x[2] * y[1],
                x[2] * y[0] - x[0] * y[2],
                x[0] * y[1] - x[1] * y[0],
            ]
        };
        let dot = |x: &[f32; 3], y: &[f32; 3]| x[0] * y[0] + x[1] * y[1] + x[2] * y[2];
        let normal = cross(&self.edge_u, &self.edge_v);
        let denom = dot(&normal, direction);
        if denom == 0.0 {
            return None;
        }
        let rel0 = [
            self.origin[0] - origin[0],
            self.origin[1] - origin[1],
            self.origin[2] - origin[2],
        ];
        let t = dot(&normal, &rel0) / denom;
        if t <= t_min || t_max <= t {
            return None;
        }
        let p = [
            origin[0] + t * direction[0] - self.origin[0],
            origin[1] + t * direction[1] - self.origin[1],
            origin[2] + t * direction[2] - self.origin[2],
        ];
        let u = dot(&p, &self.edge_u) / dot(&self.edge_u, &self.edge_u);
        let v = dot(&p, &self.edge_v) / dot(&self.edge_v, &self.edge_v);
        if !(0.0..=1.0).contains(&u) || !(0.0..=1.0).contains(&v) {
            return None;
        }
        Some(t)
    }
}

#[test]
fn cube_of_rectangles_hit_on_front_face() {
    // An axis-aligned unit cube built from six rectangles: the ray from
    // (0.5, 0.5, -1) along +z hits the z = 0 face at t = 1.
    let e = |x: f32, y: f32, z: f32| [x, y, z];
    let faces = vec![
        RectangleF { origin: e(0.0, 0.0, 0.0), edge_u: e(0.0, 1.0, 0.0), edge_v: e(1.0, 0.0, 0.0) },
        RectangleF { origin: e(0.0, 0.0, 0.0), edge_u: e(0.0, 0.0, 1.0), edge_v: e(0.0, 1.0, 0.0) },
        RectangleF { origin: e(0.0, 0.0, 0.0), edge_u: e(1.0, 0.0, 0.0), edge_v: e(0.0, 0.0, 1.0) },
        RectangleF {
            origin: e(1.0, 1.0, 1.0),
            edge_u: e(-1.0, 0.0, 0.0),
            edge_v: e(0.0, -1.0, 0.0),
        },
        RectangleF {
            origin: e(1.0, 1.0, 1.0),
            edge_u: e(0.0, -1.0, 0.0),
            edge_v: e(0.0, 0.0, -1.0),
        },
        RectangleF {
            origin: e(1.0, 1.0, 1.0),
            edge_u: e(0.0, 0.0, -1.0),
            edge_v: e(-1.0, 0.0, 0.0),
        },
    ];
    let bvh = build(faces);
    let t = bvh_hit(&bvh, &[0.5, 0.5, -1.0], &[0.0, 0.0, 1.0], 0.0, f32::MAX);
    assert_eq!(t, Some(1.0));
    let obvh = OBVH::from_bvh(bvh, Boxf::empty()).unwrap();
    let t8 = obvh_hit(&obvh, &[0.5, 0.5, -1.0], &[0.0, 0.0, 1.0], 0.0, f32::MAX);
    assert_eq!(t8, Some(1.0));
}

#[test]
fn empty_scene_misses() {
    let bvh = build(Vec::<SphereF>::new());
    assert_eq!(bvh_hit(&bvh, &[0.0, 0.0, -5.0], &[0.0, 0.0, 1.0], 0.0, f32::MAX), None);
    let obvh = OBVH::from_bvh(bvh, Boxf::empty()).unwrap();
    assert_eq!(obvh_hit(&obvh, &[0.0, 0.0, -5.0], &[0.0, 0.0, 1.0], 0.0, f32::MAX), None);
}

#[test]
fn axis_parallel_ray_with_degenerate_slabs_hits() {
    // Direction (0, 0, 1) divides by zero on two axes; the slab test
    // must still accept a box straddling the ray.
    let b = Boxf { min: [-1.0, -1.0, 2.0], max: [1.0, 1.0, 3.0] };
    assert!(b.hit(&[0.0, 0.0, 0.0], &[0.0, 0.0, 1.0], 0.0, f32::MAX));
    // A zero-thickness box still hits when the ray crosses its plane.
    let flat = Boxf { min: [-1.0, -1.0, 0.0], max: [1.0, 1.0, 0.0] };
    assert!(flat.hit(&[0.0, 0.0, -1.0], &[0.0, 0.0, 1.0], 0.0, f32::MAX));
}

#[test]
fn grid_of_spheres_trees_agree() {
    // 1,000 spheres on a 10 by 10 by 10 grid: the binary tree and the
    // eight-wide tree return the same closest hit for rays through the
    // diagonal and along the axes.
    let mut spheres = Vec::new();
    for x in 0..10 {
        for y in 0..10 {
            for z in 0..10 {
                spheres.push(SphereF {
                    center: [2.0 * x as f32, 2.0 * y as f32, 2.0 * z as f32],
                    radius: 0.5,
                });
            }
        }
    }
    let bvh = build(spheres);
    let rays: Vec<([f32; 3], [f32; 3])> = vec![
        ([-2.0, -2.0, -2.0], [1.0, 1.0, 1.0]),
        ([20.0, 20.0, 20.0], [-1.0, -1.0, -1.0]),
        ([-3.0, 4.0, 4.0], [1.0, 0.0, 0.0]),
        ([4.0, 30.0, 4.0], [0.0, -1.0, 0.0]),
        ([1.0, 1.0, -9.0], [0.05, -0.02, 1.0]),
        ([9.0, 9.0, 9.0], [-0.3, 0.9, -0.1]),
    ];
    let mut hits: usize = 0;
    let from_bvh: Vec<Option<f32>> =
        rays.iter().map(|(o, d)| bvh_hit(&bvh, o, d, 0.0001, f32::MAX)).collect();
    let obvh = OBVH::from_bvh(bvh, Boxf::empty()).unwrap();
    for (i, (o, d)) in rays.iter().enumerate() {
        let t8 = obvh_hit(&obvh, o, d, 0.0001, f32::MAX);
        assert_eq!(from_bvh[i], t8);
        if t8.is_some() {
            hits += 1;
        }
    }
    assert!(hits >= 5);
    // The diagonal ray hits the corner sphere first: centred at the
    // origin with radius one half, so t * |direction| = distance to the
    // sphere surface along the diagonal.
    let t = from_bvh[0].unwrap();
    let dist = t * 3.0f32.sqrt();
    let expected = 2.0 * 3.0f32.sqrt() - 0.5;
    assert!((dist - expected).abs() < 1e-4);
}
