use raytracer::aabb::{Aabb, GridPoint};
use raytracer::bvh::{scene_intersect, BvhNode, Hit, Shape};

const GRID: f32 = 64.0;

#[derive(Clone, Copy)]
struct Ray {
    orig: [f32; 3],
    dir: [f32; 3],
}

fn ray(orig: [f32; 3], dir: [f32; 3]) -> Ray {
    let len = (dir[0] * dir[0] + dir[1] * dir[1] + dir[2] * dir[2]).sqrt();
    Ray { orig, dir: [dir[0] / len, dir[1] / len, dir[2] / len] }
}

struct Ball {
    center: [f32; 3],
    radius: f32,
}

fn ball(x: f32, y: f32, z: f32, radius: f32) -> Ball {
    Ball { center: [x, y, z], radius }
}

impl Shape<Ray> for Ball {
    fn hit(&self, ray: Ray) -> Option<u32> {
        self.ray_intersect(&ray)
    }

    fn bounds(&self) -> Aabb {
        self.bounding_box()
    }

    fn meets(ray: Ray, b: Aabb) -> bool {
        Self::ray_meets_box(&ray, &b)
    }

    fn ray_intersect(&self, ray: &Ray) -> Option<u32> {
        let l = [
            self.center[0] - ray.orig[0],
            self.center[1] - ray.orig[1],
            self.center[2] - ray.orig[2],
        ];
        let tca = l[0] * ray.dir[0] + l[1] * ray.dir[1] + l[2] * ray.dir[2];
        let d2 = l[0] * l[0] + l[1] * l[1] + l[2] * l[2] - tca * tca;
        if d2 > self.radius * self.radius {
            return None;
        }
        let thc = (self.radius * self.radius - d2).sqrt();
        let mut t0 = tca - thc;
        if t0 < 0.0 {
            t0 = tca + thc;
        }
        if t0 < 0.0 {
            return None;
        }
        Some(t0.to_bits())
    }

    fn bounding_box(&self) -> Aabb {
        let lo = |c: f32| ((c - self.radius) * GRID).floor() as i32;
        let hi = |c: f32| ((c + self.radius) * GRID).ceil() as i32;
        Aabb::new(
            GridPoint::new(lo(self.center[0]), lo(self.center[1]), lo(self.center[2])),
            GridPoint::new(hi(self.center[0]), hi(self.center[1]), hi(self.center[2])),
        )
    }

    fn ray_meets_box(ray: &Ray, b: &Aabb) -> bool {
        let mut tmin = f32::NEG_INFINITY;
        let mut tmax = f32::INFINITY;
        for axis in 0..3 {
            let inv = 1.0 / ray.dir[axis];
            let t0 = (b.min.get(axis) as f32 / GRID - ray.orig[axis]) * inv;
            let t1 = (b.max.get(axis) as f32 / GRID - ray.orig[axis]) * inv;
            tmin = tmin.max(t0.min(t1));
            tmax = tmax.min(t0.max(t1));
        }
        tmax >= 0.0 && tmin <= tmax
    }
}

fn boxes_of(shapes: &Vec<Ball>) -> Vec<Aabb> {
    shapes.iter().map(|s| s.bounding_box()).collect()
}

fn build_all(shapes: &Vec<Ball>, order: Vec<usize>) -> (BvhNode, Vec<usize>) {
    let boxes = boxes_of(shapes);
    let mut indices = order;
    let tree = BvhNode::build(&boxes, &mut indices);
    (tree, indices)
}

fn t_of(hit: Option<Hit>) -> Option<f32> {
    hit.map(|h| f32::from_bits(h.t_key))
}

fn leaves(node: &BvhNode) -> Vec<usize> {
    match node {
        BvhNode::Leaf { shape_idx, .. } => vec![*shape_idx],
        BvhNode::Internal { left, right, .. } => {
            let mut v = leaves(left);
            v.extend(leaves(right));
            v
        }
    }
}

fn scene() -> Vec<Ball> {
    vec![
        ball(-3.0, 0.0, -16.0, 2.0),
        ball(-1.0, -1.5, -12.0, 2.0),
        ball(1.5, -0.5, -18.0, 3.0),
        ball(7.0, 5.0, -18.0, 4.0),
        ball(0.0, 0.0, -5.0, 1.0),
        ball(-6.0, 4.0, -9.0, 1.5),
        ball(4.0, -3.0, -7.0, 0.5),
        ball(0.0, 8.0, -30.0, 6.0),
    ]
}

fn rays() -> Vec<Ray> {
    let mut out = Vec::new();
    for i in -6i32..=6 {
        for j in -4i32..=4 {
            out.push(ray([0.0, 0.0, 0.0], [i as f32 * 0.12, j as f32 * 0.12, -1.0]));
        }
    }
    out.push(ray([0.0, 0.0, 0.0], [0.0, 1.0, 0.0]));
    out.push(ray([0.0, 0.0, -40.0], [0.0, 0.0, 1.0]));
    out.push(ray([-20.0, 0.0, -16.0], [1.0, 0.0, 0.0]));
    out
}

#[test]
fn sphere_ahead_is_hit_at_distance_four() {
    let shapes = vec![ball(0.0, 0.0, -5.0, 1.0)];
    let r = ray([0.0, 0.0, 0.0], [0.0, 0.0, -1.0]);
    let brute = scene_intersect(&r, &shapes);
    assert_eq!(brute.map(|h| h.shape_idx), Some(0));
    assert!((t_of(brute).unwrap() - 4.0).abs() < 1e-5);
    let (tree, _) = build_all(&shapes, vec![0]);
    assert!((t_of(tree.intersect(&r, &shapes)).unwrap() - 4.0).abs() < 1e-5);
}

#[test]
fn ray_pointing_away_misses() {
    let shapes = vec![ball(0.0, 0.0, -5.0, 1.0)];
    let r = ray([0.0, 0.0, 0.0], [0.0, 1.0, 0.0]);
    assert_eq!(scene_intersect(&r, &shapes), None);
    let (tree, _) = build_all(&shapes, vec![0]);
    assert_eq!(tree.intersect(&r, &shapes), None);
}

#[test]
fn origin_inside_sphere_hits_ahead() {
    let shapes = vec![ball(0.0, 0.0, 0.0, 5.0)];
    let r = ray([0.0, 0.0, 0.0], [0.0, 0.0, -1.0]);
    let t = t_of(scene_intersect(&r, &shapes)).unwrap();
    assert!(t > 0.0);
    assert!((t - 5.0).abs() < 1e-5);
    let (tree, _) = build_all(&shapes, vec![0]);
    assert_eq!(t_of(tree.intersect(&r, &shapes)), Some(t));
}

#[test]
fn empty_scene_has_no_hit() {
    let shapes: Vec<Ball> = Vec::new();
    assert_eq!(scene_intersect(&ray([0.0, 0.0, 0.0], [0.0, 0.0, -1.0]), &shapes), None);
}

#[test]
fn nearest_of_two_spheres_wins() {
    let shapes = vec![ball(0.0, 0.0, -20.0, 1.0), ball(0.0, 0.0, -10.0, 1.0)];
    let r = ray([0.0, 0.0, 0.0], [0.0, 0.0, -1.0]);
    let hit = scene_intersect(&r, &shapes).unwrap();
    assert_eq!(hit.shape_idx, 1);
    assert!((f32::from_bits(hit.t_key) - 9.0).abs() < 1e-5);
    let (tree, _) = build_all(&shapes, vec![0, 1]);
    assert_eq!(tree.intersect(&r, &shapes), Some(hit));
}

#[test]
fn equal_hits_go_to_the_later_shape() {
    let shapes = vec![ball(0.0, 0.0, -5.0, 1.0), ball(0.0, 0.0, -5.0, 1.0)];
    let r = ray([0.0, 0.0, 0.0], [0.0, 0.0, -1.0]);
    assert_eq!(scene_intersect(&r, &shapes).map(|h| h.shape_idx), Some(1));
}

#[test]
fn hierarchy_gives_equal_hits_to_the_last_leaf() {
    let shapes = vec![ball(0.0, 0.0, -5.0, 1.0), ball(0.0, 0.0, -5.0, 1.0)];
    let r = ray([0.0, 0.0, 0.0], [0.0, 0.0, -1.0]);
    let (tree, indices) = build_all(&shapes, vec![1, 0]);
    assert_eq!(indices, vec![1, 0]);
    assert_eq!(tree.intersect(&r, &shapes).map(|h| h.shape_idx), Some(0));
    let (tree, _) = build_all(&shapes, vec![0, 1]);
    assert_eq!(tree.intersect(&r, &shapes).map(|h| h.shape_idx), Some(1));
}

#[test]
fn hierarchy_matches_testing_every_shape() {
    let shapes = scene();
    let (tree, _) = build_all(&shapes, (0..shapes.len()).collect());
    let mut hits = 0;
    for r in rays() {
        let brute = t_of(scene_intersect(&r, &shapes));
        let fast = t_of(tree.intersect(&r, &shapes));
        assert_eq!(brute, fast);
        if brute.is_some() {
            hits += 1;
        }
    }
    assert!(hits > 10);
}

#[test]
fn hierarchy_ignores_input_order() {
    let shapes = scene();
    let (a, _) = build_all(&shapes, vec![0, 1, 2, 3, 4, 5, 6, 7]);
    let (b, _) = build_all(&shapes, vec![7, 6, 5, 4, 3, 2, 1, 0]);
    let (c, _) = build_all(&shapes, vec![3, 0, 6, 2, 7, 5, 1, 4]);
    for r in rays() {
        let ta = t_of(a.intersect(&r, &shapes));
        assert_eq!(ta, t_of(b.intersect(&r, &shapes)));
        assert_eq!(ta, t_of(c.intersect(&r, &shapes)));
    }
    let (again, _) = build_all(&shapes, vec![0, 1, 2, 3, 4, 5, 6, 7]);
    for r in rays() {
        assert_eq!(a.intersect(&r, &shapes), again.intersect(&r, &shapes));
    }
}

#[test]
fn single_shape_builds_a_leaf() {
    let shapes = vec![ball(1.0, 2.0, 3.0, 1.0)];
    let (tree, indices) = build_all(&shapes, vec![0]);
    assert_eq!(indices, vec![0]);
    match tree {
        BvhNode::Leaf { shape_idx, aabb } => {
            assert_eq!(shape_idx, 0);
            assert_eq!(aabb, shapes[0].bounding_box());
        }
        BvhNode::Internal { .. } => panic!("expected a leaf"),
    }
}

#[test]
fn build_sorts_along_longest_axis_and_splits_in_half() {
    let shapes = vec![
        ball(0.0, 0.0, 0.0, 1.0),
        ball(10.0, 0.0, 0.0, 1.0),
        ball(20.0, 0.0, 0.0, 1.0),
        ball(30.0, 0.0, 0.0, 1.0),
    ];
    let (tree, indices) = build_all(&shapes, vec![3, 1, 0, 2]);
    assert_eq!(indices, vec![0, 1, 2, 3]);
    assert_eq!(leaves(&tree), indices);
    match tree {
        BvhNode::Internal { left, right, aabb } => {
            assert_eq!(leaves(&left), vec![0, 1]);
            assert_eq!(leaves(&right), vec![2, 3]);
            assert_eq!(aabb.min, GridPoint::new(-64, -64, -64));
            assert_eq!(aabb.max, GridPoint::new(31 * 64, 64, 64));
        }
        BvhNode::Leaf { .. } => panic!("expected an internal node"),
    }
}

#[test]
fn build_splits_odd_counts_with_smaller_left_half() {
    let shapes = vec![
        ball(0.0, 9.0, 0.0, 1.0),
        ball(0.0, -9.0, 0.0, 1.0),
        ball(0.0, 0.0, 0.0, 1.0),
    ];
    let (tree, indices) = build_all(&shapes, vec![0, 1, 2]);
    assert_eq!(indices, vec![1, 2, 0]);
    match tree {
        BvhNode::Internal { left, right, .. } => {
            assert_eq!(leaves(&left), vec![1]);
            assert_eq!(leaves(&right), vec![2, 0]);
        }
        BvhNode::Leaf { .. } => panic!("expected an internal node"),
    }
}

#[test]
fn build_keeps_equal_centroids_in_input_order() {
    let shapes = vec![
        ball(0.0, 0.0, 0.0, 1.0),
        ball(0.0, 0.0, 0.0, 1.0),
        ball(0.0, 0.0, 0.0, 1.0),
    ];
    let (_, indices) = build_all(&shapes, vec![2, 0, 1]);
    assert_eq!(indices, vec![2, 0, 1]);
}
