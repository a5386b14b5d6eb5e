//! Whole scenes: the tree's structure from the library, with the
//! floating-point box, split and triangle tests written out here.

use bvh_tutorial::{Builder, Bvh, Traversal};
use glam::{vec3, Vec3};
use rand::{Rng, SeedableRng};
use rand_chacha::ChaCha8Rng;

const NO_HIT: f32 = 1e30;

#[derive(Clone, Copy)]
struct Tri {
    v: [Vec3; 3],
    centroid: Vec3,
}

fn tri(a: Vec3, b: Vec3, c: Vec3) -> Tri {
    Tri { v: [a, b, c], centroid: (a + b + c) / 3.0 }
}

struct Ray {
    origin: Vec3,
    direction: Vec3,
    t: f32,
}

fn hit_triangle(ray: &mut Ray, tri: &Tri) -> bool {
    let edge1 = tri.v[1] - tri.v[0];
    let edge2 = tri.v[2] - tri.v[0];
    let h = ray.direction.cross(edge2);
    let a = edge1.dot(h);
    if a > -0.0001 && a < 0.0001 {
        return false;
    }
    let f = 1.0 / a;
    let s = ray.origin - tri.v[0];
    let u = f * s.dot(h);
    if u < 0.0 || u > 1.0 {
        return false;
    }
    let q = s.cross(edge1);
    let v = f * ray.direction.dot(q);
    if v < 0.0 || u + v > 1.0 {
        return false;
    }
    let t = f * edge2.dot(q);
    if t > 0.0001 {
        ray.t = ray.t.min(t);
        return true;
    }
    false
}

fn hit_box(ray: &Ray, bmin: Vec3, bmax: Vec3) -> bool {
    let t1 = (bmin - ray.origin) / ray.direction;
    let t2 = (bmax - ray.origin) / ray.direction;
    let mut tmin = f32::MIN;
    let mut tmax = f32::MAX;
    for axis in 0..3 {
        tmin = tmin.max(t1[axis].min(t2[axis]));
        tmax = tmax.min(t1[axis].max(t2[axis]));
    }
    tmax >= tmin && tmin < ray.t && tmax > 0.0
}

struct Scene {
    bvh: Bvh,
    bounds: Vec<(Vec3, Vec3)>,
    tris: Vec<Tri>,
}

impl Scene {
    fn build(tris: Vec<Tri>) -> Scene {
        let bvh = Bvh::new(tris.len());
        let bounds = vec![(Vec3::ZERO, Vec3::ZERO); bvh.nodes.len()];
        let mut s = Scene { bvh, bounds, tris };
        s.fit(0);
        let mut builder = Builder::new(&s.bvh);
        while let Some(node) = builder.next_node(&s.bvh) {
            let sides = s.sides(node as usize);
            if let Some((l, r)) = builder.split_next(&mut s.bvh, &sides) {
                s.fit(l as usize);
                s.fit(r as usize);
            }
        }
        s
    }

    fn fit(&mut self, node: usize) {
        let mut lo = Vec3::splat(NO_HIT);
        let mut hi = Vec3::splat(-NO_HIT);
        for t in self.bvh.leaf_triangles(node) {
            for v in self.tris[t].v {
                lo = lo.min(v);
                hi = hi.max(v);
            }
        }
        self.bounds[node] = (lo, hi);
    }

    fn sides(&self, node: usize) -> Vec<bool> {
        let (lo, hi) = self.bounds[node];
        let extent = hi - lo;
        let mut axis = 0;
        if extent.y > extent.x {
            axis = 1;
        }
        if extent.z > extent[axis] {
            axis = 2;
        }
        let split = lo[axis] + extent[axis] * 0.5;
        self.tris.iter().map(|t| t.centroid[axis] < split).collect()
    }

    fn traverse(&self, ray: &mut Ray) {
        let mut walk = Traversal::new();
        while let Some(n) = walk.next_node() {
            let (lo, hi) = self.bounds[n as usize];
            if !hit_box(ray, lo, hi) {
                continue;
            }
            for t in walk.enter(&self.bvh, n) {
                hit_triangle(ray, &self.tris[t]);
            }
        }
    }

    fn brute_force(&self, ray: &mut Ray) {
        for t in &self.tris {
            hit_triangle(ray, t);
        }
    }

    /// The triangles under `node`, leaves taken in order.
    fn subtree(&self, node: usize) -> Vec<usize> {
        let nd = self.bvh.nodes[node];
        if nd.is_leaf() {
            self.bvh.leaf_triangles(node)
        } else {
            let mut v = self.subtree(nd.left_child as usize);
            v.extend(self.subtree(nd.left_child as usize + 1));
            v
        }
    }
}

fn random_vec3(rng: &mut ChaCha8Rng) -> Vec3 {
    vec3(rng.gen_range(-1.0..=1.0), rng.gen_range(-1.0..=1.0), rng.gen_range(-1.0..=1.0))
}

fn random_scene(n: usize, seed: u64) -> Scene {
    let mut rng = ChaCha8Rng::seed_from_u64(seed);
    let tris = (0..n)
        .map(|_| {
            let v0 = random_vec3(&mut rng) * 5.0;
            tri(v0, v0 + random_vec3(&mut rng), v0 + random_vec3(&mut rng))
        })
        .collect();
    Scene::build(tris)
}

fn random_ray(rng: &mut ChaCha8Rng) -> Ray {
    let origin = random_vec3(rng) * 10.0;
    let target = random_vec3(rng) * 5.0;
    Ray { origin, direction: (target - origin).normalize(), t: NO_HIT }
}

#[test]
fn single_triangle_hit_and_miss() {
    let scene = Scene::build(vec![tri(vec3(0.0, 0.0, 0.0), vec3(1.0, 0.0, 0.0), vec3(0.0, 1.0, 0.0))]);
    let mut toward = Ray { origin: vec3(0.2, 0.2, -5.0), direction: vec3(0.0, 0.0, 1.0), t: NO_HIT };
    scene.traverse(&mut toward);
    assert!((toward.t - 5.0).abs() < 1e-5);
    let mut away = Ray { origin: vec3(0.2, 0.2, -5.0), direction: vec3(0.0, 0.0, -1.0), t: NO_HIT };
    scene.traverse(&mut away);
    assert_eq!(away.t, NO_HIT);
}

#[test]
fn tree_agrees_with_brute_force() {
    let scene = random_scene(64, 1);
    let mut rng = ChaCha8Rng::seed_from_u64(7);
    let mut hits = 0;
    for _ in 0..10_000 {
        let mut a = random_ray(&mut rng);
        let mut b = Ray { origin: a.origin, direction: a.direction, t: NO_HIT };
        scene.traverse(&mut a);
        scene.brute_force(&mut b);
        assert_eq!(a.t < NO_HIT, b.t < NO_HIT);
        assert!((a.t - b.t).abs() <= 1e-5);
        if a.t < NO_HIT {
            hits += 1;
        }
    }
    assert!(hits > 0);
}

#[test]
fn traversal_only_lowers_t_and_repeats() {
    let scene = random_scene(40, 3);
    let mut rng = ChaCha8Rng::seed_from_u64(11);
    for _ in 0..500 {
        let mut a = random_ray(&mut rng);
        let before = a.t;
        scene.traverse(&mut a);
        assert!(a.t <= before);
        let mut b = Ray { origin: a.origin, direction: a.direction, t: NO_HIT };
        scene.traverse(&mut b);
        assert_eq!(a.t.to_bits(), b.t.to_bits());
    }
}

#[test]
fn node_boxes_contain_their_triangles() {
    let scene = random_scene(64, 5);
    let mut nodes = vec![0usize];
    nodes.extend(2..scene.bvh.open_node);
    for n in nodes {
        let (lo, hi) = scene.bounds[n];
        for t in scene.subtree(n) {
            for v in scene.tris[t].v {
                assert!(v.cmpge(lo).all() && v.cmple(hi).all());
            }
        }
    }
    let mut all = scene.subtree(0);
    all.sort();
    assert_eq!(all, (0..64).collect::<Vec<_>>());
}

#[test]
fn collinear_duplicates_stay_one_leaf() {
    let t = tri(vec3(0.0, 0.0, 0.0), vec3(1.0, 0.0, 0.0), vec3(2.0, 0.0, 0.0));
    let scene = Scene::build(vec![t; 6]);
    assert_eq!(scene.bvh.open_node, 2);
    assert_eq!(scene.bvh.nodes[0].tri_count, 6);
}
