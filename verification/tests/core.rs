//! End-to-end checks of the fixed-point renderer core: bounds algebra, the
//! sphere hit formula, agreement of the accelerated traversal with the
//! exhaustive scan, the scattering model, the integrator's environment and
//! single-bounce behavior, and tile assembly.

use rand::SeedableRng;
use rand::rngs::SmallRng;

use tracer::bounds::Bounds3;
use tracer::bvh::HittableList;
use tracer::fixed::SCALE;
use tracer::hittable::{Facing, Hittable, Interaction, Sphere};
use tracer::integrator::ray_color;
use tracer::material::{Dielectric, Diffuse, Material, Metal};
use tracer::ray::Ray;
use tracer::tile::{DispatchAction, Tile, WorkQueue, assemble, div_up, index, quantize};
use tracer::vector::{Color3, Point3, Vector3};

fn v(x: i64, y: i64, z: i64) -> Vector3 {
    Vector3 { x, y, z }
}

fn fp(units: i64) -> i64 {
    units * SCALE
}

#[test]
fn union_takes_componentwise_extremes() {
    let b1 = Bounds3 { p_min: v(0, -fp(2), fp(1)), p_max: v(fp(3), fp(1), fp(4)) };
    let b2 = Bounds3 { p_min: v(-fp(1), 0, fp(2)), p_max: v(fp(2), fp(5), fp(3)) };
    let u = Bounds3::union(&b1, &b2);
    assert_eq!(u.p_min, v(-fp(1), -fp(2), fp(1)));
    assert_eq!(u.p_max, v(fp(3), fp(5), fp(4)));
    // The union contains both inputs.
    assert!(u.p_min.x <= b1.p_min.x && b1.p_max.x <= u.p_max.x);
    assert!(u.p_min.y <= b2.p_min.y && b2.p_max.y <= u.p_max.y);
}

#[test]
fn union_with_empty_sentinel_is_identity() {
    let e = Bounds3::default();
    let b = Bounds3 { p_min: v(-fp(1), -fp(1), -fp(1)), p_max: v(fp(1), fp(1), fp(1)) };
    let u1 = Bounds3::union(&e, &b);
    let u2 = Bounds3::union(&b, &e);
    assert_eq!(u1.p_min, b.p_min);
    assert_eq!(u1.p_max, b.p_max);
    assert_eq!(u2.p_min, b.p_min);
    assert_eq!(u2.p_max, b.p_max);
}

#[test]
fn surface_area_of_unit_box() {
    // A 1 x 2 x 3 box: area 2*(1*2 + 1*3 + 2*3) = 22.
    let b = Bounds3 { p_min: v(0, 0, 0), p_max: v(fp(1), fp(2), fp(3)) };
    assert_eq!(b.surface_area(), 22 * SCALE);
}

#[test]
fn maximum_extent_picks_widest_axis() {
    let b = Bounds3 { p_min: v(0, 0, 0), p_max: v(fp(1), fp(5), fp(2)) };
    assert_eq!(b.maximum_extent(), 1);
    let c = Bounds3 { p_min: v(0, 0, 0), p_max: v(fp(7), fp(5), fp(2)) };
    assert_eq!(c.maximum_extent(), 0);
}

#[test]
fn sphere_hit_exact_distance() {
    // Ray from (0,0,-2) along +z at a half-unit sphere about the origin:
    // the near intersection is exactly t = 1.5.
    let s = Sphere { position: v(0, 0, 0), radius: SCALE / 2, material: 0 };
    let ray = Ray { origin: v(0, 0, -fp(2)), direction: v(0, 0, SCALE) };
    let mut it = Interaction::default();
    let hit = s.hit(&ray, 66, fp(1000), &mut it);
    assert!(hit);
    assert_eq!(it.t, 3 * SCALE / 2);
    assert_eq!(it.p, v(0, 0, -SCALE / 2));
    assert_eq!(it.facing, Facing::Front);
    assert_eq!(it.normal, v(0, 0, -SCALE));
    assert_eq!(it.material, Some(0));
}

#[test]
fn sphere_miss_leaves_interaction_alone() {
    let s = Sphere { position: v(fp(10), 0, 0), radius: SCALE, material: 0 };
    let ray = Ray { origin: v(0, 0, -fp(2)), direction: v(0, 0, SCALE) };
    let mut it = Interaction::default();
    let before = it.t;
    assert!(!s.hit(&ray, 66, fp(1000), &mut it));
    assert_eq!(it.t, before);
}

/// A small deterministic integer generator for scene placement, so the
/// randomized agreement test is reproducible.
struct Lcg(u64);

impl Lcg {
    fn next(&mut self) -> u64 {
        self.0 = self.0.wrapping_mul(6364136223846793005).wrapping_add(1442695040888963407);
        self.0 >> 16
    }

    fn range(&mut self, lo: i64, hi: i64) -> i64 {
        lo + (self.next() % ((hi - lo) as u64)) as i64
    }
}

fn random_scene(n: usize, seed: u64) -> HittableList {
    let mut list = HittableList::default();
    let mut g = Lcg(seed);
    for k in 0..n {
        let s = Sphere {
            position: v(g.range(-fp(20), fp(20)), g.range(-fp(20), fp(20)),
                g.range(fp(2), fp(40))),
            radius: g.range(SCALE / 4, fp(3)),
            material: k % 3,
        };
        list.add(Hittable::Sphere(s));
    }
    list.init();
    list
}

#[test]
fn traversal_matches_linear_scan() {
    let list = random_scene(40, 99);
    let mut g = Lcg(7);
    let mut hits = 0;
    for _ in 0..200 {
        let dir = v(g.range(-SCALE / 2, SCALE / 2), g.range(-SCALE / 2, SCALE / 2), SCALE);
        let ray = Ray { origin: v(g.range(-fp(2), fp(2)), g.range(-fp(2), fp(2)), -fp(1)), direction: dir };
        let mut a = Interaction::default();
        let mut b = Interaction::default();
        let ha = list.hit(&ray, 66, fp(4000), &mut a);
        let hb = list.hit_linear(&ray, 66, fp(4000), &mut b);
        assert_eq!(ha, hb);
        if ha {
            hits += 1;
            assert_eq!(a.t, b.t);
            assert_eq!(a.material, b.material);
        }
    }
    assert!(hits > 10, "the agreement test should actually hit something");
}

#[test]
fn diffuse_estimator_averages_to_albedo() {
    // reflectance * cos / pdf equals the albedo in exact arithmetic, so the
    // Monte Carlo average over the cosine-weighted sampler converges to it.
    let albedo = v(32768, 32768, 32768);
    let d = Diffuse { albedo };
    let mut rng = SmallRng::seed_from_u64(11);
    let n = 20000i128;
    let mut acc: i128 = 0;
    let mut used: i128 = 0;
    for _ in 0..n {
        let s = d.scatter(&mut rng);
        if s.pdf >= 1 {
            // weight.x * cos / pdf, carried at the fixed scale.
            acc += s.weight.x as i128 * s.dir_out.z as i128 / s.pdf as i128;
            used += 1;
        }
    }
    let mean = acc / used;
    let err = (mean - albedo.x as i128).abs();
    assert!(err < 1311, "mean {mean} strays from the albedo by {err}");
}

#[test]
fn dielectric_unit_index_does_not_bend() {
    // Normal incidence through a unit-index interface: the continuation
    // direction equals the incoming direction exactly.
    let di = Dielectric { index_of_refraction: SCALE };
    let mut rng = SmallRng::seed_from_u64(3);
    for _ in 0..32 {
        let s = di.scatter(&v(0, 0, SCALE), Facing::Front, &mut rng);
        assert_eq!(s.dir_out, v(0, 0, -SCALE));
        assert!(s.is_specular);
        assert_eq!(s.pdf, SCALE);
    }
    // Oblique incidence bends by at most rounding.
    for k in 1..8i64 {
        let x = k * 6000;
        let z2 = (SCALE as i128 * SCALE as i128 - x as i128 * x as i128) as f64;
        let z = z2.sqrt() as i64;
        let wi = v(x, 0, z);
        let s = di.scatter(&wi, Facing::Front, &mut rng);
        assert!((s.dir_out.x + wi.x).abs() <= 2, "x bent: {}", s.dir_out.x);
        assert!((s.dir_out.z + wi.z).abs() <= 8, "z bent: {}", s.dir_out.z);
    }
}

#[test]
fn metal_mirrors_about_the_normal() {
    let m = Metal { albedo: v(SCALE, SCALE, SCALE), fuzziness: 0 };
    let mut rng = SmallRng::seed_from_u64(5);
    let wi = v(-20000, 14000, 50000);
    let s = m.scatter(&wi, &mut rng).expect("an upward mirror direction");
    assert_eq!(s.dir_out, v(20000, -14000, 50000));
    assert_eq!(s.pdf, SCALE);
    assert!(s.is_specular);
    // The weight pre-divides by the outgoing cosine.
    assert_eq!(s.weight.x, (SCALE as i128 * SCALE as i128 / 50000) as i64);
    // The delta density and reflectance answer only on the exact mirror.
    assert_eq!(m.pdf(&wi, &s.dir_out), SCALE);
    assert_eq!(m.pdf(&wi, &v(1, 2, 3)), 0);
    assert_eq!(m.reflectance(&wi, &v(1, 2, 3)), v(0, 0, 0));
}

#[test]
fn metal_absorbs_below_horizon() {
    let m = Metal { albedo: v(SCALE, SCALE, SCALE), fuzziness: 0 };
    let mut rng = SmallRng::seed_from_u64(6);
    // A grazing direction mirrors onto the surface itself and is absorbed.
    assert!(m.scatter(&v(30000, 0, 0), &mut rng).is_none());
}

#[test]
fn schlick_reflectance_of_glass() {
    let di = Dielectric { index_of_refraction: 3 * SCALE / 2 };
    // Head-on, Schlick reduces to r0 = ((1-n)/(1+n))^2, about 0.04.
    let r = di.reflectance(SCALE);
    assert_eq!(r, 2621);
}

#[test]
fn environment_gradient_endpoints() {
    // Straight up: the pale blue; straight down: white.
    let sky = tracer::integrator::environment(&v(0, SCALE, 0));
    assert_eq!(sky, v(32768, 45875, 65536));
    let ground = tracer::integrator::environment(&v(0, -SCALE, 0));
    assert_eq!(ground, v(SCALE, SCALE, SCALE));
}

fn one_sphere_scene() -> (HittableList, Vec<Material>) {
    let mut list = HittableList::default();
    list.add(Hittable::Sphere(Sphere { position: v(0, 0, 0), radius: SCALE / 2, material: 0 }));
    list.init();
    let materials = vec![Material::Diffuse(Diffuse { albedo: v(32768, 32768, 32768) })];
    (list, materials)
}

#[test]
fn missing_ray_returns_exact_environment() {
    let (list, materials) = one_sphere_scene();
    let mut rng = SmallRng::seed_from_u64(2);
    // A ray pointing away from the sphere sees the gradient exactly.
    let ray = Ray { origin: v(0, 0, -fp(2)), direction: v(0, 0, -SCALE) };
    let c = ray_color(&ray, &list, &materials, &mut rng, 8).expect("a miss is never anomalous");
    let expected = tracer::integrator::environment(&v(0, 0, -SCALE));
    assert_eq!(c, expected);
}

#[test]
fn hitting_ray_at_depth_one_is_darker_than_sky() {
    let (list, materials) = one_sphere_scene();
    let mut rng = SmallRng::seed_from_u64(4);
    let ray = Ray { origin: v(0, 0, -fp(2)), direction: v(0, 0, SCALE) };
    for _ in 0..64 {
        if let Some(c) = ray_color(&ray, &list, &materials, &mut rng, 1) {
            // One bounce and the chain is cut: the contribution is absorbed,
            // strictly below the environment's maximum brightness.
            assert!(c.x < SCALE && c.y < SCALE && c.z < SCALE);
            assert_eq!(c, v(0, 0, 0));
        }
    }
}

#[test]
fn deeper_paths_brighten_but_stay_bounded() {
    let (list, materials) = one_sphere_scene();
    let mut rng = SmallRng::seed_from_u64(12);
    let ray = Ray { origin: v(0, 0, -fp(2)), direction: v(0, 0, SCALE) };
    let mut sum: i128 = 0;
    let mut used = 0i128;
    for _ in 0..4000 {
        if let Some(c) = ray_color(&ray, &list, &materials, &mut rng, 16) {
            assert!(c.x >= 0 && c.y >= 0 && c.z >= 0);
            sum += c.y as i128;
            used += 1;
        }
    }
    let mean = sum / used;
    // The sphere reflects about half the sky: the mean sits well inside
    // (0, 1) and far from both ends.
    assert!(mean > SCALE as i128 / 10, "mean {mean}");
    assert!(mean < SCALE as i128, "mean {mean}");
}

#[test]
fn roulette_keeps_low_order_energy() {
    // With a dark sphere almost all energy arrives within four bounces,
    // before roulette may cut paths, so estimates with and without the
    // roulette regime agree within noise.
    let mut list = HittableList::default();
    list.add(Hittable::Sphere(Sphere { position: v(0, 0, 0), radius: SCALE / 2, material: 0 }));
    list.init();
    let materials = vec![Material::Diffuse(Diffuse { albedo: v(13107, 13107, 13107) })];
    let ray = Ray { origin: v(0, 0, -fp(2)), direction: v(0, 0, SCALE) };
    let mut mean = |depth: usize, seed: u64| -> i128 {
        let mut rng = SmallRng::seed_from_u64(seed);
        let mut sum = 0i128;
        let mut used = 0i128;
        for _ in 0..8000 {
            if let Some(c) = ray_color(&ray, &list, &materials, &mut rng, depth) {
                sum += c.y as i128;
                used += 1;
            }
        }
        sum / used
    };
    let shallow = mean(4, 21);
    let deep = mean(16, 22);
    let err = (shallow - deep).abs();
    assert!(err < SCALE as i128 / 50, "shallow {shallow} vs deep {deep}");
}

#[test]
fn image_index_formula() {
    assert_eq!(index(3, 2, 100), (2 * 100 + 3) * 4);
    assert_eq!(Tile::index(0, 0), 0);
    assert_eq!(Tile::index(5, 2), (2 * 16 + 5) * 4);
}

#[test]
fn div_up_rounds_upward() {
    assert_eq!(div_up(32, 16), 2);
    assert_eq!(div_up(33, 16), 3);
    assert_eq!(div_up(1, 16), 1);
}

#[test]
fn gamma_and_quantize_values() {
    let mut t = Tile::new(0, 0);
    t.set(1, 0, v(SCALE / 4, 0, SCALE));
    let base = Tile::index(1, 0);
    // sqrt(1/4) = 1/2, sqrt(0) = 0, sqrt(1) = 1, alpha opaque.
    assert_eq!(t.buffer[base], SCALE / 2);
    assert_eq!(t.buffer[base + 1], 0);
    assert_eq!(t.buffer[base + 2], SCALE);
    assert_eq!(t.buffer[base + 3], SCALE);
    assert_eq!(quantize(SCALE), 255);
    assert_eq!(quantize(SCALE / 2), 128);
    assert_eq!(quantize(-5), 0);
}

#[test]
fn assembly_is_order_independent() {
    // Four distinct tiles assembled in two different arrival orders give
    // bit-identical images: what a one-worker and a four-worker pool
    // produce differs only in arrival order.
    let width = 32usize;
    let height = 32usize;
    let mut tiles = Vec::new();
    for idx in 0..4usize {
        let mut t = Tile::new((idx % 2) * 16, (idx / 2) * 16);
        for i in 0..16 {
            for j in 0..16 {
                let shade = ((idx * 97 + i * 5 + j * 13) % 64) as i64 * 1024;
                t.set(i, j, v(shade, shade / 2, shade / 3));
            }
        }
        tiles.push(t);
    }
    let reorder: Vec<Tile> = [3usize, 1, 0, 2]
        .iter()
        .map(|&k| Tile { x: tiles[k].x, y: tiles[k].y, buffer: tiles[k].buffer.clone() })
        .collect();
    let mut img1 = vec![0u8; width * height * 4];
    let mut img2 = vec![0u8; width * height * 4];
    assemble(&mut img1, &tiles, width, height);
    assemble(&mut img2, &reorder, width, height);
    assert_eq!(img1, img2);
    // And a pixel outside any tile keeps its prior byte on a short image.
    let t5 = Tile::new(0, 0);
    let mut img3 = vec![9u8; width * height * 4];
    assemble(&mut img3, &vec![t5], width, height);
    assert_eq!(img3[index(20, 20, width)], 9);
}

#[test]
fn dispatch_pairs_idle_workers_with_queued_tiles() {
    let mut q = WorkQueue::new(2);
    assert!(matches!(q.next_dispatch(), DispatchAction::Done));
    q.push_que(Tile::new(0, 0));
    q.push_que(Tile::new(16, 0));
    q.push_que(Tile::new(32, 0));
    match q.next_dispatch() {
        DispatchAction::Send(w, t) => {
            assert_eq!(w, 1);
            assert_eq!(t.x, 32);
        },
        _ => panic!("a worker was idle and work was queued"),
    }
    match q.next_dispatch() {
        DispatchAction::Send(w, t) => {
            assert_eq!(w, 0);
            assert_eq!(t.x, 16);
        },
        _ => panic!("a worker was idle and work was queued"),
    }
    assert!(matches!(q.next_dispatch(), DispatchAction::Wait));
    q.worker_idle(1);
    match q.next_dispatch() {
        DispatchAction::Send(w, t) => {
            assert_eq!(w, 1);
            assert_eq!(t.x, 0);
        },
        _ => panic!("a worker came back idle"),
    }
    assert!(matches!(q.next_dispatch(), DispatchAction::Done));
}

#[test]
fn random_vector_components_in_unit_range() {
    let mut rng = SmallRng::seed_from_u64(8);
    for _ in 0..256 {
        let r = Vector3::random(&mut rng);
        assert!(0 <= r.x && r.x < SCALE);
        assert!(0 <= r.y && r.y < SCALE);
        assert!(0 <= r.z && r.z < SCALE);
    }
}

#[test]
fn diffuse_samples_live_on_the_upper_hemisphere() {
    let d = Diffuse { albedo: v(32768, 32768, 32768) };
    let mut rng = SmallRng::seed_from_u64(9);
    let mut top = 0;
    for _ in 0..512 {
        let s = d.scatter(&mut rng);
        assert!(s.dir_out.z >= 0);
        assert!(!s.is_specular);
        let m2 = s.dir_out.x as i128 * s.dir_out.x as i128
            + s.dir_out.y as i128 * s.dir_out.y as i128
            + s.dir_out.z as i128 * s.dir_out.z as i128;
        assert!(m2 <= (SCALE as i128 + 2) * (SCALE as i128 + 2));
        if s.dir_out.z > SCALE / 2 {
            top += 1;
        }
    }
    // The cosine weighting favors directions near the normal.
    assert!(top > 200);
}

#[test]
fn to_rgb_quantizes_the_average() {
    let c: Color3 = v(4 * SCALE, 0, 2 * 65470);
    let rgb = c.to_rgb(4);
    assert_eq!(rgb, [255, 0, (256u32 * (65470 / 2) / 65536) as u8]);
    let p: Point3 = v(SCALE, SCALE, SCALE);
    assert_eq!(p.to_rgb(1)[0], 255);
}

#[test]
fn box_center_offset_and_diagonal() {
    let b = Bounds3 { p_min: v(-fp(1), 0, fp(2)), p_max: v(fp(3), fp(4), fp(6)) };
    assert_eq!(b.center(), v(fp(1), fp(2), fp(4)));
    assert_eq!(b.diagonal(), v(fp(4), fp(4), fp(4)));
    // A point one quarter along each axis.
    let p = v(0, fp(1), fp(3));
    assert_eq!(b.offset(&p), v(SCALE / 4, SCALE / 4, SCALE / 4));
    // A degenerate axis keeps the plain offset.
    let flat = Bounds3 { p_min: v(0, 0, 0), p_max: v(fp(2), 0, fp(2)) };
    assert_eq!(flat.offset(&v(fp(1), 0, fp(1))).y, 0);
}

#[test]
fn luminance_weights_sum_to_one() {
    let white: Color3 = v(SCALE, SCALE, SCALE);
    assert_eq!(white.luminance(), SCALE);
    let green: Color3 = v(0, SCALE, 0);
    assert_eq!(green.luminance(), 46871);
}

#[test]
fn linear_scan_of_empty_scene_misses() {
    let list = HittableList::default();
    let ray = Ray { origin: v(0, 0, 0), direction: v(0, 0, SCALE) };
    let mut it = Interaction::default();
    assert!(!list.hit_linear(&ray, 66, fp(100), &mut it));
    assert_eq!(it.t, 0);
}

#[test]
fn slab_test_accepts_a_contained_segment() {
    let b = Bounds3 { p_min: v(-fp(1), -fp(1), fp(2)), p_max: v(fp(1), fp(1), fp(4)) };
    let ray = Ray { origin: v(0, 0, 0), direction: v(0, 0, SCALE) };
    let neg = [false, false, false];
    assert!(b.intersect(&ray, &neg, fp(10), 0));
    // The box lies beyond the allowed range: the interval test fails.
    assert!(!b.intersect(&ray, &neg, fp(1), 0));
    // A ray pointing away cannot enter the box.
    let away = Ray { origin: v(0, 0, 0), direction: v(0, 0, -SCALE) };
    let neg2 = [false, false, true];
    assert!(!b.intersect(&away, &neg2, fp(10), 0));
}

#[test]
fn dielectric_kernel_is_deterministic_in_the_draw() {
    // Glass head-on: Schlick's reflectance is 2621 of 65536, so a draw
    // below it mirrors and a draw at or above it refracts.
    let di = Dielectric { index_of_refraction: 3 * SCALE / 2 };
    let wi = v(0, 0, SCALE);
    let low = di.refraction_direction(&wi, Facing::Front, 0);
    assert_eq!(low, v(0, 0, SCALE));
    let high = di.refraction_direction(&wi, Facing::Front, SCALE - 1);
    assert!(high.z < 0, "a high draw transmits through the surface");
    // Leaving the glass at a grazing angle: total internal reflection
    // mirrors for every draw.
    let graze = v(60000, 0, 26500);
    let a = di.refraction_direction(&graze, Facing::Back, 0);
    let b = di.refraction_direction(&graze, Facing::Back, SCALE - 1);
    assert_eq!(a, v(-60000, 0, 26500));
    assert_eq!(b, a);
}

#[test]
fn init_reorders_but_keeps_the_scene() {
    // The hierarchy may reorder the primitives, but the scene's multiset
    // of spheres is unchanged.
    let mut list = HittableList::default();
    let mut keys_in: Vec<(i64, i64)> = Vec::new();
    for k in 0..23i64 {
        let s = Sphere {
            position: v(k * 9000 - 90000, (k * k * 37) % 70000, 130000 + k * 4000),
            radius: 4000 + 100 * k,
            material: (k as usize) % 3,
        };
        keys_in.push((s.position.x, s.radius));
        list.add(Hittable::Sphere(s));
    }
    list.init();
    let mut keys_out: Vec<(i64, i64)> = list
        .objects
        .iter()
        .map(|h| match h {
            Hittable::Sphere(s) => (s.position.x, s.radius),
        })
        .collect();
    keys_in.sort();
    keys_out.sort();
    assert_eq!(keys_in, keys_out);
}
