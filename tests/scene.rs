use raytracing::bvh::BVHNode;
use raytracing::interval::Interval;
use raytracing::material::Material;
use raytracing::medium::{neg_log, ConstantMedium};
use raytracing::num::ONE;
use raytracing::planar::{Planar, Shape};
use raytracing::primitive::{build_box, HitRecord, Hittable, HittableList, RotateY, Scene, Translate};
use raytracing::random::{random_double, random_int, random_range, RandomSource};
use raytracing::ray::Ray;
use raytracing::render::{average, color_bytes, ray_color, to_byte};
use raytracing::sphere::Sphere;
use raytracing::texture::{CheckerTexture, SolidColor, Texture};
use raytracing::vec3::Vec3;

fn v(x: i64, y: i64, z: i64) -> Vec3 {
    Vec3::new(x, y, z)
}

fn solid(x: i64, y: i64, z: i64) -> Texture {
    Texture::Solid(SolidColor::new(&v(x, y, z)))
}

fn gray(scene: &mut Scene) -> usize {
    scene.add_material(Material::Lambertian { tex: solid(ONE / 2, ONE / 2, ONE / 2) })
}

fn record(normal: Vec3, front_face: bool) -> HitRecord {
    HitRecord { p: v(0, 0, 0), normal, mat: 0, t: ONE, u: 0, v: 0, front_face }
}

const ALL: Interval = Interval { min: 0, max: i64::MAX };

#[test]
fn list_reports_the_closest_hit() {
    let mut scene = Scene::new();
    let m = gray(&mut scene);
    let far = scene.add(Hittable::Sphere(Sphere::new(v(0, 0, -10 * ONE), ONE, m)));
    let near = scene.add(Hittable::Sphere(Sphere::new(v(0, 0, -5 * ONE), ONE, m)));
    let mut list = HittableList::new(&scene, far);
    list.add(&scene, near);
    assert_eq!(list.bbox.z, Interval::new(-11 * ONE, -4 * ONE));
    let id = scene.add(Hittable::List(list));
    let ray = Ray::new(v(0, 0, 0), v(0, 0, -ONE), 0);
    assert_eq!(scene.hit(id, &ray, ALL).unwrap().t, 4 * ONE);
    assert_eq!(scene.hit(id, &ray, Interval::new(0, 3 * ONE)), None);
    let mut cleared = HittableList::new(&scene, far);
    cleared.clear();
    assert!(cleared.objects.is_empty());
}

fn hit_key(rec: Option<HitRecord>) -> Option<(i64, Vec3)> {
    rec.map(|r| (r.t, r.p))
}

#[test]
fn bvh_matches_linear_scan() {
    let mut rng = RandomSource::from_seed(7);
    let mut scene = Scene::new();
    let m = gray(&mut scene);
    let mut list = HittableList::empty();
    for i in 0..6 {
        for j in 0..6 {
            let c = v(
                (3 * i - 9) * ONE + rng.draw(-ONE / 2, ONE / 2),
                rng.draw(-ONE, ONE),
                (3 * j - 9) * ONE + rng.draw(-ONE / 2, ONE / 2),
            );
            let id = scene.add(Hittable::Sphere(Sphere::new(c, rng.draw(ONE / 4, ONE), m)));
            list.add(&scene, id);
        }
    }
    let bvh = BVHNode::from_list(&mut scene, &list);
    assert_eq!(BVHNode::depth(&scene, bvh, 0), 6);
    assert_eq!(BVHNode::depth(&scene, bvh, 3), 9);
    let linear = scene.add(Hittable::List(list));
    let mut hits = 0;
    for _ in 0..300 {
        let o = v(rng.draw(-20 * ONE, 20 * ONE), rng.draw(-20 * ONE, 20 * ONE), rng.draw(-20 * ONE, 20 * ONE));
        let target = v(rng.draw(-9 * ONE, 9 * ONE), rng.draw(-ONE, ONE), rng.draw(-9 * ONE, 9 * ONE));
        let ray = Ray::new(o, target.sub(&o), rng.draw(0, ONE));
        let a = scene.hit(linear, &ray, ALL);
        let b = scene.hit(bvh, &ray, ALL);
        assert_eq!(hit_key(a), hit_key(b));
        if a.is_some() {
            hits += 1;
        }
    }
    assert!(hits > 50);
}

#[test]
fn bvh_split_halves_along_longest_axis() {
    let mut scene = Scene::new();
    let m = gray(&mut scene);
    let xs = [5, -3, 9, 0, 7, -8, 2];
    let mut objects: Vec<usize> = xs
        .iter()
        .map(|x| scene.add(Hittable::Sphere(Sphere::new(v(x * ONE, 0, 0), ONE / 2, m))))
        .collect();
    let mut expected = objects.clone();
    let root = BVHNode::new(&mut scene, &mut objects, 0, 7);
    let mut got = objects.clone();
    got.sort();
    expected.sort();
    assert_eq!(got, expected);
    let key = |o: usize| scene.bounding_box(o).x.min;
    for i in 0..3 {
        for j in 3..7 {
            assert!(key(objects[i]) <= key(objects[j]));
        }
    }
    assert_eq!(BVHNode::depth(&scene, root, 0), 3);
    match &scene.objects[root] {
        Hittable::Bvh(BVHNode::Branch { .. }) => {}
        _ => panic!("root is not a branch"),
    }
}

#[test]
fn translate_moves_the_hit() {
    let mut scene = Scene::new();
    let m = gray(&mut scene);
    let s = scene.add(Hittable::Sphere(Sphere::new(v(0, 0, 0), ONE, m)));
    let t = Translate::new(&scene, s, v(5 * ONE, 0, 0));
    assert_eq!(t.bbox.x, Interval::new(4 * ONE, 6 * ONE));
    let id = scene.add(Hittable::Translate(t));
    let ray = Ray::new(v(5 * ONE, 0, 5 * ONE), v(0, 0, -ONE), 0);
    let rec = scene.hit(id, &ray, ALL).unwrap();
    assert_eq!(rec.t, 4 * ONE);
    assert_eq!(rec.p, v(5 * ONE, 0, ONE));
}

#[test]
fn rotate_y_quarter_turn() {
    let mut scene = Scene::new();
    let m = gray(&mut scene);
    let s = scene.add(Hittable::Sphere(Sphere::new(v(2 * ONE, 0, 0), ONE, m)));
    let r = RotateY::new(&scene, s, ONE, 0);
    assert_eq!(r.bbox.z, Interval::new(-3 * ONE, -ONE));
    assert_eq!(r.bbox.x, Interval::new(-ONE, ONE));
    let id = scene.add(Hittable::RotateY(r));
    let ray = Ray::new(v(0, 0, 0), v(0, 0, -ONE), 0);
    let rec = scene.hit(id, &ray, ALL).unwrap();
    assert_eq!(rec.t, ONE);
    assert_eq!(rec.p, v(0, 0, -ONE));
    assert_eq!(rec.normal, v(0, 0, ONE));
}

#[test]
fn box_of_six_quads() {
    let mut scene = Scene::new();
    let m = gray(&mut scene);
    let id = build_box(&mut scene, v(ONE, ONE, ONE), v(0, 0, 0), m);
    assert_eq!(id, 6);
    assert_eq!(scene.objects.len(), 7);
    let ray = Ray::new(v(ONE / 2, ONE / 2, 5 * ONE), v(0, 0, -ONE), 0);
    let rec = scene.hit(id, &ray, ALL).unwrap();
    assert_eq!(rec.t, 4 * ONE);
    assert_eq!(rec.p, v(ONE / 2, ONE / 2, ONE));
    let side = Ray::new(v(-5 * ONE, ONE / 2, ONE / 2), v(ONE, 0, 0), 0);
    assert_eq!(scene.hit(id, &side, ALL).unwrap().t, 5 * ONE);
}

#[test]
fn metal_without_fuzz_mirrors_exactly() {
    let metal = Material::Metal { albedo: v(ONE, ONE / 2, 0), fuzz: 0 };
    let r_in = Ray::new(v(-ONE, ONE, 0), v(ONE, -ONE, 0), 0);
    let rec = record(v(0, ONE, 0), true);
    let mut a = RandomSource::from_seed(1);
    let mut b = RandomSource::from_seed(2);
    let out_a = metal.scatter(&r_in, &rec, &mut a).unwrap();
    let out_b = metal.scatter(&r_in, &rec, &mut b).unwrap();
    assert_eq!(out_a, out_b);
    assert_eq!(out_a.0.dir, v(46341, 46341, 0));
    assert_eq!(out_a.1, v(ONE, ONE / 2, 0));
    let mut fresh = RandomSource::from_seed(1);
    assert_eq!(a.draw(0, 1 << 40), fresh.draw(0, 1 << 40));
}

#[test]
fn metal_absorbs_below_the_surface() {
    let metal = Material::Metal { albedo: v(ONE, ONE, ONE), fuzz: 0 };
    let r_in = Ray::new(v(0, 0, 0), v(ONE, ONE, 0), 0);
    let rec = record(v(0, ONE, 0), true);
    let mut rng = RandomSource::from_seed(3);
    assert!(metal.scatter(&r_in, &rec, &mut rng).is_none());
}

#[test]
fn dielectric_is_lossless() {
    let glass = Material::Dielectric { refraction_index: 3 * ONE / 2 };
    let mut rng = RandomSource::from_seed(11);
    for k in 0..200 {
        let d = v(rng.draw(-ONE, ONE), rng.draw(-ONE, -1), rng.draw(-ONE, ONE));
        let rec = record(v(0, ONE, 0), k % 2 == 0);
        let (_, att) = glass.scatter(&Ray::new(v(0, ONE, 0), d, 0), &rec, &mut rng).unwrap();
        assert_eq!(att, v(ONE, ONE, ONE));
    }
}

#[test]
fn refraction_straight_through() {
    assert_eq!(v(0, 0, -ONE).refract(&v(0, 0, ONE), ONE), v(0, 0, -ONE));
    let bent = v(0, -46341, -46341).refract(&v(0, 0, ONE), ONE);
    assert!((bent.y - (-46341)).abs() <= 2 && (bent.z - (-46341)).abs() <= 2, "{:?}", bent);
}

#[test]
fn light_emits_and_absorbs() {
    let light = Material::DiffuseLight { tex: solid(4 * ONE, 4 * ONE, 4 * ONE) };
    let mut rng = RandomSource::from_seed(5);
    let rec = record(v(0, ONE, 0), true);
    assert!(light.scatter(&Ray::new(v(0, ONE, 0), v(0, -ONE, 0), 0), &rec, &mut rng).is_none());
    assert_eq!(light.emitted(0, 0, &v(0, 0, 0)), v(4 * ONE, 4 * ONE, 4 * ONE));
    let matte = Material::Lambertian { tex: solid(ONE, 0, 0) };
    assert_eq!(matte.emitted(0, 0, &v(0, 0, 0)), v(0, 0, 0));
}

#[test]
fn lambertian_and_isotropic_scatter() {
    let mut rng = RandomSource::from_seed(9);
    let rec = record(v(0, ONE, 0), true);
    let r_in = Ray::new(v(0, ONE, 0), v(0, -ONE, 0), ONE / 3);
    let matte = Material::Lambertian { tex: solid(ONE / 2, ONE / 4, 0) };
    let (out, att) = matte.scatter(&r_in, &rec, &mut rng).unwrap();
    assert_eq!(att, v(ONE / 2, ONE / 4, 0));
    assert_eq!(out.tm, ONE / 3);
    assert!(!out.dir.near_zero());
    let fog = Material::Isotropic { tex: solid(ONE, ONE, ONE) };
    let (out, att) = fog.scatter(&r_in, &rec, &mut rng).unwrap();
    assert_eq!(att, v(ONE, ONE, ONE));
    let len = out.dir.length();
    assert!((len - ONE).abs() <= 8, "length {}", len);
}

#[test]
fn unit_vectors_are_unit() {
    let mut rng = RandomSource::from_seed(13);
    for _ in 0..100 {
        let u = Vec3::random_unit_vector(&mut rng);
        let len = u.length();
        assert!((len - ONE).abs() <= 8, "length {}", len);
    }
}

#[test]
fn random_draws_stay_in_range() {
    for _ in 0..200 {
        let r = random_int(-3, 4);
        assert!((-3..=4).contains(&r));
    }
    assert_eq!(random_int(5, 5), 5);
    let mut rng = RandomSource::from_seed(17);
    let draws: Vec<i64> = (0..200).map(|_| rng.draw(10, 20)).collect();
    assert!(draws.iter().all(|d| (10..20).contains(d)));
    assert!(draws.iter().any(|d| *d != draws[0]));
    let mut again = RandomSource::from_seed(17);
    assert_eq!(again.draw(10, 20), draws[0]);
}

#[test]
fn random_vectors_stay_in_range() {
    let mut rng = RandomSource::from_seed(23);
    for _ in 0..100 {
        let a = Vec3::random(&mut rng);
        assert!([a.x, a.y, a.z].iter().all(|c| (0..ONE).contains(c)));
        let b = Vec3::random_range(&mut rng, -5, 5);
        assert!([b.x, b.y, b.z].iter().all(|c| (-5..5).contains(c)));
        let s = Vec3::random_in_unit_sphere(&mut rng);
        let l = (s.x as i128).pow(2) + (s.y as i128).pow(2) + (s.z as i128).pow(2);
        assert!(l > 0 && l < (ONE as i128) * (ONE as i128));
        let d = Vec3::random_in_unit_disk(&mut rng);
        assert_eq!(d.z, 0);
        assert!((d.x as i128).pow(2) + (d.y as i128).pow(2) < (ONE as i128) * (ONE as i128));
        let h = Vec3::random_on_hemisphere(&mut rng, &v(0, ONE, 0));
        assert!(h.y >= 0);
        let r = random_double();
        assert!((0..ONE).contains(&r));
        let q = random_range(-3 * ONE, -ONE);
        assert!((-3 * ONE..-ONE).contains(&q));
    }
}

#[test]
fn checker_alternates_cells() {
    let c = CheckerTexture::from_colors(ONE, &v(ONE, 0, 0), &v(0, 0, ONE));
    assert_eq!(c.inv_scale, ONE);
    let tex = Texture::Checker(c);
    assert_eq!(tex.value(0, 0, &v(ONE / 2, ONE / 2, ONE / 2)), v(ONE, 0, 0));
    assert_eq!(tex.value(0, 0, &v(3 * ONE / 2, ONE / 2, ONE / 2)), v(0, 0, ONE));
    assert_eq!(tex.value(0, 0, &v(-ONE / 2, ONE / 2, ONE / 2)), v(0, 0, ONE));
    assert_eq!(tex.value(0, 0, &v(-ONE / 2, -ONE / 2, ONE / 2)), v(ONE, 0, 0));
}

#[test]
fn averaging_and_bytes() {
    assert_eq!(average(&vec![v(ONE, 0, 0), v(0, ONE, 0)]), v(ONE / 2, ONE / 2, 0));
    assert_eq!(average(&vec![v(3, -3, 1)]), v(3, -3, 1));
    assert_eq!(to_byte(ONE), 255);
    assert_eq!(to_byte(ONE / 4), 128);
    assert_eq!(to_byte(0), 0);
    assert_eq!(to_byte(-5), 0);
    assert_eq!(to_byte(4 * ONE), 255);
    assert_eq!(color_bytes(&v(ONE / 4, ONE, 0)), (128, 255, 0));
}

#[test]
fn negative_log_values() {
    assert_eq!(neg_log(ONE), 0);
    assert_eq!(neg_log(ONE / 2), 45426);
    assert_eq!(neg_log(ONE / 4), 90852);
    let mid = neg_log(ONE / 3);
    assert!((mid - 71999).abs() < 40, "{}", mid);
}

#[test]
fn medium_scatters_inside_or_passes() {
    let mut scene = Scene::new();
    let m = gray(&mut scene);
    let ball = scene.add(Hittable::Sphere(Sphere::new(v(0, 0, 0), ONE, m)));
    let dense = ConstantMedium::new(&mut scene, ball, 1000 * ONE, solid(ONE, ONE, ONE));
    let thin = ConstantMedium::new(&mut scene, ball, 1, solid(ONE, ONE, ONE));
    let dense_id = scene.add(Hittable::Medium(dense));
    let thin_id = scene.add(Hittable::Medium(thin));
    let ray = Ray::new(v(0, 0, 5 * ONE), v(0, 0, -ONE), 0);
    let rec = scene.hit(dense_id, &ray, ALL).unwrap();
    assert!(rec.t >= 4 * ONE && rec.t <= 6 * ONE, "{}", rec.t);
    assert_eq!(rec.mat, dense.phase_function);
    assert_eq!(scene.hit(dense_id, &ray, ALL), Some(rec));
    assert!(scene.hit(thin_id, &ray, ALL).is_none());
    let miss = Ray::new(v(3 * ONE, 0, 5 * ONE), v(0, 0, -ONE), 0);
    assert!(scene.hit(dense_id, &miss, ALL).is_none());
    let empty = ConstantMedium::new(&mut scene, ball, 0, solid(ONE, ONE, ONE));
    let empty_id = scene.add(Hittable::Medium(empty));
    assert!(scene.hit(empty_id, &ray, ALL).is_none());
}

fn three_spheres() -> (Scene, usize) {
    let mut scene = Scene::new();
    let ground = scene.add_material(Material::Lambertian { tex: solid(ONE / 2, ONE / 2, ONE / 2) });
    let glass = scene.add_material(Material::Dielectric { refraction_index: 3 * ONE / 2 });
    let metal = scene.add_material(Material::Metal { albedo: v(45875, 39321, 32768), fuzz: 0 });
    let mut list = HittableList::empty();
    let a = scene.add(Hittable::Sphere(Sphere::new(v(0, -1000 * ONE, 0), 1000 * ONE, ground)));
    list.add(&scene, a);
    let b = scene.add(Hittable::Sphere(Sphere::new(v(0, ONE, 0), ONE, glass)));
    list.add(&scene, b);
    let c = scene.add(Hittable::Sphere(Sphere::new(v(4 * ONE, ONE, 0), ONE, metal)));
    list.add(&scene, c);
    let bvh = BVHNode::from_list(&mut scene, &list);
    (scene, bvh)
}

fn render_small(scene: &Scene, world: usize, seed: u64) -> Vec<(u8, u8, u8)> {
    let background = v(45875, 52428, ONE);
    let (w, h) = (8i64, 6i64);
    let mut out = Vec::new();
    for j in 0..h {
        for i in 0..w {
            let mut rng = RandomSource::from_seed(seed ^ ((j * w + i) as u64));
            let mut samples = Vec::new();
            for _ in 0..8 {
                let px = (i * ONE + rng.draw(0, ONE)) / w - ONE / 2;
                let py = ONE / 2 - (j * ONE + rng.draw(0, ONE)) / h;
                let dir = v(4 * px, 3 * py + ONE / 8, -ONE);
                let ray = Ray::new(v(ONE / 2, ONE, 8 * ONE), dir, rng.draw(0, ONE));
                samples.push(ray_color(scene, world, &ray, 10, &background, &mut rng));
            }
            out.push(color_bytes(&average(&samples)));
        }
    }
    out
}

#[test]
fn three_sphere_render_is_deterministic() {
    let (scene, world) = three_spheres();
    let first = render_small(&scene, world, 42);
    let second = render_small(&scene, world, 42);
    assert_eq!(first, second);
    let background = v(45875, 52428, ONE);
    let mut rng = RandomSource::from_seed(1);
    let up = Ray::new(v(0, 5 * ONE, 0), v(0, ONE, 0), 0);
    assert_eq!(ray_color(&scene, world, &up, 10, &background, &mut rng), background);
    assert_eq!(ray_color(&scene, world, &up, 0, &background, &mut rng), v(0, 0, 0));
    let top = first[0];
    assert!(top.2 > 200, "{:?}", top);
    let bottom = first[first.len() - 1];
    assert!(bottom.2 < top.2, "{:?} {:?}", bottom, top);
}

#[test]
fn planar_constructor_box() {
    let p = Planar::new(v(0, 0, 0), v(ONE, 0, 0), v(0, 0, ONE), 0, Shape::Quad);
    assert_eq!(p.bbox.x, Interval::new(0, ONE));
    assert_eq!(p.bbox.y, Interval::new(-4, 4));
    assert_eq!(p.n, v(0, -ONE, 0));
}
