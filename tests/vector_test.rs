use distance_field::face::Face;
use distance_field::vec3::Vec3;
use std::cmp::Ordering;

#[test]
fn cross() {
    let v0 = Vec3::new((0, 0, 1));
    let v1 = Vec3::new((0, 1, 0));
    assert_eq!(Vec3::new((1, 0, 0)), v1.cross(&v0));
    assert_eq!(Vec3::new((-1, 0, 0)), v0.cross(&v1));
}

#[test]
fn normal() {
    let v0 = Vec3::new((0, 0, 1));
    let v1 = Vec3::new((1, 0, 0));
    let v2 = Vec3::new((0, 1, 0));
    let verts = vec![v0, v1, v2];
    let f0 = Face::new(0, 1, 2);
    let raw = f0.compute_normal(&verts);
    let len = ((raw.x * raw.x + raw.y * raw.y + raw.z * raw.z) as f64).sqrt();
    let n = (
        (100.0 * raw.x as f64 / len).round() / 100.0,
        (100.0 * raw.y as f64 / len).round() / 100.0,
        (100.0 * raw.z as f64 / len).round() / 100.0,
    );
    assert_eq!((0.58, 0.58, 0.58), n);
}

#[test]
fn vec3_arithmetic() {
    let a = Vec3::new((1, 2, 3));
    let b = Vec3::new((4, -5, 6));
    assert_eq!(a.dot(&b), 4 - 10 + 18);
    assert_eq!(a.delta(&b), Vec3::new((-3, 7, -3)));
    assert_eq!(a.add(&b), Vec3::new((5, -3, 9)));
    assert_eq!(a.distance_sq_to(&b), 9 + 49 + 9);
    assert_eq!(a.len_sq(), 14);
    assert_eq!(b.index(1), -5);
}

#[test]
fn vec3_comparisons_tolerate_a_hundredth_of_a_cell() {
    let a = Vec3::new((1000, 0, 0));
    let b = Vec3::new((1000 + 5099, 0, 0));
    let c = Vec3::new((1000 + 5100, 0, 0));
    assert_eq!(a.cmp_x(&b), Ordering::Equal);
    assert_eq!(a.cmp_x(&c), Ordering::Less);
    assert_eq!(c.cmp_x(&a), Ordering::Greater);
    let p = Vec3::new((0, 10, 0));
    let q = Vec3::new((7, 10, 0));
    assert_eq!(p.cmp_y(&q), Ordering::Equal);
    assert_eq!(p.cmp_xy(&Vec3::new((100000, 10, 0))), Ordering::Less);
    assert_eq!(p.cmp_xy(&Vec3::new((-100000, 0, 0))), Ordering::Greater);
}
