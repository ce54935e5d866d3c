use rustyrender::geometry::{Vec2, Vec3};

#[test]
fn vec2_new_is_zero() {
    let v = Vec2::<isize>::new();
    assert_eq!((v.x, v.y), (0, 0));
}

#[test]
fn vec3_new_is_zero() {
    let v = Vec3::<i128>::new();
    assert_eq!((v.x, v.y, v.z), (0, 0, 0));
}

#[test]
fn vec2_from_components() {
    let v = Vec2::<isize>::from(3, -4);
    assert_eq!((v.x, v.y), (3, -4));
    let w = Vec2::<isize>::from_slice(&[7, 8, 9]);
    assert_eq!((w.x, w.y), (7, 8));
}

#[test]
fn vec3_from_components() {
    let v = Vec3::<i128>::from(1, 2, 3);
    assert_eq!((v.x, v.y, v.z), (1, 2, 3));
    let w = Vec3::<i128>::from_slice(&[-1, -2, -3, -4]);
    assert_eq!((w.x, w.y, w.z), (-1, -2, -3));
}

#[test]
fn vec2_add_and_sub() {
    let a = Vec2::<isize>::from(5, 7);
    let b = Vec2::<isize>::from(2, 10);
    let s = a + b;
    let d = a - b;
    assert_eq!((s.x, s.y), (7, 17));
    assert_eq!((d.x, d.y), (3, -3));
}

#[test]
fn vec3_sub() {
    let d = Vec3::<i128>::from(5, 7, 9) - Vec3::<i128>::from(1, 10, 9);
    assert_eq!((d.x, d.y, d.z), (4, -3, 0));
}

#[test]
fn cross_product_of_axes() {
    let x = Vec3::<i128>::from(1, 0, 0);
    let y = Vec3::<i128>::from(0, 1, 0);
    let z = x.cross_product(y);
    assert_eq!((z.x, z.y, z.z), (0, 0, 1));
    let back = y.cross_product(x);
    assert_eq!((back.x, back.y, back.z), (0, 0, -1));
}

#[test]
fn cross_product_general() {
    let a = Vec3::<i128>::from(2, 3, 4);
    let b = Vec3::<i128>::from(5, 6, 7);
    let c = a.cross_product(b);
    assert_eq!((c.x, c.y, c.z), (3 * 7 - 4 * 6, 4 * 5 - 2 * 7, 2 * 6 - 3 * 5));
    assert_eq!((c.x, c.y, c.z), (-3, 6, -3));
}

#[test]
fn vectors_are_copied() {
    let a = Vec2::<isize>::from(1, 2);
    let b = a;
    let c = a.clone();
    assert_eq!((a.x, a.y), (b.x, b.y));
    assert_eq!((a.x, a.y), (c.x, c.y));
}
