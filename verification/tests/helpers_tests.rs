use sand::helpers::{dn, dn_l, dn_r, left, right, up, up_l, up_r};
use sand::helpers::{i8vec2, i8vec2_vector, scalar_add, scalar_sub, I8Vec2, PColor};

#[test]
fn i8vec2_builds_components() {
    let v = i8vec2(3, -4);
    assert_eq!(v.x, 3);
    assert_eq!(v.y, -4);
    assert_eq!(v, I8Vec2::new(3, -4));
}

#[test]
fn i8vec2_vector_keeps_order() {
    let v = i8vec2_vector(vec![(0, -1), (1, 0), (-1, 0), (0, 1)]);
    assert_eq!(v, vec![I8Vec2::new(0, -1), I8Vec2::new(1, 0), I8Vec2::new(-1, 0), I8Vec2::new(0, 1)]);
    assert!(i8vec2_vector(vec![]).is_empty());
}

#[test]
fn splat_sets_both() {
    assert_eq!(I8Vec2::splat(7), I8Vec2::new(7, 7));
    assert_eq!(I8Vec2::splat(0), I8Vec2::new(0, 0));
}

#[test]
fn abs_is_componentwise() {
    assert_eq!(I8Vec2::new(-3, 4).abs(), I8Vec2::new(3, 4));
    assert_eq!(I8Vec2::new(127, -127).abs(), I8Vec2::new(127, 127));
}

#[test]
fn min_and_max_are_componentwise() {
    let a = I8Vec2::new(1, 9);
    let b = I8Vec2::new(5, -2);
    assert_eq!(a.min(b), I8Vec2::new(1, -2));
    assert_eq!(a.max(b), I8Vec2::new(5, 9));
    assert_eq!(b.min(a), a.min(b));
}

#[test]
fn clamp_keeps_inside() {
    let lo = I8Vec2::new(-2, 0);
    let hi = I8Vec2::new(2, 3);
    assert_eq!(I8Vec2::new(-9, 9).clamp(lo, hi), I8Vec2::new(-2, 3));
    assert_eq!(I8Vec2::new(1, 1).clamp(lo, hi), I8Vec2::new(1, 1));
}

#[test]
fn length_sq_is_sum_of_squares() {
    assert_eq!(I8Vec2::new(3, 4).length_sq(), 25);
    assert_eq!(I8Vec2::new(0, 0).length_sq(), 0);
    assert_eq!(I8Vec2::new(-100, 100).length_sq(), 20000);
    assert_eq!(I8Vec2::new(-128, 127).length_sq(), 32513);
}

#[test]
fn add_and_sub_undo_each_other() {
    let a = I8Vec2::new(3, -5);
    let b = I8Vec2::new(-1, 2);
    assert_eq!(a.add(b), I8Vec2::new(2, -3));
    assert_eq!(a.add(b).sub(b), a);
    assert_eq!(a.add_scalar(2), I8Vec2::new(5, -3));
    assert_eq!(a.sub_scalar(2), I8Vec2::new(1, -7));
    assert_eq!(scalar_add(1, a), I8Vec2::new(4, -4));
    assert_eq!(scalar_sub(1, a), I8Vec2::new(-2, 6));
    let mut c = a;
    c.add_assign(b);
    assert_eq!(c, I8Vec2::new(2, -3));
    c.sub_assign(b);
    assert_eq!(c, a);
    c.add_assign_scalar(1);
    assert_eq!(c, I8Vec2::new(4, -4));
    c.sub_assign_scalar(1);
    assert_eq!(c, a);
}

#[test]
fn conversions_widen() {
    let a = I8Vec2::new(-7, 8);
    assert_eq!(a.to_i16_pair(), (-7i16, 8i16));
    assert_eq!(a.to_offset(), (-7isize, 8isize));
    assert_eq!(I8Vec2::from_pair((2, -2)), I8Vec2::new(2, -2));
}

#[test]
fn pcolor_new_sets_channels() {
    let c = PColor::new(226, 188, 128);
    assert_eq!((c.r, c.g, c.b), (226, 188, 128));
}

#[test]
fn named_unit_vectors() {
    assert_eq!(I8Vec2::zero(), i8vec2(0, 0));
    assert_eq!(I8Vec2::one(), i8vec2(1, 1));
    assert_eq!(I8Vec2::neg_one(), i8vec2(-1, -1));
    assert_eq!(I8Vec2::unit_x(), i8vec2(1, 0));
    assert_eq!(I8Vec2::unit_y(), i8vec2(0, 1));
    assert_eq!(I8Vec2::neg_unit_x(), i8vec2(-1, 0));
    assert_eq!(I8Vec2::neg_unit_y(), i8vec2(0, -1));
    assert_eq!(I8Vec2::axes(), [i8vec2(1, 0), i8vec2(0, 1)]);
    assert_eq!(up(), I8Vec2::neg_unit_y());
    assert_eq!(dn(), I8Vec2::unit_y());
    assert_eq!(left(), I8Vec2::neg_unit_x());
    assert_eq!(right(), I8Vec2::unit_x());
    assert_eq!(up_l(), i8vec2(-1, -1));
    assert_eq!(up_r(), i8vec2(1, -1));
    assert_eq!(dn_l(), i8vec2(-1, 1));
    assert_eq!(dn_r(), i8vec2(1, 1));
}
