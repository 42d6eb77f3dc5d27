use term_raster::math::{interpolate, interpolate_x, Triangle, Vector2};

#[test]
fn vector2_new_fields() {
    let v = Vector2::new(3usize, 9usize);
    assert_eq!(v.x, 3);
    assert_eq!(v.y, 9);
}

#[test]
fn vector2_interpolate_steps() {
    let a = Vector2::new(1usize, 2usize);
    let b = Vector2::new(3usize, 6usize);
    let r = a.interpolate(b, 2);
    assert_eq!(r.x, 5);
    assert_eq!(r.y, 10);
}

#[test]
fn interpolate_linear_step() {
    assert_eq!(interpolate(0, 2, 8, 4), 8);
    assert_eq!(interpolate(10, 10, 20, 14), 10);
}

#[test]
fn triangle_new_fields() {
    let t = Triangle::new(
        Vector2::new(1usize, 2usize),
        Vector2::new(3usize, 4usize),
        Vector2::new(5usize, 6usize),
    );
    assert_eq!(t.c1, Vector2::new(1, 2));
    assert_eq!(t.c2, Vector2::new(3, 4));
    assert_eq!(t.c3, Vector2::new(5, 6));
}

#[test]
fn interpolate_x_hits_endpoints() {
    let p0 = Vector2::new(2usize, 1usize);
    let p1 = Vector2::new(10usize, 5usize);
    assert_eq!(interpolate_x(p0, p1, 1), 2);
    assert_eq!(interpolate_x(p0, p1, 5), 10);
}

#[test]
fn interpolate_x_midpoint_exact() {
    let p0 = Vector2::new(2usize, 1usize);
    let p1 = Vector2::new(10usize, 5usize);
    assert_eq!(interpolate_x(p0, p1, 3), 6);
}

#[test]
fn interpolate_x_truncates() {
    let p0 = Vector2::new(0usize, 0usize);
    let p1 = Vector2::new(10usize, 3usize);
    assert_eq!(interpolate_x(p0, p1, 1), 3);
    assert_eq!(interpolate_x(p0, p1, 2), 6);
}

#[test]
fn interpolate_x_descending_edge() {
    let p0 = Vector2::new(50usize, 6usize);
    let p1 = Vector2::new(30usize, 18usize);
    assert_eq!(interpolate_x(p0, p1, 7), 48);
    assert_eq!(interpolate_x(p0, p1, 12), 40);
}

#[test]
fn interpolate_x_horizontal_guard() {
    let p0 = Vector2::new(7usize, 3usize);
    let p1 = Vector2::new(9usize, 3usize);
    assert_eq!(interpolate_x(p0, p1, 3), 7);
    assert_eq!(interpolate_x(p0, p1, 100), 7);
}
