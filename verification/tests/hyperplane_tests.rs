use sieve::hyperplane::HyperPlane;
use sieve::vector::Vector;

fn bits(xs: &[f32]) -> Vec<u32> {
    let mut v: Vec<u32> = Vec::new();
    for x in xs {
        v.push(x.to_bits());
    }
    v
}

#[test]
fn test_is_point_above() {
    let plane = HyperPlane::new(Vector::new(bits(&[1.0, 0.0])), (0.0f32).to_bits());
    let point = Vector::new(bits(&[1.0, 1.0]));
    assert!(plane.is_point_above(&point));
}

#[test]
fn test_is_point_below() {
    let plane = HyperPlane::new(Vector::new(bits(&[1.0, 0.0])), (-2.0f32).to_bits());
    let point = Vector::new(bits(&[1.0, 1.0]));
    assert!(!plane.is_point_above(&point));
}

#[test]
fn test_boundary_counts_as_above() {
    let plane = HyperPlane::new(Vector::new(bits(&[1.0, 0.0])), (-1.0f32).to_bits());
    let point = Vector::new(bits(&[1.0, 7.0]));
    assert!(plane.is_point_above(&point));
}
