use sieve::vector::Vector;

fn bits(xs: &[f32]) -> Vec<u32> {
    let mut v: Vec<u32> = Vec::new();
    for x in xs {
        v.push(x.to_bits());
    }
    v
}

#[test]
fn test_new() {
    let vector = Vector::new(bits(&[0.0, 0.0, 0.0]));
    assert_eq!(vector.values(), bits(&[0.0, 0.0, 0.0]));
}

#[test]
fn test_add() {
    let a = Vector::new(bits(&[1.0, 2.0, 3.0]));
    let b = Vector::new(bits(&[4.0, 5.0, 6.0]));
    let c = a.add(&b);
    assert_eq!(c.values(), bits(&[5.0, 7.0, 9.0]));

    let a = Vector::new(bits(&[-1.0, -2.0, -3.0]));
    let b = Vector::new(bits(&[4.0, 5.0, 6.0]));
    let c = a.add(&b);
    assert_eq!(c.values(), bits(&[3.0, 3.0, 3.0]));
}

#[test]
fn test_sub() {
    let a = Vector::new(bits(&[1.0, 2.0, 3.0]));
    let b = Vector::new(bits(&[4.0, 5.0, 6.0]));
    let c = a.sub(&b);
    assert_eq!(c.values(), bits(&[-3.0, -3.0, -3.0]));

    let a = Vector::new(bits(&[-1.0, -2.0, -3.0]));
    let b = Vector::new(bits(&[4.0, 5.0, 6.0]));
    let c = a.sub(&b);
    assert_eq!(c.values(), bits(&[-5.0, -7.0, -9.0]));
}

#[test]
fn test_avg() {
    let a = Vector::new(bits(&[1.0, 2.0, 3.0]));
    let b = Vector::new(bits(&[4.0, 5.0, 6.0]));
    let c = a.avg(&b);
    assert_eq!(c.values(), bits(&[2.5, 3.5, 4.5]));

    let a = Vector::new(bits(&[-1.0, -2.0, -3.0]));
    let b = Vector::new(bits(&[4.0, 5.0, 6.0]));
    let c = a.avg(&b);
    assert_eq!(c.values(), bits(&[1.5, 1.5, 1.5]));
}

#[test]
fn test_dot() {
    let a = Vector::new(bits(&[1.0, 2.0, 3.0]));
    let b = Vector::new(bits(&[4.0, 5.0, 6.0]));
    let c = a.dot(&b);
    assert_eq!(c, (32.0f32).to_bits());

    let a = Vector::new(bits(&[-1.0, -2.0, -3.0]));
    let b = Vector::new(bits(&[4.0, 5.0, 6.0]));
    let c = a.dot(&b);
    assert_eq!(c, (-32.0f32).to_bits());
}

#[test]
fn test_squared_euclidian_distance() {
    let a = Vector::new(bits(&[1.0, 2.0]));
    let b = Vector::new(bits(&[4.0, 6.0]));
    let c = a.squared_euclidian_distance(&b);
    assert_eq!(c, (25.0f32).to_bits());

    let a = Vector::new(bits(&[-1.0, -2.0]));
    let b = Vector::new(bits(&[4.0, 6.0]));
    let c = a.squared_euclidian_distance(&b);
    assert_eq!(c, (89.0f32).to_bits());
}

#[test]
fn test_hashkey() {
    let a = Vector::new(bits(&[1.0, 2.0, 3.0]));
    let b = Vector::new(bits(&[1.0, 2.0, 3.0]));
    let c = Vector::new(bits(&[1.0, 2.0, 4.0]));
    assert_eq!(a.hashkey(), b.hashkey());
    assert_ne!(a.hashkey(), c.hashkey());
}

#[test]
fn test_hashkey_distinguishes_zero_signs() {
    let a = Vector::new(bits(&[0.0]));
    let b = Vector::new(bits(&[-0.0]));
    assert_ne!(a.hashkey(), b.hashkey());
}
