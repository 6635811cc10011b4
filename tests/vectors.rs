use vdb::level::{draw_level, generate_level};
use vdb::vector::{
    cosine, dot_product, more_similar, similarity, squared_norm, Cosine, Similarity, VectorError,
};

#[test]
fn dot_product_exact() {
    let a: Vec<i16> = vec![1, 2, 3];
    let b: Vec<i16> = vec![4, -5, 6];
    assert_eq!(dot_product(&a, &b), 12);
    assert_eq!(a.dot_product(&b), 12);
}

#[test]
fn squared_norm_exact() {
    let a: Vec<i16> = vec![3, -4];
    assert_eq!(squared_norm(&a), 25);
    assert_eq!(a.squared_l2_norm(), 25);
}

#[test]
fn dot_product_extremes_do_not_overflow() {
    let a: Vec<i16> = vec![i16::MIN; 4096];
    assert_eq!(dot_product(&a, &a), 4096 * (1i64 << 30));
}

#[test]
fn similarity_components() {
    let a: Vec<i16> = vec![1, 1, 0, 0];
    let b: Vec<i16> = vec![1, 0, 0, 0];
    let s = similarity(&a, &b).unwrap();
    assert_eq!(s, Cosine { dot: 1, norm_sq_a: 2, norm_sq_b: 1 });
}

#[test]
fn similarity_length_mismatch() {
    let a: Vec<i16> = vec![1, 2];
    let b: Vec<i16> = vec![1, 2, 3];
    assert_eq!(similarity(&a, &b), Err(VectorError::DimensionMismatch));
    assert_eq!(a.similarity(&b), Err(VectorError::DimensionMismatch));
}

#[test]
fn similarity_too_long() {
    let a: Vec<i16> = vec![1; 4097];
    assert_eq!(similarity(&a, &a), Err(VectorError::DimensionTooLarge));
}

fn value(c: &Cosine) -> f64 {
    if c.norm_sq_a == 0 || c.norm_sq_b == 0 {
        0.0
    } else {
        c.dot as f64 / ((c.norm_sq_a as f64) * (c.norm_sq_b as f64)).sqrt()
    }
}

#[test]
fn self_similarity_is_one() {
    let v: Vec<i16> = vec![3, -7, 12, 0, 5];
    let s = cosine(&v, &v);
    assert_eq!(s, Cosine { dot: 227, norm_sq_a: 227, norm_sq_b: 227 });
    assert!((value(&s) - 1.0).abs() < 1e-6);
}

#[test]
fn similarity_is_symmetric() {
    let a: Vec<i16> = vec![3, 1, -2, 9];
    let b: Vec<i16> = vec![-1, 4, 4, 2];
    let x = cosine(&a, &b);
    let y = cosine(&b, &a);
    assert_eq!(x.dot, y.dot);
    assert!((value(&x) - value(&y)).abs() < 1e-12);
}

#[test]
fn zero_norm_similarity_is_zero() {
    let a: Vec<i16> = vec![0, 0, 0];
    let b: Vec<i16> = vec![1, 2, 3];
    assert_eq!(value(&cosine(&a, &b)), 0.0);
    assert_eq!(value(&cosine(&b, &a)), 0.0);
}

#[test]
fn more_similar_orders_values() {
    let q: Vec<i16> = vec![1, 0];
    let near: Vec<i16> = vec![10, 1];
    let far: Vec<i16> = vec![1, 10];
    let opposite: Vec<i16> = vec![-5, 0];
    let zero: Vec<i16> = vec![0, 0];
    let sn = cosine(&near, &q);
    let sf = cosine(&far, &q);
    let so = cosine(&opposite, &q);
    let sz = cosine(&zero, &q);
    assert!(more_similar(&sn, &sf));
    assert!(!more_similar(&sf, &sn));
    assert!(more_similar(&sf, &so));
    assert!(more_similar(&sz, &so));
    assert!(!more_similar(&sz, &sz));
    assert!(more_similar(&sf, &sz));
}

#[test]
fn level_boundaries() {
    let w: Vec<u32> = vec![50, 30, 15, 5];
    assert_eq!(generate_level(&w, 0), 0);
    assert_eq!(generate_level(&w, 49), 0);
    assert_eq!(generate_level(&w, 50), 1);
    assert_eq!(generate_level(&w, 79), 1);
    assert_eq!(generate_level(&w, 80), 2);
    assert_eq!(generate_level(&w, 94), 2);
    assert_eq!(generate_level(&w, 95), 3);
    assert_eq!(generate_level(&w, 99), 3);
    assert_eq!(generate_level(&w, 1000), 3);
}

#[test]
fn level_single_weight() {
    let w: Vec<u32> = vec![7];
    assert_eq!(generate_level(&w, 0), 0);
    assert_eq!(generate_level(&w, 100), 0);
}

#[test]
fn drawn_levels_vary_within_range() {
    let mut seen = [0usize; 4];
    for _ in 0..400 {
        let l = draw_level();
        assert!(l < 4);
        seen[l] += 1;
    }
    assert!(seen[0] > 0);
    assert!(seen[0] < 400);
}
