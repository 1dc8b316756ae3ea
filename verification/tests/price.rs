use alloy_primitives::U256;
use matching_engine::price::{reduce_max, reduce_min, Ray};

#[test]
fn limbs_are_little_endian() {
    let r = Ray::from_u128(0x0123_4567_89ab_cdef_0011_2233_4455_6677);
    assert_eq!(r.into_limbs(), [0x0011_2233_4455_6677, 0x0123_4567_89ab_cdef, 0, 0]);
    assert_eq!(U256::from_limbs(r.into_limbs()), U256::from(0x0123_4567_89ab_cdef_0011_2233_4455_6677u128));
    assert_eq!(Ray::from_limbs([1, 2, 3, 4]).into_limbs(), [1, 2, 3, 4]);
}

#[test]
fn zero_is_the_default() {
    assert_eq!(Ray::default(), Ray::zero());
    assert_eq!(Ray::zero().into_limbs(), [0, 0, 0, 0]);
    assert_eq!(Ray::zero(), Ray::from_u128(0));
}

#[test]
fn max_value_is_all_ones() {
    assert_eq!(Ray::max_value().into_limbs(), [u64::MAX; 4]);
    assert_eq!(U256::from_limbs(Ray::max_value().into_limbs()), U256::MAX);
}

#[test]
fn order_is_the_order_of_the_integers() {
    let low = Ray::from_limbs([u64::MAX, 0, 0, 0]);
    let high = Ray::from_limbs([0, 1, 0, 0]);
    assert!(low.lt(&high));
    assert!(!high.lt(&low));
    assert!(!low.lt(&low));
    assert!(low.le(&high));
    assert!(low.le(&low));
    assert!(!high.le(&low));
    let top = Ray::from_limbs([0, 0, 0, 1]);
    let wide = Ray::from_limbs([u64::MAX, u64::MAX, u64::MAX, 0]);
    assert!(wide.lt(&top));
    assert!(Ray::zero().lt(&Ray::max_value()));
    assert!(top.lt(&Ray::max_value()));
}

#[test]
fn min_and_max_of_two() {
    let a = Ray::from_u128(3);
    let b = Ray::from_u128(8);
    assert_eq!(a.min(b), a);
    assert_eq!(b.min(a), a);
    assert_eq!(a.max(b), b);
    assert_eq!(b.max(a), b);
    assert_eq!(a.min(a), a);
    assert_eq!(a.max(a), a);
}

#[test]
fn reduce_min_of_nothing_is_zero() {
    assert_eq!(reduce_min(&vec![]), Ray::zero());
}

#[test]
fn reduce_max_of_nothing_is_the_largest_price() {
    assert_eq!(reduce_max(&vec![]), Ray::max_value());
}

#[test]
fn reduce_min_and_max_scan_every_price() {
    let prices: Vec<Ray> = [7u128, 3, 9, 3, 12, 5].iter().map(|v| Ray::from_u128(*v)).collect();
    assert_eq!(reduce_min(&prices), Ray::from_u128(3));
    assert_eq!(reduce_max(&prices), Ray::from_u128(12));
    let one = vec![Ray::from_u128(4)];
    assert_eq!(reduce_min(&one), Ray::from_u128(4));
    assert_eq!(reduce_max(&one), Ray::from_u128(4));
}
