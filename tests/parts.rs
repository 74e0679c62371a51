use metrics::{sort_attributes, MetricAttributes, MetricPoint, MetricPointInner};

#[test]
fn point_starts_at_one() {
    let p = MetricPoint::new();
    assert_eq!(p.get_sum(), 1);
    assert_eq!(p.sum(), 1);
    let _inner = MetricPointInner::new();
}

#[test]
fn point_adds() {
    let mut p = MetricPoint::new();
    p.add(4);
    p.add(0);
    assert_eq!(p.get_sum(), 5);
}

#[test]
fn point_sum_is_cut_to_32_bits() {
    let mut p = MetricPoint::new();
    p.add(u32::MAX);
    assert_eq!(p.sum(), 4_294_967_296);
    assert_eq!(p.get_sum(), 0);
    p.add(7);
    assert_eq!(p.get_sum(), 7);
}

#[test]
fn sort_by_name_then_value() {
    let r = sort_attributes(&[("b", "2"), ("a", "9"), ("a", "1")]);
    assert_eq!(r, vec![("a", "1"), ("a", "9"), ("b", "2")]);
}

#[test]
fn sort_compares_bytes() {
    let r = sort_attributes(&[("ab", "x"), ("a", "x"), ("Z", "x"), ("é", "x"), ("b", "x")]);
    assert_eq!(r, vec![("Z", "x"), ("a", "x"), ("ab", "x"), ("b", "x"), ("é", "x")]);
}

#[test]
fn sort_keeps_repeats() {
    let r = sort_attributes(&[("k", "v"), ("j", "w"), ("k", "v")]);
    assert_eq!(r, vec![("j", "w"), ("k", "v"), ("k", "v")]);
    assert!(sort_attributes(&[]).is_empty());
}

#[test]
fn keys_compare_in_order() {
    let a = MetricAttributes::new(&[("k1", "v1"), ("k2", "v2")]);
    let b = MetricAttributes::new_from_vec(vec![("k1", "v1"), ("k2", "v2")]);
    let c = MetricAttributes::new(&[("k2", "v2"), ("k1", "v1")]);
    assert!(a.same_key(&b));
    assert!(!a.same_key(&c));
    assert_eq!(a.hash_value(), b.hash_value());
    assert_eq!(a.attributes(), &vec![("k1", "v1"), ("k2", "v2")]);
}

#[test]
fn hash_depends_on_attributes() {
    let a = MetricAttributes::new(&[("k1", "v1")]);
    let b = MetricAttributes::new(&[("k1", "v2")]);
    let e = MetricAttributes::new(&[]);
    assert_ne!(a.hash_value(), b.hash_value());
    assert_ne!(a.hash_value(), e.hash_value());
    assert_ne!(a.hash_value(), 0);
}
