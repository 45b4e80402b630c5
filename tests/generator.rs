use burrow_db::generator::Rng;

#[test]
fn lcg_first_values_from_seed_42() {
    let mut r = Rng::new(42);
    assert_eq!(r.next(), 1083814273);
    assert_eq!(r.next(), 1804036966669548);
    assert_eq!(r.next(), 14492092005695927131);
}

#[test]
fn gen_range_reduces_modulo_width() {
    let mut r = Rng::new(42);
    let got: Vec<usize> = (0..5).map(|_| r.gen_range(0, 10)).collect();
    assert_eq!(got, vec![3, 8, 1, 8, 5]);
    let mut r = Rng::new(42);
    assert_eq!(r.gen_range(5, 6), 5);
}

#[test]
fn gen_bool_extremes_and_middle() {
    let mut r = Rng::new(3);
    for _ in 0..50 {
        assert!(!r.gen_bool(0, 10));
        assert!(r.gen_bool(10, 10));
    }
    let mut r = Rng::new(7);
    assert!(r.gen_bool(1, 2));
}

#[test]
fn same_seed_same_sequence() {
    let mut a = Rng::new(1234);
    let mut b = Rng::new(1234);
    for i in 0..100 {
        assert_eq!(a.gen_range(0, 1 + i), b.gen_range(0, 1 + i));
        assert_eq!(a.gen_bool(7, 10), b.gen_bool(7, 10));
        assert_eq!(a.next(), b.next());
    }
}

#[test]
fn different_seeds_differ() {
    let mut a = Rng::new(1);
    let mut b = Rng::new(2);
    assert_ne!(a.next(), b.next());
}
