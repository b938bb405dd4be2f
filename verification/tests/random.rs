use mmv::{next_random, RandomPathGenerator};

#[test]
fn generator_is_deterministic_for_a_seed() {
    let mut a = RandomPathGenerator::new(123456);
    let mut b = RandomPathGenerator::new(123456);
    for _ in 0..5 {
        assert_eq!(next_random(&mut a), next_random(&mut b));
    }
}

#[test]
fn first_value_follows_the_congruential_step() {
    // seed * 1664525 + 1013904223, reduced to at most nine digits
    let mut rng = RandomPathGenerator::new(1);
    assert_eq!(next_random(&mut rng), "15568748");
    let mut rng0 = RandomPathGenerator::new(0);
    assert_eq!(next_random(&mut rng0), "13904223");
}

#[test]
fn values_are_short_digit_strings() {
    let mut rng = RandomPathGenerator::new(987654321);
    for _ in 0..20 {
        let v = next_random(&mut rng);
        assert!(1 <= v.len() && v.len() <= 9);
        assert!(v.chars().all(|c| c.is_ascii_digit()));
    }
}

#[test]
fn the_stream_moves_on() {
    let mut rng = RandomPathGenerator::new(77);
    let a = next_random(&mut rng);
    let b = next_random(&mut rng);
    assert_ne!(a, b);
}
