use distribution::rng::Rng;

fn xorshift_step(mut s: u64) -> u64 {
    s ^= s << 13;
    s ^= s >> 17;
    s ^= s << 43;
    s
}

#[test]
fn determinism_same_seed() {
    let mut a = Rng::new(0x1234_5678_9abc_def0);
    let mut b = Rng::new(0x1234_5678_9abc_def0);
    for _ in 0..10_000 {
        assert_eq!(a.rand(), b.rand());
    }
}

#[test]
fn first_draw_is_seed() {
    for seed in [1u64, 2, 42, 0xdead_beef, u64::MAX] {
        let mut g = Rng::new(seed);
        assert_eq!(g.rand(), seed);
    }
}

#[test]
fn draws_follow_xorshift_recurrence() {
    let seed = 0x0bad_cafe_f00d_5eedu64;
    let mut g = Rng::new(seed);
    let mut expected = seed;
    for _ in 0..1_000 {
        assert_eq!(g.rand(), expected);
        expected = xorshift_step(expected);
    }
}

#[test]
fn zero_seed_is_a_fixed_point() {
    let mut g = Rng::new(0);
    for _ in 0..100 {
        assert_eq!(g.rand(), 0);
    }
}
