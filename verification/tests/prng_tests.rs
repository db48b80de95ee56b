use clank_wasm::prng::Prng;

#[test]
fn new_keeps_seed() {
    let p = Prng::new(42);
    assert_eq!(p.s, 42);
}

#[test]
fn next_u32_seed_one_sequence() {
    let mut p = Prng::new(1);
    assert_eq!(p.next_u32(), 2693262067);
    assert_eq!(p.s, 1831565814);
    assert_eq!(p.next_u32(), 11749833);
    assert_eq!(p.s, 3663131627);
    assert_eq!(p.next_u32(), 2265367787);
    assert_eq!(p.s, 1199730144);
}

#[test]
fn next_u32_seed_zero() {
    let mut p = Prng::new(0);
    assert_eq!(p.next_u32(), 1144304738);
    assert_eq!(p.s, 0x6D2B79F5);
}

#[test]
fn state_wraps_around() {
    let mut p = Prng::new(u32::MAX);
    p.next_u32();
    assert_eq!(p.s, 0x6D2B79F4);
}

#[test]
fn same_state_replays_same_draws() {
    let mut a = Prng::new(12345);
    for _ in 0..10 {
        a.next_u32();
    }
    let mut b = Prng::new(a.s);
    for _ in 0..20 {
        assert_eq!(a.next_u32(), b.next_u32());
    }
}

#[test]
fn discard_matches_draws() {
    let mut a = Prng::new(7);
    let mut b = Prng::new(7);
    a.discard(17);
    for _ in 0..17 {
        b.next_u32();
    }
    assert_eq!(a.s, b.s);
    assert_eq!(a.s, 7u32.wrapping_add(17u32.wrapping_mul(0x6D2B79F5)));
}

#[test]
fn spark_is_three_draws_each() {
    let mut a = Prng::new(99);
    let mut b = Prng::new(99);
    a.spark_prng(5);
    for _ in 0..15 {
        b.next_u32();
    }
    assert_eq!(a.s, b.s);
    let mut c = Prng::new(99);
    c.spark_prng(0);
    assert_eq!(c.s, 99);
}

#[test]
fn state_step_is_odd_so_low_bit_alternates() {
    // the full-period law seen on the lowest bit: it flips on every draw
    let mut p = Prng::new(4);
    let mut last = p.s & 1;
    for _ in 0..64 {
        p.next_u32();
        assert_ne!(p.s & 1, last);
        last = p.s & 1;
    }
}
