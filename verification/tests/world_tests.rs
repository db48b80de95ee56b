use clank_wasm::world::{
    advance_timers, blast_cell, clamp_capacity, dies_of_age, eclipse_step, limit_agent_count,
    may_breed, push_trail, retain_alive, spores_needed, ECLIPSE_TICKS,
};

#[test]
fn breeding_and_old_age_rules() {
    assert!(may_breed(66, 0, 10, 340));
    assert!(!may_breed(65, 0, 10, 340));
    assert!(!may_breed(100, 1, 10, 340));
    assert!(!may_breed(100, 0, 340, 340));
    assert!(dies_of_age(2101));
    assert!(!dies_of_age(2100));
}

#[test]
fn capacity_is_clamped() {
    assert_eq!(clamp_capacity(0), 15);
    assert_eq!(clamp_capacity(340), 340);
    assert_eq!(clamp_capacity(1_000_000), 10_000);
    assert_eq!(limit_agent_count(20_000), 10_000);
    assert_eq!(limit_agent_count(7), 7);
}

#[test]
fn eclipse_lasts_its_length() {
    let mut e = ECLIPSE_TICKS;
    let mut active = 0;
    let mut strikes = 0;
    for tick in 1..1000u32 {
        let step = eclipse_step(e, tick);
        if e > 0 {
            active += 1;
        }
        if step.strike {
            strikes += 1;
        }
        e = step.remaining;
    }
    assert_eq!(active, 210);
    assert_eq!(strikes, 105);
    assert_eq!(e, 0);
}

#[test]
fn blast_cell_stays_in_grid() {
    assert_eq!(blast_cell(10, 3750), 10);
    assert_eq!(blast_cell(3750, 3750), 3749);
}

#[test]
fn timers_count_down_to_zero() {
    let (mut age, mut cd, mut birth) = (5u32, 1u32, 0u32);
    advance_timers(&mut age, &mut cd, &mut birth);
    assert_eq!((age, cd, birth), (6, 0, 0));
    advance_timers(&mut age, &mut cd, &mut birth);
    assert_eq!((age, cd, birth), (7, 0, 0));
}

#[test]
fn spores_refill_to_floor() {
    assert_eq!(spores_needed(3, 90), 12);
    assert_eq!(spores_needed(3, 91), 0);
    assert_eq!(spores_needed(15, 90), 0);
    assert_eq!(spores_needed(0, 0), 15);
}

#[test]
fn dead_are_removed_in_order() {
    let mut v = vec![10, 11, 12, 13, 14];
    retain_alive(&mut v, &vec![true, false, true, false, true]);
    assert_eq!(v, vec![10, 12, 14]);
    let mut w = vec![1.5f64, 2.5];
    retain_alive(&mut w, &vec![false, false]);
    assert!(w.is_empty());
}

#[test]
fn trail_keeps_last_nine() {
    let mut t = [0u32; 9];
    let mut count = 0u32;
    for p in 1..=12u32 {
        count = push_trail(&mut t, count, p);
    }
    assert_eq!(count, 9);
    assert_eq!(t, [4, 5, 6, 7, 8, 9, 10, 11, 12]);
    let mut u = [0u32; 9];
    let c = push_trail(&mut u, 2, 7);
    assert_eq!(c, 3);
    assert_eq!(u[2], 7);
}
