//! The integer bookkeeping of a simulation tick: population limits, the
//! eclipse countdown, creature timers, spore replenishment, the trail ring
//! and the removal of dead creatures.

use vstd::prelude::*;
use crate::agent::ABSOLUTE_MAX_CAP;

verus! {

/// Smallest population cap the host may set.
pub const MIN_CAP: usize = 15;
/// Length of an eclipse set off by the host.
pub const ECLIPSE_TICKS: u32 = 210;
/// Food cells struck on each even tick of an eclipse.
pub const ECLIPSE_BLASTS: u32 = 160;
/// Population below which spores are sown.
pub const SPORE_FLOOR: usize = 15;
/// Ticks between two sowings.
pub const SPORE_PERIOD: u32 = 45;
/// Positions kept in a creature's trail.
pub const TRAIL_LEN: usize = 9;
/// Age a creature must pass before it may breed.
pub const MATURITY_AGE: u32 = 65;
/// Age past which a creature dies.
pub const MAX_AGE: u32 = 2100;
/// Ticks a parent waits between two offspring.
pub const BREED_PAUSE: u32 = 95;
/// Ticks a creature waits between two attacks.
pub const ATTACK_COOLDOWN: u32 = 3;

/// The integer half of the breeding rule: a mature creature that is not
/// resting from its last birth, in a population below its cap.
pub fn may_breed(age: u32, birth: u32, population: usize, max_cap: usize) -> (b: bool)
    ensures
        b == (age > MATURITY_AGE && birth == 0 && population < max_cap),
{
    age > MATURITY_AGE && birth == 0 && population < max_cap
}

/// Whether a creature of age `age` dies of old age.
pub fn dies_of_age(age: u32) -> (b: bool)
    ensures
        b == (age > MAX_AGE),
{
    age > MAX_AGE
}

/// The population cap chosen for a requested one.
pub fn clamp_capacity(cap: u32) -> (r: usize)
    ensures
        r == (if cap < MIN_CAP {
            MIN_CAP as int
        } else if cap > ABSOLUTE_MAX_CAP {
            ABSOLUTE_MAX_CAP as int
        } else {
            cap as int
        }),
{
    let c = cap as usize;
    if c < MIN_CAP {
        MIN_CAP
    } else if c > ABSOLUTE_MAX_CAP {
        ABSOLUTE_MAX_CAP
    } else {
        c
    }
}

/// The population the host may set directly: at most the highest cap.
pub fn limit_agent_count(count: u32) -> (r: usize)
    ensures
        r == (if count > ABSOLUTE_MAX_CAP {
            ABSOLUTE_MAX_CAP as int
        } else {
            count as int
        }),
{
    let c = count as usize;
    if c > ABSOLUTE_MAX_CAP {
        ABSOLUTE_MAX_CAP
    } else {
        c
    }
}

/// What one tick of an eclipse does.
#[derive(Clone, Copy, Debug, PartialEq, Eq, Structural)]
pub struct EclipseStep {
    /// Eclipse ticks left afterwards.
    pub remaining: u32,
    /// Whether food cells are struck this tick.
    pub strike: bool,
}

/// Ticks left of an eclipse of `e` ticks after `k` more ticks.
pub open spec fn eclipse_after(e: nat, k: nat) -> nat {
    if k >= e {
        0
    } else {
        (e - k) as nat
    }
}

/// One tick of the eclipse countdown at (already advanced) tick `tick`:
/// while it runs it counts down and strikes on even ticks.
pub fn eclipse_step(eclipse: u32, tick: u32) -> (r: EclipseStep)
    ensures
        r.remaining == eclipse_after(eclipse as nat, 1),
        r.strike == (eclipse > 0 && tick % 2 == 0),
{
    if eclipse > 0 {
        EclipseStep { remaining: eclipse - 1, strike: tick % 2 == 0 }
    } else {
        EclipseStep { remaining: 0, strike: false }
    }
}

/// An eclipse of `e` ticks is over after exactly `e` countdown steps: it
/// runs for every one of the first `e` ticks and for none after.
pub proof fn lemma_eclipse_duration(e: nat, k: nat)
    ensures
        eclipse_after(eclipse_after(e, k), 1) == eclipse_after(e, k + 1),
        eclipse_after(e, k) > 0 <==> k < e,
{
}

/// The cell struck by an eclipse blast for the scaled draw `raw`: the last
/// cell when the draw falls past the end.
pub fn blast_cell(raw: usize, grid_size: usize) -> (r: usize)
    requires
        grid_size > 0,
    ensures
        r == (if raw < grid_size {
            raw as int
        } else {
            grid_size - 1
        }),
{
    if raw < grid_size {
        raw
    } else {
        grid_size - 1
    }
}

/// Ages a creature by a tick and counts its attack cooldown and its
/// breeding pause down to zero.
pub fn advance_timers(age: &mut u32, cooldown: &mut u32, birth: &mut u32)
    requires
        *old(age) < u32::MAX,
    ensures
        *final(age) == *old(age) + 1,
        *final(cooldown) == if *old(cooldown) > 0 {
            *old(cooldown) - 1
        } else {
            0
        },
        *final(birth) == if *old(birth) > 0 {
            *old(birth) - 1
        } else {
            0
        },
{
    *age = *age + 1;
    if *cooldown > 0 {
        *cooldown = *cooldown - 1;
    }
    if *birth > 0 {
        *birth = *birth - 1;
    }
}

/// How many spores to sow at tick `tick` for a population of `population`:
/// enough to bring it back to the floor, on sowing ticks only.
pub fn spores_needed(population: usize, tick: u32) -> (n: usize)
    ensures
        n == (if population < SPORE_FLOOR && tick % SPORE_PERIOD == 0 {
            SPORE_FLOOR - population
        } else {
            0
        }),
        n > 0 ==> population + n == SPORE_FLOOR,
{
    if population < SPORE_FLOOR && tick % SPORE_PERIOD == 0 {
        SPORE_FLOOR - population
    } else {
        0
    }
}

/// The items whose flag in `alive` is set, in the order they came.
pub open spec fn survivors<T>(items: Seq<T>, alive: Seq<bool>) -> Seq<T>
    decreases items.len(),
{
    if items.len() == 0 {
        Seq::empty()
    } else {
        let rest = survivors(items.drop_last(), alive);
        if alive[items.len() - 1] {
            rest.push(items.last())
        } else {
            rest
        }
    }
}


/// Which items survive a compaction: exactly those whose own flag is set,
/// in their order. The returned `f` maps each position of the result to the
/// position of the item there: it is strictly increasing, hits only set
/// flags, and hits every set flag.
pub proof fn lemma_survivors_are_the_flagged<T>(items: Seq<T>, alive: Seq<bool>) -> (f: Seq<int>)
    requires
        items.len() <= alive.len(),
    ensures
        f.len() == survivors(items, alive).len(),
        f.len() == count_set(alive, items.len() as int),
        forall|k: int|
            0 <= k < f.len() ==> 0 <= #[trigger] f[k] < items.len() && alive[f[k]]
                && survivors(items, alive)[k] == items[f[k]],
        forall|j: int, k: int| 0 <= j < k < f.len() ==> f[j] < f[k],
        forall|i: int| 0 <= i < items.len() && alive[i] ==> exists|k: int| 0 <= k < f.len() && f[k] == i,
    decreases items.len(),
{
    if items.len() == 0 {
        Seq::empty()
    } else {
        let d = items.drop_last();
        let n = items.len() - 1;
        let g = lemma_survivors_are_the_flagged(d, alive);
        let rest = survivors(d, alive);
        if alive[n] {
            let f = g.push(n);
            assert forall|k: int| 0 <= k < f.len() implies 0 <= #[trigger] f[k] < items.len() && alive[f[k]]
                && survivors(items, alive)[k] == items[f[k]] by {
                if k < g.len() {
                    assert(g[k] < d.len());
                }
            }
            assert forall|i: int| 0 <= i < items.len() && alive[i] implies exists|k: int|
                0 <= k < f.len() && f[k] == i by {
                if i == n {
                    assert(f[g.len() as int] == i);
                } else {
                    let k = choose|k: int| 0 <= k < g.len() && g[k] == i;
                    assert(f[k] == i);
                }
            }
            assert forall|j: int, k: int| 0 <= j < k < f.len() implies f[j] < f[k] by {
                if k == g.len() {
                    assert(g[j] < d.len());
                }
            }
            f
        } else {
            assert forall|k: int| 0 <= k < g.len() implies 0 <= #[trigger] g[k] < items.len() && alive[g[k]]
                && survivors(items, alive)[k] == items[g[k]] by {
                assert(g[k] < d.len());
            }
            assert forall|i: int| 0 <= i < items.len() && alive[i] implies exists|k: int|
                0 <= k < g.len() && g[k] == i by {
                assert(i != n);
            }
            g
        }
    }
}

/// The number of set flags among the first `n`.
pub open spec fn count_set(alive: Seq<bool>, n: int) -> nat
    decreases n,
{
    if n <= 0 {
        0
    } else {
        count_set(alive, n - 1) + if alive[n - 1] { 1nat } else { 0nat }
    }
}

/// Removes, in place, the items whose flag in `alive` is clear, keeping
/// the order of the others.
pub fn retain_alive<T: Copy>(items: &mut Vec<T>, alive: &Vec<bool>)
    requires
        old(items).len() == alive.len(),
    ensures
        final(items)@ == survivors(old(items)@, alive@),
        final(items)@.len() == count_set(alive@, alive.len() as int),
        exists|f: Seq<int>|
            {
                &&& f.len() == final(items)@.len()
                &&& forall|k: int|
                    0 <= k < f.len() ==> 0 <= #[trigger] f[k] < alive.len() && alive@[f[k]]
                        && final(items)@[k] == old(items)@[f[k]]
                &&& forall|j: int, k: int| 0 <= j < k < f.len() ==> f[j] < f[k]
                &&& forall|i: int|
                    0 <= i < alive.len() && alive@[i] ==> exists|k: int| 0 <= k < f.len() && f[k] == i
            },
{
    let ghost orig = items@;
    let n = items.len();
    let mut kept: usize = 0;
    let mut i: usize = 0;
    while i < n
        invariant
            n == orig.len(),
            n == alive.len(),
            items.len() == n,
            kept <= i <= n,
            items@.take(kept as int) == survivors(orig.take(i as int), alive@),
            items@.skip(i as int) == orig.skip(i as int),
        decreases n - i,
    {
        let ghost before = items@;
        proof {
            assert(orig.take(i + 1).drop_last() =~= orig.take(i as int));
            assert(orig.take(i + 1).last() == orig[i as int]);
            assert(before.skip(i as int)[0] == orig.skip(i as int)[0]);
            assert(before[i as int] == orig[i as int]);
        }
        if alive[i] {
            if kept != i {
                let x = items[i];
                items.set(kept, x);
            }
            proof {
                assert(items@.take(kept + 1) =~= before.take(kept as int).push(orig[i as int]));
                assert(items@.skip(i + 1) =~= orig.skip(i + 1)) by {
                    assert forall|k: int| 0 <= k < n - i - 1 implies #[trigger] items@.skip(i + 1)[k] == orig.skip(
                        i + 1,
                    )[k] by {
                        assert(before.skip(i as int)[k + 1] == orig.skip(i as int)[k + 1]);
                    }
                }
            }
            kept = kept + 1;
        } else {
            proof {
                assert(items@.skip(i + 1) =~= orig.skip(i + 1)) by {
                    assert forall|k: int| 0 <= k < n - i - 1 implies #[trigger] items@.skip(i + 1)[k] == orig.skip(
                        i + 1,
                    )[k] by {
                        assert(before.skip(i as int)[k + 1] == orig.skip(i as int)[k + 1]);
                    }
                }
            }
        }
        i = i + 1;
    }
    items.truncate(kept);
    proof {
        assert(orig.take(n as int) =~= orig);
        let f = lemma_survivors_are_the_flagged(orig, alive@);
        assert(f.len() == items@.len());
    }
}

/// The positions a trail ring holds, oldest first.
pub open spec fn trail_window<T>(trail: Seq<T>, count: u32) -> Seq<T> {
    trail.take(if count >= TRAIL_LEN { TRAIL_LEN as int } else { count as int })
}

/// Records position `p` in a trail ring that holds `count` positions and
/// returns the new count: while there is room `p` is appended, afterwards
/// the oldest position is dropped to make room.
pub fn push_trail<T: Copy>(trail: &mut [T; 9], count: u32, p: T) -> (new_count: u32)
    ensures
        new_count == if count >= TRAIL_LEN {
            count
        } else {
            (count + 1) as u32
        },
        count >= TRAIL_LEN ==> final(trail)@ == old(trail)@.drop_first().push(p),
        count < TRAIL_LEN ==> final(trail)@ == old(trail)@.update(count as int, p),
        trail_window(final(trail)@, new_count) == if count >= TRAIL_LEN {
            trail_window(old(trail)@, count).drop_first().push(p)
        } else {
            trail_window(old(trail)@, count).push(p)
        },
{
    let ghost t0 = trail@;
    if count >= 9 {
        let mut t: usize = 0;
        while t < 8
            invariant
                t <= 8,
                trail@.len() == 9,
                forall|k: int| 0 <= k < t ==> trail@[k] == t0[k + 1],
                forall|k: int| t <= k < 9 ==> trail@[k] == t0[k],
            decreases 8 - t,
        {
            let x = trail[t + 1];
            trail[t] = x;
            t = t + 1;
        }
        trail[8] = p;
        proof {
            assert(trail@ =~= t0.drop_first().push(p));
            assert(trail_window(trail@, count) =~= trail@);
            assert(trail_window(t0, count) =~= t0);
        }
        count
    } else {
        trail[count as usize] = p;
        proof {
            assert(trail_window(trail@, (count + 1) as u32) =~= trail_window(t0, count).push(p));
        }
        count + 1
    }
}


/// The last `TRAIL_LEN` of a sequence of positions, oldest first.
pub open spec fn last_positions<T>(ps: Seq<T>) -> Seq<T> {
    if ps.len() <= TRAIL_LEN {
        ps
    } else {
        ps.skip(ps.len() - TRAIL_LEN)
    }
}

/// A trail ring fed every position of a creature's path holds the last
/// `TRAIL_LEN` of them, oldest first: one more `push_trail` step keeps it so.
pub proof fn lemma_trail_history<T>(window: Seq<T>, count: u32, ps: Seq<T>, p: T)
    requires
        window == last_positions(ps),
        window.len() == (if count >= TRAIL_LEN { TRAIL_LEN as int } else { count as int }),
    ensures
        (if count >= TRAIL_LEN {
            window.drop_first().push(p)
        } else {
            window.push(p)
        }) == last_positions(ps.push(p)),
{
    if count >= TRAIL_LEN {
        assert(ps.len() >= TRAIL_LEN);
        if ps.len() == TRAIL_LEN {
            assert(window =~= ps);
        }
        assert(window.drop_first().push(p) =~= ps.push(p).skip(ps.len() + 1 - TRAIL_LEN));
    } else {
        assert(ps.len() < TRAIL_LEN) by {
            if ps.len() > TRAIL_LEN {
                assert(ps.skip(ps.len() - TRAIL_LEN).len() == TRAIL_LEN);
            }
        }
    }
}

} // verus!
