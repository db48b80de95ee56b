//! Creature identity and genome bookkeeping.

use vstd::prelude::*;

verus! {

/// Default population cap.
pub const MAX_CAP: usize = 340;
/// Highest population cap the host may set.
pub const ABSOLUTE_MAX_CAP: usize = 10_000;
/// Inputs of a creature's recurrent brain.
pub const BRAIN_INPUTS: usize = 15;
/// Hidden units of a creature's recurrent brain.
pub const BRAIN_HIDDEN: usize = 10;
/// Outputs (actuators) of a creature's recurrent brain.
pub const BRAIN_OUTPUTS: usize = 6;
/// Genome length: one weight per input and recurrent connection plus a bias
/// for every hidden unit, one weight per hidden unit plus a bias for every
/// output.
pub const GENES: usize = 326;
/// Largest magnitude of a gene.
pub const GENE_LIMIT: i32 = 127;

/// The genome holds exactly the weights and biases of the brain, so the
/// brain reads every gene once and never past the end.
pub proof fn lemma_genome_layout()
    ensures
        BRAIN_HIDDEN * (BRAIN_INPUTS + BRAIN_HIDDEN + 1) + BRAIN_OUTPUTS * (BRAIN_HIDDEN + 1) == GENES,
{
}

/// The gene `base` moved by a mutation of `delta`, clamped to
/// `-GENE_LIMIT ..= GENE_LIMIT`.
pub fn mutate_gene(base: i8, delta: i32) -> (g: i8)
    requires
        i32::MIN <= base + delta <= i32::MAX,
    ensures
        g == (if base + delta < -GENE_LIMIT {
            -GENE_LIMIT
        } else if base + delta > GENE_LIMIT {
            GENE_LIMIT as int
        } else {
            base + delta
        }),
{
    let val = (base as i32) + delta;
    if val < -GENE_LIMIT {
        -127i8
    } else if val > GENE_LIMIT {
        127i8
    } else {
        val as i8
    }
}

/// Generation and lineage root of a creature.
#[derive(Clone, Copy, Debug, PartialEq, Eq, Structural)]
pub struct Lineage {
    pub gen: u32,
    pub root: u32,
}

/// Identity given to a newborn.
#[derive(Clone, Copy, Debug, PartialEq, Eq, Structural)]
pub struct Identity {
    pub id: u32,
    pub gen: u32,
    pub root: u32,
}

/// Issues the identity of a new creature: the next id; for an offspring one
/// generation past the older parent and the first parent's root; for a
/// spontaneous creature generation 0 and a fresh root.
pub fn assign_identity(
    next_id: &mut u32,
    roots: &mut u32,
    parent: Option<Lineage>,
    other_gen: Option<u32>,
) -> (r: Identity)
    requires
        *old(next_id) < u32::MAX,
        parent is None ==> *old(roots) < u32::MAX,
        parent matches Some(p) ==> p.gen < u32::MAX,
        other_gen matches Some(g) ==> g < u32::MAX,
    ensures
        r.id == *old(next_id),
        *final(next_id) == *old(next_id) + 1,
        match parent {
            Some(p) => {
                let o = match other_gen {
                    Some(g) => g,
                    None => 0u32,
                };
                &&& r.gen == (if p.gen >= o { p.gen } else { o }) + 1
                &&& r.root == p.root
                &&& *final(roots) == *old(roots)
            },
            None => {
                &&& r.gen == 0
                &&& r.root == *old(roots)
                &&& *final(roots) == *old(roots) + 1
            },
        },
{
    let id = *next_id;
    *next_id = *next_id + 1;
    match parent {
        Some(p) => {
            let o = match other_gen {
                Some(g) => g,
                None => 0,
            };
            let g = if p.gen >= o { p.gen } else { o };
            Identity { id, gen: g + 1, root: p.root }
        },
        None => {
            let root = *roots;
            *roots = *roots + 1;
            Identity { id, gen: 0, root }
        },
    }
}

} // verus!
