use clank_wasm::agent::{assign_identity, mutate_gene, Lineage, BRAIN_HIDDEN, BRAIN_INPUTS, BRAIN_OUTPUTS, GENES};

#[test]
fn genome_fits_brain() {
    assert_eq!(
        BRAIN_HIDDEN * (BRAIN_INPUTS + BRAIN_HIDDEN + 1) + BRAIN_OUTPUTS * (BRAIN_HIDDEN + 1),
        GENES
    );
}

#[test]
fn mutation_clamps_genes() {
    assert_eq!(mutate_gene(100, 50), 127);
    assert_eq!(mutate_gene(-100, -50), -127);
    assert_eq!(mutate_gene(-128, 0), -127);
    assert_eq!(mutate_gene(10, -3), 7);
    assert_eq!(mutate_gene(0, i32::MAX - 200), 127);
}

#[test]
fn spontaneous_creature_starts_a_lineage() {
    let mut next_id = 5;
    let mut roots = 2;
    let a = assign_identity(&mut next_id, &mut roots, None, None);
    assert_eq!((a.id, a.gen, a.root), (5, 0, 2));
    assert_eq!((next_id, roots), (6, 3));
}

#[test]
fn offspring_follow_the_older_parent() {
    let mut next_id = 10;
    let mut roots = 4;
    let p = Lineage { gen: 3, root: 1 };
    let a = assign_identity(&mut next_id, &mut roots, Some(p), Some(7));
    assert_eq!((a.id, a.gen, a.root), (10, 8, 1));
    let b = assign_identity(&mut next_id, &mut roots, Some(p), None);
    assert_eq!((b.id, b.gen, b.root), (11, 4, 1));
    assert_eq!((next_id, roots), (12, 4));
}
