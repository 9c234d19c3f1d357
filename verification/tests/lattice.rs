use anneal_model::Lattice;

fn lattice(sizes: &[usize]) -> Lattice {
    Lattice::new(sizes.len(), sizes.to_vec())
}

#[test]
fn new_multiplies_the_sides() {
    let l = lattice(&[3, 2, 4]);
    assert_eq!(l.n_points(), 24);
    assert_eq!(l.dim(), 3);
    assert_eq!(l.sizes(), &vec![3, 2, 4]);
    assert_eq!(lattice(&[]).n_points(), 1);
    assert_eq!(lattice(&[5, 0, 7]).n_points(), 0);
}

#[test]
fn to_coord_reads_mixed_radix_digits() {
    // On a 3 by 2 by 4 lattice the last side counts single sites, the middle
    // one rows of 4, the first one blocks of 8.
    let l = lattice(&[3, 2, 4]);
    assert_eq!(l.to_coord(11), vec![1, 0, 3]);
    assert_eq!(l.to_coord(22), vec![2, 1, 2]);
    assert_eq!(l.to_coord(0), vec![0, 0, 0]);
    assert_eq!(l.to_coord(23), vec![2, 1, 3]);
}

#[test]
fn from_coord_inverts_to_coord() {
    let l = lattice(&[3, 2, 4]);
    for node in 0..24 {
        assert_eq!(l.from_coord(&l.to_coord(node)), node);
    }
    // 2 units, one row of 4, two blocks of 2 rows of 4
    assert_eq!(l.from_coord(&[2, 1, 2]), 22);
    // a shorter list reads only the sides it covers: here sides 3 and 2
    assert_eq!(l.from_coord(&[1, 1]), 3);
}

#[test]
fn neighbours_on_a_ring_and_a_flat_side() {
    let l = lattice(&[4, 1]);
    assert_eq!(l.neighbours(0), vec![1, 3, 0, 0]);
    assert_eq!(l.neighbours(3), vec![0, 2, 3, 3]);
}

#[test]
fn neighbours_in_two_dimensions() {
    let l = lattice(&[3, 3]);
    // node 4 is the centre (1, 1)
    assert_eq!(l.neighbours(4), vec![7, 1, 5, 3]);
    // node 0 wraps around both sides
    assert_eq!(l.neighbours(0), vec![3, 6, 1, 2]);
}

#[test]
fn bonds_pair_up() {
    let l = lattice(&[3, 2, 4]);
    for node in 0..24 {
        let nbs = l.neighbours(node);
        for slot in 0..nbs.len() {
            let partner = if slot % 2 == 0 { slot + 1 } else { slot - 1 };
            assert!(nbs[slot] < 24);
            assert_eq!(l.neighbours(nbs[slot])[partner], node);
        }
    }
}

#[test]
fn edge_index_keeps_two_dim_slots_per_site() {
    let l = lattice(&[3, 2, 4]);
    assert_eq!(l.edge_index(0, 0), 0);
    assert_eq!(l.edge_index(2, 5), 17);
}

#[test]
fn bond_targets_mark_repeated_and_self_bonds() {
    // A side of length two reaches the same site twice; a side of length one
    // reaches the site itself.
    let l = lattice(&[2, 1]);
    assert_eq!(l.bond_targets(0), vec![(1, true), (0, false), (0, true), (0, true)]);
    assert_eq!(l.bond_targets(1), vec![(0, true), (1, false), (1, true), (1, true)]);
    let ring = lattice(&[3]);
    assert_eq!(ring.bond_targets(1), vec![(2, true), (0, true)]);
}

#[test]
fn weight_slots_pair_both_ends_of_each_bond() {
    let ring = lattice(&[3]);
    // bonds to higher sites: 0-1 (slot 0), 0-2 (slot 1), 1-2 (slot 0)
    assert_eq!(ring.weight_slots(), vec![(0, 3), (1, 4), (2, 5)]);
    let l = lattice(&[2, 2]);
    let slots = l.weight_slots();
    assert_eq!(slots.len(), 8);
    assert_eq!(slots[0], (0, 9));
    for &(a, b) in &slots {
        let (node, slot) = (a / 4, a % 4);
        let (nb, pslot) = (b / 4, b % 4);
        assert_eq!(l.neighbours(node)[slot], nb);
        assert_eq!(l.neighbours(nb)[pslot], node);
        assert!(nb > node);
    }
}

#[test]
fn each_bond_weight_is_read_once_and_kept_at_both_ends() {
    // no side of length two
    let l = lattice(&[3, 1, 4]);
    let d = 2 * l.dim();
    let n = l.n_points();
    let slots = l.weight_slots();
    let mut written = vec![0usize; d * n];
    for &(a, b) in &slots {
        written[a] += 1;
        written[b] += 1;
    }
    for u in 0..n {
        let nbs = l.neighbours(u);
        let targets = l.bond_targets(u);
        for i in 0..d {
            let nb = nbs[i];
            let partner = if i % 2 == 0 { i + 1 } else { i - 1 };
            if nb == u {
                assert_eq!(written[d * u + i], 0);
            } else {
                assert_eq!(written[d * u + i], 1);
                assert!(slots.contains(&(d * u + i, d * nb + partner))
                    || slots.contains(&(d * nb + partner, d * u + i)));
                assert_eq!(targets[i], (nb, true));
                assert_eq!(l.bond_targets(nb)[partner], (u, true));
            }
        }
    }
}
