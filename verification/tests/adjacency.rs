use anneal_model::{lower_neighbours, Adjacency};

#[test]
fn edges_are_listed_at_both_ends_in_order() {
    let mut g = Adjacency::new();
    assert_eq!(g.len(), 0);
    g.add_node();
    g.add_node();
    g.add_node();
    g.add_edge(0, 1);
    g.add_edge(2, 0);
    g.add_edge(1, 1);
    g.add_edge(0, 1);
    assert_eq!(g.len(), 3);
    assert_eq!(g.neighbours(0), &vec![1, 2, 1]);
    assert_eq!(g.neighbours(1), &vec![0, 1, 1, 0]);
    assert_eq!(g.neighbours(2), &vec![0]);
}

#[test]
fn hypercube_of_two_spins() {

    let mut g = Adjacency::new();
    for config in 0..4u64 {
        g.add_node();
        for lower in lower_neighbours(config, 2) {
            g.add_edge(config as usize, lower as usize);
        }
    }
    assert_eq!(g.neighbours(0), &vec![1, 2]);
    assert_eq!(g.neighbours(3), &vec![2, 1]);
}
