use anneal_model::{perturbation_exponents, Index};

fn collect(n: usize, k: usize) -> Vec<Vec<usize>> {
    let mut index = Index::new(n, k);
    let mut seen: Vec<Vec<usize>> = Vec::new();
    index.for_each(|combo: &[usize]| seen.push(combo.to_vec()));
    seen
}

#[test]
fn for_each_visits_two_subsets_of_four_in_lexicographic_order() {
    assert_eq!(
        collect(4, 2),
        vec![
            vec![0, 1],
            vec![0, 2],
            vec![0, 3],
            vec![1, 2],
            vec![1, 3],
            vec![2, 3]
        ]
    );
}

#[test]
fn for_each_with_k_equal_n_visits_one_subset() {
    assert_eq!(collect(3, 3), vec![vec![0, 1, 2]]);
}

#[test]
fn for_each_singletons() {
    assert_eq!(collect(3, 1), vec![vec![0], vec![1], vec![2]]);
}

#[test]
fn fold_counts_binomial_coefficients() {
    let expected = [6usize, 15, 20, 15, 6, 1];
    for k in 1..=6usize {
        let mut index = Index::new(6, k);
        let count = index.fold(0usize, |acc: usize, _combo: &[usize]| acc + 1);
        assert_eq!(count, expected[k - 1]);
    }
}

#[test]
fn fold_threads_accumulator_in_order() {
    // Each step shifts the accumulator and appends the first index of the subset.
    let mut index = Index::new(4, 3);
    let r = index.fold(0u64, |acc: u64, combo: &[usize]| acc * 10 + combo[0] as u64 + 1);
    // subsets: 012, 013, 023, 123 -> first entries 0,0,0,1
    assert_eq!(r, 1112);
}

#[test]
fn second_for_each_visits_only_the_last_subset() {
    let mut index = Index::new(5, 2);
    let mut first = 0usize;
    index.for_each(|_c: &[usize]| first += 1);
    assert_eq!(first, 10);
    let mut again: Vec<Vec<usize>> = Vec::new();
    index.for_each(|c: &[usize]| again.push(c.to_vec()));
    assert_eq!(again, vec![vec![3, 4]]);
}

#[test]
fn perturbation_exponents_fill_the_steps() {
    assert_eq!(perturbation_exponents(&[0, 2], 5), vec![0, 1, 2]);
    assert_eq!(perturbation_exponents(&[3], 4), vec![3, 0]);
    let mut index = Index::new(6, 3);
    index.for_each(|c: &[usize]| {
        let e = perturbation_exponents(c, 6);
        assert_eq!(e.iter().sum::<usize>() + c.len(), 6);
    });
}

#[test]
fn fold_appends_each_subset_as_two_digits() {
    let mut idx = Index::new(4, 2);
    let r = idx.fold(0u64, |a: u64, c: &[usize]| a * 100 + (10 * c[0] + c[1]) as u64);
    assert_eq!(r, 10203121323);
    assert_eq!(Index::new(5, 3).fold(0usize, |a: usize, _c: &[usize]| a + 1), 10);
}

#[test]
fn fold_matches_folding_what_for_each_visits() {
    let mut visited: Vec<Vec<usize>> = Vec::new();
    Index::new(6, 3).for_each(|c: &[usize]| visited.push(c.to_vec()));
    let expected = visited.iter().fold(7u64, |a, c| a * 3 + c.iter().sum::<usize>() as u64 % 1000);
    let mut idx = Index::new(6, 3);
    let r = idx.fold(7u64, |a: u64, c: &[usize]| a * 3 + c.iter().sum::<usize>() as u64 % 1000);
    assert_eq!(r, expected);
    let mut after: Vec<Vec<usize>> = Vec::new();
    idx.for_each(|c: &[usize]| after.push(c.to_vec()));
    assert_eq!(after, vec![vec![3, 4, 5]]);
}
