use permu_rs::errors::Error;
use permu_rs::permutation::{PermuPopulation, Permutation};

#[test]
fn from_vec_accepts_permutations() {
    let permu_ok = Permutation::from_vec(vec![0, 4, 2, 1, 3]).unwrap();
    assert_eq!(vec![0, 4, 2, 1, 3], permu_ok.permu);

    let permu_err = Permutation::from_vec(vec![5, 4, 2, 1, 3]);
    assert!(permu_err.is_err());
    assert!(matches!(permu_err, Err(Error::NotPermutation)));
}

#[test]
fn from_vec_unsec_keeps_anything() {
    let vec: Vec<usize> = vec![0, 1, 9, 9];
    let permu = Permutation::from_vec_unsec(vec.clone());
    assert_eq!(vec, permu.permu);
}

#[test]
fn is_permu_checks_every_value() {
    let permu1 = Permutation::from_vec_unsec(vec![0, 1, 2, 3]);
    let permu2 = Permutation::from_vec_unsec(vec![1, 2, 3]);
    let permu3 = Permutation::from_vec_unsec(vec![0, 1, 4, 3]);
    let permu4 = Permutation::from_vec_unsec(vec![0, 1, 1, 3]);

    assert!(permu1.is_permu());
    assert!(!permu2.is_permu());
    assert!(!permu3.is_permu());
    assert!(!permu4.is_permu());
}

#[test]
fn identity_is_counted_up() {
    let identity = Permutation::identity(5);
    assert_eq!(vec![0, 1, 2, 3, 4], identity.permu);
    assert!(identity.is_permu());
    assert_eq!(5, identity.len());

    let empty = Permutation::identity(0);
    assert!(empty.permu.is_empty());
    assert!(empty.is_permu());
}

#[test]
fn random_always_yields_permutations() {
    for n in 1..8 {
        for _ in 0..1000 {
            let p = Permutation::random(n);
            assert_eq!(n, p.permu.len());
            assert!(p.is_permu());
        }
    }
    let p = Permutation::random(100);
    assert_eq!(100, p.permu.len());
    assert!(p.is_permu());
}

#[test]
fn population_from_vec_counts_members() {
    let vec = vec![Permutation::identity(5), Permutation::random(5)];
    let pop = PermuPopulation::from_vec(vec);
    assert_eq!(2, pop.size);
    assert_eq!(2, pop.population.len());
}

#[test]
fn population_zeros_is_all_zero() {
    let pop = PermuPopulation::zeros(10, 20);
    assert_eq!(10, pop.size);
    for p in pop.population.iter() {
        assert_eq!(vec![0usize; 20], p.permu);
    }
}

#[test]
fn population_identity_members() {
    let population = PermuPopulation::identity(10, 5);
    for p in population.population.iter() {
        assert_eq!(*p, Permutation::identity(5));
    }
}

#[test]
fn population_random_members_are_permutations() {
    let pop = PermuPopulation::random(10, 5);
    for p in pop.population.iter() {
        assert!(p.is_permu());
    }
    assert_eq!(pop.size, pop.population.len());
}
