use permu_rs::errors::Error;
use permu_rs::inversion::InversionPopulation;
use permu_rs::permutation::{PermuPopulation, Permutation};
use permu_rs::rim::RimPopulation;
use permu_rs::{Distribution, Population};

fn contents(d: &Distribution) -> (Vec<Vec<usize>>, bool) {
    match d {
        Distribution::PermuDistribution(m, s) => (m.clone(), *s),
        Distribution::InversionDistribution(m, s) => (m.clone(), *s),
        Distribution::RimDistribution(m, s) => (m.clone(), *s),
    }
}

#[test]
fn learn_permu_concrete() {
    let v = vec![
        Permutation::from_vec_unsec(vec![0, 1, 2, 3]),
        Permutation::from_vec_unsec(vec![1, 2, 0, 3]),
    ];
    let pop = PermuPopulation::from_vec(v);
    let distr = pop.learn();

    let target = vec![
        vec![1, 1, 0, 0],
        vec![0, 1, 1, 0],
        vec![1, 0, 1, 0],
        vec![0, 0, 0, 2],
    ];
    assert_eq!(Distribution::PermuDistribution(target, false), distr);
}

#[test]
fn learn_inversion_concrete() {
    let rows: Vec<Vec<usize>> = vec![vec![2, 1, 0], vec![1, 0, 0], vec![0, 0, 0]];
    let pop = InversionPopulation::from_vec(&rows).unwrap();
    let target = vec![vec![1, 1, 1, 0], vec![2, 1, 0, 0], vec![3, 0, 0, 0]];
    assert_eq!(Distribution::InversionDistribution(target, false), pop.learn());
}

#[test]
fn learn_rim_concrete() {
    let rows: Vec<Vec<usize>> = vec![vec![2, 1, 0], vec![1, 0, 0], vec![0, 0, 0]];
    let pop = RimPopulation::from_vec(&rows).unwrap();
    let target = vec![vec![1, 1, 1, 0], vec![2, 1, 0, 0], vec![3, 0, 0, 0]];
    assert_eq!(Distribution::RimDistribution(target, false), pop.learn());
}

#[test]
fn learn_row_sums_match_population_size() {
    let pop = PermuPopulation::random(17, 6);
    let distr = pop.learn();
    let (m, soft) = contents(&distr);
    assert!(!soft);
    assert_eq!(6, m.len());
    for row in m.iter() {
        assert_eq!(17usize, row.iter().sum());
    }
}

#[test]
fn sample_softens_only_once() {
    let pop = PermuPopulation::random(3, 5);
    let mut distr = pop.learn();
    let mut out = PermuPopulation::zeros(4, 5);

    out.sample(&mut distr).unwrap();
    let (m1, s1) = contents(&distr);
    assert!(s1);
    // Every cell was raised by one exactly once.
    for row in m1.iter() {
        let total: usize = row.iter().sum();
        assert_eq!(3 + 5, total);
    }

    out.sample(&mut distr).unwrap();
    let (m2, s2) = contents(&distr);
    assert!(s2);
    assert_eq!(m1, m2);
}

#[test]
fn sample_permu_yields_permutations() {
    let pop = PermuPopulation::random(1, 5);
    let mut distr = pop.learn();
    let mut samples = PermuPopulation::zeros(10, 5);
    samples.sample(&mut distr).unwrap();
    assert_eq!(10, samples.population.len());
    for p in samples.population.iter() {
        assert!(p.is_permu());
    }
}

#[test]
fn sample_inversion_stays_in_range() {
    let rows: Vec<Vec<usize>> = vec![vec![2, 1, 0], vec![1, 0, 0], vec![0, 0, 0]];
    let pop = InversionPopulation::from_vec(&rows).unwrap();
    let mut distr = pop.learn();
    let mut out = InversionPopulation::zeros(25, 3);
    out.sample(&mut distr).unwrap();
    for member in out.population.iter() {
        assert_eq!(3, member.inversion.len());
        for (i, v) in member.inversion.iter().enumerate() {
            // Smoothing touches only the admissible region, and this
            // population's counts lie inside it too, so every drawn
            // value decodes without fixing up.
            assert!(*v <= 3 - i);
            assert!(*v < 4);
        }
    }
}

#[test]
fn sample_inversion_then_decode() {
    let pop = PermuPopulation::random(5, 6);
    let mut inv = InversionPopulation::zeros(5, 5);
    pop.to_inversion(&mut inv).unwrap();
    let mut distr = inv.learn();
    let mut fresh = InversionPopulation::zeros(12, 5);
    fresh.sample(&mut distr).unwrap();
    let mut permus = PermuPopulation::zeros(12, 6);
    fresh.to_permus(&mut permus).unwrap();
    for p in permus.population.iter() {
        assert!(p.is_permu());
    }
}

#[test]
fn sample_rim_stays_in_range() {
    let rows: Vec<Vec<usize>> = vec![vec![2, 1, 0], vec![1, 0, 0], vec![0, 0, 0]];
    let pop = RimPopulation::from_vec(&rows).unwrap();
    let mut distr = pop.learn();
    let mut out = RimPopulation::zeros(25, 3);
    out.sample(&mut distr).unwrap();
    for member in out.population.iter() {
        for (i, v) in member.inner.iter().enumerate() {
            // A drawn value never leaves the matrix row: it is below the
            // row width.  (The learned counts of this population reach
            // column 2 of row 0, which decoding clamps.)
            assert!(*v < 4);
            assert!(*v <= i + 2);
        }
    }
}

#[test]
fn sample_rejects_wrong_distribution_kind() {
    let rows: Vec<Vec<usize>> = vec![vec![2, 1, 0], vec![1, 0, 0], vec![0, 0, 0]];
    let pop = InversionPopulation::from_vec(&rows).unwrap();
    let mut distr = pop.learn();

    let mut out = PermuPopulation::zeros(4, 4);
    let r = out.sample(&mut distr);
    assert!(matches!(r, Err(Error::IncorrectDistrType)));
    // The rejected distribution is untouched.
    let (_, soft) = contents(&distr);
    assert!(!soft);
}

#[test]
fn sample_rejects_wrong_length() {
    let pop = PermuPopulation::random(2, 5);
    let mut distr = pop.learn();
    let mut out = PermuPopulation::zeros(4, 6);
    let r = out.sample(&mut distr);
    assert!(matches!(r, Err(Error::LengthError)));
    let (_, soft) = contents(&distr);
    assert!(!soft);
}

#[test]
fn sample_inversion_wrong_kind_and_length() {
    let pop = PermuPopulation::random(2, 4);
    let mut permu_distr = pop.learn();
    let mut inv_out = InversionPopulation::zeros(3, 3);
    assert!(matches!(inv_out.sample(&mut permu_distr), Err(Error::IncorrectDistrType)));

    let rows: Vec<Vec<usize>> = vec![vec![0, 0, 0]];
    let inv_pop = InversionPopulation::from_vec(&rows).unwrap();
    let mut inv_distr = inv_pop.learn();
    let mut wrong_len = InversionPopulation::zeros(3, 4);
    assert!(matches!(wrong_len.sample(&mut inv_distr), Err(Error::LengthError)));

    let mut rim_out = RimPopulation::zeros(3, 3);
    assert!(matches!(rim_out.sample(&mut permu_distr), Err(Error::IncorrectDistrType)));
}
