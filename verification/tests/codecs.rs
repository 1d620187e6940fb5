use permu_rs::errors::Error;
use permu_rs::inversion::{Inversion, InversionPopulation};
use permu_rs::permutation::{PermuPopulation, Permutation};
use permu_rs::rim::{Rim, RimPopulation};

#[test]
fn inversion_encode_concrete() {
    let permu = Permutation::from_vec(vec![0, 3, 2, 1]).unwrap();
    let mut inversion_repr = Inversion::zeros(3);
    Inversion::from_permu(&permu, &mut inversion_repr).unwrap();
    assert_eq!(vec![0, 2, 1], inversion_repr.inversion);
}

#[test]
fn inversion_decode_concrete() {
    let inversion = Inversion::from_vec(vec![0, 2, 1]);
    let mut permu = Permutation::identity(4);
    inversion.to_permu(&mut permu).unwrap();
    assert_eq!(vec![0, 3, 2, 1], permu.permu);
}

#[test]
fn inversion_encode_length_error() {
    let permu = Permutation::from_vec(vec![0, 3, 2, 1]).unwrap();
    let mut too_short = Inversion::zeros(2);
    let r = Inversion::from_permu(&permu, &mut too_short);
    assert!(matches!(r, Err(Error::LengthError)));
    assert_eq!(vec![0, 0], too_short.inversion);
}

#[test]
fn inversion_decode_length_error() {
    let inversion = Inversion::from_vec(vec![0, 2, 1]);
    let mut permu = Permutation::identity(5);
    let r = inversion.to_permu(&mut permu);
    assert!(matches!(r, Err(Error::LengthError)));
}

#[test]
fn inversion_round_trips_across_sizes() {
    for n in 2..50 {
        let p = Permutation::random(n);
        let mut inv = Inversion::zeros(n - 1);
        Inversion::from_permu(&p, &mut inv).unwrap();
        for (i, v) in inv.inversion.iter().enumerate() {
            assert!(*v <= n - 1 - i);
        }
        let mut back = Permutation::identity(n);
        inv.to_permu(&mut back).unwrap();
        assert_eq!(p.permu, back.permu);
    }
}

#[test]
fn permutation_inversion_shortcuts() {
    let permu = Permutation::from_vec(vec![3, 2, 1, 0]).unwrap();
    let mut base = Inversion::from_vec(vec![0, 0, 0]);
    permu.to_inversion(&mut base).unwrap();
    assert_eq!(vec![3, 2, 1], base.inversion);

    let inversion = Inversion::from_vec(vec![0, 0, 0]);
    let mut out = Permutation::random(4);
    Permutation::from_inversion(&inversion, &mut out).unwrap();
    assert_eq!(Permutation::identity(4), out);
}

#[test]
fn inversion_population_from_vec_checks_lengths() {
    let rows: Vec<Vec<usize>> = vec![vec![0, 2, 0, 0], vec![1, 2, 0, 0], vec![0, 0, 0, 0]];
    let pop = InversionPopulation::from_vec(&rows).unwrap();
    assert_eq!(3, pop.size);

    let ragged: Vec<Vec<usize>> = vec![vec![0, 2, 0, 0], vec![1, 0, 0], vec![0, 0, 0, 0]];
    let pop = InversionPopulation::from_vec(&ragged);
    assert!(matches!(pop, Err(Error::LengthError)));
}

#[test]
fn inversion_population_zeros_decodes_to_identity() {
    let (size, length) = (20, 10);
    let identity = PermuPopulation::identity(size, length);
    let inversions = InversionPopulation::zeros(size, length - 1);
    let mut permus = PermuPopulation::zeros(size, length);

    inversions.to_permus(&mut permus).unwrap();
    assert_eq!(identity, permus);
}

#[test]
fn inversion_population_round_trip() {
    let (size, length) = (5, 10);
    let permus = PermuPopulation::random(size, length);
    let mut inv = InversionPopulation::zeros(size, length - 1);
    permus.to_inversion(&mut inv).unwrap();

    let mut back = PermuPopulation::zeros(size, length);
    inv.to_permus(&mut back).unwrap();
    assert_eq!(permus, back);
}

#[test]
fn inversion_population_size_mismatch() {
    let permus = PermuPopulation::random(4, 6);
    let mut inv = InversionPopulation::zeros(3, 5);
    let r = InversionPopulation::from_permus(&permus, &mut inv);
    assert!(matches!(r, Err(Error::LengthError)));
}

#[test]
fn rim_decode_concrete() {
    let rim = Rim::from_vec(vec![0, 2, 2]);
    let mut output = Permutation::identity(4);
    Rim::to_permu(&rim, &mut output).unwrap();
    let target = Permutation::from_vec(vec![1, 0, 3, 2]).unwrap();
    assert_eq!(target, output);
}

#[test]
fn rim_encode_concrete() {
    let permu = Permutation::from_vec(vec![1, 0, 3, 2]).unwrap();
    let mut rim = Rim::zeros(3);
    Rim::from_permu(&permu, &mut rim).unwrap();
    assert_eq!(vec![0, 2, 2], rim.inner);
}

#[test]
fn rim_decode_clamps_overflowing_indices() {
    // The recorded index 9 overflows the sequence built so far and is
    // clamped to its length.
    let rim = Rim::from_vec(vec![0, 9, 1]);
    let mut output = Permutation::identity(4);
    Rim::to_permu(&rim, &mut output).unwrap();
    assert!(output.is_permu());
    assert_eq!(vec![1, 3, 0, 2], output.permu);
}

#[test]
fn rim_length_errors() {
    let permu = Permutation::from_vec(vec![1, 0, 3, 2]).unwrap();
    let mut rim = Rim::zeros(5);
    assert!(matches!(Rim::from_permu(&permu, &mut rim), Err(Error::LengthError)));

    let rim = Rim::from_vec(vec![0, 2, 2]);
    let mut out = Permutation::identity(5);
    assert!(matches!(Rim::to_permu(&rim, &mut out), Err(Error::LengthError)));
}

#[test]
fn rim_round_trip_random_ten() {
    let p = Permutation::random(10);
    let mut rim = Rim::zeros(9);
    Rim::from_permu(&p, &mut rim).unwrap();
    let mut back = Permutation::identity(10);
    Rim::to_permu(&rim, &mut back).unwrap();
    assert_eq!(p.permu, back.permu);
}

#[test]
fn rim_round_trips_across_sizes() {
    for n in 2..50 {
        let p = Permutation::random(n);
        let mut rim = Rim::zeros(n - 1);
        Rim::from_permu(&p, &mut rim).unwrap();
        for (i, v) in rim.inner.iter().enumerate() {
            assert!(*v <= i + 1);
        }
        let mut back = Permutation::identity(n);
        Rim::to_permu(&rim, &mut back).unwrap();
        assert_eq!(p.permu, back.permu);
    }
}

#[test]
fn rim_vector_round_trip() {
    // An admissible vector decodes and encodes back to itself.
    let v: Vec<usize> = vec![1, 0, 3, 2, 4, 0];
    let rim = Rim::from_vec(v.clone());
    let mut permu = Permutation::identity(7);
    Rim::to_permu(&rim, &mut permu).unwrap();
    let mut back = Rim::zeros(6);
    Rim::from_permu(&permu, &mut back).unwrap();
    assert_eq!(v, back.inner);
}

#[test]
fn rim_population_round_trip() {
    let mut permus = PermuPopulation::random(10, 5);
    let target = permus.clone();
    let mut rims = RimPopulation::zeros(10, 4);

    RimPopulation::from_permus(&permus, &mut rims).unwrap();
    RimPopulation::to_permus(&rims, &mut permus).unwrap();
    assert_eq!(target, permus);
}

#[test]
fn rim_population_zeros_decodes_to_reversed_identity() {
    let (size, length) = (10, 5);
    let rim_zeros = RimPopulation::zeros(size, length - 1);
    let mut permus = PermuPopulation::random(size, length);
    let target =
        PermuPopulation::from_vec(vec![Permutation::from_vec(vec![4, 3, 2, 1, 0]).unwrap(); size]);

    rim_zeros.to_permus(&mut permus).unwrap();
    assert_eq!(target, permus);
}

#[test]
fn rim_population_from_vec_checks_lengths() {
    let rows: Vec<Vec<usize>> = vec![vec![0, 2, 0, 0], vec![1, 2, 0, 0], vec![0, 0, 0, 0]];
    let pop = RimPopulation::from_vec(&rows).unwrap();
    assert_eq!(3, pop.size);

    let ragged: Vec<Vec<usize>> = vec![vec![0, 2, 0, 0], vec![1, 0, 0], vec![0, 0, 0, 0]];
    assert!(matches!(RimPopulation::from_vec(&ragged), Err(Error::LengthError)));
}
