use permu_rs::permutation::{PermuPopulation, Permutation};
use permu_rs::vj::{LengthError, Vj, VjPopulation};

#[test]
fn vj_from_vec_and_zeros() {
    let vj_vec: Vec<usize> = vec![0, 0, 1, 1, 4];
    let my_vj = Vj::from_vec(vj_vec.clone());
    assert_eq!(vj_vec, my_vj.vj);
    assert_eq!(vec![0, 0, 0], Vj::zeros(3).vj);
}

#[test]
fn vj_encode_concrete() {
    let permu = Permutation::from_vec(vec![0, 3, 2, 1]).unwrap();
    let mut vj_repr = Vj::zeros(3);
    Vj::from_permu(&permu, &mut vj_repr).unwrap();
    assert_eq!(vec![0, 2, 1], vj_repr.vj);
}

#[test]
fn vj_decode_concrete() {
    let vj = Vj::from_vec(vec![0, 2, 1]);
    let mut permu = Permutation::identity(4);
    vj.to_permu(&mut permu).unwrap();
    assert_eq!(vec![0, 3, 2, 1], permu.permu);
}

#[test]
fn vj_length_mismatches_are_errors() {
    let permu = Permutation::from_vec(vec![0, 3, 2, 1]).unwrap();
    let mut too_long = Vj::zeros(4);
    assert!(Vj::from_permu(&permu, &mut too_long).is_err());

    let vj = Vj::from_vec(vec![0, 2, 1]);
    let mut permu = Permutation::identity(6);
    assert!(vj.to_permu(&mut permu).is_err());
}

#[test]
fn vj_population_zeros_decodes_to_identity() {
    let (size, length) = (20, 10);
    let identity = PermuPopulation::identity(size, length);
    let vjs = VjPopulation::zeros(size, length - 1);
    let mut permus = PermuPopulation::zeros(size, length);

    vjs.to_permus(&mut permus).unwrap();
    assert_eq!(identity, permus);
}

#[test]
fn vj_population_from_permus_identity() {
    let (size, length) = (5, 4);
    let mut vjs = VjPopulation::zeros(size, length - 1);
    for member in vjs.population.iter_mut() {
        member.vj[0] = 1;
    }
    let vj_ok = VjPopulation::zeros(size, length - 1);
    let permus = PermuPopulation::identity(size, length);

    VjPopulation::from_permus(&permus, &mut vjs).unwrap();
    assert_eq!(vj_ok, vjs);
}

#[test]
fn vj_population_round_trip() {
    let permus = PermuPopulation::random(6, 9);
    let mut vjs = VjPopulation::zeros(6, 8);
    VjPopulation::from_permus(&permus, &mut vjs).unwrap();
    let mut back = PermuPopulation::zeros(6, 9);
    vjs.to_permus(&mut back).unwrap();
    assert_eq!(permus, back);
}

#[test]
fn length_error_keeps_its_message() {
    let my_error = LengthError::new(String::from("Super custom message"));
    assert_eq!("Super custom message", my_error.message);
}
