use permu_rs::errors::Error;
use permu_rs::permutation::{PermuPopulation, Permutation};
use permu_rs::problems::{ProblemInstance, ProblemType};

#[test]
fn problem_type_from_extension() {
    assert!(matches!(ProblemType::from_path("instances/QAP/tai20b.dat"), Ok(ProblemType::Qap)));
    assert!(matches!(ProblemType::from_path("instances/PFSP/tai20_5_0.fsp"), Ok(ProblemType::Pfsp)));
    assert!(matches!(
        ProblemType::from_path("instances/LOP/N-be75eec_150.lop"),
        Ok(ProblemType::Lop)
    ));
    // The chunk after the first dot decides, as in `name.dat.bak`.
    assert!(matches!(ProblemType::from_path("name.dat.bak"), Ok(ProblemType::Qap)));
    assert!(matches!(ProblemType::from_path("no_extension"), Err(Error::ParseError)));
    assert!(matches!(ProblemType::from_path("wrong.ext"), Err(Error::ParseError)));
    assert!(matches!(ProblemType::from_path("short.da"), Err(Error::ParseError)));
}

#[test]
fn parse_qap_and_size() {
    let text = b"2\n0 2\n3 0\n0 5\n7 0\n";
    let inst = ProblemInstance::parse(ProblemType::Qap, text).unwrap();
    assert_eq!(2, inst.size());
    if let ProblemInstance::Qap(n, distance, flow) = &inst {
        assert_eq!(2, *n);
        assert_eq!(vec![vec![0, 2], vec![3, 0]], *distance);
        assert_eq!(vec![vec![0, 5], vec![7, 0]], *flow);
    } else {
        panic!("wrong instance kind");
    }
}

#[test]
fn parse_qap_rejects_malformed_text() {
    // A row that is too short.
    let r = ProblemInstance::parse(ProblemType::Qap, b"2\n0 2\n3\n0 5\n7 0\n");
    assert!(matches!(r, Err(Error::ParseError)));
    // A token that is not a number.
    let r = ProblemInstance::parse(ProblemType::Qap, b"2\n0 x\n3 0\n0 5\n7 0\n");
    assert!(matches!(r, Err(Error::ParseError)));
    // A missing size header.
    let r = ProblemInstance::parse(ProblemType::Qap, b"\n0 2\n3 0\n0 5\n7 0\n");
    assert!(matches!(r, Err(Error::ParseError)));
    // Too few matrix rows.
    let r = ProblemInstance::parse(ProblemType::Qap, b"2\n0 2\n3 0\n0 5\n");
    assert!(matches!(r, Err(Error::ParseError)));
}

#[test]
fn parse_lop() {
    let text = b"3\n0 1 2\n3 0 4\n5 6 0\n";
    let inst = ProblemInstance::parse(ProblemType::Lop, text).unwrap();
    assert_eq!(3, inst.size());
    if let ProblemInstance::Lop(n, matrix) = &inst {
        assert_eq!(3, *n);
        assert_eq!(vec![vec![0, 1, 2], vec![3, 0, 4], vec![5, 6, 0]], *matrix);
    } else {
        panic!("wrong instance kind");
    }
}

#[test]
fn parse_pfsp_skips_text_around_the_sizes() {
    let text = b"number of jobs and machines\n 2 2 irrelevant\nprocessing times\n3 2\n1 4\n";
    let inst = ProblemInstance::parse(ProblemType::Pfsp, text).unwrap();
    assert_eq!(2, inst.size());
    if let ProblemInstance::Pfsp(n_jobs, n_machines, matrix) = &inst {
        assert_eq!(2, *n_jobs);
        assert_eq!(2, *n_machines);
        assert_eq!(vec![vec![3, 2], vec![1, 4]], *matrix);
    } else {
        panic!("wrong instance kind");
    }
}

#[test]
fn parse_pfsp_needs_two_sizes() {
    let r = ProblemInstance::parse(ProblemType::Pfsp, b"header\n2 only-one\nrow\n3 2\n");
    assert!(matches!(r, Err(Error::ParseError)));
}

#[test]
fn evaluate_qap_concrete() {
    let inst = ProblemInstance::Qap(2, vec![vec![0, 2], vec![3, 0]], vec![vec![0, 5], vec![7, 0]]);
    let pop = PermuPopulation::from_vec(vec![
        Permutation::from_vec(vec![0, 1]).unwrap(),
        Permutation::from_vec(vec![1, 0]).unwrap(),
    ]);
    let mut fitness = vec![0; 2];
    inst.evaluate(&pop, &mut fitness).unwrap();
    assert_eq!(vec![31, 29], fitness);
}

#[test]
fn evaluate_lop_concrete() {
    let inst = ProblemInstance::Lop(3, vec![vec![0, 1, 2], vec![3, 0, 4], vec![5, 6, 0]]);
    let pop = PermuPopulation::from_vec(vec![
        Permutation::from_vec(vec![0, 1, 2]).unwrap(),
        Permutation::from_vec(vec![2, 1, 0]).unwrap(),
    ]);
    let mut fitness = vec![0; 2];
    inst.evaluate(&pop, &mut fitness).unwrap();
    assert_eq!(vec![7, 14], fitness);
}

#[test]
fn evaluate_pfsp_concrete() {
    let inst = ProblemInstance::Pfsp(2, 2, vec![vec![3, 2], vec![1, 4]]);
    let pop = PermuPopulation::from_vec(vec![
        Permutation::from_vec(vec![0, 1]).unwrap(),
        Permutation::from_vec(vec![1, 0]).unwrap(),
    ]);
    let mut fitness = vec![0; 2];
    inst.evaluate(&pop, &mut fitness).unwrap();
    assert_eq!(vec![13, 13], fitness);
}

#[test]
fn evaluate_parsed_instance() {
    let text = b"2\n0 2\n3 0\n0 5\n7 0\n";
    let inst = ProblemInstance::parse(ProblemType::Qap, text).unwrap();
    let pop = PermuPopulation::from_vec(vec![Permutation::from_vec(vec![0, 1]).unwrap()]);
    let mut fitness = vec![0; 1];
    inst.evaluate(&pop, &mut fitness).unwrap();
    assert_eq!(31, fitness[0]);
}

#[test]
fn evaluate_rejects_wrong_solution_length() {
    let inst = ProblemInstance::Lop(3, vec![vec![0, 1, 2], vec![3, 0, 4], vec![5, 6, 0]]);
    let pop = PermuPopulation::random(2, 4);
    let mut fitness = vec![0; 2];
    let r = inst.evaluate(&pop, &mut fitness);
    assert!(matches!(r, Err(Error::LengthError)));
    assert_eq!(vec![0, 0], fitness);
}

#[test]
fn evaluate_random_populations() {
    let inst = ProblemInstance::Lop(6, vec![vec![1; 6]; 6]);
    let pop = PermuPopulation::random(10, 6);
    let mut fitness = vec![0; 10];
    inst.evaluate(&pop, &mut fitness).unwrap();
    // Every ordering of a constant matrix scores the pair count.
    for f in fitness.iter() {
        assert_eq!(15, *f);
    }
}
