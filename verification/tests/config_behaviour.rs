use talentsched::config::SolverType;

#[test]
fn from_str_accepts_both_variants() {
    assert_eq!(SolverType::from_str("classic"), Ok(SolverType::Classic));
    assert_eq!(SolverType::from_str("hybrid"), Ok(SolverType::Hybrid));
}

#[test]
fn from_str_rejects_anything_else() {
    assert!(SolverType::from_str("").is_err());
    assert!(SolverType::from_str("Classic").is_err());
    assert!(SolverType::from_str("classical").is_err());
    assert!(SolverType::from_str("hybri").is_err());
}

#[test]
fn name_round_trips_through_from_str() {
    for v in [SolverType::Classic, SolverType::Hybrid] {
        assert_eq!(SolverType::from_str(v.name()), Ok(v));
    }
}

#[test]
fn a_run_configuration_carries_its_knobs() {
    let config = talentsched::config::Solve {
        instance: String::from("instance.json"),
        width: 100,
        timeout: 60,
        threads: 1,
        n_meta_items: 10,
        compression_bound: true,
        compression_heuristic: false,
        solver: SolverType::Hybrid,
    };
    assert_eq!(config.width, 100);
    assert_eq!(config.solver.name(), "hybrid");
    let copy = config.clone();
    assert_eq!(copy.instance, "instance.json");
}
