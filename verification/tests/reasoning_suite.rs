use auralis::reasoning_suite::{
    canonical_cases, generate_suite, intentional_regression_predictions, oracle_predictions, score_case,
    score_predictions, sequence_acceleration, FailureKind, ReasoningAnswer, ReasoningError, ReasoningKind,
    ReasoningProfile, ReasoningSplit, REASONING_SUITE_SEED,
};

#[test]
fn generation_is_deterministic_and_profile_size_is_exact() {
    for profile in [ReasoningProfile::Smoke, ReasoningProfile::Full] {
        let a = generate_suite(profile, REASONING_SUITE_SEED);
        let b = generate_suite(profile, REASONING_SUITE_SEED);
        assert_eq!(a, b);
        assert_eq!(a.len(), 5 * 3 * profile.cases_per_kind_split());
        assert_eq!(canonical_cases(&a), canonical_cases(&b));
    }
}

#[test]
fn splits_separate_difficulty_and_length_generalization() {
    let cases = generate_suite(ReasoningProfile::Full, REASONING_SUITE_SEED);
    let train = cases.iter().filter(|case| case.split == ReasoningSplit::TrainDifficulty).collect::<Vec<_>>();
    let hard = cases.iter().filter(|case| case.split == ReasoningSplit::EvalDifficulty).collect::<Vec<_>>();
    let long = cases.iter().filter(|case| case.split == ReasoningSplit::EvalLength).collect::<Vec<_>>();

    assert!(train.iter().all(|case| case.difficulty <= 2 && case.length <= 4));
    assert!(hard.iter().all(|case| case.difficulty >= 3));
    assert!(long.iter().all(|case| case.length >= 7 && case.difficulty == 2));
    let max_train_length = train.iter().map(|case| case.length).max().unwrap();
    let min_long_length = long.iter().map(|case| case.length).min().unwrap();
    assert!(min_long_length > max_train_length);
}

#[test]
fn every_task_kind_and_split_is_present() {
    let cases = generate_suite(ReasoningProfile::Smoke, REASONING_SUITE_SEED);
    for kind in ReasoningKind::ALL {
        for split in ReasoningSplit::ALL {
            assert!(cases.iter().any(|case| case.kind == kind && case.split == split));
        }
    }
}

#[test]
fn oracle_predictions_score_exactly_one() {
    for profile in [ReasoningProfile::Smoke, ReasoningProfile::Full] {
        let cases = generate_suite(profile, REASONING_SUITE_SEED);
        let predictions = oracle_predictions(&cases);
        let report = score_predictions(&cases, &predictions).unwrap();
        assert_eq!(report.total, cases.len());
        assert_eq!(report.correct, cases.len());
        assert_eq!(report.failure_counts, [0; 6]);
        assert_eq!(report.correct as f64 / report.total as f64, 1.0);
    }
}

#[test]
fn intentional_regression_is_visible_by_failure_taxonomy() {
    let cases = generate_suite(ReasoningProfile::Full, REASONING_SUITE_SEED);
    let predictions = intentional_regression_predictions(&cases);
    let report = score_predictions(&cases, &predictions).unwrap();
    assert_eq!(report.correct, 0);
    assert!(report.failure_count(FailureKind::WrongValue) > 0);
    assert!(report.failure_count(FailureKind::WrongLength) > 0);
    assert!(report.failure_count(FailureKind::WrongBinding) > 0);
    assert!(report.failure_count(FailureKind::WrongTransition) > 0);
    assert!(report.failure_count(FailureKind::DistractorCapture) > 0);
}

#[test]
fn malformed_predictions_are_not_textually_forgiven() {
    let cases = generate_suite(ReasoningProfile::Smoke, REASONING_SUITE_SEED);
    let case = cases.iter().find(|case| matches!(&case.expected, ReasoningAnswer::Integer(_))).unwrap();
    let correct = case.expected.canonical();
    assert!(score_case(case, &correct).exact);
    let verbose = format!("The answer is {correct}");
    assert_eq!(score_case(case, &verbose).failure, FailureKind::InvalidFormat);
}

#[test]
fn planning_oracle_is_shortest_and_reaches_target() {
    let cases = generate_suite(ReasoningProfile::Full, REASONING_SUITE_SEED);
    for case in cases.iter().filter(|case| case.kind == ReasoningKind::FiniteStatePlanning) {
        let ReasoningAnswer::Plan { actions, final_state: _, steps } = &case.expected else {
            panic!("planning case has non-plan answer");
        };
        assert_eq!(actions.len(), *steps);
        assert!(score_case(case, &case.expected.canonical()).exact);
    }
}

#[test]
fn difficulty_split_changes_structure_in_every_family() {
    let cases = generate_suite(ReasoningProfile::Full, REASONING_SUITE_SEED);

    let hard_arithmetic = cases
        .iter()
        .filter(|case| case.kind == ReasoningKind::ArithmeticComposition && case.split == ReasoningSplit::EvalDifficulty)
        .collect::<Vec<_>>();
    assert!(hard_arithmetic.iter().all(|case| {
        let forced = 2 + case.difficulty as i64;
        case.prompt.contains(&format!("*{forced}"))
    }));

    assert!(cases
        .iter()
        .filter(|case| case.kind == ReasoningKind::VariableBinding && case.split == ReasoningSplit::EvalDifficulty)
        .all(|case| case.prompt.contains("2*")));

    assert!(cases
        .iter()
        .filter(|case| case.kind == ReasoningKind::FiniteStatePlanning && case.split == ReasoningSplit::EvalDifficulty)
        .all(|case| case.prompt.contains("action C")));

    for case in cases
        .iter()
        .filter(|case| case.kind == ReasoningKind::DistractorRobustness && case.split == ReasoningSplit::EvalDifficulty)
    {
        let ReasoningAnswer::DistractorInteger { correct, distractors } = &case.expected else { unreachable!() };
        assert!(distractors.iter().any(|value| (value - correct).abs() <= 2));
    }

    for local_index in 0..ReasoningProfile::Full.cases_per_kind_split() {
        let hard_index = 10_000 + 1_000 + local_index;
        let easy_index = 10_000 + local_index;
        assert!(sequence_acceleration(3, REASONING_SUITE_SEED, hard_index as u64) > 0);
        assert_eq!(sequence_acceleration(2, REASONING_SUITE_SEED, easy_index as u64), 0);
    }
}

#[test]
fn length_split_does_not_activate_hard_only_structures() {
    let cases = generate_suite(ReasoningProfile::Full, REASONING_SUITE_SEED);
    for case in cases.iter().filter(|case| case.split == ReasoningSplit::EvalLength) {
        assert_eq!(case.difficulty, 2);
        match &case.expected {
            ReasoningAnswer::Plan { .. } => {
                assert!(!case.prompt.contains("action C"));
            }
            ReasoningAnswer::DistractorInteger { correct, distractors } => {
                assert!(distractors.iter().all(|value| (value - correct).abs() >= 10));
            }
            _ => {}
        }
        if case.kind == ReasoningKind::VariableBinding {
            assert!(!case.prompt.contains("2*"));
        }
    }
}

#[test]
fn length_split_increases_planning_horizon() {
    let cases = generate_suite(ReasoningProfile::Full, REASONING_SUITE_SEED);
    let plan_steps = |split| {
        cases
            .iter()
            .filter(|case| case.kind == ReasoningKind::FiniteStatePlanning && case.split == split)
            .map(|case| match &case.expected {
                ReasoningAnswer::Plan { steps, .. } => *steps,
                _ => unreachable!(),
            })
            .collect::<Vec<_>>()
    };
    let train = plan_steps(ReasoningSplit::TrainDifficulty);
    let long = plan_steps(ReasoningSplit::EvalLength);
    assert!(long.iter().copied().min().unwrap() > train.iter().copied().max().unwrap());
}

#[test]
fn prediction_count_mismatch_fails_closed() {
    let cases = generate_suite(ReasoningProfile::Smoke, REASONING_SUITE_SEED);
    assert!(matches!(score_predictions(&cases, &[]), Err(ReasoningError::PredictionCountMismatch { .. })));
}

#[test]
fn reasoning_case_ids_and_canonical_lines() {
    let cases = generate_suite(ReasoningProfile::Smoke, REASONING_SUITE_SEED);
    assert_eq!(cases.len(), 30);
    assert_eq!(cases[0].id, "arithmetic-composition:train-difficulty:00000");
    assert_eq!(cases[2].id, "arithmetic-composition:eval-difficulty:01000");
    assert_eq!(cases[6].id, "algorithmic-sequence:train-difficulty:10000");
    let line = cases[0].canonical();
    assert!(line.starts_with("case|id=arithmetic-composition:train-difficulty:00000|kind=arithmetic-composition|split=train-difficulty|"));
    assert!(line.ends_with('\n'));
    assert_eq!(canonical_cases(&cases[..2]), format!("{}{}", cases[0].canonical(), cases[1].canonical()));
}

#[test]
fn reasoning_scoring_classifies_each_failure() {
    let cases = generate_suite(ReasoningProfile::Smoke, REASONING_SUITE_SEED);
    let seq_case = cases.iter().find(|c| c.kind == ReasoningKind::AlgorithmicSequence).unwrap();
    let ReasoningAnswer::IntegerSequence(values) = &seq_case.expected else { unreachable!() };
    assert_eq!(score_case(seq_case, &format!(" {},{} ", values[0], values[1])).exact, true);
    assert_eq!(score_case(seq_case, &format!("{}", values[0])).failure, FailureKind::WrongLength);
    assert_eq!(score_case(seq_case, &format!("{},{}", values[0], values[1] + 1)).failure, FailureKind::WrongValue);
    assert_eq!(score_case(seq_case, "").failure, FailureKind::InvalidFormat);
    let plan_case = cases.iter().find(|c| c.kind == ReasoningKind::FiniteStatePlanning).unwrap();
    assert_eq!(score_case(plan_case, "plan=AX;state=S1;steps=2").failure, FailureKind::InvalidFormat);
    assert_eq!(score_case(plan_case, "plan=;state=S0;steps=0;extra").failure, FailureKind::InvalidFormat);
    let err = ReasoningError::PredictionCountMismatch { expected: 3, actual: 1 };
    assert_eq!(err.message(), "prediction count mismatch: expected 3, got 1");
}
