use mastermind::mastermind_mechanics::{CodeType, ConfigType, ResultType};
use mastermind::mastermind_solver::{
    CandidateHandlerType, CandidateResultHashMap, CandidateResultType, StrategyCounter,
    StrategyExecutionType, StrategyHandlerType,
};

#[test]
fn mastermind_solver_test_result_handler_basics() {
    let guesses = vec![
        CodeType::new(vec![1, 2, 3, 4]),
        CodeType::new(vec![1, 1, 1, 1]),
        CodeType::new(vec![2, 2, 2, 2]),
        CodeType::new(vec![3, 3, 3, 3]),
        CodeType::new(vec![4, 4, 4, 4]),
    ];

    let solution = CodeType::new(vec![1, 2, 3, 4]);
    let result_handler = CandidateResultType::new(&guesses, &solution);

    assert!(result_handler.contains(&ResultType::new(4, 0)));
    assert!(result_handler.contains(&ResultType::new(1, 0)));
    assert!(!result_handler.contains(&ResultType::new(1, 1)));
    assert_eq!(result_handler.num_results(), 2);

    assert_eq!(result_handler.num_entries(&ResultType::new(4, 0)), 1);
    assert_eq!(result_handler.num_entries(&ResultType::new(1, 0)), 4);

    // example that should not be equal to above
    let guesses_neq = vec![
        CodeType::new(vec![1, 2, 3, 4]),
        CodeType::new(vec![2, 2, 2, 2]),
        CodeType::new(vec![3, 3, 3, 3]),
        CodeType::new(vec![4, 4, 4, 4]),
    ];
    let result_handler_neq = CandidateResultType::new(&guesses_neq, &solution);
    assert!(!result_handler.eq(&result_handler_neq));

    // another example that should be equal to the result handler
    let guesses_eq = vec![
        CodeType::new(vec![1, 2, 3, 4]),
        CodeType::new(vec![2, 2, 2, 2]),
        CodeType::new(vec![3, 3, 3, 3]),
        CodeType::new(vec![4, 4, 4, 4]),
        CodeType::new(vec![0, 2, 0, 0]),
    ];
    let result_handler_eq = CandidateResultType::new(&guesses_eq, &solution);
    assert!(result_handler.eq(&result_handler_eq));
    assert!(result_handler.candidate.eq(&solution));

    // now testing also the count -> for only one result
    let guesses_cnt1 = vec![CodeType::new(vec![1, 2, 3, 4])];
    let mut result_handler_cnt1 = CandidateResultType::new(&guesses_cnt1, &solution);

    assert_eq!(*result_handler_cnt1.count(), StrategyCounter::FINISHED { count: 1 });

    // now testing also the count -> for two results
    let guesses_cnt2 = vec![CodeType::new(vec![1, 2, 3, 4]), CodeType::new(vec![1, 2, 3, 5])];
    let mut result_handler_cnt2 = CandidateResultType::new(&guesses_cnt2, &solution);

    assert_eq!(
        *result_handler_cnt2.count(),
        StrategyCounter::PARTIALLY_FINISHED { count: 3 }
    );
}

#[test]
fn mastermind_solver_test_candidatehandlertype_basic() {
    // this is just the basic testing without the propagation
    let config = ConfigType::new_extended(2, 2);
    let cht_one =
        CandidateHandlerType::create_next_candidates(vec![CodeType::new(vec![0, 0])], &config);

    assert_eq!(cht_one.len(), 1);
    assert!(cht_one.is_finished());

    let mut cht = CandidateHandlerType::create_next_candidates(
        vec![
            CodeType::new(vec![0, 0]),
            CodeType::new(vec![1, 0]),
            CodeType::new(vec![0, 1]),
            CodeType::new(vec![1, 1]),
        ],
        &config,
    );

    // there should be only two candidates: same color or different colors
    assert_eq!(cht.len(), 2);
    cht.count();
    assert_eq!(cht.counter_stored, StrategyCounter::PARTIALLY_FINISHED { count: 7 });

    // now with only three as input
    let mut cht = CandidateHandlerType::create_next_candidates(
        vec![
            CodeType::new(vec![0, 0]),
            CodeType::new(vec![1, 0]),
            CodeType::new(vec![0, 1]),
        ],
        &config,
    );
    assert_eq!(cht.len(), 3);

    cht.count();
    assert_eq!(*cht.count(), StrategyCounter::PARTIALLY_FINISHED { count: 5 });
}

#[test]
fn mastermind_solver_test_candidate_handler_propagation() {
    let configuration = &ConfigType::new_extended(5, 3);
    let guesses = vec![
        CodeType::new(vec![1, 1, 1]),
        CodeType::new(vec![2, 2, 2]),
        CodeType::new(vec![3, 3, 3]),
        CodeType::new(vec![4, 4, 4]),
    ];
    let mut handler_candidate = CandidateHandlerType::create_next_candidates(guesses, configuration);
    assert_eq!(handler_candidate.counter_stored, StrategyCounter::PENDING { count: 7 });
    // update the counter
    handler_candidate.count();

    assert_eq!(
        handler_candidate.counter_stored,
        StrategyCounter::PARTIALLY_FINISHED { count: 7 }
    );
    handler_candidate.propagate_next_level(configuration);

    assert_eq!(
        *handler_candidate.count(),
        StrategyCounter::PARTIALLY_FINISHED { count: 9 }
    );
    handler_candidate.propagate_next_level(configuration);

    assert_eq!(*handler_candidate.count(), StrategyCounter::FINISHED { count: 9 });
}

#[test]
fn test_candidatehandlertype_basic_1_step() {
    // this solves after one propagation
    let config = ConfigType::new_extended(2, 2);

    let counts = vec![
        StrategyCounter::PENDING { count: 7 },
        StrategyCounter::PARTIALLY_FINISHED { count: 8 },
        StrategyCounter::FINISHED { count: 8 },
    ];
    let mut sht = StrategyHandlerType::new(&config);
    assert!(sht.test_solve(counts));
    assert_eq!(
        sht.verify(),
        Some(sht.handler_candidates.counter_stored.get_count_estimate())
    );
}

#[test]
fn test_candidatehandlertype_basic_2_steps() {
    // this solves after two propagations
    let config = ConfigType::new_extended(3, 2);

    let counts = vec![
        StrategyCounter::PENDING { count: 17 },
        StrategyCounter::PARTIALLY_FINISHED { count: 21 },
        StrategyCounter::FINISHED { count: 21 },
    ];
    let mut sht = StrategyHandlerType::new(&config);
    assert!(sht.test_solve(counts));

    assert_eq!(
        sht.verify(),
        Some(sht.handler_candidates.counter_stored.get_count_estimate())
    );
}

#[test]
fn test_candidatehandlertype_basic_3_steps() {
    let config = ConfigType::new_extended(2, 3);

    let counts = vec![
        StrategyCounter::PENDING { count: 15 },
        StrategyCounter::PARTIALLY_FINISHED { count: 18 },
        StrategyCounter::FINISHED { count: 18 },
    ];
    let mut sht = StrategyHandlerType::new(&config);
    assert!(sht.test_solve(counts));

    assert_eq!(
        sht.verify(),
        Some(sht.handler_candidates.counter_stored.get_count_estimate())
    );
}

// ---------------------------------------------------------------------------
// Further cases
// ---------------------------------------------------------------------------

#[test]
fn counter_basics() {
    assert_eq!(StrategyCounter::new(1), StrategyCounter::FINISHED { count: 1 });
    assert_eq!(StrategyCounter::new(4), StrategyCounter::PENDING { count: 7 });
    let p = StrategyCounter::PARTIALLY_FINISHED { count: 5 };
    assert_eq!(p.get_count_finished(), Some(5));
    assert_eq!(StrategyCounter::PENDING { count: 5 }.get_count_finished(), None);
    assert_eq!(p.get_count_estimate(), 5);
    assert!(!p.is_finished());
    assert!(StrategyCounter::FINISHED { count: 2 }.is_finished());
    assert!(p.keep(5));
    assert!(!p.keep(4));
}

#[test]
fn solve_finishes_and_prunes() {
    let config = ConfigType::new_extended(2, 2);
    let mut sht = StrategyHandlerType::new(&config);
    assert!(sht.solve());
    assert!(sht.handler_candidates.is_finished());
    assert_eq!(sht.handler_candidates.len(), 1);
    assert_eq!(sht.handler_candidates.counter_stored, StrategyCounter::FINISHED { count: 8 });
    assert_eq!(sht.verify(), Some(8));

    let config = ConfigType::new_extended(3, 2);
    let mut sht = StrategyHandlerType::new(&config);
    assert!(sht.solve());
    assert_eq!(sht.verify(), Some(21));
}

#[test]
fn test_solve_reports_a_wrong_expectation() {
    let config = ConfigType::new_extended(2, 2);
    let counts = vec![
        StrategyCounter::PENDING { count: 7 },
        StrategyCounter::PARTIALLY_FINISHED { count: 9 },
        StrategyCounter::FINISHED { count: 8 },
    ];
    let mut sht = StrategyHandlerType::new(&config);
    assert!(!sht.test_solve(counts));
}

#[test]
fn grouping_keeps_first_occurrence_order() {
    let guesses = vec![
        CodeType::new(vec![0, 1]),
        CodeType::new(vec![1, 1]),
        CodeType::new(vec![0, 0]),
        CodeType::new(vec![1, 0]),
    ];
    let solution = CodeType::new(vec![0, 0]);
    let r = CandidateResultType::new(&guesses, &solution);
    match &r.result_hashmap {
        CandidateResultHashMap::NEW(groups) => {
            let keys: Vec<ResultType> = groups.iter().map(|(k, _)| *k).collect();
            assert_eq!(
                keys,
                vec![ResultType::new(1, 0), ResultType::new(0, 0), ResultType::new(2, 0)]
            );
            assert_eq!(groups[0].1.len(), 2);
            assert!(groups[0].1[0].eq(&guesses[0]));
            assert!(groups[0].1[1].eq(&guesses[3]));
        }
        _ => panic!("fresh guesses hold grouped codes"),
    }
    assert_eq!(r.counter_stored, StrategyCounter::PENDING { count: 7 });
    assert_eq!(r.number_of_candidates, 4);
    assert!(r.get_guess().eq(&solution));
}

#[test]
fn two_candidates_use_the_first_as_guess() {
    let config = ConfigType::new_extended(3, 2);
    let cht = CandidateHandlerType::create_next_candidates(
        vec![CodeType::new(vec![2, 1]), CodeType::new(vec![0, 0])],
        &config,
    );
    assert_eq!(cht.len(), 1);
    assert!(cht.get_candidate().get_guess().eq(&CodeType::new(vec![2, 1])));
    assert_eq!(cht.counter_stored, StrategyCounter::PENDING { count: 3 });
}

#[test]
fn count_can_be_checked_ahead() {
    let config = ConfigType::new_extended(2, 2);
    let mut cht = CandidateHandlerType::new(&config);
    assert!(cht.can_count());
    cht.propagate_next_level(&config);
    assert!(cht.can_count());
}

#[test]
fn executing_a_strategy() {
    let config = ConfigType::new_extended(2, 2);
    let mut sht = StrategyHandlerType::new(&config);
    assert!(sht.solve());
    let solution = CodeType::new(vec![1, 1]);
    let mut strategy = StrategyExecutionType::new(&sht.handler_candidates);
    let mut guesses = 0;
    loop {
        let guess = strategy.get_guess();
        guesses += 1;
        let result = guess.grade(&solution);
        if result.is_finished(&config) {
            break;
        }
        strategy.enter_result(result);
        assert!(!strategy.is_finished());
    }
    assert!(guesses <= 3);
    sht.prune();
}

#[test]
fn similar_guesses_are_not_repeated() {
    let config = ConfigType::new_extended(3, 2);
    let all = mastermind::mastermind_mechanics::get_all_codes(&config);
    let cht = CandidateHandlerType::create_next_candidates(all.clone(), &config);
    // every pair of kept guesses splits the codes differently
    for i in 0..cht.len() {
        for j in (i + 1)..cht.len() {
            assert!(!cht.candidate_list[i].eq(&cht.candidate_list[j]));
        }
        assert!(cht.candidate_list[i].num_results() > 1);
    }
    let single = CandidateResultType::new(&all, &all[0]);
    assert!(cht.contains_similar(&single));
}

#[test]
fn a_finished_count_stays_after_another_round() {
    let config = ConfigType::new_extended(3, 2);
    let counts = vec![
        StrategyCounter::PENDING { count: 17 },
        StrategyCounter::PARTIALLY_FINISHED { count: 21 },
        StrategyCounter::FINISHED { count: 21 },
    ];
    let mut sht = StrategyHandlerType::new(&config);
    assert!(sht.test_solve(counts));
    let before = sht.handler_candidates.counter_stored;
    sht.handler_candidates.propagate_next_level(&config);
    assert!(sht.handler_candidates.can_count());
    sht.handler_candidates.count();
    assert_eq!(sht.handler_candidates.counter_stored, before);
}

#[test]
fn counts_never_beat_the_best_case() {
    for (colors, columns) in [(2u8, 2usize), (3, 2), (2, 3), (2, 1), (1, 3)] {
        let config = ConfigType::new_extended(colors, columns);
        let n = (colors as u16).pow(columns as u32);
        let mut sht = StrategyHandlerType::new(&config);
        assert_eq!(
            sht.handler_candidates.counter_stored.get_count_estimate(),
            2 * n - 1
        );
        assert!(sht.solve());
        let estimate = sht.handler_candidates.counter_stored.get_count_estimate();
        assert!(estimate >= 2 * n - 1);
        assert_eq!(sht.verify(), Some(estimate));
    }
}

#[test]
fn solving_four_colors_three_columns() {
    let config = ConfigType::new_extended(4, 3);
    let mut sht = StrategyHandlerType::new(&config);
    assert!(sht.solve());
    assert_eq!(sht.handler_candidates.counter_stored, StrategyCounter::FINISHED { count: 206 });
    assert_eq!(sht.verify(), Some(206));
}

#[test]
fn solving_five_colors_three_columns() {
    let config = ConfigType::new_extended(5, 3);
    let mut sht = StrategyHandlerType::new(&config);
    assert!(sht.solve());
    assert_eq!(sht.handler_candidates.counter_stored, StrategyCounter::FINISHED { count: 451 });
    assert_eq!(sht.verify(), Some(451));
}

/// The least total number of guesses over all codes, found by an exhaustive
/// search over the same guesses (one per way of splitting the codes), for
/// configurations the README does not list.
fn assert_solves_with(colors: u8, columns: usize, least_total: u16) {
    let config = ConfigType::new_extended(colors, columns);
    let mut sht = StrategyHandlerType::new(&config);
    assert!(sht.solve());
    assert_eq!(
        sht.handler_candidates.counter_stored,
        StrategyCounter::FINISHED { count: least_total }
    );
    assert_eq!(sht.verify(), Some(least_total));
}

#[test]
fn solving_finds_the_least_total_on_small_configurations() {
    assert_solves_with(3, 3, 73);
    assert_solves_with(4, 2, 45);
    assert_solves_with(2, 4, 44);
    assert_solves_with(5, 2, 81);
    assert_solves_with(6, 2, 132);
}

#[test]
fn solving_three_colors_four_columns() {
    assert_solves_with(3, 4, 246);
}
