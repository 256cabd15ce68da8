use blotto::ga::{GeneticAlgorithm, MutationStrategy};
use blotto::individual::{Individual, IndividualResult};
use blotto::sampler::uniform_random_individual;
use blotto::selection::roulette_select;
use blotto::tournament::{evaluate, Scoring};
use blotto::variation::{crossover, mutate};

#[test]
fn test_end_to_end() {
    let mut ga = GeneticAlgorithm::new(
        5,
        vec![1, 2, 3],
        10,
        Scoring::Wins,
        MutationStrategy::Budgeted { rate_numer: 1, rate_denom: 1 },
    )
    .unwrap();
    for _ in 0..10 {
        let results = ga.run_generation();
        assert_eq!(results.len(), 5);
        for result in &results {
            let total_soldiers: u32 = result.details.soldier_distribution.iter().sum();
            assert_eq!(total_soldiers, 10);
        }
    }
}

#[test]
fn test_generate_random_individuals() {
    for num_soldiers in 1..10 {
        for num_castles in 3..10 {
            let individual =
                uniform_random_individual(num_castles, num_soldiers, &mut rand::thread_rng());
            let total_soldiers: u32 = individual.soldier_distribution.iter().sum();
            assert_eq!(total_soldiers, num_soldiers);
        }
    }
}

#[test]
fn test_roulette_select() {
    let prev_results = vec![
        IndividualResult {
            details: Individual {
                soldier_distribution: vec![1, 2],
            },
            score: 3,
        },
        IndividualResult {
            details: Individual {
                soldier_distribution: vec![2, 1],
            },
            score: 2,
        },
        IndividualResult {
            details: Individual {
                soldier_distribution: vec![3, 0],
            },
            score: 1,
        },
    ];
    let cumulative_sum: Vec<(u64, usize)> = vec![(3, 0), (5, 1), (6, 2)];
    for _ in 0..10 {
        let chosen = roulette_select(&prev_results, &cumulative_sum, &mut rand::thread_rng());
        assert!(chosen < prev_results.len());
    }
}

#[test]
fn test_roulette_select_all_zero() {
    let prev_results = vec![
        IndividualResult {
            details: Individual {
                soldier_distribution: vec![1, 1],
            },
            score: 0,
        },
        IndividualResult {
            details: Individual {
                soldier_distribution: vec![1, 1],
            },
            score: 0,
        },
    ];
    let chosen = roulette_select(&prev_results, &Vec::new(), &mut rand::thread_rng());
    assert!(chosen < prev_results.len());
}

#[test]
fn test_cross_over_no_rounding() {
    let i1 = Individual {
        soldier_distribution: vec![2, 2, 0],
    };
    let i2 = Individual {
        soldier_distribution: vec![2, 0, 2],
    };
    let child = crossover(&i1, &i2, &mut rand::thread_rng());
    assert_eq!(child.soldier_distribution, vec![2, 1, 1]);
}

#[test]
fn test_cross_over_rounding() {
    for _ in 0..10 {
        let i1 = Individual {
            soldier_distribution: vec![2, 3, 0],
        };
        let i2 = Individual {
            soldier_distribution: vec![2, 0, 3],
        };
        let s = crossover(&i1, &i2, &mut rand::thread_rng()).soldier_distribution;
        assert_eq!(s[0], 2);
        assert!(s[1] == 1 && s[2] == 2 || s[1] == 2 && s[2] == 1);
    }
}

#[test]
fn test_mutate_unchanged_num_soldiers() {
    for _ in 0..10 {
        for (numer, denom) in [(1, 2), (1, 1)] {
            let mut i = Individual {
                soldier_distribution: vec![3, 3, 3],
            };
            mutate(&mut i, 9, numer, denom, &mut rand::thread_rng());
            let new_total: u32 = i.soldier_distribution.into_iter().sum();
            assert_eq!(9, new_total);
        }
    }
}

#[test]
fn test_mutation_rate_zero() {
    let mut i = Individual {
        soldier_distribution: vec![3, 3, 3],
    };
    mutate(&mut i, 9, 0, 1, &mut rand::thread_rng());
    assert_eq!(vec![3, 3, 3], i.soldier_distribution);
}

#[test]
fn test_pair_battle() {
    let i1 = Individual {
        soldier_distribution: vec![1, 2],
    };
    let i2 = Individual {
        soldier_distribution: vec![2, 1],
    };
    let castle_points = [5, 10];
    assert_eq!(i1.battle(&i2, &castle_points), (10, 5));
    assert_eq!(i2.battle(&i1, &castle_points), (5, 10));
    assert_eq!(i2.battle(&i2, &castle_points), (0, 0));
}

#[test]
fn ga_test_pair_battle() {
    let i1 = Individual {
        soldier_distribution: vec![1, 2],
    };
    let i2 = Individual {
        soldier_distribution: vec![2, 1],
    };
    let castle_points = [5, 10];
    assert_eq!(i1.battle(&i2, &castle_points), (10, 5));
    assert_eq!(i2.battle(&i1, &castle_points), (5, 10));
    assert_eq!(i2.battle(&i2, &castle_points), (0, 0));
}

#[test]
fn test_evaluate_individuals_wars_won() {
    let individuals = vec![
        Individual {
            soldier_distribution: vec![1, 2],
        },
        Individual {
            soldier_distribution: vec![2, 1],
        },
        Individual {
            soldier_distribution: vec![0, 3],
        },
    ];
    let castle_points = vec![5, 10];
    let results = evaluate(individuals, &castle_points, Scoring::Wins);
    assert_eq!(
        results,
        vec![
            IndividualResult {
                details: Individual {
                    soldier_distribution: vec![0, 3],
                },
                score: 2
            },
            IndividualResult {
                details: Individual {
                    soldier_distribution: vec![1, 2],
                },
                score: 1
            },
            IndividualResult {
                details: Individual {
                    soldier_distribution: vec![2, 1],
                },
                score: 0
            }
        ]
    );
}

#[test]
fn test_evaluate_individuals_points() {
    let individuals = vec![
        Individual {
            soldier_distribution: vec![1, 2],
        },
        Individual {
            soldier_distribution: vec![2, 1],
        },
        Individual {
            soldier_distribution: vec![0, 3],
        },
    ];
    let castle_points = vec![5, 10];
    let results = evaluate(individuals, &castle_points, Scoring::Points);
    assert_eq!(
        results,
        vec![
            IndividualResult {
                details: Individual {
                    soldier_distribution: vec![0, 3],
                },
                score: 20
            },
            IndividualResult {
                details: Individual {
                    soldier_distribution: vec![1, 2],
                },
                score: 15
            },
            IndividualResult {
                details: Individual {
                    soldier_distribution: vec![2, 1],
                },
                score: 10
            }
        ]
    );
}
