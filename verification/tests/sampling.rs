use blotto::ga::{ConfigError, GeneticAlgorithm, MutationStrategy};
use blotto::individual::{flatten_for_wasm, Individual, IndividualResult};
use blotto::sampler::uniform_random_individual;
use blotto::selection::{cumulative_scores, roulette_select};
use blotto::tournament::Scoring;
use blotto::util::random_sample;
use blotto::variation::{crossover, sorted_castle_indices};

#[test]
fn test_sample_all() {
    for i in 0..10 {
        let sample = random_sample(i, i as usize, &mut rand::thread_rng());
        assert_eq!(sample.len(), i as usize);
        for (count, v) in sample.into_iter().enumerate() {
            assert_eq!(count as u64, v);
        }
    }
}

#[test]
fn test_sample_length() {
    for i in 0..10usize {
        let choose = i / 2;
        let sample = random_sample(i as u64, choose, &mut rand::thread_rng());
        assert_eq!(choose, sample.len());
    }
}

/// Each of the 10 compositions of 3 soldiers into 3 castles should come out
/// with probability close to 1/10: balanced splits are not favoured.
#[test]
fn sampler_uniformity() {
    let trials = 20000;
    let mut counts = [0u32; 16];
    let mut rng = rand::thread_rng();
    for _ in 0..trials {
        let individual = uniform_random_individual(3, 3, &mut rng);
        let d = &individual.soldier_distribution;
        assert_eq!(d.len(), 3);
        assert_eq!(d[0] + d[1] + d[2], 3);
        counts[(d[0] * 4 + d[1]) as usize] += 1;
    }
    for a in 0..=3u32 {
        for b in 0..=(3 - a) {
            let n = counts[(a * 4 + b) as usize];
            assert!(
                (1400..=2600).contains(&n),
                "composition ({}, {}, {}) seen {} times",
                a,
                b,
                3 - a - b,
                n
            );
        }
    }
}

/// If the rounding bonus always fell on the same flagged castle, one of the
/// two outcomes would never appear.
#[test]
fn crossover_bump_unbiased() {
    let i1 = Individual {
        soldier_distribution: vec![0, 1],
    };
    let i2 = Individual {
        soldier_distribution: vec![1, 0],
    };
    let mut seen_left = false;
    let mut seen_right = false;
    let mut rng = rand::thread_rng();
    for _ in 0..200 {
        let child = crossover(&i1, &i2, &mut rng).soldier_distribution;
        assert_eq!(child.iter().sum::<u32>(), 1);
        if child[0] == 1 {
            seen_left = true;
        } else {
            seen_right = true;
        }
    }
    assert!(seen_left && seen_right);
}

/// The roulette table pairs running totals with positions, skipping zero
/// scorers entirely.
#[test]
fn cumulative_scores_skips_zero_scorers() {
    let generation: Vec<IndividualResult> = [3, 0, 2]
        .into_iter()
        .map(|score| IndividualResult {
            details: Individual {
                soldier_distribution: vec![1, 1],
            },
            score,
        })
        .collect();
    assert_eq!(cumulative_scores(&generation), vec![(3, 0), (5, 2)]);
}

/// The all-zero fallback draws from the whole generation.
#[test]
fn roulette_fallback_covers_all() {
    let prev_results: Vec<IndividualResult> = (0..2)
        .map(|_| IndividualResult {
            details: Individual {
                soldier_distribution: vec![1, 1],
            },
            score: 0,
        })
        .collect();
    let mut seen = [false; 2];
    let mut rng = rand::thread_rng();
    for _ in 0..200 {
        let chosen = roulette_select(&prev_results, &Vec::new(), &mut rng);
        seen[chosen] = true;
    }
    assert!(seen[0] && seen[1]);
}

#[test]
fn config_rejects_bad_mutation_rate() {
    let r = GeneticAlgorithm::new(
        5,
        vec![1, 2],
        3,
        Scoring::Wins,
        MutationStrategy::Budgeted { rate_numer: 2, rate_denom: 1 },
    );
    assert_eq!(r.err(), Some(ConfigError::MutationRateOutOfRange));
    let r = GeneticAlgorithm::new(
        5,
        vec![1, 2],
        3,
        Scoring::Wins,
        MutationStrategy::Budgeted { rate_numer: 0, rate_denom: 0 },
    );
    assert_eq!(r.err(), Some(ConfigError::MutationRateOutOfRange));
}

#[test]
fn config_rejects_too_few_castles() {
    let r = GeneticAlgorithm::new(5, vec![7], 3, Scoring::Wins, MutationStrategy::NeighborSwap);
    assert_eq!(r.err(), Some(ConfigError::TooFewCastles));
}

#[test]
fn config_rejects_zero_point_castle() {
    let r =
        GeneticAlgorithm::new(5, vec![1, 0], 3, Scoring::Wins, MutationStrategy::NeighborSwap);
    assert_eq!(r.err(), Some(ConfigError::ZeroPointCastle));
}

#[test]
fn config_rejects_empty_population() {
    let r =
        GeneticAlgorithm::new(0, vec![1, 2], 3, Scoring::Wins, MutationStrategy::NeighborSwap);
    assert_eq!(r.err(), Some(ConfigError::NoIndividuals));
}

#[test]
fn config_rejects_score_overflow() {
    // The castle points alone overflow the score width.
    let r = GeneticAlgorithm::new(
        5,
        vec![u32::MAX, u32::MAX],
        3,
        Scoring::Wins,
        MutationStrategy::NeighborSwap,
    );
    assert_eq!(r.err(), Some(ConfigError::ScoreOverflow));
    // Points scoring accumulates over the whole population.
    let r = GeneticAlgorithm::new(
        u32::MAX,
        vec![1 << 20, 1 << 20],
        3,
        Scoring::Points,
        MutationStrategy::NeighborSwap,
    );
    assert_eq!(r.err(), Some(ConfigError::ScoreOverflow));
    // The same population is fine under Wins scoring.
    let r = GeneticAlgorithm::new(
        u32::MAX,
        vec![1 << 20, 1 << 20],
        3,
        Scoring::Wins,
        MutationStrategy::NeighborSwap,
    );
    assert!(r.is_ok());
}

#[test]
fn config_accepts_and_reports_shape() {
    let ga = GeneticAlgorithm::new(
        7,
        vec![1, 2, 3],
        10,
        Scoring::Points,
        MutationStrategy::Budgeted { rate_numer: 1, rate_denom: 10 },
    )
    .unwrap();
    assert_eq!(ga.num_individuals(), 7);
    assert_eq!(ga.num_castles(), 3);
    assert!(matches!(ga.scoring(), Scoring::Points));
}

/// Ten generations under Points scoring: results stay complete, conserved and
/// sorted best-first.
#[test]
fn points_generations_sorted_and_conserved() {
    let mut ga = GeneticAlgorithm::new(
        5,
        vec![5, 10, 15],
        12,
        Scoring::Points,
        MutationStrategy::Budgeted { rate_numer: 1, rate_denom: 4 },
    )
    .unwrap();
    for _ in 0..10 {
        let results = ga.run_generation();
        assert_eq!(results.len(), 5);
        for pair in results.windows(2) {
            assert!(pair[0].score >= pair[1].score);
        }
        for result in &results {
            assert_eq!(result.details.soldier_distribution.iter().sum::<u32>(), 12);
        }
    }
}

#[test]
fn sorted_castle_indices_orders_by_points() {
    let order = sorted_castle_indices(&vec![30, 10, 20]);
    assert_eq!(order, vec![1, 2, 0]);
}

#[test]
fn flatten_empty_results() {
    let results: Vec<IndividualResult> = Vec::new();
    assert_eq!(flatten_for_wasm(&results), Vec::<u32>::new());
}
