//! The generation orchestrator: validated once at construction, it then
//! produces one evaluated, best-first generation per call, keeping only the
//! most recent generation as state.

use vstd::prelude::*;
use crate::individual::{Individual, IndividualResult};
use crate::rng::new_rng;
use crate::sampler::uniform_random_individual;
use crate::selection::{cumulative_scores, roulette_select, matches_roulette_table};
use crate::sums::seq_sum;
use crate::tournament::{
    evaluate, per_battle_max, population_views, result_views, scored_results, Scoring,
};
use crate::variation::{crossover, mutate, mutate_neighbor_swap, sorted_castle_indices};

verus! {

/// The mutation policy applied to every offspring.
#[derive(Debug, Clone, Copy)]
pub enum MutationStrategy {
    /// Budgeted redistribution: the fraction `rate_numer / rate_denom` of the
    /// soldier total is displaced per mutation.
    Budgeted { rate_numer: u32, rate_denom: u32 },
    /// A single adjacent pair in the by-points castle order redraws its
    /// combined soldiers.
    NeighborSwap,
}

/// A mutation rate must be a fraction in `[0, 1]`.
pub open spec fn mutation_wf(m: MutationStrategy) -> bool {
    match m {
        MutationStrategy::Budgeted { rate_numer, rate_denom } => rate_numer <= rate_denom
            && rate_denom >= 1,
        MutationStrategy::NeighborSwap => true,
    }
}

/// Why a configuration was rejected.
#[derive(Debug, Clone, Copy, PartialEq, Eq)]
pub enum ConfigError {
    /// The mutation rate lies outside `[0, 1]`.
    MutationRateOutOfRange,
    /// Fewer than two castles.
    TooFewCastles,
    /// More castles than the engine's index arithmetic accounts for.
    TooManyCastles,
    /// A castle worth no points.
    ZeroPointCastle,
    /// An empty population.
    NoIndividuals,
    /// Scores could overflow their width under the chosen policy.
    ScoreOverflow,
}

/// A configuration the engine accepts.
pub open spec fn config_ok(
    num_individuals: u32,
    castle_points: Seq<u32>,
    scoring: Scoring,
    mutation: MutationStrategy,
) -> bool {
    &&& mutation_wf(mutation)
    &&& castle_points.len() >= 2
    &&& castle_points.len() <= u32::MAX
    &&& forall|i: int| 0 <= i < castle_points.len() ==> #[trigger] castle_points[i] >= 1
    &&& num_individuals >= 1
    &&& seq_sum(castle_points) <= u32::MAX
    &&& num_individuals * per_battle_max(castle_points, scoring) <= u32::MAX
}

/// The error a rejected configuration is reported with: the first check that
/// fails, in the order the constructor makes them.
pub open spec fn expected_config_error(
    num_individuals: u32,
    castle_points: Seq<u32>,
    scoring: Scoring,
    mutation: MutationStrategy,
) -> ConfigError {
    if !mutation_wf(mutation) {
        ConfigError::MutationRateOutOfRange
    } else if castle_points.len() < 2 {
        ConfigError::TooFewCastles
    } else if castle_points.len() > u32::MAX {
        ConfigError::TooManyCastles
    } else if exists|i: int| 0 <= i < castle_points.len() && castle_points[i] == 0 {
        ConfigError::ZeroPointCastle
    } else if num_individuals == 0 {
        ConfigError::NoIndividuals
    } else {
        ConfigError::ScoreOverflow
    }
}

/// A well-formed generation: exactly the configured number of individuals,
/// each with one count per castle and the configured soldier total.
pub open spec fn generation_wf(
    g: Seq<IndividualResult>,
    num_individuals: u32,
    num_castles: int,
    num_soldiers: u32,
) -> bool {
    &&& g.len() == num_individuals
    &&& forall|k: int|
        0 <= k < g.len() ==> #[trigger] g[k].details@.len() == num_castles && seq_sum(
            g[k].details@,
        ) == num_soldiers
}

/// The genetic-algorithm engine. Configuration is validated once in `new` and
/// immutable afterwards; the previous generation is the only retained state.
pub struct GeneticAlgorithm {
    pub current_generation: Option<Vec<IndividualResult>>,
    pub num_individuals: u32,
    pub castle_points: Vec<u32>,
    pub num_soldiers: u32,
    pub scoring: Scoring,
    pub mutation: MutationStrategy,
    pub rng: rand::rngs::ThreadRng,
}

impl GeneticAlgorithm {
    /// The engine's invariant: an accepted configuration, and a retained
    /// generation (if any) that is well formed.
    pub open spec fn wf(&self) -> bool {
        &&& config_ok(self.num_individuals, self.castle_points@, self.scoring, self.mutation)
        &&& match self.current_generation {
            Option::None => true,
            Option::Some(g) => generation_wf(
                g@,
                self.num_individuals,
                self.castle_points@.len() as int,
                self.num_soldiers,
            ),
        }
    }

    /// Validates a configuration and builds the engine. Succeeds exactly on
    /// the configurations the engine accepts, and otherwise reports the first
    /// check that failed.
    pub fn new(
        num_individuals: u32,
        castle_points: Vec<u32>,
        num_soldiers: u32,
        scoring: Scoring,
        mutation: MutationStrategy,
    ) -> (r: Result<GeneticAlgorithm, ConfigError>)
        ensures
            r is Ok <==> config_ok(num_individuals, castle_points@, scoring, mutation),
            r matches Ok(ga) ==> ga.wf() && ga.num_individuals == num_individuals
                && ga.castle_points@ == castle_points@ && ga.num_soldiers == num_soldiers
                && ga.scoring == scoring && ga.mutation == mutation && ga.current_generation
                is None,
            r matches Err(e) ==> e == expected_config_error(
                num_individuals,
                castle_points@,
                scoring,
                mutation,
            ),
    {
        match mutation {
            MutationStrategy::Budgeted { rate_numer, rate_denom } => {
                if rate_denom == 0 || rate_numer > rate_denom {
                    return Err(ConfigError::MutationRateOutOfRange);
                }
            },
            MutationStrategy::NeighborSwap => {},
        }
        proof {
            assert(mutation_wf(mutation));
        }
        let n_castles = castle_points.len();
        if n_castles < 2 {
            return Err(ConfigError::TooFewCastles);
        }
        if n_castles as u64 > u32::MAX as u64 {
            return Err(ConfigError::TooManyCastles);
        }
        let mut points_total: u64 = 0;
        for i in 0..n_castles
            invariant
                mutation_wf(mutation),
                n_castles == castle_points@.len(),
                2 <= n_castles <= u32::MAX,
                points_total == seq_sum(castle_points@.take(i as int)),
                points_total <= (i as int) * (u32::MAX as int),
                forall|j: int| 0 <= j < i ==> #[trigger] castle_points@[j] >= 1,
        {
            proof {
                crate::sums::lemma_sum_take_step(castle_points@, i as int);
            }
            if castle_points[i] == 0 {
                proof {
                    assert(castle_points@[i as int] == 0);
                }
                return Err(ConfigError::ZeroPointCastle);
            }
            points_total = points_total + castle_points[i] as u64;
        }
        proof {
            crate::sums::lemma_sum_take_full(castle_points@);
        }
        if num_individuals == 0 {
            return Err(ConfigError::NoIndividuals);
        }
        if points_total > u32::MAX as u64 {
            return Err(ConfigError::ScoreOverflow);
        }
        match scoring {
            Scoring::Wins => {
                proof {
                    assert(num_individuals * per_battle_max(castle_points@, scoring)
                        == num_individuals) by (nonlinear_arith)
                        requires
                            per_battle_max(castle_points@, scoring) == 1,
                    ;
                }
            },
            Scoring::Points => {
                proof {
                    assert(num_individuals as int * points_total as int <= u64::MAX)
                        by (nonlinear_arith)
                        requires
                            num_individuals <= u32::MAX,
                            points_total <= u32::MAX,
                    ;
                }
                if num_individuals as u64 * points_total > u32::MAX as u64 {
                    return Err(ConfigError::ScoreOverflow);
                }
            },
        }
        Ok(
            GeneticAlgorithm {
                current_generation: None,
                num_individuals,
                castle_points,
                num_soldiers,
                scoring,
                mutation,
                rng: new_rng(),
            },
        )
    }

    pub fn num_individuals(&self) -> (r: u32)
        ensures
            r == self.num_individuals,
    {
        self.num_individuals
    }

    pub fn num_castles(&self) -> (r: usize)
        ensures
            r == self.castle_points@.len(),
    {
        self.castle_points.len()
    }

    pub fn scoring(&self) -> (r: Scoring)
        ensures
            r == self.scoring,
    {
        self.scoring
    }

    /// Runs one generation: the first call samples a fresh uniform
    /// population, later calls breed offspring from the retained generation
    /// by selection, crossover and mutation; either way the population is
    /// evaluated, retained, and returned sorted best-first.
    pub fn run_generation(&mut self) -> (r: Vec<IndividualResult>)
        requires
            old(self).wf(),
        ensures
            final(self).wf(),
            final(self).num_individuals == old(self).num_individuals,
            final(self).castle_points@ == old(self).castle_points@,
            final(self).num_soldiers == old(self).num_soldiers,
            final(self).scoring == old(self).scoring,
            final(self).mutation == old(self).mutation,
            generation_wf(
                r@,
                old(self).num_individuals,
                old(self).castle_points@.len() as int,
                old(self).num_soldiers,
            ),
            forall|k1: int, k2: int| 0 <= k1 < k2 < r@.len() ==> r@[k1].score >= r@[k2].score,
            exists|pop: Seq<Seq<u32>>|
                #[trigger] scored_results(pop, old(self).castle_points@, old(self).scoring)
                    .to_multiset() == result_views(r@).to_multiset() && pop.len() == old(
                    self,
                ).num_individuals,
            final(self).current_generation matches Some(g) ==> result_views(g@) == result_views(
                r@,
            ),
    {
        let ghost nc = self.castle_points@.len() as int;
        let ghost ns = self.num_soldiers;
        let prev_opt = self.current_generation.take();
        let generation: Vec<Individual> = match prev_opt {
            None => {
                let ghost self0 = *self;
                let mut pop: Vec<Individual> = Vec::new();
                let n = self.num_individuals;
                let nc_exec = self.castle_points.len();
                let ns_exec = self.num_soldiers;
                for _k in 0..n
                    invariant
                        self.castle_points@ == self0.castle_points@,
                        self.num_individuals == self0.num_individuals,
                        self.num_soldiers == self0.num_soldiers,
                        self.scoring == self0.scoring,
                        self.mutation == self0.mutation,
                        self.current_generation == self0.current_generation,
                        nc_exec == self.castle_points@.len(),
                        ns_exec == self.num_soldiers,
                        2 <= nc_exec <= u32::MAX,
                        pop@.len() == _k,
                        forall|j: int|
                            0 <= j < pop@.len() ==> #[trigger] pop@[j]@.len() == nc_exec && seq_sum(
                                pop@[j]@,
                            ) == ns_exec,
                {
                    let ind = uniform_random_individual(nc_exec, ns_exec, &mut self.rng);
                    pop.push(ind);
                }
                pop
            },
            Some(prev) => {
                let ghost self0 = *self;
                let offspring = generation_from_previous(
                    &prev,
                    self.num_individuals,
                    self.num_soldiers,
                    &self.castle_points,
                    self.mutation,
                    &mut self.rng,
                );
                offspring
            },
        };
        let ghost pop_views_ghost = population_views(generation@);
        proof {
            assert(pop_views_ghost.len() == old(self).num_individuals);
            assert forall|j: int| 0 <= j < pop_views_ghost.len() implies #[trigger] pop_views_ghost[j].len()
                == nc && seq_sum(pop_views_ghost[j]) == ns by {
                assert(pop_views_ghost[j] == generation@[j]@);
            }
        }
        let generation_results = evaluate(generation, self.castle_points.as_slice(), self.scoring);
        proof {
            assert forall|k: int| 0 <= k < generation_results@.len() implies #[trigger] generation_results@[k].details@.len()
                == nc && seq_sum(generation_results@[k].details@) == ns by {
                crate::tournament::lemma_result_element_origin(
                    generation_results@,
                    pop_views_ghost,
                    self.castle_points@,
                    self.scoring,
                    k,
                );
                let j = choose|j: int|
                    0 <= j < pop_views_ghost.len() && #[trigger] pop_views_ghost[j]
                        == generation_results@[k].details@;
                assert(pop_views_ghost[j].len() == nc);
            }
        }
        let returned = clone_results(&generation_results);
        proof {
            assert(scored_results(pop_views_ghost, old(self).castle_points@, old(self).scoring)
                .to_multiset() == result_views(returned@).to_multiset());
            assert forall|k1: int, k2: int| 0 <= k1 < k2 < returned@.len() implies returned@[k1].score
                >= returned@[k2].score by {
                assert(returned@[k1]@ == generation_results@[k1]@);
                assert(returned@[k2]@ == generation_results@[k2]@);
            }
            assert(returned@.len() == old(self).num_individuals);
            assert forall|k: int| 0 <= k < returned@.len() implies #[trigger] returned@[k].details@.len()
                == nc && seq_sum(returned@[k].details@) == ns by {
                assert(returned@[k]@ == generation_results@[k]@);
                assert(returned@[k].details@ == generation_results@[k].details@);
            }
        }
        self.current_generation = Some(generation_results);
        returned
    }
}

/// Breeds one full offspring population from an evaluated generation: two
/// roulette-selected parents per child, crossed over and then mutated, so
/// every child keeps the castle count and the soldier total.
pub fn generation_from_previous(
    previous_generation: &Vec<IndividualResult>,
    num_individuals: u32,
    num_soldiers: u32,
    castle_points: &Vec<u32>,
    mutation: MutationStrategy,
    rng: &mut rand::rngs::ThreadRng,
) -> (r: Vec<Individual>)
    requires
        previous_generation@.len() >= 1,
        previous_generation@.len() <= u32::MAX,
        2 <= castle_points@.len() <= u32::MAX,
        mutation_wf(mutation),
        forall|k: int|
            0 <= k < previous_generation@.len() ==> #[trigger] previous_generation@[k].details@.len()
                == castle_points@.len() && seq_sum(previous_generation@[k].details@)
                == num_soldiers,
    ensures
        r@.len() == num_individuals,
        forall|k: int|
            0 <= k < r@.len() ==> #[trigger] r@[k]@.len() == castle_points@.len() && seq_sum(
                r@[k]@,
            ) == num_soldiers,
{
    let cumulative_sum = cumulative_scores(previous_generation);
    let sorted_castles = sorted_castle_indices(castle_points);
    let mut offspring: Vec<Individual> = Vec::new();
    let n = num_individuals;
    for _k in 0..n
        invariant
            previous_generation@.len() >= 1,
            previous_generation@.len() <= u32::MAX,
            2 <= castle_points@.len() <= u32::MAX,
            mutation_wf(mutation),
            forall|k: int|
                0 <= k < previous_generation@.len()
                    ==> #[trigger] previous_generation@[k].details@.len() == castle_points@.len()
                    && seq_sum(previous_generation@[k].details@) == num_soldiers,
            matches_roulette_table(previous_generation@, cumulative_sum@),
            sorted_castles@.len() == castle_points@.len(),
            forall|k: int|
                0 <= k < sorted_castles@.len() ==> #[trigger] sorted_castles@[k]
                    < castle_points@.len(),
            forall|k1: int, k2: int|
                0 <= k1 < k2 < sorted_castles@.len() ==> sorted_castles@[k1] != sorted_castles@[k2],
            offspring@.len() == _k,
            forall|k: int|
                0 <= k < offspring@.len() ==> #[trigger] offspring@[k]@.len()
                    == castle_points@.len() && seq_sum(offspring@[k]@) == num_soldiers,
    {
        let i1 = roulette_select(previous_generation, &cumulative_sum, rng);
        let i2 = roulette_select(previous_generation, &cumulative_sum, rng);
        let mut child = crossover(
            &previous_generation[i1].details,
            &previous_generation[i2].details,
            rng,
        );
        match mutation {
            MutationStrategy::Budgeted { rate_numer, rate_denom } => {
                mutate(&mut child, num_soldiers, rate_numer, rate_denom, rng);
            },
            MutationStrategy::NeighborSwap => {
                mutate_neighbor_swap(&mut child, &sorted_castles, rng);
            },
        }
        offspring.push(child);
    }
    offspring
}

/// Copies a result list, preserving every distribution and score.
fn clone_results(v: &Vec<IndividualResult>) -> (r: Vec<IndividualResult>)
    ensures
        r@.len() == v@.len(),
        forall|k: int| 0 <= k < v@.len() ==> #[trigger] r@[k]@ == v@[k]@,
        result_views(r@) == result_views(v@),
{
    let mut out: Vec<IndividualResult> = Vec::new();
    let n = v.len();
    for i in 0..n
        invariant
            n == v@.len(),
            out@.len() == i,
            forall|k: int| 0 <= k < i ==> #[trigger] out@[k]@ == v@[k]@,
    {
        out.push(v[i].clone());
    }
    proof {
        assert(result_views(out@) =~= result_views(v@));
    }
    out
}

} // verus!
