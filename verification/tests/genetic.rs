use archer_duel::fixed::ONE;
use archer_duel::genetic::{fittest, roulette_index, share, Agent, GeneticAlgorithm, SPIN_MIN};
use archer_duel::network::NeuralNetwork;
use rand::rngs::StdRng;
use rand::SeedableRng;

fn zero_net() -> NeuralNetwork {
    NeuralNetwork::from_parts(
        vec![vec![vec![0, 0], vec![0, 0], vec![0, 0]], vec![vec![0, 0], vec![0, 0]]],
        vec![vec![0, 0, 0], vec![0, 0]],
    )
    .unwrap()
}

fn sample_net() -> NeuralNetwork {
    NeuralNetwork::from_parts(
        vec![
            vec![vec![100_000, -200_000], vec![300_000, 400_000], vec![-500_000, 600_000]],
            vec![vec![700_000, -800_000], vec![-900_000, 1_000_000]],
        ],
        vec![vec![10_000, -20_000, 30_000], vec![-40_000, 50_000]],
    )
    .unwrap()
}

fn idle_net() -> NeuralNetwork {
    NeuralNetwork::from_parts(
        vec![vec![vec![0, 0], vec![0, 0], vec![0, 0]], vec![vec![0, 0], vec![0, 0]]],
        vec![vec![0, 0, 0], vec![-20_000_000, -20_000_000]],
    )
    .unwrap()
}

fn rated(fitness: &[i64]) -> Vec<Agent> {
    fitness.iter().map(|f| Agent::rated(zero_net(), 0, *f)).collect()
}

#[test]
fn a_new_agent_is_not_scored() {
    let agent = Agent::new(sample_net());
    assert_eq!(agent.score(), 0);
    assert_eq!(agent.fitness(), 0);
    assert!(agent.net().same_as(&sample_net()));
}

#[test]
fn a_rated_agent_keeps_its_rating() {
    let agent = Agent::rated(sample_net(), 15_140_313, 668_561);
    assert_eq!(agent.score(), 15_140_313);
    assert_eq!(agent.fitness(), 668_561);
    let copy = agent.clone();
    assert_eq!(copy.score(), 15_140_313);
    assert_eq!(copy.fitness(), 668_561);
    assert!(copy.net().same_as(&sample_net()));
}

#[test]
fn a_share_is_the_score_over_the_total() {
    assert_eq!(share(15_140_313, 22_646_110, 2), 668_561);
    assert_eq!(share(7_505_797, 22_646_110, 2), 331_438);
    assert_eq!(share(0, 22_646_110, 2), 0);
    assert_eq!(share(5, 5, 1), ONE);
    assert_eq!(share(1, 3, 3), 333_333);
}

#[test]
fn a_share_of_nothing_is_an_even_share() {
    assert_eq!(share(0, 0, 1), ONE);
    assert_eq!(share(0, 0, 2), 500_000);
    assert_eq!(share(0, 0, 3), 333_333);
    assert_eq!(share(0, 0, 1024), 976);
    assert_eq!(share(0, 0, usize::MAX), 0);
}

#[test]
fn the_wheel_stops_where_the_fitness_summed_up_reaches_the_spin() {
    let agents = rated(&[250_000, 250_000, 250_000, 250_000]);
    assert_eq!(roulette_index(&agents, SPIN_MIN), 0);
    assert_eq!(roulette_index(&agents, 250_000), 0);
    assert_eq!(roulette_index(&agents, 250_001), 1);
    assert_eq!(roulette_index(&agents, 500_000), 1);
    assert_eq!(roulette_index(&agents, 500_001), 2);
    assert_eq!(roulette_index(&agents, 750_001), 3);
    assert_eq!(roulette_index(&agents, ONE), 3);
}

#[test]
fn the_wheel_passes_agents_without_fitness() {
    let agents = rated(&[0, 0, 1_000_000]);
    assert_eq!(roulette_index(&agents, SPIN_MIN), 2);
    assert_eq!(roulette_index(&agents, ONE), 2);
    let agents = rated(&[0, 600_000, 0, 400_000]);
    assert_eq!(roulette_index(&agents, 1), 1);
    assert_eq!(roulette_index(&agents, 600_000), 1);
    assert_eq!(roulette_index(&agents, 600_001), 3);
}

#[test]
fn the_wheel_stops_at_the_last_agent_when_the_sum_falls_short() {
    let agents = rated(&[333_333, 333_333, 333_333]);
    assert_eq!(roulette_index(&agents, 999_999), 2);
    assert_eq!(roulette_index(&agents, ONE), 2);
    assert_eq!(roulette_index(&agents, i64::MAX), 2);
    let agents = rated(&[0, 0, 0, 0, 0]);
    assert_eq!(roulette_index(&agents, SPIN_MIN), 4);
}

#[test]
fn the_wheel_with_one_agent_stops_there() {
    let agents = rated(&[ONE]);
    assert_eq!(roulette_index(&agents, SPIN_MIN), 0);
    assert_eq!(roulette_index(&agents, ONE), 0);
    let agents = rated(&[0]);
    assert_eq!(roulette_index(&agents, ONE), 0);
}

#[test]
fn a_spin_of_nothing_stops_at_the_first_agent() {
    let agents = rated(&[250_000, 750_000]);
    assert_eq!(roulette_index(&agents, 0), 0);
    assert_eq!(roulette_index(&agents, -5), 0);
    assert_eq!(roulette_index(&agents, i64::MIN), 0);
}

#[test]
fn the_fittest_is_the_first_of_the_best() {
    assert_eq!(fittest(&rated(&[100, 300, 200])), 1);
    assert_eq!(fittest(&rated(&[300, 300, 200])), 0);
    assert_eq!(fittest(&rated(&[100, 200, 300, 300])), 2);
    assert_eq!(fittest(&rated(&[0, 0, 0])), 0);
    assert_eq!(fittest(&rated(&[7])), 0);
    assert_eq!(fittest(&rated(&[0, 0, 0, 1])), 3);
}

#[test]
fn among_agents_of_one_fitness_the_higher_score_is_fitter() {
    let agents = vec![
        Agent::rated(zero_net(), 10, 0),
        Agent::rated(zero_net(), 11, 0),
        Agent::rated(zero_net(), 11, 0),
        Agent::rated(zero_net(), 9, 0),
    ];
    assert_eq!(fittest(&agents), 1);
    let agents = vec![
        Agent::rated(zero_net(), 50, 3),
        Agent::rated(zero_net(), 10, 4),
        Agent::rated(zero_net(), 12, 4),
        Agent::rated(zero_net(), 99, 3),
    ];
    assert_eq!(fittest(&agents), 2);
}

#[test]
fn scores_that_round_to_one_share_are_told_apart() {
    let mut rng = StdRng::seed_from_u64(34);
    let mut search = GeneticAlgorithm::new(40, 500_000);
    let best = search.get_best(0, &mut rng);
    let top = search.agents().iter().map(|a| a.score()).max().unwrap();
    assert_eq!(best.score(), top);
    let first = search.agents().iter().position(|a| a.score() == top).unwrap();
    assert!(best.same_as(search.agents()[first].net()));
}

#[test]
fn a_new_search_has_no_agents() {
    let search = GeneticAlgorithm::new(1024, 500_000);
    assert_eq!(search.pop_size(), 1024);
    assert_eq!(search.learning_rate(), 500_000);
    assert_eq!(search.current_gen(), 0);
    assert!(search.agents().is_empty());
}

#[test]
fn init_random_makes_a_population_of_the_configured_size() {
    let mut rng = StdRng::seed_from_u64(21);
    let mut search = GeneticAlgorithm::new(9, 500_000);
    search.init_random(&mut rng);
    assert_eq!(search.agents().len(), 9);
    for agent in search.agents().iter() {
        assert_eq!(agent.score(), 0);
        assert_eq!(agent.fitness(), 0);
        let (weights, biases) = agent.net().parts();
        assert!(weights.iter().flatten().flatten().all(|w| -ONE <= *w && *w <= ONE));
        assert!(biases.iter().flatten().all(|b| -ONE <= *b && *b <= ONE));
    }
    assert!(!search.agents()[0].net().same_as(search.agents()[1].net()));
    search.init_random(&mut rng);
    assert_eq!(search.agents().len(), 9);
    let mut empty = GeneticAlgorithm::new(0, 500_000);
    empty.init_random(&mut rng);
    assert!(empty.agents().is_empty());
}

#[test]
fn calculate_fitness_gives_every_agent_its_share() {
    let agents = vec![Agent::new(sample_net()), Agent::new(zero_net())];
    let mut search = GeneticAlgorithm::with_agents(2, 500_000, agents);
    search.calculate_fitness();
    let agents = search.agents();
    assert_eq!(agents.len(), 2);
    assert_eq!(agents[0].score(), 15_140_313);
    assert_eq!(agents[1].score(), 7_505_797);
    assert_eq!(agents[0].fitness(), 668_561);
    assert_eq!(agents[1].fitness(), 331_438);
    assert!(agents[0].net().same_as(&sample_net()));
    assert!(agents[1].net().same_as(&zero_net()));
}

#[test]
fn calculate_fitness_rates_an_agent_that_scored_nothing_at_nothing() {
    let agents = vec![Agent::new(sample_net()), Agent::new(zero_net()), Agent::new(idle_net())];
    let mut search = GeneticAlgorithm::with_agents(3, 500_000, agents);
    search.calculate_fitness();
    let agents = search.agents();
    assert_eq!(agents[0].fitness(), 668_561);
    assert_eq!(agents[1].fitness(), 331_438);
    assert_eq!(agents[2].score(), 0);
    assert_eq!(agents[2].fitness(), 0);
}

#[test]
fn calculate_fitness_shares_evenly_where_nothing_was_scored() {
    let agents = vec![Agent::new(idle_net()), Agent::new(idle_net()), Agent::new(idle_net())];
    let mut search = GeneticAlgorithm::with_agents(3, 500_000, agents);
    search.calculate_fitness();
    for agent in search.agents().iter() {
        assert_eq!(agent.score(), 0);
        assert_eq!(agent.fitness(), 333_333);
    }
}

#[test]
fn calculate_fitness_overwrites_an_old_rating() {
    let agents = vec![Agent::rated(zero_net(), 5, 5), Agent::rated(zero_net(), 121_000_000, ONE)];
    let mut search = GeneticAlgorithm::with_agents(2, 500_000, agents);
    search.calculate_fitness();
    for agent in search.agents().iter() {
        assert_eq!(agent.score(), 7_505_797);
        assert_eq!(agent.fitness(), 500_000);
    }
    search.calculate_fitness();
    for agent in search.agents().iter() {
        assert_eq!(agent.score(), 7_505_797);
        assert_eq!(agent.fitness(), 500_000);
    }
}

#[test]
fn calculate_fitness_of_an_empty_population_does_nothing() {
    let mut search = GeneticAlgorithm::new(4, 500_000);
    search.calculate_fitness();
    assert!(search.agents().is_empty());
    assert_eq!(search.pop_size(), 4);
}

#[test]
fn the_fitness_of_a_population_sums_to_about_one() {
    let mut rng = StdRng::seed_from_u64(22);
    let mut search = GeneticAlgorithm::new(7, 500_000);
    search.init_random(&mut rng);
    search.calculate_fitness();
    let sum: i64 = search.agents().iter().map(|a| a.fitness()).sum();
    assert!(ONE - 7 < sum && sum <= ONE);
}

#[test]
fn select_parent_returns_one_of_the_population() {
    let mut rng = StdRng::seed_from_u64(23);
    let agents = vec![
        Agent::rated(zero_net(), 1, 0),
        Agent::rated(zero_net(), 2, 700_000),
        Agent::rated(zero_net(), 3, 0),
        Agent::rated(zero_net(), 4, 300_000),
    ];
    let search = GeneticAlgorithm::with_agents(4, 500_000, agents);
    let mut seen = [0usize; 5];
    for _ in 0..400 {
        let parent = search.select_parent(&mut rng);
        seen[parent.score() as usize] += 1;
    }
    assert_eq!(seen[1], 0);
    assert_eq!(seen[3], 0);
    assert!(seen[2] > seen[4]);
    assert!(seen[4] > 50);
    assert_eq!(seen[2] + seen[4], 400);
}

#[test]
fn new_generation_breeds_one_child_less_than_the_configured_size() {
    let mut rng = StdRng::seed_from_u64(24);
    let mut search = GeneticAlgorithm::new(6, 500_000);
    search.init_random(&mut rng);
    search.calculate_fitness();
    search.new_generation(&mut rng);
    assert_eq!(search.agents().len(), 5);
    assert_eq!(search.pop_size(), 6);
    search.calculate_fitness();
    search.new_generation(&mut rng);
    assert_eq!(search.agents().len(), 5);
    search.calculate_fitness();
    search.new_generation(&mut rng);
    assert_eq!(search.agents().len(), 5);
}

#[test]
fn new_generation_with_room_for_one_agent_leaves_none() {
    let mut rng = StdRng::seed_from_u64(25);
    let mut search = GeneticAlgorithm::new(1, 500_000);
    search.init_random(&mut rng);
    search.calculate_fitness();
    search.new_generation(&mut rng);
    assert!(search.agents().is_empty());
}

#[test]
fn a_child_keeps_the_rating_and_the_biases_of_its_first_parent() {
    let mut rng = StdRng::seed_from_u64(26);
    let mut search = GeneticAlgorithm::new(8, 500_000);
    search.init_random(&mut rng);
    search.calculate_fitness();
    let parents: Vec<(i64, i64, Vec<Vec<i64>>)> = search
        .agents()
        .iter()
        .map(|a| (a.score(), a.fitness(), a.net().parts().1.clone()))
        .collect();
    search.new_generation(&mut rng);
    for child in search.agents().iter() {
        let rating = (child.score(), child.fitness(), child.net().parts().1.clone());
        assert!(parents.contains(&rating));
    }
}

#[test]
fn a_child_of_identical_parents_at_rate_zero_is_that_parent() {
    let mut rng = StdRng::seed_from_u64(27);
    let agents = vec![
        Agent::rated(sample_net(), 1, 500_000),
        Agent::rated(sample_net(), 1, 500_000),
    ];
    let mut search = GeneticAlgorithm::with_agents(5, 0, agents);
    search.new_generation(&mut rng);
    assert_eq!(search.agents().len(), 4);
    for child in search.agents().iter() {
        assert!(child.net().same_as(&sample_net()));
        assert_eq!(child.score(), 1);
        assert_eq!(child.fitness(), 500_000);
    }
}

#[test]
fn a_child_at_rate_zero_lies_between_its_parents() {
    let mut rng = StdRng::seed_from_u64(28);
    let agents = vec![Agent::rated(sample_net(), 1, 500_000), Agent::rated(zero_net(), 2, 500_000)];
    let mut search = GeneticAlgorithm::with_agents(9, 0, agents);
    search.new_generation(&mut rng);
    let sample = sample_net();
    for child in search.agents().iter() {
        for l in 0..2 {
            for n in 0..child.net().neurons_count(l) {
                for i in 0..2 {
                    let w = child.net().get_weight(l, n, i);
                    let s = sample.get_weight(l, n, i);
                    assert!(s.min(0) <= w && w <= s.max(0));
                }
            }
        }
    }
}

#[test]
fn with_no_generations_the_best_of_the_random_population_is_returned() {
    let mut rng = StdRng::seed_from_u64(29);
    let mut search = GeneticAlgorithm::new(6, 500_000);
    let best = search.get_best(0, &mut rng);
    assert_eq!(search.current_gen(), 0);
    let agents = search.agents();
    assert_eq!(agents.len(), 6);
    let mut expected = GeneticAlgorithm::new(6, 500_000);
    expected.init_random(&mut StdRng::seed_from_u64(29));
    for (agent, fresh) in agents.iter().zip(expected.agents().iter()) {
        assert!(agent.net().same_as(fresh.net()));
        assert_eq!(agent.score(), agent.net().score());
    }
    let top = agents.iter().map(|a| a.fitness()).max().unwrap();
    let index = fittest(agents);
    assert_eq!(agents[index].fitness(), top);
    assert!(agents.iter().all(|a| a.score() <= agents[index].score()));
    assert!(best.same_as(agents[index].net()));
}

#[test]
fn with_one_agent_and_no_generations_that_agent_is_the_best() {
    let mut rng = StdRng::seed_from_u64(30);
    let mut search = GeneticAlgorithm::new(1, 500_000);
    let best = search.get_best(0, &mut rng);
    assert_eq!(search.agents().len(), 1);
    assert!(best.same_as(search.agents()[0].net()));
    assert_eq!(search.agents()[0].fitness(), ONE);
}

#[test]
fn after_the_first_generation_the_population_stays_one_short() {
    let mut rng = StdRng::seed_from_u64(31);
    for generations in 1..=3u32 {
        let mut search = GeneticAlgorithm::new(5, 500_000);
        let best = search.get_best(generations, &mut rng);
        assert_eq!(search.current_gen(), generations);
        assert_eq!(search.agents().len(), 4);
        assert_eq!(search.pop_size(), 5);
        let index = fittest(search.agents());
        assert!(best.same_as(search.agents()[index].net()));
        for agent in search.agents().iter() {
            assert_eq!(agent.score(), agent.net().score());
            assert!(agent.score() <= search.agents()[index].score());
            assert!(agent.fitness() <= search.agents()[index].fitness());
            assert!(agent.net().parts().1.iter().flatten().all(|b| -ONE <= *b && *b <= ONE));
        }
    }
}

#[test]
fn the_biases_of_the_last_population_are_those_of_the_first() {
    let mut drawn = GeneticAlgorithm::new(6, 500_000);
    drawn.init_random(&mut StdRng::seed_from_u64(35));
    let first: Vec<Vec<Vec<i64>>> =
        drawn.agents().iter().map(|a| a.net().parts().1.clone()).collect();
    let mut search = GeneticAlgorithm::new(6, 500_000);
    search.get_best(3, &mut StdRng::seed_from_u64(35));
    for agent in search.agents().iter() {
        assert!(first.contains(agent.net().parts().1));
    }
}

#[test]
fn the_same_seed_gives_the_same_search() {
    let mut first = GeneticAlgorithm::new(5, 500_000);
    let a = first.get_best(2, &mut StdRng::seed_from_u64(32));
    let mut second = GeneticAlgorithm::new(5, 500_000);
    let b = second.get_best(2, &mut StdRng::seed_from_u64(32));
    assert!(a.same_as(&b));
    for (x, y) in first.agents().iter().zip(second.agents().iter()) {
        assert!(x.net().same_as(y.net()));
        assert_eq!(x.fitness(), y.fitness());
    }
}

#[test]
fn get_best_starts_over_from_a_random_population() {
    let mut rng = StdRng::seed_from_u64(33);
    let agents = vec![Agent::rated(sample_net(), 1, ONE)];
    let mut search = GeneticAlgorithm::with_agents(3, 500_000, agents);
    search.get_best(0, &mut rng);
    assert_eq!(search.agents().len(), 3);
    assert!(search.agents().iter().all(|a| !a.net().same_as(&sample_net())));
}
