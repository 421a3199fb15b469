use archer_duel::fixed::{LIMIT, ONE};
use archer_duel::network::{blend, nudged, NeuralNetwork, TOP_SCORE};
use rand::rngs::StdRng;
use rand::SeedableRng;

fn zero_weights() -> Vec<Vec<Vec<i64>>> {
    vec![vec![vec![0, 0], vec![0, 0], vec![0, 0]], vec![vec![0, 0], vec![0, 0]]]
}

fn zero_biases() -> Vec<Vec<i64>> {
    vec![vec![0, 0, 0], vec![0, 0]]
}

fn zero_net() -> NeuralNetwork {
    NeuralNetwork::from_parts(zero_weights(), zero_biases()).unwrap()
}

fn sample_weights() -> Vec<Vec<Vec<i64>>> {
    vec![
        vec![vec![100_000, -200_000], vec![300_000, 400_000], vec![-500_000, 600_000]],
        vec![vec![700_000, -800_000], vec![-900_000, 1_000_000]],
    ]
}

fn sample_biases() -> Vec<Vec<i64>> {
    vec![vec![10_000, -20_000, 30_000], vec![-40_000, 50_000]]
}

fn sample_net() -> NeuralNetwork {
    NeuralNetwork::from_parts(sample_weights(), sample_biases()).unwrap()
}

fn weights_of(net: &NeuralNetwork) -> Vec<Vec<Vec<i64>>> {
    net.parts().0.clone()
}

fn biases_of(net: &NeuralNetwork) -> Vec<Vec<i64>> {
    net.parts().1.clone()
}

#[test]
fn a_network_of_zeros_answers_one_half_twice() {
    let net = zero_net();
    assert_eq!(net.calculate_output([500_000, 500_000]), [500_000, 500_000]);
}

#[test]
fn a_network_of_zeros_answers_one_half_to_anything() {
    let net = zero_net();
    for input in [[0, 0], [ONE, 0], [-ONE, ONE], [i64::MAX, i64::MIN], [123, -456]] {
        assert_eq!(net.calculate_output(input), [500_000, 500_000]);
    }
}

#[test]
fn the_answer_is_that_of_the_second_layer() {
    let net = sample_net();
    assert_eq!(net.calculate_output([500_000, 250_000]), [527_472, 462_571]);
    assert_eq!(net.calculate_output([0, 0]), [490_002, 512_497]);
    assert_eq!(net.calculate_output([1_000_000, 1_000_000]), [465_058, 537_429]);
    assert_eq!(net.calculate_output([-3_000_000, 7_000_000]), [435, 999_942]);
}

#[test]
fn the_first_layer_does_not_feed_the_second() {
    let mut weights = sample_weights();
    let mut biases = sample_biases();
    weights[0] = vec![vec![-1, 2], vec![LIMIT, -LIMIT], vec![77, 88]];
    biases[0] = vec![LIMIT, -LIMIT, 5];
    let changed = NeuralNetwork::from_parts(weights, biases).unwrap();
    let net = sample_net();
    for input in [[500_000, 250_000], [0, 0], [1_000_000, 1_000_000], [-3_000_000, 7_000_000]] {
        assert_eq!(changed.calculate_output(input), net.calculate_output(input));
    }
}

#[test]
fn the_answer_lies_strictly_between_nothing_and_one() {
    let mut weights = sample_weights();
    weights[1] = vec![vec![LIMIT, LIMIT], vec![-LIMIT, -LIMIT]];
    let mut biases = sample_biases();
    biases[1] = vec![LIMIT, -LIMIT];
    let net = NeuralNetwork::from_parts(weights, biases).unwrap();
    for input in [
        [0, 0],
        [ONE, ONE],
        [i64::MAX, i64::MAX],
        [i64::MIN, i64::MIN],
        [i64::MAX, i64::MIN],
        [-5, 3],
    ] {
        let out = net.calculate_output(input);
        assert!(0 < out[0] && out[0] < ONE);
        assert!(0 < out[1] && out[1] < ONE);
    }
    assert_eq!(net.calculate_output([i64::MAX, i64::MAX]), [999_999, 1]);
    assert_eq!(net.calculate_output([i64::MIN, i64::MIN]), [1, 999_999]);
}

#[test]
fn activation_is_the_logistic_curve() {
    assert_eq!(NeuralNetwork::activation(0), 500_000);
    assert_eq!(NeuralNetwork::activation(1_000_000), 731_058);
    assert_eq!(NeuralNetwork::activation(-1_000_000), 268_942);
    assert_eq!(NeuralNetwork::activation(i128::MAX), 999_999);
    assert_eq!(NeuralNetwork::activation(i128::MIN), 1);
}

#[test]
fn the_counts_are_those_of_the_fixed_shape() {
    let net = sample_net();
    assert_eq!(net.layers_count(), 2);
    assert_eq!(net.neurons_count(0), 3);
    assert_eq!(net.neurons_count(1), 2);
    for layer in 0..2 {
        for neuron in 0..net.neurons_count(layer) {
            assert_eq!(net.connections_count(layer, neuron), 2);
        }
    }
}

#[test]
fn weights_and_biases_are_found_where_they_were_put() {
    let net = sample_net();
    assert_eq!(net.get_weight(0, 0, 0), 100_000);
    assert_eq!(net.get_weight(0, 2, 1), 600_000);
    assert_eq!(net.get_weight(1, 0, 1), -800_000);
    assert_eq!(net.get_weight(1, 1, 0), -900_000);
    assert_eq!(net.get_bias(0, 1), -20_000);
    assert_eq!(net.get_bias(1, 1), 50_000);
    assert_eq!(weights_of(&net), sample_weights());
    assert_eq!(biases_of(&net), sample_biases());
}

#[test]
fn from_parts_takes_numbers_up_to_the_limit() {
    let mut weights = zero_weights();
    weights[0][1][1] = LIMIT;
    weights[1][1][0] = -LIMIT;
    let mut biases = zero_biases();
    biases[0][2] = -LIMIT;
    biases[1][0] = LIMIT;
    assert!(NeuralNetwork::from_parts(weights, biases).is_some());
}

#[test]
fn from_parts_refuses_a_number_beyond_the_limit() {
    let mut weights = zero_weights();
    weights[1][1][0] = LIMIT + 1;
    assert!(NeuralNetwork::from_parts(weights, zero_biases()).is_none());
    let mut weights = zero_weights();
    weights[0][0][0] = -LIMIT - 1;
    assert!(NeuralNetwork::from_parts(weights, zero_biases()).is_none());
    let mut biases = zero_biases();
    biases[0][0] = i64::MIN;
    assert!(NeuralNetwork::from_parts(zero_weights(), biases).is_none());
    let mut biases = zero_biases();
    biases[1][1] = i64::MAX;
    assert!(NeuralNetwork::from_parts(zero_weights(), biases).is_none());
}

#[test]
fn from_parts_refuses_a_wrong_number_of_layers() {
    assert!(NeuralNetwork::from_parts(vec![], vec![]).is_none());
    let mut weights = zero_weights();
    weights.push(vec![vec![0, 0], vec![0, 0]]);
    assert!(NeuralNetwork::from_parts(weights, zero_biases()).is_none());
    let mut biases = zero_biases();
    biases.pop();
    assert!(NeuralNetwork::from_parts(zero_weights(), biases).is_none());
}

#[test]
fn from_parts_refuses_a_wrong_number_of_neurons() {
    let mut weights = zero_weights();
    weights[0].pop();
    assert!(NeuralNetwork::from_parts(weights, zero_biases()).is_none());
    let mut weights = zero_weights();
    weights[1].push(vec![0, 0]);
    assert!(NeuralNetwork::from_parts(weights, zero_biases()).is_none());
    let mut biases = zero_biases();
    biases[0].push(0);
    assert!(NeuralNetwork::from_parts(zero_weights(), biases).is_none());
    let mut biases = zero_biases();
    biases[1].pop();
    assert!(NeuralNetwork::from_parts(zero_weights(), biases).is_none());
    let swapped = vec![vec![vec![0, 0], vec![0, 0]], vec![vec![0, 0], vec![0, 0], vec![0, 0]]];
    assert!(NeuralNetwork::from_parts(swapped, vec![vec![0, 0], vec![0, 0, 0]]).is_none());
}

#[test]
fn from_parts_refuses_a_wrong_number_of_weights() {
    let mut weights = zero_weights();
    weights[0][1].push(0);
    assert!(NeuralNetwork::from_parts(weights, zero_biases()).is_none());
    let mut weights = zero_weights();
    weights[1][0].pop();
    assert!(NeuralNetwork::from_parts(weights, zero_biases()).is_none());
}

#[test]
fn a_blend_lies_between_its_parents() {
    assert_eq!(blend(400_000, -200_000, 250_000), 250_000);
    assert_eq!(blend(1_000_000, 3_000_000, 500_000), 2_000_000);
    assert_eq!(blend(1_000_000, 3_000_000, 0), 1_000_000);
    assert_eq!(blend(1_000_000, 3_000_000, ONE), 3_000_000);
}

#[test]
fn a_blend_rounds_down() {
    assert_eq!(blend(1, 2, 333_333), 1);
    assert_eq!(blend(-1, -2, 333_333), -2);
}

#[test]
fn a_blend_of_a_weight_with_itself_is_that_weight() {
    for weight in [0i64, 1, -1, -7, 123_456, LIMIT, -LIMIT] {
        for alpha in [0i64, 1, 123_456, ONE, -5_000_000, 7 * ONE, i64::MAX, i64::MIN] {
            assert_eq!(blend(weight, weight, alpha), weight);
        }
    }
}

#[test]
fn a_blend_stays_within_the_limit() {
    assert_eq!(blend(LIMIT, -LIMIT, -5_000_000), LIMIT);
    assert_eq!(blend(LIMIT, -LIMIT, 5_000_000), -LIMIT);
    assert_eq!(blend(LIMIT, -LIMIT, i64::MAX), -LIMIT);
    assert_eq!(blend(LIMIT, -LIMIT, i64::MIN), LIMIT);
}

#[test]
fn a_nudge_moves_by_noise_times_rate() {
    assert_eq!(nudged(100_000, 500_000, 500_000), 350_000);
    assert_eq!(nudged(100_000, -500_000, 500_000), -150_000);
    assert_eq!(nudged(5, 3, 333_333), 5);
    assert_eq!(nudged(5, -3, 333_333), 4);
}

#[test]
fn a_nudge_at_rate_zero_moves_nothing() {
    for weight in [0i64, 5, -5, LIMIT, -LIMIT] {
        for noise in [-ONE, -1, 0, 1, ONE] {
            assert_eq!(nudged(weight, noise, 0), weight);
        }
    }
}

#[test]
fn a_nudge_stays_within_the_limit() {
    assert_eq!(nudged(LIMIT, ONE, ONE), LIMIT);
    assert_eq!(nudged(-LIMIT, -ONE, ONE), -LIMIT);
    assert_eq!(nudged(0, ONE, i64::MAX), LIMIT);
    assert_eq!(nudged(0, ONE, i64::MIN), -LIMIT);
    assert_eq!(nudged(0, -ONE, i64::MIN), LIMIT);
}

#[test]
fn crossover_with_itself_leaves_the_weights_as_they_are() {
    for alpha in [0i64, 250_000, ONE, -3 * ONE, 9 * ONE, i64::MAX, i64::MIN] {
        let mut net = sample_net();
        let same = sample_net();
        net.crossover(&same, alpha);
        assert_eq!(weights_of(&net), sample_weights());
        assert_eq!(biases_of(&net), sample_biases());
    }
}

#[test]
fn crossover_blends_every_weight_with_the_one_alpha() {
    let mut net = sample_net();
    net.crossover(&zero_net(), 250_000);
    assert_eq!(
        weights_of(&net),
        vec![
            vec![vec![75_000, -150_000], vec![225_000, 300_000], vec![-375_000, 450_000]],
            vec![vec![525_000, -600_000], vec![-675_000, 750_000]],
        ]
    );
}

#[test]
fn crossover_at_the_ends_of_alpha_picks_a_parent() {
    let mut net = sample_net();
    net.crossover(&zero_net(), 0);
    assert_eq!(weights_of(&net), sample_weights());
    net.crossover(&zero_net(), ONE);
    assert_eq!(weights_of(&net), zero_weights());
}

#[test]
fn crossover_beyond_the_ends_of_alpha_goes_past_a_parent() {
    let other = NeuralNetwork::from_parts(
        vec![vec![vec![1, 2], vec![3, 4], vec![5, 6]], vec![vec![7, 8], vec![9, 10]]],
        zero_biases(),
    )
    .unwrap();
    let mut net = sample_net();
    net.crossover(&other, 333_333);
    assert_eq!(
        weights_of(&net),
        vec![
            vec![vec![66_667, -133_333], vec![200_001, 266_668], vec![-333_332, 400_002]],
            vec![vec![466_669, -533_331], vec![-599_998, 666_670]],
        ]
    );
    let mut net = sample_net();
    net.crossover(&other, -1_000_000);
    assert_eq!(
        weights_of(&net),
        vec![
            vec![vec![199_999, -400_002], vec![599_997, 799_996], vec![-1_000_005, 1_199_994]],
            vec![vec![1_399_993, -1_600_008], vec![-1_800_009, 1_999_990]],
        ]
    );
    let mut net = sample_net();
    net.crossover(&other, 2_000_000);
    assert_eq!(
        weights_of(&net),
        vec![
            vec![vec![-99_998, 200_004], vec![-299_994, -399_992], vec![500_010, -599_988]],
            vec![vec![-699_986, 800_016], vec![900_018, -999_980]],
        ]
    );
}

#[test]
fn crossover_never_touches_a_bias() {
    let other = NeuralNetwork::from_parts(zero_weights(), vec![vec![9, 9, 9], vec![9, 9]]).unwrap();
    for alpha in [0i64, 500_000, ONE, -ONE, i64::MAX] {
        let mut net = sample_net();
        net.crossover(&other, alpha);
        assert_eq!(biases_of(&net), sample_biases());
    }
}

#[test]
fn mutation_at_rate_zero_changes_nothing() {
    let mut rng = StdRng::seed_from_u64(11);
    let mut net = sample_net();
    net.mutate(0, &mut rng);
    assert_eq!(weights_of(&net), sample_weights());
    assert_eq!(biases_of(&net), sample_biases());
}

#[test]
fn mutation_moves_every_weight_by_at_most_the_rate() {
    let mut rng = StdRng::seed_from_u64(12);
    let rate: i64 = 500_000;
    let mut moved = 0;
    for _ in 0..20 {
        let mut net = sample_net();
        net.mutate(rate, &mut rng);
        let after = weights_of(&net);
        let before = sample_weights();
        for l in 0..2 {
            assert_eq!(after[l].len(), before[l].len());
            for n in 0..before[l].len() {
                assert_eq!(after[l][n].len(), 2);
                for i in 0..2 {
                    let change = after[l][n][i] - before[l][n][i];
                    assert!(-rate <= change && change <= rate);
                    if change != 0 {
                        moved += 1;
                    }
                }
            }
        }
    }
    assert!(moved > 150);
}

#[test]
fn mutation_draws_anew_for_every_weight() {
    let mut rng = StdRng::seed_from_u64(13);
    let mut net = zero_net();
    net.mutate(ONE, &mut rng);
    let mut drawn: Vec<i64> = weights_of(&net).into_iter().flatten().flatten().collect();
    assert_eq!(drawn.len(), 10);
    assert!(drawn.iter().all(|w| -ONE <= *w && *w <= ONE));
    drawn.sort();
    drawn.dedup();
    assert!(drawn.len() >= 9);
}

#[test]
fn mutation_never_touches_a_bias() {
    let mut rng = StdRng::seed_from_u64(14);
    for rate in [0i64, 1, 500_000, ONE, -ONE, i64::MAX, i64::MIN] {
        let mut net = sample_net();
        net.mutate(rate, &mut rng);
        assert_eq!(biases_of(&net), sample_biases());
    }
}

#[test]
fn mutation_keeps_the_weights_within_the_limit() {
    let mut rng = StdRng::seed_from_u64(15);
    let mut net = sample_net();
    for _ in 0..5 {
        net.mutate(i64::MAX, &mut rng);
        for w in weights_of(&net).into_iter().flatten().flatten() {
            assert!(-LIMIT <= w && w <= LIMIT);
        }
    }
    assert!(NeuralNetwork::from_parts(weights_of(&net), biases_of(&net)).is_some());
}

#[test]
fn a_new_network_has_the_fixed_shape_and_numbers_up_to_one() {
    let mut rng = StdRng::seed_from_u64(16);
    for _ in 0..50 {
        let net = NeuralNetwork::new(&mut rng);
        let weights = weights_of(&net);
        let biases = biases_of(&net);
        assert_eq!(weights.len(), 2);
        assert_eq!(weights[0].len(), 3);
        assert_eq!(weights[1].len(), 2);
        assert_eq!(biases.len(), 2);
        assert_eq!(biases[0].len(), 3);
        assert_eq!(biases[1].len(), 2);
        for row in weights.iter().flatten() {
            assert_eq!(row.len(), 2);
        }
        for w in weights.into_iter().flatten().flatten() {
            assert!(-ONE <= w && w <= ONE);
        }
        for b in biases.into_iter().flatten() {
            assert!(-ONE <= b && b <= ONE);
        }
    }
}

#[test]
fn a_new_network_is_drawn_number_by_number() {
    let mut rng = StdRng::seed_from_u64(17);
    let net = NeuralNetwork::new(&mut rng);
    let mut numbers: Vec<i64> = weights_of(&net).into_iter().flatten().flatten().collect();
    numbers.extend(biases_of(&net).into_iter().flatten());
    assert_eq!(numbers.len(), 15);
    numbers.sort();
    numbers.dedup();
    assert!(numbers.len() >= 14);
    assert!(numbers[0] < 0);
    assert!(numbers[numbers.len() - 1] > 0);
}

#[test]
fn the_same_seed_draws_the_same_network() {
    let a = NeuralNetwork::new(&mut StdRng::seed_from_u64(18));
    let b = NeuralNetwork::new(&mut StdRng::seed_from_u64(18));
    let c = NeuralNetwork::new(&mut StdRng::seed_from_u64(19));
    assert!(a.same_as(&b));
    assert!(!a.same_as(&c));
}

#[test]
fn a_clone_has_the_same_numbers() {
    let net = sample_net();
    let copy = net.clone();
    assert!(net.same_as(&copy));
    assert_eq!(weights_of(&copy), sample_weights());
    assert_eq!(biases_of(&copy), sample_biases());
}

#[test]
fn same_as_tells_any_one_number_apart() {
    let net = sample_net();
    assert!(net.same_as(&sample_net()));
    for l in 0..2 {
        for n in 0..sample_weights()[l].len() {
            for i in 0..2 {
                let mut weights = sample_weights();
                weights[l][n][i] += 1;
                let other = NeuralNetwork::from_parts(weights, sample_biases()).unwrap();
                assert!(!net.same_as(&other));
            }
            let mut biases = sample_biases();
            biases[l][n] -= 1;
            let other = NeuralNetwork::from_parts(sample_weights(), biases).unwrap();
            assert!(!net.same_as(&other));
        }
    }
}

#[test]
fn the_score_is_the_sum_of_the_rewards_on_the_square_of_heights() {
    let net = zero_net();
    let mut sum = 0;
    for i in 0..=10 {
        for j in 0..=10 {
            let action = net.calculate_output([i * 100_000, j * 100_000]);
            sum += NeuralNetwork::eval_shot(action[0], action[1], i * 100_000, j * 100_000);
        }
    }
    assert_eq!(net.score(), sum);
    assert_eq!(net.score(), 7_505_797);
}

#[test]
fn the_score_of_a_known_network() {
    assert_eq!(sample_net().score(), 15_140_313);
}

#[test]
fn a_network_that_hardly_draws_the_bow_scores_nothing() {
    let mut biases = zero_biases();
    biases[1] = vec![-20_000_000, -20_000_000];
    let net = NeuralNetwork::from_parts(zero_weights(), biases).unwrap();
    assert_eq!(net.calculate_output([0, 0]), [1, 1]);
    assert_eq!(net.score(), 0);
}

#[test]
fn no_score_is_above_a_point_for_every_cell() {
    assert_eq!(TOP_SCORE, 121 * ONE);
    let mut rng = StdRng::seed_from_u64(20);
    for _ in 0..5 {
        let score = NeuralNetwork::new(&mut rng).score();
        assert!(0 <= score && score <= TOP_SCORE);
    }
}
