use archer_duel::fixed::LIMIT;
use archer_duel::network::NeuralNetwork;
use archer_duel::persist::NetFileError;
use rand::rngs::StdRng;
use rand::SeedableRng;

const ZERO_TEXT: &str = "[[[[0,0],[0,0],[0,0]],[[0,0],[0,0]]],[[0,0,0],[0,0]]]";

const SAMPLE_TEXT: &str = "[[[[100000,-200000],[300000,400000],[-500000,600000]],[[700000,-800000],[-900000,1000000]]],[[10000,-20000,30000],[-40000,50000]]]";

fn sample_net() -> NeuralNetwork {
    NeuralNetwork::from_parts(
        vec![
            vec![vec![100_000, -200_000], vec![300_000, 400_000], vec![-500_000, 600_000]],
            vec![vec![700_000, -800_000], vec![-900_000, 1_000_000]],
        ],
        vec![vec![10_000, -20_000, 30_000], vec![-40_000, 50_000]],
    )
    .unwrap()
}

#[test]
fn a_network_is_written_as_nested_arrays() {
    assert_eq!(sample_net().to_text(), Ok(SAMPLE_TEXT.to_string()));
    let zero = NeuralNetwork::from_text(ZERO_TEXT).unwrap();
    assert_eq!(zero.to_text(), Ok(ZERO_TEXT.to_string()));
}

#[test]
fn a_network_is_read_from_nested_arrays() {
    let net = NeuralNetwork::from_text(SAMPLE_TEXT).unwrap();
    assert!(net.same_as(&sample_net()));
    assert_eq!(net.get_weight(1, 1, 0), -900_000);
    assert_eq!(net.get_bias(0, 2), 30_000);
}

#[test]
fn white_space_between_the_numbers_is_skipped() {
    let spaced = " [ [ [ [100000, -200000], [300000, 400000], [-500000, 600000] ],\n [ [700000, -800000], [-900000, 1000000] ] ],\n\t[ [10000, -20000, 30000], [-40000, 50000] ] ] ";
    assert!(NeuralNetwork::from_text(spaced).unwrap().same_as(&sample_net()));
}

#[test]
fn what_is_written_reads_back_as_the_same_network() {
    let mut rng = StdRng::seed_from_u64(41);
    for _ in 0..25 {
        let net = NeuralNetwork::new(&mut rng);
        let text = net.to_text().unwrap();
        let back = NeuralNetwork::from_text(&text).unwrap();
        assert!(back.same_as(&net));
        assert_eq!(back.parts().0, net.parts().0);
        assert_eq!(back.parts().1, net.parts().1);
        assert_eq!(back.to_text().unwrap(), text);
    }
}

#[test]
fn the_largest_numbers_read_back() {
    let net = NeuralNetwork::from_parts(
        vec![
            vec![vec![LIMIT, -LIMIT], vec![LIMIT - 1, 1 - LIMIT], vec![0, -1]],
            vec![vec![1, LIMIT], vec![-LIMIT, 999_999_999_999]],
        ],
        vec![vec![LIMIT, -LIMIT, 0], vec![-1, 1]],
    )
    .unwrap();
    let text = net.to_text().unwrap();
    assert!(NeuralNetwork::from_text(&text).unwrap().same_as(&net));
}

#[test]
fn text_that_is_no_json_is_malformed() {
    for text in ["", " ", "net", "[[[[0,0],[0,0],[0,0]],[[0,0],[0,0]]],[[0,0,0],[0,0]]", "{", "]"] {
        assert_eq!(NeuralNetwork::from_text(text).err(), Some(NetFileError::Malformed));
    }
}

#[test]
fn json_that_is_no_pair_of_nested_arrays_is_malformed() {
    for text in [
        "null",
        "0",
        "[]",
        "[[]]",
        "[[],[],[]]",
        "{\"weights\":[],\"biases\":[]}",
        "[[[0,0]],[[0,0]]]",
        "[[[[0,0]]],[[[0,0]]]]",
        "[[[[\"0\",0],[0,0],[0,0]],[[0,0],[0,0]]],[[0,0,0],[0,0]]]",
        "[[[[0.5,0],[0,0],[0,0]],[[0,0],[0,0]]],[[0,0,0],[0,0]]]",
        "[[[[0,0],[0,0],[0,0]],[[0,0],[0,0]]],[[0,0,0],[0,null]]]",
        "[[[[0,0],[0,0],[0,0]],[[0,0],[0,0]]],[[0,0,0],[0,9223372036854775808]]]",
    ] {
        assert_eq!(NeuralNetwork::from_text(text).err(), Some(NetFileError::Malformed));
    }
}

#[test]
fn text_after_the_network_is_malformed() {
    let mut text = ZERO_TEXT.to_string();
    text.push_str(" 0");
    assert_eq!(NeuralNetwork::from_text(&text).err(), Some(NetFileError::Malformed));
    let mut twice = ZERO_TEXT.to_string();
    twice.push_str(ZERO_TEXT);
    assert_eq!(NeuralNetwork::from_text(&twice).err(), Some(NetFileError::Malformed));
}

#[test]
fn nested_arrays_of_another_shape_are_of_the_wrong_shape() {
    for text in [
        "[[],[]]",
        "[[[[0,0],[0,0],[0,0]]],[[0,0,0]]]",
        "[[[[0,0],[0,0]],[[0,0],[0,0]]],[[0,0,0],[0,0]]]",
        "[[[[0,0],[0,0],[0,0]],[[0,0],[0,0],[0,0]]],[[0,0,0],[0,0]]]",
        "[[[[0,0],[0,0],[0,0]],[[0,0],[0,0]]],[[0,0],[0,0]]]",
        "[[[[0,0],[0,0],[0,0]],[[0,0],[0,0]]],[[0,0,0],[0,0,0]]]",
        "[[[[0,0],[0,0],[0,0]],[[0,0],[0,0]]],[[0,0,0],[0,0],[0,0]]]",
        "[[[[0,0],[0,0],[0]],[[0,0],[0,0]]],[[0,0,0],[0,0]]]",
        "[[[[0,0],[0,0],[0,0]],[[0,0,0],[0,0]]],[[0,0,0],[0,0]]]",
        "[[[[0,0],[0,0]],[[0,0],[0,0],[0,0]]],[[0,0],[0,0,0]]]",
    ] {
        assert_eq!(NeuralNetwork::from_text(text).err(), Some(NetFileError::WrongShape));
    }
}

#[test]
fn a_number_beyond_the_limit_makes_the_shape_wrong() {
    for text in [
        "[[[[1000000000001,0],[0,0],[0,0]],[[0,0],[0,0]]],[[0,0,0],[0,0]]]",
        "[[[[0,0],[0,0],[0,0]],[[0,0],[0,-1000000000001]]],[[0,0,0],[0,0]]]",
        "[[[[0,0],[0,0],[0,0]],[[0,0],[0,0]]],[[0,0,0],[9223372036854775807,0]]]",
        "[[[[0,0],[0,0],[0,0]],[[0,0],[0,0]]],[[-9223372036854775808,0,0],[0,0]]]",
    ] {
        assert_eq!(NeuralNetwork::from_text(text).err(), Some(NetFileError::WrongShape));
    }
    let at_limit = "[[[[1000000000000,0],[0,0],[0,0]],[[0,0],[0,-1000000000000]]],[[0,0,0],[0,0]]]";
    assert!(NeuralNetwork::from_text(at_limit).is_ok());
}

#[test]
fn the_errors_can_be_told_apart() {
    assert_ne!(NetFileError::Malformed, NetFileError::WrongShape);
    assert_ne!(NetFileError::NotWritten, NetFileError::NotFaithful);
    assert_ne!(NetFileError::Malformed, NetFileError::NotWritten);
    assert_eq!(format!("{:?}", NetFileError::WrongShape), "WrongShape");
}
