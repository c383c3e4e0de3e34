use bnl::network::{compute_boolean, zip_combinator, Layer, Network, NetworkError, Neuron};

fn table_value(left: bool, right: bool, code: u8) -> bool {
    match code {
        0 => false,
        1 => left && right,
        2 => left && !right,
        3 => left,
        4 => !left && right,
        5 => right,
        6 => left != right,
        7 => left || right,
        8 => !(left || right),
        9 => left == right,
        10 => !right,
        11 => left || !right,
        12 => !left,
        13 => !left || right,
        14 => !(left && right),
        _ => true,
    }
}

#[test]
fn table_totality() {
    // Rows in the order (T,T), (T,F), (F,T), (F,F); one column per code.
    let expected: [[bool; 4]; 16] = [
        [false, false, false, false],
        [true, false, false, false],
        [false, true, false, false],
        [true, true, false, false],
        [false, false, true, false],
        [true, false, true, false],
        [false, true, true, false],
        [true, true, true, false],
        [false, false, false, true],
        [true, false, false, true],
        [false, true, false, true],
        [true, true, false, true],
        [false, false, true, true],
        [true, false, true, true],
        [false, true, true, true],
        [true, true, true, true],
    ];
    let rows = [(true, true), (true, false), (false, true), (false, false)];
    for code in 0u8..16 {
        for (r, (l, rt)) in rows.iter().enumerate() {
            assert_eq!(compute_boolean(*l, *rt, code), expected[code as usize][r], "code {}", code);
            assert_eq!(compute_boolean(*l, *rt, code), table_value(*l, *rt, code));
        }
    }
}

#[test]
fn out_of_range_codes_are_constant_true() {
    for code in [16u8, 17, 100, 255] {
        for (l, r) in [(true, true), (true, false), (false, true), (false, false)] {
            assert!(compute_boolean(l, r, code));
        }
    }
}

#[test]
fn xor_and_xnor() {
    for a in [false, true] {
        for b in [false, true] {
            assert_eq!(compute_boolean(a, b, 6), a != b);
            assert_eq!(compute_boolean(a, b, 9), a == b);
        }
    }
}

#[test]
fn unit_fold_and_then_or() {
    let n = Neuron { bias: false, input_combinators: vec![1, 7], result_combinator: 3 };
    let inner = compute_boolean(false, true, 7);
    assert!(inner);
    assert_eq!(compute_boolean(true, inner, 1), true);
    assert_eq!(n.apply_input(vec![true, false, true]), true);
    assert_eq!(zip_combinator(true, vec![false, true], &vec![1, 7]), true);
    // Result operator 3 passes the folded value through.
    assert_eq!(n.apply(vec![true, false, true]), true);
}

#[test]
fn fold_is_right_associative() {
    // [true, true, false] with [6, 1]: true XOR (true AND false) = true,
    // while (true XOR true) AND false would be false.
    assert_eq!(zip_combinator(true, vec![true, false], &vec![6, 1]), true);
    // [false, true, true, false] with [8, 2, 7]:
    // NOR(false, AND_NOT(true, OR(true, false))) = NOR(false, false) = true.
    let n = Neuron { bias: true, input_combinators: vec![8, 2, 7], result_combinator: 1 };
    assert_eq!(n.apply_input(vec![false, true, true, false]), true);
    assert_eq!(n.apply(vec![false, true, true, false]), true);
}

#[test]
fn result_combinator_mixes_bias() {
    let n = Neuron { bias: true, input_combinators: vec![1], result_combinator: 6 };
    assert_eq!(n.apply_result(true), false);
    assert_eq!(n.apply_result(false), true);
    assert_eq!(n.apply(vec![true, true]), false);
    assert_eq!(n.apply(vec![true, false]), true);
}

#[test]
fn minimal_length_unit() {
    for code in 0u8..16 {
        for (l, r) in [(true, true), (true, false), (false, true), (false, false)] {
            let n = Neuron { bias: false, input_combinators: vec![code], result_combinator: 7 };
            assert_eq!(n.apply_input(vec![l, r]), compute_boolean(l, r, code));
            assert_eq!(zip_combinator(l, vec![r], &vec![code]), compute_boolean(l, r, code));
            assert_eq!(n.apply(vec![l, r]), compute_boolean(l, r, code));
        }
    }
}

#[test]
fn constructed_network_dimensions() {
    let net = Network::new(6, vec![6, 7, 6]);
    assert_eq!(net.input_len, 6);
    assert_eq!(net.layers.len(), 3);
    let inputs = [6usize, 6, 7];
    let units = [6usize, 7, 6];
    for (i, layer) in net.layers.iter().enumerate() {
        assert_eq!(layer.input_len, inputs[i]);
        assert_eq!(layer.neurons.len(), units[i]);
        for n in &layer.neurons {
            assert_eq!(n.input_combinators.len(), layer.input_len - 1);
            assert!(n.input_combinators.iter().all(|c| *c < 16));
            assert!(n.result_combinator < 16);
        }
    }
    for i in 0..net.layers.len() - 1 {
        assert_eq!(net.layers[i].neurons.len(), net.layers[i + 1].input_len);
    }
}

#[test]
fn constructed_layer_and_neuron() {
    let layer = Layer::new(4, 3);
    assert_eq!(layer.input_len, 4);
    assert_eq!(layer.neurons.len(), 3);
    for n in &layer.neurons {
        assert_eq!(n.input_combinators.len(), 3);
    }
    assert_eq!(Neuron::new(5).input_combinators.len(), 4);
    assert_eq!(Neuron::new(0).input_combinators.len(), 0);
    // Random codes stay below 16 over many draws.
    for _ in 0..50 {
        let n = Neuron::new(20);
        assert!(n.input_combinators.iter().all(|c| *c < 16));
        assert!(n.result_combinator < 16);
    }
}

#[test]
fn end_to_end_scenario() {
    let net = Network::new(6, vec![6, 7, 6]);
    let input = vec![true, false, true, true, false, true];
    let first = net.apply(input.clone()).unwrap();
    assert_eq!(first.len(), 6);
    let second = net.apply(input.clone()).unwrap();
    assert_eq!(first, second);
}

#[test]
fn dimension_mismatch() {
    let net = Network::new(6, vec![6, 7, 6]);
    assert_eq!(net.apply(vec![true; 5]), Err(NetworkError::DimensionMismatch));
    assert_eq!(net.apply(vec![true; 7]), Err(NetworkError::DimensionMismatch));
    assert_eq!(net.apply(vec![]), Err(NetworkError::DimensionMismatch));
    let layer = Layer::new(3, 2);
    assert_eq!(layer.apply(vec![true, false]), Err(NetworkError::DimensionMismatch));
    let empty = Network::new(2, vec![]);
    assert_eq!(empty.apply(vec![true]), Err(NetworkError::DimensionMismatch));
}

#[test]
fn invalid_input_length() {
    let layer = Layer { input_len: 1, neurons: vec![Neuron::new(1)] };
    assert_eq!(layer.apply(vec![true]), Err(NetworkError::InvalidInputLength));
    let net = Network::new(3, vec![1, 2]);
    assert_eq!(net.apply(vec![true, true, false]), Err(NetworkError::InvalidInputLength));
    // A layer without units never hands its input to a unit.
    let bare = Layer { input_len: 1, neurons: vec![] };
    assert_eq!(bare.apply(vec![false]), Ok(vec![]));
}

#[test]
fn network_without_layers_returns_input() {
    let net = Network::new(3, vec![]);
    assert_eq!(net.apply(vec![true, false, true]), Ok(vec![true, false, true]));
}

#[test]
fn layer_applies_each_unit_to_same_input() {
    let layer = Layer {
        input_len: 3,
        neurons: vec![
            Neuron { bias: false, input_combinators: vec![1, 1], result_combinator: 3 },
            Neuron { bias: false, input_combinators: vec![7, 7], result_combinator: 3 },
            Neuron { bias: true, input_combinators: vec![7, 7], result_combinator: 6 },
        ],
    };
    assert_eq!(layer.apply(vec![true, false, true]), Ok(vec![false, true, false]));
    let net = Network { input_len: 3, layers: vec![layer.clone()] };
    assert_eq!(net.apply(vec![true, true, true]), Ok(vec![true, true, false]));
}

#[test]
fn draws_give_exact_parameters() {
    // One unit reading two bits: one input code, the bias, the result code.
    let net = Network::from_draws(2, vec![1], &vec![3, 5, 17, 99]).unwrap();
    assert_eq!(net.input_len, 2);
    assert_eq!(net.layers.len(), 1);
    let n = &net.layers[0].neurons[0];
    assert_eq!(n.input_combinators, vec![3]);
    assert_eq!(n.bias, true);
    assert_eq!(n.result_combinator, 1);
    // Two layers: 2 units of 3 draws each, then 1 unit of 3 draws.
    let draws: Vec<u8> = vec![20, 4, 8, 7, 250, 33, 2, 9, 1];
    let net = Network::from_draws(2, vec![2, 1], &draws).unwrap();
    assert_eq!(net.layers[0].neurons[0].input_combinators, vec![4]);
    assert_eq!(net.layers[0].neurons[0].bias, false);
    assert_eq!(net.layers[0].neurons[0].result_combinator, 8);
    assert_eq!(net.layers[0].neurons[1].input_combinators, vec![7]);
    assert_eq!(net.layers[0].neurons[1].bias, false);
    assert_eq!(net.layers[0].neurons[1].result_combinator, 1);
    assert_eq!(net.layers[1].input_len, 2);
    assert_eq!(net.layers[1].neurons[0].input_combinators, vec![2]);
    assert_eq!(net.layers[1].neurons[0].bias, true);
    assert_eq!(net.layers[1].neurons[0].result_combinator, 1);
    assert!(Network::from_draws(2, vec![2, 1], &vec![20, 4, 8, 7, 250, 33, 2, 9]).is_none());
}

#[test]
fn too_few_draws() {
    assert!(Network::from_draws(2, vec![1], &vec![3, 5]).is_none());
    assert!(Network::from_draws(2, vec![1], &vec![]).is_none());
    assert!(Network::from_draws(usize::MAX, vec![usize::MAX], &vec![1, 2, 3]).is_none());
    // No layers, or layers without units, need no draws.
    assert!(Network::from_draws(4, vec![], &vec![]).is_some());
    assert!(Network::from_draws(4, vec![0, 0], &vec![]).is_some());
}

#[test]
fn draws_are_deterministic() {
    let draws: Vec<u8> = (0..200u32).map(|i| ((i * 37 + 11) % 256) as u8).collect();
    let a = Network::from_draws(6, vec![6, 7, 6], &draws).unwrap();
    let b = Network::from_draws(6, vec![6, 7, 6], &draws).unwrap();
    for (la, lb) in a.layers.iter().zip(b.layers.iter()) {
        assert_eq!(la.input_len, lb.input_len);
        for (na, nb) in la.neurons.iter().zip(lb.neurons.iter()) {
            assert_eq!(na.bias, nb.bias);
            assert_eq!(na.input_combinators, nb.input_combinators);
            assert_eq!(na.result_combinator, nb.result_combinator);
        }
    }
    let input = vec![true, false, true, true, false, true];
    assert_eq!(a.apply(input.clone()), b.apply(input));
}
