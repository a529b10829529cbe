use markov_learning::probability::{coin_at, throw_coin, ArgumentError, Distribution, RATE_ONE};

fn test_given_distribution(items: Vec<usize>, weights: Vec<u64>) {
    let weight_sum: f64 = weights.iter().sum::<u64>() as f64;

    let distribution = Distribution::new(items, weights.clone()).unwrap();

    let mut sampled_distribution = Vec::new();
    for _ in 0..weights.len() {
        sampled_distribution.push(0.0);
    }

    let s = 10_000_000;
    let epsilon = 0.001;

    for _ in 0..s {
        sampled_distribution[distribution.sample()] += 1.0;
    }

    for i in 0..sampled_distribution.len() {
        sampled_distribution[i] /= s as f64;
    }

    for i in 0..sampled_distribution.len() {
        let prob = sampled_distribution[i];
        let expected_prob = weights[i] as f64 / weight_sum;

        assert!(
            (expected_prob - prob).abs() < epsilon,
            "prob diff for current item: {:?}, prob: {:#?}",
            (expected_prob - prob).abs(),
            sampled_distribution
        );
    }
}

#[test]
fn probability_test_simple_distribution() {
    let items = vec![0, 1, 2, 3, 4, 5, 6, 7, 8, 9];
    let weights = vec![1u64; 10];
    test_given_distribution(items, weights);
}

#[test]
fn probability_test_complex_distribution() {
    let items = vec![0, 1, 2, 3, 4, 5, 6, 7, 8, 9];
    let weights = vec![1, 2, 1, 2, 1, 2, 1, 2, 1, 2];
    test_given_distribution(items, weights);
}

#[test]
fn probability_test_long_complex_distribution() {
    let len = 1000;
    let mut items = Vec::new();
    let mut weights = Vec::new();

    for i in 0..len {
        items.push(i);
        weights.push(1 + (i % 2) as u64);
    }
    test_given_distribution(items, weights);
}

#[test]
fn lib_test_simple_distribution() {
    let items = vec![0, 1, 2, 3, 4, 5, 6, 7, 8, 9];
    let weights = vec![1u64; 10];
    test_given_distribution(items, weights);
}

#[test]
fn lib_test_complex_distribution() {
    let items = vec![0, 1, 2, 3, 4, 5, 6, 7, 8, 9];
    let weights = vec![1, 2, 1, 2, 1, 2, 1, 2, 1, 2];
    test_given_distribution(items, weights);
}

#[test]
fn lib_test_long_complex_distribution() {
    let len = 1000;
    let mut items = Vec::new();
    let mut weights = Vec::new();

    for i in 0..len {
        items.push(i);
        weights.push(1 + (i % 2) as u64);
    }
    test_given_distribution(items, weights);
}

#[test]
fn size_mismatch_is_rejected() {
    let r = Distribution::new(vec![1, 2, 3], vec![1, 1]);
    assert!(matches!(r, Err(ArgumentError::SizeMismatch)));
    let r = Distribution::new(vec![1], vec![0, 1]);
    assert!(matches!(r, Err(ArgumentError::SizeMismatch)));
}

#[test]
fn zero_weight_is_rejected() {
    let r = Distribution::new(vec![1, 2, 3], vec![1, 0, 1]);
    assert!(matches!(r, Err(ArgumentError::NonPositive)));
}

#[test]
fn empty_sampler_is_rejected() {
    let r = Distribution::<u8>::new(vec![], vec![]);
    assert!(matches!(r, Err(ArgumentError::NonPositive)));
}

#[test]
fn overflowing_total_is_rejected() {
    let r = Distribution::new(vec![1, 2], vec![u64::MAX, 1]);
    assert!(matches!(r, Err(ArgumentError::NotFinite)));
    let r = Distribution::new(vec![1, 2], vec![u64::MAX - 1, 1]);
    assert!(r.is_ok());
}

#[test]
fn draws_select_their_interval() {
    let d = Distribution::new(vec!['a', 'b', 'c'], vec![1, 2, 3]).unwrap();
    let picked: Vec<char> = (0..6).map(|u| d.sample_at(u)).collect();
    assert_eq!(picked, vec!['a', 'b', 'b', 'c', 'c', 'c']);
    let idx: Vec<usize> = (0..6).map(|u| d.index_at(u)).collect();
    assert_eq!(idx, vec![0, 1, 1, 2, 2, 2]);
}

#[test]
fn sample_returns_an_item() {
    let d = Distribution::new(vec![10, 20], vec![1, 1]).unwrap();
    for _ in 0..1000 {
        let v = d.sample();
        assert!(v == 10 || v == 20);
    }
    let both = (0..1000).map(|_| d.sample()).collect::<Vec<_>>();
    assert!(both.contains(&10) && both.contains(&20));
    let single = Distribution::new(vec![7], vec![5]).unwrap();
    assert_eq!(single.sample(), 7);
}

#[test]
fn from_pairs_keeps_order() {
    let d = Distribution::from(vec![(3, 'x'), (1, 'y')]).unwrap();
    assert_eq!(d.num_items(), 2);
    assert_eq!(d.item(0), 'x');
    assert_eq!(d.sample_at(2), 'x');
    assert_eq!(d.sample_at(3), 'y');
    assert!(matches!(
        Distribution::from(vec![(0, 'x')]),
        Err(ArgumentError::NonPositive)
    ));
}

#[test]
fn coin_extremes() {
    assert!(!throw_coin(0));
    assert!(throw_coin(RATE_ONE));
    assert!((0..100).any(|_| throw_coin(RATE_ONE - 1)));
    assert!((0..100).any(|_| !throw_coin(1)));
    assert!(coin_at(3, 4));
    assert!(!coin_at(4, 4));
}
