use markov_learning::algorithms::{
    blend_towards, decayed_rate, future_value, least_visited, q_update, step_target, td_update,
    MDPPolicy,
};
use markov_learning::markov::{ModelError, Reward, MDP};
use markov_learning::probability::Distribution;

/// One unit of reward, in the fixed-point unit these tests use.
const UNIT: i64 = 1_000_000_000;

fn as_units(v: i128) -> f64 {
    v as f64 / UNIT as f64
}

#[test]
fn test_cycle_td_zero() {
    const NUM_STATES: usize = 13;
    let epsilon = 0.01;
    let reward = 1.0;
    let gamma = 0.9;
    let epoch_size = 250_000;
    let learning_rate = 1_000;

    let mut mdp = MDP::new(900_000);
    for _ in 0..NUM_STATES {
        mdp.add_state();
    }

    for state in 0..NUM_STATES {
        mdp.add_transition(
            state,
            Distribution::new(vec![((state + 1) % NUM_STATES, Reward::new(UNIT))], vec![1])
                .unwrap(),
        )
        .unwrap();
        mdp.add_transition(
            state,
            Distribution::new(
                vec![((state + NUM_STATES - 1) % NUM_STATES, Reward::new(2 * UNIT))],
                vec![2],
            )
            .unwrap(),
        )
        .unwrap();
    }

    let policy_map = vec![0; NUM_STATES];

    let policy = MDPPolicy::new(&mdp, policy_map);

    for val in policy.td_zero(epoch_size, learning_rate).unwrap() {
        assert!((as_units(val) - (reward / (1.0 - gamma))).abs() < epsilon);
    }
}

#[test]
fn test_complex_td_zero() {
    let epsilon = 0.1;
    let gamma = 0.9;
    let epoch_size = 10_000_000;
    let learning_rate = 1_000;

    let mut mdp = MDP::new(900_000);
    let s = mdp.add_state();
    mdp.add_transition(
        s,
        Distribution::new(vec![(0, Reward(UNIT)), (0, Reward(2 * UNIT))], vec![3, 1]).unwrap(),
    )
    .unwrap();
    mdp.add_transition(s, Distribution::new(vec![(0, Reward(0))], vec![1]).unwrap())
        .unwrap();

    let policy_map = vec![0; 1];

    let policy = MDPPolicy::new(&mdp, policy_map);

    let value_func = policy.td_zero(epoch_size, learning_rate).unwrap();
    let val = as_units(*value_func.get(0).unwrap());

    assert!(
        (val - (1.25) / (1.0 - gamma)).abs() < epsilon,
        "value at state computed: {:}, expected value is: {:}",
        val,
        (1.25) / (1.0 - gamma)
    );
}

fn self_loop(reward: i64) -> MDP {
    let mut mdp = MDP::new(900_000);
    let s = mdp.add_state();
    mdp.add_transition(s, Distribution::new(vec![(s, Reward(reward))], vec![1]).unwrap())
        .unwrap();
    mdp
}

#[test]
fn policy_queries() {
    let mdp = self_loop(UNIT);
    let wrong = MDPPolicy::new(&mdp, vec![1]);
    assert_eq!(wrong.sample_action_result(0), Err(ModelError::ActionDoesNotExist));
    assert_eq!(wrong.sample_action_result(1), Err(ModelError::StateNotFound));
    let right = MDPPolicy::new(&mdp, vec![0]);
    assert_eq!(right.sample_action_result(0), Ok((0, Reward(UNIT))));
    assert_eq!(right.action_at(0), Some(0));
    assert_eq!(right.action_at(1), None);
}

#[test]
fn td_zero_rejects_unknown_successors() {
    let mut mdp = MDP::new(900_000);
    let s = mdp.add_state();
    mdp.add_transition(s, Distribution::new(vec![(5, Reward(1))], vec![1]).unwrap())
        .unwrap();
    let policy = MDPPolicy::new(&mdp, vec![0]);
    assert_eq!(policy.td_zero(10, 1_000), Err(ModelError::StateNotFound));
}

#[test]
fn td_zero_first_steps_are_exact() {
    let mdp = self_loop(UNIT);
    let policy = MDPPolicy::new(&mdp, vec![0]);
    // rate 1: the value becomes the target 1.0
    assert_eq!(policy.td_zero(1, 1_000_000), Ok(vec![UNIT as i128]));
    // then 1.0 + 0.9 * 1.0 = 1.9 again at rate 1
    assert_eq!(policy.td_zero(2, 1_000_000), Ok(vec![1_900_000_000]));
    // decaying: rate 1, then 1/2: 1.0 + (1.9 - 1.0) / 2 = 1.45
    assert_eq!(policy.td_zero_decaying(2, 1_000_000), Ok(vec![1_450_000_000]));
}

#[test]
fn zero_epochs_give_zeros() {
    let mut mdp = MDP::new(900_000);
    let s = mdp.add_state();
    mdp.add_transition(
        s,
        Distribution::new(vec![(0, Reward(UNIT)), (0, Reward(-UNIT))], vec![1, 1]).unwrap(),
    )
    .unwrap();
    let policy = MDPPolicy::new(&mdp, vec![0]);
    assert_eq!(policy.td_zero(0, 1_000), Ok(vec![0]));
    assert_eq!(policy.td_zero_decaying(0, 1_000), Ok(vec![0]));
    assert_eq!(mdp.perform_q_learning(0, 1_000, 500_000), Ok(vec![vec![0]]));
}

#[test]
fn values_stay_within_the_reward_bound() {
    let mut mdp = MDP::new(500_000);
    let s = mdp.add_state();
    mdp.add_transition(
        s,
        Distribution::new(vec![(0, Reward(100)), (0, Reward(0))], vec![1, 1]).unwrap(),
    )
    .unwrap();
    let policy = MDPPolicy::new(&mdp, vec![0]);
    // rewards at most 100, gamma 1/2: values at most (100 + 1) * 2
    for v in policy.td_zero(10_000, 100_000).unwrap() {
        assert!((0..=202).contains(&v));
    }
    for row in mdp.perform_q_learning(10_000, 100_000, 500_000).unwrap() {
        for v in row {
            assert!((0..=202).contains(&v));
        }
    }
}

#[test]
fn decayed_rate_is_harmonic() {
    assert_eq!(decayed_rate(1_000_000), 500_000);
    assert_eq!(decayed_rate(500_000), 333_333);
    assert_eq!(decayed_rate(1_000), 999);
    assert_eq!(decayed_rate(0), 0);
}

#[test]
fn step_target_rounds_down() {
    assert_eq!(step_target(Reward(10), 900_000, 100), 100);
    assert_eq!(step_target(Reward(0), 500_000, -3), -2);
    assert_eq!(step_target(Reward(-5), 900_000, 0), -5);
}

#[test]
fn blend_moves_towards_target() {
    assert_eq!(blend_towards(0, 100, 250_000, 900_000), 25);
    assert_eq!(blend_towards(100, 0, 250_000, 900_000), 75);
    assert_eq!(blend_towards(0, -3, 500_000, 900_000), -2);
    assert_eq!(blend_towards(7, 1000, 0, 900_000), 7);
    assert_eq!(blend_towards(7, 1000, 1_000_000, 900_000), 1000);
}

#[test]
fn td_update_changes_one_entry() {
    let mut values: Vec<i128> = vec![0, 1_000, 50];
    td_update(&mut values, 0, 1, Reward(100), 500_000, 500_000);
    // target = 100 + 0.5 * 1000 = 600; 0 + 0.5 * 600 = 300
    assert_eq!(values, vec![300, 1_000, 50]);
}

#[test]
fn q_update_changes_one_entry() {
    let mut q: Vec<Vec<i128>> = vec![vec![0, 0], vec![10]];
    q_update(&mut q, 0, 1, Reward(20), 10, 500_000, 1_000_000);
    assert_eq!(q, vec![vec![0, 25], vec![10]]);
}

#[test]
fn least_visited_prefers_untried_actions() {
    assert_eq!(least_visited(&vec![1, 0, 0]), 1);
    assert_eq!(least_visited(&vec![2, 1, 1, 3]), 1);
    assert_eq!(least_visited(&vec![0, 0]), 0);
    let mut counts = vec![0u64; 4];
    let mut order = Vec::new();
    for _ in 0..4 {
        let a = least_visited(&counts);
        counts[a] += 1;
        order.push(a);
    }
    assert_eq!(order, vec![0, 1, 2, 3]);
}

#[test]
fn future_value_choices() {
    let row: Vec<i128> = vec![4, 9, -2];
    assert_eq!(future_value(&row, false, 0), 9);
    assert_eq!(future_value(&row, true, 2), -2);
}

#[test]
fn policy_from_q_takes_first_best_action() {
    let mdp = self_loop(1);
    let policy = MDPPolicy::from_q(&mdp, vec![vec![1, 5, 5], vec![], vec![-3]]);
    assert_eq!(policy.action_at(0), Some(1));
    assert_eq!(policy.action_at(1), Some(0));
    assert_eq!(policy.action_at(2), Some(0));
}

#[test]
fn q_learning_on_a_self_loop() {
    let mdp = self_loop(UNIT);
    let q = mdp.perform_q_learning(100_000, 10_000, 100_000).unwrap();
    assert_eq!(q.len(), 1);
    assert_eq!(q[0].len(), 1);
    assert!((as_units(q[0][0]) - 10.0).abs() < 0.01);
}

#[test]
fn q_learning_table_shape() {
    let mut mdp = MDP::new(900_000);
    for _ in 0..3 {
        mdp.add_state();
    }
    for s in 0..3 {
        for a in 0..(s + 1) {
            mdp.add_transition(
                s,
                Distribution::new(vec![((s + a) % 3, Reward(a as i64))], vec![1]).unwrap(),
            )
            .unwrap();
        }
    }
    let q = mdp.perform_q_learning(1_000, 100_000, 500_000).unwrap();
    let shape: Vec<usize> = q.iter().map(|r| r.len()).collect();
    assert_eq!(shape, vec![1, 2, 3]);
}

#[test]
fn q_learning_rejects_states_without_actions() {
    let mut mdp = self_loop(1);
    mdp.add_state();
    assert_eq!(mdp.perform_q_learning(10, 1_000, 0), Err(ModelError::ActionDoesNotExist));
    let mut open = MDP::new(900_000);
    let s = open.add_state();
    open.add_transition(s, Distribution::new(vec![(3, Reward(1))], vec![1]).unwrap())
        .unwrap();
    assert_eq!(open.perform_q_learning(10, 1_000, 0), Err(ModelError::StateNotFound));
}

#[test]
fn closed_form_value_is_a_fixed_point() {
    let v = 10 * UNIT as i128;
    let mut values: Vec<i128> = vec![v, v];
    td_update(&mut values, 0, 1, Reward(UNIT), 900_000, 1_000);
    assert_eq!(values, vec![v, v]);
    assert_eq!(step_target(Reward(UNIT), 900_000, v), v);
}

#[test]
fn q_learning_is_exact_without_exploration() {
    // one state, two actions looping back with rewards 1 and 2, gamma 1/2, rate 1:
    // least-visited alternates 0, 1, 0, 1
    let mut mdp = MDP::new(500_000);
    let s = mdp.add_state();
    mdp.add_transition(s, Distribution::new(vec![(0, Reward(100))], vec![1]).unwrap())
        .unwrap();
    mdp.add_transition(s, Distribution::new(vec![(0, Reward(200))], vec![1]).unwrap())
        .unwrap();
    let q = mdp.perform_q_learning(4, 1_000_000, 0).unwrap();
    // q0 = 100 + 0 = 100; q1 = 200 + 50 = 250; q0 = 100 + 125 = 225; q1 = 200 + 125 = 325
    assert_eq!(q, vec![vec![225, 325]]);
}
