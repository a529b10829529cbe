use markov_learning::markov::{MDPEnvironment, ModelError, Reward, MDP};
use markov_learning::probability::Distribution;

fn ring(num_states: usize, gamma: u64) -> MDP {
    let mut mdp = MDP::new(gamma);
    for _ in 0..num_states {
        mdp.add_state();
    }
    for state in 0..num_states {
        mdp.add_transition(
            state,
            Distribution::new(
                vec![((state + 1) % num_states, Reward::new(state as i64))],
                vec![1],
            )
            .unwrap(),
        )
        .unwrap();
        mdp.add_transition(
            state,
            Distribution::new(
                vec![(
                    (state + num_states - 1) % num_states,
                    Reward::new(state as i64),
                )],
                vec![1],
            )
            .unwrap(),
        )
        .unwrap();
    }
    mdp
}

#[test]
fn test_cycle_ddp() {
    const NUM_STATES: usize = 13;

    let num_steps = 10000;

    let mdp = ring(NUM_STATES, 900_000);

    let mut mdp_environment = MDPEnvironment::new(&mdp, 0);

    for i in 0..num_steps {
        assert_eq!(mdp_environment.cur_state(), i % NUM_STATES);
        assert_eq!(
            mdp_environment.perform_action(0).value(),
            (i % NUM_STATES) as i64
        );
    }

    mdp_environment.reset(0);

    for i in 0..num_steps {
        assert_eq!(
            mdp_environment.cur_state(),
            (num_steps * NUM_STATES - i) % NUM_STATES
        );
        assert_eq!(
            mdp_environment.perform_action(1).value(),
            ((num_steps * NUM_STATES - i) % NUM_STATES) as i64
        );
    }

    mdp_environment.reset(0);

    for i in 0..num_steps {
        assert_eq!(mdp_environment.cur_state(), i % 2);
        mdp_environment.perform_action(i % 2).value();
    }
}

#[test]
fn reset_replays_the_same_trajectory() {
    let mdp = ring(5, 500_000);
    let actions = [0usize, 0, 1, 0, 1, 1, 1, 0];
    let mut env = MDPEnvironment::new(&mdp, 3);
    let first: Vec<(usize, i64)> = actions
        .iter()
        .map(|&a| {
            let r = env.perform_action(a).value();
            (env.cur_state(), r)
        })
        .collect();
    env.reset(3);
    let second: Vec<(usize, i64)> = actions
        .iter()
        .map(|&a| {
            let r = env.perform_action(a).value();
            (env.cur_state(), r)
        })
        .collect();
    assert_eq!(first, second);
    assert_eq!(first[0], (4, 3));
    assert_eq!(first[2], (4, 0));
}

#[test]
fn unknown_action_is_reported() {
    let mdp = ring(3, 900_000);
    assert_eq!(mdp.sample_transition(0, 2), Err(ModelError::ActionDoesNotExist));
    assert_eq!(mdp.sample_transition(1, 99), Err(ModelError::ActionDoesNotExist));
    assert_eq!(mdp.sample_transition(3, 0), Err(ModelError::StateNotFound));
    assert_eq!(mdp.sample_transition(2, 0), Ok((0, Reward(2))));
    assert_eq!(*Reward(-3), -3);
}

#[test]
fn actions_are_numbered_in_order_of_addition() {
    let mut mdp = MDP::new(100_000);
    let s = mdp.add_state();
    let t = mdp.add_state();
    assert_eq!((s, t), (0, 1));
    assert_eq!(mdp.num_actions(s), Ok(0));
    let d = || Distribution::new(vec![(1usize, Reward(5))], vec![1]).unwrap();
    assert_eq!(mdp.add_transition(s, d()), Ok(0));
    assert_eq!(mdp.add_transition(s, d()), Ok(1));
    assert_eq!(mdp.add_transition(7, d()), Err(ModelError::StateNotFound));
    assert_eq!(mdp.num_actions(s), Ok(2));
    assert_eq!(mdp.num_actions(9), Err(ModelError::StateNotFound));
    assert_eq!(mdp.num_states(), 2);
    assert_eq!(mdp.gamma(), 100_000);
}

#[test]
fn set_transition_replaces_an_action() {
    let mut mdp = ring(2, 900_000);
    let d = || Distribution::new(vec![(0usize, Reward(-4))], vec![1]).unwrap();
    assert_eq!(mdp.set_transition(1, 0, d()), Ok(()));
    assert_eq!(mdp.sample_transition(1, 0), Ok((0, Reward(-4))));
    assert_eq!(mdp.set_transition(1, 2, d()), Err(ModelError::ActionDoesNotExist));
    assert_eq!(mdp.set_transition(2, 0, d()), Err(ModelError::StateNotFound));
}

#[test]
fn successors_must_be_states() {
    let mut mdp = ring(2, 900_000);
    assert!(mdp.successors_in_range());
    let s = mdp.add_state();
    mdp.add_transition(s, Distribution::new(vec![(8usize, Reward(0))], vec![1]).unwrap())
        .unwrap();
    assert!(!mdp.successors_in_range());
}

#[test]
fn reset_replays_long_trajectories() {
    let mdp = ring(7, 900_000);
    let actions: Vec<usize> = (0..500).map(|i| (i * 7 + i / 3) % 2).collect();
    let mut env = MDPEnvironment::new(&mdp, 2);
    let run = |env: &mut MDPEnvironment| -> Vec<(usize, i64)> {
        actions
            .iter()
            .map(|&a| {
                let r = env.perform_action(a).value();
                (env.cur_state(), r)
            })
            .collect()
    };
    let first = run(&mut env);
    env.reset(2);
    let second = run(&mut env);
    assert_eq!(first, second);
    assert_eq!(first.len(), 500);
}
