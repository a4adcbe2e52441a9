use homemade_ml::env::snake_rules::{reward_kind, turn_of, Growth, RewardKind, FRUIT_SIZE_GAIN, MIN_SNAKE_LEN};

#[test]
fn a_new_snake_has_its_minimum_length_to_grow() {
    let g = Growth::new();
    assert_eq!(g, Growth { size_to_gain: MIN_SNAKE_LEN, fruits_eaten: 0, episode_len: 0 });
}

#[test]
fn growing_uses_up_one_segment_per_step_then_drops_the_tail() {
    let mut g = Growth { size_to_gain: 2, fruits_eaten: 0, episode_len: 0 };
    assert!(!g.step(false));
    assert!(!g.step(false));
    assert_eq!(g.size_to_gain, 0);
    assert!(g.step(false));
    assert_eq!(g, Growth { size_to_gain: 0, fruits_eaten: 0, episode_len: 3 });
}

#[test]
fn a_fruit_adds_its_gain_and_keeps_the_tail() {
    let mut g = Growth { size_to_gain: 0, fruits_eaten: 4, episode_len: 9 };
    assert!(!g.step(true));
    assert_eq!(g, Growth { size_to_gain: FRUIT_SIZE_GAIN - 1, fruits_eaten: 5, episode_len: 10 });
}

#[test]
fn the_length_stays_accounted_over_many_steps() {
    let mut g = Growth::new();
    let mut len: usize = 1;
    for step in 0..500 {
        let ate = step % 37 == 0;
        len += 1;
        if g.step(ate) {
            len -= 1;
        }
        assert_eq!(len + g.size_to_gain, 1 + MIN_SNAKE_LEN + FRUIT_SIZE_GAIN * g.fruits_eaten);
    }
}

#[test]
fn hitting_an_obstacle_overrides_the_fruit() {
    assert_eq!(reward_kind(false, false), RewardKind::Approach);
    assert_eq!(reward_kind(true, false), RewardKind::Fruit);
    assert_eq!(reward_kind(true, true), RewardKind::Hit);
    assert_eq!(reward_kind(false, true), RewardKind::Hit);
}

#[test]
fn actions_turn_right_straight_left() {
    assert_eq!(turn_of(0), -1);
    assert_eq!(turn_of(1), 0);
    assert_eq!(turn_of(2), 1);
}
