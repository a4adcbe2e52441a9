use vstd::prelude::*;

verus! {

/// Segments the snake grows by before it first drops its tail.
pub const MIN_SNAKE_LEN: usize = 50;

/// Segments each fruit adds to the snake.
pub const FRUIT_SIZE_GAIN: usize = 20;

/// Which reward a step earns.
#[derive(Clone, Copy, PartialEq, Eq, Structural, Debug)]
pub enum RewardKind {
    /// Nothing happened: the reward is how much closer the head came to the fruit.
    Approach,
    /// The head reached the fruit.
    Fruit,
    /// The head hit a wall or the body; the episode ends.
    Hit,
}

/// The reward a step earns: hitting an obstacle overrides eating a fruit.
pub open spec fn reward_of(ate_fruit: bool, collided: bool) -> RewardKind {
    if collided {
        RewardKind::Hit
    } else if ate_fruit {
        RewardKind::Fruit
    } else {
        RewardKind::Approach
    }
}

/// The reward a step earns, from whether the head reached the fruit and
/// whether it hit a wall or the body.
pub fn reward_kind(ate_fruit: bool, collided: bool) -> (r: RewardKind)
    ensures
        r == reward_of(ate_fruit, collided),
{
    if collided {
        RewardKind::Hit
    } else if ate_fruit {
        RewardKind::Fruit
    } else {
        RewardKind::Approach
    }
}

/// How an action turns the heading: `-1` for a turn of one step to the
/// right, `0` for straight on, `1` for a turn to the left.
pub fn turn_of(action: usize) -> (r: i32)
    requires
        action < 3,
    ensures
        r == action - 1,
{
    if action == 0 {
        -1
    } else if action == 1 {
        0
    } else {
        1
    }
}

/// The snake's bookkeeping: segments still to grow, fruits eaten and steps
/// taken in the episode.
#[derive(Clone, Copy, PartialEq, Eq, Structural, Debug)]
pub struct Growth {
    pub size_to_gain: usize,
    pub fruits_eaten: usize,
    pub episode_len: usize,
}

/// The bookkeeping after one step, and whether the tail is dropped.
pub open spec fn grown(g: Growth, ate_fruit: bool) -> (Growth, bool) {
    let gain = if ate_fruit { g.size_to_gain + FRUIT_SIZE_GAIN } else { g.size_to_gain as int };
    let fruits = if ate_fruit { g.fruits_eaten + 1 } else { g.fruits_eaten as int };
    (
        Growth {
            size_to_gain: if gain == 0 { 0 } else { (gain - 1) as usize },
            fruits_eaten: fruits as usize,
            episode_len: (g.episode_len + 1) as usize,
        },
        gain == 0,
    )
}

/// The snake's length, in segments, and what it has still to grow add up to
/// the starting length and what the fruits eaten gave.
pub open spec fn length_accounted(len: nat, g: Growth) -> bool {
    len + g.size_to_gain == 1 + MIN_SNAKE_LEN + FRUIT_SIZE_GAIN * g.fruits_eaten
}

impl Growth {
    /// A new episode: one segment, `MIN_SNAKE_LEN` to grow, nothing eaten.
    pub fn new() -> (r: Growth)
        ensures
            r == (Growth { size_to_gain: MIN_SNAKE_LEN, fruits_eaten: 0, episode_len: 0 }),
            length_accounted(1, r),
    {
        Growth { size_to_gain: MIN_SNAKE_LEN, fruits_eaten: 0, episode_len: 0 }
    }

    /// One step: it is counted; a fruit eaten adds `FRUIT_SIZE_GAIN` segments
    /// to grow; the tail is dropped (`true`) when nothing is left to grow,
    /// and otherwise one segment of growth is used up.
    pub fn step(&mut self, ate_fruit: bool) -> (pop_tail: bool)
        requires
            old(self).episode_len < usize::MAX,
            ate_fruit ==> old(self).fruits_eaten < usize::MAX,
            ate_fruit ==> old(self).size_to_gain + FRUIT_SIZE_GAIN <= usize::MAX,
        ensures
            (*final(self), pop_tail) == grown(*old(self), ate_fruit),
    {
        self.episode_len = self.episode_len + 1;
        if ate_fruit {
            self.size_to_gain = self.size_to_gain + FRUIT_SIZE_GAIN;
            self.fruits_eaten = self.fruits_eaten + 1;
        }
        if self.size_to_gain == 0 {
            true
        } else {
            self.size_to_gain = self.size_to_gain - 1;
            false
        }
    }
}

/// A step keeps the snake's length accounted for: the head is added, the
/// tail dropped when the step says so, and what is left to grow changes to
/// match.
pub proof fn lemma_length_accounting(len: nat, g: Growth, ate_fruit: bool)
    requires
        length_accounted(len, g),
        g.episode_len < usize::MAX,
        ate_fruit ==> g.fruits_eaten < usize::MAX,
        ate_fruit ==> g.size_to_gain + FRUIT_SIZE_GAIN <= usize::MAX,
    ensures
        length_accounted((len + 1 - if grown(g, ate_fruit).1 { 1int } else { 0int }) as nat, grown(g, ate_fruit).0),
{
}

} // verus!
