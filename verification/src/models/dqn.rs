use vstd::prelude::*;
use crate::rng::random_usize;
use crate::env::play_snake::is_quit_key;

verus! {

/// What the trainer does about the key pressed during a step.
#[derive(Clone, Copy, PartialEq, Eq, Structural, Debug)]
pub enum KeyDecision {
    Continue,
    Quit,
    SaveAndQuit,
}

/// The bookkeeping of deep Q-learning on snake: the number of steps taken,
/// the most fruits eaten in one episode so far, and how many steps apart the
/// slow network is synchronised with the fast one.
pub struct DqnControl {
    pub step: usize,
    pub best_fruits_eaten: usize,
    pub sync_freq: usize,
}

/// The steering action a random number `r` picks: `r` modulo the three
/// actions.
pub fn action_from(r: usize) -> (a: usize)
    ensures
        a == r % 3,
        a < 3,
{
    r % 3
}

/// A random steering action: a random `usize` taken modulo the three actions
/// (right, straight, left).
pub fn random_action() -> (a: usize)
    ensures
        a < 3,
{
    action_from(random_usize())
}

/// What to do about `key`: `q` or Ctrl+C quits, `s` saves the model and
/// quits, anything else goes on.
pub fn key_decision(key: Option<char>) -> (d: KeyDecision)
    ensures
        d == if is_quit_key(key) {
            KeyDecision::Quit
        } else if key == Some('s') {
            KeyDecision::SaveAndQuit
        } else {
            KeyDecision::Continue
        },
{
    match key {
        Some(c) => if c == 'q' || c == '\u{3}' {
            KeyDecision::Quit
        } else if c == 's' {
            KeyDecision::SaveAndQuit
        } else {
            KeyDecision::Continue
        },
        None => KeyDecision::Continue,
    }
}

/// During warm-up only `q` and Ctrl+C matter: whether to stop.
pub fn warmup_quits(key: Option<char>) -> (quit: bool)
    ensures
        quit == is_quit_key(key),
{
    match key {
        Some(c) => c == 'q' || c == '\u{3}',
        None => false,
    }
}

impl DqnControl {
    /// No step taken and no fruit eaten yet.
    pub fn new(sync_freq: usize) -> (r: DqnControl)
        ensures
            r.step == 0,
            r.best_fruits_eaten == 0,
            r.sync_freq == sync_freq,
    {
        DqnControl { step: 0, best_fruits_eaten: 0, sync_freq }
    }

    /// Counts a new step.
    pub fn begin_step(&mut self)
        requires
            old(self).step < usize::MAX,
        ensures
            final(self).step == old(self).step + 1,
            final(self).best_fruits_eaten == old(self).best_fruits_eaten,
            final(self).sync_freq == old(self).sync_freq,
    {
        self.step = self.step + 1;
    }

    /// The step ended an episode (`done`) with `fruits_eaten` fruits: a new
    /// best is recorded, and the answer says whether to save the model.
    pub fn record_episode(&mut self, done: bool, fruits_eaten: usize) -> (save: bool)
        ensures
            save == (done && fruits_eaten > old(self).best_fruits_eaten),
            final(self).best_fruits_eaten == if save { fruits_eaten } else { old(self).best_fruits_eaten },
            final(self).step == old(self).step,
            final(self).sync_freq == old(self).sync_freq,
    {
        if done && fruits_eaten > self.best_fruits_eaten {
            self.best_fruits_eaten = fruits_eaten;
            true
        } else {
            false
        }
    }

    /// Whether the slow network is synchronised after this step: every
    /// `sync_freq` steps.
    pub fn should_sync(&self) -> (sync: bool)
        requires
            self.sync_freq > 0,
        ensures
            sync == (self.step % self.sync_freq == 0),
    {
        self.step % self.sync_freq == 0
    }
}

} // verus!
