use vstd::prelude::*;

verus! {

/// The steering actions of the snake: turn right, go straight, turn left.
pub const TURN_RIGHT: usize = 0;
pub const STRAIGHT: usize = 1;
pub const TURN_LEFT: usize = 2;

/// The keyboard state of a game of snake played by hand: the action taken at
/// the next tick, whether the game is frozen, and whether the freeze key was
/// down at the last tick.
pub struct SnakeControls {
    pub action: usize,
    pub frozen: bool,
    pub freeze_key_down: bool,
}

/// `key` is one that ends the game: `q` or Ctrl+C.
pub open spec fn is_quit_key(key: Option<char>) -> bool {
    key == Some('q') || key == Some('\u{3}')
}

/// The action after a tick on which `key` was held: `a` turns left, `d`
/// turns right, another key keeps the action, no key goes straight.
pub open spec fn steer(action: usize, key: Option<char>) -> usize {
    match key {
        Some(c) => if c == 'a' || c == 'A' { TURN_LEFT } else if c == 'd' || c == 'D' { TURN_RIGHT } else { action },
        None => STRAIGHT,
    }
}

impl SnakeControls {
    /// A game about to start: going straight, not frozen.
    pub fn new() -> (r: SnakeControls)
        ensures
            r.action == STRAIGHT,
            !r.frozen,
            !r.freeze_key_down,
    {
        SnakeControls { action: STRAIGHT, frozen: false, freeze_key_down: false }
    }

    /// The snake died: the next episode starts going straight.
    pub fn episode_done(&mut self)
        ensures
            final(self).action == STRAIGHT,
            final(self).frozen == old(self).frozen,
            final(self).freeze_key_down == old(self).freeze_key_down,
    {
        self.action = STRAIGHT;
    }

    /// The key held at the end of a tick. Returns whether the game ends (on
    /// `q` or Ctrl+C, with nothing else changed); otherwise a fresh press of
    /// `f` toggles the freeze (and goes straight), and the key steers.
    pub fn on_key(&mut self, key: Option<char>) -> (quit: bool)
        ensures
            quit == is_quit_key(key),
            quit ==> *final(self) == *old(self),
            !quit ==> ({
                let f_down = key == Some('f') || key == Some('F');
                let toggles = f_down && !old(self).freeze_key_down;
                let a = if toggles { STRAIGHT } else { old(self).action };
                &&& final(self).frozen == (old(self).frozen != toggles)
                &&& final(self).freeze_key_down == f_down
                &&& final(self).action == steer(a, key)
            }),
    {
        let quit = match key {
            Some(c) => c == 'q' || c == '\u{3}',
            None => false,
        };
        if quit {
            return true;
        }
        let f_down = match key {
            Some(c) => c == 'f' || c == 'F',
            None => false,
        };
        if f_down && !self.freeze_key_down {
            self.frozen = !self.frozen;
            self.action = STRAIGHT;
        }
        self.freeze_key_down = f_down;
        self.action = match key {
            Some(c) => if c == 'a' || c == 'A' { TURN_LEFT } else if c == 'd' || c == 'D' { TURN_RIGHT } else { self.action },
            None => STRAIGHT,
        };
        false
    }
}

} // verus!
