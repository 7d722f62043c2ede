use vstd::prelude::*;

verus! {

/// The logical keys a game can ask about.
#[derive(Clone, Copy, PartialEq, Eq, Structural, Debug)]
pub enum Key {
    Up,
    Down,
    Left,
    Right,
    Escape,
}

/// A read-only snapshot of one tick: its counter and which keys are held.
#[derive(Clone, Copy)]
pub struct Input {
    tick: u64,
    up: bool,
    down: bool,
    left: bool,
    right: bool,
    escape: bool,
}

impl Input {
    pub closed spec fn spec_tick(&self) -> u64 {
        self.tick
    }

    /// Whether `key` is held in this snapshot.
    pub closed spec fn spec_down(&self, key: Key) -> bool {
        match key {
            Key::Up => self.up,
            Key::Down => self.down,
            Key::Left => self.left,
            Key::Right => self.right,
            Key::Escape => self.escape,
        }
    }

    /// The snapshot of tick `tick` with the given keys held.
    pub fn new(tick: u64, up: bool, down: bool, left: bool, right: bool, escape: bool) -> (r: Input)
        ensures
            r.spec_tick() == tick,
            r.spec_down(Key::Up) == up,
            r.spec_down(Key::Down) == down,
            r.spec_down(Key::Left) == left,
            r.spec_down(Key::Right) == right,
            r.spec_down(Key::Escape) == escape,
    {
        Input { tick, up, down, left, right, escape }
    }

    pub fn tick(&self) -> (r: u64)
        ensures
            r == self.spec_tick(),
    {
        self.tick
    }

    pub fn is_key_down(&self, key: Key) -> (r: bool)
        ensures
            r == self.spec_down(key),
    {
        match key {
            Key::Up => self.up,
            Key::Down => self.down,
            Key::Left => self.left,
            Key::Right => self.right,
            Key::Escape => self.escape,
        }
    }
}

} // verus!
