use vstd::prelude::*;

verus! {

/// The I/O error of the terminal, carried through unchanged.
#[verifier::external_type_specification]
#[verifier::external_body]
pub struct ExIoError(std::io::Error);

/// A live view of a training run, told after every step how many fruits the
/// snake has eaten and whether the episode ended; it answers whether the user
/// asked to stop.
pub trait StateVisualization {
    fn update_state(&mut self, fruits_eaten: usize, done: bool) -> Result<bool, std::io::Error>;
}

/// A rectangle of terminal cells.
#[derive(Clone, Copy, PartialEq, Eq, Structural, Debug)]
pub struct Rect {
    pub x: u16,
    pub y: u16,
    pub width: u16,
    pub height: u16,
}

/// `a - b`, or zero where `b` is larger.
pub open spec fn sat_sub(a: int, b: int) -> int {
    if a >= b { a - b } else { 0 }
}

/// The width of the game area in `area`: two cells per row of height, as
/// wide as fits, at least one.
pub open spec fn game_width(area: Rect) -> int {
    let twice = if 2 * area.height <= u16::MAX { 2 * area.height } else { u16::MAX as int };
    let w = if area.width <= twice { area.width as int } else { twice };
    if w >= 1 { w } else { 1 }
}

/// The height of the game area in `area`: half its width, as high as fits,
/// at least one.
pub open spec fn game_height(area: Rect) -> int {
    let h = if area.height <= game_width(area) / 2 { area.height as int } else { game_width(area) / 2 };
    if h >= 1 { h } else { 1 }
}

/// The largest area with cells twice as wide as they are high (so that it
/// looks square) centred in `area`.
pub fn centered_game_area(area: Rect) -> (r: Rect)
    requires
        area.x + area.width <= u16::MAX,
        area.y + area.height <= u16::MAX,
    ensures
        r.width == game_width(area),
        r.height == game_height(area),
        r.x == area.x + sat_sub(area.width as int, r.width as int) / 2,
        r.y == area.y + sat_sub(area.height as int, r.height as int) / 2,
{
    let twice: u16 = if area.height <= 0x7FFF { area.height * 2 } else { u16::MAX };
    let w0 = if area.width < twice { area.width } else { twice };
    let width = if w0 > 1 { w0 } else { 1 };
    let h0 = if area.height < width / 2 { area.height } else { width / 2 };
    let height = if h0 > 1 { h0 } else { 1 };
    Rect {
        x: area.x + area.width.saturating_sub(width) / 2,
        y: area.y + area.height.saturating_sub(height) / 2,
        width,
        height,
    }
}

/// The character a key press stands for: Ctrl+C becomes `'\u{3}'`, every
/// other key its own character.
pub fn key_char(c: char, control: bool) -> (r: char)
    ensures
        r == if c == 'c' && control { '\u{3}' } else { c },
{
    if c == 'c' && control { '\u{3}' } else { c }
}

/// `keys` without `c`.
pub open spec fn without(keys: Seq<char>, c: char) -> Seq<char> {
    keys.filter(|k: char| k != c)
}

/// The keys held down, in the order they were last pressed.
pub struct HeldKeys {
    pub keys: Vec<char>,
}

impl HeldKeys {
    /// No key held.
    pub fn new() -> (r: HeldKeys)
        ensures
            r.keys@ == Seq::<char>::empty(),
    {
        HeldKeys { keys: Vec::new() }
    }

    /// Removes `c` from the keys held.
    fn remove(&mut self, c: char)
        ensures
            final(self).keys@ == without(old(self).keys@, c),
    {
        let mut kept: Vec<char> = Vec::new();
        let n = self.keys.len();
        for i in 0..n
            invariant
                n == self.keys@.len(),
                kept@ == without(self.keys@.take(i as int), c),
        {
            let k = self.keys[i];
            proof {
                reveal(Seq::filter);
                assert(self.keys@.take(i + 1).drop_last() =~= self.keys@.take(i as int));
                assert(self.keys@.take(i + 1).last() == k);
            }
            if k != c {
                kept.push(k);
            }
        }
        assert(self.keys@.take(n as int) =~= self.keys@);
        self.keys = kept;
    }

    /// A press (or a repeat) of `c`: it becomes the latest key held.
    pub fn press(&mut self, c: char)
        ensures
            final(self).keys@ == without(old(self).keys@, c).push(c),
    {
        self.remove(c);
        self.keys.push(c);
    }

    /// A release of `c`: it is no longer held.
    pub fn release(&mut self, c: char)
        ensures
            final(self).keys@ == without(old(self).keys@, c),
    {
        self.remove(c);
    }

    /// Forgets every key (the terminal reports no releases and the keys went quiet).
    pub fn clear(&mut self)
        ensures
            final(self).keys@ == Seq::<char>::empty(),
    {
        self.keys.clear();
    }

    /// The latest key still held, if any.
    pub fn current(&self) -> (r: Option<char>)
        ensures
            r == if self.keys@.len() == 0 { None } else { Some(self.keys@.last()) },
    {
        if self.keys.len() == 0 { None } else { Some(self.keys[self.keys.len() - 1]) }
    }
}

/// Appends `p` to the recent points, dropping the oldest when more than `cap`
/// are kept.
pub fn push_recent<T>(points: &mut Vec<T>, p: T, cap: usize)
    ensures
        final(points)@ == if old(points)@.len() + 1 > cap {
            old(points)@.push(p).drop_first()
        } else {
            old(points)@.push(p)
        },
{
    points.push(p);
    if points.len() > cap {
        points.remove(0);
        assert(points@ =~= old(points)@.push(p).drop_first());
    }
}

} // verus!
