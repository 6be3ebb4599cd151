//! What the screen's controls decide: the colour named on the command line,
//! what each key press does to the settings, the rainbow palette, the frame
//! delay, and the glyph each cell shows.

use vstd::prelude::*;

use crate::matrix::{vacant, Item, BLANK, EMPTY};

verus! {

/// A colour the rain can be drawn in.
#[derive(Clone, Copy, Debug, PartialEq, Eq, Structural)]
pub enum Tint {
    Green,
    Red,
    Blue,
    Cyan,
    Yellow,
    Magenta,
}

/// The speed level a screen starts with and returns to.
pub const DEFAULT_SPEED: u64 = 4;

/// How the rain is drawn: the speed level (a frame lasts `10 * speed`
/// milliseconds), the main colour, and whether each character gets a colour
/// of the palette at random.
#[derive(Clone, Copy, Debug, PartialEq, Eq, Structural)]
pub struct Settings {
    pub speed: u64,
    pub tint: Tint,
    pub rainbow: bool,
}

/// The default settings.
pub open spec fn default_settings() -> Settings {
    Settings { speed: DEFAULT_SPEED, tint: Tint::Green, rainbow: false }
}

/// `b` in lower case, for ASCII letters.
pub open spec fn ascii_lower(b: u8) -> u8 {
    if 65 <= b <= 90 {
        (b + 32) as u8
    } else {
        b
    }
}

/// Whether `s` spells the lower-case word `w`, ignoring ASCII case.
pub open spec fn spells(s: Seq<u8>, w: Seq<u8>) -> bool {
    s.len() == w.len() && forall|i: int| 0 <= i < s.len() ==> ascii_lower(#[trigger] s[i]) == w[i]
}

/// The colour a command line names: red, blue, cyan or magenta in any case;
/// anything else is green.
pub open spec fn named_tint(s: Seq<u8>) -> Tint {
    if spells(s, seq![114u8, 101, 100]) {
        Tint::Red
    } else if spells(s, seq![98u8, 108, 117, 101]) {
        Tint::Blue
    } else if spells(s, seq![99u8, 121, 97, 110]) {
        Tint::Cyan
    } else if spells(s, seq![109u8, 97, 103, 101, 110, 116, 97]) {
        Tint::Magenta
    } else {
        Tint::Green
    }
}

/// The rainbow palette, in order.
pub open spec fn palette() -> Seq<Tint> {
    seq![Tint::Green, Tint::Red, Tint::Blue, Tint::Cyan, Tint::Yellow, Tint::Magenta]
}

/// The colour a letter key selects, in either case.
pub open spec fn key_tint(key: char) -> Option<Tint> {
    if key == 'g' || key == 'G' {
        Some(Tint::Green)
    } else if key == 'r' || key == 'R' {
        Some(Tint::Red)
    } else if key == 'b' || key == 'B' {
        Some(Tint::Blue)
    } else if key == 'c' || key == 'C' {
        Some(Tint::Cyan)
    } else if key == 'y' || key == 'Y' {
        Some(Tint::Yellow)
    } else if key == 'm' || key == 'M' {
        Some(Tint::Magenta)
    } else {
        None
    }
}

/// What a key press does to `s`: `None` quits; a digit sets the speed; a
/// colour letter sets the colour and ends rainbow mode; `w` starts rainbow
/// mode; `d` restores the defaults; any other key changes nothing.
pub open spec fn after_key(s: Settings, key: char) -> Option<Settings> {
    if key == 'q' || key == 'Q' {
        None
    } else if '0' <= key <= '9' {
        Some(Settings { speed: (key as u32 - '0' as u32) as u64, ..s })
    } else if key_tint(key) is Some {
        Some(Settings { tint: key_tint(key)->Some_0, rainbow: false, ..s })
    } else if key == 'w' || key == 'W' {
        Some(Settings { rainbow: true, ..s })
    } else if key == 'd' || key == 'D' {
        Some(default_settings())
    } else {
        Some(s)
    }
}

impl Settings {
    /// Speed 4, green, no rainbow.
    pub fn defaults() -> (s: Settings)
        ensures
            s == default_settings(),
    {
        Settings { speed: DEFAULT_SPEED, tint: Tint::Green, rainbow: false }
    }

    /// The settings after the key `key` is pressed, or `None` where it quits.
    pub fn on_key(&self, key: char) -> (r: Option<Settings>)
        ensures
            r == after_key(*self, key),
    {
        if key == 'q' || key == 'Q' {
            None
        } else if '0' <= key && key <= '9' {
            Some(Settings { speed: (key as u32 - '0' as u32) as u64, tint: self.tint, rainbow: self.rainbow })
        } else if key == 'g' || key == 'G' {
            Some(Settings { speed: self.speed, tint: Tint::Green, rainbow: false })
        } else if key == 'r' || key == 'R' {
            Some(Settings { speed: self.speed, tint: Tint::Red, rainbow: false })
        } else if key == 'b' || key == 'B' {
            Some(Settings { speed: self.speed, tint: Tint::Blue, rainbow: false })
        } else if key == 'c' || key == 'C' {
            Some(Settings { speed: self.speed, tint: Tint::Cyan, rainbow: false })
        } else if key == 'y' || key == 'Y' {
            Some(Settings { speed: self.speed, tint: Tint::Yellow, rainbow: false })
        } else if key == 'm' || key == 'M' {
            Some(Settings { speed: self.speed, tint: Tint::Magenta, rainbow: false })
        } else if key == 'w' || key == 'W' {
            Some(Settings { speed: self.speed, tint: self.tint, rainbow: true })
        } else if key == 'd' || key == 'D' {
            Some(Settings::defaults())
        } else {
            Some(*self)
        }
    }

    /// Milliseconds a frame lasts at this speed.
    pub fn delay_millis(&self) -> (ms: u64)
        requires
            self.speed <= u64::MAX / 10,
        ensures
            ms == 10 * self.speed,
    {
        10 * self.speed
    }
}

/// Whether `s` spells the lower-case word `w`, ignoring ASCII case.
fn spells_word(s: &[u8], w: &Vec<u8>) -> (r: bool)
    ensures
        r == spells(s@, w@),
{
    if s.len() != w.len() {
        return false;
    }
    let mut i: usize = 0;
    while i < s.len()
        invariant
            s@.len() == w@.len(),
            i <= s@.len(),
            forall|k: int| 0 <= k < i ==> ascii_lower(#[trigger] s@[k]) == w@[k],
        decreases s@.len() - i,
    {
        let b = s[i];
        let low = if 65 <= b && b <= 90 {
            b + 32
        } else {
            b
        };
        if low != w[i] {
            return false;
        }
        i = i + 1;
    }
    true
}

/// The colour that `name` (a command-line argument, as bytes) names.
pub fn tint_named(name: &[u8]) -> (t: Tint)
    ensures
        t == named_tint(name@),
{
    let red: Vec<u8> = vec![114u8, 101, 100];
    let blue: Vec<u8> = vec![98u8, 108, 117, 101];
    let cyan: Vec<u8> = vec![99u8, 121, 97, 110];
    let magenta: Vec<u8> = vec![109u8, 97, 103, 101, 110, 116, 97];
    proof {
        assert(red@ =~= seq![114u8, 101, 100]);
        assert(blue@ =~= seq![98u8, 108, 117, 101]);
        assert(cyan@ =~= seq![99u8, 121, 97, 110]);
        assert(magenta@ =~= seq![109u8, 97, 103, 101, 110, 116, 97]);
    }
    if spells_word(name, &red) {
        Tint::Red
    } else if spells_word(name, &blue) {
        Tint::Blue
    } else if spells_word(name, &cyan) {
        Tint::Cyan
    } else if spells_word(name, &magenta) {
        Tint::Magenta
    } else {
        Tint::Green
    }
}

/// Colour `i` of the rainbow palette.
pub fn palette_tint(i: usize) -> (t: Tint)
    requires
        i < 6,
    ensures
        t == palette()[i as int],
{
    if i == 0 {
        Tint::Green
    } else if i == 1 {
        Tint::Red
    } else if i == 2 {
        Tint::Blue
    } else if i == 3 {
        Tint::Cyan
    } else if i == 4 {
        Tint::Yellow
    } else {
        Tint::Magenta
    }
}

/// The character a cell shows: a space where it holds none.
pub fn glyph(it: Item) -> (ch: char)
    requires
        vacant(it.val) || 0 <= it.val < 128,
    ensures
        vacant(it.val) ==> ch == ' ',
        !vacant(it.val) ==> ch as u32 == it.val as u32,
{
    if it.val == BLANK || it.val == EMPTY {
        ' '
    } else {
        (it.val as u8) as char
    }
}

} // verus!
