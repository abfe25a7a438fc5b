use vstd::prelude::*;

verus! {
/// A physical key, independent of the modifier keys held with it.
#[derive(Clone, Copy, Debug, PartialEq, Eq, Structural, Hash)]
pub enum Key {
    A,
    B,
    C,
    D,
    E,
    F,
    G,
    H,
    I,
    J,
    K,
    L,
    M,
    N,
    O,
    P,
    Q,
    R,
    S,
    T,
    U,
    V,
    W,
    X,
    Y,
    Z,
    Key0,
    Key1,
    Key2,
    Key3,
    Key4,
    Key5,
    Key6,
    Key7,
    Key8,
    Key9,
    Enter,
    Escape,
    Colon,
    Space,
    Tab,
    Backspace,
    Delete,
    LControl,
    RControl,
    LShift,
    RShift,
    LAlt,
    RAlt,
    Up,
    Down,
    Left,
    Right,
    Slash,
    Semicolon,
    Comma,
    Period,
    Minus,
    /// Any key without a variant of its own.
    Other,
}

/// The display name of a key.
pub open spec fn key_name(k: Key) -> Seq<char> {
    match k {
        Key::A => "A"@,
        Key::B => "B"@,
        Key::C => "C"@,
        Key::D => "D"@,
        Key::E => "E"@,
        Key::F => "F"@,
        Key::G => "G"@,
        Key::H => "H"@,
        Key::I => "I"@,
        Key::J => "J"@,
        Key::K => "K"@,
        Key::L => "L"@,
        Key::M => "M"@,
        Key::N => "N"@,
        Key::O => "O"@,
        Key::P => "P"@,
        Key::Q => "Q"@,
        Key::R => "R"@,
        Key::S => "S"@,
        Key::T => "T"@,
        Key::U => "U"@,
        Key::V => "V"@,
        Key::W => "W"@,
        Key::X => "X"@,
        Key::Y => "Y"@,
        Key::Z => "Z"@,
        Key::Key0 => "Key0"@,
        Key::Key1 => "Key1"@,
        Key::Key2 => "Key2"@,
        Key::Key3 => "Key3"@,
        Key::Key4 => "Key4"@,
        Key::Key5 => "Key5"@,
        Key::Key6 => "Key6"@,
        Key::Key7 => "Key7"@,
        Key::Key8 => "Key8"@,
        Key::Key9 => "Key9"@,
        Key::Enter => "Enter"@,
        Key::Escape => "Escape"@,
        Key::Colon => "Colon"@,
        Key::Space => "Space"@,
        Key::Tab => "Tab"@,
        Key::Backspace => "Backspace"@,
        Key::Delete => "Delete"@,
        Key::LControl => "LControl"@,
        Key::RControl => "RControl"@,
        Key::LShift => "LShift"@,
        Key::RShift => "RShift"@,
        Key::LAlt => "LAlt"@,
        Key::RAlt => "RAlt"@,
        Key::Up => "Up"@,
        Key::Down => "Down"@,
        Key::Left => "Left"@,
        Key::Right => "Right"@,
        Key::Slash => "Slash"@,
        Key::Semicolon => "Semicolon"@,
        Key::Comma => "Comma"@,
        Key::Period => "Period"@,
        Key::Minus => "Minus"@,
        Key::Other => "Other"@,
    }
}

impl Key {
    /// The key's display name.
    pub fn name(&self) -> (r: &'static str)
        ensures
            r@ == key_name(*self),
    {
        match self {
            Key::A => "A",
            Key::B => "B",
            Key::C => "C",
            Key::D => "D",
            Key::E => "E",
            Key::F => "F",
            Key::G => "G",
            Key::H => "H",
            Key::I => "I",
            Key::J => "J",
            Key::K => "K",
            Key::L => "L",
            Key::M => "M",
            Key::N => "N",
            Key::O => "O",
            Key::P => "P",
            Key::Q => "Q",
            Key::R => "R",
            Key::S => "S",
            Key::T => "T",
            Key::U => "U",
            Key::V => "V",
            Key::W => "W",
            Key::X => "X",
            Key::Y => "Y",
            Key::Z => "Z",
            Key::Key0 => "Key0",
            Key::Key1 => "Key1",
            Key::Key2 => "Key2",
            Key::Key3 => "Key3",
            Key::Key4 => "Key4",
            Key::Key5 => "Key5",
            Key::Key6 => "Key6",
            Key::Key7 => "Key7",
            Key::Key8 => "Key8",
            Key::Key9 => "Key9",
            Key::Enter => "Enter",
            Key::Escape => "Escape",
            Key::Colon => "Colon",
            Key::Space => "Space",
            Key::Tab => "Tab",
            Key::Backspace => "Backspace",
            Key::Delete => "Delete",
            Key::LControl => "LControl",
            Key::RControl => "RControl",
            Key::LShift => "LShift",
            Key::RShift => "RShift",
            Key::LAlt => "LAlt",
            Key::RAlt => "RAlt",
            Key::Up => "Up",
            Key::Down => "Down",
            Key::Left => "Left",
            Key::Right => "Right",
            Key::Slash => "Slash",
            Key::Semicolon => "Semicolon",
            Key::Comma => "Comma",
            Key::Period => "Period",
            Key::Minus => "Minus",
            Key::Other => "Other",
        }
    }
}

} // verus!
