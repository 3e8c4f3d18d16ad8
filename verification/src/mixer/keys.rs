//! What the keys of the desk do.

use vstd::prelude::*;

verus! {

/// A key.
#[derive(Clone, Copy, Debug, PartialEq, Eq, Structural)]
pub enum KeyCode {
    Up,
    Down,
    Left,
    Right,
    Esc,
    Char(char),
    /// Any other key.
    Other,
}

/// What happened to a key.
#[derive(Clone, Copy, Debug, PartialEq, Eq, Structural)]
pub enum KeyEventKind {
    Press,
    Repeat,
    Release,
}

/// A key event, with the modifier keys that were held, one bit for each.
#[derive(Clone, Copy, Debug, PartialEq, Eq, Structural)]
pub struct KeyEvent {
    pub code: KeyCode,
    pub modifiers: u8,
    pub kind: KeyEventKind,
}

/// What a key event asks for.
#[derive(Clone, Copy, Debug, PartialEq, Eq, Structural)]
pub enum KeyAction {
    /// To leave the desk.
    Quit,
    /// Nothing.
    Ignore,
    /// To select the fader above.
    Up,
    /// To select the fader below.
    Down,
    /// To move the selected fader up by one step.
    Raise,
    /// To move the selected fader down by one step.
    Lower,
    /// To move the selected fader to zero.
    Off,
    /// To move the selected fader to one.
    Full,
}

/// Whether the control key is among the modifiers: the second bit.
pub open spec fn control_held(modifiers: u8) -> bool {
    modifiers / 2 % 2 == 1
}

/// `crossterm::event::KeyModifiers::contains`, asked for `CONTROL`: among modifiers
/// made from the given bits it finds the control key if the second bit is set.
#[verifier::external_body]
fn holds_control(modifiers: u8) -> (r: bool)
    ensures
        r == control_held(modifiers),
{
    crossterm::event::KeyModifiers::from_bits_retain(modifiers).contains(
        crossterm::event::KeyModifiers::CONTROL,
    )
}

/// What a key does when it is pressed.
pub open spec fn key_binding(code: KeyCode) -> KeyAction {
    match code {
        KeyCode::Esc => KeyAction::Quit,
        KeyCode::Up => KeyAction::Up,
        KeyCode::Down => KeyAction::Down,
        KeyCode::Right => KeyAction::Raise,
        KeyCode::Left => KeyAction::Lower,
        KeyCode::Char(c) => {
            if c == 'q' {
                KeyAction::Quit
            } else if c == 'k' {
                KeyAction::Up
            } else if c == 'j' {
                KeyAction::Down
            } else if c == 'l' {
                KeyAction::Raise
            } else if c == 'h' {
                KeyAction::Lower
            } else if c == '0' {
                KeyAction::Off
            } else if c == '1' {
                KeyAction::Full
            } else {
                KeyAction::Ignore
            }
        },
        KeyCode::Other => KeyAction::Ignore,
    }
}

/// What a key event asks for. Only presses count. Control and `c` leave the desk;
/// otherwise modifiers change nothing.
pub open spec fn action_of(key: KeyEvent) -> KeyAction {
    if key.kind != KeyEventKind::Press {
        KeyAction::Ignore
    } else if key.code == KeyCode::Char('c') && control_held(key.modifiers) {
        KeyAction::Quit
    } else {
        key_binding(key.code)
    }
}

/// What a key event asks for.
pub fn key_action(key: KeyEvent) -> (action: KeyAction)
    ensures
        action == action_of(key),
{
    if key.kind != KeyEventKind::Press {
        return KeyAction::Ignore;
    }
    if key.code == KeyCode::Char('c') && holds_control(key.modifiers) {
        return KeyAction::Quit;
    }
    match key.code {
        KeyCode::Char('q') | KeyCode::Esc => KeyAction::Quit,
        KeyCode::Up | KeyCode::Char('k') => KeyAction::Up,
        KeyCode::Down | KeyCode::Char('j') => KeyAction::Down,
        KeyCode::Right | KeyCode::Char('l') => KeyAction::Raise,
        KeyCode::Left | KeyCode::Char('h') => KeyAction::Lower,
        KeyCode::Char('0') => KeyAction::Off,
        KeyCode::Char('1') => KeyAction::Full,
        _ => KeyAction::Ignore,
    }
}

/// What each key does, and that no other key does anything.
pub proof fn law_keys(key: KeyEvent)
    ensures
        ({
            let action: KeyAction = action_of(key);
            let code: KeyCode = key.code;
            let pressed: bool = key.kind == KeyEventKind::Press;
            &&& action == KeyAction::Quit <==> pressed && (code == KeyCode::Esc || code
                == KeyCode::Char('q') || (code == KeyCode::Char('c') && key.modifiers / 2 % 2
                == 1))
            &&& action == KeyAction::Up <==> pressed && (code == KeyCode::Up || code
                == KeyCode::Char('k'))
            &&& action == KeyAction::Down <==> pressed && (code == KeyCode::Down || code
                == KeyCode::Char('j'))
            &&& action == KeyAction::Raise <==> pressed && (code == KeyCode::Right || code
                == KeyCode::Char('l'))
            &&& action == KeyAction::Lower <==> pressed && (code == KeyCode::Left || code
                == KeyCode::Char('h'))
            &&& action == KeyAction::Off <==> pressed && code == KeyCode::Char('0')
            &&& action == KeyAction::Full <==> pressed && code == KeyCode::Char('1')
        }),
{
}

} // verus!
