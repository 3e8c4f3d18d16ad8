use light_mixer::binary32::Binary32;
use light_mixer::mixer::desk::{Desk, Reaction, MAX_VISIBLE};
use light_mixer::mixer::device::DeviceCommand;
use light_mixer::mixer::entry::UIEntry;
use light_mixer::mixer::keys::{key_action, KeyAction, KeyCode, KeyEvent, KeyEventKind};
use light_mixer::mixer::level::{adjusted, filled, step};

fn b(x: f32) -> Binary32 {
    Binary32::from_bits(x.to_bits())
}

fn press(code: KeyCode) -> KeyEvent {
    KeyEvent { code, modifiers: 0, kind: KeyEventKind::Press }
}

fn desk(emitters: usize) -> Desk {
    let mut entries = vec![UIEntry::Source {
        label: String::from("S0"),
        flux: Binary32::one(),
        source_index: 0,
    }];
    for i in 0..emitters {
        entries.push(UIEntry::Emitter {
            label: format!("F0S0E{}", i),
            flux: Binary32::zero(),
            spectrum: None,
            peak_nm: Binary32::zero(),
            color_name: "violet",
            handle_index: i,
            source_entry_index: 0,
        });
    }
    Desk::new(entries)
}

#[test]
fn keys_and_their_actions() {
    for (code, action) in [
        (KeyCode::Up, KeyAction::Up),
        (KeyCode::Char('k'), KeyAction::Up),
        (KeyCode::Down, KeyAction::Down),
        (KeyCode::Char('j'), KeyAction::Down),
        (KeyCode::Right, KeyAction::Raise),
        (KeyCode::Char('l'), KeyAction::Raise),
        (KeyCode::Left, KeyAction::Lower),
        (KeyCode::Char('h'), KeyAction::Lower),
        (KeyCode::Char('0'), KeyAction::Off),
        (KeyCode::Char('1'), KeyAction::Full),
        (KeyCode::Char('q'), KeyAction::Quit),
        (KeyCode::Esc, KeyAction::Quit),
        (KeyCode::Char('c'), KeyAction::Ignore),
        (KeyCode::Char('Q'), KeyAction::Ignore),
        (KeyCode::Other, KeyAction::Ignore),
    ] {
        assert_eq!(key_action(press(code)), action);
        for kind in [KeyEventKind::Release, KeyEventKind::Repeat] {
            assert_eq!(key_action(KeyEvent { code, modifiers: 0, kind }), KeyAction::Ignore);
        }
    }
}

#[test]
fn control_c_quits() {
    let control = crossterm::event::KeyModifiers::CONTROL.bits();
    let shift = crossterm::event::KeyModifiers::SHIFT.bits();
    let alt = crossterm::event::KeyModifiers::ALT.bits();
    for (modifiers, action) in [
        (control, KeyAction::Quit),
        (control | shift, KeyAction::Quit),
        (255, KeyAction::Quit),
        (shift, KeyAction::Ignore),
        (alt, KeyAction::Ignore),
        (shift | alt, KeyAction::Ignore),
        (253, KeyAction::Ignore),
    ] {
        let key = KeyEvent { code: KeyCode::Char('c'), modifiers, kind: KeyEventKind::Press };
        assert_eq!(key_action(key), action);
    }
    // With any other key the modifiers do not matter.
    let key = KeyEvent { code: KeyCode::Char('j'), modifiers: control, kind: KeyEventKind::Press };
    assert_eq!(key_action(key), KeyAction::Down);
}

#[test]
fn steps_are_those_of_floats() {
    assert_eq!(step(), b(0.05));
    let mut x = 0.0f32;
    let mut level = Binary32::zero();
    for _ in 0..30 {
        x = (x + 0.05).min(1.0);
        level = adjusted(level, KeyAction::Raise).unwrap();
        assert_eq!(level, b(x));
    }
    assert_eq!(level, Binary32::one());
    for _ in 0..30 {
        x = (x - 0.05).max(0.0);
        level = adjusted(level, KeyAction::Lower).unwrap();
        assert_eq!(level, b(x));
    }
    assert_eq!(level, Binary32::zero());
    assert_eq!(adjusted(level, KeyAction::Full), Some(Binary32::one()));
    assert_eq!(adjusted(Binary32::one(), KeyAction::Off), Some(Binary32::zero()));
    assert_eq!(adjusted(level, KeyAction::Up), None);
}

#[test]
fn bars_grow_with_their_faders() {
    assert_eq!(filled(Binary32::zero()), 0);
    assert_eq!(filled(Binary32::one()), 20);
    assert_eq!(filled(b(0.5)), 10);
    // A half goes up.
    assert_eq!(filled(b(0.125)), 3);
    for i in 0..=1000u32 {
        let x = i as f32 / 1000.0;
        assert_eq!(filled(b(x)), (x * 20.0).round() as usize);
    }
}

#[test]
fn only_the_selected_fader_moves() {
    let mut d = desk(2);
    assert_eq!(d.press(press(KeyCode::Down)), Reaction::Redraw(None));
    assert_eq!(
        d.press(press(KeyCode::Right)),
        Reaction::Redraw(Some(DeviceCommand::SetEmitter(0, b(0.05))))
    );
    assert_eq!(d.entries[0].flux(), Binary32::one());
    assert_eq!(d.entries[1].flux(), b(0.05));
    assert_eq!(d.entries[2].flux(), Binary32::zero());
    d.press(press(KeyCode::Up));
    assert_eq!(
        d.press(press(KeyCode::Char('0'))),
        Reaction::Redraw(Some(DeviceCommand::SetSource(0, Binary32::zero())))
    );
    assert_eq!(d.entries[1].flux(), b(0.05));
    assert_eq!(
        d.press(press(KeyCode::Char('1'))),
        Reaction::Redraw(Some(DeviceCommand::SetSource(0, Binary32::one())))
    );
    // A fader at its end is still reported.
    assert_eq!(
        d.press(press(KeyCode::Right)),
        Reaction::Redraw(Some(DeviceCommand::SetSource(0, Binary32::one())))
    );
}

#[test]
fn selection_stops_at_the_ends() {
    let mut d = desk(1);
    d.press(press(KeyCode::Up));
    assert_eq!(d.selected, 0);
    d.press(press(KeyCode::Down));
    d.press(press(KeyCode::Down));
    assert_eq!(d.selected, 1);
}

#[test]
fn desk_scrolls_to_the_selected_fader() {
    let mut d = desk(29);
    for i in 1..30usize {
        d.press(press(KeyCode::Char('j')));
        assert_eq!(d.selected, i);
        assert_eq!(d.scroll_offset, if i < MAX_VISIBLE { 0 } else { i + 1 - MAX_VISIBLE });
    }
    for i in (0..29usize).rev() {
        d.press(press(KeyCode::Char('k')));
        assert_eq!(d.selected, i);
        assert_eq!(d.scroll_offset, if i < 14 { i } else { 14 });
    }
}

#[test]
fn other_keys_leave_the_desk_alone() {
    let mut d = desk(3);
    assert_eq!(d.press(press(KeyCode::Other)), Reaction::Ignore);
    assert_eq!(d.press(press(KeyCode::Char('q'))), Reaction::Quit);
    assert_eq!(d, desk(3));
}

#[test]
fn up_undoes_down() {
    let mut d = desk(5);
    d.press(press(KeyCode::Down));
    d.press(press(KeyCode::Down));
    let selected = d.selected;
    d.press(press(KeyCode::Down));
    d.press(press(KeyCode::Up));
    assert_eq!(d.selected, selected);
    d.press(press(KeyCode::Up));
    d.press(press(KeyCode::Down));
    assert_eq!(d.selected, selected);
}
