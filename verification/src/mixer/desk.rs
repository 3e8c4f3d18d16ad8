//! The state of the desk, and what key events do to it.

use vstd::prelude::*;

use crate::binary32::Binary32;
use crate::mixer::device::DeviceCommand;
use crate::mixer::entry::{in_unit, UIEntry};
use crate::mixer::keys::{action_of, key_action, KeyAction, KeyEvent};
use crate::mixer::level::{adjusted, law_level_stays_in_unit, level_after};

verus! {

/// The number of faders that are shown at once.
pub const MAX_VISIBLE: usize = 16;

/// The number of faders that are shown of `len`.
pub open spec fn visible_rows(len: nat) -> nat {
    if len < MAX_VISIBLE {
        len
    } else {
        MAX_VISIBLE as nat
    }
}

/// Whether every fader is from zero to one and every emitter follows the source
/// that it belongs to.
pub open spec fn entries_valid(entries: Seq<UIEntry>) -> bool {
    forall|n: int| 0 <= n < entries.len() ==> entry_valid(entries, n)
}

pub open spec fn entry_valid(entries: Seq<UIEntry>, n: int) -> bool {
    &&& in_unit(entries[n].level())
    &&& match entries[n] {
        UIEntry::Source { .. } => true,
        UIEntry::Emitter { source_entry_index, .. } => source_entry_index < n
            && entries[source_entry_index as int] is Source,
    }
}

/// The faders, the one that is selected, and the first one that is shown.
#[derive(Debug, PartialEq, Eq)]
pub struct Desk {
    pub entries: Vec<UIEntry>,
    pub selected: usize,
    pub scroll_offset: usize,
}

/// What the desk does after a key event.
#[derive(Clone, Copy, Debug, PartialEq, Eq, Structural)]
pub enum Reaction {
    /// It is left.
    Quit,
    /// Nothing.
    Ignore,
    /// It is drawn again, and the device is told, if a fader was moved.
    Redraw(Option<DeviceCommand>),
}

/// The fader that is selected after an action.
pub open spec fn selection_after(selected: int, len: nat, action: KeyAction) -> int {
    match action {
        KeyAction::Up => if selected > 0 {
            selected - 1
        } else {
            0
        },
        KeyAction::Down => if selected + 1 < len {
            selected + 1
        } else {
            len - 1
        },
        _ => selected,
    }
}

/// The first fader that is shown, moved no further than the selected one demands.
pub open spec fn scroll_after(scroll: int, selected: int, len: nat) -> int {
    if selected >= scroll + visible_rows(len) {
        selected + 1 - visible_rows(len)
    } else if selected < scroll {
        selected
    } else {
        scroll
    }
}

/// What tells the device of a fader.
pub open spec fn command_of(entry: UIEntry) -> DeviceCommand {
    match entry {
        UIEntry::Source { source_index, flux, .. } => DeviceCommand::SetSource(source_index, flux),
        UIEntry::Emitter { handle_index, flux, .. } => DeviceCommand::SetEmitter(
            handle_index,
            flux,
        ),
    }
}

/// What tells the device of a fader.
pub fn device_command(entry: &UIEntry) -> (command: DeviceCommand)
    ensures
        command == command_of(*entry),
{
    match entry {
        UIEntry::Source { source_index, flux, .. } => DeviceCommand::SetSource(
            *source_index,
            *flux,
        ),
        UIEntry::Emitter { handle_index, flux, .. } => DeviceCommand::SetEmitter(
            *handle_index,
            *flux,
        ),
    }
}

impl Desk {
    /// Whether a fader is selected and shown, no row is wasted below the last fader,
    /// and the faders are valid.
    pub open spec fn wf(self) -> bool {
        &&& self.selected < self.entries@.len()
        &&& self.scroll_offset <= self.selected
        &&& self.selected < self.scroll_offset + visible_rows(self.entries@.len())
        &&& self.scroll_offset + visible_rows(self.entries@.len()) <= self.entries@.len()
        &&& entries_valid(self.entries@)
    }

    /// The desk after an action: the selected fader has moved, and the desk has
    /// scrolled to it.
    pub open spec fn after(self, action: KeyAction) -> (Seq<UIEntry>, int, int) {
        let selected: int = selection_after(self.selected as int, self.entries@.len(), action);
        let entries: Seq<UIEntry> = match level_after(self.entries@[selected].level(), action) {
            Some(level) => self.entries@.update(selected, self.entries@[selected].at_level(level)),
            None => self.entries@,
        };
        (
            entries,
            selected,
            scroll_after(self.scroll_offset as int, selected, self.entries@.len()),
        )
    }

    /// A desk on which the first fader is selected.
    pub fn new(entries: Vec<UIEntry>) -> (desk: Desk)
        requires
            entries@.len() > 0,
            entries_valid(entries@),
        ensures
            desk.entries == entries,
            desk.selected == 0,
            desk.scroll_offset == 0,
            desk.wf(),
    {
        Desk { entries, selected: 0, scroll_offset: 0 }
    }

    /// Carries out a key event.
    pub fn press(&mut self, key: KeyEvent) -> (reaction: Reaction)
        requires
            old(self).wf(),
        ensures
            final(self).wf(),
            action_of(key) == KeyAction::Quit ==> *final(self) == *old(self) && reaction
                == Reaction::Quit,
            action_of(key) == KeyAction::Ignore ==> *final(self) == *old(self) && reaction
                == Reaction::Ignore,
            action_of(key) != KeyAction::Quit && action_of(key) != KeyAction::Ignore ==> {
                let (entries, selected, scroll): (Seq<UIEntry>, int, int) = old(self).after(
                    action_of(key),
                );
                &&& final(self).entries@ == entries
                &&& final(self).selected == selected
                &&& final(self).scroll_offset == scroll
                &&& reaction == Reaction::Redraw(
                    if level_after(entries[selected].level(), action_of(key)) is Some {
                        Some(command_of(entries[selected]))
                    } else {
                        None
                    },
                )
            },
    {
        let action: KeyAction = key_action(key);
        let len: usize = self.entries.len();
        match action {
            KeyAction::Quit => {
                return Reaction::Quit;
            },
            KeyAction::Ignore => {
                return Reaction::Ignore;
            },
            KeyAction::Up => {
                if self.selected > 0 {
                    self.selected = self.selected - 1;
                }
            },
            KeyAction::Down => {
                if self.selected + 1 < len {
                    self.selected = self.selected + 1;
                }
            },
            _ => {},
        }
        let selected: usize = self.selected;
        let mut command: Option<DeviceCommand> = None;
        match adjusted(self.entries[selected].flux(), action) {
            Some(level) => {
                proof {
                    assert(entry_valid(self.entries@, selected as int));
                    law_level_stays_in_unit(self.entries@[selected as int].level(), action);
                    lemma_entries_stay_valid(self.entries@, selected as int, level);
                }
                self.entries[selected].set_flux(level);
                command = Some(device_command(&self.entries[selected]));
            },
            None => {},
        }
        let rows: usize = if len < MAX_VISIBLE {
            len
        } else {
            MAX_VISIBLE
        };
        if selected >= self.scroll_offset + rows {
            self.scroll_offset = selected + 1 - rows;
        }
        if selected < self.scroll_offset {
            self.scroll_offset = selected;
        }
        Reaction::Redraw(command)
    }
}

/// Selecting the fader above undoes selecting the one below, and the other way round,
/// except at the ends of the list.
pub proof fn law_selection_is_undone(selected: int, len: nat)
    requires
        0 <= selected < len,
    ensures
        selected + 1 < len ==> selection_after(
            selection_after(selected, len, KeyAction::Down),
            len,
            KeyAction::Up,
        ) == selected,
        selected > 0 ==> selection_after(
            selection_after(selected, len, KeyAction::Up),
            len,
            KeyAction::Down,
        ) == selected,
{
}

/// An action moves no fader but the selected one, and changes nothing of that but its
/// flux.
pub proof fn law_only_selected_fader_moves(desk: Desk, action: KeyAction, n: int)
    requires
        desk.wf(),
        0 <= n < desk.entries@.len(),
    ensures
        desk.after(action).0.len() == desk.entries@.len(),
        n != desk.after(action).1 ==> desk.after(action).0[n] == desk.entries@[n],
        desk.after(action).0[n] == desk.entries@[n].at_level(desk.after(action).0[n].level()),
{
}

/// Once the desk has scrolled to the selected fader, it stays until another is selected.
pub proof fn law_scrolling_settles(scroll: int, selected: int, len: nat)
    requires
        0 <= selected < len,
    ensures
        ({
            let settled: int = scroll_after(scroll, selected, len);
            &&& settled <= selected < settled + visible_rows(len)
            &&& scroll_after(settled, selected, len) == settled
        }),
{
}

proof fn lemma_entries_stay_valid(entries: Seq<UIEntry>, i: int, level: Binary32)
    requires
        entries_valid(entries),
        0 <= i < entries.len(),
        in_unit(level),
    ensures
        entries_valid(entries.update(i, entries[i].at_level(level))),
{
    let after: Seq<UIEntry> = entries.update(i, entries[i].at_level(level));
    assert forall|n: int| 0 <= n < after.len() implies entry_valid(after, n) by {
        assert(entry_valid(entries, n));
    }
}

/// Up and down select the next fader in their direction, as long as there is one; nothing
/// else selects another.
pub proof fn law_selection_goes_one_by_one(selected: int, len: nat, action: KeyAction)
    requires
        0 <= selected < len,
    ensures
        ({
            let after: int = selection_after(selected, len, action);
            &&& 0 <= after < len
            &&& action == KeyAction::Up && selected > 0 ==> after == selected - 1
            &&& action == KeyAction::Down && selected < len - 1 ==> after == selected + 1
            &&& action != KeyAction::Up && action != KeyAction::Down ==> after == selected
            &&& action == KeyAction::Up && selected == 0 ==> after == 0
            &&& action == KeyAction::Down && selected == len - 1 ==> after == selected
        }),
{
}

/// The desk scrolls no further than it must: not at all if the selected fader is among the
/// sixteen that are shown, and otherwise until it is the first or the last of them.
pub proof fn law_scrolling_is_least(scroll: int, selected: int, len: nat)
    requires
        0 <= selected < len,
        0 <= scroll,
    ensures
        ({
            let rows: int = if len < 16 {
                len as int
            } else {
                16
            };
            let after: int = scroll_after(scroll, selected, len);
            &&& visible_rows(len) == rows
            &&& scroll <= selected < scroll + rows ==> after == scroll
            &&& selected < scroll ==> after == selected
            &&& selected >= scroll + rows ==> after + rows == selected + 1
        }),
{
}

/// The device is told of the fader by the number of its source or of its emitter, and of
/// its flux.
pub proof fn law_command_tells_the_fader(entry: UIEntry)
    ensures
        match (entry, command_of(entry)) {
            (
                UIEntry::Source { source_index, flux, .. },
                DeviceCommand::SetSource(source, told),
            ) => source == source_index && told == flux,
            (
                UIEntry::Emitter { handle_index, flux, .. },
                DeviceCommand::SetEmitter(handle, told),
            ) => handle == handle_index && told == flux,
            _ => false,
        },
{
}

/// An action moves the fader that is selected after it to the level that it asks for.
pub proof fn law_selected_fader_moves(desk: Desk, action: KeyAction)
    requires
        desk.wf(),
    ensures
        ({
            let (entries, selected, scroll): (Seq<UIEntry>, int, int) = desk.after(action);
            &&& selected == selection_after(desk.selected as int, desk.entries@.len(), action)
            &&& scroll == scroll_after(desk.scroll_offset as int, selected, desk.entries@.len())
            &&& action == KeyAction::Off ==> entries[selected].level().bits == 0
            &&& action == KeyAction::Full ==> entries[selected].level().bits == 0x3f80_0000
            &&& match level_after(desk.entries@[selected].level(), action) {
                Some(level) => entries[selected].level() == level,
                None => entries == desk.entries@,
            }
        }),
{
}

} // verus!
