//! The session: one object owning navigation and playback, driven by a
//! fixed command set.
//!
//! Each command application mutates the session into its next consistent
//! state and hands back the one outside action the driver must perform:
//! start, pause, resume or stop the audio output, re-list the directory, or
//! quit. The driver performs the action and reports listing results through
//! `apply_listing` and playback failures through `play_failed`.

use vstd::prelude::*;

use crate::entry::{Entry, EntryKind, copy_bytes};
use crate::nav::{NavigationState, EnterOutcome, next_index, prev_index, spec_parent, all_wf};
use crate::ordering::{OrderingMode, ordering_post, views};
use crate::playback::{PlaybackController, PlayState, first_audio, advance_start};

verus! {

/// One key press, as the driver maps it from the raw event.
#[derive(Clone, Copy, PartialEq, Eq, Structural, Debug)]
pub enum Command {
    Quit,
    ToggleShuffle,
    Stop,
    SelectNext,
    SelectPrevious,
    LeaveDirectory,
    Activate,
    PauseOrResume,
}

/// What the driver must do after a command: at most one outside effect.
pub enum Action {
    Nothing,
    Quit,
    StartAudio(Vec<u8>),
    PauseAudio,
    ResumeAudio,
    StopAudio,
    Relist,
}

/// The other ordering mode.
pub open spec fn other_mode(m: OrderingMode) -> OrderingMode {
    match m {
        OrderingMode::Sorted => OrderingMode::Shuffled,
        OrderingMode::Shuffled => OrderingMode::Sorted,
    }
}

/// The session: the navigation state and the playback controller, owned
/// together for the process lifetime.
pub struct Session {
    pub nav: NavigationState,
    pub playback: PlaybackController,
}

impl Session {
    pub open spec fn wf(self) -> bool {
        self.nav.wf() && self.playback.wf()
    }

    /// A fresh session browsing `start_path`, sorted, with nothing playing.
    pub fn new(start_path: Vec<u8>) -> (s: Self)
        requires
            start_path@.len() > 0,
            start_path@[0] == crate::entry::SLASH,
        ensures
            s.wf(),
            s.nav.current_path@ == start_path@,
            s.nav.entries@.len() == 0,
            s.nav.mode == OrderingMode::Sorted,
            s.playback.state == PlayState::Idle,
            s.playback.playing_path() is None,
    {
        Session {
            nav: NavigationState::new(start_path, OrderingMode::Sorted),
            playback: PlaybackController::new(),
        }
    }

    /// Feeds the session a fresh directory listing (the driver lists the
    /// current path); the listing is ordered and the cursor reset to the top.
    pub fn apply_listing(&mut self, listing: Vec<Entry>)
        requires
            old(self).wf(),
            all_wf(views(listing@)),
        ensures
            final(self).wf(),
            final(self).playback == old(self).playback,
            ordering_post(views(listing@), views(final(self).nav.entries@), old(self).nav.mode),
            final(self).nav.selected == if listing@.len() > 0 {
                Some(0usize)
            } else {
                None::<usize>
            },
            final(self).nav.current_path == old(self).nav.current_path,
            final(self).nav.mode == old(self).nav.mode,
    {
        self.nav.apply_listing(listing);
    }

    /// The driver could not start the audio it was handed: playback returns
    /// to idle, and the session carries on.
    pub fn play_failed(&mut self)
        requires
            old(self).wf(),
        ensures
            final(self).wf(),
            final(self).nav == old(self).nav,
            final(self).playback.state == PlayState::Idle,
            final(self).playback.playing_path() is None,
    {
        self.playback.play_failed();
    }

    /// The driver saw the audio output go idle while a track was loaded: the
    /// session advances to the next audio entry, cyclically, or stops.
    /// Returns the path the driver must feed to the audio output, if any.
    pub fn on_track_ended(&mut self) -> (r: Option<Vec<u8>>)
        requires
            old(self).wf(),
        ensures
            final(self).wf(),
            final(self).nav == old(self).nav,
            match first_audio(
                views(old(self).nav.entries@),
                advance_start(old(self).playback.playing_path(), views(old(self).nav.entries@)),
                old(self).nav.entries@.len() as nat,
            ) {
                Some(i) => {
                    &&& final(self).playback.state == PlayState::Playing
                    &&& final(self).playback.playing_path()
                        == Some(views(old(self).nav.entries@)[i].path)
                    &&& r matches Some(p) && p@ == views(old(self).nav.entries@)[i].path
                },
                None => {
                    &&& final(self).playback.state == PlayState::Idle
                    &&& final(self).playback.playing_path() is None
                    &&& r is None
                },
            },
    {
        self.playback.advance(&self.nav.entries)
    }

    /// Applies one command and returns the outside action it calls for.
    pub fn handle_command(&mut self, cmd: Command) -> (a: Action)
        requires
            old(self).wf(),
        ensures
            final(self).wf(),
            cmd == Command::Quit ==> *final(self) == *old(self) && a is Quit,
            cmd == Command::ToggleShuffle ==> {
                &&& final(self).playback == old(self).playback
                &&& final(self).nav.mode == other_mode(old(self).nav.mode)
                &&& final(self).nav.current_path == old(self).nav.current_path
                &&& ordering_post(views(old(self).nav.entries@), views(final(self).nav.entries@),
                    final(self).nav.mode)
                &&& final(self).nav.selected == if old(self).nav.entries@.len() > 0 {
                    Some(0usize)
                } else {
                    None::<usize>
                }
                &&& a is Nothing
            },
            cmd == Command::Stop ==> {
                &&& final(self).nav == old(self).nav
                &&& final(self).playback.state == PlayState::Idle
                &&& final(self).playback.playing_path() is None
                &&& a is StopAudio
            },
            cmd == Command::SelectNext ==> {
                &&& final(self).playback == old(self).playback
                &&& final(self).nav.entries == old(self).nav.entries
                &&& final(self).nav.current_path == old(self).nav.current_path
                &&& final(self).nav.mode == old(self).nav.mode
                &&& match old(self).nav.selected {
                    Some(i) => final(self).nav.selected == Some(
                        next_index(i as int, old(self).nav.entries@.len() as int) as usize,
                    ),
                    None => final(self).nav.selected is None,
                }
                &&& a is Nothing
            },
            cmd == Command::SelectPrevious ==> {
                &&& final(self).playback == old(self).playback
                &&& final(self).nav.entries == old(self).nav.entries
                &&& final(self).nav.current_path == old(self).nav.current_path
                &&& final(self).nav.mode == old(self).nav.mode
                &&& match old(self).nav.selected {
                    Some(i) => final(self).nav.selected == Some(
                        prev_index(i as int, old(self).nav.entries@.len() as int) as usize,
                    ),
                    None => final(self).nav.selected is None,
                }
                &&& a is Nothing
            },
            cmd == Command::LeaveDirectory ==> {
                &&& final(self).playback == old(self).playback
                &&& final(self).nav.entries == old(self).nav.entries
                &&& final(self).nav.selected == old(self).nav.selected
                &&& final(self).nav.mode == old(self).nav.mode
                &&& match spec_parent(old(self).nav.current_path@) {
                    Some(p) => final(self).nav.current_path@ == p && a is Relist,
                    None => *final(self) == *old(self) && a is Nothing,
                }
            },
            cmd == Command::Activate ==> match old(self).nav.selected {
                Some(i) => {
                    let e = views(old(self).nav.entries@)[i as int];
                    if e.kind == EntryKind::Directory {
                        &&& final(self).playback == old(self).playback
                        &&& final(self).nav.entries == old(self).nav.entries
                        &&& final(self).nav.selected == old(self).nav.selected
                        &&& final(self).nav.mode == old(self).nav.mode
                        &&& final(self).nav.current_path@ == e.path
                        &&& a is Relist
                    } else {
                        &&& final(self).nav == old(self).nav
                        &&& final(self).playback.state == PlayState::Playing
                        &&& final(self).playback.playing_path() == Some(e.path)
                        &&& a matches Action::StartAudio(p) && p@ == e.path
                    }
                },
                None => *final(self) == *old(self) && a is Nothing,
            },
            cmd == Command::PauseOrResume ==> {
                &&& final(self).nav == old(self).nav
                &&& match old(self).playback.state {
                    PlayState::Playing => final(self).playback.state == PlayState::Paused
                        && final(self).playback.playing_path() == old(self).playback.playing_path()
                        && a is PauseAudio,
                    PlayState::Paused => final(self).playback.state == PlayState::Playing
                        && final(self).playback.playing_path() == old(self).playback.playing_path()
                        && a is ResumeAudio,
                    PlayState::Idle => *final(self) == *old(self) && a is Nothing,
                }
            },
    {
        match cmd {
            Command::Quit => Action::Quit,
            Command::ToggleShuffle => {
                let new_mode = match self.nav.mode {
                    OrderingMode::Sorted => OrderingMode::Shuffled,
                    OrderingMode::Shuffled => OrderingMode::Sorted,
                };
                self.nav.set_ordering_mode(new_mode);
                Action::Nothing
            },
            Command::Stop => {
                self.playback.stop();
                Action::StopAudio
            },
            Command::SelectNext => {
                self.nav.select_next();
                Action::Nothing
            },
            Command::SelectPrevious => {
                self.nav.select_previous();
                Action::Nothing
            },
            Command::LeaveDirectory => {
                if self.nav.leave_to_parent() {
                    Action::Relist
                } else {
                    Action::Nothing
                }
            },
            Command::Activate => {
                match self.nav.enter_selected() {
                    EnterOutcome::EnteredDirectory => Action::Relist,
                    EnterOutcome::FileToPlay(path) => {
                        let handed = copy_bytes(&path);
                        self.playback.play(path);
                        Action::StartAudio(handed)
                    },
                    EnterOutcome::NoSelection => Action::Nothing,
                }
            },
            Command::PauseOrResume => {
                match self.playback.state {
                    PlayState::Playing => {
                        self.playback.pause();
                        Action::PauseAudio
                    },
                    PlayState::Paused => {
                        self.playback.resume();
                        Action::ResumeAudio
                    },
                    PlayState::Idle => Action::Nothing,
                }
            },
        }
    }
}

} // verus!
