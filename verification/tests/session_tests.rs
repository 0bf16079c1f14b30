use music_browser::entry::Entry;
use music_browser::ordering::OrderingMode;
use music_browser::playback::PlayState;
use music_browser::session::{Action, Command, Session};

fn entry(path: &str, is_dir: bool) -> Entry {
    Entry::new(path.as_bytes().to_vec(), is_dir)
}

#[test]
fn end_to_end_sorted_browse_and_play() {
    // Directory /music contains b.mp3, a.flac and sub/; sorted mode yields
    // [sub, a.flac, b.mp3]; activating index 1 starts a.flac.
    let mut session = Session::new(b"/music".to_vec());
    session.apply_listing(vec![
        entry("/music/b.mp3", false),
        entry("/music/a.flac", false),
        entry("/music/sub", true),
    ]);
    let shown: Vec<Vec<u8>> = session.nav.entries.iter().map(|e| e.path.clone()).collect();
    assert_eq!(
        shown,
        vec![b"/music/sub".to_vec(), b"/music/a.flac".to_vec(), b"/music/b.mp3".to_vec()]
    );
    assert_eq!(session.nav.selected, Some(0));

    session.handle_command(Command::SelectNext);
    assert_eq!(session.nav.selected, Some(1));

    let action = session.handle_command(Command::Activate);
    match action {
        Action::StartAudio(p) => assert_eq!(p, b"/music/a.flac".to_vec()),
        _ => panic!("activating a file must start audio"),
    }
    assert_eq!(session.playback.state, PlayState::Playing);
    assert_eq!(session.playback.now_playing, Some(b"/music/a.flac".to_vec()));
}

#[test]
fn activating_a_directory_changes_path_and_asks_for_a_listing() {
    let mut session = Session::new(b"/music".to_vec());
    session.apply_listing(vec![
        entry("/music/sub", true),
        entry("/music/a.mp3", false),
    ]);
    assert_eq!(session.nav.selected, Some(0));
    let action = session.handle_command(Command::Activate);
    assert!(matches!(action, Action::Relist));
    assert_eq!(session.nav.current_path, b"/music/sub".to_vec());
    assert_eq!(session.playback.state, PlayState::Idle);
}

#[test]
fn activate_with_empty_listing_does_nothing() {
    let mut session = Session::new(b"/music".to_vec());
    let action = session.handle_command(Command::Activate);
    assert!(matches!(action, Action::Nothing));
    assert_eq!(session.playback.state, PlayState::Idle);
}

#[test]
fn quit_command_reports_quit() {
    let mut session = Session::new(b"/music".to_vec());
    assert!(matches!(session.handle_command(Command::Quit), Action::Quit));
}

#[test]
fn stop_command_stops_playback() {
    let mut session = Session::new(b"/music".to_vec());
    session.apply_listing(vec![entry("/music/a.mp3", false)]);
    session.handle_command(Command::Activate);
    assert_eq!(session.playback.state, PlayState::Playing);
    let action = session.handle_command(Command::Stop);
    assert!(matches!(action, Action::StopAudio));
    assert_eq!(session.playback.state, PlayState::Idle);
    assert_eq!(session.playback.now_playing, None);
}

#[test]
fn pause_or_resume_toggles_only_while_loaded() {
    let mut session = Session::new(b"/music".to_vec());
    assert!(matches!(session.handle_command(Command::PauseOrResume), Action::Nothing));
    assert_eq!(session.playback.state, PlayState::Idle);

    session.apply_listing(vec![entry("/music/a.mp3", false)]);
    session.handle_command(Command::Activate);
    assert!(matches!(session.handle_command(Command::PauseOrResume), Action::PauseAudio));
    assert_eq!(session.playback.state, PlayState::Paused);
    assert!(matches!(session.handle_command(Command::PauseOrResume), Action::ResumeAudio));
    assert_eq!(session.playback.state, PlayState::Playing);
}

#[test]
fn toggle_shuffle_flips_mode_and_keeps_playback() {
    let mut session = Session::new(b"/music".to_vec());
    session.apply_listing(vec![
        entry("/music/a.mp3", false),
        entry("/music/b.mp3", false),
    ]);
    session.handle_command(Command::Activate);
    let action = session.handle_command(Command::ToggleShuffle);
    assert!(matches!(action, Action::Nothing));
    assert_eq!(session.nav.mode, OrderingMode::Shuffled);
    assert_eq!(session.nav.selected, Some(0));
    assert_eq!(session.playback.state, PlayState::Playing);
    let action = session.handle_command(Command::ToggleShuffle);
    assert!(matches!(action, Action::Nothing));
    assert_eq!(session.nav.mode, OrderingMode::Sorted);
}

#[test]
fn leave_directory_asks_for_a_listing_only_when_it_moved() {
    let mut session = Session::new(b"/music/sub".to_vec());
    let action = session.handle_command(Command::LeaveDirectory);
    assert!(matches!(action, Action::Relist));
    assert_eq!(session.nav.current_path, b"/music".to_vec());

    let mut at_root = Session::new(b"/".to_vec());
    let action = at_root.handle_command(Command::LeaveDirectory);
    assert!(matches!(action, Action::Nothing));
    assert_eq!(at_root.nav.current_path, b"/".to_vec());
}

#[test]
fn track_end_advances_to_next_audio_or_stops() {
    let mut session = Session::new(b"/music".to_vec());
    session.apply_listing(vec![
        entry("/music/a.mp3", false),
        entry("/music/b.mp3", false),
    ]);
    session.handle_command(Command::Activate);
    assert_eq!(session.playback.now_playing, Some(b"/music/a.mp3".to_vec()));

    let next = session.on_track_ended();
    assert_eq!(next, Some(b"/music/b.mp3".to_vec()));
    assert_eq!(session.playback.state, PlayState::Playing);

    // After b.mp3 the scan wraps back to a.mp3.
    let next = session.on_track_ended();
    assert_eq!(next, Some(b"/music/a.mp3".to_vec()));

    session.apply_listing(vec![entry("/music/sub", true)]);
    let next = session.on_track_ended();
    assert_eq!(next, None);
    assert_eq!(session.playback.state, PlayState::Idle);
}

#[test]
fn failed_playback_returns_to_idle_without_wedging() {
    let mut session = Session::new(b"/music".to_vec());
    session.apply_listing(vec![entry("/music/broken.mp3", false)]);
    session.handle_command(Command::Activate);
    assert_eq!(session.playback.state, PlayState::Playing);
    session.play_failed();
    assert_eq!(session.playback.state, PlayState::Idle);
    assert_eq!(session.playback.now_playing, None);

    // The session still reacts to commands afterwards.
    session.handle_command(Command::SelectNext);
    assert_eq!(session.nav.selected, Some(0));
}
