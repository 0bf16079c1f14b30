use music_browser::entry::Entry;
use music_browser::playback::{PlaybackController, PlayState};

fn entry(path: &str, is_dir: bool) -> Entry {
    Entry::new(path.as_bytes().to_vec(), is_dir)
}

#[test]
fn pause_while_idle_is_a_noop() {
    let mut pc = PlaybackController::new();
    pc.pause();
    assert_eq!(pc.state, PlayState::Idle);
    assert_eq!(pc.now_playing, None);
}

#[test]
fn resume_while_idle_is_a_noop() {
    let mut pc = PlaybackController::new();
    pc.resume();
    assert_eq!(pc.state, PlayState::Idle);
    assert_eq!(pc.now_playing, None);
}

#[test]
fn play_transitions_to_playing_from_any_state() {
    let mut pc = PlaybackController::new();
    pc.play(b"/m/a.mp3".to_vec());
    assert_eq!(pc.state, PlayState::Playing);
    assert_eq!(pc.now_playing, Some(b"/m/a.mp3".to_vec()));

    pc.play(b"/m/b.mp3".to_vec());
    assert_eq!(pc.state, PlayState::Playing);
    assert_eq!(pc.now_playing, Some(b"/m/b.mp3".to_vec()));

    pc.pause();
    assert_eq!(pc.state, PlayState::Paused);
    pc.play(b"/m/c.mp3".to_vec());
    assert_eq!(pc.state, PlayState::Playing);
    assert_eq!(pc.now_playing, Some(b"/m/c.mp3".to_vec()));
}

#[test]
fn pause_and_resume_toggle_while_loaded() {
    let mut pc = PlaybackController::new();
    pc.play(b"/m/a.mp3".to_vec());
    pc.pause();
    assert_eq!(pc.state, PlayState::Paused);
    assert_eq!(pc.now_playing, Some(b"/m/a.mp3".to_vec()));
    pc.resume();
    assert_eq!(pc.state, PlayState::Playing);
    assert_eq!(pc.now_playing, Some(b"/m/a.mp3".to_vec()));
}

#[test]
fn stop_returns_to_idle() {
    let mut pc = PlaybackController::new();
    pc.play(b"/m/a.mp3".to_vec());
    pc.stop();
    assert_eq!(pc.state, PlayState::Idle);
    assert_eq!(pc.now_playing, None);
}

#[test]
fn play_failed_returns_to_idle() {
    let mut pc = PlaybackController::new();
    pc.play(b"/m/bad.mp3".to_vec());
    pc.play_failed();
    assert_eq!(pc.state, PlayState::Idle);
    assert_eq!(pc.now_playing, None);
}

#[test]
fn advance_goes_idle_when_no_audio_entry_exists() {
    let mut pc = PlaybackController::new();
    pc.play(b"/m/gone.mp3".to_vec());
    let entries = vec![
        entry("/m/sub", true),
        entry("/m/readme.txt", false),
    ];
    let next = pc.advance(&entries);
    assert_eq!(next, None);
    assert_eq!(pc.state, PlayState::Idle);
    assert_eq!(pc.now_playing, None);
}

#[test]
fn advance_goes_idle_on_empty_listing() {
    let mut pc = PlaybackController::new();
    pc.play(b"/m/gone.mp3".to_vec());
    let next = pc.advance(&Vec::new());
    assert_eq!(next, None);
    assert_eq!(pc.state, PlayState::Idle);
}

#[test]
fn advance_wraps_once_past_non_audio_entries() {
    // Entries [A(audio), B(dir), C(audio)] with C playing: the scan wraps
    // past B to A at the front.
    let entries = vec![
        entry("/m/a.mp3", false),
        entry("/m/b", true),
        entry("/m/c.mp3", false),
    ];
    let mut pc = PlaybackController::new();
    pc.play(b"/m/c.mp3".to_vec());
    let next = pc.advance(&entries);
    assert_eq!(next, Some(b"/m/a.mp3".to_vec()));
    assert_eq!(pc.state, PlayState::Playing);
    assert_eq!(pc.now_playing, Some(b"/m/a.mp3".to_vec()));
}

#[test]
fn advance_starts_from_top_when_playing_entry_left_the_listing() {
    let entries = vec![
        entry("/m/b", true),
        entry("/m/a.mp3", false),
    ];
    let mut pc = PlaybackController::new();
    pc.play(b"/elsewhere/x.mp3".to_vec());
    let next = pc.advance(&entries);
    assert_eq!(next, Some(b"/m/a.mp3".to_vec()));
    assert_eq!(pc.state, PlayState::Playing);
}

#[test]
fn advance_moves_to_the_following_audio_entry() {
    let entries = vec![
        entry("/m/a.mp3", false),
        entry("/m/b.mp3", false),
        entry("/m/c.mp3", false),
    ];
    let mut pc = PlaybackController::new();
    pc.play(b"/m/a.mp3".to_vec());
    let next = pc.advance(&entries);
    assert_eq!(next, Some(b"/m/b.mp3".to_vec()));
}
