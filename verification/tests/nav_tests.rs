use music_browser::entry::Entry;
use music_browser::nav::{EnterOutcome, NavigationState};
use music_browser::ordering::OrderingMode;

fn entry(path: &str, is_dir: bool) -> Entry {
    Entry::new(path.as_bytes().to_vec(), is_dir)
}

fn listing() -> Vec<Entry> {
    vec![
        entry("/m/b.mp3", false),
        entry("/m/a.flac", false),
        entry("/m/sub", true),
    ]
}

#[test]
fn refresh_resets_selection_to_top() {
    let mut nav = NavigationState::new(b"/m".to_vec(), OrderingMode::Sorted);
    assert_eq!(nav.selected, None);
    nav.apply_listing(listing());
    assert_eq!(nav.selected, Some(0));
}

#[test]
fn refresh_with_empty_listing_clears_selection() {
    let mut nav = NavigationState::new(b"/m".to_vec(), OrderingMode::Sorted);
    nav.apply_listing(listing());
    nav.apply_listing(Vec::new());
    assert_eq!(nav.selected, None);
    assert!(nav.entries.is_empty());
}

#[test]
fn select_next_wraps_to_start_after_full_cycle() {
    let mut nav = NavigationState::new(b"/m".to_vec(), OrderingMode::Sorted);
    nav.apply_listing(listing());
    nav.select_next();
    let start = nav.selected;
    assert_eq!(start, Some(1));
    for _ in 0..3 {
        nav.select_next();
    }
    assert_eq!(nav.selected, start);
}

#[test]
fn select_previous_wraps_to_start_after_full_cycle() {
    let mut nav = NavigationState::new(b"/m".to_vec(), OrderingMode::Sorted);
    nav.apply_listing(listing());
    let start = nav.selected;
    for _ in 0..3 {
        nav.select_previous();
    }
    assert_eq!(nav.selected, start);
}

#[test]
fn select_previous_from_top_wraps_to_last() {
    let mut nav = NavigationState::new(b"/m".to_vec(), OrderingMode::Sorted);
    nav.apply_listing(listing());
    nav.select_previous();
    assert_eq!(nav.selected, Some(2));
}

#[test]
fn selection_is_noop_on_empty_listing() {
    let mut nav = NavigationState::new(b"/m".to_vec(), OrderingMode::Sorted);
    nav.select_next();
    assert_eq!(nav.selected, None);
    nav.select_previous();
    assert_eq!(nav.selected, None);
}

#[test]
fn leave_to_parent_walks_up_to_root_then_stops() {
    let mut nav = NavigationState::new(b"/home/user/Music".to_vec(), OrderingMode::Sorted);
    assert!(nav.leave_to_parent());
    assert_eq!(nav.current_path, b"/home/user".to_vec());
    assert!(nav.leave_to_parent());
    assert_eq!(nav.current_path, b"/home".to_vec());
    assert!(nav.leave_to_parent());
    assert_eq!(nav.current_path, b"/".to_vec());
    assert!(!nav.leave_to_parent());
    assert_eq!(nav.current_path, b"/".to_vec());
}

#[test]
fn enter_selected_reports_the_intent() {
    let mut nav = NavigationState::new(b"/m".to_vec(), OrderingMode::Sorted);
    match nav.enter_selected() {
        EnterOutcome::NoSelection => {}
        _ => panic!("no selection on an empty listing"),
    }

    nav.apply_listing(listing());
    // Sorted order puts the directory first.
    match nav.enter_selected() {
        EnterOutcome::EnteredDirectory => {}
        _ => panic!("the selected directory must be entered"),
    }
    assert_eq!(nav.current_path, b"/m/sub".to_vec());

    let mut nav = NavigationState::new(b"/m".to_vec(), OrderingMode::Sorted);
    nav.apply_listing(listing());
    nav.select_next();
    match nav.enter_selected() {
        EnterOutcome::FileToPlay(p) => assert_eq!(p, b"/m/a.flac".to_vec()),
        _ => panic!("the selected file must be reported for playback"),
    }
    assert_eq!(nav.current_path, b"/m".to_vec());
}

#[test]
fn toggling_mode_reorders_and_resets_selection() {
    let mut nav = NavigationState::new(b"/m".to_vec(), OrderingMode::Sorted);
    nav.apply_listing(listing());
    nav.select_next();
    nav.set_ordering_mode(OrderingMode::Shuffled);
    assert_eq!(nav.selected, Some(0));
    assert_eq!(nav.mode, OrderingMode::Shuffled);
    assert_eq!(nav.entries.len(), 3);
    // The directory still leads the listing.
    assert_eq!(nav.entries[0].path, b"/m/sub".to_vec());
}
