use music_browser::entry::{Entry, EntryKind};
use music_browser::ordering::{order, OrderingMode};

fn entry(path: &str, is_dir: bool) -> Entry {
    Entry::new(path.as_bytes().to_vec(), is_dir)
}

fn paths(entries: &[Entry]) -> Vec<String> {
    entries.iter().map(|e| String::from_utf8(e.path.clone()).unwrap()).collect()
}

#[test]
fn classification_recognizes_audio_extensions() {
    assert_eq!(entry("/m/song.mp3", false).kind, EntryKind::AudioFile);
    assert_eq!(entry("/m/song.flac", false).kind, EntryKind::AudioFile);
    assert_eq!(entry("/m/song.wav", false).kind, EntryKind::OtherFile);
    assert_eq!(entry("/m/noext", false).kind, EntryKind::OtherFile);
    assert_eq!(entry("/m/anything.mp3", true).kind, EntryKind::Directory);
}

#[test]
fn classification_is_case_sensitive() {
    assert_eq!(entry("/m/song.MP3", false).kind, EntryKind::OtherFile);
    assert_eq!(entry("/m/song.FLAC", false).kind, EntryKind::OtherFile);
}

#[test]
fn classification_ignores_leading_dot_names() {
    // A hidden file whose only dot leads has no extension.
    assert_eq!(entry("/m/.mp3", false).kind, EntryKind::OtherFile);
    // A dot in the directory part is not an extension either.
    assert_eq!(entry("/m.mp3/readme", false).kind, EntryKind::OtherFile);
}

#[test]
fn sorted_order_puts_directories_first_then_names() {
    let listing = vec![
        entry("/m/b.mp3", false),
        entry("/m/a.flac", false),
        entry("/m/zeta", true),
        entry("/m/alpha", true),
        entry("/m/c.txt", false),
    ];
    let out = order(listing, OrderingMode::Sorted);
    assert_eq!(
        paths(&out),
        vec!["/m/alpha", "/m/zeta", "/m/a.flac", "/m/b.mp3", "/m/c.txt"]
    );
}

#[test]
fn sorted_order_of_empty_listing_is_empty() {
    let out = order(Vec::new(), OrderingMode::Sorted);
    assert!(out.is_empty());
}

#[test]
fn shuffled_order_of_empty_listing_is_empty() {
    let out = order(Vec::new(), OrderingMode::Shuffled);
    assert!(out.is_empty());
}

#[test]
fn trailing_dot_gives_an_empty_extension() {
    assert_eq!(entry("/m/song.", false).kind, EntryKind::OtherFile);
}

#[test]
fn sorted_ordering_is_deterministic() {
    let make = || {
        vec![
            entry("/m/b.mp3", false),
            entry("/m/sub", true),
            entry("/m/a.flac", false),
        ]
    };
    let once = order(make(), OrderingMode::Sorted);
    let twice = order(once.iter().map(|e| Entry::new(e.path.clone(), e.kind == EntryKind::Directory)).collect(), OrderingMode::Sorted);
    assert_eq!(paths(&once), paths(&twice));
    assert_eq!(paths(&once), order(make(), OrderingMode::Sorted).iter().map(|e| String::from_utf8(e.path.clone()).unwrap()).collect::<Vec<_>>());
}

#[test]
fn shuffled_order_is_permutation_with_same_directory_prefix() {
    let listing = vec![
        entry("/m/b.mp3", false),
        entry("/m/a.flac", false),
        entry("/m/zeta", true),
        entry("/m/alpha", true),
        entry("/m/c.txt", false),
        entry("/m/d.mp3", false),
    ];
    let sorted = order(
        listing.iter().map(|e| Entry::new(e.path.clone(), e.kind == EntryKind::Directory)).collect(),
        OrderingMode::Sorted,
    );
    let shuffled = order(listing, OrderingMode::Shuffled);
    assert_eq!(shuffled.len(), sorted.len());
    // The directory prefix is identical.
    assert_eq!(paths(&shuffled)[..2], paths(&sorted)[..2]);
    // The file suffix holds the same files, in some order.
    let mut sorted_files = paths(&sorted)[2..].to_vec();
    let mut shuffled_files = paths(&shuffled)[2..].to_vec();
    sorted_files.sort();
    shuffled_files.sort();
    assert_eq!(sorted_files, shuffled_files);
    for e in &shuffled[2..] {
        assert_ne!(e.kind, EntryKind::Directory);
    }
}
