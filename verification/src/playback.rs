//! Playback: the play/pause/stop state machine and the auto-advance scan.
//!
//! The controller owns the playback state and the path loaded into the audio
//! output. It never holds the listing: advancing to the next track takes the
//! current listing as an argument, so a directory change can never leave the
//! controller pointing into a stale listing.

use vstd::prelude::*;

use crate::entry::{Entry, EntryKind, EntryModel, bytes_eq, copy_bytes};
use crate::ordering::views;

verus! {

#[derive(Clone, Copy, PartialEq, Eq, Structural, Debug)]
pub enum PlayState {
    Idle,
    Playing,
    Paused,
}

/// The play/pause/stop state machine. A path is loaded exactly when the
/// state is not `Idle`.
pub struct PlaybackController {
    pub state: PlayState,
    pub now_playing: Option<Vec<u8>>,
}

/// The first index whose path equals `p`, if any.
pub open spec fn index_of_path(s: Seq<EntryModel>, p: Seq<u8>) -> Option<int>
    decreases s.len(),
{
    if s.len() == 0 {
        None
    } else if s[0].path == p {
        Some(0int)
    } else {
        match index_of_path(s.drop_first(), p) {
            Some(i) => Some(i + 1),
            None => None,
        }
    }
}

/// Brings a raw scan position of `start..=n` back into `0..n`.
pub open spec fn wrap_index(i: int, n: int) -> int {
    if i < n {
        i
    } else {
        i - n
    }
}

/// The first audio entry met when scanning `k` positions cyclically from
/// `start`: the position is wrapped into the listing, and the scan gives up
/// after `k` steps, so it visits every entry at most once when `k` is the
/// listing's length.
pub open spec fn first_audio(s: Seq<EntryModel>, start: int, k: nat) -> Option<int>
    recommends
        0 <= start <= s.len(),
        k <= s.len(),
    decreases k,
{
    if k == 0 {
        None
    } else {
        let i = wrap_index(start, s.len() as int);
        if s[i].kind == EntryKind::AudioFile {
            Some(i)
        } else {
            first_audio(s, i + 1, (k - 1) as nat)
        }
    }
}

/// Where the auto-advance scan starts: just past the entry that was playing,
/// or at the top when nothing was playing or the entry is gone from the
/// listing.
pub open spec fn advance_start(np: Option<Seq<u8>>, s: Seq<EntryModel>) -> int {
    match np {
        Some(p) => match index_of_path(s, p) {
            Some(i) => i + 1,
            None => 0,
        },
        None => 0,
    }
}

/// Law: a listing without a single audio entry makes the cyclic scan give
/// up after one full pass, whatever the starting point.
pub proof fn lemma_no_audio_scan_gives_up(s: Seq<EntryModel>, start: int, k: nat)
    requires
        0 <= start <= s.len(),
        k <= s.len(),
        forall|i: int| 0 <= i < s.len() ==> #[trigger] s[i].kind != EntryKind::AudioFile,
    ensures
        first_audio(s, start, k) is None,
    decreases k,
{
    if k > 0 {
        lemma_no_audio_scan_gives_up(s, wrap_index(start, s.len() as int) + 1, (k - 1) as nat);
    }
}

proof fn lemma_index_of_path_found(s: Seq<EntryModel>, p: Seq<u8>, i: int)
    requires
        0 <= i < s.len(),
        s[i].path == p,
        forall|k: int| 0 <= k < i ==> (#[trigger] s[k]).path != p,
    ensures
        index_of_path(s, p) == Some(i),
    decreases i,
{
    if i > 0 {
        lemma_index_of_path_found(s.drop_first(), p, i - 1);
    }
}

proof fn lemma_index_of_path_none(s: Seq<EntryModel>, p: Seq<u8>)
    requires
        forall|k: int| 0 <= k < s.len() ==> (#[trigger] s[k]).path != p,
    ensures
        index_of_path(s, p) is None,
    decreases s.len(),
{
    if s.len() > 0 {
        lemma_index_of_path_none(s.drop_first(), p);
    }
}

/// The first index of `entries` whose path equals `p`.
fn find_path(entries: &Vec<Entry>, p: &Vec<u8>) -> (r: Option<usize>)
    ensures
        match r {
            Some(i) => i < entries@.len() && index_of_path(views(entries@), p@) == Some(i as int),
            None => index_of_path(views(entries@), p@) is None,
        },
{
    let mut i: usize = 0;
    while i < entries.len()
        invariant
            i <= entries@.len(),
            forall|k: int| 0 <= k < i ==> (#[trigger] views(entries@)[k]).path != p@,
        decreases entries@.len() - i,
    {
        if bytes_eq(&entries[i].path, p) {
            proof {
                lemma_index_of_path_found(views(entries@), p@, i as int);
            }
            return Some(i);
        }
        i = i + 1;
    }
    proof {
        lemma_index_of_path_none(views(entries@), p@);
    }
    None
}

impl PlaybackController {
    /// What is loaded, as a mathematical value.
    pub open spec fn playing_path(self) -> Option<Seq<u8>> {
        match self.now_playing {
            Some(p) => Some(p@),
            None => None,
        }
    }

    /// The controller invariant: a path is loaded iff not idle.
    pub open spec fn wf(self) -> bool {
        self.now_playing is Some <==> self.state != PlayState::Idle
    }

    pub fn new() -> (c: Self)
        ensures
            c.wf(),
            c.state == PlayState::Idle,
            c.playing_path() is None,
    {
        PlaybackController { state: PlayState::Idle, now_playing: None }
    }

    /// Starts playing `path`: from any state the controller moves to
    /// `Playing` with `path` loaded. The caller feeds the path to the audio
    /// output and reports a failure through `play_failed`.
    pub fn play(&mut self, path: Vec<u8>)
        ensures
            final(self).wf(),
            final(self).state == PlayState::Playing,
            final(self).playing_path() == Some(path@),
    {
        self.now_playing = Some(path);
        self.state = PlayState::Playing;
    }

    /// The audio output refused the loaded file: back to `Idle`, so one bad
    /// file never wedges the session.
    pub fn play_failed(&mut self)
        ensures
            final(self).wf(),
            final(self).state == PlayState::Idle,
            final(self).playing_path() is None,
    {
        self.now_playing = None;
        self.state = PlayState::Idle;
    }

    /// Pauses while playing; in any other state a no-op.
    pub fn pause(&mut self)
        requires
            old(self).wf(),
        ensures
            final(self).wf(),
            old(self).state == PlayState::Playing ==> final(self).state == PlayState::Paused
                && final(self).playing_path() == old(self).playing_path(),
            old(self).state != PlayState::Playing ==> *final(self) == *old(self),
    {
        if matches!(self.state, PlayState::Playing) {
            self.state = PlayState::Paused;
        }
    }

    /// Resumes while paused; in any other state a no-op.
    pub fn resume(&mut self)
        requires
            old(self).wf(),
        ensures
            final(self).wf(),
            old(self).state == PlayState::Paused ==> final(self).state == PlayState::Playing
                && final(self).playing_path() == old(self).playing_path(),
            old(self).state != PlayState::Paused ==> *final(self) == *old(self),
    {
        if matches!(self.state, PlayState::Paused) {
            self.state = PlayState::Playing;
        }
    }

    /// Stops playback: from any state back to `Idle` with nothing loaded.
    pub fn stop(&mut self)
        ensures
            final(self).wf(),
            final(self).state == PlayState::Idle,
            final(self).playing_path() is None,
    {
        self.now_playing = None;
        self.state = PlayState::Idle;
    }

    /// The track ended: scan the current listing cyclically, starting just
    /// past the entry that was playing, for the next audio file — wrapping at
    /// most once, so a listing without audio entries ends the scan rather
    /// than looping. Plays the entry found, or stops.
    ///
    /// Returns the path the caller must feed to the audio output, if any.
    pub fn advance(&mut self, entries: &Vec<Entry>) -> (r: Option<Vec<u8>>)
        requires
            old(self).wf(),
        ensures
            final(self).wf(),
            match first_audio(
                views(entries@),
                advance_start(old(self).playing_path(), views(entries@)),
                entries@.len() as nat,
            ) {
                Some(i) => {
                    &&& final(self).state == PlayState::Playing
                    &&& final(self).playing_path() == Some(views(entries@)[i].path)
                    &&& r matches Some(p) && p@ == views(entries@)[i].path
                },
                None => {
                    &&& final(self).state == PlayState::Idle
                    &&& final(self).playing_path() is None
                    &&& r is None
                },
            },
    {
        let ghost v = views(entries@);
        let ghost np0 = old(self).playing_path();
        proof {
            assert(np0 == self.playing_path());
        }
        proof {
            broadcast use vstd::std_specs::vec::axiom_spec_len;

            assert(entries.len() == entries@.len());
        }
        let start: usize = match &self.now_playing {
            Some(p) => match find_path(entries, p) {
                Some(i) => i + 1,
                None => 0,
            },
            None => 0,
        };
        let ghost start0 = advance_start(np0, v);
        proof {
            assert(start as int == start0);
        }
        match scan_next_audio(entries, start) {
            Some(i) => {
                let path = copy_bytes(&entries[i].path);
                let loaded = copy_bytes(&path);
                self.now_playing = Some(loaded);
                self.state = PlayState::Playing;
                proof {
                    assert(v[i as int].path == entries@[i as int]@.path);
                }
                Some(path)
            },
            None => {
                self.now_playing = None;
                self.state = PlayState::Idle;
                None
            },
        }
    }
}

/// One cyclic pass over the listing, starting at `start`, for the first
/// audio entry.
fn scan_next_audio(entries: &Vec<Entry>, start: usize) -> (r: Option<usize>)
    requires
        start <= entries@.len(),
    ensures
        match r {
            Some(i) => i < entries@.len() && first_audio(
                views(entries@),
                start as int,
                entries@.len() as nat,
            ) == Some(i as int),
            None => first_audio(views(entries@), start as int, entries@.len() as nat) is None,
        },
{
    let ghost v = views(entries@);
    let n = entries.len();
    let mut pos: usize = start;
    let mut k: usize = n;
    while k > 0
        invariant
            pos <= n,
            k <= n,
            n == entries@.len(),
            v == views(entries@),
            first_audio(v, start as int, n as nat) == first_audio(v, pos as int, k as nat),
        decreases k,
    {
        let i = if pos == n {
            0
        } else {
            pos
        };
        proof {
            assert(i as int == wrap_index(pos as int, n as int));
        }
        if entries[i].is_audio() {
            proof {
                assert(first_audio(v, pos as int, k as nat) == Some(i as int));
            }
            return Some(i);
        }
        pos = i + 1;
        k = k - 1;
    }
    None
}

} // verus!
