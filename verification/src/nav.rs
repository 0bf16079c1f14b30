//! Navigation: the browsed directory, the ordered listing, and the selection
//! cursor.
//!
//! The listing and the cursor are only ever replaced together, so the cursor
//! can never point outside the listing: whenever the listing is non-empty the
//! cursor sits on a valid index, and it is absent exactly when the listing is
//! empty.

use vstd::prelude::*;

use crate::entry::{Entry, EntryModel, bytes_prefix, model_wf, last_index_of, SLASH};
use crate::ordering::{OrderingMode, order, ordering_post, views};

verus! {

broadcast use {vstd::seq_lib::group_to_multiset_ensures, vstd::multiset::group_multiset_axioms};

/// The cursor position after one step forward, wrapping at the end.
pub open spec fn next_index(i: int, n: int) -> int {
    if i + 1 < n {
        i + 1
    } else {
        0
    }
}

/// The cursor position after one step backward, wrapping at the front.
pub open spec fn prev_index(i: int, n: int) -> int {
    if i == 0 {
        n - 1
    } else {
        i - 1
    }
}

/// The parent directory of a path: the bytes before the last separator,
/// or the root alone when the last separator leads. A path without a
/// separator, or the root itself, has no parent.
pub open spec fn spec_parent(path: Seq<u8>) -> Option<Seq<u8>> {
    let ls = last_index_of(path, SLASH);
    if ls > 0 {
        Some(path.take(ls))
    } else if ls == 0 && path.len() > 1 {
        Some(path.take(1))
    } else {
        None
    }
}

/// A listed entry carries an absolute path, and its kind is consistent
/// with that path.
pub open spec fn listed_wf(m: EntryModel) -> bool {
    &&& model_wf(m)
    &&& m.path.len() > 0
    &&& m.path[0] == SLASH
}

/// Every entry of a listing is well-formed.
pub open spec fn all_wf(s: Seq<EntryModel>) -> bool {
    forall|i: int| 0 <= i < s.len() ==> listed_wf(#[trigger] s[i])
}

/// Well-formedness survives any permutation of the listing.
proof fn lemma_all_wf_permuted(a: Seq<EntryModel>, b: Seq<EntryModel>)
    requires
        a.to_multiset() == b.to_multiset(),
        all_wf(a),
    ensures
        all_wf(b),
{
    assert forall|i: int| 0 <= i < b.len() implies listed_wf(#[trigger] b[i]) by {
        assert(b.contains(b[i]));
        assert(a.to_multiset().count(b[i]) > 0);
        assert(a.contains(b[i]));
        let j = choose|j: int| 0 <= j < a.len() && a[j] == b[i];
        assert(listed_wf(a[j]));
    }
}

/// What activating the selected entry means: navigation reports the intent
/// and leaves playback to its caller.
pub enum EnterOutcome {
    NoSelection,
    EnteredDirectory,
    FileToPlay(Vec<u8>),
}

/// The browsed directory, its ordered listing, and the selection cursor.
pub struct NavigationState {
    pub current_path: Vec<u8>,
    pub entries: Vec<Entry>,
    pub selected: Option<usize>,
    pub mode: OrderingMode,
}

impl NavigationState {
    /// The navigation invariant: the path is absolute, the cursor is present
    /// exactly when the listing is non-empty and then stays in bounds, and
    /// every entry's kind fits its path.
    pub open spec fn wf(self) -> bool {
        &&& self.current_path@.len() > 0
        &&& self.current_path@[0] == SLASH
        &&& match self.selected {
            Some(i) => self.entries@.len() > 0 && i < self.entries@.len(),
            None => self.entries@.len() == 0,
        }
        &&& all_wf(views(self.entries@))
    }

    /// Starts browsing at `start_path` with an empty listing; the first
    /// listing arrives through `apply_listing`.
    pub fn new(start_path: Vec<u8>, mode: OrderingMode) -> (s: Self)
        requires
            start_path@.len() > 0,
            start_path@[0] == SLASH,
        ensures
            s.wf(),
            s.current_path@ == start_path@,
            s.entries@.len() == 0,
            s.selected is None,
            s.mode == mode,
    {
        NavigationState { current_path: start_path, entries: Vec::new(), selected: None, mode }
    }

    /// Replaces the listing with a fresh one, ordered in the current mode,
    /// and resets the cursor to the top: the listing and the cursor always
    /// change together.
    pub fn apply_listing(&mut self, listing: Vec<Entry>)
        requires
            old(self).wf(),
            all_wf(views(listing@)),
        ensures
            final(self).wf(),
            ordering_post(views(listing@), views(final(self).entries@), old(self).mode),
            final(self).selected == if listing@.len() > 0 { Some(0usize) } else { None::<usize> },
            final(self).current_path == old(self).current_path,
            final(self).mode == old(self).mode,
    {
        let ghost inp = views(listing@);
        self.entries = order(listing, self.mode);
        if self.entries.len() > 0 {
            self.selected = Some(0);
        } else {
            self.selected = None;
        }
        proof {
            assert(views(self.entries@).to_multiset().len() == inp.to_multiset().len());
            lemma_all_wf_permuted(inp, views(self.entries@));
        }
    }

    /// Re-orders the existing listing in the given mode and resets the
    /// cursor to the top; no re-listing happens.
    pub fn set_ordering_mode(&mut self, mode: OrderingMode)
        requires
            old(self).wf(),
        ensures
            final(self).wf(),
            final(self).mode == mode,
            ordering_post(views(old(self).entries@), views(final(self).entries@), mode),
            final(self).selected == if old(self).entries@.len() > 0 {
                Some(0usize)
            } else {
                None::<usize>
            },
            final(self).current_path == old(self).current_path,
    {
        let ghost inp = views(self.entries@);
        self.mode = mode;
        let mut taken: Vec<Entry> = Vec::new();
        core::mem::swap(&mut self.entries, &mut taken);
        self.entries = order(taken, mode);
        if self.entries.len() > 0 {
            self.selected = Some(0);
        } else {
            self.selected = None;
        }
        proof {
            assert(views(self.entries@).to_multiset().len() == inp.to_multiset().len());
            lemma_all_wf_permuted(inp, views(self.entries@));
        }
    }

    /// Moves the cursor one entry down, wrapping past the last entry to the
    /// top. Does nothing on an empty listing.
    pub fn select_next(&mut self)
        requires
            old(self).wf(),
        ensures
            final(self).wf(),
            final(self).entries == old(self).entries,
            final(self).current_path == old(self).current_path,
            final(self).mode == old(self).mode,
            match old(self).selected {
                Some(i) => final(self).selected == Some(
                    next_index(i as int, old(self).entries@.len() as int) as usize,
                ),
                None => final(self).selected is None,
            },
    {
        if self.entries.len() == 0 {
            return;
        }
        let i = match self.selected {
            Some(i) => if i >= self.entries.len() - 1 {
                0
            } else {
                i + 1
            },
            None => 0,
        };
        self.selected = Some(i);
    }

    /// Moves the cursor one entry up, wrapping past the first entry to the
    /// bottom. Does nothing on an empty listing.
    pub fn select_previous(&mut self)
        requires
            old(self).wf(),
        ensures
            final(self).wf(),
            final(self).entries == old(self).entries,
            final(self).current_path == old(self).current_path,
            final(self).mode == old(self).mode,
            match old(self).selected {
                Some(i) => final(self).selected == Some(
                    prev_index(i as int, old(self).entries@.len() as int) as usize,
                ),
                None => final(self).selected is None,
            },
    {
        if self.entries.len() == 0 {
            return;
        }
        let i = match self.selected {
            Some(i) => if i == 0 {
                self.entries.len() - 1
            } else {
                i - 1
            },
            None => 0,
        };
        self.selected = Some(i);
    }

    /// Activates the selected entry. A directory becomes the current path
    /// (the caller re-lists it); a file's path is reported for playback —
    /// navigation itself never starts audio. Without a selection, a no-op.
    pub fn enter_selected(&mut self) -> (r: EnterOutcome)
        requires
            old(self).wf(),
        ensures
            final(self).wf(),
            final(self).entries == old(self).entries,
            final(self).selected == old(self).selected,
            final(self).mode == old(self).mode,
            match old(self).selected {
                Some(i) => {
                    let e = views(old(self).entries@)[i as int];
                    if e.kind == crate::entry::EntryKind::Directory {
                        final(self).current_path@ == e.path && r is EnteredDirectory
                    } else {
                        *final(self) == *old(self) && (r matches EnterOutcome::FileToPlay(p)
                            && p@ == e.path)
                    }
                },
                None => *final(self) == *old(self) && r is NoSelection,
            },
    {
        match self.selected {
            Some(i) => {
                if self.entries[i].is_dir() {
                    let target = crate::entry::copy_bytes(&self.entries[i].path);
                    self.current_path = target;
                    EnterOutcome::EnteredDirectory
                } else {
                    EnterOutcome::FileToPlay(crate::entry::copy_bytes(&self.entries[i].path))
                }
            },
            None => EnterOutcome::NoSelection,
        }
    }

    /// Moves to the parent directory, if there is one, and reports whether
    /// the path changed; the caller re-lists the new directory. At a root
    /// this is a no-op.
    pub fn leave_to_parent(&mut self) -> (changed: bool)
        requires
            old(self).wf(),
        ensures
            final(self).wf(),
            final(self).entries == old(self).entries,
            final(self).selected == old(self).selected,
            final(self).mode == old(self).mode,
            match spec_parent(old(self).current_path@) {
                Some(p) => changed && final(self).current_path@ == p,
                None => !changed && *final(self) == *old(self),
            },
    {
        proof {
            crate::entry::lemma_last_index_of_bounds(self.current_path@, SLASH);
        }
        match parent_path(&self.current_path) {
            Some(p) => {
                self.current_path = p;
                true
            },
            None => false,
        }
    }
}

/// The parent directory of a path, as an owned copy.
fn parent_path(path: &Vec<u8>) -> (r: Option<Vec<u8>>)
    ensures
        match r {
            Some(p) => spec_parent(path@) == Some(p@),
            None => spec_parent(path@) is None,
        },
{
    proof {
        assert(path@.skip(0) =~= path@);
    }
    let ls = crate::entry::rfind(path, SLASH);
    match ls {
        Some(j) => {
            if j > 0 {
                Some(bytes_prefix(path, j))
            } else if path.len() > 1 {
                Some(bytes_prefix(path, 1))
            } else {
                None
            }
        },
        None => None,
    }
}

/// Stepping forward `k` times from `i` through `n` entries.
pub open spec fn iterate_next(i: int, n: int, k: nat) -> int
    decreases k,
{
    if k == 0 {
        i
    } else {
        iterate_next(next_index(i, n), n, (k - 1) as nat)
    }
}

/// Stepping backward `k` times from `i` through `n` entries.
pub open spec fn iterate_prev(i: int, n: int, k: nat) -> int
    decreases k,
{
    if k == 0 {
        i
    } else {
        iterate_prev(prev_index(i, n), n, (k - 1) as nat)
    }
}

proof fn lemma_iterate_next_formula(i: int, n: int, k: nat)
    requires
        0 <= i < n,
        k <= n,
    ensures
        iterate_next(i, n, k) == if i + k < n { i + k } else { i + k - n },
    decreases k,
{
    if k > 0 {
        lemma_iterate_next_formula(next_index(i, n), n, (k - 1) as nat);
    }
}

proof fn lemma_iterate_prev_formula(i: int, n: int, k: nat)
    requires
        0 <= i < n,
        k <= n,
    ensures
        iterate_prev(i, n, k) == if i - k >= 0 { i - k } else { i - k + n },
    decreases k,
{
    if k > 0 {
        lemma_iterate_prev_formula(prev_index(i, n), n, (k - 1) as nat);
    }
}

/// Law: from any starting index, selecting the next entry once per entry of
/// the listing returns the cursor to where it started; likewise backward.
pub proof fn lemma_selection_wraps_around(i: int, n: int)
    requires
        0 <= i < n,
    ensures
        iterate_next(i, n, n as nat) == i,
        iterate_prev(i, n, n as nat) == i,
{
    lemma_iterate_next_formula(i, n, n as nat);
    lemma_iterate_prev_formula(i, n, n as nat);
}

} // verus!
