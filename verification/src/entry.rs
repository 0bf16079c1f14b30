//! Directory entries: a path (as bytes) with a derived kind.
//!
//! An entry is one child of the browsed directory. Its kind is `Directory`,
//! `AudioFile` (extension `mp3` or `flac`, case-sensitive) or `OtherFile`;
//! the file kinds are derived from the path's extension.

use vstd::prelude::*;

verus! {

/// The byte value of `/`, the path separator.
pub const SLASH: u8 = 47;

/// The byte value of `.`, which introduces an extension.
pub const DOT: u8 = 46;

#[derive(Clone, Copy, PartialEq, Eq, Structural, Debug)]
pub enum EntryKind {
    Directory,
    AudioFile,
    OtherFile,
}

/// The mathematical value of an [`Entry`]: its path bytes and its kind.
pub ghost struct EntryModel {
    pub path: Seq<u8>,
    pub kind: EntryKind,
}

/// One child of the browsed directory: an absolute path, as bytes,
/// with its derived kind.
pub struct Entry {
    pub path: Vec<u8>,
    pub kind: EntryKind,
}

impl View for Entry {
    type V = EntryModel;

    open spec fn view(&self) -> EntryModel {
        EntryModel { path: self.path@, kind: self.kind }
    }
}

/// The index of the last occurrence of `c` in `s`, or `-1` if `c` does not occur.
pub open spec fn last_index_of(s: Seq<u8>, c: u8) -> int
    decreases s.len(),
{
    if s.len() == 0 {
        -1
    } else if s[s.len() - 1] == c {
        s.len() - 1
    } else {
        last_index_of(s.drop_last(), c)
    }
}

pub proof fn lemma_last_index_of_bounds(s: Seq<u8>, c: u8)
    ensures
        -1 <= last_index_of(s, c) < s.len(),
    decreases s.len(),
{
    if s.len() > 0 && s[s.len() - 1] != c {
        lemma_last_index_of_bounds(s.drop_last(), c);
    }
}

/// The bytes of the extension `mp3`.
pub open spec fn mp3_ext() -> Seq<u8> {
    seq![109u8, 112u8, 51u8]
}

/// The bytes of the extension `flac`.
pub open spec fn flac_ext() -> Seq<u8> {
    seq![102u8, 108u8, 97u8, 99u8]
}

/// The extension of the final path component: the bytes after the last dot,
/// provided that dot is not the component's first byte. A name with no dot,
/// or a hidden file whose only dot leads, has no extension.
pub open spec fn spec_extension(path: Seq<u8>) -> Option<Seq<u8>> {
    let name = path.skip(last_index_of(path, SLASH) + 1);
    let d = last_index_of(name, DOT);
    if d > 0 {
        Some(name.skip(d + 1))
    } else {
        None
    }
}

/// Whether a file path carries a recognized audio extension.
pub open spec fn is_audio_path(path: Seq<u8>) -> bool {
    match spec_extension(path) {
        Some(e) => e == mp3_ext() || e == flac_ext(),
        None => false,
    }
}

/// The kind an entry with this path gets: directories as reported by the
/// lister, files split by their extension.
pub open spec fn spec_kind_of(path: Seq<u8>, is_dir: bool) -> EntryKind {
    if is_dir {
        EntryKind::Directory
    } else if is_audio_path(path) {
        EntryKind::AudioFile
    } else {
        EntryKind::OtherFile
    }
}

/// An entry's kind is never stale: file kinds follow from the path.
pub open spec fn model_wf(m: EntryModel) -> bool {
    m.kind == EntryKind::Directory || m.kind == spec_kind_of(m.path, false)
}

impl Entry {
    /// An entry's kind is never stale: file kinds follow from the path.
    pub open spec fn wf(self) -> bool {
        model_wf(self@)
    }

    /// Builds the entry for one listed child: the lister says whether it is a
    /// directory, the path's extension decides between the file kinds.
    pub fn new(path: Vec<u8>, is_dir: bool) -> (e: Entry)
        ensures
            e@.path == path@,
            e@.kind == spec_kind_of(path@, is_dir),
            e.wf(),
    {
        let kind = if is_dir {
            EntryKind::Directory
        } else if path_is_audio(&path) {
            EntryKind::AudioFile
        } else {
            EntryKind::OtherFile
        };
        Entry { path, kind }
    }

    pub fn is_dir(&self) -> (r: bool)
        ensures
            r == (self@.kind == EntryKind::Directory),
    {
        matches!(self.kind, EntryKind::Directory)
    }

    pub fn is_audio(&self) -> (r: bool)
        ensures
            r == (self@.kind == EntryKind::AudioFile),
    {
        matches!(self.kind, EntryKind::AudioFile)
    }
}

/// Index of the last occurrence of `c` in `s[start..]`, searching a suffix of
/// the byte string; the index returned counts from the front of `s`.
fn rfind_from(s: &Vec<u8>, start: usize, c: u8) -> (r: Option<usize>)
    requires
        start <= s.len(),
    ensures
        match r {
            Some(j) => start <= j < s.len() && last_index_of(s@.skip(start as int), c) == j - start,
            None => last_index_of(s@.skip(start as int), c) == -1,
        },
{
    let ghost suffix = s@.skip(start as int);
    let mut i: usize = s.len();
    while i > start
        invariant
            start <= i <= s.len(),
            suffix == s@.skip(start as int),
            last_index_of(suffix, c) == last_index_of(s@.subrange(start as int, i as int), c),
        decreases i,
    {
        proof {
            assert(s@.subrange(start as int, i as int).drop_last()
                =~= s@.subrange(start as int, i as int - 1));
        }
        if s[i - 1] == c {
            proof {
                assert(s@.subrange(start as int, i as int).last() == s@[i - 1]);
            }
            return Some(i - 1);
        }
        i = i - 1;
    }
    proof {
        assert(s@.subrange(start as int, start as int) =~= Seq::<u8>::empty());
    }
    None
}

/// Index of the last occurrence of `c` in `s`.
pub fn rfind(s: &Vec<u8>, c: u8) -> (r: Option<usize>)
    ensures
        match r {
            Some(j) => j < s.len() && last_index_of(s@, c) == j as int,
            None => last_index_of(s@, c) == -1,
        },
{
    proof {
        assert(s@.skip(0) =~= s@);
    }
    rfind_from(s, 0, c)
}

/// Whether `s[from..]` is exactly the bytes of `mp3`.
fn tail_is_mp3(s: &Vec<u8>, from: usize) -> (r: bool)
    requires
        from <= s.len(),
    ensures
        r == (s@.skip(from as int) == mp3_ext()),
{
    if s.len() - from == 3 && s[from] == 109 && s[from + 1] == 112 && s[from + 2] == 51 {
        proof {
            assert(s@.skip(from as int) =~= mp3_ext());
        }
        true
    } else {
        proof {
            if s@.skip(from as int) == mp3_ext() {
                assert(s@.skip(from as int).len() == 3);
                assert(s@.skip(from as int)[0] == 109u8);
                assert(s@.skip(from as int)[1] == 112u8);
                assert(s@.skip(from as int)[2] == 51u8);
            }
        }
        false
    }
}

/// Whether `s[from..]` is exactly the bytes of `flac`.
fn tail_is_flac(s: &Vec<u8>, from: usize) -> (r: bool)
    requires
        from <= s.len(),
    ensures
        r == (s@.skip(from as int) == flac_ext()),
{
    if s.len() - from == 4 && s[from] == 102 && s[from + 1] == 108 && s[from + 2] == 97
        && s[from + 3] == 99 {
        proof {
            assert(s@.skip(from as int) =~= flac_ext());
        }
        true
    } else {
        proof {
            if s@.skip(from as int) == flac_ext() {
                assert(s@.skip(from as int).len() == 4);
                assert(s@.skip(from as int)[0] == 102u8);
                assert(s@.skip(from as int)[1] == 108u8);
                assert(s@.skip(from as int)[2] == 97u8);
                assert(s@.skip(from as int)[3] == 99u8);
            }
        }
        false
    }
}

/// Whether a file path carries a recognized audio extension.
pub fn path_is_audio(path: &Vec<u8>) -> (r: bool)
    ensures
        r == is_audio_path(path@),
{
    proof {
        assert(path@.skip(0) =~= path@);
    }
    let slash = rfind_from(path, 0, SLASH);
    let name_start: usize = match slash {
        Some(j) => j + 1,
        None => 0,
    };
    let ghost name = path@.skip(last_index_of(path@, SLASH) + 1);
    proof {
        assert(name_start as int == last_index_of(path@, SLASH) + 1);
    }
    let dot = rfind_from(path, name_start, DOT);
    match dot {
        Some(j) => {
            let d: usize = j - name_start;
            if d == 0 {
                false
            } else {
                proof {
                    assert(name.skip(d as int + 1) =~= path@.skip(j as int + 1));
                }
                tail_is_mp3(path, j + 1) || tail_is_flac(path, j + 1)
            }
        },
        None => false,
    }
}

/// An owned copy of a byte string.
pub fn copy_bytes(v: &Vec<u8>) -> (r: Vec<u8>)
    ensures
        r@ == v@,
{
    let mut r: Vec<u8> = Vec::new();
    let mut i: usize = 0;
    while i < v.len()
        invariant
            i <= v.len(),
            r@ == v@.take(i as int),
        decreases v.len() - i,
    {
        let b = v[i];
        r.push(b);
        proof {
            assert(v@.take(i as int).push(v@[i as int]) =~= v@.take(i as int + 1));
        }
        i = i + 1;
    }
    proof {
        assert(v@.take(v@.len() as int) =~= v@);
    }
    r
}

/// An owned copy of the first `k` bytes.
pub fn bytes_prefix(v: &Vec<u8>, k: usize) -> (r: Vec<u8>)
    requires
        k <= v.len(),
    ensures
        r@ == v@.take(k as int),
{
    let mut r: Vec<u8> = Vec::new();
    let mut i: usize = 0;
    while i < k
        invariant
            i <= k <= v.len(),
            r@ == v@.take(i as int),
        decreases k - i,
    {
        let b = v[i];
        r.push(b);
        proof {
            assert(v@.take(i as int).push(v@[i as int]) =~= v@.take(i as int + 1));
        }
        i = i + 1;
    }
    r
}

/// Byte-string equality.
pub fn bytes_eq(a: &Vec<u8>, b: &Vec<u8>) -> (r: bool)
    ensures
        r == (a@ == b@),
{
    if a.len() != b.len() {
        return false;
    }
    let mut i: usize = 0;
    while i < a.len()
        invariant
            i <= a.len(),
            a.len() == b.len(),
            forall|k: int| 0 <= k < i ==> a@[k] == b@[k],
        decreases a.len() - i,
    {
        if a[i] != b[i] {
            return false;
        }
        i = i + 1;
    }
    proof {
        assert(a@ =~= b@);
    }
    true
}

} // verus!
