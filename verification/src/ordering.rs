//! Playlist ordering: how a directory listing becomes the displayed and
//! playable sequence.
//!
//! Entries are ordered directories-first; directories are always sorted
//! lexicographically by path. In `Sorted` mode the files are sorted the same
//! way; in `Shuffled` mode they are randomly permuted instead.

use vstd::prelude::*;
use vstd::relations::{sorted_by, total_ordering, strongly_connected, transitive, antisymmetric,
    reflexive};
use rand::seq::SliceRandom;
use vstd::multiset::Multiset;

use crate::entry::{Entry, EntryKind, EntryModel};

verus! {

broadcast use {vstd::seq_lib::group_to_multiset_ensures, vstd::multiset::group_multiset_axioms};

#[derive(Clone, Copy, PartialEq, Eq, Structural, Debug)]
pub enum OrderingMode {
    Sorted,
    Shuffled,
}

/// The models of a sequence of entries.
pub open spec fn views(s: Seq<Entry>) -> Seq<EntryModel> {
    s.map_values(|e: Entry| e@)
}

pub open spec fn is_dir_model(m: EntryModel) -> bool {
    m.kind == EntryKind::Directory
}

pub open spec fn entry_is_dir() -> spec_fn(EntryModel) -> bool {
    |m: EntryModel| is_dir_model(m)
}

pub open spec fn entry_is_file() -> spec_fn(EntryModel) -> bool {
    |m: EntryModel| !is_dir_model(m)
}

/// The directory entries, in their original order.
pub open spec fn dirs_of(s: Seq<EntryModel>) -> Seq<EntryModel> {
    s.filter(entry_is_dir())
}

/// The file entries (audio or other), in their original order.
pub open spec fn files_of(s: Seq<EntryModel>) -> Seq<EntryModel> {
    s.filter(entry_is_file())
}

/// Lexicographic order on byte strings; a proper prefix comes first.
pub open spec fn lex_le(a: Seq<u8>, b: Seq<u8>) -> bool
    decreases a.len(),
{
    if a.len() == 0 {
        true
    } else if b.len() == 0 {
        false
    } else if a[0] < b[0] {
        true
    } else if b[0] < a[0] {
        false
    } else {
        lex_le(a.drop_first(), b.drop_first())
    }
}

pub proof fn lemma_lex_le_connected(a: Seq<u8>, b: Seq<u8>)
    ensures
        lex_le(a, b) || lex_le(b, a),
    decreases a.len(),
{
    if a.len() > 0 && b.len() > 0 && a[0] == b[0] {
        lemma_lex_le_connected(a.drop_first(), b.drop_first());
    }
}

pub proof fn lemma_lex_le_antisymmetric(a: Seq<u8>, b: Seq<u8>)
    requires
        lex_le(a, b),
        lex_le(b, a),
    ensures
        a == b,
    decreases a.len(),
{
    if a.len() == 0 {
        assert(b.len() == 0);
        assert(a =~= b);
    } else {
        assert(b.len() > 0);
        assert(a[0] == b[0]);
        lemma_lex_le_antisymmetric(a.drop_first(), b.drop_first());
        assert(a =~= Seq::empty().push(a[0]) + a.drop_first());
        assert(b =~= Seq::empty().push(b[0]) + b.drop_first());
    }
}

pub proof fn lemma_lex_le_transitive(a: Seq<u8>, b: Seq<u8>, c: Seq<u8>)
    requires
        lex_le(a, b),
        lex_le(b, c),
    ensures
        lex_le(a, c),
    decreases a.len(),
{
    if a.len() > 0 {
        assert(b.len() > 0);
        assert(c.len() > 0);
        if a[0] == b[0] && b[0] == c[0] {
            lemma_lex_le_transitive(a.drop_first(), b.drop_first(), c.drop_first());
        }
    }
}

/// Rank used to break ties between entries with equal paths, so that the
/// entry order is antisymmetric.
pub open spec fn kind_rank(k: EntryKind) -> int {
    match k {
        EntryKind::Directory => 0,
        EntryKind::AudioFile => 1,
        EntryKind::OtherFile => 2,
    }
}

/// The displayed order on entries: directories before files, then
/// lexicographic by path, with the kind as a deterministic tiebreak.
pub open spec fn entry_le(a: EntryModel, b: EntryModel) -> bool {
    if is_dir_model(a) != is_dir_model(b) {
        is_dir_model(a)
    } else if a.path == b.path {
        kind_rank(a.kind) <= kind_rank(b.kind)
    } else {
        lex_le(a.path, b.path)
    }
}

/// The entry order as a value, for `sorted_by` and `sort_by`.
pub open spec fn entry_order() -> spec_fn(EntryModel, EntryModel) -> bool {
    |a: EntryModel, b: EntryModel| entry_le(a, b)
}

pub proof fn lemma_entry_order_total()
    ensures
        total_ordering(entry_order()),
{
    let leq = entry_order();
    assert forall|a: EntryModel, b: EntryModel| #[trigger] leq(a, b) || #[trigger] leq(b, a) by {
        if is_dir_model(a) == is_dir_model(b) && a.path != b.path {
            lemma_lex_le_connected(a.path, b.path);
        }
    }
    assert(strongly_connected(leq));
    assert(reflexive(leq));
    assert forall|a: EntryModel, b: EntryModel| #[trigger] leq(a, b) && #[trigger] leq(b, a)
        implies a == b by {
        if is_dir_model(a) == is_dir_model(b) {
            if a.path == b.path {
                assert(kind_rank(a.kind) == kind_rank(b.kind));
                assert(a.kind == b.kind);
            } else {
                lemma_lex_le_antisymmetric(a.path, b.path);
                assert(false);
            }
        }
    }
    assert(antisymmetric(leq));
    assert forall|a: EntryModel, b: EntryModel, c: EntryModel|
        #[trigger] leq(a, b) && #[trigger] leq(b, c) implies leq(a, c) by {
        lemma_entry_le_transitive(a, b, c);
    }
    assert(transitive(leq));
}

proof fn lemma_entry_le_transitive(a: EntryModel, b: EntryModel, c: EntryModel)
    requires
        entry_le(a, b),
        entry_le(b, c),
    ensures
        entry_le(a, c),
{
    let da = is_dir_model(a);
    let db = is_dir_model(b);
    let dc = is_dir_model(c);
    if da == db && db == dc {
        if a.path == b.path && b.path == c.path {
        } else if a.path == b.path {
            assert(a.path != c.path);
        } else if b.path == c.path {
            assert(a.path != c.path);
        } else {
            lemma_lex_le_transitive(a.path, b.path, c.path);
            if a.path == c.path {
                lemma_lex_le_antisymmetric(a.path, b.path);
                assert(false);
            }
        }
    }
}

/// Lexicographic comparison of two byte strings.
pub fn lex_le_exec(a: &Vec<u8>, b: &Vec<u8>) -> (r: bool)
    ensures
        r == lex_le(a@, b@),
{
    proof {
        assert(a@.skip(0) =~= a@);
        assert(b@.skip(0) =~= b@);
    }
    let mut i: usize = 0;
    loop
        invariant
            i <= a.len(),
            i <= b.len(),
            lex_le(a@, b@) == lex_le(a@.skip(i as int), b@.skip(i as int)),
        decreases a.len() - i,
    {
        if i == a.len() {
            return true;
        }
        if i == b.len() {
            return false;
        }
        if a[i] < b[i] {
            return true;
        }
        if b[i] < a[i] {
            return false;
        }
        proof {
            assert(a@.skip(i as int).drop_first() =~= a@.skip(i as int + 1));
            assert(b@.skip(i as int).drop_first() =~= b@.skip(i as int + 1));
        }
        i = i + 1;
    }
}

fn kind_rank_exec(k: EntryKind) -> (r: u8)
    ensures
        r as int == kind_rank(k),
{
    match k {
        EntryKind::Directory => 0,
        EntryKind::AudioFile => 1,
        EntryKind::OtherFile => 2,
    }
}

/// Comparison of two entries in the displayed order.
pub fn entry_le_exec(a: &Entry, b: &Entry) -> (r: bool)
    ensures
        r == entry_le(a@, b@),
{
    let ad = a.is_dir();
    let bd = b.is_dir();
    if ad != bd {
        ad
    } else if crate::entry::bytes_eq(&a.path, &b.path) {
        kind_rank_exec(a.kind) <= kind_rank_exec(b.kind)
    } else {
        lex_le_exec(&a.path, &b.path)
    }
}

proof fn lemma_views_push(s: Seq<Entry>, e: Entry)
    ensures
        views(s.push(e)) == views(s).push(e@),
{
    assert(views(s.push(e)) =~= views(s).push(e@));
}

proof fn lemma_views_insert(s: Seq<Entry>, p: int, e: Entry)
    requires
        0 <= p <= s.len(),
    ensures
        views(s.insert(p, e)) == views(s).insert(p, e@),
{
    s.insert_ensures(p, e);
    views(s).insert_ensures(p, e@);
    assert(views(s.insert(p, e)) =~= views(s).insert(p, e@));
}

proof fn lemma_views_add(a: Seq<Entry>, b: Seq<Entry>)
    ensures
        views(a + b) == views(a) + views(b),
{
    assert(views(a + b) =~= views(a) + views(b));
}

/// Inserting anywhere adds one occurrence to the multiset.
proof fn lemma_to_multiset_insert(s: Seq<EntryModel>, p: int, x: EntryModel)
    requires
        0 <= p <= s.len(),
    ensures
        s.insert(p, x).to_multiset() == s.to_multiset().insert(x),
{
    let t = s.insert(p, x);
    s.insert_ensures(p, x);
    assert(t.remove(p) =~= s);
    assert(t.remove(p).to_multiset() =~= t.to_multiset().remove(t[p]));
    assert(t.contains(x));
    assert(t.to_multiset().count(x) > 0);
    assert(t.to_multiset() =~= s.to_multiset().insert(x)) by {
        assert forall|y: EntryModel| #[trigger] s.to_multiset().insert(x).count(y)
            == t.to_multiset().count(y) by {
            assert(s.to_multiset().count(y) == t.to_multiset().remove(x).count(y));
        }
    }
}

proof fn lemma_add_insert_remove(a: Multiset<EntryModel>, b: Multiset<EntryModel>, x: EntryModel)
    requires
        b.count(x) >= 1,
    ensures
        a.insert(x).add(b.remove(x)) == a.add(b),
{
    assert(a.insert(x).add(b.remove(x)) =~= a.add(b));
}

proof fn lemma_add_insert_left(a: Multiset<EntryModel>, b: Multiset<EntryModel>, x: EntryModel)
    ensures
        a.insert(x).add(b) == a.add(b).insert(x),
{
    assert(a.insert(x).add(b) =~= a.add(b).insert(x));
}

/// Filtering a sequence extended by one element.
proof fn lemma_filter_push(s: Seq<EntryModel>, p: spec_fn(EntryModel) -> bool, x: EntryModel)
    ensures
        s.push(x).filter(p) == if p(x) { s.filter(p).push(x) } else { s.filter(p) },
{
    reveal(Seq::filter);
    let t = s.push(x);
    assert(t.drop_last() =~= s);
    assert(t.last() == x);
}

proof fn lemma_views_drop_first(s: Seq<Entry>)
    requires
        s.len() > 0,
    ensures
        views(s.remove(0)) == views(s).remove(0),
{
    s.remove_ensures(0);
    views(s).remove_ensures(0);
    assert(views(s.remove(0)) =~= views(s).remove(0));
}

/// Splits a listing into its directories and its files, each in the
/// original order.
fn partition_entries(v: Vec<Entry>) -> (r: (Vec<Entry>, Vec<Entry>))
    ensures
        views(r.0@) == dirs_of(views(v@)),
        views(r.1@) == files_of(views(v@)),
        views(r.0@).to_multiset().add(views(r.1@).to_multiset()) == views(v@).to_multiset(),
{
    let ghost inp = views(v@);
    let mut rest = v;
    let mut dirs: Vec<Entry> = Vec::new();
    let mut files: Vec<Entry> = Vec::new();
    proof {
        assert(views(rest@) =~= inp.skip(0));
        assert(inp.take(0) =~= Seq::<EntryModel>::empty());
        assert(views(dirs@) =~= Seq::<EntryModel>::empty());
        assert(views(files@) =~= Seq::<EntryModel>::empty());
        assert(Seq::<EntryModel>::empty().filter(entry_is_dir()) =~= Seq::<EntryModel>::empty());
        assert(Seq::<EntryModel>::empty().filter(entry_is_file()) =~= Seq::<EntryModel>::empty());
        assert(Seq::<EntryModel>::empty().to_multiset().add(
            Seq::<EntryModel>::empty().to_multiset()) =~= Seq::<EntryModel>::empty().to_multiset());
    }
    while rest.len() > 0
        invariant
            rest@.len() <= inp.len(),
            views(rest@) == inp.skip(inp.len() - rest@.len()),
            views(dirs@) == dirs_of(inp.take(inp.len() - rest@.len())),
            views(files@) == files_of(inp.take(inp.len() - rest@.len())),
            views(dirs@).to_multiset().add(views(files@).to_multiset())
                == inp.take(inp.len() - rest@.len()).to_multiset(),
        decreases rest.len(),
    {
        let ghost done = inp.len() - rest@.len();
        let ghost prev = rest@;
        let e = rest.remove(0);
        proof {
            assert(e == prev[0]);
            assert(views(prev)[0] == prev[0]@);
            assert(inp.skip(done)[0] == inp[done]);
            assert(e@ == inp[done]);
            lemma_views_drop_first(prev);
            assert(views(rest@) == views(prev).remove(0));
            assert(views(rest@) =~= inp.skip(done + 1));
            assert(inp.take(done + 1) =~= inp.take(done).push(inp[done]));
            lemma_filter_push(inp.take(done), entry_is_dir(), inp[done]);
            lemma_filter_push(inp.take(done), entry_is_file(), inp[done]);
            assert(inp.take(done + 1).to_multiset()
                == inp.take(done).to_multiset().insert(inp[done]));
        }
        let ghost old_dirs = views(dirs@);
        let ghost old_files = views(files@);
        if e.is_dir() {
            dirs.push(e);
            proof {
                lemma_views_push(dirs@.drop_last(), e);
                assert(dirs@.drop_last().push(e) =~= dirs@);
                assert(views(dirs@) == old_dirs.push(e@));
                lemma_add_insert_left(old_dirs.to_multiset(), old_files.to_multiset(), e@);
            }
        } else {
            files.push(e);
            proof {
                lemma_views_push(files@.drop_last(), e);
                assert(files@.drop_last().push(e) =~= files@);
                assert(views(files@) == old_files.push(e@));
                assert(old_dirs.to_multiset().add(old_files.to_multiset().insert(e@))
                    =~= old_dirs.to_multiset().add(old_files.to_multiset()).insert(e@));
            }
        }
    }
    proof {
        assert(inp.take(inp.len() as int) =~= inp);
    }
    (dirs, files)
}

/// Where `e` belongs in the already sorted prefix: the first index whose
/// entry does not come before `e`.
fn insert_pos(out: &Vec<Entry>, e: &Entry) -> (p: usize)
    requires
        sorted_by(views(out@), entry_order()),
    ensures
        p <= out.len(),
        forall|k: int| 0 <= k < p ==> entry_le(#[trigger] views(out@)[k], e@),
        p < out.len() ==> !entry_le(views(out@)[p as int], e@),
{
    let mut i: usize = 0;
    while i < out.len()
        invariant
            i <= out.len(),
            forall|k: int| 0 <= k < i ==> entry_le(#[trigger] views(out@)[k], e@),
        decreases out.len() - i,
    {
        if !entry_le_exec(&out[i], e) {
            return i;
        }
        i = i + 1;
    }
    i
}

proof fn lemma_sorted_insert(s: Seq<EntryModel>, p: int, x: EntryModel)
    requires
        sorted_by(s, entry_order()),
        0 <= p <= s.len(),
        forall|k: int| 0 <= k < p ==> entry_le(#[trigger] s[k], x),
        p < s.len() ==> !entry_le(s[p], x),
    ensures
        sorted_by(s.insert(p, x), entry_order()),
{
    lemma_entry_order_total();
    let leq = entry_order();
    let t = s.insert(p, x);
    s.insert_ensures(p, x);
    assert forall|i: int, j: int| 0 <= i < j < t.len() implies #[trigger] leq(t[i], t[j]) by {
        if j < p {
            assert(leq(s[i], s[j]));
        } else if i < p && j == p {
            assert(leq(s[i], x));
        } else if i < p && j > p {
            assert(leq(s[i], x));
            assert(!leq(s[p], x));
            assert(leq(x, s[p]));
            if j - 1 == p {
                assert(leq(x, s[j - 1]));
            } else {
                assert(leq(s[p], s[j - 1]));
            }
            assert(leq(x, s[j - 1]));
            assert(leq(s[i], s[j - 1]));
        } else if i == p {
            assert(!leq(s[p], x));
            assert(leq(x, s[p]));
            if j - 1 == p {
            } else {
                assert(leq(s[p], s[j - 1]));
            }
            assert(leq(x, s[j - 1]));
        } else {
            assert(leq(s[i - 1], s[j - 1]));
        }
    }
}

/// Sorts a listing in the displayed order.
pub fn sort_entries(v: Vec<Entry>) -> (out: Vec<Entry>)
    ensures
        views(out@) == views(v@).sort_by(entry_order()),
{
    let ghost inp = views(v@);
    proof {
        lemma_entry_order_total();
    }
    let mut rest = v;
    let mut out: Vec<Entry> = Vec::new();
    proof {
        assert(views(out@) =~= Seq::<EntryModel>::empty());
        assert(views(out@).to_multiset().add(views(rest@).to_multiset())
            =~= views(rest@).to_multiset());
    }
    while rest.len() > 0
        invariant
            sorted_by(views(out@), entry_order()),
            views(out@).to_multiset().add(views(rest@).to_multiset()) == inp.to_multiset(),
        decreases rest.len(),
    {
        let ghost old_rest = views(rest@);
        let ghost old_rest_seq = rest@;
        let ghost old_out = views(out@);
        let ghost old_out_seq = out@;
        let e = rest.remove(0);
        proof {
            assert(e == old_rest_seq[0]);
            assert(views(old_rest_seq)[0] == old_rest_seq[0]@);
            assert(e@ == old_rest[0]);
            lemma_views_drop_first(old_rest_seq);
            assert(views(rest@) == old_rest.remove(0));
            assert(old_rest.remove(0).to_multiset() =~= old_rest.to_multiset().remove(old_rest[0]));
            assert(old_rest.contains(old_rest[0]));
            assert(old_rest.to_multiset().count(e@) >= 1);
        }
        let p = insert_pos(&out, &e);
        proof {
            lemma_sorted_insert(old_out, p as int, e@);
        }
        out.insert(p, e);
        proof {
            lemma_views_insert(old_out_seq, p as int, e);
            assert(views(out@) == old_out.insert(p as int, e@));
            lemma_to_multiset_insert(old_out, p as int, e@);
            lemma_add_insert_remove(old_out.to_multiset(), old_rest.to_multiset(), e@);
        }
    }
    proof {
        assert(views(rest@) =~= Seq::<EntryModel>::empty());
        assert(views(out@).to_multiset().add(views(rest@).to_multiset())
            =~= views(out@).to_multiset());
        inp.lemma_sort_by_ensures(entry_order());
        lemma_entry_order_total();
        vstd::seq_lib::lemma_sorted_unique(views(out@), inp.sort_by(entry_order()), entry_order());
    }
    out
}

/// Relies on rand's `SliceRandom::shuffle`: a Fisher-Yates pass that permutes
/// the slice in place by swapping elements, so the result holds exactly the
/// entries that went in, in some order.
#[verifier::external_body]
fn shuffle_entries(entries: Vec<Entry>) -> (out: Vec<Entry>)
    ensures
        views(out@).to_multiset() == views(entries@).to_multiset(),
{
    let mut entries = entries;
    entries.shuffle(&mut rand::rng());
    entries
}

/// What every ordering of a listing guarantees: the same entries, the sorted
/// directories as the prefix, files only after them; in `Sorted` mode the
/// files are sorted as well, which pins the whole sequence.
pub open spec fn ordering_post(inp: Seq<EntryModel>, out: Seq<EntryModel>, mode: OrderingMode)
    -> bool {
    let nd = dirs_of(inp).len() as int;
    &&& out.len() == inp.len()
    &&& out.to_multiset() == inp.to_multiset()
    &&& out.take(nd) == dirs_of(inp).sort_by(entry_order())
    &&& forall|i: int| nd <= i < out.len() ==> !is_dir_model(#[trigger] out[i])
    &&& out.skip(nd).to_multiset() == files_of(inp).to_multiset()
    &&& (mode == OrderingMode::Sorted ==> out.skip(nd) == files_of(inp).sort_by(entry_order()))
}

/// Orders a listing for display and playback: directories first, sorted;
/// files after them, sorted or freshly shuffled according to the mode.
/// An empty listing stays empty.
pub fn order(entries: Vec<Entry>, mode: OrderingMode) -> (out: Vec<Entry>)
    ensures
        ordering_post(views(entries@), views(out@), mode),
{
    let ghost inp = views(entries@);
    proof {
        lemma_entry_order_total();
        dirs_of(inp).lemma_sort_by_ensures(entry_order());
        files_of(inp).lemma_sort_by_ensures(entry_order());
    }
    let (dirs, files) = partition_entries(entries);
    let mut out = sort_entries(dirs);
    let mut files = match mode {
        OrderingMode::Sorted => sort_entries(files),
        OrderingMode::Shuffled => shuffle_entries(files),
    };
    let ghost dirs_seq = out@;
    let ghost files_seq = files@;
    let ghost dirs_part = views(out@);
    let ghost files_part = views(files@);
    out.append(&mut files);
    proof {
        lemma_views_add(dirs_seq, files_seq);
        assert(views(out@) == dirs_part + files_part);
        lemma_order_post(inp, dirs_part, files_part, mode);
    }
    out
}

/// The facts `order` establishes, proved over the two halves it concatenates.
proof fn lemma_order_post(inp: Seq<EntryModel>, dirs_part: Seq<EntryModel>,
    files_part: Seq<EntryModel>, mode: OrderingMode)
    requires
        dirs_part == dirs_of(inp).sort_by(entry_order()),
        files_part.to_multiset() == files_of(inp).to_multiset(),
        mode == OrderingMode::Sorted ==> files_part == files_of(inp).sort_by(entry_order()),
    ensures
        ordering_post(inp, dirs_part + files_part, mode),
        (dirs_part + files_part).take(dirs_of(inp).len() as int) == dirs_part,
        (dirs_part + files_part).skip(dirs_of(inp).len() as int) == files_part,
{
    let nd = dirs_of(inp).len() as int;
    let out = dirs_part + files_part;
    lemma_entry_order_total();
    dirs_of(inp).lemma_sort_by_ensures(entry_order());
    files_of(inp).lemma_sort_by_ensures(entry_order());
    assert(dirs_part.to_multiset() == dirs_of(inp).to_multiset());
    assert(dirs_part.to_multiset().len() == dirs_of(inp).to_multiset().len());
    assert(dirs_part.len() == nd);
    assert(files_part.len() == files_part.to_multiset().len());
    assert(files_of(inp).len() == files_of(inp).to_multiset().len());
    assert(files_part.len() == files_of(inp).len());
    assert(out.take(nd) =~= dirs_part);
    assert(out.skip(nd) =~= files_part);
    assert forall|i: int| nd <= i < out.len() implies !is_dir_model(#[trigger] out[i]) by {
        let x = out[i];
        assert(files_part[i - nd] == x);
        assert(files_part.contains(x));
        assert(files_part.to_multiset().count(x) > 0);
        assert(files_of(inp).contains(x));
        let j = choose|j: int| 0 <= j < files_of(inp).len() && files_of(inp)[j] == x;
        inp.lemma_filter_pred(entry_is_file(), j);
    }
    lemma_filter_split_multiset(inp);
    vstd::seq_lib::lemma_multiset_commutative(dirs_part, files_part);
    assert(out.to_multiset() == inp.to_multiset());
    assert(out.len() == inp.len()) by {
        assert(out.to_multiset().len() == inp.to_multiset().len());
    }
}

/// Law: a sorted ordering places every directory before every file, and
/// within each group the paths are lexicographically non-decreasing; the
/// whole sequence is sorted in the displayed order.
pub proof fn lemma_sorted_ordering_shape(inp: Seq<EntryModel>, out: Seq<EntryModel>)
    requires
        ordering_post(inp, out, OrderingMode::Sorted),
    ensures
        sorted_by(out, entry_order()),
        forall|i: int, j: int| 0 <= i < j < out.len() && is_dir_model(#[trigger] out[j])
            ==> is_dir_model(#[trigger] out[i]),
        forall|i: int, j: int| 0 <= i < j < out.len()
            && is_dir_model(#[trigger] out[i]) == is_dir_model(#[trigger] out[j])
            ==> lex_le(out[i].path, out[j].path),
{
    let nd = dirs_of(inp).len() as int;
    let dp = dirs_of(inp).sort_by(entry_order());
    let fp = files_of(inp).sort_by(entry_order());
    let leq = entry_order();
    lemma_entry_order_total();
    dirs_of(inp).lemma_sort_by_ensures(leq);
    files_of(inp).lemma_sort_by_ensures(leq);
    assert(dp.to_multiset().len() == dirs_of(inp).to_multiset().len());
    assert(dp.len() == nd);
    assert(out.take(nd).len() == dp.len());
    assert(nd <= out.len());
    assert forall|i: int| 0 <= i < nd implies is_dir_model(#[trigger] out[i]) by {
        assert(out.take(nd)[i] == out[i]);
        assert(dp[i] == out[i]);
        assert(dp.contains(out[i]));
        assert(dirs_of(inp).to_multiset().count(out[i]) > 0);
        assert(dirs_of(inp).contains(out[i]));
        let j = choose|j: int| 0 <= j < dirs_of(inp).len() && dirs_of(inp)[j] == out[i];
        inp.lemma_filter_pred(entry_is_dir(), j);
    }
    assert forall|i: int, j: int| 0 <= i < j < out.len() implies #[trigger] leq(out[i], out[j]) by {
        if j < nd {
            assert(out.take(nd)[i] == out[i] && out.take(nd)[j] == out[j]);
            assert(leq(dp[i], dp[j]));
        } else if i < nd {
            assert(is_dir_model(out[i]) && !is_dir_model(out[j]));
        } else {
            assert(out.skip(nd)[i - nd] == out[i] && out.skip(nd)[j - nd] == out[j]);
            assert(leq(fp[i - nd], fp[j - nd]));
        }
    }
    assert forall|i: int, j: int| 0 <= i < j < out.len()
        && is_dir_model(#[trigger] out[i]) == is_dir_model(#[trigger] out[j])
        implies lex_le(out[i].path, out[j].path) by {
        assert(leq(out[i], out[j]));
        if out[i].path == out[j].path {
            lemma_lex_le_connected(out[i].path, out[j].path);
        }
    }
}

/// Law: the sorted ordering is deterministic — any two sorted orderings of
/// the same listing are the same sequence, so re-ordering is idempotent.
pub proof fn lemma_sorted_ordering_deterministic(inp: Seq<EntryModel>, out1: Seq<EntryModel>,
    out2: Seq<EntryModel>)
    requires
        ordering_post(inp, out1, OrderingMode::Sorted),
        ordering_post(inp, out2, OrderingMode::Sorted),
    ensures
        out1 == out2,
{
    let nd = dirs_of(inp).len() as int;
    assert(out1 =~= out1.take(nd) + out1.skip(nd));
    assert(out2 =~= out2.take(nd) + out2.skip(nd));
}

/// Law: a shuffled ordering is a permutation of the sorted ordering of the
/// same listing: the same entries, the identical directory prefix, and only
/// the order of the file suffix left free.
pub proof fn lemma_shuffled_permutes_sorted(inp: Seq<EntryModel>, srt: Seq<EntryModel>,
    shf: Seq<EntryModel>)
    requires
        ordering_post(inp, srt, OrderingMode::Sorted),
        ordering_post(inp, shf, OrderingMode::Shuffled),
    ensures
        shf.to_multiset() == srt.to_multiset(),
        shf.len() == srt.len(),
        shf.take(dirs_of(inp).len() as int) == srt.take(dirs_of(inp).len() as int),
        shf.skip(dirs_of(inp).len() as int).to_multiset()
            == srt.skip(dirs_of(inp).len() as int).to_multiset(),
{
    assert(shf.to_multiset().len() == srt.to_multiset().len());
}

/// A sequence's multiset is split by any partition into directories and files.
proof fn lemma_filter_split_multiset(s: Seq<EntryModel>)
    ensures
        dirs_of(s).to_multiset().add(files_of(s).to_multiset()) == s.to_multiset(),
    decreases s.len(),
{
    reveal(Seq::filter);
    if s.len() == 0 {
        assert(dirs_of(s).to_multiset().add(files_of(s).to_multiset()) =~= s.to_multiset());
    } else {
        let q = s.drop_last();
        let x = s.last();
        lemma_filter_split_multiset(q);
        assert(s =~= q.push(x));
        lemma_filter_push(q, entry_is_dir(), x);
        lemma_filter_push(q, entry_is_file(), x);
        if is_dir_model(x) {
            lemma_add_insert_left(dirs_of(q).to_multiset(), files_of(q).to_multiset(), x);
        } else {
            assert(dirs_of(q).to_multiset().add(files_of(q).to_multiset().insert(x))
                =~= dirs_of(q).to_multiset().add(files_of(q).to_multiset()).insert(x));
        }
    }
}

} // verus!
