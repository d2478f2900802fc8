//! The track index: an immutable snapshot of the audio cache.
//!
//! The directory walk itself is I/O and happens outside this crate; it hands
//! in a flat listing of entries (path, final name component, file flag). From
//! that listing, `build` selects the regular files whose extension equals the
//! cache extension case-insensitively, derives each track's display stem and
//! normalized search key, and produces the snapshot. A snapshot is never
//! patched: `IndexStore::reindex` replaces it wholesale on a successful walk
//! and keeps the previous one untouched on a failed walk.

use vstd::prelude::*;
use crate::text::{lower, lower_char, normalize, normalize_chars};

verus! {

broadcast use vstd::seq_lib::group_seq_lib_default, vstd::seq::group_seq_axioms;

/// One entry of the directory walk, as the walker reports it: the full path,
/// the final name component, and whether it is a regular file.
pub struct FileEntry {
    pub path: String,
    pub name: String,
    pub is_file: bool,
}

/// One cached audio file: the display stem, its normalized search key, and
/// the file's path.
pub struct Track {
    pub stem: String,
    pub norm: Vec<char>,
    pub path: String,
}

/// The mathematical content of a `Track`.
pub ghost struct TrackModel {
    pub stem: Seq<char>,
    pub norm: Seq<char>,
    pub path: Seq<char>,
}

impl View for Track {
    type V = TrackModel;

    open spec fn view(&self) -> TrackModel {
        TrackModel { stem: self.stem@, norm: self.norm@, path: self.path@ }
    }
}

impl Track {
    /// A track's search key is always the normalization of its stem.
    pub open spec fn wf(self) -> bool {
        self.norm@ == normalize(self.stem@)
    }
}

/// The position of the `.` separating stem from extension in a file name:
/// the last `.` that is not the first character, or -1 when there is none
/// (a leading `.` marks a hidden file, not an empty stem).
pub open spec fn split_pos(name: Seq<char>) -> int
    decreases name.len(),
{
    if name.len() <= 1 {
        -1
    } else if name[name.len() - 1] == '.' {
        name.len() - 1
    } else {
        split_pos(name.drop_last())
    }
}

/// The stem of a file name: everything before the extension separator, or
/// the whole name when there is no extension.
pub open spec fn stem_of(name: Seq<char>) -> Seq<char> {
    if split_pos(name) >= 0 {
        name.subrange(0, split_pos(name))
    } else {
        name
    }
}

/// The cache extension that marks a playable file.
pub open spec fn cache_ext() -> Seq<char> {
    seq!['o', 'p', 'u', 's']
}

/// Whether a file name carries the cache extension, compared ASCII
/// case-insensitively.
pub open spec fn has_cache_ext(name: Seq<char>) -> bool {
    split_pos(name) >= 0 && lower(name.subrange(split_pos(name) + 1, name.len() as int))
        == cache_ext()
}

/// Whether a walk entry is selected into the index: a regular file whose
/// name carries the cache extension.
pub open spec fn selected(e: FileEntry) -> bool {
    e.is_file && has_cache_ext(e.name@)
}

/// The track a selected entry turns into.
pub open spec fn model_of(e: FileEntry) -> TrackModel {
    TrackModel {
        stem: stem_of(e.name@),
        norm: normalize(stem_of(e.name@)),
        path: e.path@,
    }
}

/// What `build` computes: the selected entries, in walk order, each turned
/// into its track.
pub open spec fn build_spec(es: Seq<FileEntry>) -> Seq<TrackModel> {
    es.filter(|e: FileEntry| selected(e)).map_values(|e: FileEntry| model_of(e))
}

proof fn lemma_split_pos_bounds(name: Seq<char>)
    ensures
        split_pos(name) == -1 || (1 <= split_pos(name) < name.len() && name[split_pos(name)]
            == '.'),
    decreases name.len(),
{
    if name.len() > 1 && name[name.len() - 1] != '.' {
        lemma_split_pos_bounds(name.drop_last());
    }
}

/// If position `k` holds a `.` and nothing after it does, `k` is the
/// separator position.
proof fn lemma_split_pos_found(name: Seq<char>, k: int)
    requires
        1 <= k < name.len(),
        name[k] == '.',
        forall|j: int| k < j < name.len() ==> name[j] != '.',
    ensures
        split_pos(name) == k,
    decreases name.len(),
{
    if k == name.len() - 1 {
    } else {
        assert(name[name.len() - 1] != '.');
        lemma_split_pos_found(name.drop_last(), k);
    }
}

/// A name with no `.` past its first character has no extension.
proof fn lemma_split_pos_none(name: Seq<char>)
    requires
        forall|j: int| 1 <= j < name.len() ==> name[j] != '.',
    ensures
        split_pos(name) == -1,
    decreases name.len(),
{
    if name.len() > 1 {
        assert(name[name.len() - 1] != '.');
        lemma_split_pos_none(name.drop_last());
    }
}

/// Finds the extension separator of `s`, if any.
fn split_position(s: &str) -> (r: Option<usize>)
    ensures
        match r {
            Some(p) => split_pos(s@) == p as int,
            None => split_pos(s@) == -1,
        },
{
    let n: usize = s.unicode_len();
    let mut i: usize = n;
    while i > 1
        invariant
            n == s@.len(),
            0 <= i <= n,
            forall|j: int| i <= j < n ==> s@[j] != '.',
        decreases i,
    {
        if s.get_char(i - 1) == '.' {
            proof {
                lemma_split_pos_found(s@, i - 1);
            }
            return Some(i - 1);
        }
        i -= 1;
    }
    proof {
        lemma_split_pos_none(s@);
    }
    None
}

/// Whether the file name `name` carries the cache extension.
fn name_has_cache_ext(name: &str) -> (r: bool)
    ensures
        r == has_cache_ext(name@),
{
    let n: usize = name.unicode_len();
    match split_position(name) {
        None => false,
        Some(p) => {
            proof {
                lemma_split_pos_bounds(name@);
            }
            if n - p != 5 {
                proof {
                    assert(lower(name@.subrange(p + 1, n as int)).len() == n - p - 1);
                }
                false
            } else {
                let c0 = crate::text::lower_char_exec(name.get_char(p + 1));
                let c1 = crate::text::lower_char_exec(name.get_char(p + 2));
                let c2 = crate::text::lower_char_exec(name.get_char(p + 3));
                let c3 = crate::text::lower_char_exec(name.get_char(p + 4));
                let r = c0 == 'o' && c1 == 'p' && c2 == 'u' && c3 == 's';
                proof {
                    let ext = name@.subrange(p + 1, n as int);
                    assert(lower(ext).len() == 4);
                    if r {
                        assert(lower(ext) =~= cache_ext());
                    } else {
                        assert(lower(ext)[0] == lower_char(name@[p + 1]));
                        assert(lower(ext)[1] == lower_char(name@[p + 2]));
                        assert(lower(ext)[2] == lower_char(name@[p + 3]));
                        assert(lower(ext)[3] == lower_char(name@[p + 4]));
                    }
                }
                r
            }
        },
    }
}

/// The display stem of the file name `name`.
fn stem_of_name(name: &str) -> (r: String)
    ensures
        r@ == stem_of(name@),
{
    match split_position(name) {
        None => String::from_str(name),
        Some(p) => {
            proof {
                lemma_split_pos_bounds(name@);
            }
            let st = name.substring_char(0, p);
            String::from_str(st)
        },
    }
}

/// An immutable point-in-time listing of all cached tracks, in walk order,
/// together with the root it was scanned from.
pub struct IndexSnapshot {
    pub root: String,
    pub tracks: Vec<Track>,
}

/// The mathematical content of a snapshot.
pub ghost struct SnapshotModel {
    pub root: Seq<char>,
    pub tracks: Seq<TrackModel>,
}

impl View for IndexSnapshot {
    type V = SnapshotModel;

    open spec fn view(&self) -> SnapshotModel {
        SnapshotModel {
            root: self.root@,
            tracks: self.tracks@.map_values(|t: Track| t@),
        }
    }
}

impl IndexSnapshot {
    /// Every track's key is the normalization of its stem.
    pub open spec fn wf(self) -> bool {
        forall|i: int| 0 <= i < self.tracks@.len() ==> (#[trigger] self.tracks@[i]).wf()
    }
}

/// Builds a snapshot from a directory listing: selects the regular files
/// with the cache extension, in walk order, and derives each track's stem
/// and normalized key.
pub fn build(root: String, entries: &Vec<FileEntry>) -> (r: IndexSnapshot)
    ensures
        r@.root == root@,
        r@.tracks == build_spec(entries@),
        r.wf(),
{
    let mut tracks: Vec<Track> = Vec::new();
    let mut i: usize = 0;
    while i < entries.len()
        invariant
            0 <= i <= entries@.len(),
            tracks@.map_values(|t: Track| t@) == build_spec(entries@.take(i as int)),
            forall|j: int| 0 <= j < tracks@.len() ==> (#[trigger] tracks@[j]).wf(),
        decreases entries@.len() - i,
    {
        let e = &entries[i];
        proof {
            assert(entries@.take(i + 1) == entries@.take(i as int).push(entries@[i as int]));
            entries@.take(i as int).lemma_filter_push(
                entries@[i as int],
                |x: FileEntry| selected(x),
            );
        }
        if e.is_file && name_has_cache_ext(e.name.as_str()) {
            let stem = stem_of_name(e.name.as_str());
            let norm = normalize_chars(stem.as_str());
            let track = Track { stem, norm, path: e.path.clone() };
            proof {
                assert(track@ == model_of(entries@[i as int]));
            }
            tracks.push(track);
            proof {
                entries@.take(i as int).filter(|x: FileEntry| selected(x)).lemma_push_map_commute(
                    |x: FileEntry| model_of(x),
                    entries@[i as int],
                );
                tracks@.drop_last().lemma_push_map_commute(|t: Track| t@, tracks@.last());
                assert(tracks@.drop_last().push(tracks@.last()) =~= tracks@);
                assert(tracks@.map_values(|t: Track| t@) =~= build_spec(
                    entries@.take(i + 1),
                ));
            }
        } else {
            proof {
                assert(tracks@.map_values(|t: Track| t@) =~= build_spec(
                    entries@.take(i + 1),
                ));
            }
        }
        i += 1;
    }
    proof {
        assert(entries@.take(entries@.len() as int) == entries@);
    }
    IndexSnapshot { root, tracks }
}

/// The snapshot holds one track per selected entry and nothing else:
/// entries without the cache extension, and entries that are not regular
/// files, contribute nothing, at any depth of the walk.
pub proof fn lemma_build_selects_exactly(es: Seq<FileEntry>, e: FileEntry)
    ensures
        build_spec(es).len() == es.filter(|x: FileEntry| selected(x)).len(),
        !selected(e) ==> build_spec(es.push(e)) == build_spec(es),
        selected(e) ==> build_spec(es.push(e)) == build_spec(es).push(model_of(e)),
{
    es.lemma_filter_push(e, |x: FileEntry| selected(x));
    if selected(e) {
        assert(build_spec(es.push(e)) =~= build_spec(es).push(model_of(e)));
    } else {
        assert(build_spec(es.push(e)) =~= build_spec(es));
    }
}

/// A track is in the built snapshot exactly when some selected entry of the
/// listing produces it.
pub proof fn lemma_build_membership(es: Seq<FileEntry>, t: TrackModel)
    ensures
        build_spec(es).contains(t) <==> exists|j: int|
            0 <= j < es.len() && selected(#[trigger] es[j]) && model_of(es[j]) == t,
{
    let sel = es.filter(|x: FileEntry| selected(x));
    if build_spec(es).contains(t) {
        let k = choose|k: int| 0 <= k < sel.len() && #[trigger] build_spec(es)[k] == t;
        assert(sel.contains(sel[k]));
        es.lemma_filter_contains_rev(|x: FileEntry| selected(x), sel[k]);
        assert(es.contains(sel[k]));
        let j = choose|j: int| 0 <= j < es.len() && #[trigger] es[j] == sel[k];
        assert(selected(es[j]) && model_of(es[j]) == t);
    }
    if exists|j: int| 0 <= j < es.len() && selected(#[trigger] es[j]) && model_of(es[j]) == t {
        let j = choose|j: int|
            0 <= j < es.len() && selected(#[trigger] es[j]) && model_of(es[j]) == t;
        assert(es.contains(es[j]));
        assert(sel.contains(es[j]));
        let k = choose|k: int| 0 <= k < sel.len() && #[trigger] sel[k] == es[j];
        assert(build_spec(es)[k] == t);
        assert(build_spec(es).contains(t));
    }
}

/// The error of a failed rebuild: the walk's failure, surfaced verbatim.
#[derive(Debug)]
pub struct IndexError {
    pub message: String,
}

/// The shared, atomically replaced index: either no snapshot yet (the cache
/// was never indexed successfully) or the snapshot of the last successful
/// rebuild.
pub struct IndexStore {
    pub current: Option<IndexSnapshot>,
}

impl IndexStore {
    /// Starts with no snapshot: the index stays absent until a walk
    /// succeeds.
    pub fn new() -> (r: IndexStore)
        ensures
            r.current is None,
    {
        IndexStore { current: None }
    }

    /// Whether a snapshot has been published yet.
    pub fn has_index(&self) -> (r: bool)
        ensures
            r == (self.current is Some),
    {
        self.current.is_some()
    }

    /// Rebuilds from the outcome of a directory walk. A successful walk
    /// publishes a brand-new snapshot in one step; a failed walk changes
    /// nothing, so readers keep the previous, fully consistent snapshot.
    pub fn reindex(&mut self, root: String, outcome: Result<Vec<FileEntry>, String>) -> (r: Result<
        (),
        IndexError,
    >)
        ensures
            match outcome {
                Ok(entries) => {
                    &&& r is Ok
                    &&& final(self).current is Some
                    &&& final(self).current->0@ == (SnapshotModel {
                        root: root@,
                        tracks: build_spec(entries@),
                    })
                    &&& final(self).current->0.wf()
                },
                Err(m) => {
                    &&& r is Err
                    &&& r->Err_0.message@ == m@
                    &&& final(self).current == old(self).current
                },
            },
    {
        match outcome {
            Ok(entries) => {
                let snap = build(root, &entries);
                self.current = Some(snap);
                Ok(())
            },
            Err(message) => Err(IndexError { message }),
        }
    }
}

} // verus!
