//! Free-text query resolution against an index snapshot.
//!
//! A query is normalized like a track name. An empty normalized query matches
//! every track. Otherwise resolution is two-phase: first all tracks whose
//! normalized key starts with the query; only when that phase finds nothing,
//! all tracks whose key contains the query anywhere. The two phases are never
//! combined. A non-empty query that matches nothing fails with
//! `NoMatchError`, carrying the query and the index root.
//!
//! Consumers that need a single track pick uniformly at random among the
//! resolved candidates; consumers that list tracks sort the stems
//! lexicographically first.

use vstd::prelude::*;
use crate::index::{build_spec, selected, FileEntry, IndexSnapshot, Track, TrackModel};
use crate::text::normalize;
use crate::text::normalize_chars;

verus! {

broadcast use vstd::seq_lib::group_seq_lib_default, vstd::seq::group_seq_axioms,
    vstd::seq_lib::group_to_multiset_ensures;

/// `q` is a prefix of `key`.
pub open spec fn matches_prefix(key: Seq<char>, q: Seq<char>) -> bool {
    q.len() <= key.len() && key.subrange(0, q.len() as int) == q
}

/// `q` occurs in `key` at some position.
pub open spec fn matches_substring(key: Seq<char>, q: Seq<char>) -> bool {
    exists|i: int| 0 <= i && i + q.len() <= key.len() && #[trigger] key.subrange(i, i + q.len())
        == q
}

/// The predicate of the match-everything phase.
pub open spec fn all_pred() -> spec_fn(TrackModel) -> bool {
    |t: TrackModel| true
}

/// The predicate of the prefix phase.
pub open spec fn prefix_pred(q: Seq<char>) -> spec_fn(TrackModel) -> bool {
    |t: TrackModel| matches_prefix(t.norm, q)
}

/// The predicate of the substring fallback phase.
pub open spec fn substring_pred(q: Seq<char>) -> spec_fn(TrackModel) -> bool {
    |t: TrackModel| matches_substring(t.norm, q)
}

/// The indices of the tracks satisfying `p`, in snapshot order.
pub open spec fn indices_where(ts: Seq<TrackModel>, p: spec_fn(TrackModel) -> bool) -> Seq<int>
    decreases ts.len(),
{
    if ts.len() == 0 {
        Seq::empty()
    } else if p(ts.last()) {
        indices_where(ts.drop_last(), p).push(ts.len() - 1)
    } else {
        indices_where(ts.drop_last(), p)
    }
}

/// What `resolve` computes, as indices into the snapshot: everything for an
/// empty query; else the prefix matches; else the substring matches.
pub open spec fn resolve_spec(ts: Seq<TrackModel>, q: Seq<char>) -> Seq<int> {
    if q.len() == 0 {
        indices_where(ts, all_pred())
    } else if exists|i: int| 0 <= i < ts.len() && matches_prefix(#[trigger] ts[i].norm, q) {
        indices_where(ts, prefix_pred(q))
    } else {
        indices_where(ts, substring_pred(q))
    }
}

/// The stems of the resolved tracks, in snapshot order.
pub open spec fn resolve_stems(ts: Seq<TrackModel>, q: Seq<char>) -> Seq<Seq<char>> {
    resolve_spec(ts, q).map_values(|i: int| ts[i].stem)
}

/// `indices_where` lists, strictly ascending, exactly the indices whose
/// track satisfies the predicate.
pub proof fn lemma_indices_where_props(ts: Seq<TrackModel>, p: spec_fn(TrackModel) -> bool)
    ensures
        forall|k: int| 0 <= k < indices_where(ts, p).len() ==> 0 <= #[trigger] indices_where(
            ts,
            p,
        )[k] < ts.len() && p(ts[indices_where(ts, p)[k]]),
        forall|k1: int, k2: int|
            0 <= k1 < k2 < indices_where(ts, p).len() ==> indices_where(ts, p)[k1]
                < indices_where(ts, p)[k2],
        forall|i: int| 0 <= i < ts.len() && p(#[trigger] ts[i]) ==> indices_where(ts, p).contains(
            i,
        ),
    decreases ts.len(),
{
    if ts.len() > 0 {
        lemma_indices_where_props(ts.drop_last(), p);
        let prev = indices_where(ts.drop_last(), p);
        assert forall|i: int| 0 <= i < ts.len() && p(#[trigger] ts[i]) implies indices_where(
            ts,
            p,
        ).contains(i) by {
            if i < ts.len() - 1 {
                assert(ts.drop_last()[i] == ts[i]);
                assert(prev.contains(i));
                let k = choose|k: int| 0 <= k < prev.len() && prev[k] == i;
                assert(indices_where(ts, p)[k] == i);
            } else {
                assert(p(ts.last()));
                assert(indices_where(ts, p).last() == ts.len() - 1);
            }
        }
    }
}

/// With the always-true predicate, `indices_where` is the identity listing.
pub proof fn lemma_indices_all(ts: Seq<TrackModel>)
    ensures
        indices_where(ts, all_pred()) == Seq::new(ts.len(), |i: int| i),
    decreases ts.len(),
{
    if ts.len() > 0 {
        lemma_indices_all(ts.drop_last());
        assert(indices_where(ts, all_pred()) =~= Seq::new(ts.len(), |i: int| i));
    } else {
        assert(indices_where(ts, all_pred()) =~= Seq::new(ts.len(), |i: int| i));
    }
}

/// An empty query resolves to every track, in snapshot order.
pub proof fn lemma_resolve_empty_query(ts: Seq<TrackModel>)
    ensures
        resolve_spec(ts, Seq::empty()) == Seq::new(ts.len(), |i: int| i),
{
    lemma_indices_all(ts);
}

/// Prefix-first law: as soon as one track's key starts with the query, the
/// result holds exactly the prefix matches — substring-only matches are
/// excluded, and every prefix match is present.
pub proof fn lemma_prefix_first(ts: Seq<TrackModel>, q: Seq<char>)
    requires
        q.len() > 0,
        exists|i: int| 0 <= i < ts.len() && matches_prefix(#[trigger] ts[i].norm, q),
    ensures
        resolve_spec(ts, q) == indices_where(ts, prefix_pred(q)),
        forall|k: int| 0 <= k < resolve_spec(ts, q).len() ==> matches_prefix(
            ts[#[trigger] resolve_spec(ts, q)[k]].norm,
            q,
        ),
        forall|i: int| 0 <= i < ts.len() && matches_prefix(#[trigger] ts[i].norm, q)
            ==> resolve_spec(ts, q).contains(i),
{
    lemma_indices_where_props(ts, prefix_pred(q));
}

/// Round-trip law, removal direction: a file that the directory listing no
/// longer holds (as a selected entry) cannot appear in any resolution of
/// the snapshot built from that listing, whatever the query.
pub proof fn lemma_removed_file_not_resolved(es: Seq<FileEntry>, q: Seq<char>, p: Seq<char>)
    requires
        forall|j: int|
            0 <= j < es.len() ==> !(selected(#[trigger] es[j]) && es[j].path@ == p),
    ensures
        forall|k: int| 0 <= k < resolve_spec(build_spec(es), q).len()
            ==> build_spec(es)[#[trigger] resolve_spec(build_spec(es), q)[k]].path != p,
{
    let ts = build_spec(es);
    lemma_indices_where_props(ts, all_pred());
    lemma_indices_where_props(ts, prefix_pred(q));
    lemma_indices_where_props(ts, substring_pred(q));
    assert forall|k: int| 0 <= k < resolve_spec(ts, q).len() implies ts[#[trigger] resolve_spec(
        ts,
        q,
    )[k]].path != p by {
        let i = resolve_spec(ts, q)[k];
        assert(0 <= i < ts.len());
        assert(ts.contains(ts[i]));
        crate::index::lemma_build_membership(es, ts[i]);
        let j = choose|j: int|
            0 <= j < es.len() && selected(#[trigger] es[j]) && crate::index::model_of(es[j])
                == ts[i];
        assert(es[j].path@ != p);
    }
}

proof fn lemma_indices_where_push(ts: Seq<TrackModel>, p: spec_fn(TrackModel) -> bool, x: TrackModel)
    ensures
        indices_where(ts.push(x), p) == if p(x) {
            indices_where(ts, p).push(ts.len() as int)
        } else {
            indices_where(ts, p)
        },
{
    assert(ts.push(x).drop_last() =~= ts);
    assert(ts.push(x).last() == x);
}

/// Whether `q` occurs in `key` starting at `at`.
fn chars_match_at(key: &Vec<char>, q: &Vec<char>, at: usize) -> (r: bool)
    requires
        at + q@.len() <= key@.len(),
    ensures
        r == (key@.subrange(at as int, at + q@.len()) == q@),
{
    let n: usize = key.len();
    let mut j: usize = 0;
    while j < q.len()
        invariant
            n == key@.len(),
            at + q@.len() <= key@.len(),
            0 <= j <= q@.len(),
            forall|j2: int| 0 <= j2 < j ==> key@[at + j2] == q@[j2],
        decreases q@.len() - j,
    {
        proof {
            assert(at + j < key@.len());
        }
        if key[at + j] != q[j] {
            proof {
                assert(key@.subrange(at as int, at + q@.len())[j as int] != q@[j as int]);
            }
            return false;
        }
        j += 1;
    }
    proof {
        assert(key@.subrange(at as int, at + q@.len()) =~= q@);
    }
    true
}

/// Whether `key` starts with `q`.
fn vec_has_prefix(key: &Vec<char>, q: &Vec<char>) -> (r: bool)
    ensures
        r == matches_prefix(key@, q@),
{
    if q.len() > key.len() {
        false
    } else {
        chars_match_at(key, q, 0)
    }
}

/// Whether `key` contains `q` anywhere.
fn vec_has_substring(key: &Vec<char>, q: &Vec<char>) -> (r: bool)
    requires
        q@.len() >= 1,
    ensures
        r == matches_substring(key@, q@),
{
    if q.len() > key.len() {
        proof {
            assert(!matches_substring(key@, q@));
        }
        return false;
    }
    let last_start: usize = key.len() - q.len();
    let mut i: usize = 0;
    while i <= last_start
        invariant
            q@.len() >= 1,
            key@.len() <= usize::MAX,
            q@.len() <= key@.len(),
            last_start == key@.len() - q@.len(),
            0 <= i <= last_start + 1,
            forall|i2: int| 0 <= i2 < i ==> #[trigger] key@.subrange(i2, i2 + q@.len()) != q@,
        decreases last_start + 1 - i,
    {
        if chars_match_at(key, q, i) {
            proof {
                assert(0 <= i as int && i as int + q@.len() <= key@.len() && key@.subrange(
                    i as int,
                    i as int + q@.len(),
                ) == q@);
            }
            return true;
        }
        i += 1;
    }
    proof {
        assert forall|i2: int| 0 <= i2 && i2 + q@.len() <= key@.len() implies #[trigger] key@.subrange(
            i2,
            i2 + q@.len(),
        ) != q@ by {
            assert(i2 <= last_start as int);
        }
    }
    false
}

/// Collects every index, in order.
fn collect_all(tracks: &Vec<Track>) -> (r: Vec<usize>)
    ensures
        r@.map_values(|u: usize| u as int) == indices_where(
            tracks@.map_values(|t: Track| t@),
            all_pred(),
        ),
{
    let ghost models = tracks@.map_values(|t: Track| t@);
    let mut out: Vec<usize> = Vec::new();
    let mut i: usize = 0;
    while i < tracks.len()
        invariant
            0 <= i <= tracks@.len(),
            models == tracks@.map_values(|t: Track| t@),
            out@.map_values(|u: usize| u as int) == indices_where(
                models.take(i as int),
                all_pred(),
            ),
        decreases tracks@.len() - i,
    {
        proof {
            assert(models.take(i + 1) == models.take(i as int).push(models[i as int]));
            lemma_indices_where_push(models.take(i as int), all_pred(), models[i as int]);
        }
        out.push(i);
        proof {
            assert(out@.map_values(|u: usize| u as int) =~= indices_where(
                models.take(i + 1),
                all_pred(),
            ));
        }
        i += 1;
    }
    proof {
        assert(models.take(models.len() as int) == models);
    }
    out
}

/// Collects the indices of the prefix matches, in order.
fn collect_prefix(tracks: &Vec<Track>, q: &Vec<char>) -> (r: Vec<usize>)
    ensures
        r@.map_values(|u: usize| u as int) == indices_where(
            tracks@.map_values(|t: Track| t@),
            prefix_pred(q@),
        ),
{
    let ghost models = tracks@.map_values(|t: Track| t@);
    let mut out: Vec<usize> = Vec::new();
    let mut i: usize = 0;
    while i < tracks.len()
        invariant
            0 <= i <= tracks@.len(),
            models == tracks@.map_values(|t: Track| t@),
            out@.map_values(|u: usize| u as int) == indices_where(
                models.take(i as int),
                prefix_pred(q@),
            ),
        decreases tracks@.len() - i,
    {
        proof {
            assert(models.take(i + 1) == models.take(i as int).push(models[i as int]));
            lemma_indices_where_push(models.take(i as int), prefix_pred(q@), models[i as int]);
        }
        if vec_has_prefix(&tracks[i].norm, q) {
            out.push(i);
        }
        proof {
            assert(out@.map_values(|u: usize| u as int) =~= indices_where(
                models.take(i + 1),
                prefix_pred(q@),
            ));
        }
        i += 1;
    }
    proof {
        assert(models.take(models.len() as int) == models);
    }
    out
}

/// Collects the indices of the substring matches, in order.
fn collect_substring(tracks: &Vec<Track>, q: &Vec<char>) -> (r: Vec<usize>)
    requires
        q@.len() >= 1,
    ensures
        r@.map_values(|u: usize| u as int) == indices_where(
            tracks@.map_values(|t: Track| t@),
            substring_pred(q@),
        ),
{
    let ghost models = tracks@.map_values(|t: Track| t@);
    let mut out: Vec<usize> = Vec::new();
    let mut i: usize = 0;
    while i < tracks.len()
        invariant
            q@.len() >= 1,
            0 <= i <= tracks@.len(),
            models == tracks@.map_values(|t: Track| t@),
            out@.map_values(|u: usize| u as int) == indices_where(
                models.take(i as int),
                substring_pred(q@),
            ),
        decreases tracks@.len() - i,
    {
        proof {
            assert(models.take(i + 1) == models.take(i as int).push(models[i as int]));
            lemma_indices_where_push(models.take(i as int), substring_pred(q@), models[i as int]);
        }
        if vec_has_substring(&tracks[i].norm, q) {
            out.push(i);
        }
        proof {
            assert(out@.map_values(|u: usize| u as int) =~= indices_where(
                models.take(i + 1),
                substring_pred(q@),
            ));
        }
        i += 1;
    }
    proof {
        assert(models.take(models.len() as int) == models);
    }
    out
}

/// The resolved indices for a normalized query: everything when it is
/// empty, else the prefix matches, else the substring matches.
fn resolve_indices(snap: &IndexSnapshot, qv: &Vec<char>) -> (r: Vec<usize>)
    ensures
        r@.map_values(|u: usize| u as int) == resolve_spec(snap@.tracks, qv@),
        forall|k: int| 0 <= k < r@.len() ==> #[trigger] r@[k] < snap.tracks@.len(),
{
    let ghost models = snap@.tracks;
    let r = if qv.len() == 0 {
        collect_all(&snap.tracks)
    } else {
        let pre = collect_prefix(&snap.tracks, qv);
        proof {
            lemma_indices_where_props(models, prefix_pred(qv@));
        }
        if pre.len() > 0 {
            proof {
                let k = indices_where(models, prefix_pred(qv@))[0];
                assert(matches_prefix(models[k].norm, qv@));
            }
            pre
        } else {
            proof {
                assert forall|i: int| 0 <= i < models.len() implies !matches_prefix(
                    #[trigger] models[i].norm,
                    qv@,
                ) by {
                    if matches_prefix(models[i].norm, qv@) {
                        assert(indices_where(models, prefix_pred(qv@)).contains(i));
                    }
                }
            }
            collect_substring(&snap.tracks, qv)
        }
    };
    proof {
        lemma_indices_where_props(models, all_pred());
        lemma_indices_where_props(models, prefix_pred(qv@));
        lemma_indices_where_props(models, substring_pred(qv@));
        assert forall|k: int| 0 <= k < r@.len() implies #[trigger] r@[k] < snap.tracks@.len() by {
            assert(r@.map_values(|u: usize| u as int)[k] == r@[k] as int);
        }
    }
    r
}

/// A non-empty query that matched nothing, with the index root for
/// diagnostics.
#[derive(Debug)]
pub struct NoMatchError {
    pub query: String,
    pub root: String,
}

/// Resolves a free-text query against a snapshot: the indices of the
/// matching tracks, in snapshot order, or `NoMatchError` exactly when the
/// normalized query is non-empty and no track matches either phase.
pub fn resolve(snap: &IndexSnapshot, query: &str) -> (r: Result<Vec<usize>, NoMatchError>)
    ensures
        match r {
            Ok(v) => {
                &&& normalize(query@).len() == 0 || resolve_spec(
                    snap@.tracks,
                    normalize(query@),
                ).len() > 0
                &&& v@.map_values(|u: usize| u as int) == resolve_spec(
                    snap@.tracks,
                    normalize(query@),
                )
                &&& forall|k: int| 0 <= k < v@.len() ==> #[trigger] v@[k] < snap.tracks@.len()
            },
            Err(e) => {
                &&& normalize(query@).len() > 0
                &&& resolve_spec(snap@.tracks, normalize(query@)).len() == 0
                &&& e.query@ == query@
                &&& e.root@ == snap@.root
            },
        },
{
    let qv = normalize_chars(query);
    let ids = resolve_indices(snap, &qv);
    if qv.len() > 0 && ids.len() == 0 {
        Err(NoMatchError { query: String::from_str(query), root: snap.root.clone() })
    } else {
        Ok(ids)
    }
}

/// Lexicographic order on character sequences, by code point.
pub open spec fn lex_le(a: Seq<char>, b: Seq<char>) -> bool
    decreases a.len(),
{
    if a.len() == 0 {
        true
    } else if b.len() == 0 {
        false
    } else if a[0] == b[0] {
        lex_le(a.drop_first(), b.drop_first())
    } else {
        a[0] < b[0]
    }
}

/// A listing is sorted when every pair of entries is in lexicographic
/// order.
pub open spec fn sorted_lex(s: Seq<Seq<char>>) -> bool {
    forall|i: int, j: int| 0 <= i < j < s.len() ==> lex_le(#[trigger] s[i], #[trigger] s[j])
}

/// Comparing two sequences that agree on their first `i` characters comes
/// down to comparing what follows.
proof fn lemma_lex_skip(a: Seq<char>, b: Seq<char>, i: int)
    requires
        0 <= i <= a.len(),
        i <= b.len(),
        a.subrange(0, i) == b.subrange(0, i),
    ensures
        lex_le(a, b) == lex_le(a.skip(i), b.skip(i)),
    decreases i,
{
    if i == 0 {
        assert(a.skip(0) =~= a);
        assert(b.skip(0) =~= b);
    } else {
        assert(a.subrange(0, i)[0] == a[0]);
        assert(b.subrange(0, i)[0] == b[0]);
        assert(a.drop_first().subrange(0, i - 1) =~= b.drop_first().subrange(0, i - 1)) by {
            assert forall|k: int| 0 <= k < i - 1 implies #[trigger] a.drop_first().subrange(
                0,
                i - 1,
            )[k] == b.drop_first().subrange(0, i - 1)[k] by {
                assert(a.drop_first().subrange(0, i - 1)[k] == a.drop_first()[k]);
                assert(b.drop_first().subrange(0, i - 1)[k] == b.drop_first()[k]);
                assert(a.drop_first()[k] == a[k + 1]);
                assert(b.drop_first()[k] == b[k + 1]);
                assert(a.subrange(0, i)[k + 1] == a[k + 1]);
                assert(b.subrange(0, i)[k + 1] == b[k + 1]);
                assert(a.subrange(0, i)[k + 1] == b.subrange(0, i)[k + 1]);
            }
        }
        lemma_lex_skip(a.drop_first(), b.drop_first(), i - 1);
        assert(a.drop_first().skip(i - 1) =~= a.skip(i));
        assert(b.drop_first().skip(i - 1) =~= b.skip(i));
    }
}

/// The order is total.
proof fn lemma_lex_total(a: Seq<char>, b: Seq<char>)
    ensures
        lex_le(a, b) || lex_le(b, a),
    decreases a.len(),
{
    if a.len() > 0 && b.len() > 0 && a[0] == b[0] {
        lemma_lex_total(a.drop_first(), b.drop_first());
    }
}

/// The order is transitive.
proof fn lemma_lex_trans(a: Seq<char>, b: Seq<char>, c: Seq<char>)
    requires
        lex_le(a, b),
        lex_le(b, c),
    ensures
        lex_le(a, c),
    decreases a.len(),
{
    if a.len() > 0 && b.len() > 0 && c.len() > 0 && a[0] == b[0] && b[0] == c[0] {
        lemma_lex_trans(a.drop_first(), b.drop_first(), c.drop_first());
    }
}

/// Compares two names lexicographically.
fn str_lex_le(a: &String, b: &String) -> (r: bool)
    ensures
        r == lex_le(a@, b@),
{
    let alen: usize = a.as_str().unicode_len();
    let blen: usize = b.as_str().unicode_len();
    let mut i: usize = 0;
    while i < alen && i < blen
        invariant
            alen == a@.len(),
            blen == b@.len(),
            0 <= i <= alen,
            i <= blen,
            a@.subrange(0, i as int) == b@.subrange(0, i as int),
        decreases alen - i,
    {
        let ca = a.as_str().get_char(i);
        let cb = b.as_str().get_char(i);
        if ca != cb {
            proof {
                lemma_lex_skip(a@, b@, i as int);
                assert(a@.skip(i as int)[0] == a@[i as int]);
                assert(b@.skip(i as int)[0] == b@[i as int]);
            }
            return (ca as u32) < (cb as u32);
        }
        proof {
            assert(a@.subrange(0, i + 1) =~= b@.subrange(0, i + 1));
        }
        i += 1;
    }
    proof {
        lemma_lex_skip(a@, b@, i as int);
        if i == alen {
            assert(a@.skip(i as int).len() == 0);
        } else {
            assert(b@.skip(i as int).len() == 0);
            assert(a@.skip(i as int).len() > 0);
        }
    }
    alen <= blen
}

/// Sorts a listing of names lexicographically, keeping every occurrence:
/// the result is a sorted rearrangement of the input.
pub fn sort_stems(v: &Vec<String>) -> (r: Vec<String>)
    ensures
        sorted_lex(r@.map_values(|s: String| s@)),
        r@.map_values(|s: String| s@).to_multiset() == v@.map_values(|s: String| s@).to_multiset(),
{
    let mut out: Vec<String> = Vec::new();
    let mut k: usize = 0;
    while k < v.len()
        invariant
            0 <= k <= v@.len(),
            sorted_lex(out@.map_values(|s: String| s@)),
            out@.map_values(|s: String| s@).to_multiset() == v@.take(k as int).map_values(
                |s: String| s@,
            ).to_multiset(),
        decreases v@.len() - k,
    {
        let x = v[k].clone();
        let ghost old_out = out@;
        let mut p: usize = 0;
        while p < out.len() && str_lex_le(&out[p], &x)
            invariant
                0 <= k < v@.len(),
                out@ == old_out,
                x@ == v@[k as int]@,
                0 <= p <= out@.len(),
                forall|q: int| 0 <= q < p ==> lex_le(#[trigger] out@[q]@, x@),
            decreases out@.len() - p,
        {
            p += 1;
        }
        out.insert(p, x);
        proof {
            let m = |s: String| s@;
            let mapped_old = old_out.map_values(m);
            let mapped_new = out@.map_values(m);
            old_out.insert_ensures(p as int, v@[k as int]);
            mapped_old.insert_ensures(p as int, v@[k as int]@);
            assert(mapped_new =~= mapped_old.insert(p as int, v@[k as int]@));
            assert forall|i: int, j: int| 0 <= i < j < mapped_new.len() implies lex_le(
                #[trigger] mapped_new[i],
                #[trigger] mapped_new[j],
            ) by {
                if p < mapped_old.len() {
                    lemma_lex_total(mapped_old[p as int], v@[k as int]@);
                }
                if j == p {
                    assert(lex_le(mapped_new[i], mapped_new[j]));
                } else if i == p {
                    if j - 1 == p {
                        assert(lex_le(v@[k as int]@, mapped_old[p as int]));
                    } else {
                        assert(lex_le(mapped_old[p as int], mapped_old[j - 1]));
                        lemma_lex_trans(v@[k as int]@, mapped_old[p as int], mapped_old[j - 1]);
                    }
                } else if i < p && j > p {
                    assert(lex_le(mapped_old[i], mapped_old[j - 1]));
                } else if i > p {
                    assert(lex_le(mapped_old[i - 1], mapped_old[j - 1]));
                } else {
                    assert(lex_le(mapped_old[i], mapped_old[j]));
                }
            }
            assert(v@.take(k + 1) == v@.take(k as int).push(v@[k as int]));
            v@.take(k as int).lemma_push_map_commute(m, v@[k as int]);
            assert(mapped_new.to_multiset() == v@.take(k + 1).map_values(m).to_multiset());
        }
        k += 1;
    }
    proof {
        assert(v@.take(v@.len() as int) == v@);
    }
    out
}

/// The listing for a query: the stems of every resolved track, sorted
/// lexicographically, duplicates kept. Empty exactly when the query
/// resolved to nothing.
pub fn list_stems(snap: &IndexSnapshot, query: &str) -> (r: Vec<String>)
    ensures
        sorted_lex(r@.map_values(|s: String| s@)),
        r@.map_values(|s: String| s@).to_multiset() == resolve_stems(
            snap@.tracks,
            normalize(query@),
        ).to_multiset(),
{
    let ghost models = snap@.tracks;
    let qv = normalize_chars(query);
    let ids = resolve_indices(snap, &qv);
    let mut stems: Vec<String> = Vec::new();
    let mut j: usize = 0;
    while j < ids.len()
        invariant
            0 <= j <= ids@.len(),
            models == snap@.tracks,
            ids@.map_values(|u: usize| u as int) == resolve_spec(models, qv@),
            forall|k: int| 0 <= k < ids@.len() ==> #[trigger] ids@[k] < snap.tracks@.len(),
            stems@.map_values(|s: String| s@) == resolve_stems(models, qv@).take(j as int),
        decreases ids@.len() - j,
    {
        proof {
            assert(ids@.map_values(|u: usize| u as int)[j as int] == ids@[j as int] as int);
            assert(resolve_stems(models, qv@)[j as int] == models[ids@[j as int] as int].stem);
        }
        let ghost old_stems = stems@;
        stems.push(snap.tracks[ids[j]].stem.clone());
        proof {
            let m = |s: String| s@;
            old_stems.lemma_push_map_commute(m, stems@.last());
            assert(old_stems.push(stems@.last()) =~= stems@);
            assert(stems@.last()@ == models[ids@[j as int] as int].stem);
            assert(resolve_stems(models, qv@).take(j + 1) =~= resolve_stems(models, qv@).take(
                j as int,
            ).push(resolve_stems(models, qv@)[j as int]));
            assert(stems@.map_values(m) == resolve_stems(models, qv@).take(j + 1));
        }
        j += 1;
    }
    proof {
        assert(resolve_stems(models, qv@).take(ids@.len() as int) == resolve_stems(models, qv@));
    }
    sort_stems(&stems)
}

/// Relies on rand's Rng::gen_range: returns a value uniformly distributed
/// over the given range; panics only when the range is empty.
#[verifier::external_body]
fn pick_index(n: usize) -> (r: usize)
    requires
        n >= 1,
    ensures
        r < n,
{
    rand::Rng::gen_range(&mut rand::thread_rng(), 0..n)
}

/// Picks one of the resolved candidates uniformly at random.
pub fn pick_candidate(candidates: &Vec<usize>) -> (r: usize)
    requires
        candidates@.len() >= 1,
    ensures
        candidates@.contains(r),
{
    let i = pick_index(candidates.len());
    candidates[i]
}

} // verus!
