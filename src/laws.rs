//! Laws of the scan operations, proved over their contracts.

use vstd::prelude::*;
use crate::classify::is_audio_name;
use crate::tags::{metadata_of, opt_text, TagFields};
use crate::order::{is_stable_order, lemma_ranks_before_asym, lists, ranks_before};
use crate::scan::{
    audio_found, is_audio_file, is_track_of, lemma_audio_found_concat, sorted_tracks, track_ids,
    track_keys, FileEntry, ScannedFile, Track,
};

verus! {

/// Entry `o` is a regular file whose path and name the track carries.
pub open spec fn entry_gives(o: Option<ScannedFile>, t: Track) -> bool {
    match o {
        Some(f) => f.file.is_file && f.file.path@ == t.path@ && f.file.file_name@ == t.filename@,
        None => false,
    }
}

/// Some entry of the walk gives the track.
pub open spec fn from_walk(es: Seq<Option<ScannedFile>>, t: Track) -> bool {
    exists|i: int| 0 <= i < es.len() && entry_gives(#[trigger] es[i], t)
}

/// Some track of `out` carries the entry's path and name.
pub open spec fn lists_file(out: Seq<Track>, f: FileEntry) -> bool {
    exists|k: int| 0 <= k < out.len() && (#[trigger] out[k]).path@ == f.path@ && out[k].filename@ == f.file_name@
}

pub open spec fn found_has(found: Seq<ScannedFile>, f: ScannedFile) -> bool {
    exists|j: int| 0 <= j < found.len() && found[j] == f
}

pub open spec fn audio_entry_found(found: Seq<ScannedFile>, o: Option<ScannedFile>) -> bool {
    match o {
        Some(f) => is_audio_file(f) ==> found_has(found, f),
        None => true,
    }
}

pub open spec fn walked(es: Seq<Option<ScannedFile>>, f: ScannedFile) -> bool {
    exists|i: int| 0 <= i < es.len() && es[i] == Some(f)
}

proof fn lemma_audio_found_members(es: Seq<Option<ScannedFile>>)
    ensures
        forall|j: int|
            0 <= j < audio_found(es).len() ==> is_audio_file(#[trigger] audio_found(es)[j]) && walked(
                es,
                audio_found(es)[j],
            ),
        forall|i: int| 0 <= i < es.len() ==> audio_entry_found(audio_found(es), #[trigger] es[i]),
    decreases es.len(),
{
    if es.len() > 0 {
        let rest = es.drop_last();
        lemma_audio_found_members(rest);
        let found = audio_found(es);
        let prev = audio_found(rest);
        assert forall|j: int| 0 <= j < found.len() implies is_audio_file(#[trigger] found[j]) && walked(
            es,
            found[j],
        ) by {
            if j < prev.len() {
                assert(found[j] == prev[j]);
                let i = choose|i: int| 0 <= i < rest.len() && rest[i] == Some(prev[j]);
                assert(es[i] == rest[i]);
            } else {
                assert(es[es.len() - 1] == Some(found[j]));
            }
        }
        assert forall|i: int| 0 <= i < es.len() implies audio_entry_found(found, #[trigger] es[i]) by {
            if i < rest.len() {
                assert(es[i] == rest[i]);
                assert(audio_entry_found(prev, rest[i]));
                if let Some(f) = es[i] {
                    if is_audio_file(f) {
                        let j = choose|j: int| 0 <= j < prev.len() && prev[j] == f;
                        assert(found[j] == prev[j]);
                    }
                }
            } else {
                if let Some(f) = es[i] {
                    if is_audio_file(f) {
                        assert(found[prev.len() as int] == f);
                    }
                }
            }
        }
    }
}

/// A directory scan lists exactly the audio files of the walk: every track
/// comes from a regular file of the walk with an audio extension, every such
/// file is listed, and no file is listed twice.
pub proof fn scan_lists_exactly_audio_files(es: Seq<Option<ScannedFile>>, out: Seq<Track>)
    requires
        sorted_tracks(audio_found(es), out),
    ensures
        forall|k: int| 0 <= k < out.len() ==> is_audio_name((#[trigger] out[k]).filename@) && from_walk(es, out[k]),
        forall|i: int|
            0 <= i < es.len() ==> match #[trigger] es[i] {
                Some(f) => is_audio_file(f) ==> lists_file(out, f.file),
                None => true,
            },
        forall|a: int, b: int| 0 <= a < b < out.len() ==> (#[trigger] out[a]).id != (#[trigger] out[b]).id,
{
    let found = audio_found(es);
    lemma_audio_found_members(es);
    let ids = track_ids(out);
    assert forall|k: int| 0 <= k < out.len() implies is_audio_name((#[trigger] out[k]).filename@) && from_walk(
        es,
        out[k],
    ) by {
        assert(ids[k] == out[k].id);
        let j = out[k].id as int;
        assert(is_track_of(out[k], j, found[j]));
        assert(is_audio_file(found[j]) && walked(es, found[j]));
        let i = choose|i: int| 0 <= i < es.len() && es[i] == Some(found[j]);
        assert(entry_gives(es[i], out[k]));
    }
    assert forall|i: int| 0 <= i < es.len() implies match #[trigger] es[i] {
        Some(f) => is_audio_file(f) ==> lists_file(out, f.file),
        None => true,
    } by {
        assert(audio_entry_found(found, es[i]));
        if let Some(f) = es[i] {
            if is_audio_file(f) {
                let j = choose|j: int| 0 <= j < found.len() && found[j] == f;
                assert(lists(ids, j));
                let k = choose|k: int| 0 <= k < ids.len() && ids[k] == j;
                assert(ids[k] == out[k].id);
                assert(is_track_of(out[k], j, found[j]));
            }
        }
    }
    assert forall|a: int, b: int| 0 <= a < b < out.len() implies (#[trigger] out[a]).id != (#[trigger] out[b]).id by {
        assert(ids[a] == out[a].id && ids[b] == out[b].id);
        assert(ranks_before(track_keys(found), ids[a] as int, ids[b] as int));
        if ids[a] == ids[b] {
            lemma_ranks_before_asym(track_keys(found), ids[a] as int, ids[b] as int);
        }
    }
}

proof fn lemma_stable_order_prefix(ks: Seq<Seq<char>>, o1: Seq<usize>, o2: Seq<usize>, n: int, k: int)
    requires
        is_stable_order(ks, o1, n),
        is_stable_order(ks, o2, n),
        0 <= k < n,
    ensures
        forall|j: int| 0 <= j <= k ==> o1[j] == o2[j],
    decreases k,
{
    if k > 0 {
        lemma_stable_order_prefix(ks, o1, o2, n, k - 1);
    }
    let x = o1[k] as int;
    let y = o2[k] as int;
    assert(lists(o1, y));
    assert(lists(o2, x));
    let p = choose|p: int| 0 <= p < o1.len() && o1[p] == y;
    let q = choose|q: int| 0 <= q < o2.len() && o2[q] == x;
    if p < k {
        assert(o2[p] == y);
        assert(ranks_before(ks, o2[p] as int, o2[k] as int));
        lemma_ranks_before_asym(ks, y, y);
    }
    if q < k {
        assert(o1[q] == x);
        assert(ranks_before(ks, o1[q] as int, o1[k] as int));
        lemma_ranks_before_asym(ks, x, x);
    }
    if p > k && q > k {
        assert(ranks_before(ks, o1[k] as int, o1[p] as int));
        assert(ranks_before(ks, o2[k] as int, o2[q] as int));
        lemma_ranks_before_asym(ks, x, y);
    }
}

/// There is one stable order of given keys: two orders of the same keys
/// agree position by position.
pub proof fn stable_order_is_unique(ks: Seq<Seq<char>>, o1: Seq<usize>, o2: Seq<usize>, n: int)
    requires
        is_stable_order(ks, o1, n),
        is_stable_order(ks, o2, n),
    ensures
        o1 == o2,
{
    if n > 0 {
        lemma_stable_order_prefix(ks, o1, o2, n, n - 1);
    }
    assert(o1 =~= o2);
}

/// Two scans of the same walk list the same tracks in the same order.
pub proof fn scan_order_is_deterministic(es: Seq<Option<ScannedFile>>, o1: Seq<Track>, o2: Seq<Track>)
    requires
        sorted_tracks(audio_found(es), o1),
        sorted_tracks(audio_found(es), o2),
    ensures
        track_ids(o1) == track_ids(o2),
        o1.len() == o2.len(),
        forall|k: int|
            0 <= k < o1.len() ==> (#[trigger] o1[k]).path@ == o2[k].path@ && o1[k].filename@ == o2[k].filename@,
{
    let found = audio_found(es);
    stable_order_is_unique(track_keys(found), track_ids(o1), track_ids(o2), found.len() as int);
    assert forall|k: int| 0 <= k < o1.len() implies (#[trigger] o1[k]).path@ == o2[k].path@
        && o1[k].filename@ == o2[k].filename@ by {
        assert(track_ids(o1)[k] == o1[k].id && track_ids(o2)[k] == o2[k].id);
        assert(is_track_of(o1[k], o1[k].id as int, found[o1[k].id as int]));
        assert(is_track_of(o2[k], o2[k].id as int, found[o2[k].id as int]));
    }
}

/// An entry that the walk failed to read changes nothing: the scan of the
/// walk equals the scan of the walk without it.
pub proof fn failed_entry_is_skipped(es: Seq<Option<ScannedFile>>, i: int, out: Seq<Track>)
    requires
        0 <= i < es.len(),
        es[i] is None,
    ensures
        audio_found(es.remove(i)) == audio_found(es),
        sorted_tracks(audio_found(es), out) <==> sorted_tracks(audio_found(es.remove(i)), out),
{
    let a = es.subrange(0, i);
    let b = es.subrange(i + 1, es.len() as int);
    let none = seq![es[i]];
    assert(es =~= a + none + b);
    assert(es.remove(i) =~= a + b);
    lemma_audio_found_concat(a + none, b);
    lemma_audio_found_concat(a, none);
    lemma_audio_found_concat(a, b);
    assert(none.drop_last() =~= Seq::<Option<ScannedFile>>::empty());
    assert(none.last() is None);
    assert(audio_found(none.drop_last()) =~= Seq::<ScannedFile>::empty());
    assert(audio_found(none) =~= Seq::<ScannedFile>::empty());
    assert(audio_found(a) + audio_found(none) =~= audio_found(a));
}

/// The tags read from a file are fixed by its name and contents: two reads of
/// the same contents give the same title, artist and album.
pub proof fn metadata_is_determined(
    file_name: Seq<char>,
    contents: Option<Vec<u8>>,
    r1: TagFields,
    r2: TagFields,
)
    requires
        metadata_of(file_name, contents, r1),
        metadata_of(file_name, contents, r2),
    ensures
        opt_text(r1.title) == opt_text(r2.title),
        opt_text(r1.artist) == opt_text(r2.artist),
        opt_text(r1.album) == opt_text(r2.album),
{
}

/// No path occurs twice among the entries of the walk.
pub open spec fn walk_paths_distinct(es: Seq<Option<ScannedFile>>) -> bool {
    forall|i: int, j: int|
        0 <= i < j < es.len() ==> match (#[trigger] es[i], #[trigger] es[j]) {
            (Some(a), Some(b)) => a.file.path@ != b.file.path@,
            _ => true,
        }
}

proof fn lemma_found_paths_distinct(es: Seq<Option<ScannedFile>>)
    requires
        walk_paths_distinct(es),
    ensures
        forall|a: int, b: int|
            0 <= a < b < audio_found(es).len() ==> (#[trigger] audio_found(es)[a]).file.path@
                != (#[trigger] audio_found(es)[b]).file.path@,
    decreases es.len(),
{
    if es.len() > 0 {
        let rest = es.drop_last();
        assert forall|i: int, j: int| 0 <= i < j < rest.len() implies match (#[trigger] rest[i], #[trigger] rest[j]) {
            (Some(a), Some(b)) => a.file.path@ != b.file.path@,
            _ => true,
        } by {
            assert(rest[i] == es[i] && rest[j] == es[j]);
        }
        lemma_found_paths_distinct(rest);
        lemma_audio_found_members(rest);
        let found = audio_found(es);
        let prev = audio_found(rest);
        assert forall|a: int, b: int| 0 <= a < b < found.len() implies (#[trigger] found[a]).file.path@
            != (#[trigger] found[b]).file.path@ by {
            if b < prev.len() {
                assert(found[a] == prev[a] && found[b] == prev[b]);
            } else {
                assert(found[a] == prev[a]);
                assert(walked(rest, prev[a]));
                let i = choose|i: int| 0 <= i < rest.len() && rest[i] == Some(prev[a]);
                assert(es[i] == rest[i]);
                assert(es[es.len() - 1] == Some(found[b]));
            }
        }
    }
}

/// Where the walk yields no path twice, no path is listed twice.
pub proof fn scan_lists_no_path_twice(es: Seq<Option<ScannedFile>>, out: Seq<Track>)
    requires
        walk_paths_distinct(es),
        sorted_tracks(audio_found(es), out),
    ensures
        forall|a: int, b: int| 0 <= a < b < out.len() ==> (#[trigger] out[a]).path@ != (#[trigger] out[b]).path@,
{
    let found = audio_found(es);
    lemma_found_paths_distinct(es);
    scan_lists_exactly_audio_files(es, out);
    assert forall|a: int, b: int| 0 <= a < b < out.len() implies (#[trigger] out[a]).path@
        != (#[trigger] out[b]).path@ by {
        let ids = track_ids(out);
        assert(ids[a] == out[a].id && ids[b] == out[b].id);
        assert(is_track_of(out[a], out[a].id as int, found[out[a].id as int]));
        assert(is_track_of(out[b], out[b].id as int, found[out[b].id as int]));
        if (out[a].id as int) > (out[b].id as int) {
            assert(found[out[b].id as int].file.path@ != found[out[a].id as int].file.path@);
        }
    }
}

} // verus!
