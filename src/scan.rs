//! The track scans over walked directory entries: audio files become tracks
//! numbered in discovery order and listed by case-insensitive file name.
//! Entries the walk could not read are skipped.

use vstd::prelude::*;
use crate::classify::{is_audio, is_audio_name, lower_of, lowercase};
use crate::names::{file_stem, stem_of};
use crate::order::{chars_of, is_stable_order, key_views, stable_order};
use crate::tags::TagFields;

verus! {

/// One entry yielded by a directory walk.
pub struct FileEntry {
    /// The full path of the entry.
    pub path: String,
    /// Its base name, extension included.
    pub file_name: String,
    /// Whether it is a regular file (not a directory, link or special file).
    pub is_file: bool,
}

/// A walked entry together with the tags read from it.
pub struct ScannedFile {
    pub file: FileEntry,
    pub tags: TagFields,
}

/// An audio file as listed: `id` numbers the files of one scan in the order
/// they were found, from 0.
pub struct Track {
    pub id: usize,
    pub path: String,
    pub filename: String,
    pub title: Option<String>,
    pub artist: Option<String>,
    pub album: Option<String>,
}

pub open spec fn opt_view(o: Option<String>) -> Option<Seq<char>> {
    match o {
        None => None,
        Some(s) => Some(s@),
    }
}

pub open spec fn is_audio_file(f: ScannedFile) -> bool {
    f.file.is_file && is_audio_name(f.file.file_name@)
}

/// The audio files among the entries, in walk order; failed entries are
/// passed over.
pub open spec fn audio_found(es: Seq<Option<ScannedFile>>) -> Seq<ScannedFile>
    decreases es.len(),
{
    if es.len() == 0 {
        Seq::empty()
    } else {
        let rest = audio_found(es.drop_last());
        match es.last() {
            Some(f) => if is_audio_file(f) {
                rest.push(f)
            } else {
                rest
            },
            None => rest,
        }
    }
}

/// The title shown for a file: its tag's title, else its stem.
pub open spec fn title_text(f: ScannedFile) -> Seq<char> {
    match f.tags.title {
        Some(t) => t@,
        None => stem_of(f.file.file_name@),
    }
}

/// `t` is the track made of file `f` under number `id`.
pub open spec fn is_track_of(t: Track, id: int, f: ScannedFile) -> bool {
    &&& t.id == id
    &&& t.path@ == f.file.path@
    &&& t.filename@ == f.file.file_name@
    &&& opt_view(t.title) == Some(title_text(f))
    &&& opt_view(t.artist) == opt_view(f.tags.artist)
    &&& opt_view(t.album) == opt_view(f.tags.album)
}

pub open spec fn track_keys(found: Seq<ScannedFile>) -> Seq<Seq<char>> {
    found.map_values(|f: ScannedFile| lower_of(f.file.file_name@))
}

pub open spec fn track_ids(out: Seq<Track>) -> Seq<usize> {
    out.map_values(|t: Track| t.id)
}

/// `out` holds one track for each found file, numbered in the order found,
/// and lists them by lower-cased file name, ties in the order found.
pub open spec fn sorted_tracks(found: Seq<ScannedFile>, out: Seq<Track>) -> bool {
    &&& is_stable_order(track_keys(found), track_ids(out), found.len() as int)
    &&& forall|k: int|
        0 <= k < out.len() ==> is_track_of(#[trigger] out[k], out[k].id as int, found[out[k].id as int])
}

/// The concatenation of the groups, in order.
pub open spec fn concat_all(gs: Seq<Seq<Option<ScannedFile>>>) -> Seq<Option<ScannedFile>>
    decreases gs.len(),
{
    if gs.len() == 0 {
        Seq::empty()
    } else {
        concat_all(gs.drop_last()) + gs.last()
    }
}

pub open spec fn group_views(groups: Seq<Vec<Option<ScannedFile>>>) -> Seq<Seq<Option<ScannedFile>>> {
    groups.map_values(|g: Vec<Option<ScannedFile>>| g@)
}

fn clone_opt(o: &Option<String>) -> (r: Option<String>)
    ensures
        r == *o,
{
    match o {
        None => None,
        Some(s) => Some(s.clone()),
    }
}

impl Track {
    fn copy(&self) -> (r: Track)
        ensures
            r == *self,
    {
        Track {
            id: self.id,
            path: self.path.clone(),
            filename: self.filename.clone(),
            title: clone_opt(&self.title),
            artist: clone_opt(&self.artist),
            album: clone_opt(&self.album),
        }
    }
}

/// The track of a found file: the tag's title, or else the file name with
/// its extension suffix stripped; artist and album only as tagged.
pub fn make_track(id: usize, f: &ScannedFile) -> (r: Track)
    ensures
        is_track_of(r, id as int, *f),
{
    let title = match &f.tags.title {
        Some(t) => t.clone(),
        None => file_stem(f.file.file_name.as_str()),
    };
    Track {
        id,
        path: f.file.path.clone(),
        filename: f.file.file_name.clone(),
        title: Some(title),
        artist: clone_opt(&f.tags.artist),
        album: clone_opt(&f.tags.album),
    }
}

pub open spec fn assembled(found: Seq<ScannedFile>, tracks: Seq<Track>, keys: Seq<Vec<char>>) -> bool {
    &&& tracks.len() == found.len()
    &&& keys.len() == found.len()
    &&& forall|k: int| 0 <= k < found.len() ==> is_track_of(#[trigger] tracks[k], k, found[k])
    &&& forall|k: int| 0 <= k < found.len() ==> (#[trigger] keys[k])@ == lower_of(found[k].file.file_name@)
}

pub proof fn lemma_audio_found_concat(a: Seq<Option<ScannedFile>>, b: Seq<Option<ScannedFile>>)
    ensures
        audio_found(a + b) == audio_found(a) + audio_found(b),
    decreases b.len(),
{
    if b.len() == 0 {
        assert(a + b =~= a);
        assert(audio_found(a) + audio_found(b) =~= audio_found(a));
    } else {
        lemma_audio_found_concat(a, b.drop_last());
        assert((a + b).drop_last() =~= a + b.drop_last());
        assert((a + b).last() == b.last());
        if let Some(f) = b.last() {
            assert(audio_found(a) + audio_found(b.drop_last()).push(f) =~= (audio_found(a)
                + audio_found(b.drop_last())).push(f));
        }
    }
}

/// Appends a track, numbered on from those present, for each audio file
/// among the entries.
fn collect_tracks(
    entries: &Vec<Option<ScannedFile>>,
    tracks: &mut Vec<Track>,
    keys: &mut Vec<Vec<char>>,
    Ghost(before): Ghost<Seq<ScannedFile>>,
)
    requires
        assembled(before, old(tracks)@, old(keys)@),
    ensures
        assembled(before + audio_found(entries@), final(tracks)@, final(keys)@),
{
    let mut i: usize = 0;
    proof {
        assert(entries@.subrange(0, 0) =~= Seq::<Option<ScannedFile>>::empty());
        assert(before + audio_found(entries@.subrange(0, 0)) =~= before);
    }
    while i < entries.len()
        invariant
            i <= entries@.len(),
            assembled(before + audio_found(entries@.subrange(0, i as int)), tracks@, keys@),
        decreases entries.len() - i,
    {
        let ghost prev = before + audio_found(entries@.subrange(0, i as int));
        proof {
            assert(entries@.subrange(0, i + 1).drop_last() =~= entries@.subrange(0, i as int));
            assert(entries@.subrange(0, i + 1).last() == entries@[i as int]);
        }
        match &entries[i] {
            None => {},
            Some(f) => {
                if f.file.is_file && is_audio(f.file.file_name.as_str()) {
                    let id = tracks.len();
                    let t = make_track(id, f);
                    let key = chars_of(lowercase(f.file.file_name.as_str()).as_str());
                    tracks.push(t);
                    keys.push(key);
                    proof {
                        let next = before + audio_found(entries@.subrange(0, i + 1));
                        assert(next =~= prev.push(*f));
                        assert forall|k: int| 0 <= k < next.len() implies is_track_of(
                            #[trigger] tracks@[k],
                            k,
                            next[k],
                        ) by {
                            if k < prev.len() {
                                assert(next[k] == prev[k]);
                            }
                        }
                        assert forall|k: int| 0 <= k < next.len() implies (#[trigger] keys@[k])@
                            == lower_of(next[k].file.file_name@) by {
                            if k < prev.len() {
                                assert(next[k] == prev[k]);
                            }
                        }
                    }
                }
            },
        }
        i = i + 1;
    }
    assert(entries@.subrange(0, entries@.len() as int) =~= entries@);
}

/// Lists the assembled tracks in stable order of their keys.
fn sort_tracks(tracks: &Vec<Track>, keys: &Vec<Vec<char>>, Ghost(found): Ghost<Seq<ScannedFile>>) -> (r: Vec<Track>)
    requires
        assembled(found, tracks@, keys@),
    ensures
        sorted_tracks(found, r@),
{
    let order = stable_order(keys);
    proof {
        assert(key_views(keys@) =~= track_keys(found));
    }
    let mut out: Vec<Track> = Vec::new();
    let mut k: usize = 0;
    while k < order.len()
        invariant
            k <= order@.len(),
            assembled(found, tracks@, keys@),
            is_stable_order(track_keys(found), order@, found.len() as int),
            out@.len() == k,
            forall|j: int| 0 <= j < k ==> (#[trigger] out@[j]) == tracks@[order@[j] as int],
        decreases order.len() - k,
    {
        out.push(tracks[order[k]].copy());
        k = k + 1;
    }
    proof {
        assert forall|j: int| 0 <= j < out@.len() implies (#[trigger] out@[j]).id == order@[j] by {
            assert(is_track_of(tracks@[order@[j] as int], order@[j] as int, found[order@[j] as int]));
        }
        assert(track_ids(out@) =~= order@);
        assert forall|j: int| 0 <= j < out@.len() implies is_track_of(
            #[trigger] out@[j],
            out@[j].id as int,
            found[out@[j].id as int],
        ) by {
            assert(is_track_of(tracks@[order@[j] as int], order@[j] as int, found[order@[j] as int]));
        }
    }
    out
}

/// Tracks for the audio files among the walked entries of one root: one per
/// regular file with an audio extension, numbered in walk order and listed
/// by lower-cased file name, ties in walk order. Failed entries are skipped.
pub fn scan_directory(entries: &Vec<Option<ScannedFile>>) -> (r: Vec<Track>)
    ensures
        sorted_tracks(audio_found(entries@), r@),
{
    let mut tracks: Vec<Track> = Vec::new();
    let mut keys: Vec<Vec<char>> = Vec::new();
    collect_tracks(entries, &mut tracks, &mut keys, Ghost(Seq::empty()));
    assert(Seq::<ScannedFile>::empty() + audio_found(entries@) =~= audio_found(entries@));
    sort_tracks(&tracks, &keys, Ghost(audio_found(entries@)))
}

/// Tracks for a list of dropped paths, one group of entries per path: the
/// walk of a folder, the entry of a plain file, nothing for a path that is
/// neither. Numbered across all groups in order and listed as one scan.
pub fn scan_files(groups: &Vec<Vec<Option<ScannedFile>>>) -> (r: Vec<Track>)
    ensures
        sorted_tracks(audio_found(concat_all(group_views(groups@))), r@),
{
    let mut tracks: Vec<Track> = Vec::new();
    let mut keys: Vec<Vec<char>> = Vec::new();
    let mut g: usize = 0;
    let ghost gs = group_views(groups@);
    proof {
        assert(gs.subrange(0, 0) =~= Seq::<Seq<Option<ScannedFile>>>::empty());
        assert(audio_found(concat_all(gs.subrange(0, 0))) =~= Seq::<ScannedFile>::empty());
    }
    while g < groups.len()
        invariant
            g <= groups@.len(),
            gs == group_views(groups@),
            assembled(audio_found(concat_all(gs.subrange(0, g as int))), tracks@, keys@),
        decreases groups.len() - g,
    {
        let ghost before = audio_found(concat_all(gs.subrange(0, g as int)));
        collect_tracks(&groups[g], &mut tracks, &mut keys, Ghost(before));
        proof {
            let next = gs.subrange(0, g + 1);
            assert(next.drop_last() =~= gs.subrange(0, g as int));
            assert(next.last() == groups@[g as int]@);
            lemma_audio_found_concat(concat_all(gs.subrange(0, g as int)), groups@[g as int]@);
        }
        g = g + 1;
    }
    assert(gs.subrange(0, gs.len() as int) =~= gs);
    sort_tracks(&tracks, &keys, Ghost(audio_found(concat_all(gs))))
}

} // verus!
