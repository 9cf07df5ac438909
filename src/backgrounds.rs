//! Background images: the image files directly inside a folder, listed by
//! case-insensitive name.

use vstd::prelude::*;
use crate::classify::{is_image, is_image_name, lower_of, lowercase};
use crate::names::{file_stem, stem_of};
use crate::order::{chars_of, is_stable_order, key_views, stable_order};
use crate::scan::FileEntry;

verus! {

/// An image file of the backgrounds folder: its path, and its name without
/// the extension.
pub struct BackgroundImage {
    pub path: String,
    pub name: String,
}

pub open spec fn is_image_file(f: FileEntry) -> bool {
    f.is_file && is_image_name(f.file_name@)
}

/// The image files among the entries, in walk order; failed entries are
/// passed over.
pub open spec fn images_found(es: Seq<Option<FileEntry>>) -> Seq<FileEntry>
    decreases es.len(),
{
    if es.len() == 0 {
        Seq::empty()
    } else {
        let rest = images_found(es.drop_last());
        match es.last() {
            Some(f) => if is_image_file(f) {
                rest.push(f)
            } else {
                rest
            },
            None => rest,
        }
    }
}

pub open spec fn is_background_of(b: BackgroundImage, f: FileEntry) -> bool {
    b.path@ == f.path@ && b.name@ == stem_of(f.file_name@)
}

pub open spec fn background_keys(found: Seq<FileEntry>) -> Seq<Seq<char>> {
    found.map_values(|f: FileEntry| lower_of(stem_of(f.file_name@)))
}

pub open spec fn path_keys(found: Seq<FileEntry>) -> Seq<Seq<char>> {
    found.map_values(|f: FileEntry| f.path@)
}

/// `out` lists a background for each found image, by lower-cased name, ties
/// in walk order.
pub open spec fn sorted_backgrounds(found: Seq<FileEntry>, out: Seq<BackgroundImage>) -> bool {
    exists|order: Seq<usize>|
        #![trigger is_stable_order(background_keys(found), order, found.len() as int)]
        is_stable_order(background_keys(found), order, found.len() as int) && out.len() == order.len()
            && forall|k: int| 0 <= k < out.len() ==> is_background_of(#[trigger] out[k], found[order[k] as int])
}

/// `out` lists the paths of the found images in the order of `String`.
pub open spec fn sorted_paths(found: Seq<FileEntry>, out: Seq<String>) -> bool {
    exists|order: Seq<usize>|
        #![trigger is_stable_order(path_keys(found), order, found.len() as int)]
        is_stable_order(path_keys(found), order, found.len() as int) && out.len() == order.len()
            && forall|k: int| 0 <= k < out.len() ==> (#[trigger] out[k])@ == found[order[k] as int].path@
}

pub open spec fn image_keys(found: Seq<FileEntry>, by_path: bool) -> Seq<Seq<char>> {
    if by_path {
        path_keys(found)
    } else {
        background_keys(found)
    }
}

/// The image files of the walk as backgrounds, with their sort keys: the
/// path, or the lower-cased name.
fn collect_images(entries: &Vec<Option<FileEntry>>, by_path: bool) -> (r: (Vec<BackgroundImage>, Vec<Vec<char>>))
    ensures
        r.0@.len() == images_found(entries@).len(),
        r.1@.len() == r.0@.len(),
        forall|k: int| 0 <= k < r.0@.len() ==> is_background_of(#[trigger] r.0@[k], images_found(entries@)[k]),
        key_views(r.1@) == image_keys(images_found(entries@), by_path),
{
    let mut out: Vec<BackgroundImage> = Vec::new();
    let mut keys: Vec<Vec<char>> = Vec::new();
    let mut i: usize = 0;
    while i < entries.len()
        invariant
            i <= entries@.len(),
            out@.len() == images_found(entries@.subrange(0, i as int)).len(),
            keys@.len() == out@.len(),
            forall|k: int|
                0 <= k < out@.len() ==> is_background_of(
                    #[trigger] out@[k],
                    images_found(entries@.subrange(0, i as int))[k],
                ),
            key_views(keys@) == image_keys(images_found(entries@.subrange(0, i as int)), by_path),
        decreases entries.len() - i,
    {
        let ghost prev = images_found(entries@.subrange(0, i as int));
        proof {
            assert(entries@.subrange(0, i + 1).drop_last() =~= entries@.subrange(0, i as int));
            assert(entries@.subrange(0, i + 1).last() == entries@[i as int]);
        }
        match &entries[i] {
            None => {},
            Some(f) => {
                if f.is_file && is_image(f.file_name.as_str()) {
                    let name = file_stem(f.file_name.as_str());
                    let key = if by_path {
                        chars_of(f.path.as_str())
                    } else {
                        chars_of(lowercase(name.as_str()).as_str())
                    };
                    out.push(BackgroundImage { path: f.path.clone(), name });
                    let ghost old_keys = keys@;
                    keys.push(key);
                    proof {
                        let next = images_found(entries@.subrange(0, i + 1));
                        assert(next =~= prev.push(*f));
                        assert forall|k: int| 0 <= k < out@.len() implies is_background_of(
                            #[trigger] out@[k],
                            next[k],
                        ) by {
                            if k < prev.len() {
                                assert(next[k] == prev[k]);
                            }
                        }
                        assert(key_views(keys@) =~= image_keys(next, by_path)) by {
                            assert(key_views(old_keys) == image_keys(prev, by_path));
                            assert(keys@ == old_keys.push(key));
                            assert forall|k: int| 0 <= k < next.len() implies key_views(keys@)[k] == image_keys(next, by_path)[k] by {
                                if k < prev.len() {
                                    assert(keys@[k] == old_keys[k]);
                                    assert(key_views(old_keys)[k] == old_keys[k]@);
                                    assert(next[k] == prev[k]);
                                } else {
                                    assert(keys@[k] == key);
                                }
                            }
                        }
                    }
                }
            },
        }
        i = i + 1;
    }
    assert(entries@.subrange(0, entries@.len() as int) =~= entries@);
    (out, keys)
}

impl BackgroundImage {
    fn copy(&self) -> (r: BackgroundImage)
        ensures
            r == *self,
    {
        BackgroundImage { path: self.path.clone(), name: self.name.clone() }
    }
}

/// The backgrounds among the entries of a depth-one walk of the backgrounds
/// folder: each regular file with an image extension, named by its stem,
/// listed by lower-cased name, ties in walk order. Failed entries are skipped.
pub fn get_backgrounds(entries: &Vec<Option<FileEntry>>) -> (r: Vec<BackgroundImage>)
    ensures
        sorted_backgrounds(images_found(entries@), r@),
{
    let ghost found = images_found(entries@);
    let (images, keys) = collect_images(entries, false);
    let order = stable_order(&keys);
    let mut out: Vec<BackgroundImage> = Vec::new();
    let mut k: usize = 0;
    while k < order.len()
        invariant
            k <= order@.len(),
            images@.len() == found.len(),
            forall|j: int| 0 <= j < images@.len() ==> is_background_of(#[trigger] images@[j], found[j]),
            is_stable_order(background_keys(found), order@, found.len() as int),
            out@.len() == k,
            forall|j: int| 0 <= j < k ==> (#[trigger] out@[j]) == images@[order@[j] as int],
        decreases order.len() - k,
    {
        out.push(images[order[k]].copy());
        k = k + 1;
    }
    assert(forall|j: int| 0 <= j < out@.len() ==> is_background_of(#[trigger] out@[j], found[order@[j] as int]));
    out
}

/// The paths of the image files among the entries of a depth-one walk of a
/// folder, in the order of `String`. Failed entries are skipped.
pub fn list_background_paths(entries: &Vec<Option<FileEntry>>) -> (r: Vec<String>)
    ensures
        sorted_paths(images_found(entries@), r@),
{
    let ghost found = images_found(entries@);
    let (images, keys) = collect_images(entries, true);
    let order = stable_order(&keys);
    let mut out: Vec<String> = Vec::new();
    let mut k: usize = 0;
    while k < order.len()
        invariant
            k <= order@.len(),
            images@.len() == found.len(),
            forall|j: int| 0 <= j < images@.len() ==> is_background_of(#[trigger] images@[j], found[j]),
            is_stable_order(path_keys(found), order@, found.len() as int),
            out@.len() == k,
            forall|j: int| 0 <= j < k ==> (#[trigger] out@[j])@ == found[order@[j] as int].path@,
        decreases order.len() - k,
    {
        out.push(images[order[k]].path.clone());
        k = k + 1;
    }
    out
}

} // verus!
