//! What a walk over a camera card keeps: which files are media, which
//! folders are the system's own, and which folder holds the pictures.

use vstd::prelude::*;
use crate::entry::{entry_views, lemma_entry_views_push, EntryView, FileEntry};
use crate::paths::{has_extension, path_has_extension};
use crate::text::{eq_ignore_ascii_case, same_ignoring_ascii_case, same_text};

verus! {

/// The extension of still pictures.
pub const JPG: &'static str = "jpg";

/// The extension of films.
pub const MOV: &'static str = "mov";

/// The extension of raw pictures.
pub const RW2: &'static str = "rw2";

/// The name of the folder in which a camera keeps its pictures.
pub const DCIM: &'static str = "DCIM";

/// Whether the file at `path` is a picture or a film: its extension is
/// `jpg`, `mov` or `rw2`, in small or capital ASCII letters.
pub open spec fn media_path(path: Seq<char>) -> bool {
    has_extension(path, JPG@) || has_extension(path, MOV@) || has_extension(path, RW2@)
}

/// Whether the file at `path` is a picture or a film: its extension is
/// `jpg`, `mov` or `rw2`, in small or capital ASCII letters.
pub fn is_media_file(path: &str) -> (media: bool)
    ensures
        media == media_path(path@),
{
    path_has_extension(path, JPG) || path_has_extension(path, MOV) || path_has_extension(path, RW2)
}

/// The media files among `files`, in their order.
pub open spec fn media_among(files: Seq<EntryView>) -> Seq<EntryView> {
    files.filter(|e: EntryView| media_path(e.path))
}

/// Copies of the media files among `files`, in their order.
pub fn retain_media(files: &Vec<FileEntry>) -> (media: Vec<FileEntry>)
    ensures
        entry_views(media@) == media_among(entry_views(files@)),
{
    let ghost all = entry_views(files@);
    let mut media: Vec<FileEntry> = Vec::new();
    let mut i: usize = 0;
    proof {
        reveal(Seq::filter);
        assert(all.take(0) =~= Seq::<EntryView>::empty());
        assert(entry_views(media@) =~= Seq::<EntryView>::empty());
    }
    while i < files.len()
        invariant
            i <= files.len(),
            all == entry_views(files@),
            entry_views(media@) == media_among(all.take(i as int)),
        decreases files.len() - i,
    {
        proof {
            reveal(Seq::filter);
            assert(all.take(i + 1).drop_last() =~= all.take(i as int));
            assert(all.take(i + 1).last() == files[i as int]@);
        }
        if is_media_file(files[i].path.as_str()) {
            let copy = files[i].clone();
            proof {
                lemma_entry_views_push(media@, copy);
            }
            media.push(copy);
        }
        i += 1;
    }
    assert(all.take(files.len() as int) =~= all);
    media
}

/// Whether a folder of this name is one that the operating system keeps for
/// itself on a card, and that a walk passes by.
pub open spec fn skipped_name(name: Seq<char>) -> bool {
    ||| name == ".Spotlight-V100"@
    ||| name == ".fseventsd"@
    ||| name == ".Trashes"@
    ||| name == ".DocumentRevisions-V100"@
    ||| name == ".TemporaryItems"@
}

/// Whether a folder of this name is one that the operating system keeps for
/// itself on a card, and that a walk passes by. Names are compared exactly.
pub fn is_skipped_dir(name: &str) -> (skipped: bool)
    ensures
        skipped == skipped_name(name@),
{
    same_text(name, ".Spotlight-V100") || same_text(name, ".fseventsd") || same_text(
        name,
        ".Trashes",
    ) || same_text(name, ".DocumentRevisions-V100") || same_text(name, ".TemporaryItems")
}

/// Whether an entry of a walk is the pictures folder: a directory called
/// `DCIM`, in small or capital ASCII letters.
pub fn is_dcim_folder(name: &str, is_dir: bool) -> (found: bool)
    ensures
        found == (is_dir && same_ignoring_ascii_case(name@, DCIM@)),
{
    is_dir && eq_ignore_ascii_case(name, DCIM)
}

} // verus!
