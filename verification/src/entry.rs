//! The catalog entry: one media file and the moment it was taken.

use vstd::prelude::*;

verus! {

/// A media file found on the card: where it is, and when it was taken, in
/// whole seconds since the Unix epoch.
#[derive(Debug, PartialEq, Eq)]
pub struct FileEntry {
    pub path: String,
    pub timestamp: i64,
}

/// What a [`FileEntry`] stands for: the text of its path and its timestamp
/// as a mathematical integer.
pub struct EntryView {
    pub path: Seq<char>,
    pub timestamp: int,
}

impl View for FileEntry {
    type V = EntryView;

    open spec fn view(&self) -> EntryView {
        EntryView { path: self.path@, timestamp: self.timestamp as int }
    }
}

impl Clone for FileEntry {
    fn clone(&self) -> (copy: Self)
        ensures
            copy == *self,
    {
        FileEntry { path: self.path.clone(), timestamp: self.timestamp }
    }
}

/// The views of a run of entries, position by position.
pub open spec fn entry_views(files: Seq<FileEntry>) -> Seq<EntryView> {
    files.map_values(|e: FileEntry| e@)
}

/// Viewing entries commutes with appending one.
pub proof fn lemma_entry_views_push(files: Seq<FileEntry>, e: FileEntry)
    ensures
        entry_views(files.push(e)) == entry_views(files).push(e@),
{
    assert(entry_views(files.push(e)) =~= entry_views(files).push(e@));
}

/// Viewing entries commutes with dropping the last one.
pub proof fn lemma_entry_views_drop_last(files: Seq<FileEntry>)
    requires
        files.len() > 0,
    ensures
        entry_views(files.drop_last()) == entry_views(files).drop_last(),
        entry_views(files).last() == files.last()@,
{
    assert(entry_views(files.drop_last()) =~= entry_views(files).drop_last());
}

/// Viewing entries commutes with concatenation.
pub proof fn lemma_entry_views_add(a: Seq<FileEntry>, b: Seq<FileEntry>)
    ensures
        entry_views(a + b) == entry_views(a) + entry_views(b),
{
    assert(entry_views(a + b) =~= entry_views(a) + entry_views(b));
}

/// A copy of every entry, in the same order.
pub fn clone_entries(files: &Vec<FileEntry>) -> (copy: Vec<FileEntry>)
    ensures
        copy@ == files@,
{
    let mut copy: Vec<FileEntry> = Vec::new();
    let mut i: usize = 0;
    while i < files.len()
        invariant
            i <= files.len(),
            copy@ == files@.take(i as int),
        decreases files.len() - i,
    {
        copy.push(files[i].clone());
        i += 1;
    }
    copy
}

} // verus!
