//! Photoshoots: runs of files taken close together in time.

use vstd::prelude::*;
use crate::entry::{clone_entries, entry_views, lemma_entry_views_push, EntryView, FileEntry};
use crate::order::{ascending, lemma_sorted_by_time, sort_by_time, sorted_by_time};
use crate::paths::{has_extension, path_has_extension};

verus! {

/// A group of files that belong to one shoot.
#[derive(Debug)]
pub struct Photoshoot {
    pub files: Vec<FileEntry>,
}

impl View for Photoshoot {
    type V = Seq<EntryView>;

    open spec fn view(&self) -> Seq<EntryView> {
        entry_views(self.files@)
    }
}

/// The views of a run of shoots, shoot by shoot.
pub open spec fn shoot_views(shoots: Seq<Photoshoot>) -> Seq<Seq<EntryView>> {
    shoots.map_values(|s: Photoshoot| s@)
}

/// The shoots of a catalog that is in time order: a file opens a new shoot
/// when it is more than `gap` seconds later than the file before it, and
/// joins that file's shoot otherwise.
pub open spec fn shoots_of(sorted: Seq<EntryView>, gap: int) -> Seq<Seq<EntryView>>
    decreases sorted.len(),
{
    if sorted.len() == 0 {
        Seq::empty()
    } else if sorted.len() == 1 {
        seq![sorted]
    } else {
        let earlier = shoots_of(sorted.drop_last(), gap);
        let e = sorted.last();
        if e.timestamp - sorted[sorted.len() - 2].timestamp > gap {
            earlier.push(seq![e])
        } else {
            earlier.update(earlier.len() - 1, earlier.last().push(e))
        }
    }
}

/// Each file of `files` is at most `gap` seconds later than the one before it.
pub open spec fn close_together(files: Seq<EntryView>, gap: int) -> bool {
    forall|i: int, j: int|
        0 <= i && j == i + 1 && j < files.len() ==> files[j].timestamp - files[i].timestamp <= gap
}

/// Each shoot but the first starts more than `gap` seconds after the shoot
/// before it has ended.
pub open spec fn far_apart(shoots: Seq<Seq<EntryView>>, gap: int) -> bool {
    forall|k: int, l: int|
        0 <= k && l == k + 1 && l < shoots.len() ==> shoots[l].first().timestamp
            - shoots[k].last().timestamp > gap
}

/// No shoot starts before a shoot in front of it.
pub open spec fn starts_ascending(shoots: Seq<Seq<EntryView>>) -> bool {
    forall|k: int, l: int|
        0 <= k <= l < shoots.len() ==> shoots[k].first().timestamp <= shoots[l].first().timestamp
}

/// A shoot as segmentation produces it: it has a file, its files are in time
/// order, and none is more than `gap` seconds later than the one before it.
pub open spec fn coherent(shoot: Seq<EntryView>, gap: int) -> bool {
    &&& shoot.len() > 0
    &&& ascending(shoot)
    &&& close_together(shoot, gap)
}

/// The shoots in a row give back the catalog they were cut from, none is
/// empty, files within a shoot are close together and shoots are far apart.
pub proof fn lemma_shoots_of(sorted: Seq<EntryView>, gap: int)
    ensures
        shoots_of(sorted, gap).flatten() == sorted,
        forall|k: int|
            0 <= k < shoots_of(sorted, gap).len() ==> (#[trigger] shoots_of(sorted, gap)[k]).len()
                > 0,
        forall|k: int|
            0 <= k < shoots_of(sorted, gap).len() ==> close_together(
                #[trigger] shoots_of(sorted, gap)[k],
                gap,
            ),
        far_apart(shoots_of(sorted, gap), gap),
        sorted.len() > 0 ==> shoots_of(sorted, gap).len() > 0 && shoots_of(
            sorted,
            gap,
        ).last().last() == sorted.last(),
        sorted.len() == 0 <==> shoots_of(sorted, gap).len() == 0,
    decreases sorted.len(),
{
    broadcast use Seq::group_seq_flatten;
    let shoots = shoots_of(sorted, gap);
    if sorted.len() == 1 {
        assert(shoots[0] == sorted);
    } else if sorted.len() >= 2 {
        let front = sorted.drop_last();
        let earlier = shoots_of(front, gap);
        let e = sorted.last();
        lemma_shoots_of(front, gap);
        assert(front.last() == sorted[sorted.len() - 2]);
        assert(sorted =~= front.push(e));
        if e.timestamp - sorted[sorted.len() - 2].timestamp > gap {
            // `e` opens a shoot of its own behind the others.
            assert(shoots == earlier.push(seq![e]));
            assert(shoots.flatten() =~= sorted);
            assert forall|k: int| 0 <= k < shoots.len() implies close_together(
                #[trigger] shoots[k],
                gap,
            ) by {
                if k < earlier.len() {
                    assert(shoots[k] == earlier[k]);
                }
            }
            assert forall|k: int, l: int|
                0 <= k && l == k + 1 && l < shoots.len() implies shoots[l].first().timestamp
                - shoots[k].last().timestamp > gap by {
                if l < earlier.len() {
                    assert(shoots[l] == earlier[l] && shoots[k] == earlier[k]);
                }
            }
        } else {
            // `e` joins the last shoot; the others stay.
            let open = earlier.last();
            let grown = open.push(e);
            assert(shoots == earlier.update(earlier.len() - 1, grown));
            assert(shoots =~= earlier.drop_last().push(grown));
            assert(earlier =~= earlier.drop_last().push(open));
            assert(earlier.flatten() == earlier.drop_last().flatten() + open);
            assert(shoots.flatten() == earlier.drop_last().flatten() + grown);
            assert(shoots.flatten() =~= sorted);
            assert forall|k: int| 0 <= k < shoots.len() implies close_together(
                #[trigger] shoots[k],
                gap,
            ) by {
                if k < earlier.len() - 1 {
                    assert(shoots[k] == earlier[k]);
                } else {
                    assert(close_together(open, gap));
                    assert forall|i: int, j: int|
                        0 <= i && j == i + 1 && j < grown.len() implies grown[j].timestamp
                        - grown[i].timestamp <= gap by {
                        if j < open.len() {
                            assert(open[j].timestamp - open[i].timestamp <= gap);
                        }
                    }
                }
            }
            assert forall|k: int, l: int|
                0 <= k && l == k + 1 && l < shoots.len() implies shoots[l].first().timestamp
                - shoots[k].last().timestamp > gap by {
                assert(earlier[l].first().timestamp - earlier[k].last().timestamp > gap);
                assert(shoots[k] == earlier[k]);
                assert(shoots[l].first() == earlier[l].first());
            }
        }
    }
}

/// Cut from a catalog in time order, every shoot is in time order, and no
/// shoot starts before a shoot in front of it.
pub proof fn lemma_shoots_ascending(sorted: Seq<EntryView>, gap: int)
    requires
        ascending(sorted),
    ensures
        forall|k: int|
            0 <= k < shoots_of(sorted, gap).len() ==> coherent(
                #[trigger] shoots_of(sorted, gap)[k],
                gap,
            ),
        starts_ascending(shoots_of(sorted, gap)),
    decreases sorted.len(),
{
    let shoots = shoots_of(sorted, gap);
    lemma_shoots_of(sorted, gap);
    if sorted.len() == 1 {
        assert(shoots[0] == sorted);
    } else if sorted.len() >= 2 {
        let front = sorted.drop_last();
        let earlier = shoots_of(front, gap);
        let e = sorted.last();
        assert(ascending(front));
        lemma_shoots_ascending(front, gap);
        lemma_shoots_of(front, gap);
        let open = earlier.last();
        assert(coherent(open, gap));
        assert(open.last() == front.last());
        assert(front.last() == sorted[sorted.len() - 2]);
        assert(sorted[sorted.len() - 2].timestamp <= sorted[sorted.len() - 1].timestamp);
        // The file that comes in is no earlier than any file of the last shoot.
        assert forall|i: int| 0 <= i < open.len() implies open[i].timestamp <= e.timestamp by {
            assert(open[i].timestamp <= open[open.len() - 1].timestamp);
        }
        if e.timestamp - sorted[sorted.len() - 2].timestamp > gap {
            assert(shoots == earlier.push(seq![e]));
            assert forall|k: int| 0 <= k < shoots.len() implies coherent(
                #[trigger] shoots[k],
                gap,
            ) by {
                if k < earlier.len() {
                    assert(shoots[k] == earlier[k]);
                }
            }
            assert forall|k: int, l: int|
                0 <= k <= l < shoots.len() implies shoots[k].first().timestamp
                <= shoots[l].first().timestamp by {
                if l < earlier.len() {
                    assert(shoots[l] == earlier[l] && shoots[k] == earlier[k]);
                } else if k < earlier.len() {
                    assert(shoots[k] == earlier[k]);
                    assert(earlier[k].first().timestamp <= open.first().timestamp);
                    assert(open[0].timestamp <= e.timestamp);
                }
            }
        } else {
            let grown = open.push(e);
            assert(shoots == earlier.update(earlier.len() - 1, grown));
            assert forall|k: int| 0 <= k < shoots.len() implies coherent(
                #[trigger] shoots[k],
                gap,
            ) by {
                if k < earlier.len() - 1 {
                    assert(shoots[k] == earlier[k]);
                } else {
                    assert(shoots[k] == grown);
                    assert(close_together(shoots[k], gap));
                    assert forall|i: int, j: int|
                        0 <= i <= j < grown.len() implies grown[i].timestamp
                        <= grown[j].timestamp by {
                        if j < open.len() {
                            assert(open[i].timestamp <= open[j].timestamp);
                        } else if i < open.len() {
                            assert(open[i].timestamp <= e.timestamp);
                        }
                    }
                }
            }
            assert forall|k: int, l: int|
                0 <= k <= l < shoots.len() implies shoots[k].first().timestamp
                <= shoots[l].first().timestamp by {
                assert(earlier[k].first().timestamp <= earlier[l].first().timestamp);
                assert(shoots[k].first() == earlier[k].first());
                assert(shoots[l].first() == earlier[l].first());
            }
        }
    }
}

/// There is one way only to cut a catalog into shoots that are not empty,
/// hold files close together and lie far apart: the shoots are maximal runs.
pub proof fn lemma_shoots_unique(sorted: Seq<EntryView>, gap: int, cut: Seq<Seq<EntryView>>)
    requires
        cut.flatten() == sorted,
        forall|k: int| 0 <= k < cut.len() ==> (#[trigger] cut[k]).len() > 0,
        forall|k: int| 0 <= k < cut.len() ==> close_together(#[trigger] cut[k], gap),
        far_apart(cut, gap),
    ensures
        cut == shoots_of(sorted, gap),
    decreases sorted.len(),
{
    if cut.len() > 0 {
        let front = cut.drop_last();
        let last = cut.last();
        let e = last.last();
        assert(cut =~= front.push(last));
        front.lemma_flatten_push(last);
        // The cut of the catalog without its last file: the last shoot goes,
        // or loses its last file.
        let before = if last.len() == 1 {
            front
        } else {
            front.push(last.drop_last())
        };
        if last.len() > 1 {
            front.lemma_flatten_push(last.drop_last());
        }
        assert(before.flatten() =~= sorted.drop_last());
        assert forall|k: int| 0 <= k < before.len() implies close_together(
            #[trigger] before[k],
            gap,
        ) by {
            assert(close_together(cut[k], gap));
        }
        assert forall|k: int, l: int|
            0 <= k && l == k + 1 && l < before.len() implies before[l].first().timestamp
            - before[k].last().timestamp > gap by {
            assert(cut[l].first().timestamp - cut[k].last().timestamp > gap);
        }
        lemma_shoots_unique(sorted.drop_last(), gap, before);
        lemma_shoots_of(sorted.drop_last(), gap);
        if before.len() == 0 {
            // One shoot of one file.
            assert(cut =~= seq![sorted]);
        } else if last.len() == 1 {
            // The last file is a shoot of its own, far from the one before.
            assert(cut[cut.len() - 1].first().timestamp - cut[cut.len() - 2].last().timestamp
                > gap);
            assert(last =~= seq![e]);
        } else {
            // The last file is close to the one before it in its shoot.
            assert(last[last.len() - 1].timestamp - last[last.len() - 2].timestamp <= gap);
            assert(last =~= last.drop_last().push(e));
            assert(cut =~= before.update(before.len() - 1, before.last().push(e)));
        }
    }
}

/// The files whose extension is `ext`, ASCII letters compared without regard
/// to case, in their order.
pub open spec fn with_extension(files: Seq<EntryView>, ext: Seq<char>) -> Seq<EntryView> {
    files.filter(|e: EntryView| has_extension(e.path, ext))
}

impl Photoshoot {
    /// A shoot without files.
    pub fn new() -> (shoot: Self)
        ensures
            shoot@ == Seq::<EntryView>::empty(),
            shoot.files@.len() == 0,
    {
        let shoot = Photoshoot { files: Vec::new() };
        assert(shoot@ =~= Seq::<EntryView>::empty());
        shoot
    }

    /// Appends `file` to the shoot.
    pub fn add(&mut self, file: FileEntry)
        ensures
            final(self).files@ == old(self).files@.push(file),
            final(self)@ == old(self)@.push(file@),
    {
        proof {
            lemma_entry_views_push(self.files@, file);
        }
        self.files.push(file);
    }

    /// The earliest timestamp among the shoot's files, whatever their order.
    pub fn min_timestamp(&self) -> (earliest: i64)
        requires
            self@.len() > 0,
        ensures
            exists|i: int| 0 <= i < self@.len() && self@[i].timestamp == earliest,
            forall|i: int| 0 <= i < self@.len() ==> earliest <= self@[i].timestamp,
    {
        let mut earliest = self.files[0].timestamp;
        let ghost mut at: int = 0;
        let mut i: usize = 1;
        while i < self.files.len()
            invariant
                1 <= i <= self.files.len(),
                self@.len() == self.files.len(),
                0 <= at < i && self@[at].timestamp == earliest,
                forall|j: int| 0 <= j < i ==> earliest <= self@[j].timestamp,
            decreases self.files.len() - i,
        {
            if self.files[i].timestamp < earliest {
                earliest = self.files[i].timestamp;
                proof {
                    at = i as int;
                }
            }
            i += 1;
        }
        earliest
    }

    /// The number of the shoot's files that have the extension `ext`, ASCII
    /// letters compared without regard to case.
    pub fn count_by_ext(&self, ext: &str) -> (count: usize)
        ensures
            count == with_extension(self@, ext@).len(),
    {
        let ghost all = self@;
        let mut count: usize = 0;
        let mut i: usize = 0;
        proof {
            reveal(Seq::filter);
            assert(all.take(0) =~= Seq::<EntryView>::empty());
        }
        while i < self.files.len()
            invariant
                i <= self.files.len(),
                all == self@,
                all.len() == self.files.len(),
                count <= i,
                count == with_extension(all.take(i as int), ext@).len(),
            decreases self.files.len() - i,
        {
            proof {
                reveal(Seq::filter);
                assert(all.take(i + 1).drop_last() =~= all.take(i as int));
                assert(all.take(i + 1).last() == self.files[i as int]@);
            }
            if path_has_extension(self.files[i].path.as_str(), ext) {
                count += 1;
            }
            i += 1;
        }
        assert(all.take(self.files.len() as int) =~= all);
        count
    }

    /// The latest timestamp among the shoot's files, whatever their order.
    pub fn max_timestamp(&self) -> (latest: i64)
        requires
            self@.len() > 0,
        ensures
            exists|i: int| 0 <= i < self@.len() && self@[i].timestamp == latest,
            forall|i: int| 0 <= i < self@.len() ==> self@[i].timestamp <= latest,
    {
        let mut latest = self.files[0].timestamp;
        let ghost mut at: int = 0;
        let mut i: usize = 1;
        while i < self.files.len()
            invariant
                1 <= i <= self.files.len(),
                self@.len() == self.files.len(),
                0 <= at < i && self@[at].timestamp == latest,
                forall|j: int| 0 <= j < i ==> self@[j].timestamp <= latest,
            decreases self.files.len() - i,
        {
            if self.files[i].timestamp > latest {
                latest = self.files[i].timestamp;
                proof {
                    at = i as int;
                }
            }
            i += 1;
        }
        latest
    }
}

/// The gap threshold that is used where the user names none, in minutes.
pub const DEFAULT_GAP_MINUTES: i64 = 120;

/// A gap threshold given in minutes, in seconds; `None` where the seconds do
/// not fit the type.
pub fn gap_seconds(minutes: i64) -> (seconds: Option<i64>)
    ensures
        seconds is Some <==> i64::MIN <= minutes * 60 <= i64::MAX,
        seconds matches Some(s) ==> s == minutes * 60,
{
    minutes.checked_mul(60)
}

/// Groups a catalog into photoshoots. The files are put in time order; a
/// file more than `gap_threshold_secs` seconds later than the file before it
/// opens a new shoot. A gap equal to the threshold does not split.
pub fn detect_photoshoots(all_files: &Vec<FileEntry>, gap_threshold_secs: i64) -> (shoots: Vec<
    Photoshoot,
>)
    ensures
        shoot_views(shoots@) == shoots_of(
            sorted_by_time(entry_views(all_files@)),
            gap_threshold_secs as int,
        ),
        shoot_views(shoots@).flatten() == sorted_by_time(entry_views(all_files@)),
        shoot_views(shoots@).flatten().to_multiset() == entry_views(all_files@).to_multiset(),
        forall|k: int|
            0 <= k < shoots@.len() ==> coherent(
                #[trigger] shoot_views(shoots@)[k],
                gap_threshold_secs as int,
            ),
        far_apart(shoot_views(shoots@), gap_threshold_secs as int),
        starts_ascending(shoot_views(shoots@)),
        all_files@.len() == 0 <==> shoots@.len() == 0,
{
    proof {
        let files = entry_views(all_files@);
        lemma_sorted_by_time(files);
        lemma_shoots_of(sorted_by_time(files), gap_threshold_secs as int);
        lemma_shoots_ascending(sorted_by_time(files), gap_threshold_secs as int);
    }
    let sorted = sort_by_time(clone_entries(all_files));
    let ghost ordered = entry_views(sorted@);
    let ghost gap = gap_threshold_secs as int;
    let mut shoots: Vec<Photoshoot> = Vec::new();
    let mut current = Photoshoot::new();
    let mut previous: i64 = 0;
    assert(shoot_views(shoots@) =~= Seq::<Seq<EntryView>>::empty());
    for e in it: sorted
        invariant
            it.seq() == sorted@,
            ordered == entry_views(sorted@),
            gap == gap_threshold_secs as int,
            it.index() == 0 ==> shoots@.len() == 0 && current@.len() == 0,
            it.index() > 0 ==> current@.len() > 0 && previous == ordered[it.index() - 1].timestamp
                && shoot_views(shoots@).push(current@) == shoots_of(
                ordered.take(it.index() as int),
                gap,
            ),
    {
        let ghost k = it.index() as int;
        let ghost seen = ordered.take(k);
        let ghost next = ordered.take(k + 1);
        let ghost closed = shoot_views(shoots@);
        let ghost open = current@;
        proof {
            assert(next.drop_last() =~= seen);
            assert(next.last() == e@);
        }
        let started = current.files.len() > 0;
        if started && e.timestamp as i128 - previous as i128 > gap_threshold_secs as i128 {
            shoots.push(current);
            current = Photoshoot::new();
            proof {
                assert(shoot_views(shoots@) =~= closed.push(open));
            }
        }
        previous = e.timestamp;
        current.add(e);
        proof {
            if k == 0 {
                assert(current@ =~= next);
                assert(shoot_views(shoots@).push(current@) =~= seq![next]);
            } else if e@.timestamp - ordered[k - 1].timestamp > gap {
                assert(current@ =~= seq![e@]);
            } else {
                assert(shoot_views(shoots@).push(current@) =~= closed.push(open).update(
                    closed.len() as int,
                    open.push(e@),
                ));
            }
        }
    }
    if current.files.len() > 0 {
        let ghost closed = shoot_views(shoots@);
        shoots.push(current);
        proof {
            assert(shoot_views(shoots@) =~= closed.push(current@));
            assert(ordered.take(sorted@.len() as int) =~= ordered);
        }
    }
    shoots
}

/// Segmentation loses and repeats nothing: the shoots in a row are the
/// catalog in time order, which holds every file as often as the catalog
/// does.
pub proof fn lemma_shoots_partition(files: Seq<EntryView>, gap: int)
    ensures
        shoots_of(sorted_by_time(files), gap).flatten() == sorted_by_time(files),
        shoots_of(sorted_by_time(files), gap).flatten().to_multiset() == files.to_multiset(),
        shoots_of(sorted_by_time(files), gap).flatten().len() == files.len(),
{
    lemma_sorted_by_time(files);
    lemma_shoots_of(sorted_by_time(files), gap);
}

/// Within a shoot the files are in time order and none is more than `gap`
/// seconds later than the one before it; from the last file of a shoot to the
/// first of the next it is more than `gap` seconds; the shoots stand in the
/// order of their starts.
pub proof fn lemma_shoots_gaps(files: Seq<EntryView>, gap: int)
    ensures
        forall|k: int|
            0 <= k < shoots_of(sorted_by_time(files), gap).len() ==> coherent(
                #[trigger] shoots_of(sorted_by_time(files), gap)[k],
                gap,
            ),
        far_apart(shoots_of(sorted_by_time(files), gap), gap),
        starts_ascending(shoots_of(sorted_by_time(files), gap)),
{
    lemma_sorted_by_time(files);
    lemma_shoots_of(sorted_by_time(files), gap);
    lemma_shoots_ascending(sorted_by_time(files), gap);
}

/// The threshold itself does not split: a file that follows its predecessor
/// by `gap` seconds or less joins the predecessor's shoot, one that follows
/// by `gap + 1` seconds or more opens a new shoot.
pub proof fn lemma_threshold_boundary(sorted: Seq<EntryView>, e: EntryView, gap: int)
    requires
        sorted.len() > 0,
    ensures
        e.timestamp - sorted.last().timestamp <= gap ==> shoots_of(sorted.push(e), gap)
            == shoots_of(sorted, gap).update(
            shoots_of(sorted, gap).len() - 1,
            shoots_of(sorted, gap).last().push(e),
        ),
        e.timestamp - sorted.last().timestamp >= gap + 1 ==> shoots_of(sorted.push(e), gap)
            == shoots_of(sorted, gap).push(seq![e]),
{
    let more = sorted.push(e);
    assert(more.drop_last() =~= sorted);
    assert(more[more.len() - 2] == sorted.last());
}

/// No files, no shoots, and the other way round.
pub proof fn lemma_no_files_no_shoots(files: Seq<EntryView>, gap: int)
    ensures
        files.len() == 0 <==> shoots_of(sorted_by_time(files), gap).len() == 0,
{
    lemma_sorted_by_time(files);
    lemma_shoots_of(sorted_by_time(files), gap);
}

} // verus!
