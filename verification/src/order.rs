//! Time order of a catalog: files by ascending timestamp, files with the same
//! timestamp in the order in which they were given.

use vstd::prelude::*;
use crate::entry::{
    entry_views, lemma_entry_views_add, lemma_entry_views_drop_last, lemma_entry_views_push,
    EntryView, FileEntry,
};

verus! {

/// `sorted` with `e` placed behind every entry that is not later than `e`.
pub open spec fn insert_by_time(sorted: Seq<EntryView>, e: EntryView) -> Seq<EntryView>
    decreases sorted.len(),
{
    if sorted.len() == 0 || sorted.last().timestamp <= e.timestamp {
        sorted.push(e)
    } else {
        insert_by_time(sorted.drop_last(), e).push(sorted.last())
    }
}

/// The files in time order: each file in turn is placed behind every file
/// that is not later than it, so files of one timestamp keep their order.
pub open spec fn sorted_by_time(files: Seq<EntryView>) -> Seq<EntryView>
    decreases files.len(),
{
    if files.len() == 0 {
        files
    } else {
        insert_by_time(sorted_by_time(files.drop_last()), files.last())
    }
}

/// No entry is later than one behind it.
pub open spec fn ascending(files: Seq<EntryView>) -> bool {
    forall|i: int, j: int| 0 <= i <= j < files.len() ==> files[i].timestamp <= files[j].timestamp
}

/// The files taken at second `t`, in the order in which they stand.
pub open spec fn taken_at(files: Seq<EntryView>, t: int) -> Seq<EntryView> {
    files.filter(|e: EntryView| e.timestamp == t)
}

/// Among the files of its own timestamp a placed entry comes last, and it
/// does not touch the files of another timestamp.
proof fn lemma_insert_taken_at(sorted: Seq<EntryView>, e: EntryView, t: int)
    ensures
        taken_at(insert_by_time(sorted, e), t) == (if t == e.timestamp {
            taken_at(sorted, t).push(e)
        } else {
            taken_at(sorted, t)
        }),
    decreases sorted.len(),
{
    reveal(Seq::filter);
    let placed = insert_by_time(sorted, e);
    if sorted.len() == 0 || sorted.last().timestamp <= e.timestamp {
        assert(placed.drop_last() =~= sorted);
    } else {
        lemma_insert_taken_at(sorted.drop_last(), e, t);
        assert(placed.drop_last() =~= insert_by_time(sorted.drop_last(), e));
    }
}

/// Placing an entry keeps every other entry, keeps a time order, and puts the
/// entry behind those of its own timestamp.
pub proof fn lemma_insert_by_time(sorted: Seq<EntryView>, e: EntryView)
    ensures
        insert_by_time(sorted, e).len() == sorted.len() + 1,
        insert_by_time(sorted, e).to_multiset() == sorted.to_multiset().insert(e),
        ascending(sorted) ==> ascending(insert_by_time(sorted, e)),
        taken_at(insert_by_time(sorted, e), e.timestamp) == taken_at(sorted, e.timestamp).push(e),
        forall|t: int|
            t != e.timestamp ==> taken_at(insert_by_time(sorted, e), t) == taken_at(sorted, t),
    decreases sorted.len(),
{
    broadcast use vstd::seq_lib::group_to_multiset_ensures;
    let placed = insert_by_time(sorted, e);
    lemma_insert_taken_at(sorted, e, e.timestamp);
    assert forall|t: int| t != e.timestamp implies taken_at(insert_by_time(sorted, e), t)
        == taken_at(sorted, t) by {
        lemma_insert_taken_at(sorted, e, t);
    }
    if sorted.len() == 0 || sorted.last().timestamp <= e.timestamp {
        assert(placed.drop_last() =~= sorted);
        if ascending(sorted) {
            assert forall|i: int, j: int| 0 <= i <= j < placed.len() implies placed[i].timestamp
                <= placed[j].timestamp by {
                if j == sorted.len() && i < j {
                    assert(sorted[i].timestamp <= sorted.last().timestamp);
                }
            }
        }
    } else {
        let front = sorted.drop_last();
        let last = sorted.last();
        lemma_insert_by_time(front, e);
        assert(sorted =~= front.push(last));
        assert(placed.drop_last() =~= insert_by_time(front, e));
        assert(placed.to_multiset() =~= sorted.to_multiset().insert(e));
        if ascending(sorted) {
            assert(ascending(front));
            let inner = insert_by_time(front, e);
            assert forall|i: int, j: int| 0 <= i <= j < placed.len() implies placed[i].timestamp
                <= placed[j].timestamp by {
                if j == placed.len() - 1 && i < j {
                    // Every entry of `inner` is `e` or an entry of `front`.
                    assert(inner.to_multiset().count(inner[i]) > 0);
                    if inner[i] != e {
                        assert(front.to_multiset().count(inner[i]) > 0);
                        let at = choose|at: int| 0 <= at < front.len() && front[at] == inner[i];
                        assert(sorted[at].timestamp <= sorted.last().timestamp);
                    }
                } else if i < j {
                    assert(inner[i].timestamp <= inner[j].timestamp);
                }
            }
        }
    }
}

/// Time order is ascending, holds every file exactly as often as the catalog
/// does, and keeps the files of each timestamp in the order given.
pub proof fn lemma_sorted_by_time(files: Seq<EntryView>)
    ensures
        sorted_by_time(files).len() == files.len(),
        ascending(sorted_by_time(files)),
        sorted_by_time(files).to_multiset() == files.to_multiset(),
        forall|t: int| taken_at(sorted_by_time(files), t) == taken_at(files, t),
    decreases files.len(),
{
    broadcast use vstd::seq_lib::group_to_multiset_ensures;
    reveal(Seq::filter);
    if files.len() > 0 {
        let front = files.drop_last();
        let last = files.last();
        lemma_sorted_by_time(front);
        lemma_insert_by_time(sorted_by_time(front), last);
        assert(files =~= front.push(last));
        assert(sorted_by_time(files).to_multiset() =~= files.to_multiset());
        assert forall|t: int| taken_at(sorted_by_time(files), t) == taken_at(files, t) by {
            assert(taken_at(sorted_by_time(front), t) == taken_at(front, t));
            if t == last.timestamp {
                assert(taken_at(files, t) == taken_at(front, t).push(last));
            } else {
                assert(taken_at(files, t) == taken_at(front, t));
            }
        }
    }
}

/// An entry taken at second `t` is among the files taken at second `t`, and
/// only such entries are.
proof fn lemma_taken_at(files: Seq<EntryView>, t: int)
    ensures
        taken_at(files, t).len() > 0 <==> exists|i: int|
            0 <= i < files.len() && (#[trigger] files[i]).timestamp == t,
        files.len() > 0 && files.last().timestamp == t ==> taken_at(files, t) == taken_at(
            files.drop_last(),
            t,
        ).push(files.last()),
        files.len() > 0 && files.last().timestamp != t ==> taken_at(files, t) == taken_at(
            files.drop_last(),
            t,
        ),
    decreases files.len(),
{
    reveal(Seq::filter);
    if files.len() > 0 {
        let front = files.drop_last();
        lemma_taken_at(front, t);
        if taken_at(front, t).len() > 0 {
            let i = choose|i: int| 0 <= i < front.len() && (#[trigger] front[i]).timestamp == t;
            assert(files[i].timestamp == t);
        }
        if exists|i: int| 0 <= i < files.len() && (#[trigger] files[i]).timestamp == t {
            let i = choose|i: int| 0 <= i < files.len() && (#[trigger] files[i]).timestamp == t;
            if i < front.len() {
                assert(front[i].timestamp == t);
            }
        }
    }
}

/// Two ascending arrangements that agree on the files of every timestamp,
/// and on their order, are the same arrangement.
proof fn lemma_ascending_agree(a: Seq<EntryView>, b: Seq<EntryView>)
    requires
        ascending(a),
        ascending(b),
        forall|t: int| taken_at(a, t) == taken_at(b, t),
    ensures
        a == b,
    decreases a.len(),
{
    if a.len() == 0 {
        if b.len() > 0 {
            lemma_taken_at(a, b[0].timestamp);
            lemma_taken_at(b, b[0].timestamp);
        }
    } else {
        let t = a.last().timestamp;
        lemma_taken_at(a, t);
        lemma_taken_at(b, t);
        // `b` holds a file taken at `t`, so it ends no earlier than `t`.
        let at = choose|i: int| 0 <= i < b.len() && (#[trigger] b[i]).timestamp == t;
        let u = b.last().timestamp;
        assert(b[at].timestamp <= u);
        lemma_taken_at(a, u);
        lemma_taken_at(b, u);
        // And `a` holds a file taken when `b` ends, so `b` ends no later.
        let back = choose|i: int| 0 <= i < a.len() && (#[trigger] a[i]).timestamp == u;
        assert(a[back].timestamp <= t);
        // Both end with the last of the files taken at `t`.
        assert(a.last() == taken_at(a, t).last());
        assert(b.last() == taken_at(b, t).last());
        assert forall|s: int| taken_at(a.drop_last(), s) == taken_at(b.drop_last(), s) by {
            lemma_taken_at(a, s);
            lemma_taken_at(b, s);
            if s == t {
                assert(taken_at(a.drop_last(), s) =~= taken_at(a, s).drop_last());
                assert(taken_at(b.drop_last(), s) =~= taken_at(b, s).drop_last());
            }
        }
        lemma_ascending_agree(a.drop_last(), b.drop_last());
        assert(a =~= a.drop_last().push(a.last()));
        assert(b =~= b.drop_last().push(b.last()));
    }
}

/// Time order is the only arrangement of a catalog that is ascending and
/// keeps the files of each timestamp in the order given.
pub proof fn lemma_time_order_unique(files: Seq<EntryView>, arranged: Seq<EntryView>)
    requires
        ascending(arranged),
        forall|t: int| taken_at(arranged, t) == taken_at(files, t),
    ensures
        arranged == sorted_by_time(files),
{
    lemma_sorted_by_time(files);
    lemma_ascending_agree(arranged, sorted_by_time(files));
}

/// Two time-ordered runs combined into one. Where an entry of `left` and one
/// of `right` share a timestamp, the one of `left` comes first.
spec fn merged_by_time(left: Seq<EntryView>, right: Seq<EntryView>) -> Seq<EntryView>
    decreases left.len() + right.len(),
{
    if right.len() == 0 {
        left
    } else if left.len() == 0 {
        right
    } else if left.last().timestamp > right.last().timestamp {
        merged_by_time(left.drop_last(), right).push(left.last())
    } else {
        merged_by_time(left, right.drop_last()).push(right.last())
    }
}

/// A merge of two runs that both hold something ends with the later of their
/// last entries, the right-hand one where they share a timestamp.
proof fn lemma_merged_last(left: Seq<EntryView>, right: Seq<EntryView>)
    requires
        left.len() > 0,
        right.len() > 0,
    ensures
        merged_by_time(left, right).len() > 0,
        merged_by_time(left, right).last() == (if left.last().timestamp > right.last().timestamp {
            left.last()
        } else {
            right.last()
        }),
{
}

/// Placing an entry into a merge is placing it into the right-hand run.
proof fn lemma_insert_into_merged(left: Seq<EntryView>, right: Seq<EntryView>, e: EntryView)
    ensures
        insert_by_time(merged_by_time(left, right), e) == merged_by_time(
            left,
            insert_by_time(right, e),
        ),
    decreases left.len() + right.len(),
{
    let placed = insert_by_time(right, e);
    let whole = merged_by_time(left, right);
    if right.len() == 0 {
        assert(placed.drop_last() =~= right);
        if left.len() > 0 && left.last().timestamp > e.timestamp {
            lemma_insert_into_merged(left.drop_last(), right, e);
        }
    } else if left.len() > 0 {
        lemma_merged_last(left, right);
        if right.last().timestamp <= e.timestamp {
            assert(placed.drop_last() =~= right);
            if left.last().timestamp > e.timestamp {
                lemma_insert_into_merged(left.drop_last(), right, e);
                assert(whole.drop_last() =~= merged_by_time(left.drop_last(), right));
            }
        } else {
            assert(placed.drop_last() =~= insert_by_time(right.drop_last(), e));
            if left.last().timestamp > right.last().timestamp {
                lemma_insert_into_merged(left.drop_last(), right, e);
                assert(whole.drop_last() =~= merged_by_time(left.drop_last(), right));
            } else {
                lemma_insert_into_merged(left, right.drop_last(), e);
                assert(whole.drop_last() =~= merged_by_time(left, right.drop_last()));
            }
        }
    }
}

/// Sorting a catalog given in two parts is merging the two sorted parts.
proof fn lemma_sorted_of_parts(a: Seq<EntryView>, b: Seq<EntryView>)
    ensures
        sorted_by_time(a + b) == merged_by_time(sorted_by_time(a), sorted_by_time(b)),
    decreases b.len(),
{
    if b.len() == 0 {
        assert(a + b =~= a);
    } else {
        assert((a + b).drop_last() =~= a + b.drop_last());
        lemma_sorted_of_parts(a, b.drop_last());
        lemma_insert_into_merged(sorted_by_time(a), sorted_by_time(b.drop_last()), b.last());
    }
}

/// Merges two time-ordered runs, taking from the back.
fn merge_by_time(left: Vec<FileEntry>, right: Vec<FileEntry>) -> (out: Vec<FileEntry>)
    ensures
        entry_views(out@) == merged_by_time(entry_views(left@), entry_views(right@)),
{
    let ghost goal = merged_by_time(entry_views(left@), entry_views(right@));
    let mut left = left;
    let mut right = right;
    // The entries already decided, last one first.
    let mut tail: Vec<FileEntry> = Vec::new();
    while left.len() > 0 && right.len() > 0
        invariant
            goal == merged_by_time(entry_views(left@), entry_views(right@)) + entry_views(
                tail@,
            ).reverse(),
        decreases left.len() + right.len(),
    {
        let ghost before_left = left@;
        let ghost before_right = right@;
        let ghost before_tail = tail@;
        if left[left.len() - 1].timestamp > right[right.len() - 1].timestamp {
            let e = left.pop().unwrap();
            tail.push(e);
            proof {
                lemma_entry_views_drop_last(before_left);
                lemma_entry_views_push(before_tail, e);
                assert(entry_views(tail@).reverse() =~= seq![e@] + entry_views(
                    before_tail,
                ).reverse());
                assert(goal =~= merged_by_time(entry_views(left@), entry_views(right@))
                    + entry_views(tail@).reverse());
            }
        } else {
            let e = right.pop().unwrap();
            tail.push(e);
            proof {
                lemma_entry_views_drop_last(before_right);
                lemma_entry_views_push(before_tail, e);
                assert(entry_views(tail@).reverse() =~= seq![e@] + entry_views(
                    before_tail,
                ).reverse());
                assert(goal =~= merged_by_time(entry_views(left@), entry_views(right@))
                    + entry_views(tail@).reverse());
            }
        }
    }
    let mut out = if right.len() == 0 {
        left
    } else {
        right
    };
    while tail.len() > 0
        invariant
            goal == entry_views(out@) + entry_views(tail@).reverse(),
        decreases tail.len(),
    {
        let ghost before_out = out@;
        let ghost before_tail = tail@;
        let e = tail.pop().unwrap();
        out.push(e);
        proof {
            lemma_entry_views_drop_last(before_tail);
            lemma_entry_views_push(before_out, e);
            assert(entry_views(before_tail).reverse() =~= seq![e@] + entry_views(tail@).reverse());
            assert(goal =~= entry_views(out@) + entry_views(tail@).reverse());
        }
    }
    assert(entry_views(tail@).reverse() =~= Seq::<EntryView>::empty());
    assert(entry_views(out@) + Seq::<EntryView>::empty() =~= entry_views(out@));
    out
}

/// Puts a catalog in time order: ascending timestamps, files of one timestamp
/// in the order in which they were given.
pub fn sort_by_time(files: Vec<FileEntry>) -> (sorted: Vec<FileEntry>)
    ensures
        entry_views(sorted@) == sorted_by_time(entry_views(files@)),
        sorted@.len() == files@.len(),
        ascending(entry_views(sorted@)),
        entry_views(sorted@).to_multiset() == entry_views(files@).to_multiset(),
        forall|t: int| taken_at(entry_views(sorted@), t) == taken_at(entry_views(files@), t),
    decreases files.len(),
{
    let ghost whole = files@;
    proof {
        lemma_sorted_by_time(entry_views(whole));
    }
    if files.len() <= 1 {
        proof {
            if files.len() == 1 {
                let one = entry_views(whole);
                assert(sorted_by_time(one.drop_last()) =~= Seq::<EntryView>::empty());
                assert(sorted_by_time(one) =~= one);
            }
        }
        return files;
    }
    let mut first = files;
    let middle = first.len() / 2;
    let second = first.split_off(middle);
    proof {
        assert(whole =~= first@ + second@);
        lemma_entry_views_add(first@, second@);
        lemma_sorted_of_parts(entry_views(first@), entry_views(second@));
    }
    let first_sorted = sort_by_time(first);
    let second_sorted = sort_by_time(second);
    merge_by_time(first_sorted, second_sorted)
}

} // verus!
