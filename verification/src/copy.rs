//! Planning the copy of one shoot: the folder it goes to, the subfolder of
//! each file, and the way the work is run.
//!
//! Extensions are normalised in one way throughout: a file's subfolder is its
//! extension with ASCII capitals made small, so `IMG.JPG` and `img.jpg` share
//! the subfolder `jpg`. A file without an extension goes directly into the
//! shoot's folder, which the empty subfolder name stands for.

use vstd::prelude::*;
use vstd::string::StringExecFns;
use crate::checksum::Verification;
use crate::entry::{entry_views, lemma_entry_views_push, EntryView, FileEntry};
use crate::host::{available_cores, local_time_text};
use crate::paths::{
    extension_of, file_name_of, path_extension, path_file_name, path_has_extension,
};
use crate::segment::{with_extension, Photoshoot};
use crate::text::{ascii_lowercase, decimal, decimal_text, to_ascii_lowercase};

verus! {

/// How the files of a shoot are copied.
#[derive(Clone, Copy, Debug, PartialEq, Eq)]
pub enum Strategy {
    /// One file after the other, subfolder by subfolder.
    Sequential,
    /// All files handed to a pool of workers.
    Parallel,
}

/// Up to this many cores, copying runs sequentially.
pub const SEQUENTIAL_CORE_LIMIT: usize = 2;

/// The strategy for a machine with `cores` cores.
pub open spec fn strategy_for(cores: int) -> Strategy {
    if cores <= SEQUENTIAL_CORE_LIMIT {
        Strategy::Sequential
    } else {
        Strategy::Parallel
    }
}

/// Chooses the strategy for a machine with `cores` cores: sequential up to
/// two, parallel above.
pub fn choose_strategy(cores: usize) -> (strategy: Strategy)
    ensures
        strategy == strategy_for(cores as int),
{
    if cores <= SEQUENTIAL_CORE_LIMIT {
        Strategy::Sequential
    } else {
        Strategy::Parallel
    }
}

/// One file to copy: from where, into which subfolder of the shoot's folder,
/// under which name.
#[derive(Debug, PartialEq, Eq)]
pub struct CopyTask {
    pub source: String,
    pub subfolder: String,
    pub file_name: String,
}

/// What a [`CopyTask`] stands for.
pub struct TaskView {
    pub source: Seq<char>,
    pub subfolder: Seq<char>,
    pub file_name: Seq<char>,
}

impl View for CopyTask {
    type V = TaskView;

    open spec fn view(&self) -> TaskView {
        TaskView { source: self.source@, subfolder: self.subfolder@, file_name: self.file_name@ }
    }
}

/// The files that go into one subfolder, in the order of the shoot.
#[derive(Debug, PartialEq, Eq)]
pub struct Batch {
    pub subfolder: String,
    pub tasks: Vec<CopyTask>,
}

/// What a [`Batch`] stands for.
pub struct BatchView {
    pub subfolder: Seq<char>,
    pub tasks: Seq<TaskView>,
}

impl View for Batch {
    type V = BatchView;

    open spec fn view(&self) -> BatchView {
        BatchView { subfolder: self.subfolder@, tasks: task_views(self.tasks@) }
    }
}

/// The views of a run of tasks, position by position.
pub open spec fn task_views(tasks: Seq<CopyTask>) -> Seq<TaskView> {
    tasks.map_values(|t: CopyTask| t@)
}

/// The views of a run of batches, position by position.
pub open spec fn batch_views(batches: Seq<Batch>) -> Seq<BatchView> {
    batches.map_values(|b: Batch| b@)
}

/// The subfolder for a file with this extension, if it has one.
pub open spec fn subfolder_for(extension: Option<Seq<char>>) -> Seq<char> {
    match extension {
        Some(ext) => ascii_lowercase(ext),
        None => Seq::empty(),
    }
}

/// The subfolder of the file at `path`.
pub open spec fn subfolder_of(path: Seq<char>) -> Seq<char> {
    subfolder_for(path_extension(path))
}

/// A file that can be placed: its path ends in a file name.
pub open spec fn placeable(path: Seq<char>) -> bool {
    path_file_name(path) is Some
}

/// The task for the file at `path`: it keeps its file name.
pub open spec fn task_of(path: Seq<char>) -> TaskView {
    TaskView {
        source: path,
        subfolder: subfolder_of(path),
        file_name: path_file_name(path).unwrap(),
    }
}

/// The values of `items`, each once, in the order in which they first occur.
pub open spec fn distinct(items: Seq<Seq<char>>) -> Seq<Seq<char>>
    decreases items.len(),
{
    if items.len() == 0 {
        items
    } else {
        let earlier = distinct(items.drop_last());
        if earlier.contains(items.last()) {
            earlier
        } else {
            earlier.push(items.last())
        }
    }
}

/// The subfolders of a run of tasks, position by position.
pub open spec fn subfolders(tasks: Seq<TaskView>) -> Seq<Seq<char>> {
    tasks.map_values(|t: TaskView| t.subfolder)
}

/// The tasks that go into `subfolder`, in their order.
pub open spec fn tasks_into(tasks: Seq<TaskView>, subfolder: Seq<char>) -> Seq<TaskView> {
    tasks.filter(|t: TaskView| t.subfolder == subfolder)
}

/// The batch for `subfolder`.
pub open spec fn batch_for(tasks: Seq<TaskView>, subfolder: Seq<char>) -> BatchView {
    BatchView { subfolder, tasks: tasks_into(tasks, subfolder) }
}

/// The tasks in batches: one batch for each subfolder, in the order in which
/// the tasks first call for it; within a batch the tasks keep their order.
pub open spec fn grouped(tasks: Seq<TaskView>) -> Seq<BatchView> {
    distinct(subfolders(tasks)).map_values(|s: Seq<char>| batch_for(tasks, s))
}

/// The tasks for a run of files, position by position.
pub open spec fn tasks_of(files: Seq<EntryView>) -> Seq<TaskView> {
    files.map_values(|e: EntryView| task_of(e.path))
}

/// `distinct` holds what `items` holds, and nothing twice.
pub proof fn lemma_distinct(items: Seq<Seq<char>>)
    ensures
        forall|x: Seq<char>| distinct(items).contains(x) <==> items.contains(x),
        distinct(items).no_duplicates(),
    decreases items.len(),
{
    if items.len() > 0 {
        let front = items.drop_last();
        let last = items.last();
        lemma_distinct(front);
        let earlier = distinct(front);
        assert forall|x: Seq<char>| distinct(items).contains(x) <==> items.contains(x) by {
            if items.contains(x) {
                let at = choose|at: int| 0 <= at < items.len() && items[at] == x;
                if at < front.len() {
                    assert(front[at] == x);
                    assert(front.contains(x));
                    assert(earlier.contains(x));
                    let k = choose|k: int| 0 <= k < earlier.len() && earlier[k] == x;
                    assert(distinct(items)[k] == x);
                } else if !earlier.contains(last) {
                    assert(distinct(items)[earlier.len() as int] == x);
                }
            }
            if distinct(items).contains(x) {
                let k = choose|k: int| 0 <= k < distinct(items).len() && distinct(items)[k] == x;
                if k < earlier.len() {
                    assert(earlier[k] == x);
                    assert(front.contains(x));
                    let at = choose|at: int| 0 <= at < front.len() && front[at] == x;
                    assert(items[at] == x);
                } else {
                    assert(items[items.len() - 1] == x);
                }
            }
        }
    }
}

/// What one more task does to the batches: it joins the batch of its
/// subfolder, or opens a batch of its own behind the others.
proof fn lemma_grouped_push(tasks: Seq<TaskView>, t: TaskView)
    ensures
        distinct(subfolders(tasks)).contains(t.subfolder) ==> exists|j: int|
            0 <= j < grouped(tasks).len() && (#[trigger] grouped(tasks)[j]).subfolder == t.subfolder
                && grouped(tasks.push(t)) == grouped(tasks).update(
                j,
                BatchView { subfolder: t.subfolder, tasks: grouped(tasks)[j].tasks.push(t) },
            ),
        !distinct(subfolders(tasks)).contains(t.subfolder) ==> grouped(tasks.push(t)) == grouped(
            tasks,
        ).push(BatchView { subfolder: t.subfolder, tasks: seq![t] }),
        forall|j: int|
            0 <= j < grouped(tasks).len() ==> (#[trigger] grouped(tasks)[j]).subfolder == distinct(
                subfolders(tasks),
            )[j],
        grouped(tasks).len() == distinct(subfolders(tasks)).len(),
{
    reveal(Seq::filter);
    let keys = subfolders(tasks);
    let names = distinct(keys);
    let more = tasks.push(t);
    lemma_distinct(keys);
    assert(subfolders(more).drop_last() =~= keys);
    assert(more.drop_last() =~= tasks);
    assert forall|s: Seq<char>| #[trigger]
        tasks_into(more, s) == (if t.subfolder == s {
            tasks_into(tasks, s).push(t)
        } else {
            tasks_into(tasks, s)
        }) by {}
    if names.contains(t.subfolder) {
        let j = choose|j: int| 0 <= j < names.len() && names[j] == t.subfolder;
        assert(grouped(tasks)[j].subfolder == t.subfolder);
        assert(grouped(more) =~= grouped(tasks).update(
            j,
            BatchView { subfolder: t.subfolder, tasks: grouped(tasks)[j].tasks.push(t) },
        )) by {
            assert forall|k: int| 0 <= k < names.len() && k != j implies names[k]
                != t.subfolder by {
                if names[k] == t.subfolder {
                    assert(names[k] == names[j]);
                }
            }
        }
    } else {
        assert(!keys.contains(t.subfolder));
        lemma_none_into(tasks, t.subfolder);
        assert(tasks_into(more, t.subfolder) =~= seq![t]);
        assert(grouped(more) =~= grouped(tasks).push(
            BatchView { subfolder: t.subfolder, tasks: seq![t] },
        ));
    }
}

/// No task goes into a subfolder that no task names.
proof fn lemma_none_into(tasks: Seq<TaskView>, subfolder: Seq<char>)
    requires
        !subfolders(tasks).contains(subfolder),
    ensures
        tasks_into(tasks, subfolder) == Seq::<TaskView>::empty(),
    decreases tasks.len(),
{
    reveal(Seq::filter);
    if tasks.len() > 0 {
        let front = tasks.drop_last();
        assert(subfolders(tasks)[tasks.len() - 1] == tasks.last().subfolder);
        assert forall|x: Seq<char>| subfolders(front).contains(x) implies subfolders(
            tasks,
        ).contains(x) by {
            let at = choose|at: int| 0 <= at < front.len() && subfolders(front)[at] == x;
            assert(subfolders(tasks)[at] == x);
        }
        lemma_none_into(front, subfolder);
    }
}

/// The batches are well made: no two are for the same subfolder, none is
/// empty, and every task stands in the batch of its own subfolder.
pub proof fn lemma_grouped_batches(tasks: Seq<TaskView>)
    ensures
        forall|k: int, l: int|
            0 <= k < l < grouped(tasks).len() ==> grouped(tasks)[k].subfolder != grouped(
                tasks,
            )[l].subfolder,
        forall|k: int|
            0 <= k < grouped(tasks).len() ==> (#[trigger] grouped(tasks)[k]).tasks.len() > 0,
        forall|k: int, i: int|
            0 <= k < grouped(tasks).len() && 0 <= i < grouped(tasks)[k].tasks.len() ==> (
            #[trigger] grouped(tasks)[k].tasks[i]).subfolder == grouped(tasks)[k].subfolder,
{
    let keys = subfolders(tasks);
    let names = distinct(keys);
    lemma_distinct(keys);
    assert forall|k: int| 0 <= k < grouped(tasks).len() implies (#[trigger] grouped(
        tasks,
    )[k]).tasks.len() > 0 by {
        // A subfolder is only there because a task names it.
        assert(names.contains(names[k]));
        assert(keys.contains(names[k]));
        let at = choose|at: int| 0 <= at < keys.len() && keys[at] == names[k];
        let wanted = |t: TaskView| t.subfolder == names[k];
        assert(wanted(tasks[at]));
        tasks.lemma_filter_contains(wanted, at);
    }
    assert forall|k: int, i: int|
        0 <= k < grouped(tasks).len() && 0 <= i < grouped(tasks)[k].tasks.len() implies (
    #[trigger] grouped(tasks)[k].tasks[i]).subfolder == grouped(tasks)[k].subfolder by {
        let wanted = |t: TaskView| t.subfolder == names[k];
        tasks.lemma_filter_pred(wanted, i);
    }
}

/// Decides the subfolder from the extension that was read off a path.
pub fn subfolder_name(extension: &Option<String>) -> (subfolder: String)
    ensures
        subfolder@ == subfolder_for(extension.deep_view()),
{
    match extension {
        Some(ext) => to_ascii_lowercase(ext.as_str()),
        None => String::new(),
    }
}

/// The task for `file`, or `None` where its path does not end in a file name.
pub fn copy_task(file: &FileEntry) -> (task: Option<CopyTask>)
    ensures
        task is Some <==> placeable(file@.path),
        task matches Some(t) ==> t@ == task_of(file@.path),
{
    let name = file_name_of(file.path.as_str());
    match name {
        Some(file_name) => {
            let extension = extension_of(file.path.as_str());
            Some(
                CopyTask {
                    source: file.path.clone(),
                    subfolder: subfolder_name(&extension),
                    file_name,
                },
            )
        },
        None => None,
    }
}

/// Sorts tasks into batches by subfolder: one batch for each subfolder, in
/// the order in which the tasks first call for it; within a batch the tasks
/// keep their order.
pub fn group_tasks(tasks: Vec<CopyTask>) -> (batches: Vec<Batch>)
    ensures
        batch_views(batches@) == grouped(task_views(tasks@)),
{
    let ghost all = task_views(tasks@);
    let mut batches: Vec<Batch> = Vec::new();
    assert(batch_views(batches@) =~= grouped(all.take(0)));
    for task in it: tasks
        invariant
            it.seq() == tasks@,
            all == task_views(tasks@),
            batch_views(batches@) == grouped(all.take(it.index() as int)),
    {
        let ghost seen = all.take(it.index() as int);
        let ghost before = batches@;
        proof {
            assert(all.take(it.index() + 1) =~= seen.push(task@));
            lemma_grouped_push(seen, task@);
            lemma_distinct(subfolders(seen));
        }
        let mut at: usize = 0;
        while at < batches.len() && batches[at].subfolder != task.subfolder
            invariant
                at <= batches.len(),
                forall|j: int| 0 <= j < at ==> batches@[j].subfolder@ != task.subfolder@,
            decreases batches.len() - at,
        {
            at += 1;
        }
        if at < batches.len() {
            proof {
                assert(batch_views(before)[at as int].subfolder == task@.subfolder);
                assert(distinct(subfolders(seen))[at as int] == task@.subfolder);
            }
            batches[at].tasks.push(task);
            proof {
                assert(batches@.len() == before.len());
                assert(batches@[at as int].subfolder == before[at as int].subfolder);
                assert(batches@[at as int].tasks@ == before[at as int].tasks@.push(task));
                assert(forall|j: int|
                    0 <= j < before.len() && j != at ==> batches@[j] == before[j]);
                assert(task_views(batches@[at as int].tasks@) =~= task_views(
                    before[at as int].tasks@,
                ).push(task@));
                assert(batch_views(batches@) =~= batch_views(before).update(
                    at as int,
                    BatchView {
                        subfolder: task@.subfolder,
                        tasks: batch_views(before)[at as int].tasks.push(task@),
                    },
                ));
            }
        } else {
            proof {
                assert forall|j: int| 0 <= j < before.len() implies distinct(subfolders(seen))[j]
                    != task@.subfolder by {
                    assert(batch_views(before)[j].subfolder == before[j].subfolder@);
                }
            }
            let mut first: Vec<CopyTask> = Vec::new();
            let subfolder = task.subfolder.clone();
            first.push(task);
            batches.push(Batch { subfolder, tasks: first });
            proof {
                assert(task_views(first@) =~= seq![task@]);
                assert(batch_views(batches@) =~= batch_views(before).push(
                    BatchView { subfolder: task@.subfolder, tasks: seq![task@] },
                ));
            }
        }
    }
    assert(all.take(tasks@.len() as int) =~= all);
    batches
}

/// What stands between the start label and the number in a shoot's folder
/// name.
pub const FOLDER_INFIX: &'static str = "_project_";

/// How the start of a shoot is written in its folder name: to the minute.
pub const START_PATTERN: &'static str = "%Y-%m-%d_%H_%M";

/// The name of the folder for a shoot: the label of its start, the infix,
/// and its position among the shoots counted from 1, which tells apart
/// shoots that start in the same minute.
pub open spec fn folder_name(label: Seq<char>, shoot_index: nat) -> Seq<char> {
    label + FOLDER_INFIX@ + decimal(shoot_index + 1)
}

/// The name of the folder for the shoot at position `shoot_index`, counted
/// from 0, that starts at the moment written as `label`.
pub fn shoot_folder_name(label: &str, shoot_index: usize) -> (name: String)
    ensures
        name@ == folder_name(label@, shoot_index as nat),
{
    let mut name = String::from_str(label);
    name.append(FOLDER_INFIX);
    let number = decimal_text(shoot_index as u128 + 1);
    name.append(number.as_str());
    name
}

/// The plan for copying one shoot.
#[derive(Debug, PartialEq, Eq)]
pub struct CopyPlan {
    /// The shoot's folder, below the destination root.
    pub folder: String,
    /// The work, one batch for each subfolder of the shoot's folder.
    pub batches: Vec<Batch>,
    /// How the work is run.
    pub strategy: Strategy,
}

/// What a [`CopyPlan`] stands for.
pub struct PlanView {
    pub folder: Seq<char>,
    pub batches: Seq<BatchView>,
    pub strategy: Strategy,
}

impl View for CopyPlan {
    type V = PlanView;

    open spec fn view(&self) -> PlanView {
        PlanView {
            folder: self.folder@,
            batches: batch_views(self.batches@),
            strategy: self.strategy,
        }
    }
}

/// Every file can be placed.
pub open spec fn all_placeable(files: Seq<EntryView>) -> bool {
    forall|i: int| 0 <= i < files.len() ==> placeable(#[trigger] files[i].path)
}

/// The plan for the files of a shoot that starts at the moment written as
/// `label` and stands at position `shoot_index`, on a machine with `cores`
/// cores.
pub open spec fn planned(files: Seq<EntryView>, label: Seq<char>, shoot_index: nat, cores: int)
    -> PlanView {
    PlanView {
        folder: folder_name(label, shoot_index),
        batches: grouped(tasks_of(files)),
        strategy: strategy_for(cores),
    }
}

/// The tasks for the files, in their order, or `None` where a file cannot be
/// placed.
pub fn collect_tasks(files: &Vec<FileEntry>) -> (tasks: Option<Vec<CopyTask>>)
    ensures
        tasks is Some <==> all_placeable(entry_views(files@)),
        tasks matches Some(t) ==> task_views(t@) == tasks_of(entry_views(files@)),
{
    let ghost all = entry_views(files@);
    let mut tasks: Vec<CopyTask> = Vec::new();
    let mut i: usize = 0;
    while i < files.len()
        invariant
            i <= files.len(),
            all == entry_views(files@),
            all_placeable(all.take(i as int)),
            task_views(tasks@) == tasks_of(all.take(i as int)),
        decreases files.len() - i,
    {
        let ghost before = tasks@;
        match copy_task(&files[i]) {
            Some(task) => {
                tasks.push(task);
                proof {
                    assert(all.take(i + 1) =~= all.take(i as int).push(files[i as int]@));
                    assert(task_views(tasks@) =~= task_views(before).push(task@));
                    assert(tasks_of(all.take(i + 1)) =~= tasks_of(all.take(i as int)).push(
                        task_of(files[i as int]@.path),
                    ));
                    assert forall|j: int| 0 <= j < i + 1 implies placeable(
                        #[trigger] all.take(i + 1)[j].path,
                    ) by {
                        if j < i {
                            assert(all.take(i as int)[j] == all.take(i + 1)[j]);
                        }
                    }
                }
            },
            None => {
                assert(!placeable(all[i as int].path));
                return None;
            },
        }
        i += 1;
    }
    assert(all.take(files.len() as int) =~= all);
    Some(tasks)
}

/// The tasks for the files that have the extension `ext`, ASCII letters
/// compared without regard to case, in the files' order; `None` where one of
/// these files cannot be placed.
pub fn copy_files_by_ext(files: &Vec<FileEntry>, ext: &str) -> (tasks: Option<Vec<CopyTask>>)
    ensures
        tasks is Some <==> all_placeable(with_extension(entry_views(files@), ext@)),
        tasks matches Some(t) ==> task_views(t@) == tasks_of(
            with_extension(entry_views(files@), ext@),
        ),
{
    let ghost all = entry_views(files@);
    let mut chosen: Vec<FileEntry> = Vec::new();
    let mut i: usize = 0;
    proof {
        reveal(Seq::filter);
        assert(all.take(0) =~= Seq::<EntryView>::empty());
        assert(entry_views(chosen@) =~= Seq::<EntryView>::empty());
    }
    while i < files.len()
        invariant
            i <= files.len(),
            all == entry_views(files@),
            entry_views(chosen@) == with_extension(all.take(i as int), ext@),
        decreases files.len() - i,
    {
        proof {
            reveal(Seq::filter);
            assert(all.take(i + 1).drop_last() =~= all.take(i as int));
            assert(all.take(i + 1).last() == files[i as int]@);
        }
        if path_has_extension(files[i].path.as_str(), ext) {
            let copy = files[i].clone();
            proof {
                lemma_entry_views_push(chosen@, copy);
            }
            chosen.push(copy);
        }
        i += 1;
    }
    assert(all.take(files.len() as int) =~= all);
    collect_tasks(&chosen)
}

/// Plans the copy of a shoot that starts at the moment written as `label`
/// and stands at position `shoot_index`, counted from 0, for a machine with
/// `cores` cores. `None` where a file of the shoot cannot be placed.
pub fn plan_copy(shoot: &Photoshoot, label: &str, shoot_index: usize, cores: usize) -> (plan:
    Option<CopyPlan>)
    ensures
        plan is Some <==> all_placeable(shoot@),
        plan matches Some(p) ==> p@ == planned(shoot@, label@, shoot_index as nat, cores as int),
        plan matches Some(p) ==> batched(p@.batches).to_multiset() == tasks_of(
            shoot@,
        ).to_multiset(),
{
    proof {
        lemma_grouped_holds_each_once(tasks_of(shoot@));
    }
    match collect_tasks(&shoot.files) {
        Some(tasks) => Some(
            CopyPlan {
                folder: shoot_folder_name(label, shoot_index),
                batches: group_tasks(tasks),
                strategy: choose_strategy(cores),
            },
        ),
        None => None,
    }
}

/// Why a shoot could not be planned.
#[derive(Clone, Copy, Debug, PartialEq, Eq)]
pub enum PlanError {
    /// The path of a file does not end in a file name.
    NoFileName,
    /// The machine could not write the start of the shoot in its time zone.
    NoStartLabel,
}

/// Plans the copy of a shoot on this machine: the folder is named after the
/// shoot's earliest file, written to the minute in the machine's time zone,
/// and the strategy follows the machine's cores. The plan fails where a file
/// of the shoot cannot be placed; otherwise only where the machine cannot
/// write the start.
pub fn copy_shoot_files(shoot: &Photoshoot, shoot_index: usize) -> (plan: Result<
    CopyPlan,
    PlanError,
>)
    requires
        shoot@.len() > 0,
    ensures
        plan == Err::<CopyPlan, PlanError>(PlanError::NoFileName) <==> !all_placeable(shoot@),
        plan matches Ok(p) ==> exists|label: Seq<char>, cores: int|
            p@ == planned(shoot@, label, shoot_index as nat, cores),
        plan matches Ok(p) ==> p@.batches == grouped(tasks_of(shoot@)),
        plan matches Ok(p) ==> batched(p@.batches).to_multiset() == tasks_of(shoot@).to_multiset(),
{
    proof {
        lemma_grouped_holds_each_once(tasks_of(shoot@));
    }
    match collect_tasks(&shoot.files) {
        Some(tasks) => {
            let start = shoot.min_timestamp();
            match local_time_text(start, START_PATTERN) {
                Some(label) => {
                    let cores = available_cores();
                    let plan = CopyPlan {
                        folder: shoot_folder_name(label.as_str(), shoot_index),
                        batches: group_tasks(tasks),
                        strategy: choose_strategy(cores),
                    };
                    assert(plan@ == planned(shoot@, label@, shoot_index as nat, cores as int));
                    Ok(plan)
                },
                None => Err(PlanError::NoStartLabel),
            }
        },
        None => Err(PlanError::NoFileName),
    }
}

/// The tasks of a run of batches in one row, batch after batch.
pub open spec fn batched(batches: Seq<BatchView>) -> Seq<TaskView> {
    batches.map_values(|b: BatchView| b.tasks).flatten()
}

/// One more item in one of the parts is one more item in the row.
proof fn lemma_flatten_grows(parts: Seq<Seq<TaskView>>, j: int, t: TaskView)
    requires
        0 <= j < parts.len(),
    ensures
        parts.update(j, parts[j].push(t)).flatten().to_multiset()
            == parts.flatten().to_multiset().insert(t),
    decreases parts.len(),
{
    broadcast use vstd::seq_lib::group_to_multiset_ensures;
    let grown = parts.update(j, parts[j].push(t));
    let front = parts.drop_last();
    assert(parts =~= front.push(parts.last()));
    front.lemma_flatten_push(parts.last());
    if j == parts.len() - 1 {
        assert(grown =~= front.push(parts[j].push(t)));
        front.lemma_flatten_push(parts[j].push(t));
        assert(grown.flatten() =~= parts.flatten().push(t));
    } else {
        let front_grown = front.update(j, front[j].push(t));
        assert(grown =~= front_grown.push(parts.last()));
        front_grown.lemma_flatten_push(parts.last());
        lemma_flatten_grows(front, j, t);
        vstd::seq_lib::lemma_multiset_commutative(front_grown.flatten(), parts.last());
        vstd::seq_lib::lemma_multiset_commutative(front.flatten(), parts.last());
        assert(grown.flatten().to_multiset() =~= parts.flatten().to_multiset().insert(t));
    }
}

/// Grouping places every task in exactly one batch: the batches in a row
/// hold every task as often as it was given, so a plan has one task for each
/// file of the shoot.
pub proof fn lemma_grouped_holds_each_once(tasks: Seq<TaskView>)
    ensures
        batched(grouped(tasks)).to_multiset() == tasks.to_multiset(),
        batched(grouped(tasks)).len() == tasks.len(),
    decreases tasks.len(),
{
    broadcast use vstd::seq_lib::group_to_multiset_ensures;
    let tasks_in = |b: BatchView| b.tasks;
    if tasks.len() == 0 {
        assert(subfolders(tasks) =~= Seq::<Seq<char>>::empty());
        assert(grouped(tasks) =~= Seq::<BatchView>::empty());
        assert(batched(grouped(tasks)) =~= Seq::<TaskView>::empty());
        assert(tasks =~= Seq::<TaskView>::empty());
    } else {
        let front = tasks.drop_last();
        let t = tasks.last();
        let parts = grouped(front).map_values(tasks_in);
        assert(tasks =~= front.push(t));
        lemma_grouped_holds_each_once(front);
        lemma_grouped_push(front, t);
        if distinct(subfolders(front)).contains(t.subfolder) {
            let j = choose|j: int|
                0 <= j < grouped(front).len() && (#[trigger] grouped(front)[j]).subfolder
                    == t.subfolder && grouped(front.push(t)) == grouped(front).update(
                    j,
                    BatchView { subfolder: t.subfolder, tasks: grouped(front)[j].tasks.push(t) },
                );
            assert(grouped(tasks).map_values(tasks_in) =~= parts.update(j, parts[j].push(t)));
            lemma_flatten_grows(parts, j, t);
        } else {
            assert(grouped(tasks).map_values(tasks_in) =~= parts.push(seq![t]));
            parts.lemma_flatten_push(seq![t]);
            assert(batched(grouped(tasks)) =~= batched(grouped(front)).push(t));
        }
        assert(batched(grouped(tasks)).to_multiset() =~= tasks.to_multiset());
    }
    batched(grouped(tasks)).to_multiset_ensures();
    tasks.to_multiset_ensures();
}

/// How the copy of one file went.
#[derive(Clone, Copy, Debug, PartialEq, Eq)]
pub struct FileOutcome {
    /// Whether the bytes were copied without an error.
    pub copied: bool,
    /// What the digests of source and copy said.
    pub verification: Verification,
}

/// The file was copied and its copy was verified.
pub open spec fn clean(outcome: FileOutcome) -> bool {
    outcome.copied && outcome.verification is Verified
}

/// The tally of a shoot's copy.
#[derive(Clone, Copy, Debug, PartialEq, Eq)]
pub struct CopyReport {
    /// Files that were attempted, whatever came of them.
    pub processed: usize,
    /// Files whose bytes could not be copied.
    pub copy_failures: usize,
    /// Files whose copy has another digest than the source.
    pub mismatches: usize,
    /// Files for which a digest could not be computed.
    pub checksum_errors: usize,
    /// Files with any of these faults.
    pub failures: usize,
}

/// The outcomes of files whose bytes could not be copied.
pub open spec fn not_copied(outcomes: Seq<FileOutcome>) -> Seq<FileOutcome> {
    outcomes.filter(|o: FileOutcome| !o.copied)
}

/// The outcomes of files whose copy has another digest than the source.
pub open spec fn mismatched(outcomes: Seq<FileOutcome>) -> Seq<FileOutcome> {
    outcomes.filter(|o: FileOutcome| o.verification is Mismatch)
}

/// The outcomes of files for which a digest could not be computed.
pub open spec fn unchecked(outcomes: Seq<FileOutcome>) -> Seq<FileOutcome> {
    outcomes.filter(|o: FileOutcome| o.verification is ChecksumError)
}

/// The outcomes of files with any fault.
pub open spec fn faulty(outcomes: Seq<FileOutcome>) -> Seq<FileOutcome> {
    outcomes.filter(|o: FileOutcome| !clean(o))
}

/// Tallies the outcomes of a shoot's copy. Every file counts as processed,
/// failed or not; a file with several faults counts once among the failures.
pub fn summarize(outcomes: &Vec<FileOutcome>) -> (report: CopyReport)
    ensures
        report.processed == outcomes@.len(),
        report.copy_failures == not_copied(outcomes@).len(),
        report.mismatches == mismatched(outcomes@).len(),
        report.checksum_errors == unchecked(outcomes@).len(),
        report.failures == faulty(outcomes@).len(),
        report.failures <= report.processed,
{
    let mut report = CopyReport {
        processed: 0,
        copy_failures: 0,
        mismatches: 0,
        checksum_errors: 0,
        failures: 0,
    };
    let mut i: usize = 0;
    proof {
        reveal(Seq::filter);
        assert(outcomes@.take(0) =~= Seq::<FileOutcome>::empty());
    }
    while i < outcomes.len()
        invariant
            i <= outcomes.len(),
            report.processed == i,
            report.copy_failures == not_copied(outcomes@.take(i as int)).len() <= i,
            report.mismatches == mismatched(outcomes@.take(i as int)).len() <= i,
            report.checksum_errors == unchecked(outcomes@.take(i as int)).len() <= i,
            report.failures == faulty(outcomes@.take(i as int)).len() <= i,
        decreases outcomes.len() - i,
    {
        let outcome = outcomes[i];
        proof {
            reveal(Seq::filter);
            assert(outcomes@.take(i + 1).drop_last() =~= outcomes@.take(i as int));
        }
        let mut fault = false;
        if !outcome.copied {
            report.copy_failures += 1;
            fault = true;
        }
        match outcome.verification {
            Verification::Verified => {},
            Verification::Mismatch => {
                report.mismatches += 1;
                fault = true;
            },
            Verification::ChecksumError => {
                report.checksum_errors += 1;
                fault = true;
            },
        }
        if fault {
            report.failures += 1;
        }
        report.processed += 1;
        i += 1;
    }
    assert(outcomes@.take(outcomes.len() as int) =~= outcomes@);
    report
}

} // verus!
