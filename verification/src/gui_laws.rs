//! What holds of the state behind the window.

use vstd::prelude::*;

use crate::gui::{
    all_selected, cached, count_selected, index_of_paths, inverted, selected_paths, unselected,
    AnalysisCacheEntry, AppView, Notice, Operation, PdfInfo, Start, WorkerMsg,
};

verus! {

/// A path is known exactly if a file has it, and it is known at the last of the places where a
/// file has it.
pub proof fn law_paths_are_known_by_their_last_place(files: Seq<PdfInfo>)
    requires
        files.len() <= usize::MAX,
    ensures
        forall|path: u64| #[trigger]
            index_of_paths(files).contains_key(path) <==> exists|i: int|
                0 <= i < files.len() && (#[trigger] files[i]).path == path,
        forall|i: int|
            0 <= i < files.len() ==> index_of_paths(files).contains_key((#[trigger] files[i]).path)
                && i <= index_of_paths(files)[files[i].path] < files.len()
                && files[index_of_paths(files)[files[i].path] as int].path == files[i].path,
    decreases files.len(),
{
    if files.len() > 0 {
        let front = files.drop_last();
        law_paths_are_known_by_their_last_place(front);
        let index = index_of_paths(files);
        assert forall|path: u64| #[trigger]
            index.contains_key(path) <==> exists|i: int|
                0 <= i < files.len() && (#[trigger] files[i]).path == path by {
            if index.contains_key(path) {
                if path == files.last().path {
                    assert(files[files.len() - 1].path == path);
                } else {
                    assert(index_of_paths(front).contains_key(path));
                    let i = choose|i: int| 0 <= i < front.len() && (#[trigger] front[i]).path == path;
                    assert(files[i].path == path);
                }
            }
            if exists|i: int| 0 <= i < files.len() && (#[trigger] files[i]).path == path {
                let i = choose|i: int| 0 <= i < files.len() && (#[trigger] files[i]).path == path;
                if i < front.len() {
                    assert(front[i].path == path);
                    assert(index_of_paths(front).contains_key(path));
                }
            }
        }
        assert forall|i: int| 0 <= i < files.len() implies index.contains_key(
            (#[trigger] files[i]).path,
        ) && i <= index[files[i].path] < files.len() && files[index[files[i].path] as int].path
            == files[i].path by {
            if i < front.len() {
                assert(front[i] == files[i]);
                assert(index_of_paths(front).contains_key(front[i].path));
                let at = index_of_paths(front)[front[i].path];
                assert(front[at as int] == files[at as int]);
            }
        }
    }
}

/// The selected paths are those of the selected files, in their order, and as many as these are.
pub proof fn law_selected_paths_are_in_order(files: Seq<PdfInfo>)
    ensures
        selected_paths(files) == files.filter(|file: PdfInfo| file.selected).map_values(
            |file: PdfInfo| file.path,
        ),
        count_selected(files) == files.filter(|file: PdfInfo| file.selected).len(),
        count_selected(files) == 0 <==> forall|i: int|
            0 <= i < files.len() ==> !(#[trigger] files[i]).selected,
    decreases files.len(),
{
    reveal(Seq::filter);
    let is_selected = |file: PdfInfo| file.selected;
    let path = |file: PdfInfo| file.path;
    if files.len() > 0 {
        let front = files.drop_last();
        law_selected_paths_are_in_order(front);
        let kept = front.filter(is_selected);
        assert(kept.push(files.last()).map_values(path) =~= kept.map_values(path).push(
            files.last().path,
        ));
        assert(forall|i: int| 0 <= i < front.len() ==> #[trigger] front[i] == files[i]);
        if count_selected(files) == 0 {
            assert forall|i: int| 0 <= i < files.len() implies !(#[trigger] files[i]).selected by {
                if i < front.len() {
                    assert(!front[i].selected);
                }
            }
        } else if !files.last().selected {
            let i = choose|i: int| 0 <= i < front.len() && (#[trigger] front[i]).selected;
            assert(files[i].selected);
        } else {
            assert(files[files.len() - 1].selected);
        }
    } else {
        assert(files.filter(is_selected).map_values(path) =~= seq![]);
    }
}

/// Selecting files changes nothing of them but whether they are selected.
pub proof fn law_selecting_changes_nothing_else(files: Seq<PdfInfo>, i: int)
    requires
        0 <= i < files.len(),
    ensures
        all_selected(files).len() == files.len(),
        inverted(files).len() == files.len(),
        all_selected(files)[i].selected,
        inverted(files)[i].selected == !files[i].selected,
        all_selected(files)[i] == (PdfInfo { selected: true, ..files[i] }),
        inverted(files)[i].path == files[i].path,
        inverted(files)[i].classification == files[i].classification,
        inverted(files)[i].file_size == files[i].file_size,
{
}

/// Deleting the selected files takes no other out of the list, and keeps these in their order.
pub proof fn law_deleting_keeps_the_others(files: Seq<PdfInfo>, file: PdfInfo)
    ensures
        unselected(files) == files.filter(|f: PdfInfo| !f.selected),
        !file.selected ==> unselected(files.push(file)) == unselected(files).push(file),
        file.selected ==> unselected(files.push(file)) == unselected(files),
{
    reveal(Seq::filter);
    assert(files.push(file).drop_last() =~= files);
}

/// What is known of a file is what was found when it was last analysed, and it is known exactly
/// if the file has the same time of modification as then.
pub proof fn law_modified_files_are_not_known(
    cache: Map<u64, AnalysisCacheEntry>,
    path: u64,
    found: AnalysisCacheEntry,
    other: u64,
    modified: Option<i128>,
)
    ensures
        cached(cache.insert(path, found), path, modified) == if found.modified == modified {
            Some(found)
        } else {
            None
        },
        other != path ==> cached(cache.insert(path, found), other, modified) == cached(
            cache,
            other,
            modified,
        ),
        !cache.contains_key(path) ==> cached(cache, path, modified) is None,
{
}

/// What an analysis finds is written to the file that has the path, and to no other; the file
/// keeps everything else. It is kept for later. A file counts as analysed once, and the scan is
/// over exactly when as many count as there are.
pub proof fn law_an_analysis_is_of_one_file(
    app: AppView,
    path: u64,
    found: AnalysisCacheEntry,
    i: int,
)
    requires
        app.file_index.contains_key(path),
        app.file_index[path] < app.files.len(),
        app.analyzed_count < usize::MAX,
        0 <= i < app.files.len(),
    ensures
        ({
            let (after, notice, last) = app.after_analysis(path, found);
            let at = app.file_index[path] as int;
            let was = app.files[at];
            let now = after.files[at];
            let complete = !was.analyzed && app.analyzed_count + 1 >= app.analysis_total;
            &&& after.files.len() == app.files.len()
            &&& i != at ==> after.files[i] == app.files[i]
            &&& now.analyzed && now.classification == found.classification
            &&& now.total_chars == found.total_chars && now.total_pages == found.total_pages
            &&& now.path == was.path && now.display_name == was.display_name
            &&& now.selected == was.selected && now.file_size == was.file_size
            &&& after.analysis_cache == app.analysis_cache.insert(path, found)
            &&& after.analyzed_count == if was.analyzed {
                app.analyzed_count as int
            } else {
                app.analyzed_count + 1
            }
            &&& last == complete
            &&& complete <==> notice == Some(Notice::AnalysisComplete)
            &&& !complete ==> notice is None
            &&& after.scanning == (app.scanning && !complete)
            &&& after.scan_id == app.scan_id && after.file_index == app.file_index
            &&& after.analysis_total == app.analysis_total && after.running == app.running
        }),
{
}

/// An analysis of a path that no file has changes nothing.
pub proof fn law_an_analysis_of_an_unknown_path_is_ignored(
    app: AppView,
    path: u64,
    found: AnalysisCacheEntry,
)
    requires
        !app.file_index.contains_key(path),
    ensures
        app.after_analysis(path, found) == (app, None::<Notice>, false),
{
}

/// When the latest scan has finished, its files are the files, none of them counts as analysed,
/// and there is something left to do exactly if there are any.
pub proof fn law_a_finished_scan_gives_the_files(app: AppView, files: Vec<PdfInfo>)
    requires
        files@.len() <= usize::MAX,
    ensures
        ({
            let (after, notice, last) = app.after_scan_msg(
                WorkerMsg::ScanFinished { scan_id: app.scan_id, files },
            );
            &&& after.files == files@
            &&& after.file_index == index_of_paths(files@)
            &&& after.analysis_total == files@.len()
            &&& after.analyzed_count == 0
            &&& after.scanning <==> files@.len() > 0
            &&& notice matches Some(Notice::ScanCount(n)) && n == files@.len()
            &&& !last
            &&& after.scan_id == app.scan_id && after.running == app.running
            &&& after.analysis_cache == app.analysis_cache && after.scan_open == app.scan_open
        }),
{
}

/// A new scan has another number than the one before it, so that nothing that the earlier one
/// still tells counts. It begins with no files, and keeps what is known of files.
pub proof fn law_a_new_scan_begins_anew(app: AppView)
    ensures
        ({
            let after = app.scan_begun();
            &&& after.scan_id != app.scan_id
            &&& app.scan_id < u64::MAX ==> after.scan_id == app.scan_id + 1
            &&& after.files.len() == 0
            &&& after.scanning && after.scan_open
            &&& after.analysis_total == 0 && after.analyzed_count == 0
            &&& after.analysis_cache == app.analysis_cache
            &&& after.running == app.running && after.paused == app.paused
            &&& after.delete_after == app.delete_after && after.controlled == app.controlled
        }),
{
}

/// While a file is worked on, the files before it count as done and of its own pages those that
/// are done; once it is done it counts as a whole file.
pub proof fn law_progress_counts_files_and_pages(
    app: AppView,
    index: usize,
    total: usize,
    name: String,
    page: usize,
    pages: usize,
)
    requires
        1 <= index,
    ensures
        ({
            let begun = app.after_task_msg(WorkerMsg::FileStarted { index, total, name }).0;
            let going = begun.after_task_msg(
                WorkerMsg::FileProgress { current_page: page, total_pages: pages },
            ).0;
            let done = going.after_task_msg(WorkerMsg::FileDone { index, total }).0;
            &&& begun.current_file_name == name@ && begun.current_file_index == index
            &&& begun.current_file_page == 0 && begun.current_file_total_pages == 0
            &&& begun.total_progress == app.total_progress
            &&& going.total_progress.files == index - 1 && going.total_progress.total == total
            &&& going.total_progress.page == page && going.total_progress.pages == pages
            &&& going.current_file_page == page && going.current_file_total_pages == pages
            &&& done.total_progress.files == index && done.total_progress.total == total
            &&& done.total_progress.page == 0 && done.total_progress.pages == 0
            &&& done.current_file_page == pages && done.current_file_total_pages == pages
            &&& done.current_file_index == index && done.total_files_to_process == total
            &&& done.files == app.files && done.running == app.running && done.paused == app.paused
        }),
{
}

/// Whether a task is said to be finished among what it has told.
pub open spec fn finishes(task: Seq<WorkerMsg>) -> bool {
    exists|i: int| 0 <= i < task.len() && #[trigger] task[i] is Finished
}

/// Whether a task is said to be stopped among what it has told.
pub open spec fn stops(task: Seq<WorkerMsg>) -> bool {
    exists|i: int| 0 <= i < task.len() && #[trigger] task[i] is Stopped
}

/// What a task tells changes neither the files nor whether it runs, but for its end.
proof fn lemma_tasks_keep(app: AppView, task: Seq<WorkerMsg>)
    ensures
        ({
            let after = app.after_task_msgs(task).0;
            &&& after.files == app.files
            &&& after.running == app.running && after.paused == app.paused
            &&& after.controlled == app.controlled && after.operation == app.operation
            &&& after.delete_after == app.delete_after
            &&& after.show_delete_confirm == app.show_delete_confirm
            &&& after.scan_open == app.scan_open && after.scanning == app.scanning
        }),
    decreases task.len(),
{
    if task.len() > 0 {
        lemma_tasks_keep(app, task.drop_last());
    }
}

/// A task runs until it is said to be finished or stopped, and then it can be paused no more.
/// Once it has finished, deleting the originals is offered exactly where files were split, this
/// is wanted, and a file is selected; once it has only been stopped, that stays as it was.
pub proof fn law_tasks_run_until_they_end(app: AppView, task: Seq<WorkerMsg>)
    ensures
        ({
            let after = app.after_msgs(seq![], task).0;
            let ended = finishes(task) || stops(task);
            &&& after.running == (app.running && !ended)
            &&& after.paused == (app.paused && !ended)
            &&& after.controlled == (app.controlled && !ended)
            &&& after.files == app.files
            &&& finishes(task) ==> (after.show_delete_confirm <==> app.operation is Split
                && app.delete_after && exists|i: int|
                0 <= i < app.files.len() && (#[trigger] app.files[i]).selected)
            &&& !finishes(task) ==> after.show_delete_confirm == app.show_delete_confirm
            &&& finishes(task) ==> after.total_progress.files == after.total_progress.total
                && after.total_progress.files == 1 && after.total_progress.page == 0
        }),
{
    law_selected_paths_are_in_order(app.files);
    lemma_tasks_keep(app, task);
    assert(app.after_scan_msgs(seq![]) == (app, Seq::<Notice>::empty(), false));
    assert((AppView { scan_open: app.scan_open && !false, ..app }) == app);
}

/// What is logged is the texts that were told, in their order: first those of the scan, and then
/// those of the task.
pub proof fn law_texts_are_logged_in_order(
    app: AppView,
    scan: Seq<WorkerMsg>,
    task: Seq<WorkerMsg>,
    text: String,
)
    ensures
        app.after_scan_msgs(scan.push(WorkerMsg::ScanLog(text))).1 == app.after_scan_msgs(
            scan,
        ).1.push(Notice::Text(text)),
        app.after_scan_msgs(scan.push(WorkerMsg::ScanLog(text))).0 == app.after_scan_msgs(scan).0,
        app.after_task_msgs(task.push(WorkerMsg::Log(text))).1 == app.after_task_msgs(
            task,
        ).1.push(Notice::Text(text)),
        app.after_task_msgs(task.push(WorkerMsg::Log(text))).0 == app.after_task_msgs(task).0,
        app.after_msgs(scan, seq![]).1 == app.after_scan_msgs(scan).1,
        app.after_msgs(seq![], task).1 == app.after_task_msgs(task).1,
{
    assert(scan.push(WorkerMsg::ScanLog(text)).drop_last() =~= scan);
    assert(task.push(WorkerMsg::Log(text)).drop_last() =~= task);
    assert(app.after_scan_msgs(seq![]) == (app, Seq::<Notice>::empty(), false));
    assert((AppView { scan_open: app.scan_open && !false, ..app }) == app);
    let empty = Seq::<Notice>::empty();
    assert(app.after_scan_msgs(scan).1 + empty =~= app.after_scan_msgs(scan).1);
    assert(empty + app.after_task_msgs(task).1 =~= app.after_task_msgs(task).1);
}

/// What is told at several times has the same effect as when it is told at once, but for the end
/// of a task.
pub proof fn law_messages_may_come_at_several_times(
    app: AppView,
    a: Seq<WorkerMsg>,
    b: Seq<WorkerMsg>,
)
    ensures
        app.after_task_msgs(a + b).0 == app.after_task_msgs(a).0.after_task_msgs(b).0,
        app.after_task_msgs(a + b).1 == app.after_task_msgs(a).1
            + app.after_task_msgs(a).0.after_task_msgs(b).1,
        app.after_scan_msgs(a + b).0 == app.after_scan_msgs(a).0.after_scan_msgs(b).0,
        app.after_scan_msgs(a + b).1 == app.after_scan_msgs(a).1
            + app.after_scan_msgs(a).0.after_scan_msgs(b).1,
    decreases b.len(),
{
    let empty = Seq::<Notice>::empty();
    if b.len() > 0 {
        let front = b.drop_last();
        law_messages_may_come_at_several_times(app, a, front);
        assert((a + b).drop_last() =~= a + front);
        let (x, p) = app.after_task_msgs(a);
        let q = x.after_task_msgs(front).1;
        let (y, r, _) = app.after_scan_msgs(a);
        let s = y.after_scan_msgs(front).1;
        assert(forall|n: Notice| (p + q).push(n) =~= p + q.push(n));
        assert(forall|n: Notice| (r + s).push(n) =~= r + s.push(n));
    } else {
        assert(a + b =~= a);
        assert(app.after_task_msgs(a).1 + empty =~= app.after_task_msgs(a).1);
        assert(app.after_scan_msgs(a).1 + empty =~= app.after_scan_msgs(a).1);
    }
}

/// A task starts exactly if none is running and a file is selected. It is then running and not
/// paused, counts no file as done, and takes the selected files, in their order.
pub proof fn law_tasks_start_on_the_selected_files(
    app: AppView,
    operation: Operation,
    after: AppView,
    r: Start,
)
    requires
        app.files.len() <= usize::MAX,
        app.start_leads_to(operation, after, r),
    ensures
        ({
            let any = exists|i: int| 0 <= i < app.files.len() && (#[trigger] app.files[i]).selected;
            let chosen = app.files.filter(|file: PdfInfo| file.selected);
            &&& r is Started <==> !app.running && any
            &&& r is NothingSelected <==> !app.running && app.files.len() > 0 && !any
            &&& r is Ignored <==> app.running || app.files.len() == 0
            &&& !(r is Started) ==> after == app
            &&& r matches Start::Started(paths) ==> {
                &&& paths@ == chosen.map_values(|file: PdfInfo| file.path)
                &&& after.running && !after.paused && after.controlled
                &&& after.operation == operation
                &&& after.total_files_to_process == chosen.len()
                &&& after.total_progress.files == 0 && after.total_progress.page == 0
                &&& after.current_file_index == 0 && after.current_file_page == 0
                &&& after.files == app.files && after.delete_after == app.delete_after
                &&& after.max_size_mb == app.max_size_mb
                &&& after.pages_per_chunk == app.pages_per_chunk
                &&& after.split_mode == app.split_mode
            }
        }),
{
    law_selected_paths_are_in_order(app.files);
    lemma_filter_is_no_longer(app.files);
}

/// No more files are selected than there are.
proof fn lemma_filter_is_no_longer(files: Seq<PdfInfo>)
    ensures
        files.filter(|file: PdfInfo| file.selected).len() <= files.len(),
    decreases files.len(),
{
    reveal(Seq::filter);
    if files.len() > 0 {
        lemma_filter_is_no_longer(files.drop_last());
    }
}

/// At the beginning there are no files and nothing goes on; files are to be split by size, into
/// chunks of 50 megabytes, or else of 100 pages, and are not to be deleted.
pub proof fn law_nothing_goes_on_at_the_beginning()
    ensures
        ({
            let app = AppView::initial();
            &&& app.files.len() == 0 && app.file_index.dom().is_empty()
            &&& app.analysis_cache.dom().is_empty()
            &&& app.max_size_mb == 50 && app.pages_per_chunk == 100
            &&& app.split_mode is BySize && app.operation is Split
            &&& !app.running && !app.paused && !app.controlled && !app.delete_after
            &&& !app.scanning && !app.scan_open && !app.show_delete_confirm
            &&& app.analysis_total == 0 && app.analyzed_count == 0
            &&& app.total_progress.files == 0 && app.total_files_to_process == 0
        }),
{
}

/// What is told of a scan leaves open whether the scan can tell anything more.
proof fn lemma_scans_keep(app: AppView, scan: Seq<WorkerMsg>)
    ensures
        app.after_scan_msgs(scan).0.scan_open == app.scan_open,
        app.after_scan_msgs(scan).0.running == app.running,
        app.after_scan_msgs(scan).0.scan_id == app.scan_id,
    decreases scan.len(),
{
    if scan.len() > 0 {
        lemma_scans_keep(app, scan.drop_last());
    }
}

/// A scan can tell nothing more once one of its messages was the analysis of the last file, and
/// not before.
pub proof fn law_scans_close_with_the_last_analysis(
    app: AppView,
    scan: Seq<WorkerMsg>,
    msg: WorkerMsg,
)
    ensures
        ({
            let before = app.after_scan_msgs(scan).0;
            let open = app.after_msgs(scan, seq![]).0.scan_open;
            &&& app.after_msgs(seq![], seq![]).0.scan_open == app.scan_open
            &&& app.after_msgs(scan.push(msg), seq![]).0.scan_open == (open
                && !before.after_scan_msg(msg).2)
        }),
{
    let no_task = Seq::<WorkerMsg>::empty();
    assert(scan.push(msg).drop_last() =~= scan);
    lemma_scans_keep(app, scan);
    lemma_scans_keep(app, scan.push(msg));
    lemma_scans_keep(app, seq![]);
}

} // verus!
