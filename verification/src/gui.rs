//! The state behind the window: the files on offer, the scan that finds and
//! analyses them, and the task that works on them.

use std::collections::HashMap;

use vstd::prelude::*;

use crate::files::{law_long_names_are_cut, str_view, truncate_file_name, truncated_name};
use crate::text_stats::{classify_pdf, is_electronic, PdfTextStats};

verus! {

broadcast use vstd::std_specs::hash::group_hash_axioms;

/// How files are split.
#[derive(Clone, Copy, Debug, PartialEq, Eq, Structural)]
pub enum SplitMode {
    BySize,
    ByPages,
}

/// What a task does with the files.
#[derive(Clone, Copy, Debug, PartialEq, Eq, Structural)]
pub enum Operation {
    Split,
    ExtractImages,
}

/// A file on offer. Its path is a number that whoever holds the paths has given
/// to it.
#[derive(Debug)]
pub struct PdfInfo {
    pub path: u64,
    pub display_name: String,
    pub classification: String,
    pub total_chars: usize,
    pub total_pages: usize,
    pub file_size: u64,
    pub selected: bool,
    pub analyzed: bool,
}

/// What an analysis of a file found, and when the file had last been modified, in
/// nanoseconds, where that is known.
#[derive(Debug)]
pub struct AnalysisCacheEntry {
    pub modified: Option<i128>,
    pub classification: String,
    pub total_chars: usize,
    pub total_pages: usize,
}

impl Clone for AnalysisCacheEntry {
    fn clone(&self) -> (copy: Self)
        ensures
            copy == *self,
    {
        AnalysisCacheEntry {
            modified: self.modified,
            classification: self.classification.clone(),
            total_chars: self.total_chars,
            total_pages: self.total_pages,
        }
    }
}

/// What the threads in the background tell.
pub enum WorkerMsg {
    Log(String),
    ScanLog(String),
    ScanFinished { scan_id: u64, files: Vec<PdfInfo> },
    AnalysisUpdated {
        scan_id: u64,
        path: u64,
        modified: Option<i128>,
        classification: String,
        total_chars: usize,
        total_pages: usize,
    },
    FileStarted { index: usize, total: usize, name: String },
    FileProgress { current_page: usize, total_pages: usize },
    FileDone { index: usize, total: usize },
    Finished,
    Stopped,
}

/// What there is to log.
pub enum Notice {
    /// This text.
    Text(String),
    /// The scan has found so many files.
    ScanCount(usize),
    /// All files have been analysed.
    AnalysisComplete,
}

/// How much of a task is done: `files` whole files and `page` of the `pages` of the
/// next one, of `total` files.
#[derive(Clone, Copy, Debug, PartialEq, Eq, Structural)]
pub struct Progress {
    pub files: usize,
    pub page: usize,
    pub pages: usize,
    pub total: usize,
}

/// The state behind the window.
pub struct App {
    pub files: Vec<PdfInfo>,
    pub max_size_mb: u64,
    pub pages_per_chunk: usize,
    pub split_mode: SplitMode,
    pub running: bool,
    pub paused: bool,
    pub delete_after: bool,
    pub scanning: bool,
    pub scan_id: u64,
    pub analysis_cache: HashMap<u64, AnalysisCacheEntry>,
    pub file_index: HashMap<u64, usize>,
    pub analysis_total: usize,
    pub analyzed_count: usize,
    pub total_progress: Progress,
    pub current_file_name: String,
    pub current_file_index: usize,
    pub total_files_to_process: usize,
    pub current_file_page: usize,
    pub current_file_total_pages: usize,
    /// Whether the scan can still tell anything.
    pub scan_open: bool,
    /// Whether there is a task that can be paused and stopped.
    pub controlled: bool,
    pub show_delete_confirm: bool,
    pub operation: Operation,
}

/// What the state is.
#[verifier::ext_equal]
pub struct AppView {
    pub files: Seq<PdfInfo>,
    pub max_size_mb: u64,
    pub pages_per_chunk: usize,
    pub split_mode: SplitMode,
    pub running: bool,
    pub paused: bool,
    pub delete_after: bool,
    pub scanning: bool,
    pub scan_id: u64,
    pub analysis_cache: Map<u64, AnalysisCacheEntry>,
    pub file_index: Map<u64, usize>,
    pub analysis_total: usize,
    pub analyzed_count: usize,
    pub total_progress: Progress,
    pub current_file_name: Seq<char>,
    pub current_file_index: usize,
    pub total_files_to_process: usize,
    pub current_file_page: usize,
    pub current_file_total_pages: usize,
    pub scan_open: bool,
    pub controlled: bool,
    pub show_delete_confirm: bool,
    pub operation: Operation,
}

impl View for App {
    type V = AppView;

    open spec fn view(&self) -> AppView {
        AppView {
            files: self.files@,
            max_size_mb: self.max_size_mb,
            pages_per_chunk: self.pages_per_chunk,
            split_mode: self.split_mode,
            running: self.running,
            paused: self.paused,
            delete_after: self.delete_after,
            scanning: self.scanning,
            scan_id: self.scan_id,
            analysis_cache: self.analysis_cache@,
            file_index: self.file_index@,
            analysis_total: self.analysis_total,
            analyzed_count: self.analyzed_count,
            total_progress: self.total_progress,
            current_file_name: self.current_file_name@,
            current_file_index: self.current_file_index,
            total_files_to_process: self.total_files_to_process,
            current_file_page: self.current_file_page,
            current_file_total_pages: self.current_file_total_pages,
            scan_open: self.scan_open,
            controlled: self.controlled,
            show_delete_confirm: self.show_delete_confirm,
            operation: self.operation,
        }
    }
}

/// Where each path stands among the files; the last place, where it stands at
/// several.
pub open spec fn index_of_paths(files: Seq<PdfInfo>) -> Map<u64, usize>
    decreases files.len(),
{
    if files.len() == 0 {
        Map::empty()
    } else {
        index_of_paths(files.drop_last()).insert(files.last().path, (files.len() - 1) as usize)
    }
}

/// Where each path stands among the files.
fn build_index(files: &Vec<PdfInfo>) -> (index: HashMap<u64, usize>)
    ensures
        index@ == index_of_paths(files@),
{
    let mut index: HashMap<u64, usize> = HashMap::new();
    let mut i: usize = 0;
    assert(files@.take(0) =~= seq![]);
    while i < files.len()
        invariant
            i <= files@.len(),
            index@ == index_of_paths(files@.take(i as int)),
        decreases files.len() - i,
    {
        index.insert(files[i].path, i);
        assert(files@.take(i + 1).drop_last() =~= files@.take(i as int));
        i += 1;
    }
    assert(files@.take(i as int) =~= files@);
    index
}

/// How many of the files are selected.
pub open spec fn count_selected(files: Seq<PdfInfo>) -> nat
    decreases files.len(),
{
    if files.len() == 0 {
        0
    } else {
        count_selected(files.drop_last()) + if files.last().selected {
            1nat
        } else {
            0nat
        }
    }
}

/// The paths of the files that are selected, in their order.
pub open spec fn selected_paths(files: Seq<PdfInfo>) -> Seq<u64>
    decreases files.len(),
{
    if files.len() == 0 {
        seq![]
    } else {
        let before = selected_paths(files.drop_last());
        if files.last().selected {
            before.push(files.last().path)
        } else {
            before
        }
    }
}

/// The files that are not selected, in their order.
pub open spec fn unselected(files: Seq<PdfInfo>) -> Seq<PdfInfo> {
    files.filter(|file: PdfInfo| !file.selected)
}

impl AppView {
    /// The state after the file with the given path has been analysed, what there is
    /// to log, and whether this was the last of the files.
    pub open spec fn after_analysis(self, path: u64, found: AnalysisCacheEntry) -> (
        AppView,
        Option<Notice>,
        bool,
    ) {
        if !self.file_index.contains_key(path) || self.file_index[path] >= self.files.len() {
            (self, None, false)
        } else {
            let at = self.file_index[path] as int;
            let file = self.files[at];
            let updated = AppView {
                files: self.files.update(
                    at,
                    PdfInfo {
                        classification: found.classification,
                        total_chars: found.total_chars,
                        total_pages: found.total_pages,
                        analyzed: true,
                        ..file
                    },
                ),
                analysis_cache: self.analysis_cache.insert(path, found),
                ..self
            };
            if file.analyzed {
                (updated, None, false)
            } else {
                let count = if self.analyzed_count < usize::MAX {
                    (self.analyzed_count + 1) as usize
                } else {
                    self.analyzed_count
                };
                if count >= self.analysis_total {
                    (
                        AppView { analyzed_count: count, scanning: false, ..updated },
                        Some(Notice::AnalysisComplete),
                        true,
                    )
                } else {
                    (AppView { analyzed_count: count, ..updated }, None, false)
                }
            }
        }
    }

    /// The state after the scan has told something, and what there is to log.
    pub open spec fn after_scan_msg(self, msg: WorkerMsg) -> (AppView, Option<Notice>, bool) {
        match msg {
            WorkerMsg::ScanLog(text) => (self, Some(Notice::Text(text)), false),
            WorkerMsg::ScanFinished { scan_id, files } => if scan_id != self.scan_id {
                (self, None, false)
            } else {
                (
                    AppView {
                        files: files@,
                        file_index: index_of_paths(files@),
                        analysis_total: files@.len() as usize,
                        analyzed_count: 0,
                        scanning: files@.len() > 0,
                        ..self
                    },
                    Some(Notice::ScanCount(files@.len() as usize)),
                    false,
                )
            },
            WorkerMsg::AnalysisUpdated {
                scan_id,
                path,
                modified,
                classification,
                total_chars,
                total_pages,
            } => if scan_id != self.scan_id {
                (self, None, false)
            } else {
                self.after_analysis(
                    path,
                    AnalysisCacheEntry { modified, classification, total_chars, total_pages },
                )
            },
            _ => (self, None, false),
        }
    }

    /// The state after the task has told something, and what there is to log.
    pub open spec fn after_task_msg(self, msg: WorkerMsg) -> (AppView, Option<Notice>) {
        match msg {
            WorkerMsg::Log(text) => (self, Some(Notice::Text(text))),
            WorkerMsg::FileStarted { index, total, name } => (
                AppView {
                    current_file_index: index,
                    total_files_to_process: total,
                    current_file_name: name@,
                    current_file_page: 0,
                    current_file_total_pages: 0,
                    ..self
                },
                None,
            ),
            WorkerMsg::FileProgress { current_page, total_pages } => (
                AppView {
                    current_file_page: current_page,
                    current_file_total_pages: total_pages,
                    total_progress: Progress {
                        files: if self.current_file_index > 0 {
                            (self.current_file_index - 1) as usize
                        } else {
                            0
                        },
                        page: current_page,
                        pages: total_pages,
                        total: self.total_files_to_process,
                    },
                    ..self
                },
                None,
            ),
            WorkerMsg::FileDone { index, total } => (
                AppView {
                    current_file_index: index,
                    total_files_to_process: total,
                    current_file_page: self.current_file_total_pages,
                    total_progress: Progress { files: index, page: 0, pages: 0, total },
                    ..self
                },
                None,
            ),
            _ => (self, None),
        }
    }

    /// The state once the task has finished: the originals are offered for deletion
    /// where that is wanted after a split and there are any.
    pub open spec fn after_finish(self) -> AppView {
        AppView {
            running: false,
            paused: false,
            controlled: false,
            total_progress: Progress { files: 1, page: 0, pages: 0, total: 1 },
            show_delete_confirm: self.operation is Split && self.delete_after && count_selected(
                self.files,
            ) > 0,
            ..self
        }
    }

    /// The state once the task has stopped.
    pub open spec fn after_stop(self) -> AppView {
        AppView { running: false, paused: false, controlled: false, ..self }
    }

    /// The state after the scan has told several things, what there is to log, and
    /// whether the scan has told everything.
    pub open spec fn after_scan_msgs(self, msgs: Seq<WorkerMsg>) -> (AppView, Seq<Notice>, bool)
        decreases msgs.len(),
    {
        if msgs.len() == 0 {
            (self, seq![], false)
        } else {
            let (before, notices, done) = self.after_scan_msgs(msgs.drop_last());
            let (after, notice, last) = before.after_scan_msg(msgs.last());
            (
                after,
                match notice {
                    Some(n) => notices.push(n),
                    None => notices,
                },
                done || last,
            )
        }
    }

    /// The state after the task has told several things, and what there is to log.
    pub open spec fn after_task_msgs(self, msgs: Seq<WorkerMsg>) -> (AppView, Seq<Notice>)
        decreases msgs.len(),
    {
        if msgs.len() == 0 {
            (self, seq![])
        } else {
            let (before, notices) = self.after_task_msgs(msgs.drop_last());
            let (after, notice) = before.after_task_msg(msgs.last());
            (
                after,
                match notice {
                    Some(n) => notices.push(n),
                    None => notices,
                },
            )
        }
    }

    /// The state after everything that was told since the last time, and what there
    /// is to log.
    pub open spec fn after_msgs(self, scan: Seq<WorkerMsg>, task: Seq<WorkerMsg>) -> (
        AppView,
        Seq<Notice>,
    ) {
        let (scanned, first, closed) = self.after_scan_msgs(scan);
        let (worked, second) = AppView {
            scan_open: scanned.scan_open && !closed,
            ..scanned
        }.after_task_msgs(task);
        let finished = if exists|i: int| 0 <= i < task.len() && #[trigger] task[i] is Finished {
            worked.after_finish()
        } else {
            worked
        };
        let ended = if exists|i: int| 0 <= i < task.len() && #[trigger] task[i] is Stopped {
            finished.after_stop()
        } else {
            finished
        };
        (ended, first + second)
    }
}

impl App {
    /// How many of the files are selected.
    pub fn selected_count(&self) -> (count: usize)
        ensures
            count == count_selected(self@.files),
    {
        let mut count: usize = 0;
        let mut i: usize = 0;
        assert(self.files@.take(0) =~= seq![]);
        while i < self.files.len()
            invariant
                i <= self.files@.len(),
                count <= i,
                count == count_selected(self.files@.take(i as int)),
            decreases self.files.len() - i,
        {
            assert(self.files@.take(i + 1).drop_last() =~= self.files@.take(i as int));
            if self.files[i].selected {
                count += 1;
            }
            i += 1;
        }
        assert(self.files@.take(i as int) =~= self.files@);
        count
    }

    /// Takes in what the analysis of a file has found.
    fn analysis_done(&mut self, path: u64, found: AnalysisCacheEntry) -> (r: (Option<Notice>, bool))
        ensures
            (final(self)@, r.0, r.1) == old(self)@.after_analysis(path, found),
    {
        let at: usize = match self.file_index.get(&path) {
            Some(at) => *at,
            None => return (None, false),
        };
        if at >= self.files.len() {
            return (None, false);
        }
        let was_analyzed = self.files[at].analyzed;
        let file = PdfInfo {
            path: self.files[at].path,
            display_name: self.files[at].display_name.clone(),
            classification: found.classification.clone(),
            total_chars: found.total_chars,
            total_pages: found.total_pages,
            file_size: self.files[at].file_size,
            selected: self.files[at].selected,
            analyzed: true,
        };
        self.files.set(at, file);
        self.analysis_cache.insert(path, found);
        if was_analyzed {
            return (None, false);
        }
        if self.analyzed_count < usize::MAX {
            self.analyzed_count = self.analyzed_count + 1;
        }
        if self.analyzed_count >= self.analysis_total {
            self.scanning = false;
            (Some(Notice::AnalysisComplete), true)
        } else {
            (None, false)
        }
    }

    /// Takes in what the scan has told.
    fn scan_message(&mut self, msg: WorkerMsg) -> (r: (Option<Notice>, bool))
        ensures
            (final(self)@, r.0, r.1) == old(self)@.after_scan_msg(msg),
    {
        match msg {
            WorkerMsg::ScanLog(text) => (Some(Notice::Text(text)), false),
            WorkerMsg::ScanFinished { scan_id, files } => {
                if scan_id != self.scan_id {
                    return (None, false);
                }
                let total: usize = files.len();
                self.file_index = build_index(&files);
                self.files = files;
                self.analysis_total = total;
                self.analyzed_count = 0;
                self.scanning = total > 0;
                (Some(Notice::ScanCount(total)), false)
            },
            WorkerMsg::AnalysisUpdated {
                scan_id,
                path,
                modified,
                classification,
                total_chars,
                total_pages,
            } => {
                if scan_id != self.scan_id {
                    return (None, false);
                }
                self.analysis_done(
                    path,
                    AnalysisCacheEntry { modified, classification, total_chars, total_pages },
                )
            },
            _ => (None, false),
        }
    }

    /// Takes in what the task has told.
    fn task_message(&mut self, msg: WorkerMsg) -> (notice: Option<Notice>)
        ensures
            (final(self)@, notice) == old(self)@.after_task_msg(msg),
    {
        match msg {
            WorkerMsg::Log(text) => Some(Notice::Text(text)),
            WorkerMsg::FileStarted { index, total, name } => {
                self.current_file_index = index;
                self.total_files_to_process = total;
                self.current_file_name = name;
                self.current_file_page = 0;
                self.current_file_total_pages = 0;
                None
            },
            WorkerMsg::FileProgress { current_page, total_pages } => {
                self.current_file_page = current_page;
                self.current_file_total_pages = total_pages;
                self.total_progress = Progress {
                    files: if self.current_file_index > 0 {
                        self.current_file_index - 1
                    } else {
                        0
                    },
                    page: current_page,
                    pages: total_pages,
                    total: self.total_files_to_process,
                };
                None
            },
            WorkerMsg::FileDone { index, total } => {
                self.current_file_index = index;
                self.total_files_to_process = total;
                self.current_file_page = self.current_file_total_pages;
                self.total_progress = Progress { files: index, page: 0, pages: 0, total };
                None
            },
            _ => None,
        }
    }

    /// Takes in everything that was told since the last time, first what the scan and
    /// then what the task has told, and returns what there is to log.
    pub fn process_messages(&mut self, scan: Vec<WorkerMsg>, task: Vec<WorkerMsg>) -> (notices: Vec<
        Notice,
    >)
        ensures
            (final(self)@, notices@) == old(self)@.after_msgs(scan@, task@),
    {
        let ghost start = self@;
        let mut notices: Vec<Notice> = Vec::new();
        let closed = self.scan_messages(scan, &mut notices);
        assert(notices@ =~= start.after_scan_msgs(scan@).1);
        self.scan_open = self.scan_open && !closed;
        let (finished, stopped) = self.task_messages(task, &mut notices);
        if finished {
            self.finish();
        }
        if stopped {
            self.halt();
        }
        notices
    }

    /// Ends the task, which has done all that there was to do.
    fn finish(&mut self)
        ensures
            final(self)@ == old(self)@.after_finish(),
    {
        self.running = false;
        self.paused = false;
        self.controlled = false;
        self.total_progress = Progress { files: 1, page: 0, pages: 0, total: 1 };
        self.show_delete_confirm = match self.operation {
            Operation::Split => self.delete_after && self.selected_count() > 0,
            Operation::ExtractImages => false,
        };
    }

    /// Ends the task, which was stopped.
    fn halt(&mut self)
        ensures
            final(self)@ == old(self)@.after_stop(),
    {
        self.running = false;
        self.paused = false;
        self.controlled = false;
    }

    /// Takes in what the scan has told, and adds to what there is to log.
    fn scan_messages(&mut self, scan: Vec<WorkerMsg>, notices: &mut Vec<Notice>) -> (closed: bool)
        ensures
            ({
                let (after, more, done) = old(self)@.after_scan_msgs(scan@);
                &&& final(self)@ == after
                &&& final(notices)@ == old(notices)@ + more
                &&& closed == done
            }),
    {
        let ghost start = self@;
        let ghost before = notices@;
        let mut closed = false;
        assert(scan@.take(0) =~= seq![]);
        assert(before + Seq::<Notice>::empty() =~= before);
        for msg in iter: scan
            invariant
                iter.seq() == scan@,
                ({
                    let (after, more, done) = start.after_scan_msgs(
                        scan@.take(iter.index() as int),
                    );
                    &&& self@ == after
                    &&& notices@ == before + more
                    &&& closed == done
                }),
        {
            proof {
                let upto = scan@.take(iter.index() + 1);
                assert(upto.drop_last() =~= scan@.take(iter.index() as int));
                assert(upto.last() == msg);
            }
            let ghost so_far = start.after_scan_msgs(scan@.take(iter.index() as int)).1;
            let (notice, done) = self.scan_message(msg);
            match notice {
                Some(n) => {
                    notices.push(n);
                    assert(notices@ =~= before + so_far.push(n));
                },
                None => {},
            }
            closed = closed || done;
        }
        assert(scan@.take(scan@.len() as int) =~= scan@);
        closed
    }

    /// Takes in what the task has told, and adds to what there is to log.
    fn task_messages(&mut self, task: Vec<WorkerMsg>, notices: &mut Vec<Notice>) -> (r: (
        bool,
        bool,
    ))
        ensures
            ({
                let (after, more) = old(self)@.after_task_msgs(task@);
                &&& final(self)@ == after
                &&& final(notices)@ == old(notices)@ + more
            }),
            r.0 == exists|i: int| 0 <= i < task@.len() && #[trigger] task@[i] is Finished,
            r.1 == exists|i: int| 0 <= i < task@.len() && #[trigger] task@[i] is Stopped,
    {
        let ghost start = self@;
        let ghost before = notices@;
        let mut finished = false;
        let mut stopped = false;
        assert(task@.take(0) =~= seq![]);
        assert(before + Seq::<Notice>::empty() =~= before);
        for msg in iter: task
            invariant
                iter.seq() == task@,
                iter.index() <= task@.len(),
                ({
                    let (after, more) = start.after_task_msgs(task@.take(iter.index() as int));
                    &&& self@ == after
                    &&& notices@ == before + more
                }),
                finished == exists|i: int|
                    0 <= i < iter.index() && #[trigger] task@[i] is Finished,
                stopped == exists|i: int|
                    0 <= i < iter.index() && #[trigger] task@[i] is Stopped,
        {
            proof {
                let upto = task@.take(iter.index() + 1);
                assert(upto.drop_last() =~= task@.take(iter.index() as int));
                assert(upto.last() == msg);
                assert(task@[iter.index() as int] == msg);
            }
            let ghost so_far = start.after_task_msgs(task@.take(iter.index() as int)).1;
            match &msg {
                WorkerMsg::Finished => finished = true,
                WorkerMsg::Stopped => stopped = true,
                _ => {},
            }
            match self.task_message(msg) {
                Some(n) => {
                    notices.push(n);
                    assert(notices@ =~= before + so_far.push(n));
                },
                None => {},
            }
        }
        assert(task@.take(task@.len() as int) =~= task@);
        (finished, stopped)
    }
}

/// What an attempt to start a task came to.
pub enum Start {
    /// Nothing: there are no files, or a task is running.
    Ignored,
    /// No file is selected.
    NothingSelected,
    /// The task has been started on the files with these paths.
    Started(Vec<u64>),
}

impl AppView {
    /// The state at the beginning.
    pub open spec fn initial() -> AppView {
        AppView {
            files: seq![],
            max_size_mb: 50,
            pages_per_chunk: 100,
            split_mode: SplitMode::BySize,
            running: false,
            paused: false,
            delete_after: false,
            scanning: false,
            scan_id: 0,
            analysis_cache: Map::empty(),
            file_index: Map::empty(),
            analysis_total: 0,
            analyzed_count: 0,
            total_progress: Progress { files: 0, page: 0, pages: 0, total: 0 },
            current_file_name: seq![],
            current_file_index: 0,
            total_files_to_process: 0,
            current_file_page: 0,
            current_file_total_pages: 0,
            scan_open: false,
            controlled: false,
            show_delete_confirm: false,
            operation: Operation::Split,
        }
    }

    /// The state once a scan has begun.
    pub open spec fn scan_begun(self) -> AppView {
        AppView {
            files: seq![],
            scanning: true,
            scan_id: if self.scan_id == u64::MAX {
                0
            } else {
                (self.scan_id + 1) as u64
            },
            analysis_total: 0,
            analyzed_count: 0,
            scan_open: true,
            ..self
        }
    }

    /// The state once a task has been started.
    pub open spec fn started(self, operation: Operation) -> AppView {
        AppView {
            running: true,
            paused: false,
            controlled: true,
            operation,
            total_progress: Progress { files: 0, page: 0, pages: 0, total: 0 },
            current_file_name: seq![],
            current_file_index: 0,
            total_files_to_process: count_selected(self.files) as usize,
            current_file_page: 0,
            current_file_total_pages: 0,
            ..self
        }
    }

    /// Whether an attempt to start a task leads from this state to `after` and comes
    /// to `r`.
    pub open spec fn start_leads_to(self, operation: Operation, after: AppView, r: Start) -> bool {
        if self.files.len() == 0 || self.running {
            after == self && r is Ignored
        } else if count_selected(self.files) == 0 {
            after == self && r is NothingSelected
        } else {
            after == self.started(operation) && (r matches Start::Started(paths) && paths@
                == selected_paths(self.files))
        }
    }
}

/// The files, all of them selected.
pub open spec fn all_selected(files: Seq<PdfInfo>) -> Seq<PdfInfo> {
    files.map_values(|file: PdfInfo| PdfInfo { selected: true, ..file })
}

/// The files, those selected that were not, and the other way round.
pub open spec fn inverted(files: Seq<PdfInfo>) -> Seq<PdfInfo> {
    files.map_values(|file: PdfInfo| PdfInfo { selected: !file.selected, ..file })
}

/// There are as many selected paths as selected files.
proof fn lemma_selected_paths(files: Seq<PdfInfo>)
    ensures
        selected_paths(files).len() == count_selected(files),
        count_selected(files) <= files.len(),
    decreases files.len(),
{
    if files.len() > 0 {
        lemma_selected_paths(files.drop_last());
    }
}

impl Default for App {
    fn default() -> (app: Self)
        ensures
            app@ == AppView::initial(),
    {
        App {
            files: Vec::new(),
            max_size_mb: 50,
            pages_per_chunk: 100,
            split_mode: SplitMode::BySize,
            running: false,
            paused: false,
            delete_after: false,
            scanning: false,
            scan_id: 0,
            analysis_cache: HashMap::new(),
            file_index: HashMap::new(),
            analysis_total: 0,
            analyzed_count: 0,
            total_progress: Progress { files: 0, page: 0, pages: 0, total: 0 },
            current_file_name: String::new(),
            current_file_index: 0,
            total_files_to_process: 0,
            current_file_page: 0,
            current_file_total_pages: 0,
            scan_open: false,
            controlled: false,
            show_delete_confirm: false,
            operation: Operation::Split,
        }
    }
}

impl App {
    /// Begins a scan of so many inputs, and gives it a number by which what it tells
    /// is known; nothing happens where there are none.
    pub fn scan_paths(&mut self, inputs: usize) -> (scan_id: Option<u64>)
        ensures
            if inputs == 0 {
                final(self)@ == old(self)@ && scan_id is None
            } else {
                final(self)@ == old(self)@.scan_begun() && scan_id == Some(final(self)@.scan_id)
            },
    {
        if inputs == 0 {
            return None;
        }
        self.files = Vec::new();
        self.scanning = true;
        self.scan_id = self.scan_id.wrapping_add(1);
        self.analysis_total = 0;
        self.analyzed_count = 0;
        self.scan_open = true;
        Some(self.scan_id)
    }

    /// The paths of the files that are selected.
    pub fn selected(&self) -> (paths: Vec<u64>)
        ensures
            paths@ == selected_paths(self@.files),
    {
        let mut paths: Vec<u64> = Vec::new();
        let mut i: usize = 0;
        assert(self.files@.take(0) =~= seq![]);
        while i < self.files.len()
            invariant
                i <= self.files@.len(),
                paths@ == selected_paths(self.files@.take(i as int)),
            decreases self.files.len() - i,
        {
            assert(self.files@.take(i + 1).drop_last() =~= self.files@.take(i as int));
            if self.files[i].selected {
                paths.push(self.files[i].path);
            }
            i += 1;
        }
        assert(self.files@.take(i as int) =~= self.files@);
        paths
    }

    /// Starts a task on the files that are selected.
    fn start(&mut self, operation: Operation) -> (r: Start)
        ensures
            old(self)@.start_leads_to(operation, final(self)@, r),
    {
        if self.files.len() == 0 || self.running {
            return Start::Ignored;
        }
        let paths = self.selected();
        proof {
            lemma_selected_paths(self.files@);
        }
        if paths.len() == 0 {
            return Start::NothingSelected;
        }
        self.running = true;
        self.paused = false;
        self.controlled = true;
        self.operation = operation;
        self.total_progress = Progress { files: 0, page: 0, pages: 0, total: 0 };
        self.current_file_name = String::new();
        self.current_file_index = 0;
        self.total_files_to_process = paths.len();
        self.current_file_page = 0;
        self.current_file_total_pages = 0;
        Start::Started(paths)
    }

    /// Starts splitting the files that are selected.
    pub fn start_split(&mut self) -> (r: Start)
        ensures
            old(self)@.start_leads_to(Operation::Split, final(self)@, r),
    {
        self.start(Operation::Split)
    }

    /// Starts extracting the images of the files that are selected.
    pub fn start_extract_images(&mut self) -> (r: Start)
        ensures
            old(self)@.start_leads_to(Operation::ExtractImages, final(self)@, r),
    {
        self.start(Operation::ExtractImages)
    }

    /// Whether a task can be started.
    pub fn can_start(&self) -> (r: bool)
        ensures
            r == (!self@.running && self@.files.len() > 0 && count_selected(self@.files) > 0),
    {
        !self.running && self.files.len() > 0 && self.selected_count() > 0
    }

    /// Marks the task as paused, where there is one.
    pub fn pause(&mut self) -> (done: bool)
        ensures
            done == old(self)@.controlled,
            final(self)@ == if done {
                AppView { paused: true, ..old(self)@ }
            } else {
                old(self)@
            },
    {
        if self.controlled {
            self.paused = true;
        }
        self.controlled
    }

    /// Marks the task as paused no more, where there is one: it was resumed or told to
    /// stop.
    pub fn resume(&mut self) -> (done: bool)
        ensures
            done == old(self)@.controlled,
            final(self)@ == if done {
                AppView { paused: false, ..old(self)@ }
            } else {
                old(self)@
            },
    {
        if self.controlled {
            self.paused = false;
        }
        self.controlled
    }

    /// Selects all files.
    pub fn select_all(&mut self)
        ensures
            final(self)@ == (AppView { files: all_selected(old(self)@.files), ..old(self)@ }),
    {
        let ghost before = self.files@;
        let mut i: usize = 0;
        while i < self.files.len()
            invariant
                i <= self.files@.len() == before.len(),
                self@ == (AppView {
                    files: all_selected(before.take(i as int)) + before.skip(i as int),
                    ..old(self)@
                }),
            decreases self.files.len() - i,
        {
            self.files[i].selected = true;
            assert(self.files@ =~= all_selected(before.take(i + 1)) + before.skip(i + 1));
            i += 1;
        }
        assert(self.files@ =~= all_selected(before));
    }

    /// Selects the files that are not selected, and no others.
    pub fn invert_selection(&mut self)
        ensures
            final(self)@ == (AppView { files: inverted(old(self)@.files), ..old(self)@ }),
    {
        let ghost before = self.files@;
        let mut i: usize = 0;
        while i < self.files.len()
            invariant
                i <= self.files@.len() == before.len(),
                self@ == (AppView {
                    files: inverted(before.take(i as int)) + before.skip(i as int),
                    ..old(self)@
                }),
            decreases self.files.len() - i,
        {
            let selected = self.files[i].selected;
            self.files[i].selected = !selected;
            assert(self.files@ =~= inverted(before.take(i + 1)) + before.skip(i + 1));
            i += 1;
        }
        assert(self.files@ =~= inverted(before));
    }

    /// Takes the files that are selected out of the list, and returns their paths, to
    /// be deleted.
    pub fn delete_originals(&mut self) -> (paths: Vec<u64>)
        ensures
            paths@ == selected_paths(old(self)@.files),
            final(self)@ == (AppView {
                files: unselected(old(self)@.files),
                file_index: index_of_paths(unselected(old(self)@.files)),
                ..old(self)@
            }),
    {
        let paths = self.selected();
        let mut old_files: Vec<PdfInfo> = Vec::new();
        std::mem::swap(&mut old_files, &mut self.files);
        let ghost before = old_files@;
        let ghost stays = |file: PdfInfo| !file.selected;
        let mut files: Vec<PdfInfo> = Vec::new();
        assert(before.take(0) =~= seq![]);
        proof {
            reveal(Seq::filter);
        }
        for file in iter: old_files
            invariant
                iter.seq() == before,
                stays == (|file: PdfInfo| !file.selected),
                files@ == before.take(iter.index() as int).filter(stays),
        {
            proof {
                reveal(Seq::filter);
                let upto = before.take(iter.index() + 1);
                assert(upto.drop_last() =~= before.take(iter.index() as int));
                assert(upto.last() == file);
            }
            if !file.selected {
                files.push(file);
            }
        }
        assert(before.take(before.len() as int) =~= before);
        self.file_index = build_index(&files);
        self.files = files;
        paths
    }

    /// How many pages of the file being worked on are done, and how many it has.
    pub fn current_file_progress(&self) -> (r: (usize, usize))
        ensures
            r == (self@.current_file_page, self@.current_file_total_pages),
    {
        (self.current_file_page, self.current_file_total_pages)
    }
}

/// Inverting the selection twice leaves it as it was.
pub proof fn law_inverting_twice_changes_nothing(files: Seq<PdfInfo>)
    ensures
        inverted(inverted(files)) == files,
{
    assert(inverted(inverted(files)) =~= files);
}

/// After inverting, just those files are selected that were not.
pub proof fn law_inverting_selects_the_rest(files: Seq<PdfInfo>)
    ensures
        count_selected(files) + count_selected(inverted(files)) == files.len(),
    decreases files.len(),
{
    if files.len() > 0 {
        law_inverting_selects_the_rest(files.drop_last());
        assert(inverted(files).drop_last() =~= inverted(files.drop_last()));
    }
}

/// After selecting all files, as many are selected as there are.
pub proof fn law_all_are_selected(files: Seq<PdfInfo>)
    ensures
        count_selected(all_selected(files)) == files.len(),
        selected_paths(all_selected(files)) == files.map_values(|file: PdfInfo| file.path),
    decreases files.len(),
{
    let paths = |file: PdfInfo| file.path;
    if files.len() > 0 {
        law_all_are_selected(files.drop_last());
        assert(all_selected(files).drop_last() =~= all_selected(files.drop_last()));
        assert(files.map_values(paths) =~= files.drop_last().map_values(paths).push(
            files.last().path,
        ));
    }
}

/// After the selected files have been taken out of the list, none that is left is
/// selected, and those left and those taken out are all there were.
pub proof fn law_deleting_leaves_the_rest(files: Seq<PdfInfo>)
    ensures
        count_selected(unselected(files)) == 0,
        unselected(files).len() + count_selected(files) == files.len(),
    decreases files.len(),
{
    reveal(Seq::filter);
    if files.len() > 0 {
        law_deleting_leaves_the_rest(files.drop_last());
        let stays = |file: PdfInfo| !file.selected;
        if !files.last().selected {
            assert(unselected(files).drop_last() =~= files.drop_last().filter(stays));
        }
    }
}

/// What a scan tells that is not the latest changes nothing but the log.
pub proof fn law_earlier_scans_are_ignored(
    app: AppView,
    scan_id: u64,
    files: Vec<PdfInfo>,
    path: u64,
    found: AnalysisCacheEntry,
)
    requires
        scan_id != app.scan_id,
    ensures
        app.after_scan_msg(WorkerMsg::ScanFinished { scan_id, files }).0 == app,
        app.after_scan_msg(
            WorkerMsg::AnalysisUpdated {
                scan_id,
                path,
                modified: found.modified,
                classification: found.classification,
                total_chars: found.total_chars,
                total_pages: found.total_pages,
            },
        ).0 == app,
{
}

/// What is analysed is found again for as long as the file is not modified.
pub proof fn law_analysis_is_cached(app: AppView, path: u64, found: AnalysisCacheEntry)
    requires
        app.file_index.contains_key(path),
        app.file_index[path] < app.files.len(),
    ensures
        cached(app.after_analysis(path, found).0.analysis_cache, path, found.modified) == Some(
            found,
        ),
{
}

/// What is known of a file: what an analysis found, unless the file has been modified
/// since.
pub open spec fn cached(
    cache: Map<u64, AnalysisCacheEntry>,
    path: u64,
    modified: Option<i128>,
) -> Option<AnalysisCacheEntry> {
    if cache.contains_key(path) && cache[path].modified == modified {
        Some(cache[path])
    } else {
        None
    }
}

/// What is known of a file that was last modified at the given time.
pub fn cached_analysis<'a>(
    cache: &'a HashMap<u64, AnalysisCacheEntry>,
    path: u64,
    modified: Option<i128>,
) -> (r: Option<&'a AnalysisCacheEntry>)
    ensures
        match r {
            Some(found) => cached(cache@, path, modified) == Some(*found),
            None => cached(cache@, path, modified) is None,
        },
{
    let entry = match cache.get(&path) {
        Some(entry) => entry,
        None => return None,
    };
    let same = match (entry.modified, modified) {
        (Some(a), Some(b)) => a == b,
        (None, None) => true,
        _ => false,
    };
    if same {
        Some(entry)
    } else {
        None
    }
}

/// How many threads analyse files: as many as can run at once, but at least one and
/// at most four.
pub fn analysis_threads(available: Option<usize>) -> (threads: usize)
    ensures
        threads == match available {
            Some(n) => if n == 0 {
                1
            } else if n > 4 {
                4
            } else {
                n
            },
            None => 4usize,
        },
{
    match available {
        Some(n) => if n == 0 {
            1
        } else if n > 4 {
            4
        } else {
            n
        },
        None => 4,
    }
}

/// How many characters of a stem are displayed.
pub const DISPLAY_STEM_CHARS: usize = 24;

/// A file that was found and has not been analysed: it is selected, and its kind is
/// the text for that.
pub fn build_pdf_stub(
    path: u64,
    full_name: &str,
    stem: &str,
    extension: Option<&str>,
    file_size: u64,
    analyzing: String,
) -> (info: PdfInfo)
    ensures
        info.path == path,
        info.display_name@ == truncated_name(
            full_name@,
            stem@,
            str_view(extension),
            DISPLAY_STEM_CHARS as nat,
        ),
        stem@.len() <= 24 ==> info.display_name@ == full_name@,
        stem@.len() > 24 ==> info.display_name@.take(24) == stem@.take(24),
        info.classification == analyzing,
        info.total_chars == 0,
        info.total_pages == 0,
        info.file_size == file_size,
        info.selected,
        !info.analyzed,
{
    proof {
        law_long_names_are_cut(
            full_name@,
            stem@,
            str_view(extension),
            DISPLAY_STEM_CHARS as nat,
        );
    }
    PdfInfo {
        path,
        display_name: truncate_file_name(full_name, stem, extension, DISPLAY_STEM_CHARS),
        classification: analyzing,
        total_chars: 0,
        total_pages: 0,
        file_size,
        selected: true,
        analyzed: false,
    }
}

/// What the analysis of a file found: its kind by its statistics, and how many
/// characters and pages it has; where it could not be read, the text for that, and
/// none.
pub fn analyze_pdf(
    outcome: Option<(PdfTextStats, usize)>,
    modified: Option<i128>,
    cannot_read: String,
) -> (found: AnalysisCacheEntry)
    ensures
        found.modified == modified,
        match outcome {
            Some((stats, pages)) => found.total_chars == stats.total_chars && found.total_pages
                == pages && found.classification@ == if is_electronic(stats.avg_chars_per_page) {
                "电子版"@
            } else {
                "扫描版"@
            },
            None => found.total_chars == 0 && found.total_pages == 0 && found.classification
                == cannot_read,
        },
{
    match outcome {
        Some((stats, pages)) => AnalysisCacheEntry {
            modified,
            classification: classify_pdf(&stats.avg_chars_per_page).to_owned(),
            total_chars: stats.total_chars,
            total_pages: pages,
        },
        None => AnalysisCacheEntry {
            modified,
            classification: cannot_read,
            total_chars: 0,
            total_pages: 0,
        },
    }
}

} // verus!
