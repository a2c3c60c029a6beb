use pdf_splitter::cli::{megabytes, Cli, CliRun, RunError, SplitModeArg, SplitTask};
use pdf_splitter::control::SplitControl;
use pdf_splitter::gui::{
    analysis_threads, analyze_pdf, build_pdf_stub, cached_analysis, AnalysisCacheEntry, App, Notice,
    Operation, PdfInfo, Progress, SplitMode, Start, WorkerMsg,
};
use pdf_splitter::tasks::{partition_cached, FileQueue, QueueStep};
use pdf_splitter::text_stats::{Average, PdfTextStats};
use std::collections::HashMap;

#[test]
fn tasks_are_paused_resumed_and_stopped() {
    let mut control = SplitControl::new();
    assert!(!control.is_stopped());
    assert!(!control.wait_if_paused());
    control.pause();
    assert!(control.wait_if_paused());
    assert!(!control.is_stopped());
    control.resume();
    assert!(!control.wait_if_paused());
    control.pause();
    control.stop();
    assert!(control.is_stopped());
    assert!(!control.wait_if_paused());
    control.pause();
    assert!(!control.wait_if_paused());
    control.resume();
    assert!(control.is_stopped());
}

#[test]
fn the_command_line_has_defaults() {
    let cli = Cli::default();
    assert_eq!((cli.max_size, cli.page_count, cli.mode), (50, 100, SplitModeArg::Size));
    assert!(!cli.delete && !cli.quiet && cli.paths.is_empty());
}

#[test]
fn megabytes_are_told_in_bytes() {
    assert_eq!(megabytes(50), Some(52428800));
    assert_eq!(megabytes(0), Some(0));
    assert_eq!(megabytes((1 << 44) - 1), Some(((1u64 << 44) - 1) << 20));
    assert_eq!(megabytes(1 << 44), None);
}

#[test]
fn a_run_goes_through_the_files() {
    let cli = Cli { delete: true, max_size: 2, ..Cli::default() };
    let mut run = CliRun::new(&cli, 3).ok().unwrap();
    assert_eq!(run.next_file(), Some((0, SplitTask::BySize(2 << 20))));
    run.record(true);
    assert_eq!(run.next_file(), Some((1, SplitTask::BySize(2 << 20))));
    run.record(false);
    run.record(true);
    assert_eq!(run.next_file(), None);
    assert_eq!(run.summary(), (2, 1));
    assert_eq!(run.files_to_delete(), vec![0, 2]);

    let cli = Cli { mode: SplitModeArg::Pages, page_count: 7, ..Cli::default() };
    let mut run = CliRun::new(&cli, 1).ok().unwrap();
    assert_eq!(run.next_file(), Some((0, SplitTask::ByPages(7))));
    run.record(true);
    assert!(run.files_to_delete().is_empty());
}

#[test]
fn a_run_needs_files_and_a_limit() {
    assert!(matches!(CliRun::new(&Cli::default(), 0), Err(RunError::NoPdfFound)));
    let cli = Cli { max_size: u64::MAX, ..Cli::default() };
    assert!(matches!(CliRun::new(&cli, 0), Err(RunError::MaxSizeTooLarge)));
}

#[test]
fn queues_hand_out_files_in_order() {
    let mut queue = FileQueue::new(2);
    assert_eq!(queue.begin_file(false), QueueStep::Start { index: 1, total: 2 });
    assert!(!queue.end_file(false));
    assert_eq!(queue.begin_file(false), QueueStep::Start { index: 2, total: 2 });
    assert!(!queue.end_file(false));
    assert_eq!(queue.begin_file(true), QueueStep::AllDone);

    let mut queue = FileQueue::new(2);
    assert_eq!(queue.begin_file(true), QueueStep::Stopped);
    assert_eq!(queue.begin_file(false), QueueStep::Stopped);

    let mut queue = FileQueue::new(2);
    queue.begin_file(false);
    assert!(queue.end_file(true));
    assert_eq!(queue.begin_file(false), QueueStep::Stopped);
    assert_eq!(FileQueue::new(0).begin_file(false), QueueStep::AllDone);
}

fn info(path: u64, selected: bool) -> PdfInfo {
    let mut info =
        build_pdf_stub(path, "name.pdf", "name", Some("pdf"), 9, "analyzing".to_string());
    info.selected = selected;
    info
}

fn updated(scan_id: u64, path: u64) -> WorkerMsg {
    WorkerMsg::AnalysisUpdated {
        scan_id,
        path,
        modified: Some(7),
        classification: "kind".to_string(),
        total_chars: 11,
        total_pages: 3,
    }
}

fn texts(notices: &[Notice]) -> Vec<String> {
    notices
        .iter()
        .map(|notice| match notice {
            Notice::Text(text) => text.clone(),
            Notice::ScanCount(count) => format!("#{count}"),
            Notice::AnalysisComplete => "complete".to_string(),
        })
        .collect()
}

fn scanned(paths: &[u64]) -> App {
    let mut app = App::default();
    let scan_id = app.scan_paths(1).unwrap();
    let files = paths.iter().map(|&p| info(p, true)).collect();
    app.process_messages(vec![WorkerMsg::ScanFinished { scan_id, files }], vec![]);
    app
}

#[test]
fn a_new_window_has_defaults() {
    let app = App::default();
    assert_eq!((app.max_size_mb, app.pages_per_chunk), (50, 100));
    assert_eq!((app.split_mode, app.operation), (SplitMode::BySize, Operation::Split));
    assert!(!app.running && !app.scanning && app.files.is_empty() && !app.can_start());
}

#[test]
fn stubs_are_selected_and_not_analysed() {
    let stub = build_pdf_stub(
        5,
        "a_very_long_file_name_indeed.pdf",
        "a_very_long_file_name_indeed",
        Some("pdf"),
        77,
        "...".to_string(),
    );
    assert_eq!(stub.display_name, "a_very_long_file_name_in....pdf");
    assert_eq!((stub.path, stub.file_size, stub.classification.as_str()), (5, 77, "..."));
    assert!(stub.selected && !stub.analyzed);
    assert_eq!((stub.total_chars, stub.total_pages), (0, 0));
}

#[test]
fn a_scan_fills_the_list() {
    let mut app = App::default();
    assert_eq!(app.scan_paths(0), None);
    assert!(!app.scanning);
    let scan_id = app.scan_paths(2).unwrap();
    assert_eq!(scan_id, 1);
    assert!(app.scanning && app.scan_open);
    let files = vec![info(10, true), info(20, true)];
    let notices = app.process_messages(
        vec![
            WorkerMsg::ScanLog("found".to_string()),
            WorkerMsg::ScanFinished { scan_id, files },
            updated(scan_id, 20),
            updated(scan_id, 20),
            updated(scan_id, 99),
            updated(scan_id + 1, 10),
        ],
        vec![],
    );
    assert_eq!(texts(&notices), vec!["found", "#2"]);
    assert_eq!((app.analysis_total, app.analyzed_count), (2, 1));
    assert!(app.scanning && app.scan_open);
    assert!(app.files[1].analyzed && !app.files[0].analyzed);
    assert_eq!(app.files[1].classification, "kind");
    assert_eq!((app.files[1].total_chars, app.files[1].total_pages), (11, 3));
    let notices = app.process_messages(vec![updated(scan_id, 10)], vec![]);
    assert_eq!(texts(&notices), vec!["complete"]);
    assert!(!app.scanning && !app.scan_open);
    assert!(cached_analysis(&app.analysis_cache, 10, Some(7)).is_some());
    assert!(cached_analysis(&app.analysis_cache, 10, Some(8)).is_none());
    assert!(cached_analysis(&app.analysis_cache, 10, None).is_none());
    assert!(cached_analysis(&app.analysis_cache, 11, Some(7)).is_none());
}

#[test]
fn an_empty_scan_ends_at_once() {
    let app = scanned(&[]);
    assert!(!app.scanning);
    assert_eq!(app.analysis_total, 0);
}

#[test]
fn what_an_earlier_scan_tells_is_ignored() {
    let mut app = scanned(&[1, 2]);
    let scan_id = app.scan_paths(1).unwrap();
    assert!(app.files.is_empty());
    let earlier = WorkerMsg::ScanFinished { scan_id: scan_id - 1, files: vec![info(3, true)] };
    let notices = app.process_messages(vec![earlier, updated(scan_id - 1, 1)], vec![]);
    assert!(notices.is_empty() && app.files.is_empty() && app.scanning);
    // A path that is known but has no file yet.
    assert!(app.process_messages(vec![updated(scan_id, 1)], vec![]).is_empty());
}

#[test]
fn scans_are_numbered_round_and_round() {
    let mut app = App { scan_id: u64::MAX, ..App::default() };
    assert_eq!(app.scan_paths(1), Some(0));
}

#[test]
fn a_task_tells_how_far_it_is() {
    let mut app = scanned(&[1, 2]);
    assert!(app.can_start());
    match app.start_split() {
        Start::Started(paths) => assert_eq!(paths, vec![1, 2]),
        _ => panic!("it should start"),
    }
    assert!(app.running && app.controlled && !app.can_start());
    assert_eq!(app.total_files_to_process, 2);
    assert!(matches!(app.start_split(), Start::Ignored));
    assert!(matches!(app.start_extract_images(), Start::Ignored));
    let notices = app.process_messages(
        vec![],
        vec![
            WorkerMsg::FileStarted { index: 2, total: 2, name: "b".to_string() },
            WorkerMsg::Log("log".to_string()),
            WorkerMsg::FileProgress { current_page: 3, total_pages: 4 },
            WorkerMsg::ScanLog("not here".to_string()),
        ],
    );
    assert_eq!(texts(&notices), vec!["log"]);
    assert_eq!(app.total_progress, Progress { files: 1, page: 3, pages: 4, total: 2 });
    assert_eq!(app.current_file_progress(), (3, 4));
    assert_eq!(app.current_file_name, "b");
    app.process_messages(vec![], vec![WorkerMsg::FileDone { index: 2, total: 2 }]);
    assert_eq!(app.total_progress, Progress { files: 2, page: 0, pages: 0, total: 2 });
    assert_eq!(app.current_file_progress(), (4, 4));
    assert!(app.running);
    app.delete_after = true;
    app.process_messages(vec![], vec![WorkerMsg::Finished]);
    assert!(!app.running && !app.paused && !app.controlled && app.show_delete_confirm);
    assert_eq!(app.total_progress, Progress { files: 1, page: 0, pages: 0, total: 1 });
}

#[test]
fn deletion_is_offered_only_after_a_split() {
    for (operation, delete_after, select, offered) in [
        (Operation::Split, true, true, true),
        (Operation::Split, false, true, false),
        (Operation::Split, true, false, false),
        (Operation::ExtractImages, true, true, false),
    ] {
        let mut app = scanned(&[1]);
        app.operation = operation;
        app.delete_after = delete_after;
        app.files[0].selected = select;
        app.process_messages(vec![], vec![WorkerMsg::Finished]);
        assert_eq!(app.show_delete_confirm, offered);
    }
}

#[test]
fn a_stopped_task_ends() {
    let mut app = scanned(&[1]);
    app.start_extract_images();
    assert_eq!(app.operation, Operation::ExtractImages);
    assert!(app.pause() && app.paused);
    assert!(app.resume() && !app.paused);
    let before = app.total_progress;
    app.process_messages(vec![], vec![WorkerMsg::Stopped]);
    assert!(!app.running && !app.controlled && !app.show_delete_confirm);
    assert_eq!(app.total_progress, before);
    assert!(!app.pause() && !app.paused);
    assert!(!app.resume());
}

#[test]
fn nothing_starts_without_a_selection() {
    let mut app = App::default();
    assert!(matches!(app.start_split(), Start::Ignored));
    let mut app = scanned(&[1, 2]);
    app.invert_selection();
    assert_eq!(app.selected_count(), 0);
    assert!(!app.can_start());
    assert!(matches!(app.start_split(), Start::NothingSelected));
    assert!(!app.running);
}

#[test]
fn selections_are_made() {
    let mut app = scanned(&[1, 2, 3]);
    app.files[1].selected = false;
    assert_eq!(app.selected_count(), 2);
    assert_eq!(app.selected(), vec![1, 3]);
    app.invert_selection();
    assert_eq!(app.selected(), vec![2]);
    app.invert_selection();
    assert_eq!(app.selected(), vec![1, 3]);
    app.select_all();
    assert_eq!(app.selected_count(), 3);
}

#[test]
fn deleted_files_leave_the_list() {
    let mut app = scanned(&[1, 2, 3, 4]);
    app.files[1].selected = false;
    app.files[3].selected = false;
    assert_eq!(app.delete_originals(), vec![1, 3]);
    let left: Vec<u64> = app.files.iter().map(|f| f.path).collect();
    assert_eq!(left, vec![2, 4]);
    assert_eq!(app.selected_count(), 0);
    assert_eq!(app.file_index, HashMap::from([(2, 0), (4, 1)]));
}

#[test]
fn files_are_parted_by_what_is_known() {
    let entry = AnalysisCacheEntry {
        modified: Some(1),
        classification: "k".to_string(),
        total_chars: 1,
        total_pages: 1,
    };
    let unknown_time = AnalysisCacheEntry { modified: None, ..entry.clone() };
    let cache = HashMap::from([(1, entry), (2, unknown_time)]);
    let files = vec![(1, Some(1)), (1, Some(2)), (2, None), (3, None), (2, Some(0))];
    assert_eq!(partition_cached(&cache, &files), (vec![0, 2], vec![1, 3, 4]));
}

#[test]
fn analyses_say_what_they_found() {
    let stats = PdfTextStats {
        total_chars: 500,
        avg_chars_per_page: Average { chars: 500, pages: 5 },
    };
    let found = analyze_pdf(Some((stats, 5)), Some(3), "unreadable".to_string());
    assert_eq!((found.modified, found.classification.as_str()), (Some(3), "电子版"));
    assert_eq!((found.total_chars, found.total_pages), (500, 5));
    let blank = PdfTextStats { total_chars: 0, avg_chars_per_page: Average { chars: 0, pages: 2 } };
    assert_eq!(analyze_pdf(Some((blank, 2)), None, String::new()).classification, "扫描版");
    let found = analyze_pdf(None, None, "unreadable".to_string());
    assert_eq!(found.classification, "unreadable");
    assert_eq!((found.total_chars, found.total_pages), (0, 0));
}

#[test]
fn at_most_four_threads_analyse() {
    assert_eq!(analysis_threads(None), 4);
    assert_eq!(analysis_threads(Some(1)), 1);
    assert_eq!(analysis_threads(Some(3)), 3);
    assert_eq!(analysis_threads(Some(64)), 4);
}
