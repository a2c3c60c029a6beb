//! Splitting files from the command line.

use vstd::prelude::*;

verus! {

/// How files are split.
#[derive(Clone, Copy, Debug, PartialEq, Eq, Structural)]
pub enum SplitModeArg {
    Size,
    Pages,
}

/// What the command line asks for.
#[derive(Debug)]
pub struct Cli {
    /// The paths of files and directories, as the system encodes them.
    pub paths: Vec<Vec<u8>>,
    /// The limit of a chunk, in megabytes.
    pub max_size: u64,
    /// The pages of a chunk.
    pub page_count: usize,
    pub mode: SplitModeArg,
    /// Whether files are deleted once they have been split.
    pub delete: bool,
    /// Whether no progress is shown.
    pub quiet: bool,
}

/// The limit of a chunk where none is given, in megabytes.
pub const DEFAULT_MAX_SIZE: u64 = 50;

/// The pages of a chunk where their number is not given.
pub const DEFAULT_PAGE_COUNT: usize = 100;

impl Default for Cli {
    fn default() -> (cli: Self)
        ensures
            cli.paths@.len() == 0,
            cli.max_size == DEFAULT_MAX_SIZE == 50,
            cli.page_count == DEFAULT_PAGE_COUNT == 100,
            cli.mode == SplitModeArg::Size,
            !cli.delete,
            !cli.quiet,
    {
        Cli {
            paths: Vec::new(),
            max_size: DEFAULT_MAX_SIZE,
            page_count: DEFAULT_PAGE_COUNT,
            mode: SplitModeArg::Size,
            delete: false,
            quiet: false,
        }
    }
}

/// A size in megabytes, in bytes; `None` where that is more than can be told.
pub fn megabytes(mb: u64) -> (bytes: Option<u64>)
    ensures
        match bytes {
            Some(b) => b == mb * 1024 * 1024,
            None => mb * 1024 * 1024 > u64::MAX,
        },
{
    if mb <= u64::MAX / (1024 * 1024) {
        Some(mb * 1024 * 1024)
    } else {
        None
    }
}

/// How a file is to be split.
#[derive(Clone, Copy, Debug, PartialEq, Eq, Structural)]
pub enum SplitTask {
    /// Into chunks of at most so many bytes.
    BySize(u64),
    /// Into chunks of so many pages.
    ByPages(usize),
}

/// Why nothing is split.
#[derive(Clone, Copy, Debug, PartialEq, Eq, Structural)]
pub enum RunError {
    /// The limit is more bytes than can be told.
    MaxSizeTooLarge,
    /// There are no PDF files.
    NoPdfFound,
}

/// A run through the files that the command line names.
pub struct CliRun {
    task: SplitTask,
    delete: bool,
    total: usize,
    results: Vec<bool>,
}

/// Where a run stands: how files are split, whether they are then deleted, how many
/// there are, and for each one done whether that succeeded.
#[verifier::ext_equal]
pub struct CliRunView {
    pub task: SplitTask,
    pub delete: bool,
    pub total: int,
    pub results: Seq<bool>,
}

impl View for CliRun {
    type V = CliRunView;

    closed spec fn view(&self) -> CliRunView {
        CliRunView {
            task: self.task,
            delete: self.delete,
            total: self.total as int,
            results: self.results@,
        }
    }
}

/// How many of the results are `which`.
pub open spec fn count_results(results: Seq<bool>, which: bool) -> nat
    decreases results.len(),
{
    if results.len() == 0 {
        0
    } else {
        count_results(results.drop_last(), which) + if results.last() == which {
            1nat
        } else {
            0nat
        }
    }
}

/// The places of the results that are successes.
pub open spec fn successes(results: Seq<bool>) -> Seq<usize>
    decreases results.len(),
{
    if results.len() == 0 {
        seq![]
    } else if results.last() {
        successes(results.drop_last()).push((results.len() - 1) as usize)
    } else {
        successes(results.drop_last())
    }
}

/// Every result is a success or a failure.
pub proof fn law_results_add_up(results: Seq<bool>)
    ensures
        count_results(results, true) + count_results(results, false) == results.len(),
        successes(results).len() == count_results(results, true),
    decreases results.len(),
{
    if results.len() > 0 {
        law_results_add_up(results.drop_last());
    }
}

/// Only files that were split are deleted.
pub proof fn law_only_successes_are_deleted(results: Seq<bool>, k: int)
    requires
        results.len() <= usize::MAX,
        0 <= k < successes(results).len(),
    ensures
        successes(results)[k] < results.len(),
        results[successes(results)[k] as int],
    decreases results.len(),
{
    if results.len() > 0 {
        let before = successes(results.drop_last());
        if k < before.len() {
            law_only_successes_are_deleted(results.drop_last(), k);
            assert(results.drop_last()[before[k] as int] == results[before[k] as int]);
        }
    }
}

impl CliRun {
    /// A run through so many files.
    pub fn new(cli: &Cli, total: usize) -> (r: Result<CliRun, RunError>)
        ensures
            if cli.max_size * 1024 * 1024 > u64::MAX {
                r == Err::<CliRun, _>(RunError::MaxSizeTooLarge)
            } else if total == 0 {
                r == Err::<CliRun, _>(RunError::NoPdfFound)
            } else {
                r matches Ok(run) && run@ == (CliRunView {
                    task: match cli.mode {
                        SplitModeArg::Size => SplitTask::BySize(
                            (cli.max_size * 1024 * 1024) as u64,
                        ),
                        SplitModeArg::Pages => SplitTask::ByPages(cli.page_count),
                    },
                    delete: cli.delete,
                    total: total as int,
                    results: seq![],
                })
            },
    {
        let max_size: u64 = match megabytes(cli.max_size) {
            Some(bytes) => bytes,
            None => return Err(RunError::MaxSizeTooLarge),
        };
        if total == 0 {
            return Err(RunError::NoPdfFound);
        }
        let task = match cli.mode {
            SplitModeArg::Size => SplitTask::BySize(max_size),
            SplitModeArg::Pages => SplitTask::ByPages(cli.page_count),
        };
        Ok(CliRun { task, delete: cli.delete, total, results: Vec::new() })
    }

    /// The place of the next file and how it is to be split, where there is one left.
    pub fn next_file(&self) -> (r: Option<(usize, SplitTask)>)
        ensures
            r == if self@.results.len() < self@.total {
                Some((self@.results.len() as usize, self@.task))
            } else {
                None
            },
    {
        let done: usize = self.results.len();
        if done < self.total {
            Some((done, self.task))
        } else {
            None
        }
    }

    /// Tells whether the file was split.
    pub fn record(&mut self, succeeded: bool)
        ensures
            final(self)@ == (CliRunView {
                results: old(self)@.results.push(succeeded),
                ..old(self)@
            }),
    {
        self.results.push(succeeded);
    }

    /// How many files were split, and how many were not.
    pub fn summary(&self) -> (r: (usize, usize))
        ensures
            r.0 == count_results(self@.results, true),
            r.1 == count_results(self@.results, false),
    {
        let mut succeeded: usize = 0;
        let mut failed: usize = 0;
        let mut i: usize = 0;
        assert(self.results@.take(0) =~= seq![]);
        while i < self.results.len()
            invariant
                i <= self.results@.len(),
                succeeded <= i,
                failed <= i,
                succeeded == count_results(self.results@.take(i as int), true),
                failed == count_results(self.results@.take(i as int), false),
            decreases self.results.len() - i,
        {
            assert(self.results@.take(i + 1).drop_last() =~= self.results@.take(i as int));
            if self.results[i] {
                succeeded += 1;
            } else {
                failed += 1;
            }
            i += 1;
        }
        assert(self.results@.take(i as int) =~= self.results@);
        (succeeded, failed)
    }

    /// The places of the files to delete: those that were split, where that is asked
    /// for.
    pub fn files_to_delete(&self) -> (r: Vec<usize>)
        ensures
            r@ == if self@.delete {
                successes(self@.results)
            } else {
                seq![]
            },
    {
        let mut r: Vec<usize> = Vec::new();
        if !self.delete {
            assert(r@ =~= seq![]);
            return r;
        }
        let mut i: usize = 0;
        assert(self.results@.take(0) =~= seq![]);
        while i < self.results.len()
            invariant
                i <= self.results@.len(),
                r@ == successes(self.results@.take(i as int)),
            decreases self.results.len() - i,
        {
            assert(self.results@.take(i + 1).drop_last() =~= self.results@.take(i as int));
            if self.results[i] {
                r.push(i);
            }
            i += 1;
        }
        assert(self.results@.take(i as int) =~= self.results@);
        r
    }
}

/// Every file that was split is among those to delete, and they are in order.
pub proof fn law_all_successes_are_deleted(results: Seq<bool>)
    requires
        results.len() <= usize::MAX,
    ensures
        forall|i: int|
            0 <= i < results.len() && results[i] ==> #[trigger] successes(results).contains(
                i as usize,
            ),
        forall|j: int, k: int|
            0 <= j < k < successes(results).len() ==> #[trigger] successes(results)[j]
                < #[trigger] successes(results)[k],
        forall|k: int|
            0 <= k < successes(results).len() ==> #[trigger] successes(results)[k] < results.len(),
    decreases results.len(),
{
    if results.len() > 0 {
        let front = results.drop_last();
        law_all_successes_are_deleted(front);
        let before = successes(front);
        let all = successes(results);
        assert forall|i: int| 0 <= i < results.len() && results[i] implies #[trigger] all.contains(
            i as usize,
        ) by {
            if i < front.len() {
                assert(before.contains(i as usize));
                let k = choose|k: int| 0 <= k < before.len() && before[k] == i as usize;
                assert(all[k] == i as usize);
            } else {
                assert(all[all.len() - 1] == i as usize);
            }
        }
    }
}

/// One more result is counted where it belongs, and nowhere else.
pub proof fn law_each_result_counts_once(results: Seq<bool>, result: bool)
    ensures
        count_results(results.push(result), result) == count_results(results, result) + 1,
        count_results(results.push(result), !result) == count_results(results, !result),
        count_results(seq![], result) == 0,
{
    assert(results.push(result).drop_last() =~= results);
}

} // verus!
