//! Working through files one after the other.

use std::collections::HashMap;

use vstd::prelude::*;

use crate::gui::{cached, cached_analysis, AnalysisCacheEntry};

verus! {

/// What comes next in a queue of files.
#[derive(Clone, Copy, Debug, PartialEq, Eq, Structural)]
pub enum QueueStep {
    /// Nothing: the task was stopped.
    Stopped,
    /// The file with this number, counted from one.
    Start { index: usize, total: usize },
    /// Nothing: all files are done.
    AllDone,
}

/// A queue of files that a task works through. It is asked before each file, and
/// told after each file, whether the task has been stopped.
pub struct FileQueue {
    total: usize,
    done: usize,
    working: bool,
    halted: bool,
}

/// Where a queue of files stands.
#[verifier::ext_equal]
pub struct FileQueueView {
    pub total: int,
    pub done: int,
    /// Whether a file is being worked on.
    pub working: bool,
    pub halted: bool,
}

impl FileQueueView {
    /// What holds of a queue at every step.
    pub open spec fn wf(self) -> bool {
        &&& 0 <= self.done <= self.total
        &&& self.working ==> self.done < self.total && !self.halted
    }

    /// Where the queue stands once it was asked for the next file, and what it said.
    pub open spec fn begun(self, stopped: bool) -> (FileQueueView, QueueStep) {
        if self.halted {
            (self, QueueStep::Stopped)
        } else if self.done >= self.total {
            (self, QueueStep::AllDone)
        } else if stopped {
            (FileQueueView { halted: true, ..self }, QueueStep::Stopped)
        } else {
            (
                FileQueueView { working: true, ..self },
                QueueStep::Start { index: (self.done + 1) as usize, total: self.total as usize },
            )
        }
    }

    /// Where the queue stands once a file is done.
    pub open spec fn ended(self, stopped: bool) -> FileQueueView {
        FileQueueView { done: self.done + 1, working: false, halted: stopped, ..self }
    }
}

impl View for FileQueue {
    type V = FileQueueView;

    closed spec fn view(&self) -> FileQueueView {
        FileQueueView {
            total: self.total as int,
            done: self.done as int,
            working: self.working,
            halted: self.halted,
        }
    }
}

impl FileQueue {
    /// A queue of so many files.
    pub fn new(total: usize) -> (queue: Self)
        ensures
            queue@.wf(),
            queue@ == (FileQueueView {
                total: total as int,
                done: 0,
                working: false,
                halted: false,
            }),
    {
        FileQueue { total, done: 0, working: false, halted: false }
    }

    /// Asks for the next file.
    pub fn begin_file(&mut self, stopped: bool) -> (step: QueueStep)
        requires
            old(self)@.wf(),
            !old(self)@.working,
        ensures
            final(self)@.wf(),
            (final(self)@, step) == old(self)@.begun(stopped),
    {
        if self.halted {
            return QueueStep::Stopped;
        }
        if self.done >= self.total {
            return QueueStep::AllDone;
        }
        if stopped {
            self.halted = true;
            return QueueStep::Stopped;
        }
        self.working = true;
        QueueStep::Start { index: self.done + 1, total: self.total }
    }

    /// Tells that the file is done, and returns whether the queue ends here because the
    /// task was stopped.
    pub fn end_file(&mut self, stopped: bool) -> (halted: bool)
        requires
            old(self)@.wf(),
            old(self)@.working,
        ensures
            final(self)@.wf(),
            final(self)@ == old(self)@.ended(stopped),
            halted == stopped,
    {
        self.done = self.done + 1;
        self.working = false;
        self.halted = stopped;
        stopped
    }
}

/// Files are taken in their order, none is left out, and the task is said to be done
/// only once all of them are.
pub proof fn law_files_are_taken_in_order(queue: FileQueueView, before: bool, after: bool)
    requires
        queue.wf(),
        !queue.working,
        queue.total <= usize::MAX,
    ensures
        queue.begun(before).1 matches QueueStep::Start { index, total } ==> {
            &&& index == queue.done + 1
            &&& queue.begun(before).0.ended(after).done == index
        },
        queue.begun(before).1 is AllDone ==> queue.done == queue.total,
{
}

/// A stopped task takes no further file.
pub proof fn law_stopped_tasks_take_no_file(queue: FileQueueView, later: bool)
    requires
        queue.wf(),
        !queue.working,
        !queue.halted,
        queue.done < queue.total,
    ensures
        queue.begun(true).1 is Stopped,
        queue.begun(true).0.begun(later).1 is Stopped,
        ((FileQueueView { working: true, ..queue }).ended(true).begun(later).1 is Stopped),
{
}

/// The places of those files that are known, or of those that are not: a file is
/// given by its path and the time of its last modification.
pub open spec fn places(
    cache: Map<u64, AnalysisCacheEntry>,
    files: Seq<(u64, Option<i128>)>,
    known: bool,
) -> Seq<usize>
    decreases files.len(),
{
    if files.len() == 0 {
        seq![]
    } else {
        let before = places(cache, files.drop_last(), known);
        if (cached(cache, files.last().0, files.last().1) is Some) == known {
            before.push((files.len() - 1) as usize)
        } else {
            before
        }
    }
}

/// Parts files into those that are known and those that have to be analysed, by their
/// places.
pub fn partition_cached(
    cache: &HashMap<u64, AnalysisCacheEntry>,
    files: &Vec<(u64, Option<i128>)>,
) -> (r: (Vec<usize>, Vec<usize>))
    ensures
        r.0@ == places(cache@, files@, true),
        r.1@ == places(cache@, files@, false),
{
    let mut known: Vec<usize> = Vec::new();
    let mut unknown: Vec<usize> = Vec::new();
    let mut i: usize = 0;
    assert(files@.take(0) =~= seq![]);
    while i < files.len()
        invariant
            i <= files@.len(),
            known@ == places(cache@, files@.take(i as int), true),
            unknown@ == places(cache@, files@.take(i as int), false),
        decreases files.len() - i,
    {
        assert(files@.take(i + 1).drop_last() =~= files@.take(i as int));
        assert(files@.take(i + 1).last() == files@[i as int]);
        match cached_analysis(cache, files[i].0, files[i].1) {
            Some(_) => known.push(i),
            None => unknown.push(i),
        }
        i += 1;
    }
    assert(files@.take(i as int) =~= files@);
    (known, unknown)
}

/// A queue goes on for as long as it has not been stopped and there are files left: it hands out
/// the next file and counts it once it is done. It stops only where it was stopped, and is done
/// only where no files are left.
pub proof fn law_queues_go_on_until_stopped(queue: FileQueueView, before: bool, after: bool)
    requires
        queue.wf(),
        !queue.working,
        queue.total <= usize::MAX,
    ensures
        ({
            let (next, step) = queue.begun(before);
            let left = queue.done < queue.total;
            &&& step is Stopped <==> queue.halted || before && left
            &&& step is AllDone <==> !queue.halted && !left
            &&& step is Start <==> !queue.halted && !before && left
            &&& step matches QueueStep::Start { index, total } ==> total == queue.total && index
                == queue.done + 1
            &&& next.total == queue.total
            &&& next.done == queue.done
            &&& step is Start ==> next.working && !next.halted
            &&& step is Start ==> next.ended(after).done == queue.done + 1
                && !next.ended(after).working && next.ended(after).halted == after
                && next.ended(after).total == queue.total
        }),
{
}

/// A place is among those of the files that are known exactly if the analysis of its file is
/// known, and among those of the others exactly if it is not. The places are in order.
pub proof fn law_every_file_is_known_or_not(
    cache: Map<u64, AnalysisCacheEntry>,
    files: Seq<(u64, Option<i128>)>,
    known: bool,
)
    requires
        files.len() <= usize::MAX,
    ensures
        forall|i: int|
            0 <= i < files.len() ==> (#[trigger] places(cache, files, known).contains(i as usize)
                <==> (cached(cache, files[i].0, files[i].1) is Some) == known),
        forall|k: int|
            0 <= k < places(cache, files, known).len() ==> #[trigger] places(cache, files, known)[k]
                < files.len(),
        forall|j: int, k: int|
            0 <= j < k < places(cache, files, known).len() ==> #[trigger] places(
                cache,
                files,
                known,
            )[j] < #[trigger] places(cache, files, known)[k],
    decreases files.len(),
{
    if files.len() > 0 {
        let front = files.drop_last();
        law_every_file_is_known_or_not(cache, front, known);
        let before = places(cache, front, known);
        let all = places(cache, files, known);
        let last = (files.len() - 1) as usize;
        assert forall|i: int| 0 <= i < files.len() implies (#[trigger] all.contains(i as usize)
            <==> (cached(cache, files[i].0, files[i].1) is Some) == known) by {
            if i < front.len() {
                assert(before.contains(i as usize) <==> (cached(cache, front[i].0, front[i].1)
                    is Some) == known);
                if before.contains(i as usize) {
                    let k = choose|k: int| 0 <= k < before.len() && before[k] == i as usize;
                    assert(all[k] == i as usize);
                }
                if all.contains(i as usize) {
                    let k = choose|k: int| 0 <= k < all.len() && all[k] == i as usize;
                    assert(k < before.len());
                    assert(before[k] == i as usize);
                }
            } else {
                if (cached(cache, files[i].0, files[i].1) is Some) == known {
                    assert(all[all.len() - 1] == last);
                } else if all.contains(i as usize) {
                    let k = choose|k: int| 0 <= k < all.len() && all[k] == i as usize;
                    assert(before[k] < front.len());
                }
            }
        }
    }
}

} // verus!
