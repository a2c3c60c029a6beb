//! Pausing, resuming and stopping a running task.

use vstd::prelude::*;

verus! {

/// The signals by which a running task is paused, resumed and stopped.
pub struct SplitControl {
    stopped: bool,
    paused: bool,
}

/// What is asked of a running task.
pub enum Signal {
    Stop,
    Pause,
    Resume,
}

/// What has been asked of a running task: whether it is to stop, and whether it is
/// paused.
#[verifier::ext_equal]
pub struct ControlView {
    pub stopped: bool,
    pub paused: bool,
}

impl ControlView {
    /// What has been asked after one more signal. A task that is to stop is paused no
    /// more, so that it can leave.
    pub open spec fn after(self, signal: Signal) -> ControlView {
        match signal {
            Signal::Stop => ControlView { stopped: true, paused: false },
            Signal::Pause => ControlView { paused: true, ..self },
            Signal::Resume => ControlView { paused: false, ..self },
        }
    }

    /// What has been asked after several signals.
    pub open spec fn after_all(self, signals: Seq<Signal>) -> ControlView
        decreases signals.len(),
    {
        if signals.len() == 0 {
            self
        } else {
            self.after_all(signals.drop_last()).after(signals.last())
        }
    }

    /// Whether the task has to wait: it is paused, and not to stop.
    pub open spec fn must_wait(self) -> bool {
        self.paused && !self.stopped
    }
}

impl View for SplitControl {
    type V = ControlView;

    closed spec fn view(&self) -> ControlView {
        ControlView { stopped: self.stopped, paused: self.paused }
    }
}

impl SplitControl {
    /// The signals of a task that is to run.
    pub fn new() -> (control: Self)
        ensures
            control@ == (ControlView { stopped: false, paused: false }),
    {
        SplitControl { stopped: false, paused: false }
    }

    /// Stops the task.
    pub fn stop(&mut self)
        ensures
            final(self)@ == old(self)@.after(Signal::Stop),
    {
        self.stopped = true;
        self.paused = false;
    }

    /// Pauses the task.
    pub fn pause(&mut self)
        ensures
            final(self)@ == old(self)@.after(Signal::Pause),
    {
        self.paused = true;
    }

    /// Lets a paused task go on.
    pub fn resume(&mut self)
        ensures
            final(self)@ == old(self)@.after(Signal::Resume),
    {
        self.paused = false;
    }

    /// Whether the task has been stopped.
    pub fn is_stopped(&self) -> (stopped: bool)
        ensures
            stopped == self@.stopped,
    {
        self.stopped
    }

    /// Whether the task has to wait. Whoever runs it blocks for as long as this holds.
    pub fn wait_if_paused(&self) -> (wait: bool)
        ensures
            wait == self@.must_wait(),
    {
        self.paused && !self.stopped
    }
}

/// A task that has been stopped stays stopped and never waits, whatever comes after.
pub proof fn law_stopping_is_final(control: ControlView, later: Seq<Signal>)
    ensures
        control.after(Signal::Stop).after_all(later).stopped,
        !control.after(Signal::Stop).after_all(later).must_wait(),
    decreases later.len(),
{
    if later.len() > 0 {
        law_stopping_is_final(control, later.drop_last());
    }
}

/// A task that has not been stopped waits just when it was paused and not resumed
/// since.
pub proof fn law_pausing_lasts_until_resumed(control: ControlView)
    requires
        !control.stopped,
    ensures
        control.after(Signal::Pause).must_wait(),
        !control.after(Signal::Pause).after(Signal::Resume).must_wait(),
        !control.after(Signal::Resume).must_wait(),
{
}

/// Stopping stops a task, and neither pausing nor resuming changes whether it is to stop. A task
/// waits exactly while it is paused and not to stop.
pub proof fn law_only_stopping_stops(control: ControlView)
    ensures
        control.after(Signal::Stop).stopped,
        control.after(Signal::Pause).stopped == control.stopped,
        control.after(Signal::Resume).stopped == control.stopped,
        control.after(Signal::Pause).paused,
        !control.after(Signal::Resume).paused,
        control.must_wait() <==> control.paused && !control.stopped,
{
}

} // verus!
