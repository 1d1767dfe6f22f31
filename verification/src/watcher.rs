//! The scheduler-loop decisions of an event watcher, as a pure state
//! machine: what each observation (a heartbeat tick or a cancellation)
//! does to the watcher's status, and how many task invocations a run
//! performs. The asynchronous loop that waits on the interval and on the
//! cancellation signal performs these decisions one observation at a time.

use vstd::prelude::*;

verus! {

/// A watcher runs until it receives a cancellation; Stopped is terminal.
#[derive(Clone, Copy, Debug, PartialEq, Eq, Structural)]
pub enum WatcherStatus {
    Running,
    Stopped,
}

/// What the scheduler loop observed while waiting: the heartbeat interval
/// elapsed and the task ran (recording whether it failed), or the
/// cancellation signal arrived first.
#[derive(Clone, Copy, Debug, PartialEq, Eq, Structural)]
pub enum WatcherEvent {
    Tick { task_failed: bool },
    Cancel,
}

/// What the loop does next: schedule another wait, or exit.
#[derive(Clone, Copy, Debug, PartialEq, Eq, Structural)]
pub enum WatcherAction {
    Continue,
    Exit,
}

/// One decision of the scheduler loop. A cancellation stops the loop; a tick
/// keeps it running whatever the task's outcome — task failure is not fatal.
pub open spec fn spec_step(s: WatcherStatus, ev: WatcherEvent) -> (WatcherStatus, WatcherAction) {
    match s {
        WatcherStatus::Running => match ev {
            WatcherEvent::Tick { .. } => (WatcherStatus::Running, WatcherAction::Continue),
            WatcherEvent::Cancel => (WatcherStatus::Stopped, WatcherAction::Exit),
        },
        WatcherStatus::Stopped => (WatcherStatus::Stopped, WatcherAction::Exit),
    }
}

/// The status after a sequence of observations, starting from `s`.
pub open spec fn run_status(s: WatcherStatus, evs: Seq<WatcherEvent>) -> WatcherStatus
    decreases evs.len(),
{
    if evs.len() == 0 {
        s
    } else {
        run_status(spec_step(s, evs[0]).0, evs.skip(1))
    }
}

/// How many task invocations a sequence of observations causes from `s`:
/// one for every tick delivered while the watcher still runs.
pub open spec fn invocations(s: WatcherStatus, evs: Seq<WatcherEvent>) -> nat
    decreases evs.len(),
{
    if evs.len() == 0 {
        0
    } else {
        (if s is Running && evs[0] is Tick {
            1nat
        } else {
            0nat
        }) + invocations(spec_step(s, evs[0]).0, evs.skip(1))
    }
}

/// The number of ticks that precede the first cancellation.
pub open spec fn ticks_before_cancel(evs: Seq<WatcherEvent>) -> nat
    decreases evs.len(),
{
    if evs.len() == 0 {
        0
    } else if evs[0] is Cancel {
        0
    } else {
        1 + ticks_before_cancel(evs.skip(1))
    }
}

/// A stopped watcher never invokes its task again.
pub proof fn lemma_stopped_never_invokes(evs: Seq<WatcherEvent>)
    ensures
        invocations(WatcherStatus::Stopped, evs) == 0,
    decreases evs.len(),
{
    if evs.len() == 0 {
    } else {
        lemma_stopped_never_invokes(evs.skip(1));
    }
}

/// Watcher lifecycle law: from a fresh watcher, a cancellation delivered
/// before any tick yields zero task invocations, and in general the task
/// runs exactly once per tick observed before the first cancellation —
/// never afterwards.
pub proof fn lemma_watcher_invocations(evs: Seq<WatcherEvent>)
    ensures
        invocations(WatcherStatus::Running, evs) == ticks_before_cancel(evs),
    decreases evs.len(),
{
    if evs.len() == 0 {
    } else if evs[0] is Cancel {
        lemma_stopped_never_invokes(evs.skip(1));
    } else {
        lemma_watcher_invocations(evs.skip(1));
    }
}

/// Unfolding a run over one more observation at its end.
proof fn lemma_run_snoc(s: WatcherStatus, evs: Seq<WatcherEvent>, ev: WatcherEvent)
    ensures
        run_status(s, evs.push(ev)) == spec_step(run_status(s, evs), ev).0,
        invocations(s, evs.push(ev)) == invocations(s, evs) + (
        if run_status(s, evs) is Running && ev is Tick {
            1nat
        } else {
            0nat
        }),
    decreases evs.len(),
{
    if evs.len() == 0 {
        assert(evs.push(ev)[0] == ev);
        assert(evs.push(ev).skip(1) =~= Seq::<WatcherEvent>::empty());
        assert(invocations(spec_step(s, ev).0, evs.push(ev).skip(1)) == 0);
        assert(run_status(spec_step(s, ev).0, evs.push(ev).skip(1)) == spec_step(s, ev).0);
        assert(run_status(s, evs) == s);
        assert(invocations(s, evs) == 0);
    } else {
        assert(evs.push(ev)[0] == evs[0]);
        assert(evs.push(ev).skip(1) =~= evs.skip(1).push(ev));
        lemma_run_snoc(spec_step(s, evs[0]).0, evs.skip(1), ev);
        assert(invocations(s, evs.push(ev)) == (if s is Running && evs[0] is Tick {
            1nat
        } else {
            0nat
        }) + invocations(spec_step(s, evs[0]).0, evs.skip(1).push(ev)));
        assert(invocations(s, evs) == (if s is Running && evs[0] is Tick {
            1nat
        } else {
            0nat
        }) + invocations(spec_step(s, evs[0]).0, evs.skip(1)));
        assert(run_status(s, evs) == run_status(spec_step(s, evs[0]).0, evs.skip(1)));
    }
}

/// One decision of the scheduler loop, executable form.
pub fn step(status: WatcherStatus, event: WatcherEvent) -> (r: (WatcherStatus, WatcherAction))
    ensures
        r == spec_step(status, event),
{
    match status {
        WatcherStatus::Running => match event {
            WatcherEvent::Tick { .. } => (WatcherStatus::Running, WatcherAction::Continue),
            WatcherEvent::Cancel => (WatcherStatus::Stopped, WatcherAction::Exit),
        },
        WatcherStatus::Stopped => (WatcherStatus::Stopped, WatcherAction::Exit),
    }
}

/// Replay a sequence of observations from a fresh watcher and count the task
/// invocations it causes.
pub fn simulate(events: &Vec<WatcherEvent>) -> (n: usize)
    ensures
        n == invocations(WatcherStatus::Running, events@),
{
    let mut status = WatcherStatus::Running;
    let mut n: usize = 0;
    let mut i: usize = 0;
    while i < events.len()
        invariant
            i <= events@.len(),
            status == run_status(WatcherStatus::Running, events@.take(i as int)),
            n == invocations(WatcherStatus::Running, events@.take(i as int)),
            n <= i,
        decreases events@.len() - i,
    {
        let ev = events[i];
        proof {
            lemma_run_snoc(WatcherStatus::Running, events@.take(i as int), ev);
            assert(events@.take(i + 1 as int) =~= events@.take(i as int).push(ev));
        }
        let (next, _action) = step(status, ev);
        if matches!(status, WatcherStatus::Running) && matches!(ev, WatcherEvent::Tick { .. }) {
            n += 1;
        }
        status = next;
        i += 1;
    }
    proof {
        assert(events@.take(events@.len() as int) =~= events@);
    }
    n
}

} // verus!
