use vstd::prelude::*;

verus! {

/// An error that can be stored and read back: its chain of causes, each as
/// text, outermost first.
#[derive(Debug)]
pub struct SerError(pub Vec<String>);

/// A build has begun.
#[derive(Debug)]
pub struct BeginBuild {
    pub threads: usize,
}

/// A build has ended.
#[derive(Debug)]
pub struct EndBuild {
    pub result: Result<(), SerError>,
}

/// A task has started on a thread.
#[derive(Debug)]
pub struct StartTask<T> {
    pub thread: usize,
    pub task: T,
}

/// A task has written data.
#[derive(Debug)]
pub struct WriteTask {
    pub thread: usize,
    pub data: Vec<u8>,
}

/// A task has finished.
#[derive(Debug)]
pub struct FinishTask {
    pub thread: usize,
    pub result: Result<(), SerError>,
}

/// A resource has been deleted.
#[derive(Debug)]
pub struct Delete<R> {
    pub thread: usize,
    pub resource: R,
}

/// An entry of the build log.
pub enum LogEvent<R, T> {
    BeginBuild(BeginBuild),
    EndBuild(EndBuild),
    /// A task is started.
    StartTask(StartTask<T>),
    /// A task writes data.
    WriteTask(WriteTask),
    /// A task is finished.
    FinishTask(FinishTask),
    /// A resource is deleted.
    Delete(Delete<R>),
}

/// Writes the output of the task on one thread to the log, as `WriteTask`
/// entries.
pub struct BinaryTask {
    pub thread: usize,
}

impl BinaryTask {
    /// The log entry for a chunk of the task's output.
    pub fn entry<R, T>(&self, buf: &[u8]) -> (r: LogEvent<R, T>)
        ensures
            r matches LogEvent::WriteTask(w) && w.thread == self.thread && w.data@ == buf@,
    {
        let mut data: Vec<u8> = Vec::new();
        let mut i: usize = 0;
        while i < buf.len()
            invariant
                i <= buf@.len(),
                data@ == buf@.subrange(0, i as int),
            decreases buf@.len() - i,
        {
            data.push(buf[i]);
            i = i + 1;
            proof {
                assert(data@ =~= buf@.subrange(0, i as int));
            }
        }
        proof {
            assert(data@ =~= buf@);
        }
        LogEvent::WriteTask(WriteTask { thread: self.thread, data })
    }
}

/// What to do with a log entry when the log is played back.
#[derive(Copy, Clone, Debug, PartialEq, Eq, Structural)]
pub enum ReplayAction {
    /// Begin a build on this many threads.
    BeginBuild(usize),
    /// End the build.
    EndBuild,
    /// Start a task on this thread.
    StartTask(usize),
    /// Write the data to the task live on this thread.
    WriteTask(usize),
    /// Finish the task live on this thread.
    FinishTask(usize),
    /// Report a deletion on this thread.
    Delete(usize),
    /// Nothing: the entry concerns a thread with no live task.
    Skip,
}

/// The thread an entry is about, if it is about a task's thread.
pub open spec fn task_thread<R, T>(e: LogEvent<R, T>) -> Option<usize> {
    match e {
        LogEvent::StartTask(s) => Some(s.thread),
        LogEvent::WriteTask(w) => Some(w.thread),
        LogEvent::FinishTask(f) => Some(f.thread),
        _ => None,
    }
}

/// One step of playing back a log. `live` says, for each thread of the
/// build, whether a task is running on it. A new build starts with no live
/// task; a task that starts becomes live; output of a thread with no live
/// task is skipped; a finish ends the live task, and is skipped when there
/// is none.
pub fn replay_step<R, T>(live: &mut Vec<bool>, e: &LogEvent<R, T>) -> (a: ReplayAction)
    requires
        task_thread(*e) matches Some(t) ==> t < old(live)@.len(),
    ensures
        match *e {
            LogEvent::BeginBuild(b) => a == ReplayAction::BeginBuild(b.threads)
                && final(live)@ == Seq::new(b.threads as nat, |i: int| false),
            LogEvent::EndBuild(_) => a == ReplayAction::EndBuild && final(live)@ == old(live)@,
            LogEvent::StartTask(s) => a == ReplayAction::StartTask(s.thread)
                && final(live)@ == old(live)@.update(s.thread as int, true),
            LogEvent::WriteTask(w) => final(live)@ == old(live)@
                && a == if old(live)@[w.thread as int] { ReplayAction::WriteTask(w.thread) } else { ReplayAction::Skip },
            LogEvent::FinishTask(f) => final(live)@ == old(live)@.update(f.thread as int, false)
                && a == if old(live)@[f.thread as int] { ReplayAction::FinishTask(f.thread) } else { ReplayAction::Skip },
            LogEvent::Delete(d) => a == ReplayAction::Delete(d.thread) && final(live)@ == old(live)@,
        },
{
    match e {
        LogEvent::BeginBuild(b) => {
            let mut fresh: Vec<bool> = Vec::new();
            let mut i: usize = 0;
            while i < b.threads
                invariant
                    i <= b.threads,
                    fresh@ == Seq::new(i as nat, |k: int| false),
                decreases b.threads - i,
            {
                fresh.push(false);
                i = i + 1;
                proof {
                    assert(fresh@ =~= Seq::new(i as nat, |k: int| false));
                }
            }
            *live = fresh;
            ReplayAction::BeginBuild(b.threads)
        },
        LogEvent::EndBuild(_) => ReplayAction::EndBuild,
        LogEvent::StartTask(s) => {
            live.set(s.thread, true);
            ReplayAction::StartTask(s.thread)
        },
        LogEvent::WriteTask(w) => {
            if live[w.thread] {
                ReplayAction::WriteTask(w.thread)
            } else {
                ReplayAction::Skip
            }
        },
        LogEvent::FinishTask(f) => {
            let was = live[f.thread];
            live.set(f.thread, false);
            if was {
                ReplayAction::FinishTask(f.thread)
            } else {
                ReplayAction::Skip
            }
        },
        LogEvent::Delete(d) => ReplayAction::Delete(d.thread),
    }
}

/// What one log entry does to the live threads during playback.
pub open spec fn step_live<R, T>(live: Seq<bool>, e: LogEvent<R, T>) -> Seq<bool> {
    match e {
        LogEvent::BeginBuild(b) => Seq::new(b.threads as nat, |i: int| false),
        LogEvent::StartTask(s) => live.update(s.thread as int, true),
        LogEvent::FinishTask(f) => live.update(f.thread as int, false),
        _ => live,
    }
}

/// What playback does for one log entry, given the live threads.
pub open spec fn step_action<R, T>(live: Seq<bool>, e: LogEvent<R, T>) -> ReplayAction {
    match e {
        LogEvent::BeginBuild(b) => ReplayAction::BeginBuild(b.threads),
        LogEvent::EndBuild(_) => ReplayAction::EndBuild,
        LogEvent::StartTask(s) => ReplayAction::StartTask(s.thread),
        LogEvent::WriteTask(w) => if live[w.thread as int] {
            ReplayAction::WriteTask(w.thread)
        } else {
            ReplayAction::Skip
        },
        LogEvent::FinishTask(f) => if live[f.thread as int] {
            ReplayAction::FinishTask(f.thread)
        } else {
            ReplayAction::Skip
        },
        LogEvent::Delete(d) => ReplayAction::Delete(d.thread),
    }
}

/// Every entry that is about a task's thread names a thread of the build
/// in progress, so that the log can be played back.
pub open spec fn replayable<R, T>(live: Seq<bool>, events: Seq<LogEvent<R, T>>) -> bool
    decreases events.len(),
{
    events.len() == 0 || ((task_thread(events[0]) matches Some(t) ==> t < live.len())
        && replayable(step_live(live, events[0]), events.drop_first()))
}

/// The actions of playing back the entries, one per entry, in order.
pub open spec fn replay_actions<R, T>(live: Seq<bool>, events: Seq<LogEvent<R, T>>) -> Seq<ReplayAction>
    decreases events.len(),
{
    if events.len() == 0 {
        Seq::empty()
    } else {
        seq![step_action(live, events[0])] + replay_actions(step_live(live, events[0]), events.drop_first())
    }
}

/// Plays back a whole log: the action for each entry, in order, starting
/// with no build in progress.
pub fn replay_log<R, T>(events: &Vec<LogEvent<R, T>>) -> (r: Vec<ReplayAction>)
    requires
        replayable(Seq::<bool>::empty(), events@),
    ensures
        r@ == replay_actions(Seq::<bool>::empty(), events@),
{
    let mut live: Vec<bool> = Vec::new();
    let mut out: Vec<ReplayAction> = Vec::new();
    let mut i: usize = 0;
    proof {
        assert(events@.subrange(0, events@.len() as int) =~= events@);
    }
    while i < events.len()
        invariant
            i <= events@.len(),
            replayable(live@, events@.subrange(i as int, events@.len() as int)),
            out@ + replay_actions(live@, events@.subrange(i as int, events@.len() as int))
                == replay_actions(Seq::<bool>::empty(), events@),
        decreases events@.len() - i,
    {
        let ghost rest = events@.subrange(i as int, events@.len() as int);
        let ghost before = live@;
        proof {
            assert(rest[0] == events@[i as int]);
            assert(rest.drop_first() =~= events@.subrange(i + 1, events@.len() as int));
        }
        let a = replay_step(&mut live, &events[i]);
        proof {
            assert(live@ =~= step_live(before, rest[0]));
            assert(a == step_action(before, rest[0]));
            assert(out@.push(a) + replay_actions(live@, rest.drop_first()) =~= out@ + replay_actions(before, rest));
        }
        out.push(a);
        i = i + 1;
    }
    proof {
        assert(events@.subrange(i as int, events@.len() as int) =~= Seq::<LogEvent<R, T>>::empty());
        assert(out@ + Seq::<ReplayAction>::empty() =~= out@);
    }
    out
}

} // verus!
