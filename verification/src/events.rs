use vstd::prelude::*;

use crate::detect::Detected;

verus! {

/// A build has begun.
#[derive(Debug)]
pub struct BeginBuildEvent {
    /// The number of threads used during the build.
    pub threads: usize,
    /// The name of the build.
    pub name: String,
}

/// A build has ended.
#[derive(Debug)]
pub struct EndBuildEvent {
    /// The result of the build.
    pub result: Result<(), String>,
}

/// A task has started executing on thread `id`.
#[derive(Debug)]
pub struct BeginTaskEvent<T> {
    /// The thread the task runs on; it stays the same until the task ends.
    pub id: usize,
    /// The task that has started.
    pub task: T,
}

/// A task has written output.
#[derive(Debug)]
pub struct TaskOutputEvent {
    /// The thread the task runs on.
    pub id: usize,
    /// The chunk of data that the task wrote.
    pub chunk: Vec<u8>,
}

/// A task has finished.
pub struct EndTaskEvent<R> {
    /// The thread the task ran on.
    pub id: usize,
    /// The inputs and outputs the task was found to have, or its error.
    pub result: Result<Detected<R>, String>,
}

/// A resource is getting deleted.
#[derive(Debug)]
pub struct DeleteEvent<R> {
    /// The thread the deletion runs on.
    pub id: usize,
    /// The resource that is getting deleted.
    pub resource: R,
    /// The result of the deletion, as text.
    pub result: Result<(), String>,
}

/// The checksum of a resource could not be computed.
#[derive(Debug)]
pub struct ChecksumErrorEvent<R> {
    /// The thread the checksum was computed on.
    pub id: usize,
    /// The resource.
    pub resource: R,
    /// The error, as text.
    pub error: String,
}

/// A single build event.
pub enum Event<R, T> {
    BeginBuild(BeginBuildEvent),
    EndBuild(EndBuildEvent),
    BeginTask(BeginTaskEvent<T>),
    TaskOutput(TaskOutputEvent),
    EndTask(EndTaskEvent<R>),
    Delete(DeleteEvent<R>),
    ChecksumError(ChecksumErrorEvent<R>),
}

/// Whether the console is showing a build, and on how many threads.
#[derive(Copy, Clone, Debug, PartialEq, Eq, Structural)]
pub enum ConsoleState {
    Idle,
    Building(usize),
}

/// What the console does with an event.
#[derive(Copy, Clone, Debug, PartialEq, Eq, Structural)]
pub enum ConsoleAction {
    /// Show a new build on this many threads.
    StartBuild(usize),
    /// Report the end of the build.
    EndBuild,
    /// Show that a task started on this thread.
    BeginTask(usize),
    /// Keep the output of the task on this thread.
    AppendOutput(usize),
    /// Report the end of the task on this thread.
    EndTask(usize),
    /// Report a deletion on this thread.
    Delete(usize),
    /// Report a checksum error on this thread.
    ChecksumError(usize),
    /// Nothing to show.
    Ignore,
}

/// The thread an event is about, if it is about a thread.
pub open spec fn event_thread<R, T>(e: Event<R, T>) -> Option<usize> {
    match e {
        Event::BeginTask(b) => Some(b.id),
        Event::TaskOutput(o) => Some(o.id),
        Event::EndTask(t) => Some(t.id),
        Event::Delete(d) => Some(d.id),
        Event::ChecksumError(c) => Some(c.id),
        _ => None,
    }
}

/// The console's response to an event. Only the first of nested builds is
/// shown: a build that begins while one is shown is ignored, and every
/// event but the beginning of a build is ignored while no build is shown.
pub fn console_step<R, T>(s: ConsoleState, e: &Event<R, T>) -> (r: (ConsoleState, ConsoleAction))
    requires
        s matches ConsoleState::Building(n) && event_thread(*e) matches Some(t) ==> t < n,
    ensures
        match s {
            ConsoleState::Idle => match *e {
                Event::BeginBuild(b) => r == (ConsoleState::Building(b.threads), ConsoleAction::StartBuild(b.threads)),
                _ => r == (ConsoleState::Idle, ConsoleAction::Ignore),
            },
            ConsoleState::Building(n) => match *e {
                Event::BeginBuild(_) => r == (s, ConsoleAction::Ignore),
                Event::EndBuild(_) => r == (ConsoleState::Idle, ConsoleAction::EndBuild),
                Event::BeginTask(b) => r == (s, ConsoleAction::BeginTask(b.id)),
                Event::TaskOutput(o) => r == (s, ConsoleAction::AppendOutput(o.id)),
                Event::EndTask(t) => r == (s, ConsoleAction::EndTask(t.id)),
                Event::Delete(d) => r == (s, ConsoleAction::Delete(d.id)),
                Event::ChecksumError(c) => r == (s, ConsoleAction::ChecksumError(c.id)),
            },
        },
{
    match s {
        ConsoleState::Idle => match e {
            Event::BeginBuild(b) => (ConsoleState::Building(b.threads), ConsoleAction::StartBuild(b.threads)),
            _ => (ConsoleState::Idle, ConsoleAction::Ignore),
        },
        ConsoleState::Building(_) => match e {
            Event::BeginBuild(_) => (s, ConsoleAction::Ignore),
            Event::EndBuild(_) => (ConsoleState::Idle, ConsoleAction::EndBuild),
            Event::BeginTask(b) => (s, ConsoleAction::BeginTask(b.id)),
            Event::TaskOutput(o) => (s, ConsoleAction::AppendOutput(o.id)),
            Event::EndTask(t) => (s, ConsoleAction::EndTask(t.id)),
            Event::Delete(d) => (s, ConsoleAction::Delete(d.id)),
            Event::ChecksumError(c) => (s, ConsoleAction::ChecksumError(c.id)),
        },
    }
}

/// Where the events of a build are sent.
pub trait EventSink<R> {
    /// The chunks of task output sent so far, each with its thread.
    spec fn sent(&self) -> Seq<(usize, Seq<u8>)>;

    /// The tasks reported finished so far, in order: each with its thread
    /// and its result.
    spec fn ended(&self) -> Seq<(usize, Result<Detected<R>, String>)>;

    /// A task wrote a chunk of output.
    fn task_output(&mut self, id: usize, chunk: Vec<u8>)
        ensures
            final(self).sent() == old(self).sent().push((id, chunk@)),
            final(self).ended() == old(self).ended(),
    ;

    /// A task finished.
    fn end_task(&mut self, id: usize, result: &Result<Detected<R>, String>)
        ensures
            final(self).sent() == old(self).sent(),
            final(self).ended() == old(self).ended().push((id, *result)),
    ;
}

/// A sink that keeps what it is sent: the chunks of task output with their
/// threads, and the threads whose tasks ended, with (as ghost state) the
/// results they ended with.
pub struct SentEvents<R> {
    pub chunks: Vec<(usize, Vec<u8>)>,
    pub ended: Vec<usize>,
    pub results: Ghost<Seq<(usize, Result<Detected<R>, String>)>>,
}

impl<R> SentEvents<R> {
    /// A sink that has been sent nothing.
    pub fn new() -> (r: SentEvents<R>)
        ensures
            r.chunks@ == Seq::<(usize, Vec<u8>)>::empty(),
            r.ended@ == Seq::<usize>::empty(),
            r.results@ == Seq::<(usize, Result<Detected<R>, String>)>::empty(),
    {
        SentEvents { chunks: Vec::new(), ended: Vec::new(), results: Ghost(Seq::empty()) }
    }
}

impl<R> EventSink<R> for SentEvents<R> {
    open spec fn sent(&self) -> Seq<(usize, Seq<u8>)> {
        self.chunks@.map_values(|c: (usize, Vec<u8>)| (c.0, c.1@))
    }

    open spec fn ended(&self) -> Seq<(usize, Result<Detected<R>, String>)> {
        self.results@
    }

    fn task_output(&mut self, id: usize, chunk: Vec<u8>) {
        let ghost data = chunk@;
        self.chunks.push((id, chunk));
        assert(self.chunks@.map_values(|c: (usize, Vec<u8>)| (c.0, c.1@))
            =~= old(self).chunks@.map_values(|c: (usize, Vec<u8>)| (c.0, c.1@)).push((id, data)));
    }

    fn end_task(&mut self, id: usize, result: &Result<Detected<R>, String>) {
        self.ended.push(id);
        self.results = Ghost(self.results@.push((id, *result)));
    }
}

/// Sends the output of the task running on thread `id` to a sink.
pub struct TaskOutputWriter<S> {
    pub id: usize,
    pub sink: S,
}

impl<S> TaskOutputWriter<S> {
    /// A writer for the task on thread `id`.
    pub fn new(id: usize, sink: S) -> (r: Self)
        ensures
            r.id == id,
            r.sink == sink,
    {
        TaskOutputWriter { id, sink }
    }

    /// Sends a chunk of output of the task: the sink gets exactly one
    /// chunk, `buf` on this writer's thread.
    pub fn write_all<R>(&mut self, buf: &[u8])
        where S: EventSink<R>
        ensures
            final(self).id == old(self).id,
            final(self).sink.sent() == old(self).sink.sent().push((old(self).id, buf@)),
            final(self).sink.ended() == old(self).sink.ended(),
    {
        let mut chunk: Vec<u8> = Vec::new();
        let mut i: usize = 0;
        while i < buf.len()
            invariant
                i <= buf@.len(),
                chunk@ == buf@.subrange(0, i as int),
            decreases buf@.len() - i,
        {
            chunk.push(buf[i]);
            i = i + 1;
            proof {
                assert(chunk@ =~= buf@.subrange(0, i as int));
            }
        }
        proof {
            assert(chunk@ =~= buf@);
        }
        self.sink.task_output(self.id, chunk);
    }

    /// Ends the task with its result, and gives the sink back: it was told
    /// that the task on this writer's thread finished with `result`.
    pub fn finish<R>(self, result: &Result<Detected<R>, String>) -> (r: S)
        where S: EventSink<R>
        ensures
            r.sent() == self.sink.sent(),
            r.ended() == self.sink.ended().push((self.id, *result)),
    {
        let mut sink = self.sink;
        sink.end_task(self.id, result);
        sink
    }
}

/// The build has started (an earlier form of the events).
#[derive(Debug)]
pub struct BeginEvent {
    /// Number of threads used for this build.
    pub threads: usize,
}

/// The build has finished.
#[derive(Debug)]
pub struct EndEvent {
    /// The result of the build.
    pub result: Result<(), String>,
    /// How long the build took.
    pub duration: std::time::Duration,
}

/// A task has started on a thread.
#[derive(Debug)]
pub struct TaskStart {
    /// The thread of the task; always less than the number of threads.
    pub thread: usize,
}

/// A chunk of output of a task.
#[derive(Debug)]
pub struct TaskOutput {
    /// The thread of the task.
    pub thread: usize,
    /// The chunk of output.
    pub chunk: Vec<u8>,
}

/// A task has finished.
#[derive(Debug)]
pub struct TaskEnd {
    /// The thread of the task.
    pub thread: usize,
    /// The result of the task.
    pub result: Result<(), String>,
    /// How long the task took.
    pub duration: std::time::Duration,
}

} // verus!
