use std::time::Duration;

use button::detect::{add_include, below_root, include_is_output, include_of, Detect, Detected};
use button::events::{console_step, BeginBuildEvent, ConsoleAction, ConsoleState, EndBuildEvent, Event, SentEvents, TaskOutputEvent, TaskOutputWriter};
use button::log::{replay_log, replay_step, Delete, EndBuild, BeginBuild, BinaryTask, FinishTask, LogEvent, ReplayAction, StartTask, WriteTask};
use button::opts::{num_width, rules_search_paths, Clean, ColorChoice, Coloring, Edges};
use button::protocol::{on_shutdown_message, on_timeout, ShutdownAction, ShutdownCause, ShutdownMessage};
use button::res::FilePath;
use button::retry::{progress_dummy, Retry};

#[test]
fn detection_by_program_name() {
    assert_eq!(Detect::from_program("cl"), Detect::Cl);
    assert_eq!(Detect::from_program("/usr/bin/gcc"), Detect::Clang);
    assert_eq!(Detect::from_program("./clang/"), Detect::Clang);
    assert_eq!(Detect::from_program("bin/clang/."), Detect::Clang);
    assert_eq!(Detect::from_program("gcc/.."), Detect::Disabled);
    assert_eq!(Detect::from_program("/usr/bin/ld"), Detect::Disabled);
    assert_eq!(Detect::from_program(""), Detect::Disabled);
    assert_eq!(Detect::from_program("cl.exe"), Detect::Disabled);
    assert_eq!(Detect::default(), Detect::Disabled);
}

#[test]
fn detected_resources_are_sets() {
    let mut d: Detected<FilePath> = Detected::new();
    d.add_input(FilePath::new("a.h"));
    d.add_input(FilePath::new("A.H"));
    d.add_output(FilePath::new("a.o"));
    assert_eq!(d.inputs.len(), 1);
    assert_eq!(d.outputs.len(), 1);
    let mut other: Detected<FilePath> = Detected::new();
    other.add_input(FilePath::new("b.h"));
    other.add_input(FilePath::new("a.h"));
    d.add(other);
    assert_eq!(d.inputs, vec![FilePath::new("a.h"), FilePath::new("b.h")]);
    assert_eq!(d.outputs, vec![FilePath::new("a.o")]);
}

#[test]
fn tlh_includes_are_outputs() {
    assert!(include_is_output("foo.tlh"));
    assert!(include_is_output("gen/msxml6.tlh"));
    assert!(include_is_output("gen/x.tlh/"));
    assert!(!include_is_output(".tlh"));
    assert!(!include_is_output("foo.h"));
    assert!(!include_is_output("foo.tlh.h"));
    assert!(!include_is_output("foo.TLH"));
    let mut d: Detected<FilePath> = Detected::new();
    add_include(&mut d, "src/foo.h");
    add_include(&mut d, "gen/msxml6.tlh");
    assert_eq!(d.inputs, vec![FilePath::new("src/foo.h")]);
    assert_eq!(d.outputs, vec![FilePath::new("gen/msxml6.tlh")]);
}

#[test]
fn widths_of_numbers() {
    assert_eq!(num_width(0), 1);
    assert_eq!(num_width(999), 3);
    assert_eq!(num_width(9), 1);
    assert_eq!(num_width(10), 2);
    assert_eq!(num_width(12345), 5);
    assert_eq!(num_width(usize::MAX), usize::MAX.to_string().len());
}

#[test]
fn coloring_and_edges_parse() {
    assert_eq!(Coloring::parse("auto"), Ok(Coloring::Auto));
    assert_eq!(Coloring::parse("never"), Ok(Coloring::Never));
    assert_eq!("always".parse::<Coloring>(), Ok(Coloring::Always));
    assert_eq!(Coloring::parse("Auto"), Err(()));
    assert_eq!(Edges::parse("both"), Ok(Edges::Both));
    assert_eq!("implicit".parse::<Edges>(), Ok(Edges::Implicit));
    assert_eq!(Edges::parse(""), Err(()));
}

#[test]
fn rules_are_searched_upwards() {
    assert_eq!(
        rules_search_paths("/home/me/project"),
        vec!["/home/me/project/button.json", "/home/me/button.json", "/home/button.json", "/button.json"]
    );
    assert_eq!(rules_search_paths("sub/dir/"), vec!["sub/dir/button.json", "sub/button.json", "button.json"]);
    assert_eq!(rules_search_paths("/"), vec!["/button.json"]);
    // The path is walked up as given, as `Path::parent` does.
    assert_eq!(
        rules_search_paths("a/../b"),
        vec!["a/../b/button.json", "a/../button.json", "a/button.json", "button.json"]
    );
    assert_eq!(rules_search_paths("./x"), vec!["./x/button.json", "./button.json", "button.json"]);
}

#[test]
fn clean_threads() {
    let c = Clean { rules: None, dryrun: false, verbose: false, threads: 0 };
    assert_eq!(c.thread_count(8), 8);
    let c = Clean { threads: 3, ..c };
    assert_eq!(c.thread_count(8), 3);
}

#[test]
fn retry_settings_and_delays() {
    let r = Retry::new();
    assert_eq!(r.retries, 0);
    assert_eq!(r.delay, Duration::from_secs(1));
    assert_eq!(r.backoff, 2);
    assert_eq!(r.max_delay, None);

    let r = Retry::new()
        .with_retries(4)
        .with_delay(Duration::from_millis(50))
        .with_backoff(3)
        .with_max_delay(Duration::from_millis(400));
    assert_eq!(r.retries, 4);
    assert_eq!(r.attempts(), 5);
    assert_eq!(r.next_delay(Duration::from_millis(50)), Duration::from_millis(150));
    assert_eq!(r.next_delay(Duration::from_millis(150)), Duration::from_millis(400));
    assert_eq!(Retry::new().next_delay(Duration::from_secs(3)), Duration::from_secs(6));
    assert_eq!(r.checked_next_delay(Duration::from_millis(50)), Some(Duration::from_millis(150)));
    assert_eq!(r.first_delay(), Duration::from_millis(50));
    assert_eq!(Retry::new().with_delay(Duration::from_secs(9)).with_max_delay(Duration::from_secs(4)).first_delay(), Duration::from_secs(4));
    assert_eq!(Retry::new().with_backoff(0).first_delay(), Duration::from_secs(0));
    assert_eq!(Retry::new().checked_next_delay(Duration::from_secs(u64::MAX)), None);

    assert_eq!(r.after_failure(5), Some(4));
    assert_eq!(r.after_failure(1), None);
    assert!(progress_dummy(&r, &"error", 1, Duration::from_secs(1)));
}

#[test]
fn idle_timer_decisions() {
    assert!(matches!(on_shutdown_message(ShutdownMessage::ResetIdle), ShutdownAction::RestartTimer));
    assert!(matches!(
        on_shutdown_message(ShutdownMessage::Shutdown),
        ShutdownAction::Resolve(ShutdownCause::ShutdownRequested)
    ));
    match on_timeout(Duration::from_secs(30)) {
        ShutdownCause::Idle(d) => assert_eq!(d, Duration::from_secs(30)),
        _ => panic!("expected idle"),
    }
}

#[test]
fn log_entries_for_task_output() {
    let task = BinaryTask { thread: 3 };
    match task.entry::<FilePath, String>(b"hello") {
        LogEvent::WriteTask(w) => {
            assert_eq!(w.thread, 3);
            assert_eq!(w.data, b"hello".to_vec());
        },
        _ => panic!("expected a write"),
    }
}

#[test]
fn task_output_writer_forwards_to_its_sink() {
    let mut w = TaskOutputWriter::new(2, SentEvents::new());
    w.write_all::<FilePath>(b"out");
    w.write_all::<FilePath>(b"more");
    let sent = w.finish::<FilePath>(&Err("failed".to_string()));
    assert_eq!(sent.chunks, vec![(2, b"out".to_vec()), (2, b"more".to_vec())]);
    assert_eq!(sent.ended, vec![2]);
}

#[test]
fn color_choices_parse_and_follow_the_output() {
    assert_eq!(ColorChoice::variants(), ["auto", "always", "ansi", "never"]);
    assert_eq!(ColorChoice::parse("auto"), Ok(ColorChoice::Auto));
    assert_eq!(ColorChoice::parse("always"), Ok(ColorChoice::Always));
    assert_eq!(ColorChoice::parse("ansi"), Ok(ColorChoice::AlwaysAnsi));
    assert_eq!(ColorChoice::parse("never"), Ok(ColorChoice::Never));
    assert_eq!("sometimes".parse::<ColorChoice>(), Err("invalid color choice"));
    assert_eq!(ColorChoice::Auto.for_output(true), ColorChoice::Auto);
    assert_eq!(ColorChoice::Auto.for_output(false), ColorChoice::Never);
    assert_eq!(ColorChoice::Always.for_output(false), ColorChoice::Always);
}

#[test]
fn replay_tracks_live_tasks() {
    let mut live: Vec<bool> = vec![true];
    let begin: LogEvent<FilePath, String> = LogEvent::BeginBuild(BeginBuild { threads: 2 });
    assert_eq!(replay_step(&mut live, &begin), ReplayAction::BeginBuild(2));
    assert_eq!(live, vec![false, false]);
    let write: LogEvent<FilePath, String> = LogEvent::WriteTask(WriteTask { thread: 1, data: b"x".to_vec() });
    assert_eq!(replay_step(&mut live, &write), ReplayAction::Skip);
    let start: LogEvent<FilePath, String> = LogEvent::StartTask(StartTask { thread: 1, task: "cc".to_string() });
    assert_eq!(replay_step(&mut live, &start), ReplayAction::StartTask(1));
    assert_eq!(replay_step(&mut live, &write), ReplayAction::WriteTask(1));
    let finish: LogEvent<FilePath, String> = LogEvent::FinishTask(FinishTask { thread: 1, result: Ok(()) });
    assert_eq!(replay_step(&mut live, &finish), ReplayAction::FinishTask(1));
    assert_eq!(replay_step(&mut live, &finish), ReplayAction::Skip);
    assert_eq!(live, vec![false, false]);
}

#[test]
fn replaying_a_whole_log() {
    let log: Vec<LogEvent<FilePath, String>> = vec![
        LogEvent::BeginBuild(BeginBuild { threads: 2 }),
        LogEvent::StartTask(StartTask { thread: 0, task: "cc".to_string() }),
        LogEvent::WriteTask(WriteTask { thread: 0, data: b"ok".to_vec() }),
        LogEvent::WriteTask(WriteTask { thread: 1, data: b"lost".to_vec() }),
        LogEvent::Delete(Delete { thread: 1, resource: FilePath::new("old.o") }),
        LogEvent::FinishTask(FinishTask { thread: 0, result: Ok(()) }),
        LogEvent::WriteTask(WriteTask { thread: 0, data: b"late".to_vec() }),
        LogEvent::EndBuild(EndBuild { result: Ok(()) }),
    ];
    assert_eq!(
        replay_log(&log),
        vec![
            ReplayAction::BeginBuild(2),
            ReplayAction::StartTask(0),
            ReplayAction::WriteTask(0),
            ReplayAction::Skip,
            ReplayAction::Delete(1),
            ReplayAction::FinishTask(0),
            ReplayAction::Skip,
            ReplayAction::EndBuild,
        ]
    );
    assert_eq!(replay_log::<FilePath, String>(&vec![]), vec![]);
}

#[test]
fn console_shows_the_first_build_only() {
    let begin: Event<FilePath, String> = Event::BeginBuild(BeginBuildEvent { threads: 3, name: "build".to_string() });
    let output: Event<FilePath, String> = Event::TaskOutput(TaskOutputEvent { id: 2, chunk: b"x".to_vec() });
    let end: Event<FilePath, String> = Event::EndBuild(EndBuildEvent { result: Ok(()) });
    assert_eq!(console_step(ConsoleState::Idle, &output), (ConsoleState::Idle, ConsoleAction::Ignore));
    let (s, a) = console_step(ConsoleState::Idle, &begin);
    assert_eq!((s, a), (ConsoleState::Building(3), ConsoleAction::StartBuild(3)));
    assert_eq!(console_step(s, &begin), (ConsoleState::Building(3), ConsoleAction::Ignore));
    assert_eq!(console_step(s, &output), (ConsoleState::Building(3), ConsoleAction::AppendOutput(2)));
    assert_eq!(console_step(s, &end), (ConsoleState::Idle, ConsoleAction::EndBuild));
}

#[test]
fn include_lines_and_paths_below_the_root() {
    assert_eq!(include_of("Note: including file:   C:/proj/a.h \r\n"), Some("C:/proj/a.h".to_string()));
    assert_eq!(include_of("main.cpp"), None);
    assert_eq!(include_of("Note: including"), None);
    assert_eq!(below_root("/proj/src//a.h", "/proj"), Some("src/a.h".to_string()));
    assert_eq!(below_root("/proj", "/proj/"), Some("".to_string()));
    assert_eq!(below_root("/usr/include/a.h", "/proj"), None);
    assert_eq!(below_root("/projx/a.h", "/proj"), None);
}
