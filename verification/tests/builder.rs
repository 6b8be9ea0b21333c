use ffs::builder::{Action, Builder, Event};
use ffs::command::Command;
use ffs::error::Error;
use ffs::os::Os;
use ffs::target::output::Output;
use ffs::target::path::TargetPath;
use ffs::target::def::{Build, Common, TargetDef, Task};
use ffs::target::set::TargetSet;
use ffs::target::Selector;

fn path(s: &str) -> TargetPath {
    TargetPath::from_str(s).unwrap()
}

fn common(cmd: &str, prereqs: &[&str], outs: &[(&str, &str)]) -> Common {
    let mut common = Common::new(Command::from_str(cmd));
    for prereq in prereqs {
        common.require(path(prereq));
    }
    for (slot, file) in outs {
        common.output(slot.to_string(), file.to_string());
    }
    common
}

fn task(cmd: &str, prereqs: &[&str], outs: &[(&str, &str)]) -> TargetDef {
    TargetDef::Task(Task {
        common: common(cmd, prereqs, outs),
    })
}

fn build(cmd: &str, runs_on: Option<Os>, outs: &[(&str, &str)]) -> TargetDef {
    TargetDef::Build(Build::new(common(cmd, &[], outs), runs_on))
}

fn builder_for(selector: &str) -> Builder {
    Builder::new(
        Os::Linux,
        Some("/root".to_string()),
        Selector::from_str(selector).unwrap(),
    )
}

/// The definition files of a small tree.
fn definitions(file: &str) -> Option<TargetSet> {
    let mut set = TargetSet::new();
    match file {
        "FFS" => {
            set.insert("app".to_string(), task("cat //lib/out", &[], &[]));
            set.insert(
                "needy".to_string(),
                task("echo needy", &["//lib/broken"], &[]),
            );
            set.insert("lost".to_string(), task("cat //lib/nowhere", &[], &[]));
            set.insert("both".to_string(), task("cat //lib/out //lib/out:extra", &[], &[]));
            set.insert(
                "pair".to_string(),
                task("echo pair", &["//lib/out", "//again", "//lib/out"], &[]),
            );
            set.insert("again".to_string(), task("echo again", &["//lib/out"], &[]));
            set.insert("mac".to_string(), build("true", Some(Os::Mac), &[]));
            set.insert("linux".to_string(), build("true", Some(Os::Linux), &[]));
            set.insert("odd".to_string(), task("true", &[], &[("not a slot", "x")]));
            set.insert("raw".to_string(), task("cat //lib/raw", &[], &[]));
            set.insert("far".to_string(), task("cat //gone/thing", &[], &[]));
            set.insert("typo".to_string(), task("cat //lib/out:nope", &[], &[]));
            set.insert("tabbed".to_string(), task("cat\t//lib/out\r\n", &[], &[]));
        }
        "lib/FFS" => {
            set.insert(
                "out".to_string(),
                task("make out", &[], &[("default", "out.txt"), ("extra", "more.txt")]),
            );
            set.insert("broken".to_string(), task("exit 1", &[], &[("default", "never")]));
            set.insert("raw".to_string(), task("make raw", &[], &[("default", "raw.bin")]));
            set.insert("ghost".to_string(), task("true", &[], &[("default", "ghost.txt")]));
        }
        _ => return None,
    }
    Some(set)
}

/// Plays the part of the outside world until the builder is done or has
/// failed. Returns what the builder did, line by line, and how it ended.
fn drive(builder: &mut Builder, target: &str) -> (Vec<String>, Result<(), Error>) {
    play(builder, Event::Start(path(target)))
}

/// The same, from any first event.
fn play(builder: &mut Builder, first: Event) -> (Vec<String>, Result<(), Error>) {
    let mut log = Vec::new();
    let mut event = first;
    loop {
        event = match builder.step(event) {
            Action::Load { path } => {
                log.push(format!("load {path}"));
                match definitions(&path) {
                    Some(set) => Event::Loaded(set),
                    None => Event::LoadFailed(format!("no file at {path}")),
                }
            }
            Action::Building(t) => {
                log.push(format!("building {}", t.to_string()));
                Event::Tick
            }
            Action::Run(e) => {
                log.push(format!("run {} in {:?}: {}", e.path.to_string(), e.dir, e.command));
                if e.command == "exit 1" {
                    Event::Exited {
                        success: false,
                        code: Some(1),
                    }
                } else {
                    Event::Exited {
                        success: true,
                        code: Some(0),
                    }
                }
            }
            Action::Check { dir, file } => {
                log.push(format!("check {dir}/{file}"));
                if file == "ghost.txt" {
                    Event::Absent
                } else {
                    Event::Found
                }
            }
            Action::Built(t) => {
                log.push(format!("built {}", t.to_string()));
                Event::Tick
            }
            Action::Done => return (log, Ok(())),
            Action::Failed(e) => return (log, Err(e)),
        }
    }
}

#[test]
fn missing_dependency_drives_a_build() {
    let mut builder = builder_for("*");
    let (log, end) = drive(&mut builder, "//app");
    assert!(end.is_ok());
    assert_eq!(
        log,
        [
            "load FFS",
            "building //app",
            "load lib/FFS",
            "building //lib/out",
            "run //lib/out in \"lib\": make out",
            "check lib/out.txt",
            "check lib/more.txt",
            "built //lib/out",
            "run //app in \"\": cat /root/lib/out.txt",
            "built //app",
        ]
    );
    let built = log.iter().filter(|l| *l == "building //lib/out").count();
    assert_eq!(built, 1);
    assert!(builder.idle());
    assert!(builder.finish().is_ok());
}

#[test]
fn outputs_are_recorded_for_later_commands() {
    let mut builder = builder_for("*");
    let (_, end) = drive(&mut builder, "//lib/out");
    assert!(end.is_ok());
    let table = builder.outputs();
    assert_eq!(
        table.get(&Output::from_str("//lib/out").unwrap()),
        Some(Some("/root/lib/out.txt".to_string()))
    );
    assert_eq!(
        table.get(&Output::from_str("//lib/out:extra").unwrap()),
        Some(Some("/root/lib/more.txt".to_string()))
    );
    let (log, end) = drive(&mut builder, "//both");
    assert!(end.is_ok());
    assert_eq!(
        log,
        [
            "load FFS",
            "building //both",
            "run //both in \"\": cat /root/lib/out.txt /root/lib/more.txt",
            "built //both",
        ]
    );
}

#[test]
fn build_failure_propagation() {
    let mut builder = builder_for("*");
    let (log, end) = drive(&mut builder, "//needy");
    match end {
        Err(Error::BuildFailed { target, code }) => {
            assert_eq!(target.to_string(), "//lib/broken");
            assert_eq!(code, Some(1));
        }
        other => panic!("expected a failed build, got {other:?}"),
    }
    assert_eq!(
        log,
        [
            "load FFS",
            "building //needy",
            "load lib/FFS",
            "building //lib/broken",
            "run //lib/broken in \"lib\": exit 1",
        ]
    );
    assert!(!log.iter().any(|l| l.starts_with("run //needy")));
    assert!(!builder
        .outputs()
        .contains(&Output::from_str("//lib/broken").unwrap()));
    assert!(builder.idle());
    assert!(matches!(builder.step(Event::Tick), Action::Done));
}

#[test]
fn a_target_is_built_again_when_asked_again() {
    let mut builder = builder_for("*");
    let (log, end) = drive(&mut builder, "//pair");
    assert!(end.is_ok());
    let runs = log
        .iter()
        .filter(|l| l.starts_with("run //lib/out "))
        .count();
    assert_eq!(runs, 2);
    let loads = log.iter().filter(|l| *l == "load lib/FFS").count();
    assert_eq!(loads, 1);
    assert_eq!(
        log,
        [
            "load FFS",
            "building //pair",
            "load lib/FFS",
            "building //lib/out",
            "run //lib/out in \"lib\": make out",
            "check lib/out.txt",
            "check lib/more.txt",
            "built //lib/out",
            "building //again",
            "building //lib/out",
            "run //lib/out in \"lib\": make out",
            "check lib/out.txt",
            "check lib/more.txt",
            "built //lib/out",
            "run //again in \"\": echo again",
            "built //again",
            "run //pair in \"\": echo pair",
            "built //pair",
        ]
    );
}

#[test]
fn a_definition_file_is_read_once() {
    let mut builder = builder_for("*");
    let (first, _) = drive(&mut builder, "//lib/out");
    let (second, _) = drive(&mut builder, "//lib/raw");
    assert_eq!(first[0], "load lib/FFS");
    assert_eq!(second[0], "building //lib/raw");
    assert!(builder.reader().cached("lib/FFS").is_some());
    assert!(builder.reader().cached("FFS").is_none());
}

#[test]
fn unknown_target() {
    let mut builder = builder_for("*");
    let (log, end) = drive(&mut builder, "//lost");
    match end {
        Err(Error::UnknownTarget(t)) => assert_eq!(t.to_string(), "//lib/nowhere"),
        other => panic!("expected an unknown target, got {other:?}"),
    }
    assert_eq!(log, ["load FFS", "building //lost", "load lib/FFS"]);
}

#[test]
fn definition_error() {
    let mut builder = builder_for("*");
    let (_, end) = drive(&mut builder, "//far");
    match end {
        Err(Error::DefinitionError { path, cause }) => {
            assert_eq!(path, "gone/FFS");
            assert_eq!(cause, "no file at gone/FFS");
        }
        other => panic!("expected a definition error, got {other:?}"),
    }
    assert!(builder.reader().cached("gone/FFS").is_none());
}

#[test]
fn missing_output_file() {
    let mut builder = builder_for("*");
    let (_, end) = drive(&mut builder, "//lib/ghost");
    match end {
        Err(Error::MissingOutputFile { target, slot, path }) => {
            assert_eq!(target.to_string(), "//lib/ghost");
            assert_eq!(slot, "default");
            assert_eq!(path, "lib/ghost.txt");
        }
        other => panic!("expected a missing output file, got {other:?}"),
    }
    assert!(!builder
        .outputs()
        .contains(&Output::from_str("//lib/ghost").unwrap()));
}

#[test]
fn unsupported_platform() {
    let mut builder = builder_for("*");
    let (log, end) = drive(&mut builder, "//mac");
    match end {
        Err(Error::UnsupportedPlatform { required, host }) => {
            assert_eq!(required, Os::Mac);
            assert_eq!(host, Os::Linux);
        }
        other => panic!("expected an unsupported platform, got {other:?}"),
    }
    assert!(!log.iter().any(|l| l.starts_with("run")));
    let (log, end) = drive(&mut builder, "//linux");
    assert!(end.is_ok());
    assert_eq!(log, ["building //linux", "run //linux in \"\": true", "built //linux"]);
}

#[test]
fn path_that_is_no_text_ends_the_run() {
    let mut builder = Builder::new(Os::Linux, None, Selector::from_str("*").unwrap());
    let (log, end) = drive(&mut builder, "//raw");
    match end {
        Err(Error::NonUtf8Path(o)) => assert_eq!(o.to_string(), "//lib/raw:default"),
        other => panic!("expected a path that is no text, got {other:?}"),
    }
    assert_eq!(log.last().unwrap(), "built //lib/raw");
}

#[test]
fn slot_that_is_no_identifier() {
    let mut builder = builder_for("*");
    let (_, end) = drive(&mut builder, "//odd");
    assert!(matches!(end, Err(Error::InvalidFormat)));
}

#[test]
fn unexpected_event() {
    let mut builder = builder_for("*");
    assert!(matches!(
        builder.step(Event::Absent),
        Action::Failed(Error::UnexpectedEvent)
    ));
    assert!(matches!(builder.step(Event::Start(path("//app"))), Action::Load { .. }));
    assert!(!builder.idle());
    assert!(matches!(
        builder.step(Event::Tick),
        Action::Failed(Error::UnexpectedEvent)
    ));
    assert!(builder.idle());
}

#[test]
fn no_targets_matched() {
    let builder = builder_for("*");
    assert!(matches!(builder.finish(), Err(Error::NoTargetsMatched)));
    assert!(builder.idle());
}

#[test]
fn remembered_definitions_are_not_asked_for() {
    let mut builder = builder_for("*");
    let kept = builder.remember("FFS", definitions("FFS").unwrap());
    assert_eq!(kept.len(), 13);
    let again = builder.remember("FFS", TargetSet::new());
    assert_eq!(again.len(), 13);
    assert!(matches!(
        builder.step(Event::Start(path("//linux"))),
        Action::Building(_)
    ));
}

#[test]
fn an_output_that_its_target_does_not_make_ends_the_run() {
    let mut builder = builder_for("*");
    let (log, end) = drive(&mut builder, "//typo");
    match end {
        Err(Error::UnknownTarget(t)) => assert_eq!(t.to_string(), "//lib/out"),
        other => panic!("expected an unknown target, got {other:?}"),
    }
    let runs = log.iter().filter(|l| l.starts_with("run //lib/out ")).count();
    assert_eq!(runs, 1);
    assert!(!log.iter().any(|l| l.starts_with("run //typo")));
    assert!(builder.idle());
}

#[test]
fn a_reference_behind_a_tab_is_built() {
    let mut builder = builder_for("*");
    let (log, end) = drive(&mut builder, "//tabbed");
    assert!(end.is_ok());
    assert!(log.contains(&"building //lib/out".to_string()));
    assert_eq!(
        log[log.len() - 2],
        "run //tabbed in \"\": cat\t/root/lib/out.txt\r\n"
    );
}

#[test]
fn the_recorded_path_is_the_root_the_directory_and_the_declared_path() {
    for (root, expected) in [
        ("/root", "/root/lib/out.txt"),
        ("/root/", "/root/lib/out.txt"),
        ("/", "/lib/out.txt"),
        ("", "lib/out.txt"),
    ] {
        let mut builder = Builder::new(
            Os::Linux,
            Some(root.to_string()),
            Selector::from_str("*").unwrap(),
        );
        let (_, end) = drive(&mut builder, "//lib/out");
        assert!(end.is_ok());
        assert_eq!(
            builder.outputs().get(&Output::from_str("//lib/out").unwrap()),
            Some(Some(expected.to_string()))
        );
    }
}

#[test]
fn a_visited_file_has_its_selected_targets_built_in_order() {
    let mut builder = builder_for("//lib/...");
    let (log, end) = play(&mut builder, Event::Visit("./notes.txt".to_string()));
    assert!(end.is_ok());
    assert!(log.is_empty());
    let (log, end) = play(&mut builder, Event::Visit("./FFS".to_string()));
    assert!(end.is_ok());
    assert!(log.is_empty());
    assert!(matches!(builder.finish(), Err(Error::NoTargetsMatched)));

    let mut builder = builder_for("//lib/out");
    let (log, end) = play(&mut builder, Event::Visit("./lib/FFS".to_string()));
    assert!(end.is_ok());
    assert_eq!(
        log,
        [
            "load lib/FFS",
            "building //lib/out",
            "run //lib/out in \"lib\": make out",
            "check lib/out.txt",
            "check lib/more.txt",
            "built //lib/out",
        ]
    );
    assert!(builder.finish().is_ok());
    assert!(builder.idle());
}

#[test]
fn a_visit_stops_at_the_first_target_that_fails() {
    let mut builder = builder_for("//lib/...");
    let (log, end) = play(&mut builder, Event::Visit("lib/FFS".to_string()));
    assert!(matches!(end, Err(Error::BuildFailed { .. })));
    assert_eq!(
        log,
        [
            "load lib/FFS",
            "building //lib/broken",
            "run //lib/broken in \"lib\": exit 1",
        ]
    );
    assert!(builder.idle());
}

#[test]
fn a_visited_file_that_cannot_be_read() {
    let mut builder = builder_for("*");
    let (_, end) = play(&mut builder, Event::Visit("./gone/FFS".to_string()));
    match end {
        Err(Error::DefinitionError { path, cause }) => {
            assert_eq!(path, "gone/FFS");
            assert_eq!(cause, "no file at gone/FFS");
        }
        other => panic!("expected a definition error, got {other:?}"),
    }
}

#[test]
fn a_visit_while_targets_wait_is_refused() {
    let mut builder = builder_for("//lib/...");
    assert!(matches!(
        builder.step(Event::Visit("lib/FFS".to_string())),
        Action::Load { .. }
    ));
    assert!(matches!(
        builder.step(Event::Visit("FFS".to_string())),
        Action::Failed(Error::UnexpectedEvent)
    ));
    assert!(builder.idle());
}
