use ffs::error::Error;
use ffs::executor::{Execution, Executor};
use ffs::os::Os;
use ffs::target::path::TargetPath;

fn execution(runs_on: Option<Os>) -> Execution {
    Execution {
        path: TargetPath::from_str("//a/b").unwrap(),
        command: "true".to_string(),
        dir: "a".to_string(),
        runs_on,
    }
}

#[test]
fn a_command_without_a_platform_runs_anywhere() {
    let e = Executor::new(Os::Windows).execute(execution(None)).unwrap();
    assert_eq!(e.command, "true");
    assert_eq!(e.dir, "a");
    assert_eq!(e.path.to_string(), "//a/b");
    assert_eq!(e.runs_on, None);
}

#[test]
fn a_command_runs_on_its_platform_only() {
    let executor = Executor::new(Os::Mac);
    assert_eq!(executor.host(), Os::Mac);
    assert!(executor.execute(execution(Some(Os::Mac))).is_ok());
    match executor.execute(execution(Some(Os::Linux))) {
        Err(Error::UnsupportedPlatform { required, host }) => {
            assert_eq!(required, Os::Linux);
            assert_eq!(host, Os::Mac);
        }
        other => panic!("expected an unsupported platform, got {other:?}"),
    }
}
