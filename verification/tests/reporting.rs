use ffs::reporting::{begin_line, finish_line, numeral, Options, Quiet, Reporter};
use ffs::target::path::TargetPath;

#[test]
fn numerals() {
    assert_eq!(numeral(0), "0");
    assert_eq!(numeral(7), "7");
    assert_eq!(numeral(10), "10");
    assert_eq!(numeral(1905), "1905");
    assert_eq!(numeral(u64::MAX), "18446744073709551615");
}

#[test]
fn progress_lines() {
    let task = TargetPath::from_str("//path/to/target").unwrap();
    assert_eq!(begin_line(&task), "Running //path/to/target");
    assert_eq!(finish_line(&task, 3, 250), "Finish  //path/to/target in 3.250s");
    assert_eq!(finish_line(&task, 0, 5), "Finish  //path/to/target in 0.5s");
}

#[test]
fn the_quiet_reporter_takes_everything() {
    let task = TargetPath::from_str("//target").unwrap();
    let options = Options { quiet: true };
    assert!(options.quiet);
    let reporter = Quiet;
    reporter.begin_execute(&task);
    reporter.finish_execute(&task, 1, 2);
    reporter.finish_top_level();
}
