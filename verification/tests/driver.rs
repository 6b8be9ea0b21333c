use std::sync::Arc;

use ffs::command::Command;
use ffs::error::Error;
use ffs::reader::Reader;
use ffs::target::def::{Common, TargetDef, Task};
use ffs::target::set::TargetSet;
use ffs::target::{definition_of, is_definition_file, Selector};

fn tagged(cmd: &str, tags: &[&str]) -> TargetDef {
    let mut common = Common::new(Command::from_str(cmd));
    for tag in tags {
        common.tag(tag.to_string());
    }
    TargetDef::Task(Task { common })
}

fn sample() -> TargetSet {
    let mut set = TargetSet::new();
    set.insert("test".to_string(), tagged("cargo test", &["test"]));
    set.insert("deploy".to_string(), tagged("./deploy", &["test", "deploy"]));
    set.insert("build".to_string(), tagged("cargo build", &[]));
    set
}

fn selected(selector: &str, file: &str, set: &TargetSet) -> Vec<String> {
    Selector::from_str(selector)
        .unwrap()
        .select(file, set)
        .unwrap()
        .iter()
        .map(|t| t.to_string())
        .collect()
}

#[test]
fn definition_files_are_known_by_their_name() {
    assert!(is_definition_file("FFS"));
    assert!(is_definition_file("./FFS"));
    assert!(is_definition_file("./path/to/FFS"));
    assert!(!is_definition_file("./path/to/fakeFFS"));
    assert!(is_definition_file("./path/to/FFS/"));
    assert!(!is_definition_file("./path/to/FFS//"));
    assert!(!is_definition_file("./path/to/FFS.md"));
    assert!(!is_definition_file("ffs"));
    assert!(!is_definition_file(""));
}

#[test]
fn a_definition_file_is_kept_under_one_path() {
    assert_eq!(definition_of("./FFS"), "FFS");
    assert_eq!(definition_of("FFS"), "FFS");
    assert_eq!(definition_of("."), "FFS");
    assert_eq!(definition_of("./path/to/FFS"), "path/to/FFS");
    assert_eq!(definition_of("path/to"), "path/to/FFS");
    assert_eq!(definition_of("path/to/"), "path/to/FFS");
}

#[test]
fn a_wildcard_selects_every_target_in_order_of_name() {
    let set = sample();
    assert_eq!(
        selected("*", "./svc/FFS", &set),
        ["//svc/build", "//svc/deploy", "//svc/test"]
    );
    assert_eq!(
        selected("", "./FFS", &set),
        ["//build", "//deploy", "//test"]
    );
}

#[test]
fn selection_goes_by_address_and_tags() {
    let set = sample();
    assert_eq!(selected("//svc/test", "./svc/FFS", &set), ["//svc/test"]);
    assert_eq!(selected("//svc/test", "./other/FFS", &set), Vec::<String>::new());
    assert_eq!(
        selected("//svc/...", "./svc/FFS", &set),
        ["//svc/build", "//svc/deploy", "//svc/test"]
    );
    assert_eq!(selected("//svc/...", "./svc2/FFS", &set), Vec::<String>::new());
    assert_eq!(
        selected("@test", "./svc/FFS", &set),
        ["//svc/deploy", "//svc/test"]
    );
    assert_eq!(selected("@test,deploy", "./svc/FFS", &set), ["//svc/deploy"]);
    assert_eq!(selected("//svc/test@deploy", "./svc/FFS", &set), Vec::<String>::new());
}

#[test]
fn a_name_that_makes_no_address_fails_the_selection() {
    let mut set = sample();
    set.insert("not a name".to_string(), tagged("true", &[]));
    let selector = Selector::from_str("//svc/test").unwrap();
    assert!(matches!(
        selector.select("./svc/FFS", &set),
        Err(Error::InvalidFormat)
    ));
}

#[test]
fn the_reader_keeps_what_it_saw_first() {
    let mut reader = Reader::new();
    assert!(reader.cached("svc/FFS").is_none());
    let first = reader.remember("svc/FFS", sample());
    assert_eq!(first.len(), 3);
    let second = reader.remember("svc/FFS", TargetSet::new());
    assert!(Arc::ptr_eq(&first, &second));
    let other = reader.remember("FFS", TargetSet::new());
    assert_eq!(other.len(), 0);
    assert!(Arc::ptr_eq(&reader.cached("svc/FFS").unwrap(), &first));
    assert!(Arc::ptr_eq(&reader.cached("FFS").unwrap(), &other));
    assert!(reader.cached("svc").is_none());
}
