use ffs::command::Command;
use ffs::os::Os;
use ffs::error::Error;
use ffs::target::def::{build, local_file, task, Build, Common, TargetDef, Task};
use ffs::target::path::TargetPath;
use ffs::target::set::{place_of, Place, TargetSet};

fn plain(cmd: &str) -> Common {
    Common::new(Command::from_str(cmd))
}

fn task_def(cmd: &str) -> TargetDef {
    TargetDef::Task(Task { common: plain(cmd) })
}

fn command_of(def: &TargetDef) -> String {
    def.common()
        .cmd()
        .as_sh(&ffs::outputs::OutputTable::new())
        .unwrap()
}

#[test]
fn names_stay_in_order() {
    let mut set = TargetSet::new();
    for name in ["pear", "apple", "fig", "apple2", "Zebra", "app"] {
        set.insert(name.to_string(), task_def(name));
    }
    let names: Vec<&str> = (0..set.len()).map(|i| set.name_at(i)).collect();
    assert_eq!(names, ["Zebra", "app", "apple", "apple2", "fig", "pear"]);
    let mut sorted = names.clone();
    sorted.sort();
    assert_eq!(names, sorted);
}

#[test]
fn a_later_definition_replaces_an_earlier_one() {
    let mut set = TargetSet::new();
    set.insert("a".to_string(), task_def("first"));
    set.insert("b".to_string(), task_def("other"));
    set.insert("a".to_string(), task_def("second"));
    assert_eq!(set.len(), 2);
    assert_eq!(command_of(set.get("a").unwrap()), "second");
    assert_eq!(command_of(set.get("b").unwrap()), "other");
    assert!(set.get("c").is_none());
    assert_eq!(set.find("b"), Some(1));
    assert_eq!(set.find(""), None);
    assert_eq!(command_of(set.def_at(0)), "second");
}

#[test]
fn a_task_needs_no_platform() {
    let t = task_def("true");
    assert_eq!(t.runs_on(), None);
    assert!(t.as_build().is_none());
    let mut build = Build::new(plain("cl main.c"), Some(Os::Windows));
    build.source("main.c".to_string());
    build.source("util.c".to_string());
    build.source("main.c".to_string());
    let b = TargetDef::Build(build);
    assert_eq!(b.runs_on(), Some(Os::Windows));
    assert_eq!(b.as_build().unwrap().srcs(), &["main.c", "util.c"]);
    assert_eq!(b.as_build().unwrap().runs_on(), Some(Os::Windows));
    assert_eq!(command_of(&b), "cl main.c");
}

#[test]
fn texts_compare_like_strings() {
    let cases = [
        ("", ""),
        ("", "a"),
        ("a", "b"),
        ("ab", "abc"),
        ("abd", "abc"),
        ("Z", "a"),
        ("\u{e9}", "z"),
        ("a\u{10000}", "a\u{ffff}"),
    ];
    for (a, b) in cases {
        let expected = match a.cmp(b) {
            std::cmp::Ordering::Less => Place::Before,
            std::cmp::Ordering::Equal => Place::Same,
            std::cmp::Ordering::Greater => Place::After,
        };
        let left: Vec<char> = a.chars().collect();
        let right: Vec<char> = b.chars().collect();
        assert_eq!(place_of(&left, &right), expected, "{a:?} against {b:?}");
    }
}

#[test]
fn nothing_is_named_twice_in_a_definition() {
    let mut common = plain("true");
    assert!(common.prereqs().is_empty());
    assert!(common.tags().is_empty());
    assert!(common.outs().is_empty());
    for target in ["//a/b", "//c", "//a/b", "//a"] {
        common.require(TargetPath::from_str(target).unwrap());
    }
    let prereqs: Vec<String> = common.prereqs().iter().map(|p| p.to_string()).collect();
    assert_eq!(prereqs, ["//a/b", "//c", "//a"]);
    for tag in ["test", "deploy", "test", ""] {
        common.tag(tag.to_string());
    }
    assert_eq!(common.tags(), &["test", "deploy", ""]);
    common.output("default".to_string(), "out/a".to_string());
    common.output("extra".to_string(), "out/b".to_string());
    common.output("default".to_string(), "out/c".to_string());
    assert_eq!(
        common.outs(),
        &[
            ("default".to_string(), "out/c".to_string()),
            ("extra".to_string(), "out/b".to_string())
        ]
    );
    assert_eq!(common.cmd().to_string(), "true");
}

#[test]
fn a_name_is_what_the_set_is_asked_by() {
    let mut set = TargetSet::new();
    set.insert("a".to_string(), task_def("first"));
    assert!(matches!(
        TargetPath::from_path_name(".", set.name_at(0)),
        Ok(_)
    ));
    assert!(matches!(
        TargetPath::from_path_name(".", "a b"),
        Err(Error::InvalidFormat)
    ));
}

fn strings(list: &[&str]) -> Vec<String> {
    list.iter().map(|s| s.to_string()).collect()
}

fn pairs(list: &[(&str, &str)]) -> Vec<(String, String)> {
    list.iter()
        .map(|(a, b)| (a.to_string(), b.to_string()))
        .collect()
}

#[test]
fn a_task_from_its_parts() {
    let def = task(
        "cat //lib/out",
        &strings(&["//lib/out", "//tools/gen", "//lib/out"]),
        &strings(&["test", "test", "slow"]),
        &pairs(&[("default", "a"), ("log", "b"), ("default", "c")]),
    )
    .unwrap();
    assert!(def.as_build().is_none());
    let common = def.common();
    assert_eq!(common.cmd().to_string(), "cat //lib/out");
    let prereqs: Vec<String> = common.prereqs().iter().map(|p| p.to_string()).collect();
    assert_eq!(prereqs, ["//lib/out", "//tools/gen"]);
    assert_eq!(common.tags(), &["test", "slow"]);
    assert_eq!(common.outs(), &pairs(&[("default", "c"), ("log", "b")])[..]);
}

#[test]
fn a_task_with_a_prerequisite_that_is_no_address() {
    assert!(matches!(
        task("true", &strings(&["//ok", "not/rooted"]), &strings(&[]), &pairs(&[])),
        Err(Error::InvalidFormat)
    ));
}

#[test]
fn a_build_from_its_parts() {
    let def = build(
        "cc -o out main.c",
        &strings(&["main.c", "main.h", "main.c"]),
        &pairs(&[("default", "out")]),
        Some("linux_os"),
        &strings(&[]),
        &strings(&["native"]),
    )
    .unwrap();
    assert_eq!(def.runs_on(), Some(Os::Linux));
    let b = def.as_build().unwrap();
    assert_eq!(b.srcs(), &["main.c", "main.h"]);
    assert_eq!(b.common().tags(), &["native"]);
    assert_eq!(b.common().outs(), &pairs(&[("default", "out")])[..]);

    let anywhere = build("true", &strings(&[]), &pairs(&[]), None, &strings(&[]), &strings(&[]))
        .unwrap();
    assert_eq!(anywhere.runs_on(), None);
}

#[test]
fn a_build_that_cannot_be() {
    assert!(matches!(
        build("true", &strings(&[]), &pairs(&[]), Some("beos"), &strings(&[]), &strings(&[])),
        Err(Error::InvalidFormat)
    ));
    assert!(matches!(
        build("true", &strings(&[]), &pairs(&[]), Some("mac"), &strings(&["//"]), &strings(&[])),
        Err(Error::InvalidFormat)
    ));
}

#[test]
fn a_file_beside_another() {
    assert_eq!(
        local_file("//tools/rules.star", "helper.sh"),
        Some("//tools/helper.sh".to_string())
    );
    assert_eq!(local_file("a/b", ""), Some("a/".to_string()));
    assert_eq!(local_file("/top", "x"), Some("/x".to_string()));
    assert_eq!(local_file("rules.star", "helper.sh"), None);
}
