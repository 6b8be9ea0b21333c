use ffs::error::Error;
use ffs::target::output::Output;
use ffs::target::path::TargetPath;
use ffs::target::{ident, name, path_to_definition, task_path, Selector};

fn tags(list: &[&str]) -> Vec<String> {
    list.iter().map(|t| t.to_string()).collect()
}

fn selector_matches(sel: &str, target: &str, list: &[&str]) -> bool {
    let sel = Selector::from_str(sel).unwrap();
    sel.matches(target, &tags(list))
}

fn selector_matches_file(sel: &str, file: &str) -> bool {
    let sel = Selector::from_str(sel).unwrap();
    sel.matches_file(file)
}

#[test]
fn root() {
    assert_eq!(path_to_definition("//target").unwrap(), "FFS");
}

#[test]
fn subdir() {
    assert_eq!(
        path_to_definition("//path/to/target").unwrap(),
        "path/to/FFS"
    );
}

#[test]
fn path_to_definition_wants_the_root_marker() {
    assert!(matches!(
        path_to_definition("path/to/target"),
        Err(Error::InvalidFormat)
    ));
    assert!(matches!(path_to_definition("/target"), Err(Error::InvalidFormat)));
    assert_eq!(path_to_definition("//").unwrap(), "FFS");
}

#[test]
fn name_is_what_follows_the_last_slash() {
    assert_eq!(name("//path/to/target").unwrap(), "target");
    assert_eq!(name("//target").unwrap(), "target");
    assert_eq!(name("a/").unwrap(), "");
    assert!(matches!(name("target"), Err(Error::InvalidFormat)));
}

#[test]
fn ident_accepts_letters_digits_and_two_marks() {
    assert_eq!(ident("allowed_characters-09").unwrap(), "allowed_characters-09");
    assert_eq!(ident("").unwrap(), "");
    assert_eq!(ident("\u{e9}t\u{e9}").unwrap(), "\u{e9}t\u{e9}");
    assert!(matches!(ident("a/b"), Err(Error::InvalidFormat)));
    assert!(matches!(ident("a:b"), Err(Error::InvalidFormat)));
    assert!(matches!(ident("a b"), Err(Error::InvalidFormat)));
    assert!(matches!(ident("a.b"), Err(Error::InvalidFormat)));
}

#[test]
fn selector_star_matches_everything() {
    assert!(selector_matches("*", "//some/target", &[]));
}

#[test]
fn selector_empty_matches_everything() {
    assert!(selector_matches("", "//some/target", &[]));
    assert!(selector_matches("", "//target", &[]));
}

#[test]
fn selector_exact_does_not_match_other() {
    assert!(!selector_matches("//a/target", "//another/target", &[]));
}

#[test]
fn selector_matches_exact() {
    assert!(selector_matches("//a/target", "//a/target", &[]));
}

#[test]
fn glob_matches_children() {
    assert!(selector_matches(
        "//some/path/...",
        "//some/path/actual_target",
        &[]
    ));
}

#[test]
fn glob_matches_its_own_prefix() {
    assert!(selector_matches("//some/path/...", "//some/path", &[]));
}

#[test]
fn glob_does_not_match_sibling_directory() {
    assert!(!selector_matches(
        "//some/path/...",
        "//some/path_suffix/actual_target",
        &[]
    ));
}

#[test]
fn matches_with_tags() {
    assert!(selector_matches("@test", "//some/target", &["test"]));
}

#[test]
fn does_not_match_without_tags() {
    assert!(!selector_matches("@test", "//some/target", &["deploy"]));
}

#[test]
fn matches_with_all_tags() {
    assert!(selector_matches(
        "@test,deploy",
        "//some/target",
        &["deploy", "test"]
    ));
}

#[test]
fn does_not_match_with_some_tags() {
    assert!(!selector_matches(
        "@test,deploy",
        "//some/target",
        &["deploy"]
    ));
}

#[test]
fn tags_combine_with_an_address() {
    assert!(selector_matches("//a/...@test", "//a/b", &["test", "x"]));
    assert!(!selector_matches("//a/...@test", "//a/b", &["x"]));
    assert!(!selector_matches("//a/...@test", "//b/b", &["test"]));
}

#[test]
fn exact_does_not_match_child() {
    assert!(!selector_matches("//a/target", "//a/target/child", &[]));
}

#[test]
fn bad_target_specifier() {
    assert!(Selector::from_str("bad/target").is_err());
}

#[test]
fn bad_selector_is_invalid_format() {
    assert!(matches!(
        Selector::from_str("bad/target"),
        Err(Error::InvalidFormat)
    ));
    assert!(matches!(Selector::from_str("/x"), Err(Error::InvalidFormat)));
    assert!(matches!(Selector::from_str("**"), Err(Error::InvalidFormat)));
}

#[test]
fn selector_keeps_its_text() {
    let sel = Selector::from_str("//a/...@x,y").unwrap();
    assert_eq!(sel.to_string(), "//a/...@x,y");
}

#[test]
fn selector_matches_a_parsed_path() {
    let sel = Selector::from_str("//some/path/...").unwrap();
    let inside = TargetPath::from_str("//some/path/actual_target").unwrap();
    let outside = TargetPath::from_str("//some/path_suffix/actual_target").unwrap();
    assert!(sel.matches_path(&inside, &tags(&[])));
    assert!(!sel.matches_path(&outside, &tags(&[])));
}

#[test]
fn exact_matches_file() {
    assert!(selector_matches_file("//path/to/target", "./path/to/FFS"));
}

#[test]
fn exact_but_different_file() {
    assert!(!selector_matches_file(
        "//path/to/target",
        "./path/elsewhere/FFS"
    ));
}

#[test]
fn child_file_match() {
    assert!(selector_matches_file(
        "//path/to/...",
        "./path/to/some/child/FFS"
    ));
}

#[test]
fn glob_file_match_keeps_to_the_boundary() {
    assert!(selector_matches_file("//path/to/...", "./path/to/FFS"));
    assert!(!selector_matches_file("//path/to/...", "./path/to_elsewhere/FFS"));
    assert!(!selector_matches_file("//path/to/...", "./path/FFS"));
    assert!(!selector_matches_file("//path/to/...", "./FFS"));
}

#[test]
fn wildcard_matches_every_file() {
    assert!(selector_matches_file("*", "./FFS"));
    assert!(selector_matches_file("*", "./path/to/FFS"));
    assert!(selector_matches_file("@tag", "path/FFS"));
}

#[test]
fn poorly_named_sibling() {
    assert!(!selector_matches_file(
        "//path/to_elsewhere/target",
        "./path/to/FFS"
    ));
}

#[test]
fn root_file() {
    assert!(selector_matches_file("//root_target", "./FFS"));
    assert!(selector_matches_file("//root_target", "FFS"));
    assert!(!selector_matches_file("//root_target", "./sub/FFS"));
}

#[test]
fn task_path_() {
    assert_eq!(task_path("./FFS", "task"), "//task");
    assert_eq!(task_path("path/to", "task"), "//path/to/task");
    assert_eq!(task_path("path/to/", "task"), "//path/to/task");
    assert_eq!(task_path("path/to/FFS", "task"), "//path/to/task");
    assert_eq!(task_path("./path/to/FFS", "task"), "//path/to/task");
}

#[test]
fn a_slash_at_the_end_of_a_path_counts_for_nothing() {
    assert_eq!(task_path("a/FFS/", "n"), "//a/n");
    assert_eq!(task_path("./a/FFS/", "n"), "//a/n");
    assert_eq!(task_path("FFS/", "n"), "//n");
    assert_eq!(task_path("a//FFS", "n"), "//a/n");
    assert_eq!(task_path("a/FFS/FFS", "n"), "//a/FFS/n");
}

#[test]
fn task_path_at_the_root() {
    assert_eq!(task_path("", "task"), "//task");
    assert_eq!(task_path(".", "task"), "//task");
    assert_eq!(task_path("./", "task"), "//task");
    assert_eq!(task_path("FFS", "task"), "//task");
    assert_eq!(task_path("path/to/fakeFFS", "task"), "//path/to/fakeFFS/task");
}

#[test]
fn valid_parsing() {
    let cases = ["//target", "//path/to/target", "//allowed/characters_-"];
    for t in cases {
        let parsed = TargetPath::from_str(t);
        assert!(parsed.is_ok(), "{t:?} failed parsing as a target");
        assert_eq!(parsed.unwrap().to_string(), t);
    }
}

#[test]
fn invalid_parsing() {
    let cases = [
        "",
        "/",
        "//",
        "/target",
        "target",
        "//path:other",
        "//path@tag",
        "//trailing/slash/",
        "//empty//dir",
        "///leading",
        "//with space",
    ];
    for t in cases {
        assert!(
            matches!(TargetPath::from_str(t), Err(Error::InvalidFormat)),
            "{t:?} parsed as a target but should have failed"
        );
    }
}

#[test]
fn target_path_name() {
    assert_eq!(TargetPath::from_str("//target").unwrap().name(), "target");
    assert_eq!(
        TargetPath::from_str("//path/to/target").unwrap().name(),
        "target"
    );
}

#[test]
fn target_path_definition() {
    assert_eq!(TargetPath::from_str("//target").unwrap().definition(), "FFS");
    assert_eq!(
        TargetPath::from_str("//path/to/target").unwrap().definition(),
        "path/to/FFS"
    );
}

#[test]
fn target_path_same_and_clone() {
    let a = TargetPath::from_str("//path/to/target").unwrap();
    let b = TargetPath::from_str("//path/to/target").unwrap();
    let c = TargetPath::from_str("//path/to").unwrap();
    let d = TargetPath::from_str("//target").unwrap();
    assert!(a.same(&b));
    assert!(!a.same(&c));
    assert!(!a.same(&d));
    assert!(a.same(&a.clone()));
    assert_eq!(a.clone().to_string(), "//path/to/target");
}

#[test]
fn from_path_name() {
    fn target_path(p: &str, name: &str) -> String {
        TargetPath::from_path_name(p, name).unwrap().to_string()
    }

    assert_eq!(target_path("./FFS", "task"), "//task");
    assert_eq!(target_path("path/to", "task"), "//path/to/task");
    assert_eq!(target_path("path/to/", "task"), "//path/to/task");
    assert_eq!(target_path("path/to/FFS", "task"), "//path/to/task");
    assert_eq!(target_path("./path/to/FFS", "task"), "//path/to/task");
    assert_eq!(
        target_path("./path/to/fakeFFS", "task"),
        "//path/to/fakeFFS/task"
    );
}

#[test]
fn from_path_name_rejects_what_is_no_address() {
    assert!(matches!(
        TargetPath::from_path_name("path/to", "bad name"),
        Err(Error::InvalidFormat)
    ));
    assert!(matches!(
        TargetPath::from_path_name("/abs/FFS", "task"),
        Err(Error::InvalidFormat)
    ));
    assert!(matches!(
        TargetPath::from_path_name("./FFS", ""),
        Err(Error::InvalidFormat)
    ));
}

#[test]
fn valid_parses() {
    let cases = ["//target:output"];
    for t in cases {
        assert!(Output::from_str(t).is_ok(), "{t:?} failed parsing as an output");
    }
}

#[test]
fn invalid_parses() {
    let cases = ["//target@output", "//target:path/bad", "//a:b:c", "target:out", ":out"];
    for t in cases {
        assert!(
            matches!(Output::from_str(t), Err(Error::InvalidFormat)),
            "{t:?} parsed as an output, but should have failed"
        );
    }
}

#[test]
fn provides_various_fields() {
    let output = Output::from_str("//path/to/target:output").unwrap();
    assert_eq!(output.target().to_string(), "//path/to/target");
    assert_eq!(output.name(), "output");
    assert_eq!(output.to_string(), "//path/to/target:output");
}

#[test]
fn missing_name_is_default() {
    let output = Output::from_str("//path/to/target").unwrap();
    assert_eq!(output.target().to_string(), "//path/to/target");
    assert_eq!(output.name(), "default");
    assert_eq!(output.to_string(), "//path/to/target:default");
}

#[test]
fn output_from_parts() {
    let target = TargetPath::from_str("//path/to/target").unwrap();
    let output = Output::new(target, "bin").unwrap();
    assert_eq!(output.to_string(), "//path/to/target:bin");
    let target = TargetPath::from_str("//path/to/target").unwrap();
    assert!(matches!(Output::new(target, "b/in"), Err(Error::InvalidFormat)));
}
