use ffs::command::Command;
use ffs::error::Error;
use ffs::outputs::OutputTable;
use ffs::target::output::Output;

fn target_strings(c: &Command) -> Vec<String> {
    c.targets().iter().map(|t| t.to_string()).collect()
}

fn map(entries: &[(&str, &str)]) -> OutputTable {
    let mut table = OutputTable::new();
    for (out, path) in entries {
        table.insert(&Output::from_str(out).unwrap(), Some(path.to_string()));
    }
    table
}

#[test]
fn simple_command() {
    let c = Command::from_str("echo 'foo'");

    assert_eq!(target_strings(&c), Vec::<String>::new());
    assert_eq!(c.as_sh(&map(&[])).unwrap(), "echo 'foo'");
}

#[test]
fn output_as_arg() {
    let c = Command::from_str("cat //path/to/target:output");

    assert_eq!(target_strings(&c), &["//path/to/target"]);
    assert_eq!(
        c.as_sh(&map(&[("//path/to/target:output", "path/to/file")]))
            .unwrap(),
        "cat path/to/file",
    );
}

#[test]
fn output_as_command() {
    let c = Command::from_str("//path/to/target:cmd arg1 arg2");

    assert_eq!(target_strings(&c), &["//path/to/target"]);
    assert_eq!(
        c.as_sh(&map(&[("//path/to/target:cmd", "path/to/file")]))
            .unwrap(),
        "path/to/file arg1 arg2",
    );
}

#[test]
fn multiple_lines() {
    let c = Command::from_str("echo foo\n//some/target bar");

    assert_eq!(
        c.as_sh(&map(&[("//some/target", "some/target")])).unwrap(),
        "echo foo\nsome/target bar",
    );
}

#[test]
fn bare_reference_means_the_default_slot() {
    let c = Command::from_str("run //some/target");
    let table = map(&[("//some/target:default", "out/bin")]);
    assert_eq!(c.as_sh(&table).unwrap(), "run out/bin");
}

#[test]
fn missing_output_names_the_first_unresolved_reference() {
    let c = Command::from_str("cat //a/one //b/two:x //c/three");
    let table = map(&[("//a/one", "1")]);
    match c.as_sh(&table) {
        Err(Error::MissingOutput(o)) => assert_eq!(o.to_string(), "//b/two:x"),
        other => panic!("expected a missing output, got {other:?}"),
    }
}

#[test]
fn path_that_is_no_text_cannot_be_rendered() {
    let c = Command::from_str("cat //a/one");
    let mut table = OutputTable::new();
    table.insert(&Output::from_str("//a/one").unwrap(), None);
    match c.as_sh(&table) {
        Err(Error::NonUtf8Path(o)) => assert_eq!(o.to_string(), "//a/one:default"),
        other => panic!("expected a path that is no text, got {other:?}"),
    }
}

#[test]
fn a_command_is_written_as_it_was_read() {
    for text in [
        "",
        " ",
        "echo 'foo'",
        "cat //path/to/target:output",
        "//a //a:default //a:b\n",
        "  echo   a\n\n\tb //x/y  \n //x/y:z\n",
    ] {
        assert_eq!(Command::from_str(text).to_string(), text);
    }
}

#[test]
fn spacing_survives_rendering() {
    let text = "  echo   a\n\n\tb //x/y  \n //x/y:z\n";
    let c = Command::from_str(text);
    let table = map(&[("//x/y", "//x/y"), ("//x/y:z", "//x/y:z")]);
    assert_eq!(c.as_sh(&table).unwrap(), text);
}

#[test]
fn words_that_only_look_like_references_stay_literal() {
    let text = "ls //no.t a//target //bad//seg //trailing/ /single //a:b:c //";
    let c = Command::from_str(text);
    assert_eq!(target_strings(&c), Vec::<String>::new());
    assert_eq!(c.as_sh(&map(&[])).unwrap(), text);
}

#[test]
fn targets_are_listed_once_in_order_of_first_use() {
    let c = Command::from_str("//b/t:one //a/t //b/t:two //a/t:x");
    assert_eq!(target_strings(&c), &["//b/t", "//a/t"]);
}

#[test]
fn table_replaces_and_keeps() {
    let mut table = OutputTable::new();
    let a = Output::from_str("//a/t").unwrap();
    let b = Output::from_str("//a/t:other").unwrap();
    assert!(!table.contains(&a));
    table.insert(&a, Some("first".to_string()));
    table.insert(&b, Some("second".to_string()));
    table.insert(&a, Some("third".to_string()));
    assert_eq!(table.get(&a), Some(Some("third".to_string())));
    assert_eq!(table.get(&b), Some(Some("second".to_string())));
    assert!(table.contains(&b));
}

#[test]
fn every_kind_of_break_ends_a_word() {
    for text in ["cat\t//a/b", "cat\r//a/b", "cat\n//a/b", "cat //a/b", "\t//a/b\r\n"] {
        let c = Command::from_str(text);
        assert_eq!(target_strings(&c), &["//a/b"], "in {text:?}");
        assert_eq!(c.to_string(), text);
        let rendered = c.as_sh(&map(&[("//a/b", "X")])).unwrap();
        assert_eq!(rendered, text.replace("//a/b", "X"));
    }
    let c = Command::from_str("cat\u{a0}//a/b");
    assert_eq!(target_strings(&c), Vec::<String>::new());
}
