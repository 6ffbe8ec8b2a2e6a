use word_processor::file_system::{filter_extensions, output_text, read_files, SourceFile};
use word_processor::pipeline::{run, Stage};

fn strings(items: Vec<&str>) -> Vec<String> {
    items.into_iter().map(String::from).collect()
}

#[test]
fn no_stage_changes_nothing() {
    let words = strings(vec![" b", "a ", " b"]);
    assert_eq!(run(&Vec::new(), words.clone()), words);
}

#[test]
fn each_stage_works_on_what_the_one_before_returned() {
    let stages = vec![
        Stage::Trim,
        Stage::RemoveCounts,
        Stage::Deduplicate,
        Stage::Lengths { min: 0, max: 50 },
    ];
    let lines = strings(vec!["4 Hello", "World", "World"]);
    assert_eq!(run(&stages, lines), strings(vec!["Hello", "World"]));
}

#[test]
fn the_order_of_the_stages_matters() {
    let words = strings(vec![" x", "x"]);
    let trim_first = vec![Stage::Trim, Stage::Deduplicate];
    let trim_last = vec![Stage::Deduplicate, Stage::Trim];
    assert_eq!(run(&trim_first, words.clone()), strings(vec!["x"]));
    assert_eq!(run(&trim_last, words), strings(vec!["x", "x"]));
}

#[test]
fn a_stage_may_be_repeated() {
    let stages = vec![
        Stage::Prefix(String::from("1 ")),
        Stage::Prefix(String::from("2 ")),
        Stage::RemoveCounts,
        Stage::RemoveCounts,
    ];
    assert_eq!(run(&stages, strings(vec!["a", "b"])), strings(vec!["a", "b"]));
    let twice = vec![Stage::Trim, Stage::Trim];
    assert_eq!(run(&twice, strings(vec!["  a \n"])), strings(vec!["a"]));
}

#[test]
fn every_stage_applies_its_transform() {
    let words = strings(vec!["b1", "a", " c ", "a", ""]);
    assert_eq!(Stage::Trim.apply(words.clone()), strings(vec!["b1", "a", "c", "a", ""]));
    assert_eq!(Stage::RemoveCounts.apply(strings(vec!["3 a", "a"])), strings(vec!["a", "a"]));
    assert_eq!(Stage::Deduplicate.apply(words.clone()), strings(vec!["", " c ", "a", "b1"]));
    let lengths = Stage::Lengths { min: 1, max: 2 };
    assert_eq!(lengths.apply(words.clone()), strings(vec!["b1", "a", "a"]));
    assert_eq!(Stage::LettersOnly.apply(words.clone()), strings(vec!["a", "a", ""]));
    assert_eq!(Stage::WithSymbol.apply(words.clone()), strings(vec!["b1", " c "]));
    let lead = Stage::Prefix(String::from("x"));
    assert_eq!(lead.apply(strings(vec!["a", ""])), strings(vec!["xa", "x"]));
}

#[test]
fn only_deduplicating_reorders() {
    assert!(Stage::Trim.preserves_order());
    assert!(Stage::RemoveCounts.preserves_order());
    assert!(Stage::Lengths { min: 0, max: 1 }.preserves_order());
    assert!(Stage::LettersOnly.preserves_order());
    assert!(Stage::WithSymbol.preserves_order());
    assert!(Stage::Prefix(String::new()).preserves_order());
    assert!(!Stage::Deduplicate.preserves_order());
}

#[test]
fn from_files_to_output_text() {
    let found = vec![
        (SourceFile { path: String::from("a.txt"), extension: Some(String::from("txt")) }, "4 Hello\n"),
        (SourceFile { path: String::from("b.lst"), extension: Some(String::from("lst")) }, "World\nWorld\n"),
        (SourceFile { path: String::from("c.jpeg"), extension: Some(String::from("jpeg")) }, "Noise\n"),
    ];
    let files: Vec<SourceFile> = found.iter().map(|f| f.0.clone()).collect();
    let admitted = filter_extensions(files, vec!["txt", "lst"]);
    assert_eq!(admitted.len(), 2);
    let contents: Vec<Vec<String>> = admitted
        .iter()
        .map(|file| {
            let text = found.iter().find(|f| f.0.path == file.path).unwrap().1;
            text.split('\n').map(String::from).collect()
        })
        .collect();
    let lines = read_files(contents);
    assert_eq!(lines, strings(vec!["4 Hello", "World", "World"]));
    let stages = vec![
        Stage::Trim,
        Stage::RemoveCounts,
        Stage::Deduplicate,
        Stage::Lengths { min: 0, max: 50 },
    ];
    let words = run(&stages, lines);
    assert_eq!(output_text(&words), "Hello\nWorld\n");
}
