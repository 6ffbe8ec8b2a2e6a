use std::path::Path;
use word_processor::file_system::{
    filter_extensions, has_listed_extension, output_text, read_files, read_lines, SourceFile,
};

fn found(path: &str) -> SourceFile {
    SourceFile {
        path: String::from(path),
        extension: Path::new(path).extension().and_then(|e| e.to_str()).map(String::from),
    }
}

fn paths(files: &Vec<SourceFile>) -> Vec<String> {
    files.iter().map(|f| f.path.clone()).collect()
}

#[test]
fn test_filter_extensions() {
    let files: Vec<SourceFile> = vec!["file.txt", "file.jpeg", "file.lst"]
        .into_iter()
        .map(found)
        .collect();
    let exts = vec!["txt", "lst"];
    let correct: Vec<SourceFile> = vec!["file.txt", "file.lst"]
        .into_iter()
        .map(found)
        .collect();

    let result = filter_extensions(files, exts);

    assert_eq!(paths(&result), paths(&correct));
    assert_eq!(result[0].extension, Some(String::from("txt")));
    assert_eq!(result[1].extension, Some(String::from("lst")));
}

#[test]
fn a_file_without_extension_is_not_admitted() {
    let files = vec![found("README"), found("dir/.hidden"), found("a.txt"), found("b.TXT")];
    let result = filter_extensions(files, vec!["txt"]);
    assert_eq!(paths(&result), vec![String::from("a.txt")]);
    let none = SourceFile { path: String::from("x"), extension: None };
    assert!(!has_listed_extension(&none, &vec!["", "x"]));
}

#[test]
fn no_extension_listed_admits_nothing() {
    let result = filter_extensions(vec![found("a.txt")], Vec::new());
    assert!(result.is_empty());
}

#[test]
fn test_read_lines() {
    let correct = vec!["Hello", "World", "How", "Are", "You?"];
    let content = "Hello\nWorld\nHow\nAre\nYou?\n";

    let results = read_lines(content.lines().map(String::from).collect());

    assert_eq!(results, correct);
}

#[test]
fn test_read_empty_lines() {
    let correct = vec!["Hello", "World", "How", "Are", "You?"];
    let content = "Hello\nWorld\nHow\n\n\nAre\nYou?\n";

    let results = read_lines(content.lines().map(String::from).collect());

    assert_eq!(results, correct);
}

#[test]
fn a_line_of_blanks_is_not_empty() {
    assert_eq!(read_lines(vec![String::from(" "), String::new()]), vec![String::from(" ")]);
    assert_eq!(read_lines(Vec::new()), Vec::<String>::new());
}

#[test]
fn files_are_gathered_in_order() {
    let first: Vec<String> = vec!["4 Hello", ""].into_iter().map(String::from).collect();
    let second: Vec<String> = Vec::new();
    let third: Vec<String> = vec!["World", "", "World"].into_iter().map(String::from).collect();
    let correct: Vec<String> = vec!["4 Hello", "World", "World"]
        .into_iter()
        .map(String::from)
        .collect();
    assert_eq!(read_files(vec![first, second, third]), correct);
    assert_eq!(read_files(Vec::new()), Vec::<String>::new());
}

#[test]
fn test_write_words() {
    let correct = "Hello\nThere\nJorge\n";
    let words: Vec<String> = vec!["Hello", "There", "Jorge"]
        .into_iter()
        .map(String::from)
        .collect();

    let result = output_text(&words);

    assert_eq!(result, correct);
}

#[test]
fn nothing_to_write_is_the_empty_text() {
    assert_eq!(output_text(&Vec::new()), "");
    assert_eq!(output_text(&vec![String::new()]), "\n");
}
