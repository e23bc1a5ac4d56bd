use mv_with::diag::Diagnostic;
use mv_with::listing::FileList;

fn bytes(s: &str) -> Vec<u8> {
    s.as_bytes().to_vec()
}

#[test]
fn parse_text_trims_and_numbers_lines() {
    let text = bytes("a.txt\n  b.txt \n\nc.txt");
    let list = FileList::parse_text(&text).unwrap();
    assert_eq!(list.entries.len(), 3);
    assert_eq!(list.entries[0].path, bytes("a.txt"));
    assert_eq!(list.entries[0].line, 1);
    assert_eq!(list.entries[1].path, bytes("b.txt"));
    assert_eq!(list.entries[1].line, 2);
    assert_eq!(list.entries[2].path, bytes("c.txt"));
    assert_eq!(list.entries[2].line, 4);
}

#[test]
fn parse_text_empty_is_empty_input() {
    let text = bytes("");
    match FileList::parse_text(&text) {
        Err(Diagnostic::EmptyInput) => {}
        _ => panic!("expected EmptyInput"),
    }
}

#[test]
fn parse_text_blank_lines_only_is_empty_input() {
    let text = bytes(" \n\t\n\r\n");
    match FileList::parse_text(&text) {
        Err(Diagnostic::EmptyInput) => {}
        _ => panic!("expected EmptyInput"),
    }
}

#[test]
fn from_paths_empty_walk_is_empty_input() {
    let paths: Vec<Vec<u8>> = Vec::new();
    match FileList::from_paths(&paths) {
        Err(Diagnostic::EmptyInput) => {}
        _ => panic!("expected EmptyInput"),
    }
}

#[test]
fn from_paths_keeps_order_and_positions() {
    let paths = vec![bytes("x"), bytes(""), bytes(" y ")];
    let list = FileList::from_paths(&paths).unwrap();
    assert_eq!(list.entries.len(), 2);
    assert_eq!(list.entries[0].path, bytes("x"));
    assert_eq!(list.entries[0].line, 1);
    assert_eq!(list.entries[1].path, bytes("y"));
    assert_eq!(list.entries[1].line, 3);
}

#[test]
fn as_text_renders_one_path_per_line() {
    let text = bytes("a\nb\n");
    let list = FileList::parse_text(&text).unwrap();
    assert_eq!(list.as_text(), bytes("a\nb\n"));
}

#[test]
fn parse_text_handles_carriage_returns() {
    let text = bytes("a.txt\r\nb.txt\r\n");
    let list = FileList::parse_text(&text).unwrap();
    assert_eq!(list.entries.len(), 2);
    assert_eq!(list.entries[0].path, bytes("a.txt"));
    assert_eq!(list.entries[1].path, bytes("b.txt"));
    assert_eq!(list.entries[1].line, 2);
}

#[test]
fn parse_text_last_line_without_newline() {
    let text = bytes("only");
    let list = FileList::parse_text(&text).unwrap();
    assert_eq!(list.entries.len(), 1);
    assert_eq!(list.entries[0].path, bytes("only"));
    assert_eq!(list.entries[0].line, 1);
}

#[test]
fn as_text_then_parse_gives_same_paths() {
    let paths = vec![bytes("d/e.txt"), bytes("f.txt")];
    let list = FileList::from_paths(&paths).unwrap();
    let reread = FileList::parse_text(&list.as_text()).unwrap();
    assert_eq!(reread.entries.len(), 2);
    assert_eq!(reread.entries[0].path, bytes("d/e.txt"));
    assert_eq!(reread.entries[1].path, bytes("f.txt"));
}

#[test]
fn confirm_reports_first_missing_with_line() {
    let text = bytes("bar.txt\nfoo.txt");
    let list = FileList::parse_text(&text).unwrap();
    let exists = vec![true, false];
    match list.confirm_files_exist(&exists) {
        Err(Diagnostic::MissingPath { path, line }) => {
            assert_eq!(path, bytes("foo.txt"));
            assert_eq!(line, 2);
        }
        _ => panic!("expected MissingPath"),
    }
}

#[test]
fn confirm_succeeds_when_all_exist() {
    let text = bytes("bar.txt\nfoo.txt");
    let list = FileList::parse_text(&text).unwrap();
    let exists = vec![true, true];
    assert!(list.confirm_files_exist(&exists).is_ok());
}
