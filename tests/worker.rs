use seroost::index::Index;
use seroost::worker::{format_for_extension, screen_file, FileAction, Format};

#[test]
fn oversized_file_is_skipped() {
    assert_eq!(screen_file("/d/big.txt", Some(101), 100), FileAction::TooLarge);
    assert_eq!(screen_file("/d/big.txt", Some(100), 100), FileAction::Extract(Format::Text));
    assert_eq!(screen_file("/d/big.zip", Some(u64::MAX), 100), FileAction::TooLarge);
}

#[test]
fn unknown_size_is_still_read() {
    assert_eq!(screen_file("/d/a.pdf", None, 0), FileAction::Extract(Format::Pdf));
}

#[test]
fn extension_picks_the_collaborator() {
    assert_eq!(screen_file("a.xml", Some(1), 10), FileAction::Extract(Format::Xml));
    assert_eq!(screen_file("a.xhtml", Some(1), 10), FileAction::Extract(Format::Xml));
    assert_eq!(screen_file("a.htm", Some(1), 10), FileAction::Extract(Format::Html));
    assert_eq!(screen_file("src/main.rs", Some(1), 10), FileAction::Extract(Format::Code));
    assert_eq!(screen_file("x.kt", Some(1), 10), FileAction::Extract(Format::Code));
}

#[test]
fn extension_is_compared_in_lower_case() {
    assert_eq!(screen_file("/d/REPORT.PDF", Some(1), 10), FileAction::Extract(Format::Pdf));
    assert_eq!(screen_file("/d/Page.Html", Some(1), 10), FileAction::Extract(Format::Html));
}

#[test]
fn unknown_or_missing_extension_is_skipped() {
    assert_eq!(screen_file("/d/Makefile", Some(1), 10), FileAction::UnknownExtension);
    assert_eq!(screen_file("/d/.bashrc", Some(1), 10), FileAction::UnknownExtension);
    assert_eq!(screen_file("/d/image.png", Some(1), 10), FileAction::UnknownExtension);
}

#[test]
fn format_table() {
    assert_eq!(format_for_extension(&"txt".to_string()), Some(Format::Text));
    assert_eq!(format_for_extension(&"html".to_string()), Some(Format::Html));
    assert_eq!(format_for_extension(&"swift".to_string()), Some(Format::Code));
    assert_eq!(format_for_extension(&"TXT".to_string()), None);
    assert_eq!(format_for_extension(&"".to_string()), None);
}

#[test]
fn oversized_file_never_reaches_the_index() {
    let files = [
        ("small.txt", 10u64, "small words"),
        ("huge.txt", 5_000, "huge words"),
        ("mid.txt", 100, "mid"),
    ];
    let mut index = Index::new();
    for (path, size, text) in files.iter() {
        if let FileAction::Extract(_) = screen_file(path, Some(*size), 100) {
            let content: Vec<char> = text.chars().collect();
            index.add_document(path.to_string(), &content);
        }
    }
    assert_eq!(index.len(), 2);
    assert!(index.get(&"huge.txt".to_string()).is_none());
    assert!(index.get(&"small.txt".to_string()).is_some());
    assert!(index.get(&"mid.txt".to_string()).is_some());
}
