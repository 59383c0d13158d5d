use bible_reader::corpus::Bible;
use bible_reader::load::BookFile;
use bible_reader::reader::BibleApp;

fn book_file(name: &str, lines: &[&str]) -> BookFile {
    BookFile {
        name: name.to_string(),
        lines: lines.iter().map(|l| l.to_string()).collect(),
    }
}

#[test]
fn new_reader_opens_on_the_first_book() {
    let old = vec![book_file(
        "Genesis.txt",
        &["1:1 In the beginning", "1:2 And the earth"],
    )];
    let bible = Bible::from_directories(&old, &Vec::new());
    let app = BibleApp::new(bible);
    assert_eq!(app.selected_book, "Genesis");
    assert_eq!(app.selected_chapter, 1);
    assert_eq!(app.current_chapter_verses.len(), 2);
    assert_eq!(app.chapter_text, "1 In the beginning\n\n2 And the earth\n\n");
    assert!(app.search_query.is_empty());
    assert!(app.search_results.is_empty());
    assert!(app.navigate_to.is_none());
}

#[test]
fn new_reader_on_empty_corpus_defaults_to_genesis() {
    let bible = Bible::from_directories(&Vec::new(), &Vec::new());
    let app = BibleApp::new(bible);
    assert_eq!(app.selected_book, "Genesis");
    assert_eq!(app.selected_chapter, 1);
    assert!(app.current_chapter_verses.is_empty());
    assert!(app.chapter_text.is_empty());
}

#[test]
fn update_chapter_display_renders_the_selection() {
    let old = vec![book_file(
        "Genesis.txt",
        &["1:1 first", "2:1 second chapter opens"],
    )];
    let bible = Bible::from_directories(&old, &Vec::new());
    let mut app = BibleApp::new(bible);
    app.selected_chapter = 2;
    app.update_chapter_display();
    assert_eq!(app.current_chapter_verses.len(), 1);
    assert_eq!(app.chapter_text, "1 second chapter opens\n\n");
}

#[test]
fn update_chapter_display_reports_a_missing_chapter() {
    let old = vec![book_file("Genesis.txt", &["1:1 first"])];
    let bible = Bible::from_directories(&old, &Vec::new());
    let mut app = BibleApp::new(bible);
    app.selected_chapter = 7;
    app.update_chapter_display();
    assert!(app.current_chapter_verses.is_empty());
    assert_eq!(app.chapter_text, "Chapter not found");
}
