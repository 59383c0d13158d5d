use bible_reader::corpus::{Bible, Testament};
use bible_reader::load::{parse_book_file, parse_line, file_stem, BookFile};
use bible_reader::order::{get_standard_book_order, rank_of, UNKNOWN_RANK};
use bible_reader::text::{contains_substr, parse_u32, str_eq, u32_to_string};

fn book_file(name: &str, lines: &[&str]) -> BookFile {
    BookFile {
        name: name.to_string(),
        lines: lines.iter().map(|l| l.to_string()).collect(),
    }
}

#[test]
fn canonical_order_wins_over_file_order() {
    let old = vec![
        book_file("Exodus.txt", &["1:1 Now these are the names."]),
        book_file("Genesis.txt", &["1:1 In the beginning."]),
    ];
    let bible = Bible::from_directories(&old, &Vec::new());
    let names: Vec<&str> = bible.books.iter().map(|b| b.name.as_str()).collect();
    assert_eq!(names, vec!["Genesis", "Exodus"]);
}

#[test]
fn unknown_names_sort_last_in_file_order() {
    let old = vec![
        book_file("Zebra.txt", &["1:1 a"]),
        book_file("Apple.txt", &["1:1 b"]),
        book_file("Genesis.txt", &["1:1 c"]),
    ];
    let bible = Bible::from_directories(&old, &Vec::new());
    let names: Vec<&str> = bible.books.iter().map(|b| b.name.as_str()).collect();
    assert_eq!(names, vec!["Genesis", "Zebra", "Apple"]);
}

#[test]
fn malformed_line_is_dropped_and_does_not_abort_the_file() {
    let old = vec![book_file(
        "Genesis.txt",
        &["garbage text no colon", "1:1 In the beginning"],
    )];
    let bible = Bible::from_directories(&old, &Vec::new());
    assert_eq!(bible.books.len(), 1);
    let book = &bible.books[0];
    let total: usize = book.chapters.iter().map(|c| c.verses.len()).sum();
    assert_eq!(total, 1);
    let v = bible.get_verse("Genesis", 1, 1).expect("the valid line loads");
    assert_eq!(v.text, "In the beginning");
}

#[test]
fn line_without_space_is_dropped() {
    let old = vec![book_file("Genesis.txt", &["1:1", "1:1 kept"])];
    let bible = Bible::from_directories(&old, &Vec::new());
    let book = &bible.books[0];
    let total: usize = book.chapters.iter().map(|c| c.verses.len()).sum();
    assert_eq!(total, 1);
    assert_eq!(bible.get_verse("Genesis", 1, 1).unwrap().text, "kept");
}

#[test]
fn gap_filling_creates_empty_leading_chapters() {
    let old = vec![book_file("Genesis.txt", &["3:1 Some text"])];
    let bible = Bible::from_directories(&old, &Vec::new());
    let book = &bible.books[0];
    assert_eq!(book.chapters.len(), 3);
    assert_eq!(book.chapters[0].number, 1);
    assert!(book.chapters[0].verses.is_empty());
    assert_eq!(book.chapters[1].number, 2);
    assert!(book.chapters[1].verses.is_empty());
    assert_eq!(book.chapters[2].number, 3);
    assert_eq!(book.chapters[2].verses.len(), 1);
    assert_eq!(book.chapters[2].verses[0].text, "Some text");
}

#[test]
fn chapter_zero_locator_drops_the_verse() {
    let old = vec![book_file("Genesis.txt", &["0:1 dropped", "1:1 kept"])];
    let bible = Bible::from_directories(&old, &Vec::new());
    let book = &bible.books[0];
    let total: usize = book.chapters.iter().map(|c| c.verses.len()).sum();
    assert_eq!(total, 1);
    assert_eq!(bible.get_verse("Genesis", 1, 1).unwrap().text, "kept");
}

#[test]
fn unparseable_locator_numbers_read_as_zero() {
    let lines = vec!["x:abc treated as zero".to_string()];
    let book = parse_book_file(&lines, "Test".to_string(), Testament::Old);
    // chapter 0: the verse is dropped, no chapter grows
    assert!(book.chapters.is_empty());

    let lines = vec!["1:abc verse number zero".to_string()];
    let book = parse_book_file(&lines, "Test".to_string(), Testament::Old);
    assert_eq!(book.chapters.len(), 1);
    assert_eq!(book.chapters[0].verses[0].verse_number, 0);
}

#[test]
fn ds_store_entries_are_skipped() {
    let old = vec![
        book_file(".DS_Store", &["1:1 not a record"]),
        book_file("Genesis.txt", &["1:1 real"]),
    ];
    let bible = Bible::from_directories(&old, &Vec::new());
    assert_eq!(bible.books.len(), 1);
    assert_eq!(bible.books[0].name, "Genesis");
}

#[test]
fn verse_text_keeps_later_spaces_and_colons() {
    let r = parse_line("10:25 and he said: go, and come back 2:1 times");
    let (c, v, text) = r.expect("well-formed record");
    assert_eq!(c, 10);
    assert_eq!(v, 25);
    assert_eq!(text, "and he said: go, and come back 2:1 times");
}

#[test]
fn parse_line_rejects_shapes_outside_the_record_format() {
    assert!(parse_line("no colon here").is_none());
    assert!(parse_line("nospace").is_none());
    assert!(parse_line("").is_none());
}

#[test]
fn parse_u32_exact_values() {
    assert_eq!(parse_u32("0"), 0);
    assert_eq!(parse_u32("42"), 42);
    assert_eq!(parse_u32("+7"), 7);
    assert_eq!(parse_u32("4294967295"), u32::MAX);
    assert_eq!(parse_u32("4294967296"), 0);
    assert_eq!(parse_u32(""), 0);
    assert_eq!(parse_u32("+"), 0);
    assert_eq!(parse_u32("1x"), 0);
    assert_eq!(parse_u32("-1"), 0);
    assert_eq!("42".parse::<u32>().unwrap_or(0), parse_u32("42"));
    assert_eq!("9999999999".parse::<u32>().unwrap_or(0), parse_u32("9999999999"));
}

#[test]
fn file_stem_strips_only_the_last_extension() {
    assert_eq!(file_stem("Genesis.txt"), "Genesis");
    assert_eq!(file_stem("SongofSolomon"), "SongofSolomon");
    assert_eq!(file_stem("a.b.txt"), "a.b");
    assert_eq!(file_stem(".hidden"), ".hidden");
    assert_eq!(file_stem("name."), "name");
}

#[test]
fn standard_book_order_has_66_books_in_place() {
    let order = get_standard_book_order();
    assert_eq!(order.len(), 66);
    assert_eq!(order[0], "Genesis");
    assert_eq!(order[1], "Exodus");
    assert_eq!(order[38], "Malachi");
    assert_eq!(order[39], "Matthew");
    assert_eq!(order[65], "Revelation");
}

#[test]
fn rank_of_known_and_unknown_names() {
    assert_eq!(rank_of("Genesis"), 0);
    assert_eq!(rank_of("Revelation"), 65);
    assert_eq!(rank_of("NotABook"), UNKNOWN_RANK);
    assert_eq!(rank_of("genesis"), UNKNOWN_RANK);
}

#[test]
fn text_helpers_exact_values() {
    assert!(contains_substr("hello world", "lo wo"));
    assert!(!contains_substr("hello", "world"));
    assert!(contains_substr("anything", ""));
    assert!(str_eq("same", "same"));
    assert!(!str_eq("same", "same "));
    assert_eq!(u32_to_string(0), "0");
    assert_eq!(u32_to_string(105), "105");
    assert_eq!(u32_to_string(u32::MAX), "4294967295");
}
