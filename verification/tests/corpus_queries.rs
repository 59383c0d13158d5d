use bible_reader::corpus::{Bible, Testament};
use bible_reader::load::BookFile;

fn book_file(name: &str, lines: &[&str]) -> BookFile {
    BookFile {
        name: name.to_string(),
        lines: lines.iter().map(|l| l.to_string()).collect(),
    }
}

fn sample_bible() -> Bible {
    let old = vec![
        book_file(
            "Genesis.txt",
            &[
                "1:1 In the beginning God created the heaven and the earth.",
                "1:2 And the earth was without form, and void.",
                "2:1 Thus the heavens and the earth were finished.",
            ],
        ),
        book_file("Exodus.txt", &["1:1 Now these are the names."]),
    ];
    let new = vec![book_file(
        "Matthew.txt",
        &["1:1 The book of the generation of Jesus Christ."],
    )];
    Bible::from_directories(&old, &new)
}

#[test]
fn get_verse_finds_exact_verse() {
    let bible = sample_bible();
    let v = bible.get_verse("Genesis", 1, 2).expect("verse should exist");
    assert_eq!(v.book, "Genesis");
    assert_eq!(v.chapter, 1);
    assert_eq!(v.verse_number, 2);
    assert_eq!(v.text, "And the earth was without form, and void.");
}

#[test]
fn get_verse_on_empty_corpus_is_not_found() {
    let bible = Bible::from_directories(&Vec::new(), &Vec::new());
    assert!(bible.get_verse("Genesis", 1, 1).is_none());
}

#[test]
fn get_verse_missing_levels_are_not_found() {
    let bible = sample_bible();
    assert!(bible.get_verse("Ezra", 1, 1).is_none());
    assert!(bible.get_verse("Genesis", 9, 1).is_none());
    assert!(bible.get_verse("Genesis", 1, 9).is_none());
}

#[test]
fn get_chapter_returns_whole_chapter() {
    let bible = sample_bible();
    let ch = bible.get_chapter("Genesis", 1).expect("chapter should exist");
    assert_eq!(ch.number, 1);
    assert_eq!(ch.verses.len(), 2);
    assert_eq!(ch.verses[0].verse_number, 1);
    assert_eq!(ch.verses[1].verse_number, 2);
}

#[test]
fn get_chapter_covers_every_number_up_to_count() {
    let bible = sample_bible();
    let genesis = bible
        .books
        .iter()
        .find(|b| b.name == "Genesis")
        .expect("Genesis should be loaded");
    let count = genesis.chapters.len() as u32;
    assert_eq!(count, 2);
    for c in 1..=count {
        let ch = bible.get_chapter("Genesis", c).expect("in-range chapter");
        assert_eq!(ch.number, c);
    }
}

#[test]
fn search_is_case_insensitive_both_ways() {
    let bible = sample_bible();
    let hits = bible.search("BEGINNING");
    assert_eq!(hits.len(), 1);
    assert_eq!(hits[0].book, "Genesis");
    assert_eq!(hits[0].chapter, 1);
    assert_eq!(hits[0].verse_number, 1);

    let hits = bible.search("jesus christ");
    assert_eq!(hits.len(), 1);
    assert_eq!(hits[0].book, "Matthew");
}

#[test]
fn search_results_all_contain_query_and_nothing_is_missed() {
    let bible = sample_bible();
    let q = "the";
    let hits = bible.search(q);
    for v in &hits {
        assert!(v.text.to_lowercase().contains(&q.to_lowercase()));
    }
    let mut expected: usize = 0;
    for book in &bible.books {
        for chapter in &book.chapters {
            for verse in &chapter.verses {
                if verse.text.to_lowercase().contains(&q.to_lowercase()) {
                    expected += 1;
                }
            }
        }
    }
    assert_eq!(hits.len(), expected);
}

#[test]
fn search_empty_query_returns_every_verse_in_order() {
    let bible = sample_bible();
    let hits = bible.search("");
    assert_eq!(hits.len(), 5);
    assert_eq!(hits[0].book, "Genesis");
    assert_eq!((hits[0].chapter, hits[0].verse_number), (1, 1));
    assert_eq!((hits[1].chapter, hits[1].verse_number), (1, 2));
    assert_eq!((hits[2].chapter, hits[2].verse_number), (2, 1));
    assert_eq!(hits[3].book, "Exodus");
    assert_eq!(hits[4].book, "Matthew");
}

#[test]
fn search_finds_nothing_for_absent_text() {
    let bible = sample_bible();
    assert!(bible.search("zzzz").is_empty());
}

#[test]
fn duplicate_book_names_resolve_to_first_match() {
    let old = vec![
        book_file("Twice.txt", &["1:1 first copy"]),
        book_file("Twice.txt", &["1:1 second copy"]),
    ];
    let bible = Bible::from_directories(&old, &Vec::new());
    assert_eq!(bible.books.len(), 2);
    let v = bible.get_verse("Twice", 1, 1).expect("verse should exist");
    assert_eq!(v.text, "first copy");
}

#[test]
fn duplicate_verse_numbers_resolve_to_first_match() {
    let old = vec![book_file(
        "Genesis.txt",
        &["1:5 first five", "1:5 second five"],
    )];
    let bible = Bible::from_directories(&old, &Vec::new());
    let ch = bible.get_chapter("Genesis", 1).unwrap();
    assert_eq!(ch.verses.len(), 2);
    let v = bible.get_verse("Genesis", 1, 5).expect("verse should exist");
    assert_eq!(v.text, "first five");
}

#[test]
fn testament_tags_follow_the_division() {
    let bible = sample_bible();
    let genesis = bible.books.iter().find(|b| b.name == "Genesis").unwrap();
    let matthew = bible.books.iter().find(|b| b.name == "Matthew").unwrap();
    assert_eq!(genesis.testament, Testament::Old);
    assert_eq!(matthew.testament, Testament::New);
}
