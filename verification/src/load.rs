//! The corpus loader: turning the lines of one source file into a book, and
//! assembling and ordering the books of both divisions.
//!
//! A record line has the shape `<chapter>:<verse> <text>`.  A line without a
//! space, or whose first token has no colon, contributes nothing.  A locator
//! component that is not a valid number reads as 0; a chapter locator of 0
//! addresses no chapter, and such a verse is dropped.
use vstd::prelude::*;
use vstd::string::StrSliceExecFns;
use crate::text::{find_char, spec_parse_u32, split_first, parse_u32, str_eq};
use crate::corpus::{
    Bible,
    Book,
    BookView,
    Chapter,
    ChapterView,
    Testament,
    Verse,
    VerseView,
    books_view,
    chapters_view,
    verses_view,
};
use crate::order::{is_stable_ordering, sort_books};

verus! {

/// What one line contributes: chapter number, verse number and text, or
/// nothing for a line outside the record shape.
pub open spec fn spec_parse_line(line: Seq<char>) -> Option<(u32, u32, Seq<char>)> {
    let sp = find_char(line, ' ');
    if sp < 0 {
        None
    } else {
        let locator = line.subrange(0, sp);
        let text = line.subrange(sp + 1, line.len() as int);
        let co = find_char(locator, ':');
        if co < 0 {
            None
        } else {
            Some(
                (
                    spec_parse_u32(locator.subrange(0, co)),
                    spec_parse_u32(locator.subrange(co + 1, locator.len() as int)),
                    text,
                ),
            )
        }
    }
}

/// Reads one record line; `None` for a line outside the record shape.
pub fn parse_line(line: &str) -> (r: Option<(u32, u32, String)>)
    ensures
        match r {
            Some(t) => spec_parse_line(line@) == Some((t.0, t.1, t.2@)),
            None => spec_parse_line(line@) is None,
        },
{
    match split_first(line, ' ') {
        None => None,
        Some((locator, text)) => {
            match split_first(locator, ':') {
                None => None,
                Some((chapter_str, verse_str)) => {
                    proof {
                        let sp = find_char(line@, ' ');
                        let co = find_char(locator@, ':');
                        assert(locator@.subrange(0, co) =~= line@.subrange(0, sp).subrange(0, co));
                        assert(locator@.subrange(co + 1, locator@.len() as int) =~= line@.subrange(
                            0,
                            sp,
                        ).subrange(co + 1, line@.subrange(0, sp).len() as int));
                    }
                    let chapter_num = parse_u32(chapter_str);
                    let verse_num = parse_u32(verse_str);
                    Some((chapter_num, verse_num, text.to_owned()))
                },
            }
        },
    }
}

/// Appends empty chapters, numbered on from the present count, until at
/// least `target` chapters stand.
pub open spec fn grow_chapters(chapters: Seq<ChapterView>, target: int) -> Seq<ChapterView>
    decreases target - chapters.len(),
{
    if chapters.len() >= target {
        chapters
    } else {
        grow_chapters(
            chapters.push(
                ChapterView { number: (chapters.len() + 1) as u32, verses: Seq::empty() },
            ),
            target,
        )
    }
}

/// The book after one line: unchanged for a dropped line, otherwise grown to
/// the chapter the locator names, with the verse appended there.
pub open spec fn spec_apply_line(book: BookView, line: Seq<char>) -> BookView {
    match spec_parse_line(line) {
        None => book,
        Some((c, v, text)) => {
            if c == 0 {
                book
            } else {
                let grown = grow_chapters(book.chapters, c as int);
                let ch = grown[c - 1];
                let verse = VerseView { book: book.name, chapter: c, verse_number: v, text };
                BookView {
                    name: book.name,
                    testament: book.testament,
                    chapters: grown.update(
                        c - 1,
                        ChapterView { number: ch.number, verses: ch.verses.push(verse) },
                    ),
                }
            }
        },
    }
}

/// The book a file's lines build up, line by line from the first.
pub open spec fn spec_parse_book(lines: Seq<Seq<char>>, name: Seq<char>, t: Testament) -> BookView
    decreases lines.len(),
{
    if lines.len() == 0 {
        BookView { name, testament: t, chapters: Seq::empty() }
    } else {
        spec_apply_line(spec_parse_book(lines.drop_last(), name, t), lines.last())
    }
}

pub open spec fn lines_view(lines: Seq<String>) -> Seq<Seq<char>> {
    lines.map_values(|l: String| l@)
}

/// Builds one book from the lines of its source file.  Lines outside the
/// record shape contribute nothing; a chapter locator of 0 drops its verse.
pub fn parse_book_file(lines: &Vec<String>, book_name: String, testament: Testament) -> (book: Book)
    ensures
        book@ == spec_parse_book(lines_view(lines@), book_name@, testament),
{
    let ghost lview = lines_view(lines@);
    let ghost name0 = book_name@;
    let mut book = Book { name: book_name, testament, chapters: Vec::new() };
    proof {
        assert(chapters_view(book.chapters@) =~= Seq::<ChapterView>::empty());
        assert(lview.take(0) =~= Seq::<Seq<char>>::empty());
    }
    let n = lines.len();
    let mut i: usize = 0;
    while i < n
        invariant
            i <= n,
            n == lines.len(),
            lview == lines_view(lines@),
            book@ == spec_parse_book(lview.take(i as int), name0, testament),
            book.name@ == name0,
            book.testament == testament,
        decreases n - i,
    {
        let ghost prev = book@;
        proof {
            assert(lview.take(i + 1).drop_last() =~= lview.take(i as int));
            assert(lview.take(i + 1).last() == lview[i as int]);
            assert(spec_parse_book(lview.take(i + 1), name0, testament) == spec_apply_line(
                prev,
                lview[i as int],
            ));
        }
        match parse_line(lines[i].as_str()) {
            None => {},
            Some((chapter_num, verse_num, text)) => {
                if chapter_num != 0 {
                    let ghost grown = grow_chapters(prev.chapters, chapter_num as int);
                    while book.chapters.len() < chapter_num as usize
                        invariant
                            chapter_num >= 1,
                            chapter_num as usize == chapter_num as int,
                            book.name@ == prev.name,
                            book.testament == prev.testament,
                            grown == grow_chapters(prev.chapters, chapter_num as int),
                            grow_chapters(chapters_view(book.chapters@), chapter_num as int)
                                == grown,
                        decreases chapter_num as int - book.chapters.len(),
                    {
                        let ghost cv = chapters_view(book.chapters@);
                        let num = (book.chapters.len() + 1) as u32;
                        let fresh = Chapter { number: num, verses: Vec::new() };
                        proof {
                            assert(fresh@.verses =~= Seq::<VerseView>::empty());
                        }
                        book.chapters.push(fresh);
                        proof {
                            assert(chapters_view(book.chapters@) =~= cv.push(
                                ChapterView { number: (cv.len() + 1) as u32, verses: Seq::empty() },
                            ));
                        }
                    }
                    let ghost cv = chapters_view(book.chapters@);
                    proof {
                        assert(cv == grown);
                        assert(cv.len() >= chapter_num as int);
                    }
                    let idx = (chapter_num as usize) - 1;
                    let mut ch = book.chapters.remove(idx);
                    let ghost chv = ch@;
                    let verse = Verse {
                        book: book.name.clone(),
                        chapter: chapter_num,
                        verse_number: verse_num,
                        text,
                    };
                    let ghost vv = VerseView {
                        book: prev.name,
                        chapter: chapter_num,
                        verse_number: verse_num,
                        text: verse.text@,
                    };
                    proof {
                        assert(verse@ == vv);
                    }
                    ch.verses.push(verse);
                    proof {
                        assert(verses_view(ch.verses@) =~= chv.verses.push(vv));
                        assert(ch@ == ChapterView { number: chv.number, verses: chv.verses.push(vv) });
                    }
                    book.chapters.insert(idx, ch);
                    proof {
                        assert(chapters_view(book.chapters@) =~= grown.update(
                            chapter_num - 1,
                            ChapterView { number: chv.number, verses: chv.verses.push(vv) },
                        ));
                        assert(book@ == spec_apply_line(prev, lview[i as int]));
                    }
                }
            },
        }
        i += 1;
    }
    proof {
        assert(lview.take(n as int) =~= lview);
    }
    book
}

/// Index of the last '.' in `s`, or -1 when none occurs.
pub open spec fn last_dot(s: Seq<char>) -> int
    decreases s.len(),
{
    if s.len() == 0 {
        -1
    } else if s.last() == '.' {
        s.len() - 1
    } else {
        last_dot(s.drop_last())
    }
}

/// A file name with its extension stripped, as `Path::file_stem` strips it:
/// everything before the last '.', unless that dot leads the name or none
/// occurs.
pub open spec fn strip_extension(name: Seq<char>) -> Seq<char> {
    let d = last_dot(name);
    if d <= 0 {
        name
    } else {
        name.subrange(0, d)
    }
}

proof fn lemma_last_dot_at(s: Seq<char>, i: int)
    requires
        -1 <= i < s.len() || i == -1,
        i >= 0 ==> i < s.len() && s[i] == '.',
        forall|j: int| i < j < s.len() ==> s[j] != '.',
    ensures
        last_dot(s) == i,
    decreases s.len(),
{
    if s.len() == 0 {
    } else if s.last() == '.' {
        assert(i == s.len() - 1);
    } else {
        assert(i < s.len() - 1);
        assert(forall|j: int| i < j < s.len() - 1 ==> s.drop_last()[j] == s[j]);
        lemma_last_dot_at(s.drop_last(), i);
    }
}

/// The work's name read off its file name, extension stripped.
pub fn file_stem<'a>(name: &'a str) -> (r: &'a str)
    ensures
        r@ == strip_extension(name@),
{
    let len = name.unicode_len();
    let mut i: usize = len;
    while i > 0
        invariant
            i <= len,
            len == name@.len(),
            forall|j: int| i <= j < len ==> name@[j] != '.',
        decreases i,
    {
        if name.get_char(i - 1) == '.' {
            proof {
                lemma_last_dot_at(name@, i - 1);
            }
            if i - 1 == 0 {
                return name;
            }
            return name.substring_char(0, i - 1);
        }
        i -= 1;
    }
    proof {
        lemma_last_dot_at(name@, -1);
    }
    name
}

/// One source file as the loader receives it: the raw file name and the
/// file's lines.
pub struct BookFile {
    pub name: String,
    pub lines: Vec<String>,
}

/// Mathematical image of a `BookFile`.
pub struct BookFileView {
    pub name: Seq<char>,
    pub lines: Seq<Seq<char>>,
}

impl View for BookFile {
    type V = BookFileView;

    open spec fn view(&self) -> BookFileView {
        BookFileView { name: self.name@, lines: lines_view(self.lines@) }
    }
}

pub open spec fn files_view(files: Seq<BookFile>) -> Seq<BookFileView> {
    files.map_values(|f: BookFile| f@)
}

/// The books one division's files contribute, in file order, the
/// filesystem bookkeeping artifact skipped by exact name.
pub open spec fn spec_load_division(files: Seq<BookFileView>, t: Testament) -> Seq<BookView>
    decreases files.len(),
{
    if files.len() == 0 {
        Seq::empty()
    } else {
        let rest = spec_load_division(files.drop_last(), t);
        let f = files.last();
        if f.name == ".DS_Store"@ {
            rest
        } else {
            rest.push(spec_parse_book(f.lines, strip_extension(f.name), t))
        }
    }
}

/// Parses one division's files and appends the books to `bible`, in file
/// order, skipping the entry named ".DS_Store".
pub fn read_testament_books(bible: &mut Bible, files: &Vec<BookFile>, testament: Testament)
    ensures
        books_view(final(bible).books@) == books_view(old(bible).books@) + spec_load_division(
            files_view(files@),
            testament,
        ),
{
    let ghost fview = files_view(files@);
    let ghost base = books_view(bible.books@);
    let n = files.len();
    let mut i: usize = 0;
    proof {
        assert(base + spec_load_division(fview.take(0), testament) =~= base);
    }
    while i < n
        invariant
            i <= n,
            n == files.len(),
            fview == files_view(files@),
            books_view(bible.books@) == base + spec_load_division(fview.take(i as int), testament),
        decreases n - i,
    {
        let f = &files[i];
        proof {
            assert(fview.take(i + 1).drop_last() =~= fview.take(i as int));
            assert(fview.take(i + 1).last() == fview[i as int]);
        }
        if !str_eq(f.name.as_str(), ".DS_Store") {
            let stem = file_stem(f.name.as_str());
            let book = parse_book_file(&f.lines, stem.to_owned(), testament);
            let ghost prev = books_view(bible.books@);
            bible.books.push(book);
            proof {
                assert(books_view(bible.books@) =~= prev.push(book@));
                assert(books_view(bible.books@) =~= base + spec_load_division(
                    fview.take(i + 1),
                    testament,
                ));
            }
        } else {
            proof {
                assert(books_view(bible.books@) =~= base + spec_load_division(
                    fview.take(i + 1),
                    testament,
                ));
            }
        }
        i += 1;
    }
    proof {
        assert(fview.take(n as int) =~= fview);
    }
}

/// Chapters appended by growth stay densely numbered.
proof fn lemma_grow_chapters_wf(chapters: Seq<ChapterView>, target: int)
    requires
        target <= u32::MAX,
        forall|i: int| 0 <= i < chapters.len() ==> #[trigger] chapters[i].number == i + 1,
    ensures
        forall|i: int|
            0 <= i < grow_chapters(chapters, target).len() ==> #[trigger] grow_chapters(
                chapters,
                target,
            )[i].number == i + 1,
        grow_chapters(chapters, target).len() >= chapters.len(),
        grow_chapters(chapters, target).len() >= target,
    decreases target - chapters.len(),
{
    if chapters.len() >= target {
    } else {
        let pushed = chapters.push(
            ChapterView { number: (chapters.len() + 1) as u32, verses: Seq::empty() },
        );
        assert(forall|i: int| 0 <= i < pushed.len() ==> #[trigger] pushed[i].number == i + 1);
        lemma_grow_chapters_wf(pushed, target);
    }
}

/// A parsed book is well formed: its chapters sit densely, the chapter with
/// number `n` at index `n - 1`.
pub proof fn lemma_parse_book_wf(lines: Seq<Seq<char>>, name: Seq<char>, t: Testament)
    ensures
        spec_parse_book(lines, name, t).wf(),
    decreases lines.len(),
{
    if lines.len() == 0 {
    } else {
        lemma_parse_book_wf(lines.drop_last(), name, t);
        let prev = spec_parse_book(lines.drop_last(), name, t);
        let cur = spec_parse_book(lines, name, t);
        assert(cur == spec_apply_line(prev, lines.last()));
        match spec_parse_line(lines.last()) {
            None => {},
            Some((c, v, text)) => {
                if c != 0 {
                    lemma_grow_chapters_wf(prev.chapters, c as int);
                    let grown = grow_chapters(prev.chapters, c as int);
                    assert forall|i: int| 0 <= i < cur.chapters.len() implies (
                    #[trigger] cur.chapters[i]).number == i + 1 by {
                        if i == c - 1 {
                            assert(grown[c - 1].number == c);
                        } else {
                            assert(cur.chapters[i] == grown[i]);
                        }
                    }
                }
            },
        }
    }
}

/// Every book a division's files yield is well formed.
proof fn lemma_load_division_wf(files: Seq<BookFileView>, t: Testament)
    ensures
        forall|k: int|
            0 <= k < spec_load_division(files, t).len() ==> (#[trigger] spec_load_division(
                files,
                t,
            )[k]).wf(),
    decreases files.len(),
{
    if files.len() == 0 {
    } else {
        lemma_load_division_wf(files.drop_last(), t);
        let f = files.last();
        let rest = spec_load_division(files.drop_last(), t);
        let cur = spec_load_division(files, t);
        if f.name != ".DS_Store"@ {
            lemma_parse_book_wf(f.lines, strip_extension(f.name), t);
            assert forall|k: int| 0 <= k < cur.len() implies (#[trigger] cur[k]).wf() by {
                if k < rest.len() {
                    assert(cur[k] == rest[k]);
                } else {
                    assert(cur[k] == spec_parse_book(f.lines, strip_extension(f.name), t));
                }
            }
        }
    }
}

impl Bible {
    /// Loads the whole corpus from the files of the two divisions: every
    /// book of either division, parsed and then arranged in canonical
    /// order, ties kept in file order.
    pub fn from_directories(old_files: &Vec<BookFile>, new_files: &Vec<BookFile>) -> (bible: Bible)
        ensures
            exists|perm: Seq<int>|
                is_stable_ordering(
                    spec_load_division(files_view(old_files@), Testament::Old)
                        + spec_load_division(files_view(new_files@), Testament::New),
                    bible@.books,
                    perm,
                ),
            bible@.wf(),
    {
        let ghost loaded = spec_load_division(files_view(old_files@), Testament::Old)
            + spec_load_division(files_view(new_files@), Testament::New);
        let mut bible = Bible { books: Vec::new() };
        proof {
            assert(books_view(bible.books@) =~= Seq::<BookView>::empty());
        }
        read_testament_books(&mut bible, old_files, Testament::Old);
        read_testament_books(&mut bible, new_files, Testament::New);
        proof {
            assert(books_view(bible.books@) =~= loaded);
        }
        sort_books(&mut bible.books);
        proof {
            let perm = choose|perm: Seq<int>|
                is_stable_ordering(loaded, books_view(bible.books@), perm);
            lemma_load_division_wf(files_view(old_files@), Testament::Old);
            lemma_load_division_wf(files_view(new_files@), Testament::New);
            assert forall|k: int| 0 <= k < bible@.books.len() implies (
            #[trigger] bible@.books[k]).wf() by {
                assert(bible@.books[k] == loaded[perm[k]]);
                let j = perm[k];
                let a = spec_load_division(files_view(old_files@), Testament::Old);
                let b = spec_load_division(files_view(new_files@), Testament::New);
                if j < a.len() {
                    assert(loaded[j] == a[j]);
                } else {
                    assert(loaded[j] == b[j - a.len()]);
                }
            }
            assert(is_stable_ordering(
                spec_load_division(files_view(old_files@), Testament::Old) + spec_load_division(
                    files_view(new_files@),
                    Testament::New,
                ),
                bible@.books,
                perm,
            ));
        }
        bible
    }
}

} // verus!
