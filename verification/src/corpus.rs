//! The in-memory corpus: verses nested in chapters nested in books, and the
//! three read-only queries over it.
use vstd::prelude::*;
use crate::text::{lower_of, is_substring, lowercase, contains_substr, str_eq};

verus! {

/// Which of the two top-level divisions a book was loaded from.
#[derive(Debug, Clone, Copy, PartialEq, Eq, Structural)]
pub enum Testament {
    Old,
    New,
}

/// A single verse: its owning book and chapter, its number within the
/// chapter, and its text.
#[derive(Debug)]
pub struct Verse {
    pub book: String,
    pub chapter: u32,
    pub verse_number: u32,
    pub text: String,
}

/// A chapter: its 1-based number and its verses in insertion order.
#[derive(Debug)]
pub struct Chapter {
    pub number: u32,
    pub verses: Vec<Verse>,
}

/// A named book and its chapters, stored densely: the chapter with number
/// `n` sits at index `n - 1`.
#[derive(Debug)]
pub struct Book {
    pub name: String,
    pub testament: Testament,
    pub chapters: Vec<Chapter>,
}

/// The whole corpus: books in canonical order.
#[derive(Debug)]
pub struct Bible {
    pub books: Vec<Book>,
}

/// Mathematical image of a `Verse`.
pub struct VerseView {
    pub book: Seq<char>,
    pub chapter: u32,
    pub verse_number: u32,
    pub text: Seq<char>,
}

/// Mathematical image of a `Chapter`.
pub struct ChapterView {
    pub number: u32,
    pub verses: Seq<VerseView>,
}

/// Mathematical image of a `Book`.
pub struct BookView {
    pub name: Seq<char>,
    pub testament: Testament,
    pub chapters: Seq<ChapterView>,
}

/// Mathematical image of a `Bible`.
pub struct BibleView {
    pub books: Seq<BookView>,
}

impl View for Verse {
    type V = VerseView;

    open spec fn view(&self) -> VerseView {
        VerseView {
            book: self.book@,
            chapter: self.chapter,
            verse_number: self.verse_number,
            text: self.text@,
        }
    }
}

pub open spec fn verses_view(vs: Seq<Verse>) -> Seq<VerseView> {
    vs.map_values(|v: Verse| v@)
}

impl View for Chapter {
    type V = ChapterView;

    open spec fn view(&self) -> ChapterView {
        ChapterView { number: self.number, verses: verses_view(self.verses@) }
    }
}

pub open spec fn chapters_view(cs: Seq<Chapter>) -> Seq<ChapterView> {
    cs.map_values(|c: Chapter| c@)
}

impl View for Book {
    type V = BookView;

    open spec fn view(&self) -> BookView {
        BookView {
            name: self.name@,
            testament: self.testament,
            chapters: chapters_view(self.chapters@),
        }
    }
}

pub open spec fn books_view(bs: Seq<Book>) -> Seq<BookView> {
    bs.map_values(|b: Book| b@)
}

impl View for Bible {
    type V = BibleView;

    open spec fn view(&self) -> BibleView {
        BibleView { books: books_view(self.books@) }
    }
}

impl BookView {
    /// Chapters are stored densely: the chapter at index `i` carries number
    /// `i + 1`.
    pub open spec fn wf(self) -> bool {
        forall|i: int| 0 <= i < self.chapters.len() ==> #[trigger] self.chapters[i].number == i + 1
    }
}

impl BibleView {
    pub open spec fn wf(self) -> bool {
        forall|i: int| 0 <= i < self.books.len() ==> (#[trigger] self.books[i]).wf()
    }
}

/// The first book carrying `name`, scanning in corpus order.
pub open spec fn find_book(books: Seq<BookView>, name: Seq<char>) -> Option<BookView>
    decreases books.len(),
{
    if books.len() == 0 {
        None
    } else if books[0].name == name {
        Some(books[0])
    } else {
        find_book(books.drop_first(), name)
    }
}

/// The first chapter carrying `number`.
pub open spec fn find_chapter(chapters: Seq<ChapterView>, number: u32) -> Option<ChapterView>
    decreases chapters.len(),
{
    if chapters.len() == 0 {
        None
    } else if chapters[0].number == number {
        Some(chapters[0])
    } else {
        find_chapter(chapters.drop_first(), number)
    }
}

/// The first verse carrying `number`.
pub open spec fn find_verse(verses: Seq<VerseView>, number: u32) -> Option<VerseView>
    decreases verses.len(),
{
    if verses.len() == 0 {
        None
    } else if verses[0].verse_number == number {
        Some(verses[0])
    } else {
        find_verse(verses.drop_first(), number)
    }
}

/// What `get_chapter` returns: the first matching book's first chapter with
/// that number, if both exist.
pub open spec fn spec_get_chapter(bible: BibleView, name: Seq<char>, chapter: u32) -> Option<
    ChapterView,
> {
    match find_book(bible.books, name) {
        None => None,
        Some(b) => find_chapter(b.chapters, chapter),
    }
}

/// What `get_verse` returns: the looked-up chapter's first verse with that
/// number, if the chapter exists.
pub open spec fn spec_get_verse(bible: BibleView, name: Seq<char>, chapter: u32, verse: u32) -> Option<
    VerseView,
> {
    match spec_get_chapter(bible, name, chapter) {
        None => None,
        Some(ch) => find_verse(ch.verses, verse),
    }
}

proof fn lemma_find_book_at(books: Seq<BookView>, name: Seq<char>, i: int)
    requires
        0 <= i <= books.len(),
        forall|j: int| 0 <= j < i ==> (#[trigger] books[j]).name != name,
        i < books.len() ==> books[i].name == name,
    ensures
        find_book(books, name) == if i < books.len() {
            Some(books[i])
        } else {
            None::<BookView>
        },
    decreases books.len(),
{
    if books.len() == 0 {
    } else if i == 0 {
    } else {
        assert(books[0].name != name);
        assert(forall|j: int| 0 <= j < i - 1 ==> books.drop_first()[j] == books[j + 1]);
        lemma_find_book_at(books.drop_first(), name, i - 1);
    }
}

proof fn lemma_find_chapter_at(chapters: Seq<ChapterView>, number: u32, i: int)
    requires
        0 <= i <= chapters.len(),
        forall|j: int| 0 <= j < i ==> (#[trigger] chapters[j]).number != number,
        i < chapters.len() ==> chapters[i].number == number,
    ensures
        find_chapter(chapters, number) == if i < chapters.len() {
            Some(chapters[i])
        } else {
            None::<ChapterView>
        },
    decreases chapters.len(),
{
    if chapters.len() == 0 {
    } else if i == 0 {
    } else {
        assert(chapters[0].number != number);
        assert(forall|j: int| 0 <= j < i - 1 ==> chapters.drop_first()[j] == chapters[j + 1]);
        lemma_find_chapter_at(chapters.drop_first(), number, i - 1);
    }
}

proof fn lemma_find_verse_at(verses: Seq<VerseView>, number: u32, i: int)
    requires
        0 <= i <= verses.len(),
        forall|j: int| 0 <= j < i ==> (#[trigger] verses[j]).verse_number != number,
        i < verses.len() ==> verses[i].verse_number == number,
    ensures
        find_verse(verses, number) == if i < verses.len() {
            Some(verses[i])
        } else {
            None::<VerseView>
        },
    decreases verses.len(),
{
    if verses.len() == 0 {
    } else if i == 0 {
    } else {
        assert(verses[0].verse_number != number);
        assert(forall|j: int| 0 <= j < i - 1 ==> verses.drop_first()[j] == verses[j + 1]);
        lemma_find_verse_at(verses.drop_first(), number, i - 1);
    }
}

/// In a well-formed book, looking a chapter up by any number from 1 to the
/// chapter count lands on the densely stored chapter at that position.
pub proof fn lemma_chapter_lookup_in_range(bible: BibleView, name: Seq<char>, c: u32)
    requires
        bible.wf(),
        find_book(bible.books, name) is Some,
        1 <= c <= find_book(bible.books, name)->Some_0.chapters.len(),
    ensures
        spec_get_chapter(bible, name, c) == Some(
            find_book(bible.books, name)->Some_0.chapters[c - 1],
        ),
{
    let b = find_book(bible.books, name)->Some_0;
    lemma_find_book_member(bible.books, name);
    assert(b.wf());
    assert(forall|j: int| 0 <= j < c - 1 ==> (#[trigger] b.chapters[j]).number != c);
    lemma_find_chapter_at(b.chapters, c, c - 1);
}

/// A found book is a member of the scanned sequence.
proof fn lemma_find_book_member(books: Seq<BookView>, name: Seq<char>)
    requires
        find_book(books, name) is Some,
    ensures
        exists|i: int|
            0 <= i < books.len() && #[trigger] books[i] == find_book(books, name)->Some_0,
    decreases books.len(),
{
    if books.len() == 0 {
    } else if books[0].name == name {
        assert(books[0] == find_book(books, name)->Some_0);
    } else {
        lemma_find_book_member(books.drop_first(), name);
        let i = choose|i: int|
            0 <= i < books.drop_first().len() && #[trigger] books.drop_first()[i] == find_book(
                books.drop_first(),
                name,
            )->Some_0;
        assert(books[i + 1] == find_book(books, name)->Some_0);
    }
}

/// The verses of one chapter that match a folded query, in stored order.
pub open spec fn chapter_hits(verses: Seq<VerseView>, q: Seq<char>) -> Seq<VerseView>
    decreases verses.len(),
{
    if verses.len() == 0 {
        Seq::empty()
    } else {
        let rest = chapter_hits(verses.drop_last(), q);
        if is_substring(lower_of(verses.last().text), q) {
            rest.push(verses.last())
        } else {
            rest
        }
    }
}

/// The matches of one book, chapters in stored order.
pub open spec fn book_hits(chapters: Seq<ChapterView>, q: Seq<char>) -> Seq<VerseView>
    decreases chapters.len(),
{
    if chapters.len() == 0 {
        Seq::empty()
    } else {
        book_hits(chapters.drop_last(), q) + chapter_hits(chapters.last().verses, q)
    }
}

/// The matches of the whole corpus, books in canonical order.
pub open spec fn corpus_hits(books: Seq<BookView>, q: Seq<char>) -> Seq<VerseView>
    decreases books.len(),
{
    if books.len() == 0 {
        Seq::empty()
    } else {
        corpus_hits(books.drop_last(), q) + book_hits(books.last().chapters, q)
    }
}

/// Every verse of the corpus in traversal order.
pub open spec fn all_verses(books: Seq<BookView>) -> Seq<VerseView>
    decreases books.len(),
{
    if books.len() == 0 {
        Seq::empty()
    } else {
        all_verses(books.drop_last()) + book_verses(books.last().chapters)
    }
}

pub open spec fn book_verses(chapters: Seq<ChapterView>) -> Seq<VerseView>
    decreases chapters.len(),
{
    if chapters.len() == 0 {
        Seq::empty()
    } else {
        book_verses(chapters.drop_last()) + chapters.last().verses
    }
}

/// Whether one verse answers a folded query: its folded text contains the
/// query as a substring.
pub open spec fn verse_matches(v: VerseView, q: Seq<char>) -> bool {
    is_substring(lower_of(v.text), q)
}

proof fn lemma_chapter_hits_is_filter(verses: Seq<VerseView>, q: Seq<char>)
    ensures
        chapter_hits(verses, q) == verses.filter(|v: VerseView| verse_matches(v, q)),
    decreases verses.len(),
{
    reveal(Seq::filter);
    if verses.len() == 0 {
        assert(chapter_hits(verses, q) =~= verses.filter(|v: VerseView| verse_matches(v, q)));
    } else {
        lemma_chapter_hits_is_filter(verses.drop_last(), q);
    }
}

proof fn lemma_book_hits_is_filter(chapters: Seq<ChapterView>, q: Seq<char>)
    ensures
        book_hits(chapters, q) == book_verses(chapters).filter(|v: VerseView| verse_matches(v, q)),
    decreases chapters.len(),
{
    reveal(Seq::filter);
    if chapters.len() == 0 {
        assert(book_hits(chapters, q) =~= book_verses(chapters).filter(
            |v: VerseView| verse_matches(v, q),
        ));
    } else {
        lemma_book_hits_is_filter(chapters.drop_last(), q);
        lemma_chapter_hits_is_filter(chapters.last().verses, q);
        Seq::filter_distributes_over_add(
            book_verses(chapters.drop_last()),
            chapters.last().verses,
            |v: VerseView| verse_matches(v, q),
        );
    }
}

/// What the search returns is exactly the corpus traversal filtered by the
/// match predicate: every verse whose folded text contains the folded query
/// appears, exactly once, in traversal order, and no other verse appears.
pub proof fn lemma_corpus_hits_is_filter(books: Seq<BookView>, q: Seq<char>)
    ensures
        corpus_hits(books, q) == all_verses(books).filter(|v: VerseView| verse_matches(v, q)),
    decreases books.len(),
{
    reveal(Seq::filter);
    if books.len() == 0 {
        assert(corpus_hits(books, q) =~= all_verses(books).filter(
            |v: VerseView| verse_matches(v, q),
        ));
    } else {
        lemma_corpus_hits_is_filter(books.drop_last(), q);
        lemma_book_hits_is_filter(books.last().chapters, q);
        Seq::filter_distributes_over_add(
            all_verses(books.drop_last()),
            book_verses(books.last().chapters),
            |v: VerseView| verse_matches(v, q),
        );
    }
}

/// An empty query matches every verse: the hits of a chapter are then its
/// verses themselves.
proof fn lemma_chapter_hits_empty_query(verses: Seq<VerseView>, q: Seq<char>)
    requires
        q.len() == 0,
    ensures
        chapter_hits(verses, q) == verses,
    decreases verses.len(),
{
    if verses.len() == 0 {
        assert(chapter_hits(verses, q) =~= verses);
    } else {
        lemma_chapter_hits_empty_query(verses.drop_last(), q);
        assert(lower_of(verses.last().text).subrange(0, 0 + q.len() as int) =~= q);
        assert(is_substring(lower_of(verses.last().text), q));
        assert(chapter_hits(verses, q) =~= verses);
    }
}

proof fn lemma_book_hits_empty_query(chapters: Seq<ChapterView>, q: Seq<char>)
    requires
        q.len() == 0,
    ensures
        book_hits(chapters, q) == book_verses(chapters),
    decreases chapters.len(),
{
    if chapters.len() == 0 {
    } else {
        lemma_book_hits_empty_query(chapters.drop_last(), q);
        lemma_chapter_hits_empty_query(chapters.last().verses, q);
    }
}

/// An empty query matches the whole corpus in traversal order.
pub proof fn lemma_corpus_hits_empty_query(books: Seq<BookView>, q: Seq<char>)
    requires
        q.len() == 0,
    ensures
        corpus_hits(books, q) == all_verses(books),
    decreases books.len(),
{
    if books.len() == 0 {
    } else {
        lemma_corpus_hits_empty_query(books.drop_last(), q);
        lemma_book_hits_empty_query(books.last().chapters, q);
    }
}

impl Bible {
    /// Point lookup of a verse; `None` when the book, the chapter or the
    /// verse is absent.  The first match decides at every level.
    pub fn get_verse<'a>(&'a self, book_name: &str, chapter: u32, verse: u32) -> (r: Option<
        &'a Verse,
    >)
        ensures
            match r {
                Some(v) => spec_get_verse(self@, book_name@, chapter, verse) == Some(v@),
                None => spec_get_verse(self@, book_name@, chapter, verse) is None,
            },
    {
        match self.lookup_chapter(book_name, chapter) {
            None => None,
            Some(ch) => {
                let n = ch.verses.len();
                let mut i: usize = 0;
                while i < n
                    invariant
                        i <= n,
                        n == ch.verses.len(),
                        spec_get_chapter(self@, book_name@, chapter) == Some(ch@),
                        forall|j: int|
                            0 <= j < i ==> (#[trigger] verses_view(ch.verses@)[j]).verse_number
                                != verse,
                    decreases n - i,
                {
                    if ch.verses[i].verse_number == verse {
                        proof {
                            lemma_find_verse_at(verses_view(ch.verses@), verse, i as int);
                        }
                        return Some(&ch.verses[i]);
                    }
                    i += 1;
                }
                proof {
                    lemma_find_verse_at(verses_view(ch.verses@), verse, n as int);
                }
                None
            },
        }
    }

    /// Whole-chapter lookup; `None` when the book or the chapter is absent.
    pub fn get_chapter<'a>(&'a self, book_name: &str, chapter: u32) -> (r: Option<&'a Chapter>)
        ensures
            match r {
                Some(ch) => spec_get_chapter(self@, book_name@, chapter) == Some(ch@),
                None => spec_get_chapter(self@, book_name@, chapter) is None,
            },
    {
        self.lookup_chapter(book_name, chapter)
    }

    fn lookup_chapter<'a>(&'a self, book_name: &str, chapter: u32) -> (r: Option<&'a Chapter>)
        ensures
            match r {
                Some(ch) => spec_get_chapter(self@, book_name@, chapter) == Some(ch@),
                None => spec_get_chapter(self@, book_name@, chapter) is None,
            },
    {
        let n = self.books.len();
        let mut i: usize = 0;
        while i < n
            invariant
                i <= n,
                n == self.books.len(),
                forall|j: int| 0 <= j < i ==> (#[trigger] books_view(self.books@)[j]).name != book_name@,
            decreases n - i,
        {
            if str_eq(self.books[i].name.as_str(), book_name) {
                proof {
                    lemma_find_book_at(books_view(self.books@), book_name@, i as int);
                }
                let book = &self.books[i];
                let m = book.chapters.len();
                let mut k: usize = 0;
                while k < m
                    invariant
                        k <= m,
                        m == book.chapters.len(),
                        find_book(books_view(self.books@), book_name@) == Some(book@),
                        forall|j: int|
                            0 <= j < k ==> (#[trigger] chapters_view(book.chapters@)[j]).number
                                != chapter,
                    decreases m - k,
                {
                    if book.chapters[k].number == chapter {
                        proof {
                            lemma_find_chapter_at(chapters_view(book.chapters@), chapter, k as int);
                        }
                        return Some(&book.chapters[k]);
                    }
                    k += 1;
                }
                proof {
                    lemma_find_chapter_at(chapters_view(book.chapters@), chapter, m as int);
                }
                return None;
            }
            i += 1;
        }
        proof {
            lemma_find_book_at(books_view(self.books@), book_name@, n as int);
        }
        None
    }

    /// Case-insensitive literal substring search over every verse: exactly
    /// the verses whose folded text contains the folded query, each once, in
    /// corpus traversal order.  An empty query returns every verse.
    pub fn search<'a>(&'a self, query: &str) -> (r: Vec<&'a Verse>)
        ensures
            r@.map_values(|v: &Verse| v@) == corpus_hits(self@.books, lower_of(query@)),
            query@.len() == 0 ==> r@.map_values(|v: &Verse| v@) == all_verses(self@.books),
    {
        let lq = lowercase(query);
        let mut results: Vec<&'a Verse> = Vec::new();
        let ghost bview = books_view(self.books@);
        let n = self.books.len();
        let mut i: usize = 0;
        assert(results@.map_values(|v: &Verse| v@) =~= corpus_hits(bview.take(0), lq@));
        while i < n
            invariant
                i <= n,
                n == self.books.len(),
                lq@ == lower_of(query@),
                bview == books_view(self.books@),
                results@.map_values(|v: &Verse| v@) == corpus_hits(bview.take(i as int), lq@),
            decreases n - i,
        {
            let book = &self.books[i];
            let ghost cview = chapters_view(book.chapters@);
            let m = book.chapters.len();
            let mut k: usize = 0;
            assert(book_hits(cview.take(0), lq@) =~= Seq::<VerseView>::empty());
            while k < m
                invariant
                    k <= m,
                    i < n,
                    n == self.books.len(),
                    m == book.chapters.len(),
                    book == &self.books[i as int],
                    lq@ == lower_of(query@),
                    bview == books_view(self.books@),
                    cview == chapters_view(book.chapters@),
                    results@.map_values(|v: &Verse| v@) == corpus_hits(bview.take(i as int), lq@)
                        + book_hits(cview.take(k as int), lq@),
                decreases m - k,
            {
                let ch = &book.chapters[k];
                let ghost vview = verses_view(ch.verses@);
                let p = ch.verses.len();
                let mut l: usize = 0;
                assert(chapter_hits(vview.take(0), lq@) =~= Seq::<VerseView>::empty());
                while l < p
                    invariant
                        l <= p,
                        k < m,
                        i < n,
                        n == self.books.len(),
                        m == book.chapters.len(),
                        p == ch.verses.len(),
                        book == &self.books[i as int],
                        ch == &book.chapters[k as int],
                        lq@ == lower_of(query@),
                        bview == books_view(self.books@),
                        cview == chapters_view(book.chapters@),
                        vview == verses_view(ch.verses@),
                        results@.map_values(|v: &Verse| v@) == corpus_hits(bview.take(i as int), lq@)
                            + book_hits(cview.take(k as int), lq@) + chapter_hits(
                            vview.take(l as int),
                            lq@,
                        ),
                    decreases p - l,
                {
                    let verse = &ch.verses[l];
                    let lt = lowercase(verse.text.as_str());
                    let ghost prev = results@.map_values(|v: &Verse| v@);
                    proof {
                        assert(vview.take(l + 1).drop_last() =~= vview.take(l as int));
                        assert(vview.take(l + 1).last() == vview[l as int]);
                    }
                    if contains_substr(lt.as_str(), lq.as_str()) {
                        results.push(verse);
                        proof {
                            assert(results@.map_values(|v: &Verse| v@) =~= prev.push(
                                vview[l as int],
                            ));
                        }
                    }
                    proof {
                        assert(results@.map_values(|v: &Verse| v@) =~= corpus_hits(
                            bview.take(i as int),
                            lq@,
                        ) + book_hits(cview.take(k as int), lq@) + chapter_hits(
                            vview.take(l + 1),
                            lq@,
                        ));
                    }
                    l += 1;
                }
                proof {
                    assert(vview.take(p as int) =~= vview);
                    assert(cview.take(k + 1).drop_last() =~= cview.take(k as int));
                    assert(cview.take(k + 1).last() == cview[k as int]);
                    assert(results@.map_values(|v: &Verse| v@) =~= corpus_hits(
                        bview.take(i as int),
                        lq@,
                    ) + book_hits(cview.take(k + 1), lq@));
                }
                k += 1;
            }
            proof {
                assert(cview.take(m as int) =~= cview);
                assert(bview.take(i + 1).drop_last() =~= bview.take(i as int));
                assert(bview.take(i + 1).last() == bview[i as int]);
                assert(results@.map_values(|v: &Verse| v@) =~= corpus_hits(bview.take(i + 1), lq@));
            }
            i += 1;
        }
        proof {
            assert(bview.take(n as int) =~= bview);
            if query@.len() == 0 {
                lemma_corpus_hits_empty_query(bview, lq@);
            }
        }
        results
    }
}

} // verus!
