//! The reader's state: the loaded corpus, the current selection, and the
//! rendered chapter text the presentation layer shows.  Everything here is
//! plain data and pure computation; drawing stays with the caller.
use vstd::prelude::*;
use vstd::string::StringExecFns;
use crate::corpus::{Bible, Verse, VerseView, spec_get_chapter, verses_view};
use crate::text::{dec_str, u32_to_string};

verus! {

/// The line the reader shows for one verse: its number, a space, its text,
/// and a blank line.
pub open spec fn verse_line(v: VerseView) -> Seq<char> {
    dec_str(v.verse_number as int) + " "@ + v.text + "\n\n"@
}

/// The rendered text of a chapter: its verses' lines in stored order.
pub open spec fn chapter_text_of(verses: Seq<VerseView>) -> Seq<char>
    decreases verses.len(),
{
    if verses.len() == 0 {
        Seq::empty()
    } else {
        chapter_text_of(verses.drop_last()) + verse_line(verses.last())
    }
}

impl Verse {
    /// A field-for-field copy.
    pub fn duplicate(&self) -> (v: Verse)
        ensures
            v == *self,
    {
        let v = Verse {
            book: self.book.clone(),
            chapter: self.chapter,
            verse_number: self.verse_number,
            text: self.text.clone(),
        };
        v
    }
}

/// Copies a chapter's verses for the display state.
pub fn duplicate_verses(verses: &Vec<Verse>) -> (r: Vec<Verse>)
    ensures
        r@ == verses@,
{
    let mut r: Vec<Verse> = Vec::new();
    let n = verses.len();
    let mut i: usize = 0;
    while i < n
        invariant
            i <= n,
            n == verses.len(),
            r@ == verses@.take(i as int),
        decreases n - i,
    {
        r.push(verses[i].duplicate());
        proof {
            assert(r@ =~= verses@.take(i + 1));
        }
        i += 1;
    }
    proof {
        assert(verses@.take(n as int) =~= verses@);
    }
    r
}

/// Renders a chapter's verses in the form the reader displays.
pub fn render_chapter_text(verses: &Vec<Verse>) -> (s: String)
    ensures
        s@ == chapter_text_of(verses_view(verses@)),
{
    let ghost vv = verses_view(verses@);
    let mut s = String::new();
    let n = verses.len();
    let mut i: usize = 0;
    proof {
        assert(s@ =~= chapter_text_of(vv.take(0)));
    }
    while i < n
        invariant
            i <= n,
            n == verses.len(),
            vv == verses_view(verses@),
            s@ == chapter_text_of(vv.take(i as int)),
        decreases n - i,
    {
        let v = &verses[i];
        let num = u32_to_string(v.verse_number);
        s.append(num.as_str());
        s.append(" ");
        s.append(v.text.as_str());
        s.append("\n\n");
        proof {
            assert(vv.take(i + 1).drop_last() =~= vv.take(i as int));
            assert(vv.take(i + 1).last() == vv[i as int]);
            assert(s@ =~= chapter_text_of(vv.take(i as int)) + verse_line(vv[i as int]));
        }
        i += 1;
    }
    proof {
        assert(vv.take(n as int) =~= vv);
    }
    s
}

/// What the reader holds between frames: the corpus, the selection, the
/// rendered chapter, and the latest search.
pub struct BibleApp {
    pub bible: Bible,
    pub selected_book: String,
    pub selected_chapter: u32,
    pub chapter_text: String,
    pub current_chapter_verses: Vec<Verse>,
    pub search_query: String,
    pub search_results: Vec<Verse>,
    pub navigate_to: Option<(String, u32)>,
}

impl BibleApp {
    /// Opens the reader on the corpus's first book (or "Genesis" for an
    /// empty corpus) at chapter 1, with that chapter rendered when it
    /// exists.
    pub fn new(bible: Bible) -> (app: BibleApp)
        ensures
            app.bible == bible,
            app.selected_book@ == if bible@.books.len() > 0 {
                bible@.books[0].name
            } else {
                "Genesis"@
            },
            app.selected_chapter == 1,
            app.search_query@.len() == 0,
            app.search_results@.len() == 0,
            app.navigate_to is None,
            match spec_get_chapter(bible@, app.selected_book@, 1) {
                Some(ch) => verses_view(app.current_chapter_verses@) == ch.verses
                    && app.chapter_text@ == chapter_text_of(ch.verses),
                None => app.current_chapter_verses@.len() == 0 && app.chapter_text@.len() == 0,
            },
    {
        let default_book: String = if bible.books.len() > 0 {
            bible.books[0].name.clone()
        } else {
            "Genesis".to_owned()
        };
        let default_chapter: u32 = 1;

        let mut current_chapter_verses: Vec<Verse> = Vec::new();
        let mut chapter_text: String = String::new();

        match bible.get_chapter(default_book.as_str(), default_chapter) {
            Some(chapter) => {
                current_chapter_verses = duplicate_verses(&chapter.verses);
                chapter_text = render_chapter_text(&chapter.verses);
            },
            None => {},
        }

        BibleApp {
            bible,
            selected_book: default_book,
            selected_chapter: default_chapter,
            chapter_text,
            current_chapter_verses,
            search_query: String::new(),
            search_results: Vec::new(),
            navigate_to: None,
        }
    }

    /// Re-renders the selected chapter into the display fields; a selection
    /// that matches no chapter leaves no verses and a fixed notice.
    pub fn update_chapter_display(&mut self)
        ensures
            final(self).bible == old(self).bible,
            final(self).selected_book == old(self).selected_book,
            final(self).selected_chapter == old(self).selected_chapter,
            final(self).search_query == old(self).search_query,
            final(self).search_results == old(self).search_results,
            final(self).navigate_to == old(self).navigate_to,
            match spec_get_chapter(
                old(self).bible@,
                old(self).selected_book@,
                old(self).selected_chapter,
            ) {
                Some(ch) => verses_view(final(self).current_chapter_verses@) == ch.verses
                    && final(self).chapter_text@ == chapter_text_of(ch.verses),
                None => final(self).current_chapter_verses@.len() == 0 && final(self).chapter_text@
                    == "Chapter not found"@,
            },
    {
        self.chapter_text = String::new();
        self.current_chapter_verses = Vec::new();

        match self.bible.get_chapter(self.selected_book.as_str(), self.selected_chapter) {
            Some(chapter) => {
                self.current_chapter_verses = duplicate_verses(&chapter.verses);
                self.chapter_text = render_chapter_text(&chapter.verses);
            },
            None => {
                self.chapter_text = "Chapter not found".to_owned();
            },
        }
    }
}

} // verus!
