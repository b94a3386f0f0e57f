//! The index model: posts, the entries and child references an index page
//! lists, and their orderings.
use vstd::prelude::*;

use crate::order::{
    compare_text, compare_texts, int_cmp, lemma_text_cmp, lemma_texts_cmp, sort_by_key,
    sorted_by_key, text_cmp, texts_cmp, then_cmp, SortKey,
};
use crate::text::{clone_texts, texts_view};

verus! {

/// Whether a post links elsewhere or carries a body to render.
#[derive(Clone, Copy, Debug, PartialEq, Eq, Structural)]
pub enum PostTyp {
    Link,
    Text,
}

/// The header of one source record.
#[derive(Clone, Debug)]
pub struct Post {
    pub title: String,
    /// Shown on index pages; may be empty.
    pub author: String,
    /// Credited in the feed.
    pub authors: Vec<String>,
    /// May hold duplicates and invalid names.
    pub tags: Vec<String>,
    pub x_head: String,
    pub x_nav: String,
    pub typ: PostTyp,
}

/// The kind of an index page.
#[derive(Clone, Copy, Debug, PartialEq, Eq, Structural, PartialOrd, Ord, Hash)]
pub enum IndexTyp {
    Directory,
    Tag,
}

/// A calendar date.
#[derive(Clone, Copy, Debug, PartialEq, Eq, Structural, PartialOrd, Ord, Hash)]
pub struct DiaryDate {
    pub year: i32,
    pub month: u32,
    pub day: u32,
}

/// A leap year of the proleptic Gregorian calendar.
pub open spec fn is_leap_year(y: int) -> bool {
    (y % 4 == 0 && y % 100 != 0) || y % 400 == 0
}

/// The number of days of month `m` in year `y`.
pub open spec fn days_in_month(y: int, m: int) -> int {
    if m == 2 {
        if is_leap_year(y) {
            29
        } else {
            28
        }
    } else if m == 4 || m == 6 || m == 9 || m == 11 {
        30
    } else {
        31
    }
}

impl DiaryDate {
    /// The date exists in the calendar.
    pub open spec fn is_valid(&self) -> bool {
        1 <= self.month <= 12 && 1 <= self.day <= days_in_month(self.year as int, self.month as int)
    }
}

/// One post's appearance in an index.
#[derive(Clone, Debug, PartialEq, Eq, PartialOrd, Ord, Hash)]
pub struct IndexEntry {
    pub cdate: DiaryDate,
    pub href: String,
    pub title: String,
    /// Shown on index pages.
    pub author: String,
    /// Credited in the feed.
    pub authors: Vec<String>,
}

/// A reference from an index page to a child index.
#[derive(Clone, Debug, PartialEq, Eq, PartialOrd, Ord, Hash)]
pub struct IndexRef {
    pub name: String,
    pub typ: IndexTyp,
}

/// An index page: child references and post entries. Both lists are shown
/// in reverse of their sorted order, newest first.
#[derive(Debug)]
pub struct Index {
    pub typ: IndexTyp,
    pub oidxrefs: Vec<IndexRef>,
    pub ents: Vec<IndexEntry>,
}

/// The plain value of an entry.
pub struct EntryView {
    pub cdate: DiaryDate,
    pub href: Seq<char>,
    pub title: Seq<char>,
    pub author: Seq<char>,
    pub authors: Seq<Seq<char>>,
}

/// The plain value of a reference.
pub struct RefView {
    pub name: Seq<char>,
    pub typ: IndexTyp,
}

impl View for IndexEntry {
    type V = EntryView;

    open spec fn view(&self) -> EntryView {
        EntryView {
            cdate: self.cdate,
            href: self.href@,
            title: self.title@,
            author: self.author@,
            authors: texts_view(self.authors@),
        }
    }
}

impl View for IndexRef {
    type V = RefView;

    open spec fn view(&self) -> RefView {
        RefView { name: self.name@, typ: self.typ }
    }
}

/// The entry a post gets, pointing at `href`.
pub open spec fn entry_of(post: Post, cdate: DiaryDate, href: Seq<char>) -> EntryView {
    EntryView {
        cdate,
        href,
        title: post.title@,
        author: post.author@,
        authors: texts_view(post.authors@),
    }
}

/// Dates compare by year, then month, then day.
pub open spec fn date_cmp(a: DiaryDate, b: DiaryDate) -> int {
    then_cmp(
        int_cmp(a.year as int, b.year as int),
        then_cmp(int_cmp(a.month as int, b.month as int), int_cmp(a.day as int, b.day as int)),
    )
}

/// Entries compare by date, then href, title, author and authors.
pub open spec fn entry_cmp(a: EntryView, b: EntryView) -> int {
    then_cmp(
        date_cmp(a.cdate, b.cdate),
        then_cmp(
            text_cmp(a.href, b.href),
            then_cmp(
                text_cmp(a.title, b.title),
                then_cmp(text_cmp(a.author, b.author), texts_cmp(a.authors, b.authors)),
            ),
        ),
    )
}

/// The rank of a kind: directories before tags.
pub open spec fn typ_rank(t: IndexTyp) -> int {
    match t {
        IndexTyp::Directory => 0,
        IndexTyp::Tag => 1,
    }
}

/// References compare by name, then kind.
pub open spec fn ref_cmp(a: RefView, b: RefView) -> int {
    then_cmp(text_cmp(a.name, b.name), int_cmp(typ_rank(a.typ), typ_rank(b.typ)))
}

pub proof fn lemma_entry_cmp(a: EntryView, b: EntryView, c: EntryView)
    ensures
        -1 <= entry_cmp(a, b) <= 1,
        entry_cmp(a, b) == -entry_cmp(b, a),
        entry_cmp(a, b) == 0 <==> a == b,
        entry_cmp(a, b) <= 0 && entry_cmp(b, c) <= 0 ==> entry_cmp(a, c) <= 0,
{
    lemma_text_cmp(a.href, b.href, c.href);
    lemma_text_cmp(b.href, c.href, a.href);
    lemma_text_cmp(a.href, c.href, b.href);
    lemma_text_cmp(a.title, b.title, c.title);
    lemma_text_cmp(b.title, c.title, a.title);
    lemma_text_cmp(a.title, c.title, b.title);
    lemma_text_cmp(a.author, b.author, c.author);
    lemma_text_cmp(b.author, c.author, a.author);
    lemma_text_cmp(a.author, c.author, b.author);
    lemma_texts_cmp(a.authors, b.authors, c.authors);
    lemma_texts_cmp(b.authors, c.authors, a.authors);
    lemma_texts_cmp(a.authors, c.authors, b.authors);
}

pub proof fn lemma_ref_cmp(a: RefView, b: RefView, c: RefView)
    ensures
        -1 <= ref_cmp(a, b) <= 1,
        ref_cmp(a, b) == -ref_cmp(b, a),
        ref_cmp(a, b) == 0 <==> a == b,
        ref_cmp(a, b) <= 0 && ref_cmp(b, c) <= 0 ==> ref_cmp(a, c) <= 0,
{
    lemma_text_cmp(a.name, b.name, c.name);
    lemma_text_cmp(b.name, c.name, a.name);
    lemma_text_cmp(a.name, c.name, b.name);
}

fn compare_u32(a: u32, b: u32) -> (r: i8)
    ensures
        r as int == int_cmp(a as int, b as int),
{
    if a < b {
        -1
    } else if a > b {
        1
    } else {
        0
    }
}

impl DiaryDate {
    /// Compares two dates: by year, then month, then day.
    pub fn compare(&self, other: &DiaryDate) -> (r: i8)
        ensures
            r as int == date_cmp(*self, *other),
    {
        if self.year < other.year {
            -1
        } else if self.year > other.year {
            1
        } else {
            let c = compare_u32(self.month, other.month);
            if c != 0 {
                c
            } else {
                compare_u32(self.day, other.day)
            }
        }
    }
}

impl SortKey for IndexEntry {
    open spec fn key_cmp(a: IndexEntry, b: IndexEntry) -> int {
        entry_cmp(a@, b@)
    }

    proof fn lemma_key_cmp(a: IndexEntry, b: IndexEntry, c: IndexEntry) {
        lemma_entry_cmp(a@, b@, c@);
    }

    fn compare(&self, other: &IndexEntry) -> (r: i8) {
        let c = self.cdate.compare(&other.cdate);
        if c != 0 {
            return c;
        }
        let c = compare_text(self.href.as_str(), other.href.as_str());
        if c != 0 {
            return c;
        }
        let c = compare_text(self.title.as_str(), other.title.as_str());
        if c != 0 {
            return c;
        }
        let c = compare_text(self.author.as_str(), other.author.as_str());
        if c != 0 {
            return c;
        }
        compare_texts(&self.authors, &other.authors)
    }
}

impl SortKey for IndexRef {
    open spec fn key_cmp(a: IndexRef, b: IndexRef) -> int {
        ref_cmp(a@, b@)
    }

    proof fn lemma_key_cmp(a: IndexRef, b: IndexRef, c: IndexRef) {
        lemma_ref_cmp(a@, b@, c@);
    }

    fn compare(&self, other: &IndexRef) -> (r: i8) {
        let c = compare_text(self.name.as_str(), other.name.as_str());
        if c != 0 {
            return c;
        }
        let ra: u32 = match self.typ {
            IndexTyp::Directory => 0,
            IndexTyp::Tag => 1,
        };
        let rb: u32 = match other.typ {
            IndexTyp::Directory => 0,
            IndexTyp::Tag => 1,
        };
        compare_u32(ra, rb)
    }
}

impl IndexEntry {
    /// The entry of `post`, dated `cdate`, pointing at `lnk`.
    pub fn with_post_and_etc(post: &Post, cdate: DiaryDate, lnk: &str) -> (r: IndexEntry)
        ensures
            r@ == entry_of(*post, cdate, lnk@),
    {
        IndexEntry {
            cdate,
            href: lnk.to_owned(),
            title: post.title.clone(),
            author: post.author.clone(),
            authors: clone_texts(&post.authors),
        }
    }

    /// A copy with the same value.
    pub fn duplicate(&self) -> (r: IndexEntry)
        ensures
            r@ == self@,
    {
        IndexEntry {
            cdate: self.cdate,
            href: self.href.clone(),
            title: self.title.clone(),
            author: self.author.clone(),
            authors: clone_texts(&self.authors),
        }
    }
}

impl Default for Index {
    /// An empty directory index.
    fn default() -> (r: Index)
        ensures
            r.typ == IndexTyp::Directory,
            r.oidxrefs@.len() == 0,
            r.ents@.len() == 0,
    {
        Index { typ: IndexTyp::Directory, oidxrefs: Vec::new(), ents: Vec::new() }
    }
}

impl Index {
    /// Sorts both lists ascending; they keep the same items.
    pub fn prepare(&mut self)
        ensures
            final(self).typ == old(self).typ,
            sorted_by_key(final(self).oidxrefs@),
            final(self).oidxrefs@.to_multiset() == old(self).oidxrefs@.to_multiset(),
            sorted_by_key(final(self).ents@),
            final(self).ents@.to_multiset() == old(self).ents@.to_multiset(),
    {
        sort_by_key(&mut self.oidxrefs);
        sort_by_key(&mut self.ents);
    }
}

} // verus!
