//! The choices behind the syndication feed: which entries it lists, under
//! which URL, and how its texts are marked up.
use vstd::prelude::*;

use crate::index::{DiaryDate, IndexEntry};
use crate::rebuild::Timestamp;
use crate::paths::{is_relative_link, link_is_relative};
use crate::text::chars_of;

verus! {

broadcast use vstd::string::group_string_axioms;

/// The number of entries a feed lists.
pub const FEED_LEN: usize = 20;

/// How a feed text is to be read.
#[derive(Clone, Copy, Debug, PartialEq, Eq, Structural)]
pub enum TextKind {
    Text,
    Html,
}

/// Some character of `s` is `<`, `>` or `&`.
pub open spec fn has_markup(s: Seq<char>) -> bool {
    exists|i: int| 0 <= i < s.len() && (#[trigger] s[i] == '<' || s[i] == '>' || s[i] == '&')
}

/// HTML when the text holds a markup character, plain text otherwise.
pub fn guess_text_type(text: &str) -> (r: TextKind)
    ensures
        r == (if has_markup(text@) {
            TextKind::Html
        } else {
            TextKind::Text
        }),
{
    let cs = chars_of(text);
    let mut i: usize = 0;
    while i < cs.len()
        invariant
            cs@ == text@,
            i <= cs@.len(),
            forall|j: int| 0 <= j < i ==> !(#[trigger] cs@[j] == '<' || cs@[j] == '>' || cs@[j] == '&'),
        decreases cs.len() - i,
    {
        if cs[i] == '<' || cs[i] == '>' || cs[i] == '&' {
            return TextKind::Html;
        }
        i = i + 1;
    }
    TextKind::Text
}

/// The last `n` entries of `ents`, last first: in a sorted index, the
/// newest.
pub fn newest_first(ents: &Vec<IndexEntry>, n: usize) -> (r: Vec<IndexEntry>)
    ensures
        r@.len() == if n < ents@.len() {
            n as int
        } else {
            ents@.len() as int
        },
        forall|i: int| 0 <= i < r@.len() ==> (#[trigger] r@[i])@ == ents@[ents@.len() - 1 - i]@,
{
    let mut r: Vec<IndexEntry> = Vec::new();
    let len = ents.len();
    let mut i: usize = 0;
    while i < n && i < len
        invariant
            len == ents@.len(),
            i <= len,
            i <= n,
            r@.len() == i,
            forall|k: int| 0 <= k < i ==> (#[trigger] r@[k])@ == ents@[len - 1 - k]@,
        decreases len - i,
    {
        r.push(ents[len - 1 - i].duplicate());
        i = i + 1;
    }
    r
}

/// The address of a feed entry: a relative href is taken from the site's
/// address.
pub open spec fn feed_url(site: Seq<char>, href: Seq<char>) -> Seq<char> {
    if is_relative_link(href) {
        site + seq!['/'] + href
    } else {
        href
    }
}

/// The address under which an entry pointing at `href` is published.
pub fn feed_entry_url(site: &str, href: &str) -> (r: String)
    ensures
        r@ == feed_url(site@, href@),
{
    if link_is_relative(href) {
        let mut r = site.to_owned();
        r.push('/');
        r.append(href);
        r
    } else {
        href.to_owned()
    }
}

/// When a feed entry was last updated.
#[derive(Clone, Copy, Debug, PartialEq, Eq, Structural)]
pub enum EntryUpdated {
    /// The modification time of the entry's page.
    Modified(Timestamp),
    /// Midnight (UTC) of the post's date.
    Dated(DiaryDate),
}

/// An entry pointing at a page of the site is updated when its page was
/// last modified, or at its date when that time is unknown; an entry with
/// an absolute link is updated at its date.
pub open spec fn entry_updated(href: Seq<char>, page_mtime: Option<Timestamp>, cdate: DiaryDate) -> EntryUpdated {
    if is_relative_link(href) {
        match page_mtime {
            Some(t) => EntryUpdated::Modified(t),
            None => EntryUpdated::Dated(cdate),
        }
    } else {
        EntryUpdated::Dated(cdate)
    }
}

/// The update time of an entry pointing at `href`, dated `cdate`, whose page
/// (if it is one) was last modified at `page_mtime`.
pub fn feed_entry_updated(href: &str, page_mtime: Option<Timestamp>, cdate: DiaryDate) -> (r: EntryUpdated)
    ensures
        r == entry_updated(href@, page_mtime, cdate),
{
    if link_is_relative(href) {
        match page_mtime {
            Some(t) => EntryUpdated::Modified(t),
            None => EntryUpdated::Dated(cdate),
        }
    } else {
        EntryUpdated::Dated(cdate)
    }
}

} // verus!
