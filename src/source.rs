//! Reading one source record: its header/body split, its date, and what it
//! contributes to the indexes.
use chrono::Datelike;
use vstd::prelude::*;

use crate::aggregate::{post_added, Aggregator};
use crate::index::{DiaryDate, Post, PostTyp};
use crate::text::{chars_of, string_of};

verus! {

broadcast use vstd::string::group_string_axioms;

/// The line that ends a record's header: `"\n---\n"`.
pub open spec fn header_end() -> Seq<char> {
    seq!['\n', '-', '-', '-', '\n']
}

/// The header terminator starts at position `i` of `s`.
pub open spec fn header_end_at(s: Seq<char>, i: int) -> bool {
    0 <= i && i + 5 <= s.len() && s.subrange(i, i + 5) == header_end()
}

/// Splits a record at its first header terminator: the header keeps the
/// newline before `---`, the body starts after the newline that follows
/// it. `None` when the record has no terminator.
pub fn split_header(data: &str) -> (r: Option<(String, String)>)
    ensures
        match r {
            None => forall|i: int| !#[trigger] header_end_at(data@, i),
            Some((h, b)) => exists|k: int|
                #[trigger] header_end_at(data@, k) && (forall|j: int| 0 <= j < k ==> !#[trigger] header_end_at(data@, j))
                    && h@ == data@.take(k + 1) && b@ == data@.skip(k + 5),
        },
{
    let cs = chars_of(data);
    let n = cs.len();
    let mut k: usize = 0;
    while n >= 5 && k <= n - 5
        invariant
            cs@ == data@,
            n == cs@.len(),
            forall|j: int| 0 <= j < k ==> !#[trigger] header_end_at(data@, j),
        decreases n - k,
    {
        if cs[k] == '\n' && cs[k + 1] == '-' && cs[k + 2] == '-' && cs[k + 3] == '-' && cs[k + 4] == '\n' {
            let h = string_of(cs.as_slice(), 0, k + 1);
            let b = string_of(cs.as_slice(), k + 5, n);
            proof {
                assert(data@.subrange(k as int, k + 5) =~= header_end());
                assert(header_end_at(data@, k as int));
                assert(h@ =~= data@.take(k + 1));
                assert(b@ =~= data@.skip(k + 5));
            }
            return Some((h, b));
        }
        proof {
            if header_end_at(data@, k as int) {
                assert(data@.subrange(k as int, k + 5)[0] == cs@[k as int]);
                assert(data@.subrange(k as int, k + 5)[1] == cs@[k + 1]);
                assert(data@.subrange(k as int, k + 5)[2] == cs@[k + 2]);
                assert(data@.subrange(k as int, k + 5)[3] == cs@[k + 3]);
                assert(data@.subrange(k as int, k + 5)[4] == cs@[k + 4]);
            }
        }
        k = k + 1;
    }
    None
}

/// The date a diary path names.
pub uninterp spec fn diary_date_of(path: Seq<char>) -> Option<DiaryDate>;

/// Relies on `yz_diary_date::parse_from_path`: the date named by the last
/// components of a diary path (a year directory, then month and day), when
/// they name a valid calendar date; it depends on the path alone. The date
/// comes from `chrono::NaiveDate::from_ymd_opt`, which only returns dates
/// that exist.
#[verifier::external_body]
fn parse_diary_date(path: &str) -> (r: Option<DiaryDate>)
    ensures
        r == diary_date_of(path@),
        r matches Some(d) ==> d.is_valid(),
{
    match yz_diary_date::parse_from_path(std::path::Path::new(path)) {
        Some(d) => Some(DiaryDate { year: d.year(), month: d.month(), day: d.day() }),
        None => None,
    }
}

/// A character with the Unicode White_Space property.
pub open spec fn is_white_space(c: char) -> bool {
    let u = c as u32;
    (0x9 <= u <= 0xd) || u == 0x20 || u == 0x85 || u == 0xa0 || u == 0x1680 || (0x2000 <= u
        <= 0x200a) || u == 0x2028 || u == 0x2029 || u == 0x202f || u == 0x205f || u == 0x3000
}

/// Text without its leading white space.
pub open spec fn trim_front(s: Seq<char>) -> Seq<char>
    decreases s.len(),
{
    if s.len() > 0 && is_white_space(s[0]) {
        trim_front(s.drop_first())
    } else {
        s
    }
}

/// Text without its trailing white space.
pub open spec fn trim_back(s: Seq<char>) -> Seq<char>
    decreases s.len(),
{
    if s.len() > 0 && is_white_space(s.last()) {
        trim_back(s.drop_last())
    } else {
        s
    }
}

/// Text without its leading and trailing white space.
pub open spec fn trimmed(s: Seq<char>) -> Seq<char> {
    trim_back(trim_front(s))
}

/// Relies on `str::trim`: the text without the leading and trailing
/// characters that have the Unicode White_Space property.
#[verifier::external_body]
fn trim_text(s: &str) -> (r: &str)
    ensures
        r@ == trimmed(s@),
{
    s.trim()
}

/// Why a record could not be indexed.
#[derive(Clone, Copy, Debug, PartialEq, Eq, Structural)]
pub enum SourceError {
    /// The record's path names no diary date.
    NoDiaryDate,
}

/// Where a post points when it is not rendered to its own page: a link
/// post's body, trimmed, is its link.
pub open spec fn post_link(typ: PostTyp, body: Seq<char>) -> Option<Seq<char>> {
    match typ {
        PostTyp::Link => Some(trimmed(body)),
        PostTyp::Text => None,
    }
}

/// Indexes one record whose page lies at `page_path` and whose body is
/// `body`, dated by the path. A link post points at its trimmed body, a
/// text post at its page.
pub fn index_post(agg: &mut Aggregator, post: &Post, page_path: &str, body: &str) -> (r: Result<DiaryDate, SourceError>)
    requires
        old(agg).wf(),
    ensures
        final(agg).wf(),
        r matches Ok(d) ==> d.is_valid(),
        match diary_date_of(page_path@) {
            None => r == Err::<DiaryDate, SourceError>(SourceError::NoDiaryDate) && *final(agg) == *old(agg),
            Some(d) => r == Ok::<DiaryDate, SourceError>(d) && post_added(
                *old(agg),
                *final(agg),
                *post,
                d,
                page_path@,
                post_link(post.typ, body@),
            ),
        },
{
    let cdate = match parse_diary_date(page_path) {
        Some(d) => d,
        None => return Err(SourceError::NoDiaryDate),
    };
    match post.typ {
        PostTyp::Link => {
            let link = trim_text(body);
            agg.add_post(post, cdate, page_path, Some(link));
        },
        PostTyp::Text => {
            agg.add_post(post, cdate, page_path, None);
        },
    }
    Ok(cdate)
}

} // verus!
