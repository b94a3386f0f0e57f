//! The parts of page text that follow rules: the lines of child references
//! on an index page, and the body of an article from its mangled items.
use vstd::prelude::*;

use crate::index::{IndexRef, IndexTyp, RefView};
use crate::mangle::{item_view, mangled, Mangler};
use crate::aggregate::refs_view;
use crate::text::{chars_of, texts_view};

verus! {

broadcast use vstd::string::group_string_axioms;

/// The length, in bytes, past which a line of references is broken.
pub const OIDXREFS_LINE_MAXLEN: usize = 100;

/// `&` written as `&amp;`.
pub open spec fn amp_entity() -> Seq<char> {
    seq!['&', 'a', 'm', 'p', ';']
}

/// `s` with each `&` written as `&amp;`.
pub open spec fn escape_amp(s: Seq<char>) -> Seq<char>
    decreases s.len(),
{
    if s.len() == 0 {
        Seq::empty()
    } else {
        escape_amp(s.drop_last()) + if s.last() == '&' {
            amp_entity()
        } else {
            seq![s.last()]
        }
    }
}

/// The link to a child index: `<a href="NAME/index.html">NAME</a>` for a
/// directory, `<a href="NAME.html">NAME</a>` for a tag, with `&` escaped in
/// the address.
pub open spec fn ref_link(r: RefView) -> Seq<char> {
    seq!['<', 'a', ' ', 'h', 'r', 'e', 'f', '=', '"'] + escape_amp(r.name) + (if r.typ
        == IndexTyp::Directory {
        seq!['/', 'i', 'n', 'd', 'e', 'x']
    } else {
        Seq::empty()
    }) + seq!['.', 'h', 't', 'm', 'l', '"', '>'] + r.name + seq!['<', '/', 'a', '>']
}

/// The length of a name as `str::len` reports it: its UTF-8 bytes.
pub open spec fn name_len(s: Seq<char>) -> int {
    vstd::utf8::encode_utf8(s).len() as usize as int
}

/// The lines finished so far, the line being filled, and its counted
/// length, after laying out `refs` in order. A reference that would carry
/// the count past the maximum starts a new line (the line before it is
/// finished even when empty); references on one line are joined by ` - `,
/// and the count grows by each name's length and by 3 for each joint.
pub open spec fn ref_layout(refs: Seq<RefView>) -> (Seq<Seq<char>>, Seq<char>, int)
    decreases refs.len(),
{
    if refs.len() == 0 {
        (Seq::empty(), Seq::empty(), 0)
    } else {
        let (lines, cur, len) = ref_layout(refs.drop_last());
        let r = refs.last();
        let il = name_len(r.name);
        let (lines1, cur1, len1) = if len + il + 3 > OIDXREFS_LINE_MAXLEN {
            (lines.push(cur), Seq::<char>::empty(), 0)
        } else {
            (lines, cur, len)
        };
        let (cur2, len2) = if cur1.len() > 0 {
            (cur1 + seq![' ', '-', ' '], len1 + 3)
        } else {
            (cur1, len1)
        };
        (lines1, cur2 + ref_link(r), len2 + il)
    }
}

/// The lines of references an index page shows, its references taken in
/// reverse of their sorted order.
pub open spec fn ref_lines_spec(refs: Seq<RefView>) -> Seq<Seq<char>> {
    let (lines, cur, _) = ref_layout(refs.reverse());
    if cur.len() > 0 {
        lines.push(cur)
    } else {
        lines
    }
}

fn append_link(line: &mut String, r: &IndexRef)
    ensures
        final(line)@ == old(line)@ + ref_link(r@),
{
    let ghost start = line@;
    let open: [char; 9] = ['<', 'a', ' ', 'h', 'r', 'e', 'f', '=', '"'];
    push_chars(line, &open);
    let cs = chars_of(r.name.as_str());
    let mut i: usize = 0;
    while i < cs.len()
        invariant
            cs@ == r.name@,
            i <= cs@.len(),
            line@ == start + open@ + escape_amp(cs@.take(i as int)),
        decreases cs.len() - i,
    {
        proof {
            assert(cs@.take(i + 1).drop_last() =~= cs@.take(i as int));
        }
        if cs[i] == '&' {
            let amp: [char; 5] = ['&', 'a', 'm', 'p', ';'];
            push_chars(line, &amp);
            proof {
                assert(amp@ =~= amp_entity());
            }
        } else {
            line.push(cs[i]);
        }
        proof {
            assert(line@ =~= start + open@ + escape_amp(cs@.take(i + 1)));
        }
        i = i + 1;
    }
    proof {
        assert(cs@.take(cs@.len() as int) =~= cs@);
    }
    let ghost mid = line@;
    if r.typ == IndexTyp::Directory {
        let idx: [char; 6] = ['/', 'i', 'n', 'd', 'e', 'x'];
        push_chars(line, &idx);
    }
    let ghost dir_part = line@.skip(mid.len() as int);
    let close: [char; 7] = ['.', 'h', 't', 'm', 'l', '"', '>'];
    push_chars(line, &close);
    line.append(r.name.as_str());
    let end: [char; 4] = ['<', '/', 'a', '>'];
    push_chars(line, &end);
    proof {
        assert(line@ =~= start + ref_link(r@));
    }
}

/// Appends the characters of `cs`.
fn push_chars(s: &mut String, cs: &[char])
    ensures
        final(s)@ == old(s)@ + cs@,
{
    let ghost start = s@;
    let mut i: usize = 0;
    while i < cs.len()
        invariant
            i <= cs@.len(),
            s@ == start + cs@.take(i as int),
        decreases cs.len() - i,
    {
        s.push(cs[i]);
        proof {
            assert(cs@.take(i + 1) =~= cs@.take(i as int).push(cs@[i as int]));
        }
        i = i + 1;
    }
    proof {
        assert(cs@.take(cs@.len() as int) =~= cs@);
    }
}

/// The lines of references shown on an index page, each without its line
/// break.
pub fn ref_lines(refs: &Vec<IndexRef>) -> (r: Vec<String>)
    ensures
        texts_view(r@) == ref_lines_spec(refs_view(refs@)),
{
    let ghost rs = refs_view(refs@).reverse();
    let n = refs.len();
    let mut lines: Vec<String> = Vec::new();
    let mut cur = String::new();
    let mut cur_len: usize = 0;
    let mut k: usize = 0;
    proof {
        assert(rs.take(0) =~= Seq::<RefView>::empty());
        assert(texts_view(lines@) =~= Seq::<Seq<char>>::empty());
    }
    while k < n
        invariant
            n == refs@.len(),
            k <= n,
            rs == refs_view(refs@).reverse(),
            (texts_view(lines@), cur@, cur_len as int) == ref_layout(rs.take(k as int)),
        decreases n - k,
    {
        let r = &refs[n - 1 - k];
        let il = r.name.as_str().len();
        proof {
            assert(rs.take(k + 1).drop_last() =~= rs.take(k as int));
            assert(rs.take(k + 1).last() == r@);
        }
        if (cur_len as u128) + (il as u128) + 3 > 100 {
            let mut done = String::new();
            std::mem::swap(&mut cur, &mut done);
            let ghost before = lines@;
            lines.push(done);
            proof {
                assert(texts_view(lines@) =~= texts_view(before).push(done@));
            }
            cur_len = 0;
        }
        if !cur.as_str().is_empty() {
            let sep: [char; 3] = [' ', '-', ' '];
            push_chars(&mut cur, &sep);
            cur_len = cur_len + 3;
        }
        append_link(&mut cur, r);
        cur_len = cur_len + il;
        k = k + 1;
    }
    proof {
        assert(rs.take(n as int) =~= rs);
    }
    if !cur.as_str().is_empty() {
        let ghost before = lines@;
        lines.push(cur);
        proof {
            assert(texts_view(lines@) =~= texts_view(before).push(cur@));
        }
    }
    lines
}

/// The text one mangled item adds to an article, the first item being set
/// apart from the heading line before it.
pub open spec fn body_line(first: bool, item: (bool, Seq<char>)) -> Seq<char> {
    let lead = if first {
        if item.0 {
            seq!['\n', ' ', ' ', ' ', ' ']
        } else {
            seq!['<', 'b', 'r', ' ', '/', '>', '\n']
        }
    } else if item.0 {
        seq![' ', ' ', ' ', ' ']
    } else {
        Seq::empty()
    };
    lead + item.1 + seq!['\n']
}

/// The article text made of `items`: a flagged line is indented by four
/// spaces, every line ends with a newline.
pub open spec fn body_text(items: Seq<(bool, Seq<char>)>) -> Seq<char>
    decreases items.len(),
{
    if items.len() == 0 {
        Seq::empty()
    } else {
        body_text(items.drop_last()) + body_line(items.len() == 1, items.last())
    }
}

/// The body of an article page for `content`, built one item at a time.
pub fn article_body(m: &Mangler, content: &str) -> (r: String)
    ensures
        r@ == body_text(mangled(m.patterns(), content@)),
{
    let mut it = m.mangle_content(content);
    let ghost all = it.rest();
    let mut out = String::new();
    let mut first = true;
    let ghost mut count: int = 0;
    loop
        invariant
            it.wf(),
            all == mangled(m.patterns(), content@),
            0 <= count <= all.len(),
            first == (count == 0),
            it.rest() == all.skip(count),
            out@ == body_text(all.take(count)),
        decreases it.rest().len(),
    {
        match it.next() {
            None => {
                proof {
                    assert(all.take(count) =~= all);
                }
                return out;
            },
            Some(x) => {
                let lead: &[char] = if first {
                    if x.0 {
                        &['\n', ' ', ' ', ' ', ' ']
                    } else {
                        &['<', 'b', 'r', ' ', '/', '>', '\n']
                    }
                } else if x.0 {
                    &[' ', ' ', ' ', ' ']
                } else {
                    &[]
                };
                push_chars(&mut out, lead);
                out.append(x.1.as_str());
                out.push('\n');
                proof {
                    assert(all.take(count + 1).drop_last() =~= all.take(count));
                    assert(all.take(count + 1).last() == item_view(x));
                    assert(all.skip(count).drop_first() =~= all.skip(count + 1));
                    assert(out@ =~= body_text(all.take(count + 1)));
                }
                first = false;
                proof {
                    count = count + 1;
                }
            },
        }
    }
}

} // verus!
