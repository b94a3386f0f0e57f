//! Arithmetic on slash-separated relative paths and on links.
//!
//! A path here is text whose components are separated by `/`, as the walk
//! produces them for pages below the output root: the parent of a path is
//! what precedes its last `/`, its base name what follows it. Paths are not
//! normalised: `.` components and doubled or trailing slashes are taken
//! as they stand.
use vstd::prelude::*;

use crate::text::chars_of;

verus! {

broadcast use vstd::string::group_string_axioms;

/// The position of the last `/` in `p`, or -1 when there is none.
pub open spec fn last_slash(p: Seq<char>) -> int
    decreases p.len(),
{
    if p.len() == 0 {
        -1
    } else if p.last() == '/' {
        p.len() - 1
    } else {
        last_slash(p.drop_last())
    }
}

/// The directory holding `p`: what precedes its last `/`, or `None` for a
/// path at the top level.
pub open spec fn parent_dir(p: Seq<char>) -> Option<Seq<char>> {
    if last_slash(p) < 0 {
        None
    } else {
        Some(p.take(last_slash(p)))
    }
}

/// The last component of `p`: what follows its last `/`.
pub open spec fn base_name(p: Seq<char>) -> Seq<char> {
    p.skip(last_slash(p) + 1)
}

pub proof fn lemma_last_slash(p: Seq<char>)
    ensures
        -1 <= last_slash(p) < p.len(),
        last_slash(p) >= 0 ==> p[last_slash(p)] == '/',
        forall|i: int| last_slash(p) < i < p.len() ==> p[i] != '/',
    decreases p.len(),
{
    if p.len() > 0 && p.last() != '/' {
        let q = p.drop_last();
        lemma_last_slash(q);
        assert forall|i: int| last_slash(p) < i < p.len() implies p[i] != '/' by {
            if i < q.len() {
                assert(p[i] == q[i]);
            }
        }
    }
}

/// A path is its parent, a `/`, and its base name.
pub proof fn lemma_parent_base(p: Seq<char>)
    ensures
        parent_dir(p) matches Some(d) ==> p == d + seq!['/'] + base_name(p) && d.len() < p.len(),
        parent_dir(p) is None ==> p == base_name(p),
{
    lemma_last_slash(p);
    let k = last_slash(p);
    if k >= 0 {
        assert(p =~= p.take(k) + seq!['/'] + p.skip(k + 1));
    } else {
        assert(p =~= p.skip(0));
    }
}

/// Finds the last `/` of `cs`.
pub fn find_last_slash(cs: &Vec<char>) -> (r: Option<usize>)
    ensures
        match r {
            Some(k) => k < cs@.len() && last_slash(cs@) == k as int,
            None => last_slash(cs@) == -1,
        },
{
    let mut i: usize = cs.len();
    proof {
        assert(cs@.take(i as int) =~= cs@);
    }
    while i > 0
        invariant
            i <= cs@.len(),
            last_slash(cs@) == last_slash(cs@.take(i as int)),
        decreases i,
    {
        if cs[i - 1] == '/' {
            return Some(i - 1);
        }
        proof {
            assert(cs@.take(i as int).drop_last() =~= cs@.take(i - 1));
        }
        i = i - 1;
    }
    None
}

/// A component of `p` starts at `i`: a character other than `/` at the
/// start or after a `/`.
pub open spec fn component_starts_at(p: Seq<char>, i: int) -> bool {
    0 <= i < p.len() && p[i] != '/' && (i == 0 || p[i - 1] == '/')
}

/// The number of components among the first `n` characters of `p`.
pub open spec fn components_in(p: Seq<char>, n: int) -> nat
    decreases n,
{
    if n <= 0 {
        0
    } else {
        components_in(p, n - 1) + if component_starts_at(p, n - 1) {
            1nat
        } else {
            0nat
        }
    }
}

/// The number of non-empty components of a slash-separated path.
pub open spec fn component_count(p: Seq<char>) -> nat {
    components_in(p, p.len() as int)
}

/// `../` repeated `d` times.
pub open spec fn ups(d: nat) -> Seq<char>
    decreases d,
{
    if d == 0 {
        Seq::empty()
    } else {
        ups((d - 1) as nat) + seq!['.', '.', '/']
    }
}

/// `index.html`
pub open spec fn index_html() -> Seq<char> {
    seq!['i', 'n', 'd', 'e', 'x', '.', 'h', 't', 'm', 'l']
}

/// The link from a page at path `p` back to the root index.
pub open spec fn back_to_idx_spec(p: Seq<char>) -> Seq<char> {
    ups((component_count(p) - 1) as nat) + index_html()
}

/// The relative link from the page at `p` to the root `index.html`: one
/// `../` for each directory above the page.
pub fn back_to_idx(p: &str) -> (r: String)
    requires
        component_count(p@) >= 1,
    ensures
        r@ == back_to_idx_spec(p@),
{
    let cs = chars_of(p);
    let mut count: usize = 0;
    let mut i: usize = 0;
    while i < cs.len()
        invariant
            i <= cs@.len(),
            cs@ == p@,
            count == components_in(cs@, i as int),
            count <= i,
        decreases cs.len() - i,
    {
        if cs[i] != '/' && (i == 0 || cs[i - 1] == '/') {
            count = count + 1;
        }
        i = i + 1;
    }
    let mut r = String::new();
    let mut d: usize = 0;
    while d + 1 < count
        invariant
            d + 1 <= count,
            r@ == ups(d as nat),
        decreases count - d,
    {
        r.push('.');
        r.push('.');
        r.push('/');
        proof {
            assert(r@ =~= ups((d + 1) as nat));
        }
        d = d + 1;
    }
    let tail: [char; 10] = ['i', 'n', 'd', 'e', 'x', '.', 'h', 't', 'm', 'l'];
    let mut j: usize = 0;
    while j < 10
        invariant
            j <= 10,
            tail@ == index_html(),
            r@ == ups(d as nat) + index_html().take(j as int),
        decreases 10 - j,
    {
        r.push(tail[j]);
        proof {
            assert(index_html().take(j + 1) =~= index_html().take(j as int).push(tail@[j as int]));
        }
        j = j + 1;
    }
    proof {
        assert(index_html().take(10) =~= index_html());
    }
    r
}

/// A link is relative when it neither starts with `/` nor names a scheme
/// with `://`.
pub open spec fn is_relative_link(l: Seq<char>) -> bool {
    !(l.len() > 0 && l[0] == '/') && !exists|i: int|
        0 <= i && i + 2 < l.len() && #[trigger] l[i] == ':' && l[i + 1] == '/' && l[i + 2] == '/'
}

/// Whether `l` is a relative link.
pub fn link_is_relative(l: &str) -> (r: bool)
    ensures
        r == is_relative_link(l@),
{
    let cs = chars_of(l);
    if cs.len() > 0 && cs[0] == '/' {
        return false;
    }
    let mut i: usize = 0;
    while cs.len() >= 3 && i < cs.len() - 2
        invariant
            cs@ == l@,
            forall|k: int|
                0 <= k < i && k + 2 < cs@.len() ==> !(#[trigger] cs@[k] == ':' && cs@[k + 1] == '/'
                    && cs@[k + 2] == '/'),
        decreases cs.len() - i,
    {
        if cs[i] == ':' && cs[i + 1] == '/' && cs[i + 2] == '/' {
            return false;
        }
        i = i + 1;
    }
    true
}

/// Where an index entry of a link post points: a relative link is taken
/// from the post's directory, so it is prefixed with that directory.
pub open spec fn link_href(page: Seq<char>, link: Seq<char>) -> Seq<char> {
    if is_relative_link(link) {
        match parent_dir(page) {
            Some(d) => d + seq!['/'] + link,
            None => link,
        }
    } else {
        link
    }
}

/// A directory entry is shown unless it is hidden: the walk's root is
/// always shown, any other entry when its name is readable and does not
/// start with `.`.
pub open spec fn not_hidden(depth: usize, file_name: Option<Seq<char>>) -> bool {
    depth == 0 || match file_name {
        Some(n) => !(n.len() > 0 && n[0] == '.'),
        None => false,
    }
}

/// Whether a directory entry at `depth`, named `file_name` (when its name
/// is valid text), is visited.
pub fn is_not_hidden(depth: usize, file_name: Option<&str>) -> (r: bool)
    ensures
        r == not_hidden(depth, match file_name {
            Some(n) => Some(n@),
            None => None,
        }),
{
    if depth == 0 {
        return true;
    }
    match file_name {
        Some(n) => {
            let cs = chars_of(n);
            !(cs.len() > 0 && cs[0] == '.')
        },
        None => false,
    }
}

} // verus!
