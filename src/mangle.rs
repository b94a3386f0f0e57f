//! Paragraph mangling of post bodies.
//!
//! A body is cut into sections at each blank line (`"\n\n"`). A section that
//! mentions one of the passthrough tags, opening or closing, anywhere in its
//! text is emitted line by line as it stands. Any other section is wrapped:
//! a `<p>` marker, its lines, then a `</p>` marker, each flagged for
//! indentation.
use aho_corasick::{AhoCorasick, BuildError};
use vstd::prelude::*;

use crate::text::{chars_of, string_of};

verus! {

broadcast use vstd::string::group_string_axioms;

/// The search automaton of `aho_corasick`, opaque here.
#[verifier::external_type_specification]
#[verifier::external_body]
pub struct ExAhoCorasick(AhoCorasick);

/// The error `aho_corasick` reports when an automaton cannot be built.
#[verifier::external_type_specification]
#[verifier::external_body]
pub struct ExBuildError(BuildError);

/// The patterns an automaton searches for: what it was built from.
pub uninterp spec fn automaton_patterns(ac: AhoCorasick) -> Seq<Seq<char>>;

/// `pat` occurs in `hay` as a contiguous run of characters.
pub open spec fn occurs(hay: Seq<char>, pat: Seq<char>) -> bool {
    exists|i: int| 0 <= i && i + pat.len() <= hay.len() && #[trigger] hay.subrange(i, i + pat.len()) == pat
}

/// Some pattern of `pats` occurs in `hay`.
pub open spec fn occurs_any(pats: Seq<Seq<char>>, hay: Seq<char>) -> bool {
    exists|j: int| 0 <= j < pats.len() && #[trigger] occurs(hay, pats[j])
}

/// Whether an automaton can be built for the given patterns.
pub uninterp spec fn automaton_builds(pats: Seq<Seq<char>>) -> bool;

/// A small pattern set: at most 100 patterns of at most 100 characters.
pub open spec fn small_pattern_set(pats: Seq<Seq<char>>) -> bool {
    pats.len() <= 100 && forall|i: int| 0 <= i < pats.len() ==> #[trigger] pats[i].len() <= 100
}

/// Relies on `aho_corasick::AhoCorasick::new`: it succeeds or fails
/// depending on the patterns alone, and fails only when an identifier of
/// the automaton (pattern, state, transition or match) would pass its limit
/// of about 2^31, which a small pattern set stays far below. On success the
/// automaton searches for exactly the given patterns, with standard match
/// semantics.
#[verifier::external_body]
fn build_automaton(pats: &Vec<String>) -> (r: Result<AhoCorasick, BuildError>)
    ensures
        r is Ok <==> automaton_builds(pats@.map_values(|p: String| p@)),
        small_pattern_set(pats@.map_values(|p: String| p@)) ==> r is Ok,
        r matches Ok(ac) ==> automaton_patterns(ac) == pats@.map_values(|p: String| p@),
{
    AhoCorasick::new(pats)
}

/// Relies on `aho_corasick::AhoCorasick::is_match`: true if and only if one
/// of the automaton's patterns occurs somewhere in the haystack.
#[verifier::external_body]
fn automaton_is_match(ac: &AhoCorasick, hay: &str) -> (r: bool)
    ensures
        r == occurs_any(automaton_patterns(*ac), hay@),
{
    ac.is_match(hay)
}

/// `<t>`
pub open spec fn open_tag(t: Seq<char>) -> Seq<char> {
    seq!['<'] + t + seq!['>']
}

/// `</t>`
pub open spec fn close_tag(t: Seq<char>) -> Seq<char> {
    seq!['<', '/'] + t + seq!['>']
}

/// The opening and closing form of each tag, in the order of the tags.
pub open spec fn tag_patterns(tags: Seq<Seq<char>>) -> Seq<Seq<char>>
    decreases tags.len(),
{
    if tags.len() == 0 {
        Seq::empty()
    } else {
        tag_patterns(tags.drop_last()) + seq![open_tag(tags.last()), close_tag(tags.last())]
    }
}

/// A section mentions a tag when its opening or closing form occurs in it.
pub open spec fn mentions_tag(tags: Seq<Seq<char>>, sec: Seq<char>) -> bool {
    exists|k: int|
        0 <= k < tags.len() && (#[trigger] occurs(sec, open_tag(tags[k])) || occurs(
            sec,
            close_tag(tags[k]),
        ))
}

/// The marker that opens a wrapped section.
pub open spec fn para_open() -> Seq<char> {
    seq!['<', 'p', '>']
}

/// The marker that closes a wrapped section.
pub open spec fn para_close() -> Seq<char> {
    seq!['<', '/', 'p', '>']
}

/// A line without one trailing carriage return.
pub open spec fn strip_cr(l: Seq<char>) -> Seq<char> {
    if l.len() > 0 && l.last() == '\r' {
        l.drop_last()
    } else {
        l
    }
}

/// The lines of `s[start..]`, scanning from `i`: a line ends at `\n` (with a
/// `\r` before it dropped); the last line needs no terminator, and an empty
/// remainder gives no line.
pub open spec fn lines_acc(s: Seq<char>, start: int, i: int) -> Seq<Seq<char>>
    decreases s.len() - i,
{
    if i >= s.len() {
        if start < s.len() {
            seq![s.subrange(start, s.len() as int)]
        } else {
            Seq::empty()
        }
    } else if s[i] == '\n' {
        seq![strip_cr(s.subrange(start, i))] + lines_acc(s, i + 1, i + 1)
    } else {
        lines_acc(s, start, i + 1)
    }
}

/// The lines of `s`.
pub open spec fn lines_of(s: Seq<char>) -> Seq<Seq<char>> {
    lines_acc(s, 0, 0)
}

/// Each line of `ls`, paired with the flag `wrap`.
pub open spec fn flagged(wrap: bool, ls: Seq<Seq<char>>) -> Seq<(bool, Seq<char>)> {
    ls.map_values(|l: Seq<char>| (wrap, l))
}

/// What one section becomes: its lines unflagged when a pattern occurs in
/// it, else its lines flagged and framed by the two markers.
pub open spec fn section_items(pats: Seq<Seq<char>>, sec: Seq<char>) -> Seq<(bool, Seq<char>)> {
    if occurs_any(pats, sec) {
        flagged(false, lines_of(sec))
    } else {
        seq![(true, para_open())] + flagged(true, lines_of(sec)) + seq![(true, para_close())]
    }
}

/// The items of `s[start..]`, scanning for the next `"\n\n"` from `i`.
pub open spec fn mangled_acc(pats: Seq<Seq<char>>, s: Seq<char>, start: int, i: int) -> Seq<
    (bool, Seq<char>),
>
    decreases s.len() - i,
{
    if i >= s.len() {
        section_items(pats, s.subrange(start, s.len() as int))
    } else if i + 1 < s.len() && s[i] == '\n' && s[i + 1] == '\n' {
        section_items(pats, s.subrange(start, i)) + mangled_acc(pats, s, i + 2, i + 2)
    } else {
        mangled_acc(pats, s, start, i + 1)
    }
}

/// The items of a whole body.
pub open spec fn mangled(pats: Seq<Seq<char>>, s: Seq<char>) -> Seq<(bool, Seq<char>)> {
    mangled_acc(pats, s, 0, 0)
}

/// The sections of `s[start..]`, scanning for the next `"\n\n"` from `i`.
pub open spec fn sections_acc(s: Seq<char>, start: int, i: int) -> Seq<Seq<char>>
    decreases s.len() - i,
{
    if i >= s.len() {
        seq![s.subrange(start, s.len() as int)]
    } else if i + 1 < s.len() && s[i] == '\n' && s[i + 1] == '\n' {
        seq![s.subrange(start, i)] + sections_acc(s, i + 2, i + 2)
    } else {
        sections_acc(s, start, i + 1)
    }
}

/// The sections of a body: the pieces between occurrences of `"\n\n"`,
/// taken from left to right.
pub open spec fn sections(s: Seq<char>) -> Seq<Seq<char>> {
    sections_acc(s, 0, 0)
}

/// Both items, in order.
pub fn diiter<T>(a: T, b: T) -> (r: Vec<T>)
    ensures
        r@ == seq![a, b],
{
    let mut r: Vec<T> = Vec::new();
    r.push(a);
    r.push(b);
    proof {
        assert(r@ =~= seq![a, b]);
    }
    r
}

/// Why a mangler could not be built.
#[derive(Clone, Copy, Debug, PartialEq, Eq)]
pub enum MangleError {
    /// The search automaton for the passthrough tags exceeded its limits.
    PatternSetTooLarge,
}

/// A small tag set: at most 50 tags of at most 97 characters, so that
/// their opening and closing forms make a small pattern set.
pub open spec fn small_tag_set(tags: Seq<Seq<char>>) -> bool {
    tags.len() <= 50 && forall|i: int| 0 <= i < tags.len() ==> #[trigger] tags[i].len() <= 97
}

proof fn lemma_small_tag_set(tags: Seq<Seq<char>>)
    requires
        small_tag_set(tags),
    ensures
        small_pattern_set(tag_patterns(tags)),
{
    lemma_tag_patterns(tags);
    let pats = tag_patterns(tags);
    assert forall|j: int| 0 <= j < pats.len() implies #[trigger] pats[j].len() <= 100 by {
        let k = j / 2;
        assert(j == 2 * k || j == 2 * k + 1);
        assert(tags[k].len() <= 97);
        if j == 2 * k {
            assert(pats[j] == open_tag(tags[k]));
        } else {
            assert(pats[j] == close_tag(tags[k]));
        }
    }
}

/// Blog content mangler: inserts paragraph markup around sections that hold
/// no passthrough tag.
pub struct Mangler {
    ahos: AhoCorasick,
    tags: Ghost<Seq<Seq<char>>>,
}

impl Mangler {
    /// The passthrough tags.
    pub closed spec fn tags(&self) -> Seq<Seq<char>> {
        self.tags@
    }

    /// The patterns whose presence exempts a section from wrapping.
    pub closed spec fn patterns(&self) -> Seq<Seq<char>> {
        automaton_patterns(self.ahos)
    }

    /// A mangler that passes through sections holding `<t>` or `</t>` for a
    /// tag `t` of `dont_mangle`.
    pub fn new(dont_mangle: &[&str]) -> (r: Result<Mangler, MangleError>)
        ensures
            r is Ok <==> automaton_builds(tag_patterns(dont_mangle@.map_values(|t: &str| t@))),
            small_tag_set(dont_mangle@.map_values(|t: &str| t@)) ==> r is Ok,
            r matches Ok(m) ==> m.tags() == dont_mangle@.map_values(|t: &str| t@) && m.patterns()
                == tag_patterns(m.tags()),
    {
        let ghost tags = dont_mangle@.map_values(|t: &str| t@);
        let mut pats: Vec<String> = Vec::new();
        let mut i: usize = 0;
        while i < dont_mangle.len()
            invariant
                i <= dont_mangle@.len(),
                tags == dont_mangle@.map_values(|t: &str| t@),
                pats@.map_values(|p: String| p@) == tag_patterns(tags.take(i as int)),
            decreases dont_mangle.len() - i,
        {
            let t: &str = dont_mangle[i];
            let mut open = String::new();
            open.push('<');
            open.append(t);
            open.push('>');
            let mut close = String::new();
            close.push('<');
            close.push('/');
            close.append(t);
            close.push('>');
            let mut two = diiter(open, close);
            let ghost prev = pats@;
            pats.append(&mut two);
            proof {
                let ts = tags.take(i as int + 1);
                assert(ts.drop_last() =~= tags.take(i as int));
                assert(ts.last() == t@);
                assert(open@ =~= open_tag(t@));
                assert(close@ =~= close_tag(t@));
                assert(pats@.map_values(|p: String| p@) =~= prev.map_values(|p: String| p@)
                    + seq![open@, close@]);
            }
            i = i + 1;
        }
        proof {
            assert(tags.take(dont_mangle@.len() as int) =~= tags);
            if small_tag_set(tags) {
                lemma_small_tag_set(tags);
            }
        }
        match build_automaton(&pats) {
            Ok(ahos) => Ok(Mangler { ahos, tags: Ghost(tags) }),
            Err(_) => Err(MangleError::PatternSetTooLarge),
        }
    }
}

/// The plain form of an emitted item.
pub open spec fn item_view(x: (bool, String)) -> (bool, Seq<char>) {
    (x.0, x.1@)
}

fn marker(close: bool) -> (r: String)
    ensures
        r@ == (if close {
            para_close()
        } else {
            para_open()
        }),
{
    let mut r = String::new();
    r.push('<');
    if close {
        r.push('/');
    }
    r.push('p');
    r.push('>');
    proof {
        if close {
            assert(r@ =~= para_close());
        } else {
            assert(r@ =~= para_open());
        }
    }
    r
}

/// The items of one section, decided by one search of the whole section.
fn section_to_items(ahos: &AhoCorasick, sec: &Vec<char>) -> (r: Vec<(bool, String)>)
    ensures
        r@.map_values(|x: (bool, String)| item_view(x)) == section_items(
            automaton_patterns(*ahos),
            sec@,
        ),
{
    let text = string_of(sec.as_slice(), 0, sec.len());
    proof {
        assert(sec@.subrange(0, sec@.len() as int) =~= sec@);
    }
    let keep = automaton_is_match(ahos, text.as_str());
    let wrap = !keep;
    let ghost s = sec@;
    let mut out: Vec<(bool, String)> = Vec::new();
    if wrap {
        out.push((true, marker(false)));
    }
    let ghost head: Seq<(bool, Seq<char>)> = if wrap {
        seq![(true, para_open())]
    } else {
        Seq::empty()
    };
    let ghost done_lines: Seq<Seq<char>> = Seq::empty();
    proof {
        assert(out@.map_values(|x: (bool, String)| item_view(x)) =~= head + flagged(wrap, done_lines));
    }
    let mut start: usize = 0;
    let mut i: usize = 0;
    while i < sec.len()
        invariant
            start <= i <= sec@.len(),
            s == sec@,
            lines_of(s) == done_lines + lines_acc(s, start as int, i as int),
            out@.map_values(|x: (bool, String)| item_view(x)) == head + flagged(wrap, done_lines),
        decreases sec.len() - i,
    {
        if sec[i] == '\n' {
            let mut end: usize = i;
            if end > start && sec[end - 1] == '\r' {
                end = end - 1;
            }
            let line = string_of(sec.as_slice(), start, end);
            proof {
                assert(line@ =~= strip_cr(s.subrange(start as int, i as int)));
            }
            let ghost prev = out@;
            out.push((wrap, line));
            proof {
                assert(lines_acc(s, start as int, i as int) =~= seq![line@] + lines_acc(
                    s,
                    i + 1,
                    i + 1,
                ));
                assert(done_lines + lines_acc(s, start as int, i as int) =~= done_lines.push(line@)
                    + lines_acc(s, i + 1, i + 1));
                assert(out@.map_values(|x: (bool, String)| item_view(x)) =~= prev.map_values(
                    |x: (bool, String)| item_view(x),
                ).push((wrap, line@)));
                assert(flagged(wrap, done_lines.push(line@)) =~= flagged(wrap, done_lines).push(
                    (wrap, line@),
                ));
                done_lines = done_lines.push(line@);
            }
            start = i + 1;
        }
        i = i + 1;
    }
    if start < sec.len() {
        let line = string_of(sec.as_slice(), start, sec.len());
        let ghost prev = out@;
        out.push((wrap, line));
        proof {
            assert(lines_acc(s, start as int, i as int) =~= seq![line@]);
            assert(out@.map_values(|x: (bool, String)| item_view(x)) =~= prev.map_values(
                |x: (bool, String)| item_view(x),
            ).push((wrap, line@)));
            assert(flagged(wrap, done_lines.push(line@)) =~= flagged(wrap, done_lines).push(
                (wrap, line@),
            ));
            done_lines = done_lines.push(line@);
        }
    } else {
        proof {
            assert(lines_acc(s, start as int, i as int) =~= Seq::<Seq<char>>::empty());
        }
    }
    proof {
        assert(done_lines =~= lines_of(s));
    }
    if wrap {
        let ghost prev = out@;
        out.push((true, marker(true)));
        proof {
            assert(out@.map_values(|x: (bool, String)| item_view(x)) =~= prev.map_values(
                |x: (bool, String)| item_view(x),
            ).push((true, para_close())));
        }
    }
    proof {
        assert(out@.map_values(|x: (bool, String)| item_view(x)) =~= section_items(
            automaton_patterns(*ahos),
            s,
        ));
    }
    out
}

/// A blank line, `"\n\n"`, starts at position `i` of `s`.
pub open spec fn blank_at(s: Seq<char>, i: int) -> bool {
    0 <= i && i + 1 < s.len() && s[i] == '\n' && s[i + 1] == '\n'
}

/// `pat` starts at position `i` of `s`.
pub open spec fn occurs_at(s: Seq<char>, pat: Seq<char>, i: int) -> bool {
    0 <= i && i + pat.len() <= s.len() && s.subrange(i, i + pat.len()) == pat
}

/// Relies on `str::split_once`: the text before the first occurrence of
/// `pat` and the text after it, or `None` when `pat` does not occur.
#[verifier::external_body]
fn split_once_str<'s>(s: &'s str, pat: &str) -> (r: Option<(&'s str, &'s str)>)
    ensures
        match r {
            Some((a, b)) => s@ == a@ + pat@ + b@ && forall|i: int|
                0 <= i < a@.len() ==> !#[trigger] occurs_at(s@, pat@, i),
            None => forall|i: int| !#[trigger] occurs_at(s@, pat@, i),
        },
{
    s.split_once(pat)
}

/// Scanning past positions where no blank line starts leaves the items
/// unchanged.
proof fn lemma_scan_past(pats: Seq<Seq<char>>, s: Seq<char>, start: int, i: int, k: int)
    requires
        0 <= i <= k <= s.len(),
        forall|p: int| i <= p < k ==> !#[trigger] blank_at(s, p),
    ensures
        mangled_acc(pats, s, start, i) == mangled_acc(pats, s, start, k),
    decreases k - i,
{
    if i < k {
        assert(!blank_at(s, i));
        lemma_scan_past(pats, s, start, i + 1, k);
    }
}

/// Lazily yields the items of one body: at most one section is held at a
/// time.
pub struct MangleIter<'a, 'i> {
    ahos: &'a AhoCorasick,
    rest: &'i str,
    pending: Vec<(bool, String)>,
    pos: usize,
    input_done: bool,
    body: Ghost<Seq<char>>,
    consumed: Ghost<int>,
}

impl<'a, 'i> MangleIter<'a, 'i> {
    /// The patterns that exempt a section from wrapping.
    pub closed spec fn patterns(&self) -> Seq<Seq<char>> {
        automaton_patterns(*self.ahos)
    }

    /// The unread text is what follows the part of the body consumed so
    /// far, and the pending position lies within the pending items.
    pub closed spec fn wf(&self) -> bool {
        &&& 0 <= self.consumed@ <= self.body@.len()
        &&& !self.input_done ==> self.rest@ == self.body@.skip(self.consumed@)
        &&& self.pos <= self.pending@.len()
    }

    /// The items not yet yielded.
    pub closed spec fn rest(&self) -> Seq<(bool, Seq<char>)> {
        self.pending@.skip(self.pos as int).map_values(|x: (bool, String)| item_view(x)) + if self.input_done {
            Seq::<(bool, Seq<char>)>::empty()
        } else {
            mangled_acc(self.patterns(), self.body@, self.consumed@, self.consumed@)
        }
    }

    spec fn progress(&self) -> int {
        (self.body@.len() - self.consumed@) * 2 + if self.input_done {
            0int
        } else {
            1int
        }
    }

    /// Cuts the next section off the unread text and turns it into pending
    /// items.
    fn load_section(&mut self)
        requires
            old(self).wf(),
            !old(self).input_done,
            old(self).pos == old(self).pending@.len(),
        ensures
            final(self).wf(),
            final(self).patterns() == old(self).patterns(),
            final(self).rest() == old(self).rest(),
            final(self).progress() < old(self).progress(),
    {
        let ghost s = self.body@;
        let ghost c = self.consumed@;
        let ghost pats = self.patterns();
        let sec: Vec<char>;
        let sep = "\n\n";
        proof {
            reveal_strlit("\n\n");
            assert(sep@ =~= seq!['\n', '\n']);
        }
        match split_once_str(self.rest, sep) {
            Some((a, b)) => {
                sec = chars_of(a);
                proof {
                    let n = a@.len() as int;
                    let r = self.rest@;
                    assert(r =~= a@ + seq!['\n', '\n'] + b@);
                    assert(r.len() == s.len() - c);
                    assert(forall|k: int| 0 <= k < r.len() ==> #[trigger] r[k] == s[c + k]);
                    assert forall|p: int| c <= p < c + n implies !#[trigger] blank_at(s, p) by {
                        if blank_at(s, p) {
                            assert(r.subrange(p - c, p - c + 2) =~= sep@);
                            assert(occurs_at(r, sep@, p - c));
                        }
                    }
                    lemma_scan_past(pats, s, c, c, c + n);
                    assert(s[c + n] == '\n' && s[c + n + 1] == '\n') by {
                        assert(s[c + n] == self.rest@[n]);
                        assert(s[c + n + 1] == self.rest@[n + 1]);
                    }
                    assert(s.subrange(c, c + n) =~= a@) by {
                        assert forall|q: int| 0 <= q < n implies s.subrange(c, c + n)[q] == a@[q] by {
                            assert(s[c + q] == self.rest@[q]);
                        }
                    }
                    assert(b@ =~= s.skip(c + n + 2)) by {
                        assert forall|q: int| 0 <= q < b@.len() implies b@[q] == s.skip(c + n + 2)[q] by {
                            assert(r[n + 2 + q] == b@[q]);
                        }
                    }
                }
                self.rest = b;
                self.consumed = Ghost(c + a@.len() + 2);
            },
            None => {
                sec = chars_of(self.rest);
                proof {
                    let r = self.rest@;
                    assert(forall|k: int| 0 <= k < r.len() ==> #[trigger] r[k] == s[c + k]);
                    assert forall|p: int| c <= p < s.len() implies !#[trigger] blank_at(s, p) by {
                        if blank_at(s, p) {
                            assert(r.subrange(p - c, p - c + 2) =~= sep@);
                            assert(occurs_at(r, sep@, p - c));
                        }
                    }
                    lemma_scan_past(pats, s, c, c, s.len() as int);
                    assert(self.rest@ =~= s.subrange(c, s.len() as int));
                }
                self.input_done = true;
                self.consumed = Ghost(s.len() as int);
            },
        }
        self.pending = section_to_items(self.ahos, &sec);
        self.pos = 0;
        proof {
            assert(self.pending@.skip(0) =~= self.pending@);
            assert(old(self).pending@.skip(old(self).pos as int) =~= Seq::<(bool, String)>::empty());
            assert(old(self).pending@.skip(old(self).pos as int).map_values(
                |x: (bool, String)| item_view(x),
            ) =~= Seq::<(bool, Seq<char>)>::empty());
        }
    }

    /// The next item, or `None` once the whole body has been yielded.
    pub fn next(&mut self) -> (r: Option<(bool, String)>)
        requires
            old(self).wf(),
        ensures
            final(self).wf(),
            final(self).patterns() == old(self).patterns(),
            match r {
                None => old(self).rest().len() == 0 && final(self).rest() == old(self).rest(),
                Some(x) => old(self).rest().len() > 0 && item_view(x) == old(self).rest()[0]
                    && final(self).rest() == old(self).rest().drop_first(),
            },
    {
        loop
            invariant
                self.wf(),
                self.patterns() == old(self).patterns(),
                self.rest() == old(self).rest(),
            decreases self.progress(),
        {
            if self.pos < self.pending.len() {
                let item = (self.pending[self.pos].0, self.pending[self.pos].1.clone());
                proof {
                    let ps = self.pending@.skip(self.pos as int);
                    assert(ps.drop_first() =~= self.pending@.skip(self.pos + 1));
                    assert(ps.map_values(|x: (bool, String)| item_view(x)).drop_first()
                        =~= ps.drop_first().map_values(|x: (bool, String)| item_view(x)));
                    assert(self.rest().drop_first() =~= ps.drop_first().map_values(
                        |x: (bool, String)| item_view(x),
                    ) + if self.input_done {
                        Seq::<(bool, Seq<char>)>::empty()
                    } else {
                        mangled_acc(self.patterns(), self.body@, self.consumed@, self.consumed@)
                    });
                }
                self.pos = self.pos + 1;
                return Some(item);
            }
            if self.input_done {
                proof {
                    assert(self.pending@.skip(self.pos as int) =~= Seq::<(bool, String)>::empty());
                    assert(self.rest() =~= Seq::<(bool, Seq<char>)>::empty());
                }
                return None;
            }
            self.load_section();
        }
    }
}

impl Mangler {
    /// The items of `input`, produced one section at a time. Each item says
    /// whether its line belongs to a generated paragraph and should be
    /// indented.
    pub fn mangle_content<'a, 'i>(&'a self, input: &'i str) -> (r: MangleIter<'a, 'i>)
        ensures
            r.wf(),
            r.patterns() == self.patterns(),
            r.rest() == mangled(self.patterns(), input@),
    {
        let r = MangleIter {
            ahos: &self.ahos,
            rest: input,
            pending: Vec::new(),
            pos: 0,
            input_done: false,
            body: Ghost(input@),
            consumed: Ghost(0),
        };
        proof {
            assert(input@.skip(0) =~= input@);
            assert(r.pending@.skip(0).map_values(|x: (bool, String)| item_view(x))
                =~= Seq::<(bool, Seq<char>)>::empty());
            assert(r.rest() =~= mangled(self.patterns(), input@));
        }
        r
    }

    /// All items of `input`, in order.
    pub fn mangle_all(&self, input: &str) -> (r: Vec<(bool, String)>)
        ensures
            r@.map_values(|x: (bool, String)| item_view(x)) == mangled(self.patterns(), input@),
    {
        let mut it = self.mangle_content(input);
        let ghost all = it.rest();
        let mut out: Vec<(bool, String)> = Vec::new();
        loop
            invariant
                it.wf(),
                all == mangled(self.patterns(), input@),
                all == out@.map_values(|x: (bool, String)| item_view(x)) + it.rest(),
            decreases it.rest().len(),
        {
            match it.next() {
                None => {
                    proof {
                        assert(all =~= out@.map_values(|x: (bool, String)| item_view(x)));
                    }
                    return out;
                },
                Some(x) => {
                    let ghost prev = out@;
                    out.push(x);
                    proof {
                        assert(out@.map_values(|y: (bool, String)| item_view(y)) =~= prev.map_values(
                            |y: (bool, String)| item_view(y),
                        ).push(item_view(x)));
                    }
                },
            }
        }
    }
}

/// The lines an item sequence carries, with the flags and, for a wrapped
/// section, the two markers set aside.
pub open spec fn carried_lines(items: Seq<(bool, Seq<char>)>) -> Seq<Seq<char>> {
    let inner = if items.len() >= 2 && items[0] == (true, para_open()) {
        items.subrange(1, items.len() - 1)
    } else {
        items
    };
    inner.map_values(|x: (bool, Seq<char>)| x.1)
}

proof fn lemma_tag_patterns(tags: Seq<Seq<char>>)
    ensures
        tag_patterns(tags).len() == 2 * tags.len(),
        forall|k: int|
            0 <= k < tags.len() ==> #[trigger] tag_patterns(tags)[2 * k] == open_tag(tags[k]),
        forall|k: int|
            0 <= k < tags.len() ==> #[trigger] tag_patterns(tags)[2 * k + 1] == close_tag(tags[k]),
    decreases tags.len(),
{
    if tags.len() > 0 {
        let init = tags.drop_last();
        lemma_tag_patterns(init);
        assert forall|k: int| 0 <= k < tags.len() implies #[trigger] tag_patterns(tags)[2 * k]
            == open_tag(tags[k]) by {
            if k < init.len() {
                assert(tags[k] == init[k]);
                assert(tag_patterns(init)[2 * k] == open_tag(init[k]));
            }
        }
        assert forall|k: int| 0 <= k < tags.len() implies #[trigger] tag_patterns(tags)[2 * k + 1]
            == close_tag(tags[k]) by {
            if k < init.len() {
                assert(tags[k] == init[k]);
                assert(tag_patterns(init)[2 * k + 1] == close_tag(init[k]));
            }
        }
    }
}

proof fn lemma_mangled_by_sections(pats: Seq<Seq<char>>, s: Seq<char>, start: int, i: int)
    requires
        0 <= i,
    ensures
        mangled_acc(pats, s, start, i) == sections_acc(s, start, i).map_values(
            |sec: Seq<char>| section_items(pats, sec),
        ).flatten(),
    decreases s.len() - i,
{
    let f = |sec: Seq<char>| section_items(pats, sec);
    if i >= s.len() {
        let one = seq![s.subrange(start, s.len() as int)];
        assert(one.map_values(f).drop_first() =~= Seq::<Seq<(bool, Seq<char>)>>::empty());
        assert(one.map_values(f).drop_first().flatten() =~= Seq::<(bool, Seq<char>)>::empty());
        assert(one.map_values(f)[0] == f(one[0]));
        assert(one.map_values(f).flatten() =~= f(one[0]));
    } else if i + 1 < s.len() && s[i] == '\n' && s[i + 1] == '\n' {
        lemma_mangled_by_sections(pats, s, i + 2, i + 2);
        let tail = sections_acc(s, i + 2, i + 2);
        let all = seq![s.subrange(start, i)] + tail;
        assert(all.map_values(f).drop_first() =~= tail.map_values(f));
        assert(all.map_values(f).flatten() =~= f(s.subrange(start, i)) + tail.map_values(
            f,
        ).flatten());
    } else {
        lemma_mangled_by_sections(pats, s, start, i + 1);
    }
}

/// The items of a body are the items of its sections, in order; and the
/// items of each section carry exactly that section's lines, none dropped,
/// added or moved.
pub proof fn lemma_mangle_keeps_lines(pats: Seq<Seq<char>>, body: Seq<char>)
    ensures
        mangled(pats, body) == sections(body).map_values(
            |sec: Seq<char>| section_items(pats, sec),
        ).flatten(),
        forall|k: int|
            0 <= k < sections(body).len() ==> carried_lines(
                #[trigger] section_items(pats, sections(body)[k]),
            ) == lines_of(sections(body)[k]),
{
    lemma_mangled_by_sections(pats, body, 0, 0);
    assert forall|k: int| 0 <= k < sections(body).len() implies carried_lines(
        #[trigger] section_items(pats, sections(body)[k]),
    ) == lines_of(sections(body)[k]) by {
        lemma_section_keeps_lines(pats, sections(body)[k]);
    }
}

proof fn lemma_section_keeps_lines(pats: Seq<Seq<char>>, sec: Seq<char>)
    ensures
        carried_lines(section_items(pats, sec)) == lines_of(sec),
{
    let ls = lines_of(sec);
    if occurs_any(pats, sec) {
        let items = flagged(false, ls);
        if items.len() >= 2 {
            assert(items[0].0 == false);
        }
        assert(carried_lines(items) =~= ls);
    } else {
        let items = section_items(pats, sec);
        assert(items.subrange(1, items.len() - 1) =~= flagged(true, ls));
        assert(carried_lines(items) =~= ls);
    }
}

/// A section in which `<t>` or `</t>` occurs, for a passthrough tag `t`,
/// anywhere and on any of its lines, is emitted with no item flagged for
/// wrapping.
pub proof fn lemma_tagged_section_passes_through(tags: Seq<Seq<char>>, k: int, sec: Seq<char>)
    requires
        0 <= k < tags.len(),
        occurs(sec, open_tag(tags[k])) || occurs(sec, close_tag(tags[k])),
    ensures
        occurs_any(tag_patterns(tags), sec),
        forall|j: int|
            0 <= j < section_items(tag_patterns(tags), sec).len() ==> !(#[trigger] section_items(
                tag_patterns(tags),
                sec,
            )[j]).0,
{
    lemma_tag_patterns(tags);
    let pats = tag_patterns(tags);
    if occurs(sec, open_tag(tags[k])) {
        assert(occurs(sec, pats[2 * k]));
    } else {
        assert(occurs(sec, pats[2 * k + 1]));
    }
}

/// A section mentions a passthrough tag exactly when one of the mangler's
/// patterns occurs in it.
pub proof fn lemma_mentions_iff_occurs(tags: Seq<Seq<char>>, sec: Seq<char>)
    ensures
        mentions_tag(tags, sec) <==> occurs_any(tag_patterns(tags), sec),
{
    lemma_tag_patterns(tags);
    let pats = tag_patterns(tags);
    if occurs_any(pats, sec) {
        let j = choose|j: int| 0 <= j < pats.len() && #[trigger] occurs(sec, pats[j]);
        let k = j / 2;
        assert(j == 2 * k || j == 2 * k + 1);
        if j == 2 * k {
            assert(pats[j] == open_tag(tags[k]));
            assert(occurs(sec, open_tag(tags[k])));
        } else {
            assert(pats[j] == close_tag(tags[k]));
            assert(occurs(sec, close_tag(tags[k])));
        }
    }
    if mentions_tag(tags, sec) {
        let k = choose|k: int|
            0 <= k < tags.len() && (#[trigger] occurs(sec, open_tag(tags[k])) || occurs(
                sec,
                close_tag(tags[k]),
            ));
        lemma_tagged_section_passes_through(tags, k, sec);
    }
}

/// An empty section is wrapped: it yields the opening and the closing
/// marker and nothing between them.
pub proof fn lemma_empty_section(tags: Seq<Seq<char>>)
    ensures
        section_items(tag_patterns(tags), Seq::empty()) == seq![(true, para_open()), (true, para_close())],
{
    lemma_tag_patterns(tags);
    let pats = tag_patterns(tags);
    let e = Seq::<char>::empty();
    assert forall|j: int| 0 <= j < pats.len() implies !#[trigger] occurs(e, pats[j]) by {
        let k = j / 2;
        assert(j == 2 * k || j == 2 * k + 1);
        if j == 2 * k {
            assert(pats[j] == open_tag(tags[k]));
        } else {
            assert(pats[j] == close_tag(tags[k]));
        }
        assert(pats[j].len() >= 2);
    }
    assert(lines_of(e) =~= Seq::<Seq<char>>::empty());
    assert(section_items(pats, e) =~= seq![(true, para_open()), (true, para_close())]);
}

} // verus!
