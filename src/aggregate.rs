//! Folding posts into the root index, per-directory indexes and per-tag
//! entry lists, and finishing them into sorted index pages.
use vstd::prelude::*;

use crate::index::{
    entry_of, DiaryDate, EntryView, Index, IndexEntry, IndexRef, IndexTyp, Post, RefView,
};
use crate::paths::{base_name, find_last_slash, link_href, link_is_relative, parent_dir};
use crate::index::{lemma_entry_cmp, lemma_ref_cmp};
use crate::order::{lemma_map_multiset, lemma_sorted_unique, sorted_by_key, SortKey};
use crate::text::{chars_of, is_valid_tag, string_of, texts_view, valid_tag};

verus! {

broadcast use vstd::string::group_string_axioms;

/// The plain values of a list of entries.
pub open spec fn ents_view(v: Seq<IndexEntry>) -> Seq<EntryView> {
    v.map_values(|e: IndexEntry| e@)
}

/// The entries logged under name `k`, in the order they came.
pub open spec fn entries_under(log: Seq<(Seq<char>, EntryView)>, k: Seq<char>) -> Seq<EntryView> {
    log.filter(under_key(k)).map_values(|p: (Seq<char>, EntryView)| p.1)
}

/// Whether a logged entry belongs under name `k`.
pub open spec fn under_key(k: Seq<char>) -> spec_fn((Seq<char>, EntryView)) -> bool {
    |p: (Seq<char>, EntryView)| p.0 == k
}

/// Some entry was logged under name `k`.
pub open spec fn logged(log: Seq<(Seq<char>, EntryView)>, k: Seq<char>) -> bool {
    exists|i: int| 0 <= i < log.len() && (#[trigger] log[i]).0 == k
}

/// Where a post's entry points from the root and tag indexes: its own page,
/// or its link.
pub open spec fn post_href(page: Seq<char>, link: Option<Seq<char>>) -> Seq<char> {
    match link {
        None => page,
        Some(l) => link_href(page, l),
    }
}

/// Where a post's entry points from its directory's index: its page's file
/// name, or its link.
pub open spec fn dir_href(page: Seq<char>, link: Option<Seq<char>>) -> Seq<char> {
    match link {
        None => base_name(page),
        Some(l) => link_href(page, l),
    }
}

/// The tags of a post that may name a page, duplicates kept.
pub open spec fn valid_tags(post: Post) -> Seq<Seq<char>> {
    texts_view(post.tags@).filter(tag_filter())
}

/// The test a tag must pass to be indexed.
pub open spec fn tag_filter() -> spec_fn(Seq<char>) -> bool {
    |t: Seq<char>| valid_tag(t)
}

/// Pairs a name with the entry `e`.
pub open spec fn pair_with(e: EntryView) -> spec_fn(Seq<char>) -> (Seq<char>, EntryView) {
    |t: Seq<char>| (t, e)
}

/// The plain value of an optional string.
pub open spec fn opt_view(s: Option<&str>) -> Option<Seq<char>> {
    match s {
        Some(x) => Some(x@),
        None => None,
    }
}

/// An index page of one directory or one tag, with its name.
pub struct NamedIndex {
    pub name: String,
    pub index: Index,
}

/// The names of a list of named indexes.
pub open spec fn names_view(v: Seq<NamedIndex>) -> Seq<Seq<char>> {
    v.map_values(|n: NamedIndex| n.name@)
}

/// The plain values of a list of references.
pub open spec fn refs_view(v: Seq<IndexRef>) -> Seq<RefView> {
    v.map_values(|r: IndexRef| r@)
}

/// The indexes hold, under distinct names, exactly the entries logged under
/// each name, with one index for each logged name and no other; all are of
/// kind `typ` and have no child references yet.
spec fn buckets_wf(b: Seq<NamedIndex>, log: Seq<(Seq<char>, EntryView)>, typ: IndexTyp) -> bool {
    &&& forall|i: int, j: int| 0 <= i < j < b.len() ==> b[i].name@ != b[j].name@
    &&& forall|i: int|
        0 <= i < b.len() ==> ents_view(#[trigger] b[i].index.ents@) == entries_under(log, b[i].name@)
    &&& forall|i: int| 0 <= i < b.len() ==> logged(log, #[trigger] b[i].name@)
    &&& forall|i: int| 0 <= i < b.len() ==> (#[trigger] b[i].index).typ == typ
    &&& forall|i: int| 0 <= i < b.len() ==> (#[trigger] b[i].index).oidxrefs@.len() == 0
    &&& forall|k: Seq<char>|
        logged(log, k) ==> exists|i: int| 0 <= i < b.len() && #[trigger] b[i].name@ == k
}

proof fn lemma_log_push(log: Seq<(Seq<char>, EntryView)>, p: (Seq<char>, EntryView), k: Seq<char>)
    ensures
        entries_under(log.push(p), k) == if p.0 == k {
            entries_under(log, k).push(p.1)
        } else {
            entries_under(log, k)
        },
        logged(log.push(p), k) <==> logged(log, k) || p.0 == k,
        !logged(log, k) ==> entries_under(log, k).len() == 0,
{
    let f = under_key(k);
    log.lemma_filter_push(p, f);
    log.filter_lemma(f);
    if !logged(log, k) && log.filter(f).len() > 0 {
        assert(f(log.filter(f)[0]));
        assert(log.filter(f).contains(log.filter(f)[0]));
        log.lemma_filter_contains_rev(f, log.filter(f)[0]);
        assert(log.contains(log.filter(f)[0]));
        let i = choose|i: int| 0 <= i < log.len() && log[i] == log.filter(f)[0];
        assert((#[trigger] log[i]).0 == k);
    }
    if p.0 == k {
        assert(log.filter(f).push(p).map_values(|q: (Seq<char>, EntryView)| q.1)
            =~= log.filter(f).map_values(|q: (Seq<char>, EntryView)| q.1).push(p.1));
    }
    if logged(log, k) {
        let i = choose|i: int| 0 <= i < log.len() && (#[trigger] log[i]).0 == k;
        assert(log.push(p)[i] == log[i]);
    }
    if logged(log.push(p), k) {
        let i = choose|i: int| 0 <= i < log.len() + 1 && (#[trigger] log.push(p)[i]).0 == k;
        if i < log.len() {
            assert(log.push(p)[i] == log[i]);
        }
    }
    if p.0 == k {
        assert(log.push(p)[log.len() as int] == p);
    }
}

fn find_bucket(b: &Vec<NamedIndex>, key: &String) -> (r: Option<usize>)
    ensures
        match r {
            Some(i) => i < b@.len() && b@[i as int].name@ == key@,
            None => forall|i: int| 0 <= i < b@.len() ==> b@[i].name@ != key@,
        },
{
    let mut i: usize = 0;
    while i < b.len()
        invariant
            i <= b@.len(),
            forall|j: int| 0 <= j < i ==> b@[j].name@ != key@,
        decreases b.len() - i,
    {
        if b[i].name == *key {
            return Some(i);
        }
        i = i + 1;
    }
    None
}

/// Adds `e` under `key`, opening a bucket for a new name.
fn add_to_bucket(
    b: &mut Vec<NamedIndex>,
    key: String,
    e: IndexEntry,
    typ: IndexTyp,
    log: Ghost<Seq<(Seq<char>, EntryView)>>,
)
    requires
        buckets_wf(old(b)@, log@, typ),
    ensures
        buckets_wf(final(b)@, log@.push((key@, e@)), typ),
{
    let ghost p = (key@, e@);
    let ghost nlog = log@.push(p);
    proof {
        assert forall|k: Seq<char>| #[trigger] entries_under(nlog, k) == (if p.0 == k {
            entries_under(log@, k).push(p.1)
        } else {
            entries_under(log@, k)
        }) by {
            lemma_log_push(log@, p, k);
        }
        assert forall|k: Seq<char>| #[trigger] logged(nlog, k) <==> logged(log@, k) || p.0 == k by {
            lemma_log_push(log@, p, k);
        }
    }
    match find_bucket(b, &key) {
        Some(i) => {
            let ghost before = b@;
            let mut bk = b.remove(i);
            let ghost old_ents = bk.index.ents@;
            bk.index.ents.push(e);
            proof {
                assert(ents_view(bk.index.ents@) =~= ents_view(old_ents).push(e@));
                assert(logged(nlog, key@));
            }
            b.insert(i, bk);
            proof {
                assert(b@ =~= before.update(i as int, bk));
                assert forall|k: Seq<char>| logged(nlog, k) implies exists|j: int|
                    0 <= j < b@.len() && #[trigger] b@[j].name@ == k by {
                    if k != key@ {
                        assert(logged(log@, k));
                        let j = choose|j: int| 0 <= j < before.len() && #[trigger] before[j].name@ == k;
                        assert(b@[j].name@ == k);
                    } else {
                        assert(b@[i as int].name@ == k);
                    }
                }
            }
        },
        None => {
            let ghost before = b@;
            let mut ents: Vec<IndexEntry> = Vec::new();
            ents.push(e);
            let bk = NamedIndex { name: key, index: Index { typ, oidxrefs: Vec::new(), ents } };
            b.push(bk);
            proof {
                assert(!logged(log@, p.0));
                lemma_log_push(log@, p, p.0);
                assert(entries_under(log@, p.0) =~= Seq::<EntryView>::empty());
                assert(ents_view(bk.index.ents@) =~= seq![e@]);
                assert(ents_view(bk.index.ents@) =~= entries_under(nlog, p.0));
                assert forall|j: int| 0 <= j < b@.len() implies logged(nlog, #[trigger] b@[j].name@) by {
                    if j < before.len() {
                        assert(b@[j] == before[j]);
                    }
                }
                assert forall|j: int| 0 <= j < b@.len() implies ents_view(#[trigger] b@[j].index.ents@)
                    == entries_under(nlog, b@[j].name@) by {
                    if j < before.len() {
                        assert(b@[j] == before[j]);
                    }
                }
                assert forall|k: Seq<char>| logged(nlog, k) implies exists|j: int|
                    0 <= j < b@.len() && #[trigger] b@[j].name@ == k by {
                    if k != p.0 {
                        assert(logged(log@, k));
                        let j = choose|j: int| 0 <= j < before.len() && #[trigger] before[j].name@ == k;
                        assert(b@[j] == before[j]);
                    } else {
                        assert(b@[before.len() as int].name@ == k);
                    }
                }
            }
        },
    }
}

/// Posts folded so far: the root's entries, and the entries of each
/// directory and each tag, in arrival order.
pub struct Aggregator {
    root: Vec<IndexEntry>,
    dirs: Vec<NamedIndex>,
    tags: Vec<NamedIndex>,
    root_log: Ghost<Seq<EntryView>>,
    dir_log: Ghost<Seq<(Seq<char>, EntryView)>>,
    tag_log: Ghost<Seq<(Seq<char>, EntryView)>>,
}

/// Where a link post points: relative links are prefixed with the post's
/// directory.
pub fn resolve_link(page_path: &str, link: &str) -> (r: String)
    ensures
        r@ == link_href(page_path@, link@),
{
    if !link_is_relative(link) {
        return link.to_owned();
    }
    let cs = chars_of(page_path);
    match find_last_slash(&cs) {
        Some(k) => {
            let mut r = string_of(cs.as_slice(), 0, k);
            r.push('/');
            r.append(link);
            proof {
                assert(r@ =~= page_path@.take(k as int) + seq!['/'] + link@);
            }
            r
        },
        None => link.to_owned(),
    }
}

/// `a1` is `a0` after the post was folded in: its entry joins the root
/// log, each of its valid tags (once per occurrence), and its directory
/// unless that is the root.
pub open spec fn post_added(
    a0: Aggregator,
    a1: Aggregator,
    post: Post,
    cdate: DiaryDate,
    page: Seq<char>,
    link: Option<Seq<char>>,
) -> bool {
    &&& a1.root_log() == a0.root_log().push(entry_of(post, cdate, post_href(page, link)))
    &&& a1.dir_log() == match parent_dir(page) {
        Some(d) => a0.dir_log().push((d, entry_of(post, cdate, dir_href(page, link)))),
        None => a0.dir_log(),
    }
    &&& a1.tag_log() == a0.tag_log() + valid_tags(post).map_values(
        pair_with(entry_of(post, cdate, post_href(page, link))),
    )
}

impl Aggregator {
    /// Every entry of the root index so far.
    pub closed spec fn root_log(&self) -> Seq<EntryView> {
        self.root_log@
    }

    /// Each directory entry so far, with the directory it belongs to.
    pub closed spec fn dir_log(&self) -> Seq<(Seq<char>, EntryView)> {
        self.dir_log@
    }

    /// Each tag entry so far, with its tag.
    pub closed spec fn tag_log(&self) -> Seq<(Seq<char>, EntryView)> {
        self.tag_log@
    }

    /// The lists hold exactly what the logs record.
    pub closed spec fn wf(&self) -> bool {
        &&& ents_view(self.root@) == self.root_log@
        &&& buckets_wf(self.dirs@, self.dir_log@, IndexTyp::Directory)
        &&& buckets_wf(self.tags@, self.tag_log@, IndexTyp::Tag)
    }

    /// An aggregator that has seen no post.
    pub fn new() -> (r: Aggregator)
        ensures
            r.wf(),
            r.root_log().len() == 0,
            r.dir_log().len() == 0,
            r.tag_log().len() == 0,
    {
        let r = Aggregator {
            root: Vec::new(),
            dirs: Vec::new(),
            tags: Vec::new(),
            root_log: Ghost(Seq::empty()),
            dir_log: Ghost(Seq::empty()),
            tag_log: Ghost(Seq::empty()),
        };
        proof {
            assert(ents_view(r.root@) =~= Seq::<EntryView>::empty());
        }
        r
    }

    /// Folds in one post whose page lies at `page_path`, relative to the
    /// output root. `link` is `None` when the post is rendered to that page,
    /// and the post's link otherwise. The entry goes to the root index, to
    /// each valid tag once per occurrence, and to the index of the page's
    /// directory unless that is the root.
    pub fn add_post(&mut self, post: &Post, cdate: DiaryDate, page_path: &str, link: Option<&str>)
        requires
            old(self).wf(),
        ensures
            final(self).wf(),
            post_added(*old(self), *final(self), *post, cdate, page_path@, opt_view(link)),
    {
        let href: String = match link {
            None => page_path.to_owned(),
            Some(l) => resolve_link(page_path, l),
        };
        let ent = IndexEntry::with_post_and_etc(post, cdate, href.as_str());
        let ghost ev = ent@;
        let ghost mk = pair_with(ev);
        let ghost tags0 = self.tag_log@;
        let ghost tv = texts_view(post.tags@);
        let ghost vt = tag_filter();
        let mut j: usize = 0;
        proof {
            assert(tv.take(0).filter(vt).map_values(mk) =~= Seq::<(Seq<char>, EntryView)>::empty());
            assert(tags0 + tv.take(0).filter(vt).map_values(mk) =~= tags0);
        }
        while j < post.tags.len()
            invariant
                j <= post.tags@.len(),
                ent@ == ev,
                mk == pair_with(ev),
                vt == tag_filter(),
                tv == texts_view(post.tags@),
                buckets_wf(self.tags@, self.tag_log@, IndexTyp::Tag),
                self.root@ == old(self).root@,
                self.root_log == old(self).root_log,
                self.dirs@ == old(self).dirs@,
                self.dir_log == old(self).dir_log,
                self.tag_log@ == tags0 + tv.take(j as int).filter(vt).map_values(mk),
            decreases post.tags.len() - j,
        {
            let ok = is_valid_tag(post.tags[j].as_str());
            proof {
                assert(tv[j as int] == post.tags@[j as int]@);
                assert(ok == valid_tag(tv[j as int]));
                assert(tv.take(j + 1) =~= tv.take(j as int).push(tv[j as int]));
                tv.take(j as int).lemma_filter_push(tv[j as int], vt);
                assert(tv.take(j + 1) == tv.take(j as int).push(tv[j as int]));
                assert(vt(tv[j as int]) == ok);
                if ok {
                    assert(tv.take(j + 1).filter(vt) == tv.take(j as int).filter(vt).push(tv[j as int]));
                } else {
                    assert(tv.take(j + 1).filter(vt) == tv.take(j as int).filter(vt));
                }
            }
            if ok {
                let ghost prev = self.tag_log@;
                add_to_bucket(
                    &mut self.tags,
                    post.tags[j].clone(),
                    ent.duplicate(),
                    IndexTyp::Tag,
                    Ghost(prev),
                );
                self.tag_log = Ghost(prev.push((tv[j as int], ev)));
                proof {
                    assert(tv.take(j as int).filter(vt).push(tv[j as int]).map_values(mk)
                        =~= tv.take(j as int).filter(vt).map_values(mk).push(mk(tv[j as int])));
                    assert(self.tag_log@ =~= tags0 + tv.take(j + 1).filter(vt).map_values(mk));
                }
            }
            j = j + 1;
        }
        proof {
            assert(tv.take(post.tags@.len() as int) =~= tv);
        }
        let ghost prev_root = self.root@;
        self.root.push(ent);
        self.root_log = Ghost(self.root_log@.push(ev));
        proof {
            assert(ents_view(self.root@) =~= ents_view(prev_root).push(ev));
        }
        let cs = chars_of(page_path);
        match find_last_slash(&cs) {
            Some(k) => {
                let n = cs.len();
                assert(k < n);
                let dir = string_of(cs.as_slice(), 0, k);
                let dh: String = match link {
                    None => string_of(cs.as_slice(), k + 1, n),
                    Some(_) => href.clone(),
                };
                proof {
                    assert(dir@ =~= page_path@.take(k as int));
                    if link is None {
                        assert(dh@ =~= base_name(page_path@));
                    }
                }
                let dent = IndexEntry::with_post_and_etc(post, cdate, dh.as_str());
                let ghost prev = self.dir_log@;
                add_to_bucket(&mut self.dirs, dir, dent, IndexTyp::Directory, Ghost(prev));
                self.dir_log = Ghost(prev.push((page_path@.take(k as int), dent@)));
            },
            None => {},
        }
    }
}

/// `a` lies on the walk from directory `d` up to the top: `d` itself, its
/// parent, the parent's parent, and so on.
pub open spec fn on_path_up(a: Seq<char>, d: Seq<char>) -> bool
    decreases d.len(),
{
    a == d || match parent_dir(d) {
        Some(p) => if p.len() < d.len() {
            on_path_up(a, p)
        } else {
            false
        },
        None => false,
    }
}

/// A directory gets an index when it holds entries or lies above one that
/// does.
pub open spec fn indexed_dir(log: Seq<(Seq<char>, EntryView)>, a: Seq<char>) -> bool {
    exists|i: int| 0 <= i < log.len() && on_path_up(a, (#[trigger] log[i]).0)
}

/// A directory above `d`'s parent lies above `d` too.
proof fn lemma_path_up_step(a: Seq<char>, d: Seq<char>, p: Seq<char>)
    requires
        parent_dir(d) == Some(p),
        on_path_up(a, p),
    ensures
        on_path_up(a, d),
{
    crate::paths::lemma_parent_base(d);
}

/// Every directory strictly above `d` is the parent of one on the walk.
proof fn lemma_path_up_parent(a: Seq<char>, d: Seq<char>)
    requires
        on_path_up(a, d),
        a != d,
    ensures
        exists|c: Seq<char>| on_path_up(c, d) && #[trigger] parent_dir(c) == Some(a),
    decreases d.len(),
{
    crate::paths::lemma_parent_base(d);
    let p = parent_dir(d)->Some_0;
    if a == p {
        assert(on_path_up(d, d));
    } else {
        lemma_path_up_parent(a, p);
        let c = choose|c: Seq<char>| on_path_up(c, p) && #[trigger] parent_dir(c) == Some(a);
        lemma_path_up_step(c, d, p);
    }
}

/// The directories on a walk up get shorter.
proof fn lemma_path_up_len(a: Seq<char>, d: Seq<char>)
    requires
        on_path_up(a, d),
    ensures
        a.len() <= d.len(),
    decreases d.len(),
{
    if a != d {
        let p = parent_dir(d)->Some_0;
        lemma_path_up_len(a, p);
    }
}

fn position_of(v: &Vec<String>, s: &String) -> (r: Option<usize>)
    ensures
        match r {
            Some(i) => i < v@.len() && v@[i as int]@ == s@,
            None => forall|i: int| 0 <= i < v@.len() ==> v@[i]@ != s@,
        },
{
    let mut i: usize = 0;
    while i < v.len()
        invariant
            i <= v@.len(),
            forall|j: int| 0 <= j < i ==> v@[j]@ != s@,
        decreases v.len() - i,
    {
        if v[i] == *s {
            return Some(i);
        }
        i = i + 1;
    }
    None
}

/// The parent directory of `p`, when there is one.
pub fn parent_of(p: &String) -> (r: Option<String>)
    ensures
        match r {
            Some(d) => parent_dir(p@) == Some(d@),
            None => parent_dir(p@) is None,
        },
{
    let cs = chars_of(p.as_str());
    match find_last_slash(&cs) {
        Some(k) => {
            let d = string_of(cs.as_slice(), 0, k);
            proof {
                assert(d@ =~= p@.take(k as int));
            }
            Some(d)
        },
        None => None,
    }
}

/// The last component of `p`.
pub fn base_name_of(p: &String) -> (r: String)
    ensures
        r@ == base_name(p@),
{
    let cs = chars_of(p.as_str());
    let n = cs.len();
    match find_last_slash(&cs) {
        Some(k) => {
            let b = string_of(cs.as_slice(), k + 1, n);
            proof {
                assert(b@ =~= p@.skip(k + 1));
            }
            b
        },
        None => {
            let b = string_of(cs.as_slice(), 0, n);
            proof {
                assert(b@ =~= p@.skip(0));
            }
            b
        },
    }
}

/// Every directory on the walk up from each bucket's name, once each.
fn collect_dirs(b: &Vec<NamedIndex>) -> (kv: Vec<String>)
    ensures
        texts_view(kv@).no_duplicates(),
        forall|a: Seq<char>|
            #[trigger] texts_view(kv@).contains(a) <==> exists|j: int|
                0 <= j < b@.len() && on_path_up(a, b@[j].name@),
{
    let mut kv: Vec<String> = Vec::new();
    let mut i: usize = 0;
    while i < b.len()
        invariant
            i <= b@.len(),
            texts_view(kv@).no_duplicates(),
            forall|a: Seq<char>|
                #[trigger] texts_view(kv@).contains(a) <==> exists|j: int|
                    0 <= j < i && on_path_up(a, b@[j].name@),
        decreases b.len() - i,
    {
        let ghost d = b@[i as int].name@;
        let mut cur: String = b[i].name.clone();
        let mut more = true;
        while more
            invariant
                i < b@.len(),
                d == b@[i as int].name@,
                texts_view(kv@).no_duplicates(),
                more ==> on_path_up(cur@, d),
                forall|a: Seq<char>|
                    #[trigger] texts_view(kv@).contains(a) <==> (exists|j: int|
                        0 <= j < i && on_path_up(a, b@[j].name@)) || (on_path_up(a, d)
                        && !(more && on_path_up(a, cur@))),
            decreases cur@.len() + if more {
                1int
            } else {
                0int
            },
        {
            let ghost before = texts_view(kv@);
            let ghost c = cur@;
            match position_of(&kv, &cur) {
                None => {
                    kv.push(cur.clone());
                    proof {
                        assert(texts_view(kv@) =~= before.push(c));
                        assert(texts_view(kv@)[before.len() as int] == c);
                    }
                },
                Some(q) => {
                    proof {
                        assert(before[q as int] == c);
                        assert(texts_view(kv@)[q as int] == c);
                    }
                },
            }
            proof {
                assert(texts_view(kv@).contains(c));
                assert forall|a: Seq<char>| #[trigger] texts_view(kv@).contains(a) <==> before.contains(a)
                    || a == c by {
                    if texts_view(kv@).contains(a) && !before.contains(a) {
                        let q = choose|q: int| 0 <= q < texts_view(kv@).len() && texts_view(kv@)[q] == a;
                        if q < before.len() {
                            assert(before[q] == a);
                        }
                    }
                    if before.contains(a) {
                        let q = choose|q: int| 0 <= q < before.len() && before[q] == a;
                        assert(texts_view(kv@)[q] == a);
                    }
                }
                crate::paths::lemma_parent_base(c);
            }
            match parent_of(&cur) {
                Some(p) => {
                    proof {
                        assert forall|a: Seq<char>| on_path_up(a, p@) implies a != c by {
                            lemma_path_up_len(a, p@);
                        }
                        assert(on_path_up(p@, p@));
                        lemma_path_up_step(p@, c, p@);
                        lemma_path_up_trans(p@, c, d);
                        assert forall|a: Seq<char>| #[trigger] texts_view(kv@).contains(a) <==> (exists|j: int|
                            0 <= j < i && on_path_up(a, b@[j].name@)) || (on_path_up(a, d)
                            && !on_path_up(a, p@)) by {
                            assert(on_path_up(a, c) <==> a == c || on_path_up(a, p@));
                        }
                    }
                    cur = p;
                },
                None => {
                    more = false;
                    proof {
                        assert forall|a: Seq<char>| #[trigger] texts_view(kv@).contains(a) <==> (exists|j: int|
                            0 <= j < i && on_path_up(a, b@[j].name@)) || on_path_up(a, d) by {
                            assert(on_path_up(a, c) <==> a == c);
                        }
                    }
                },
            }
        }
        proof {
            assert forall|a: Seq<char>| #[trigger] texts_view(kv@).contains(a) <==> exists|j: int|
                0 <= j < i + 1 && on_path_up(a, b@[j].name@) by {
                if on_path_up(a, d) {
                    assert(on_path_up(a, b@[i as int].name@));
                }
            }
        }
        i = i + 1;
    }
    kv
}

/// Walks up compose.
proof fn lemma_path_up_trans(a: Seq<char>, c: Seq<char>, d: Seq<char>)
    requires
        on_path_up(a, c),
        on_path_up(c, d),
    ensures
        on_path_up(a, d),
    decreases d.len(),
{
    if c != d {
        crate::paths::lemma_parent_base(d);
        let p = parent_dir(d)->Some_0;
        lemma_path_up_trans(a, c, p);
    }
}

/// A reference that the directory tree puts on the index at `at` (`None`
/// for the root): one for each indexed directory whose parent is `at`,
/// named by its last component.
pub open spec fn dir_ref_expected(log: Seq<(Seq<char>, EntryView)>, at: Option<Seq<char>>, r: RefView) -> bool {
    r.typ == IndexTyp::Directory && exists|a: Seq<char>|
        #[trigger] indexed_dir(log, a) && parent_dir(a) == at && base_name(a) == r.name
}

/// The directory references made from the first `upto` names of `kv` on the
/// index at `at`.
spec fn refs_made(kv: Seq<Seq<char>>, upto: int, at: Option<Seq<char>>, r: RefView) -> bool {
    r.typ == IndexTyp::Directory && exists|j: int|
        0 <= j < upto && parent_dir(#[trigger] kv[j]) == at && base_name(kv[j]) == r.name
}

/// The state of the directory indexes while references are added.
spec fn linking_wf(
    out: Seq<NamedIndex>,
    log: Seq<(Seq<char>, EntryView)>,
    kv: Seq<Seq<char>>,
    upto: int,
) -> bool {
    &&& forall|i: int, j: int| 0 <= i < j < out.len() ==> out[i].name@ != out[j].name@
    &&& forall|i: int|
        0 <= i < out.len() ==> ents_view(#[trigger] out[i].index.ents@) == entries_under(
            log,
            out[i].name@,
        )
    &&& forall|i: int| 0 <= i < out.len() ==> (#[trigger] out[i].index).typ == IndexTyp::Directory
    &&& forall|i: int| 0 <= i < out.len() ==> indexed_dir(log, #[trigger] out[i].name@)
    &&& forall|k: Seq<char>|
        logged(log, k) ==> exists|i: int| 0 <= i < out.len() && #[trigger] out[i].name@ == k
    &&& forall|i: int| 0 <= i < out.len() ==> refs_view((#[trigger] out[i].index).oidxrefs@).no_duplicates()
    &&& forall|i: int, r: RefView|
        0 <= i < out.len() ==> (#[trigger] refs_view(out[i].index.oidxrefs@).contains(r)
            <==> refs_made(kv, upto, Some(out[i].name@), r))
    &&& forall|j: int|
        0 <= j < upto && (#[trigger] parent_dir(kv[j])) is Some ==> exists|i: int|
            0 <= i < out.len() && Some(#[trigger] out[i].name@) == parent_dir(kv[j])
}

proof fn lemma_unlogged_empty(log: Seq<(Seq<char>, EntryView)>, k: Seq<char>)
    requires
        !logged(log, k),
    ensures
        entries_under(log, k).len() == 0,
{
    lemma_log_push(log, (k, arbitrary()), k);
}

/// Two directories with the same parent and the same last component are
/// the same.
proof fn lemma_same_base(a: Seq<char>, c: Seq<char>)
    requires
        parent_dir(a) == parent_dir(c),
        base_name(a) == base_name(c),
    ensures
        a == c,
{
    crate::paths::lemma_parent_base(a);
    crate::paths::lemma_parent_base(c);
}

/// Adds the reference of each directory of `kv` to its parent's index, or
/// to `root_refs` for a top-level one, creating missing parent indexes.
fn link_dirs(
    kv: &Vec<String>,
    out: &mut Vec<NamedIndex>,
    root_refs: &mut Vec<IndexRef>,
    log: Ghost<Seq<(Seq<char>, EntryView)>>,
)
    requires
        texts_view(kv@).no_duplicates(),
        forall|a: Seq<char>| #[trigger] texts_view(kv@).contains(a) <==> indexed_dir(log@, a),
        buckets_wf(old(out)@, log@, IndexTyp::Directory),
        old(root_refs)@.len() == 0,
    ensures
        linking_wf(final(out)@, log@, texts_view(kv@), kv@.len() as int),
        refs_view(final(root_refs)@).no_duplicates(),
        forall|r: RefView|
            #[trigger] refs_view(final(root_refs)@).contains(r) <==> refs_made(
                texts_view(kv@),
                kv@.len() as int,
                None,
                r,
            ),
{
    let ghost kvv = texts_view(kv@);
    proof {
        assert forall|i: int| 0 <= i < out@.len() implies indexed_dir(log@, #[trigger] out@[i].name@) by {
            let k = out@[i].name@;
            assert(logged(log@, k));
            let q = choose|q: int| 0 <= q < log@.len() && (#[trigger] log@[q]).0 == k;
            assert(on_path_up(k, log@[q].0));
        }
        assert forall|i: int| 0 <= i < out@.len() implies refs_view(
            (#[trigger] out@[i].index).oidxrefs@,
        ).no_duplicates() by {
            assert(refs_view(out@[i].index.oidxrefs@).len() == 0);
        }
        assert forall|i: int, r: RefView| 0 <= i < out@.len() implies (#[trigger] refs_view(out@[i].index.oidxrefs@).contains(r) <==> refs_made(kvv, 0, Some(out@[i].name@), r)) by {
            assert(refs_view(out@[i].index.oidxrefs@).len() == 0);
        }
        assert(refs_view(root_refs@) =~= Seq::<RefView>::empty());
    }
    let mut i: usize = 0;
    while i < kv.len()
        invariant
            i <= kv@.len(),
            kvv == texts_view(kv@),
            kvv.no_duplicates(),
            forall|a: Seq<char>| #[trigger] kvv.contains(a) <==> indexed_dir(log@, a),
            linking_wf(out@, log@, kvv, i as int),
            refs_view(root_refs@).no_duplicates(),
            forall|r: RefView|
                #[trigger] refs_view(root_refs@).contains(r) <==> refs_made(kvv, i as int, None, r),
        decreases kv.len() - i,
    {
        let ghost a = kvv[i as int];
        let base = base_name_of(&kv[i]);
        let ref_new = IndexRef { name: base, typ: IndexTyp::Directory };
        let ghost rv = ref_new@;
        proof {
            assert(kvv.contains(a));
        }
        match parent_of(&kv[i]) {
            None => {
                proof {
                    assert forall|j: int| 0 <= j < i && parent_dir(#[trigger] kvv[j]) == None::<Seq<char>> implies base_name(kvv[j]) != rv.name by {
                        if base_name(kvv[j]) == rv.name {
                            lemma_same_base(kvv[j], a);
                        }
                    }
                    assert(!refs_view(root_refs@).contains(rv));
                }
                let ghost before = refs_view(root_refs@);
                root_refs.push(ref_new);
                proof {
                    assert(refs_view(root_refs@) =~= before.push(rv));
                    assert forall|r: RefView| #[trigger] refs_view(root_refs@).contains(r) <==> refs_made(kvv, i + 1, None, r) by {
                        if refs_view(root_refs@).contains(r) && r != rv {
                            let q = choose|q: int| 0 <= q < refs_view(root_refs@).len() && refs_view(root_refs@)[q] == r;
                            assert(before[q] == r);
                        }
                        if before.contains(r) {
                            let q = choose|q: int| 0 <= q < before.len() && before[q] == r;
                            assert(refs_view(root_refs@)[q] == r);
                        }
                        if r == rv {
                            assert(refs_view(root_refs@)[before.len() as int] == r);
                        }
                    }
                    assert forall|k: int, r: RefView| 0 <= k < out@.len() implies (#[trigger] refs_view(out@[k].index.oidxrefs@).contains(r) <==> refs_made(kvv, i + 1, Some(out@[k].name@), r)) by {
                        if refs_made(kvv, i + 1, Some(out@[k].name@), r) {
                            let j = choose|j: int|
                                0 <= j < i + 1 && parent_dir(#[trigger] kvv[j]) == Some(out@[k].name@) && base_name(kvv[j]) == r.name;
                            assert(j != i);
                        }
                    }
                }
            },
            Some(p) => {
                proof {
                    let d = choose|q: int| 0 <= q < log@.len() && on_path_up(a, (#[trigger] log@[q]).0);
                    assert(on_path_up(p@, p@));
                    lemma_path_up_step(p@, a, p@);
                    lemma_path_up_trans(p@, a, log@[d].0);
                    assert(indexed_dir(log@, p@));
                }
                let q: usize = match find_bucket(out, &p) {
                    Some(q) => q,
                    None => {
                        proof {
                            if logged(log@, p@) {
                                let k = choose|k: int| 0 <= k < out@.len() && #[trigger] out@[k].name@ == p@;
                            }
                            lemma_unlogged_empty(log@, p@);
                        }
                        let ghost before = out@;
                        let fresh = NamedIndex { name: p, index: Index::default() };
                        out.push(fresh);
                        proof {
                            assert(ents_view(fresh.index.ents@) =~= entries_under(log@, p@));
                            assert(refs_view(fresh.index.oidxrefs@) =~= Seq::<RefView>::empty());
                            assert forall|k: int| 0 <= k < before.len() implies out@[k] == before[k] by {}
                            assert forall|k: int, r: RefView| 0 <= k < out@.len() implies (#[trigger] refs_view(out@[k].index.oidxrefs@).contains(r) <==> refs_made(kvv, i as int, Some(out@[k].name@), r)) by {
                                if k == before.len() && refs_made(kvv, i as int, Some(out@[k].name@), r) {
                                    let j = choose|j: int|
                                        0 <= j < i && parent_dir(#[trigger] kvv[j]) == Some(out@[k].name@) && base_name(kvv[j]) == r.name;
                                    let m = choose|m: int| 0 <= m < before.len() && Some(#[trigger] before[m].name@) == parent_dir(kvv[j]);
                                    assert(out@[m] == before[m]);
                                }
                            }
                            assert forall|j: int|
                                0 <= j < i && (#[trigger] parent_dir(kvv[j])) is Some implies exists|m: int|
                                    0 <= m < out@.len() && Some(#[trigger] out@[m].name@) == parent_dir(kvv[j]) by {
                                let m = choose|m: int| 0 <= m < before.len() && Some(#[trigger] before[m].name@) == parent_dir(kvv[j]);
                                assert(out@[m] == before[m]);
                            }
                            assert forall|k: Seq<char>|
                                logged(log@, k) implies exists|m: int| 0 <= m < out@.len() && #[trigger] out@[m].name@ == k by {
                                let m = choose|m: int| 0 <= m < before.len() && #[trigger] before[m].name@ == k;
                                assert(out@[m] == before[m]);
                            }
                            assert(out@[before.len() as int].name@ == p@);
                        }
                        out.len() - 1
                    },
                };
                proof {
                    assert forall|j: int| 0 <= j < i && parent_dir(#[trigger] kvv[j]) == Some(p@) implies base_name(kvv[j]) != rv.name by {
                        if base_name(kvv[j]) == rv.name {
                            lemma_same_base(kvv[j], a);
                        }
                    }
                    assert(!refs_view(out@[q as int].index.oidxrefs@).contains(rv));
                }
                let ghost before = out@;
                let mut n = out.remove(q);
                let ghost before_refs = refs_view(n.index.oidxrefs@);
                n.index.oidxrefs.push(ref_new);
                proof {
                    assert(refs_view(n.index.oidxrefs@) =~= before_refs.push(rv));
                }
                out.insert(q, n);
                proof {
                    assert(out@ =~= before.update(q as int, n));
                    assert forall|r: RefView| #[trigger] refs_view(n.index.oidxrefs@).contains(r) <==> refs_made(kvv, i + 1, Some(p@), r) by {
                        if refs_view(n.index.oidxrefs@).contains(r) && r != rv {
                            let m = choose|m: int| 0 <= m < refs_view(n.index.oidxrefs@).len() && refs_view(n.index.oidxrefs@)[m] == r;
                            assert(before_refs[m] == r);
                        }
                        if before_refs.contains(r) {
                            let m = choose|m: int| 0 <= m < before_refs.len() && before_refs[m] == r;
                            assert(refs_view(n.index.oidxrefs@)[m] == r);
                        }
                        if r == rv {
                            assert(refs_view(n.index.oidxrefs@)[before_refs.len() as int] == r);
                        }
                    }
                    assert forall|k: int, r: RefView| 0 <= k < out@.len() implies (#[trigger] refs_view(out@[k].index.oidxrefs@).contains(r) <==> refs_made(kvv, i + 1, Some(out@[k].name@), r)) by {
                        if k != q {
                            assert(out@[k] == before[k]);
                            if refs_made(kvv, i + 1, Some(out@[k].name@), r) {
                                let j = choose|j: int|
                                    0 <= j < i + 1 && parent_dir(#[trigger] kvv[j]) == Some(out@[k].name@) && base_name(kvv[j]) == r.name;
                                assert(j != i);
                            }
                        }
                    }
                    assert forall|r: RefView| #[trigger] refs_view(root_refs@).contains(r) <==> refs_made(kvv, i + 1, None, r) by {
                        if refs_made(kvv, i + 1, None, r) {
                            let j = choose|j: int|
                                0 <= j < i + 1 && parent_dir(#[trigger] kvv[j]) == None::<Seq<char>> && base_name(kvv[j]) == r.name;
                            assert(j != i);
                        }
                    }
                    assert forall|j: int|
                        0 <= j < i + 1 && (#[trigger] parent_dir(kvv[j])) is Some implies exists|m: int|
                            0 <= m < out@.len() && Some(#[trigger] out@[m].name@) == parent_dir(kvv[j]) by {
                        assert(out@[q as int].name@ == before[q as int].name@);
                        if j == i {
                            assert(out@[q as int].name@ == p@);
                            assert(Some(out@[q as int].name@) == parent_dir(kvv[j]));
                        } else {
                            let m = choose|m: int| 0 <= m < before.len() && Some(#[trigger] before[m].name@) == parent_dir(kvv[j]);
                            if m != q {
                                assert(out@[m] == before[m]);
                            }
                            assert(Some(out@[m].name@) == parent_dir(kvv[j]));
                        }
                    }
                    assert forall|k: Seq<char>|
                        logged(log@, k) implies exists|m: int| 0 <= m < out@.len() && #[trigger] out@[m].name@ == k by {
                        let m = choose|m: int| 0 <= m < before.len() && #[trigger] before[m].name@ == k;
                        if m != q {
                            assert(out@[m] == before[m]);
                        }
                    }
                }
            },
        }
        i = i + 1;
    }
}

/// An index is finished: of kind `typ`, holding exactly the entries
/// `ents`, both lists sorted ascending, and no reference twice.
pub open spec fn index_done(idx: Index, typ: IndexTyp, ents: Seq<EntryView>) -> bool {
    &&& idx.typ == typ
    &&& sorted_by_key(idx.ents@)
    &&& ents_view(idx.ents@).to_multiset() == ents.to_multiset()
    &&& sorted_by_key(idx.oidxrefs@)
    &&& refs_view(idx.oidxrefs@).no_duplicates()
}

/// The finished indexes of a site.
pub struct SiteIndexes {
    /// The root directory's index: its entries are every post's.
    pub root: Index,
    /// The index of each directory that holds posts or lies above one.
    pub dirs: Vec<NamedIndex>,
    /// The entries of each tag.
    pub tags: Vec<NamedIndex>,
}

/// A site finished from the logs `rlog`, `dlog` and `tlog`: the root index
/// holds every entry and references the top-level directories and every
/// tag; each directory that holds entries, or lies above one that does, has
/// an index holding its entries and referencing its child directories;
/// each tag has an index holding its entries; every list is sorted.
pub open spec fn site_done(
    r: SiteIndexes,
    rlog: Seq<EntryView>,
    dlog: Seq<(Seq<char>, EntryView)>,
    tlog: Seq<(Seq<char>, EntryView)>,
) -> bool {
    &&& index_done(r.root, IndexTyp::Directory, rlog)
    &&& forall|x: RefView|
        #[trigger] refs_view(r.root.oidxrefs@).contains(x) <==> dir_ref_expected(
            dlog,
            None,
            x,
        ) || (x.typ == IndexTyp::Tag && logged(tlog, x.name))
    &&& names_view(r.dirs@).no_duplicates()
    &&& forall|i: int|
        0 <= i < r.dirs@.len() ==> index_done(
            (#[trigger] r.dirs@[i]).index,
            IndexTyp::Directory,
            entries_under(dlog, r.dirs@[i].name@),
        ) && indexed_dir(dlog, r.dirs@[i].name@)
    &&& forall|i: int, x: RefView|
        0 <= i < r.dirs@.len() ==> (#[trigger] refs_view(r.dirs@[i].index.oidxrefs@).contains(
            x,
        ) <==> dir_ref_expected(dlog, Some(r.dirs@[i].name@), x))
    &&& forall|a: Seq<char>|
        indexed_dir(dlog, a) ==> #[trigger] names_view(r.dirs@).contains(a)
    &&& names_view(r.tags@).no_duplicates()
    &&& forall|i: int|
        0 <= i < r.tags@.len() ==> index_done(
            (#[trigger] r.tags@[i]).index,
            IndexTyp::Tag,
            entries_under(tlog, r.tags@[i].name@),
        ) && r.tags@[i].index.oidxrefs@.len() == 0 && logged(tlog, r.tags@[i].name@)
    &&& forall|t: Seq<char>| logged(tlog, t) ==> #[trigger] names_view(r.tags@).contains(t)
}

/// Sorts both lists of `idx`; they keep the same items.
fn finish_index(idx: &mut Index)
    requires
        refs_view(old(idx).oidxrefs@).no_duplicates(),
    ensures
        final(idx).typ == old(idx).typ,
        sorted_by_key(final(idx).ents@),
        sorted_by_key(final(idx).oidxrefs@),
        ents_view(final(idx).ents@).to_multiset() == ents_view(old(idx).ents@).to_multiset(),
        refs_view(final(idx).oidxrefs@).no_duplicates(),
        forall|r: RefView|
            #[trigger] refs_view(final(idx).oidxrefs@).contains(r) <==> refs_view(
                old(idx).oidxrefs@,
            ).contains(r),
{
    broadcast use vstd::seq_lib::group_to_multiset_ensures;

    let ghost e0 = idx.ents@;
    let ghost r0 = idx.oidxrefs@;
    idx.prepare();
    proof {
        lemma_map_multiset(idx.ents@, e0, |e: IndexEntry| e@);
        lemma_map_multiset(idx.oidxrefs@, r0, |r: IndexRef| r@);
        let m0 = refs_view(r0).to_multiset();
        let m1 = refs_view(idx.oidxrefs@).to_multiset();
        assert(m0 == m1);
        refs_view(r0).lemma_multiset_has_no_duplicates();
        refs_view(idx.oidxrefs@).lemma_multiset_has_no_duplicates_conv();
        assert forall|r: RefView| #[trigger] refs_view(idx.oidxrefs@).contains(r) <==> refs_view(
            r0,
        ).contains(r) by {
            assert(refs_view(idx.oidxrefs@).contains(r) <==> m1.count(r) > 0);
            assert(refs_view(r0).contains(r) <==> m0.count(r) > 0);
        }
    }
}

proof fn lemma_refs_made_expected(kvv: Seq<Seq<char>>, log: Seq<(Seq<char>, EntryView)>)
    requires
        forall|a: Seq<char>| #[trigger] kvv.contains(a) <==> indexed_dir(log, a),
    ensures
        forall|at: Option<Seq<char>>, r: RefView|
            #[trigger] refs_made(kvv, kvv.len() as int, at, r) <==> dir_ref_expected(log, at, r),
{
    assert forall|at: Option<Seq<char>>, r: RefView|
        #[trigger] refs_made(kvv, kvv.len() as int, at, r) <==> dir_ref_expected(log, at, r) by {
        if refs_made(kvv, kvv.len() as int, at, r) {
            let j = choose|j: int|
                0 <= j < kvv.len() && parent_dir(#[trigger] kvv[j]) == at && base_name(kvv[j]) == r.name;
            assert(kvv.contains(kvv[j]));
            assert(indexed_dir(log, kvv[j]));
        }
        if dir_ref_expected(log, at, r) {
            let a = choose|a: Seq<char>|
                #[trigger] indexed_dir(log, a) && parent_dir(a) == at && base_name(a) == r.name;
            assert(kvv.contains(a));
            let j = choose|j: int| 0 <= j < kvv.len() && kvv[j] == a;
            assert(parent_dir(kvv[j]) == at);
        }
    }
}

impl Aggregator {
    /// Finishes the indexes: each directory above one with entries gets an
    /// index too; each directory index is referenced from its parent's, or
    /// from the root's at the top level; each tag with entries is
    /// referenced from the root's; and every list is sorted ascending.
    pub fn finalize(self) -> (r: SiteIndexes)
        requires
            self.wf(),
        ensures
            site_done(r, self.root_log(), self.dir_log(), self.tag_log()),
    {
        let ghost dlog = self.dir_log@;
        let ghost tlog = self.tag_log@;
        let ghost rlog = self.root_log@;
        let Aggregator { root, dirs, tags, root_log: _, dir_log: _, tag_log: _ } = self;
        let kv = collect_dirs(&dirs);
        let ghost kvv = texts_view(kv@);
        proof {
            assert forall|a: Seq<char>| #[trigger] kvv.contains(a) <==> indexed_dir(dlog, a) by {
                if kvv.contains(a) {
                    let j = choose|j: int| 0 <= j < dirs@.len() && on_path_up(a, dirs@[j].name@);
                    assert(logged(dlog, dirs@[j].name@));
                    let q = choose|q: int| 0 <= q < dlog.len() && (#[trigger] dlog[q]).0 == dirs@[j].name@;
                }
                if indexed_dir(dlog, a) {
                    let q = choose|q: int| 0 <= q < dlog.len() && on_path_up(a, (#[trigger] dlog[q]).0);
                    assert(logged(dlog, dlog[q].0));
                    let j = choose|j: int| 0 <= j < dirs@.len() && #[trigger] dirs@[j].name@ == dlog[q].0;
                }
            }
            lemma_refs_made_expected(kvv, dlog);
        }
        let mut out = dirs;
        let mut root_refs: Vec<IndexRef> = Vec::new();
        link_dirs(&kv, &mut out, &mut root_refs, Ghost(dlog));
        let mut i: usize = 0;
        while i < tags.len()
            invariant
                i <= tags@.len(),
                buckets_wf(tags@, tlog, IndexTyp::Tag),
                refs_view(root_refs@).no_duplicates(),
                forall|x: RefView|
                    #[trigger] refs_view(root_refs@).contains(x) <==> refs_made(
                        kvv,
                        kvv.len() as int,
                        None,
                        x,
                    ) || (x.typ == IndexTyp::Tag && exists|j: int| 0 <= j < i && #[trigger] tags@[j].name@ == x.name),
            decreases tags.len() - i,
        {
            let rn = IndexRef { name: tags[i].name.clone(), typ: IndexTyp::Tag };
            let ghost before = refs_view(root_refs@);
            proof {
                if before.contains(rn@) {
                    let j = choose|j: int| 0 <= j < i && #[trigger] tags@[j].name@ == rn@.name;
                }
            }
            root_refs.push(rn);
            proof {
                assert(refs_view(root_refs@) =~= before.push(rn@));
                assert forall|x: RefView| #[trigger] refs_view(root_refs@).contains(x) <==> refs_made(
                    kvv,
                    kvv.len() as int,
                    None,
                    x,
                ) || (x.typ == IndexTyp::Tag && exists|j: int| 0 <= j < i + 1 && #[trigger] tags@[j].name@ == x.name) by {
                    if refs_view(root_refs@).contains(x) && x != rn@ {
                        let m = choose|m: int| 0 <= m < refs_view(root_refs@).len() && refs_view(root_refs@)[m] == x;
                        assert(before[m] == x);
                    }
                    if before.contains(x) {
                        let m = choose|m: int| 0 <= m < before.len() && before[m] == x;
                        assert(refs_view(root_refs@)[m] == x);
                    }
                    if x == rn@ {
                        assert(refs_view(root_refs@)[before.len() as int] == x);
                    }
                    if x.typ == IndexTyp::Tag && (exists|j: int| 0 <= j < i + 1 && #[trigger] tags@[j].name@ == x.name) {
                        let j = choose|j: int| 0 <= j < i + 1 && #[trigger] tags@[j].name@ == x.name;
                        if j == i {
                            assert(x == rn@);
                        }
                    }
                }
            }
            i = i + 1;
        }
        let mut root_index = Index { typ: IndexTyp::Directory, oidxrefs: root_refs, ents: root };
        finish_index(&mut root_index);
        proof {
            assert forall|x: RefView|
                #[trigger] refs_view(root_index.oidxrefs@).contains(x) <==> dir_ref_expected(dlog, None, x)
                    || (x.typ == IndexTyp::Tag && logged(tlog, x.name)) by {
                assert(refs_made(kvv, kvv.len() as int, None, x) <==> dir_ref_expected(dlog, None, x));
                if logged(tlog, x.name) {
                    let j = choose|j: int| 0 <= j < tags@.len() && #[trigger] tags@[j].name@ == x.name;
                }
                if exists|j: int| 0 <= j < tags@.len() && #[trigger] tags@[j].name@ == x.name {
                    let j = choose|j: int| 0 <= j < tags@.len() && #[trigger] tags@[j].name@ == x.name;
                    assert(logged(tlog, tags@[j].name@));
                }
            }
        }
        let ghost out0 = out@;
        let mut i: usize = 0;
        while i < out.len()
            invariant
                i <= out@.len(),
                out@.len() == out0.len(),
                linking_wf(out0, dlog, kvv, kvv.len() as int),
                forall|k: int| 0 <= k < out@.len() ==> (#[trigger] out@[k]).name@ == out0[k].name@,
                forall|k: int| i <= k < out@.len() ==> #[trigger] out@[k] == out0[k],
                forall|k: int|
                    0 <= k < i ==> index_done(
                        (#[trigger] out@[k]).index,
                        IndexTyp::Directory,
                        entries_under(dlog, out0[k].name@),
                    ),
                forall|k: int, x: RefView|
                    0 <= k < i ==> (#[trigger] refs_view(out@[k].index.oidxrefs@).contains(x)
                        <==> refs_view(out0[k].index.oidxrefs@).contains(x)),
            decreases out.len() - i,
        {
            let ghost before = out@;
            let mut n = out.remove(i);
            finish_index(&mut n.index);
            out.insert(i, n);
            proof {
                assert(out@ =~= before.update(i as int, n));
            }
            i = i + 1;
        }
        let mut tags = tags;
        let ghost tags0 = tags@;
        let mut i: usize = 0;
        while i < tags.len()
            invariant
                i <= tags@.len(),
                tags@.len() == tags0.len(),
                buckets_wf(tags0, tlog, IndexTyp::Tag),
                forall|k: int| 0 <= k < tags@.len() ==> (#[trigger] tags@[k]).name@ == tags0[k].name@,
                forall|k: int| i <= k < tags@.len() ==> #[trigger] tags@[k] == tags0[k],
                forall|k: int|
                    0 <= k < i ==> index_done(
                        (#[trigger] tags@[k]).index,
                        IndexTyp::Tag,
                        entries_under(tlog, tags0[k].name@),
                    ) && tags@[k].index.oidxrefs@.len() == 0,
            decreases tags.len() - i,
        {
            let ghost before = tags@;
            let mut n = tags.remove(i);
            proof {
                assert(refs_view(n.index.oidxrefs@) =~= Seq::<RefView>::empty());
            }
            finish_index(&mut n.index);
            proof {
                if n.index.oidxrefs@.len() > 0 {
                    assert(refs_view(n.index.oidxrefs@).contains(refs_view(n.index.oidxrefs@)[0]));
                }
            }
            tags.insert(i, n);
            proof {
                assert(tags@ =~= before.update(i as int, n));
            }
            i = i + 1;
        }
        proof {
            assert forall|k: int, x: RefView| 0 <= k < out@.len() implies (#[trigger] refs_view(
                out@[k].index.oidxrefs@,
            ).contains(x) <==> dir_ref_expected(dlog, Some(out@[k].name@), x)) by {
                assert(refs_made(kvv, kvv.len() as int, Some(out0[k].name@), x) <==> dir_ref_expected(
                    dlog,
                    Some(out0[k].name@),
                    x,
                ));
            }
            assert forall|a: Seq<char>| indexed_dir(dlog, a) implies #[trigger] names_view(out@).contains(a) by {
                let q = choose|q: int| 0 <= q < dlog.len() && on_path_up(a, (#[trigger] dlog[q]).0);
                let d = dlog[q].0;
                if a == d {
                    assert(logged(dlog, a));
                    let m = choose|m: int| 0 <= m < out0.len() && #[trigger] out0[m].name@ == a;
                    assert(names_view(out@)[m] == a);
                } else {
                    lemma_path_up_parent(a, d);
                    let c = choose|c: Seq<char>| on_path_up(c, d) && #[trigger] parent_dir(c) == Some(a);
                    assert(indexed_dir(dlog, c));
                    assert(kvv.contains(c));
                    let j = choose|j: int| 0 <= j < kvv.len() && kvv[j] == c;
                    assert(parent_dir(kvv[j]) is Some);
                    let m = choose|m: int| 0 <= m < out0.len() && Some(#[trigger] out0[m].name@) == parent_dir(kvv[j]);
                    assert(names_view(out@)[m] == a);
                }
            }
            assert forall|i: int, j: int|
                0 <= i < names_view(out@).len() && 0 <= j < names_view(out@).len() && i != j implies names_view(out@)[i] != names_view(out@)[j] by {
                assert(out@[i].name@ == out0[i].name@);
                assert(out@[j].name@ == out0[j].name@);
            }
            assert forall|t: Seq<char>| logged(tlog, t) implies #[trigger] names_view(tags@).contains(t) by {
                let m = choose|m: int| 0 <= m < tags0.len() && #[trigger] tags0[m].name@ == t;
                assert(names_view(tags@)[m] == t);
            }
            assert forall|i: int, j: int|
                0 <= i < names_view(tags@).len() && 0 <= j < names_view(tags@).len() && i != j implies names_view(tags@)[i] != names_view(tags@)[j] by {
                assert(tags@[i].name@ == tags0[i].name@);
                assert(tags@[j].name@ == tags0[j].name@);
            }
        }
        SiteIndexes { root: root_index, dirs: out, tags }
    }
}

/// Finished index pages do not depend on the order in which posts
/// arrived: two finished indexes that hold the same entries and the same
/// references list them identically, so they render to the same page.
pub proof fn lemma_finished_indexes_agree(
    a: Index,
    b: Index,
    typ: IndexTyp,
    e1: Seq<EntryView>,
    e2: Seq<EntryView>,
)
    requires
        index_done(a, typ, e1),
        index_done(b, typ, e2),
        e1.to_multiset() == e2.to_multiset(),
        forall|r: RefView| #[trigger] refs_view(a.oidxrefs@).contains(r) <==> refs_view(b.oidxrefs@).contains(r),
    ensures
        ents_view(a.ents@) == ents_view(b.ents@),
        refs_view(a.oidxrefs@) == refs_view(b.oidxrefs@),
{
    broadcast use vstd::seq_lib::group_to_multiset_ensures;
    broadcast use vstd::multiset::group_multiset_axioms;

    assert forall|x: IndexEntry, y: IndexEntry| #[trigger] IndexEntry::key_cmp(x, y) == 0 <==> x@ == y@ by {
        lemma_entry_cmp(x@, y@, x@);
    }
    lemma_sorted_unique(a.ents@, b.ents@, |e: IndexEntry| e@);
    let ra = refs_view(a.oidxrefs@);
    let rb = refs_view(b.oidxrefs@);
    ra.lemma_multiset_has_no_duplicates();
    rb.lemma_multiset_has_no_duplicates();
    assert forall|r: RefView| ra.to_multiset().count(r) == rb.to_multiset().count(r) by {
        if ra.contains(r) {
            assert(ra.to_multiset().contains(r));
            assert(rb.to_multiset().contains(r));
        } else {
            assert(!rb.contains(r));
        }
    }
    assert(ra.to_multiset() =~= rb.to_multiset());
    assert forall|x: IndexRef, y: IndexRef| #[trigger] IndexRef::key_cmp(x, y) == 0 <==> x@ == y@ by {
        lemma_ref_cmp(x@, y@, x@);
    }
    lemma_sorted_unique(a.oidxrefs@, b.oidxrefs@, |r: IndexRef| r@);
}

proof fn lemma_filter_multiset<A>(s: Seq<A>, f: spec_fn(A) -> bool)
    ensures
        s.filter(f).to_multiset() == s.to_multiset().filter(f),
    decreases s.len(),
{
    broadcast use vstd::seq_lib::group_to_multiset_ensures;
    broadcast use vstd::multiset::group_multiset_axioms;

    if s.len() == 0 {
        s.filter_lemma(f);
        assert(s.filter(f).to_multiset().len() == 0);
        assert(s.filter(f).to_multiset() =~= s.to_multiset().filter(f));
    } else {
        let t = s.drop_last();
        let x = s.last();
        assert(s =~= t.push(x));
        t.lemma_filter_push(x, f);
        lemma_filter_multiset(t, f);
        assert(s.filter(f).to_multiset() =~= s.to_multiset().filter(f));
    }
}

/// Two logs holding the same items log the same names, give indexes to the
/// same directories, and hold the same entries under each name.
proof fn lemma_same_log(d1: Seq<(Seq<char>, EntryView)>, d2: Seq<(Seq<char>, EntryView)>)
    requires
        d1.to_multiset() == d2.to_multiset(),
    ensures
        forall|k: Seq<char>| #[trigger] logged(d1, k) <==> logged(d2, k),
        forall|a: Seq<char>| #[trigger] indexed_dir(d1, a) <==> indexed_dir(d2, a),
        forall|k: Seq<char>|
            #[trigger] entries_under(d1, k).to_multiset() == entries_under(d2, k).to_multiset(),
{
    broadcast use vstd::seq_lib::group_to_multiset_ensures;

    assert forall|i: int| 0 <= i < d1.len() implies d2.contains(#[trigger] d1[i]) by {
        assert(d1.contains(d1[i]));
        assert(d1.to_multiset().count(d1[i]) > 0);
    }
    assert forall|i: int| 0 <= i < d2.len() implies d1.contains(#[trigger] d2[i]) by {
        assert(d2.contains(d2[i]));
        assert(d2.to_multiset().count(d2[i]) > 0);
    }
    assert forall|k: Seq<char>| #[trigger] logged(d1, k) <==> logged(d2, k) by {
        if logged(d1, k) {
            let i = choose|i: int| 0 <= i < d1.len() && (#[trigger] d1[i]).0 == k;
            assert(d2.contains(d1[i]));
            let j = choose|j: int| 0 <= j < d2.len() && d2[j] == d1[i];
            assert(d2[j].0 == k);
        }
        if logged(d2, k) {
            let i = choose|i: int| 0 <= i < d2.len() && (#[trigger] d2[i]).0 == k;
            assert(d1.contains(d2[i]));
            let j = choose|j: int| 0 <= j < d1.len() && d1[j] == d2[i];
            assert(d1[j].0 == k);
        }
    }
    assert forall|a: Seq<char>| #[trigger] indexed_dir(d1, a) <==> indexed_dir(d2, a) by {
        if indexed_dir(d1, a) {
            let i = choose|i: int| 0 <= i < d1.len() && on_path_up(a, (#[trigger] d1[i]).0);
            assert(d2.contains(d1[i]));
            let j = choose|j: int| 0 <= j < d2.len() && d2[j] == d1[i];
            assert(on_path_up(a, d2[j].0));
        }
        if indexed_dir(d2, a) {
            let i = choose|i: int| 0 <= i < d2.len() && on_path_up(a, (#[trigger] d2[i]).0);
            assert(d1.contains(d2[i]));
            let j = choose|j: int| 0 <= j < d1.len() && d1[j] == d2[i];
            assert(on_path_up(a, d1[j].0));
        }
    }
    assert forall|k: Seq<char>|
        #[trigger] entries_under(d1, k).to_multiset() == entries_under(d2, k).to_multiset() by {
        lemma_filter_multiset(d1, under_key(k));
        lemma_filter_multiset(d2, under_key(k));
        lemma_map_multiset(
            d1.filter(under_key(k)),
            d2.filter(under_key(k)),
            |p: (Seq<char>, EntryView)| p.1,
        );
    }
}

/// Index pages do not depend on the order in which posts arrive: two sites
/// finished from logs that hold the same items, in whatever order, have the
/// same indexes, entry for entry and reference for reference. Since every
/// post reaches the logs whether or not its page is rendered again, a second
/// run over unchanged sources yields the same index and tag pages.
pub proof fn lemma_same_posts_same_site(
    s1: SiteIndexes,
    s2: SiteIndexes,
    r1: Seq<EntryView>,
    d1: Seq<(Seq<char>, EntryView)>,
    t1: Seq<(Seq<char>, EntryView)>,
    r2: Seq<EntryView>,
    d2: Seq<(Seq<char>, EntryView)>,
    t2: Seq<(Seq<char>, EntryView)>,
)
    requires
        site_done(s1, r1, d1, t1),
        site_done(s2, r2, d2, t2),
        r1.to_multiset() == r2.to_multiset(),
        d1.to_multiset() == d2.to_multiset(),
        t1.to_multiset() == t2.to_multiset(),
    ensures
        ents_view(s1.root.ents@) == ents_view(s2.root.ents@),
        refs_view(s1.root.oidxrefs@) == refs_view(s2.root.oidxrefs@),
        forall|a: Seq<char>| #[trigger] names_view(s1.dirs@).contains(a) <==> names_view(s2.dirs@).contains(a),
        forall|i: int, j: int|
            0 <= i < s1.dirs@.len() && 0 <= j < s2.dirs@.len() && s1.dirs@[i].name@ == s2.dirs@[j].name@
                ==> ents_view((#[trigger] s1.dirs@[i]).index.ents@) == ents_view((#[trigger] s2.dirs@[j]).index.ents@)
                && refs_view(s1.dirs@[i].index.oidxrefs@) == refs_view(s2.dirs@[j].index.oidxrefs@),
        forall|a: Seq<char>| #[trigger] names_view(s1.tags@).contains(a) <==> names_view(s2.tags@).contains(a),
        forall|i: int, j: int|
            0 <= i < s1.tags@.len() && 0 <= j < s2.tags@.len() && s1.tags@[i].name@ == s2.tags@[j].name@
                ==> ents_view((#[trigger] s1.tags@[i]).index.ents@) == ents_view((#[trigger] s2.tags@[j]).index.ents@)
                && refs_view(s1.tags@[i].index.oidxrefs@) == refs_view(s2.tags@[j].index.oidxrefs@),
{
    lemma_same_log(d1, d2);
    lemma_same_log(t1, t2);
    assert forall|at: Option<Seq<char>>, x: RefView|
        #[trigger] dir_ref_expected(d1, at, x) <==> dir_ref_expected(d2, at, x) by {
        if dir_ref_expected(d1, at, x) {
            let a = choose|a: Seq<char>|
                #[trigger] indexed_dir(d1, a) && parent_dir(a) == at && base_name(a) == x.name;
            assert(indexed_dir(d2, a));
        }
        if dir_ref_expected(d2, at, x) {
            let a = choose|a: Seq<char>|
                #[trigger] indexed_dir(d2, a) && parent_dir(a) == at && base_name(a) == x.name;
            assert(indexed_dir(d1, a));
        }
    }
    lemma_finished_indexes_agree(s1.root, s2.root, IndexTyp::Directory, r1, r2);
    assert forall|a: Seq<char>| #[trigger] names_view(s1.dirs@).contains(a) <==> names_view(s2.dirs@).contains(a) by {
        if names_view(s1.dirs@).contains(a) {
            let i = choose|i: int| 0 <= i < names_view(s1.dirs@).len() && names_view(s1.dirs@)[i] == a;
            assert(indexed_dir(d1, s1.dirs@[i].name@));
        }
        if names_view(s2.dirs@).contains(a) {
            let i = choose|i: int| 0 <= i < names_view(s2.dirs@).len() && names_view(s2.dirs@)[i] == a;
            assert(indexed_dir(d2, s2.dirs@[i].name@));
        }
    }
    assert forall|i: int, j: int|
        0 <= i < s1.dirs@.len() && 0 <= j < s2.dirs@.len() && s1.dirs@[i].name@ == s2.dirs@[j].name@
            implies ents_view((#[trigger] s1.dirs@[i]).index.ents@) == ents_view((#[trigger] s2.dirs@[j]).index.ents@)
            && refs_view(s1.dirs@[i].index.oidxrefs@) == refs_view(s2.dirs@[j].index.oidxrefs@) by {
        let k = s1.dirs@[i].name@;
        assert(entries_under(d1, k).to_multiset() == entries_under(d2, k).to_multiset());
        lemma_finished_indexes_agree(
            s1.dirs@[i].index,
            s2.dirs@[j].index,
            IndexTyp::Directory,
            entries_under(d1, k),
            entries_under(d2, k),
        );
    }
    assert forall|a: Seq<char>| #[trigger] names_view(s1.tags@).contains(a) <==> names_view(s2.tags@).contains(a) by {
        if names_view(s1.tags@).contains(a) {
            let i = choose|i: int| 0 <= i < names_view(s1.tags@).len() && names_view(s1.tags@)[i] == a;
            assert(logged(t1, s1.tags@[i].name@));
        }
        if names_view(s2.tags@).contains(a) {
            let i = choose|i: int| 0 <= i < names_view(s2.tags@).len() && names_view(s2.tags@)[i] == a;
            assert(logged(t2, s2.tags@[i].name@));
        }
    }
    assert forall|i: int, j: int|
        0 <= i < s1.tags@.len() && 0 <= j < s2.tags@.len() && s1.tags@[i].name@ == s2.tags@[j].name@
            implies ents_view((#[trigger] s1.tags@[i]).index.ents@) == ents_view((#[trigger] s2.tags@[j]).index.ents@)
            && refs_view(s1.tags@[i].index.oidxrefs@) == refs_view(s2.tags@[j].index.oidxrefs@) by {
        let k = s1.tags@[i].name@;
        assert(entries_under(t1, k).to_multiset() == entries_under(t2, k).to_multiset());
        assert(refs_view(s1.tags@[i].index.oidxrefs@).len() == 0);
        assert(refs_view(s2.tags@[j].index.oidxrefs@).len() == 0);
        lemma_finished_indexes_agree(
            s1.tags@[i].index,
            s2.tags@[j].index,
            IndexTyp::Tag,
            entries_under(t1, k),
            entries_under(t2, k),
        );
    }
}

} // verus!
