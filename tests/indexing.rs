use zsstwebr::aggregate::{Aggregator, NamedIndex};
use zsstwebr::index::{DiaryDate, Index, IndexEntry, IndexRef, IndexTyp, Post, PostTyp};
use zsstwebr::source::{index_post, SourceError};

fn post(title: &str, tags: &[&str], typ: PostTyp) -> Post {
    Post {
        title: title.to_string(),
        author: "ann".to_string(),
        authors: vec!["Ann".to_string()],
        tags: tags.iter().map(|t| t.to_string()).collect(),
        x_head: String::new(),
        x_nav: String::new(),
        typ,
    }
}

fn date(year: i32, month: u32, day: u32) -> DiaryDate {
    DiaryDate { year, month, day }
}

fn dir_ref(name: &str) -> IndexRef {
    IndexRef { name: name.to_string(), typ: IndexTyp::Directory }
}

fn tag_ref(name: &str) -> IndexRef {
    IndexRef { name: name.to_string(), typ: IndexTyp::Tag }
}

fn find<'a>(v: &'a [NamedIndex], name: &str) -> &'a Index {
    &v.iter().find(|n| n.name == name).unwrap().index
}

fn hrefs(idx: &Index) -> Vec<String> {
    idx.ents.iter().map(|e| e.href.clone()).collect()
}

#[test]
fn nested_directories_get_linked_indexes() {
    let mut agg = Aggregator::new();
    let p = post("t", &[], PostTyp::Text);
    agg.add_post(&p, date(2020, 1, 1), "a.html", None);
    agg.add_post(&p, date(2020, 1, 2), "a/b.html", None);
    agg.add_post(&p, date(2020, 1, 3), "a/c/d.html", None);
    let site = agg.finalize();
    assert_eq!(site.root.typ, IndexTyp::Directory);
    assert_eq!(site.root.oidxrefs, vec![dir_ref("a")]);
    assert_eq!(hrefs(&site.root), vec!["a.html", "a/b.html", "a/c/d.html"]);
    assert_eq!(site.dirs.len(), 2);
    let a = find(&site.dirs, "a");
    assert_eq!(a.oidxrefs, vec![dir_ref("c")]);
    assert_eq!(hrefs(a), vec!["b.html"]);
    let ac = find(&site.dirs, "a/c");
    assert!(ac.oidxrefs.is_empty());
    assert_eq!(hrefs(ac), vec!["d.html"]);
    assert!(site.tags.is_empty());
}

#[test]
fn directory_without_posts_is_synthesized() {
    let mut agg = Aggregator::new();
    let p = post("t", &[], PostTyp::Text);
    agg.add_post(&p, date(2021, 3, 4), "x/y/z/p.html", None);
    let site = agg.finalize();
    assert_eq!(site.root.oidxrefs, vec![dir_ref("x")]);
    assert!(site.root.ents.len() == 1);
    let x = find(&site.dirs, "x");
    assert!(x.ents.is_empty());
    assert_eq!(x.oidxrefs, vec![dir_ref("y")]);
    let xy = find(&site.dirs, "x/y");
    assert!(xy.ents.is_empty());
    assert_eq!(xy.oidxrefs, vec![dir_ref("z")]);
    assert_eq!(hrefs(find(&site.dirs, "x/y/z")), vec!["p.html"]);
}

#[test]
fn tags_are_validated_and_referenced_from_root() {
    let mut agg = Aggregator::new();
    let p = post("t", &["news", "", "a/b", "a.b", "a\0b", "news"], PostTyp::Text);
    agg.add_post(&p, date(2020, 5, 6), "n.html", None);
    let site = agg.finalize();
    assert_eq!(site.root.oidxrefs, vec![tag_ref("news")]);
    assert_eq!(site.tags.len(), 1);
    let news = find(&site.tags, "news");
    assert_eq!(news.typ, IndexTyp::Tag);
    assert!(news.oidxrefs.is_empty());
    assert_eq!(hrefs(news), vec!["n.html", "n.html"]);
}

#[test]
fn root_refs_sort_directories_before_tags() {
    let mut agg = Aggregator::new();
    let p = post("t", &["b", "a"], PostTyp::Text);
    agg.add_post(&p, date(2020, 5, 6), "b/n.html", None);
    agg.add_post(&p, date(2020, 5, 7), "a/m.html", None);
    let site = agg.finalize();
    assert_eq!(
        site.root.oidxrefs,
        vec![dir_ref("a"), tag_ref("a"), dir_ref("b"), tag_ref("b")]
    );
}

#[test]
fn entries_sort_by_date_then_href() {
    let mut agg = Aggregator::new();
    let p = post("t", &[], PostTyp::Text);
    agg.add_post(&p, date(2020, 1, 2), "z.html", None);
    agg.add_post(&p, date(2019, 12, 31), "y.html", None);
    agg.add_post(&p, date(2020, 1, 2), "b.html", None);
    let site = agg.finalize();
    assert_eq!(hrefs(&site.root), vec!["y.html", "b.html", "z.html"]);
}

#[test]
fn link_posts_resolve_relative_links() {
    let mut agg = Aggregator::new();
    let p = post("l", &["t"], PostTyp::Link);
    agg.add_post(&p, date(2020, 1, 1), "d/l.html", Some("other.html"));
    agg.add_post(&p, date(2020, 1, 2), "d/m.html", Some("https://example.org/x"));
    agg.add_post(&p, date(2020, 1, 3), "top.html", Some("rel.html"));
    let site = agg.finalize();
    assert_eq!(
        hrefs(&site.root),
        vec!["d/other.html", "https://example.org/x", "rel.html"]
    );
    assert_eq!(
        hrefs(find(&site.dirs, "d")),
        vec!["d/other.html", "https://example.org/x"]
    );
    assert_eq!(
        hrefs(find(&site.tags, "t")),
        vec!["d/other.html", "https://example.org/x", "rel.html"]
    );
}

#[test]
fn index_post_dates_from_path() {
    let mut agg = Aggregator::new();
    let p = post("t", &[], PostTyp::Text);
    let r = index_post(&mut agg, &p, "2016/0828.html", "body");
    assert_eq!(r, Ok(date(2016, 8, 28)));
    let site = agg.finalize();
    assert_eq!(site.root.ents[0].cdate, date(2016, 8, 28));
    assert_eq!(hrefs(find(&site.dirs, "2016")), vec!["0828.html"]);
}

#[test]
fn index_post_trims_link_bodies() {
    let mut agg = Aggregator::new();
    let p = post("t", &[], PostTyp::Link);
    let r = index_post(&mut agg, &p, "2016/08-28.html", "  other.html \n");
    assert_eq!(r, Ok(date(2016, 8, 28)));
    let site = agg.finalize();
    assert_eq!(hrefs(&site.root), vec!["2016/other.html"]);
}

#[test]
fn index_post_without_date_is_refused() {
    let mut agg = Aggregator::new();
    let p = post("t", &[], PostTyp::Text);
    assert_eq!(
        index_post(&mut agg, &p, "notes.html", "body"),
        Err(SourceError::NoDiaryDate)
    );
    let site = agg.finalize();
    assert!(site.root.ents.is_empty());
}

#[test]
fn entry_copies_post_fields() {
    let p = post("Title", &[], PostTyp::Text);
    let e = IndexEntry::with_post_and_etc(&p, date(2001, 2, 3), "x.html");
    assert_eq!(e.title, "Title");
    assert_eq!(e.author, "ann");
    assert_eq!(e.authors, vec!["Ann".to_string()]);
    assert_eq!(e.href, "x.html");
    assert_eq!(e.duplicate(), e);
}

#[test]
fn prepare_sorts_refs_and_entries() {
    let p = post("t", &[], PostTyp::Text);
    let mut idx = Index::default();
    assert_eq!(idx.typ, IndexTyp::Directory);
    idx.oidxrefs = vec![dir_ref("b"), tag_ref("a"), dir_ref("a")];
    idx.ents = vec![
        IndexEntry::with_post_and_etc(&p, date(2020, 2, 1), "b"),
        IndexEntry::with_post_and_etc(&p, date(2020, 1, 1), "c"),
        IndexEntry::with_post_and_etc(&p, date(2020, 2, 1), "a"),
    ];
    idx.prepare();
    assert_eq!(idx.oidxrefs, vec![dir_ref("a"), tag_ref("a"), dir_ref("b")]);
    assert_eq!(hrefs(&idx), vec!["c", "a", "b"]);
}

#[test]
fn index_post_trims_unicode_white_space() {
    let mut agg = Aggregator::new();
    let p = post("t", &[], PostTyp::Link);
    let r = index_post(&mut agg, &p, "2016/0828.html", "\u{3000}\t/x.html\u{a0}\r\n");
    assert_eq!(r, Ok(date(2016, 8, 28)));
    let site = agg.finalize();
    assert_eq!(hrefs(&site.root), vec!["/x.html"]);
}

#[test]
fn order_of_arrival_does_not_change_indexes() {
    let p = post("t", &["x"], PostTyp::Text);
    let pages = ["a/1.html", "b/c/2.html", "3.html", "a/4.html"];
    let mut fwd = Aggregator::new();
    for (k, pg) in pages.iter().enumerate() {
        fwd.add_post(&p, date(2020, 1, 1 + k as u32), pg, None);
    }
    let mut back = Aggregator::new();
    for (k, pg) in pages.iter().enumerate().rev() {
        back.add_post(&p, date(2020, 1, 1 + k as u32), pg, None);
    }
    let s1 = fwd.finalize();
    let s2 = back.finalize();
    assert_eq!(s1.root.ents, s2.root.ents);
    assert_eq!(s1.root.oidxrefs, s2.root.oidxrefs);
    for d in s1.dirs.iter() {
        let other = find(&s2.dirs, &d.name);
        assert_eq!(d.index.ents, other.ents);
        assert_eq!(d.index.oidxrefs, other.oidxrefs);
    }
    assert_eq!(s1.dirs.len(), s2.dirs.len());
    assert_eq!(find(&s1.tags, "x").ents, find(&s2.tags, "x").ents);
}
