use zsstwebr::aggregate::resolve_link;
use zsstwebr::feed::{
    feed_entry_updated, feed_entry_url, guess_text_type, newest_first, EntryUpdated, TextKind,
};
use zsstwebr::index::{DiaryDate, IndexEntry, IndexRef, IndexTyp, Post, PostTyp};
use zsstwebr::paths::{back_to_idx, is_not_hidden, link_is_relative};
use zsstwebr::rebuild::{should_skip, system_time_to_date_time, Timestamp};
use zsstwebr::render::ref_lines;
use zsstwebr::source::split_header;
use zsstwebr::text::is_valid_tag;

fn at(secs: i64) -> Option<Timestamp> {
    Some(Timestamp { secs, nanos: 0 })
}

#[test]
fn skip_when_destination_is_newest() {
    assert!(should_skip(false, at(100), at(50), at(150)));
}

#[test]
fn rebuild_when_source_is_newer() {
    assert!(!should_skip(false, at(100), at(200), at(150)));
}

#[test]
fn force_overrides_skip() {
    assert!(!should_skip(true, at(100), at(50), at(150)));
}

#[test]
fn rebuild_when_config_is_newer() {
    assert!(!should_skip(false, at(200), at(50), at(150)));
}

#[test]
fn rebuild_when_a_time_is_missing() {
    assert!(!should_skip(false, None, at(50), at(150)));
    assert!(!should_skip(false, at(100), None, at(150)));
    assert!(!should_skip(false, at(100), at(50), None));
}

#[test]
fn equal_times_count_as_not_earlier() {
    assert!(should_skip(false, at(150), at(150), at(150)));
    let d = Some(Timestamp { secs: 150, nanos: 5 });
    let s = Some(Timestamp { secs: 150, nanos: 6 });
    assert!(!should_skip(false, at(100), s, d));
}

#[test]
fn second_run_skips_what_the_first_wrote() {
    let config = at(100);
    let source = at(120);
    assert!(!should_skip(false, config, source, None));
    let written = at(130);
    assert!(should_skip(false, config, source, written));
    assert!(should_skip(false, config, source, written));
}

#[test]
fn times_before_the_epoch_round_down() {
    assert_eq!(system_time_to_date_time(false, 5, 300), Timestamp { secs: 5, nanos: 300 });
    assert_eq!(system_time_to_date_time(true, 5, 0), Timestamp { secs: -5, nanos: 0 });
    assert_eq!(
        system_time_to_date_time(true, 5, 300),
        Timestamp { secs: -6, nanos: 999_999_700 }
    );
}

#[test]
fn tag_validity() {
    assert!(!is_valid_tag(""));
    assert!(!is_valid_tag("a/b"));
    assert!(!is_valid_tag("a.b"));
    assert!(!is_valid_tag("a\0b"));
    assert!(is_valid_tag("news"));
}

#[test]
fn back_to_index_by_depth() {
    assert_eq!(back_to_idx("a.html"), "index.html");
    assert_eq!(back_to_idx("a/b.html"), "../index.html");
    assert_eq!(back_to_idx("a/b/c.html"), "../../index.html");
    assert_eq!(back_to_idx("a//b.html"), "../index.html");
}

#[test]
fn relative_links() {
    assert!(link_is_relative("x.html"));
    assert!(link_is_relative("../x.html"));
    assert!(!link_is_relative("/x.html"));
    assert!(!link_is_relative("https://example.org/"));
    assert_eq!(resolve_link("a/b/p.html", "x.html"), "a/b/x.html");
    assert_eq!(resolve_link("p.html", "x.html"), "x.html");
    assert_eq!(resolve_link("a/p.html", "/x.html"), "/x.html");
}

#[test]
fn hidden_entries() {
    assert!(is_not_hidden(0, Some(".blog")));
    assert!(!is_not_hidden(1, Some(".git")));
    assert!(is_not_hidden(2, Some("post.txt")));
    assert!(!is_not_hidden(1, None));
}

#[test]
fn header_split_at_first_terminator() {
    assert_eq!(
        split_header("title: x\n---\nbody\n---\nmore"),
        Some(("title: x\n".to_string(), "body\n---\nmore".to_string()))
    );
    assert_eq!(split_header("title: x\n--\nbody"), None);
    assert_eq!(split_header(""), None);
    assert_eq!(split_header("\n---\n"), Some(("\n".to_string(), String::new())));
}

#[test]
fn text_type_guess() {
    assert_eq!(guess_text_type("a <b>"), TextKind::Html);
    assert_eq!(guess_text_type("Fish & Chips"), TextKind::Html);
    assert_eq!(guess_text_type("plain"), TextKind::Text);
}

#[test]
fn feed_urls() {
    assert_eq!(feed_entry_url("https://x.org", "a/b.html"), "https://x.org/a/b.html");
    assert_eq!(feed_entry_url("https://x.org", "/abs.html"), "/abs.html");
    assert_eq!(feed_entry_url("https://x.org", "http://y.org/"), "http://y.org/");
}

#[test]
fn newest_entries_first() {
    let p = Post {
        title: "t".to_string(),
        author: String::new(),
        authors: vec![],
        tags: vec![],
        x_head: String::new(),
        x_nav: String::new(),
        typ: PostTyp::Text,
    };
    let d = DiaryDate { year: 2020, month: 1, day: 1 };
    let ents: Vec<IndexEntry> = ["a", "b", "c"]
        .iter()
        .map(|h| IndexEntry::with_post_and_etc(&p, d, h))
        .collect();
    let top: Vec<String> = newest_first(&ents, 2).into_iter().map(|e| e.href).collect();
    assert_eq!(top, vec!["c", "b"]);
    assert_eq!(newest_first(&ents, 20).len(), 3);
}

#[test]
fn reference_lines_join_and_escape() {
    let refs = vec![
        IndexRef { name: "a&b".to_string(), typ: IndexTyp::Directory },
        IndexRef { name: "t".to_string(), typ: IndexTyp::Tag },
    ];
    assert_eq!(
        ref_lines(&refs),
        vec!["<a href=\"t.html\">t</a> - <a href=\"a&amp;b/index.html\">a&b</a>".to_string()]
    );
}

#[test]
fn reference_lines_wrap_at_the_limit() {
    let long_a = "a".repeat(60);
    let long_b = "b".repeat(60);
    let refs = vec![
        IndexRef { name: long_a.clone(), typ: IndexTyp::Tag },
        IndexRef { name: long_b.clone(), typ: IndexTyp::Tag },
    ];
    assert_eq!(
        ref_lines(&refs),
        vec![
            format!("<a href=\"{0}.html\">{0}</a>", long_b),
            format!("<a href=\"{0}.html\">{0}</a>", long_a),
        ]
    );
}

#[test]
fn overlong_first_reference_leaves_an_empty_line() {
    let name = "x".repeat(98);
    let refs = vec![IndexRef { name: name.clone(), typ: IndexTyp::Tag }];
    assert_eq!(
        ref_lines(&refs),
        vec![String::new(), format!("<a href=\"{0}.html\">{0}</a>", name)]
    );
}

#[test]
fn feed_entry_update_times() {
    let d = DiaryDate { year: 2020, month: 2, day: 29 };
    let t = Timestamp { secs: 1000, nanos: 7 };
    assert_eq!(feed_entry_updated("a/b.html", Some(t), d), EntryUpdated::Modified(t));
    assert_eq!(feed_entry_updated("a/b.html", None, d), EntryUpdated::Dated(d));
    assert_eq!(feed_entry_updated("https://x.org/", Some(t), d), EntryUpdated::Dated(d));
    assert_eq!(feed_entry_updated("/abs.html", Some(t), d), EntryUpdated::Dated(d));
}
