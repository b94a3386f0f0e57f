use zsstwebr::mangle::{diiter, Mangler};
use zsstwebr::render::article_body;

fn items(v: &[(bool, &str)]) -> Vec<(bool, String)> {
    v.iter().map(|(b, s)| (*b, s.to_string())).collect()
}

fn block_mangler() -> Mangler {
    Mangler::new(&["pre", "p", "ul"]).unwrap()
}

#[test]
fn wraps_plain_sections() {
    let m = block_mangler();
    assert_eq!(
        m.mangle_all("a\nb\n\nc"),
        items(&[
            (true, "<p>"),
            (true, "a"),
            (true, "b"),
            (true, "</p>"),
            (true, "<p>"),
            (true, "c"),
            (true, "</p>"),
        ])
    );
}

#[test]
fn pre_in_last_line_passes_section_through() {
    let m = block_mangler();
    assert_eq!(
        m.mangle_all("first line\nsecond <pre>x</pre>\n\nafter"),
        items(&[
            (false, "first line"),
            (false, "second <pre>x</pre>"),
            (true, "<p>"),
            (true, "after"),
            (true, "</p>"),
        ])
    );
}

#[test]
fn closing_tag_alone_passes_through() {
    let m = block_mangler();
    assert_eq!(m.mangle_all("x\n</ul>"), items(&[(false, "x"), (false, "</ul>")]));
}

#[test]
fn unknown_tag_is_wrapped() {
    let m = block_mangler();
    assert_eq!(
        m.mangle_all("<em>x</em>"),
        items(&[(true, "<p>"), (true, "<em>x</em>"), (true, "</p>")])
    );
}

#[test]
fn empty_section_gives_bare_markers() {
    let m = block_mangler();
    assert_eq!(
        m.mangle_all("a\n\n\n\nb"),
        items(&[
            (true, "<p>"),
            (true, "a"),
            (true, "</p>"),
            (true, "<p>"),
            (true, "</p>"),
            (true, "<p>"),
            (true, "b"),
            (true, "</p>"),
        ])
    );
}

#[test]
fn only_blank_lines_give_three_empty_sections() {
    let m = block_mangler();
    let r = m.mangle_all("\n\n\n\n");
    assert_eq!(
        r,
        items(&[
            (true, "<p>"),
            (true, "</p>"),
            (true, "<p>"),
            (true, "</p>"),
            (true, "<p>"),
            (true, "</p>"),
        ])
    );
}

#[test]
fn empty_body_is_one_empty_section() {
    let m = block_mangler();
    assert_eq!(m.mangle_all(""), items(&[(true, "<p>"), (true, "</p>")]));
}

#[test]
fn odd_newline_starts_next_section() {
    let m = block_mangler();
    assert_eq!(
        m.mangle_all("a\n\n\nb"),
        items(&[
            (true, "<p>"),
            (true, "a"),
            (true, "</p>"),
            (true, "<p>"),
            (true, ""),
            (true, "b"),
            (true, "</p>"),
        ])
    );
}

#[test]
fn carriage_returns_are_dropped_from_line_ends() {
    let m = block_mangler();
    assert_eq!(
        m.mangle_all("a\r\nb\r"),
        items(&[(true, "<p>"), (true, "a"), (true, "b\r"), (true, "</p>")])
    );
}

#[test]
fn lines_are_kept_in_order() {
    let m = block_mangler();
    let body = "one\ntwo\nthree\n\n<pre>\nfour\n</pre>";
    let lines: Vec<String> = m
        .mangle_all(body)
        .into_iter()
        .filter(|(w, l)| !(*w && (l == "<p>" || l == "</p>")))
        .map(|(_, l)| l)
        .collect();
    assert_eq!(lines, vec!["one", "two", "three", "<pre>", "four", "</pre>"]);
}

#[test]
fn iterator_yields_what_mangle_all_returns() {
    let m = block_mangler();
    let body = "a\n\nb <p>c\n\n\n\nd";
    let mut it = m.mangle_content(body);
    let mut got = Vec::new();
    while let Some(x) = it.next() {
        got.push(x);
    }
    assert_eq!(got, m.mangle_all(body));
    assert_eq!(it.next(), None);
}

#[test]
fn no_tags_wraps_everything() {
    let m = Mangler::new(&[]).unwrap();
    assert_eq!(
        m.mangle_all("<pre>x"),
        items(&[(true, "<p>"), (true, "<pre>x"), (true, "</p>")])
    );
}

#[test]
fn article_body_indents_wrapped_lines() {
    let m = Mangler::new(&["pre"]).unwrap();
    assert_eq!(
        article_body(&m, "a\n\nx<pre>y"),
        "\n    <p>\n    a\n    </p>\nx<pre>y\n"
    );
}

#[test]
fn article_body_starting_verbatim_breaks_line() {
    let m = Mangler::new(&["pre"]).unwrap();
    assert_eq!(article_body(&m, "<pre>\nq"), "<br />\n<pre>\nq\n");
}

#[test]
fn diiter_gives_both_in_order() {
    assert_eq!(diiter(1, 2), vec![1, 2]);
}

#[test]
fn pre_on_the_last_of_three_lines() {
    let m = Mangler::new(&["pre"]).unwrap();
    assert_eq!(
        m.mangle_all("first line\nsecond line\nend <pre>"),
        items(&[(false, "first line"), (false, "second line"), (false, "end <pre>")])
    );
}

#[test]
fn closing_div_exempts_section() {
    let m = Mangler::new(&["div"]).unwrap();
    assert_eq!(m.mangle_all("text\n</div>"), items(&[(false, "text"), (false, "</div>")]));
}

#[test]
fn prose_around_block_stays_unwrapped() {
    let m = Mangler::new(&["pre"]).unwrap();
    assert_eq!(
        m.mangle_all("intro\n<pre>code</pre>\nafter\n\nplain"),
        items(&[
            (false, "intro"),
            (false, "<pre>code</pre>"),
            (false, "after"),
            (true, "<p>"),
            (true, "plain"),
            (true, "</p>"),
        ])
    );
}

#[test]
fn longer_tag_name_does_not_count() {
    let m = Mangler::new(&["pre"]).unwrap();
    assert_eq!(
        m.mangle_all("<pref> and <span>x</span>"),
        items(&[(true, "<p>"), (true, "<pref> and <span>x</span>"), (true, "</p>")])
    );
}

#[test]
fn full_block_tag_list_builds() {
    let tags = [
        "address", "article", "aside", "blockquote", "code", "div", "dl", "fieldset", "footer",
        "form", "h1", "h2", "h3", "h4", "h5", "h6", "header", "hr", "menu", "nav", "ol", "p",
        "pre", "section", "table", "tt", "ul",
    ];
    let m = Mangler::new(&tags).unwrap();
    assert_eq!(m.mangle_all("<hr>"), items(&[(false, "<hr>")]));
}
