use memex::common::{EpiStatus, EpiStatusLookup};
use memex::entry::Entry;
use memex::render::{
    comrak_options, epistemic_lookup_of, extract_recent_entries, extract_references,
    format_img_dither_wrap_anchor, format_references, make_template, render_entry, render_gemtext,
    render_md, render_site, replace_template, replace_templates, with_references,
};

fn entry(id: &str, date: &str, links: &[&str]) -> Entry {
    Entry {
        id: id.to_string(),
        content: String::new(),
        epistemic_status: EpiStatus::Seedling,
        modification_date: date.to_string(),
        links: links.iter().map(|l| l.to_string()).collect(),
        references: None,
        outline_md: String::new(),
        path: format!("{}.md", id),
    }
}

#[test]
fn test_make_template() {
    assert_eq!(make_template("test"), "{{ test }}")
}

#[test]
fn test_replace_template() {
    assert_eq!(
        replace_template(&EpiStatusLookup::new(), "{{ test }}", "test", "fab"),
        "<p>fab</p>\n"
    )
}

#[test]
fn test_replace_templates() {
    assert_eq!(
        replace_templates(
            &EpiStatusLookup::new(),
            "{{ test }} {{ something }}",
            vec![("test", "fab"), ("something", "replacement")],
        ),
        "<p>fab</p>\n <p>replacement</p>\n"
    )
}

#[test]
fn slots_without_a_replacement_stay() {
    assert_eq!(
        replace_templates(&EpiStatusLookup::new(), "{{ a }} {{ b }} {{ a }}", vec![("a", "x")]),
        "<p>x</p>\n {{ b }} <p>x</p>\n"
    );
}

#[test]
fn markdown_is_rendered_with_the_memex_settings() {
    let options = comrak_options();
    assert!(options.unsafe_ && !options.escape && options.smart && options.table);
    assert!(options.autolink && !options.tagfilter && options.footnotes);
    assert_eq!(render_md("# Hi"), "<h1>Hi</h1>\n");
    assert_eq!(render_md("<div>raw</div>"), "<div>raw</div>\n");
}

#[test]
fn dithered_images_link_to_the_full_image() {
    assert_eq!(
        format_img_dither_wrap_anchor("x <img src=\"resources/img/dithered_cat.png\"> y"),
        "x <a class='img' href=\"resources/img/cat.png\"><img src=\"resources/img/dithered_cat.png\"></a> y"
    );
    assert_eq!(format_img_dither_wrap_anchor("<img src=\"a.png\">"), "<img src=\"a.png\">");
}

#[test]
fn gemtext_of_a_page() {
    let page = "[site](http://x.y) then [[foo]]\n<img src=\"resources/img/p.png\"/> <img src=\"http://e.com/a.png\">";
    assert_eq!(
        render_gemtext(page),
        "[site] then [foo]\n \nGemini Links:\n=> gemini://metasyn.pw/index.gmi index and recent changes\n=> gemini://metasyn.pw/directory.gmi directory of all pages\n=> gemini://metasyn.pw/foo.gmi foo\n\nWeb Links:\n=> http://x.y site\n=> https://metasyn.pw/resources/img/p.png\n=> http://e.com/a.png"
    );
}

#[test]
fn gemtext_of_plain_text() {
    assert_eq!(
        render_gemtext("hello"),
        "hello\nGemini Links:\n=> gemini://metasyn.pw/index.gmi index and recent changes\n=> gemini://metasyn.pw/directory.gmi directory of all pages\n\nWeb Links:\n"
    );
}

#[test]
fn references_leave_out_meta() {
    assert_eq!(format_references(vec![]), "");
    assert_eq!(
        format_references(vec![String::from("a"), String::from("meta"), String::from("b")]),
        "referenced by: [[a]] [[b]]"
    );
    assert_eq!(format_references(vec![String::from("meta")]), "referenced by: ");
}

#[test]
fn backlinks_are_the_pages_that_link() {
    let entries = vec![entry("a", "2021.01.01", &["b", "c"]), entry("b", "2021.01.01", &["c", "c"]), entry("c", "2021.01.01", &[])];
    let references = extract_references(&entries);
    assert_eq!(references.get("c"), Some(vec![String::from("a"), String::from("b"), String::from("b")]));
    assert_eq!(references.get("b"), Some(vec![String::from("a")]));
    assert_eq!(references.get("a"), None);

    let entries = with_references(entries);
    assert_eq!(entries[0].references, None);
    assert_eq!(entries[1].references, Some(vec![String::from("a")]));
    assert_eq!(entries[2].references, Some(vec![String::from("a"), String::from("b"), String::from("b")]));
    assert_eq!(entries[2].links, Vec::<String>::new());
}

#[test]
fn recent_entries_newest_first() {
    let mut entries = vec![entry("a", "2021.01.01", &[]), entry("b", "2022.05.05", &[]), entry("c", "2021.01.01", &[])];
    let text = extract_recent_entries(&mut entries);
    assert_eq!(text, "* 2022.05.05 [[b]]\n* 2021.01.01 [[a]]\n* 2021.01.01 [[c]]");
    let ids: Vec<&str> = entries.iter().map(|e| e.id.as_str()).collect();
    assert_eq!(ids, vec!["b", "a", "c"]);
}

#[test]
fn recent_entries_keep_twenty() {
    let mut entries: Vec<Entry> = (1..=25).map(|d| entry(&format!("p{}", d), &format!("2000.01.{:02}", d), &[])).collect();
    let text = extract_recent_entries(&mut entries);
    assert_eq!(entries.len(), 20);
    assert_eq!(entries[0].id, "p25");
    assert_eq!(entries[19].id, "p6");
    assert!(text.starts_with("* 2000.01.25 [[p25]]\n* 2000.01.24 [[p24]]"));
    assert!(text.ends_with("* 2000.01.06 [[p6]]"));
    assert_eq!(text.lines().count(), 20);
}

#[test]
fn no_entries_no_recent_changes() {
    let mut entries: Vec<Entry> = vec![];
    assert_eq!(extract_recent_entries(&mut entries), "");
}

#[test]
fn statuses_by_page_id() {
    let mut a = entry("a", "2021.01.01", &[]);
    a.epistemic_status = EpiStatus::Sapling;
    let mut b = entry("b", "2021.01.01", &[]);
    b.epistemic_status = EpiStatus::Dendroid;
    let mut a2 = entry("a", "2021.01.01", &[]);
    a2.epistemic_status = EpiStatus::Dendroid;
    let lookup = epistemic_lookup_of(&vec![a, b, a2]);
    assert_eq!(lookup.get("a"), Some(EpiStatus::Dendroid));
    assert_eq!(lookup.get("b"), Some(EpiStatus::Dendroid));
    assert_eq!(lookup.get("c"), None);
}

#[test]
fn a_page_of_an_entry() {
    let mut e = entry("notes", "2021.02.03", &[]);
    e.content = String::from("hello {{ recent }}");
    let page = render_entry(&e, e.content.as_str(), "{{ timestamp }}|{{ references }}", "DIR", "RECENT", &EpiStatusLookup::new());
    assert_eq!(page.id, "notes");
    assert_eq!(page.html, "<p>2021.02.03</p>\n|");
    assert_eq!(
        page.gemtext,
        "hello RECENT\nGemini Links:\n=> gemini://metasyn.pw/index.gmi index and recent changes\n=> gemini://metasyn.pw/directory.gmi directory of all pages\n\nWeb Links:\n"
    );
}

#[test]
fn a_site_of_two_pages() {
    let mut index = entry("index", "2021.01.01", &[]);
    index.content = String::from("hello");
    let mut directory = entry("directory", "2022.01.01", &[]);
    directory.content = String::from("all pages:");
    let pages = render_site(&vec![index, directory], "{{ timestamp }}").unwrap();
    assert_eq!(pages.len(), 2);
    assert_eq!(pages[0].id, "index");
    assert_eq!(pages[0].html, "<p>2021.01.01</p>\n");
    assert_eq!(
        pages[0].gemtext,
        "hello\nGemini Links:\n=> gemini://metasyn.pw/index.gmi index and recent changes\n=> gemini://metasyn.pw/directory.gmi directory of all pages\n\nWeb Links:\n"
    );
    assert_eq!(pages[1].id, "directory");
    assert_eq!(pages[1].html, "<p>2022.01.01</p>\n");
    assert_eq!(
        pages[1].gemtext,
        "all pages:\n* pages\n  * [directory]\n  * [index]\n\nGemini Links:\n=> gemini://metasyn.pw/index.gmi index and recent changes\n=> gemini://metasyn.pw/directory.gmi directory of all pages\n=> gemini://metasyn.pw/directory.gmi directory\n=> gemini://metasyn.pw/index.gmi index\n\nWeb Links:\n"
    );
}

#[test]
fn a_site_whose_directory_cycles_is_not_rendered() {
    let mut ab = entry("b", "2021.01.01", &[]);
    ab.path = String::from("a/b.md");
    let mut ba = entry("a", "2021.01.01", &[]);
    ba.path = String::from("b/a.md");
    assert!(render_site(&vec![ab, ba], "{{ content }}").is_none());
}

fn one_match(before: &str, groups: Vec<Option<&str>>, tail: &str) -> memex::regexes::RegexScan {
    memex::regexes::RegexScan {
        matches: vec![memex::regexes::RegexMatch {
            before: before.to_string(),
            groups: groups.into_iter().map(|g| g.map(|s| s.to_string())).collect(),
        }],
        tail: tail.to_string(),
    }
}

#[test]
fn scans_are_cut_up_by_their_groups() {
    let sc = one_match("see ", vec![Some("[[x]]"), None, None, Some("x")], " now");
    let (text, found) = memex::render::bracket_scan(&sc, 3, 1);
    assert_eq!(text, "see [x] now");
    assert_eq!(found, vec![(String::from("x"), String::new())]);
    assert_eq!(memex::entry::links_in_scan(&sc), vec![String::from("x")]);

    let sc = one_match("a ", vec![Some("<img src=\"d.png\">"), Some("<img src=\"d.png\">"), Some("cat")], " b");
    assert_eq!(
        memex::render::wrap_dithered(&sc),
        "a <a class='img' href=\"resources/img/cat.png\"><img src=\"d.png\"></a> b"
    );
}
