use memex::common::{EpiStatus, EpiStatusLookup};
use memex::entry::{Entry, EntryError};
use memex::parser::Error;
use memex::scanner::{Matcher, Scanner};
use memex::site::{
    add_post, entries_from_pages, is_markdown, parse_rss, rebuilds_on, rename_links, rss_post, PageSource, RssError,
    WatchEvent,
};
use memex::sketch::{key_pressed, model, random_color, seafoam, teal, update, KeyAction, Rgba, SketchKey, HEIGHT, WIDTH};

fn source(path: &str, content: &str, git: Option<&str>) -> PageSource {
    PageSource { path: path.to_string(), content: content.to_string(), git_output: git.map(|g| g.to_string()) }
}

fn entry(id: &str, content: &str) -> Entry {
    Entry {
        id: id.to_string(),
        content: content.to_string(),
        epistemic_status: EpiStatus::Seedling,
        modification_date: String::from("2024.01.01"),
        links: vec![],
        references: None,
        outline_md: String::new(),
        path: format!("dir/{}.md", id),
    }
}

#[test]
fn statuses_read_and_write_their_names() {
    assert_eq!(EpiStatus::from_str("seedling"), Ok(EpiStatus::Seedling));
    assert_eq!(EpiStatus::from_str("sapling"), Ok(EpiStatus::Sapling));
    assert_eq!(EpiStatus::from_str("dendroid"), Ok(EpiStatus::Dendroid));
    assert_eq!(EpiStatus::from_str("tree"), Err(()));
    assert_eq!(EpiStatus::Sapling.to_string(), "sapling");
    for s in [EpiStatus::Seedling, EpiStatus::Sapling, EpiStatus::Dendroid] {
        assert_eq!(EpiStatus::from_str(s.to_string().as_str()), Ok(s));
    }
}

#[test]
fn the_later_status_of_a_page_holds() {
    let mut lookup = EpiStatusLookup::new();
    assert_eq!(lookup.get("a"), None);
    lookup.insert("a", EpiStatus::Sapling);
    lookup.insert("b", EpiStatus::Seedling);
    lookup.insert("a", EpiStatus::Dendroid);
    assert_eq!(lookup.get("a"), Some(EpiStatus::Dendroid));
    assert_eq!(lookup.get("b"), Some(EpiStatus::Seedling));
    assert_eq!(lookup.copied().get("a"), Some(EpiStatus::Dendroid));
}

#[test]
fn a_failed_lookahead_reports_the_end_of_line() {
    let mut s = Scanner::new("abc", None);
    assert_eq!(s.take_if_until(&Matcher::InternalLink, "]]"), Err(Error::EndOfLine));
}

#[test]
fn markdown_files_by_extension() {
    assert!(is_markdown("a/b.md"));
    assert!(!is_markdown("a/b.png"));
    assert!(!is_markdown("a/md"));
    assert!(!is_markdown(".md"));
}

#[test]
fn pages_become_entries_with_backlinks() {
    let pages = vec![
        source("notes/a.md", "epistemic=sapling [[b]]", None),
        source("picture.png", "not text", None),
        source("b.md", "hi [[a]] and [[a]]", Some("\"format:2021-02-03 04:05:06 +0000\"")),
    ];
    let entries = entries_from_pages(pages, "2024.01.01").unwrap();
    assert_eq!(entries.len(), 2);
    assert_eq!(entries[0].id, "a");
    assert_eq!(entries[0].epistemic_status, EpiStatus::Sapling);
    assert_eq!(entries[0].modification_date, "2024.01.01");
    assert_eq!(entries[0].path, "notes/a.md");
    assert_eq!(entries[0].references, Some(vec![String::from("b"), String::from("b")]));
    assert_eq!(entries[1].id, "b");
    assert_eq!(entries[1].modification_date, "2021.02.03");
    assert_eq!(entries[1].references, Some(vec![String::from("a")]));
}

#[test]
fn a_page_that_cannot_be_read_stops_the_collection() {
    let pages = vec![source("a.md", "fine", None), source("b.md", "epistemic=tree", None), source("c.md", "x", Some("junk"))];
    assert_eq!(
        entries_from_pages(pages, "2024.01.01").unwrap_err(),
        EntryError::UnknownEpistemicStatus(String::from("tree"))
    );
    let pages = vec![source("c.md", "x", Some("junk")), source("b.md", "epistemic=tree", None)];
    assert_eq!(entries_from_pages(pages, "2024.01.01").unwrap_err(), EntryError::UnparsableDate(String::from("junk")));
}

#[test]
fn renaming_rewrites_the_links() {
    let entries = vec![entry("a", "see [[old]] and [[old]], not [[older]]"), entry("b", "nothing")];
    let files = rename_links(&entries, "old", "new").unwrap();
    assert_eq!(files, vec![(String::from("dir/a.md"), String::from("see [[new]] and [[new]], not [[older]]"))]);
    assert_eq!(rename_links(&entries, "gone", "new").unwrap(), vec![]);
    assert!(rename_links(&entries, "(", "new").is_none());
}

#[test]
fn rss_posts_lose_their_line_feeds() {
    let post = rss_post("Title\n", "http://l\n", "\n", "Mon, 01 Jan 2024 00:00:00 +0000");
    assert_eq!(post.title, "Title");
    assert_eq!(post.link, "http://l");
    assert_eq!(post.description, "");
    assert_eq!(post.pub_date, "Mon, 01 Jan 2024 00:00:00 +0000");
    assert_eq!(rss_post("", "ab", "abc", "").title, "");
}

#[test]
fn every_change_but_a_removal_notice_rebuilds() {
    assert!(!rebuilds_on(WatchEvent::NoticeRemove));
    for e in [
        WatchEvent::NoticeWrite,
        WatchEvent::Create,
        WatchEvent::Write,
        WatchEvent::Chmod,
        WatchEvent::Remove,
        WatchEvent::Rename,
        WatchEvent::Rescan,
        WatchEvent::Error,
    ] {
        assert!(rebuilds_on(e));
    }
}

#[test]
fn sketch_colors() {
    assert_eq!(teal(), Rgba { red: 114, green: 196, blue: 208, alpha: 75 });
    assert_eq!(seafoam(), Rgba { red: 165, green: 214, blue: 195, alpha: 75 });
    assert_eq!(random_color(50, 0), Rgba { red: 114, green: 196, blue: 208, alpha: 75 });
    assert_eq!(random_color(74, 1), Rgba { red: 165, green: 214, blue: 195, alpha: 99 });
    assert_eq!(random_color(60, 2), Rgba { red: 255, green: 255, blue: 255, alpha: 100 });
    assert_eq!(random_color(60, 3), Rgba { red: 10, green: 10, blue: 10, alpha: 100 });
    assert_eq!((WIDTH, HEIGHT), (430, 730));
}

#[test]
fn sketch_records_every_second_frame() {
    let mut m = model("sketch");
    assert_eq!(m.frames_dir, "sketch_frames");
    assert_eq!(update(&mut m, 2), None);
    assert_eq!(key_pressed(&mut m, SketchKey::R), KeyAction::StartRecording);
    assert!(m.recording);
    assert_eq!(update(&mut m, 2), Some(String::from("sketch_frames/template0001.png")));
    assert_eq!(update(&mut m, 3), None);
    assert_eq!(update(&mut m, 4), Some(String::from("sketch_frames/template0002.png")));
    assert_eq!(key_pressed(&mut m, SketchKey::S), KeyAction::SaveFrame);
    assert_eq!(key_pressed(&mut m, SketchKey::Left), KeyAction::Nothing);
    assert_eq!(key_pressed(&mut m, SketchKey::R), KeyAction::StopRecording);
    assert!(!m.recording);
    assert_eq!(update(&mut m, 6), None);
    assert_eq!(m.cur_frame, 2);
}

#[test]
fn sketch_recording_ends_after_frame_9999() {
    let mut m = model("s");
    key_pressed(&mut m, SketchKey::R);
    m.cur_frame = 9998;
    assert_eq!(update(&mut m, 0), Some(String::from("s_frames/template9999.png")));
    assert_eq!(update(&mut m, 0), None);
    assert!(!m.recording);
    assert_eq!(m.cur_frame, 10000);
}

const FEED: &str = "<?xml version=\"1.0\" encoding=\"UTF-8\"?><rss version=\"2.0\"><channel><title>memex</title><link>https://metasyn.pw</link><description>notes</description></channel></rss>";
const NOW: &str = "Mon, 01 Jan 2024 00:00:00 +0000";

#[test]
fn a_post_joins_the_feed() {
    let bytes = add_post(FEED.as_bytes(), "Title\n", "http://example.com/post\n", "desc\n", NOW).unwrap();
    let channel = rss::Channel::read_from(&bytes[..]).unwrap();
    assert_eq!(channel.title(), "memex");
    assert_eq!(channel.last_build_date(), Some(NOW));
    assert_eq!(channel.items().len(), 1);
    let item = &channel.items()[0];
    assert_eq!(item.title(), Some("Title"));
    assert_eq!(item.link(), Some("http://example.com/post"));
    assert_eq!(item.description(), Some("desc"));
    assert_eq!(item.pub_date(), Some(NOW));

    let again = add_post(&bytes, "Second\n", "http://example.com/2\n", "more\n", NOW).unwrap();
    let channel = rss::Channel::read_from(&again[..]).unwrap();
    let titles: Vec<Option<&str>> = channel.items().iter().map(|i| i.title()).collect();
    assert_eq!(titles, vec![Some("Title"), Some("Second")]);
}

#[test]
fn feeds_that_cannot_take_a_post() {
    assert_eq!(add_post(b"not a feed", "t\n", "http://l\n", "d\n", NOW), Err(RssError::Unreadable));
    let invalid = FEED.replace("https://metasyn.pw", "not a url");
    assert_eq!(add_post(invalid.as_bytes(), "t\n", "http://l\n", "d\n", NOW), Err(RssError::Invalid));
    assert_eq!(add_post(FEED.as_bytes(), "t\n", "not a url\n", "d\n", NOW), Err(RssError::InvalidPost));
    assert_eq!(add_post(FEED.as_bytes(), "t\n", "http://l\n", "d\n", "yesterday"), Err(RssError::InvalidPost));
}

#[test]
fn feeds_are_read_and_checked() {
    assert!(parse_rss(FEED.as_bytes()).is_ok());
    assert_eq!(parse_rss(b"<rss>").unwrap_err(), RssError::Unreadable);
    let invalid = FEED.replace("https://metasyn.pw", "not a url");
    assert_eq!(parse_rss(invalid.as_bytes()).unwrap_err(), RssError::Invalid);
}
