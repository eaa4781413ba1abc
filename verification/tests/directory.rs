use memex::common::EpiStatus;
use memex::directory_tree::DirectoryTree;
use memex::entry::Entry;

fn entry_at(path: &str) -> Entry {
    let id = path.rsplit('/').next().unwrap().trim_end_matches(".md").to_string();
    Entry {
        id,
        content: String::new(),
        epistemic_status: EpiStatus::Seedling,
        modification_date: String::from("2024.01.01"),
        links: vec![],
        references: None,
        outline_md: String::new(),
        path: path.to_string(),
    }
}

/// The pages under `content/entries`, by their paths below it.
fn content_entries() -> Vec<Entry> {
    vec![
        "projects/show-mapper.md",
        "projects/sfshows.md",
        "projects/sanfreo-euroling.md",
        "projects/learn-uxn.md",
        "visual/colors.md",
        "audio/integrated-circuits.md",
        "misc/devterm.md",
        "misc/colophon.md",
        "misc/ee.md",
        "misc/ffmpeg.md",
        "engineering/computer/spellbook.md",
        "engineering/computer/administration.md",
        "engineering/electrical/electrical-engineering.md",
        "engineering/software/linux.md",
        "engineering/software/administration.md",
        "language/nlp.md",
    ]
    .into_iter()
    .map(entry_at)
    .collect()
}

#[test]
fn directory_tree_test_directory() {
    let entries = content_entries();
    let directory = DirectoryTree::from_entries(&entries, "pages");
    assert!(directory.len() > 10);
}

#[test]
fn main_test_directory() {
    let entries = content_entries();
    let directory = DirectoryTree::from_entries(&entries, "pages");
    assert!(directory.len() > 10);
}

#[test]
fn shared_names_share_a_node() {
    let entries = content_entries();
    let directory = DirectoryTree::from_entries(&entries, "pages");
    // the root, 9 folders and 16 pages, of which two share the name `administration`
    assert_eq!(directory.len(), 1 + 9 + 15);
}

#[test]
fn directory_as_html_and_as_page() {
    let entries = vec![entry_at("b.md"), entry_at("a/x.md"), entry_at("404.md")];
    let directory = DirectoryTree::from_entries(&entries, "pages");
    assert_eq!(directory.len(), 4);
    assert_eq!(
        directory.to_string().unwrap(),
        "<details style=\"--depth: 0\"><summary>pages</summary>\n<details style=\"--depth: 1\"><summary>a</summary>\n\n* [[x]]\n</details>\n\n* [[b]]\n</details>\n"
    );
    assert_eq!(
        directory.format_directory_page(&String::from("intro")).unwrap(),
        "intro\n* pages\n  * a\n    * [[x]]\n  * [[b]]\n"
    );
}

#[test]
fn a_root_without_pages_is_a_leaf() {
    let directory = DirectoryTree::from_entries(&vec![], "pages");
    assert_eq!(directory.len(), 1);
    assert_eq!(directory.to_string().unwrap(), "\n* [[pages]]\n");
    assert_eq!(directory.format_directory_page(&String::new()).unwrap(), "\n* [[pages]]\n");
}

#[test]
fn a_cycle_of_names_cannot_be_rendered() {
    let entries = vec![entry_at("a/b.md"), entry_at("b/a.md")];
    let directory = DirectoryTree::from_entries(&entries, "pages");
    assert_eq!(directory.len(), 3);
    assert!(directory.to_string().is_none());
    assert!(directory.format_directory_page(&String::from("x")).is_none());
}
