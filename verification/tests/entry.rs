use memex::common::EpiStatus;
use memex::entry::{Entry, EntryError};
use regex::Regex;

#[test]
fn entry_test_extract_content_from_path() {
    let res = Entry::from_path("Cargo.toml", String::from("[package]"), None, "2024.01.01");
    assert!(res.is_ok());
    assert!(res.unwrap().id == "Cargo");
}

#[test]
fn entry_test_extract_references_from_content() {
    let res = Entry::get_links("testing [[one]] [[two]]");
    assert_eq!(res.len(), 2);
    assert_eq!(res[0], "one");
    assert_eq!(res[1], "two");
}

#[test]
fn entry_test_extract_modification_date_from_path() {
    let git_output = "\"format:2022-03-04 05:06:07 -0800\"\n";
    let res = Entry::get_modification_string(Some(git_output), "2024.01.01").unwrap().to_string();
    let regex = Regex::new(r"\d{4}.\d{2}.\d{2}").unwrap();
    let captures = regex.captures(res.as_str()).unwrap();
    assert_eq!(captures.len(), 1);
    assert_eq!(res, "2022.03.04");
}

#[test]
fn main_test_extract_content_from_path() {
    let res = Entry::from_path("Cargo.toml", String::new(), None, "2024.01.01");
    assert!(res.is_ok());
    assert!(res.unwrap().id == "Cargo");
}

#[test]
fn main_test_extract_references_from_content() {
    let res = Entry::get_links("testing [[one]] [[two]]");
    assert_eq!(res.len(), 2);
    assert_eq!(res[0], "one");
    assert_eq!(res[1], "two");
}

#[test]
fn main_test_extract_modification_date_from_path() {
    let git_output = "\"format:2019-12-31 23:59:59 +0100\"\n";
    let res = Entry::get_modification_string(Some(git_output), "2024.01.01").unwrap().to_string();
    let regex = Regex::new(r"\d{4}.\d{2}.\d{2}").unwrap();
    let captures = regex.captures(res.as_str()).unwrap();
    assert_eq!(captures.len(), 1);
    assert_eq!(res, "2019.12.31");
}

#[test]
fn titled_links_count_too() {
    let res = Entry::get_links("{the title}[[target]] and [[other]]");
    assert_eq!(res, vec![String::from("target"), String::from("other")]);
}

#[test]
fn modification_falls_back_without_git_or_without_output() {
    assert_eq!(Entry::get_modification_string(None, "2024.05.06").unwrap(), "2024.05.06");
    assert_eq!(Entry::get_modification_string(Some("\"format:\"\n"), "2024.05.06").unwrap(), "2024.05.06");
    assert_eq!(Entry::get_modification_string(Some("   \n"), "2024.05.06").unwrap(), "2024.05.06");
}

#[test]
fn modification_refuses_a_text_that_is_no_date() {
    let res = Entry::get_modification_string(Some("\"format:not a date\""), "2024.05.06");
    assert_eq!(res, Err(EntryError::UnparsableDate(String::from("not a date"))));
}

#[test]
fn epistemic_status_is_read_or_defaults_to_seedling() {
    assert_eq!(Entry::get_epistemic_status("epistemic=sapling\n# Title"), Ok(EpiStatus::Sapling));
    assert_eq!(Entry::get_epistemic_status("epistemic=dendroid"), Ok(EpiStatus::Dendroid));
    assert_eq!(Entry::get_epistemic_status("no status here"), Ok(EpiStatus::Seedling));
    assert_eq!(Entry::get_epistemic_status("epistemic=tree"), Err(String::from("tree")));
}

#[test]
fn header_links_are_anchors() {
    assert_eq!(Entry::make_header_link("# Hello World"), "Hello-World");
    assert_eq!(Entry::make_header_link("## it's \"quoted\""), "its-quoted");
}

#[test]
fn outline_lists_header_lines() {
    let content = "# Title\nsome text\n## Sub Part\n";
    assert_eq!(
        Entry::get_outline_md(content),
        "  * <a class='header' href='#Title'>Title</a>\n    * <a class='header' href='#Sub-Part'>Sub Part</a>\n"
    );
    // a content that does not start with a header has no outline
    assert_eq!(Entry::get_outline_md("intro\n# Later\n"), "");
}

#[test]
fn from_path_reads_a_whole_entry() {
    let content = String::from("# Notes\nepistemic=sapling\nsee [[other]]\n");
    let git = "\"format:2021-02-03 04:05:06 +0000\"";
    let e = Entry::from_path("misc/notes.md", content.clone(), Some(git), "2024.01.01").unwrap();
    assert_eq!(e.id, "notes");
    assert_eq!(e.content, content);
    assert_eq!(e.epistemic_status, EpiStatus::Sapling);
    assert_eq!(e.modification_date, "2021.02.03");
    assert_eq!(e.links, vec![String::from("other")]);
    assert_eq!(e.references, None);
    assert_eq!(e.outline_md, "  * <a class='header' href='#Notes'>Notes</a>\n");
    assert_eq!(e.path, "misc/notes.md");
}

#[test]
fn from_path_errors() {
    assert_eq!(Entry::from_path("", String::new(), None, "2024.01.01").unwrap_err(), EntryError::NoFileStem);
    assert_eq!(
        Entry::from_path("a.md", String::from("epistemic=tree"), None, "2024.01.01").unwrap_err(),
        EntryError::UnknownEpistemicStatus(String::from("tree"))
    );
    assert_eq!(
        Entry::from_path("a.md", String::new(), Some("yesterday"), "2024.01.01").unwrap_err(),
        EntryError::UnparsableDate(String::from("yesterday"))
    );
}
