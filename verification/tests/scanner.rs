use memex::common::{EpiStatus, EpiStatusLookup};
use memex::scanner::{format_md_link_epistemic, validate, Matcher, Scanner};

const SEEDLING_LINK_OPEN: &str =
    "[<img alt='icon representing the epistemic certainty of the linked page' class='epistemic-icon' src='resources/img/seedling_white.png'/>";

#[test]
fn scanner_test_char_matcher() {
    assert!(Matcher::Char('c').check('c'));
    assert!(!Matcher::Char('c').check('d'));
}

#[test]
fn scanner_test_whitespace_matcher() {
    assert!(Matcher::Whitespace.check(' '));
    assert!(!Matcher::Whitespace.check('a'));
}

#[test]
fn scanner_test_alphabetic_matcher() {
    assert!(Matcher::Alphanumeric.check('a'));
    assert!(!Matcher::Alphanumeric.check(' '));
    assert!(Matcher::Alphanumeric.check('9'));
}

#[test]
fn scanner_test_eol_matcher() {
    assert!(!Matcher::EOL.check('a'));
    assert!(Matcher::EOL.check('\n'));
    assert!(Matcher::EOL.check('\r'));
}

#[test]
fn scanner_test_validate() {
    // Empty
    assert!(validate('c', &vec![], &vec![]));
    // Single match
    assert!(validate('c', &vec![Matcher::Char('c')], &vec![]));
    // Match both
    assert!(validate('c', &vec![Matcher::Char('c')], &vec![Matcher::Whitespace]));
    // Match second only - passes
    assert!(validate(' ', &vec![], &vec![Matcher::Char('c')]));
    // Match second only - fails
    assert!(!validate('c', &vec![], &vec![Matcher::Char('c')]));
    // Disagree - fails
    assert!(!validate('c', &vec![Matcher::Char('c')], &vec![Matcher::Char('c')]));
}

#[test]
fn scanner_test_standard_matcher() {
    assert!(Matcher::Standard.check('a'));
    assert!(Matcher::Standard.check('-'));
    assert!(!Matcher::Standard.check(' '));
    assert!(!Matcher::Standard.check('\n'));
}

#[test]
fn scanner_test_image_matcher() {
    assert!(Matcher::Image.check('a'));
    assert!(Matcher::Image.check('-'));
    assert!(!Matcher::Image.check('&'));
}

#[test]
fn scanner_test_alttitle_matcher() {
    assert!(Matcher::AltTitle.check('a'));
    assert!(Matcher::AltTitle.check(' '));
    assert!(!Matcher::AltTitle.check('}'));
    assert!(!Matcher::AltTitle.check('{'));
}

#[test]
fn scanner_test_internal_link_matcher() {
    assert!(Matcher::InternalLink.check('a'));
    assert!(Matcher::InternalLink.check('-'));

    for c in vec![' ', '[', ']', '{', '}', '\n'] {
        assert!(!Matcher::InternalLink.check(c));
    }
}

#[test]
fn scanner_test_scanner_take_if_until_single_term() {
    let mut s = Scanner::new("asdf ", None);
    let r = s.take_if_until(&Matcher::InternalLink, " ");
    assert!(r.is_ok());
    assert_eq!(r.unwrap(), String::from("asdf"));
}

#[test]
fn scanner_test_scanner_take_if_until_double_term() {
    let mut s = Scanner::new("asdf]]", None);
    let r = s.take_if_until(&Matcher::InternalLink, "]]");
    assert!(r.is_ok());
    assert_eq!(r.unwrap(), String::from("asdf"));
}

#[test]
fn scanner_test_scanner_take_if_until_many_term() {
    let mut s = Scanner::new("asdf}1234567890", None);
    let r = s.take_if_until(&Matcher::InternalLink, "}");
    assert!(r.is_ok());
    assert_eq!(r.unwrap(), String::from("asdf"));
}

#[test]
fn scanner_test_scanner_take_if_until_error() {
    let mut s = Scanner::new(" asdf]]", None);
    let r = s.take_if_until(&Matcher::Image, "]]");
    assert!(r.is_err());
}

#[test]
fn scanner_test_scanner_convert_basic() {
    assert_eq!(
        Scanner::new("[[something]]", None).convert(),
        "[<img alt='icon representing the epistemic certainty of the linked page' class='epistemic-icon' src='resources/img/seedling_white.png'/>something](something.html)"
    );
}

#[test]
fn scanner_test_scanner_convert_image_basic() {
    assert_eq!(
        Scanner::new("&test.png&", None).convert(),
        "<img src='resources/img/test.png'/>",
    );
}

#[test]
fn scanner_test_scanner_convert_basic_noop() {
    assert_eq!(Scanner::new("[something]", None).convert(), "[something]");
}

#[test]
fn scanner_test_scanner_convert_unique_title() {
    assert_eq!(
        Scanner::new("{test}[[foo]]", None).convert(),
        "[<img alt='icon representing the epistemic certainty of the linked page' class='epistemic-icon' src='resources/img/seedling_white.png'/>test](foo.html)"
    );
}

#[test]
fn scanner_test_scanner_convert_ignore_partial_link() {
    let s = "something [[test";
    assert_eq!(Scanner::new(s, None).convert(), s);
}

#[test]
fn scanner_test_scanner_convert_ignore_partial_link_alt() {
    let s = "something {alt";
    assert_eq!(Scanner::new(s, None).convert(), s);
}

#[test]
fn scanner_test_scanner_convert_ignore_trash_1() {
    let s = "something {alt}[[test";
    assert_eq!(Scanner::new(s, None).convert(), s);
}

#[test]
fn scanner_test_scanner_convert_ignore_trash_2() {
    let s = "something {alt}[[test]";
    assert_eq!(Scanner::new(s, None).convert(), s);
}

#[test]
fn scanner_test_scanner_convert_ignore_trash_3() {
    let s = "something {alt}[[test}]]";
    assert_eq!(Scanner::new(s, None).convert(), s);
}

#[test]
fn scanner_test_scanner_convert_ignore_trash_4() {
    let s = "{test this}[[seems like it]{cshould][{}[{]} work";
    assert_eq!(Scanner::new(s, None).convert(), s);
}

#[test]
fn scanner_test_scanner_convert_header_link() {
    let s = "\n# Hello World\n";
    let e = "\n# <a name='hello-world'>Hello World</a>\n";
    let o = Scanner::new(s, None).convert();
    assert_eq!(o, e);
}

#[test]
fn test_scanner_convert_code_fence() {
    let s = "\n```\n[[test]]\n```\n";
    let o = Scanner::new(s, None).convert();
    assert_eq!(s, o);
}

#[test]
fn main_test_char_matcher() {
    assert!(Matcher::Char('c').check('c'));
    assert!(!Matcher::Char('c').check('d'));
}

#[test]
fn main_test_whitespace_matcher() {
    assert!(Matcher::Whitespace.check(' '));
    assert!(!Matcher::Whitespace.check('a'));
}

#[test]
fn main_test_alphabetic_matcher() {
    assert!(Matcher::Alphabetic.check('a'));
    assert!(!Matcher::Alphabetic.check(' '));
}

#[test]
fn main_test_eol_matcher() {
    assert!(!Matcher::EOL.check('a'));
    assert!(Matcher::EOL.check('\n'));
    assert!(Matcher::EOL.check('\r'));
}

#[test]
fn main_test_validate() {
    // Empty
    assert!(validate('c', &vec![], &vec![]));
    // Single match
    assert!(validate('c', &vec![Matcher::Char('c')], &vec![]));
    // Match both
    assert!(validate('c', &vec![Matcher::Char('c')], &vec![Matcher::Whitespace]));
    // Match second only - passes
    assert!(validate(' ', &vec![], &vec![Matcher::Char('c')]));
    // Match second only - fails
    assert!(!validate('c', &vec![], &vec![Matcher::Char('c')]));
    // Disagree - fails
    assert!(!validate('c', &vec![Matcher::Char('c')], &vec![Matcher::Char('c')]));
}

#[test]
fn main_test_standard_matcher() {
    assert!(Matcher::Standard.check('a'));
    assert!(Matcher::Standard.check('-'));
    assert!(!Matcher::Standard.check(' '));
    assert!(!Matcher::Standard.check('\n'));
}

#[test]
fn main_test_image_matcher() {
    assert!(Matcher::Image.check('a'));
    assert!(Matcher::Image.check('-'));
    assert!(!Matcher::Image.check('&'));
}

#[test]
fn main_test_alttitle_matcher() {
    assert!(Matcher::AltTitle.check('a'));
    assert!(Matcher::AltTitle.check(' '));
    assert!(!Matcher::AltTitle.check('}'));
    assert!(!Matcher::AltTitle.check('{'));
}

#[test]
fn main_test_internal_link_matcher() {
    assert!(Matcher::InternalLink.check('a'));
    assert!(Matcher::InternalLink.check('-'));

    for c in vec![' ', '[', ']', '{', '}', '\n'] {
        assert!(!Matcher::InternalLink.check(c));
    }
}

#[test]
fn main_test_scanner_take_if_until_single_term() {
    let mut s = Scanner::new("asdf ", None);
    let r = s.take_if_until(&Matcher::InternalLink, " ");
    assert!(r.is_ok());
    assert_eq!(r.unwrap(), String::from("asdf"));
}

#[test]
fn main_test_scanner_take_if_until_double_term() {
    let mut s = Scanner::new("asdf]]", None);
    let r = s.take_if_until(&Matcher::InternalLink, "]]");
    assert!(r.is_ok());
    assert_eq!(r.unwrap(), String::from("asdf"));
}

#[test]
fn main_test_scanner_take_if_until_error() {
    let mut s = Scanner::new(" asdf]]", None);
    let r = s.take_if_until(&Matcher::Image, "]]");
    assert!(r.is_err());
}

#[test]
fn main_test_scanner_convert_basic() {
    assert_eq!(
        Scanner::new("[[something]]", None).convert(),
        "[<img alt='icon representing the epistemic certainty of the linked page' class='epistemic-icon' src='resources/img/seedling_white.png'/>something](something.html)"
    );
}

#[test]
fn main_test_scanner_convert_image_basic() {
    assert_eq!(
        Scanner::new("&test.png&", None).convert(),
        "<img src='resources/img/test.png'/>",
    );
}

#[test]
fn main_test_scanner_convert_basic_noop() {
    assert_eq!(Scanner::new("[something]", None).convert(), "[something]");
}

#[test]
fn main_test_scanner_convert_unique_title() {
    assert_eq!(
        Scanner::new("{test}[[foo]]", None).convert(),
        "[<img alt='icon representing the epistemic certainty of the linked page' class='epistemic-icon' src='resources/img/seedling_white.png'/>test](foo.html)"
    );
}

#[test]
fn main_test_scanner_convert_ignore_partial_link() {
    let s = "something [[test";
    assert_eq!(Scanner::new(s, None).convert(), s);
}

#[test]
fn main_test_scanner_convert_ignore_partial_link_alt() {
    let s = "something {alt";
    assert_eq!(Scanner::new(s, None).convert(), s);
}

#[test]
fn main_test_scanner_convert_ignore_trash_1() {
    let s = "something {alt}[[test";
    assert_eq!(Scanner::new(s, None).convert(), s);
}

#[test]
fn main_test_scanner_convert_ignore_trash_2() {
    let s = "something {alt}[[test]";
    assert_eq!(Scanner::new(s, None).convert(), s);
}

#[test]
fn main_test_scanner_convert_ignore_trash_3() {
    let s = "something {alt}[[test}]]";
    assert_eq!(Scanner::new(s, None).convert(), s);
}

#[test]
fn main_test_scanner_convert_ignore_trash_4() {
    let s = "{test this}[[seems like it]{cshould][{}[{]} work";
    assert_eq!(Scanner::new(s, None).convert(), s);
}

#[test]
fn main_test_scanner_convert_header_link() {
    let s = "\n# Hello World\n";
    let e = "\n# <a name='hello-world'>Hello World</a>\n";
    let o = Scanner::new(s, None).convert();
    println!("{}", o);
    assert_eq!(o, e);
}

#[test]
fn alphanumeric_ids_are_links() {
    let o = Scanner::new("[[page2]]", None).convert();
    assert_eq!(o, format!("{}page2](page2.html)", SEEDLING_LINK_OPEN));
}

#[test]
fn titles_may_hold_commas() {
    let o = Scanner::new("{one, two}[[foo]]", None).convert();
    assert_eq!(o, format!("{}one, two](foo.html)", SEEDLING_LINK_OPEN));
}

#[test]
fn links_show_the_status_of_their_page() {
    let mut lookup = EpiStatusLookup::new();
    lookup.insert("foo", EpiStatus::Dendroid);
    let o = Scanner::new("{Foo}[[foo]] and [[bar]]", Some(lookup)).convert();
    assert_eq!(
        o,
        format!(
            "[<img alt='icon representing the epistemic certainty of the linked page' class='epistemic-icon' src='resources/img/dendroid_white.png'/>Foo](foo.html) and {}bar](bar.html)",
            SEEDLING_LINK_OPEN
        )
    );
}

#[test]
fn md_link_for_a_known_and_an_unknown_page() {
    let mut lookup = EpiStatusLookup::new();
    lookup.insert("a", EpiStatus::Sapling);
    assert_eq!(
        format_md_link_epistemic(&lookup, "A", "a"),
        "[<img alt='icon representing the epistemic certainty of the linked page' class='epistemic-icon' src='resources/img/sapling_white.png'/>A](a.html)"
    );
    assert_eq!(
        format_md_link_epistemic(&lookup, "B", "b"),
        format!("{}B](b.html)", SEEDLING_LINK_OPEN)
    );
}

#[test]
fn plain_text_comes_out_unchanged() {
    let s = "nothing special here, only words.\nand a second line";
    assert_eq!(Scanner::new(s, None).convert(), s);
}

#[test]
fn failed_lookahead_leaves_the_cursor() {
    let mut s = Scanner::new("asdf]x", None);
    assert!(s.take_if_until(&Matcher::InternalLink, "]]").is_err());
    let r = s.take_if_until(&Matcher::InternalLink, "]");
    assert_eq!(r.unwrap(), "asdf");
}

#[test]
fn deeper_headers_and_header_in_first_line() {
    assert_eq!(
        Scanner::new("\n## Two Words\n", None).convert(),
        "\n## <a name='two-words'>Two Words</a>\n"
    );
    // a header on the first line has no line before it and stays as it is
    assert_eq!(Scanner::new("# Top\n", None).convert(), "# Top\n");
}

#[test]
fn code_fence_keeps_what_follows_it() {
    let s = "\n```\nx\n```\nab";
    assert_eq!(Scanner::new(s, None).convert(), s);
    let s = "\n```\n[[a]]\n```\n[[b]]";
    assert_eq!(Scanner::new(s, None).convert(), format!("\n```\n[[a]]\n```\n{}b](b.html)", SEEDLING_LINK_OPEN));
}

#[test]
fn image_without_closing_ampersand() {
    assert_eq!(Scanner::new("a & b", None).convert(), "a & b");
}
