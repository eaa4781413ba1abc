//! The operations of the memex over its pages: reading the pages into
//! entries, renaming a page in every link to it, a new RSS post, and when a
//! change on disk calls for a new build.
use vstd::prelude::*;
use crate::common::{status_of_name, str_eq};
use crate::entry::{
    entry_fields_from, file_stem_of, git_date_text, modification_of, status_word, Entry, EntryError,
};
use crate::regexes::{regex_compiles, replace_pattern, replaced_of, scan, scan_of};
use crate::render::{backlinks, page_links, references_view, same_but_references, with_references};
use crate::text::{chars_of, push_str, string_of};

verus! {

// ---------------------------------------------------------------------------
// Reading the pages
// ---------------------------------------------------------------------------

/// What `std::path::Path::extension` gives for a path (with the path syntax of
/// the target the library is built for): the text after the last dot of its
/// file name, `None` where there is none.
pub uninterp spec fn extension_of(path: Seq<char>) -> Option<Seq<char>>;

/// Calls `std::path::Path::extension`; the contract names its result.
#[verifier::external_body]
fn path_extension(path: &str) -> (res: Option<String>)
    ensures
        res is None <==> extension_of(path@) is None,
        res matches Some(ext) ==> extension_of(path@) == Some(ext@),
{
    std::path::Path::new(path).extension().map(|e| e.to_string_lossy().into_owned())
}

/// Whether a path names a markdown file: its extension is `md`.
pub open spec fn is_markdown_path(path: Seq<char>) -> bool {
    extension_of(path) == Some("md"@)
}

/// Whether a path names a markdown file.
pub fn is_markdown(path: &str) -> (res: bool)
    ensures
        res == is_markdown_path(path@),
{
    match path_extension(path) {
        Some(ext) => str_eq(ext.as_str(), "md"),
        None => false,
    }
}

/// A page file as read from disk: its path below the content folder, its
/// content, and what `git log` printed for it (`None` where git could not run).
pub struct PageSource {
    pub path: String,
    pub content: String,
    pub git_output: Option<String>,
}

/// What git printed, as plain text.
pub open spec fn git_view(g: Option<String>) -> Option<Seq<char>> {
    match g {
        Some(o) => Some(o@),
        None => None,
    }
}

/// Whether a page file becomes an entry: it is markdown and has a file stem.
pub open spec fn kept(p: PageSource) -> bool {
    is_markdown_path(p.path@) && file_stem_of(p.path@) is Some
}

/// The page files that become entries, in order.
pub open spec fn kept_sources(ps: Seq<PageSource>) -> Seq<PageSource>
    decreases ps.len(),
{
    if ps.len() == 0 {
        Seq::empty()
    } else if kept(ps.last()) {
        kept_sources(ps.drop_last()).push(ps.last())
    } else {
        kept_sources(ps.drop_last())
    }
}

/// Whether a kept page file cannot be read: it names an unknown status, or
/// git printed something that is not a date.
pub open spec fn page_fails(p: PageSource, fallback: Seq<char>) -> bool {
    status_of_name(status_word(p.content@)) is None || modification_of(git_view(p.git_output), fallback) is None
}

/// The error for a page file that cannot be read.
pub open spec fn page_error_matches(e: EntryError, p: PageSource) -> bool {
    if status_of_name(status_word(p.content@)) is None {
        e matches EntryError::UnknownEpistemicStatus(w) && w@ == status_word(p.content@)
    } else {
        e matches EntryError::UnparsableDate(t) && p.git_output matches Some(o) && t@ == git_date_text(o@)
    }
}

/// The entries of the pages: each markdown page with a file stem becomes an
/// entry, in order, with the pages that link to it as its references.
/// Refused at the first such page that names an unknown status or whose
/// git date is not a date, with that page's error.
pub fn entries_from_pages(pages: Vec<PageSource>, fallback: &str) -> (res: Result<Vec<Entry>, EntryError>)
    ensures
        res is Ok <==> (forall|k: int| 0 <= k < kept_sources(pages@).len() ==> !page_fails(#[trigger] kept_sources(pages@)[k], fallback@)),
        res matches Err(e) ==> exists|k: int| {
            &&& 0 <= k < kept_sources(pages@).len()
            &&& page_fails(#[trigger] kept_sources(pages@)[k], fallback@)
            &&& page_error_matches(e, kept_sources(pages@)[k])
            &&& forall|m: int| 0 <= m < k ==> !page_fails(#[trigger] kept_sources(pages@)[m], fallback@)
        },
        res matches Ok(es) ==> {
            &&& es@.len() == kept_sources(pages@).len()
            &&& forall|k: int| 0 <= k < es@.len() ==> {
                let p = #[trigger] kept_sources(pages@)[k];
                &&& entry_fields_from(es@[k], p.path@, p.content@, git_view(p.git_output), fallback@)
                &&& references_view(es@[k].references) == backlinks(es@, es@[k].id@)
            }
        },
{
    let ghost ks = kept_sources(pages@);
    let mut entries: Vec<Entry> = Vec::new();
    let mut i: usize = 0;
    assert(pages@.take(0) =~= Seq::<PageSource>::empty());
    while i < pages.len()
        invariant
            i <= pages@.len(),
            ks == kept_sources(pages@),
            entries@.len() == kept_sources(pages@.take(i as int)).len(),
            forall|k: int| 0 <= k < entries@.len() ==> {
                let p = #[trigger] kept_sources(pages@.take(i as int))[k];
                &&& entry_fields_from(entries@[k], p.path@, p.content@, git_view(p.git_output), fallback@)
                &&& !page_fails(p, fallback@)
            },
        decreases pages@.len() - i,
    {
        let ghost prev = kept_sources(pages@.take(i as int));
        let ghost next = kept_sources(pages@.take(i + 1));
        assert(pages@.take(i + 1).drop_last() =~= pages@.take(i as int));
        assert(pages@.take(i + 1).last() == pages@[i as int]);
        let page = &pages[i];
        if is_markdown(page.path.as_str()) {
            let git = match &page.git_output {
                Some(g) => Some(g.as_str()),
                None => None,
            };
            assert(git_view(page.git_output) == match git { Some(o) => Some(o@), None => None::<Seq<char>> });
            match Entry::from_path(page.path.as_str(), page.content.clone(), git, fallback) {
                Ok(e) => {
                    let ghost before = entries@;
                    entries.push(e);
                    assert(next == prev.push(*page));
                    assert forall|k: int| 0 <= k < entries@.len() implies {
                        let p = #[trigger] next[k];
                        &&& entry_fields_from(entries@[k], p.path@, p.content@, git_view(p.git_output), fallback@)
                        &&& !page_fails(p, fallback@)
                    } by {
                        if k < before.len() {
                            assert(entries@[k] == before[k]);
                            assert(next[k] == prev[k]);
                        }
                    }
                },
                Err(EntryError::NoFileStem) => {
                    assert(next == prev);
                },
                Err(err) => {
                    proof {
                        lemma_kept_prefix(pages@, i as int);
                        assert(next == prev.push(*page));
                        assert(ks[prev.len() as int] == *page);
                        assert forall|m: int| 0 <= m < prev.len() implies !page_fails(#[trigger] ks[m], fallback@) by {
                            assert(ks[m] == prev[m]);
                        }
                    }
                    return Err(err);
                },
            }
        } else {
            assert(next == prev);
        }
        i += 1;
    }
    assert(pages@.take(pages@.len() as int) =~= pages@);
    let res = with_references(entries);
    proof {
        lemma_page_links_congruent(res@, entries@);
    }
    assert forall|k: int| 0 <= k < res@.len() implies {
        let p = #[trigger] ks[k];
        &&& entry_fields_from(res@[k], p.path@, p.content@, git_view(p.git_output), fallback@)
        &&& references_view(res@[k].references) == backlinks(res@, res@[k].id@)
    } by {
        assert(same_but_references(res@[k], entries@[k]));
    }
    assert forall|k: int| 0 <= k < ks.len() implies !page_fails(#[trigger] ks[k], fallback@) by {
        assert(kept_sources(pages@.take(pages@.len() as int))[k] == ks[k]);
    }
    Ok(res)
}

/// The kept page files of a prefix come first among those of the whole.
proof fn lemma_kept_prefix(ps: Seq<PageSource>, i: int)
    requires
        0 <= i < ps.len(),
    ensures
        ({
            let a = kept_sources(ps.take(i + 1));
            let b = kept_sources(ps);
            &&& a.len() <= b.len()
            &&& forall|m: int| 0 <= m < a.len() ==> #[trigger] b[m] == a[m]
        }),
    decreases ps.len() - i,
{
    if i + 1 < ps.len() {
        lemma_kept_prefix(ps, i + 1);
        assert(ps.take(i + 2).drop_last() =~= ps.take(i + 1));
    } else {
        assert(ps.take(i + 1) =~= ps);
    }
}

/// Entries with the same ids and links, one by one, link the same way.
proof fn lemma_page_links_congruent(a: Seq<Entry>, b: Seq<Entry>)
    requires
        a.len() == b.len(),
        forall|i: int| 0 <= i < a.len() ==> #[trigger] same_but_references(a[i], b[i]),
    ensures
        page_links(a) == page_links(b),
    decreases a.len(),
{
    if a.len() > 0 {
        assert forall|i: int| 0 <= i < a.len() - 1 implies #[trigger] same_but_references(a.drop_last()[i], b.drop_last()[i]) by {
            assert(same_but_references(a[i], b[i]));
        }
        lemma_page_links_congruent(a.drop_last(), b.drop_last());
        assert(same_but_references(a[a.len() - 1], b[b.len() - 1]));
    }
}

// ---------------------------------------------------------------------------
// Renaming a page
// ---------------------------------------------------------------------------

/// The pattern of the links to a page: `\[\[` + id + `\]\]`. The id goes in as
/// it is, so its own regex syntax counts.
pub open spec fn rename_pattern(old: Seq<char>) -> Seq<char> {
    "\\[\\["@ + old + "\\]\\]"@
}

/// A link to a page.
pub open spec fn link_to(new: Seq<char>) -> Seq<char> {
    "[["@ + new + "]]"@
}

/// For each entry whose content matches the pattern, in order, its path and
/// its content with every match replaced by `replacement`.
pub open spec fn renamed_files(es: Seq<Entry>, pattern: Seq<char>, replacement: Seq<char>) -> Seq<(Seq<char>, Seq<char>)>
    decreases es.len(),
{
    if es.len() == 0 {
        Seq::empty()
    } else if scan_of(pattern, es.last().content@).0.len() > 0 {
        renamed_files(es.drop_last(), pattern, replacement).push((es.last().path@, replaced_of(pattern, es.last().content@, replacement)))
    } else {
        renamed_files(es.drop_last(), pattern, replacement)
    }
}

/// The files to rewrite to rename page `old` to `new`: for each entry that
/// links to `old`, its path and its content with every link `[[old]]`
/// turned into `[[new]]`. `None` where `old` makes the link pattern invalid.
pub fn rename_links(entries: &Vec<Entry>, old: &str, new: &str) -> (res: Option<Vec<(String, String)>>)
    ensures
        res is Some <==> regex_compiles(rename_pattern(old@)),
        res matches Some(files) ==> Seq::new(files@.len(), |i: int| (files@[i].0@, files@[i].1@))
            == renamed_files(entries@, rename_pattern(old@), link_to(new@)),
{
    let mut pattern = String::new();
    push_str(&mut pattern, "\\[\\[");
    push_str(&mut pattern, old);
    push_str(&mut pattern, "\\]\\]");
    let mut replacement = String::new();
    push_str(&mut replacement, "[[");
    push_str(&mut replacement, new);
    push_str(&mut replacement, "]]");
    if !crate::regexes::compiles(pattern.as_str()) {
        return None;
    }
    let ghost pat = rename_pattern(old@);
    let ghost rep = link_to(new@);
    let mut files: Vec<(String, String)> = Vec::new();
    let mut i: usize = 0;
    assert(entries@.take(0) =~= Seq::<Entry>::empty());
    while i < entries.len()
        invariant
            i <= entries@.len(),
            pattern@ == pat,
            replacement@ == rep,
            Seq::new(files@.len(), |k: int| (files@[k].0@, files@[k].1@)) == renamed_files(entries@.take(i as int), pat, rep),
        decreases entries@.len() - i,
    {
        assert(entries@.take(i + 1).drop_last() =~= entries@.take(i as int));
        assert(entries@.take(i + 1).last() == entries@[i as int]);
        let content = entries[i].content.as_str();
        let sc = scan(pattern.as_str(), content);
        if sc.matches.len() > 0 {
            let replaced = replace_pattern(pattern.as_str(), content, replacement.as_str());
            let ghost before = files@;
            files.push((entries[i].path.clone(), replaced));
            assert(Seq::new(files@.len(), |k: int| (files@[k].0@, files@[k].1@)) =~= Seq::new(before.len(), |k: int| (before[k].0@, before[k].1@)).push(
                (entries@[i as int].path@, replaced_of(pat, entries@[i as int].content@, rep)),
            ));
        }
        i += 1;
    }
    assert(entries@.take(entries@.len() as int) =~= entries@);
    Some(files)
}

// ---------------------------------------------------------------------------
// RSS posts
// ---------------------------------------------------------------------------

/// A new post of the RSS feed, as typed in.
pub struct RssPost {
    pub title: String,
    pub link: String,
    pub description: String,
    /// The publication date, as RFC 2822 text.
    pub pub_date: String,
}

/// A line as read from the terminal, without its last character (the line
/// feed); an empty line stays empty.
pub open spec fn chomped(s: Seq<char>) -> Seq<char> {
    if s.len() > 0 {
        s.drop_last()
    } else {
        s
    }
}

/// A line without its last character.
fn chomp(s: &str) -> (res: String)
    ensures
        res@ == chomped(s@),
{
    let cs = chars_of(s);
    if cs.len() == 0 {
        return String::new();
    }
    let mut out = String::new();
    crate::text::push_chars(&mut out, &cs, 0, cs.len() - 1);
    assert(cs@.subrange(0, cs@.len() - 1) =~= cs@.drop_last());
    out
}

/// The post made of the lines typed in for its title, link and description,
/// each without its line feed, published at `pub_date`.
pub fn rss_post(title: &str, link: &str, description: &str, pub_date: &str) -> (res: RssPost)
    ensures
        res.title@ == chomped(title@),
        res.link@ == chomped(link@),
        res.description@ == chomped(description@),
        res.pub_date@ == pub_date@,
{
    RssPost {
        title: chomp(title),
        link: chomp(link),
        description: chomp(description),
        pub_date: string_of(&chars_of(pub_date)),
    }
}

/// The RSS feed, as the `rss` crate reads it.
#[verifier::external_type_specification]
#[verifier::external_body]
pub struct ExRssChannel(rss::Channel);

/// The items of a feed, in order, each as its title, link, description and
/// publication date.
pub uninterp spec fn channel_items(c: rss::Channel) -> Seq<(Option<Seq<char>>, Option<Seq<char>>, Option<Seq<char>>, Option<Seq<char>>)>;

/// The last build date of a feed.
pub uninterp spec fn channel_build_date(c: rss::Channel) -> Option<Seq<char>>;

/// Whether `rss::validation::Validate::validate` accepts everything of a feed
/// but its last build date: its link, categories, cloud, docs, image, items,
/// publication date, skip hours, skip days, text input and time to live.
pub uninterp spec fn channel_rest_valid(c: rss::Channel) -> bool;

/// Whether `chrono::DateTime::parse_from_rfc2822`, with which the feed
/// validation checks dates, accepts a text.
pub uninterp spec fn rfc2822_parses(s: Seq<char>) -> bool;

/// Whether `url::Url::parse`, with which the feed validation checks links,
/// accepts a text.
pub uninterp spec fn url_parses(s: Seq<char>) -> bool;

/// Whether a feed is valid: all of it but its build date is, and the build
/// date, where there is one, is an RFC 2822 date.
pub open spec fn channel_valid(c: rss::Channel) -> bool {
    &&& channel_rest_valid(c)
    &&& (channel_build_date(c) matches Some(d) ==> rfc2822_parses(d))
}

/// The items of the feed that `rss::Channel::read_from` reads from some
/// bytes, `None` where it reads none.
pub uninterp spec fn feed_items(xml: Seq<u8>) -> Option<Seq<(Option<Seq<char>>, Option<Seq<char>>, Option<Seq<char>>, Option<Seq<char>>)>>;

/// Whether the feed that `rss::Channel::read_from` reads from some bytes is
/// valid.
pub uninterp spec fn feed_valid(xml: Seq<u8>) -> bool;

/// The bytes that `rss::Channel::pretty_write_to` writes for a feed, indented
/// by two spaces, where the hash maps of the feed's namespaces and extensions
/// are walked in the order numbered `order`: that order differs from one
/// process to the next, and with it the order of what the maps hold.
pub uninterp spec fn channel_xml(c: rss::Channel, order: int) -> Seq<u8>;

/// Calls `rss::Channel::read_from` on the bytes of a feed. The contract names
/// whether it reads a feed, what items it reads, and whether the feed is
/// valid; it says nothing else of the feed.
#[verifier::external_body]
fn read_channel(xml: &[u8]) -> (res: Option<rss::Channel>)
    ensures
        res is None <==> feed_items(xml@) is None,
        res matches Some(c) ==> feed_items(xml@) == Some(channel_items(c)),
        res matches Some(c) ==> feed_valid(xml@) == (channel_rest_valid(c) && (channel_build_date(c) matches Some(d)
            ==> rfc2822_parses(d))),
{
    rss::Channel::read_from(xml).ok()
}

/// Calls `rss::validation::Validate::validate` on a feed. The contract claims
/// that it accepts the feed exactly when it accepts all of it but the build
/// date and the build date, where there is one, is an RFC 2822 date.
#[verifier::external_body]
fn validate_channel(c: &rss::Channel) -> (res: bool)
    ensures
        res == (channel_rest_valid(*c) && (channel_build_date(*c) matches Some(d) ==> rfc2822_parses(d))),
{
    rss::validation::Validate::validate(c).is_ok()
}

/// The item of a post, as plain values.
pub open spec fn item_of(p: RssPost) -> (Option<Seq<char>>, Option<Seq<char>>, Option<Seq<char>>, Option<Seq<char>>) {
    (Some(p.title@), Some(p.link@), Some(p.description@), Some(p.pub_date@))
}

/// Pushes onto the `items` of a feed an `rss::Item` with the post's title,
/// link, description and date and a default `rss::Guid`, every other field
/// left at its default. The contract claims that the items gain that item at
/// the end, that the build date stays, and that the rest of the feed is valid
/// exactly when it was and the new item is, which for an item with no
/// comments, enclosure or source means its link and date parse.
#[verifier::external_body]
fn push_item(c: &mut rss::Channel, post: &RssPost)
    ensures
        channel_items(*final(c)) == channel_items(*old(c)).push(item_of(*post)),
        channel_build_date(*final(c)) == channel_build_date(*old(c)),
        channel_rest_valid(*final(c)) == (channel_rest_valid(*old(c)) && url_parses(post.link@) && rfc2822_parses(
            post.pub_date@,
        )),
{
    c.items.push(rss::Item {
        title: Some(post.title.clone()),
        link: Some(post.link.clone()),
        description: Some(post.description.clone()),
        guid: Some(rss::Guid::default()),
        pub_date: Some(post.pub_date.clone()),
        ..Default::default()
    });
}

/// Calls `rss::Channel::set_last_build_date`. The contract claims that the
/// build date becomes `date` and that the items and the validity of the rest
/// of the feed stay.
#[verifier::external_body]
fn set_build_date(c: &mut rss::Channel, date: &str)
    ensures
        channel_build_date(*final(c)) == Some(date@),
        channel_items(*final(c)) == channel_items(*old(c)),
        channel_rest_valid(*final(c)) == channel_rest_valid(*old(c)),
{
    c.set_last_build_date(date.to_string());
}

/// Calls `rss::Channel::pretty_write_to` with a byte vector, a space and an
/// indent of two. Writing to a vector does not fail: the only errors the
/// writer returns are those of the vector's own writes. The contract claims
/// that the bytes are what the feed is written as in some order of its maps.
#[verifier::external_body]
fn write_channel(c: &rss::Channel) -> (res: Vec<u8>)
    ensures
        exists|order: int| res@ == #[trigger] channel_xml(*c, order),
{
    c.pretty_write_to(Vec::new(), b' ', 2).expect("writing to a vector does not fail")
}

/// Why the feed could not take a post.
#[derive(Debug, Clone, Copy, PartialEq, Eq, Structural)]
pub enum RssError {
    /// The bytes are not a feed.
    Unreadable,
    /// The feed is not valid.
    Invalid,
    /// The feed is not valid once the post is in it.
    InvalidPost,
}

/// The feed in some bytes, where they hold one and it is valid.
pub fn parse_rss(xml: &[u8]) -> (res: Result<rss::Channel, RssError>)
    ensures
        res == Err::<rss::Channel, RssError>(RssError::Unreadable) <==> feed_items(xml@) is None,
        res == Err::<rss::Channel, RssError>(RssError::Invalid) <==> (feed_items(xml@) is Some && !feed_valid(xml@)),
        res is Ok <==> (feed_items(xml@) is Some && feed_valid(xml@)),
        res matches Ok(c) ==> feed_items(xml@) == Some(channel_items(c)) && channel_valid(c),
{
    match read_channel(xml) {
        None => Err(RssError::Unreadable),
        Some(channel) => {
            if validate_channel(&channel) {
                Ok(channel)
            } else {
                Err(RssError::Invalid)
            }
        },
    }
}

/// The feed with its build date set to `now` and a post added at the end of
/// its items, where the feed is valid then: where all of the feed but its old
/// build date is valid, `now` is an RFC 2822 date, and the post's link is a
/// URL and its date an RFC 2822 date.
pub fn add_post_to_channel(channel: rss::Channel, post: &RssPost, now: &str) -> (res: Result<rss::Channel, RssError>)
    ensures
        res is Ok <==> (channel_rest_valid(channel) && rfc2822_parses(now@) && url_parses(post.link@)
            && rfc2822_parses(post.pub_date@)),
        res matches Err(e) ==> e == RssError::InvalidPost,
        res matches Ok(c) ==> {
            &&& channel_items(c) == channel_items(channel).push(item_of(*post))
            &&& channel_build_date(c) == Some(now@)
            &&& channel_valid(c)
        },
{
    let mut channel = channel;
    set_build_date(&mut channel, now);
    push_item(&mut channel, post);
    if validate_channel(&channel) {
        Ok(channel)
    } else {
        Err(RssError::InvalidPost)
    }
}

/// The item of the post made of some typed lines, published `now`.
pub open spec fn typed_item(title: Seq<char>, link: Seq<char>, description: Seq<char>, now: Seq<char>) -> (
    Option<Seq<char>>,
    Option<Seq<char>>,
    Option<Seq<char>>,
    Option<Seq<char>>,
) {
    (Some(chomped(title)), Some(chomped(link)), Some(chomped(description)), Some(now))
}

/// The bytes of a feed with a new post: the feed in `xml` must be readable
/// and valid; the post is made of the typed lines, each without its line
/// feed, published `now`, which also becomes the build date; the feed must
/// stay valid, which it does where `now` is an RFC 2822 date and the link a
/// URL. The feed is written out with every item it had and the new one last.
pub fn add_post(xml: &[u8], title: &str, link: &str, description: &str, now: &str) -> (res: Result<Vec<u8>, RssError>)
    ensures
        res == Err::<Vec<u8>, RssError>(RssError::Unreadable) <==> feed_items(xml@) is None,
        res == Err::<Vec<u8>, RssError>(RssError::Invalid) <==> (feed_items(xml@) is Some && !feed_valid(xml@)),
        res == Err::<Vec<u8>, RssError>(RssError::InvalidPost) <==> (feed_items(xml@) is Some && feed_valid(xml@)
            && !(rfc2822_parses(now@) && url_parses(chomped(link@)))),
        res matches Ok(b) ==> exists|after: rss::Channel, order: int| {
            &&& #[trigger] channel_xml(after, order) == b@
            &&& channel_items(after) == feed_items(xml@)->0.push(typed_item(title@, link@, description@, now@))
            &&& channel_build_date(after) == Some(now@)
            &&& channel_valid(after)
        },
{
    let channel = match parse_rss(xml) {
        Ok(c) => c,
        Err(e) => return Err(e),
    };
    let post = rss_post(title, link, description, now);
    let updated = match add_post_to_channel(channel, &post, now) {
        Ok(c) => c,
        Err(e) => return Err(e),
    };
    assert(item_of(post) == typed_item(title@, link@, description@, now@));
    let bytes = write_channel(&updated);
    Ok(bytes)
}

// ---------------------------------------------------------------------------
// Watching
// ---------------------------------------------------------------------------

/// A change on disk, as the file watcher reports it.
#[derive(Debug, Clone, Copy, PartialEq, Eq, Structural)]
pub enum WatchEvent {
    /// A file is about to be written.
    NoticeWrite,
    /// A file is about to be removed.
    NoticeRemove,
    Create,
    Write,
    Chmod,
    Remove,
    Rename,
    /// The watcher lost events and the tree should be read again.
    Rescan,
    Error,
}

/// Whether the memex is built again after a change: after every change but
/// the notice that a file is about to be removed.
pub fn rebuilds_on(event: WatchEvent) -> (res: bool)
    ensures
        res == !(event is NoticeRemove),
{
    match event {
        WatchEvent::NoticeRemove => false,
        _ => true,
    }
}

} // verus!
