//! Rendering of pages: templates filled with converted markdown, the wrapping
//! of dithered images, gemtext, references and the list of recent changes.
use vstd::prelude::*;
use crate::common::{lookup_map, str_eq, EpiStatus, EpiStatusLookup, DOMAIN};
use crate::directory_tree::{
    lemma_render_node_shape, path_components_of, render_node, segments_of, tree_of, DirectoryTree,
};
use crate::entry::{outline_of, Entry};
use crate::regexes::{
    group, group_text, RegexScan, replace_pattern, replaced_of, scan, scan_of, DITHERED_IMG_REGEX,
    HTML_TAG_REGEX, INTERNAL_LINK_REGEX, MD_LINK_REGEX, TAG_SRC_REGEX,
};
use crate::scanner::{converted, Scanner};
use crate::text::{
    chars_less, chars_lt, chars_of, join, join_seq, lemma_chars_lt_irreflexive,
    lemma_chars_lt_transitive, push_str, replace, replace_seq, starts_with, starts_with_seq,
    string_views,
};

verus! {

// ---------------------------------------------------------------------------
// Templates and markdown
// ---------------------------------------------------------------------------

/// Opens a template slot.
pub const TEMPLATE_OPEN: &'static str = "{{ ";
/// Closes a template slot.
pub const TEMPLATE_CLOSE: &'static str = " }}";

/// The slot `{{ item }}` of a template.
pub open spec fn template_of(item: Seq<char>) -> Seq<char> {
    TEMPLATE_OPEN@ + item + TEMPLATE_CLOSE@
}

/// The slot `{{ item }}` of a template.
pub fn make_template(item: &str) -> (res: String)
    ensures
        res@ == template_of(item@),
{
    let mut s = String::new();
    push_str(&mut s, TEMPLATE_OPEN);
    push_str(&mut s, item);
    push_str(&mut s, TEMPLATE_CLOSE);
    s
}

/// The settings of the markdown renderer that the memex chooses; every other
/// setting keeps the renderer's default.
#[derive(Debug, Clone, Copy, PartialEq, Eq, Structural)]
pub struct MarkdownOptions {
    /// Raw HTML and dangerous links pass through.
    pub unsafe_: bool,
    /// Raw HTML is escaped.
    pub escape: bool,
    /// Quotes, dashes and ellipses are typeset.
    pub smart: bool,
    /// GitHub tables.
    pub table: bool,
    /// Bare URLs become links.
    pub autolink: bool,
    /// Some HTML tags are filtered out.
    pub tagfilter: bool,
    /// Footnotes.
    pub footnotes: bool,
}

/// What `comrak::markdown_to_html` returns for a markdown text with comrak's
/// default options, the given settings set.
pub uninterp spec fn markdown_html(md: Seq<char>, options: MarkdownOptions) -> Seq<char>;

/// Calls `comrak::markdown_to_html` with `ComrakOptions::default()` in which
/// the seven settings of `options` are set; the contract names the result.
#[verifier::external_body]
fn markdown_to_html(md: &str, options: MarkdownOptions) -> (res: String)
    ensures
        res@ == markdown_html(md@, options),
{
    let mut o = comrak::ComrakOptions::default();
    o.render.unsafe_ = options.unsafe_;
    o.render.escape = options.escape;
    o.parse.smart = options.smart;
    o.extension.table = options.table;
    o.extension.autolink = options.autolink;
    o.extension.tagfilter = options.tagfilter;
    o.extension.footnotes = options.footnotes;
    comrak::markdown_to_html(md, &o)
}

/// The settings of the memex: raw HTML passes unescaped and unfiltered,
/// typography, tables, autolinks and footnotes are on.
pub open spec fn memex_markdown_options() -> MarkdownOptions {
    MarkdownOptions {
        unsafe_: true,
        escape: false,
        smart: true,
        table: true,
        autolink: true,
        tagfilter: false,
        footnotes: true,
    }
}

/// The settings of the memex's markdown renderer.
pub fn comrak_options() -> (res: MarkdownOptions)
    ensures
        res == memex_markdown_options(),
{
    MarkdownOptions {
        unsafe_: true,
        escape: false,
        smart: true,
        table: true,
        autolink: true,
        tagfilter: false,
        footnotes: true,
    }
}

/// Opens the link around a dithered image, before the image name.
pub const IMG_LINK_OPEN: &'static str = "<a class='img' href=\"resources/img/";
/// After the image name, before the image tag.
pub const IMG_LINK_MID: &'static str = ".png\">";
/// Closes the link around a dithered image.
pub const IMG_LINK_CLOSE: &'static str = "</a>";

/// The link to the full image around the tag of a dithered image.
pub open spec fn img_link(m: (Seq<char>, Seq<Option<Seq<char>>>)) -> Seq<char> {
    IMG_LINK_OPEN@ + group_text(m, 2) + IMG_LINK_MID@ + group_text(m, 1) + IMG_LINK_CLOSE@
}

/// The text before each match, each match turned into its image link.
pub open spec fn img_links_spliced(ms: Seq<(Seq<char>, Seq<Option<Seq<char>>>)>) -> Seq<char>
    decreases ms.len(),
{
    if ms.len() == 0 {
        Seq::empty()
    } else {
        img_links_spliced(ms.drop_last()) + ms.last().0 + img_link(ms.last())
    }
}

/// A text in which every tag of a dithered image is wrapped in a link to the
/// full image, `resources/img/<name>.png`.
pub open spec fn dither_wrapped(body: Seq<char>) -> Seq<char> {
    img_links_spliced(scan_of(DITHERED_IMG_REGEX@, body).0) + scan_of(DITHERED_IMG_REGEX@, body).1
}

/// The text of a scan with each match, the tag of a dithered image, wrapped
/// in a link to the full image.
pub fn wrap_dithered(sc: &RegexScan) -> (res: String)
    ensures
        res@ == img_links_spliced(sc@.0) + sc@.1,
{
    let mut out = String::new();
    let mut i: usize = 0;
    assert(sc@.0.take(0) =~= Seq::<(Seq<char>, Seq<Option<Seq<char>>>)>::empty());
    while i < sc.matches.len()
        invariant
            i <= sc.matches@.len(),
            out@ == img_links_spliced(sc@.0.take(i as int)),
        decreases sc.matches@.len() - i,
    {
        let m = &sc.matches[i];
        assert(sc@.0.take(i + 1).drop_last() =~= sc@.0.take(i as int));
        assert(sc@.0.take(i + 1).last() == m@);
        let ghost before = out@;
        push_str(&mut out, m.before.as_str());
        push_str(&mut out, IMG_LINK_OPEN);
        let name = group(m, 2);
        push_str(&mut out, name.as_str());
        push_str(&mut out, IMG_LINK_MID);
        let img = group(m, 1);
        push_str(&mut out, img.as_str());
        push_str(&mut out, IMG_LINK_CLOSE);
        assert(out@ =~= before + m@.0 + img_link(m@));
        i += 1;
    }
    assert(sc@.0.take(sc@.0.len() as int) =~= sc@.0);
    push_str(&mut out, sc.tail.as_str());
    out
}

/// Wraps every tag of a dithered image in a link to the full image.
pub fn format_img_dither_wrap_anchor(body: &str) -> (res: String)
    ensures
        res@ == dither_wrapped(body@),
{
    let sc = scan(DITHERED_IMG_REGEX, body);
    wrap_dithered(&sc)
}

/// The HTML of a markdown text: dithered images wrapped in links, then
/// rendered with the memex's settings.
pub open spec fn rendered_md(s: Seq<char>) -> Seq<char> {
    markdown_html(dither_wrapped(s), memex_markdown_options())
}

/// The HTML of a markdown text.
pub fn render_md(s: &str) -> (res: String)
    ensures
        res@ == rendered_md(s@),
{
    let wrapped = format_img_dither_wrap_anchor(s);
    markdown_to_html(wrapped.as_str(), comrak_options())
}

/// What fills a template slot: the replacement converted from memex syntax,
/// then rendered to HTML.
pub open spec fn slot_html(replacement: Seq<char>, lookup: Map<Seq<char>, EpiStatus>) -> Seq<char> {
    rendered_md(converted(replacement, lookup))
}

/// `body` with every slot `{{ item }}` filled with the HTML of `replacement`.
pub fn replace_template(epistemic_lookup: &EpiStatusLookup, body: &str, item: &str, replacement: &str) -> (res: String)
    ensures
        res@ == replace_seq(body@, template_of(item@), slot_html(replacement@, epistemic_lookup@)),
{
    let mut scanner = Scanner::new(replacement, Some(epistemic_lookup.copied()));
    let repl = scanner.convert();
    assert(repl@ =~= converted(replacement@, epistemic_lookup@));
    let html = render_md(repl.as_str());
    let template = make_template(item);
    proof {
        reveal_strlit("{{ ");
    }
    replace(body, template.as_str(), html.as_str())
}

/// The pairs of slot names and replacements, as plain values.
pub open spec fn mapping_view(m: Seq<(&str, &str)>) -> Seq<(Seq<char>, Seq<char>)> {
    Seq::new(m.len(), |i: int| (m[i].0@, m[i].1@))
}

/// `body` with the slots of each pair filled, one pair after the other.
pub open spec fn templates_filled(
    body: Seq<char>,
    mapping: Seq<(Seq<char>, Seq<char>)>,
    lookup: Map<Seq<char>, EpiStatus>,
) -> Seq<char>
    decreases mapping.len(),
{
    if mapping.len() == 0 {
        body
    } else {
        replace_seq(
            templates_filled(body, mapping.drop_last(), lookup),
            template_of(mapping.last().0),
            slot_html(mapping.last().1, lookup),
        )
    }
}

/// `body` with the slots of each pair of `mapping` filled, in order.
pub fn replace_templates(epistemic_lookup: &EpiStatusLookup, body: &str, mapping: Vec<(&str, &str)>) -> (res: String)
    ensures
        res@ == templates_filled(body@, mapping_view(mapping@), epistemic_lookup@),
{
    let ghost mv = mapping_view(mapping@);
    let mut out = body.to_owned();
    let mut i: usize = 0;
    assert(mv.take(0) =~= Seq::<(Seq<char>, Seq<char>)>::empty());
    while i < mapping.len()
        invariant
            i <= mapping@.len(),
            mv == mapping_view(mapping@),
            out@ == templates_filled(body@, mv.take(i as int), epistemic_lookup@),
        decreases mapping@.len() - i,
    {
        let (key, value) = mapping[i];
        assert(mv.take(i + 1).drop_last() =~= mv.take(i as int));
        assert(mv.take(i + 1).last() == (key@, value@));
        out = replace_template(epistemic_lookup, out.as_str(), key, value);
        i += 1;
    }
    assert(mv.take(mapping@.len() as int) =~= mv);
    out
}


// ---------------------------------------------------------------------------
// Gemtext
// ---------------------------------------------------------------------------

/// Starts a gemini link to a page of the memex, before its id.
pub const GEMINI_PREFIX: &'static str = "=> gemini://";
/// The rest of the link to the index page.
pub const GEMINI_INDEX: &'static str = "/index.gmi index and recent changes";
/// The rest of the link to the directory page.
pub const GEMINI_DIRECTORY: &'static str = "/directory.gmi directory of all pages";
/// Between the id of a page and its name in a gemini link.
pub const GEMINI_EXTENSION: &'static str = ".gmi ";
/// Starts a link line.
pub const LINK_LINE: &'static str = "=> ";
/// Starts a link line to a resource of the memex on the web.
pub const HTTPS_PREFIX: &'static str = "=> https://";
/// The directory of the memex's resources.
pub const RESOURCES_DIR: &'static str = "resources/";
/// Heads the gemini links at the end of a gemtext page.
pub const GEMINI_LINKS: &'static str = "\nGemini Links:\n";
/// Heads the web links at the end of a gemtext page.
pub const WEB_LINKS: &'static str = "\n\nWeb Links:\n";

/// The link line to the index page.
pub open spec fn gemini_index_line() -> Seq<char> {
    GEMINI_PREFIX@ + DOMAIN@ + GEMINI_INDEX@
}

/// The link line to the directory page.
pub open spec fn gemini_directory_line() -> Seq<char> {
    GEMINI_PREFIX@ + DOMAIN@ + GEMINI_DIRECTORY@
}

/// The gemini link line to a page of the memex.
pub open spec fn gemini_link_line(link: Seq<char>) -> Seq<char> {
    GEMINI_PREFIX@ + DOMAIN@ + seq!['/'] + link + GEMINI_EXTENSION@ + link
}

/// The link line of a markdown link.
pub open spec fn web_link_line(title: Seq<char>, link: Seq<char>) -> Seq<char> {
    LINK_LINE@ + link + seq![' '] + title
}

/// The link line of the source of a tag: on the memex's site where it is one
/// of its resources, else as it is.
pub open spec fn source_link_line(src: Seq<char>) -> Seq<char> {
    if starts_with_seq(src, RESOURCES_DIR@) {
        HTTPS_PREFIX@ + DOMAIN@ + seq!['/'] + src
    } else {
        LINK_LINE@ + src
    }
}

/// The text before each match, each match turned into its group `k` in
/// square brackets.
pub open spec fn bracketed_spliced(ms: Seq<(Seq<char>, Seq<Option<Seq<char>>>)>, k: int) -> Seq<char>
    decreases ms.len(),
{
    if ms.len() == 0 {
        Seq::empty()
    } else {
        bracketed_spliced(ms.drop_last(), k) + ms.last().0 + seq!['['] + group_text(ms.last(), k) + seq![']']
    }
}

/// A text with each match of a pattern turned into its group `k` in square
/// brackets.
pub open spec fn bracketed(pattern: Seq<char>, s: Seq<char>, k: int) -> Seq<char> {
    bracketed_spliced(scan_of(pattern, s).0, k) + scan_of(pattern, s).1
}

/// A text with internal links turned into their ids in square brackets.
pub open spec fn gemtext_body1(s: Seq<char>) -> Seq<char> {
    bracketed(INTERNAL_LINK_REGEX@, s, 3)
}

/// That text with markdown links turned into their titles in square brackets.
pub open spec fn gemtext_body2(s: Seq<char>) -> Seq<char> {
    bracketed(MD_LINK_REGEX@, gemtext_body1(s), 1)
}

/// The gemini link lines of a page: the index, the directory, then each
/// internal link in order.
pub open spec fn gemini_lines(s: Seq<char>) -> Seq<Seq<char>> {
    let ms = scan_of(INTERNAL_LINK_REGEX@, s).0;
    seq![gemini_index_line(), gemini_directory_line()] + Seq::new(ms.len(), |i: int| gemini_link_line(group_text(ms[i], 3)))
}

/// The web link lines of a page: each markdown link in order, then the
/// source of each tag.
pub open spec fn web_lines(s: Seq<char>) -> Seq<Seq<char>> {
    let ms = scan_of(MD_LINK_REGEX@, gemtext_body1(s)).0;
    let ts = scan_of(TAG_SRC_REGEX@, gemtext_body2(s)).0;
    Seq::new(ms.len(), |i: int| web_link_line(group_text(ms[i], 1), group_text(ms[i], 2)))
        + Seq::new(ts.len(), |i: int| source_link_line(group_text(ts[i], 1)))
}

/// The gemtext of a markdown page: links turned into bracketed text, HTML
/// tags removed, then the gemini links and the web links, one per line.
pub open spec fn gemtext_of(s: Seq<char>) -> Seq<char> {
    replaced_of(HTML_TAG_REGEX@, gemtext_body2(s), Seq::empty()) + GEMINI_LINKS@ + join_seq(gemini_lines(s), seq!['\n'])
        + WEB_LINKS@ + join_seq(web_lines(s), seq!['\n'])
}

/// Pushes `line` to `lines`.
fn push_line(lines: &mut Vec<String>, line: String)
    ensures
        string_views(final(lines)@) == string_views(old(lines)@).push(line@),
{
    let ghost before = lines@;
    lines.push(line);
    assert(string_views(lines@) =~= string_views(before).push(line@));
}

/// The text of a scan with each match turned into its group `k` in square
/// brackets, and each match's groups `k` and `other`, in order.
pub fn bracket_scan(sc: &RegexScan, k: usize, other: usize) -> (res: (String, Vec<(String, String)>))
    ensures
        res.0@ == bracketed_spliced(sc@.0, k as int) + sc@.1,
        res.1@.len() == sc@.0.len(),
        forall|i: int| 0 <= i < res.1@.len() ==> {
            &&& (#[trigger] res.1@[i]).0@ == group_text(sc@.0[i], k as int)
            &&& res.1@[i].1@ == group_text(sc@.0[i], other as int)
        },
{
    let mut out = String::new();
    let mut found: Vec<(String, String)> = Vec::new();
    let mut i: usize = 0;
    assert(sc@.0.take(0) =~= Seq::<(Seq<char>, Seq<Option<Seq<char>>>)>::empty());
    while i < sc.matches.len()
        invariant
            i <= sc.matches@.len(),
            out@ == bracketed_spliced(sc@.0.take(i as int), k as int),
            found@.len() == i,
            forall|j: int| 0 <= j < i ==> {
                &&& (#[trigger] found@[j]).0@ == group_text(sc@.0[j], k as int)
                &&& found@[j].1@ == group_text(sc@.0[j], other as int)
            },
        decreases sc.matches@.len() - i,
    {
        let m = &sc.matches[i];
        assert(sc@.0.take(i + 1).drop_last() =~= sc@.0.take(i as int));
        assert(sc@.0.take(i + 1).last() == m@);
        let ghost before = out@;
        let g = group(m, k);
        push_str(&mut out, m.before.as_str());
        push_str(&mut out, "[");
        push_str(&mut out, g.as_str());
        push_str(&mut out, "]");
        proof {
            reveal_strlit("[");
            reveal_strlit("]");
        }
        assert(out@ =~= before + m@.0 + seq!['['] + group_text(m@, k as int) + seq![']']);
        found.push((g, group(m, other)));
        i += 1;
    }
    assert(sc@.0.take(sc@.0.len() as int) =~= sc@.0);
    push_str(&mut out, sc.tail.as_str());
    (out, found)
}

/// Turns each match of `pattern` in `s` into its group `k` in square
/// brackets; each match's groups `k` and `other` are handed out in order.
fn bracket_matches(pattern: &str, s: &str, k: usize, other: usize) -> (res: (String, Vec<(String, String)>))
    ensures
        res.0@ == bracketed(pattern@, s@, k as int),
        res.1@.len() == scan_of(pattern@, s@).0.len(),
        forall|i: int| 0 <= i < res.1@.len() ==> {
            &&& (#[trigger] res.1@[i]).0@ == group_text(scan_of(pattern@, s@).0[i], k as int)
            &&& res.1@[i].1@ == group_text(scan_of(pattern@, s@).0[i], other as int)
        },
{
    let sc = scan(pattern, s);
    bracket_scan(&sc, k, other)
}

/// The gemtext of a markdown page: internal links become their ids and
/// markdown links their titles, in square brackets, HTML tags are removed,
/// and the page ends with its gemini links (the index, the directory, then
/// each internal link) and its web links (each markdown link, then the source
/// of each tag), one per line.
pub fn render_gemtext(s: &str) -> (res: String)
    ensures
        res@ == gemtext_of(s@),
{
    proof {
        reveal_strlit("");
        assert(""@ =~= Seq::<char>::empty());
        reveal_strlit("\n");
    }
    let mut gem_links: Vec<String> = Vec::new();
    let mut line = String::new();
    push_str(&mut line, GEMINI_PREFIX);
    push_str(&mut line, DOMAIN);
    push_str(&mut line, GEMINI_INDEX);
    push_line(&mut gem_links, line);
    let mut line = String::new();
    push_str(&mut line, GEMINI_PREFIX);
    push_str(&mut line, DOMAIN);
    push_str(&mut line, GEMINI_DIRECTORY);
    push_line(&mut gem_links, line);

    let (output1, links) = bracket_matches(INTERNAL_LINK_REGEX, s, 3, 3);
    let ghost ms1 = scan_of(INTERNAL_LINK_REGEX@, s@).0;
    let mut i: usize = 0;
    while i < links.len()
        invariant
            i <= links@.len(),
            links@.len() == ms1.len(),
            forall|j: int| 0 <= j < links@.len() ==> (#[trigger] links@[j]).0@ == group_text(ms1[j], 3),
            string_views(gem_links@) == seq![gemini_index_line(), gemini_directory_line()]
                + Seq::new(i as nat, |j: int| gemini_link_line(group_text(ms1[j], 3))),
        decreases links@.len() - i,
    {
        let link = &links[i].0;
        let mut line = String::new();
        push_str(&mut line, GEMINI_PREFIX);
        push_str(&mut line, DOMAIN);
        push_str(&mut line, "/");
        push_str(&mut line, link.as_str());
        push_str(&mut line, GEMINI_EXTENSION);
        push_str(&mut line, link.as_str());
        proof {
            reveal_strlit("/");
            assert(links@[i as int].0@ == group_text(ms1[i as int], 3));
        }
        assert(line@ =~= gemini_link_line(group_text(ms1[i as int], 3)));
        push_line(&mut gem_links, line);
        assert(string_views(gem_links@) =~= seq![gemini_index_line(), gemini_directory_line()]
            + Seq::new((i + 1) as nat, |j: int| gemini_link_line(group_text(ms1[j], 3))));
        i += 1;
    }

    let (output2, titled) = bracket_matches(MD_LINK_REGEX, output1.as_str(), 1, 2);
    let ghost ms2 = scan_of(MD_LINK_REGEX@, gemtext_body1(s@)).0;
    let mut http_links: Vec<String> = Vec::new();
    let mut i: usize = 0;
    while i < titled.len()
        invariant
            i <= titled@.len(),
            titled@.len() == ms2.len(),
            forall|j: int| 0 <= j < titled@.len() ==> {
                &&& (#[trigger] titled@[j]).0@ == group_text(ms2[j], 1)
                &&& titled@[j].1@ == group_text(ms2[j], 2)
            },
            string_views(http_links@) == Seq::new(i as nat, |j: int| web_link_line(group_text(ms2[j], 1), group_text(ms2[j], 2))),
        decreases titled@.len() - i,
    {
        let mut line = String::new();
        push_str(&mut line, LINK_LINE);
        push_str(&mut line, titled[i].1.as_str());
        push_str(&mut line, " ");
        push_str(&mut line, titled[i].0.as_str());
        proof {
            reveal_strlit(" ");
            assert(titled@[i as int].0@ == group_text(ms2[i as int], 1));
        }
        assert(line@ =~= web_link_line(group_text(ms2[i as int], 1), group_text(ms2[i as int], 2)));
        push_line(&mut http_links, line);
        assert(string_views(http_links@) =~= Seq::new((i + 1) as nat, |j: int| web_link_line(group_text(ms2[j], 1), group_text(ms2[j], 2))));
        i += 1;
    }

    let tags = scan(TAG_SRC_REGEX, output2.as_str());
    let ghost n2 = titled@.len();
    let mut i: usize = 0;
    while i < tags.matches.len()
        invariant
            i <= tags.matches@.len(),
            tags@ == scan_of(TAG_SRC_REGEX@, gemtext_body2(s@)),
            n2 == ms2.len(),
            string_views(http_links@) == Seq::new(n2, |j: int| web_link_line(group_text(ms2[j], 1), group_text(ms2[j], 2)))
                + Seq::new(i as nat, |j: int| source_link_line(group_text(tags@.0[j], 1))),
        decreases tags.matches@.len() - i,
    {
        let src = group(&tags.matches[i], 1);
        assert(tags@.0[i as int] == tags.matches@[i as int]@);
        let mut line = String::new();
        if starts_with(src.as_str(), RESOURCES_DIR) {
            push_str(&mut line, HTTPS_PREFIX);
            push_str(&mut line, DOMAIN);
            push_str(&mut line, "/");
            push_str(&mut line, src.as_str());
        } else {
            push_str(&mut line, LINK_LINE);
            push_str(&mut line, src.as_str());
        }
        proof {
            reveal_strlit("/");
            reveal_strlit("resources/");
        }
        assert(line@ =~= source_link_line(group_text(tags@.0[i as int], 1)));
        push_line(&mut http_links, line);
        assert(string_views(http_links@) =~= Seq::new(n2, |j: int| web_link_line(group_text(ms2[j], 1), group_text(ms2[j], 2)))
            + Seq::new((i + 1) as nat, |j: int| source_link_line(group_text(tags@.0[j], 1))));
        i += 1;
    }

    proof {
        reveal_strlit("");
        assert(""@ =~= Seq::<char>::empty());
        reveal_strlit("\n");
        assert("\n"@ =~= seq!['\n']);
    }
    let mut output = replace_pattern(HTML_TAG_REGEX, output2.as_str(), "");
    push_str(&mut output, GEMINI_LINKS);
    let gem = join(&gem_links, "\n");
    push_str(&mut output, gem.as_str());
    push_str(&mut output, WEB_LINKS);
    let web = join(&http_links, "\n");
    push_str(&mut output, web.as_str());
    assert(string_views(gem_links@) =~= gemini_lines(s@));
    assert(string_views(http_links@) =~= web_lines(s@));
    output
}


// ---------------------------------------------------------------------------
// References
// ---------------------------------------------------------------------------

/// Heads the list of pages that link to a page.
pub const REFERENCED_BY: &'static str = "referenced by: ";
/// The page whose links are not shown among the references.
pub const META: &'static str = "meta";

/// The ids without `meta`.
pub open spec fn without_meta(ids: Seq<Seq<char>>) -> Seq<Seq<char>>
    decreases ids.len(),
{
    if ids.len() == 0 {
        Seq::empty()
    } else if ids.last() == META@ {
        without_meta(ids.drop_last())
    } else {
        without_meta(ids.drop_last()).push(ids.last())
    }
}

/// Each id as an internal link `[[id]]`.
pub open spec fn internal_links(ids: Seq<Seq<char>>) -> Seq<Seq<char>> {
    Seq::new(ids.len(), |i: int| "[["@ + ids[i] + "]]"@)
}

/// The line that names the pages linking to a page: nothing where there are
/// none, else `referenced by: ` and a link to each of them but `meta`,
/// separated by spaces.
pub open spec fn references_text(ids: Seq<Seq<char>>) -> Seq<char> {
    if ids.len() == 0 {
        Seq::empty()
    } else {
        REFERENCED_BY@ + join_seq(internal_links(without_meta(ids)), seq![' '])
    }
}

/// The line that names the pages linking to a page.
pub fn format_references(references: Vec<String>) -> (res: String)
    ensures
        res@ == references_text(string_views(references@)),
{
    if references.len() == 0 {
        return String::new();
    }
    proof {
        reveal_strlit("[[");
        reveal_strlit("]]");
        reveal_strlit(" ");
        assert(" "@ =~= seq![' ']);
    }
    let ghost ids = string_views(references@);
    let mut links: Vec<String> = Vec::new();
    let mut i: usize = 0;
    assert(ids.take(0) =~= Seq::<Seq<char>>::empty());
    while i < references.len()
        invariant
            i <= references@.len(),
            ids == string_views(references@),
            string_views(links@) == internal_links(without_meta(ids.take(i as int))),
        decreases references@.len() - i,
    {
        assert(ids.take(i + 1).drop_last() =~= ids.take(i as int));
        assert(ids.take(i + 1).last() == references@[i as int]@);
        if !str_eq(references[i].as_str(), META) {
            let mut link = String::new();
            push_str(&mut link, "[[");
            push_str(&mut link, references[i].as_str());
            push_str(&mut link, "]]");
            let ghost before = links@;
            assert(link@ == "[["@ + ids[i as int] + "]]"@);
            links.push(link);
            assert(string_views(links@) =~= string_views(before).push(link@));
            assert(without_meta(ids.take(i + 1)) == without_meta(ids.take(i as int)).push(ids[i as int]));
            assert(internal_links(without_meta(ids.take(i + 1))) =~= internal_links(without_meta(ids.take(i as int))).push(link@));
        }
        i += 1;
    }
    assert(ids.take(references@.len() as int) =~= ids);
    let mut result = String::new();
    push_str(&mut result, REFERENCED_BY);
    let joined = join(&links, " ");
    push_str(&mut result, joined.as_str());
    result
}

/// Each link of each page, in order, as the page's id and the id it links to.
pub open spec fn page_links(es: Seq<Entry>) -> Seq<(Seq<char>, Seq<char>)>
    decreases es.len(),
{
    if es.len() == 0 {
        Seq::empty()
    } else {
        page_links(es.drop_last()) + Seq::new(es.last().links@.len(), |j: int| (es.last().id@, es.last().links@[j]@))
    }
}

/// The ids of the pages that link to `target`, once for each such link, in order.
pub open spec fn referrers(ls: Seq<(Seq<char>, Seq<char>)>, target: Seq<char>) -> Seq<Seq<char>>
    decreases ls.len(),
{
    if ls.len() == 0 {
        Seq::empty()
    } else if ls.last().1 == target {
        referrers(ls.drop_last(), target).push(ls.last().0)
    } else {
        referrers(ls.drop_last(), target)
    }
}

/// The pages that link to `target`, where there are any.
pub open spec fn backlinks(es: Seq<Entry>, target: Seq<char>) -> Option<Seq<Seq<char>>> {
    if referrers(page_links(es), target).len() > 0 {
        Some(referrers(page_links(es), target))
    } else {
        None
    }
}

/// The value of the first pair with key `k`.
pub open spec fn find_refs(pairs: Seq<(Seq<char>, Seq<Seq<char>>)>, k: Seq<char>, from: int) -> Option<Seq<Seq<char>>>
    decreases pairs.len() - from,
{
    if from < 0 || from >= pairs.len() {
        None
    } else if pairs[from].0 == k {
        Some(pairs[from].1)
    } else {
        find_refs(pairs, k, from + 1)
    }
}

/// For each linked page id, the ids of the pages that link to it.
pub struct References {
    pairs: Vec<(String, Vec<String>)>,
}

/// A pair of a key and its ids, as plain values.
pub open spec fn refs_pair_view(p: (String, Vec<String>)) -> (Seq<char>, Seq<Seq<char>>) {
    (p.0@, string_views(p.1@))
}

impl References {
    /// The pairs, as plain values.
    pub closed spec fn pairs_view(&self) -> Seq<(Seq<char>, Seq<Seq<char>>)> {
        Seq::new(self.pairs@.len(), |i: int| refs_pair_view(self.pairs@[i]))
    }

    /// The ids of the pages linking to `k`, where some do.
    pub open spec fn referrers_of(&self, k: Seq<char>) -> Option<Seq<Seq<char>>> {
        find_refs(self.pairs_view(), k, 0)
    }

    /// The ids of the pages linking to `key`, where some do.
    pub fn get(&self, key: &str) -> (res: Option<Vec<String>>)
        ensures
            match self.referrers_of(key@) {
                Some(ids) => res matches Some(v) && string_views(v@) == ids,
                None => res is None,
            },
    {
        let ghost pv = self.pairs_view();
        let mut i: usize = 0;
        while i < self.pairs.len()
            invariant
                i <= self.pairs@.len(),
                pv == self.pairs_view(),
                find_refs(pv, key@, 0) == find_refs(pv, key@, i as int),
            decreases self.pairs@.len() - i,
        {
            assert(pv[i as int] == refs_pair_view(self.pairs@[i as int]));
            if str_eq(self.pairs[i].0.as_str(), key) {
                return Some(copy_strings(&self.pairs[i].1));
            }
            i += 1;
        }
        None
    }
}

/// A copy of some strings.
fn copy_strings(v: &Vec<String>) -> (res: Vec<String>)
    ensures
        string_views(res@) == string_views(v@),
{
    let mut out: Vec<String> = Vec::new();
    let mut i: usize = 0;
    while i < v.len()
        invariant
            i <= v@.len(),
            string_views(out@) == string_views(v@).take(i as int),
        decreases v@.len() - i,
    {
        let ghost before = out@;
        assert(string_views(before).len() == before.len());
        out.push(v[i].clone());
        assert(string_views(out@) =~= string_views(v@).take(i + 1)) by {
            assert forall|k: int| 0 <= k < i implies string_views(out@)[k] == string_views(before)[k] by {
                assert(out@[k] == before[k]);
            }
        }
        i += 1;
    }
    assert(string_views(v@).take(v@.len() as int) =~= string_views(v@));
    out
}

proof fn lemma_find_refs_absent(pairs: Seq<(Seq<char>, Seq<Seq<char>>)>, k: Seq<char>, from: int)
    requires
        0 <= from,
        find_refs(pairs, k, from) is None,
    ensures
        forall|j: int| from <= j < pairs.len() ==> pairs[j].0 != k,
    decreases pairs.len() - from,
{
    if from < pairs.len() {
        lemma_find_refs_absent(pairs, k, from + 1);
    }
}

/// Appending a pair whose key is new changes only what that key finds.
proof fn lemma_find_refs_push(pairs: Seq<(Seq<char>, Seq<Seq<char>>)>, p: (Seq<char>, Seq<Seq<char>>), k: Seq<char>, from: int)
    requires
        0 <= from <= pairs.len(),
        forall|j: int| 0 <= j < pairs.len() ==> pairs[j].0 != p.0,
    ensures
        find_refs(pairs.push(p), k, from) == (if k == p.0 { Some(p.1) } else { find_refs(pairs, k, from) }),
    decreases pairs.len() - from,
{
    if from < pairs.len() {
        assert(pairs.push(p)[from] == pairs[from]);
        lemma_find_refs_push(pairs, p, k, from + 1);
    } else {
        assert(pairs.push(p)[from] == p);
        assert(find_refs(pairs.push(p), k, from + 1) is None);
    }
}

/// Changing the value of the first pair of a key changes only what that key finds.
proof fn lemma_find_refs_update(pairs: Seq<(Seq<char>, Seq<Seq<char>>)>, i: int, v: Seq<Seq<char>>, k: Seq<char>, from: int)
    requires
        0 <= from,
        0 <= i < pairs.len(),
        forall|j: int| 0 <= j < i ==> pairs[j].0 != pairs[i].0,
    ensures
        find_refs(pairs.update(i, (pairs[i].0, v)), k, from) == (if k == pairs[i].0 && from <= i { Some(v) } else { find_refs(pairs, k, from) }),
    decreases pairs.len() - from,
{
    let q = pairs.update(i, (pairs[i].0, v));
    if from < pairs.len() {
        assert(q[from].0 == pairs[from].0);
        if from != i {
            assert(q[from] == pairs[from]);
        }
        lemma_find_refs_update(pairs, i, v, k, from + 1);
        if from > i && k == pairs[i].0 {
            assert(find_refs(q, k, from) == find_refs(pairs, k, from));
        }
    }
}

impl References {
    /// Records that page `id` links to `link` once more.
    fn add(&mut self, link: &String, id: &String)
        ensures
            forall|k: Seq<char>| #[trigger] final(self).referrers_of(k) == (if k == link@ {
                Some(match old(self).referrers_of(k) {
                    Some(ids) => ids.push(id@),
                    None => seq![id@],
                })
            } else {
                old(self).referrers_of(k)
            }),
    {
        let ghost pv = self.pairs_view();
        let mut i: usize = 0;
        while i < self.pairs.len()
            invariant
                i <= self.pairs@.len(),
                pv == self.pairs_view(),
                pv == old(self).pairs_view(),
                self.pairs@ == old(self).pairs@,
                find_refs(pv, link@, 0) == find_refs(pv, link@, i as int),
                forall|j: int| 0 <= j < i ==> pv[j].0 != link@,
            decreases self.pairs@.len() - i,
        {
            assert(pv[i as int] == refs_pair_view(self.pairs@[i as int]));
            if str_eq(self.pairs[i].0.as_str(), link.as_str()) {
                let ghost old_ids = pv[i as int].1;
                let ghost before = self.pairs@;
                self.pairs[i].1.push(id.clone());
                proof {
                    assert(string_views(self.pairs@[i as int].1@) =~= old_ids.push(id@));
                    assert(self.pairs_view() =~= pv.update(i as int, (pv[i as int].0, old_ids.push(id@))));
                    assert forall|k: Seq<char>| #[trigger] self.referrers_of(k) == (if k == link@ {
                        Some(match old(self).referrers_of(k) {
                            Some(ids) => ids.push(id@),
                            None => seq![id@],
                        })
                    } else {
                        old(self).referrers_of(k)
                    }) by {
                        lemma_find_refs_update(pv, i as int, old_ids.push(id@), k, 0);
                    }
                }
                return;
            }
            i += 1;
        }
        let mut ids: Vec<String> = Vec::new();
        ids.push(id.clone());
        self.pairs.push((link.clone(), ids));
        proof {
            assert(string_views(ids@) =~= seq![id@]);
            assert(self.pairs_view() =~= pv.push((link@, seq![id@])));
            lemma_find_refs_absent(pv, link@, 0);
            assert forall|k: Seq<char>| #[trigger] self.referrers_of(k) == (if k == link@ {
                Some(match old(self).referrers_of(k) {
                    Some(ids) => ids.push(id@),
                    None => seq![id@],
                })
            } else {
                old(self).referrers_of(k)
            }) by {
                lemma_find_refs_push(pv, (link@, seq![id@]), k, 0);
            }
        }
    }
}

/// For each page id that some page links to, the ids of the pages that link
/// to it, once per link, in the order of the pages and their links.
pub fn extract_references(entries: &Vec<Entry>) -> (res: References)
    ensures
        forall|k: Seq<char>| #[trigger] res.referrers_of(k) == backlinks(entries@, k),
{
    let mut result = References { pairs: Vec::new() };
    assert(result.pairs_view() =~= Seq::<(Seq<char>, Seq<Seq<char>>)>::empty());
    let mut i: usize = 0;
    assert(entries@.take(0) =~= Seq::<Entry>::empty());
    while i < entries.len()
        invariant
            i <= entries@.len(),
            forall|k: Seq<char>| #[trigger] result.referrers_of(k) == backlinks(entries@.take(i as int), k),
        decreases entries@.len() - i,
    {
        let entry = &entries[i];
        let ghost done = page_links(entries@.take(i as int));
        let mut j: usize = 0;
        while j < entry.links.len()
            invariant
                i < entries@.len(),
                entry == &entries@[i as int],
                j <= entry.links@.len(),
                done == page_links(entries@.take(i as int)),
                forall|k: Seq<char>| #[trigger] result.referrers_of(k) == (if referrers(done + Seq::new(j as nat, |m: int| (entry.id@, entry.links@[m]@)), k).len() > 0 {
                    Some(referrers(done + Seq::new(j as nat, |m: int| (entry.id@, entry.links@[m]@)), k))
                } else {
                    None
                }),
            decreases entry.links@.len() - j,
        {
            let ghost prev = done + Seq::new(j as nat, |m: int| (entry.id@, entry.links@[m]@));
            let ghost next = done + Seq::new((j + 1) as nat, |m: int| (entry.id@, entry.links@[m]@));
            assert(next.drop_last() =~= prev);
            assert(next.last() == (entry.id@, entry.links@[j as int]@));
            result.add(&entry.links[j], &entry.id);
            j += 1;
        }
        proof {
            let t = entries@.take(i + 1);
            assert(t.drop_last() =~= entries@.take(i as int));
            assert(t.last() == *entry);
            assert(page_links(t) =~= done + Seq::new(entry.links@.len(), |m: int| (entry.id@, entry.links@[m]@)));
        }
        i += 1;
    }
    assert(entries@.take(entries@.len() as int) =~= entries@);
    result
}

/// An entry as it was, but for its references.
pub open spec fn same_but_references(a: Entry, b: Entry) -> bool {
    &&& a.id == b.id
    &&& a.content == b.content
    &&& a.epistemic_status == b.epistemic_status
    &&& a.modification_date == b.modification_date
    &&& a.links == b.links
    &&& a.outline_md == b.outline_md
    &&& a.path == b.path
}

/// The references of an entry, as plain values.
pub open spec fn references_view(r: Option<Vec<String>>) -> Option<Seq<Seq<char>>> {
    match r {
        Some(v) => Some(string_views(v@)),
        None => None,
    }
}

/// Sets the references of each entry to the pages that link to it.
pub fn attach_references(entries: &mut Vec<Entry>, references: &References)
    ensures
        final(entries)@.len() == old(entries)@.len(),
        forall|i: int| 0 <= i < final(entries)@.len() ==> {
            &&& same_but_references(#[trigger] final(entries)@[i], old(entries)@[i])
            &&& references_view(final(entries)@[i].references) == references.referrers_of(old(entries)@[i].id@)
        },
{
    let mut i: usize = 0;
    while i < entries.len()
        invariant
            i <= entries@.len(),
            entries@.len() == old(entries)@.len(),
            forall|k: int| 0 <= k < i ==> {
                &&& same_but_references(#[trigger] entries@[k], old(entries)@[k])
                &&& references_view(entries@[k].references) == references.referrers_of(old(entries)@[k].id@)
            },
            forall|k: int| i <= k < entries@.len() ==> #[trigger] entries@[k] == old(entries)@[k],
        decreases entries@.len() - i,
    {
        let refs = references.get(entries[i].id.as_str());
        entries[i].references = refs;
        i += 1;
    }
}

/// The entries with their references attached.
pub fn with_references(entries: Vec<Entry>) -> (res: Vec<Entry>)
    ensures
        res@.len() == entries@.len(),
        forall|i: int| 0 <= i < res@.len() ==> {
            &&& same_but_references(#[trigger] res@[i], entries@[i])
            &&& references_view(res@[i].references) == backlinks(entries@, entries@[i].id@)
        },
{
    let references = extract_references(&entries);
    let mut entries = entries;
    attach_references(&mut entries, &references);
    entries
}


// ---------------------------------------------------------------------------
// Recent changes
// ---------------------------------------------------------------------------

/// How many pages the list of recent changes shows at most.
pub const RECENT_LIMIT: usize = 20;
/// Starts a line of the list of recent changes.
pub const RECENT_ITEM: &'static str = "* ";
/// Between the date and the link of a line of recent changes.
pub const RECENT_LINK: &'static str = " [[";
/// Ends a line of the list of recent changes.
pub const RECENT_CLOSE: &'static str = "]]";

/// Where an entry goes into entries sorted newest first: before the first
/// one with an earlier date, else at the end.
pub open spec fn date_pos(s: Seq<Entry>, x: Entry, from: int) -> int
    decreases s.len() - from,
{
    if from < 0 || from >= s.len() {
        s.len() as int
    } else if chars_lt(s[from].modification_date@, x.modification_date@) {
        from
    } else {
        date_pos(s, x, from + 1)
    }
}

/// The entries sorted by date, newest first, as a stable sort leaves them:
/// entries of the same date keep their order.
pub open spec fn newest_first(es: Seq<Entry>) -> Seq<Entry>
    decreases es.len(),
{
    if es.len() == 0 {
        Seq::empty()
    } else {
        let s = newest_first(es.drop_last());
        let k = date_pos(s, es.last(), 0);
        s.take(k).push(es.last()) + s.skip(k)
    }
}

/// The newest entries, at most twenty of them.
pub open spec fn recent_entries(es: Seq<Entry>) -> Seq<Entry> {
    newest_first(es).take(if es.len() < RECENT_LIMIT { es.len() as int } else { RECENT_LIMIT as int })
}

/// The line of an entry in the list of recent changes: its date and a link to it.
pub open spec fn recent_line(e: Entry) -> Seq<char> {
    RECENT_ITEM@ + e.modification_date@ + RECENT_LINK@ + e.id@ + RECENT_CLOSE@
}

/// The list of recent changes: a line for each of the newest entries.
pub open spec fn recent_text(es: Seq<Entry>) -> Seq<char> {
    join_seq(Seq::new(recent_entries(es).len(), |i: int| recent_line(recent_entries(es)[i])), seq!['\n'])
}

proof fn lemma_date_pos(s: Seq<Entry>, x: Entry, from: int)
    requires
        0 <= from,
    ensures
        from <= date_pos(s, x, from) <= s.len() || (from > s.len() && date_pos(s, x, from) == s.len()),
    decreases s.len() - from,
{
    if from < s.len() && !chars_lt(s[from].modification_date@, x.modification_date@) {
        lemma_date_pos(s, x, from + 1);
    }
}

proof fn lemma_newest_first_len(es: Seq<Entry>)
    ensures
        newest_first(es).len() == es.len(),
    decreases es.len(),
{
    if es.len() > 0 {
        lemma_newest_first_len(es.drop_last());
        lemma_date_pos(newest_first(es.drop_last()), es.last(), 0);
    }
}

/// Inserts `x` into entries sorted newest first, after every entry that is
/// not older.
fn insert_by_date(sorted: &mut Vec<Entry>, x: Entry)
    ensures
        final(sorted)@ == ({
            let k = date_pos(old(sorted)@, x, 0);
            old(sorted)@.take(k).push(x) + old(sorted)@.skip(k)
        }),
{
    let xd = chars_of(x.modification_date.as_str());
    let mut j: usize = 0;
    while j < sorted.len() && !chars_less(&chars_of(sorted[j].modification_date.as_str()), &xd)
        invariant
            j <= sorted@.len(),
            sorted@ == old(sorted)@,
            xd@ == x.modification_date@,
            date_pos(sorted@, x, 0) == date_pos(sorted@, x, j as int),
        decreases sorted@.len() - j,
    {
        j += 1;
    }
    proof {
        lemma_date_pos(sorted@, x, j as int);
    }
    let ghost s = sorted@;
    sorted.insert(j, x);
    assert(sorted@ =~= s.take(j as int).push(x) + s.skip(j as int));
}

/// Sorts the entries by date, newest first (a stable sort), keeps the twenty
/// newest and lists them, one line each: `* <date> [[<id>]]`.
pub fn extract_recent_entries(entries: &mut Vec<Entry>) -> (res: String)
    ensures
        final(entries)@ == recent_entries(old(entries)@),
        res@ == recent_text(old(entries)@),
{
    let length: usize = if entries.len() < RECENT_LIMIT { entries.len() } else { RECENT_LIMIT };
    let ghost orig = entries@;
    let n: usize = entries.len();
    let mut rest: Vec<Entry> = Vec::new();
    std::mem::swap(&mut rest, entries);
    let mut sorted: Vec<Entry> = Vec::new();
    let mut i: usize = 0;
    assert(orig.take(0) =~= Seq::<Entry>::empty());
    assert(orig.skip(0) =~= orig);
    while rest.len() > 0
        invariant
            i <= orig.len(),
            orig.len() == n,
            rest@ == orig.skip(i as int),
            sorted@ == newest_first(orig.take(i as int)),
        decreases rest@.len(),
    {
        assert(orig.skip(i as int).len() == orig.len() - i);
        let x = rest.remove(0);
        assert(orig.take(i + 1).drop_last() =~= orig.take(i as int));
        assert(orig.take(i + 1).last() == x);
        insert_by_date(&mut sorted, x);
        assert(rest@ =~= orig.skip(i + 1));
        i += 1;
    }
    assert(orig.take(i as int) =~= orig);
    proof {
        lemma_newest_first_len(orig);
    }
    sorted.truncate(length);
    *entries = sorted;
    proof {
        reveal_strlit("\n");
        assert("\n"@ =~= seq!['\n']);
    }
    let mut lines: Vec<String> = Vec::new();
    let mut k: usize = 0;
    while k < entries.len()
        invariant
            k <= entries@.len(),
            entries@ == recent_entries(orig),
            string_views(lines@) == Seq::new(k as nat, |m: int| recent_line(entries@[m])),
        decreases entries@.len() - k,
    {
        let mut line = String::new();
        push_str(&mut line, RECENT_ITEM);
        push_str(&mut line, entries[k].modification_date.as_str());
        push_str(&mut line, RECENT_LINK);
        push_str(&mut line, entries[k].id.as_str());
        push_str(&mut line, RECENT_CLOSE);
        let ghost before = lines@;
        assert(line@ =~= recent_line(entries@[k as int]));
        lines.push(line);
        assert(string_views(lines@) =~= string_views(before).push(line@));
        assert(string_views(lines@) =~= Seq::new((k + 1) as nat, |m: int| recent_line(entries@[m])));
        k += 1;
    }
    join(&lines, "\n")
}


/// The date and id of an entry, the two things the list of recent changes shows.
pub open spec fn date_id(e: Entry) -> (Seq<char>, Seq<char>) {
    (e.modification_date@, e.id@)
}

/// Two lists of entries with the same dates and ids, one by one.
pub open spec fn same_dates_ids(a: Seq<Entry>, b: Seq<Entry>) -> bool {
    a.len() == b.len() && forall|i: int| 0 <= i < a.len() ==> #[trigger] date_id(a[i]) == date_id(b[i])
}

proof fn lemma_date_pos_congruent(a: Seq<Entry>, b: Seq<Entry>, x: Entry, y: Entry, from: int)
    requires
        same_dates_ids(a, b),
        date_id(x) == date_id(y),
    ensures
        date_pos(a, x, from) == date_pos(b, y, from),
    decreases a.len() - from,
{
    if 0 <= from < a.len() {
        assert(date_id(a[from]) == date_id(b[from]));
        lemma_date_pos_congruent(a, b, x, y, from + 1);
    }
}

proof fn lemma_newest_first_congruent(a: Seq<Entry>, b: Seq<Entry>)
    requires
        same_dates_ids(a, b),
    ensures
        same_dates_ids(newest_first(a), newest_first(b)),
    decreases a.len(),
{
    if a.len() > 0 {
        assert(same_dates_ids(a.drop_last(), b.drop_last())) by {
            assert forall|i: int| 0 <= i < a.len() - 1 implies #[trigger] date_id(a.drop_last()[i]) == date_id(b.drop_last()[i]) by {
                assert(date_id(a[i]) == date_id(b[i]));
            }
        }
        lemma_newest_first_congruent(a.drop_last(), b.drop_last());
        let sa = newest_first(a.drop_last());
        let sb = newest_first(b.drop_last());
        assert(date_id(a.last()) == date_id(b.last()));
        lemma_date_pos_congruent(sa, sb, a.last(), b.last(), 0);
        lemma_newest_first_len(a.drop_last());
        lemma_date_pos(sa, a.last(), 0);
        let k = date_pos(sa, a.last(), 0);
        let ra = sa.take(k).push(a.last()) + sa.skip(k);
        let rb = sb.take(k).push(b.last()) + sb.skip(k);
        assert forall|i: int| 0 <= i < ra.len() implies #[trigger] date_id(ra[i]) == date_id(rb[i]) by {
            if i < k {
                assert(date_id(sa[i]) == date_id(sb[i]));
            } else if i > k {
                assert(date_id(sa[i - 1]) == date_id(sb[i - 1]));
            }
        }
    }
}

/// The list of recent changes shows only dates and ids.
proof fn lemma_recent_text_congruent(a: Seq<Entry>, b: Seq<Entry>)
    requires
        same_dates_ids(a, b),
    ensures
        recent_text(a) == recent_text(b),
{
    lemma_newest_first_congruent(a, b);
    lemma_newest_first_len(a);
    lemma_newest_first_len(b);
    let ra = recent_entries(a);
    let rb = recent_entries(b);
    assert(ra.len() == rb.len());
    assert forall|i: int| 0 <= i < ra.len() implies recent_line(ra[i]) == recent_line(rb[i]) by {
        assert(ra[i] == newest_first(a)[i]);
        assert(rb[i] == newest_first(b)[i]);
        assert(date_id(newest_first(a)[i]) == date_id(newest_first(b)[i]));
    }
    assert(Seq::new(ra.len(), |i: int| recent_line(ra[i])) =~= Seq::new(rb.len(), |i: int| recent_line(rb[i])));
}

/// A copy of an entry's date and id, the rest left empty.
fn date_id_copy(e: &Entry) -> (res: Entry)
    ensures
        date_id(res) == date_id(*e),
{
    Entry {
        id: e.id.clone(),
        content: String::new(),
        epistemic_status: e.epistemic_status,
        modification_date: e.modification_date.clone(),
        links: Vec::new(),
        references: None,
        outline_md: String::new(),
        path: String::new(),
    }
}

/// The list of recent changes of some entries, which are left as they are.
fn recent_list(entries: &Vec<Entry>) -> (res: String)
    ensures
        res@ == recent_text(entries@),
{
    let mut copies: Vec<Entry> = Vec::new();
    let mut i: usize = 0;
    while i < entries.len()
        invariant
            i <= entries@.len(),
            same_dates_ids(copies@, entries@.take(i as int)),
        decreases entries@.len() - i,
    {
        let ghost before = copies@;
        copies.push(date_id_copy(&entries[i]));
        assert forall|k: int| 0 <= k < i + 1 implies #[trigger] date_id(copies@[k]) == date_id(entries@.take(i + 1)[k]) by {
            if k < i {
                assert(copies@[k] == before[k]);
                assert(date_id(before[k]) == date_id(entries@.take(i as int)[k]));
            }
        }
        i += 1;
    }
    assert(entries@.take(entries@.len() as int) =~= entries@);
    proof {
        lemma_recent_text_congruent(copies@, entries@);
    }
    extract_recent_entries(&mut copies)
}

// ---------------------------------------------------------------------------
// Pages
// ---------------------------------------------------------------------------

/// The statuses of the entries, by id, in order.
pub open spec fn status_pairs(es: Seq<Entry>) -> Seq<(Seq<char>, EpiStatus)> {
    Seq::new(es.len(), |i: int| (es[i].id@, es[i].epistemic_status))
}

/// The table of the status of each page, by id; where two pages share an id,
/// the later one's status holds.
pub fn epistemic_lookup_of(entries: &Vec<Entry>) -> (res: EpiStatusLookup)
    ensures
        res@ == lookup_map(status_pairs(entries@)),
{
    let mut lookup = EpiStatusLookup::new();
    let mut i: usize = 0;
    let ghost sp = status_pairs(entries@);
    assert(sp.take(0) =~= Seq::<(Seq<char>, EpiStatus)>::empty());
    while i < entries.len()
        invariant
            i <= entries@.len(),
            sp == status_pairs(entries@),
            lookup@ == lookup_map(sp.take(i as int)),
        decreases entries@.len() - i,
    {
        assert(sp.take(i + 1).drop_last() =~= sp.take(i as int));
        assert(sp.take(i + 1).last() == (entries@[i as int].id@, entries@[i as int].epistemic_status));
        lookup.insert(entries[i].id.as_str(), entries[i].epistemic_status);
        i += 1;
    }
    assert(sp.take(entries@.len() as int) =~= sp);
    lookup
}

/// The rendered files of a page.
pub struct PageOutput {
    /// The page id, which names the files.
    pub id: String,
    /// The HTML page.
    pub html: String,
    /// The gemtext page.
    pub gemtext: String,
}

/// The ids of the pages linking to an entry, none where it has no references.
pub open spec fn reference_ids(e: Entry) -> Seq<Seq<char>> {
    match references_view(e.references) {
        Some(ids) => ids,
        None => Seq::empty(),
    }
}

/// What fills the slots of the page template for an entry with the given content.
pub open spec fn page_slots(e: Entry, content: Seq<char>, directory: Seq<char>, recents: Seq<char>) -> Seq<(Seq<char>, Seq<char>)> {
    seq![
        ("directory"@, directory),
        ("content"@, content),
        ("references"@, references_text(reference_ids(e))),
        ("timestamp"@, e.modification_date@),
        ("toc"@, outline_of(content)),
        ("recent"@, recents),
    ]
}

/// The HTML page of an entry: the template with its slots filled.
pub open spec fn page_html(
    e: Entry,
    content: Seq<char>,
    template: Seq<char>,
    directory: Seq<char>,
    recents: Seq<char>,
    lookup: Map<Seq<char>, EpiStatus>,
) -> Seq<char> {
    templates_filled(template, page_slots(e, content, directory, recents), lookup)
}

/// The gemtext page of an entry: its content with the directory and the
/// recent changes put in their slots, as gemtext.
pub open spec fn page_gemtext(content: Seq<char>, directory: Seq<char>, recents: Seq<char>) -> Seq<char> {
    gemtext_of(replace_seq(replace_seq(content, template_of("directory"@), directory), template_of("recent"@), recents))
}

/// The HTML and gemtext pages of an entry with the given content.
pub fn render_entry(
    entry: &Entry,
    content: &str,
    base_template: &str,
    formatted_directory: &str,
    recents: &str,
    epistemic_lookup: &EpiStatusLookup,
) -> (res: PageOutput)
    ensures
        res.id@ == entry.id@,
        res.html@ == page_html(*entry, content@, base_template@, formatted_directory@, recents@, epistemic_lookup@),
        res.gemtext@ == page_gemtext(content@, formatted_directory@, recents@),
{
    let refs = match &entry.references {
        Some(v) => copy_strings(v),
        None => Vec::new(),
    };
    assert(string_views(refs@) =~= reference_ids(*entry));
    let references = format_references(refs);
    let outline = Entry::get_outline_md(content);
    let replacements = vec![
        ("directory", formatted_directory),
        ("content", content),
        ("references", references.as_str()),
        ("timestamp", entry.modification_date.as_str()),
        ("toc", outline.as_str()),
        ("recent", recents),
    ];
    assert(mapping_view(replacements@) =~= page_slots(*entry, content@, formatted_directory@, recents@));
    let html = replace_templates(epistemic_lookup, base_template, replacements);
    let directory_slot = make_template("directory");
    let recent_slot = make_template("recent");
    proof {
        reveal_strlit("{{ ");
    }
    let with_directory = replace(content, directory_slot.as_str(), formatted_directory);
    let with_recent = replace(with_directory.as_str(), recent_slot.as_str(), recents);
    let gemtext = render_gemtext(with_recent.as_str());
    PageOutput { id: entry.id.clone(), html, gemtext }
}


// ---------------------------------------------------------------------------
// The site
// ---------------------------------------------------------------------------

/// The directory of the site's pages, below the root `pages`.
pub open spec fn site_tree(es: Seq<Entry>) -> Seq<(Seq<char>, Seq<usize>)> {
    tree_of(Seq::new(es.len(), |i: int| segments_of(path_components_of(es[i].path@))), "pages"@)
}

/// The content of a page as it is rendered: the page `directory` gets the
/// directory as a list after its own content.
pub open spec fn site_content(e: Entry, es: Seq<Entry>) -> Seq<char> {
    if e.id@ == "directory"@ {
        e.content@ + seq!['\n'] + render_node(site_tree(es), 0, 0, true)->0
    } else {
        e.content@
    }
}

/// The pages of the site, rendered with a page template: every page gets the
/// directory of all pages, the list of recent changes and the statuses of
/// the pages it links to. `None` where the directory nests a node with
/// children 255 levels deep (as below a cycle of names).
pub fn render_site(entries: &Vec<Entry>, base_template: &str) -> (res: Option<Vec<PageOutput>>)
    ensures
        render_node(site_tree(entries@), 0, 0, false) is None ==> res is None,
        render_node(site_tree(entries@), 0, 0, false) matches Some(dir) ==> (res matches Some(pages) && {
            &&& pages@.len() == entries@.len()
            &&& forall|i: int| 0 <= i < entries@.len() ==> {
                let e = #[trigger] entries@[i];
                &&& pages@[i].id@ == e.id@
                &&& pages@[i].html@ == page_html(e, site_content(e, entries@), base_template@, dir, recent_text(entries@), lookup_map(status_pairs(entries@)))
                &&& pages@[i].gemtext@ == page_gemtext(site_content(e, entries@), dir, recent_text(entries@))
            }
        }),
{
    let directory = DirectoryTree::from_entries(entries, "pages");
    let formatted_directory = match directory.to_string() {
        Some(d) => d,
        None => return None,
    };
    proof {
        lemma_render_node_shape(directory@, 0, 0);
    }
    let recents = recent_list(entries);
    let lookup = epistemic_lookup_of(entries);
    let mut pages: Vec<PageOutput> = Vec::new();
    let mut i: usize = 0;
    while i < entries.len()
        invariant
            i <= entries@.len(),
            directory.wf(),
            directory@ == site_tree(entries@),
            render_node(site_tree(entries@), 0, 0, false) == Some(formatted_directory@),
            render_node(site_tree(entries@), 0, 0, true) is Some,
            recents@ == recent_text(entries@),
            lookup@ == lookup_map(status_pairs(entries@)),
            pages@.len() == i,
            forall|k: int| 0 <= k < i ==> {
                let e = #[trigger] entries@[k];
                &&& pages@[k].id@ == e.id@
                &&& pages@[k].html@ == page_html(e, site_content(e, entries@), base_template@, formatted_directory@, recents@, lookup@)
                &&& pages@[k].gemtext@ == page_gemtext(site_content(e, entries@), formatted_directory@, recents@)
            },
        decreases entries@.len() - i,
    {
        let entry = &entries[i];
        let content = if str_eq(entry.id.as_str(), "directory") {
            match directory.format_directory_page(&entry.content) {
                Some(c) => c,
                None => return None,
            }
        } else {
            entry.content.clone()
        };
        assert(content@ == site_content(*entry, entries@));
        let page = render_entry(entry, content.as_str(), base_template, formatted_directory.as_str(), recents.as_str(), &lookup);
        let ghost before = pages@;
        pages.push(page);
        assert forall|k: int| 0 <= k < i + 1 implies {
            let e = #[trigger] entries@[k];
            &&& pages@[k].id@ == e.id@
            &&& pages@[k].html@ == page_html(e, site_content(e, entries@), base_template@, formatted_directory@, recents@, lookup@)
            &&& pages@[k].gemtext@ == page_gemtext(site_content(e, entries@), formatted_directory@, recents@)
        } by {
            if k < i {
                assert(pages@[k] == before[k]);
            }
        }
        i += 1;
    }
    Some(pages)
}


// ---------------------------------------------------------------------------
// What the rendering promises
// ---------------------------------------------------------------------------

proof fn lemma_referrers_contains(ls: Seq<(Seq<char>, Seq<char>)>, target: Seq<char>, id: Seq<char>)
    ensures
        referrers(ls, target).contains(id) <==> exists|m: int| 0 <= m < ls.len() && #[trigger] ls[m] == (id, target),
    decreases ls.len(),
{
    if ls.len() > 0 {
        let rest = ls.drop_last();
        lemma_referrers_contains(rest, target, id);
        if referrers(ls, target).contains(id) {
            if ls.last().1 == target && ls.last().0 == id {
                assert(ls[ls.len() - 1] == (id, target));
            } else {
                if ls.last().1 == target {
                    let r = referrers(rest, target);
                    let q = choose|q: int| 0 <= q < r.push(ls.last().0).len() && r.push(ls.last().0)[q] == id;
                    assert(q < r.len());
                    assert(r[q] == id);
                }
                let m = choose|m: int| 0 <= m < rest.len() && #[trigger] rest[m] == (id, target);
                assert(ls[m] == rest[m]);
            }
        }
        if exists|m: int| 0 <= m < ls.len() && #[trigger] ls[m] == (id, target) {
            let m = choose|m: int| 0 <= m < ls.len() && #[trigger] ls[m] == (id, target);
            if m == ls.len() - 1 {
                assert(referrers(ls, target).last() == id);
            } else {
                assert(rest[m] == ls[m]);
                let r = referrers(rest, target);
                let q = choose|q: int| 0 <= q < r.len() && r[q] == id;
                if ls.last().1 == target {
                    assert(r.push(ls.last().0)[q] == id);
                }
            }
        }
    }
}

proof fn lemma_page_links_contains(es: Seq<Entry>, id: Seq<char>, target: Seq<char>)
    ensures
        (exists|m: int| 0 <= m < page_links(es).len() && #[trigger] page_links(es)[m] == (id, target)) <==> exists|i: int, j: int|
            0 <= i < es.len() && 0 <= j < es[i].links@.len() && es[i].id@ == id && #[trigger] es[i].links@[j]@ == target,
    decreases es.len(),
{
    if es.len() > 0 {
        let rest = es.drop_last();
        lemma_page_links_contains(rest, id, target);
        let pr = page_links(rest);
        let e = es.last();
        let tail = Seq::new(e.links@.len(), |j: int| (e.id@, e.links@[j]@));
        assert(page_links(es) == pr + tail);
        if exists|m: int| 0 <= m < page_links(es).len() && #[trigger] page_links(es)[m] == (id, target) {
            let m = choose|m: int| 0 <= m < page_links(es).len() && #[trigger] page_links(es)[m] == (id, target);
            if m < pr.len() {
                assert(pr[m] == (id, target));
                let (i, j) = choose|i: int, j: int| 0 <= i < rest.len() && 0 <= j < rest[i].links@.len() && rest[i].id@ == id && #[trigger] rest[i].links@[j]@ == target;
                assert(es[i] == rest[i]);
                assert(es[i].links@[j]@ == target);
            } else {
                let j = m - pr.len();
                assert(tail[j] == (id, target));
                assert(es[es.len() - 1].links@[j]@ == target);
            }
        }
        if exists|i: int, j: int| 0 <= i < es.len() && 0 <= j < es[i].links@.len() && es[i].id@ == id && #[trigger] es[i].links@[j]@ == target {
            let (i, j) = choose|i: int, j: int| 0 <= i < es.len() && 0 <= j < es[i].links@.len() && es[i].id@ == id && #[trigger] es[i].links@[j]@ == target;
            if i < es.len() - 1 {
                assert(rest[i] == es[i]);
                assert(rest[i].links@[j]@ == target);
                let m = choose|m: int| 0 <= m < pr.len() && #[trigger] pr[m] == (id, target);
                assert(page_links(es)[m] == (id, target));
            } else {
                assert(page_links(es)[pr.len() + j] == tail[j]);
            }
        }
    }
}

/// Backlinks: a page is among the pages listed as linking to `target` exactly
/// when it has a link to `target`.
pub proof fn lemma_backlinks(es: Seq<Entry>, target: Seq<char>, id: Seq<char>)
    ensures
        (backlinks(es, target) matches Some(ids) && ids.contains(id)) <==> exists|i: int, j: int|
            0 <= i < es.len() && 0 <= j < es[i].links@.len() && es[i].id@ == id && #[trigger] es[i].links@[j]@ == target,
{
    lemma_referrers_contains(page_links(es), target, id);
    lemma_page_links_contains(es, id, target);
}

/// A page that no page links to has no references.
pub proof fn lemma_no_backlinks(es: Seq<Entry>, target: Seq<char>)
    ensures
        backlinks(es, target) is None <==> forall|i: int, j: int|
            0 <= i < es.len() && 0 <= j < es[i].links@.len() ==> #[trigger] es[i].links@[j]@ != target,
{
    if backlinks(es, target) is None {
        assert forall|i: int, j: int| 0 <= i < es.len() && 0 <= j < es[i].links@.len() implies #[trigger] es[i].links@[j]@ != target by {
            if es[i].links@[j]@ == target {
                lemma_backlinks(es, target, es[i].id@);
            }
        }
    } else {
        let ids = backlinks(es, target)->0;
        lemma_backlinks(es, target, ids[0]);
        assert(ids.contains(ids[0]));
    }
}

/// The references never list `meta`, and list every other page given.
pub proof fn lemma_without_meta(ids: Seq<Seq<char>>)
    ensures
        !without_meta(ids).contains(META@),
        forall|i: int| 0 <= i < ids.len() && ids[i] != META@ ==> without_meta(ids).contains(#[trigger] ids[i]),
    decreases ids.len(),
{
    if ids.len() > 0 {
        lemma_without_meta(ids.drop_last());
        let w = without_meta(ids.drop_last());
        if ids.last() != META@ {
            assert(w.push(ids.last())[w.len() as int] == ids.last());
            assert forall|i: int| 0 <= i < ids.len() && ids[i] != META@ implies without_meta(ids).contains(#[trigger] ids[i]) by {
                if i < ids.len() - 1 {
                    assert(ids.drop_last()[i] == ids[i]);
                    let q = choose|q: int| 0 <= q < w.len() && w[q] == ids[i];
                    assert(w.push(ids.last())[q] == ids[i]);
                }
            }
            if w.push(ids.last()).contains(META@) {
                let q = choose|q: int| 0 <= q < w.len() + 1 && w.push(ids.last())[q] == META@;
                assert(q < w.len());
                assert(w[q] == META@);
            }
        } else {
            assert forall|i: int| 0 <= i < ids.len() && ids[i] != META@ implies without_meta(ids).contains(#[trigger] ids[i]) by {
                assert(ids.drop_last()[i] == ids[i]);
            }
        }
    }
}

/// A page in which the scan finds no dithered image is rendered as it is,
/// with the memex's settings.
pub proof fn lemma_render_md_no_image(s: Seq<char>)
    requires
        scan_of(DITHERED_IMG_REGEX@, s).0.len() == 0,
    ensures
        rendered_md(s) == markdown_html(scan_of(DITHERED_IMG_REGEX@, s).1, memex_markdown_options()),
{
    assert(img_links_spliced(scan_of(DITHERED_IMG_REGEX@, s).0) =~= Seq::<char>::empty());
    assert(dither_wrapped(s) =~= scan_of(DITHERED_IMG_REGEX@, s).1);
}

/// A page with one dithered image is rendered with that image's tag wrapped
/// in a link to the full image `resources/img/<name>.png`: the markdown
/// renderer gets the text before the tag, the link around the tag, and the
/// text after it.
pub proof fn lemma_render_md_one_image(s: Seq<char>)
    requires
        scan_of(DITHERED_IMG_REGEX@, s).0.len() == 1,
    ensures
        ({
            let m = scan_of(DITHERED_IMG_REGEX@, s).0[0];
            let tail = scan_of(DITHERED_IMG_REGEX@, s).1;
            rendered_md(s) == markdown_html(
                m.0 + IMG_LINK_OPEN@ + group_text(m, 2) + IMG_LINK_MID@ + group_text(m, 1) + IMG_LINK_CLOSE@ + tail,
                memex_markdown_options(),
            )
        }),
{
    let ms = scan_of(DITHERED_IMG_REGEX@, s).0;
    let m = ms[0];
    assert(ms.drop_last() =~= Seq::<(Seq<char>, Seq<Option<Seq<char>>>)>::empty());
    assert(img_links_spliced(ms.drop_last()) =~= Seq::<char>::empty());
    assert(img_links_spliced(ms) =~= m.0 + img_link(m));
    assert(dither_wrapped(s) =~= m.0 + IMG_LINK_OPEN@ + group_text(m, 2) + IMG_LINK_MID@ + group_text(m, 1)
        + IMG_LINK_CLOSE@ + scan_of(DITHERED_IMG_REGEX@, s).1);
}

/// Rendering a page hands the markdown renderer, with the memex's settings,
/// the page with every dithered image wrapped in a link to the full image,
/// not the page as it came.
pub proof fn lemma_render_md_wraps_images(s: Seq<char>)
    ensures
        rendered_md(s) == markdown_html(dither_wrapped(s), memex_markdown_options()),
{
}

/// The `references` slot of a page whose references are its backlinks among
/// `es` holds the line naming the pages that link to it (see
/// `lemma_backlinks`), whatever links the page has itself.
pub proof fn lemma_references_slot(es: Seq<Entry>, e: Entry, content: Seq<char>, directory: Seq<char>, recents: Seq<char>)
    requires
        references_view(e.references) == backlinks(es, e.id@),
    ensures
        page_slots(e, content, directory, recents)[2] == ("references"@, references_text(
            match backlinks(es, e.id@) {
                Some(ids) => ids,
                None => Seq::empty(),
            },
        )),
{
}

/// The HTML page of an entry does not depend on the entry's own links: two
/// entries with the same references and modification date give the same page.
pub proof fn lemma_page_html_ignores_links(
    e1: Entry,
    e2: Entry,
    content: Seq<char>,
    template: Seq<char>,
    directory: Seq<char>,
    recents: Seq<char>,
    lookup: Map<Seq<char>, EpiStatus>,
)
    requires
        references_view(e1.references) == references_view(e2.references),
        e1.modification_date@ == e2.modification_date@,
    ensures
        page_html(e1, content, template, directory, recents, lookup) == page_html(e2, content, template, directory, recents, lookup),
{
    assert(page_slots(e1, content, directory, recents) =~= page_slots(e2, content, directory, recents));
}

/// The link lines of a gemtext page follow the links in the order they
/// appear: after the index and the directory, line `i + 2` of the gemini
/// links goes to the page of the `i`-th internal link; line `i` of the web
/// links is `=> target title` of the `i`-th markdown link of the text with
/// internal links bracketed, and the sources of the tags follow.
pub proof fn lemma_link_lines_in_order(s: Seq<char>)
    ensures
        ({
            let ls = scan_of(INTERNAL_LINK_REGEX@, s).0;
            &&& gemini_lines(s).len() == ls.len() + 2
            &&& gemini_lines(s)[0] == GEMINI_PREFIX@ + DOMAIN@ + GEMINI_INDEX@
            &&& gemini_lines(s)[1] == GEMINI_PREFIX@ + DOMAIN@ + GEMINI_DIRECTORY@
            &&& forall|i: int| 0 <= i < ls.len() ==> #[trigger] gemini_lines(s)[i + 2] == GEMINI_PREFIX@ + DOMAIN@ + seq!['/']
                + group_text(ls[i], 3) + GEMINI_EXTENSION@ + group_text(ls[i], 3)
        }),
        ({
            let ms = scan_of(MD_LINK_REGEX@, gemtext_body1(s)).0;
            let ts = scan_of(TAG_SRC_REGEX@, gemtext_body2(s)).0;
            &&& web_lines(s).len() == ms.len() + ts.len()
            &&& forall|i: int| 0 <= i < ms.len() ==> #[trigger] web_lines(s)[i] == LINK_LINE@ + group_text(ms[i], 2) + seq![' ']
                + group_text(ms[i], 1)
            &&& forall|i: int| 0 <= i < ts.len() ==> #[trigger] web_lines(s)[ms.len() + i] == source_link_line(group_text(ts[i], 1))
        }),
{
}

/// Entries newest first: no entry is older than one after it.
pub open spec fn newest_sorted(s: Seq<Entry>) -> bool {
    forall|i: int, j: int| 0 <= i < j < s.len() ==> !chars_lt(#[trigger] s[i].modification_date@, #[trigger] s[j].modification_date@)
}

proof fn lemma_date_pos_before(s: Seq<Entry>, x: Entry, from: int, i: int)
    requires
        0 <= from <= i < date_pos(s, x, from),
        i < s.len(),
    ensures
        !chars_lt(s[i].modification_date@, x.modification_date@),
    decreases s.len() - from,
{
    if from < i {
        lemma_date_pos_before(s, x, from + 1, i);
    }
}

proof fn lemma_date_pos_at(s: Seq<Entry>, x: Entry, from: int)
    requires
        0 <= from,
        date_pos(s, x, from) < s.len(),
    ensures
        chars_lt(s[date_pos(s, x, from)].modification_date@, x.modification_date@),
    decreases s.len() - from,
{
    if from < s.len() && !chars_lt(s[from].modification_date@, x.modification_date@) {
        lemma_date_pos_at(s, x, from + 1);
    }
}

proof fn lemma_newest_first(es: Seq<Entry>)
    ensures
        newest_sorted(newest_first(es)),
        newest_first(es).len() == es.len(),
        forall|k: int| 0 <= k < newest_first(es).len() ==> es.contains(#[trigger] newest_first(es)[k]),
    decreases es.len(),
{
    lemma_newest_first_len(es);
    if es.len() > 0 {
        lemma_newest_first(es.drop_last());
        let s = newest_first(es.drop_last());
        let x = es.last();
        let k = date_pos(s, x, 0);
        lemma_date_pos(s, x, 0);
        let r = s.take(k).push(x) + s.skip(k);
        assert(r == newest_first(es));
        assert forall|i: int, j: int| 0 <= i < j < r.len() implies !chars_lt(#[trigger] r[i].modification_date@, #[trigger] r[j].modification_date@) by {
            if j < k {
                assert(r[i] == s[i] && r[j] == s[j]);
            } else if j == k {
                assert(r[i] == s[i] && r[j] == x);
                lemma_date_pos_before(s, x, 0, i);
            } else if i < k {
                assert(r[i] == s[i] && r[j] == s[j - 1]);
            } else if i == k {
                assert(r[i] == x && r[j] == s[j - 1]);
                lemma_date_pos_at(s, x, 0);
                if chars_lt(x.modification_date@, s[j - 1].modification_date@) {
                    lemma_chars_lt_transitive(s[k].modification_date@, x.modification_date@, s[j - 1].modification_date@);
                    if j - 1 == k {
                        lemma_chars_lt_irreflexive(s[k].modification_date@);
                    }
                }
            } else {
                assert(r[i] == s[i - 1] && r[j] == s[j - 1]);
            }
        }
        assert forall|m: int| 0 <= m < r.len() implies es.contains(#[trigger] r[m]) by {
            if m < k {
                assert(r[m] == s[m]);
                let q = choose|q: int| 0 <= q < es.drop_last().len() && es.drop_last()[q] == s[m];
                assert(es[q] == s[m]);
            } else if m == k {
                assert(es[es.len() - 1] == x);
            } else {
                assert(r[m] == s[m - 1]);
                let q = choose|q: int| 0 <= q < es.drop_last().len() && es.drop_last()[q] == s[m - 1];
                assert(es[q] == s[m - 1]);
            }
        }
    }
}

/// The list of recent changes holds the twenty newest entries (all of them
/// where there are fewer), newest first, each one of the given entries.
pub proof fn lemma_recent_entries(es: Seq<Entry>)
    ensures
        recent_entries(es).len() == if es.len() < RECENT_LIMIT { es.len() as int } else { RECENT_LIMIT as int },
        newest_sorted(recent_entries(es)),
        forall|k: int| 0 <= k < recent_entries(es).len() ==> es.contains(#[trigger] recent_entries(es)[k]),
        forall|k: int, m: int| 0 <= k < recent_entries(es).len() && 0 <= m < newest_first(es).len()
            && m >= recent_entries(es).len() ==> !chars_lt(#[trigger] recent_entries(es)[k].modification_date@,
            #[trigger] newest_first(es)[m].modification_date@),
{
    lemma_newest_first(es);
    let r = recent_entries(es);
    let n = newest_first(es);
    assert forall|i: int, j: int| 0 <= i < j < r.len() implies !chars_lt(#[trigger] r[i].modification_date@, #[trigger] r[j].modification_date@) by {
        assert(r[i] == n[i] && r[j] == n[j]);
    }
    assert forall|k: int| 0 <= k < r.len() implies es.contains(#[trigger] r[k]) by {
        assert(r[k] == n[k]);
    }
    assert forall|k: int, m: int| 0 <= k < r.len() && 0 <= m < n.len() && m >= r.len() implies !chars_lt(#[trigger] r[k].modification_date@,
        #[trigger] n[m].modification_date@) by {
        assert(r[k] == n[k]);
    }
}

} // verus!
