//! A page of the memex: its id, content and what is read from it (status,
//! links, outline, last modification date).
use vstd::prelude::*;
use crate::common::{status_of_name, EpiStatus, SEEDLING};
use crate::regexes::{
    group, group_text, replace_pattern, RegexScan, replaced_of, scan, scan_of, EPISTEMIC_REGEX, HEADER_REGEX,
    INTERNAL_LINK_REGEX, NON_WORD_REGEX,
};
use crate::text::{
    chars_of, decimal_seq, push_char, push_decimal, push_repeat, push_str, repeat_seq, replace,
    replace_seq, string_of, string_views, trim, trim_seq,
};

verus! {

// ---------------------------------------------------------------------------
// Splitting and counting
// ---------------------------------------------------------------------------

/// The pieces of `s` between occurrences of `sep`, as `str::split` gives them
/// (one more piece than there are separators).
pub open spec fn split_on(s: Seq<char>, sep: char) -> Seq<Seq<char>>
    decreases s.len(),
{
    if s.len() == 0 {
        seq![Seq::empty()]
    } else {
        let rest = split_on(s.drop_last(), sep);
        if s.last() == sep {
            rest.push(Seq::empty())
        } else {
            rest.update(rest.len() - 1, rest.last().push(s.last()))
        }
    }
}

/// The number of occurrences of `c` in `s`.
pub open spec fn count_char(s: Seq<char>, c: char) -> nat
    decreases s.len(),
{
    if s.len() == 0 {
        0
    } else {
        count_char(s.drop_last(), c) + if s.last() == c { 1nat } else { 0nat }
    }
}

/// The views of some character vectors.
pub open spec fn views(v: Seq<Vec<char>>) -> Seq<Seq<char>> {
    Seq::new(v.len(), |i: int| v[i]@)
}

/// The pieces of `s` between occurrences of `sep`.
pub fn split_chars(s: &Vec<char>, sep: char) -> (res: Vec<Vec<char>>)
    ensures
        views(res@) == split_on(s@, sep),
{
    let mut lines: Vec<Vec<char>> = Vec::new();
    let mut cur: Vec<char> = Vec::new();
    let mut i: usize = 0;
    assert(s@.take(0) =~= Seq::<char>::empty());
    assert(views(lines@).push(cur@) =~= seq![Seq::<char>::empty()]);
    while i < s.len()
        invariant
            i <= s@.len(),
            views(lines@).push(cur@) == split_on(s@.take(i as int), sep),
        decreases s@.len() - i,
    {
        let ch = s[i];
        let ghost before = views(lines@).push(cur@);
        assert(s@.take(i + 1).drop_last() =~= s@.take(i as int));
        assert(s@.take(i + 1).last() == ch);
        if ch == sep {
            lines.push(cur);
            cur = Vec::new();
            assert(views(lines@).push(cur@) =~= before.push(Seq::<char>::empty()));
        } else {
            cur.push(ch);
            assert(views(lines@).push(cur@) =~= before.update(before.len() - 1, before.last().push(ch)));
        }
        i += 1;
    }
    assert(s@.take(s@.len() as int) =~= s@);
    lines.push(cur);
    assert(views(lines@) =~= split_on(s@, sep));
    lines
}

/// The number of occurrences of `c` in `s`.
pub fn count_chars(s: &Vec<char>, c: char) -> (res: u64)
    ensures
        res == count_char(s@, c),
{
    let mut n: u64 = 0;
    let mut i: usize = 0;
    assert(s@.take(0) =~= Seq::<char>::empty());
    while i < s.len()
        invariant
            i <= s@.len(),
            n == count_char(s@.take(i as int), c),
            n <= i,
        decreases s@.len() - i,
    {
        assert(s@.take(i + 1).drop_last() =~= s@.take(i as int));
        if s[i] == c {
            n += 1;
        }
        i += 1;
    }
    assert(s@.take(s@.len() as int) =~= s@);
    n
}

// ---------------------------------------------------------------------------
// Links, headers and status
// ---------------------------------------------------------------------------

/// The texts of group `k` of some matches, skipping matches where it took no part.
pub open spec fn present_groups(ms: Seq<(Seq<char>, Seq<Option<Seq<char>>>)>, k: int) -> Seq<Seq<char>>
    decreases ms.len(),
{
    if ms.len() == 0 {
        Seq::empty()
    } else {
        let rest = present_groups(ms.drop_last(), k);
        let m = ms.last();
        if 0 <= k < m.1.len() && m.1[k] is Some {
            rest.push(m.1[k]->0)
        } else {
            rest
        }
    }
}

/// The pages a content links to, in order of appearance.
pub open spec fn links_of(content: Seq<char>) -> Seq<Seq<char>> {
    present_groups(scan_of(INTERNAL_LINK_REGEX@, content).0, 3)
}

/// The anchor of a header line: the heading, without quotes, trimmed, every
/// run of non-word characters turned into `-`.
pub open spec fn header_link(header: Seq<char>) -> Seq<char> {
    let heading = replaced_of(HEADER_REGEX@, header, "$heading"@);
    let unquoted = replace_seq(replace_seq(heading, "'"@, Seq::empty()), "\""@, Seq::empty());
    replaced_of(NON_WORD_REGEX@, trim_seq(unquoted), "-"@)
}

/// The heading of a header line: what follows its `#`s.
pub open spec fn heading_of(line: Seq<char>) -> Seq<char> {
    let sc = scan_of(HEADER_REGEX@, line);
    if sc.0.len() > 0 {
        group_text(sc.0[0], 2)
    } else {
        Seq::empty()
    }
}

/// Opening of an outline item, up to the header anchor.
pub const OUTLINE_OPEN: &'static str = "* <a class='header' href='#";
/// Between the header anchor and the heading.
pub const OUTLINE_MID: &'static str = "'>";
/// Closing of an outline item.
pub const OUTLINE_CLOSE: &'static str = "</a>\n";

/// Whether a line is a markdown header line.
pub open spec fn is_header_line(line: Seq<char>) -> bool {
    line.len() > 0 && line[0] == '#'
}

/// The outline item of a header line, indented by two spaces per `#` in it.
pub open spec fn outline_item(line: Seq<char>) -> Seq<char> {
    repeat_seq("  "@, count_char(line, '#')) + OUTLINE_OPEN@ + header_link(line) + OUTLINE_MID@
        + heading_of(line) + OUTLINE_CLOSE@
}

/// The outline items of the header lines among some lines.
pub open spec fn outline_of_lines(lines: Seq<Seq<char>>) -> Seq<char>
    decreases lines.len(),
{
    if lines.len() == 0 {
        Seq::empty()
    } else {
        outline_of_lines(lines.drop_last()) + if is_header_line(lines.last()) {
            outline_item(lines.last())
        } else {
            Seq::<char>::empty()
        }
    }
}

/// The outline of a content: nothing unless the content starts with a
/// header, else one item per header line.
pub open spec fn outline_of(content: Seq<char>) -> Seq<char> {
    if scan_of(HEADER_REGEX@, content).0.len() > 0 {
        outline_of_lines(split_on(content, '\n'))
    } else {
        Seq::empty()
    }
}

/// The status word of a content: the word after the first `epistemic=`,
/// `seedling` where there is none.
pub open spec fn status_word(content: Seq<char>) -> Seq<char> {
    let sc = scan_of(EPISTEMIC_REGEX@, content);
    if sc.0.len() > 0 {
        group_text(sc.0[0], 1)
    } else {
        SEEDLING@
    }
}

// ---------------------------------------------------------------------------
// Dates
// ---------------------------------------------------------------------------

/// The date that `chrono::NaiveDate::parse_from_str` reads from a text with a
/// format, as year, month and day; `None` where it refuses the text.
pub uninterp spec fn naive_date_parsed(text: Seq<char>, format: Seq<char>) -> Option<(int, int, int)>;

/// Calls `chrono::NaiveDate::parse_from_str` and reads year, month and day of
/// the date with `Datelike`. The contract names the result and keeps what
/// `Datelike` documents: the month lies in 1..=12, the day in 1..=31.
#[verifier::external_body]
fn parse_naive_date(text: &str, format: &str) -> (res: Option<(i32, u32, u32)>)
    ensures
        res is None <==> naive_date_parsed(text@, format@) is None,
        res matches Some((y, m, d)) ==> naive_date_parsed(text@, format@) == Some((y as int, m as int, d as int)) && 1 <= m <= 12 && 1 <= d <= 31,
{
    chrono::NaiveDate::parse_from_str(text, format).ok().map(
        |d| (chrono::Datelike::year(&d), chrono::Datelike::month(&d), chrono::Datelike::day(&d)),
    )
}

/// The format of the dates that `git log --pretty=format:%ci` prints.
pub const GIT_DATE_FORMAT: &'static str = "%Y-%m-%d %H:%M:%S %z";

/// Two decimal digits of a number below 100.
pub open spec fn two_digits(n: nat) -> Seq<char> {
    seq![crate::text::digit_char(n / 10), crate::text::digit_char(n % 10)]
}

/// `digits` padded on the left with zeros to at least `width` characters.
pub open spec fn zero_pad(digits: Seq<char>, width: nat) -> Seq<char> {
    if digits.len() >= width {
        digits
    } else {
        repeat_seq("0"@, (width - digits.len()) as nat) + digits
    }
}

/// How `chrono` writes a date: `YYYY-MM-DD`, with a sign and at least four
/// digits for a year outside 0..=9999.
pub open spec fn date_text(y: int, m: nat, d: nat) -> Seq<char> {
    let year = if 0 <= y <= 9999 {
        two_digits((y / 100) as nat) + two_digits((y % 100) as nat)
    } else if y >= 0 {
        seq!['+'] + zero_pad(decimal_seq(y as nat), 4)
    } else {
        seq!['-'] + zero_pad(decimal_seq((-y) as nat), 4)
    };
    year + seq!['-'] + two_digits(m) + seq!['-'] + two_digits(d)
}

/// The text that `git log` printed, without `format:` and quotes, trimmed.
pub open spec fn git_date_text(output: Seq<char>) -> Seq<char> {
    trim_seq(replace_seq(replace_seq(output, "format:"@, Seq::empty()), "\""@, Seq::empty()))
}

/// The modification string of a page from what `git log` printed: the
/// fallback where git gave nothing, else the date with dots, or `None` where
/// the text is not a date.
pub open spec fn modification_of(output: Option<Seq<char>>, fallback: Seq<char>) -> Option<Seq<char>> {
    match output {
        None => Some(fallback),
        Some(out) => {
            let subset = git_date_text(out);
            if subset.len() == 0 {
                Some(fallback)
            } else {
                match naive_date_parsed(subset, GIT_DATE_FORMAT@) {
                    Some((y, m, d)) => Some(replace_seq(date_text(y, m as nat, d as nat), "-"@, "."@)),
                    None => None,
                }
            }
        }
    }
}

fn push_two_digits(s: &mut String, n: u32)
    requires
        n < 100,
    ensures
        final(s)@ == old(s)@ + two_digits(n as nat),
{
    push_char(s, crate::text::digit_of(n as u64 / 10));
    push_char(s, crate::text::digit_of(n as u64 % 10));
    assert(final(s)@ =~= old(s)@ + two_digits(n as nat));
}

/// Appends the decimal digits of `n`, with zeros before them up to `width` digits.
pub fn push_zero_padded(s: &mut String, n: u64, width: usize)
    ensures
        final(s)@ == old(s)@ + zero_pad(decimal_seq(n as nat), width as nat),
{
    let mut digits = String::new();
    push_decimal(&mut digits, n);
    let len: usize = chars_of(digits.as_str()).len();
    if len < width {
        push_repeat(s, "0", (width - len) as u64);
    }
    push_str(s, digits.as_str());
    assert(final(s)@ =~= old(s)@ + zero_pad(decimal_seq(n as nat), width as nat));
}

/// Writes a date the way `chrono` does.
fn push_date(s: &mut String, y: i32, m: u32, d: u32)
    requires
        m < 100,
        d < 100,
    ensures
        final(s)@ == old(s)@ + date_text(y as int, m as nat, d as nat),
{
    let ghost start = s@;
    if 0 <= y && y <= 9999 {
        push_two_digits(s, (y / 100) as u32);
        push_two_digits(s, (y % 100) as u32);
    } else if y >= 0 {
        push_char(s, '+');
        push_zero_padded(s, y as u64, 4);
    } else {
        push_char(s, '-');
        let a: u64 = if y == i32::MIN { 2147483648u64 } else { (-y) as u64 };
        push_zero_padded(s, a, 4);
    }
    let ghost year_end = s@;
    push_char(s, '-');
    push_two_digits(s, m);
    push_char(s, '-');
    push_two_digits(s, d);
    assert(s@ =~= start + date_text(y as int, m as nat, d as nat));
}

// ---------------------------------------------------------------------------
// Entries
// ---------------------------------------------------------------------------

/// Why a page could not be read into an entry.
#[derive(Debug, Clone, PartialEq, Eq)]
pub enum EntryError {
    /// The path has no file name to take the page id from.
    NoFileStem,
    /// The page names an epistemic status that does not exist.
    UnknownEpistemicStatus(String),
    /// `git log` printed a date that is not one.
    UnparsableDate(String),
}

/// A page of the memex.
#[derive(Debug, Clone)]
pub struct Entry {
    pub id: String,
    pub content: String,
    pub epistemic_status: EpiStatus,
    pub modification_date: String,
    pub links: Vec<String>,
    pub references: Option<Vec<String>>,
    pub outline_md: String,
    pub path: String,
}


/// What `std::path::Path::file_stem` gives for a path (with the path syntax of
/// the target the library is built for): its file name without the last
/// extension, `None` where the path has no file name.
pub uninterp spec fn file_stem_of(path: Seq<char>) -> Option<Seq<char>>;

/// Calls `std::path::Path::file_stem`; the contract names its result.
#[verifier::external_body]
fn path_file_stem(path: &str) -> (res: Option<String>)
    ensures
        res is None <==> file_stem_of(path@) is None,
        res matches Some(stem) ==> file_stem_of(path@) == Some(stem@),
{
    std::path::Path::new(path).file_stem().map(|s| s.to_string_lossy().into_owned())
}

/// An entry holds what `Entry::from_path` reads from a page, references aside.
pub open spec fn entry_fields_from(
    e: Entry,
    path: Seq<char>,
    content: Seq<char>,
    git_output: Option<Seq<char>>,
    fallback: Seq<char>,
) -> bool {
    &&& file_stem_of(path) == Some(e.id@)
    &&& e.content@ == content
    &&& status_of_name(status_word(content)) == Some(e.epistemic_status)
    &&& string_views(e.links@) == links_of(content)
    &&& modification_of(git_output, fallback) == Some(e.modification_date@)
    &&& e.outline_md@ == outline_of(content)
    &&& e.path@ == path
}

/// The entry that `Entry::from_path` makes of a page, where it makes one.
pub open spec fn entry_from(
    e: Entry,
    path: Seq<char>,
    content: Seq<char>,
    git_output: Option<Seq<char>>,
    fallback: Seq<char>,
) -> bool {
    &&& entry_fields_from(e, path, content, git_output, fallback)
    &&& e.references is None
}

/// A string holding a copy of a string slice.
fn owned(s: &str) -> (res: String)
    ensures
        res@ == s@,
{
    s.to_owned()
}

/// The link groups (group 3) of the matches of a scan of internal links that
/// have one, in order.
pub fn links_in_scan(sc: &RegexScan) -> (res: Vec<String>)
    ensures
        string_views(res@) == present_groups(sc@.0, 3),
{
    let mut res: Vec<String> = Vec::new();
    let mut i: usize = 0;
    assert(sc@.0.take(0) =~= Seq::<(Seq<char>, Seq<Option<Seq<char>>>)>::empty());
    while i < sc.matches.len()
        invariant
            i <= sc.matches@.len(),
            string_views(res@) == present_groups(sc@.0.take(i as int), 3),
        decreases sc.matches@.len() - i,
    {
        let m = &sc.matches[i];
        assert(sc@.0.take(i + 1).drop_last() =~= sc@.0.take(i as int));
        assert(sc@.0.take(i + 1).last() == m@);
        if 3 < m.groups.len() {
            match &m.groups[3] {
                Some(link) => {
                    let ghost before = res@;
                    res.push(link.clone());
                    assert(string_views(res@) =~= string_views(before).push(link@));
                    assert(m@.1[3] == Some(link@));
                },
                None => {
                    assert(m@.1[3] is None);
                },
            }
        }
        i += 1;
    }
    assert(sc@.0.take(sc@.0.len() as int) =~= sc@.0);
    res
}

impl Entry {
    /// The pages a content links to with `[[id]]` or `{title}[[id]]`, in order.
    pub fn get_links(content: &str) -> (res: Vec<String>)
        ensures
            string_views(res@) == links_of(content@),
    {
        let sc = scan(INTERNAL_LINK_REGEX, content);
        links_in_scan(&sc)
    }

    /// The anchor of a header line: the heading, without quotes, trimmed, every
    /// run of non-word characters turned into `-`.
    pub fn make_header_link(header: &str) -> (res: String)
        ensures
            res@ == header_link(header@),
    {
        proof {
            reveal_strlit("'");
            reveal_strlit("\"");
            reveal_strlit("");
            assert(""@ =~= Seq::<char>::empty());
        }
        let heading = replace_pattern(HEADER_REGEX, header, "$heading");
        let a = replace(heading.as_str(), "'", "");
        let b = replace(a.as_str(), "\"", "");
        let t = trim(&chars_of(b.as_str()));
        let ts = string_of(&t);
        replace_pattern(NON_WORD_REGEX, ts.as_str(), "-")
    }

    /// The heading of a header line.
    fn heading(line: &str) -> (res: String)
        ensures
            res@ == heading_of(line@),
    {
        let sc = scan(HEADER_REGEX, line);
        if sc.matches.len() > 0 {
            group(&sc.matches[0], 2)
        } else {
            String::new()
        }
    }

    /// The outline of a content: where the content starts with a header, a
    /// list of links to each header line, indented by two spaces per `#`.
    pub fn get_outline_md(content: &str) -> (res: String)
        ensures
            res@ == outline_of(content@),
    {
        let mut result = String::new();
        let sc = scan(HEADER_REGEX, content);
        if sc.matches.len() > 0 {
            let cs = chars_of(content);
            let lines = split_chars(&cs, '\n');
            let ghost lv = views(lines@);
            let mut i: usize = 0;
            assert(lv.take(0) =~= Seq::<Seq<char>>::empty());
            while i < lines.len()
                invariant
                    i <= lines@.len(),
                    lv == views(lines@),
                    result@ == outline_of_lines(lv.take(i as int)),
                decreases lines@.len() - i,
            {
                let line = &lines[i];
                assert(lv.take(i + 1).drop_last() =~= lv.take(i as int));
                assert(lv.take(i + 1).last() == line@);
                if line.len() > 0 && line[0] == '#' {
                    let ghost before = result@;
                    let ls = string_of(line);
                    let hashes: u64 = count_chars(line, '#');
                    push_repeat(&mut result, "  ", hashes);
                    push_str(&mut result, OUTLINE_OPEN);
                    let link = Entry::make_header_link(ls.as_str());
                    push_str(&mut result, link.as_str());
                    push_str(&mut result, OUTLINE_MID);
                    let h = Entry::heading(ls.as_str());
                    push_str(&mut result, h.as_str());
                    push_str(&mut result, OUTLINE_CLOSE);
                    assert(result@ =~= before + outline_item(line@));
                } else {
                    assert(result@ =~= result@ + Seq::<char>::empty());
                }
                i += 1;
            }
            assert(lv.take(lv.len() as int) =~= lv);
        }
        result
    }

    /// The epistemic status a content declares with `epistemic=word`, a
    /// seedling where it declares none. A word that names no status leaves
    /// the page unreadable: the word comes back as the error.
    pub fn get_epistemic_status(content: &str) -> (res: Result<EpiStatus, String>)
        ensures
            match status_of_name(status_word(content@)) {
                Some(st) => res == Ok::<EpiStatus, String>(st),
                None => res is Err && res->Err_0@ == status_word(content@),
            },
    {
        let sc = scan(EPISTEMIC_REGEX, content);
        let word = if sc.matches.len() > 0 {
            group(&sc.matches[0], 1)
        } else {
            owned(SEEDLING)
        };
        match EpiStatus::from_str(word.as_str()) {
            Ok(st) => Ok(st),
            Err(_) => Err(word),
        }
    }

    /// The last modification date of a page from what `git log -1
    /// --pretty="format:%ci"` printed for it (`None` where git could not be
    /// run): the date as `YYYY.MM.DD`, or `fallback` where git printed
    /// nothing. A printed text that is not a date leaves the page unreadable:
    /// the error carries that text.
    pub fn get_modification_string(git_output: Option<&str>, fallback: &str) -> (res: Result<String, EntryError>)
        ensures
            match modification_of(
                match git_output {
                    Some(o) => Some(o@),
                    None => None,
                },
                fallback@,
            ) {
                Some(m) => res is Ok && res->Ok_0@ == m,
                None => (res matches Err(EntryError::UnparsableDate(t)) && git_output matches Some(o) && t@ == git_date_text(o@)),
            },
    {
        match git_output {
            None => owned_ok(fallback),
            Some(out) => {
                proof {
                    reveal_strlit("\"");
                    reveal_strlit("format:");
                    reveal_strlit("-");
                    reveal_strlit("");
                    assert(""@ =~= Seq::<char>::empty());
                }
                let a = replace(out, "format:", "");
                let b = replace(a.as_str(), "\"", "");
                let subset = string_of(&trim(&chars_of(b.as_str())));
                if chars_of(subset.as_str()).len() == 0 {
                    return owned_ok(fallback);
                }
                match parse_naive_date(subset.as_str(), GIT_DATE_FORMAT) {
                    Some((y, m, d)) => {
                        let mut date = String::new();
                        push_date(&mut date, y, m, d);
                        Ok(replace(date.as_str(), "-", "."))
                    },
                    None => Err(EntryError::UnparsableDate(subset)),
                }
            },
        }
    }

    /// The entry of a page at `path` with the given content. `git_output` is
    /// what `git log` printed for the page (`None` where it could not be run)
    /// and `fallback` the date to use where it printed nothing. Refused where
    /// the path has no file stem, where the page names an unknown status, or
    /// where git printed something that is not a date, in this order.
    pub fn from_path(path: &str, content: String, git_output: Option<&str>, fallback: &str) -> (res: Result<Entry, EntryError>)
        ensures
            file_stem_of(path@) is None ==> res == Err::<Entry, EntryError>(EntryError::NoFileStem),
            file_stem_of(path@) is Some && status_of_name(status_word(content@)) is None ==> (res matches Err(EntryError::UnknownEpistemicStatus(w)) && w@ == status_word(content@)),
            file_stem_of(path@) is Some && status_of_name(status_word(content@)) is Some
                && modification_of(match git_output { Some(o) => Some(o@), None => None }, fallback@) is None
                ==> (res matches Err(EntryError::UnparsableDate(t)) && git_output matches Some(o) && t@ == git_date_text(o@)),
            res is Ok <==> (file_stem_of(path@) is Some && status_of_name(status_word(content@)) is Some
                && modification_of(match git_output { Some(o) => Some(o@), None => None }, fallback@) is Some),
            res matches Ok(e) ==> entry_from(e, path@, content@, match git_output { Some(o) => Some(o@), None => None }, fallback@),
    {
        let id = match path_file_stem(path) {
            Some(stem) => stem,
            None => return Err(EntryError::NoFileStem),
        };
        let epistemic_status = match Entry::get_epistemic_status(content.as_str()) {
            Ok(st) => st,
            Err(word) => return Err(EntryError::UnknownEpistemicStatus(word)),
        };
        let links = Entry::get_links(content.as_str());
        let modification_date = match Entry::get_modification_string(git_output, fallback) {
            Ok(m) => m,
            Err(e) => return Err(e),
        };
        let outline_md = Entry::get_outline_md(content.as_str());
        Ok(Entry {
            id,
            content,
            epistemic_status,
            modification_date,
            links,
            references: None,
            outline_md,
            path: owned(path),
        })
    }
}

fn owned_ok(s: &str) -> (res: Result<String, EntryError>)
    ensures
        res is Ok && res->Ok_0@ == s@,
{
    Ok(s.to_owned())
}

} // verus!
