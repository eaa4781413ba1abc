//! The regular expressions of the memex and the calls into the `regex` crate
//! that apply them.
use vstd::prelude::*;

verus! {

/// An internal link `[[id]]`, with an optional title `{title}` before it.
/// Group 1 is the braced title, group 2 the title, group 3 the link.
pub const INTERNAL_LINK_REGEX: &'static str = "(\\{(?P<title>.*)})?\\[\\[(?P<link>.+?)]]";
/// A markdown header at the start of the text: group 1 the `#`s, group 2 the heading.
pub const HEADER_REGEX: &'static str = "^\\s*(?P<level>#+)\\s*(?P<heading>.*)";
/// A run of characters that are neither word characters nor `-`.
pub const NON_WORD_REGEX: &'static str = "[^\\w-]+";
/// An image tag of a dithered image: group 1 the tag, group 2 the image name.
pub const DITHERED_IMG_REGEX: &'static str = "(?P<img><img src=.*?resources/img/dithered_(?P<name>.+?)\\..+?>)";
/// A markdown link: group 1 the title, group 2 the target.
pub const MD_LINK_REGEX: &'static str = "\\[(?P<title>.+?)\\]\\((?P<link>.+?)\\)";
/// An HTML tag.
pub const HTML_TAG_REGEX: &'static str = "<[^>]*>";
/// A `src="..."` attribute: group 1 the source.
pub const TAG_SRC_REGEX: &'static str = "src=\"(?P<src>.+?)\"";
/// An epistemic status marker `epistemic=word`: group 1 the word.
pub const EPISTEMIC_REGEX: &'static str = "epistemic=(?P<status>\\w+)";

/// Whether `regex::Regex::new` accepts a pattern.
pub uninterp spec fn regex_compiles(pattern: Seq<char>) -> bool;

/// The matches of a compiled pattern in a haystack, as `Regex::captures_iter`
/// finds them: for each match, the text between the end of the previous match
/// and its start, with the texts of its capture groups (group 0 the whole
/// match, `None` for a group that took no part); then the text after the last match.
pub uninterp spec fn regex_scan_of(pattern: Seq<char>, haystack: Seq<char>) -> (
    Seq<(Seq<char>, Seq<Option<Seq<char>>>)>,
    Seq<char>,
);

/// What `Regex::replace_all` returns for a compiled pattern, a haystack and a
/// replacement text (in which `$name` and `$n` stand for capture groups).
pub uninterp spec fn regex_replaced(pattern: Seq<char>, haystack: Seq<char>, replacement: Seq<char>) -> Seq<char>;

/// One match of a pattern.
pub struct RegexMatch {
    /// The text between the previous match (or the start) and this match.
    pub before: String,
    /// The capture groups; group 0 is the whole match.
    pub groups: Vec<Option<String>>,
}

/// All matches of a pattern in a haystack.
pub struct RegexScan {
    pub matches: Vec<RegexMatch>,
    /// The text after the last match (all of the haystack if there is none).
    pub tail: String,
}

impl View for RegexMatch {
    type V = (Seq<char>, Seq<Option<Seq<char>>>);

    open spec fn view(&self) -> (Seq<char>, Seq<Option<Seq<char>>>) {
        (self.before@, self.groups.deep_view())
    }
}

impl View for RegexScan {
    type V = (Seq<(Seq<char>, Seq<Option<Seq<char>>>)>, Seq<char>);

    open spec fn view(&self) -> (Seq<(Seq<char>, Seq<Option<Seq<char>>>)>, Seq<char>) {
        (Seq::new(self.matches@.len(), |i: int| self.matches@[i]@), self.tail@)
    }
}

/// Compiles `pattern` with `regex::Regex::new` and, where it compiles, walks
/// `Regex::captures_iter` over `haystack`, cutting the haystack at the match
/// boundaries that `Captures::get_match` reports and collecting each group's
/// text with `Captures::iter`. The contract claims that the result is `None`
/// exactly when the pattern does not compile, and otherwise equals the named
/// scan of the pattern over the haystack; nothing more of the matches is stated.
#[verifier::external_body]
pub(crate) fn regex_scan(pattern: &str, haystack: &str) -> (res: Option<RegexScan>)
    ensures
        res is Some <==> regex_compiles(pattern@),
        res matches Some(s) ==> s@ == regex_scan_of(pattern@, haystack@),
{
    let re = regex::Regex::new(pattern).ok()?;
    let mut matches = Vec::new();
    let mut last: usize = 0;
    for caps in re.captures_iter(haystack) {
        let whole = caps.get_match();
        let groups = caps.iter().map(|g| g.map(|m| m.as_str().to_string())).collect();
        matches.push(RegexMatch { before: haystack[last..whole.start()].to_string(), groups });
        last = whole.end();
    }
    Some(RegexScan { matches, tail: haystack[last..].to_string() })
}

/// Compiles `pattern` with `regex::Regex::new` and, where it compiles, calls
/// `Regex::replace_all` with `replacement`. The contract claims that the result
/// is `None` exactly when the pattern does not compile, and otherwise equals
/// the named replacement.
#[verifier::external_body]
pub(crate) fn regex_replace_all(pattern: &str, haystack: &str, replacement: &str) -> (res: Option<String>)
    ensures
        res is Some <==> regex_compiles(pattern@),
        res matches Some(s) ==> s@ == regex_replaced(pattern@, haystack@, replacement@),
{
    let re = regex::Regex::new(pattern).ok()?;
    Some(re.replace_all(haystack, replacement).into_owned())
}

/// The scan of a pattern over a haystack; a pattern that does not compile
/// matches nothing.
pub open spec fn scan_of(pattern: Seq<char>, haystack: Seq<char>) -> (
    Seq<(Seq<char>, Seq<Option<Seq<char>>>)>,
    Seq<char>,
) {
    if regex_compiles(pattern) {
        regex_scan_of(pattern, haystack)
    } else {
        (Seq::empty(), haystack)
    }
}

/// The replacement of a pattern in a haystack; a pattern that does not
/// compile leaves the haystack as it is.
pub open spec fn replaced_of(pattern: Seq<char>, haystack: Seq<char>, replacement: Seq<char>) -> Seq<char> {
    if regex_compiles(pattern) {
        regex_replaced(pattern, haystack, replacement)
    } else {
        haystack
    }
}

/// The text of group `k` of a match, empty where the group took no part.
pub open spec fn group_text(m: (Seq<char>, Seq<Option<Seq<char>>>), k: int) -> Seq<char> {
    if 0 <= k < m.1.len() && m.1[k] is Some {
        m.1[k]->0
    } else {
        Seq::empty()
    }
}

/// All matches of `pattern` in `haystack`.
pub fn scan(pattern: &str, haystack: &str) -> (res: RegexScan)
    ensures
        res@ == scan_of(pattern@, haystack@),
{
    match regex_scan(pattern, haystack) {
        Some(s) => s,
        None => {
            let res = RegexScan { matches: Vec::new(), tail: haystack.to_owned() };
            assert(res@.0 =~= Seq::<(Seq<char>, Seq<Option<Seq<char>>>)>::empty());
            res
        },
    }
}

/// `haystack` with every match of `pattern` replaced by `replacement`.
pub fn replace_pattern(pattern: &str, haystack: &str, replacement: &str) -> (res: String)
    ensures
        res@ == replaced_of(pattern@, haystack@, replacement@),
{
    match regex_replace_all(pattern, haystack, replacement) {
        Some(s) => s,
        None => haystack.to_owned(),
    }
}

/// The text of group `k` of a match, empty where the group took no part.
pub fn group(m: &RegexMatch, k: usize) -> (res: String)
    ensures
        res@ == group_text(m@, k as int),
{
    if k < m.groups.len() {
        match &m.groups[k] {
            Some(s) => s.clone(),
            None => String::new(),
        }
    } else {
        String::new()
    }
}

/// Whether a pattern is a valid regular expression.
pub fn compiles(pattern: &str) -> (res: bool)
    ensures
        res == regex_compiles(pattern@),
{
    regex_scan(pattern, "").is_some()
}

} // verus!
