//! The memex syntax: internal links `[[id]]`, titled links `{title}[[id]]`,
//! images `&name&`, header anchors and code fences, turned into markdown and
//! HTML by a character scanner.
use vstd::prelude::*;
use crate::common::{status_name, EpiStatus, EpiStatusLookup};
use crate::parser::Error;
use crate::regexes::{replace_pattern, replaced_of, NON_WORD_REGEX};
use crate::text::{
    alphabetic, chars_of, is_alphabetic, is_numeric, numeric, white_space,
    is_whitespace, lowercase_of, push_char, push_str, string_of, to_lowercase, trim, trim_seq,
};

verus! {

// ---------------------------------------------------------------------------
// Validators
// ---------------------------------------------------------------------------

/// A test on a single character.
#[derive(Debug, Clone, Copy, PartialEq, Eq, Structural)]
pub enum Matcher {
    /// Exactly the given character.
    Char(char),
    /// A whitespace character.
    Whitespace,
    /// A numeric or alphabetic character.
    Alphanumeric,
    /// An alphabetic character.
    Alphabetic,
    /// A line feed or carriage return.
    EOL,
    /// A character of a page id: alphanumeric or `-`, not whitespace.
    Standard,
    /// Anything but a backtick.
    CodeFence,
    /// A character of an image name: not `&`, whitespace or end of line.
    Image,
    /// A character of a link title: a page id character, whitespace or `,`,
    /// but no brace and no end of line.
    AltTitle,
    /// A character of an internal link.
    InternalLink,
}

/// Line feed or carriage return.
pub open spec fn is_eol(c: char) -> bool {
    c == '\n' || c == '\r'
}

/// Whether a character passes a matcher.
pub open spec fn matches(m: Matcher, c: char) -> bool {
    match m {
        Matcher::Char(x) => c == x,
        Matcher::Whitespace => white_space(c),
        Matcher::Alphanumeric => numeric(c) || alphabetic(c),
        Matcher::Alphabetic => alphabetic(c),
        Matcher::EOL => is_eol(c),
        Matcher::Standard => (numeric(c) || alphabetic(c) || c == '-') && !(
        white_space(c) || is_eol(c)),
        Matcher::CodeFence => c != '`',
        Matcher::Image => !(c == '&' || white_space(c) || is_eol(c)),
        Matcher::AltTitle => (matches_standard(c) || white_space(c) || c == ',') && !(c
            == '}' || c == '{' || is_eol(c)),
        Matcher::InternalLink => matches_standard(c) && !(white_space(c) || is_eol(c)),
    }
}

/// Whether a character passes the page id matcher.
pub open spec fn matches_standard(c: char) -> bool {
    (numeric(c) || alphabetic(c) || c == '-') && !(white_space(c) || is_eol(
        c,
    ))
}

/// A character passes when it passes one of the validators (or there are
/// none) and none of the invalidators.
pub open spec fn validate_spec(c: char, validators: Seq<Matcher>, invalidators: Seq<Matcher>) -> bool {
    &&& (validators.len() == 0 || exists|i: int| 0 <= i < validators.len() && matches(#[trigger] validators[i], c))
    &&& !(exists|i: int| 0 <= i < invalidators.len() && matches(#[trigger] invalidators[i], c))
}

/// How deeply a matcher is built from others.
pub open spec fn level(m: Matcher) -> nat {
    match m {
        Matcher::AltTitle | Matcher::InternalLink => 2,
        Matcher::Standard | Matcher::Image => 1,
        _ => 0,
    }
}

/// The deepest level among some matchers.
pub open spec fn max_level(ms: Seq<Matcher>) -> nat
    decreases ms.len(),
{
    if ms.len() == 0 {
        0
    } else {
        let rest = max_level(ms.drop_last());
        if level(ms.last()) > rest {
            level(ms.last())
        } else {
            rest
        }
    }
}

proof fn lemma_max_level(ms: Seq<Matcher>, i: int)
    requires
        0 <= i < ms.len(),
    ensures
        level(ms[i]) <= max_level(ms),
    decreases ms.len(),
{
    if i < ms.len() - 1 {
        lemma_max_level(ms.drop_last(), i);
    }
}

/// Whether a character passes one of some matchers.
fn any_matches(c: char, ms: &Vec<Matcher>, bound: Ghost<nat>) -> (res: bool)
    requires
        max_level(ms@) <= bound@,
    ensures
        res == exists|i: int| 0 <= i < ms@.len() && matches(#[trigger] ms@[i], c),
    decreases bound@ * 2 + 2, 0nat,
{
    let mut i: usize = 0;
    while i < ms.len()
        invariant
            i <= ms@.len(),
            max_level(ms@) <= bound@,
            forall|k: int| 0 <= k < i ==> !matches(#[trigger] ms@[k], c),
        decreases ms@.len() - i,
    {
        proof {
            lemma_max_level(ms@, i as int);
        }
        if ms[i].check_bounded(c, bound) {
            return true;
        }
        i += 1;
    }
    false
}

/// Whether a character passes one of the validators (or there are none) and
/// none of the invalidators.
pub fn validate(c: char, validators: &Vec<Matcher>, invalidators: &Vec<Matcher>) -> (res: bool)
    ensures
        res == validate_spec(c, validators@, invalidators@),
{
    let bound: u64 = if max_level_of(validators) > max_level_of(invalidators) {
        max_level_of(validators)
    } else {
        max_level_of(invalidators)
    };
    validate_bounded(c, validators, invalidators, Ghost(bound as nat))
}

fn max_level_of(ms: &Vec<Matcher>) -> (res: u64)
    ensures
        res == max_level(ms@),
{
    let mut best: u64 = 0;
    let mut i: usize = 0;
    while i < ms.len()
        invariant
            i <= ms@.len(),
            best == max_level(ms@.take(i as int)),
            best <= 2,
        decreases ms@.len() - i,
    {
        let l: u64 = match ms[i] {
            Matcher::AltTitle | Matcher::InternalLink => 2,
            Matcher::Standard | Matcher::Image => 1,
            _ => 0,
        };
        assert(ms@.take(i + 1).drop_last() == ms@.take(i as int));
        if l > best {
            best = l;
        }
        i += 1;
    }
    assert(ms@.take(ms@.len() as int) == ms@);
    best
}

fn validate_bounded(c: char, validators: &Vec<Matcher>, invalidators: &Vec<Matcher>, bound: Ghost<nat>) -> (res: bool)
    requires
        max_level(validators@) <= bound@,
        max_level(invalidators@) <= bound@,
    ensures
        res == validate_spec(c, validators@, invalidators@),
    decreases bound@ * 2 + 2, 1nat,
{
    let mut passed_validators: bool = true;
    let mut failed_invalidators: bool = false;
    if validators.len() != 0 {
        passed_validators = any_matches(c, validators, bound);
    }
    if invalidators.len() != 0 {
        failed_invalidators = any_matches(c, invalidators, bound);
    }
    passed_validators && !failed_invalidators
}

impl Matcher {
    /// Whether a character passes this matcher.
    pub fn check(&self, c: char) -> (res: bool)
        ensures
            res == matches(*self, c),
    {
        self.check_bounded(c, Ghost(level(*self)))
    }

    fn check_bounded(&self, c: char, bound: Ghost<nat>) -> (res: bool)
        requires
            level(*self) <= bound@,
        ensures
            res == matches(*self, c),
        decreases bound@ * 2 + 1, 0nat,
    {
        match self {
            Matcher::Char(x) => c == *x,
            Matcher::Whitespace => is_whitespace(c),
            Matcher::Alphanumeric => is_numeric(c) || is_alphabetic(c),
            Matcher::Alphabetic => is_alphabetic(c),
            Matcher::EOL => c == '\n' || c == '\r',
            Matcher::Standard => {
                let v = vec![Matcher::Alphanumeric, Matcher::Char('-')];
                let iv = vec![Matcher::Whitespace, Matcher::EOL];
                assert(max_level(v@) == 0) by { reveal_with_fuel(max_level, 3); }
                assert(max_level(iv@) == 0) by { reveal_with_fuel(max_level, 3); }
                let r = validate_bounded(c, &v, &iv, Ghost((bound@ - 1) as nat));
                proof { self.lemma_standard(c, r, v@, iv@); }
                r
            },
            Matcher::CodeFence => c != '`',
            Matcher::Image => {
                let v: Vec<Matcher> = vec![];
                let iv = vec![Matcher::Char('&'), Matcher::Whitespace, Matcher::EOL];
                assert(max_level(v@) == 0);
                assert(max_level(iv@) == 0) by { reveal_with_fuel(max_level, 4); }
                let r = validate_bounded(c, &v, &iv, Ghost((bound@ - 1) as nat));
                proof {
                    assert(iv@[0] == Matcher::Char('&'));
                    assert(iv@[1] == Matcher::Whitespace);
                    assert(iv@[2] == Matcher::EOL);
                    assert(matches(iv@[0], c) || matches(iv@[1], c) || matches(iv@[2], c) ==> exists|i: int| 0 <= i < iv@.len() && matches(#[trigger] iv@[i], c));
                }
                r
            },
            Matcher::AltTitle => {
                let v = vec![Matcher::Standard, Matcher::Whitespace, Matcher::Char(',')];
                let iv = vec![Matcher::Char('}'), Matcher::Char('{'), Matcher::EOL];
                assert(max_level(v@) == 1) by { reveal_with_fuel(max_level, 4); }
                assert(max_level(iv@) == 0) by { reveal_with_fuel(max_level, 4); }
                let r = validate_bounded(c, &v, &iv, Ghost((bound@ - 1) as nat));
                proof {
                    assert(v@[0] == Matcher::Standard);
                    assert(v@[1] == Matcher::Whitespace);
                    assert(v@[2] == Matcher::Char(','));
                    assert(iv@[0] == Matcher::Char('}'));
                    assert(iv@[1] == Matcher::Char('{'));
                    assert(iv@[2] == Matcher::EOL);
                    assert(matches(v@[0], c) || matches(v@[1], c) || matches(v@[2], c) ==> exists|i: int| 0 <= i < v@.len() && matches(#[trigger] v@[i], c));
                    assert(matches(iv@[0], c) || matches(iv@[1], c) || matches(iv@[2], c) ==> exists|i: int| 0 <= i < iv@.len() && matches(#[trigger] iv@[i], c));
                }
                r
            },
            Matcher::InternalLink => {
                let v = vec![Matcher::Standard];
                let iv = vec![Matcher::Whitespace, Matcher::EOL];
                assert(max_level(v@) == 1) by { reveal_with_fuel(max_level, 3); }
                assert(max_level(iv@) == 0) by { reveal_with_fuel(max_level, 3); }
                let r = validate_bounded(c, &v, &iv, Ghost((bound@ - 1) as nat));
                proof {
                    assert(v@[0] == Matcher::Standard);
                    assert(iv@[0] == Matcher::Whitespace);
                    assert(iv@[1] == Matcher::EOL);
                    assert(matches(v@[0], c) ==> exists|i: int| 0 <= i < v@.len() && matches(#[trigger] v@[i], c));
                    assert(matches(iv@[0], c) || matches(iv@[1], c) ==> exists|i: int| 0 <= i < iv@.len() && matches(#[trigger] iv@[i], c));
                }
                r
            },
        }
    }

    proof fn lemma_standard(&self, c: char, r: bool, v: Seq<Matcher>, iv: Seq<Matcher>)
        requires
            v == seq![Matcher::Alphanumeric, Matcher::Char('-')],
            iv == seq![Matcher::Whitespace, Matcher::EOL],
            r == validate_spec(c, v, iv),
        ensures
            r == matches_standard(c),
    {
        assert(matches(v[0], c) || matches(v[1], c) ==> exists|i: int| 0 <= i < v.len() && matches(#[trigger] v[i], c));
        assert(matches(iv[0], c) || matches(iv[1], c) ==> exists|i: int| 0 <= i < iv.len() && matches(#[trigger] iv[i], c));
    }
}


// ---------------------------------------------------------------------------
// Markup
// ---------------------------------------------------------------------------

/// Opening of a link to an internal page, up to the status icon name.
pub const LINK_OPEN: &'static str = "[<img alt='icon representing the epistemic certainty of the linked page' class='epistemic-icon' src='resources/img/";
/// Between the status icon name and the link title.
pub const LINK_ICON_END: &'static str = "_white.png'/>";
/// Between the link title and the link target.
pub const LINK_TARGET: &'static str = "](";
/// After the link target.
pub const LINK_CLOSE: &'static str = ".html)";
/// Opening of an image tag.
pub const IMG_OPEN: &'static str = "<img src='resources/img/";
/// Closing of an image tag.
pub const IMG_CLOSE: &'static str = "'/>";
/// Opening of a header anchor.
pub const ANCHOR_OPEN: &'static str = " <a name='";
/// Between the anchor name and the header text.
pub const ANCHOR_MID: &'static str = "'>";
/// Closing of a header anchor, with the end of the header line.
pub const ANCHOR_CLOSE: &'static str = "</a>\n";
/// The two backticks and line end that complete an opening code fence.
pub const FENCE_REST: &'static str = "``\n";
/// A closing code fence with its line end.
pub const FENCE: &'static str = "```\n";

/// The status shown for a link: the one recorded for its target, else a seedling.
pub open spec fn status_for(lookup: Map<Seq<char>, EpiStatus>, link: Seq<char>) -> EpiStatus {
    if lookup.contains_key(link) {
        lookup[link]
    } else {
        EpiStatus::Seedling
    }
}

/// The markdown link to an internal page, with the icon of its status.
pub open spec fn link_markup(lookup: Map<Seq<char>, EpiStatus>, title: Seq<char>, link: Seq<char>) -> Seq<char> {
    LINK_OPEN@ + status_name(status_for(lookup, link)) + LINK_ICON_END@ + title + LINK_TARGET@ + link
        + LINK_CLOSE@
}

/// The image tag for an image name.
pub open spec fn img_markup(name: Seq<char>) -> Seq<char> {
    IMG_OPEN@ + name + IMG_CLOSE@
}

/// The anchor name of a header: trimmed, every run of non-word characters
/// turned into `-`, lower-cased.
pub open spec fn anchor_name(content: Seq<char>) -> Seq<char> {
    lowercase_of(replaced_of(NON_WORD_REGEX@, trim_seq(content), "-"@))
}

/// The anchor that follows the `#`s of a header.
pub open spec fn anchor_markup(content: Seq<char>) -> Seq<char> {
    ANCHOR_OPEN@ + anchor_name(content) + ANCHOR_MID@ + content + ANCHOR_CLOSE@
}

/// Writes the markdown link to an internal page, with the icon of the status
/// recorded for the target (a seedling where none is).
pub fn format_md_link_epistemic(epistemic_lookup: &EpiStatusLookup, title: &str, link: &str) -> (res: String)
    ensures
        res@ == link_markup(epistemic_lookup@, title@, link@),
{
    let status = match epistemic_lookup.get(link) {
        Some(s) => s,
        None => EpiStatus::Seedling,
    };
    let mut out = String::new();
    push_str(&mut out, LINK_OPEN);
    let name = status.to_string();
    push_str(&mut out, name.as_str());
    push_str(&mut out, LINK_ICON_END);
    push_str(&mut out, title);
    push_str(&mut out, LINK_TARGET);
    push_str(&mut out, link);
    push_str(&mut out, LINK_CLOSE);
    out
}

// ---------------------------------------------------------------------------
// Scanning
// ---------------------------------------------------------------------------

/// The position where a run of characters passing `m`, starting at `pos`, ends.
pub open spec fn run_end(c: Seq<char>, pos: int, m: Matcher) -> int
    decreases c.len() - pos,
{
    if 0 <= pos < c.len() && matches(m, c[pos]) {
        run_end(c, pos + 1, m)
    } else {
        pos
    }
}

/// The lookahead of `take_if_until` from `pos`: the characters passing `m`
/// and the position after the terminal text that must follow them, or `None`
/// where the terminal does not follow.
pub open spec fn take_until(c: Seq<char>, pos: int, m: Matcher, terminal: Seq<char>) -> Option<(Seq<char>, int)> {
    let j = run_end(c, pos, m);
    if 0 <= pos && terminal.len() > 0 && j + terminal.len() <= c.len() && c.subrange(j, j + terminal.len()) == terminal {
        Some((c.subrange(pos, j), j + terminal.len()))
    } else {
        None
    }
}

/// One step of the conversion at position `p`: what is written for the
/// character there and the position where the scan goes on.
pub open spec fn step(c: Seq<char>, p: int, lookup: Map<Seq<char>, EpiStatus>) -> (Seq<char>, int) {
    let ch = c[p];
    if ch == '{' {
        match take_until(c, p + 1, Matcher::AltTitle, "}[["@) {
            Some((title, q)) => match take_until(c, q, Matcher::InternalLink, "]]"@) {
                Some((link, r)) => (link_markup(lookup, title, link), r),
                None => (seq![ch], p + 1),
            },
            None => (seq![ch], p + 1),
        }
    } else if ch == '[' {
        if p + 1 < c.len() && c[p + 1] == '[' {
            match take_until(c, p + 2, Matcher::InternalLink, "]]"@) {
                Some((link, r)) => (link_markup(lookup, link, link), r),
                None => (seq![ch, ch], p + 2),
            }
        } else {
            (seq![ch], p + 1)
        }
    } else if ch == '&' {
        match take_until(c, p + 1, Matcher::Image, "&"@) {
            Some((name, r)) => (img_markup(name), r),
            None => (seq![ch], p + 1),
        }
    } else if ch == '#' {
        if p >= 1 && c[p - 1] == '\n' {
            let (more, q) = match take_until(c, p + 1, Matcher::Char('#'), " "@) {
                Some((m, q)) => (m, q),
                None => (Seq::empty(), p + 1),
            };
            match take_until(c, q, Matcher::AltTitle, "\n"@) {
                Some((content, r)) => (seq![ch] + more + anchor_markup(content), r),
                None => (seq![ch] + more, q),
            }
        } else {
            (seq![ch], p + 1)
        }
    } else if ch == '`' {
        if p >= 1 && c[p - 1] == '\n' && p + 3 < c.len() && c[p + 1] == '`' && c[p + 2] == '`' && c[p + 3] == '\n' {
            match take_until(c, p + 4, Matcher::CodeFence, FENCE@) {
                Some((text, r)) => (seq![ch] + FENCE_REST@ + text + FENCE@, r),
                None => (seq![ch], p + 1),
            }
        } else {
            (seq![ch], p + 1)
        }
    } else {
        (seq![ch], p + 1)
    }
}

/// What the conversion writes for the characters from position `p` on.
pub open spec fn convert_from(c: Seq<char>, p: int, lookup: Map<Seq<char>, EpiStatus>) -> Seq<char>
    decreases c.len() - p,
{
    if p < 0 || p >= c.len() {
        Seq::empty()
    } else {
        let (out, q) = step(c, p, lookup);
        if p < q < c.len() {
            out + convert_from(c, q, lookup)
        } else {
            out
        }
    }
}

/// The conversion of a whole text.
pub open spec fn converted(text: Seq<char>, lookup: Map<Seq<char>, EpiStatus>) -> Seq<char> {
    convert_from(text, 0, lookup)
}

/// A scanner over a text, writing the converted text as it goes.
pub struct Scanner {
    characters: Vec<char>,
    epistemic_lookup: EpiStatusLookup,
    cursor: usize,
    output: String,
}

impl Scanner {
    /// The characters scanned.
    pub closed spec fn chars(&self) -> Seq<char> {
        self.characters@
    }

    /// The position of the next character to scan.
    pub closed spec fn cursor(&self) -> int {
        self.cursor as int
    }

    /// What has been written so far.
    pub closed spec fn output(&self) -> Seq<char> {
        self.output@
    }

    /// The statuses of the pages that links may point to.
    pub closed spec fn lookup(&self) -> Map<Seq<char>, EpiStatus> {
        self.epistemic_lookup@
    }

    /// The cursor is a position that a `usize` holds.
    pub proof fn lemma_cursor_bounds(&self)
        ensures
            0 <= self.cursor() <= usize::MAX,
    {
    }

    /// A scanner at the start of `string`, with nothing written yet. Without a
    /// table of statuses, every link shows a seedling.
    pub fn new(string: &str, epistemic_lookup: Option<EpiStatusLookup>) -> (res: Self)
        ensures
            res.chars() == string@,
            res.cursor() == 0,
            res.output() == Seq::<char>::empty(),
            res.lookup() == (match epistemic_lookup {
                Some(l) => l@,
                None => Map::<Seq<char>, EpiStatus>::empty(),
            }),
    {
        let lookup = match epistemic_lookup {
            Some(l) => l,
            None => EpiStatusLookup::new(),
        };
        Scanner { cursor: 0, characters: chars_of(string), epistemic_lookup: lookup, output: String::new() }
    }

    fn advance(&mut self)
        requires
            old(self).cursor < old(self).characters.len(),
        ensures
            final(self).cursor == old(self).cursor + 1,
            final(self).characters == old(self).characters,
            final(self).output == old(self).output,
            final(self).epistemic_lookup == old(self).epistemic_lookup,
    {
        self.cursor += 1
    }

    /// The character at the cursor, without moving it.
    fn peek(&self) -> (res: Option<char>)
        ensures
            res == (if self.cursor < self.characters@.len() { Some(self.characters@[self.cursor as int]) } else { None::<char> }),
    {
        self.peek_n(0)
    }

    /// The character `n` places after the cursor, without moving it.
    fn peek_n(&self, n: usize) -> (res: Option<char>)
        ensures
            res == (if self.cursor + n < self.characters@.len() { Some(self.characters@[self.cursor + n]) } else { None::<char> }),
    {
        if self.cursor < self.characters.len() && n < self.characters.len() - self.cursor {
            Some(self.characters[self.cursor + n])
        } else {
            None
        }
    }

    /// The character before the one last taken, without moving the cursor.
    fn peekback(&self) -> (res: Option<char>)
        ensures
            res == (if 2 <= self.cursor && self.cursor - 2 < self.characters@.len() { Some(self.characters@[self.cursor - 2]) } else { None::<char> }),
    {
        if self.cursor < 2 {
            return None;
        }
        if self.cursor - 2 < self.characters.len() {
            Some(self.characters[self.cursor - 2])
        } else {
            None
        }
    }

    /// Takes the character at the cursor, if there is one.
    fn pop(&mut self) -> (res: Option<char>)
        ensures
            final(self).characters == old(self).characters,
            final(self).output == old(self).output,
            final(self).epistemic_lookup == old(self).epistemic_lookup,
            old(self).cursor < old(self).characters@.len() ==> res == Some(old(self).characters@[old(self).cursor as int]) && final(self).cursor == old(self).cursor + 1,
            old(self).cursor >= old(self).characters@.len() ==> res is None && final(self).cursor == old(self).cursor,
    {
        if self.cursor < self.characters.len() {
            let c = self.characters[self.cursor];
            self.cursor += 1;
            Some(c)
        } else {
            None
        }
    }

    /// Takes the character at the cursor if it passes `validator`; otherwise
    /// leaves the cursor where it is.
    fn take_with_validator(&mut self, validator: &Matcher) -> (res: bool)
        ensures
            final(self).characters == old(self).characters,
            final(self).output == old(self).output,
            final(self).epistemic_lookup == old(self).epistemic_lookup,
            res == (old(self).cursor < old(self).characters@.len() && matches(*validator, old(self).characters@[old(self).cursor as int])),
            final(self).cursor == (if res { old(self).cursor + 1 } else { old(self).cursor as int }),
    {
        if self.cursor < self.characters.len() {
            if validator.check(self.characters[self.cursor]) {
                self.cursor += 1;
                true
            } else {
                false
            }
        } else {
            false
        }
    }

    /// Takes the character at the cursor if it is `target`; otherwise leaves
    /// the cursor where it is.
    fn take_char(&mut self, target: char) -> (res: bool)
        ensures
            final(self).characters == old(self).characters,
            final(self).output == old(self).output,
            final(self).epistemic_lookup == old(self).epistemic_lookup,
            res == (old(self).cursor < old(self).characters@.len() && old(self).characters@[old(self).cursor as int] == target),
            final(self).cursor == (if res { old(self).cursor + 1 } else { old(self).cursor as int }),
    {
        self.take_with_validator(&Matcher::Char(target))
    }

    /// Takes the characters that pass `validator` and then the `terminal`
    /// text, returning the characters taken before the terminal. Where the
    /// terminal does not follow, the cursor goes back to where it was.
    pub fn take_if_until(&mut self, validator: &Matcher, terminal: &str) -> (res: Result<String, Error>)
        requires
            terminal@.len() > 0,
        ensures
            final(self).chars() == old(self).chars(),
            final(self).output() == old(self).output(),
            final(self).lookup() == old(self).lookup(),
            match take_until(old(self).chars(), old(self).cursor(), *validator, terminal@) {
                Some((text, q)) => res is Ok && res->Ok_0@ == text && final(self).cursor() == q,
                None => res == Err::<String, Error>(Error::EndOfLine) && final(self).cursor() == old(self).cursor(),
            },
    {
        let ghost c = self.characters@;
        let start_cursor: usize = self.cursor;
        if self.cursor > self.characters.len() {
            return Err(Error::EndOfLine);
        }
        let mut out = String::new();
        let term = chars_of(terminal);
        let first = term[0];
        assert(c.subrange(start_cursor as int, start_cursor as int) =~= Seq::<char>::empty());
        while self.cursor < self.characters.len() && validator.check(self.characters[self.cursor])
            invariant
                self.characters@ == c,
                self.output == old(self).output,
                self.epistemic_lookup == old(self).epistemic_lookup,
                start_cursor == old(self).cursor,
                start_cursor <= self.cursor <= c.len(),
                out@ == c.subrange(start_cursor as int, self.cursor as int),
                run_end(c, start_cursor as int, *validator) == run_end(c, self.cursor as int, *validator),
            decreases c.len() - self.cursor,
        {
            let ch = self.characters[self.cursor];
            self.advance();
            push_char(&mut out, ch);
            assert(c.subrange(start_cursor as int, self.cursor as int) == c.subrange(start_cursor as int, self.cursor - 1).push(ch));
        }
        let ghost j = self.cursor as int;
        assert(run_end(c, j, *validator) == j);
        match self.peek() {
            Some(ch) if ch == first => {
                self.advance();
                let mut i: usize = 1;
                while i < term.len()
                    invariant
                        self.characters@ == c,
                        c == old(self).characters@,
                        start_cursor <= j,
                        run_end(c, start_cursor as int, *validator) == j,
                        out@ == c.subrange(start_cursor as int, j),
                        self.output == old(self).output,
                        self.epistemic_lookup == old(self).epistemic_lookup,
                        start_cursor == old(self).cursor,
                        1 <= i <= term@.len(),
                        term@ == terminal@,
                        self.cursor == j + i,
                        j + i <= c.len(),
                        forall|k: int| 0 <= k < i ==> c[j + k] == term@[k],
                    decreases term@.len() - i,
                {
                    let next = self.pop();
                    let matched = match next {
                        Some(t) => t == term[i],
                        None => false,
                    };
                    if !matched {
                        {
                            self.cursor = start_cursor;
                            assert(!(j + term@.len() <= c.len() && c.subrange(j, j + term@.len()) == term@)) by {
                                if j + term@.len() <= c.len() && c.subrange(j, j + term@.len()) == term@ {
                                    assert(c.subrange(j, j + term@.len())[i as int] == c[j + i]);
                                }
                            }
                            return Err(Error::EndOfLine);
                        }
                    }
                    i += 1;
                }
                assert(c.subrange(j, j + term@.len()) =~= term@);
                Ok(out)
            },
            _ => {
                self.cursor = start_cursor;
                assert(!(j + term@.len() <= c.len() && c.subrange(j, j + term@.len()) == term@)) by {
                    if j + term@.len() <= c.len() && c.subrange(j, j + term@.len()) == term@ {
                        assert(c.subrange(j, j + term@.len())[0] == c[j]);
                    }
                }
                Err(Error::EndOfLine)
            },
        }
    }

    /// The state after one conversion step from `before`, whose last taken
    /// character was the one at `before.cursor - 1`.
    closed spec fn did_step(&self, before: Scanner) -> bool {
        let (o, q) = step(before.characters@, before.cursor - 1, before.epistemic_lookup@);
        &&& self.characters@ == before.characters@
        &&& self.epistemic_lookup@ == before.epistemic_lookup@
        &&& self.output@ == before.output@ + o
        &&& self.cursor == q
    }

    fn handle_left_square_bracket(&mut self, c: char)
        requires
            1 <= old(self).cursor <= old(self).characters@.len(),
            old(self).characters@[old(self).cursor - 1] == c,
            c == '[',
        ensures
            final(self).did_step(*old(self)),
    {
        proof { reveal_strlit("]]"); }
        match self.take_char(c) {
            false => {
                push_char(&mut self.output, c);
                assert(self.output@ =~= old(self).output@ + seq![c]);
            },
            true => {
                match self.take_if_until(&Matcher::InternalLink, "]]") {
                    Ok(val) => {
                        let link = format_md_link_epistemic(&self.epistemic_lookup, val.as_str(), val.as_str());
                        push_str(&mut self.output, link.as_str());
                        assert(self.output@ =~= old(self).output@ + link@);
                    },
                    _ => {
                        push_char(&mut self.output, c);
                        push_char(&mut self.output, c);
                        assert(old(self).output@.push(c).push(c) =~= old(self).output@ + seq![c, c]);
                    },
                }
            },
        }
    }

    fn handle_left_curly_bracket(&mut self, c: char)
        requires
            1 <= old(self).cursor <= old(self).characters@.len(),
            old(self).characters@[old(self).cursor - 1] == c,
            c == '{',
        ensures
            final(self).did_step(*old(self)),
    {
        proof {
            reveal_strlit("]]");
            reveal_strlit("}[[");
        }
        let start_cursor: usize = self.cursor;
        let title_res = self.take_if_until(&Matcher::AltTitle, "}[[");
        let link_res = self.take_if_until(&Matcher::InternalLink, "]]");
        match (title_res, link_res) {
            (Ok(title), Ok(link)) => {
                let s = format_md_link_epistemic(&self.epistemic_lookup, title.as_str(), link.as_str());
                push_str(&mut self.output, s.as_str());
                assert(self.output@ =~= old(self).output@ + s@);
            },
            _ => {
                self.cursor = start_cursor;
                push_char(&mut self.output, c);
                assert(self.output@ =~= old(self).output@ + seq![c]);
            },
        }
    }

    fn handle_ampersand(&mut self, c: char)
        requires
            1 <= old(self).cursor <= old(self).characters@.len(),
            old(self).characters@[old(self).cursor - 1] == c,
            c == '&',
        ensures
            final(self).did_step(*old(self)),
    {
        proof { reveal_strlit("&"); }
        match self.take_if_until(&Matcher::Image, "&") {
            Ok(val) => {
                push_str(&mut self.output, IMG_OPEN);
                push_str(&mut self.output, val.as_str());
                push_str(&mut self.output, IMG_CLOSE);
                assert(self.output@ =~= old(self).output@ + img_markup(val@));
            },
            _ => {
                push_char(&mut self.output, c);
                assert(self.output@ =~= old(self).output@ + seq![c]);
            },
        }
    }

    fn handle_octothrope(&mut self, c: char)
        requires
            1 <= old(self).cursor <= old(self).characters@.len(),
            old(self).characters@[old(self).cursor - 1] == c,
            c == '#',
        ensures
            final(self).did_step(*old(self)),
    {
        proof {
            reveal_strlit(" ");
            reveal_strlit("\n");
        }
        let after_newline = match self.peekback() {
            Some(b) => b == '\n',
            None => false,
        };
        if after_newline {
            push_char(&mut self.output, c);
            let more = self.take_if_until(&Matcher::Char('#'), " ");
            let ghost more_seq: Seq<char> = Seq::empty();
            match more {
                Ok(m) => {
                    push_str(&mut self.output, m.as_str());
                    proof { more_seq = m@; }
                },
                Err(_) => {},
            }
            assert(self.output@ =~= old(self).output@ + (seq![c] + more_seq));
            let ghost mid = self.output@;
            let text = self.take_if_until(&Matcher::AltTitle, "\n");
            match text {
                Ok(content) => {
                    let clean = anchor_name_of(&content);
                    push_str(&mut self.output, ANCHOR_OPEN);
                    push_str(&mut self.output, clean.as_str());
                    push_str(&mut self.output, ANCHOR_MID);
                    push_str(&mut self.output, content.as_str());
                    push_str(&mut self.output, ANCHOR_CLOSE);
                    assert(self.output@ =~= mid + anchor_markup(content@));
                    assert(self.output@ =~= old(self).output@ + (seq![c] + more_seq + anchor_markup(content@)));
                },
                Err(_) => {},
            }
        } else {
            push_char(&mut self.output, c);
            assert(self.output@ =~= old(self).output@ + seq![c]);
        }
    }

    fn handle_backtick(&mut self, c: char)
        requires
            1 <= old(self).cursor <= old(self).characters@.len(),
            old(self).characters@[old(self).cursor - 1] == c,
            c == '`',
        ensures
            final(self).did_step(*old(self)),
    {
        proof { reveal_strlit("```\n"); }
        let start_cursor: usize = self.cursor;
        let after_newline = match self.peekback() {
            Some(b) => b == '\n',
            None => false,
        };
        if after_newline {
            let x = self.peek();
            let y = self.peek_n(1);
            let z = self.peek_n(2);
            let opens = match z {
                Some(zc) => zc == '\n' && x == Some('`') && y == Some('`'),
                None => false,
            };
            if opens {
                assert(self.cursor + 2 < self.characters.len());
                self.cursor = self.cursor + 3;
                match self.take_if_until(&Matcher::CodeFence, FENCE) {
                    Ok(text) => {
                        push_char(&mut self.output, c);
                        push_str(&mut self.output, FENCE_REST);
                        push_str(&mut self.output, text.as_str());
                        push_str(&mut self.output, FENCE);
                        assert(self.output@ =~= old(self).output@ + (seq![c] + FENCE_REST@ + text@ + FENCE@));
                    },
                    _ => {
                        self.cursor = start_cursor;
                        push_char(&mut self.output, c);
                        assert(self.output@ =~= old(self).output@ + seq![c]);
                    },
                }
            } else {
                push_char(&mut self.output, c);
                assert(self.output@ =~= old(self).output@ + seq![c]);
            }
        } else {
            push_char(&mut self.output, c);
            assert(self.output@ =~= old(self).output@ + seq![c]);
        }
    }

    /// Converts the rest of the text and returns everything written, from the
    /// start of the scanner on.
    pub fn convert(&mut self) -> (res: String)
        ensures
            final(self).chars() == old(self).chars(),
            final(self).lookup() == old(self).lookup(),
            res@ == old(self).output() + convert_from(old(self).chars(), old(self).cursor(), old(self).lookup()),
            final(self).output() == res@,
            final(self).cursor() >= old(self).chars().len(),
    {
        let ghost c = self.characters@;
        let ghost lk = self.epistemic_lookup@;
        while self.cursor < self.characters.len()
            invariant
                self.characters@ == c,
                self.epistemic_lookup@ == lk,
                c == old(self).characters@,
                lk == old(self).epistemic_lookup@,
                self.output@ + convert_from(c, self.cursor as int, lk) == old(self).output@ + convert_from(c, old(self).cursor as int, lk),
            decreases usize::MAX - self.cursor,
        {
            let ghost before = *self;
            let ghost p = self.cursor as int;
            match self.pop() {
                Some(ch) => {
                    if ch == '{' {
                        self.handle_left_curly_bracket(ch);
                    } else if ch == '[' {
                        self.handle_left_square_bracket(ch);
                    } else if ch == '&' {
                        self.handle_ampersand(ch);
                    } else if ch == '#' {
                        self.handle_octothrope(ch);
                    } else if ch == '`' {
                        self.handle_backtick(ch);
                    } else {
                        push_char(&mut self.output, ch);
                    }
                    proof {
                        lemma_step_advances(c, p, lk);
                        let (o, q) = step(c, p, lk);
                        assert(self.output@ == before.output@ + o);
                        assert(self.cursor == q);
                        assert(convert_from(c, p, lk) == o + convert_from(c, self.cursor as int, lk));
                    }
                },
                None => {},
            }
        }
        self.output.clone()
    }
}

proof fn lemma_run_end_bounds(c: Seq<char>, pos: int, m: Matcher)
    requires
        0 <= pos,
    ensures
        pos <= run_end(c, pos, m),
        pos <= c.len() ==> run_end(c, pos, m) <= c.len(),
    decreases c.len() - pos,
{
    if 0 <= pos < c.len() && matches(m, c[pos]) {
        lemma_run_end_bounds(c, pos + 1, m);
    }
}

proof fn lemma_take_until_advances(c: Seq<char>, pos: int, m: Matcher, terminal: Seq<char>)
    requires
        0 <= pos,
    ensures
        take_until(c, pos, m, terminal) matches Some((t, q)) ==> pos < q <= c.len() && t.len() == q - pos - terminal.len(),
{
    lemma_run_end_bounds(c, pos, m);
}

/// Every step moves the scan forward.
proof fn lemma_step_advances(c: Seq<char>, p: int, lk: Map<Seq<char>, EpiStatus>)
    requires
        0 <= p < c.len(),
    ensures
        p < step(c, p, lk).1 <= c.len(),
{
    lemma_take_until_advances(c, p + 1, Matcher::AltTitle, "}[["@);
    lemma_take_until_advances(c, p + 2, Matcher::InternalLink, "]]"@);
    lemma_take_until_advances(c, p + 1, Matcher::Image, "&"@);
    lemma_take_until_advances(c, p + 1, Matcher::Char('#'), " "@);
    lemma_take_until_advances(c, p + 4, Matcher::CodeFence, FENCE@);
    match take_until(c, p + 1, Matcher::AltTitle, "}[["@) {
        Some((t, q)) => lemma_take_until_advances(c, q, Matcher::InternalLink, "]]"@),
        None => {},
    }
    match take_until(c, p + 1, Matcher::Char('#'), " "@) {
        Some((t, q)) => lemma_take_until_advances(c, q, Matcher::AltTitle, "\n"@),
        None => lemma_take_until_advances(c, p + 1, Matcher::AltTitle, "\n"@),
    }
}

/// Whether a character starts memex syntax: a brace, a bracket, an
/// ampersand, a hash or a backtick.
pub open spec fn is_syntax_char(c: char) -> bool {
    c == '{' || c == '[' || c == '&' || c == '#' || c == '`'
}

proof fn lemma_plain_from(text: Seq<char>, p: int, lookup: Map<Seq<char>, EpiStatus>)
    requires
        0 <= p <= text.len(),
        forall|i: int| 0 <= i < text.len() ==> !is_syntax_char(#[trigger] text[i]),
    ensures
        convert_from(text, p, lookup) == text.skip(p),
    decreases text.len() - p,
{
    if p < text.len() {
        assert(!is_syntax_char(text[p]));
        lemma_plain_from(text, p + 1, lookup);
        assert(text.skip(p) =~= seq![text[p]] + text.skip(p + 1));
    } else {
        assert(text.skip(p) =~= Seq::<char>::empty());
    }
}

/// A text without memex syntax characters comes out of the conversion as it
/// went in, whatever the statuses of the pages.
pub proof fn lemma_plain_text_unchanged(text: Seq<char>, lookup: Map<Seq<char>, EpiStatus>)
    requires
        forall|i: int| 0 <= i < text.len() ==> !is_syntax_char(#[trigger] text[i]),
    ensures
        converted(text, lookup) == text,
{
    lemma_plain_from(text, 0, lookup);
    assert(text.skip(0) =~= text);
}

/// A run of characters that all pass `m` and is followed by one that does
/// not (or by the end of the text) ends where that character stands.
proof fn lemma_run_end_at(c: Seq<char>, pos: int, end: int, m: Matcher)
    requires
        0 <= pos <= end <= c.len(),
        forall|i: int| pos <= i < end ==> matches(m, #[trigger] c[i]),
        end == c.len() || !matches(m, c[end]),
    ensures
        run_end(c, pos, m) == end,
    decreases end - pos,
{
    if pos < end {
        lemma_run_end_at(c, pos + 1, end, m);
    }
}

/// The closing brackets of an internal link are no part of its id.
proof fn lemma_bracket_ends_link()
    ensures
        !matches(Matcher::InternalLink, ']'),
        !matches(Matcher::AltTitle, '}'),
{
    assert((']' as u32) < 128);
}

/// An internal link `[[id]]` at position `p` becomes the markdown link to the
/// page `id`, titled `id`, with the icon of the status that the table gives
/// `id` (a seedling where it gives none); the conversion goes on after the
/// closing brackets.
pub proof fn lemma_link_converted(c: Seq<char>, p: int, id: Seq<char>, lookup: Map<Seq<char>, EpiStatus>)
    requires
        0 <= p,
        p + id.len() + 4 <= c.len(),
        c.subrange(p, p + id.len() + 4) == seq!['[', '['] + id + seq![']', ']'],
        forall|i: int| 0 <= i < id.len() ==> matches(Matcher::InternalLink, #[trigger] id[i]),
    ensures
        lookup.contains_key(id) ==> convert_from(c, p, lookup) == LINK_OPEN@ + status_name(lookup[id]) + LINK_ICON_END@ + id
            + LINK_TARGET@ + id + LINK_CLOSE@ + convert_from(c, p + id.len() + 4, lookup),
        !lookup.contains_key(id) ==> convert_from(c, p, lookup) == LINK_OPEN@ + status_name(EpiStatus::Seedling)
            + LINK_ICON_END@ + id + LINK_TARGET@ + id + LINK_CLOSE@ + convert_from(c, p + id.len() + 4, lookup),
{
    let n = id.len() as int;
    let w = seq!['[', '['] + id + seq![']', ']'];
    assert forall|i: int| 0 <= i < w.len() implies c[p + i] == #[trigger] w[i] by {
        assert(c.subrange(p, p + n + 4)[i] == c[p + i]);
    }
    assert(c[p] == w[0]);
    assert(c[p + 1] == w[1]);
    assert forall|i: int| p + 2 <= i < p + 2 + n implies matches(Matcher::InternalLink, #[trigger] c[i]) by {
        assert(w[i - p] == id[i - p - 2]);
        assert(c[p + (i - p)] == w[i - p]);
    }
    assert(c[p + 2 + n] == w[n + 2]);
    lemma_bracket_ends_link();
    lemma_run_end_at(c, p + 2, p + 2 + n, Matcher::InternalLink);
    reveal_strlit("]]");
    assert(c.subrange(p + 2 + n, p + 4 + n) =~= "]]"@) by {
        assert(c[p + 3 + n] == w[n + 3]);
    }
    assert(c.subrange(p + 2, p + 2 + n) =~= id) by {
        assert forall|i: int| 0 <= i < n implies c.subrange(p + 2, p + 2 + n)[i] == id[i] by {
            assert(c[p + (i + 2)] == w[i + 2]);
        }
    }
    assert(take_until(c, p + 2, Matcher::InternalLink, "]]"@) == Some((id, p + 4 + n)));
    assert(step(c, p, lookup) == (link_markup(lookup, id, id), p + 4 + n));
}

/// A titled link `{title}[[id]]` at position `p` becomes the markdown link to
/// the page `id`, titled `title`, with the icon of the status that the table
/// gives `id`; the conversion goes on after the closing brackets.
pub proof fn lemma_titled_link_converted(
    c: Seq<char>,
    p: int,
    title: Seq<char>,
    id: Seq<char>,
    lookup: Map<Seq<char>, EpiStatus>,
)
    requires
        0 <= p,
        p + title.len() + id.len() + 6 <= c.len(),
        c.subrange(p, p + title.len() + id.len() + 6) == seq!['{'] + title + seq!['}', '[', '['] + id + seq![']', ']'],
        forall|i: int| 0 <= i < title.len() ==> matches(Matcher::AltTitle, #[trigger] title[i]),
        forall|i: int| 0 <= i < id.len() ==> matches(Matcher::InternalLink, #[trigger] id[i]),
    ensures
        lookup.contains_key(id) ==> convert_from(c, p, lookup) == LINK_OPEN@ + status_name(lookup[id]) + LINK_ICON_END@ + title
            + LINK_TARGET@ + id + LINK_CLOSE@ + convert_from(c, p + title.len() + id.len() + 6, lookup),
        !lookup.contains_key(id) ==> convert_from(c, p, lookup) == LINK_OPEN@ + status_name(EpiStatus::Seedling)
            + LINK_ICON_END@ + title + LINK_TARGET@ + id + LINK_CLOSE@ + convert_from(c, p + title.len() + id.len() + 6, lookup),
{
    let t = title.len() as int;
    let n = id.len() as int;
    let w = seq!['{'] + title + seq!['}', '[', '['] + id + seq![']', ']'];
    assert forall|i: int| 0 <= i < w.len() implies c[p + i] == #[trigger] w[i] by {
        assert(c.subrange(p, p + t + n + 6)[i] == c[p + i]);
    }
    assert(c[p] == w[0]);
    assert forall|i: int| p + 1 <= i < p + 1 + t implies matches(Matcher::AltTitle, #[trigger] c[i]) by {
        assert(w[i - p] == title[i - p - 1]);
        assert(c[p + (i - p)] == w[i - p]);
    }
    assert(c[p + 1 + t] == w[t + 1]);
    lemma_bracket_ends_link();
    lemma_run_end_at(c, p + 1, p + 1 + t, Matcher::AltTitle);
    reveal_strlit("}[[");
    assert(c.subrange(p + 1 + t, p + 4 + t) =~= "}[["@) by {
        assert(c[p + (t + 2)] == w[t + 2]);
        assert(c[p + (t + 3)] == w[t + 3]);
    }
    assert(c.subrange(p + 1, p + 1 + t) =~= title) by {
        assert forall|i: int| 0 <= i < t implies c.subrange(p + 1, p + 1 + t)[i] == title[i] by {
            assert(c[p + (i + 1)] == w[i + 1]);
        }
    }
    assert(take_until(c, p + 1, Matcher::AltTitle, "}[["@) == Some((title, p + 4 + t)));
    let q = p + 4 + t;
    assert forall|i: int| q <= i < q + n implies matches(Matcher::InternalLink, #[trigger] c[i]) by {
        assert(w[i - p] == id[i - q]);
        assert(c[p + (i - p)] == w[i - p]);
    }
    assert(c[q + n] == w[t + n + 4]);
    lemma_run_end_at(c, q, q + n, Matcher::InternalLink);
    reveal_strlit("]]");
    assert(c.subrange(q + n, q + n + 2) =~= "]]"@) by {
        assert(c[p + (t + n + 5)] == w[t + n + 5]);
    }
    assert(c.subrange(q, q + n) =~= id) by {
        assert forall|i: int| 0 <= i < n implies c.subrange(q, q + n)[i] == id[i] by {
            assert(c[p + (t + 4 + i)] == w[t + 4 + i]);
        }
    }
    assert(take_until(c, q, Matcher::InternalLink, "]]"@) == Some((id, q + n + 2)));
    assert(step(c, p, lookup) == (link_markup(lookup, title, id), q + n + 2));
}

/// A text that is one internal link `[[id]]` converts to the link with the
/// icon of the status recorded for `id`, the same link that `{id}[[id]]`
/// converts to.
pub proof fn lemma_link_text_converted(id: Seq<char>, lookup: Map<Seq<char>, EpiStatus>)
    requires
        lookup.contains_key(id),
        forall|i: int| 0 <= i < id.len() ==> matches(Matcher::InternalLink, #[trigger] id[i]),
    ensures
        converted(seq!['[', '['] + id + seq![']', ']'], lookup) == LINK_OPEN@ + status_name(lookup[id]) + LINK_ICON_END@ + id
            + LINK_TARGET@ + id + LINK_CLOSE@,
        converted(seq!['{'] + id + seq!['}', '[', '['] + id + seq![']', ']'], lookup) == converted(
            seq!['[', '['] + id + seq![']', ']'],
            lookup,
        ),
{
    let plain = seq!['[', '['] + id + seq![']', ']'];
    let titled = seq!['{'] + id + seq!['}', '[', '['] + id + seq![']', ']'];
    assert(plain.subrange(0, plain.len() as int) =~= plain);
    assert(titled.subrange(0, titled.len() as int) =~= titled);
    assert forall|i: int| 0 <= i < id.len() implies matches(Matcher::AltTitle, #[trigger] id[i]) by {
        assert(matches(Matcher::InternalLink, id[i]));
    }
    lemma_link_converted(plain, 0, id, lookup);
    lemma_titled_link_converted(titled, 0, id, id, lookup);
    assert(convert_from(plain, plain.len() as int, lookup) =~= Seq::<char>::empty());
    assert(convert_from(titled, titled.len() as int, lookup) =~= Seq::<char>::empty());
}

/// The anchor name of a header text.
fn anchor_name_of(content: &String) -> (res: String)
    ensures
        res@ == anchor_name(content@),
{
    let cs = chars_of(content.as_str());
    let t = trim(&cs);
    let ts = string_of(&t);
    let r = replace_pattern(NON_WORD_REGEX, ts.as_str(), "-");
    to_lowercase(r.as_str())
}

} // verus!
