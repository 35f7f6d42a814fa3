//! Headings: what one heading line says.
//!
//! A heading line starts with a run of `*`. The length of the run is the
//! heading's level. The second whitespace-delimited word of the line may be a
//! workflow keyword; the rest of the line is the title.

use vstd::prelude::*;
use vstd::string::*;
use crate::error::ParseError;
use crate::text::{
    chars_of, lead, lemma_lead_bounds, next_token, scan_lead, string_of, texts_of, tokens,
    trim_start, CharClass,
};

verus! {

/// The character that marks a heading; a heading's level is the number of
/// markers that its line starts with.
pub const MARKER: char = '*';

/// What a `Header` holds, as mathematical values.
pub struct HeaderModel {
    /// Number of markers that the heading line starts with.
    pub level: nat,
    /// The heading's text, without markers and workflow keyword.
    pub title: Seq<char>,
    /// The body lines that follow the heading, in order.
    pub text: Seq<Seq<char>>,
    /// The heading's workflow keyword, if it has one.
    pub state: Option<Seq<char>>,
}

/// One heading with the body text that follows it.
#[derive(Debug)]
pub struct Header {
    level: usize,
    title: String,
    text: Vec<String>,
    state: Option<String>,
}

/// A heading with one more line of body text.
pub open spec fn with_text(head: HeaderModel, line: Seq<char>) -> HeaderModel {
    HeaderModel { text: head.text.push(line), ..head }
}

/// The characters of an optional string.
pub open spec fn opt_text(s: Option<String>) -> Option<Seq<char>> {
    match s {
        Some(s) => Some(s@),
        None => None,
    }
}

/// The keywords of an optional keyword list.
pub open spec fn opt_keywords(k: Option<&Vec<String>>) -> Option<Seq<Seq<char>>> {
    match k {
        Some(k) => Some(texts_of(k@)),
        None => None,
    }
}

impl View for Header {
    type V = HeaderModel;

    closed spec fn view(&self) -> HeaderModel {
        HeaderModel {
            level: self.level as nat,
            title: self.title@,
            text: texts_of(self.text@),
            state: opt_text(self.state),
        }
    }
}

impl Header {
    /// A heading without body text.
    pub fn new(level: usize, title: String, state: Option<String>) -> (h: Header)
        ensures
            h@ == (HeaderModel {
                level: level as nat,
                title: title@,
                text: Seq::empty(),
                state: opt_text(state),
            }),
    {
        let h = Header { level, title, text: Vec::new(), state };
        assert(texts_of(h.text@) == Seq::<Seq<char>>::empty());
        h
    }

    /// Number of markers that the heading line started with.
    pub fn level(&self) -> (l: usize)
        ensures
            l == self@.level,
    {
        self.level
    }

    /// The heading's text, without markers and workflow keyword.
    pub fn title(&self) -> (t: &String)
        ensures
            t@ == self@.title,
    {
        &self.title
    }

    /// The body lines that follow the heading.
    pub fn text(&self) -> (t: &Vec<String>)
        ensures
            texts_of(t@) == self@.text,
    {
        &self.text
    }

    /// The heading's workflow keyword, if it has one.
    pub fn state(&self) -> (s: &Option<String>)
        ensures
            opt_text(*s) == self@.state,
    {
        &self.state
    }

    /// Appends one line to the body text.
    pub fn push_text(&mut self, line: String)
        ensures
            final(self)@ == with_text(old(self)@, line@),
    {
        self.text.push(line);
        assert(texts_of(self.text@) == texts_of(old(self).text@).push(line@));
    }
}

/// Whether a line is a heading line: whether it starts with a marker.
pub open spec fn is_heading(line: Seq<char>) -> bool {
    line.len() > 0 && line[0] == MARKER
}

/// The level of a line: the number of markers that it starts with.
pub open spec fn level_of(line: Seq<char>) -> nat {
    lead(line, CharClass::Only(MARKER))
}

/// What follows the first `level` characters of a line, without leading
/// whitespace. Empty if the line has fewer characters.
pub open spec fn after_markers(line: Seq<char>, level: nat) -> Seq<char> {
    if level <= line.len() {
        trim_start(line.skip(level as int))
    } else {
        Seq::empty()
    }
}

/// The word that may be a workflow keyword: the second of the line's words,
/// where words are separated by ASCII whitespace.
pub open spec fn candidate(line: Seq<char>) -> Option<Seq<char>> {
    let words = tokens(line, CharClass::AsciiWhitespace);
    if words.len() >= 2 {
        Some(words[1])
    } else {
        None
    }
}

/// Whether `word` is one of the configured keywords.
pub open spec fn is_keyword(keywords: Option<Seq<Seq<char>>>, word: Seq<char>) -> bool {
    keywords is Some && keywords->0.contains(word)
}

/// The workflow keyword of a heading line: its candidate word, if that is
/// one of the configured in-progress or completed keywords.
pub open spec fn state_of(
    line: Seq<char>,
    todo: Option<Seq<Seq<char>>>,
    done: Option<Seq<Seq<char>>>,
) -> Option<Seq<char>> {
    match candidate(line) {
        Some(word) => if is_keyword(todo, word) || is_keyword(done, word) {
            Some(word)
        } else {
            None
        },
        None => None,
    }
}

/// The title of a heading line with the given level and workflow keyword:
/// what follows the markers, without leading whitespace, and without as many
/// characters as the keyword has and one more. Empty if no more than the
/// keyword's length is left.
pub open spec fn title_of(line: Seq<char>, level: nat, state: Option<Seq<char>>) -> Seq<char> {
    let rest = after_markers(line, level);
    match state {
        None => rest,
        Some(keyword) => if rest.len() > keyword.len() {
            rest.skip(keyword.len() as int + 1)
        } else {
            Seq::empty()
        },
    }
}

/// Whether nothing but whitespace follows the markers of a line.
pub open spec fn missing_title(line: Seq<char>) -> bool {
    after_markers(line, level_of(line)).len() == 0
}

/// The heading that a heading line describes, without body text.
pub open spec fn header_of(
    line: Seq<char>,
    todo: Option<Seq<Seq<char>>>,
    done: Option<Seq<Seq<char>>>,
) -> HeaderModel {
    let state = state_of(line, todo, done);
    HeaderModel {
        level: level_of(line),
        title: title_of(line, level_of(line), state),
        text: Seq::empty(),
        state,
    }
}

/// What classifying a heading line gives: an error if the line has no title,
/// else its heading.
pub open spec fn classified(
    line: Seq<char>,
    todo: Option<Seq<Seq<char>>>,
    done: Option<Seq<Seq<char>>>,
    r: Result<HeaderModel, ParseError>,
) -> bool {
    if missing_title(line) {
        r == Err::<HeaderModel, ParseError>(ParseError::MissingTitle)
    } else {
        r == Ok::<HeaderModel, ParseError>(header_of(line, todo, done))
    }
}

/// A heading line starts with at least one marker.
pub proof fn lemma_heading_level(line: Seq<char>)
    requires
        is_heading(line),
    ensures
        1 <= level_of(line) <= line.len(),
{
    lemma_lead_bounds(line, CharClass::Only(MARKER));
}

/// Tests whether a line is a heading line.
pub(crate) fn starts_heading(line: &Vec<char>) -> (b: bool)
    ensures
        b == is_heading(line@),
{
    line.len() > 0 && line[0] == MARKER
}

/// Counts the markers that a line starts with.
pub(crate) fn level_in(line: &Vec<char>) -> (level: usize)
    ensures
        level == level_of(line@),
{
    assert(line@.skip(0) == line@);
    scan_lead(line, 0, CharClass::Only(MARKER))
}

/// Looks `word` up in a keyword list and returns a copy of the keyword
/// found.
pub(crate) fn find_keyword(keywords: Option<&Vec<String>>, word: &String) -> (r: Option<String>)
    ensures
        r is Some == is_keyword(opt_keywords(keywords), word@),
        r is Some ==> r->0@ == word@,
{
    match keywords {
        None => None,
        Some(list) => {
            let mut i: usize = 0;
            while i < list.len()
                invariant
                    i <= list.len(),
                    keywords == Some(list),
                    forall|j: int| 0 <= j < i ==> texts_of(list@)[j] != word@,
                decreases list.len() - i,
            {
                if list[i] == *word {
                    assert(texts_of(list@)[i as int] == word@);
                    assert(texts_of(list@).contains(word@));
                    return Some(list[i].clone());
                }
                i += 1;
            }
            None
        },
    }
}

/// Determines the workflow keyword of a heading line.
pub(crate) fn state_in(
    line: &Vec<char>,
    states: (Option<&Vec<String>>, Option<&Vec<String>>),
) -> (r: Option<String>)
    ensures
        opt_text(r) == state_of(line@, opt_keywords(states.0), opt_keywords(states.1)),
{
    assert(line@.skip(0) == line@);
    let first = next_token(line, 0, CharClass::AsciiWhitespace);
    let second = match first {
        None => None,
        Some((_, end)) => next_token(line, end, CharClass::AsciiWhitespace),
    };
    match second {
        None => None,
        Some((start, end)) => {
            let word = string_of(line, start, end);
            assert(candidate(line@) == Some(word@));
            match find_keyword(states.0, &word) {
                Some(keyword) => Some(keyword),
                None => find_keyword(states.1, &word),
            }
        },
    }
}

/// Extracts the title of a heading line, given its level and its workflow
/// keyword.
pub(crate) fn title_in(line: &Vec<char>, header_level: usize, state: &Option<String>) -> (title:
    String)
    ensures
        title@ == title_of(line@, header_level as nat, opt_text(*state)),
{
    if header_level > line.len() {
        return String::new();
    }
    let start = scan_lead(line, header_level, CharClass::Whitespace);
    let ghost rest = after_markers(line@, header_level as nat);
    assert(rest == line@.skip(start as int));
    match state {
        None => {
            assert(line@.subrange(start as int, line.len() as int) == rest);
            string_of(line, start, line.len())
        },
        Some(keyword) => {
            let skipped = chars_of(keyword.as_str()).len();
            if line.len() - start > skipped {
                assert(rest.skip(skipped + 1) == line@.subrange(
                    start + skipped + 1,
                    line.len() as int,
                ));
                string_of(line, start + skipped + 1, line.len())
            } else {
                String::new()
            }
        },
    }
}

/// Classifies a heading line: its level, its workflow keyword and its title.
pub(crate) fn classify(
    line: &Vec<char>,
    states: (Option<&Vec<String>>, Option<&Vec<String>>),
) -> (r: Result<Header, ParseError>)
    ensures
        classified(
            line@,
            opt_keywords(states.0),
            opt_keywords(states.1),
            match r {
                Ok(h) => Ok(h@),
                Err(e) => Err(e),
            },
        ),
{
    let level = level_in(line);
    proof {
        lemma_lead_bounds(line@, CharClass::Only(MARKER));
    }
    let start = scan_lead(line, level, CharClass::Whitespace);
    if start >= line.len() {
        return Err(ParseError::MissingTitle);
    }
    let state = state_in(line, states);
    let title = title_in(line, level, &state);
    Ok(Header::new(level, title, state))
}

} // verus!
