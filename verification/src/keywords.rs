//! Workflow keywords: the directive lines that configure them.
//!
//! A document may start with directive lines such as
//! `#+TODO: TODO(t) NEXT(n) | DONE(d)`. The words before the `|` are the
//! in-progress keywords, the words after it the completed keywords. A word
//! may end in a shortcut in parentheses, which is not part of the keyword.

use vstd::prelude::*;
use vstd::string::*;
use crate::text::{
    scan_until, split_tokens, string_of, texts_of, tokens, until, CharClass,
    seqs_of,
};

verus! {

/// One keyword list of a directive line.
#[allow(non_camel_case_types)]
#[derive(Debug, PartialEq)]
pub enum SEQ_STATES {
    /// The in-progress keywords.
    TODO(Vec<String>),
    /// The completed keywords.
    DONE(Vec<String>),
}

/// A document-level setting.
#[allow(non_camel_case_types)]
#[derive(Debug, PartialEq)]
pub enum Options {
    /// The keyword lists of all directive lines, in order: for each line its
    /// in-progress keywords, then its completed keywords.
    SEQ_TODO(Vec<SEQ_STATES>),
}

/// What a `SEQ_STATES` holds, as mathematical values.
pub enum StatesModel {
    /// In-progress keywords.
    Todo(Seq<Seq<char>>),
    /// Completed keywords.
    Done(Seq<Seq<char>>),
}

/// What an `Options` holds, as mathematical values.
pub enum OptionsModel {
    /// Keyword lists.
    SeqTodo(Seq<StatesModel>),
}

impl View for SEQ_STATES {
    type V = StatesModel;

    open spec fn view(&self) -> StatesModel {
        match self {
            SEQ_STATES::TODO(keywords) => StatesModel::Todo(texts_of(keywords@)),
            SEQ_STATES::DONE(keywords) => StatesModel::Done(texts_of(keywords@)),
        }
    }
}

/// What a vector of keyword lists holds.
pub open spec fn states_of(v: Seq<SEQ_STATES>) -> Seq<StatesModel> {
    Seq::new(v.len(), |i: int| v[i]@)
}

impl View for Options {
    type V = OptionsModel;

    open spec fn view(&self) -> OptionsModel {
        match self {
            Options::SEQ_TODO(states) => OptionsModel::SeqTodo(states_of(states@)),
        }
    }
}

/// What a vector of settings holds.
pub open spec fn options_of(v: Seq<Options>) -> Seq<OptionsModel> {
    Seq::new(v.len(), |i: int| v[i]@)
}

/// The first spelling of the directive.
pub open spec fn short_marker() -> Seq<char> {
    seq!['#', '+', 'T', 'O', 'D', 'O']
}

/// The second spelling of the directive.
pub open spec fn long_marker() -> Seq<char> {
    seq!['#', '+', 'S', 'E', 'Q', '_', 'T', 'O', 'D', 'O']
}

/// Whether a line is a directive line: whether it starts with one of the two
/// spellings of the directive.
pub open spec fn is_directive(line: Seq<char>) -> bool {
    short_marker().is_prefix_of(line) || long_marker().is_prefix_of(line)
}

/// Whether a line holds the `:` that separates a directive from its value.
pub open spec fn has_separator(line: Seq<char>) -> bool {
    until(line, CharClass::Only(':')) < line.len()
}

/// The value of a directive line: everything after its first `:`.
pub open spec fn value_of(line: Seq<char>) -> Seq<char> {
    line.skip(until(line, CharClass::Only(':')) as int + 1)
}

/// The word that separates in-progress from completed keywords.
pub open spec fn pipe() -> Seq<char> {
    seq!['|']
}

/// The number of words before the first `|` word; the number of all words
/// if none is `|`.
pub open spec fn until_pipe(words: Seq<Seq<char>>) -> nat
    decreases words.len(),
{
    if words.len() > 0 && words[0] != pipe() {
        1 + until_pipe(words.drop_first())
    } else {
        0
    }
}

/// A word without its shortcut: if the word holds both `(` and `)`, what
/// stands before its first `(`; else the word itself.
pub open spec fn strip_shortcut(word: Seq<char>) -> Seq<char> {
    if until(word, CharClass::Only('(')) < word.len() && until(word, CharClass::Only(')'))
        < word.len() {
        word.take(until(word, CharClass::Only('(')) as int)
    } else {
        word
    }
}

/// The keywords among some words: every word but `|`, without its shortcut.
pub open spec fn keywords_in(words: Seq<Seq<char>>) -> Seq<Seq<char>>
    decreases words.len(),
{
    if words.len() == 0 {
        Seq::empty()
    } else {
        let before = keywords_in(words.drop_last());
        if words.last() == pipe() {
            before
        } else {
            before.push(strip_shortcut(words.last()))
        }
    }
}

/// The words of a directive line: the runs of its value that hold no ASCII
/// whitespace.
pub open spec fn words_of(line: Seq<char>) -> Seq<Seq<char>> {
    tokens(value_of(line), CharClass::AsciiWhitespace)
}

/// The in-progress keywords of a directive line: those before its first `|`.
pub open spec fn todo_keywords(line: Seq<char>) -> Seq<Seq<char>> {
    let words = words_of(line);
    keywords_in(words.take(until_pipe(words) as int))
}

/// The completed keywords of a directive line: those after its first `|`.
pub open spec fn done_keywords(line: Seq<char>) -> Seq<Seq<char>> {
    let words = words_of(line);
    keywords_in(words.skip(until_pipe(words) as int))
}

/// The number of directive lines that a document starts with.
pub open spec fn directives(lines: Seq<Seq<char>>) -> nat
    decreases lines.len(),
{
    if lines.len() > 0 && is_directive(lines[0]) {
        1 + directives(lines.drop_first())
    } else {
        0
    }
}

/// Whether one of the directive lines that a document starts with lacks its
/// separator.
pub open spec fn malformed(lines: Seq<Seq<char>>) -> bool {
    exists|i: int| 0 <= i < directives(lines) && !has_separator(#[trigger] lines[i])
}

/// The keyword lists of the first `count` lines: two for each line, first
/// its in-progress and then its completed keywords.
pub open spec fn sets_upto(lines: Seq<Seq<char>>, count: nat) -> Seq<StatesModel> {
    Seq::new(
        2 * count,
        |k: int|
            if k % 2 == 0 {
                StatesModel::Todo(todo_keywords(lines[k / 2]))
            } else {
                StatesModel::Done(done_keywords(lines[k / 2]))
            },
    )
}

/// The keyword lists of a document: those of the directive lines that it
/// starts with.
pub open spec fn keyword_sets(lines: Seq<Seq<char>>) -> Seq<StatesModel> {
    sets_upto(lines, directives(lines))
}

/// The settings of a document: one setting, which holds the keyword lists
/// of the directive lines that the document starts with.
pub open spec fn settings_of(lines: Seq<Seq<char>>) -> Seq<OptionsModel> {
    seq![OptionsModel::SeqTodo(keyword_sets(lines))]
}

/// The in-progress keywords by which headings are classified: those of the
/// last of the directive lines that the document starts with.
pub open spec fn active_todo(lines: Seq<Seq<char>>) -> Option<Seq<Seq<char>>> {
    if directives(lines) == 0 {
        None
    } else {
        Some(todo_keywords(lines[directives(lines) - 1]))
    }
}

/// The completed keywords by which headings are classified: those of the
/// last of the directive lines that the document starts with.
pub open spec fn active_done(lines: Seq<Seq<char>>) -> Option<Seq<Seq<char>>> {
    if directives(lines) == 0 {
        None
    } else {
        Some(done_keywords(lines[directives(lines) - 1]))
    }
}

/// The last in-progress keyword list among `sets`.
pub open spec fn last_todo(sets: Seq<StatesModel>) -> Option<Seq<Seq<char>>>
    decreases sets.len(),
{
    if sets.len() == 0 {
        None
    } else {
        match sets.last() {
            StatesModel::Todo(keywords) => Some(keywords),
            StatesModel::Done(_) => last_todo(sets.drop_last()),
        }
    }
}

/// The last completed keyword list among `sets`.
pub open spec fn last_done(sets: Seq<StatesModel>) -> Option<Seq<Seq<char>>>
    decreases sets.len(),
{
    if sets.len() == 0 {
        None
    } else {
        match sets.last() {
            StatesModel::Done(keywords) => Some(keywords),
            StatesModel::Todo(_) => last_done(sets.drop_last()),
        }
    }
}

/// The last in-progress keyword list of all settings.
pub open spec fn todo_in(options: Seq<OptionsModel>) -> Option<Seq<Seq<char>>>
    decreases options.len(),
{
    if options.len() == 0 {
        None
    } else {
        match last_todo(options.last()->SeqTodo_0) {
            Some(keywords) => Some(keywords),
            None => todo_in(options.drop_last()),
        }
    }
}

/// The last completed keyword list of all settings.
pub open spec fn done_in(options: Seq<OptionsModel>) -> Option<Seq<Seq<char>>>
    decreases options.len(),
{
    if options.len() == 0 {
        None
    } else {
        match last_done(options.last()->SeqTodo_0) {
            Some(keywords) => Some(keywords),
            None => done_in(options.drop_last()),
        }
    }
}

/// A count of leading words that is maximal without `|` is `until_pipe`.
pub proof fn lemma_until_pipe_is(words: Seq<Seq<char>>, n: int)
    requires
        0 <= n <= words.len(),
        forall|i: int| 0 <= i < n ==> #[trigger] words[i] != pipe(),
        n < words.len() ==> words[n] == pipe(),
    ensures
        until_pipe(words) == n,
    decreases n,
{
    if n > 0 {
        lemma_until_pipe_is(words.drop_first(), n - 1);
    }
}

/// A count of leading directive lines that is maximal is `directives`.
pub proof fn lemma_directives_is(lines: Seq<Seq<char>>, n: int)
    requires
        0 <= n <= lines.len(),
        forall|i: int| 0 <= i < n ==> is_directive(#[trigger] lines[i]),
        n < lines.len() ==> !is_directive(lines[n]),
    ensures
        directives(lines) == n,
    decreases n,
{
    if n > 0 {
        lemma_directives_is(lines.drop_first(), n - 1);
    }
}

/// Headings are classified by the keyword lists of the last directive line:
/// later directive lines shadow earlier ones.
pub proof fn lemma_last_directive_counts(lines: Seq<Seq<char>>)
    ensures
        todo_in(settings_of(lines)) == active_todo(lines),
        done_in(settings_of(lines)) == active_done(lines),
{
    reveal_with_fuel(todo_in, 2);
    reveal_with_fuel(done_in, 2);
    reveal_with_fuel(last_todo, 3);
    reveal_with_fuel(last_done, 3);
    let sets = keyword_sets(lines);
    let d = directives(lines) as int;
    assert(settings_of(lines).drop_last() =~= Seq::<OptionsModel>::empty());
    assert(settings_of(lines).last() == OptionsModel::SeqTodo(sets));
    if d > 0 {
        let k = 2 * d - 1;
        assert(k % 2 == 1 && k / 2 == d - 1);
        assert((k - 1) % 2 == 0 && (k - 1) / 2 == d - 1);
        assert(sets.last() == sets[k]);
        assert(sets.drop_last().last() == sets[k - 1]);
    }
}

/// No more lines are counted as leading directive lines than lead the
/// document as such.
pub proof fn lemma_directives_bound(lines: Seq<Seq<char>>, n: int)
    requires
        0 <= n < lines.len(),
        forall|i: int| 0 <= i <= n ==> is_directive(#[trigger] lines[i]),
    ensures
        directives(lines) > n,
    decreases n,
{
    if n > 0 {
        let rest = lines.drop_first();
        assert forall|i: int| 0 <= i <= n - 1 implies is_directive(#[trigger] rest[i]) by {
            assert(rest[i] == lines[i + 1]);
        }
        lemma_directives_bound(rest, n - 1);
    } else {
        assert(is_directive(lines[0]));
    }
}

/// Tests whether `line` starts with the characters of `marker`.
pub(crate) fn starts_with(line: &Vec<char>, marker: &Vec<char>) -> (b: bool)
    ensures
        b == marker@.is_prefix_of(line@),
{
    if marker.len() > line.len() {
        return false;
    }
    let mut i: usize = 0;
    while i < marker.len()
        invariant
            i <= marker.len() <= line.len(),
            forall|j: int| 0 <= j < i ==> line@[j] == marker@[j],
        decreases marker.len() - i,
    {
        if line[i] != marker[i] {
            assert(line@.subrange(0, marker@.len() as int)[i as int] != marker@[i as int]);
            return false;
        }
        i += 1;
    }
    assert(line@.subrange(0, marker@.len() as int) =~= marker@);
    true
}

/// Tests whether a line is a directive line.
pub(crate) fn starts_directive(line: &Vec<char>) -> (b: bool)
    ensures
        b == is_directive(line@),
{
    let short: Vec<char> = vec!['#', '+', 'T', 'O', 'D', 'O'];
    let long: Vec<char> = vec!['#', '+', 'S', 'E', 'Q', '_', 'T', 'O', 'D', 'O'];
    assert(short@ =~= short_marker());
    assert(long@ =~= long_marker());
    starts_with(line, &short) || starts_with(line, &long)
}

/// Tests whether a word is the `|` that separates the two keyword lists.
pub(crate) fn is_pipe(word: &Vec<char>) -> (b: bool)
    ensures
        b == (word@ == pipe()),
{
    if word.len() == 1 && word[0] == '|' {
        assert(word@ =~= pipe());
        true
    } else {
        assert(pipe().len() == 1 && pipe()[0] == '|');
        false
    }
}

/// Strips the shortcut from a word and returns the keyword.
pub(crate) fn keyword_of(word: &Vec<char>) -> (keyword: String)
    ensures
        keyword@ == strip_shortcut(word@),
{
    assert(word@.skip(0) == word@);
    let open = scan_until(word, 0, CharClass::Only('('));
    let close = scan_until(word, 0, CharClass::Only(')'));
    if open < word.len() && close < word.len() {
        string_of(word, 0, open)
    } else {
        assert(word@.subrange(0, word.len() as int) == word@);
        string_of(word, 0, word.len())
    }
}

/// Reads the two keyword lists of a directive line. Returns `None` if the
/// line has no `:`.
pub(crate) fn keywords_of(line: &Vec<char>) -> (r: Option<(Vec<String>, Vec<String>)>)
    ensures
        match r {
            Some((todo, done)) => {
                &&& has_separator(line@)
                &&& texts_of(todo@) == todo_keywords(line@)
                &&& texts_of(done@) == done_keywords(line@)
            },
            None => !has_separator(line@),
        },
{
    assert(line@.skip(0) == line@);
    let colon = scan_until(line, 0, CharClass::Only(':'));
    if colon >= line.len() {
        return None;
    }
    let words = split_tokens(line, colon + 1, CharClass::AsciiWhitespace);
    let ghost all = words_of(line@);
    assert(seqs_of(words@) == all);
    let mut seq_todo_options: Vec<String> = Vec::new();
    let mut seq_done_options: Vec<String> = Vec::new();
    let mut todo = true;
    let mut i: usize = 0;
    assert(texts_of(seq_todo_options@) =~= keywords_in(all.take(0)));
    assert(texts_of(seq_done_options@) =~= Seq::<Seq<char>>::empty());
    while i < words.len()
        invariant
            i <= words.len(),
            seqs_of(words@) == all,
            todo ==> {
                &&& forall|j: int| 0 <= j < i ==> #[trigger] all[j] != pipe()
                &&& texts_of(seq_todo_options@) == keywords_in(all.take(i as int))
                &&& texts_of(seq_done_options@) == Seq::<Seq<char>>::empty()
            },
            !todo ==> {
                &&& until_pipe(all) < i
                &&& texts_of(seq_todo_options@) == keywords_in(all.take(until_pipe(all) as int))
                &&& texts_of(seq_done_options@) == keywords_in(
                    all.subrange(until_pipe(all) as int, i as int),
                )
            },
        decreases words.len() - i,
    {
        let ghost p = until_pipe(all) as int;
        let ghost old_todo = seq_todo_options@;
        let ghost old_done = seq_done_options@;
        assert(all[i as int] == words@[i as int]@);
        assert(all.take(i + 1).drop_last() == all.take(i as int));
        if is_pipe(&words[i]) {
            if todo {
                proof {
                    lemma_until_pipe_is(all, i as int);
                    assert(all.subrange(i as int, i + 1).drop_last() == Seq::<
                        Seq<char>,
                    >::empty());
                    assert(keywords_in(all.subrange(i as int, i + 1).drop_last()) == Seq::<
                        Seq<char>,
                    >::empty());
                }
                todo = false;
            } else {
                assert(all.subrange(p, i + 1).drop_last() == all.subrange(p, i as int));
            }
        } else {
            let option = keyword_of(&words[i]);
            if todo {
                seq_todo_options.push(option);
                assert(texts_of(seq_todo_options@) == texts_of(old_todo).push(option@));
            } else {
                seq_done_options.push(option);
                assert(texts_of(seq_done_options@) == texts_of(old_done).push(option@));
                assert(all.subrange(p, i + 1).drop_last() == all.subrange(p, i as int));
            }
        }
        i += 1;
    }
    proof {
        if todo {
            lemma_until_pipe_is(all, all.len() as int);
            assert(all.take(all.len() as int) == all);
            assert(all.skip(all.len() as int) == Seq::<Seq<char>>::empty());
        } else {
            assert(all.subrange(until_pipe(all) as int, all.len() as int) == all.skip(
                until_pipe(all) as int,
            ));
        }
    }
    Some((seq_todo_options, seq_done_options))
}

} // verus!
