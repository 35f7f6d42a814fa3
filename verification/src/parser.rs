//! The parser: from the text of a document to its keyword lists and its tree
//! of headings.

use vstd::prelude::*;
use vstd::string::*;
use crate::arena::{last_of, opt_id, Arena, NodeId};
use crate::error::ParseError;
use crate::heading::{
    classified, classify, header_of, is_heading, lemma_heading_level, level_in, level_of,
    missing_title, opt_keywords, opt_text, starts_heading, state_in, state_of, title_in, title_of,
    with_text, Header, HeaderModel,
};
use crate::keywords::{
    active_done, active_todo, directives, done_in, has_separator, is_directive, keyword_sets,
    keywords_of, last_done, last_todo, lemma_directives_bound, lemma_directives_is,
    lemma_last_directive_counts, malformed, options_of, sets_upto, settings_of, starts_directive,
    states_of, todo_in, Options, OptionsModel, StatesModel, SEQ_STATES,
};
use crate::laws::{lemma_tree_linked, well_linked};
use crate::text::{
    chars_of, lines_of, scan_tail, seqs_of, split_lines, string_of, trim_end, CharClass,
};
use crate::tree::{
    cursor_depth, data_of, lemma_data_of_tree, lemma_tree_update, levels_of, tree_of, NodeModel,
};

verus! {

/// What a `Parser` holds, as mathematical values.
pub struct OutlineModel {
    /// The document's settings.
    pub options: Seq<OptionsModel>,
    /// The document's headings, as a tree.
    pub headers: Seq<NodeModel>,
}

/// A parsed document: its settings and its tree of headings.
#[derive(Debug)]
pub struct Parser {
    options: Vec<Options>,
    headers: Arena,
}

impl View for Parser {
    type V = OutlineModel;

    closed spec fn view(&self) -> OutlineModel {
        OutlineModel { options: options_of(self.options@), headers: self.headers@ }
    }
}

/// The headings of a document, each with its body text: the lines between
/// it and the next heading, without trailing whitespace. Lines before the
/// first heading belong to no heading.
pub open spec fn heads_of(
    lines: Seq<Seq<char>>,
    todo: Option<Seq<Seq<char>>>,
    done: Option<Seq<Seq<char>>>,
) -> Seq<HeaderModel>
    decreases lines.len(),
{
    if lines.len() == 0 {
        Seq::empty()
    } else {
        let before = heads_of(lines.drop_last(), todo, done);
        let line = lines.last();
        if is_heading(line) {
            before.push(header_of(line, todo, done))
        } else if before.len() > 0 {
            before.update(before.len() - 1, with_text(before.last(), trim_end(line)))
        } else {
            before
        }
    }
}

/// Whether a document holds a heading line without a title.
pub open spec fn untitled(lines: Seq<Seq<char>>) -> bool {
    exists|i: int|
        0 <= i < lines.len() && is_heading(#[trigger] lines[i]) && missing_title(lines[i])
}

/// The headings of a document, classified by the keyword lists of the last
/// of the directive lines that the document starts with.
pub open spec fn document_heads(data: Seq<char>) -> Seq<HeaderModel> {
    let lines = lines_of(data);
    heads_of(lines, active_todo(lines), active_done(lines))
}

/// What parsing a document gives: an error if one of its leading directive
/// lines has no `:`, else an error if one of its heading lines has no title,
/// else its settings and the tree of its headings.
pub open spec fn parsed(data: Seq<char>) -> Result<OutlineModel, ParseError> {
    let lines = lines_of(data);
    if malformed(lines) {
        Err(ParseError::MalformedInput)
    } else if untitled(lines) {
        Err(ParseError::MissingTitle)
    } else {
        Ok(OutlineModel { options: settings_of(lines), headers: tree_of(document_heads(data)) })
    }
}

impl Parser {
    /// Parses a document: reads its settings from the directive lines that
    /// it starts with, then builds the tree of its headings. Fails if one of
    /// those directive lines has no `:`, or else if a heading line has no
    /// title.
    pub fn parse(data: &String) -> (r: Result<Parser, ParseError>)
        ensures
            parsed(data@) == match r {
                Ok(parser) => Ok::<OutlineModel, ParseError>(parser@),
                Err(e) => Err(e),
            },
            r is Ok ==> well_linked(r->Ok_0@.headers),
    {
        let options = match Self::parse_options(data) {
            Ok(options) => options,
            Err(e) => {
                return Err(e);
            },
        };
        let states = Self::get_states(&options);
        proof {
            lemma_last_directive_counts(lines_of(data@));
        }
        let headers = match Self::parse_headers(data, states) {
            Ok(headers) => headers,
            Err(e) => {
                return Err(e);
            },
        };
        proof {
            lemma_tree_linked(document_heads(data@));
        }
        Ok(Parser { options, headers })
    }

    /// The document's settings.
    pub fn options(&self) -> (options: &Vec<Options>)
        ensures
            options_of(options@) == self@.options,
    {
        &self.options
    }

    /// The document's tree of headings.
    pub fn headers(&self) -> (headers: &Arena)
        ensures
            headers@ == self@.headers,
    {
        &self.headers
    }

    /// Counts the markers that a line starts with.
    pub fn count_level(line: &str) -> (header_level: usize)
        ensures
            header_level == level_of(line@),
    {
        level_in(&chars_of(line))
    }

    /// Reads the settings of a document from the directive lines that it
    /// starts with. Fails if one of them has no `:`.
    pub fn parse_options(data: &String) -> (r: Result<Vec<Options>, ParseError>)
        ensures
            match r {
                Ok(options) => {
                    &&& !malformed(lines_of(data@))
                    &&& options_of(options@) == settings_of(lines_of(data@))
                },
                Err(e) => e == ParseError::MalformedInput && malformed(lines_of(data@)),
            },
    {
        let lines = split_lines(&chars_of(data.as_str()));
        let ghost all = lines_of(data@);
        let mut seq_options: Vec<SEQ_STATES> = Vec::new();
        let mut i: usize = 0;
        while i < lines.len() && starts_directive(&lines[i])
            invariant
                i <= lines.len(),
                all == lines_of(data@),
                seqs_of(lines@) == all,
                forall|j: int| 0 <= j < i ==> is_directive(#[trigger] all[j]),
                forall|j: int| 0 <= j < i ==> has_separator(#[trigger] all[j]),
                i <= directives(all),
                states_of(seq_options@) == sets_upto(all, i as nat),
            decreases lines.len() - i,
        {
            assert(all[i as int] == lines@[i as int]@);
            proof {
                if i >= directives(all) {
                    lemma_directives_bound(all, i as int);
                }
            }
            let ghost before = states_of(seq_options@);
            assert(before.len() == 2 * i);
            match keywords_of(&lines[i]) {
                None => {
                    assert(!has_separator(all[i as int]));
                    return Err(ParseError::MalformedInput);
                },
                Some((seq_todo_options, seq_done_options)) => {
                    seq_options.push(SEQ_STATES::TODO(seq_todo_options));
                    seq_options.push(SEQ_STATES::DONE(seq_done_options));
                },
            }
            proof {
                let k = 2 * (i as int);
                let now = states_of(seq_options@);
                let goal = sets_upto(all, (i + 1) as nat);
                assert(now.len() == k + 2);
                assert forall|j: int| 0 <= j < k + 2 implies now[j] == goal[j] by {
                    if j < k {
                        assert(now[j] == before[j]);
                    } else if j == k {
                        assert(k % 2 == 0 && k / 2 == i);
                    } else {
                        assert((k + 1) % 2 == 1 && (k + 1) / 2 == i);
                    }
                }
                assert(now =~= goal);
            }
            i += 1;
        }
        proof {
            if i < lines.len() {
                assert(all[i as int] == lines@[i as int]@);
            }
            lemma_directives_is(all, i as int);
            assert(states_of(seq_options@) =~= keyword_sets(all));
        }
        let mut options: Vec<Options> = Vec::new();
        options.push(Options::SEQ_TODO(seq_options));
        assert(options_of(options@) =~= settings_of(all));
        Ok(options)
    }

    /// Picks the keyword lists by which headings are classified: the last
    /// in-progress list and the last completed list of all settings.
    pub fn get_states(options: &Vec<Options>) -> (states: (
        Option<&Vec<String>>,
        Option<&Vec<String>>,
    ))
        ensures
            opt_keywords(states.0) == todo_in(options_of(options@)),
            opt_keywords(states.1) == done_in(options_of(options@)),
    {
        let mut todo_keywords: Option<&Vec<String>> = None;
        let mut done_keywords: Option<&Vec<String>> = None;
        let ghost all = options_of(options@);
        let mut a: usize = 0;
        assert(all.take(0) =~= Seq::<OptionsModel>::empty());
        while a < options.len()
            invariant
                a <= options.len(),
                all == options_of(options@),
                opt_keywords(todo_keywords) == todo_in(all.take(a as int)),
                opt_keywords(done_keywords) == done_in(all.take(a as int)),
            decreases options.len() - a,
        {
            match &options[a] {
                Options::SEQ_TODO(states) => {
                    let ghost sets = states_of(states@);
                    let ghost todo_before = opt_keywords(todo_keywords);
                    let ghost done_before = opt_keywords(done_keywords);
                    let mut b: usize = 0;
                    assert(sets.take(0) =~= Seq::<StatesModel>::empty());
                    while b < states.len()
                        invariant
                            b <= states.len(),
                            sets == states_of(states@),
                            opt_keywords(todo_keywords) == match last_todo(sets.take(b as int)) {
                                Some(keywords) => Some(keywords),
                                None => todo_before,
                            },
                            opt_keywords(done_keywords) == match last_done(sets.take(b as int)) {
                                Some(keywords) => Some(keywords),
                                None => done_before,
                            },
                        decreases states.len() - b,
                    {
                        assert(sets.take(b + 1).drop_last() =~= sets.take(b as int));
                        assert(sets.take(b + 1).last() == states@[b as int]@);
                        match &states[b] {
                            SEQ_STATES::TODO(todo) => {
                                todo_keywords = Some(todo);
                            },
                            SEQ_STATES::DONE(done) => {
                                done_keywords = Some(done);
                            },
                        }
                        b += 1;
                    }
                    assert(sets.take(states@.len() as int) =~= sets);
                    assert(all.take(a + 1).drop_last() =~= all.take(a as int));
                    assert(all.take(a + 1).last() == OptionsModel::SeqTodo(sets));
                },
            }
            a += 1;
        }
        assert(all.take(options@.len() as int) =~= all);
        (todo_keywords, done_keywords)
    }

    /// Determines the workflow keyword of a heading line: its second word, if
    /// that is one of the keywords of `states`.
    pub fn parse_state(line: &str, states: (Option<&Vec<String>>, Option<&Vec<String>>)) -> (r:
        Option<String>)
        ensures
            opt_text(r) == state_of(line@, opt_keywords(states.0), opt_keywords(states.1)),
    {
        state_in(&chars_of(line), states)
    }

    /// Extracts the title of a heading line, given its level and its workflow
    /// keyword.
    pub fn parse_title(line: &str, header_level: usize, state: &Option<String>) -> (title: String)
        ensures
            title@ == title_of(line@, header_level as nat, opt_text(*state)),
    {
        title_in(&chars_of(line), header_level, state)
    }

    /// Classifies a heading line: its level, its workflow keyword and its
    /// title. Fails if the line has no title.
    pub fn parse_header(line: &str, states: (Option<&Vec<String>>, Option<&Vec<String>>)) -> (r:
        Result<Header, ParseError>)
        ensures
            classified(
                line@,
                opt_keywords(states.0),
                opt_keywords(states.1),
                match r {
                    Ok(h) => Ok(h@),
                    Err(e) => Err(e),
                },
            ),
    {
        classify(&chars_of(line), states)
    }

    /// Builds the tree of a document's headings in one pass over its lines.
    /// Fails if a heading line has no title.
    pub fn parse_headers(
        data: &String,
        options: (Option<&Vec<String>>, Option<&Vec<String>>),
    ) -> (r: Result<Arena, ParseError>)
        ensures
            match r {
                Ok(arena) => {
                    &&& !untitled(lines_of(data@))
                    &&& arena@ == tree_of(
                        heads_of(
                            lines_of(data@),
                            opt_keywords(options.0),
                            opt_keywords(options.1),
                        ),
                    )
                },
                Err(e) => e == ParseError::MissingTitle && untitled(lines_of(data@)),
            },
            r is Ok ==> well_linked(r->Ok_0@),
    {
        let lines = split_lines(&chars_of(data.as_str()));
        let ghost all = lines_of(data@);
        let ghost todo = opt_keywords(options.0);
        let ghost done = opt_keywords(options.1);
        let mut arena = Arena::new();
        let mut current_node: Option<NodeId> = None;
        let mut previous_level: usize = 1;
        let mut i: usize = 0;
        proof {
            assert(all.take(0) =~= Seq::<Seq<char>>::empty());
            assert(arena@ =~= tree_of(heads_of(all.take(0), todo, done)));
            assert(levels_of(data_of(arena@)).len() == 0);
        }
        while i < lines.len()
            invariant
                i <= lines.len(),
                all == lines_of(data@),
                seqs_of(lines@) == all,
                todo == opt_keywords(options.0),
                done == opt_keywords(options.1),
                forall|j: int|
                    0 <= j < i ==> !(is_heading(#[trigger] all[j]) && missing_title(all[j])),
                arena@ == tree_of(heads_of(all.take(i as int), todo, done)),
                opt_id(current_node) == last_of(arena@.len()),
                previous_level == cursor_depth(levels_of(data_of(arena@))),
            decreases lines.len() - i,
        {
            let line = &lines[i];
            let ghost heads = heads_of(all.take(i as int), todo, done);
            proof {
                assert(all[i as int] == line@);
                assert(all.take(i + 1).drop_last() =~= all.take(i as int));
                assert(all.take(i + 1).last() == line@);
                lemma_data_of_tree(heads);
            }
            if !starts_heading(line) {
                match current_node {
                    None => (),
                    Some(node) => {
                        let end = scan_tail(line, line.len(), CharClass::Whitespace);
                        proof {
                            assert(line@.take(line.len() as int) =~= line@);
                            assert(line@.subrange(0, end as int) == trim_end(line@));
                            lemma_tree_update(
                                heads,
                                heads.len() - 1,
                                with_text(heads.last(), trim_end(line@)),
                            );
                        }
                        arena.push_text(node, string_of(line, 0, end));
                        proof {
                            let after = heads_of(all.take(i + 1), todo, done);
                            lemma_data_of_tree(after);
                            assert(levels_of(after) =~= levels_of(heads));
                        }
                    },
                }
                i += 1;
                continue ;
            }
            let data = match classify(line, options) {
                Ok(data) => data,
                Err(e) => {
                    assert(is_heading(all[i as int]) && missing_title(all[i as int]));
                    return Err(e);
                },
            };
            proof {
                lemma_heading_level(line@);
            }
            let (node_id, level) = arena.insert(data, current_node, previous_level);
            proof {
                lemma_data_of_tree(heads.push(data@));
            }
            current_node = Some(node_id);
            previous_level = level;
            i += 1;
        }
        proof {
            assert(all.take(lines@.len() as int) =~= all);
            lemma_tree_linked(heads_of(all, todo, done));
        }
        Ok(arena)
    }
}

} // verus!
