use org_parser::text::{chars_of, split_lines, CharClass};
use org_parser::{Arena, Header, Node, Options, ParseError, Parser, SEQ_STATES};

fn parse(text: &str) -> Parser {
    Parser::parse(&text.to_string()).unwrap()
}

fn node(arena: &Arena, index: usize) -> &Node {
    arena.get(index).unwrap()
}

fn parent(arena: &Arena, index: usize) -> Option<usize> {
    node(arena, index).parent().map(|id| id.index())
}

fn previous(arena: &Arena, index: usize) -> Option<usize> {
    node(arena, index).previous_sibling().map(|id| id.index())
}

fn next(arena: &Arena, index: usize) -> Option<usize> {
    node(arena, index).next_sibling().map(|id| id.index())
}

fn children(arena: &Arena, index: usize) -> Vec<usize> {
    node(arena, index).children().iter().map(|id| id.index()).collect()
}

fn levels(arena: &Arena) -> Vec<usize> {
    (0..arena.len()).map(|i| node(arena, i).header().level()).collect()
}

fn walk(arena: &Arena, index: usize, out: &mut Vec<usize>) {
    out.push(index);
    for child in children(arena, index) {
        walk(arena, child, out);
    }
}

fn preorder(arena: &Arena) -> Vec<usize> {
    let mut out = Vec::new();
    for i in 0..arena.len() {
        if parent(arena, i).is_none() {
            walk(arena, i, &mut out);
        }
    }
    out
}

fn check_links(arena: &Arena) {
    let n = arena.len();
    for i in 0..n {
        assert_eq!(node(arena, i).index(), i);
        let expected: Vec<usize> = (0..n).filter(|j| parent(arena, *j) == Some(i)).collect();
        assert_eq!(children(arena, i), expected);
    }
    for j in 0..n {
        let same: Vec<usize> = (0..n).filter(|k| parent(arena, *k) == parent(arena, j)).collect();
        let at = same.iter().position(|k| *k == j).unwrap();
        let before = if at == 0 { None } else { Some(same[at - 1]) };
        let after = if at + 1 == same.len() { None } else { Some(same[at + 1]) };
        assert_eq!(previous(arena, j), before);
        assert_eq!(next(arena, j), after);
    }
    assert_eq!(preorder(arena), (0..n).collect::<Vec<usize>>());
}

const SAMPLES: [&str; 8] = [
    "",
    "just text\nmore text",
    "* a",
    "* a\n*** b\n** c\n* d",
    "*** deep first\n* a\n** b\n**** c\n** d\n* e\n***** f",
    "#+TODO: TODO | DONE\n* TODO a\nbody\n** DONE b\n** c\n*** d\n* e\n** f\n** g",
    "* a\n** b\n*** c\n**** d\n***** e\n* f\n** g\n*** h\n** i\n*** j\n*** k\n* l",
    "** a\n** b\n* c\n*** d\n** e\n*** f\n**** g\n** h",
];

#[test]
fn children_are_the_nodes_below() {
    for sample in SAMPLES {
        check_links(parse(sample).headers());
    }
}

#[test]
fn preorder_walk_gives_the_levels_of_the_document() {
    for sample in SAMPLES {
        let parser = parse(sample);
        let arena = parser.headers();
        let walked: Vec<usize> =
            preorder(arena).iter().map(|i| node(arena, *i).header().level()).collect();
        let written: Vec<usize> = sample
            .lines()
            .filter(|line| line.starts_with('*'))
            .map(Parser::count_level)
            .collect();
        assert_eq!(walked, written);
    }
}

#[test]
fn level_jump_makes_a_direct_child() {
    let parser = parse("* one\n*** three\n** two\n* again");
    let arena = parser.headers();
    assert_eq!(arena.len(), 4);
    assert_eq!(levels(arena), vec![1, 3, 2, 1]);
    assert_eq!(parent(arena, 0), None);
    assert_eq!(parent(arena, 1), Some(0));
    assert_eq!(parent(arena, 2), Some(0));
    assert_eq!(parent(arena, 3), None);
    assert_eq!(children(arena, 0), vec![1, 2]);
    assert_eq!(children(arena, 1), Vec::<usize>::new());
    assert_eq!(previous(arena, 1), None);
    assert_eq!(next(arena, 1), Some(2));
    assert_eq!(previous(arena, 2), Some(1));
    assert_eq!(next(arena, 2), None);
    assert_eq!(next(arena, 0), Some(3));
    assert_eq!(previous(arena, 3), Some(0));
}

#[test]
fn walk_up_skips_several_levels() {
    let parser = parse("* a\n** b\n*** c\n**** d\n** e\n* f");
    let arena = parser.headers();
    assert_eq!(parent(arena, 3), Some(2));
    assert_eq!(parent(arena, 4), Some(0));
    assert_eq!(previous(arena, 4), Some(1));
    assert_eq!(next(arena, 1), Some(4));
    assert_eq!(children(arena, 0), vec![1, 4]);
    assert_eq!(parent(arena, 5), None);
    assert_eq!(previous(arena, 5), Some(0));
}

#[test]
fn first_heading_is_a_root_whatever_its_level() {
    let parser = parse("*** deep\n* shallow\n** child");
    let arena = parser.headers();
    assert_eq!(levels(arena), vec![3, 1, 2]);
    assert_eq!(parent(arena, 0), None);
    assert_eq!(parent(arena, 1), None);
    assert_eq!(previous(arena, 1), Some(0));
    assert_eq!(next(arena, 0), Some(1));
    assert_eq!(parent(arena, 2), Some(1));
}

#[test]
fn body_text_goes_to_the_heading_before_it() {
    let parser = parse("lost\n* a\nfirst  \n\n  second\t\n** b\nthird\u{3000}");
    let arena = parser.headers();
    assert_eq!(arena.len(), 2);
    assert_eq!(
        node(arena, 0).header().text(),
        &vec!["first".to_string(), "".to_string(), "  second".to_string()]
    );
    assert_eq!(node(arena, 1).header().text(), &vec!["third".to_string()]);
    assert_eq!(node(arena, 0).header().title(), "a");
    assert_eq!(node(arena, 1).data.title(), "b");
}

#[test]
fn empty_document_has_no_nodes() {
    let parser = parse("");
    assert_eq!(parser.headers().len(), 0);
    assert_eq!(parser.options(), &vec![Options::SEQ_TODO(vec![])]);
    assert!(parser.headers().get(0).is_none());
}

#[test]
fn headings_get_their_state_from_the_directive() {
    let parser = parse("#+TODO: TODO(t) NEXT | DONE(d)\n* TODO write\n* DONE read\n* NEXT\n* LATER think");
    let arena = parser.headers();
    let state = |i: usize| node(arena, i).header().state().clone();
    let title = |i: usize| node(arena, i).header().title().clone();
    assert_eq!(state(0), Some("TODO".to_string()));
    assert_eq!(title(0), "write");
    assert_eq!(state(1), Some("DONE".to_string()));
    assert_eq!(title(1), "read");
    assert_eq!(state(2), Some("NEXT".to_string()));
    assert_eq!(title(2), "");
    assert_eq!(state(3), None);
    assert_eq!(title(3), "LATER think");
}

#[test]
fn title_without_configured_keywords() {
    let parser = parse("* Header");
    let header = node(parser.headers(), 0).header();
    assert_eq!(header.title(), "Header");
    assert_eq!(header.state(), &None);
    assert_eq!(header.level(), 1);

    let parser = parse("* TODO Header");
    let header = node(parser.headers(), 0).header();
    assert_eq!(header.title(), "TODO Header");
    assert_eq!(header.state(), &None);
}

#[test]
fn state_and_title_with_a_custom_keyword() {
    let todo = vec!["CUSTOM_TODO".to_string()];
    let line = "** CUSTOM_TODO test";
    let state = Parser::parse_state(line, (Some(&todo), None));
    assert_eq!(state, Some("CUSTOM_TODO".to_string()));
    assert_eq!(Parser::parse_title(line, Parser::count_level(line), &state), "test");

    let header = Parser::parse_header(line, (Some(&todo), None)).unwrap();
    assert_eq!(header.level(), 2);
    assert_eq!(header.state(), &Some("CUSTOM_TODO".to_string()));
    assert_eq!(header.title(), "test");
    assert!(header.text().is_empty());
}

#[test]
fn state_is_looked_up_in_both_lists() {
    let todo = vec!["A".to_string(), "B".to_string()];
    let done = vec!["C".to_string()];
    let states = (Some(&todo), Some(&done));
    assert_eq!(Parser::parse_state("* B x", states), Some("B".to_string()));
    assert_eq!(Parser::parse_state("* C x", states), Some("C".to_string()));
    assert_eq!(Parser::parse_state("* D x", states), None);
    assert_eq!(Parser::parse_state("* b x", states), None);
    assert_eq!(Parser::parse_state("*", states), None);
    assert_eq!(Parser::parse_state("*   ", states), None);
    assert_eq!(Parser::parse_state("*\tA\tx", states), Some("A".to_string()));
    assert_eq!(Parser::parse_state("* C x", (None, Some(&done))), Some("C".to_string()));
    assert_eq!(Parser::parse_state("* A x", (None, None)), None);
    assert_eq!(Parser::parse_state("* A x", (Some(&Vec::new()), None)), None);
}

#[test]
fn classifying_twice_gives_the_same() {
    let todo = vec!["TODO".to_string()];
    let done = vec!["DONE".to_string()];
    for line in ["* TODO a", "*** plain", "** DONE", "*x TODO y", "*"] {
        let first = Parser::parse_header(line, (Some(&todo), Some(&done)));
        let second = Parser::parse_header(line, (Some(&todo), Some(&done)));
        match (first, second) {
            (Ok(a), Ok(b)) => {
                assert_eq!(a.level(), b.level());
                assert_eq!(a.state(), b.state());
                assert_eq!(a.title(), b.title());
            }
            (Err(a), Err(b)) => assert_eq!(a, b),
            _ => panic!("two results for one line"),
        }
    }
}

#[test]
fn title_is_empty_when_only_the_keyword_is_left() {
    let state = Some("TODO".to_string());
    assert_eq!(Parser::parse_title("* TODO", 1, &state), "");
    assert_eq!(Parser::parse_title("* TODO ", 1, &state), "");
    assert_eq!(Parser::parse_title("* TOD", 1, &state), "");
    assert_eq!(Parser::parse_title("* TODO x", 1, &state), "x");
    assert_eq!(Parser::parse_title("* TODO  x", 1, &state), " x");
    assert_eq!(Parser::parse_title("*", 1, &state), "");
    assert_eq!(Parser::parse_title("*", 5, &None), "");
    assert_eq!(Parser::parse_title("* \u{a0}\t title ", 1, &None), "title ");
    assert_eq!(Parser::parse_title("* \u{5b8c}\u{4e86} task", 1, &Some("\u{5b8c}\u{4e86}".to_string())), "task");
}

#[test]
fn count_level_counts_leading_markers_only() {
    assert_eq!(Parser::count_level(""), 0);
    assert_eq!(Parser::count_level("text"), 0);
    assert_eq!(Parser::count_level(" * x"), 0);
    assert_eq!(Parser::count_level("*"), 1);
    assert_eq!(Parser::count_level("*****"), 5);
    assert_eq!(Parser::count_level("** a * b"), 2);
}

#[test]
fn heading_without_title_is_rejected() {
    for text in ["*", "* ", "***  \t", "* a\n**\n* b", "#+TODO: A | B\n* A x\n** \u{a0}"] {
        assert_eq!(Parser::parse(&text.to_string()).err(), Some(ParseError::MissingTitle));
        assert_eq!(
            Parser::parse_headers(&text.to_string(), (None, None)).err(),
            Some(ParseError::MissingTitle)
        );
    }
    assert_eq!(Parser::parse_header("**", (None, None)).err(), Some(ParseError::MissingTitle));
    assert!(Parser::parse(&"*x".to_string()).is_ok());
}

#[test]
fn directive_without_separator_is_rejected() {
    for text in ["#+TODO", "#+SEQ_TODO a | b", "#+TODO: A | B\n#+TODO C\n* a"] {
        assert_eq!(Parser::parse(&text.to_string()).err(), Some(ParseError::MalformedInput));
        assert_eq!(
            Parser::parse_options(&text.to_string()).err(),
            Some(ParseError::MalformedInput)
        );
    }
    // Both faults in one document: the directive is read first.
    assert_eq!(
        Parser::parse(&"#+TODO\n*".to_string()).err(),
        Some(ParseError::MalformedInput)
    );
    // A directive behind the leading run is ordinary text.
    assert!(Parser::parse(&"* a\n#+TODO".to_string()).is_ok());
    assert!(Parser::parse(&"\n#+TODO".to_string()).is_ok());
}

fn keywords(words: &[&str]) -> Vec<String> {
    words.iter().map(|w| w.to_string()).collect()
}

fn options(text: &str) -> Vec<SEQ_STATES> {
    let mut all = Parser::parse_options(&text.to_string()).unwrap();
    assert_eq!(all.len(), 1);
    match all.pop().unwrap() {
        Options::SEQ_TODO(states) => states,
    }
}

#[test]
fn every_leading_directive_contributes_two_lists() {
    let states = options("#+TODO: A | B\n#+SEQ_TODO: C D | E\n* C x\n#+TODO: F | G");
    assert_eq!(
        states,
        vec![
            SEQ_STATES::TODO(keywords(&["A"])),
            SEQ_STATES::DONE(keywords(&["B"])),
            SEQ_STATES::TODO(keywords(&["C", "D"])),
            SEQ_STATES::DONE(keywords(&["E"])),
        ]
    );
    assert_eq!(options("* a\n#+TODO: A | B"), vec![]);
    assert_eq!(options(""), vec![]);
}

#[test]
fn later_directives_shadow_earlier_ones() {
    let all = Parser::parse_options(&"#+TODO: A | B\n#+TODO: C | D".to_string()).unwrap();
    let (todo, done) = Parser::get_states(&all);
    assert_eq!(todo, Some(&keywords(&["C"])));
    assert_eq!(done, Some(&keywords(&["D"])));

    let parser = parse("#+TODO: A | B\n#+TODO: C | D\n* A x\n* D y");
    let arena = parser.headers();
    assert_eq!(node(arena, 0).header().state(), &None);
    assert_eq!(node(arena, 0).header().title(), "A x");
    assert_eq!(node(arena, 1).header().state(), &Some("D".to_string()));
    assert_eq!(node(arena, 1).header().title(), "y");

    let none = Parser::parse_options(&"* a".to_string()).unwrap();
    assert_eq!(Parser::get_states(&none), (None, None));

    let several = vec![
        Options::SEQ_TODO(vec![SEQ_STATES::TODO(keywords(&["A"])), SEQ_STATES::DONE(keywords(&["B"]))]),
        Options::SEQ_TODO(vec![SEQ_STATES::DONE(keywords(&["C"]))]),
        Options::SEQ_TODO(vec![]),
    ];
    let (todo, done) = Parser::get_states(&several);
    assert_eq!(todo, Some(&keywords(&["A"])));
    assert_eq!(done, Some(&keywords(&["C"])));
}

#[test]
fn directive_words_and_shortcuts() {
    let lists = |text: &str| {
        let mut states = options(text);
        let done = states.pop().unwrap();
        let todo = states.pop().unwrap();
        (todo, done)
    };
    let pair = |todo: &[&str], done: &[&str]| {
        (SEQ_STATES::TODO(keywords(todo)), SEQ_STATES::DONE(keywords(done)))
    };
    assert_eq!(lists("#+TODO:"), pair(&[], &[]));
    assert_eq!(lists("#+TODO:   A   B  "), pair(&["A", "B"], &[]));
    assert_eq!(lists("#+TODO: | A"), pair(&[], &["A"]));
    assert_eq!(lists("#+TODO: A | B | C"), pair(&["A"], &["B", "C"]));
    assert_eq!(lists("#+TODO: A(a) B( C) )D( | E(e)x"), pair(&["A", "B(", "C)", ")D"], &["E"]));
    assert_eq!(lists("#+TODO: A|B |(x) ||"), pair(&["A|B", "|", "||"], &[]));
    assert_eq!(lists("#+TODO: A:B | C:"), pair(&["A:B"], &["C:"]));
    assert_eq!(lists("#+TODO:\tA\tB\r|\x0cC"), pair(&["A", "B"], &["C"]));
    assert_eq!(lists("#+TODO: A\u{a0}B | C"), pair(&["A\u{a0}B"], &["C"]));
    assert_eq!(lists("#+TODOS and more: A | B"), pair(&["A"], &["B"]));
}

#[test]
fn lines_are_split_as_the_standard_library_does() {
    for text in [
        "",
        "\n",
        "a",
        "a\n",
        "a\nb",
        "a\r\nb\r\n",
        "a\rb\n\rc\r",
        "\r\n\r\n",
        "\n\n\na\n\n",
        "a\r\r\nb",
        "* x\r\n body \r\n",
    ] {
        let lines: Vec<String> =
            split_lines(&chars_of(text)).iter().map(|line| line.iter().collect()).collect();
        let expected: Vec<String> = text.lines().map(|line| line.to_string()).collect();
        assert_eq!(lines, expected);
    }
}

#[test]
fn character_classes_are_those_of_the_standard_library() {
    for code in 0..=0x10FFFFu32 {
        if let Some(c) = char::from_u32(code) {
            assert_eq!(CharClass::Whitespace.contains(c), c.is_whitespace());
            assert_eq!(CharClass::AsciiWhitespace.contains(c), c.is_ascii_whitespace());
            assert_eq!(CharClass::Only('*').contains(c), c == '*');
        }
    }
}

#[test]
fn chars_of_keeps_every_character() {
    assert_eq!(chars_of(""), Vec::<char>::new());
    assert_eq!(chars_of("a\u{e9}\u{1F600}*"), vec!['a', '\u{e9}', '\u{1F600}', '*']);
}

#[test]
fn new_node_appends_an_unlinked_node() {
    let mut arena = Arena::new();
    assert_eq!(arena.len(), 0);
    let a = arena.new_node(Header::new(1, "a".to_string(), None));
    let b = arena.new_node(Header::new(4, "b".to_string(), Some("TODO".to_string())));
    assert_eq!(a.index(), 0);
    assert_eq!(b.index(), 1);
    assert_eq!(arena.len(), 2);
    for i in 0..2 {
        assert_eq!(node(&arena, i).index(), i);
        assert!(node(&arena, i).parent().is_none());
        assert!(node(&arena, i).previous_sibling().is_none());
        assert!(node(&arena, i).next_sibling().is_none());
        assert!(node(&arena, i).children().is_empty());
    }
    assert_eq!(node(&arena, 1).header().level(), 4);
    assert_eq!(node(&arena, 1).header().title(), "b");
    assert_eq!(node(&arena, 1).header().state(), &Some("TODO".to_string()));
    assert!(arena.get(2).is_none());
}

#[test]
fn header_collects_its_text() {
    let mut header = Header::new(2, "t".to_string(), None);
    assert!(header.text().is_empty());
    header.push_text("one".to_string());
    header.push_text("two".to_string());
    assert_eq!(header.text(), &vec!["one".to_string(), "two".to_string()]);
    assert_eq!(header.level(), 2);
}

#[test]
fn errors_say_what_is_wrong() {
    assert_eq!(ParseError::MissingTitle.message(), "a heading has no title");
    assert_eq!(
        ParseError::MalformedInput.message(),
        "a keyword directive has no `:` before its keywords"
    );
    assert_ne!(ParseError::MissingTitle, ParseError::MalformedInput);
}
