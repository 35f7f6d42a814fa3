//! Character-level building blocks: character classes, prefix and suffix
//! scans, trimming, tokens and lines.
//!
//! Every function here works on a document as a sequence of `char`s. The
//! specifications are stated over `Seq<char>`; the executable functions work
//! on a `Vec<char>` that holds the same characters.

use vstd::prelude::*;
use vstd::string::*;

verus! {

/// `String::push` of the standard library: appends one character at the end
/// of the string and changes nothing else.
pub assume_specification[ String::push ](s: &mut String, c: char)
    ensures
        final(s)@ == old(s)@.push(c),
;

/// A set of characters that the scanners can test membership in.
#[derive(Clone, Copy, Debug)]
pub enum CharClass {
    /// Exactly the given character.
    Only(char),
    /// Space, tab, line feed, form feed and carriage return.
    AsciiWhitespace,
    /// Every character with the Unicode `White_Space` property.
    Whitespace,
}

/// The characters with the Unicode `White_Space` property.
pub open spec fn is_whitespace(c: char) -> bool {
    ||| ('\u{9}' <= c && c <= '\u{D}')
    ||| c == ' '
    ||| c == '\u{85}'
    ||| c == '\u{A0}'
    ||| c == '\u{1680}'
    ||| ('\u{2000}' <= c && c <= '\u{200A}')
    ||| c == '\u{2028}'
    ||| c == '\u{2029}'
    ||| c == '\u{202F}'
    ||| c == '\u{205F}'
    ||| c == '\u{3000}'
}

/// Space, tab, line feed, form feed and carriage return.
pub open spec fn is_ascii_whitespace(c: char) -> bool {
    c == ' ' || c == '\t' || c == '\n' || c == '\u{C}' || c == '\r'
}

impl CharClass {
    /// Whether `c` belongs to the class.
    pub open spec fn has(self, c: char) -> bool {
        match self {
            CharClass::Only(x) => c == x,
            CharClass::AsciiWhitespace => is_ascii_whitespace(c),
            CharClass::Whitespace => is_whitespace(c),
        }
    }

    /// Tests whether `c` belongs to the class.
    pub fn contains(self, c: char) -> (b: bool)
        ensures
            b == self.has(c),
    {
        match self {
            CharClass::Only(x) => c == x,
            CharClass::AsciiWhitespace => {
                c == ' ' || c == '\t' || c == '\n' || c == '\u{C}' || c == '\r'
            },
            CharClass::Whitespace => {
                (c >= '\u{9}' && c <= '\u{D}') || c == ' ' || c == '\u{85}' || c == '\u{A0}'
                    || c == '\u{1680}' || (c >= '\u{2000}' && c <= '\u{200A}') || c == '\u{2028}'
                    || c == '\u{2029}' || c == '\u{202F}' || c == '\u{205F}' || c == '\u{3000}'
            },
        }
    }
}

/// Length of the longest prefix of `s` whose characters all belong to `class`.
pub open spec fn lead(s: Seq<char>, class: CharClass) -> nat
    decreases s.len(),
{
    if s.len() > 0 && class.has(s[0]) {
        1 + lead(s.drop_first(), class)
    } else {
        0
    }
}

/// Length of the longest prefix of `s` none of whose characters belongs to
/// `class`: the position of the first member of `class`, or `s.len()` if
/// there is none.
pub open spec fn until(s: Seq<char>, class: CharClass) -> nat
    decreases s.len(),
{
    if s.len() > 0 && !class.has(s[0]) {
        1 + until(s.drop_first(), class)
    } else {
        0
    }
}

/// Length of the longest suffix of `s` whose characters all belong to `class`.
pub open spec fn tail(s: Seq<char>, class: CharClass) -> nat
    decreases s.len(),
{
    if s.len() > 0 && class.has(s.last()) {
        1 + tail(s.drop_last(), class)
    } else {
        0
    }
}

/// `s` without its leading whitespace.
pub open spec fn trim_start(s: Seq<char>) -> Seq<char> {
    s.skip(lead(s, CharClass::Whitespace) as int)
}

/// `s` without its trailing whitespace.
pub open spec fn trim_end(s: Seq<char>) -> Seq<char> {
    s.take(s.len() - tail(s, CharClass::Whitespace))
}

/// The maximal runs of characters of `s` that lie outside `sep`, in order.
/// No token is empty.
pub open spec fn tokens(s: Seq<char>, sep: CharClass) -> Seq<Seq<char>>
    decreases s.len(),
    via tokens_decreases
{
    if s.len() == 0 {
        Seq::empty()
    } else if sep.has(s[0]) {
        tokens(s.drop_first(), sep)
    } else {
        let n = (1 + until(s.drop_first(), sep)) as int;
        seq![s.take(n)] + tokens(s.skip(n), sep)
    }
}

#[via_fn]
proof fn tokens_decreases(s: Seq<char>, sep: CharClass) {
    if s.len() > 0 && !sep.has(s[0]) {
        lemma_until_bounds(s.drop_first(), sep);
    }
}

/// `line` without one trailing carriage return, if it has one.
pub open spec fn strip_cr(line: Seq<char>) -> Seq<char> {
    if line.len() > 0 && line.last() == '\r' {
        line.drop_last()
    } else {
        line
    }
}

/// The lines of a document. A line ends at a line feed, or at a carriage
/// return directly followed by a line feed; neither belongs to the line. The
/// last line needs no terminator, and a terminator at the very end of the
/// document opens no further line.
pub open spec fn lines_of(s: Seq<char>) -> Seq<Seq<char>>
    decreases s.len(),
{
    if s.len() == 0 {
        Seq::empty()
    } else {
        let n = until(s, CharClass::Only('\n')) as int;
        if n >= s.len() {
            seq![s]
        } else {
            seq![strip_cr(s.take(n))] + lines_of(s.skip(n + 1))
        }
    }
}

/// The character sequences that a vector of character vectors holds.
pub open spec fn seqs_of(v: Seq<Vec<char>>) -> Seq<Seq<char>> {
    Seq::new(v.len(), |i: int| v[i]@)
}

/// The character sequences that a vector of strings holds.
pub open spec fn texts_of(v: Seq<String>) -> Seq<Seq<char>> {
    Seq::new(v.len(), |i: int| v[i]@)
}

/// A prefix length that is maximal for `class` is `lead`.
pub proof fn lemma_lead_is(s: Seq<char>, class: CharClass, n: int)
    requires
        0 <= n <= s.len(),
        forall|i: int| 0 <= i < n ==> class.has(#[trigger] s[i]),
        n < s.len() ==> !class.has(s[n]),
    ensures
        lead(s, class) == n,
    decreases n,
{
    if n > 0 {
        lemma_lead_is(s.drop_first(), class, n - 1);
    }
}

/// What `lead` returns is a maximal prefix length for `class`.
pub proof fn lemma_lead_bounds(s: Seq<char>, class: CharClass)
    ensures
        lead(s, class) <= s.len(),
        forall|i: int| 0 <= i < lead(s, class) ==> class.has(#[trigger] s[i]),
        lead(s, class) < s.len() ==> !class.has(s[lead(s, class) as int]),
    decreases s.len(),
{
    if s.len() > 0 && class.has(s[0]) {
        let t = s.drop_first();
        lemma_lead_bounds(t, class);
        assert forall|i: int| 0 <= i < lead(s, class) implies class.has(#[trigger] s[i]) by {
            if i > 0 {
                assert(s[i] == t[i - 1]);
            }
        }
    }
}

/// A prefix length that is maximal outside `class` is `until`.
pub proof fn lemma_until_is(s: Seq<char>, class: CharClass, n: int)
    requires
        0 <= n <= s.len(),
        forall|i: int| 0 <= i < n ==> !class.has(#[trigger] s[i]),
        n < s.len() ==> class.has(s[n]),
    ensures
        until(s, class) == n,
    decreases n,
{
    if n > 0 {
        lemma_until_is(s.drop_first(), class, n - 1);
    }
}

/// What `until` returns is a maximal prefix length outside `class`.
pub proof fn lemma_until_bounds(s: Seq<char>, class: CharClass)
    ensures
        until(s, class) <= s.len(),
        forall|i: int| 0 <= i < until(s, class) ==> !class.has(#[trigger] s[i]),
        until(s, class) < s.len() ==> class.has(s[until(s, class) as int]),
    decreases s.len(),
{
    if s.len() > 0 && !class.has(s[0]) {
        let t = s.drop_first();
        lemma_until_bounds(t, class);
        assert forall|i: int| 0 <= i < until(s, class) implies !class.has(#[trigger] s[i]) by {
            if i > 0 {
                assert(s[i] == t[i - 1]);
            }
        }
    }
}

/// A suffix length that is maximal for `class` is `tail`.
pub proof fn lemma_tail_is(s: Seq<char>, class: CharClass, n: int)
    requires
        0 <= n <= s.len(),
        forall|i: int| s.len() - n <= i < s.len() ==> class.has(#[trigger] s[i]),
        n < s.len() ==> !class.has(s[s.len() - n - 1]),
    ensures
        tail(s, class) == n,
    decreases n,
{
    if n > 0 {
        lemma_tail_is(s.drop_last(), class, n - 1);
    }
}

/// Separators in front of a sequence add no token.
pub proof fn lemma_tokens_after_lead(s: Seq<char>, sep: CharClass)
    ensures
        tokens(s, sep) == tokens(s.skip(lead(s, sep) as int), sep),
    decreases s.len(),
{
    if s.len() > 0 && sep.has(s[0]) {
        let t = s.drop_first();
        lemma_tokens_after_lead(t, sep);
        lemma_lead_bounds(t, sep);
        assert(t.skip(lead(t, sep) as int) == s.skip(lead(s, sep) as int));
    } else {
        assert(s.skip(0) == s);
    }
}

/// The characters of a string slice, in order.
pub fn chars_of(s: &str) -> (v: Vec<char>)
    ensures
        v@ == s@,
{
    let mut v: Vec<char> = Vec::new();
    for c in it: s.chars()
        invariant
            v@ == it.seq().take(it.index() as int),
    {
        v.push(c);
    }
    v
}

/// The characters `v[from..to]` as a string.
pub(crate) fn string_of(v: &Vec<char>, from: usize, to: usize) -> (s: String)
    requires
        from <= to <= v.len(),
    ensures
        s@ == v@.subrange(from as int, to as int),
{
    let mut s = String::new();
    let mut i: usize = from;
    while i < to
        invariant
            from <= i <= to <= v.len(),
            s@ == v@.subrange(from as int, i as int),
        decreases to - i,
    {
        s.push(v[i]);
        i += 1;
    }
    s
}

/// The characters `v[from..to]` as a vector of their own.
pub(crate) fn copy_of(v: &Vec<char>, from: usize, to: usize) -> (r: Vec<char>)
    requires
        from <= to <= v.len(),
    ensures
        r@ == v@.subrange(from as int, to as int),
{
    let mut r: Vec<char> = Vec::new();
    let mut i: usize = from;
    while i < to
        invariant
            from <= i <= to <= v.len(),
            r@ == v@.subrange(from as int, i as int),
        decreases to - i,
    {
        r.push(v[i]);
        i += 1;
    }
    r
}

/// Skips the characters of `class` that start at `from`: returns the first
/// position at or after `from` whose character lies outside `class`.
pub(crate) fn scan_lead(v: &Vec<char>, from: usize, class: CharClass) -> (r: usize)
    requires
        from <= v.len(),
    ensures
        from <= r <= v.len(),
        r - from == lead(v@.skip(from as int), class),
{
    let mut i: usize = from;
    while i < v.len() && class.contains(v[i])
        invariant
            from <= i <= v.len(),
            forall|j: int| from <= j < i ==> class.has(#[trigger] v@[j]),
        decreases v.len() - i,
    {
        i += 1;
    }
    proof {
        lemma_lead_is(v@.skip(from as int), class, i - from);
    }
    i
}

/// Finds the first character of `class` at or after `from`: returns its
/// position, or `v.len()` if there is none.
pub(crate) fn scan_until(v: &Vec<char>, from: usize, class: CharClass) -> (r: usize)
    requires
        from <= v.len(),
    ensures
        from <= r <= v.len(),
        r - from == until(v@.skip(from as int), class),
{
    let mut i: usize = from;
    while i < v.len() && !class.contains(v[i])
        invariant
            from <= i <= v.len(),
            forall|j: int| from <= j < i ==> !class.has(#[trigger] v@[j]),
        decreases v.len() - i,
    {
        i += 1;
    }
    proof {
        lemma_until_is(v@.skip(from as int), class, i - from);
    }
    i
}

/// Drops the characters of `class` that end at `to`: returns the end of the
/// longest prefix of `v[..to]` that does not end in a character of `class`.
pub(crate) fn scan_tail(v: &Vec<char>, to: usize, class: CharClass) -> (r: usize)
    requires
        to <= v.len(),
    ensures
        r <= to,
        to - r == tail(v@.take(to as int), class),
{
    let mut i: usize = to;
    while i > 0 && class.contains(v[i - 1])
        invariant
            i <= to <= v.len(),
            forall|j: int| i <= j < to ==> class.has(#[trigger] v@[j]),
        decreases i,
    {
        i -= 1;
    }
    proof {
        lemma_tail_is(v@.take(to as int), class, to - i);
    }
    i
}

/// Splits a document into its lines.
pub fn split_lines(v: &Vec<char>) -> (lines: Vec<Vec<char>>)
    ensures
        seqs_of(lines@) == lines_of(v@),
{
    let mut lines: Vec<Vec<char>> = Vec::new();
    let mut i: usize = 0;
    assert(v@.skip(0) == v@);
    assert(seqs_of(lines@) + lines_of(v@) == lines_of(v@));
    while i < v.len()
        invariant
            i <= v.len(),
            lines_of(v@) == seqs_of(lines@) + lines_of(v@.skip(i as int)),
        decreases v.len() - i,
    {
        let ghost rest = v@.skip(i as int);
        let ghost before = lines@;
        let n = scan_until(v, i, CharClass::Only('\n'));
        if n >= v.len() {
            lines.push(copy_of(v, i, n));
            proof {
                assert(v@.subrange(i as int, n as int) == rest);
                assert(lines_of(v@.skip(n as int)) == Seq::<Seq<char>>::empty());
                assert(seqs_of(lines@) == seqs_of(before) + seq![rest]);
            }
            i = n;
        } else {
            let end = if n > i && v[n - 1] == '\r' {
                n - 1
            } else {
                n
            };
            lines.push(copy_of(v, i, end));
            proof {
                let line = rest.take(n - i);
                assert(line == v@.subrange(i as int, n as int));
                assert(strip_cr(line) == v@.subrange(i as int, end as int));
                assert(rest.skip(n - i + 1) == v@.skip(n + 1));
                assert(seqs_of(lines@) == seqs_of(before) + seq![strip_cr(line)]);
            }
            i = n + 1;
        }
    }
    lines
}

/// Finds the first token at or after `from`: returns its start and its end,
/// or `None` if only separators are left.
pub(crate) fn next_token(v: &Vec<char>, from: usize, sep: CharClass) -> (r: Option<(usize, usize)>)
    requires
        from <= v.len(),
    ensures
        match r {
            Some((start, end)) => {
                &&& from <= start < end <= v.len()
                &&& tokens(v@.skip(from as int), sep) == seq![
                    v@.subrange(start as int, end as int),
                ] + tokens(v@.skip(end as int), sep)
            },
            None => tokens(v@.skip(from as int), sep) == Seq::<Seq<char>>::empty(),
        },
{
    let start = scan_lead(v, from, sep);
    proof {
        let s = v@.skip(from as int);
        lemma_tokens_after_lead(s, sep);
        lemma_lead_bounds(s, sep);
        assert(s.skip(start - from) == v@.skip(start as int));
    }
    if start >= v.len() {
        None
    } else {
        let end = scan_until(v, start + 1, sep);
        proof {
            let rest = v@.skip(start as int);
            assert(rest[0] == v@.skip(from as int)[start - from]);
            assert(rest.drop_first() == v@.skip(start + 1));
            assert(rest.take(end - start) == v@.subrange(start as int, end as int));
            assert(rest.skip(end - start) == v@.skip(end as int));
        }
        Some((start, end))
    }
}

/// Splits `v[from..]` into its tokens: the maximal runs of characters
/// outside `sep`.
pub(crate) fn split_tokens(v: &Vec<char>, from: usize, sep: CharClass) -> (toks: Vec<Vec<char>>)
    requires
        from <= v.len(),
    ensures
        seqs_of(toks@) == tokens(v@.skip(from as int), sep),
{
    let mut toks: Vec<Vec<char>> = Vec::new();
    let mut i: usize = from;
    assert(seqs_of(toks@) + tokens(v@.skip(from as int), sep) == tokens(v@.skip(from as int), sep));
    loop
        invariant
            from <= i <= v.len(),
            tokens(v@.skip(from as int), sep) == seqs_of(toks@) + tokens(v@.skip(i as int), sep),
        ensures
            tokens(v@.skip(from as int), sep) == seqs_of(toks@),
        decreases v.len() - i,
    {
        let ghost before = toks@;
        match next_token(v, i, sep) {
            None => {
                break ;
            },
            Some((start, end)) => {
                toks.push(copy_of(v, start, end));
                assert(seqs_of(toks@) == seqs_of(before) + seq![
                    v@.subrange(start as int, end as int),
                ]);
                i = end;
            },
        }
    }
    toks
}

} // verus!
