//! Splitting text into lines, comma-separated fields, the two sides of a
//! transition arrow, and blank-separated words.
//!
//! Each executable function hands back sub-slices of its argument and is
//! specified by a function on sequences of characters.

use vstd::prelude::*;

verus! {

/// Text as contracts see it.
pub type Text = Seq<char>;

/// The texts of a sequence of string slices.
pub open spec fn texts(v: Seq<&str>) -> Seq<Text> {
    v.map_values(|s: &str| s@)
}

/// The texts of a sequence of owned strings.
pub open spec fn names(v: Seq<String>) -> Seq<Text> {
    v.map_values(|s: String| s@)
}

/// The pieces of `s` between occurrences of `sep`. There is always at least
/// one piece, and pieces may be empty: reading `s` from the left, every `sep`
/// closes the current piece and opens a new one, and every other character
/// is appended to the current piece.
pub open spec fn split(s: Text, sep: char) -> Seq<Text>
    decreases s.len(),
{
    if s.len() == 0 {
        seq![Seq::empty()]
    } else {
        let before = split(s.drop_last(), sep);
        if s.last() == sep {
            before.push(Seq::empty())
        } else {
            before.drop_last().push(before.last().push(s.last()))
        }
    }
}

/// `s` without one trailing carriage return.
pub open spec fn strip_cr(s: Text) -> Text {
    if s.len() > 0 && s.last() == '\r' {
        s.drop_last()
    } else {
        s
    }
}

/// The lines of `text`. A line ends at a line feed; a carriage return just
/// before that line feed belongs to the line ending. What follows the last
/// line feed is a line of its own unless it is empty, so a final line ending
/// is optional and the empty text has no lines.
pub open spec fn lines(text: Text) -> Seq<Text> {
    let pieces = split(text, '\n');
    let ended = pieces.drop_last().map_values(|p: Text| strip_cr(p));
    if pieces.last().len() == 0 {
        ended
    } else {
        ended.push(pieces.last())
    }
}

/// Whether the two characters `=>` stand at position `i` of `s`.
pub open spec fn arrow_at(s: Text, i: int) -> bool {
    0 <= i && i + 1 < s.len() && s[i] == '=' && s[i + 1] == '>'
}

/// Whether `i` is the position of the leftmost `=>` in `s`.
pub open spec fn first_arrow_at(s: Text, i: int) -> bool {
    arrow_at(s, i) && forall|j: int| 0 <= j < i ==> !arrow_at(s, j)
}

/// Whether `s` holds `=>` anywhere.
pub open spec fn has_arrow(s: Text) -> bool {
    exists|i: int| arrow_at(s, i)
}

/// The position of the leftmost `=>` in `s`, where there is one.
pub open spec fn first_arrow(s: Text) -> int {
    choose|i: int| first_arrow_at(s, i)
}

/// What stands before the leftmost `=>`, or all of `s` where it has none.
pub open spec fn before_arrow(s: Text) -> Text {
    if has_arrow(s) {
        s.take(first_arrow(s))
    } else {
        s
    }
}

/// What stands after the leftmost `=>`, where there is one.
pub open spec fn after_arrow(s: Text) -> Text {
    s.skip(first_arrow(s) + 2)
}

/// The maximal runs of characters other than the blank, left to right.
pub open spec fn words(s: Text) -> Seq<Text> {
    split(s, ' ').filter(|p: Text| p.len() > 0)
}

/// A text that holds an arrow has exactly one leftmost arrow.
pub proof fn lemma_first_arrow(s: Text, i: int)
    requires
        first_arrow_at(s, i),
    ensures
        has_arrow(s),
        first_arrow(s) == i,
{
    assert(first_arrow_at(s, first_arrow(s)));
}

/// The characters of `s`, one by one.
pub fn chars_of(s: &str) -> (out: Vec<char>)
    ensures
        out@ == s@,
{
    broadcast use vstd::string::group_string_axioms;

    let mut out: Vec<char> = Vec::new();
    let chars = s.chars();
    for c in it: chars
        invariant
            it.seq() == s@,
            out@ == s@.take(it.index() as int),
    {
        out.push(c);
    }
    out
}

/// Splits `s` at every `sep`, as `str::split` does with a character.
pub fn split_on<'a>(s: &'a str, sep: char) -> (out: Vec<&'a str>)
    ensures
        texts(out@) == split(s@, sep),
        out.len() >= 1,
{
    let cs = chars_of(s);
    let mut out: Vec<&'a str> = Vec::new();
    let mut start: usize = 0;
    let mut i: usize = 0;
    proof {
        assert(s@.subrange(0, 0) =~= Seq::empty());
    }
    while i < cs.len()
        invariant
            cs@ == s@,
            start <= i <= cs.len(),
            split(s@.take(i as int), sep) == texts(out@).push(
                s@.subrange(start as int, i as int),
            ),
        decreases cs.len() - i,
    {
        let ghost current = s@.subrange(start as int, i as int);
        proof {
            assert(s@.take(i + 1).drop_last() =~= s@.take(i as int));
        }
        if cs[i] == sep {
            out.push(s.substring_char(start, i));
            start = i + 1;
            proof {
                assert(s@.subrange(start as int, i + 1) =~= Seq::empty());
            }
        } else {
            proof {
                assert(current.push(s@[i as int]) =~= s@.subrange(start as int, i + 1));
            }
        }
        i += 1;
    }
    out.push(s.substring_char(start, i));
    proof {
        assert(s@.take(i as int) =~= s@);
    }
    out
}

/// `s` without one trailing carriage return.
pub fn strip_cr_of<'a>(s: &'a str) -> (out: &'a str)
    ensures
        out@ == strip_cr(s@),
{
    let n = s.unicode_len();
    if n > 0 && s.get_char(n - 1) == '\r' {
        s.substring_char(0, n - 1)
    } else {
        s
    }
}

/// The lines of `s`, as `str::lines` yields them.
pub fn lines_of<'a>(s: &'a str) -> (out: Vec<&'a str>)
    ensures
        texts(out@) == lines(s@),
{
    let mut pieces = split_on(s, '\n');
    let ghost all = texts(pieces@);
    let last = pieces.pop().unwrap();
    proof {
        assert(texts(pieces@) =~= all.drop_last());
    }
    let mut out: Vec<&'a str> = Vec::new();
    let mut i: usize = 0;
    while i < pieces.len()
        invariant
            i <= pieces.len(),
            texts(out@) == texts(pieces@).take(i as int).map_values(|p: Text| strip_cr(p)),
        decreases pieces.len() - i,
    {
        let ghost done = texts(out@);
        out.push(strip_cr_of(pieces[i]));
        proof {
            assert(texts(out@) =~= done.push(strip_cr(pieces@[i as int]@)));
        }
        i += 1;
    }
    proof {
        assert(texts(pieces@).take(i as int) =~= texts(pieces@));
    }
    if !last.is_empty() {
        out.push(last);
    }
    out
}

/// Splits `s` at its leftmost `=>`: what stands before it, and what stands
/// after it. Without an arrow the first is all of `s` and the second is
/// `None`.
pub fn split_arrow<'a>(s: &'a str) -> (out: (&'a str, Option<&'a str>))
    ensures
        out.0@ == before_arrow(s@),
        out.1 is Some <==> has_arrow(s@),
        out.1 matches Some(right) ==> right@ == after_arrow(s@),
{
    let cs = chars_of(s);
    let n = cs.len();
    if n < 2 {
        return (s, None);
    }
    let mut i: usize = 0;
    while i < n - 1
        invariant
            cs@ == s@,
            n == cs.len(),
            n >= 2,
            forall|j: int| 0 <= j < i ==> !arrow_at(s@, j),
        decreases n - i,
    {
        if cs[i] == '=' && cs[i + 1] == '>' {
            proof {
                lemma_first_arrow(s@, i as int);
            }
            return (s.substring_char(0, i), Some(s.substring_char(i + 2, n)));
        }
        i += 1;
    }
    (s, None)
}

/// The blank-separated words of `s`; runs of blanks separate like a single
/// blank, and blanks at either end are dropped.
pub fn words_of<'a>(s: &'a str) -> (out: Vec<&'a str>)
    ensures
        texts(out@) == words(s@),
{
    let pieces = split_on(s, ' ');
    let ghost keep = |p: Text| p.len() > 0;
    let mut out: Vec<&'a str> = Vec::new();
    let mut i: usize = 0;
    while i < pieces.len()
        invariant
            i <= pieces.len(),
            keep == |p: Text| p.len() > 0,
            texts(out@) == texts(pieces@).take(i as int).filter(keep),
        decreases pieces.len() - i,
    {
        proof {
            texts(pieces@).take(i as int).lemma_filter_push(pieces@[i as int]@, keep);
            assert(texts(pieces@).take(i as int).push(pieces@[i as int]@) =~= texts(pieces@).take(
                i + 1,
            ));
        }
        if !pieces[i].is_empty() {
            out.push(pieces[i]);
        }
        i += 1;
    }
    proof {
        assert(texts(pieces@).take(i as int) =~= texts(pieces@));
    }
    out
}

/// Whether `list` holds the text of `s`.
pub fn holds(list: &Vec<String>, s: &str) -> (r: bool)
    ensures
        r == names(list@).contains(s@),
{
    let wanted = s.to_owned();
    let mut i: usize = 0;
    while i < list.len()
        invariant
            i <= list.len(),
            wanted@ == s@,
            forall|j: int| 0 <= j < i ==> names(list@)[j] != s@,
        decreases list.len() - i,
    {
        if list[i] == wanted {
            assert(names(list@)[i as int] == s@);
            return true;
        }
        i += 1;
    }
    false
}

/// Appends `s` to `list` unless `list` holds its text already. As a set,
/// the list gains `s`; a list without repetitions stays one.
pub fn add_unique(list: &mut Vec<String>, s: &str)
    ensures
        names(final(list)@) == if names(old(list)@).contains(s@) {
            names(old(list)@)
        } else {
            names(old(list)@).push(s@)
        },
        names(final(list)@).to_set() == names(old(list)@).to_set().insert(s@),
        names(old(list)@).no_duplicates() ==> names(final(list)@).no_duplicates(),
{
    if !holds(list, s) {
        let ghost before = names(list@);
        list.push(s.to_owned());
        proof {
            before.lemma_push_to_set_commute(s@);
        }
    }
}

} // verus!
