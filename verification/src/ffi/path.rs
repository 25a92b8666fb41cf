//! Paths as they come across the interface: one text, its names set apart
//! by slashes.

use vstd::prelude::*;
use vstd::string::*;

verus! {

/// Whether `c` is white space, as Unicode has it.
pub open spec fn is_white_space(c: char) -> bool {
    let code = c as u32;
    ||| 0x09 <= code <= 0x0d
    ||| code == 0x20
    ||| code == 0x85
    ||| code == 0xa0
    ||| code == 0x1680
    ||| 0x2000 <= code <= 0x200a
    ||| code == 0x2028
    ||| code == 0x2029
    ||| code == 0x202f
    ||| code == 0x205f
    ||| code == 0x3000
}

/// Whether `c` is taken off the ends of a path: a slash where slashes are
/// taken off, white space where that is.
pub open spec fn strips(slashes: bool, c: char) -> bool {
    if slashes {
        c == '/'
    } else {
        is_white_space(c)
    }
}

/// The first position from `from` on, and before `to`, at which `text` has a
/// character that is not taken off; `to` where it has none.
pub open spec fn skip_front(text: Seq<char>, slashes: bool, from: int, to: int) -> int
    decreases to - from,
{
    if from < to && strips(slashes, text[from]) {
        skip_front(text, slashes, from + 1, to)
    } else {
        from
    }
}

/// The position behind the last character before `to`, and not before
/// `from`, that is not taken off; `from` where there is none.
pub open spec fn skip_back(text: Seq<char>, slashes: bool, from: int, to: int) -> int
    decreases to - from,
{
    if from < to && strips(slashes, text[to - 1]) {
        skip_back(text, slashes, from, to - 1)
    } else {
        to
    }
}

/// What is left of `text` between `from` and `to` once slashes, or else
/// white space, are taken off both ends: where it starts and where it ends.
pub open spec fn stripped(text: Seq<char>, slashes: bool, from: int, to: int) -> (int, int) {
    let start = skip_front(text, slashes, from, to);
    (start, skip_back(text, slashes, start, to))
}

/// The parts of `text` from `start` on that `sep` sets apart, where the
/// part that is being read began at `start` and has been read up to `at`.
pub open spec fn split_scan(text: Seq<char>, sep: char, start: int, at: int) -> Seq<Seq<char>>
    decreases text.len() - at,
{
    if at >= text.len() {
        seq![text.subrange(start, text.len() as int)]
    } else if text[at] == sep {
        seq![text.subrange(start, at)] + split_scan(text, sep, at + 1, at + 1)
    } else {
        split_scan(text, sep, start, at + 1)
    }
}

/// The parts of `text` that `sep` sets apart: one more than `text` has
/// separators, and empty where two separators meet.
pub open spec fn split_on(text: Seq<char>, sep: char) -> Seq<Seq<char>> {
    split_scan(text, sep, 0, 0)
}

/// The names of a path: the text without the white space at its ends and
/// then without the slashes at its ends, split at its slashes.
pub open spec fn spec_parse_path(path: Seq<char>) -> Seq<Seq<char>> {
    let outer = stripped(path, false, 0, path.len() as int);
    let inner = stripped(path, true, outer.0, outer.1);
    split_on(path.subrange(inner.0, inner.1), '/')
}

/// Whether `c` is white space.
pub fn white_space(c: char) -> (white: bool)
    ensures
        white == is_white_space(c),
{
    let code = c as u32;
    (0x09 <= code && code <= 0x0d) || code == 0x20 || code == 0x85 || code == 0xa0 || code
        == 0x1680 || (0x2000 <= code && code <= 0x200a) || code == 0x2028 || code == 0x2029
        || code == 0x202f || code == 0x205f || code == 0x3000
}

/// Whether the character of `text` at `at` is taken off the ends of a path.
fn strips_at(text: &str, slashes: bool, at: usize) -> (gone: bool)
    requires
        at < text@.len(),
    ensures
        gone == strips(slashes, text@[at as int]),
{
    let c = text.get_char(at);
    if slashes {
        c == '/'
    } else {
        white_space(c)
    }
}

/// Where `text` starts and ends between `from` and `to` once slashes, or
/// else white space, are taken off both ends.
fn strip_ends(text: &str, slashes: bool, from: usize, to: usize) -> (ends: (usize, usize))
    requires
        from <= to <= text@.len(),
    ensures
        from <= ends.0 <= ends.1 <= to,
        (ends.0 as int, ends.1 as int) == stripped(text@, slashes, from as int, to as int),
{
    let mut start = from;
    while start < to && strips_at(text, slashes, start)
        invariant
            from <= start <= to <= text@.len(),
            skip_front(text@, slashes, from as int, to as int) == skip_front(
                text@,
                slashes,
                start as int,
                to as int,
            ),
        decreases to - start,
    {
        start = start + 1;
    }
    let mut end = to;
    while end > start && strips_at(text, slashes, end - 1)
        invariant
            start <= end <= to <= text@.len(),
            skip_back(text@, slashes, start as int, to as int) == skip_back(
                text@,
                slashes,
                start as int,
                end as int,
            ),
        decreases end - start,
    {
        end = end - 1;
    }
    (start, end)
}

/// Splits a path into its names: takes the white space off its ends, then
/// the slashes, and splits what is left at every slash. The empty path has
/// one name, the empty one.
pub fn parse_path(path: String) -> (names: Vec<String>)
    ensures
        names@.len() == spec_parse_path(path@).len(),
        forall|i: int| 0 <= i < names@.len() ==> (#[trigger] names@[i])@ == spec_parse_path(path@)[i],
{
    let whole = path.as_str();
    let length = whole.unicode_len();
    let outer = strip_ends(whole, false, 0, length);
    let inner = strip_ends(whole, true, outer.0, outer.1);
    let text = whole.substring_char(inner.0, inner.1);
    let size = inner.1 - inner.0;
    let mut names: Vec<String> = Vec::new();
    let mut start: usize = 0;
    let mut at: usize = 0;
    let ghost done: Seq<Seq<char>> = Seq::empty();
    while at < size
        invariant
            start <= at <= size,
            size == text@.len(),
            names@.len() == done.len(),
            forall|i: int| 0 <= i < names@.len() ==> (#[trigger] names@[i])@ == done[i],
            split_on(text@, '/') == done + split_scan(text@, '/', start as int, at as int),
        decreases size - at,
    {
        if text.get_char(at) == '/' {
            names.push(text.substring_char(start, at).to_owned());
            proof {
                let part = text@.subrange(start as int, at as int);
                done = done.push(part);
            }
            start = at + 1;
        }
        at = at + 1;
    }
    names.push(text.substring_char(start, size).to_owned());
    proof {
        let part = text@.subrange(start as int, size as int);
        done = done.push(part);
    }
    names
}

} // verus!
