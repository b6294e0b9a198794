//! Small helpers on text: characters in and out of strings, and the lines of
//! a text.

use vstd::prelude::*;
use vstd::string::*;

verus! {

/// `String::push` of the standard library: appends one character to the end
/// of the string and leaves the rest as it was.
pub assume_specification[ String::push ](s: &mut String, c: char)
    ensures
        final(s)@ == old(s)@.push(c),
;

/// The characters of `s`.
pub fn chars_of(s: &str) -> (chars: Vec<char>)
    ensures
        chars@ == s@,
{
    broadcast use vstd::string::group_string_axioms;

    let mut chars: Vec<char> = Vec::new();
    for c in iter: s.chars()
        invariant
            iter.seq() == s@,
            chars@ == s@.take(iter.index()),
    {
        chars.push(c);
        assert(s@.take(iter.index() + 1) =~= s@.take(iter.index()).push(c));
    }
    assert(s@.take(s@.len() as int) =~= s@);
    chars
}

/// The string of the first `n` characters of `chars`.
pub fn string_of(chars: &Vec<char>, n: usize) -> (s: String)
    requires
        n <= chars@.len(),
    ensures
        s@ == chars@.take(n as int),
{
    let mut s = String::new();
    let mut i: usize = 0;
    while i < n
        invariant
            i <= n <= chars@.len(),
            s@ == chars@.take(i as int),
        decreases n - i,
    {
        s.push(chars[i]);
        assert(chars@.take(i + 1) =~= chars@.take(i as int).push(chars@[i as int]));
        i += 1;
    }
    s
}

/// The string of the characters of `chars`, last first.
pub fn reversed(chars: &Vec<char>) -> (s: String)
    ensures
        s@ == chars@.reverse(),
{
    let mut s = String::new();
    let mut i: usize = chars.len();
    while i > 0
        invariant
            i <= chars@.len(),
            s@ == chars@.reverse().take(chars@.len() - i),
        decreases i,
    {
        i -= 1;
        s.push(chars[i]);
        assert(chars@.reverse().take(chars@.len() - i) =~= chars@.reverse().take(
            chars@.len() - i - 1,
        ).push(chars@[i as int]));
    }
    assert(chars@.reverse().take(chars@.len() as int) =~= chars@.reverse());
    s
}

/// A line without the carriage return that stood before its line feed.
pub open spec fn without_return(line: Seq<char>) -> Seq<char> {
    if line.len() > 0 && line.last() == '\r' {
        line.drop_last()
    } else {
        line
    }
}

/// The lines that are complete after `text`, and the characters of the line
/// that is still open. A line feed ends a line; a carriage return just
/// before it belongs to the line ending.
pub open spec fn lines_so_far(text: Seq<char>) -> (Seq<Seq<char>>, Seq<char>)
    decreases text.len(),
{
    if text.len() == 0 {
        (Seq::empty(), Seq::empty())
    } else {
        let (done, open) = lines_so_far(text.drop_last());
        if text.last() == '\n' {
            (done.push(without_return(open)), Seq::empty())
        } else {
            (done, open.push(text.last()))
        }
    }
}

/// The lines of `text`, without their line endings. What follows the last
/// line feed is a line too, unless it is empty; a carriage return at its end
/// stays.
pub open spec fn lines_of(text: Seq<char>) -> Seq<Seq<char>> {
    let (done, open) = lines_so_far(text);
    if open.len() == 0 {
        done
    } else {
        done.push(open)
    }
}

/// The lines of `text`.
pub fn split_lines(text: &str) -> (lines: Vec<String>)
    ensures
        lines@.len() == lines_of(text@).len(),
        forall|i: int| 0 <= i < lines@.len() ==> (#[trigger] lines@[i])@ == lines_of(text@)[i],
{
    let chars = chars_of(text);
    let mut lines: Vec<String> = Vec::new();
    let mut open: Vec<char> = Vec::new();
    let mut i: usize = 0;
    while i < chars.len()
        invariant
            i <= chars.len(),
            lines@.len() == lines_so_far(chars@.take(i as int)).0.len(),
            forall|k: int|
                0 <= k < lines@.len() ==> (#[trigger] lines@[k])@ == lines_so_far(
                    chars@.take(i as int),
                ).0[k],
            open@ == lines_so_far(chars@.take(i as int)).1,
        decreases chars.len() - i,
    {
        let c = chars[i];
        proof {
            let next = chars@.take(i + 1);
            assert(next.drop_last() =~= chars@.take(i as int));
            assert(next.last() == c);
        }
        if c == '\n' {
            let n = open.len();
            let line = if n > 0 && open[n - 1] == '\r' {
                string_of(&open, n - 1)
            } else {
                string_of(&open, n)
            };
            proof {
                assert(open@.take(n as int) =~= open@);
                assert(n > 0 ==> open@.take(n - 1) =~= open@.drop_last());
            }
            lines.push(line);
            open = Vec::new();
        } else {
            open.push(c);
        }
        i += 1;
    }
    proof {
        assert(chars@.take(chars@.len() as int) =~= chars@);
        assert(open@.take(open@.len() as int) =~= open@);
    }
    if open.len() > 0 {
        let line = string_of(&open, open.len());
        lines.push(line);
    }
    lines
}

} // verus!
