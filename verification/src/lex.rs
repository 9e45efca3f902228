//! Where the scanner of the scripting language stands in its source, and
//! how that place is shown to the user.

use vstd::prelude::*;
use vstd::string::StringExecFns;

use crate::text::push_char;

verus! {

/// A place in a source text: a line and a column, both counted from 0, and
/// the index of the character.
#[derive(Copy, Clone, Debug)]
pub struct Location {
    col: i32,
    line: i32,
    index: usize,
}

/// The kinds of token of the scripting language.
#[derive(Debug, Clone, Copy, PartialEq, Eq, Structural)]
pub enum TokenKind {
    Identifier,
    Syntax,
    Keyword,
    Number,
    Operator,
}

/// The characters of line `line` of `raw`, lines counted from 0, without
/// its line feed.
pub open spec fn line_text(raw: Seq<char>, line: int) -> Seq<char>
    decreases raw.len(),
{
    if raw.len() == 0 {
        Seq::empty()
    } else if raw.last() != '\n' && line_feeds(raw.drop_last()) == line {
        line_text(raw.drop_last(), line).push(raw.last())
    } else {
        line_text(raw.drop_last(), line)
    }
}

/// The number of line feeds in `raw`.
pub open spec fn line_feeds(raw: Seq<char>) -> int
    decreases raw.len(),
{
    if raw.len() == 0 {
        0
    } else if raw.last() == '\n' {
        line_feeds(raw.drop_last()) + 1
    } else {
        line_feeds(raw.drop_last())
    }
}

/// The message that points at column `col` of the line `text`.
pub open spec fn pointed(msg: Seq<char>, text: Seq<char>, col: nat) -> Seq<char> {
    msg + seq!['\n', '\n'] + text + seq!['\n'] + Seq::new(col, |i: int| ' ') + seq![
        '^',
        ' ',
        'N',
        'e',
        'a',
        'r',
        ' ',
        'h',
        'e',
        'r',
        'e',
    ]
}

impl Default for Location {
    fn default() -> (loc: Location)
        ensures
            loc@ == (0int, 0int, 0int),
    {
        Location { col: 0, line: 0, index: 0 }
    }
}

impl View for Location {
    type V = (int, int, int);

    /// The line, the column and the index.
    closed spec fn view(&self) -> (int, int, int) {
        (self.line as int, self.col as int, self.index as int)
    }
}

impl Location {
    /// The line, the column and the index of the character.
    pub fn position(&self) -> (at: (i32, i32, usize))
        ensures
            self@ == (at.0 as int, at.1 as int, at.2 as int),
    {
        (self.line, self.col, self.index)
    }

    /// The place one character on; on the next line if `newline` is set.
    pub fn increment_one(&self, newline: bool) -> (next: Location)
        requires
            self@.0 < i32::MAX,
            self@.1 < i32::MAX,
            self@.2 < usize::MAX,
        ensures
            next@ == if newline {
                (self@.0 + 1, 0int, self@.2 + 1)
            } else {
                (self@.0, self@.1 + 1, self@.2 + 1)
            },
    {
        self.increment(1, newline)
    }

    /// The place `i` characters on: in the same line, or, if `newline` is
    /// set, at the start of the next line.
    pub fn increment(&self, i: i32, newline: bool) -> (next: Location)
        requires
            0 <= i,
            self@.2 + i <= usize::MAX,
            newline ==> self@.0 < i32::MAX,
            !newline ==> self@.1 + i <= i32::MAX,
        ensures
            next@ == if newline {
                (self@.0 + 1, 0int, self@.2 + i)
            } else {
                (self@.0, self@.1 + i, self@.2 + i)
            },
    {
        if newline {
            Location { index: self.index + i as usize, col: 0, line: self.line + 1 }
        } else {
            Location { index: self.index + i as usize, col: self.col + i, line: self.line }
        }
    }

    /// A message for the user: `msg`, then the line of `raw` that this
    /// place is in, then a caret under its column.
    pub fn debug(&self, raw: &[char], msg: &str) -> (out: String)
        requires
            self@.1 >= 0,
        ensures
            out@ == pointed(msg@, line_text(raw@, self@.0), self@.1 as nat),
    {
        let mut line: usize = 0;
        let mut line_str = String::new();
        let mut i: usize = 0;
        proof {
            assert(raw@.take(0) == Seq::<char>::empty());
        }
        while i < raw.len()
            invariant
                i <= raw.len(),
                line == line_feeds(raw@.take(i as int)),
                line <= i,
                line_str@ == line_text(raw@.take(i as int), self@.0),
            decreases raw.len() - i,
        {
            proof {
                assert(raw@.take(i + 1).drop_last() == raw@.take(i as int));
            }
            let c = raw[i];
            if c == '\n' {
                line += 1;
            } else if self.line >= 0 && self.line as usize == line {
                push_char(&mut line_str, c);
            }
            i += 1;
        }
        proof {
            assert(raw@.take(raw.len() as int) == raw@);
        }
        let mut out = String::from_str(msg);
        push_char(&mut out, '\n');
        push_char(&mut out, '\n');
        out.append(line_str.as_str());
        push_char(&mut out, '\n');
        let ghost head = out@;
        let mut k: i32 = 0;
        while k < self.col
            invariant
                0 <= k <= self.col,
                out@ == head + Seq::new(k as nat, |i: int| ' '),
            decreases self.col - k,
        {
            push_char(&mut out, ' ');
            k += 1;
            proof {
                assert(Seq::new((k - 1) as nat, |i: int| ' ').push(' ') == Seq::new(
                    k as nat,
                    |i: int| ' ',
                ));
            }
        }
        let ghost spaced = out@;
        out.append("^ Near here");
        proof {
            reveal_strlit("^ Near here");
            assert("^ Near here"@ == seq!['^', ' ', 'N', 'e', 'a', 'r', ' ', 'h', 'e', 'r', 'e']);
            assert(head == msg@ + seq!['\n', '\n'] + line_text(raw@, self@.0) + seq!['\n']);
        }
        out
    }
}

} // verus!
