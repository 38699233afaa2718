//! The entry syntax of file and stream sources, one line at a time.
use vstd::prelude::*;
use crate::text::{chars_of, find_char, index_of, parse_uint, trim, trim_range, uint_of};

verus! {

/// A value wrapped in double quotes stands for what is between them.
pub open spec fn unquote(v: Seq<char>) -> Seq<char> {
    if v.len() >= 2 && v[0] == '"' && v.last() == '"' {
        v.subrange(1, v.len() - 1)
    } else {
        v
    }
}

/// A line split into its trimmed name and, after the first `=`, its trimmed and
/// unquoted value; `None` for a blank line.
pub open spec fn split_line(line: Seq<char>) -> Option<(Seq<char>, Option<Seq<char>>)> {
    let t = trim(line);
    let k = index_of(t, '=');
    if t.len() == 0 {
        None
    } else if k == t.len() {
        Some((t, None))
    } else {
        Some((trim(t.subrange(0, k)), Some(unquote(trim(t.subrange(k + 1, t.len() as int))))))
    }
}

pub open spec fn split_view(r: Option<(String, Option<String>)>) -> Option<
    (Seq<char>, Option<Seq<char>>),
> {
    match r {
        None => None,
        Some((n, None)) => Some((n@, None)),
        Some((n, Some(v))) => Some((n@, Some(v@))),
    }
}

/// Splits one line of the entry syntax into a name and an optional value.
/// A blank line gives `None`.
pub fn parse_line(input: &str) -> (r: Option<(String, Option<String>)>)
    ensures
        split_view(r) == split_line(input@),
{
    let cs = chars_of(input);
    let n = cs.len();
    let (lo, hi) = trim_range(&cs, 0, n);
    assert(cs@.subrange(0, n as int) =~= input@);
    let ghost t = trim(input@);
    if lo == hi {
        return None;
    }
    let k = find_char(&cs, '=', lo, hi);
    if k == hi {
        let name = input.substring_char(lo, hi).to_owned();
        return Some((name, None));
    }
    let (na, nb) = trim_range(&cs, lo, k);
    let (va, vb) = trim_range(&cs, k + 1, hi);
    proof {
        assert(t.subrange(0, k - lo) =~= cs@.subrange(lo as int, k as int));
        assert(t.subrange(k - lo + 1, t.len() as int) =~= cs@.subrange(k + 1, hi as int));
    }
    let name = input.substring_char(na, nb).to_owned();
    let value = if vb - va >= 2 && cs[va] == '"' && cs[vb - 1] == '"' {
        proof {
            let v = cs@.subrange(va as int, vb as int);
            assert(v.subrange(1, v.len() - 1) =~= cs@.subrange(va + 1, vb - 1));
        }
        input.substring_char(va + 1, vb - 1).to_owned()
    } else {
        input.substring_char(va, vb).to_owned()
    };
    Some((name, Some(value)))
}

/// The name that marks a line as a `base_score` directive.
pub open spec fn directive_name() -> Seq<char> {
    seq!['%', 'b', 'a', 's', 'e', '_', 's', 'c', 'o', 'r', 'e']
}

/// What one line of the entry syntax stands for.
pub enum LineKind {
    /// A blank line.
    Ignored,
    /// `%base_score=<uint>`: the score of the entries that follow.
    Directive(usize),
    /// An entry with its name and value.
    Entry(Seq<char>, Seq<char>),
    /// A line that cannot be read: dropped.
    Malformed,
}

pub open spec fn line_kind(line: Seq<char>) -> LineKind {
    match split_line(line) {
        None => LineKind::Ignored,
        Some((name, None)) => LineKind::Entry(name, name),
        Some((name, Some(value))) => if name == directive_name() {
            match uint_of(value) {
                Some(b) => LineKind::Directive(b),
                None => LineKind::Malformed,
            }
        } else if name.len() == 0 {
            LineKind::Malformed
        } else {
            LineKind::Entry(name, value)
        },
    }
}

/// One parsed line of the entry syntax.
pub enum ParsedLine {
    Ignored,
    Directive(usize),
    Entry(String, String),
    Malformed,
}

impl View for ParsedLine {
    type V = LineKind;

    open spec fn view(&self) -> LineKind {
        match self {
            ParsedLine::Ignored => LineKind::Ignored,
            ParsedLine::Directive(b) => LineKind::Directive(*b),
            ParsedLine::Entry(n, v) => LineKind::Entry(n@, v@),
            ParsedLine::Malformed => LineKind::Malformed,
        }
    }
}

fn is_directive_name(name: &String) -> (r: bool)
    ensures
        r == (name@ == directive_name()),
{
    let key = String::from_str("%base_score");
    proof {
        reveal_strlit("%base_score");
        assert(key@ =~= directive_name());
    }
    *name == key
}

/// Tells what one line of the entry syntax stands for.
pub fn read_line(input: &str) -> (r: ParsedLine)
    ensures
        r@ == line_kind(input@),
{
    match parse_line(input) {
        None => ParsedLine::Ignored,
        Some((name, None)) => {
            let value = name.clone();
            ParsedLine::Entry(name, value)
        },
        Some((name, Some(value))) => {
            if is_directive_name(&name) {
                let vc = chars_of(value.as_str());
                assert(vc@.subrange(0, vc.len() as int) =~= value@);
                match parse_uint(&vc, 0, vc.len()) {
                    Some(b) => ParsedLine::Directive(b),
                    None => ParsedLine::Malformed,
                }
            } else if name.as_str().is_empty() {
                ParsedLine::Malformed
            } else {
                ParsedLine::Entry(name, value)
            }
        },
    }
}

} // verus!
