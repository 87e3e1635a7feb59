//! Which JSON texts a reader of lines can take apart.
//!
//! Such a reader ends an object at its last line that holds nothing but a closing brace,
//! and takes what stands in front for the entries. It goes wrong where that line belongs
//! to an object inside and an entry follows it, and where it takes a brace in a string
//! for the start of an object.

use vstd::prelude::*;
use crate::text::{is_white, lines, same_str, split_lines, texts, trim, trimmed, white};

verus! {

broadcast use vstd::string::group_string_axioms;

// ---------------------------------------------------------------------------
// Texts in which no entry follows a lone brace
// ---------------------------------------------------------------------------

/// Behind a line that holds nothing but a closing brace no line holds a colon.
pub open spec fn quiet(s: Seq<char>) -> bool {
    forall|i: int, j: int|
        0 <= i < j < lines(s).len() && trim(#[trigger] lines(s)[i]) == "}"@
            ==> !(#[trigger] lines(s)[j]).contains(':')
}

fn has_colon(l: &[char]) -> (r: bool)
    ensures
        r == l@.contains(':'),
{
    let mut i: usize = 0;
    while i < l.len()
        invariant
            i <= l@.len(),
            forall|k: int| 0 <= k < i ==> l@[k] != ':',
        decreases l@.len() - i,
    {
        if l[i] == ':' {
            proof {
                assert(l@[i as int] == ':');
            }
            return true;
        }
        i = i + 1;
    }
    false
}

/// Does no line behind a lone closing brace hold a colon?
pub fn is_quiet(s: &[char]) -> (r: bool)
    ensures
        r == quiet(s@),
{
    let ls = split_lines(s);
    let ghost all = lines(s@);
    let mut lone: Option<usize> = None;
    let mut j: usize = 0;
    while j < ls.len()
        invariant
            j <= ls@.len(),
            texts(ls@) == all,
            all == lines(s@),
            match lone {
                Some(i) => i < j && trim(all[i as int]) == "}"@,
                None => forall|i: int| 0 <= i < j ==> trim(#[trigger] all[i]) != "}"@,
            },
            forall|a: int, b: int|
                0 <= a < b < j && trim(#[trigger] all[a]) == "}"@ ==> !(
                #[trigger] all[b]).contains(':'),
        decreases ls@.len() - j,
    {
        let l = ls[j].as_slice();
        proof {
            assert(all[j as int] == l@);
        }
        match lone {
            Some(i) => {
                if has_colon(l) {
                    proof {
                        assert(trim(all[i as int]) == "}"@ && all[j as int].contains(':'));
                    }
                    return false;
                }
            },
            None => {
                if same_str(trimmed(l), "}") {
                    lone = Some(j);
                }
            },
        }
        j = j + 1;
    }
    true
}

// ---------------------------------------------------------------------------
// Texts in which every object ends where it is looked for
// ---------------------------------------------------------------------------

/// What stands on a line so far.
#[derive(Clone, Copy, PartialEq, Eq, Structural)]
pub enum LineSoFar {
    Blank,
    /// One closing brace, and nothing else.
    LoneBrace,
    Filled,
}

/// The last string or mark in front, whatever else stands between.
#[derive(Clone, Copy, PartialEq, Eq, Structural)]
pub enum Before {
    /// An opening bracket or a comma, or the start of the text.
    Opening,
    /// A colon, with no brace in a string between the first colon of its line and it.
    CleanColon,
    /// Another colon.
    Colon,
    /// A string or a closing bracket.
    Value,
}

/// Where a scan of a text stands, but for what is open.
#[derive(Clone, Copy, PartialEq, Eq, Structural)]
pub struct Scan {
    pub in_string: bool,
    /// The next character of the string is escaped.
    pub escaped: bool,
    /// The number of the line; the first is zero.
    pub line: usize,
    pub so_far: LineSoFar,
    /// The last line before that held a closing brace alone; zero where no later one
    /// than the first did.
    pub lone: usize,
    /// A colon stands on this line.
    pub colon: bool,
    /// A string behind a colon of this line holds an opening brace.
    pub braced: bool,
    pub before: Before,
    /// Everything that was opened is closed again.
    pub done: bool,
}

/// An object or an array that is open: the line it starts on, and the line of the last
/// colon directly inside, or zero where there is none.
#[derive(Clone, Copy, PartialEq, Eq, Structural)]
pub struct Opened {
    pub is_object: bool,
    pub start: usize,
    pub colon: usize,
}

/// A scan and what is open.
pub struct Reading {
    pub at: Scan,
    pub open: Seq<Opened>,
}

/// The scan with something more on its line.
pub open spec fn filled(at: Scan) -> Scan {
    Scan { so_far: LineSoFar::Filled, ..at }
}

/// The last line with a closing brace alone, with the line that the scan stands on.
pub open spec fn last_lone(at: Scan) -> usize {
    if at.so_far == LineSoFar::LoneBrace {
        at.line
    } else {
        at.lone
    }
}

/// The scan behind a line.
pub open spec fn next_line(at: Scan) -> Scan {
    Scan {
        line: (at.line + 1) as usize,
        so_far: LineSoFar::Blank,
        lone: last_lone(at),
        colon: false,
        braced: false,
        ..at
    }
}

/// A closing brace inside stands alone on its line, and an entry follows behind it.
pub open spec fn tangled(o: Opened, lone: usize) -> bool {
    o.start < lone < o.colon
}

/// A character inside a string.
pub open spec fn string_step(at: Scan, c: char) -> Scan {
    if !at.escaped && c == '"' {
        Scan { in_string: false, ..at }
    } else {
        Scan {
            escaped: !at.escaped && c == '\\',
            braced: at.braced || (c == '{' && at.colon),
            ..at
        }
    }
}

impl Reading {
    /// The innermost of what is open, with a colon on the line.
    pub open spec fn with_colon(self) -> Seq<Opened> {
        if self.open.len() == 0 {
            self.open
        } else {
            self.open.drop_last().push(Opened { colon: self.at.line, ..self.open.last() })
        }
    }

    /// The scan with a bracket opened.
    pub open spec fn opened(self, is_object: bool) -> Reading {
        Reading {
            at: Scan { before: Before::Opening, ..filled(self.at) },
            open: self.open.push(Opened { is_object, start: self.at.line, colon: 0 }),
        }
    }

    /// The scan with the innermost bracket closed.
    pub open spec fn closed(self, so_far: LineSoFar) -> Reading {
        Reading {
            at: Scan {
                so_far,
                before: Before::Value,
                done: self.open.len() == 1,
                ..self.at
            },
            open: self.open.drop_last(),
        }
    }

    /// The scan with one character more that is no white space, outside a string.
    pub open spec fn mark(self, c: char) -> Option<Reading> {
        if self.at.done {
            None
        } else if c == '"' {
            Some(
                Reading {
                    at: Scan {
                        in_string: true,
                        escaped: false,
                        before: Before::Value,
                        ..filled(self.at)
                    },
                    open: self.open,
                },
            )
        } else if c == ':' {
            Some(
                Reading {
                    at: Scan {
                        colon: true,
                        before: if self.at.braced {
                            Before::Colon
                        } else {
                            Before::CleanColon
                        },
                        ..filled(self.at)
                    },
                    open: self.with_colon(),
                },
            )
        } else if c == ',' {
            Some(
                Reading {
                    at: Scan { before: Before::Opening, ..filled(self.at) },
                    open: self.open,
                },
            )
        } else if c == '{' {
            if self.at.before == Before::Value || self.at.before == Before::Colon {
                None
            } else {
                Some(self.opened(true))
            }
        } else if c == '[' {
            Some(self.opened(false))
        } else if c == '}' {
            if self.open.len() > 0 && self.open.last().is_object && (self.at.so_far
                == LineSoFar::Blank || !tangled(self.open.last(), self.at.lone)) {
                Some(
                    self.closed(
                        if self.at.so_far == LineSoFar::Blank {
                            LineSoFar::LoneBrace
                        } else {
                            LineSoFar::Filled
                        },
                    ),
                )
            } else {
                None
            }
        } else if c == ']' {
            if self.open.len() > 0 && !self.open.last().is_object {
                Some(self.closed(LineSoFar::Filled))
            } else {
                None
            }
        } else {
            Some(Reading { at: filled(self.at), open: self.open })
        }
    }

    /// The scan with one character more, or `None` where a reader of lines may go wrong.
    pub open spec fn step(self, c: char) -> Option<Reading> {
        if c == '\n' {
            if self.at.in_string {
                None
            } else {
                Some(Reading { at: next_line(self.at), open: self.open })
            }
        } else if self.at.in_string {
            Some(Reading { at: string_step(self.at, c), open: self.open })
        } else if white(c) {
            Some(self)
        } else {
            self.mark(c)
        }
    }
}

/// Where a scan starts.
pub open spec fn scan_start() -> Scan {
    Scan {
        in_string: false,
        escaped: false,
        line: 0,
        so_far: LineSoFar::Blank,
        lone: 0,
        colon: false,
        braced: false,
        before: Before::Opening,
        done: false,
    }
}

/// The scan of the first `k` characters.
pub open spec fn scanned(s: Seq<char>, k: int) -> Option<Reading>
    decreases k,
{
    if k <= 0 {
        Some(Reading { at: scan_start(), open: Seq::empty() })
    } else {
        match scanned(s, k - 1) {
            Some(r) => r.step(s[k - 1]),
            None => None,
        }
    }
}

/// Does every object end where a reader of lines looks for its end? No string spans
/// lines, brackets nest, an object stands where a value may stand, none is opened behind
/// a brace in a string on its line, and none is [`tangled`] but where its closing brace
/// comes first on its line.
pub open spec fn laid_out(s: Seq<char>) -> bool {
    scanned(s, s.len() as int) matches Some(r) && !r.at.in_string && (r.open.len() == 0
        || !tangled(r.open[0], last_lone(r.at)))
}

fn is_tangled(o: Opened, lone: usize) -> (r: bool)
    ensures
        r == tangled(o, lone),
{
    o.start < lone && lone < o.colon
}

fn lone_line(at: Scan) -> (r: usize)
    ensures
        r == last_lone(at),
{
    if at.so_far == LineSoFar::LoneBrace {
        at.line
    } else {
        at.lone
    }
}

/// One step of the scan outside a string, for a character that is not white space.
fn mark_next(at: Scan, open: &mut Vec<Opened>, c: char) -> (r: Option<Scan>)
    ensures
        match (Reading { at, open: old(open)@ }).mark(c) {
            Some(n) => r == Some(n.at) && final(open)@ == n.open,
            None => r is None,
        },
{
    if at.done {
        return None;
    }
    let k: usize = open.len();
    let mut n = at;
    n.so_far = LineSoFar::Filled;
    if c == '"' {
        n.in_string = true;
        n.escaped = false;
        n.before = Before::Value;
    } else if c == ':' {
        n.colon = true;
        n.before = if at.braced {
            Before::Colon
        } else {
            Before::CleanColon
        };
        if k > 0 {
            let mut o = open[k - 1];
            o.colon = at.line;
            let _ = open.pop();
            open.push(o);
        }
    } else if c == ',' {
        n.before = Before::Opening;
    } else if c == '{' {
        if at.before == Before::Value || at.before == Before::Colon {
            return None;
        }
        n.before = Before::Opening;
        open.push(Opened { is_object: true, start: at.line, colon: 0 });
    } else if c == '[' {
        n.before = Before::Opening;
        open.push(Opened { is_object: false, start: at.line, colon: 0 });
    } else if c == '}' {
        if k == 0 || !open[k - 1].is_object || (at.so_far != LineSoFar::Blank && is_tangled(
            open[k - 1],
            at.lone,
        )) {
            return None;
        }
        if at.so_far == LineSoFar::Blank {
            n.so_far = LineSoFar::LoneBrace;
        }
        n.before = Before::Value;
        n.done = k == 1;
        let _ = open.pop();
    } else if c == ']' {
        if k == 0 || open[k - 1].is_object {
            return None;
        }
        n.before = Before::Value;
        n.done = k == 1;
        let _ = open.pop();
    }
    Some(n)
}

/// Does every object end where a reader of lines looks for its end?
pub fn is_laid_out(s: &[char]) -> (r: bool)
    ensures
        r == laid_out(s@),
{
    let mut at = Scan {
        in_string: false,
        escaped: false,
        line: 0,
        so_far: LineSoFar::Blank,
        lone: 0,
        colon: false,
        braced: false,
        before: Before::Opening,
        done: false,
    };
    let mut open: Vec<Opened> = Vec::new();
    let n: usize = s.len();
    let mut k: usize = 0;
    proof {
        assert(open@ =~= Seq::<Opened>::empty());
    }
    while k < n
        invariant
            k <= n == s@.len(),
            at.line <= k,
            scanned(s@, k as int) == Some(Reading { at, open: open@ }),
        decreases n - k,
    {
        let c = s[k];
        let next: Option<Scan> = if c == '\n' {
            if at.in_string {
                None
            } else {
                let mut m = at;
                m.lone = lone_line(at);
                m.line = at.line + 1;
                m.so_far = LineSoFar::Blank;
                m.colon = false;
                m.braced = false;
                Some(m)
            }
        } else if at.in_string {
            let mut m = at;
            if !at.escaped && c == '"' {
                m.in_string = false;
            } else {
                m.escaped = !at.escaped && c == '\\';
                m.braced = at.braced || (c == '{' && at.colon);
            }
            Some(m)
        } else if is_white(c) {
            Some(at)
        } else {
            mark_next(at, &mut open, c)
        };
        match next {
            Some(m) => {
                at = m;
            },
            None => {
                proof {
                    assert(scanned(s@, k + 1) is None);
                    refused_stays_refused(s@, k + 1, n as int);
                }
                return false;
            },
        }
        k = k + 1;
    }
    !at.in_string && (open.len() == 0 || !is_tangled(open[0], lone_line(at)))
}

proof fn refused_stays_refused(s: Seq<char>, k: int, n: int)
    requires
        scanned(s, k) is None,
        k <= n,
    ensures
        scanned(s, n) is None,
    decreases n - k,
{
    if k < n {
        refused_stays_refused(s, k + 1, n);
    }
}

} // verus!
