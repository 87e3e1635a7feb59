//! What belongs to the encoding of a file and not to what it says: line endings, a
//! byte order mark, and what stands between two entities.

use vstd::prelude::*;
use vstd::slice::slice_subrange;
use crate::text::{
    chars_of, contains, ends, has_text, push_all, stands_at, string_of, trim_end, trimmed_end,
};

verus! {

broadcast use vstd::string::group_string_axioms;

/// The text without a byte order mark in front.
pub open spec fn without_bom(s: Seq<char>) -> Seq<char> {
    if s.len() > 0 && s[0] == '\u{feff}' {
        s.subrange(1, s.len() as int)
    } else {
        s
    }
}

/// What is at or after `i`, with every carriage return and line feed folded to a
/// line feed.
pub open spec fn folded_from(s: Seq<char>, i: int) -> Seq<char>
    decreases s.len() - i,
{
    if i < 0 || i >= s.len() {
        Seq::empty()
    } else if s[i] == '\r' && i + 1 < s.len() && s[i + 1] == '\n' {
        seq!['\n'] + folded_from(s, i + 2)
    } else {
        seq![s[i]] + folded_from(s, i + 1)
    }
}

/// The text in one shape: no byte order mark, and line feeds only.
pub open spec fn normalized(s: Seq<char>) -> Seq<char> {
    folded_from(without_bom(s), 0)
}

/// Strip a byte order mark and fold the line endings, at the only door through which
/// text enters: else one side that ran a normalizer would differ in every entity.
pub fn normalize_encoding(input: &str) -> (r: String)
    ensures
        r@ == normalized(input@),
{
    let c = chars_of(input);
    let n: usize = c.len();
    let body = if n > 0 && c[0] == '\u{feff}' {
        slice_subrange(c.as_slice(), 1, n)
    } else {
        c.as_slice()
    };
    let ghost s = without_bom(input@);
    let m: usize = body.len();
    let mut out: Vec<char> = Vec::new();
    let mut i: usize = 0;
    proof {
        assert(body@ =~= s);
        assert(out@ + folded_from(s, 0) =~= folded_from(s, 0));
    }
    while i < m
        invariant
            i <= m == body@.len(),
            body@ == s,
            out@ + folded_from(s, i as int) == folded_from(s, 0),
        decreases m - i,
    {
        let ghost held = out@;
        if body[i] == '\r' && i + 1 < m && body[i + 1] == '\n' {
            out.push('\n');
            proof {
                let rest = folded_from(s, i + 2);
                assert(held + (seq!['\n'] + rest) =~= held.push('\n') + rest);
            }
            i = i + 2;
        } else {
            let x = body[i];
            out.push(x);
            proof {
                let rest = folded_from(s, i + 1);
                assert(held + (seq![x] + rest) =~= held.push(x) + rest);
            }
            i = i + 1;
        }
    }
    proof {
        assert(out@ =~= normalized(input@));
    }
    string_of(out.as_slice())
}

/// Does the text hold a carriage return and line feed?
pub open spec fn has_crlf(s: Seq<char>) -> bool {
    contains(s, "\r\n"@)
}

/// Does the text start with a byte order mark?
pub open spec fn has_bom(s: Seq<char>) -> bool {
    s.len() > 0 && s[0] == '\u{feff}'
}

fn is_crlf(s: &str) -> (r: bool)
    ensures
        r == has_crlf(s@),
{
    has_text(chars_of(s).as_slice(), "\r\n")
}

fn is_bom(s: &str) -> (r: bool)
    ensures
        r == has_bom(s@),
{
    let c = chars_of(s);
    c.len() > 0 && c[0] == '\u{feff}'
}

/// Do the three not agree?
pub open spec fn mixed(a: bool, b: bool, c: bool) -> bool {
    (a || b || c) && !(a && b && c)
}

/// Do the three inputs disagree about line endings or about a byte order mark?
pub fn encoding_differs(base: &str, ours: &str, theirs: &str) -> (r: bool)
    ensures
        r == (mixed(has_crlf(base@), has_crlf(ours@), has_crlf(theirs@)) || mixed(
            has_bom(base@),
            has_bom(ours@),
            has_bom(theirs@),
        )),
{
    let (cb, co, ct) = (is_crlf(base), is_crlf(ours), is_crlf(theirs));
    let (bb, bo, bt) = (is_bom(base), is_bom(ours), is_bom(theirs));
    ((cb || co || ct) && !(cb && co && ct)) || ((bb || bo || bt) && !(bb && bo && bt))
}

/// The line ending and byte order mark that all three inputs agreed on, if they did.
#[derive(Debug, Clone, Copy, PartialEq, Eq, Structural)]
pub struct Encoding {
    pub crlf: bool,
    pub bom: bool,
}

/// What is at or after `i`, with every line feed written as carriage return and
/// line feed.
pub open spec fn unfolded_from(s: Seq<char>, i: int) -> Seq<char>
    decreases s.len() - i,
{
    if i < 0 || i >= s.len() {
        Seq::empty()
    } else if s[i] == '\n' {
        seq!['\r', '\n'] + unfolded_from(s, i + 1)
    } else {
        seq![s[i]] + unfolded_from(s, i + 1)
    }
}

impl Encoding {
    /// What the three inputs agree on.
    pub open spec fn agreed(base: Seq<char>, ours: Seq<char>, theirs: Seq<char>) -> Encoding {
        Encoding {
            crlf: has_crlf(base) && has_crlf(ours) && has_crlf(theirs),
            bom: has_bom(base) && has_bom(ours) && has_bom(theirs),
        }
    }

    /// The shape that the three inputs agree on.
    pub fn of(base: &str, ours: &str, theirs: &str) -> (r: Self)
        ensures
            r == Encoding::agreed(base@, ours@, theirs@),
    {
        Encoding {
            crlf: is_crlf(base) && is_crlf(ours) && is_crlf(theirs),
            bom: is_bom(base) && is_bom(ours) && is_bom(theirs),
        }
    }

    /// The text in this shape.
    pub open spec fn applied(self, s: Seq<char>) -> Seq<char> {
        let t = if self.crlf {
            unfolded_from(s, 0)
        } else {
            s
        };
        if self.bom {
            seq!['\u{feff}'] + t
        } else {
            t
        }
    }

    /// Put a text back into this shape.
    pub fn apply(self, content: String) -> (r: String)
        ensures
            r@ == self.applied(content@),
    {
        let c = chars_of(content.as_str());
        let n: usize = c.len();
        let mut out: Vec<char> = Vec::new();
        if self.bom {
            out.push('\u{feff}');
        }
        let ghost head = out@;
        if self.crlf {
            let mut i: usize = 0;
            proof {
                assert(out@ =~= head);
                assert(head + unfolded_from(c@, 0) =~= out@ + unfolded_from(c@, 0));
            }
            while i < n
                invariant
                    i <= n == c@.len(),
                    out@ + unfolded_from(c@, i as int) == head + unfolded_from(c@, 0),
                decreases n - i,
            {
                let ghost held = out@;
                let x = c[i];
                if x == '\n' {
                    out.push('\r');
                    out.push('\n');
                    proof {
                        let rest = unfolded_from(c@, i + 1);
                        assert(held + (seq!['\r', '\n'] + rest) =~= held.push('\r').push('\n')
                            + rest);
                    }
                } else {
                    out.push(x);
                    proof {
                        let rest = unfolded_from(c@, i + 1);
                        assert(held + (seq![x] + rest) =~= held.push(x) + rest);
                    }
                }
                i = i + 1;
            }
            proof {
                assert(out@ =~= head + unfolded_from(c@, 0));
            }
        } else {
            push_all(&mut out, c.as_slice());
        }
        proof {
            assert(out@ =~= self.applied(content@));
        }
        string_of(out.as_slice())
    }
}

/// Is every line feed the end of a carriage return and line feed?
pub open spec fn crlf_only(s: Seq<char>) -> bool {
    forall|i: int| 0 <= i < s.len() && #[trigger] s[i] == '\n' ==> i > 0 && s[i - 1] == '\r'
}

proof fn unfolding_refolds(s: Seq<char>, i: int, t: Seq<char>, j: int)
    requires
        0 <= i <= s.len(),
        0 <= j <= t.len(),
        crlf_only(s),
        i < s.len() ==> s[i] != '\n',
        t.subrange(j, t.len() as int) == folded_from(s, i),
    ensures
        unfolded_from(t, j) == s.subrange(i, s.len() as int),
    decreases s.len() - i,
{
    if i >= s.len() {
        assert(folded_from(s, i) =~= Seq::empty());
        assert(t.subrange(j, t.len() as int).len() == 0);
        assert(s.subrange(i, s.len() as int) =~= Seq::empty());
    } else if s[i] == '\r' && i + 1 < s.len() && s[i + 1] == '\n' {
        let rest = folded_from(s, i + 2);
        let here = t.subrange(j, t.len() as int);
        assert(here == seq!['\n'] + rest);
        assert(here[0] == '\n');
        assert(t[j] == '\n');
        assert(t.subrange(j + 1, t.len() as int) =~= rest) by {
            assert(here.subrange(1, here.len() as int) =~= rest);
            assert(here.subrange(1, here.len() as int) =~= t.subrange(j + 1, t.len() as int));
        }
        assert(i + 2 < s.len() ==> s[i + 2] != '\n') by {
            if i + 2 < s.len() && s[i + 2] == '\n' {
                assert(s[i + 1] == '\r');
            }
        }
        unfolding_refolds(s, i + 2, t, j + 1);
        assert(seq!['\r', '\n'] + s.subrange(i + 2, s.len() as int) =~= s.subrange(
            i,
            s.len() as int,
        ));
    } else {
        let x = s[i];
        let rest = folded_from(s, i + 1);
        let here = t.subrange(j, t.len() as int);
        assert(here == seq![x] + rest);
        assert(here[0] == x);
        assert(t[j] == x);
        assert(t.subrange(j + 1, t.len() as int) =~= rest) by {
            assert(here.subrange(1, here.len() as int) =~= rest);
            assert(here.subrange(1, here.len() as int) =~= t.subrange(j + 1, t.len() as int));
        }
        assert(i + 1 < s.len() ==> s[i + 1] != '\n') by {
            if i + 1 < s.len() && s[i + 1] == '\n' {
                assert(s[i + 1 - 1] == '\r');
            }
        }
        unfolding_refolds(s, i + 1, t, j + 1);
        assert(seq![x] + s.subrange(i + 1, s.len() as int) =~= s.subrange(i, s.len() as int));
    }
}

/// What all inputs agree on is restored: a text whose line feeds all end in the same
/// way comes back as it was.
pub proof fn a_shared_encoding_is_restored(s: Seq<char>)
    requires
        crlf_only(without_bom(s)),
    ensures
        (Encoding { crlf: true, bom: has_bom(s) }).applied(normalized(s)) == s,
{
    let b = without_bom(s);
    let t = normalized(s);
    assert(t.subrange(0, t.len() as int) =~= folded_from(b, 0));
    if b.len() > 0 && b[0] == '\n' {
        assert(0int > 0);
    }
    unfolding_refolds(b, 0, t, 0);
    assert(b.subrange(0, b.len() as int) =~= b);
    if has_bom(s) {
        assert(seq!['\u{feff}'] + b =~= s);
    }
}

// ---------------------------------------------------------------------------
// What stands between two entities
// ---------------------------------------------------------------------------

/// The text without the separator it ends in; the white space behind it stays.
pub open spec fn stripped(text: Seq<char>, sep: Option<Seq<char>>) -> Seq<char> {
    match sep {
        Some(p) => {
            let t = trim_end(text);
            if ends(t, p) {
                t.subrange(0, t.len() - p.len()) + text.subrange(t.len() as int, text.len() as int)
            } else {
                text
            }
        },
        None => text,
    }
}

/// Drop the trailing separator: it states where an entity stands in the sequence,
/// and nothing about the entity.
pub fn strip_separator(text: &str, separator: Option<&str>) -> (r: String)
    ensures
        r@ == stripped(text@, crate::conflict::opt_str(separator)),
{
    match separator {
        None => text.to_owned(),
        Some(sep) => {
            let c = chars_of(text);
            let p = chars_of(sep);
            let t = trimmed_end(c.as_slice());
            let n: usize = t.len();
            let m: usize = p.len();
            if n < m || !stands_at(t, p.as_slice(), n - m) {
                return text.to_owned();
            }
            let mut out: Vec<char> = Vec::new();
            push_all(&mut out, slice_subrange(t, 0, n - m));
            push_all(&mut out, slice_subrange(c.as_slice(), n, c.len()));
            string_of(out.as_slice())
        },
    }
}

proof fn trimmed_end_is_a_prefix(text: Seq<char>, j: int)
    requires
        0 <= j <= text.len(),
    ensures
        0 <= crate::text::back_white(text, j) <= j,
        crate::text::back_white(text, j) > 0 ==> !crate::text::white(
            text[crate::text::back_white(text, j) - 1],
        ),
        forall|k: int|
            crate::text::back_white(text, j) <= k < j ==> crate::text::white(#[trigger] text[k]),
    decreases j,
{
    if j > 0 && crate::text::white(text[j - 1]) {
        trimmed_end_is_a_prefix(text, j - 1);
    }
}

proof fn back_white_is(text: Seq<char>, j: int, k: int)
    requires
        0 <= k <= j <= text.len(),
        forall|m: int| k <= m < j ==> crate::text::white(#[trigger] text[m]),
        k > 0 ==> !crate::text::white(text[k - 1]),
    ensures
        crate::text::back_white(text, j) == k,
    decreases j,
{
    if j > k {
        back_white_is(text, j - 1, k);
    }
}

/// The separator comes off where it went on: an entity that was given one, and from
/// which it is taken again, is the entity.
pub proof fn a_separator_comes_off_as_it_went_on(text: Seq<char>)
    ensures
        stripped(
            crate::v2::render::separated(text, Some(","@)),
            Some(","@),
        ) == text,
{
    reveal_strlit(",");
    let sep = ","@;
    let n = crate::text::back_white(text, text.len() as int);
    trimmed_end_is_a_prefix(text, text.len() as int);
    let body = trim_end(text);
    assert(body =~= text.subrange(0, n));
    let tail = text.subrange(n, text.len() as int);
    let whole = crate::v2::render::separated(text, Some(sep));
    assert(whole =~= body + sep + tail);
    assert(whole[n] == ',');
    assert forall|m: int| n + 1 <= m < whole.len() implies crate::text::white(
        #[trigger] whole[m],
    ) by {
        assert(whole[m] == text[m - 1]);
    }
    assert(!crate::text::white(','));
    back_white_is(whole, whole.len() as int, n + 1);
    let t = trim_end(whole);
    assert(t =~= body + sep);
    assert(ends(t, sep)) by {
        assert(t.subrange(n, n + 1) =~= sep);
    }
    assert(t.subrange(0, n) =~= body);
    assert(whole.subrange(n + 1, whole.len() as int) =~= tail);
    assert(body + tail =~= text);
}

} // verus!
