//! The names that a body binds and reads, one scope at a time.

use vstd::prelude::*;
use vstd::slice::slice_subrange;
use crate::binding::{
    definition_line, line_defines, replace_words, replaced, tokens, word_tokens,
};
use crate::v2::relational::{squeeze, squeezed};
use crate::text::{
    add_sorted, ascii_digit, chars_of, find_char, find_char_bounds, find_char_from,
    is_ascii_digit, is_white, is_word_char, lines, list_has, push_all, push_sorted, same,
    skip_white, split_lines, starts, starts_with, string_of, strs, texts, trim, trim_end,
    trim_start, trimmed, trimmed_end, trimmed_start, white, without_feeds, word_char,
};

verus! {

broadcast use vstd::string::group_string_axioms;

// ---------------------------------------------------------------------------
// Brackets
// ---------------------------------------------------------------------------

/// How many of the first `k` characters open a call or a subscript.
pub open spec fn opened(line: Seq<char>, k: int) -> int
    decreases k,
{
    if k <= 0 {
        0
    } else {
        opened(line, k - 1) + if line[k - 1] == '(' || line[k - 1] == '[' {
            1int
        } else {
            0int
        }
    }
}

/// How many of the first `k` characters close one.
pub open spec fn closed(line: Seq<char>, k: int) -> int
    decreases k,
{
    if k <= 0 {
        0
    } else {
        closed(line, k - 1) + if line[k - 1] == ')' || line[k - 1] == ']' {
            1int
        } else {
            0int
        }
    }
}

/// How much deeper a line ends than it starts. Braces are blocks and do not count.
pub open spec fn rise(line: Seq<char>) -> int {
    opened(line, line.len() as int) - closed(line, line.len() as int)
}

fn brackets(line: &[char]) -> (r: (usize, usize))
    ensures
        r.0 == opened(line@, line@.len() as int),
        r.1 == closed(line@, line@.len() as int),
{
    let mut up: usize = 0;
    let mut down: usize = 0;
    let mut k: usize = 0;
    while k < line.len()
        invariant
            k <= line@.len(),
            up <= k,
            down <= k,
            up == opened(line@, k as int),
            down == closed(line@, k as int),
        decreases line@.len() - k,
    {
        let c = line[k];
        if c == '(' || c == '[' {
            up = up + 1;
        }
        if c == ')' || c == ']' {
            down = down + 1;
        }
        k = k + 1;
    }
    (up, down)
}

/// The bracket depth in front of the `k`th line, never below zero.
pub open spec fn depth_at(ls: Seq<Seq<char>>, k: int) -> int
    decreases k,
{
    if k <= 0 {
        0
    } else {
        let d = depth_at(ls, k - 1) + rise(ls[k - 1]);
        if d < 0 {
            0
        } else {
            d
        }
    }
}

// ---------------------------------------------------------------------------
// Assignments
// ---------------------------------------------------------------------------

/// Is the text a name: word characters, and no digit first?
pub open spec fn is_name(n: Seq<char>) -> bool {
    &&& n.len() > 0
    &&& forall|i: int| 0 <= i < n.len() ==> word_char(#[trigger] n[i])
    &&& !ascii_digit(n[0])
}

fn is_name_text(n: &[char]) -> (r: bool)
    ensures
        r == is_name(n@),
{
    if n.len() == 0 || is_ascii_digit(n[0]) {
        return false;
    }
    let mut i: usize = 0;
    while i < n.len()
        invariant
            i <= n@.len(),
            forall|k: int| 0 <= k < i ==> word_char(#[trigger] n@[k]),
        decreases n@.len() - i,
    {
        if !is_word_char(n[i]) {
            return false;
        }
        i = i + 1;
    }
    true
}

/// The text behind a keyword and the white space that follows it, where the text
/// starts with that keyword.
pub open spec fn behind(t: Seq<char>, kw: Seq<char>) -> Seq<char> {
    if starts(t, kw) {
        trim_start(t.subrange(kw.len() as int, t.len() as int))
    } else {
        t
    }
}

fn strip<'a>(t: &'a [char], kw: &str) -> (r: &'a [char])
    ensures
        r@ == behind(t@, kw@),
{
    if starts_with(t, kw) {
        let n: usize = chars_of(kw).len();
        trimmed_start(slice_subrange(t, n, t.len()))
    } else {
        t
    }
}

/// Where the last run of characters that are not white space starts.
pub open spec fn last_word_start(s: Seq<char>, j: int) -> int
    decreases j,
{
    if j <= 0 || white(s[j - 1]) {
        j
    } else {
        last_word_start(s, j - 1)
    }
}

/// What stands behind the last white space.
pub open spec fn last_word(s: Seq<char>) -> Seq<char> {
    s.subrange(last_word_start(s, s.len() as int), s.len() as int)
}

fn last_word_of(s: &[char]) -> (r: &[char])
    ensures
        r@ == last_word(s@),
{
    let mut j: usize = s.len();
    while j > 0 && !is_white(s[j - 1])
        invariant
            j <= s@.len(),
            last_word_start(s@, j as int) == last_word_start(s@, s@.len() as int),
        decreases j,
    {
        j = j - 1;
    }
    slice_subrange(s, j, s.len())
}

/// Does the equals sign at `i` compare or update rather than assign?
pub open spec fn no_assignment(t: Seq<char>, i: int) -> bool {
    ||| i + 1 < t.len() && t[i + 1] == '='
    ||| i > 0 && (t[i - 1] == '!' || t[i - 1] == '<' || t[i - 1] == '>' || t[i - 1] == '+' || t[i
        - 1] == '-')
}

/// The name that a trimmed statement assigns. With `typed`, the type in front of
/// the name is skipped.
pub open spec fn assigned_in(t: Seq<char>, typed: bool) -> Option<Seq<char>> {
    let s = behind(behind(behind(t, "let "@), "const "@), "var "@);
    let e = find_char(s, '=', 0);
    let lhs = trim(s.subrange(0, e));
    let name = if typed {
        last_word(lhs)
    } else {
        lhs
    };
    if e >= s.len() || no_assignment(s, e) || !is_name(name) {
        None
    } else {
        Some(name)
    }
}

/// The name that the `k`th line assigns. In the strict reading, an equals sign
/// inside an open bracket is an argument's.
pub open spec fn assigned_on(ls: Seq<Seq<char>>, typed: bool, k: int) -> Option<Seq<char>> {
    let t = trim(ls[k]);
    if t.len() == 0 || starts(t, "#"@) || starts(t, "//"@) {
        None
    } else if !typed && (depth_at(ls, k) > 0 || t.last() == ',') {
        None
    } else {
        assigned_in(t, typed)
    }
}

/// The names that the first `k` lines assign, in the order of texts.
pub open spec fn assigned_upto(ls: Seq<Seq<char>>, typed: bool, k: int) -> Seq<Seq<char>>
    decreases k,
{
    if k <= 0 {
        Seq::empty()
    } else {
        match assigned_on(ls, typed, k - 1) {
            Some(n) => add_sorted(assigned_upto(ls, typed, k - 1), n),
            None => assigned_upto(ls, typed, k - 1),
        }
    }
}

/// The names that a text assigns at statement level, in the order of texts.
pub open spec fn assigned(content: Seq<char>, typed: bool) -> Seq<Seq<char>> {
    assigned_upto(lines(content), typed, lines(content).len() as int)
}

fn assigned_name<'a>(t: &'a [char], typed: bool) -> (r: Option<&'a [char]>)
    ensures
        match r {
            Some(n) => assigned_in(t@, typed) == Some(n@),
            None => assigned_in(t@, typed) is None,
        },
{
    let s = strip(strip(strip(t, "let "), "const "), "var ");
    let e: usize = find_char_from(s, '=', 0);
    let n: usize = s.len();
    if e >= n {
        return None;
    }
    if e + 1 < n && s[e + 1] == '=' {
        return None;
    }
    if e > 0 {
        let p = s[e - 1];
        if p == '!' || p == '<' || p == '>' || p == '+' || p == '-' {
            return None;
        }
    }
    let lhs = trimmed(slice_subrange(s, 0, e));
    let name = if typed {
        last_word_of(lhs)
    } else {
        lhs
    };
    if is_name_text(name) {
        Some(name)
    } else {
        None
    }
}

fn assignments(content: &str, typed: bool) -> (r: Vec<String>)
    ensures
        strs(r@) == assigned(content@, typed),
{
    let ls = split_lines(chars_of(content).as_slice());
    let ghost all = lines(content@);
    let mut out: Vec<String> = Vec::new();
    let mut depth: u128 = 0;
    let mut k: usize = 0;
    proof {
        assert(strs(out@) =~= Seq::empty());
    }
    while k < ls.len()
        invariant
            k <= ls@.len() == all.len(),
            texts(ls@) == all,
            depth == depth_at(all, k as int),
            depth <= k * 0xffff_ffff_ffff_ffff,
            strs(out@) == assigned_upto(all, typed, k as int),
        decreases ls@.len() - k,
    {
        proof {
            assert(all[k as int] == ls@[k as int]@);
        }
        let t = trimmed(ls[k].as_slice());
        let outside: u128 = depth;
        let (up, down) = brackets(ls[k].as_slice());
        proof {
            assert(0 <= k * 0xffff_ffff_ffff_ffff <= 0xffff_ffff_ffff_fffe * 0xffff_ffff_ffff_ffff)
                by (nonlinear_arith)
                requires
                    0 <= k <= 0xffff_ffff_ffff_fffe,
            ;
            assert((k + 1) * 0xffff_ffff_ffff_ffff == k * 0xffff_ffff_ffff_ffff
                + 0xffff_ffff_ffff_ffff) by (nonlinear_arith);
        }
        let risen: u128 = depth + up as u128;
        depth = if risen < down as u128 {
            0
        } else {
            risen - down as u128
        };
        let n: usize = t.len();
        let skip = n == 0 || starts_with(t, "#") || starts_with(t, "//") || (!typed && (outside > 0
            || t[n - 1] == ','));
        if !skip {
            match assigned_name(t, typed) {
                Some(name) => {
                    let s = string_of(name);
                    push_sorted(&mut out, s.as_str());
                },
                None => {},
            }
        }
        k = k + 1;
    }
    out
}

/// The names this text assigns at statement level, in the order of texts.
pub fn assigned_locals(content: &str) -> (r: Vec<String>)
    ensures
        strs(r@) == assigned(content@, false),
{
    assignments(content, false)
}

// ---------------------------------------------------------------------------
// What is bound
// ---------------------------------------------------------------------------

/// Is the token a name: not a number?
pub open spec fn names_something(t: Seq<char>) -> bool {
    t.len() > 0 && !ascii_digit(t[0])
}

/// The names of the list with those of the first `k` tokens.
pub open spec fn with_tokens(v: Seq<Seq<char>>, ts: Seq<Seq<char>>, k: int) -> Seq<Seq<char>>
    decreases k,
{
    if k <= 0 {
        v
    } else if names_something(ts[k - 1]) {
        add_sorted(with_tokens(v, ts, k - 1), ts[k - 1])
    } else {
        with_tokens(v, ts, k - 1)
    }
}

/// How deep the first `k` lines end, counted through below zero.
pub open spec fn net_rise(ls: Seq<Seq<char>>, k: int) -> int
    decreases k,
{
    if k <= 0 {
        0
    } else {
        net_rise(ls, k - 1) + rise(ls[k - 1])
    }
}

/// Did one of the first `k` lines open a bracket?
pub open spec fn has_opened(ls: Seq<Seq<char>>, k: int) -> bool
    decreases k,
{
    k > 0 && (has_opened(ls, k - 1) || opened(ls[k - 1], ls[k - 1].len() as int) > 0)
}

/// How many lines a declaration takes, looking at the `k`th and on: up to the one
/// that closes what it opened, and at most twelve.
pub open spec fn declaration_len(ls: Seq<Seq<char>>, k: int) -> int
    decreases ls.len() - k,
{
    if k < 0 || k >= ls.len() || k >= 12 {
        k
    } else if has_opened(ls, k + 1) && net_rise(ls, k + 1) <= 0 {
        k + 1
    } else {
        declaration_len(ls, k + 1)
    }
}

/// The names of the list with those of the first `k` lines.
pub open spec fn with_line_names(v: Seq<Seq<char>>, ls: Seq<Seq<char>>, k: int) -> Seq<Seq<char>>
    decreases k,
{
    if k <= 0 {
        v
    } else {
        let ts = tokens(ls[k - 1]);
        with_tokens(with_line_names(v, ls, k - 1), ts, ts.len() as int)
    }
}

/// The names that a text binds: what it assigns, with a type or without, and every
/// name of its declaration. The reading is generous: it only answers whether a name
/// is still bound.
pub open spec fn bound(content: Seq<char>) -> Seq<Seq<char>> {
    let ls = lines(content);
    with_line_names(assigned(content, true), ls, declaration_len(ls, 0))
}

fn push_names(v: &mut Vec<String>, line: &[char])
    ensures
        strs(final(v)@) == with_tokens(strs(old(v)@), tokens(line@), tokens(line@).len() as int),
{
    let ts = word_tokens(line);
    let ghost all = tokens(line@);
    let ghost start = strs(v@);
    proof {
        assert(all.len() == ts@.len());
    }
    let mut k: usize = 0;
    while k < ts.len()
        invariant
            k <= ts@.len() == all.len(),
            texts(ts@) == all,
            strs(v@) == with_tokens(start, all, k as int),
        decreases ts@.len() - k,
    {
        proof {
            assert(all[k as int] == ts@[k as int]@);
        }
        if ts[k].len() > 0 && !is_ascii_digit(ts[k][0]) {
            let s = string_of(ts[k].as_slice());
            push_sorted(v, s.as_str());
        }
        k = k + 1;
    }
}

/// The names this text binds, in the order of texts.
pub fn bound_locals(content: &str) -> (r: Vec<String>)
    ensures
        strs(r@) == bound(content@),
{
    let mut out = assignments(content, true);
    let ls = split_lines(chars_of(content).as_slice());
    let ghost all = lines(content@);
    let ghost start = strs(out@);
    let mut depth: i128 = 0;
    let mut started = false;
    let mut k: usize = 0;
    while k < ls.len() && k < 12
        invariant_except_break
            declaration_len(all, k as int) == declaration_len(all, 0),
        invariant
            k <= ls@.len() == all.len(),
            k <= 12,
            texts(ls@) == all,
            depth == net_rise(all, k as int),
            -(k * 0xffff_ffff_ffff_ffff) <= depth <= k * 0xffff_ffff_ffff_ffff,
            started == has_opened(all, k as int),
            strs(out@) == with_line_names(start, all, k as int),
        ensures
            k == declaration_len(all, 0),
        decreases ls@.len() - k,
    {
        proof {
            assert(all[k as int] == ls@[k as int]@);
        }
        let (up, down) = brackets(ls[k].as_slice());
        depth = depth + up as i128 - down as i128;
        if up > 0 {
            started = true;
        }
        push_names(&mut out, ls[k].as_slice());
        k = k + 1;
        if started && depth <= 0 {
            break ;
        }
    }
    out
}

// ---------------------------------------------------------------------------
// Uses
// ---------------------------------------------------------------------------

/// Does the place stand behind a dot, white space aside?
pub open spec fn dotted(s: Seq<char>, i: int) -> bool {
    let t = trim_end(s.subrange(0, i));
    t.len() > 0 && t.last() == '.'
}

/// Is the name read on the line? The line that defines it or assigns it does not
/// count, and neither does a field that is spelled like it.
pub open spec fn read_on(line: Seq<char>, name: Seq<char>) -> bool {
    let t = trim(line);
    let e = find_char(t, '=', 0);
    let marked = replaced(t, name, seq!['\0']);
    &&& !definition_line(line, name)
    &&& !(e < t.len() && trim(t.subrange(0, e)) == name)
    &&& exists|i: int| 0 <= i < marked.len() && marked[i] == '\0' && !#[trigger] dotted(marked, i)
}

/// Does the text read the name anywhere?
pub open spec fn reads(content: Seq<char>, name: Seq<char>) -> bool {
    exists|k: int| 0 <= k < lines(content).len() && read_on(#[trigger] lines(content)[k], name)
}

#[verifier::loop_isolation(false)]
fn is_read_on(line: &[char], name: &[char]) -> (r: bool)
    ensures
        r == read_on(line@, name@),
{
    if line_defines(line, name) {
        return false;
    }
    let t = trimmed(line);
    let e: usize = find_char_from(t, '=', 0);
    if e < t.len() && same(trimmed(slice_subrange(t, 0, e)), name) {
        return false;
    }
    let mut nul: Vec<char> = Vec::new();
    nul.push('\0');
    proof {
        assert(nul@ =~= seq!['\0']);
    }
    let marked = replace_words(t, name, nul.as_slice());
    let mut i: usize = 0;
    while i < marked.len()
        invariant
            i <= marked@.len(),
            forall|k: int| 0 <= k < i ==> marked@[k] != '\0' || #[trigger] dotted(marked@, k),
        decreases marked@.len() - i,
    {
        if marked[i] == '\0' {
            let front = trimmed_end(slice_subrange(marked.as_slice(), 0, i));
            let n: usize = front.len();
            if !(n > 0 && front[n - 1] == '.') {
                proof {
                    assert(!dotted(marked@, i as int));
                }
                return true;
            }
        }
        i = i + 1;
    }
    false
}

/// Does this text read `name` anywhere other than on an assignment's left side?
pub fn uses_local(content: &str, name: &str) -> (r: bool)
    ensures
        r == reads(content@, name@),
{
    let ls = split_lines(chars_of(content).as_slice());
    let n = chars_of(name);
    let ghost all = lines(content@);
    let mut k: usize = 0;
    while k < ls.len()
        invariant
            k <= ls@.len() == all.len(),
            texts(ls@) == all,
            all == lines(content@),
            n@ == name@,
            forall|m: int| 0 <= m < k ==> !read_on(#[trigger] all[m], name@),
        decreases ls@.len() - k,
    {
        proof {
            assert(all[k as int] == ls@[k as int]@);
        }
        if is_read_on(ls[k].as_slice(), n.as_slice()) {
            return true;
        }
        k = k + 1;
    }
    false
}

/// Of the first `k` names, those that the text reads and the other list lacks.
pub open spec fn left_dangling(
    names: Seq<Seq<char>>,
    out: Seq<char>,
    still: Seq<Seq<char>>,
    k: int,
) -> Seq<Seq<char>>
    decreases k,
{
    if k <= 0 {
        Seq::empty()
    } else if !still.contains(names[k - 1]) && reads(out, names[k - 1]) {
        left_dangling(names, out, still, k - 1).push(names[k - 1])
    } else {
        left_dangling(names, out, still, k - 1)
    }
}

/// The names that base assigns, and that the merged text still reads and no longer
/// binds.
pub open spec fn dangling_names(base: Seq<char>, out: Seq<char>) -> Seq<Seq<char>> {
    let names = assigned(base, false);
    left_dangling(names, out, bound(out), names.len() as int)
}

/// The question asked of one scope: names `base` assigns that `out` still reads and
/// no longer assigns.
pub fn scope_dangling(base: &str, out: &str) -> (r: Vec<String>)
    ensures
        strs(r@) == dangling_names(base@, out@),
{
    let names = assigned_locals(base);
    let still = bound_locals(out);
    let ghost all = assigned(base@, false);
    proof {
        assert(all.len() == names@.len());
    }
    let mut found: Vec<String> = Vec::new();
    let mut k: usize = 0;
    proof {
        assert(strs(found@) =~= Seq::empty());
    }
    while k < names.len()
        invariant
            k <= names@.len() == all.len(),
            strs(names@) == all,
            strs(still@) == bound(out@),
            strs(found@) == left_dangling(all, out@, bound(out@), k as int),
        decreases names@.len() - k,
    {
        proof {
            assert(all[k as int] == names@[k as int]@);
        }
        if !list_has(&still, names[k].as_str()) && uses_local(out, names[k].as_str()) {
            let ghost held = strs(found@);
            found.push(names[k].clone());
            proof {
                assert(strs(found@) =~= held.push(all[k as int]));
            }
        }
        k = k + 1;
    }
    found
}

/// A body that still assigns every name that base assigned leaves nothing dangling.
pub proof fn a_body_that_assigns_the_same_dangles_nothing(base: Seq<char>, out: Seq<char>)
    requires
        forall|n: Seq<char>| assigned(base, false).contains(n) ==> #[trigger] bound(out).contains(n),
    ensures
        dangling_names(base, out).len() == 0,
{
    let names = assigned(base, false);
    nothing_left_dangling(names, out, bound(out), names.len() as int);
}

proof fn nothing_left_dangling(
    names: Seq<Seq<char>>,
    out: Seq<char>,
    still: Seq<Seq<char>>,
    k: int,
)
    requires
        0 <= k <= names.len(),
        forall|n: Seq<char>| names.contains(n) ==> #[trigger] still.contains(n),
    ensures
        left_dangling(names, out, still, k).len() == 0,
    decreases k,
{
    if k > 0 {
        nothing_left_dangling(names, out, still, k - 1);
        assert(names.contains(names[k - 1]));
    }
}

// ---------------------------------------------------------------------------
// Landing a line elsewhere
// ---------------------------------------------------------------------------

/// One line that the text holds, with its line feed where it has one: the new text
/// behind its own indentation, where the line reads as the old one.
pub open spec fn landed_line(line: Seq<char>, was: Seq<char>, put: Seq<char>) -> Seq<char> {
    let body = without_feeds(line);
    if squeeze(body) == was {
        body.subrange(0, skip_white(body, 0)) + put + (if line.len() > 0 && line.last() == '\n' {
            seq!['\n']
        } else {
            Seq::empty()
        })
    } else {
        line
    }
}

/// What is at or after `i`, with every line that reads as the old one replaced.
pub open spec fn landed_from(s: Seq<char>, was: Seq<char>, put: Seq<char>, i: int) -> Seq<char>
    decreases s.len() - i,
    via landed_from_decreases
{
    if i < 0 || i >= s.len() {
        Seq::empty()
    } else {
        let e = find_char(s, '\n', i);
        let stop = if e < s.len() {
            e + 1
        } else {
            e
        };
        landed_line(s.subrange(i, stop), was, put) + landed_from(s, was, put, stop)
    }
}

#[via_fn]
proof fn landed_from_decreases(s: Seq<char>, was: Seq<char>, put: Seq<char>, i: int) {
    if 0 <= i < s.len() {
        find_char_bounds(s, '\n', i);
    }
}

/// The text with every line that reads as the old one replaced by the new one.
pub open spec fn landed(s: Seq<char>, was: Seq<char>, put: Seq<char>) -> Seq<char> {
    landed_from(s, was, put, 0)
}

/// Replace the line whose form, white space reduced, is `was` with `put`, keeping
/// the target line's own indentation.
pub fn replace_normalized_line(text: &str, was: &str, put: &str) -> (r: String)
    ensures
        r@ == landed(text@, was@, put@),
{
    let s = chars_of(text);
    let o = chars_of(was);
    let w = chars_of(put);
    let n: usize = s.len();
    let mut out: Vec<char> = Vec::new();
    let mut i: usize = 0;
    proof {
        assert(out@ + landed_from(s@, o@, w@, 0) =~= landed(s@, o@, w@));
    }
    while i < n
        invariant
            i <= n == s@.len(),
            out@ + landed_from(s@, o@, w@, i as int) == landed(s@, o@, w@),
        decreases n - i,
    {
        let e: usize = find_char_from(s.as_slice(), '\n', i);
        let stop: usize = if e < n {
            e + 1
        } else {
            e
        };
        let line = slice_subrange(s.as_slice(), i, stop);
        let mut m: usize = line.len();
        proof {
            assert(line@.subrange(0, line@.len() as int) =~= line@);
        }
        while m > 0 && line[m - 1] == '\n'
            invariant
                m <= line@.len(),
                without_feeds(line@.subrange(0, m as int)) == without_feeds(line@),
            decreases m,
        {
            proof {
                assert(line@.subrange(0, m as int).drop_last() =~= line@.subrange(0, m - 1));
            }
            m = m - 1;
        }
        let body = slice_subrange(line, 0, m);
        let ghost held = out@;
        let plain = squeezed(body);
        if same(plain.as_slice(), o.as_slice()) {
            let lead: usize = crate::text::skip_white_from(body, 0);
            push_all(&mut out, slice_subrange(body, 0, lead));
            push_all(&mut out, w.as_slice());
            if line[line.len() - 1] == '\n' {
                out.push('\n');
            }
        } else {
            push_all(&mut out, line);
        }
        proof {
            let piece = landed_line(line@, o@, w@);
            assert(out@ =~= held + piece);
            let rest = landed_from(s@, o@, w@, stop as int);
            assert(held + (piece + rest) =~= (held + piece) + rest);
        }
        i = stop;
    }
    proof {
        assert(out@ =~= landed(s@, o@, w@));
    }
    string_of(out.as_slice())
}


proof fn assigned_upto_holds(ls: Seq<Seq<char>>, typed: bool, k: int)
    requires
        0 <= k <= ls.len(),
    ensures
        crate::text::strictly_sorted(assigned_upto(ls, typed, k)),
        forall|n: Seq<char>| #[trigger]
            assigned_upto(ls, typed, k).contains(n) <==> exists|i: int|
                0 <= i < k && #[trigger] assigned_on(ls, typed, i) == Some(n),
    decreases k,
{
    if k > 0 {
        assigned_upto_holds(ls, typed, k - 1);
        let front = assigned_upto(ls, typed, k - 1);
        let here = assigned_on(ls, typed, k - 1);
        if here is Some {
            crate::text::add_sorted_sorts(front, here->0);
        }
        assert forall|n: Seq<char>| #[trigger] assigned_upto(ls, typed, k).contains(
            n,
        ) <==> exists|i: int| 0 <= i < k && #[trigger] assigned_on(ls, typed, i) == Some(n) by {
            if front.contains(n) {
                let i = choose|i: int|
                    0 <= i < k - 1 && #[trigger] assigned_on(ls, typed, i) == Some(n);
                assert(assigned_on(ls, typed, i) == Some(n));
            }
            if here == Some(n) {
                assert(assigned_on(ls, typed, k - 1) == Some(n));
            }
            if exists|i: int| 0 <= i < k && #[trigger] assigned_on(ls, typed, i) == Some(n) {
                let i = choose|i: int|
                    0 <= i < k && #[trigger] assigned_on(ls, typed, i) == Some(n);
                if i < k - 1 {
                    assert(front.contains(n));
                }
            }
        }
    }
}

proof fn left_dangling_holds(
    names: Seq<Seq<char>>,
    out: Seq<char>,
    still: Seq<Seq<char>>,
    k: int,
)
    requires
        0 <= k <= names.len(),
    ensures
        forall|n: Seq<char>| #[trigger]
            left_dangling(names, out, still, k).contains(n) <==> names.take(k).contains(n)
                && !still.contains(n) && reads(out, n),
    decreases k,
{
    if k > 0 {
        left_dangling_holds(names, out, still, k - 1);
        let front = left_dangling(names, out, still, k - 1);
        let all = left_dangling(names, out, still, k);
        let x = names[k - 1];
        assert forall|n: Seq<char>| #[trigger] all.contains(n) <==> names.take(k).contains(n)
            && !still.contains(n) && reads(out, n) by {
            let was = names.take(k - 1);
            let now = names.take(k);
            assert(now =~= was.push(x));
            assert(now.contains(n) <==> was.contains(n) || n == x) by {
                if was.contains(n) {
                    let i = choose|i: int| 0 <= i < was.len() && was[i] == n;
                    assert(now[i] == n);
                }
                assert(now[k - 1] == x);
                if now.contains(n) && n != x {
                    let i = choose|i: int| 0 <= i < now.len() && now[i] == n;
                    assert(was[i] == n);
                }
            }
            if !still.contains(x) && reads(out, x) {
                assert(all.contains(n) <==> front.contains(n) || n == x) by {
                    if front.contains(n) {
                        let i = choose|i: int| 0 <= i < front.len() && front[i] == n;
                        assert(all[i] == n);
                    }
                    assert(all[front.len() as int] == x);
                    if all.contains(n) && n != x {
                        let i = choose|i: int| 0 <= i < all.len() && all[i] == n;
                        assert(front[i] == n);
                    }
                }
            }
        }
    }
}

/// A name is left dangling exactly where some line of base assigns it at statement
/// level, the merged text reads it, and nothing in the merged text binds it.
pub proof fn what_dangles_was_assigned_and_is_read(base: Seq<char>, out: Seq<char>, n: Seq<char>)
    ensures
        dangling_names(base, out).contains(n) <==> {
            &&& exists|k: int|
                0 <= k < lines(base).len() && #[trigger] assigned_on(lines(base), false, k)
                    == Some(n)
            &&& reads(out, n)
            &&& !bound(out).contains(n)
        },
{
    let names = assigned(base, false);
    assigned_upto_holds(lines(base), false, lines(base).len() as int);
    left_dangling_holds(names, out, bound(out), names.len() as int);
    assert(names.take(names.len() as int) =~= names);
}

} // verus!
