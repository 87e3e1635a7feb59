//! Binding evidence: the one place that decides what a *definition* and a *use*
//! are.
//!
//! * a *definition* is a definer keyword (after visibility and modifier
//!   prefixes) immediately followed by the name at a word boundary;
//! * a *use* is the identifier at a word boundary, not preceded by `.`
//!   (attribute access binds elsewhere), followed by `(`, and never on a line
//!   that defines it.

use vstd::prelude::*;
use vstd::slice::slice_subrange;
use crate::text::{
    add_sorted_sorts, ascii_alnum, ascii_digit, at, chars_of, copy_of, find_char,
    find_char_bounds, find_char_from, find_from, find_is_first, is_ascii_alnum, is_ascii_digit,
    is_word_char, line_at, lines, lines_from, list_has, push_all, push_new, push_sorted, same_str,
    skip_white, skip_white_bounds, skip_white_from, sorted_lists_are_their_sets, split_lines,
    stands_at, starts, starts_with, strictly_sorted, string_of, strs, texts, trim, trim_start,
    trimmed, trimmed_start, width, width_of_char, word_char,
};

verus! {

broadcast use vstd::string::group_string_axioms;

// ---------------------------------------------------------------------------
// Identifiers
// ---------------------------------------------------------------------------

/// A character that may appear inside an identifier. `$` counts: it is an
/// identifier character in JavaScript and PHP.
pub open spec fn ident(c: char) -> bool {
    ascii_alnum(c) || c == '_' || c == '$'
}

/// May the byte appear inside an identifier?
pub fn is_ident_char(b: u8) -> (r: bool)
    ensures
        r == ident(b as char),
{
    let c: char = b as char;
    is_ascii_alnum(c) || c == '_' || c == '$'
}

fn is_ident(c: char) -> (r: bool)
    ensures
        r == ident(c),
{
    is_ascii_alnum(c) || c == '_' || c == '$'
}

/// The lowest byte of a character's code point is an identifier byte. What
/// follows a name is read this way: on ASCII it is [`ident`].
pub open spec fn ident_low_byte(c: char) -> bool {
    ident(((c as u32 % 256) as u8) as char)
}

fn is_ident_low_byte(c: char) -> (r: bool)
    ensures
        r == ident_low_byte(c),
{
    let low: u8 = (c as u32 % 256) as u8;
    is_ident_char(low)
}

/// A name: identifier characters, the first no digit.
pub open spec fn identifier(n: Seq<char>) -> bool {
    &&& n.len() > 0
    &&& forall|i: int| 0 <= i < n.len() ==> ident(#[trigger] n[i])
    &&& starts_name(n[0])
}

/// A character that may start a name.
pub open spec fn starts_name(c: char) -> bool {
    ident(c) && !ascii_digit(c)
}

// ---------------------------------------------------------------------------
// Definitions
// ---------------------------------------------------------------------------

/// Visibility and modifier keywords that can precede a definer keyword.
pub open spec fn modifiers() -> Seq<Seq<char>> {
    seq![
        "export "@, "public "@, "private "@, "protected "@, "static "@, "pub "@, "async "@,
        "default "@, "abstract "@, "final "@, "override "@,
    ]
}

/// Keywords that introduce a definition.
pub open spec fn definers() -> Seq<Seq<char>> {
    seq![
        "def "@, "function "@, "fn "@, "class "@, "func "@, "interface "@, "struct "@, "trait "@,
        "impl "@, "type "@, "enum "@,
    ]
}

/// The length of the first keyword, at or after the `k`th, that `t` starts with.
pub open spec fn keyword_len(t: Seq<char>, kws: Seq<Seq<char>>, k: int) -> Option<int>
    decreases kws.len() - k,
{
    if k < 0 || k >= kws.len() {
        None
    } else if starts(t, kws[k]) {
        Some(kws[k].len() as int)
    } else {
        keyword_len(t, kws, k + 1)
    }
}

/// What is left of `t` behind its modifiers and the white space around them.
pub open spec fn strip_modifiers(t: Seq<char>) -> Seq<char>
    decreases t.len(),
    via strip_modifiers_decreases
{
    match keyword_len(t, modifiers(), 0) {
        Some(n) => strip_modifiers(trim_start(t.subrange(n, t.len() as int))),
        None => t,
    }
}

#[via_fn]
proof fn strip_modifiers_decreases(t: Seq<char>) {
    modifier_len_bounds(t);
    if let Some(n) = keyword_len(t, modifiers(), 0) {
        let rest = t.subrange(n, t.len() as int);
        skip_white_bounds(rest, 0);
    }
}

proof fn keyword_len_bounds(t: Seq<char>, kws: Seq<Seq<char>>, k: int)
    requires
        0 <= k,
    ensures
        keyword_len(t, kws, k) matches Some(n) ==> n <= t.len() && exists|j: int|
            k <= j < kws.len() && n == (#[trigger] kws[j]).len(),
    decreases kws.len() - k,
{
    if k < kws.len() && !starts(t, kws[k]) {
        keyword_len_bounds(t, kws, k + 1);
    }
}

proof fn modifier_len_bounds(t: Seq<char>)
    ensures
        keyword_len(t, modifiers(), 0) matches Some(n) ==> 0 < n <= t.len(),
{
    reveal_strlit("export ");
    reveal_strlit("public ");
    reveal_strlit("private ");
    reveal_strlit("protected ");
    reveal_strlit("static ");
    reveal_strlit("pub ");
    reveal_strlit("async ");
    reveal_strlit("default ");
    reveal_strlit("abstract ");
    reveal_strlit("final ");
    reveal_strlit("override ");
    keyword_len_bounds(t, modifiers(), 0);
}

/// What stands behind the definer keyword of a line, if it has one.
pub open spec fn definition_rest(line: Seq<char>) -> Option<Seq<char>> {
    let t = strip_modifiers(trim_start(line));
    match keyword_len(t, definers(), 0) {
        Some(n) => Some(trim_start(t.subrange(n, t.len() as int))),
        None => None,
    }
}

/// The line defines `name`.
pub open spec fn definition_line(line: Seq<char>, name: Seq<char>) -> bool {
    &&& name.len() > 0
    &&& definition_rest(line) matches Some(rest) && starts(rest, name) && (rest.len() == name.len()
        || !ident_low_byte(rest[name.len() as int]))
}

/// Some line of the content defines `name`.
pub open spec fn defines(content: Seq<char>, name: Seq<char>) -> bool {
    exists|i: int|
        0 <= i < lines(content).len() && definition_line(#[trigger] lines(content)[i], name)
}

fn keyword_width(t: &[char], kws: &Vec<&str>) -> (r: Option<usize>)
    ensures
        match r {
            Some(n) => keyword_len(t@, kws@.map_values(|s: &str| s@), 0) == Some(n as int) && n
                <= t@.len(),
            None => keyword_len(t@, kws@.map_values(|s: &str| s@), 0) is None,
        },
{
    let ghost all = kws@.map_values(|s: &str| s@);
    let mut k: usize = 0;
    while k < kws.len()
        invariant
            k <= kws@.len(),
            all == kws@.map_values(|s: &str| s@),
            keyword_len(t@, all, k as int) == keyword_len(t@, all, 0),
        decreases kws@.len() - k,
    {
        let kw = chars_of(kws[k]);
        proof {
            assert(all[k as int] == kw@);
        }
        if stands_at(t, kw.as_slice(), 0) {
            return Some(kw.len());
        }
        k = k + 1;
    }
    None
}

fn without_modifiers(line: &[char]) -> (r: &[char])
    ensures
        r@ == strip_modifiers(trim_start(line@)),
{
    let kws: Vec<&str> = vec![
        "export ", "public ", "private ", "protected ", "static ", "pub ", "async ", "default ",
        "abstract ", "final ", "override ",
    ];
    proof {
        assert(kws@.map_values(|s: &str| s@) =~= modifiers());
    }
    let mut t = trimmed_start(line);
    loop
        invariant
            kws@.map_values(|s: &str| s@) == modifiers(),
            strip_modifiers(t@) == strip_modifiers(trim_start(line@)),
        ensures
            keyword_len(t@, modifiers(), 0) is None,
        decreases t@.len(),
    {
        match keyword_width(t, &kws) {
            Some(n) => {
                proof {
                    modifier_len_bounds(t@);
                    skip_white_bounds(t@.subrange(n as int, t@.len() as int), 0);
                }
                let rest = slice_subrange(t, n, t.len());
                t = trimmed_start(rest);
            },
            None => {
                break;
            },
        }
    }
    t
}

fn behind_definer(line: &[char]) -> (r: Option<&[char]>)
    ensures
        match r {
            Some(rest) => definition_rest(line@) == Some(rest@),
            None => definition_rest(line@) is None,
        },
{
    let kws: Vec<&str> = vec![
        "def ", "function ", "fn ", "class ", "func ", "interface ", "struct ", "trait ", "impl ",
        "type ", "enum ",
    ];
    proof {
        assert(kws@.map_values(|s: &str| s@) =~= definers());
    }
    let t = without_modifiers(line);
    match keyword_width(t, &kws) {
        Some(n) => Some(trimmed_start(slice_subrange(t, n, t.len()))),
        None => None,
    }
}

/// Does the line define `name`, rather than use it?
pub fn line_defines(line: &[char], name: &[char]) -> (r: bool)
    ensures
        r == definition_line(line@, name@),
{
    if name.len() == 0 {
        return false;
    }
    match behind_definer(line) {
        Some(rest) => stands_at(rest, name, 0) && (rest.len() == name.len() || !is_ident_low_byte(
            rest[name.len()],
        )),
        None => false,
    }
}

/// Is `line` a *definition* of `name` rather than a use of it?
pub fn is_definition_line(line: &str, name: &str) -> (r: bool)
    ensures
        r == definition_line(line@, name@),
{
    line_defines(chars_of(line).as_slice(), chars_of(name).as_slice())
}

/// Does `content` define `name` anywhere?
pub fn has_definition(content: &str, name: &str) -> (r: bool)
    ensures
        r == defines(content@, name@),
{
    let n = chars_of(name);
    let ls = split_lines(chars_of(content).as_slice());
    let mut i: usize = 0;
    while i < ls.len()
        invariant
            i <= ls@.len(),
            n@ == name@,
            texts(ls@) == lines(content@),
            forall|k: int| 0 <= k < i ==> !definition_line(#[trigger] lines(content@)[k], name@),
        decreases ls@.len() - i,
    {
        proof {
            assert(texts(ls@)[i as int] == ls@[i as int]@);
        }
        if line_defines(ls[i].as_slice(), n.as_slice()) {
            return true;
        }
        i = i + 1;
    }
    false
}

// ---------------------------------------------------------------------------
// Calls
// ---------------------------------------------------------------------------

/// Nothing in front of index `i` continues a name or selects an attribute.
pub open spec fn free_before(line: Seq<char>, i: int) -> bool {
    i == 0 || (!ident(line[i - 1]) && line[i - 1] != '.')
}

/// An opening parenthesis follows index `i`, white space aside.
pub open spec fn paren_after(line: Seq<char>, i: int) -> bool {
    let rest = line.subrange(i, line.len() as int);
    let k = skip_white(rest, 0);
    k < rest.len() && rest[k] == '('
}

/// `name` is called at index `i` of the line.
pub open spec fn call_at(line: Seq<char>, name: Seq<char>, i: int) -> bool {
    at(line, name, i) && free_before(line, i) && paren_after(line, i + name.len())
}

/// The line calls `name`, and does not define it.
pub open spec fn calls_on_line(line: Seq<char>, name: Seq<char>) -> bool {
    !definition_line(line, name) && exists|i: int| call_at(line, name, i)
}

/// Some line of the content calls `name`.
pub open spec fn calls(content: Seq<char>, name: Seq<char>) -> bool {
    name.len() > 0 && exists|i: int|
        0 <= i < lines(content).len() && calls_on_line(#[trigger] lines(content)[i], name)
}

fn paren_follows(line: &[char], i: usize) -> (r: bool)
    requires
        i <= line@.len(),
    ensures
        r == paren_after(line@, i as int),
{
    let rest = slice_subrange(line, i, line.len());
    let k: usize = skip_white_from(rest, 0);
    k < rest.len() && rest[k] == '('
}

fn nothing_before(line: &[char], i: usize) -> (r: bool)
    requires
        i <= line@.len(),
    ensures
        r == free_before(line@, i as int),
{
    i == 0 || (!is_ident(line[i - 1]) && line[i - 1] != '.')
}

fn line_calls(line: &[char], name: &[char]) -> (r: bool)
    requires
        name@.len() > 0,
    ensures
        r == calls_on_line(line@, name@),
{
    if line_defines(line, name) {
        return false;
    }
    let mut from: usize = 0;
    while from <= line.len()
        invariant
            from <= line@.len() + 1,
            name@.len() > 0,
            !definition_line(line@, name@),
            forall|k: int| 0 <= k < from ==> !call_at(line@, name@, k),
        decreases line@.len() + 1 - from,
    {
        proof {
            find_is_first(line@, name@, from as int);
        }
        match find_from(line, name, from) {
            Some(i) => {
                if nothing_before(line, i) && paren_follows(line, i + name.len()) {
                    proof {
                        assert(call_at(line@, name@, i as int));
                    }
                    return true;
                }
                from = i + 1;
            },
            None => {
                return false;
            },
        }
    }
    false
}

/// Does `content` call `name`? The identifier at a word boundary, not preceded
/// by `.`, followed by `(`, and never on a line that defines it.
pub fn has_call_reference(content: &str, name: &str) -> (r: bool)
    ensures
        r == calls(content@, name@),
{
    let n = chars_of(name);
    if n.len() == 0 {
        return false;
    }
    let ls = split_lines(chars_of(content).as_slice());
    let mut i: usize = 0;
    while i < ls.len()
        invariant
            i <= ls@.len(),
            n@ == name@,
            n@.len() > 0,
            texts(ls@) == lines(content@),
            forall|k: int| 0 <= k < i ==> !calls_on_line(#[trigger] lines(content@)[k], name@),
        decreases ls@.len() - i,
    {
        proof {
            assert(texts(ls@)[i as int] == ls@[i as int]@);
        }
        if line_calls(ls[i].as_slice(), n.as_slice()) {
            return true;
        }
        i = i + 1;
    }
    false
}

/// Some identifier call before index `p` of the line names `n`.
spec fn called_before(line: Seq<char>, n: Seq<char>, p: int) -> bool {
    !definition_line(line, n) && exists|i: int| 0 <= i < p && call_at(line, n, i)
}

/// Some of the first `k` lines calls `n`.
spec fn called_above(ls: Seq<Seq<char>>, n: Seq<char>, k: int) -> bool {
    exists|i: int| 0 <= i < k && calls_on_line(#[trigger] ls[i], n)
}

/// At a place where an identifier starts, only the whole identifier can be
/// called.
proof fn call_is_of_the_whole_identifier(line: Seq<char>, start: int, end: int, n: Seq<char>)
    requires
        0 <= start < end <= line.len(),
        forall|k: int| start <= k < end ==> ident(#[trigger] line[k]),
        end < line.len() ==> !ident(line[end]),
        identifier(n),
        call_at(line, n, start),
    ensures
        n == line.subrange(start, end),
{
    let stop = start + n.len();
    let rest = line.subrange(stop, line.len() as int);
    skip_white_bounds(rest, 0);
    assert(line.subrange(start, stop) == n);
    if stop < end {
        assert(ident(line[stop]));
        assert(rest[0] == line[stop]);
        assert(false);
    }
    if stop > end {
        assert(n[end - start] == line[end]);
        assert(ident(n[end - start]));
        assert(false);
    }
}

fn call_names_of_line(line: &[char], out: &mut Vec<String>)
    requires
        strs(old(out)@).no_duplicates(),
    ensures
        strs(final(out)@).no_duplicates(),
        forall|n: Seq<char>| #[trigger]
            strs(final(out)@).contains(n) <==> (strs(old(out)@).contains(n) || (identifier(n)
                && calls_on_line(line@, n))),
{
    let ghost before = strs(out@);
    let mut i: usize = 0;
    while i < line.len()
        invariant
            i <= line@.len(),
            strs(out@).no_duplicates(),
            forall|n: Seq<char>| #[trigger]
                strs(out@).contains(n) <==> (before.contains(n) || (identifier(n) && called_before(
                    line@,
                    n,
                    i as int,
                ))),
        decreases line@.len() - i,
    {
        let ghost collected = strs(out@);
        let c = line[i];
        let starts_ident = (is_ident(c) && !is_ascii_digit(c))
            && nothing_before(line, i);
        if !starts_ident {
            proof {
                assert forall|n: Seq<char>| #[trigger]
                    collected.contains(n) <==> (before.contains(n) || (identifier(n)
                        && called_before(line@, n, i + 1))) by {
                    if identifier(n) && called_before(line@, n, i + 1) {
                        let k = choose|k: int| 0 <= k < i + 1 && call_at(line@, n, k);
                        if k == i {
                            assert(line@.subrange(k, k + n.len())[0] == line@[k]);
                            assert(false);
                        }
                        assert(called_before(line@, n, i as int));
                    }
                }
            }
            i = i + 1;
            continue ;
        }
        let start: usize = i;
        while i < line.len() && is_ident(line[i])
            invariant
                start <= i <= line@.len(),
                forall|k: int| start <= k < i ==> ident(#[trigger] line@[k]),
                ident(line@[start as int]),
                start < line@.len(),
                i == start ==> i < line@.len(),
            ensures
                start < i <= line@.len(),
                i < line@.len() ==> !ident(line@[i as int]),
                forall|k: int| start <= k < i ==> ident(#[trigger] line@[k]),
            decreases line@.len() - i,
        {
            i = i + 1;
        }
        let name = slice_subrange(line, start, i);
        let found = paren_follows(line, i) && !line_defines(line, name);
        proof {
            assert(name@[0] == line@[start as int]);
            assert(identifier(name@)) by {
                assert forall|k: int| 0 <= k < name@.len() implies ident(#[trigger] name@[k]) by {
                    assert(name@[k] == line@[start + k]);
                }
            }
            assert(paren_after(line@, i as int) ==> call_at(line@, name@, start as int));
            assert forall|n: Seq<char>|
                identifier(n) && #[trigger] called_before(line@, n, i as int) implies called_before(
                line@,
                n,
                start as int,
            ) || (found && n == name@) by {
                let k = choose|k: int| 0 <= k < i && call_at(line@, n, k);
                if k > start {
                    assert(ident(line@[k - 1]));
                    assert(false);
                } else if k == start {
                    call_is_of_the_whole_identifier(line@, start as int, i as int, n);
                }
            }
            assert forall|n: Seq<char>| #[trigger]
                called_before(line@, n, start as int) implies called_before(line@, n, i as int) by {
                let k = choose|k: int| 0 <= k < start && call_at(line@, n, k);
                assert(0 <= k < i && call_at(line@, n, k));
            }
            if found {
                assert(called_before(line@, name@, i as int));
            }
        }
        if found {
            push_new(out, name);
            proof {
                if !collected.contains(name@) {
                    assert forall|n: Seq<char>| #[trigger]
                        collected.push(name@).contains(n) <==> (collected.contains(n) || n
                            == name@) by {
                        if collected.contains(n) {
                            let w = choose|w: int| 0 <= w < collected.len() && collected[w] == n;
                            assert(collected.push(name@)[w] == n);
                        }
                        if n == name@ {
                            assert(collected.push(name@)[collected.len() as int] == n);
                        }
                    }
                }
            }
        }
    }
    proof {
        assert forall|n: Seq<char>| #[trigger]
            strs(out@).contains(n) <==> (before.contains(n) || (identifier(n) && calls_on_line(
                line@,
                n,
            ))) by {
            if identifier(n) && calls_on_line(line@, n) {
                let k = choose|k: int| call_at(line@, n, k);
                assert(0 <= k < line@.len() && call_at(line@, n, k));
                assert(called_before(line@, n, line@.len() as int));
            }
            if identifier(n) && called_before(line@, n, i as int) {
                let k = choose|k: int| 0 <= k < i && call_at(line@, n, k);
                assert(call_at(line@, n, k));
            }
        }
    }
}

/// Every name `content` calls, each once: the index form of
/// [`has_call_reference`], over identifiers.
pub fn called_names(content: &str) -> (r: Vec<String>)
    ensures
        strs(r@).no_duplicates(),
        forall|n: Seq<char>| #[trigger]
            strs(r@).contains(n) <==> (identifier(n) && calls(content@, n)),
{
    let ls = split_lines(chars_of(content).as_slice());
    let mut out: Vec<String> = Vec::new();
    let mut i: usize = 0;
    while i < ls.len()
        invariant
            i <= ls@.len(),
            texts(ls@) == lines(content@),
            strs(out@).no_duplicates(),
            forall|n: Seq<char>| #[trigger]
                strs(out@).contains(n) <==> (identifier(n) && called_above(
                    lines(content@),
                    n,
                    i as int,
                )),
        decreases ls@.len() - i,
    {
        call_names_of_line(ls[i].as_slice(), &mut out);
        proof {
            let all = lines(content@);
            assert(texts(ls@)[i as int] == ls@[i as int]@);
            assert forall|n: Seq<char>| called_above(all, n, i as int) || calls_on_line(
                all[i as int],
                n,
            ) <==> #[trigger] called_above(all, n, i + 1) by {
                if called_above(all, n, i as int) {
                    let k = choose|k: int| 0 <= k < i && calls_on_line(#[trigger] all[k], n);
                    assert(0 <= k < i + 1 && calls_on_line(all[k], n));
                }
                if called_above(all, n, i + 1) {
                    let k = choose|k: int| 0 <= k < i + 1 && calls_on_line(#[trigger] all[k], n);
                    if k < i {
                        assert(0 <= k < i && calls_on_line(all[k], n));
                    }
                }
            }
        }
        i = i + 1;
    }
    out
}

// ---------------------------------------------------------------------------
// What a block reads and writes
// ---------------------------------------------------------------------------

/// The first index at or after `i` that holds no word character, or the length.
pub open spec fn word_stop(s: Seq<char>, i: int) -> int
    decreases s.len() - i,
{
    if i < 0 || i >= s.len() {
        s.len() as int
    } else if word_char(s[i]) {
        word_stop(s, i + 1)
    } else {
        i
    }
}

/// The maximal runs of word characters at or after `i`: `b(2);` is `b`, `2`.
pub open spec fn tokens_from(s: Seq<char>, i: int) -> Seq<Seq<char>>
    decreases s.len() - i,
    via tokens_from_decreases
{
    if i < 0 || i >= s.len() {
        Seq::empty()
    } else if word_char(s[i]) {
        seq![s.subrange(i, word_stop(s, i))] + tokens_from(s, word_stop(s, i))
    } else {
        tokens_from(s, i + 1)
    }
}

#[via_fn]
proof fn tokens_from_decreases(s: Seq<char>, i: int) {
    if 0 <= i < s.len() {
        word_stop_bounds(s, i + 1);
    }
}

proof fn word_stop_bounds(s: Seq<char>, i: int)
    requires
        0 <= i <= s.len(),
    ensures
        i <= word_stop(s, i) <= s.len(),
    decreases s.len() - i,
{
    if i < s.len() && word_char(s[i]) {
        word_stop_bounds(s, i + 1);
    }
}

/// Maximal runs of word characters.
pub open spec fn tokens(s: Seq<char>) -> Seq<Seq<char>> {
    tokens_from(s, 0)
}

/// Maximal runs of word characters: `b(2);` is `b`, `2`, not `b(2);`.
pub fn word_tokens(s: &[char]) -> (r: Vec<Vec<char>>)
    ensures
        texts(r@) == tokens(s@),
{
    let mut out: Vec<Vec<char>> = Vec::new();
    let mut i: usize = 0;
    proof {
        assert(texts(out@) + tokens_from(s@, 0) =~= tokens(s@));
    }
    while i < s.len()
        invariant
            i <= s@.len(),
            texts(out@) + tokens_from(s@, i as int) == tokens(s@),
        decreases s@.len() - i,
    {
        if is_word_char(s[i]) {
            let start: usize = i;
            proof {
                word_stop_bounds(s@, i + 1);
            }
            while i < s.len() && is_word_char(s[i])
                invariant
                    start <= i <= s@.len(),
                    word_stop(s@, i as int) == word_stop(s@, start as int),
                decreases s@.len() - i,
            {
                i = i + 1;
            }
            let word = copy_of(slice_subrange(s, start, i));
            let ghost before = texts(out@);
            out.push(word);
            proof {
                assert(i == word_stop(s@, start as int));
                assert(texts(out@) =~= before + seq![word@]);
                assert(before + (seq![word@] + tokens_from(s@, i as int)) =~= (before + seq![word@])
                    + tokens_from(s@, i as int));
            }
        } else {
            i = i + 1;
        }
    }
    proof {
        assert(texts(out@) =~= tokens(s@));
    }
    out
}

/// A decorator, annotation or comment line: text that belongs to whatever it
/// precedes rather than standing on its own.
pub open spec fn trivia_line(line: Seq<char>) -> bool {
    let t = trim(line);
    ||| starts(t, "@"@)
    ||| starts(t, "#"@)
    ||| starts(t, "//"@)
    ||| starts(t, "/*"@)
    ||| starts(t, "* "@)
    ||| t == "*"@
    ||| t == "*/"@
}

/// Is the line a decorator, an annotation or a comment?
pub fn is_trivia_line(line: &[char]) -> (r: bool)
    ensures
        r == trivia_line(line@),
{
    let t = trimmed(line);
    starts_with(t, "@") || starts_with(t, "#") || starts_with(t, "//") || starts_with(t, "/*")
        || starts_with(t, "* ") || same_str(t, "*") || same_str(t, "*/")
}

/// The first of the lines, at or after the `i`th, that is neither blank nor
/// trivia.
pub open spec fn first_code_line(ls: Seq<Seq<char>>, i: int) -> Option<Seq<char>>
    decreases ls.len() - i,
{
    if i < 0 || i >= ls.len() {
        None
    } else if trim(ls[i]).len() > 0 && !trivia_line(ls[i]) {
        Some(ls[i])
    } else {
        first_code_line(ls, i + 1)
    }
}

/// The `=` at index `i` compares or updates, and does not assign.
pub open spec fn compares_or_updates(line: Seq<char>, i: int) -> bool {
    let prev = if i > 0 {
        line[i - 1]
    } else {
        ' '
    };
    let next = if i + 1 < line.len() {
        line[i + 1]
    } else {
        ' '
    };
    ||| next == '='
    ||| prev == '='
    ||| prev == '!'
    ||| prev == '<'
    ||| prev == '>'
    ||| prev == '+'
    ||| prev == '-'
    ||| prev == '*'
    ||| prev == '/'
    ||| prev == '%'
    ||| prev == '&'
    ||| prev == '|'
    ||| prev == '^'
    ||| prev == ':'
}

/// Words that steer what runs, and name nothing.
pub open spec fn statement_words() -> Seq<Seq<char>> {
    seq![
        "if"@, "while"@, "for"@, "return"@, "match"@, "switch"@, "case"@, "else"@, "elif"@,
        "yield"@, "assert"@, "with"@, "do"@, "try"@,
    ]
}

/// Does one of the words steer what runs?
pub open spec fn steers(words: Seq<Seq<char>>) -> bool {
    exists|k: int| 0 <= k < words.len() && statement_words().contains(#[trigger] words[k])
}

/// The name that the trimmed line binds, if it is a declaration: the last word
/// in front of the first `=`, a type annotation aside. What steers, calls, indexes or
/// selects on the left is no declaration.
pub open spec fn declared_on(line: Seq<char>) -> Option<Seq<char>> {
    let eq = find_char(line, '=', 0);
    if eq >= line.len() || compares_or_updates(line, eq) {
        None
    } else {
        let lhs = line.subrange(0, eq);
        let words = tokens(lhs.subrange(0, find_char(lhs, ':', 0)));
        if lhs.contains('(') || lhs.contains('[') || lhs.contains('.') || words.len() == 0
            || steers(tokens(lhs)) || ascii_digit(words.last()[0]) {
            None
        } else {
            Some(words.last())
        }
    }
}

/// The name that the first code line of a text binds, if it is a declaration.
pub open spec fn declaration(text: Seq<char>) -> Option<Seq<char>> {
    match first_code_line(lines(text), 0) {
        Some(line) => declared_on(trim(line)),
        None => None,
    }
}

/// The optional text `r` is the optional text `s`.
pub open spec fn opt_text(r: Option<Vec<char>>) -> Option<Seq<char>> {
    match r {
        Some(v) => Some(v@),
        None => None,
    }
}

proof fn token_is_not_empty(s: Seq<char>, i: int)
    requires
        0 <= i,
    ensures
        forall|k: int|
            0 <= k < tokens_from(s, i).len() ==> (#[trigger] tokens_from(s, i)[k]).len() > 0,
    decreases s.len() - i,
{
    if i < s.len() {
        word_stop_bounds(s, i + 1);
        if word_char(s[i]) {
            let rest = tokens_from(s, word_stop(s, i));
            token_is_not_empty(s, word_stop(s, i));
            assert forall|k: int| 0 <= k < tokens_from(s, i).len() implies (#[trigger] tokens_from(
                s,
                i,
            )[k]).len() > 0 by {
                if k > 0 {
                    assert(tokens_from(s, i)[k] == rest[k - 1]);
                }
            }
        } else {
            token_is_not_empty(s, i + 1);
            assert(tokens_from(s, i) == tokens_from(s, i + 1));
        }
    } else {
        assert(tokens_from(s, i).len() == 0);
    }
}

fn is_statement_word(w: &[char]) -> (r: bool)
    ensures
        r == statement_words().contains(w@),
{
    let kws: Vec<&str> = vec![
        "if", "while", "for", "return", "match", "switch", "case", "else", "elif", "yield",
        "assert", "with", "do", "try",
    ];
    let ghost all = kws@.map_values(|s: &str| s@);
    proof {
        assert(all =~= statement_words());
    }
    let mut k: usize = 0;
    while k < kws.len()
        invariant
            k <= kws@.len(),
            all == kws@.map_values(|s: &str| s@),
            all == statement_words(),
            forall|j: int| 0 <= j < k ==> all[j] != w@,
        decreases kws@.len() - k,
    {
        if same_str(w, kws[k]) {
            proof {
                assert(all[k as int] == w@);
            }
            return true;
        }
        k = k + 1;
    }
    false
}

fn has_statement_word(words: &Vec<Vec<char>>) -> (r: bool)
    ensures
        r == steers(texts(words@)),
{
    let ghost all = texts(words@);
    let mut k: usize = 0;
    while k < words.len()
        invariant
            k <= words@.len(),
            all == texts(words@),
            forall|m: int| 0 <= m < k ==> !statement_words().contains(#[trigger] all[m]),
        decreases words@.len() - k,
    {
        proof {
            assert(all[k as int] == words@[k as int]@);
        }
        if is_statement_word(words[k].as_slice()) {
            return true;
        }
        k = k + 1;
    }
    false
}

fn declared_on_line(line: &[char]) -> (r: Option<Vec<char>>)
    ensures
        opt_text(r) == declared_on(line@),
{
    let eq: usize = find_char_from(line, '=', 0);
    if eq >= line.len() {
        return None;
    }
    let prev = if eq > 0 {
        line[eq - 1]
    } else {
        ' '
    };
    let next = if eq + 1 < line.len() {
        line[eq + 1]
    } else {
        ' '
    };
    if next == '=' || prev == '=' || prev == '!' || prev == '<' || prev == '>' || prev == '+' || prev
        == '-' || prev == '*' || prev == '/' || prev == '%' || prev == '&' || prev == '|' || prev
        == '^' || prev == ':' {
        return None;
    }
    let lhs = slice_subrange(line, 0, eq);
    let round: usize = find_char_from(lhs, '(', 0);
    let square: usize = find_char_from(lhs, '[', 0);
    let dot: usize = find_char_from(lhs, '.', 0);
    proof {
        assert(round < lhs@.len() ==> lhs@.contains('('));
        assert(square < lhs@.len() ==> lhs@.contains('['));
        assert(dot < lhs@.len() ==> lhs@.contains('.'));
    }
    if round < lhs.len() || square < lhs.len() || dot < lhs.len() {
        return None;
    }
    if has_statement_word(&word_tokens(lhs)) {
        return None;
    }
    let colon: usize = find_char_from(lhs, ':', 0);
    let mut words = word_tokens(slice_subrange(lhs, 0, colon));
    proof {
        token_is_not_empty(lhs@.subrange(0, colon as int), 0);
    }
    let ghost all = texts(words@);
    match words.pop() {
        Some(name) => {
            proof {
                assert(all.last() == name@);
            }
            if is_ascii_digit(name[0]) {
                None
            } else {
                Some(name)
            }
        },
        None => None,
    }
}

/// The name a single *declaration* statement binds, if that is what it is: an
/// assignment whose effect is exactly one binding a reader could observe in
/// isolation.
pub fn declared_name(text: &[char]) -> (r: Option<Vec<char>>)
    ensures
        opt_text(r) == declaration(text@),
{
    let ls = split_lines(text);
    let ghost all = lines(text@);
    let mut i: usize = 0;
    while i < ls.len()
        invariant
            i <= ls@.len(),
            texts(ls@) == all,
            all == lines(text@),
            first_code_line(all, i as int) == first_code_line(all, 0),
        decreases ls@.len() - i,
    {
        proof {
            assert(texts(ls@)[i as int] == ls@[i as int]@);
        }
        let t = trimmed(ls[i].as_slice());
        if t.len() > 0 && !is_trivia_line(ls[i].as_slice()) {
            return declared_on_line(t);
        }
        i = i + 1;
    }
    None
}

/// The first index at or after `i` of a character that ends a defined name, or
/// the length.
pub open spec fn name_stop(s: Seq<char>, i: int) -> int
    decreases s.len() - i,
{
    if i < 0 || i >= s.len() {
        s.len() as int
    } else if ident_low_byte(s[i]) {
        name_stop(s, i + 1)
    } else {
        i
    }
}

/// The name a definer keyword introduces on a line, behind the modifiers.
pub open spec fn definition(line: Seq<char>) -> Option<Seq<char>> {
    match definition_rest(line) {
        Some(rest) => {
            let name = rest.subrange(0, name_stop(rest, 0));
            if name.len() > 0 && !ascii_digit(name[0]) {
                Some(name)
            } else {
                None
            }
        },
        None => None,
    }
}

/// The name a *definer keyword* introduces on this line, after the modifier
/// prefixes.
pub fn defined_name(line: &[char]) -> (r: Option<Vec<char>>)
    ensures
        opt_text(r) == definition(line@),
{
    match behind_definer(line) {
        Some(rest) => {
            let mut end: usize = 0;
            while end < rest.len() && is_ident_low_byte(rest[end])
                invariant
                    end <= rest@.len(),
                    name_stop(rest@, end as int) == name_stop(rest@, 0),
                decreases rest@.len() - end,
            {
                end = end + 1;
            }
            let name = slice_subrange(rest, 0, end);
            if name.len() > 0 && !is_ascii_digit(name[0]) {
                Some(copy_of(name))
            } else {
                None
            }
        },
        None => None,
    }
}

/// What a block of code writes and what it reads, each name once and in order.
#[derive(Debug, Clone, PartialEq, Eq)]
pub struct Footprint {
    /// Names this text binds.
    pub defines: Vec<String>,
    /// Every identifier this text mentions that it does not itself bind.
    pub uses: Vec<String>,
}

/// The sets of names written and read.
pub struct FootprintView {
    pub defines: Set<Seq<char>>,
    pub uses: Set<Seq<char>>,
}

impl View for Footprint {
    type V = FootprintView;

    open spec fn view(&self) -> FootprintView {
        FootprintView { defines: strs(self.defines@).to_set(), uses: strs(self.uses@).to_set() }
    }
}

impl Footprint {
    /// The names stand in their order, each once.
    pub open spec fn wf(&self) -> bool {
        strictly_sorted(strs(self.defines@)) && strictly_sorted(strs(self.uses@))
    }
}

/// Two footprints with the same names list them alike.
pub proof fn a_footprint_is_its_sets(a: &Footprint, b: &Footprint)
    requires
        a.wf(),
        b.wf(),
        a@ == b@,
    ensures
        strs(a.defines@) == strs(b.defines@),
        strs(a.uses@) == strs(b.uses@),
{
    sorted_lists_are_their_sets(strs(a.defines@), strs(b.defines@));
    sorted_lists_are_their_sets(strs(a.uses@), strs(b.uses@));
}

/// How many bytes of white space a line starts with.
pub open spec fn indent(line: Seq<char>) -> nat {
    width(line.subrange(0, skip_white(line, 0)))
}

/// How many bytes of white space the line starts with.
pub fn indent_of(line: &[char]) -> (r: u128)
    ensures
        r == indent(line@),
{
    let mut i: usize = 0;
    let mut w: u128 = 0;
    while i < line.len() && crate::text::is_white(line[i])
        invariant
            i <= line@.len(),
            w <= 4 * i,
            w == width(line@.subrange(0, i as int)),
            skip_white(line@, i as int) == skip_white(line@, 0),
        decreases line@.len() - i,
    {
        w = w + width_of_char(line[i]) as u128;
        i = i + 1;
        proof {
            let head = line@.subrange(0, i as int);
            assert(head.drop_last() =~= line@.subrange(0, i - 1));
        }
    }
    w
}

/// The names written and read by the lines at or after the `i`th, given what the
/// lines above wrote and read and the indent of the definition they are in.
/// `None` where a line has an effect that cannot be seen.
pub open spec fn footprint_from(
    ls: Seq<Seq<char>>,
    i: int,
    seen: FootprintView,
    body: Option<nat>,
) -> Option<FootprintView>
    decreases ls.len() - i,
{
    if i < 0 || i >= ls.len() {
        Some(seen)
    } else {
        let line = ls[i];
        let t = trim(line);
        let read = FootprintView {
            defines: seen.defines,
            uses: seen.uses.union(tokens(line).to_set()),
        };
        if t.len() == 0 {
            footprint_from(ls, i + 1, seen, body)
        } else if starts(t, "@"@) || starts(t, "#["@) {
            None
        } else if trivia_line(line) {
            footprint_from(ls, i + 1, seen, body)
        } else if body matches Some(head) && (indent(line) > head || starts(t, "}"@)) {
            footprint_from(ls, i + 1, read, body)
        } else if definition(line) is Some {
            footprint_from(
                ls,
                i + 1,
                FootprintView { defines: read.defines.insert(definition(line)->0), uses: read.uses },
                Some(indent(line)),
            )
        } else if declaration(line) is Some {
            footprint_from(
                ls,
                i + 1,
                FootprintView {
                    defines: read.defines.insert(declaration(line)->0),
                    uses: read.uses,
                },
                None,
            )
        } else {
            None
        }
    }
}

/// The names a block of code writes, and those it reads and does not write.
/// `None` where any part of it has an effect that cannot be seen, or where it
/// writes nothing.
pub open spec fn footprint_of(text: Seq<char>) -> Option<FootprintView> {
    match footprint_from(
        lines(text),
        0,
        FootprintView { defines: Set::empty(), uses: Set::empty() },
        None,
    ) {
        Some(f) => if f.defines.is_empty() {
            None
        } else {
            Some(FootprintView { defines: f.defines, uses: f.uses.difference(f.defines) })
        },
        None => None,
    }
}

fn push_name(v: &mut Vec<String>, s: &[char])
    requires
        strictly_sorted(strs(old(v)@)),
    ensures
        strictly_sorted(strs(final(v)@)),
        strs(final(v)@).to_set() == strs(old(v)@).to_set().insert(s@),
{
    let ghost before = strs(v@);
    push_sorted(v, string_of(s).as_str());
    proof {
        add_sorted_sorts(before, s@);
        assert(strs(v@).to_set() =~= before.to_set().insert(s@));
    }
}

fn read_tokens(uses: &mut Vec<String>, line: &[char])
    requires
        strictly_sorted(strs(old(uses)@)),
    ensures
        strictly_sorted(strs(final(uses)@)),
        strs(final(uses)@).to_set() == strs(old(uses)@).to_set().union(tokens(line@).to_set()),
{
    let words = word_tokens(line);
    let ghost before = strs(uses@).to_set();
    let ghost all = tokens(line@);
    let mut i: usize = 0;
    proof {
        assert(before.union(all.take(0).to_set()) =~= before);
    }
    while i < words.len()
        invariant
            i <= words@.len(),
            texts(words@) == all,
            strictly_sorted(strs(uses@)),
            strs(uses@).to_set() == before.union(all.take(i as int).to_set()),
        decreases words@.len() - i,
    {
        proof {
            assert(texts(words@)[i as int] == words@[i as int]@);
            assert(all.take(i + 1) =~= all.take(i as int).push(all[i as int]));
            all.take(i as int).lemma_push_to_set_commute(all[i as int]);
            assert(before.union(all.take(i + 1).to_set()) =~= before.union(
                all.take(i as int).to_set(),
            ).insert(all[i as int]));
        }
        push_name(uses, words[i].as_slice());
        i = i + 1;
    }
    proof {
        assert(all.take(all.len() as int) =~= all);
    }
}

/// The strings of the first list that are not in the second.
fn without(v: &Vec<String>, w: &Vec<String>) -> (r: Vec<String>)
    ensures
        strictly_sorted(strs(r@)),
        strs(r@).to_set() == strs(v@).to_set().difference(strs(w@).to_set()),
{
    let mut out: Vec<String> = Vec::new();
    let mut i: usize = 0;
    let ghost gone = strs(w@).to_set();
    proof {
        assert(strs(v@).take(0).to_set().difference(gone) =~= strs(out@).to_set());
    }
    while i < v.len()
        invariant
            i <= v@.len(),
            gone == strs(w@).to_set(),
            strictly_sorted(strs(out@)),
            strs(out@).to_set() == strs(v@).take(i as int).to_set().difference(gone),
        decreases v@.len() - i,
    {
        let ghost here = strs(v@).take(i as int);
        proof {
            assert(strs(v@).take(i + 1) =~= here.push(v@[i as int]@));
            here.lemma_push_to_set_commute(v@[i as int]@);
        }
        if !list_has(w, v[i].as_str()) {
            push_name(&mut out, chars_of(v[i].as_str()).as_slice());
            proof {
                assert(here.to_set().insert(v@[i as int]@).difference(gone)
                    =~= here.to_set().difference(gone).insert(v@[i as int]@));
            }
        } else {
            proof {
                assert(here.to_set().insert(v@[i as int]@).difference(gone)
                    =~= here.to_set().difference(gone));
            }
        }
        i = i + 1;
    }
    proof {
        assert(strs(v@).take(v@.len() as int) =~= strs(v@));
    }
    out
}

/// The optional footprint as sets.
pub open spec fn opt_footprint(f: Option<Footprint>) -> Option<FootprintView> {
    match f {
        Some(x) => Some(x@),
        None => None,
    }
}

/// The read/write set of one block of code, or `None` if any part of it has an
/// effect that cannot be seen.
///
/// Only two shapes have one: a declaration, which writes its name and reads its
/// line, and a definition, which writes its name and reads its body. A decorator
/// registers its subject with something at definition time, and so hides the
/// effect of the whole block.
pub fn footprint(text: &str) -> (r: Option<Footprint>)
    ensures
        opt_footprint(r) == footprint_of(text@),
        r matches Some(f) ==> f.wf(),
{
    let ls = split_lines(chars_of(text).as_slice());
    let ghost all = lines(text@);
    let ghost none = FootprintView { defines: Set::empty(), uses: Set::empty() };
    let mut defines: Vec<String> = Vec::new();
    let mut uses: Vec<String> = Vec::new();
    let mut body: Option<u128> = None;
    let mut i: usize = 0;
    proof {
        assert(strs(defines@).to_set() =~= Set::empty());
        assert(strs(uses@).to_set() =~= Set::empty());
    }
    while i < ls.len()
        invariant
            i <= ls@.len(),
            texts(ls@) == all,
            strictly_sorted(strs(defines@)),
            strictly_sorted(strs(uses@)),
            footprint_from(
                all,
                i as int,
                FootprintView { defines: strs(defines@).to_set(), uses: strs(uses@).to_set() },
                match body {
                    Some(n) => Some(n as nat),
                    None => None,
                },
            ) == footprint_from(all, 0, none, None),
            all == lines(text@),
            none == (FootprintView { defines: Set::empty(), uses: Set::empty() }),
        decreases ls@.len() - i,
    {
        proof {
            assert(texts(ls@)[i as int] == ls@[i as int]@);
        }
        let line = ls[i].as_slice();
        let t = trimmed(line);
        i = i + 1;
        if t.len() == 0 {
            continue ;
        }
        if starts_with(t, "@") || starts_with(t, "#[") {
            return None;
        }
        if is_trivia_line(line) {
            continue ;
        }
        let ind: u128 = indent_of(line);
        let inside = match body {
            Some(head) => ind > head || starts_with(t, "}"),
            None => false,
        };
        if inside {
            read_tokens(&mut uses, line);
            continue ;
        }
        match defined_name(line) {
            Some(name) => {
                push_name(&mut defines, name.as_slice());
                read_tokens(&mut uses, line);
                body = Some(ind);
            },
            None => {
                match declared_name(line) {
                    Some(name) => {
                        push_name(&mut defines, name.as_slice());
                        read_tokens(&mut uses, line);
                        body = None;
                    },
                    None => {
                        return None;
                    },
                }
            },
        }
    }
    if defines.len() == 0 {
        proof {
            assert(strs(defines@).to_set() =~= Set::empty());
            assert(strs(defines@).to_set().is_empty());
        }
        return None;
    }
    let rest = without(&uses, &defines);
    proof {
        assert(strs(defines@).contains(strs(defines@)[0]));
        assert(strs(defines@).to_set().contains(strs(defines@)[0]));
        assert(!strs(defines@).to_set().is_empty());
    }
    Some(Footprint { defines, uses: rest })
}

/// Neither block writes what the other writes, and neither writes what the other
/// reads.
pub open spec fn disjoint(a: FootprintView, b: FootprintView) -> bool {
    &&& a.defines.disjoint(b.defines)
    &&& a.defines.disjoint(b.uses)
    &&& b.defines.disjoint(a.uses)
}

/// Composition of two disjoint blocks has no direction.
pub proof fn disjointness_is_symmetric(a: FootprintView, b: FootprintView)
    ensures
        disjoint(a, b) == disjoint(b, a),
{
    assert(a.defines.disjoint(b.defines) == b.defines.disjoint(a.defines)) by {
        if a.defines.disjoint(b.defines) {
            assert(b.defines.disjoint(a.defines));
        }
    }
}

fn lists_disjoint(v: &Vec<String>, w: &Vec<String>) -> (r: bool)
    ensures
        r == strs(v@).to_set().disjoint(strs(w@).to_set()),
{
    let mut i: usize = 0;
    while i < v.len()
        invariant
            i <= v@.len(),
            forall|k: int| 0 <= k < i ==> !strs(w@).contains(v@[k]@),
        decreases v@.len() - i,
    {
        if list_has(w, v[i].as_str()) {
            proof {
                assert(strs(v@)[i as int] == v@[i as int]@);
                assert(strs(v@).to_set().contains(v@[i as int]@));
                assert(strs(w@).to_set().contains(v@[i as int]@));
            }
            return false;
        }
        i = i + 1;
    }
    proof {
        assert forall|x: Seq<char>| strs(v@).to_set().contains(x) implies !strs(
            w@,
        ).to_set().contains(x) by {
            let k = choose|k: int| 0 <= k < strs(v@).len() && strs(v@)[k] == x;
            assert(strs(v@)[k] == v@[k]@);
        }
    }
    true
}

/// The disjointness test, as a decision about two blocks that are to be placed in
/// the same gap.
pub fn footprints_disjoint(a: &Footprint, b: &Footprint) -> (r: bool)
    ensures
        r == disjoint(a@, b@),
{
    lists_disjoint(&a.defines, &b.defines) && lists_disjoint(&a.defines, &b.uses)
        && lists_disjoint(&b.defines, &a.uses)
}

// ---------------------------------------------------------------------------
// Rewriting
// ---------------------------------------------------------------------------

/// `needle` stands at index `i` as a word of its own.
pub open spec fn word_at(s: Seq<char>, needle: Seq<char>, i: int) -> bool {
    &&& at(s, needle, i)
    &&& i == 0 || !ident(s[i - 1])
    &&& i + needle.len() >= s.len() || !ident(s[i + needle.len()])
}

/// What is at or after `i`, with `needle` replaced wherever it stands as a word
/// of its own.
pub open spec fn replaced_from(
    s: Seq<char>,
    needle: Seq<char>,
    replacement: Seq<char>,
    i: int,
) -> Seq<char>
    decreases s.len() - i,
{
    if i < 0 || i >= s.len() {
        Seq::empty()
    } else if needle.len() > 0 && word_at(s, needle, i) {
        replacement + replaced_from(s, needle, replacement, i + needle.len())
    } else {
        seq![s[i]] + replaced_from(s, needle, replacement, i + 1)
    }
}

/// `s` with `needle` replaced wherever it stands as a word of its own.
pub open spec fn replaced(s: Seq<char>, needle: Seq<char>, replacement: Seq<char>) -> Seq<char> {
    replaced_from(s, needle, replacement, 0)
}

/// Where nothing is a word of its own, nothing is replaced.
pub proof fn nothing_to_replace(
    s: Seq<char>,
    needle: Seq<char>,
    replacement: Seq<char>,
    i: int,
)
    requires
        0 <= i <= s.len(),
        forall|k: int| i <= k < s.len() ==> !(needle.len() > 0 && #[trigger] word_at(s, needle, k)),
    ensures
        replaced_from(s, needle, replacement, i) == s.subrange(i, s.len() as int),
    decreases s.len() - i,
{
    if i < s.len() {
        nothing_to_replace(s, needle, replacement, i + 1);
        assert(seq![s[i]] + s.subrange(i + 1, s.len() as int) =~= s.subrange(i, s.len() as int));
    } else {
        assert(s.subrange(i, i) =~= Seq::<char>::empty());
    }
}

/// `content` with `needle` replaced at word boundaries.
pub fn replace_words(content: &[char], needle: &[char], replacement: &[char]) -> (r: Vec<char>)
    ensures
        r@ == replaced(content@, needle@, replacement@),
{
    let n: usize = content.len();
    let mut out: Vec<char> = Vec::new();
    let mut i: usize = 0;
    while i < n
        invariant
            i <= n,
            n == content@.len(),
            out@ + replaced_from(content@, needle@, replacement@, i as int) == replaced(
                content@,
                needle@,
                replacement@,
            ),
        decreases n - i,
    {
        let ghost before = out@;
        let ghost whole = replaced(content@, needle@, replacement@);
        if needle.len() > 0 && stands_at(content, needle, i) && (i == 0 || !is_ident(content[i - 1]))
            && (i + needle.len() >= n || !is_ident(content[i + needle.len()])) {
            push_all(&mut out, replacement);
            i = i + needle.len();
            proof {
                assert(before + (replacement@ + replaced_from(
                    content@,
                    needle@,
                    replacement@,
                    i as int,
                )) =~= out@ + replaced_from(content@, needle@, replacement@, i as int));
            }
        } else {
            out.push(content[i]);
            i = i + 1;
            proof {
                assert(before + (seq![content@[i - 1]] + replaced_from(
                    content@,
                    needle@,
                    replacement@,
                    i as int,
                )) =~= out@ + replaced_from(content@, needle@, replacement@, i as int));
            }
        }
    }
    proof {
        assert(out@ =~= replaced(content@, needle@, replacement@));
    }
    out
}

/// Replace `needle` with `replacement` only at word boundaries: the rewrite half
/// of the same identifier model the predicates above read with.
pub fn replace_at_word_boundaries(content: &str, needle: &str, replacement: &str) -> (r: String)
    ensures
        r@ == replaced(content@, needle@, replacement@),
{
    string_of(
        replace_words(
            chars_of(content).as_slice(),
            chars_of(needle).as_slice(),
            chars_of(replacement).as_slice(),
        ).as_slice(),
    )
}

// ---------------------------------------------------------------------------
// A replaced word is gone
// ---------------------------------------------------------------------------

/// All of the characters may appear inside an identifier, and there is one.
pub open spec fn one_word(w: Seq<char>) -> bool {
    w.len() > 0 && forall|i: int| 0 <= i < w.len() ==> ident(#[trigger] w[i])
}

/// No run of identifier characters goes on across index `i`.
spec fn between_words(s: Seq<char>, i: int) -> bool {
    i <= 0 || i >= s.len() || !ident(s[i - 1]) || !ident(s[i])
}

/// The end of the run of identifier characters at `i`.
spec fn run_stop(s: Seq<char>, i: int) -> int
    decreases s.len() - i,
{
    if 0 <= i < s.len() && ident(s[i]) {
        run_stop(s, i + 1)
    } else {
        i
    }
}

proof fn run_stop_bounds(s: Seq<char>, i: int)
    requires
        0 <= i <= s.len(),
    ensures
        i <= run_stop(s, i) <= s.len(),
        forall|k: int| i <= k < run_stop(s, i) ==> ident(#[trigger] s[k]),
        run_stop(s, i) < s.len() ==> !ident(s[run_stop(s, i)]),
    decreases s.len() - i,
{
    if i < s.len() && ident(s[i]) {
        run_stop_bounds(s, i + 1);
    }
}

/// The rest of a run is copied as it is.
proof fn a_run_is_copied(s: Seq<char>, from: Seq<char>, to: Seq<char>, i: int, j: int)
    requires
        0 < i <= j <= s.len(),
        forall|k: int| i - 1 <= k < j ==> ident(#[trigger] s[k]),
    ensures
        replaced_from(s, from, to, i) == s.subrange(i, j) + replaced_from(s, from, to, j),
    decreases j - i,
{
    if i < j {
        assert(ident(s[i - 1]));
        assert(!word_at(s, from, i));
        a_run_is_copied(s, from, to, i + 1, j);
        assert(seq![s[i]] + (s.subrange(i + 1, j) + replaced_from(s, from, to, j)) =~= s.subrange(
            i,
            j,
        ) + replaced_from(s, from, to, j));
    } else {
        assert(s.subrange(i, j) + replaced_from(s, from, to, j) =~= replaced_from(s, from, to, j));
    }
}

/// What a run of identifier characters becomes: the new word, or itself.
proof fn a_run_becomes_a_word(s: Seq<char>, from: Seq<char>, to: Seq<char>, i: int) -> (w: Seq<char>)
    requires
        one_word(from),
        one_word(to),
        from != to,
        0 <= i < s.len(),
        ident(s[i]),
        between_words(s, i),
    ensures
        one_word(w),
        w != from,
        replaced_from(s, from, to, i) == w + replaced_from(s, from, to, run_stop(s, i)),
{
    run_stop_bounds(s, i);
    let j = run_stop(s, i);
    assert(i < j) by {
        assert(run_stop(s, i) == run_stop(s, i + 1));
        run_stop_bounds(s, i + 1);
    }
    let run = s.subrange(i, j);
    if word_at(s, from, i) {
        assert(s.subrange(i, i + from.len()) == from);
        if i + from.len() > j {
            assert(from[j - i] == s[j]);
            assert(ident(from[j - i]));
        }
        if i + from.len() < j {
            assert(ident(s[i + from.len()]));
        }
        to
    } else {
        a_run_is_copied(s, from, to, i + 1, j);
        assert(seq![s[i]] + (s.subrange(i + 1, j) + replaced_from(s, from, to, j)) =~= run
            + replaced_from(s, from, to, j));
        if run == from {
            assert(s.subrange(i, i + from.len()) =~= from);
            assert(word_at(s, from, i));
        }
        assert forall|k: int| 0 <= k < run.len() implies ident(#[trigger] run[k]) by {
            assert(run[k] == s[i + k]);
        }
        run
    }
}

proof fn no_word_from(s: Seq<char>, from: Seq<char>, to: Seq<char>, i: int, p: int)
    requires
        one_word(from),
        one_word(to),
        from != to,
        0 <= i <= s.len(),
        between_words(s, i),
        0 <= p,
    ensures
        !word_at(replaced_from(s, from, to, i), from, p),
    decreases s.len() - i,
{
    let r = replaced_from(s, from, to, i);
    if i < s.len() && word_at(r, from, p) {
        assert(r.subrange(p, p + from.len()) == from);
        assert(from[0] == r[p]);
        assert(ident(from[0]));
        if !ident(s[i]) {
            if word_at(s, from, i) {
                assert(s.subrange(i, i + from.len())[0] == s[i]);
            }
            let rest = replaced_from(s, from, to, i + 1);
            assert(r =~= seq![s[i]] + rest);
            assert(p >= 1);
            no_word_from(s, from, to, i + 1, p - 1);
            assert(rest.subrange(p - 1, p - 1 + from.len()) =~= from);
            if p - 1 > 0 {
                assert(rest[p - 2] == r[p - 1]);
            }
            assert(word_at(rest, from, p - 1));
        } else {
            let w = a_run_becomes_a_word(s, from, to, i);
            run_stop_bounds(s, i);
            run_stop_bounds(s, i + 1);
            let j = run_stop(s, i);
            let n = w.len() as int;
            let rest = replaced_from(s, from, to, j);
            assert(i < j);
            if rest.len() > 0 {
                assert(j < s.len());
                if word_at(s, from, j) {
                    assert(s.subrange(j, j + from.len())[0] == s[j]);
                }
                assert(rest[0] == s[j]);
                assert(!ident(rest[0]));
            }
            if p == 0 {
                if from.len() < n {
                    assert(r[from.len() as int] == w[from.len() as int]);
                } else if from.len() > n {
                    assert(from[n] == r[n]);
                    assert(ident(from[n]));
                } else {
                    assert(from =~= w);
                }
            } else if p < n {
                assert(r[p - 1] == w[p - 1]);
            } else if p == n {
                assert(r[p] == rest[0]);
            } else {
                no_word_from(s, from, to, j, p - n);
                assert(rest.subrange(p - n, p - n + from.len()) =~= from);
                assert(rest[p - n - 1] == r[p - 1]);
                assert(word_at(rest, from, p - n));
            }
        }
    }
}

/// After a word has been replaced by another, it stands nowhere any more as a word of
/// its own.
pub proof fn a_replaced_word_is_gone(s: Seq<char>, from: Seq<char>, to: Seq<char>, p: int)
    requires
        one_word(from),
        one_word(to),
        from != to,
    ensures
        !word_at(replaced(s, from, to), from, p),
{
    if 0 <= p {
        no_word_from(s, from, to, 0, p);
    }
}

proof fn a_call_is_a_word(line: Seq<char>, name: Seq<char>, i: int)
    requires
        one_word(name),
        call_at(line, name, i),
    ensures
        word_at(line, name, i),
        i + name.len() < line.len(),
{
    let e = i + name.len();
    let rest = line.subrange(e, line.len() as int);
    skip_white_bounds(rest, 0);
    assert(rest[0] == line[e]);
}

proof fn a_call_is_a_word_of_the_text(s: Seq<char>, name: Seq<char>, i: int, k: int) -> (p: int)
    requires
        one_word(name),
        0 <= i,
        i == 0 || i > s.len() || s[i - 1] == '\n',
        0 <= k < lines_from(s, i).len(),
        exists|q: int| call_at(lines_from(s, i)[k], name, q),
    ensures
        word_at(s, name, p),
    decreases s.len() + 1 - i,
{
    find_char_bounds(s, '\n', i);
    let e = find_char(s, '\n', i);
    if k == 0 {
        let line = line_at(s, i, e);
        assert(lines_from(s, i)[0] == line);
        let q = choose|q: int| call_at(line, name, q);
        a_call_is_a_word(line, name, q);
        assert(s.subrange(i + q, i + q + name.len()) =~= line.subrange(q, q + name.len()));
        assert(line[q + name.len()] == s[i + q + name.len()]);
        if q > 0 {
            assert(line[q - 1] == s[i + q - 1]);
        }
        i + q
    } else {
        assert(lines_from(s, i)[k] == lines_from(s, e + 1)[k - 1]);
        a_call_is_a_word_of_the_text(s, name, e + 1, k - 1)
    }
}

/// A text in which a name was replaced by another no longer calls it.
pub proof fn a_replaced_name_is_not_called(s: Seq<char>, from: Seq<char>, to: Seq<char>)
    requires
        one_word(from),
        one_word(to),
        from != to,
    ensures
        !calls(replaced(s, from, to), from),
{
    let r = replaced(s, from, to);
    if calls(r, from) {
        let k = choose|k: int|
            0 <= k < lines(r).len() && calls_on_line(#[trigger] lines(r)[k], from);
        let p = a_call_is_a_word_of_the_text(r, from, 0, k);
        a_replaced_word_is_gone(s, from, to, p);
    }
}


/// The word stands on one of the lines at or after the `i`th.
pub open spec fn word_from(ls: Seq<Seq<char>>, i: int, w: Seq<char>) -> bool {
    exists|k: int| i <= k < ls.len() && tokens(#[trigger] ls[k]).contains(w)
}

/// A line at or after the `i`th defines or declares the name.
pub open spec fn bound_from(ls: Seq<Seq<char>>, i: int, n: Seq<char>) -> bool {
    exists|k: int|
        i <= k < ls.len() && (definition(#[trigger] ls[k]) == Some(n) || declaration(ls[k]) == Some(
            n,
        ))
}

proof fn a_footprint_grows_by_its_lines(
    ls: Seq<Seq<char>>,
    i: int,
    seen: FootprintView,
    body: Option<nat>,
)
    requires
        0 <= i <= ls.len(),
    ensures
        footprint_from(ls, i, seen, body) matches Some(f) ==> {
            &&& forall|n: Seq<char>| #[trigger]
                seen.defines.contains(n) ==> f.defines.contains(n)
            &&& forall|n: Seq<char>| #[trigger] seen.uses.contains(n) ==> f.uses.contains(n)
            &&& forall|n: Seq<char>| #[trigger]
                f.defines.contains(n) ==> seen.defines.contains(n) || bound_from(ls, i, n)
            &&& forall|n: Seq<char>| #[trigger]
                f.uses.contains(n) ==> seen.uses.contains(n) || word_from(ls, i, n)
            &&& forall|k: int, n: Seq<char>|
                i <= k < ls.len() && !trivia_line(ls[k]) && trim(ls[k]).len() > 0
                    && #[trigger] tokens(ls[k]).contains(n) ==> f.uses.contains(n)
            &&& forall|k: int|
                i <= k < ls.len() ==> !starts(trim(#[trigger] ls[k]), "@"@) && !starts(
                    trim(ls[k]),
                    "#["@,
                ) || trim(ls[k]).len() == 0
        },
    decreases ls.len() - i,
{
    if i < ls.len() {
        let line = ls[i];
        let read = FootprintView {
            defines: seen.defines,
            uses: seen.uses.union(tokens(line).to_set()),
        };
        let with_def = FootprintView {
            defines: read.defines.insert(definition(line)->0),
            uses: read.uses,
        };
        let with_decl = FootprintView {
            defines: read.defines.insert(declaration(line)->0),
            uses: read.uses,
        };
        a_footprint_grows_by_its_lines(ls, i + 1, seen, body);
        a_footprint_grows_by_its_lines(ls, i + 1, read, body);
        a_footprint_grows_by_its_lines(ls, i + 1, with_def, Some(indent(line)));
        a_footprint_grows_by_its_lines(ls, i + 1, with_decl, None);
        if let Some(f) = footprint_from(ls, i, seen, body) {
            assert forall|n: Seq<char>| #[trigger] seen.defines.contains(n) implies
                f.defines.contains(n) by {
                assert(read.defines.contains(n) && with_def.defines.contains(n)
                    && with_decl.defines.contains(n));
            }
            assert forall|n: Seq<char>| #[trigger] seen.uses.contains(n) implies f.uses.contains(
                n,
            ) by {
                assert(read.uses.contains(n) && with_def.uses.contains(n)
                    && with_decl.uses.contains(n));
            }
            assert forall|n: Seq<char>| #[trigger] f.defines.contains(n) implies
                seen.defines.contains(n) || bound_from(ls, i, n) by {
                if bound_from(ls, i + 1, n) {
                    let k = choose|k: int|
                        i + 1 <= k < ls.len() && (definition(#[trigger] ls[k]) == Some(n)
                            || declaration(ls[k]) == Some(n));
                    assert(definition(ls[k]) == Some(n) || declaration(ls[k]) == Some(n));
                }
                if definition(ls[i]) == Some(n) || declaration(ls[i]) == Some(n) {
                    assert(bound_from(ls, i, n));
                }
            }
            assert forall|n: Seq<char>| #[trigger] f.uses.contains(n) implies seen.uses.contains(
                n,
            ) || word_from(ls, i, n) by {
                if word_from(ls, i + 1, n) {
                    let k = choose|k: int|
                        i + 1 <= k < ls.len() && tokens(#[trigger] ls[k]).contains(n);
                    assert(tokens(ls[k]).contains(n));
                }
                if tokens(ls[i]).contains(n) {
                    assert(word_from(ls, i, n));
                }
            }
            assert forall|k: int, n: Seq<char>|
                i <= k < ls.len() && !trivia_line(ls[k]) && trim(ls[k]).len() > 0
                    && #[trigger] tokens(ls[k]).contains(n) implies f.uses.contains(n) by {
                if k == i {
                    assert(tokens(line).to_set().contains(n));
                    assert(read.uses.contains(n));
                    assert(with_def.uses.contains(n) && with_decl.uses.contains(n));
                }
            }
            assert forall|k: int| i <= k < ls.len() implies !starts(
                trim(#[trigger] ls[k]),
                "@"@,
            ) && !starts(trim(ls[k]), "#["@) || trim(ls[k]).len() == 0 by {}
        }
    }
}

/// A footprint is of its text: what it binds a line of the text defines or declares; what
/// it uses is a word of the text that it does not bind; every word of a line that is not
/// trivia is bound or used; and a text with a decorator has none.
pub proof fn a_footprint_is_of_its_text(text: Seq<char>)
    ensures
        footprint_of(text) matches Some(f) ==> {
            let ls = lines(text);
            &&& !f.defines.is_empty()
            &&& forall|n: Seq<char>| #[trigger] f.defines.contains(n) ==> bound_from(ls, 0, n)
            &&& forall|n: Seq<char>| #[trigger]
                f.uses.contains(n) ==> word_from(ls, 0, n) && !f.defines.contains(n)
            &&& forall|k: int, n: Seq<char>|
                0 <= k < ls.len() && !trivia_line(ls[k]) && trim(ls[k]).len() > 0
                    && #[trigger] tokens(ls[k]).contains(n) ==> f.uses.contains(n)
                    || f.defines.contains(n)
            &&& forall|k: int|
                0 <= k < ls.len() && trim(#[trigger] ls[k]).len() > 0 ==> !starts(trim(ls[k]), "@"@)
                    && !starts(trim(ls[k]), "#["@)
        },
{
    a_footprint_grows_by_its_lines(
        lines(text),
        0,
        FootprintView { defines: Set::empty(), uses: Set::empty() },
        None,
    );
}

/// Two blocks are disjoint exactly where no name that the one binds is bound or used by
/// the other.
pub proof fn disjoint_blocks_share_no_bound_name(a: FootprintView, b: FootprintView)
    ensures
        disjoint(a, b) <==> forall|n: Seq<char>|
            !(#[trigger] a.defines.contains(n) && (b.defines.contains(n) || b.uses.contains(n)))
                && !(b.defines.contains(n) && a.uses.contains(n)),
{
    if disjoint(a, b) {
        assert forall|n: Seq<char>|
            !(#[trigger] a.defines.contains(n) && (b.defines.contains(n) || b.uses.contains(n)))
                && !(b.defines.contains(n) && a.uses.contains(n)) by {
            assert(a.defines.contains(n) ==> !b.defines.contains(n));
        }
    } else {
        if !a.defines.disjoint(b.defines) {
            let n = choose|n: Seq<char>| a.defines.contains(n) && b.defines.contains(n);
            assert(a.defines.contains(n));
        } else if !a.defines.disjoint(b.uses) {
            let n = choose|n: Seq<char>| a.defines.contains(n) && b.uses.contains(n);
            assert(a.defines.contains(n));
        } else {
            let n = choose|n: Seq<char>| b.defines.contains(n) && a.uses.contains(n);
            assert(!a.defines.contains(n) || a.defines.contains(n));
        }
    }
}

} // verus!
