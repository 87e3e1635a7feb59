//! A statement is a sequence of tokens: tiling a text into them, and aligning two
//! such sequences.

use vstd::prelude::*;
use vstd::slice::slice_subrange;
use crate::text::{
    at, chars_of, concat, copy_of, find, find_char, find_char_bounds, find_char_from, find_from,
    find_is_first, is_ascii_digit, is_word_char, same, stands_at, word_char, ascii_digit,
};

verus! {

broadcast use vstd::string::group_string_axioms;

// ---------------------------------------------------------------------------
// Tokens
// ---------------------------------------------------------------------------

/// What a token is.
#[derive(Debug, Clone, Copy, PartialEq, Eq, Structural)]
pub enum Kind {
    /// An identifier or keyword.
    Word,
    /// A numeric literal, whole.
    Number,
    /// A string or character literal, whole, quotes included.
    Str,
    /// A line or block comment, whole.
    Comment,
    /// Punctuation or an operator.
    Op,
}

/// One token and the white space in front of it, as places in the text: from `gap`
/// to `text` stands white space, from `text` to `end` the token.
#[derive(Debug, Clone, Copy, PartialEq, Eq, Structural)]
pub struct Tok {
    pub gap: usize,
    pub text: usize,
    pub end: usize,
    pub kind: Kind,
}

/// A [`Tok`] with its places as mathematical integers.
pub struct TokView {
    pub gap: int,
    pub text: int,
    pub end: int,
    pub kind: Kind,
}

impl View for Tok {
    type V = TokView;

    open spec fn view(&self) -> TokView {
        TokView {
            gap: self.gap as int,
            text: self.text as int,
            end: self.end as int,
            kind: self.kind,
        }
    }
}

/// The views of a list of tokens.
pub open spec fn tok_views(v: Seq<Tok>) -> Seq<TokView> {
    v.map_values(|t: Tok| t@)
}

/// A statement with more tokens than this is not composed: a statement is a
/// sentence, and a longer run of text is a block.
pub const MAX_TOKENS: usize = 256;

/// The runs of characters that a reader of tokens skips over.
#[derive(Clone, Copy, PartialEq, Eq, Structural)]
pub enum Run {
    /// ASCII white space.
    Blank,
    /// The characters of a name.
    Name,
    /// The characters of a lifetime.
    Lifetime,
    /// What is not ASCII.
    Foreign,
}

/// Is the character one of the run?
pub open spec fn runs(c: char, run: Run) -> bool {
    match run {
        Run::Blank => 9 <= c as u32 <= 13 || c as u32 == 32,
        Run::Name => word_char(c) || c == '$',
        Run::Lifetime => word_char(c),
        Run::Foreign => c as u32 >= 128,
    }
}

fn is_run(c: char, run: Run) -> (r: bool)
    ensures
        r == runs(c, run),
{
    let n: u32 = c as u32;
    match run {
        Run::Blank => (9 <= n && n <= 13) || n == 32,
        Run::Name => is_word_char(c) || c == '$',
        Run::Lifetime => is_word_char(c),
        Run::Foreign => n >= 128,
    }
}

/// Where a run that goes on at `i` ends.
pub open spec fn run_end(s: Seq<char>, run: Run, i: int) -> int
    decreases s.len() - i,
{
    if 0 <= i < s.len() && runs(s[i], run) {
        run_end(s, run, i + 1)
    } else {
        i
    }
}

proof fn run_end_bounds(s: Seq<char>, run: Run, i: int)
    requires
        0 <= i <= s.len(),
    ensures
        i <= run_end(s, run, i) <= s.len(),
        forall|k: int| i <= k < run_end(s, run, i) ==> runs(#[trigger] s[k], run),
        run_end(s, run, i) < s.len() ==> !runs(s[run_end(s, run, i)], run),
    decreases s.len() - i,
{
    if i < s.len() && runs(s[i], run) {
        run_end_bounds(s, run, i + 1);
    }
}

fn run_stop(s: &[char], run: Run, from: usize) -> (r: usize)
    requires
        from <= s@.len(),
    ensures
        r == run_end(s@, run, from as int),
        from <= r <= s@.len(),
{
    let mut i: usize = from;
    while i < s.len() && is_run(s[i], run)
        invariant
            from <= i <= s@.len(),
            run_end(s@, run, i as int) == run_end(s@, run, from as int),
        decreases s@.len() - i,
    {
        i = i + 1;
    }
    i
}

/// Does a number go on at `i`? A dot belongs to it only in front of a digit, and a
/// sign only behind an exponent's letter and in front of a digit.
pub open spec fn number_goes_on(s: Seq<char>, i: int) -> bool {
    let c = s[i];
    let digit_behind = i + 1 < s.len() && ascii_digit(s[i + 1]);
    ||| word_char(c)
    ||| c == '.' && digit_behind
    ||| (c == '+' || c == '-') && (s[i - 1] == 'e' || s[i - 1] == 'E') && digit_behind
}

/// Where a number that goes on at `i` ends.
pub open spec fn number_end(s: Seq<char>, i: int) -> int
    decreases s.len() - i,
{
    if 0 <= i < s.len() && number_goes_on(s, i) {
        number_end(s, i + 1)
    } else {
        i
    }
}

fn number_stop(s: &[char], from: usize) -> (r: usize)
    requires
        0 < from <= s@.len(),
    ensures
        r == number_end(s@, from as int),
        from <= r <= s@.len(),
{
    let n: usize = s.len();
    let mut i: usize = from;
    while i < n
        invariant
            0 < from <= i <= n == s@.len(),
            number_end(s@, i as int) == number_end(s@, from as int),
        decreases n - i,
    {
        let c = s[i];
        let digit_behind = i + 1 < n && is_ascii_digit(s[i + 1]);
        let goes_on = is_word_char(c) || (c == '.' && digit_behind) || ((c == '+' || c == '-') && (
        s[i - 1] == 'e' || s[i - 1] == 'E') && digit_behind);
        if !goes_on {
            return i;
        }
        i = i + 1;
    }
    i
}

/// The place of the quote that closes a literal on this line, if one does, looking
/// from `i` on.
pub open spec fn close_at(s: Seq<char>, quote: char, i: int) -> Option<int>
    decreases s.len() + 2 - i,
{
    if i < 0 || i >= s.len() {
        None
    } else if s[i] == '\\' {
        close_at(s, quote, i + 2)
    } else if s[i] == '\n' {
        None
    } else if s[i] == quote {
        Some(i)
    } else {
        close_at(s, quote, i + 1)
    }
}

/// The place of the quote that closes the literal that opens at `start`, on this
/// line.
fn close_on_line(s: &[char], start: usize, quote: char) -> (r: Option<usize>)
    requires
        start < s@.len(),
    ensures
        match r {
            Some(e) => close_at(s@, quote, start + 1) == Some(e as int) && start < e < s@.len(),
            None => close_at(s@, quote, start + 1) is None,
        },
{
    let n: usize = s.len();
    let mut i: usize = start + 1;
    while i < n
        invariant
            start < i <= n == s@.len(),
            close_at(s@, quote, i as int) == close_at(s@, quote, start + 1),
        decreases n - i,
    {
        let c = s[i];
        if c == '\\' {
            if n - i <= 2 {
                proof {
                    assert(close_at(s@, quote, i + 2) is None);
                }
                return None;
            }
            i = i + 2;
        } else if c == '\n' {
            return None;
        } else if c == quote {
            return Some(i);
        } else {
            i = i + 1;
        }
    }
    None
}

/// Does the text write a lifetime anywhere that it cannot be mistaken for a quote?
pub open spec fn rustish(s: Seq<char>) -> bool {
    exists|k: int| #[trigger] sure_lifetime(s, k)
}

/// Does an apostrophe stand directly behind an ampersand or an angle bracket here?
pub open spec fn sure_lifetime(s: Seq<char>, k: int) -> bool {
    0 <= k && k + 1 < s.len() && (s[k] == '&' || s[k] == '<') && s[k + 1] == '\''
}

fn is_rustish(s: &[char]) -> (r: bool)
    ensures
        r == rustish(s@),
{
    let n: usize = s.len();
    let mut k: usize = 0;
    while k < n
        invariant
            k <= n == s@.len(),
            forall|m: int| 0 <= m < k ==> !#[trigger] sure_lifetime(s@, m),
        decreases n - k,
    {
        if (s[k] == '&' || s[k] == '<') && k + 1 < n && s[k + 1] == '\'' {
            proof {
                assert(sure_lifetime(s@, k as int));
            }
            return true;
        }
        k = k + 1;
    }
    false
}

/// Is the apostrophe at `i` a lifetime rather than a literal? It is where a name
/// follows that no second apostrophe closes, directly behind an ampersand or an
/// angle bracket, or anywhere in a text that writes one there.
pub open spec fn lifetime_at(s: Seq<char>, i: int, rust: bool) -> bool {
    let immediate = i > 0 && (s[i - 1] == '&' || s[i - 1] == '<');
    let e = run_end(s, Run::Lifetime, i + 1);
    &&& immediate || rust
    &&& i + 1 < s.len()
    &&& word_char(s[i + 1])
    &&& !ascii_digit(s[i + 1])
    &&& !(e < s.len() && s[e] == '\'')
}

fn is_lifetime(s: &[char], i: usize, rust: bool) -> (r: bool)
    requires
        i < s@.len(),
    ensures
        r == lifetime_at(s@, i as int, rust),
{
    let n: usize = s.len();
    let immediate = i > 0 && (s[i - 1] == '&' || s[i - 1] == '<');
    if !immediate && !rust {
        return false;
    }
    let j: usize = i + 1;
    if j >= n || !is_word_char(s[j]) || is_ascii_digit(s[j]) {
        return false;
    }
    let e: usize = run_stop(s, Run::Lifetime, j);
    !(e < n && s[e] == '\'')
}

/// Operators that are one token though they are several characters, the longer
/// ones first.
pub open spec fn operators() -> Seq<Seq<char>> {
    seq![
        ">>>="@, "<<="@, ">>="@, ">>>"@, "..."@, "&&="@, "||="@, "**="@, "//="@, "==="@, "!=="@,
        "??="@, "=="@, "!="@, "<="@, ">="@, "&&"@, "||"@, "->"@, "=>"@, "::"@, "++"@, "--"@, "+="@,
        "-="@, "*="@, "/="@, "%="@, "&="@, "|="@, "^="@, "<<"@, ">>"@, "**"@, "??"@, "?."@, ".."@,
        "!!"@, ":="@, "<-"@, "|>"@,
    ]
}

/// The length of the first of the operators, at or after the `k`th, that stands at
/// `i`; one character where none does.
pub open spec fn operator_len(s: Seq<char>, i: int, ops: Seq<Seq<char>>, k: int) -> int
    decreases ops.len() - k,
{
    if k < 0 || k >= ops.len() {
        1
    } else if at(s, ops[k], i) {
        ops[k].len() as int
    } else {
        operator_len(s, i, ops, k + 1)
    }
}

proof fn operator_len_bounds(s: Seq<char>, i: int, ops: Seq<Seq<char>>, k: int)
    requires
        0 <= i < s.len(),
        0 <= k,
        forall|m: int| 0 <= m < ops.len() ==> (#[trigger] ops[m]).len() > 0,
    ensures
        0 < operator_len(s, i, ops, k),
        i + operator_len(s, i, ops, k) <= s.len(),
    decreases ops.len() - k,
{
    if k < ops.len() && !at(s, ops[k], i) {
        operator_len_bounds(s, i, ops, k + 1);
    }
}

proof fn operators_hold_something()
    ensures
        forall|m: int| 0 <= m < operators().len() ==> (#[trigger] operators()[m]).len() > 0,
{
    reveal_strlit(">>>=");
    reveal_strlit("<<=");
    reveal_strlit(">>=");
    reveal_strlit(">>>");
    reveal_strlit("...");
    reveal_strlit("&&=");
    reveal_strlit("||=");
    reveal_strlit("**=");
    reveal_strlit("//=");
    reveal_strlit("===");
    reveal_strlit("!==");
    reveal_strlit("??=");
    reveal_strlit("==");
    reveal_strlit("!=");
    reveal_strlit("<=");
    reveal_strlit(">=");
    reveal_strlit("&&");
    reveal_strlit("||");
    reveal_strlit("->");
    reveal_strlit("=>");
    reveal_strlit("::");
    reveal_strlit("++");
    reveal_strlit("--");
    reveal_strlit("+=");
    reveal_strlit("-=");
    reveal_strlit("*=");
    reveal_strlit("/=");
    reveal_strlit("%=");
    reveal_strlit("&=");
    reveal_strlit("|=");
    reveal_strlit("^=");
    reveal_strlit("<<");
    reveal_strlit(">>");
    reveal_strlit("**");
    reveal_strlit("??");
    reveal_strlit("?.");
    reveal_strlit("..");
    reveal_strlit("!!");
    reveal_strlit(":=");
    reveal_strlit("<-");
    reveal_strlit("|>");
}

fn operator_width(s: &[char], i: usize) -> (r: usize)
    requires
        i < s@.len(),
    ensures
        r == operator_len(s@, i as int, operators(), 0),
        0 < r <= s@.len() - i,
{
    let ops: Vec<&str> = vec![
        ">>>=", "<<=", ">>=", ">>>", "...", "&&=", "||=", "**=", "//=", "===", "!==", "??=", "==",
        "!=", "<=", ">=", "&&", "||", "->", "=>", "::", "++", "--", "+=", "-=", "*=", "/=", "%=",
        "&=", "|=", "^=", "<<", ">>", "**", "??", "?.", "..", "!!", ":=", "<-", "|>",
    ];
    let ghost all = ops@.map_values(|o: &str| o@);
    proof {
        assert(all =~= operators());
        operators_hold_something();
        operator_len_bounds(s@, i as int, operators(), 0);
    }
    let mut k: usize = 0;
    while k < ops.len()
        invariant
            k <= ops@.len(),
            all == ops@.map_values(|o: &str| o@),
            all == operators(),
            0 < operator_len(s@, i as int, operators(), 0) <= s@.len() - i,
            operator_len(s@, i as int, all, k as int) == operator_len(s@, i as int, all, 0),
        decreases ops@.len() - k,
    {
        let op = chars_of(ops[k]);
        proof {
            assert(all[k as int] == op@);
        }
        if stands_at(s, op.as_slice(), i) {
            return op.len();
        }
        k = k + 1;
    }
    1
}

/// The place behind what `find` found.
pub open spec fn past(found: Option<int>, n: int) -> Option<int> {
    match found {
        Some(j) => Some(j + n),
        None => None,
    }
}

/// A token of the kind, where it ends somewhere.
pub open spec fn ended(kind: Kind, end: Option<int>) -> Option<(Kind, int)> {
    match end {
        Some(e) => Some((kind, e)),
        None => None,
    }
}

/// The kind of the token at `i` and the place where it ends; `None` where it is a
/// literal or a comment that does not end. What ends a block comment stands behind
/// what opens it.
pub open spec fn token_at(s: Seq<char>, i: int, rust: bool) -> Option<(Kind, int)> {
    let c = s[i];
    if at(s, "//"@, i) {
        Some((Kind::Comment, find_char(s, '\n', i)))
    } else if at(s, "/*"@, i) {
        ended(Kind::Comment, past(find(s, "*/"@, i + 2), 2))
    } else if c == '#' && !at(s, "#["@, i) && !at(s, "#!"@, i) {
        Some((Kind::Comment, find_char(s, '\n', i)))
    } else if at(s, "\"\"\""@, i) {
        ended(Kind::Str, past(find(s, "\"\"\""@, i + 3), 3))
    } else if at(s, "'''"@, i) {
        ended(Kind::Str, past(find(s, "'''"@, i + 3), 3))
    } else if c == '\'' && lifetime_at(s, i, rust) {
        Some((Kind::Op, i + 1))
    } else if c == '"' || c == '\'' || c == '`' {
        ended(Kind::Str, past(close_at(s, c, i + 1), 1))
    } else if ascii_digit(c) {
        Some((Kind::Number, number_end(s, i + 1)))
    } else if runs(c, Run::Name) {
        Some((Kind::Word, run_end(s, Run::Name, i)))
    } else if runs(c, Run::Foreign) {
        Some((Kind::Word, run_end(s, Run::Foreign, i)))
    } else {
        Some((Kind::Op, i + operator_len(s, i, operators(), 0)))
    }
}

fn here(s: &[char], p: &str, i: usize) -> (r: bool)
    ensures
        r == at(s@, p@, i as int),
{
    let c = chars_of(p);
    stands_at(s, c.as_slice(), i)
}

/// The place behind the first `p` at or after `from`.
fn past_text(s: &[char], p: &str, from: usize) -> (r: Option<usize>)
    requires
        p@.len() > 0,
    ensures
        match r {
            Some(e) => past(find(s@, p@, from as int), p@.len() as int) == Some(e as int)
                && from < e <= s@.len(),
            None => find(s@, p@, from as int) is None,
        },
{
    let c = chars_of(p);
    let n: usize = s.len();
    match find_from(s, c.as_slice(), from) {
        Some(j) => Some(j + c.len()),
        None => None,
    }
}

fn read_token(s: &[char], i: usize, rust: bool) -> (r: Option<(Kind, usize)>)
    requires
        i < s@.len(),
    ensures
        match r {
            Some((kind, e)) => token_at(s@, i as int, rust) == Some((kind, e as int)) && i < e
                <= s@.len(),
            None => token_at(s@, i as int, rust) is None,
        },
{
    proof {
        reveal_strlit("//");
        reveal_strlit("/*");
        reveal_strlit("*/");
        reveal_strlit("'''");
        reveal_strlit("\"\"\"");
    }
    let c = s[i];
    if here(s, "//", i) || (c == '#' && !here(s, "#[", i) && !here(s, "#!", i)) {
        proof {
            if at(s@, "//"@, i as int) {
                assert(s@[i as int] == s@.subrange(i as int, i + 2)[0]);
                assert(s@[i as int] == '/');
            }
            if c == '#' {
                if at(s@, "/*"@, i as int) {
                    reveal_strlit("/*");
                    assert(s@[i as int] == s@.subrange(i as int, i + 2)[0]);
                }
            }
        }
        let e: usize = find_char_from(s, '\n', i);
        return Some((Kind::Comment, e));
    }
    if here(s, "/*", i) {
        return match past_text(s, "*/", i + 2) {
            Some(e) => Some((Kind::Comment, e)),
            None => None,
        };
    }
    if here(s, "\"\"\"", i) {
        return match past_text(s, "\"\"\"", i + 3) {
            Some(e) => Some((Kind::Str, e)),
            None => None,
        };
    }
    if here(s, "'''", i) {
        return match past_text(s, "'''", i + 3) {
            Some(e) => Some((Kind::Str, e)),
            None => None,
        };
    }
    if c == '\'' && is_lifetime(s, i, rust) {
        return Some((Kind::Op, i + 1));
    }
    if c == '"' || c == '\'' || c == '`' {
        return match close_on_line(s, i, c) {
            Some(e) => Some((Kind::Str, e + 1)),
            None => None,
        };
    }
    if is_ascii_digit(c) {
        let e: usize = number_stop(s, i + 1);
        return Some((Kind::Number, e));
    }
    if is_run(c, Run::Name) {
        proof {
            run_end_bounds(s@, Run::Name, i + 1);
        }
        let e: usize = run_stop(s, Run::Name, i);
        return Some((Kind::Word, e));
    }
    if is_run(c, Run::Foreign) {
        proof {
            run_end_bounds(s@, Run::Foreign, i + 1);
        }
        let e: usize = run_stop(s, Run::Foreign, i);
        return Some((Kind::Word, e));
    }
    let w: usize = operator_width(s, i);
    Some((Kind::Op, i + w))
}

proof fn number_end_bounds(s: Seq<char>, i: int)
    requires
        0 <= i <= s.len(),
    ensures
        i <= number_end(s, i) <= s.len(),
    decreases s.len() - i,
{
    if i < s.len() && number_goes_on(s, i) {
        number_end_bounds(s, i + 1);
    }
}

proof fn close_at_bounds(s: Seq<char>, quote: char, i: int)
    requires
        0 <= i,
    ensures
        close_at(s, quote, i) matches Some(e) ==> i <= e < s.len(),
    decreases s.len() + 2 - i,
{
    if i < s.len() {
        if s[i] == '\\' {
            close_at_bounds(s, quote, i + 2);
        } else if s[i] != '\n' && s[i] != quote {
            close_at_bounds(s, quote, i + 1);
        }
    }
}

proof fn token_at_bounds(s: Seq<char>, i: int, rust: bool)
    requires
        0 <= i < s.len(),
    ensures
        token_at(s, i, rust) matches Some(t) ==> i < t.1 <= s.len(),
{
    reveal_strlit("//");
    reveal_strlit("*/");
    reveal_strlit("'''");
    reveal_strlit("\"\"\"");
    find_char_bounds(s, '\n', i);
    find_is_first(s, "*/"@, i + 2);
    find_is_first(s, "\"\"\""@, i + 3);
    find_is_first(s, "'''"@, i + 3);
    close_at_bounds(s, s[i], i + 1);
    number_end_bounds(s, i + 1);
    run_end_bounds(s, Run::Name, i + 1);
    run_end_bounds(s, Run::Foreign, i + 1);
    operators_hold_something();
    operator_len_bounds(s, i, operators(), 0);
    if at(s, "//"@, i) {
        assert(s[i] == s.subrange(i, i + 2)[0]);
        assert(s[i] == '/');
    }
}

/// The tokens at or after `i`; `None` where one of them does not end.
pub open spec fn toks_from(s: Seq<char>, rust: bool, i: int) -> Option<Seq<TokView>>
    decreases s.len() - i,
    via toks_from_decreases
{
    let t = run_end(s, Run::Blank, i);
    if i < 0 || i >= s.len() || t >= s.len() {
        Some(Seq::empty())
    } else {
        match token_at(s, t, rust) {
            None => None,
            Some(token) => match toks_from(s, rust, token.1) {
                None => None,
                Some(rest) => Some(
                    seq![TokView { gap: i, text: t, end: token.1, kind: token.0 }] + rest,
                ),
            },
        }
    }
}

#[via_fn]
proof fn toks_from_decreases(s: Seq<char>, rust: bool, i: int) {
    if 0 <= i < s.len() {
        run_end_bounds(s, Run::Blank, i);
        let t = run_end(s, Run::Blank, i);
        if t < s.len() {
            token_at_bounds(s, t, rust);
        }
    }
}

/// The tokens of a text; `None` where one of them does not end, or where there are
/// too many for one statement.
pub open spec fn toks(s: Seq<char>) -> Option<Seq<TokView>> {
    match toks_from(s, rustish(s), 0) {
        Some(all) => if all.len() <= MAX_TOKENS {
            Some(all)
        } else {
            None
        },
        None => None,
    }
}

/// The view of a tokenization.
pub open spec fn opt_toks(r: Option<Vec<Tok>>) -> Option<Seq<TokView>> {
    match r {
        Some(v) => Some(tok_views(v@)),
        None => None,
    }
}

/// Do the tokens tile the text from `from` on? Each stands behind the one before,
/// with nothing but white space between them and behind the last.
pub open spec fn tiles(s: Seq<char>, v: Seq<TokView>, from: int) -> bool {
    &&& forall|k: int|
        0 <= k < v.len() ==> from <= (#[trigger] v[k]).gap <= v[k].text < v[k].end <= s.len()
    &&& v.len() > 0 ==> v[0].gap == from
    &&& forall|k: int| 0 < k < v.len() ==> #[trigger] follows(v, k)
    &&& forall|k: int| 0 <= k < v.len() ==> blank(s, (#[trigger] v[k]).gap, v[k].text)
    &&& blank(
        s,
        if v.len() > 0 {
            v.last().end
        } else {
            from
        },
        s.len() as int,
    )
}

/// Does the `k`th token stand directly behind the one before?
pub open spec fn follows(v: Seq<TokView>, k: int) -> bool {
    v[k].gap == v[k - 1].end
}

/// Is there nothing but white space from `a` up to `b`?
pub open spec fn blank(s: Seq<char>, a: int, b: int) -> bool {
    forall|m: int| a <= m < b ==> runs(#[trigger] s[m], Run::Blank)
}

proof fn toks_tile(s: Seq<char>, rust: bool, i: int)
    requires
        0 <= i <= s.len(),
    ensures
        toks_from(s, rust, i) matches Some(v) ==> tiles(s, v, i),
    decreases s.len() - i,
{
    if i < s.len() {
        run_end_bounds(s, Run::Blank, i);
        let t = run_end(s, Run::Blank, i);
        if t < s.len() {
            token_at_bounds(s, t, rust);
            if let Some(token) = token_at(s, t, rust) {
                toks_tile(s, rust, token.1);
                if let Some(rest) = toks_from(s, rust, token.1) {
                    let one = TokView { gap: i, text: t, end: token.1, kind: token.0 };
                    let v = seq![one] + rest;
                    assert forall|k: int| 0 < k < v.len() implies #[trigger] follows(v, k) by {
                        assert(v[k] == rest[k - 1]);
                        if k > 1 {
                            assert(v[k - 1] == rest[k - 2]);
                            assert(follows(rest, k - 1));
                        }
                    }
                    assert forall|k: int| 0 <= k < v.len() implies i <= (#[trigger] v[k]).gap
                        <= v[k].text < v[k].end <= s.len() && blank(s, v[k].gap, v[k].text) by {
                        if k > 0 {
                            assert(v[k] == rest[k - 1]);
                        }
                    }
                    if rest.len() > 0 {
                        assert(v.last() == rest.last());
                    }
                }
            }
        }
    }
}

/// A tokenization tiles the text it came from: put together, the gaps and the
/// tokens, and what stands behind the last one, are the text.
pub proof fn a_tokenization_tiles_the_text(s: Seq<char>)
    ensures
        toks(s) matches Some(v) ==> {
            &&& tiles(s, v, 0)
            &&& concat(token_texts(s, v)) + s.subrange(
                if v.len() > 0 {
                    v.last().end
                } else {
                    0
                },
                s.len() as int,
            ) == s
        },
{
    toks_tile(s, rustish(s), 0);
    if let Some(v) = toks(s) {
        tiling_rebuilds(s, v, v.len() as int);
        let e = if v.len() > 0 {
            v.last().end
        } else {
            0
        };
        assert(v.take(v.len() as int) =~= v);
        assert(s.subrange(0, e) + s.subrange(e, s.len() as int) =~= s);
    }
}

/// The texts of the tokens, each with the gap in front of it.
pub open spec fn token_texts(s: Seq<char>, v: Seq<TokView>) -> Seq<Seq<char>> {
    v.map_values(|t: TokView| s.subrange(t.gap, t.end))
}

proof fn tiling_rebuilds(s: Seq<char>, v: Seq<TokView>, n: int)
    requires
        tiles(s, v, 0),
        0 <= n <= v.len(),
    ensures
        concat(token_texts(s, v.take(n))) == s.subrange(
            0,
            if n > 0 {
                v[n - 1].end
            } else {
                0
            },
        ),
    decreases n,
{
    let part = token_texts(s, v.take(n));
    if n > 0 {
        tiling_rebuilds(s, v, n - 1);
        assert(part.drop_last() =~= token_texts(s, v.take(n - 1)));
        assert(part.last() == s.subrange(v[n - 1].gap, v[n - 1].end));
        let from = if n > 1 {
            v[n - 2].end
        } else {
            0
        };
        assert(n > 1 ==> follows(v, n - 1));
        assert(v[n - 1].gap == from);
        assert(s.subrange(0, from) + s.subrange(from, v[n - 1].end) =~= s.subrange(
            0,
            v[n - 1].end,
        ));
    } else {
        assert(part =~= Seq::empty());
        assert(s.subrange(0, 0) =~= Seq::empty());
    }
}

/// Tile a text into tokens, or `None` if this reader does not understand it: every
/// uncertainty costs a conflict that was going to be raised anyway.
pub fn tokenize(s: &[char]) -> (r: Option<Vec<Tok>>)
    ensures
        opt_toks(r) == toks(s@),
        r matches Some(v) ==> tiles(s@, tok_views(v@), 0) && v@.len() <= MAX_TOKENS,
{
    let n: usize = s.len();
    let rust = is_rustish(s);
    let ghost all = toks_from(s@, rust, 0);
    proof {
        toks_tile(s@, rust, 0);
    }
    let mut out: Vec<Tok> = Vec::new();
    let mut i: usize = 0;
    proof {
        if let Some(v) = all {
            assert(tok_views(out@) + v =~= v);
        }
    }
    while i < n
        invariant
            i <= n == s@.len(),
            all == toks_from(s@, rust, 0),
            rust == rustish(s@),
            out@.len() <= MAX_TOKENS,
            all matches Some(v) ==> tiles(s@, v, 0),
            match all {
                Some(v) => toks_from(s@, rust, i as int) is Some && tok_views(out@) + toks_from(
                    s@,
                    rust,
                    i as int,
                )->0 == v,
                None => toks_from(s@, rust, i as int) is None,
            },
        decreases n - i,
    {
        let t: usize = run_stop(s, Run::Blank, i);
        if t >= n {
            proof {
                assert(tok_views(out@) + Seq::empty() =~= tok_views(out@));
            }
            return Some(out);
        }
        let ghost rest_all = toks_from(s@, rust, i as int);
        match read_token(s, t, rust) {
            None => {
                return None;
            },
            Some((kind, e)) => {
                let token = Tok { gap: i, text: t, end: e, kind };
                proof {
                    let rest = toks_from(s@, rust, e as int);
                    if let Some(v) = all {
                        assert(rest is Some);
                        assert(rest_all->0 == seq![token@] + rest->0);
                        assert(tok_views(out@) + (seq![token@] + rest->0) =~= tok_views(
                            out@.push(token),
                        ) + rest->0);
                    }
                }
                if out.len() >= MAX_TOKENS {
                    proof {
                        if let Some(v) = all {
                            assert(v.len() > MAX_TOKENS);
                        }
                    }
                    return None;
                }
                out.push(token);
                i = e;
            },
        }
    }
    proof {
        assert(tok_views(out@) + Seq::empty() =~= tok_views(out@));
    }
    Some(out)
}

/// The text of a token, without the gap in front of it.
pub open spec fn tok_text(s: Seq<char>, t: TokView) -> Seq<char> {
    s.subrange(t.text, t.end)
}

// ---------------------------------------------------------------------------
// Alignment
// ---------------------------------------------------------------------------

/// The identity of a token: what it is and what it says. White space is not part
/// of it.
pub struct TokenKey {
    pub kind: Kind,
    pub text: Vec<char>,
}

impl View for TokenKey {
    type V = (Kind, Seq<char>);

    open spec fn view(&self) -> (Kind, Seq<char>) {
        (self.kind, self.text@)
    }
}

/// The views of a list of keys.
pub open spec fn key_views(v: Seq<TokenKey>) -> Seq<(Kind, Seq<char>)> {
    v.map_values(|k: TokenKey| k@)
}

/// The keys of a text's tokens.
pub open spec fn keys(s: Seq<char>, v: Seq<TokView>) -> Seq<(Kind, Seq<char>)> {
    v.map_values(|t: TokView| (t.kind, tok_text(s, t)))
}

/// The keys of a text's tokens.
pub fn keys_of(s: &[char], v: &Vec<Tok>) -> (r: Vec<TokenKey>)
    requires
        tiles(s@, tok_views(v@), 0),
    ensures
        key_views(r@) == keys(s@, tok_views(v@)),
{
    let ghost all = tok_views(v@);
    let mut out: Vec<TokenKey> = Vec::new();
    let mut k: usize = 0;
    while k < v.len()
        invariant
            k <= v@.len(),
            all == tok_views(v@),
            tiles(s@, all, 0),
            key_views(out@) == keys(s@, all.take(k as int)),
        decreases v@.len() - k,
    {
        proof {
            assert(all[k as int] == v@[k as int]@);
        }
        let t = v[k];
        let text = copy_of(slice_subrange(s, t.text, t.end));
        let ghost held = out@;
        out.push(TokenKey { kind: t.kind, text });
        proof {
            assert(all.take(k + 1) =~= all.take(k as int).push(t@));
            assert(key_views(out@) =~= key_views(held).push((t.kind, tok_text(s@, t@))));
            assert(keys(s@, all.take(k + 1)) =~= keys(s@, all.take(k as int)).push(
                (t.kind, tok_text(s@, t@)),
            ));
        }
        k = k + 1;
    }
    proof {
        assert(all.take(v@.len() as int) =~= all);
    }
    out
}

fn same_key(a: &TokenKey, b: &TokenKey) -> (r: bool)
    ensures
        r == (a@ == b@),
{
    a.kind == b.kind && same(a.text.as_slice(), b.text.as_slice())
}

/// The length of the longest common subsequence of what is left of two sequences.
pub open spec fn lcs<T>(a: Seq<T>, b: Seq<T>, i: int, j: int) -> nat
    decreases (a.len() - i) + (b.len() - j),
    when 0 <= i <= a.len() && 0 <= j <= b.len()
{
    if i >= a.len() || j >= b.len() {
        0
    } else if a[i] == b[j] {
        lcs(a, b, i + 1, j + 1) + 1
    } else if lcs(a, b, i + 1, j) >= lcs(a, b, i, j + 1) {
        lcs(a, b, i + 1, j)
    } else {
        lcs(a, b, i, j + 1)
    }
}

proof fn lcs_bounds<T>(a: Seq<T>, b: Seq<T>, i: int, j: int)
    requires
        0 <= i <= a.len(),
        0 <= j <= b.len(),
    ensures
        lcs(a, b, i, j) <= a.len() - i,
    decreases (a.len() - i) + (b.len() - j),
{
    if i < a.len() && j < b.len() {
        lcs_bounds(a, b, i + 1, j + 1);
        lcs_bounds(a, b, i + 1, j);
        lcs_bounds(a, b, i, j + 1);
        if a[i] != b[j] && lcs(a, b, i + 1, j) < lcs(a, b, i, j + 1) {
        }
    }
}

/// A longest common subsequence of what is left of two sequences, as pairs of
/// places. Ties go towards advancing in the first.
pub open spec fn pairs_from<T>(a: Seq<T>, b: Seq<T>, i: int, j: int) -> Seq<(int, int)>
    decreases (a.len() - i) + (b.len() - j),
    when 0 <= i <= a.len() && 0 <= j <= b.len()
{
    if i >= a.len() || j >= b.len() {
        Seq::empty()
    } else if a[i] == b[j] {
        seq![(i, j)] + pairs_from(a, b, i + 1, j + 1)
    } else if lcs(a, b, i + 1, j) >= lcs(a, b, i, j + 1) {
        pairs_from(a, b, i + 1, j)
    } else {
        pairs_from(a, b, i, j + 1)
    }
}

/// The most cells that an alignment may fill.
pub const MAX_LCS: usize = 60_000;

/// The aligned places of two sequences; `None` where they are too long.
pub open spec fn pairs<T>(a: Seq<T>, b: Seq<T>) -> Option<Seq<(int, int)>> {
    if a.len() * b.len() > MAX_LCS {
        None
    } else {
        Some(pairs_from(a, b, 0, 0))
    }
}

/// Aligned places as mathematical integers.
pub open spec fn pair_views(v: Seq<(usize, usize)>) -> Seq<(int, int)> {
    v.map_values(|p: (usize, usize)| (p.0 as int, p.1 as int))
}

/// The pairs name equal elements, and both places rise from pair to pair.
pub open spec fn aligns<T>(a: Seq<T>, b: Seq<T>, v: Seq<(int, int)>, i: int, j: int) -> bool {
    &&& forall|k: int|
        #![trigger v[k]]
        0 <= k < v.len() ==> i <= v[k].0 < a.len() && j <= v[k].1 < b.len() && a[v[k].0]
            == b[v[k].1]
    &&& forall|k: int, m: int|
        #![trigger v[k], v[m]]
        0 <= k < m < v.len() ==> v[k].0 < v[m].0 && v[k].1 < v[m].1
}

/// What an alignment pairs is equal, in the order of both sequences, and there are
/// as many pairs as a longest common subsequence has elements.
pub proof fn an_alignment_is_a_common_subsequence<T>(a: Seq<T>, b: Seq<T>, i: int, j: int)
    requires
        0 <= i <= a.len(),
        0 <= j <= b.len(),
    ensures
        aligns(a, b, pairs_from(a, b, i, j), i, j),
        pairs_from(a, b, i, j).len() == lcs(a, b, i, j),
    decreases (a.len() - i) + (b.len() - j),
{
    if i < a.len() && j < b.len() {
        if a[i] == b[j] {
            an_alignment_is_a_common_subsequence(a, b, i + 1, j + 1);
            let rest = pairs_from(a, b, i + 1, j + 1);
            let v = pairs_from(a, b, i, j);
            assert(v =~= seq![(i, j)] + rest);
            assert forall|k: int| #![trigger v[k]] 0 <= k < v.len() implies i <= v[k].0 < a.len()
                && j <= v[k].1 < b.len() && a[v[k].0] == b[v[k].1] by {
                if k > 0 {
                    assert(v[k] == rest[k - 1]);
                }
            }
            assert forall|k: int, m: int| #![trigger v[k], v[m]] 0 <= k < m < v.len() implies v[k].0
                < v[m].0 && v[k].1 < v[m].1 by {
                assert(v[m] == rest[m - 1]);
                if k > 0 {
                    assert(v[k] == rest[k - 1]);
                }
            }
        } else if lcs(a, b, i + 1, j) >= lcs(a, b, i, j + 1) {
            an_alignment_is_a_common_subsequence(a, b, i + 1, j);
        } else {
            an_alignment_is_a_common_subsequence(a, b, i, j + 1);
        }
    }
}

/// The row of the table for place `i` of the first sequence: what is left behind it
/// against what is left behind each place of the second, the last place first.
spec fn row_of<T>(a: Seq<T>, b: Seq<T>, row: Seq<usize>, i: int, n: int) -> bool {
    &&& row.len() == n
    &&& forall|c: int| 0 <= c < n ==> #[trigger] row[c] == lcs(a, b, i, b.len() - c)
}

fn table_of(a: &Vec<TokenKey>, b: &Vec<TokenKey>) -> (rows: Vec<Vec<usize>>)
    requires
        b@.len() < usize::MAX,
    ensures
        rows@.len() == a@.len() + 1,
        forall|r: int|
            0 <= r <= a@.len() ==> row_of(
                key_views(a@),
                key_views(b@),
                (#[trigger] rows@[r])@,
                a@.len() - r,
                (b@.len() + 1) as int,
            ),
{
    let ghost av = key_views(a@);
    let ghost bv = key_views(b@);
    let n: usize = a.len();
    let m: usize = b.len();
    let mut rows: Vec<Vec<usize>> = Vec::new();
    let mut last: Vec<usize> = Vec::new();
    let mut c: usize = 0;
    while c <= m
        invariant
            c <= m + 1,
            m == b@.len() == bv.len(),
            n == a@.len() == av.len(),
            m < usize::MAX,
            row_of(av, bv, last@, n as int, c as int),
        decreases m + 1 - c,
    {
        last.push(0);
        c = c + 1;
    }
    rows.push(last);
    let mut i: usize = n;
    while i > 0
        invariant
            i <= n,
            m == b@.len() == bv.len(),
            n == a@.len() == av.len(),
            m < usize::MAX,
            av == key_views(a@),
            bv == key_views(b@),
            rows@.len() == n - i + 1,
            forall|r: int|
                0 <= r < rows@.len() ==> row_of(
                    av,
                    bv,
                    (#[trigger] rows@[r])@,
                    n - r,
                    m + 1,
                ),
        decreases i,
    {
        let ghost held = rows@;
        let row = {
            let prev = &rows[n - i];
            let mut row: Vec<usize> = Vec::new();
            row.push(0);
            let mut j: usize = m;
            while j > 0
                invariant
                    0 < i <= n,
                    j <= m,
                    m == b@.len() == bv.len(),
                    n == a@.len() == av.len(),
                    m < usize::MAX,
                    av == key_views(a@),
                    bv == key_views(b@),
                    row_of(av, bv, prev@, i as int, m + 1),
                    row_of(av, bv, row@, i - 1, m - j + 1),
                decreases j,
            {
                proof {
                    assert(av[i - 1] == a@[i - 1]@);
                    assert(bv[j - 1] == b@[j - 1]@);
                    lcs_bounds(av, bv, i as int, j as int);
                    lcs_bounds(av, bv, i as int, j - 1);
                    assert(prev@[m - j] == lcs(av, bv, i as int, j as int));
                    assert(prev@[m - (j - 1)] == lcs(av, bv, i as int, j - 1));
                    assert(row@[m - j] == lcs(av, bv, i - 1, j as int));
                }
                let x: usize = if same_key(&a[i - 1], &b[j - 1]) {
                    prev[m - j] + 1
                } else if prev[m - (j - 1)] >= row[m - j] {
                    prev[m - (j - 1)]
                } else {
                    row[m - j]
                };
                row.push(x);
                j = j - 1;
            }
            row
        };
        rows.push(row);
        proof {
            assert forall|r: int| 0 <= r < rows@.len() implies row_of(
                av,
                bv,
                (#[trigger] rows@[r])@,
                n - r,
                m + 1,
            ) by {
                if r < held.len() {
                    assert(rows@[r] == held[r]);
                }
            }
        }
        i = i - 1;
    }
    rows
}

/// The aligned places of two key sequences, by a longest common subsequence.
pub fn lcs_pairs(a: &Vec<TokenKey>, b: &Vec<TokenKey>) -> (r: Option<Vec<(usize, usize)>>)
    ensures
        match r {
            Some(v) => pairs(key_views(a@), key_views(b@)) == Some(pair_views(v@)),
            None => pairs(key_views(a@), key_views(b@)) is None,
        },
        r matches Some(v) ==> aligns(key_views(a@), key_views(b@), pair_views(v@), 0, 0),
{
    let ghost av = key_views(a@);
    let ghost bv = key_views(b@);
    let n: usize = a.len();
    let m: usize = b.len();
    proof {
        assert(0 <= n * m <= 0xffff_ffff_ffff_ffff * 0xffff_ffff_ffff_ffff) by (nonlinear_arith)
            requires
                0 <= n <= 0xffff_ffff_ffff_ffff,
                0 <= m <= 0xffff_ffff_ffff_ffff,
        ;
    }
    if (n as u128) * (m as u128) > MAX_LCS as u128 {
        return None;
    }
    proof {
        an_alignment_is_a_common_subsequence(av, bv, 0, 0);
    }
    let mut out: Vec<(usize, usize)> = Vec::new();
    if n == 0 || m == 0 {
        proof {
            assert(pair_views(out@) =~= pairs_from(av, bv, 0, 0));
        }
        return Some(out);
    }
    proof {
        assert(m <= MAX_LCS) by (nonlinear_arith)
            requires
                n * m <= MAX_LCS,
                n >= 1,
        ;
    }
    let rows = table_of(a, b);
    let mut i: usize = 0;
    let mut j: usize = 0;
    proof {
        assert(pair_views(out@) + pairs_from(av, bv, 0, 0) =~= pairs_from(av, bv, 0, 0));
    }
    while i < n && j < m
        invariant
            i <= n == a@.len() == av.len(),
            j <= m == b@.len() == bv.len(),
            av == key_views(a@),
            bv == key_views(b@),
            rows@.len() == n + 1,
            forall|r: int|
                0 <= r <= n ==> row_of(av, bv, (#[trigger] rows@[r])@, n - r, m + 1),
            pair_views(out@) + pairs_from(av, bv, i as int, j as int) == pairs_from(av, bv, 0, 0),
        decreases (n - i) + (m - j),
    {
        proof {
            assert(av[i as int] == a@[i as int]@);
            assert(bv[j as int] == b@[j as int]@);
            assert(row_of(av, bv, rows@[n - (i + 1)]@, i + 1, m + 1));
            assert(row_of(av, bv, rows@[n - i]@, i as int, m + 1));
            assert(rows@[n - (i + 1)]@[m - j] == lcs(av, bv, i + 1, j as int));
            assert(rows@[n - i]@[m - (j + 1)] == lcs(av, bv, i as int, j + 1));
        }
        if same_key(&a[i], &b[j]) {
            let ghost held = pair_views(out@);
            out.push((i, j));
            proof {
                let rest = pairs_from(av, bv, i + 1, j + 1);
                assert(pair_views(out@) =~= held.push((i as int, j as int)));
                assert(held + (seq![(i as int, j as int)] + rest) =~= held.push(
                    (i as int, j as int),
                ) + rest);
            }
            i = i + 1;
            j = j + 1;
        } else if rows[n - (i + 1)][m - j] >= rows[n - i][m - (j + 1)] {
            i = i + 1;
        } else {
            j = j + 1;
        }
    }
    proof {
        assert(pairs_from(av, bv, i as int, j as int) =~= Seq::empty());
        assert(pair_views(out@) =~= pairs_from(av, bv, 0, 0));
    }
    Some(out)
}

/// One contiguous edit: the base tokens from `b0` up to `b1` became the side's from
/// `s0` up to `s1`. An insertion has no base tokens, a deletion none of the side's.
#[derive(Debug, Clone, Copy, PartialEq, Eq, Structural)]
pub struct Hunk {
    pub b0: usize,
    pub b1: usize,
    pub s0: usize,
    pub s1: usize,
}

/// A [`Hunk`] with its places as mathematical integers.
pub struct HunkView {
    pub b0: int,
    pub b1: int,
    pub s0: int,
    pub s1: int,
}

impl View for Hunk {
    type V = HunkView;

    open spec fn view(&self) -> HunkView {
        HunkView {
            b0: self.b0 as int,
            b1: self.b1 as int,
            s0: self.s0 as int,
            s1: self.s1 as int,
        }
    }
}

/// The views of a list of hunks.
pub open spec fn hunk_views(v: Seq<Hunk>) -> Seq<HunkView> {
    v.map_values(|h: Hunk| h@)
}

/// The runs between the aligned places, at or after the `k`th, of two sequences
/// that are read up to `bi` and `si`.
pub open spec fn hunks_from(
    anchors: Seq<(int, int)>,
    k: int,
    bi: int,
    si: int,
) -> Seq<HunkView>
    decreases anchors.len() - k,
{
    if k < 0 || k >= anchors.len() {
        Seq::empty()
    } else {
        let (b, s) = anchors[k];
        let rest = hunks_from(anchors, k + 1, b + 1, s + 1);
        if bi < b || si < s {
            seq![HunkView { b0: bi, b1: b, s0: si, s1: s }] + rest
        } else {
            rest
        }
    }
}

/// The maximal runs where a side differs from base, given the aligned places and
/// the two lengths.
pub open spec fn hunks_of(v: Seq<(int, int)>, bn: int, sn: int) -> Seq<HunkView> {
    hunks_from(v.push((bn, sn)), 0, 0, 0)
}

/// The hunk lies within the two sequences, edits something, and ends in front of an
/// aligned place or at both ends.
pub open spec fn hunk_fits(h: HunkView, bn: int, sn: int) -> bool {
    &&& 0 <= h.b0 <= h.b1 <= bn
    &&& 0 <= h.s0 <= h.s1 <= sn
    &&& h.b0 < h.b1 || h.s0 < h.s1
    &&& h.b1 < bn ==> h.s1 < sn
}

/// A base token is spent by at most one hunk of a side: the hunks stand in base's
/// order, with an unchanged token between each two.
pub proof fn hunks_are_apart<T>(a: Seq<T>, b: Seq<T>, v: Seq<(int, int)>)
    requires
        aligns(a, b, v, 0, 0),
    ensures
        forall|k: int|
            0 <= k < hunks_of(v, a.len() as int, b.len() as int).len() ==> hunk_fits(
                #[trigger] hunks_of(v, a.len() as int, b.len() as int)[k],
                a.len() as int,
                b.len() as int,
            ),
        forall|k: int, m: int|
            0 <= k < m < hunks_of(v, a.len() as int, b.len() as int).len() ==> (
            #[trigger] hunks_of(v, a.len() as int, b.len() as int)[k]).b1 < (
            #[trigger] hunks_of(v, a.len() as int, b.len() as int)[m]).b0,
{
    hunks_from_fit(a, b, v, 0, 0, 0);
}

proof fn hunks_from_fit<T>(a: Seq<T>, b: Seq<T>, v: Seq<(int, int)>, k: int, bi: int, si: int)
    requires
        aligns(a, b, v, 0, 0),
        0 <= k <= v.len() + 1,
        bi >= 0,
        si >= 0,
        k == v.len() ==> bi <= a.len() && si <= b.len(),
        k < v.len() ==> bi <= v[k].0 && si <= v[k].1,
    ensures
        ({
            let hs = hunks_from(v.push((a.len() as int, b.len() as int)), k, bi, si);
            &&& forall|m: int|
                0 <= m < hs.len() ==> hunk_fits(#[trigger] hs[m], a.len() as int, b.len() as int)
                    && hs[m].b0 >= bi
            &&& forall|m: int, n: int|
                0 <= m < n < hs.len() ==> (#[trigger] hs[m]).b1 < (#[trigger] hs[n]).b0
        }),
    decreases v.len() + 1 - k,
{
    let anchors = v.push((a.len() as int, b.len() as int));
    if k <= v.len() {
        let (ab, as_) = anchors[k];
        if k < v.len() {
            assert(anchors[k] == v[k]);
            if k + 1 < v.len() {
                assert(v[k].0 < v[k + 1].0);
            }
        }
        let rest = hunks_from(anchors, k + 1, ab + 1, as_ + 1);
        hunks_from_fit(a, b, v, k + 1, ab + 1, as_ + 1);
        let hs = hunks_from(anchors, k, bi, si);
        if bi < ab || si < as_ {
            assert(hs =~= seq![HunkView { b0: bi, b1: ab, s0: si, s1: as_ }] + rest);
            assert forall|m: int| 0 <= m < hs.len() implies hunk_fits(
                #[trigger] hs[m],
                a.len() as int,
                b.len() as int,
            ) && hs[m].b0 >= bi by {
                if m > 0 {
                    assert(hs[m] == rest[m - 1]);
                }
            }
            assert forall|m: int, n: int| 0 <= m < n < hs.len() implies (#[trigger] hs[m]).b1 < (
            #[trigger] hs[n]).b0 by {
                assert(hs[n] == rest[n - 1]);
                if m > 0 {
                    assert(hs[m] == rest[m - 1]);
                }
            }
        }
    }
}

/// The maximal runs where one side differs from base.
pub fn hunks(v: &Vec<(usize, usize)>, bn: usize, sn: usize) -> (r: Vec<Hunk>)
    requires
        forall|k: int| #![trigger v@[k]] 0 <= k < v@.len() ==> v@[k].0 < bn && v@[k].1 < sn,
    ensures
        hunk_views(r@) == hunks_of(pair_views(v@), bn as int, sn as int),
{
    let ghost anchors = pair_views(v@).push((bn as int, sn as int));
    let mut out: Vec<Hunk> = Vec::new();
    let mut bi: usize = 0;
    let mut si: usize = 0;
    let mut k: usize = 0;
    proof {
        assert(hunk_views(out@) + hunks_from(anchors, 0, 0, 0) =~= hunks_from(anchors, 0, 0, 0));
    }
    while k < v.len()
        invariant
            k <= v@.len(),
            forall|k: int| #![trigger v@[k]] 0 <= k < v@.len() ==> v@[k].0 < bn && v@[k].1 < sn,
            anchors == pair_views(v@).push((bn as int, sn as int)),
            hunk_views(out@) + hunks_from(anchors, k as int, bi as int, si as int) == hunks_from(
                anchors,
                0,
                0,
                0,
            ),
        decreases v@.len() - k,
    {
        let (b, s) = v[k];
        proof {
            assert(anchors[k as int] == (b as int, s as int));
        }
        let ghost held = hunk_views(out@);
        if bi < b || si < s {
            let h = Hunk { b0: bi, b1: b, s0: si, s1: s };
            out.push(h);
            proof {
                assert(hunk_views(out@) =~= held.push(h@));
                let rest = hunks_from(anchors, k + 1, b + 1, s + 1);
                assert(held + (seq![h@] + rest) =~= held.push(h@) + rest);
            }
        }
        bi = b + 1;
        si = s + 1;
        k = k + 1;
    }
    proof {
        assert(anchors[k as int] == (bn as int, sn as int));
        assert(hunks_from(anchors, k + 1, bn + 1, sn + 1) =~= Seq::empty());
    }
    let ghost held = hunk_views(out@);
    if bi < bn || si < sn {
        let h = Hunk { b0: bi, b1: bn, s0: si, s1: sn };
        out.push(h);
        proof {
            assert(hunk_views(out@) =~= held.push(h@));
            assert(held + (seq![h@] + Seq::empty()) =~= held.push(h@));
        }
    } else {
        proof {
            assert(held + Seq::empty() =~= held);
        }
    }
    out
}


/// No alignment pairs more: what is left of two sequences has no longer common
/// subsequence than the one that is taken.
pub proof fn no_alignment_is_longer<T>(a: Seq<T>, b: Seq<T>, i: int, j: int, v: Seq<(int, int)>)
    requires
        0 <= i <= a.len(),
        0 <= j <= b.len(),
        aligns(a, b, v, i, j),
    ensures
        v.len() <= pairs_from(a, b, i, j).len(),
    decreases (a.len() - i) + (b.len() - j),
{
    an_alignment_is_a_common_subsequence(a, b, i, j);
    if v.len() > 0 {
        let (x, y) = v[0];
        assert(i <= x < a.len() && j <= y < b.len() && a[x] == b[y]);
        if a[i] == b[j] {
            let rest = v.skip(1);
            assert(aligns(a, b, rest, i + 1, j + 1)) by {
                assert forall|k: int|
                    #![trigger rest[k]]
                    0 <= k < rest.len() implies i + 1 <= rest[k].0 < a.len() && j + 1 <= rest[k].1
                    < b.len() && a[rest[k].0] == b[rest[k].1] by {
                    assert(rest[k] == v[k + 1]);
                    assert(v[0].0 < v[k + 1].0 && v[0].1 < v[k + 1].1);
                }
                assert forall|k: int, m: int|
                    #![trigger rest[k], rest[m]]
                    0 <= k < m < rest.len() implies rest[k].0 < rest[m].0 && rest[k].1
                    < rest[m].1 by {
                    assert(rest[k] == v[k + 1] && rest[m] == v[m + 1]);
                }
            }
            no_alignment_is_longer(a, b, i + 1, j + 1, rest);
            an_alignment_is_a_common_subsequence(a, b, i + 1, j + 1);
        } else {
            an_alignment_is_a_common_subsequence(a, b, i + 1, j);
            an_alignment_is_a_common_subsequence(a, b, i, j + 1);
            if x > i {
                assert(aligns(a, b, v, i + 1, j)) by {
                    assert forall|k: int|
                        #![trigger v[k]]
                        0 <= k < v.len() implies i + 1 <= v[k].0 < a.len() && j <= v[k].1 < b.len()
                        && a[v[k].0] == b[v[k].1] by {
                        if k > 0 {
                            assert(v[0].0 < v[k].0);
                        }
                    }
                }
                no_alignment_is_longer(a, b, i + 1, j, v);
            } else {
                assert(aligns(a, b, v, i, j + 1)) by {
                    assert forall|k: int|
                        #![trigger v[k]]
                        0 <= k < v.len() implies i <= v[k].0 < a.len() && j + 1 <= v[k].1 < b.len()
                        && a[v[k].0] == b[v[k].1] by {
                        if k > 0 {
                            assert(v[0].1 < v[k].1);
                        }
                    }
                }
                no_alignment_is_longer(a, b, i, j + 1, v);
            }
        }
    }
}

/// Does one of the hunks hold the place of base?
pub open spec fn in_base(hs: Seq<HunkView>, p: int) -> bool {
    exists|m: int| 0 <= m < hs.len() && (#[trigger] hs[m]).b0 <= p < hs[m].b1
}

/// Does one of the hunks hold the place of the side?
pub open spec fn in_side(hs: Seq<HunkView>, p: int) -> bool {
    exists|m: int| 0 <= m < hs.len() && (#[trigger] hs[m]).s0 <= p < hs[m].s1
}

/// Is the place of base aligned, at or after the `k`th pair?
pub open spec fn base_aligned(v: Seq<(int, int)>, k: int, p: int) -> bool {
    exists|m: int| k <= m < v.len() && (#[trigger] v[m]).0 == p
}

/// Is the place of the side aligned, at or after the `k`th pair?
pub open spec fn side_aligned(v: Seq<(int, int)>, k: int, p: int) -> bool {
    exists|m: int| k <= m < v.len() && (#[trigger] v[m]).1 == p
}

proof fn hunks_from_cover(anchors: Seq<(int, int)>, k: int, bi: int, si: int, p: int)
    requires
        0 <= k <= anchors.len(),
        k < anchors.len() ==> bi <= anchors[k].0 && si <= anchors[k].1,
        forall|m: int, n: int|
            0 <= m < n < anchors.len() ==> (#[trigger] anchors[m]).0 < (#[trigger] anchors[n]).0
                && anchors[m].1 < anchors[n].1,
    ensures
        in_base(hunks_from(anchors, k, bi, si), p) <==> k < anchors.len() && bi <= p
            < anchors.last().0 && !base_aligned(anchors, k, p),
        in_side(hunks_from(anchors, k, bi, si), p) <==> k < anchors.len() && si <= p
            < anchors.last().1 && !side_aligned(anchors, k, p),
    decreases anchors.len() - k,
{
    let hs = hunks_from(anchors, k, bi, si);
    if k < anchors.len() {
        let (b, s) = anchors[k];
        let rest = hunks_from(anchors, k + 1, b + 1, s + 1);
        let n = anchors.len() - 1;
        if k < n {
            assert(anchors[k].0 < anchors[n].0);
            assert(anchors[k].0 < anchors[k + 1].0);
        }
        hunks_from_cover(anchors, k + 1, b + 1, s + 1, p);
        let first: int = if bi < b || si < s {
            1
        } else {
            0
        };
        assert forall|m: int| 0 <= m < rest.len() implies hs[m + first] == #[trigger] rest[m] by {}
        if in_base(rest, p) {
            let m = choose|m: int| 0 <= m < rest.len() && (#[trigger] rest[m]).b0 <= p < rest[m].b1;
            assert(hs[m + first] == rest[m]);
        }
        if in_side(rest, p) {
            let m = choose|m: int| 0 <= m < rest.len() && (#[trigger] rest[m]).s0 <= p < rest[m].s1;
            assert(hs[m + first] == rest[m]);
        }
        if in_base(hs, p) {
            let m = choose|m: int| 0 <= m < hs.len() && (#[trigger] hs[m]).b0 <= p < hs[m].b1;
            if m >= first {
                assert(rest[m - first] == hs[m]);
            }
        }
        if in_side(hs, p) {
            let m = choose|m: int| 0 <= m < hs.len() && (#[trigger] hs[m]).s0 <= p < hs[m].s1;
            if m >= first {
                assert(rest[m - first] == hs[m]);
            }
        }
        if first == 1 {
            assert(hs[0].b0 == bi && hs[0].b1 == b && hs[0].s0 == si && hs[0].s1 == s);
        }
        if base_aligned(anchors, k, p) {
            let m = choose|m: int| k <= m < anchors.len() && (#[trigger] anchors[m]).0 == p;
            if m > k {
                assert(anchors[m].0 == p);
                assert(anchors[k].0 < anchors[m].0);
            }
        }
        if base_aligned(anchors, k + 1, p) {
            let m = choose|m: int| k + 1 <= m < anchors.len() && (#[trigger] anchors[m]).0 == p;
            assert(anchors[m].0 == p);
        }
        if side_aligned(anchors, k, p) {
            let m = choose|m: int| k <= m < anchors.len() && (#[trigger] anchors[m]).1 == p;
            if m > k {
                assert(anchors[m].1 == p);
                assert(anchors[k].1 < anchors[m].1);
            }
        }
        if side_aligned(anchors, k + 1, p) {
            let m = choose|m: int| k + 1 <= m < anchors.len() && (#[trigger] anchors[m]).1 == p;
            assert(anchors[m].1 == p);
        }
    }
}

/// A hunk holds what is not aligned, and nothing else: a place of base or of the side is
/// in a hunk exactly where no pair names it.
pub proof fn hunks_hold_what_is_not_aligned<T>(a: Seq<T>, b: Seq<T>, v: Seq<(int, int)>, p: int)
    requires
        aligns(a, b, v, 0, 0),
    ensures
        0 <= p < a.len() ==> (in_base(hunks_of(v, a.len() as int, b.len() as int), p)
            <==> !base_aligned(v, 0, p)),
        0 <= p < b.len() ==> (in_side(hunks_of(v, a.len() as int, b.len() as int), p)
            <==> !side_aligned(v, 0, p)),
{
    let anchors = v.push((a.len() as int, b.len() as int));
    assert forall|m: int, n: int| 0 <= m < n < anchors.len() implies (#[trigger] anchors[m]).0 < (
    #[trigger] anchors[n]).0 && anchors[m].1 < anchors[n].1 by {
        assert(anchors[m] == v[m]);
        if n < v.len() {
            assert(anchors[n] == v[n]);
        }
    }
    hunks_from_cover(anchors, 0, 0, 0, p);
    if base_aligned(v, 0, p) {
        let m = choose|m: int| 0 <= m < v.len() && (#[trigger] v[m]).0 == p;
        assert(anchors[m].0 == p);
    }
    if base_aligned(anchors, 0, p) && p < a.len() {
        let m = choose|m: int| 0 <= m < anchors.len() && (#[trigger] anchors[m]).0 == p;
        assert(v[m].0 == p);
    }
    if side_aligned(v, 0, p) {
        let m = choose|m: int| 0 <= m < v.len() && (#[trigger] v[m]).1 == p;
        assert(anchors[m].1 == p);
    }
    if side_aligned(anchors, 0, p) && p < b.len() {
        let m = choose|m: int| 0 <= m < anchors.len() && (#[trigger] anchors[m]).1 == p;
        assert(v[m].1 == p);
    }
}

} // verus!
