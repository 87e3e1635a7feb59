//! Text as a sequence of characters: the readings every other module shares.
//!
//! Every function here works on `&[char]`, whose view is the `Seq<char>` that a
//! `&str` and a `String` have too. [`chars_of`] and [`string_of`] cross between
//! the two.

use vstd::prelude::*;
use vstd::slice::slice_subrange;

verus! {

broadcast use vstd::string::group_string_axioms;

/// `String::push` appends one character.
pub assume_specification[ String::push ](s: &mut String, ch: char)
    ensures
        final(s)@ == old(s)@.push(ch),
;

/// What `char::is_alphanumeric` answers: the Unicode properties behind it are
/// tables of the standard library.
pub uninterp spec fn alphanumeric(c: char) -> bool;

/// `char::is_alphanumeric` is a function of the character, and on ASCII it is
/// true of the letters and the digits alone.
pub assume_specification[ char::is_alphanumeric ](c: char) -> (r: bool)
    ensures
        r == alphanumeric(c),
        (c as u32) < 128 ==> r == ascii_alnum(c),
;

// ---------------------------------------------------------------------------
// Character classes
// ---------------------------------------------------------------------------

/// The characters with the Unicode property `White_Space`.
pub open spec fn white(c: char) -> bool {
    let n = c as u32;
    ||| 9 <= n <= 13
    ||| n == 32
    ||| n == 0x85
    ||| n == 0xA0
    ||| n == 0x1680
    ||| 0x2000 <= n <= 0x200A
    ||| n == 0x2028
    ||| n == 0x2029
    ||| n == 0x202F
    ||| n == 0x205F
    ||| n == 0x3000
}

/// Is `c` white space?
pub fn is_white(c: char) -> (r: bool)
    ensures
        r == white(c),
{
    let n: u32 = c as u32;
    (9 <= n && n <= 13) || n == 32 || n == 0x85 || n == 0xA0 || n == 0x1680 || (0x2000 <= n && n
        <= 0x200A) || n == 0x2028 || n == 0x2029 || n == 0x202F || n == 0x205F || n == 0x3000
}

/// An ASCII letter or digit.
pub open spec fn ascii_alnum(c: char) -> bool {
    let n = c as u32;
    48 <= n <= 57 || 65 <= n <= 90 || 97 <= n <= 122
}

/// Is `c` an ASCII letter or digit?
pub fn is_ascii_alnum(c: char) -> (r: bool)
    ensures
        r == ascii_alnum(c),
{
    let n: u32 = c as u32;
    (48 <= n && n <= 57) || (65 <= n && n <= 90) || (97 <= n && n <= 122)
}

/// An ASCII digit.
pub open spec fn ascii_digit(c: char) -> bool {
    48 <= c as u32 <= 57
}

/// Is `c` an ASCII digit?
pub fn is_ascii_digit(c: char) -> (r: bool)
    ensures
        r == ascii_digit(c),
{
    let n: u32 = c as u32;
    48 <= n && n <= 57
}

/// A character of a word: an ASCII letter, an ASCII digit or an underscore.
pub open spec fn word_char(c: char) -> bool {
    ascii_alnum(c) || c == '_'
}

/// Is `c` a character of a word?
pub fn is_word_char(c: char) -> (r: bool)
    ensures
        r == word_char(c),
{
    is_ascii_alnum(c) || c == '_'
}

/// The ASCII lower-case form of one character.
pub open spec fn lower_char(c: char) -> char {
    if 65 <= c as u32 <= 90 {
        ((c as u32 + 32) as u32) as char
    } else {
        c
    }
}

/// `s` with every ASCII upper-case letter lowered.
pub open spec fn lower(s: Seq<char>) -> Seq<char> {
    s.map_values(|c: char| lower_char(c))
}

/// How many bytes UTF-8 gives one character.
pub open spec fn char_width(c: char) -> nat {
    let n = c as u32;
    if n < 0x80 {
        1
    } else if n < 0x800 {
        2
    } else if n < 0x10000 {
        3
    } else {
        4
    }
}

/// How many bytes UTF-8 gives a text.
pub open spec fn width(s: Seq<char>) -> nat
    decreases s.len(),
{
    if s.len() == 0 {
        0
    } else {
        width(s.drop_last()) + char_width(s.last())
    }
}

// ---------------------------------------------------------------------------
// Crossing between strings and characters
// ---------------------------------------------------------------------------

/// The characters of a string.
pub fn chars_of(s: &str) -> (r: Vec<char>)
    ensures
        r@ == s@,
{
    let mut out: Vec<char> = Vec::new();
    for c in it: s.chars()
        invariant
            it.seq() == s@,
            out@ == s@.subrange(0, it.index() as int),
    {
        out.push(c);
    }
    proof {
        assert(s@.subrange(0, s@.len() as int) =~= s@);
    }
    out
}

/// The string with the given characters.
pub fn string_of(s: &[char]) -> (r: String)
    ensures
        r@ == s@,
{
    let mut out = String::new();
    let mut i: usize = 0;
    while i < s.len()
        invariant
            i <= s@.len(),
            out@ == s@.subrange(0, i as int),
        decreases s@.len() - i,
    {
        out.push(s[i]);
        i = i + 1;
    }
    proof {
        assert(s@.subrange(0, s@.len() as int) =~= s@);
    }
    out
}

/// The views of a list of strings.
pub open spec fn strs(v: Seq<String>) -> Seq<Seq<char>> {
    v.map_values(|s: String| s@)
}

/// The views of a list of character vectors.
pub open spec fn texts(v: Seq<Vec<char>>) -> Seq<Seq<char>> {
    v.map_values(|s: Vec<char>| s@)
}

/// A copy of the characters.
pub fn copy_of(s: &[char]) -> (r: Vec<char>)
    ensures
        r@ == s@,
{
    let mut out: Vec<char> = Vec::new();
    push_all(&mut out, s);
    out
}

/// Append `s` to `out`.
pub fn push_all(out: &mut Vec<char>, s: &[char])
    ensures
        final(out)@ == old(out)@ + s@,
{
    let ghost before = out@;
    let mut i: usize = 0;
    while i < s.len()
        invariant
            i <= s@.len(),
            out@ == before + s@.subrange(0, i as int),
        decreases s@.len() - i,
    {
        out.push(s[i]);
        i = i + 1;
        proof {
            assert(s@.subrange(0, i as int) =~= s@.subrange(0, i - 1).push(s@[i - 1]));
        }
    }
    proof {
        assert(s@.subrange(0, s@.len() as int) =~= s@);
    }
}

/// Append the characters of `s` to `out`.
pub fn push_text(out: &mut Vec<char>, s: &str)
    ensures
        final(out)@ == old(out)@ + s@,
{
    let c = chars_of(s);
    push_all(out, c.as_slice());
}

/// Are the two texts the same?
pub fn same(a: &[char], b: &[char]) -> (r: bool)
    ensures
        r == (a@ == b@),
{
    if a.len() != b.len() {
        return false;
    }
    let mut i: usize = 0;
    while i < a.len()
        invariant
            i <= a@.len(),
            a@.len() == b@.len(),
            forall|k: int| 0 <= k < i ==> a@[k] == b@[k],
        decreases a@.len() - i,
    {
        if a[i] != b[i] {
            return false;
        }
        i = i + 1;
    }
    proof {
        assert(a@ =~= b@);
    }
    true
}

/// Is the text the string `b`?
pub fn same_str(a: &[char], b: &str) -> (r: bool)
    ensures
        r == (a@ == b@),
{
    let c = chars_of(b);
    same(a, c.as_slice())
}

/// Are the two strings the same?
pub fn str_eq(a: &str, b: &str) -> (r: bool)
    ensures
        r == (a@ == b@),
{
    let c = chars_of(a);
    same_str(c.as_slice(), b)
}

/// `s` with every ASCII upper-case letter lowered.
pub fn lowered(s: &[char]) -> (r: Vec<char>)
    ensures
        r@ == lower(s@),
{
    let mut out: Vec<char> = Vec::new();
    let mut i: usize = 0;
    while i < s.len()
        invariant
            i <= s@.len(),
            out@ == lower(s@.subrange(0, i as int)),
        decreases s@.len() - i,
    {
        out.push(lowered_char(s[i]));
        i = i + 1;
        proof {
            assert(lower(s@.subrange(0, i as int)) =~= lower(s@.subrange(0, i - 1)).push(
                lower_char(s@[i - 1]),
            ));
        }
    }
    proof {
        assert(s@.subrange(0, s@.len() as int) =~= s@);
    }
    out
}

/// The ASCII lower-case form of one character.
pub fn lowered_char(c: char) -> (r: char)
    ensures
        r == lower_char(c),
{
    let n: u32 = c as u32;
    if 65 <= n && n <= 90 {
        let low: u8 = (n + 32) as u8;
        low as char
    } else {
        c
    }
}

/// How many bytes UTF-8 gives one character.
pub fn width_of_char(c: char) -> (r: usize)
    ensures
        r == char_width(c),
{
    let n: u32 = c as u32;
    if n < 0x80 {
        1
    } else if n < 0x800 {
        2
    } else if n < 0x10000 {
        3
    } else {
        4
    }
}

// ---------------------------------------------------------------------------
// Finding
// ---------------------------------------------------------------------------

/// The first index at or after `i` at which `c` stands, or the length.
pub open spec fn find_char(s: Seq<char>, c: char, i: int) -> int
    decreases s.len() - i,
{
    if i < 0 || i >= s.len() {
        s.len() as int
    } else if s[i] == c {
        i
    } else {
        find_char(s, c, i + 1)
    }
}

/// What [`find_char`] finds: the first place, and nothing before it.
pub proof fn find_char_bounds(s: Seq<char>, c: char, i: int)
    requires
        0 <= i <= s.len(),
    ensures
        i <= find_char(s, c, i) <= s.len(),
        find_char(s, c, i) < s.len() ==> s[find_char(s, c, i)] == c,
        forall|k: int| i <= k < find_char(s, c, i) ==> s[k] != c,
    decreases s.len() - i,
{
    if i < s.len() && s[i] != c {
        find_char_bounds(s, c, i + 1);
    }
}

/// The first index at or after `from` at which `c` stands, or the length.
pub fn find_char_from(s: &[char], c: char, from: usize) -> (r: usize)
    requires
        from <= s@.len(),
    ensures
        r == find_char(s@, c, from as int),
        from <= r <= s@.len(),
        r < s@.len() ==> s@[r as int] == c,
        forall|k: int| from <= k < r ==> s@[k] != c,
{
    let mut i: usize = from;
    while i < s.len()
        invariant
            from <= i <= s@.len(),
            forall|k: int| from <= k < i ==> s@[k] != c,
            find_char(s@, c, i as int) == find_char(s@, c, from as int),
        decreases s@.len() - i,
    {
        if s[i] == c {
            return i;
        }
        i = i + 1;
    }
    i
}

/// `p` stands in `s` at index `i`.
pub open spec fn at(s: Seq<char>, p: Seq<char>, i: int) -> bool {
    0 <= i && i + p.len() <= s.len() && s.subrange(i, i + p.len()) == p
}

/// `s` starts with `p`.
pub open spec fn starts(s: Seq<char>, p: Seq<char>) -> bool {
    at(s, p, 0)
}

/// `s` ends with `p`.
pub open spec fn ends(s: Seq<char>, p: Seq<char>) -> bool {
    at(s, p, s.len() - p.len())
}

/// `p` stands somewhere in `s`.
pub open spec fn contains(s: Seq<char>, p: Seq<char>) -> bool {
    exists|i: int| at(s, p, i)
}

/// The first index at or after `i` at which `p` stands, if there is one.
pub open spec fn find(s: Seq<char>, p: Seq<char>, i: int) -> Option<int>
    decreases s.len() + 1 - i,
{
    if i < 0 || i + p.len() > s.len() {
        None
    } else if at(s, p, i) {
        Some(i)
    } else {
        find(s, p, i + 1)
    }
}

/// What [`find`] finds: the first place, or that there is none.
pub proof fn find_is_first(s: Seq<char>, p: Seq<char>, i: int)
    requires
        0 <= i,
    ensures
        match find(s, p, i) {
            Some(j) => i <= j && at(s, p, j) && forall|k: int| i <= k < j ==> !at(s, p, k),
            None => forall|k: int| i <= k ==> !at(s, p, k),
        },
    decreases s.len() + 1 - i,
{
    if i + p.len() <= s.len() && !at(s, p, i) {
        find_is_first(s, p, i + 1);
    }
}

/// Does `p` stand in `s` at `i`?
pub fn stands_at(s: &[char], p: &[char], i: usize) -> (r: bool)
    ensures
        r == at(s@, p@, i as int),
{
    let n: usize = s.len();
    if i > n || p.len() > n - i {
        return false;
    }
    let mut k: usize = 0;
    while k < p.len()
        invariant
            k <= p@.len(),
            n == s@.len(),
            i + p@.len() <= n,
            forall|m: int| 0 <= m < k ==> s@[i + m] == p@[m],
        decreases p@.len() - k,
    {
        if s[i + k] != p[k] {
            proof {
                assert(s@.subrange(i as int, i + p@.len())[k as int] != p@[k as int]);
            }
            return false;
        }
        k = k + 1;
    }
    proof {
        assert(s@.subrange(i as int, i + p@.len()) =~= p@);
    }
    true
}

/// Does `s` start with `p`?
pub fn starts_with(s: &[char], p: &str) -> (r: bool)
    ensures
        r == starts(s@, p@),
{
    let c = chars_of(p);
    stands_at(s, c.as_slice(), 0)
}

/// Does `s` end with `p`?
pub fn ends_with(s: &[char], p: &str) -> (r: bool)
    ensures
        r == ends(s@, p@),
{
    let c = chars_of(p);
    if c.len() > s.len() {
        false
    } else {
        stands_at(s, c.as_slice(), s.len() - c.len())
    }
}

/// The first index at or after `from` at which `p` stands, if there is one.
pub fn find_from(s: &[char], p: &[char], from: usize) -> (r: Option<usize>)
    ensures
        match r {
            Some(i) => find(s@, p@, from as int) == Some(i as int),
            None => find(s@, p@, from as int) is None,
        },
        r matches Some(i) ==> from <= i && at(s@, p@, i as int),
{
    proof {
        find_is_first(s@, p@, from as int);
    }
    let mut i: usize = from;
    while i <= s.len() && p.len() <= s.len() - i
        invariant
            from <= i,
            i > from ==> i <= s@.len(),
            find(s@, p@, i as int) == find(s@, p@, from as int),
        decreases s@.len() + 1 - i,
    {
        if stands_at(s, p, i) {
            return Some(i);
        }
        if i == s.len() {
            proof {
                assert(p@.len() == 0);
                assert(s@.subrange(i as int, i as int) =~= p@);
            }
            return None;
        }
        i = i + 1;
    }
    None
}

/// Does `p` stand somewhere in `s`?
pub fn has_text(s: &[char], p: &str) -> (r: bool)
    ensures
        r == contains(s@, p@),
{
    proof {
        find_is_first(s@, p@, 0);
    }
    let c = chars_of(p);
    find_from(s, c.as_slice(), 0).is_some()
}

// ---------------------------------------------------------------------------
// White space
// ---------------------------------------------------------------------------

/// The first index at or after `i` that holds no white space, or the length.
pub open spec fn skip_white(s: Seq<char>, i: int) -> int
    decreases s.len() - i,
{
    if i < 0 || i >= s.len() {
        s.len() as int
    } else if white(s[i]) {
        skip_white(s, i + 1)
    } else {
        i
    }
}

/// The first index at or after `i` that holds white space, or the length.
pub open spec fn skip_word(s: Seq<char>, i: int) -> int
    decreases s.len() - i,
{
    if i < 0 || i >= s.len() {
        s.len() as int
    } else if white(s[i]) {
        i
    } else {
        skip_word(s, i + 1)
    }
}

/// The index behind the last character before `j` that is no white space.
pub open spec fn back_white(s: Seq<char>, j: int) -> int
    decreases j,
{
    if j <= 0 || j > s.len() {
        0
    } else if white(s[j - 1]) {
        back_white(s, j - 1)
    } else {
        j
    }
}

/// Without the white space in front.
pub open spec fn trim_start(s: Seq<char>) -> Seq<char> {
    s.subrange(skip_white(s, 0), s.len() as int)
}

/// Without the white space behind.
pub open spec fn trim_end(s: Seq<char>) -> Seq<char> {
    s.subrange(0, back_white(s, s.len() as int))
}

/// Without the white space in front and behind.
pub open spec fn trim(s: Seq<char>) -> Seq<char> {
    trim_end(trim_start(s))
}

/// Where [`skip_white`] stops, and what it passes.
pub proof fn skip_white_bounds(s: Seq<char>, i: int)
    requires
        0 <= i <= s.len(),
    ensures
        i <= skip_white(s, i) <= s.len(),
        skip_white(s, i) < s.len() ==> !white(s[skip_white(s, i)]),
        forall|k: int| i <= k < skip_white(s, i) ==> white(s[k]),
    decreases s.len() - i,
{
    if i < s.len() && white(s[i]) {
        skip_white_bounds(s, i + 1);
    }
}

/// Where [`skip_word`] stops, and what it passes.
pub proof fn skip_word_bounds(s: Seq<char>, i: int)
    requires
        0 <= i <= s.len(),
    ensures
        i <= skip_word(s, i) <= s.len(),
        skip_word(s, i) < s.len() ==> white(s[skip_word(s, i)]),
        forall|k: int| i <= k < skip_word(s, i) ==> !white(s[k]),
    decreases s.len() - i,
{
    if i < s.len() && !white(s[i]) {
        skip_word_bounds(s, i + 1);
    }
}

/// The first index at or after `from` that holds no white space.
pub fn skip_white_from(s: &[char], from: usize) -> (r: usize)
    requires
        from <= s@.len(),
    ensures
        r == skip_white(s@, from as int),
        from <= r <= s@.len(),
{
    let mut i: usize = from;
    while i < s.len() && is_white(s[i])
        invariant
            from <= i <= s@.len(),
            skip_white(s@, i as int) == skip_white(s@, from as int),
        decreases s@.len() - i,
    {
        i = i + 1;
    }
    i
}

/// The first index at or after `from` that holds white space.
pub fn skip_word_from(s: &[char], from: usize) -> (r: usize)
    requires
        from <= s@.len(),
    ensures
        r == skip_word(s@, from as int),
        from <= r <= s@.len(),
{
    let mut i: usize = from;
    while i < s.len() && !is_white(s[i])
        invariant
            from <= i <= s@.len(),
            skip_word(s@, i as int) == skip_word(s@, from as int),
        decreases s@.len() - i,
    {
        i = i + 1;
    }
    i
}

/// Without the white space in front.
pub fn trimmed_start(s: &[char]) -> (r: &[char])
    ensures
        r@ == trim_start(s@),
{
    let a: usize = skip_white_from(s, 0);
    slice_subrange(s, a, s.len())
}

/// Without the white space behind.
pub fn trimmed_end(s: &[char]) -> (r: &[char])
    ensures
        r@ == trim_end(s@),
        r@.len() <= s@.len(),
{
    let mut j: usize = s.len();
    while 0 < j && is_white(s[j - 1])
        invariant
            j <= s@.len(),
            back_white(s@, j as int) == back_white(s@, s@.len() as int),
        decreases j,
    {
        j = j - 1;
    }
    slice_subrange(s, 0, j)
}

/// Without the white space in front and behind.
pub fn trimmed(s: &[char]) -> (r: &[char])
    ensures
        r@ == trim(s@),
{
    trimmed_end(trimmed_start(s))
}

/// The white-space separated words at or after `i`.
pub open spec fn words_from(s: Seq<char>, i: int) -> Seq<Seq<char>>
    decreases s.len() - i,
    via words_from_decreases
{
    let a = skip_white(s, i);
    if i < 0 || a >= s.len() {
        Seq::empty()
    } else {
        let b = skip_word(s, a);
        seq![s.subrange(a, b)] + words_from(s, b)
    }
}

#[via_fn]
proof fn words_from_decreases(s: Seq<char>, i: int) {
    if 0 <= i < s.len() {
        skip_white_bounds(s, i);
        let a = skip_white(s, i);
        if a < s.len() {
            skip_word_bounds(s, a + 1);
        }
    }
}

/// The white-space separated words of a text.
pub open spec fn words(s: Seq<char>) -> Seq<Seq<char>> {
    words_from(s, 0)
}

/// The white-space separated words of a text.
pub fn split_words(s: &[char]) -> (r: Vec<Vec<char>>)
    ensures
        texts(r@) == words(s@),
{
    let mut out: Vec<Vec<char>> = Vec::new();
    let mut i: usize = skip_white_from(s, 0);
    proof {
        assert(texts(out@) + words_from(s@, 0) =~= words(s@));
        skip_white_bounds(s@, 0);
        skip_white_again(s@, 0);
    }
    while i < s.len()
        invariant
            i <= s@.len(),
            i < s@.len() ==> !white(s@[i as int]),
            texts(out@) + words_from(s@, i as int) == words(s@),
        decreases s@.len() - i,
    {
        let b: usize = skip_word_from(s, i);
        let word = copy_of(slice_subrange(s, i, b));
        proof {
            skip_word_bounds(s@, i + 1);
            skip_white_bounds(s@, b as int);
            skip_white_again(s@, b as int);
        }
        let ghost before = out@;
        out.push(word);
        i = skip_white_from(s, b);
        proof {
            assert(texts(out@) =~= texts(before) + seq![word@]);
            assert(texts(before) + (seq![word@] + words_from(s@, b as int)) =~= (texts(before)
                + seq![word@]) + words_from(s@, b as int));
        }
    }
    proof {
        assert(texts(out@) =~= words(s@));
    }
    out
}

/// Skipping white space a second time skips nothing, so the words are the same.
proof fn skip_white_again(s: Seq<char>, i: int)
    requires
        0 <= i <= s.len(),
    ensures
        words_from(s, skip_white(s, i)) == words_from(s, i),
{
    skip_white_bounds(s, i);
}

// ---------------------------------------------------------------------------
// Joining
// ---------------------------------------------------------------------------

/// The pieces with `sep` between each two.
pub open spec fn join(v: Seq<Seq<char>>, sep: Seq<char>) -> Seq<char>
    decreases v.len(),
{
    if v.len() == 0 {
        Seq::empty()
    } else if v.len() == 1 {
        v[0]
    } else {
        join(v.drop_last(), sep) + sep + v.last()
    }
}

/// The pieces, one behind the other.
pub open spec fn concat(v: Seq<Seq<char>>) -> Seq<char>
    decreases v.len(),
{
    if v.len() == 0 {
        Seq::empty()
    } else {
        concat(v.drop_last()) + v.last()
    }
}

/// The pieces with `sep` between each two.
pub fn joined(v: &Vec<Vec<char>>, sep: &str) -> (r: Vec<char>)
    ensures
        r@ == join(texts(v@), sep@),
{
    let mut out: Vec<char> = Vec::new();
    let mut i: usize = 0;
    while i < v.len()
        invariant
            i <= v@.len(),
            out@ == join(texts(v@).take(i as int), sep@),
        decreases v@.len() - i,
    {
        if i > 0 {
            push_text(&mut out, sep);
        }
        push_all(&mut out, v[i].as_slice());
        i = i + 1;
        proof {
            let done = texts(v@).take(i as int);
            assert(done.drop_last() =~= texts(v@).take(i - 1));
            assert(done.last() == v@[i - 1]@);
            if i == 1 {
                assert(texts(v@).take(0).len() == 0);
            }
        }
    }
    proof {
        assert(texts(v@).take(v@.len() as int) =~= texts(v@));
    }
    out
}

/// The strings with `sep` between each two.
pub fn join_strings(v: &Vec<String>, sep: &str) -> (r: String)
    ensures
        r@ == join(strs(v@), sep@),
{
    let mut out = String::new();
    let mut i: usize = 0;
    while i < v.len()
        invariant
            i <= v@.len(),
            out@ == join(strs(v@).take(i as int), sep@),
        decreases v@.len() - i,
    {
        if i > 0 {
            out.append(sep);
        }
        out.append(v[i].as_str());
        i = i + 1;
        proof {
            let done = strs(v@).take(i as int);
            assert(done.drop_last() =~= strs(v@).take(i - 1));
            assert(done.last() == v@[i - 1]@);
            if i == 1 {
                assert(strs(v@).take(0).len() == 0);
            }
        }
    }
    proof {
        assert(strs(v@).take(v@.len() as int) =~= strs(v@));
    }
    out
}

// ---------------------------------------------------------------------------
// Lines
// ---------------------------------------------------------------------------

/// The line that starts at `i` and whose line feed, or the end of the text, is
/// at `e`. A carriage return belongs to the line feed behind it.
pub open spec fn line_at(s: Seq<char>, i: int, e: int) -> Seq<char> {
    if e < s.len() && i < e && s[e - 1] == '\r' {
        s.subrange(i, e - 1)
    } else {
        s.subrange(i, e)
    }
}

/// The lines at or after `i`.
pub open spec fn lines_from(s: Seq<char>, i: int) -> Seq<Seq<char>>
    decreases s.len() + 1 - i,
    via lines_from_decreases
{
    if i < 0 || i >= s.len() {
        Seq::empty()
    } else {
        let e = find_char(s, '\n', i);
        seq![line_at(s, i, e)] + lines_from(s, e + 1)
    }
}

#[via_fn]
proof fn lines_from_decreases(s: Seq<char>, i: int) {
    if 0 <= i < s.len() {
        find_char_bounds(s, '\n', i);
    }
}

/// The lines of a text, without their line endings.
pub open spec fn lines(s: Seq<char>) -> Seq<Seq<char>> {
    lines_from(s, 0)
}

/// The lines of a text, without their line endings.
pub fn split_lines(s: &[char]) -> (r: Vec<Vec<char>>)
    ensures
        texts(r@) == lines(s@),
{
    let mut out: Vec<Vec<char>> = Vec::new();
    let mut i: usize = 0;
    proof {
        assert(texts(out@) + lines_from(s@, 0) =~= lines(s@));
    }
    while i < s.len()
        invariant
            i <= s@.len(),
            texts(out@) + lines_from(s@, i as int) == lines(s@),
        decreases s@.len() - i,
    {
        let e: usize = find_char_from(s, '\n', i);
        let line = if e < s.len() && i < e && s[e - 1] == '\r' {
            copy_of(slice_subrange(s, i, e - 1))
        } else {
            copy_of(slice_subrange(s, i, e))
        };
        let ghost before = out@;
        out.push(line);
        proof {
            assert(texts(out@) =~= texts(before) + seq![line@]);
            assert(texts(before) + (seq![line@] + lines_from(s@, e + 1)) =~= (texts(before)
                + seq![line@]) + lines_from(s@, e + 1));
        }
        if e < s.len() {
            i = e + 1;
        } else {
            i = e;
        }
    }
    proof {
        assert(texts(out@) =~= lines(s@));
    }
    out
}

// ---------------------------------------------------------------------------
// Order
// ---------------------------------------------------------------------------

/// `a` comes before `b`, reading both from index `i`: by the first character in
/// which they differ, and a text before its own continuations.
pub open spec fn before_from(a: Seq<char>, b: Seq<char>, i: int) -> bool
    decreases b.len() - i,
{
    if i < 0 || i >= b.len() {
        false
    } else if i >= a.len() {
        true
    } else if a[i] != b[i] {
        (a[i] as int) < (b[i] as int)
    } else {
        before_from(a, b, i + 1)
    }
}

/// `a` comes before `b` in the order of their characters.
pub open spec fn before(a: Seq<char>, b: Seq<char>) -> bool {
    before_from(a, b, 0)
}

/// No text comes before itself.
pub proof fn before_irreflexive(a: Seq<char>, i: int)
    ensures
        !before_from(a, a, i),
    decreases a.len() - i,
{
    if 0 <= i < a.len() {
        before_irreflexive(a, i + 1);
    }
}

/// Of two different texts exactly one comes before the other.
pub proof fn before_total(a: Seq<char>, b: Seq<char>, i: int)
    requires
        0 <= i <= a.len(),
        i <= b.len(),
        a.subrange(0, i) == b.subrange(0, i),
    ensures
        before_from(a, b, i) || before_from(b, a, i) || a == b,
        !(before_from(a, b, i) && before_from(b, a, i)),
    decreases a.len() - i,
{
    if i < a.len() && i < b.len() && a[i] == b[i] {
        assert(a.subrange(0, i + 1) =~= a.subrange(0, i).push(a[i]));
        assert(b.subrange(0, i + 1) =~= b.subrange(0, i).push(b[i]));
        before_total(a, b, i + 1);
    } else if i >= a.len() && i >= b.len() {
        assert(a =~= a.subrange(0, i));
        assert(b =~= b.subrange(0, i));
    }
}

/// The order of texts is transitive.
pub proof fn before_transitive(a: Seq<char>, b: Seq<char>, c: Seq<char>, i: int)
    requires
        before_from(a, b, i),
        before_from(b, c, i),
    ensures
        before_from(a, c, i),
    decreases b.len() - i,
{
    if i < a.len() && i < c.len() && a[i] == b[i] && b[i] == c[i] {
        before_transitive(a, b, c, i + 1);
    }
}

/// The code point of a character.
fn code_point(c: char) -> (r: u32)
    ensures
        r == c as int,
{
    c as u32
}

/// Does `a` come before `b`?
pub fn is_before(a: &[char], b: &[char]) -> (r: bool)
    ensures
        r == before(a@, b@),
{
    let mut i: usize = 0;
    while i < b.len()
        invariant
            i <= b@.len(),
            before(a@, b@) == before_from(a@, b@, i as int),
        decreases b@.len() - i,
    {
        if i >= a.len() {
            return true;
        }
        if a[i] != b[i] {
            return code_point(a[i]) < code_point(b[i]);
        }
        i = i + 1;
    }
    false
}

/// Does the string `a` come before the string `b`?
pub fn str_before(a: &str, b: &str) -> (r: bool)
    ensures
        r == before(a@, b@),
{
    let x = chars_of(a);
    let y = chars_of(b);
    is_before(x.as_slice(), y.as_slice())
}

// ---------------------------------------------------------------------------
// Lists of strings
// ---------------------------------------------------------------------------

/// Is the string among the strings of the list?
pub fn list_has(v: &Vec<String>, s: &str) -> (r: bool)
    ensures
        r == strs(v@).contains(s@),
{
    let mut i: usize = 0;
    while i < v.len()
        invariant
            i <= v@.len(),
            forall|k: int| 0 <= k < i ==> v@[k]@ != s@,
        decreases v@.len() - i,
    {
        if str_eq(v[i].as_str(), s) {
            proof {
                assert(strs(v@)[i as int] == s@);
            }
            return true;
        }
        i = i + 1;
    }
    proof {
        assert forall|k: int| 0 <= k < strs(v@).len() implies strs(v@)[k] != s@ by {
            assert(strs(v@)[k] == v@[k]@);
        }
    }
    false
}

/// Are the characters among the texts of the list?
pub fn texts_have(v: &Vec<Vec<char>>, s: &[char]) -> (r: bool)
    ensures
        r == texts(v@).contains(s@),
{
    let mut i: usize = 0;
    while i < v.len()
        invariant
            i <= v@.len(),
            forall|k: int| 0 <= k < i ==> v@[k]@ != s@,
        decreases v@.len() - i,
    {
        if same(v[i].as_slice(), s) {
            proof {
                assert(texts(v@)[i as int] == s@);
            }
            return true;
        }
        i = i + 1;
    }
    proof {
        assert forall|k: int| 0 <= k < texts(v@).len() implies texts(v@)[k] != s@ by {
            assert(texts(v@)[k] == v@[k]@);
        }
    }
    false
}

/// The texts of the list, each once, in the order of their first occurrence.
pub open spec fn distinct(v: Seq<Seq<char>>) -> Seq<Seq<char>>
    decreases v.len(),
{
    if v.len() == 0 {
        Seq::empty()
    } else {
        let front = distinct(v.drop_last());
        if front.contains(v.last()) {
            front
        } else {
            front.push(v.last())
        }
    }
}

/// [`distinct`] lists the same texts, each once.
pub proof fn distinct_lists_each_once(v: Seq<Seq<char>>)
    ensures
        distinct(v).no_duplicates(),
        forall|x: Seq<char>| distinct(v).contains(x) <==> #[trigger] v.contains(x),
    decreases v.len(),
{
    if v.len() > 0 {
        let front = v.drop_last();
        let d = distinct(front);
        distinct_lists_each_once(front);
        assert forall|x: Seq<char>| distinct(v).contains(x) <==> #[trigger] v.contains(x) by {
            if v.contains(x) {
                let k = choose|k: int| 0 <= k < v.len() && v[k] == x;
                if k < front.len() {
                    assert(front[k] == x);
                    assert(front.contains(x));
                    let m = choose|m: int| 0 <= m < d.len() && d[m] == x;
                    assert(distinct(v)[m] == x);
                } else if !d.contains(x) {
                    assert(distinct(v)[d.len() as int] == x);
                }
            }
            if distinct(v).contains(x) {
                let k = choose|k: int| 0 <= k < distinct(v).len() && distinct(v)[k] == x;
                if k < d.len() {
                    assert(d[k] == x);
                    assert(d.contains(x));
                    assert(front.contains(x));
                    let m = choose|m: int| 0 <= m < front.len() && front[m] == x;
                    assert(v[m] == x);
                } else {
                    assert(v[v.len() - 1] == x);
                }
            }
        }
    }
}

/// The texts of the list, each once, in the order of their first occurrence.
pub fn distinct_texts(v: &Vec<Vec<char>>) -> (r: Vec<Vec<char>>)
    ensures
        texts(r@) == distinct(texts(v@)),
{
    let mut out: Vec<Vec<char>> = Vec::new();
    let mut i: usize = 0;
    while i < v.len()
        invariant
            i <= v@.len(),
            texts(out@) == distinct(texts(v@).take(i as int)),
        decreases v@.len() - i,
    {
        let ghost before = texts(out@);
        if !texts_have(&out, v[i].as_slice()) {
            out.push(copy_of(v[i].as_slice()));
            proof {
                assert(texts(out@) =~= before.push(v@[i as int]@));
            }
        }
        i = i + 1;
        proof {
            let done = texts(v@).take(i as int);
            assert(done.drop_last() =~= texts(v@).take(i - 1));
            assert(done.last() == v@[i - 1]@);
        }
    }
    proof {
        assert(texts(v@).take(v@.len() as int) =~= texts(v@));
    }
    out
}

/// A copy of the strings.
pub fn copy_strings(v: &Vec<String>) -> (r: Vec<String>)
    ensures
        strs(r@) == strs(v@),
        r@.len() == v@.len(),
{
    let mut out: Vec<String> = Vec::new();
    let mut i: usize = 0;
    while i < v.len()
        invariant
            i <= v@.len(),
            out@.len() == i,
            strs(out@) == strs(v@).take(i as int),
        decreases v@.len() - i,
    {
        out.push(v[i].clone());
        i = i + 1;
        proof {
            assert(strs(out@) =~= strs(v@).take(i as int));
        }
    }
    proof {
        assert(strs(v@).take(v@.len() as int) =~= strs(v@));
    }
    out
}

/// Add a text to a list that holds each text once.
pub fn push_new(v: &mut Vec<String>, s: &[char])
    ensures
        strs(old(v)@).no_duplicates() ==> strs(final(v)@).no_duplicates(),
        strs(final(v)@).to_set() == strs(old(v)@).to_set().insert(s@),
        strs(final(v)@) == if strs(old(v)@).contains(s@) {
            strs(old(v)@)
        } else {
            strs(old(v)@).push(s@)
        },
{
    let t = string_of(s);
    let ghost before = strs(v@);
    if !list_has(v, t.as_str()) {
        v.push(t);
        proof {
            assert(strs(v@) =~= before.push(s@));
            before.lemma_push_to_set_commute(s@);
        }
    } else {
        proof {
            assert(before.to_set().insert(s@) =~= before.to_set());
        }
    }
}

/// The first index at or after `k` of a text that comes after `x`, or the length.
pub open spec fn sorted_place(v: Seq<Seq<char>>, x: Seq<char>, k: int) -> int
    decreases v.len() - k,
{
    if k < 0 || k >= v.len() {
        v.len() as int
    } else if before(x, v[k]) {
        k
    } else {
        sorted_place(v, x, k + 1)
    }
}

/// The list with `x` at its place, if it is not there already.
pub open spec fn add_sorted(v: Seq<Seq<char>>, x: Seq<char>) -> Seq<Seq<char>> {
    if v.contains(x) {
        v
    } else {
        v.insert(sorted_place(v, x, 0), x)
    }
}

/// The texts of the list in their order, each once.
pub open spec fn sorted_distinct(v: Seq<Seq<char>>) -> Seq<Seq<char>>
    decreases v.len(),
{
    if v.len() == 0 {
        Seq::empty()
    } else {
        add_sorted(sorted_distinct(v.drop_last()), v.last())
    }
}

proof fn sorted_place_bounds(v: Seq<Seq<char>>, x: Seq<char>, k: int)
    requires
        0 <= k <= v.len(),
    ensures
        k <= sorted_place(v, x, k) <= v.len(),
        forall|j: int| k <= j < sorted_place(v, x, k) ==> !before(x, #[trigger] v[j]),
        sorted_place(v, x, k) < v.len() ==> before(x, v[sorted_place(v, x, k)]),
    decreases v.len() - k,
{
    if k < v.len() && !before(x, v[k]) {
        sorted_place_bounds(v, x, k + 1);
    }
}

/// Adding to a sorted list keeps it sorted and adds exactly the one text.
pub proof fn add_sorted_sorts(v: Seq<Seq<char>>, x: Seq<char>)
    requires
        strictly_sorted(v),
    ensures
        strictly_sorted(add_sorted(v, x)),
        forall|y: Seq<char>| #[trigger] add_sorted(v, x).contains(y) <==> v.contains(y) || y == x,
{
    if !v.contains(x) {
        sorted_place_bounds(v, x, 0);
        let k = sorted_place(v, x, 0);
        let w = v.insert(k, x);
        assert forall|i: int, j: int| 0 <= i < j < w.len() implies before(
            #[trigger] w[i],
            #[trigger] w[j],
        ) by {
            if j < k {
                assert(w[i] == v[i] && w[j] == v[j]);
            } else if i > k {
                assert(w[i] == v[i - 1] && w[j] == v[j - 1]);
            } else if j == k {
                assert(w[i] == v[i]);
                assert(v[i] != x);
                assert(v[i].subrange(0, 0) =~= x.subrange(0, 0));
                before_total(v[i], x, 0);
            } else {
                assert(w[j] == v[j - 1]);
                if i < k {
                    assert(w[i] == v[i]);
                } else if j - 1 > k {
                    before_transitive(x, v[k], v[j - 1], 0);
                }
            }
        }
        assert forall|y: Seq<char>| #[trigger] w.contains(y) <==> v.contains(y) || y == x by {
            if v.contains(y) {
                let m = choose|m: int| 0 <= m < v.len() && v[m] == y;
                if m < k {
                    assert(w[m] == y);
                } else {
                    assert(w[m + 1] == y);
                }
            }
            if y == x {
                assert(w[k] == y);
            }
            if w.contains(y) {
                let m = choose|m: int| 0 <= m < w.len() && w[m] == y;
                if m < k {
                    assert(v[m] == y);
                } else if m > k {
                    assert(v[m - 1] == y);
                }
            }
        }
    }
}

/// [`sorted_distinct`] lists the same texts, sorted.
pub proof fn sorted_distinct_sorts(v: Seq<Seq<char>>)
    ensures
        strictly_sorted(sorted_distinct(v)),
        forall|x: Seq<char>| #[trigger] sorted_distinct(v).contains(x) <==> v.contains(x),
    decreases v.len(),
{
    if v.len() > 0 {
        let front = v.drop_last();
        sorted_distinct_sorts(front);
        add_sorted_sorts(sorted_distinct(front), v.last());
        assert forall|x: Seq<char>| #[trigger] sorted_distinct(v).contains(x) <==> v.contains(x) by {
            assert(sorted_distinct(front).contains(x) <==> front.contains(x));
            if front.contains(x) {
                let m = choose|m: int| 0 <= m < front.len() && front[m] == x;
                assert(v[m] == x);
            }
            if v.contains(x) {
                let m = choose|m: int| 0 <= m < v.len() && v[m] == x;
                if m < front.len() {
                    assert(front[m] == x);
                }
            }
            if x == v.last() {
                assert(v[v.len() - 1] == x);
            }
        }
    }
}

/// A sorted list is told by what it holds.
pub proof fn sorted_lists_are_their_sets(a: Seq<Seq<char>>, b: Seq<Seq<char>>)
    requires
        strictly_sorted(a),
        strictly_sorted(b),
        a.to_set() == b.to_set(),
    ensures
        a == b,
    decreases a.len(),
{
    assert forall|x: Seq<char>| #[trigger] a.contains(x) <==> b.contains(x) by {
        assert(a.contains(x) == a.to_set().contains(x));
        assert(b.contains(x) == b.to_set().contains(x));
    }
    if a.len() == 0 {
        if b.len() > 0 {
            assert(b.contains(b[0]));
            assert(a.contains(b[0]));
        }
        assert(a =~= b);
    } else {
        let x = a.last();
        assert(a[a.len() - 1] == x);
        assert(a.contains(x));
        let y = b.last();
        assert(b[b.len() - 1] == y);
        assert(b.contains(y));
        assert(a.contains(y));
        if x != y {
            let i = choose|i: int| 0 <= i < b.len() && b[i] == x;
            let j = choose|j: int| 0 <= j < a.len() && a[j] == y;
            assert(before(b[i], b[b.len() - 1]));
            assert(before(a[j], a[a.len() - 1]));
            assert(x.subrange(0, 0) =~= y.subrange(0, 0));
            before_total(x, y, 0);
        }
        let a1 = a.drop_last();
        let b1 = b.drop_last();
        assert forall|z: Seq<char>| #[trigger] a1.to_set().contains(z) <==> b1.to_set().contains(
            z,
        ) by {
            before_irreflexive(x, 0);
            if a1.contains(z) {
                let k = choose|k: int| 0 <= k < a1.len() && a1[k] == z;
                assert(a[k] == z);
                assert(a.contains(z));
                assert(before(a[k], a[a.len() - 1]));
                let m = choose|m: int| 0 <= m < b.len() && b[m] == z;
                assert(b1[m] == z);
            }
            if b1.contains(z) {
                let k = choose|k: int| 0 <= k < b1.len() && b1[k] == z;
                assert(b[k] == z);
                assert(b.contains(z));
                assert(before(b[k], b[b.len() - 1]));
                assert(a.contains(z));
                let m = choose|m: int| 0 <= m < a.len() && a[m] == z;
                assert(a1[m] == z);
            }
        }
        assert(a1.to_set() =~= b1.to_set());
        assert forall|i: int, j: int| 0 <= i < j < a1.len() implies before(
            #[trigger] a1[i],
            #[trigger] a1[j],
        ) by {
            assert(a1[i] == a[i] && a1[j] == a[j]);
        }
        assert forall|i: int, j: int| 0 <= i < j < b1.len() implies before(
            #[trigger] b1[i],
            #[trigger] b1[j],
        ) by {
            assert(b1[i] == b[i] && b1[j] == b[j]);
        }
        sorted_lists_are_their_sets(a1, b1);
        assert(a =~= a1.push(x));
        assert(b =~= b1.push(y));
    }
}

/// Add a string to a sorted list, at its place, if it is not there already.
pub fn push_sorted(v: &mut Vec<String>, s: &str)
    ensures
        strs(final(v)@) == add_sorted(strs(old(v)@), s@),
{
    let ghost start = strs(v@);
    if list_has(v, s) {
        return ;
    }
    let mut k: usize = 0;
    while k < v.len()
        invariant_except_break
            k <= v@.len(),
            strs(v@) == start,
            sorted_place(start, s@, k as int) == sorted_place(start, s@, 0),
        ensures
            k <= v@.len(),
            strs(v@) == start,
            k == sorted_place(start, s@, 0),
        decreases v@.len() - k,
    {
        proof {
            assert(start[k as int] == v@[k as int]@);
        }
        if str_before(s, v[k].as_str()) {
            break ;
        }
        k = k + 1;
    }
    let t = string_of(chars_of(s).as_slice());
    let ghost held = v@;
    v.insert(k, t);
    proof {
        assert(strs(v@) =~= start.insert(k as int, s@));
    }
}

/// The list in the order of its texts, each text once.
pub open spec fn strictly_sorted(v: Seq<Seq<char>>) -> bool {
    forall|i: int, j: int| 0 <= i < j < v.len() ==> before(#[trigger] v[i], #[trigger] v[j])
}

// ---------------------------------------------------------------------------
// Writing
// ---------------------------------------------------------------------------

/// One decimal digit.
pub open spec fn digit(d: int) -> char {
    ((48 + d) as u8) as char
}

/// A number in decimal.
pub open spec fn decimal(n: nat) -> Seq<char>
    decreases n,
{
    if n < 10 {
        seq![digit(n as int)]
    } else {
        decimal(n / 10).push(digit((n % 10) as int))
    }
}

/// Append a number in decimal.
pub fn push_number(out: &mut Vec<char>, n: usize)
    ensures
        final(out)@ == old(out)@ + decimal(n as nat),
    decreases n,
{
    let ghost before = out@;
    if n < 10 {
        out.push((48 + n as u8) as char);
    } else {
        push_number(out, n / 10);
        out.push((48 + (n % 10) as u8) as char);
    }
    proof {
        assert(out@ =~= before + decimal(n as nat));
    }
}

/// `n` times the character.
pub open spec fn repeat(c: char, n: nat) -> Seq<char> {
    Seq::new(n, |i: int| c)
}

/// `n` times the character.
pub fn repeated(c: char, n: usize) -> (r: Vec<char>)
    ensures
        r@ == repeat(c, n as nat),
{
    let mut out: Vec<char> = Vec::new();
    let mut i: usize = 0;
    while i < n
        invariant
            i <= n,
            out@ =~= repeat(c, i as nat),
        decreases n - i,
    {
        out.push(c);
        i = i + 1;
    }
    out
}

/// The lines, each with a line feed behind it.
pub open spec fn unlines(v: Seq<Seq<char>>) -> Seq<char>
    decreases v.len(),
{
    if v.len() == 0 {
        Seq::empty()
    } else {
        unlines(v.drop_last()) + v.last() + seq!['\n']
    }
}

/// Append the lines, each with a line feed behind it.
pub fn push_lines(out: &mut Vec<char>, v: &[Vec<char>])
    ensures
        final(out)@ == old(out)@ + unlines(texts(v@)),
{
    let ghost before = out@;
    let ghost all = texts(v@);
    let mut i: usize = 0;
    proof {
        assert(before + unlines(all.take(0)) =~= before);
    }
    while i < v.len()
        invariant
            i <= v@.len(),
            all == texts(v@),
            out@ == before + unlines(all.take(i as int)),
        decreases v@.len() - i,
    {
        let ghost held = out@;
        push_all(out, v[i].as_slice());
        out.push('\n');
        i = i + 1;
        proof {
            let done = all.take(i as int);
            assert(done.drop_last() =~= all.take(i - 1));
            assert(done.last() == v@[i - 1]@);
            assert(out@ =~= before + unlines(done));
        }
    }
    proof {
        assert(all.take(all.len() as int) =~= all);
    }
}

/// A line that reads back as itself: it holds no line feed, and no carriage
/// return stands at its end.
pub open spec fn plain_line(l: Seq<char>) -> bool {
    !l.contains('\n') && (l.len() > 0 ==> l.last() != '\r')
}

/// Two lists of lines, one behind the other.
pub proof fn unlines_of_two(a: Seq<Seq<char>>, b: Seq<Seq<char>>)
    ensures
        unlines(a + b) == unlines(a) + unlines(b),
    decreases b.len(),
{
    if b.len() == 0 {
        assert(a + b =~= a);
        assert(unlines(a) + unlines(b) =~= unlines(a));
    } else {
        assert((a + b).drop_last() =~= a + b.drop_last());
        unlines_of_two(a, b.drop_last());
        assert(unlines(a + b) =~= unlines(a) + unlines(b));
    }
}

proof fn find_char_shifts(h: Seq<char>, t: Seq<char>, c: char, i: int)
    requires
        h.len() <= i,
    ensures
        find_char(h + t, c, i) == h.len() + find_char(t, c, i - h.len()),
    decreases h.len() + t.len() - i,
{
    if i < h.len() + t.len() {
        assert((h + t)[i] == t[i - h.len()]);
        if t[i - h.len()] != c {
            find_char_shifts(h, t, c, i + 1);
        }
    }
}

proof fn lines_from_shifts(h: Seq<char>, t: Seq<char>, i: int)
    requires
        h.len() <= i,
    ensures
        lines_from(h + t, i) == lines_from(t, i - h.len()),
    decreases h.len() + t.len() + 1 - i,
{
    let s = h + t;
    let k = i - h.len();
    if i < s.len() {
        find_char_bounds(t, '\n', k);
        find_char_shifts(h, t, '\n', i);
        let e = find_char(t, '\n', k);
        lines_from_shifts(h, t, h.len() + e + 1);
        assert(s.subrange(i, h.len() + e) =~= t.subrange(k, e));
        if e > k {
            assert(s.subrange(i, h.len() + e - 1) =~= t.subrange(k, e - 1));
            assert(s[h.len() + e - 1] == t[e - 1]);
        }
        assert(line_at(s, i, h.len() + e) == line_at(t, k, e));
    }
}

/// The lines of a text that starts with a plain line and its line feed.
pub proof fn lines_of_a_line_and_more(l: Seq<char>, t: Seq<char>)
    requires
        plain_line(l),
    ensures
        lines(l + seq!['\n'] + t) == seq![l] + lines(t),
{
    let h = l + seq!['\n'];
    let s = h + t;
    find_char_bounds(s, '\n', 0);
    let e = find_char(s, '\n', 0);
    assert(e == l.len()) by {
        assert(s[l.len() as int] == '\n');
        if e < l.len() {
            assert(s[e] == l[e]);
            assert(l.contains('\n'));
        }
    }
    assert(s.subrange(0, e) =~= l);
    if e > 0 {
        assert(s[e - 1] == l.last());
    }
    lines_from_shifts(h, t, h.len() as int);
    assert(lines_from(s, e + 1) == lines_from(t, 0));
}

/// None of the lines holds a line feed.
pub open spec fn unbroken_lines(v: Seq<Seq<char>>) -> bool {
    forall|i: int| 0 <= i < v.len() ==> unbroken(#[trigger] v[i])
}

/// The line holds no line feed.
pub open spec fn unbroken(l: Seq<char>) -> bool {
    !l.contains('\n')
}

/// A line as it reads back: a carriage return at its end belongs to the line feed.
pub open spec fn chomped(l: Seq<char>) -> Seq<char> {
    if l.len() > 0 && l.last() == '\r' {
        l.drop_last()
    } else {
        l
    }
}

/// The lines as they read back.
pub open spec fn chomped_lines(v: Seq<Seq<char>>) -> Seq<Seq<char>> {
    v.map_values(|l: Seq<char>| chomped(l))
}

proof fn lines_of_one(l: Seq<char>)
    requires
        !l.contains('\n'),
    ensures
        lines(l + seq!['\n']) == seq![chomped(l)],
{
    let s = l + seq!['\n'];
    find_char_bounds(s, '\n', 0);
    let e = find_char(s, '\n', 0);
    assert(e == l.len()) by {
        assert(s[l.len() as int] == '\n');
        if e < l.len() {
            assert(s[e] == l[e]);
            assert(l.contains('\n'));
        }
    }
    if e > 0 {
        assert(s[e - 1] == l.last());
    }
    assert(line_at(s, 0, e) =~= chomped(l));
    assert(lines_from(s, e + 1) =~= Seq::empty());
    assert(lines(s) =~= seq![chomped(l)]);
}

/// Lines that hold no line feed, written with theirs, read back without a carriage
/// return at their ends.
pub proof fn written_lines_read_back(v: Seq<Seq<char>>)
    requires
        forall|i: int| 0 <= i < v.len() ==> !(#[trigger] v[i]).contains('\n'),
    ensures
        lines(unlines(v)) == chomped_lines(v),
    decreases v.len(),
{
    let out = chomped_lines(v);
    if v.len() == 0 {
        assert(lines(unlines(v)) =~= out);
    } else {
        let front = v.drop_last();
        let l = v.last();
        assert forall|i: int| 0 <= i < front.len() implies !(#[trigger] front[i]).contains(
            '\n',
        ) by {
            assert(front[i] == v[i]);
        }
        written_lines_read_back(front);
        assert(!v[v.len() - 1].contains('\n'));
        lines_of_one(l);
        assert(unlines(v) =~= unlines(front) + (l + seq!['\n']));
        if front.len() > 0 {
            assert(unlines(front).last() == '\n');
        }
        lines_of_two(unlines(front), l + seq!['\n']);
        assert(lines(unlines(v)) =~= out);
    }
}

/// No line of a text holds a line feed.
pub proof fn lines_hold_no_line_feed(s: Seq<char>, i: int)
    requires
        0 <= i,
    ensures
        forall|k: int|
            0 <= k < lines_from(s, i).len() ==> !(#[trigger] lines_from(s, i)[k]).contains('\n'),
    decreases s.len() + 1 - i,
{
    if i < s.len() {
        find_char_bounds(s, '\n', i);
        let e = find_char(s, '\n', i);
        lines_hold_no_line_feed(s, e + 1);
        let l = line_at(s, i, e);
        let rest = lines_from(s, e + 1);
        assert(!l.contains('\n')) by {
            if l.contains('\n') {
                let m = choose|m: int| 0 <= m < l.len() && l[m] == '\n';
                assert(s[i + m] == '\n');
            }
        }
        assert forall|k: int| 0 <= k < lines_from(s, i).len() implies !(#[trigger] lines_from(
            s,
            i,
        )[k]).contains('\n') by {
            if k > 0 {
                assert(lines_from(s, i)[k] == rest[k - 1]);
            }
        }
    } else {
        assert(lines_from(s, i).len() == 0);
    }
}

// ---------------------------------------------------------------------------
// Splitting
// ---------------------------------------------------------------------------

/// What stands at or after `i` between each two occurrences of the character.
pub open spec fn split_from(s: Seq<char>, c: char, i: int) -> Seq<Seq<char>>
    decreases s.len() + 1 - i,
    via split_from_decreases
{
    if i < 0 || i > s.len() {
        Seq::empty()
    } else {
        let e = find_char(s, c, i);
        if e >= s.len() {
            seq![s.subrange(i, s.len() as int)]
        } else {
            seq![s.subrange(i, e)] + split_from(s, c, e + 1)
        }
    }
}

#[via_fn]
proof fn split_from_decreases(s: Seq<char>, c: char, i: int) {
    if 0 <= i <= s.len() {
        find_char_bounds(s, c, i);
    }
}

/// What stands between each two occurrences of the character, and at both ends.
pub open spec fn split_on(s: Seq<char>, c: char) -> Seq<Seq<char>> {
    split_from(s, c, 0)
}

/// What stands between each two occurrences of the character, and at both ends.
pub fn split_at_char(s: &[char], c: char) -> (r: Vec<Vec<char>>)
    ensures
        texts(r@) == split_on(s@, c),
        r@.len() > 0,
{
    let n: usize = s.len();
    let mut out: Vec<Vec<char>> = Vec::new();
    let mut i: usize = 0;
    proof {
        assert(texts(out@) + split_from(s@, c, 0) =~= split_on(s@, c));
    }
    loop
        invariant
            i <= n == s@.len(),
            texts(out@) + split_from(s@, c, i as int) == split_on(s@, c),
        decreases n - i,
    {
        let e: usize = find_char_from(s, c, i);
        let piece = copy_of(slice_subrange(s, i, e));
        let ghost held = texts(out@);
        out.push(piece);
        proof {
            assert(texts(out@) =~= held + seq![piece@]);
            if e < n {
                assert(held + (seq![piece@] + split_from(s@, c, e + 1)) =~= (held + seq![piece@])
                    + split_from(s@, c, e + 1));
            }
        }
        if e >= n {
            return out;
        }
        i = e + 1;
    }
}

proof fn lines_split(a: Seq<char>, b: Seq<char>, i: int)
    requires
        0 <= i <= a.len(),
        i < a.len() ==> a.last() == '\n',
    ensures
        lines_from(a + b, i) == lines_from(a, i) + lines(b),
    decreases a.len() - i,
{
    let s = a + b;
    if i == a.len() {
        lines_from_shifts(a, b, i);
        assert(lines_from(a, i) =~= Seq::empty());
        assert(lines_from(a, i) + lines(b) =~= lines(b));
    } else {
        find_char_bounds(a, '\n', i);
        find_char_bounds(s, '\n', i);
        let e = find_char(a, '\n', i);
        assert(e < a.len()) by {
            if e >= a.len() {
                assert(a[a.len() - 1] != '\n');
            }
        }
        let f = find_char(s, '\n', i);
        assert(f == e) by {
            assert(s[e] == a[e]);
            if f < e {
                assert(s[f] == a[f]);
            }
        }
        assert(s.subrange(i, e) =~= a.subrange(i, e));
        if e > i {
            assert(s.subrange(i, e - 1) =~= a.subrange(i, e - 1));
            assert(s[e - 1] == a[e - 1]);
        }
        lines_split(a, b, e + 1);
        let l = line_at(a, i, e);
        assert(line_at(s, i, e) == l);
        assert(seq![l] + (lines_from(a, e + 1) + lines(b)) =~= (seq![l] + lines_from(a, e + 1))
            + lines(b));
    }
}

/// The lines of two texts, one behind the other, where the first ends with a line.
pub proof fn lines_of_two(a: Seq<char>, b: Seq<char>)
    requires
        a.len() == 0 || a.last() == '\n',
    ensures
        lines(a + b) == lines(a) + lines(b),
{
    lines_split(a, b, 0);
}

proof fn lines_with_feed(s: Seq<char>, i: int)
    requires
        0 <= i < s.len(),
        s.last() != '\n',
        s.last() != '\r',
    ensures
        lines_from(s.push('\n'), i) == lines_from(s, i),
    decreases s.len() - i,
{
    let t = s.push('\n');
    find_char_bounds(s, '\n', i);
    find_char_bounds(t, '\n', i);
    let e = find_char(s, '\n', i);
    let f = find_char(t, '\n', i);
    assert(f == e) by {
        if e < s.len() {
            assert(t[e] == s[e]);
        } else {
            assert(t[s.len() as int] == '\n');
        }
        if f < e {
            assert(t[f] == s[f]);
        }
    }
    assert(t.subrange(i, e) =~= s.subrange(i, e));
    if e < s.len() {
        assert(e + 1 < s.len()) by {
            if e + 1 >= s.len() {
                assert(s.last() == s[e]);
            }
        }
        if e > i {
            assert(t.subrange(i, e - 1) =~= s.subrange(i, e - 1));
        }
        lines_with_feed(s, e + 1);
    } else {
        assert(lines_from(s, e + 1) =~= Seq::empty());
        assert(lines_from(t, e + 1) =~= Seq::empty());
        assert(t[e - 1] == s.last());
    }
}

/// A line feed behind the last line adds no line.
pub proof fn a_closing_line_feed_adds_no_line(s: Seq<char>)
    requires
        s.len() > 0,
        s.last() != '\n',
        s.last() != '\r',
    ensures
        lines(s.push('\n')) == lines(s),
{
    lines_with_feed(s, 0);
}

/// Without the line feeds behind.
pub open spec fn without_feeds(s: Seq<char>) -> Seq<char>
    decreases s.len(),
{
    if s.len() > 0 && s.last() == '\n' {
        without_feeds(s.drop_last())
    } else {
        s
    }
}

} // verus!
