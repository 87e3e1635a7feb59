//! What a reader gets back of a conflict that was written into a file.

use vstd::prelude::*;
use crate::conflict::{
    broken_from, claim_at, closing_at, collision_of, complexity_coded, conflict_at, conflict_end,
    conflicts_from, contested_count, contested_lines, flat_char, header_label, label_kind,
    label_name, label_parts, marker_char, or_empty, punctuation, quoted, refusal_line_of,
    refusal_text, separator_at, skip_punctuation, some_lines, stated_confidence, teach_text,
    teaches, without_parens, without_prefixes, ConflictComplexity, EntityConflictView,
    MarkerFormatView, ParsedView, COLLISION_QUOTE_WIDTH,
};
use crate::diagnose::hunks_of;
use crate::text::{
    back_white, chomped, chomped_lines, decimal, digit, find_char, find_char_bounds, lines,
    lines_hold_no_line_feed, lines_of_two, plain_line, repeat, skip_white, split_from, split_on,
    starts, trim, trim_end, trim_start, unlines, white, written_lines_read_back,
};

verus! {

broadcast use vstd::string::group_string_axioms;

// ---------------------------------------------------------------------------
// Splitting and trimming
// ---------------------------------------------------------------------------

proof fn find_char_first(s: Seq<char>, c: char, i: int, k: int)
    requires
        0 <= i <= k < s.len(),
        s[k] == c,
        forall|m: int| i <= m < k ==> s[m] != c,
    ensures
        find_char(s, c, i) == k,
    decreases k - i,
{
    if i < k {
        find_char_first(s, c, i + 1, k);
    }
}

proof fn find_char_none(s: Seq<char>, c: char, i: int)
    requires
        0 <= i,
        forall|m: int| i <= m < s.len() ==> s[m] != c,
    ensures
        find_char(s, c, i) == s.len(),
    decreases s.len() - i,
{
    if i < s.len() {
        find_char_none(s, c, i + 1);
    }
}

proof fn find_char_shifts(h: Seq<char>, t: Seq<char>, c: char, i: int)
    requires
        h.len() <= i,
    ensures
        find_char(h + t, c, i) == h.len() + find_char(t, c, i - h.len()),
    decreases h.len() + t.len() - i,
{
    if i < h.len() + t.len() {
        assert((h + t)[i] == t[i - h.len()]);
        if t[i - h.len()] != c {
            find_char_shifts(h, t, c, i + 1);
        }
    }
}

proof fn split_shifts(h: Seq<char>, t: Seq<char>, c: char, i: int)
    requires
        h.len() <= i <= h.len() + t.len(),
    ensures
        split_from(h + t, c, i) == split_from(t, c, i - h.len()),
    decreases h.len() + t.len() + 1 - i,
{
    let s = h + t;
    let k = i - h.len();
    find_char_bounds(t, c, k);
    find_char_shifts(h, t, c, i);
    let e = find_char(t, c, k);
    if e < t.len() {
        split_shifts(h, t, c, h.len() + e + 1);
        assert(s.subrange(i, h.len() + e) =~= t.subrange(k, e));
    } else {
        assert(s.subrange(i, s.len() as int) =~= t.subrange(k, t.len() as int));
    }
}

/// A text without the character is one piece.
proof fn split_of_one(s: Seq<char>, c: char)
    requires
        !s.contains(c),
    ensures
        split_on(s, c) == seq![s],
{
    assert forall|m: int| 0 <= m < s.len() implies s[m] != c by {
        assert(s.contains(s[m]));
    }
    find_char_none(s, c, 0);
    assert(s.subrange(0, s.len() as int) =~= s);
}

/// A text without the character, the character, and more.
proof fn split_of_more(a: Seq<char>, c: char, b: Seq<char>)
    requires
        !a.contains(c),
    ensures
        split_on(a + seq![c] + b, c) == seq![a] + split_on(b, c),
{
    let h = a + seq![c];
    let s = h + b;
    let n = a.len() as int;
    assert forall|m: int| 0 <= m < n implies s[m] != c by {
        assert(s[m] == a[m]);
        assert(a.contains(a[m]));
    }
    assert(s[n] == c);
    find_char_first(s, c, 0, n);
    assert(s.subrange(0, n) =~= a);
    split_shifts(h, b, c, n + 1);
}

proof fn skip_white_is(s: Seq<char>, i: int, k: int)
    requires
        0 <= i <= k < s.len(),
        forall|m: int| i <= m < k ==> white(#[trigger] s[m]),
        !white(s[k]),
    ensures
        skip_white(s, i) == k,
    decreases k - i,
{
    if i < k {
        skip_white_is(s, i + 1, k);
    }
}

proof fn back_white_is(s: Seq<char>, j: int, k: int)
    requires
        0 < k <= j <= s.len(),
        forall|m: int| k <= m < j ==> white(#[trigger] s[m]),
        !white(s[k - 1]),
    ensures
        back_white(s, j) == k,
    decreases j - k,
{
    if k < j {
        back_white_is(s, j - 1, k);
    }
}

/// Trimming takes the white space in front and behind, and nothing else.
proof fn trim_is(s: Seq<char>, a: int, b: int)
    requires
        0 <= a < b <= s.len(),
        forall|m: int| 0 <= m < a ==> white(#[trigger] s[m]),
        forall|m: int| b <= m < s.len() ==> white(#[trigger] s[m]),
        !white(s[a]),
        !white(s[b - 1]),
    ensures
        trim(s) == s.subrange(a, b),
{
    skip_white_is(s, 0, a);
    let t = trim_start(s);
    assert(t =~= s.subrange(a, s.len() as int));
    assert forall|m: int| b - a <= m < t.len() implies white(#[trigger] t[m]) by {
        assert(t[m] == s[a + m]);
    }
    assert(t[b - a - 1] == s[b - 1]);
    back_white_is(t, t.len() as int, b - a);
    assert(trim(s) =~= s.subrange(a, b));
}

// ---------------------------------------------------------------------------
// The label
// ---------------------------------------------------------------------------

/// A name that a label can carry: it holds none of the characters that a label is
/// taken apart at.
pub open spec fn tidy(s: Seq<char>) -> bool {
    !s.contains('—') && !s.contains('`') && !s.contains('(')
}

/// A type that a label can carry: such a name, with no white space at its ends.
pub open spec fn tidy_type(s: Seq<char>) -> bool {
    tidy(s) && (s.len() > 0 ==> !white(s[0]) && !white(s.last()))
}

proof fn codes_are_plain(c: ConflictComplexity)
    ensures
        complexity_coded(trim(c.code())) == c,
        c.code().len() > 0,
        forall|i: int|
            0 <= i < c.code().len() ==> #[trigger] c.code()[i] != '—' && c.code()[i] != '`'
                && c.code()[i] != '(' && c.code()[i] != ',' && c.code()[i] != ')'
                && !white(c.code()[i]),
        !starts(trim(c.code()), "confidence:"@),
        c.trust().len() > 0,
        forall|i: int|
            0 <= i < c.trust().len() ==> #[trigger] c.trust()[i] != '—' && c.trust()[i] != '`'
                && c.trust()[i] != '(' && c.trust()[i] != ',' && c.trust()[i] != ')'
                && !white(c.trust()[i]),
{
    reveal_strlit("T");
    reveal_strlit("S");
    reveal_strlit("F");
    reveal_strlit("T+S");
    reveal_strlit("T+F");
    reveal_strlit("S+F");
    reveal_strlit("T+S+F");
    reveal_strlit("?");
    reveal_strlit("high");
    reveal_strlit("medium");
    reveal_strlit("low");
    reveal_strlit("unknown");
    reveal_strlit("confidence:");
    let s = c.code();
    assert forall|i: int| 0 <= i < s.len() implies #[trigger] s[i] != '—' && s[i] != '`' && s[i]
        != '(' && s[i] != ',' && s[i] != ')' && !white(s[i]) by {
    }
    trim_is(s, 0, s.len() as int);
    assert(s.subrange(0, s.len() as int) =~= s);
    assert(s.len() < 11);
    assert("T"@[0] == 'T');
    assert("S"@[0] == 'S');
    assert("F"@[0] == 'F');
    assert("T+S"@[2] == 'S' && "T+S"@[0] == 'T');
    assert("T+F"@[2] == 'F' && "T+F"@[0] == 'T');
    assert("S+F"@[2] == 'F' && "S+F"@[0] == 'S');
    assert("?"@[0] == '?');
}

proof fn no_such_char(s: Seq<char>, c: char)
    requires
        forall|i: int| 0 <= i < s.len() ==> s[i] != c,
    ensures
        !s.contains(c),
{
}

/// The part of a label in its parenthesis.
pub open spec fn label_tail(c: ConflictComplexity) -> Seq<char> {
    c.code() + ", confidence: "@ + c.trust() + ")"@
}

proof fn tail_reads_back(c: ConflictComplexity)
    ensures
        ({
            let t = label_tail(c);
            let parts = split_on(without_parens(t), ',');
            &&& complexity_coded(trim(parts[0])) == c
            &&& stated_confidence(parts, 0) == c.trust()
            &&& !t.contains('(')
            &&& !t.contains('`')
            &&& !t.contains('—')
            &&& t.len() > 0
            &&& t.last() == ')'
        }),
{
    reveal_strlit(", confidence: ");
    reveal_strlit(")");
    reveal_strlit("confidence:");
    codes_are_plain(c);
    let code = c.code();
    let trust = c.trust();
    let t = label_tail(c);
    let n = code.len() as int;
    assert forall|i: int| 0 <= i < t.len() implies t[i] != '(' && t[i] != '`' && t[i] != '—' by {
        if i < n {
            assert(t[i] == code[i]);
        } else if i < n + 14 {
            assert(t[i] == ", confidence: "@[i - n]);
        } else if i < n + 14 + trust.len() {
            assert(t[i] == trust[i - n - 14]);
        } else {
            assert(t[i] == ')');
        }
    }
    let inner = code + ", confidence: "@ + trust;
    assert(t.drop_last() =~= inner);
    assert(inner.last() == trust[trust.len() - 1]);
    assert(without_parens(inner) == inner);
    assert(without_parens(t) == inner);
    let second = " confidence: "@ + trust;
    reveal_strlit(" confidence: ");
    assert(inner =~= code + seq![','] + second);
    no_such_char(code, ',');
    split_of_more(code, ',', second);
    assert forall|i: int| 0 <= i < second.len() implies second[i] != ',' by {
        if i < 13 {
            assert(second[i] == " confidence: "@[i]);
        } else {
            assert(second[i] == trust[i - 13]);
        }
    }
    split_of_one(second, ',');
    let parts = split_on(inner, ',');
    assert(parts =~= seq![code, second]);
    assert(parts[0] == code);
    assert(parts[1] == second);
    let m = second.len() as int;
    assert(second[0] == ' ');
    assert(second[1] == 'c');
    assert(second[m - 1] == trust[trust.len() - 1]);
    trim_is(second, 1, m);
    let body = second.subrange(1, m);
    assert(body =~= "confidence:"@ + (seq![' '] + trust));
    assert(body.subrange(0, 11) =~= "confidence:"@);
    assert(starts(body, "confidence:"@));
    let rest = seq![' '] + trust;
    assert(body.subrange(11, body.len() as int) =~= rest);
    assert(!starts(rest, "confidence:"@)) by {
        if starts(rest, "confidence:"@) {
            assert(rest.subrange(0, 11)[0] == "confidence:"@[0]);
        }
    }
    assert(without_prefixes(rest, "confidence:"@) == rest);
    assert(without_prefixes(body, "confidence:"@) == rest);
    trim_is(rest, 1, rest.len() as int);
    assert(rest.subrange(1, rest.len() as int) =~= trust);
    reveal_with_fuel(stated_confidence, 3);
}

/// What a header says is read back off it.
proof fn header_reads_back(c: EntityConflictView)
    requires
        tidy_type(c.entity_type),
        tidy(c.entity_name),
    ensures
        ({
            let h = repeat('<', 7) + " ours — "@ + c.label();
            let l = header_label(h);
            &&& label_kind(l) == c.entity_type
            &&& label_name(l) == c.entity_name
            &&& complexity_coded(trim(label_parts(l)[0])) == c.complexity
            &&& stated_confidence(label_parts(l), 0) == c.complexity.trust()
        }),
{
    reveal_strlit(" ours — ");
    reveal_strlit(" `");
    reveal_strlit("` (");
    reveal_strlit(", confidence: ");
    reveal_strlit(")");
    tail_reads_back(c.complexity);
    let tail = label_tail(c.complexity);
    let ty = c.entity_type;
    let name = c.entity_name;
    let label = c.label();
    assert(label =~= ty + " `"@ + name + "` ("@ + tail);
    let n = ty.len() as int;
    let m = name.len() as int;
    // the dash
    let h = repeat('<', 7) + " ours — "@ + label;
    let front = repeat('<', 7) + " ours "@;
    reveal_strlit(" ours ");
    assert forall|i: int| 0 <= i < front.len() implies front[i] != '—' by {
        if i >= 7 {
            assert(front[i] == " ours "@[i - 7]);
        }
    }
    assert(label_has_no(label, ty, name, tail, '—'));
    label_lacks(label, ty, name, tail, '—');
    let behind = seq![' '] + label;
    assert(h =~= front + seq!['—'] + behind);
    split_of_more(front, '—', behind);
    assert forall|i: int| 0 <= i < behind.len() implies behind[i] != '—' by {
        if i > 0 {
            assert(behind[i] == label[i - 1]);
            assert(label.contains(label[i - 1]));
        }
    }
    split_of_one(behind, '—');
    let parts = split_on(h, '—');
    assert(parts =~= seq![front, behind]);
    assert(parts[1] == behind);
    assert(label.last() == ')') by {
        assert(label[label.len() - 1] == tail[tail.len() - 1]);
    }
    assert(behind[behind.len() - 1] == ')');
    let kind = if n > 0 {
        ty + seq![' ']
    } else {
        ty
    };
    let after = name + "` ("@ + tail;
    let l = kind + seq!['`'] + after;
    if n > 0 {
        assert(behind[1] == ty[0]);
        trim_is(behind, 1, behind.len() as int);
        assert(behind.subrange(1, behind.len() as int) =~= l);
    } else {
        assert(behind[1] == ' ' && behind[2] == '`');
        trim_is(behind, 2, behind.len() as int);
        assert(behind.subrange(2, behind.len() as int) =~= l);
    }
    assert(header_label(h) == l);
    // the backticks
    assert forall|i: int| 0 <= i < kind.len() implies kind[i] != '`' by {
        if i < n {
            assert(kind[i] == ty[i]);
            assert(ty.contains(ty[i]));
        }
    }
    split_of_more(kind, '`', after);
    let last = " ("@ + tail;
    reveal_strlit(" (");
    assert(after =~= name + seq!['`'] + last);
    split_of_more(name, '`', last);
    let ticks = split_on(l, '`');
    assert(ticks[0] == kind);
    assert(split_on(after, '`')[0] == name);
    assert(ticks[1] == name);
    assert(ticks.len() > 1) by {
        assert(split_on(after, '`').len() > 0);
    }
    if n > 0 {
        assert(kind[n - 1] == ty[n - 1]);
        trim_is(kind, 0, n);
        assert(kind.subrange(0, n) =~= ty);
    } else {
        assert(trim(kind) =~= ty);
    }
    // the parenthesis
    let k = kind.len() as int;
    let lead = kind + seq!['`'] + name + "` "@;
    reveal_strlit("` ");
    assert(l =~= lead + seq!['('] + tail);
    assert forall|i: int| 0 <= i < lead.len() implies lead[i] != '(' by {
        if i < n {
            assert(lead[i] == ty[i]);
            assert(ty.contains(ty[i]));
        } else if i < k {
            assert(lead[i] == ' ');
        } else if i == k {
            assert(lead[i] == '`');
        } else if i < k + 1 + m {
            assert(lead[i] == name[i - k - 1]);
            assert(name.contains(name[i - k - 1]));
        } else {
            assert(lead[i] == "` "@[i - k - 1 - m]);
        }
    }
    split_of_more(lead, '(', tail);
    split_of_one(tail, '(');
    let parens = split_on(l, '(');
    assert(parens =~= seq![lead, tail]);
    assert(parens.last() == tail);
}

/// The label is made of parts that lack the character.
spec fn label_has_no(
    label: Seq<char>,
    ty: Seq<char>,
    name: Seq<char>,
    tail: Seq<char>,
    c: char,
) -> bool {
    !ty.contains(c) && !name.contains(c) && !tail.contains(c)
}

proof fn label_lacks(label: Seq<char>, ty: Seq<char>, name: Seq<char>, tail: Seq<char>, c: char)
    requires
        label == ty + " `"@ + name + "` ("@ + tail,
        label_has_no(label, ty, name, tail, c),
        c == '—',
    ensures
        !label.contains(c),
{
    reveal_strlit(" `");
    reveal_strlit("` (");
    let n = ty.len() as int;
    let m = name.len() as int;
    assert forall|i: int| 0 <= i < label.len() implies label[i] != c by {
        if i < n {
            assert(label[i] == ty[i]);
            assert(ty.contains(ty[i]));
        } else if i < n + 2 {
            assert(label[i] == " `"@[i - n]);
        } else if i < n + 2 + m {
            assert(label[i] == name[i - n - 2]);
            assert(name.contains(name[i - n - 2]));
        } else if i < n + 2 + m + 3 {
            assert(label[i] == "` ("@[i - n - 2 - m]);
        } else {
            assert(label[i] == tail[i - n - 5 - m]);
            assert(tail.contains(tail[i - n - 5 - m]));
        }
    }
}

// ---------------------------------------------------------------------------
// The refusal line
// ---------------------------------------------------------------------------

/// A comment prefix that a refusal line is recognised behind: punctuation, at least
/// one.
pub open spec fn tidy_prefix(p: Seq<char>) -> bool {
    p.len() > 0 && forall|i: int| 0 <= i < p.len() ==> punctuation(#[trigger] p[i])
}

proof fn skip_punctuation_is(s: Seq<char>, i: int, k: int)
    requires
        0 <= i <= k < s.len(),
        forall|m: int| i <= m < k ==> punctuation(#[trigger] s[m]),
        !punctuation(s[k]),
    ensures
        skip_punctuation(s, i) == k,
    decreases k - i,
{
    if i < k {
        skip_punctuation_is(s, i + 1, k);
    }
}

/// What a refusal line says is read back off it.
pub proof fn refusal_reads_back(prefix: Seq<char>, body: Seq<char>)
    requires
        tidy_prefix(prefix),
    ensures
        refusal_text(prefix + " refused_by: "@ + body) == Some(body),
{
    reveal_strlit(" refused_by: ");
    reveal_strlit("refused_by: ");
    let line = prefix + " refused_by: "@ + body;
    let n = prefix.len() as int;
    assert forall|m: int| 0 <= m < n implies punctuation(#[trigger] line[m]) by {
        assert(line[m] == prefix[m]);
    }
    assert(line[n] == ' ');
    skip_punctuation_is(line, 0, n);
    let rest = line.subrange(n, line.len() as int);
    assert(rest[0] == ' ');
    assert(rest[1] == 'r');
    skip_white_is(rest, 0, 1);
    let t = trim_start(rest);
    assert(t =~= "refused_by: "@ + body);
    assert(t.subrange(0, 12) =~= "refused_by: "@);
    assert(t.subrange(12, t.len() as int) =~= body);
}

/// A written teach line is recognised as one, in every language whose comments start
/// with punctuation.
pub proof fn a_teach_line_is_recognised(prefix: Seq<char>, file_path: Seq<char>)
    requires
        tidy_prefix(prefix),
    ensures
        teaches(teach_text(prefix, file_path)),
{
    let mark = "weave: run 'weave explain "@;
    let tail = "' for per-hunk detail, 'weave check' to verify your resolution"@;
    reveal_strlit(" ");
    reveal_strlit("weave: run 'weave explain ");
    let line = teach_text(prefix, file_path);
    let n = prefix.len() as int;
    assert forall|m: int| 0 <= m < n implies punctuation(#[trigger] line[m]) by {
        assert(line[m] == prefix[m]);
    }
    assert(line[n] == ' ');
    skip_punctuation_is(line, 0, n);
    let rest = line.subrange(n, line.len() as int);
    assert(rest[0] == ' ');
    assert(rest[1] == mark[0]);
    skip_white_is(rest, 0, 1);
    let t = trim_start(rest);
    assert(t =~= mark + file_path + tail);
    assert(t.subrange(0, mark.len() as int) =~= mark);
}

// ---------------------------------------------------------------------------
// The box
// ---------------------------------------------------------------------------

/// Does the line open a box that a reader of conflicts sees?
pub open spec fn opener(l: Seq<char>) -> bool {
    starts(l, "<<<<<<< ours"@)
}

/// Does none of the lines open a box?
pub open spec fn no_openers(v: Seq<Seq<char>>) -> bool {
    forall|i: int| 0 <= i < v.len() ==> !opener(#[trigger] v[i])
}

proof fn separator_shifts(h: Seq<Seq<char>>, t: Seq<Seq<char>>, i: int)
    requires
        h.len() <= i,
    ensures
        separator_at(h + t, i) == h.len() + separator_at(t, i - h.len()),
    decreases h.len() + t.len() - i,
{
    if i < h.len() + t.len() {
        assert((h + t)[i] == t[i - h.len()]);
        separator_shifts(h, t, i + 1);
    }
}

proof fn closing_shifts(h: Seq<Seq<char>>, t: Seq<Seq<char>>, i: int)
    requires
        h.len() <= i,
    ensures
        closing_at(h + t, i) == h.len() + closing_at(t, i - h.len()),
    decreases h.len() + t.len() - i,
{
    if i < h.len() + t.len() {
        assert((h + t)[i] == t[i - h.len()]);
        closing_shifts(h, t, i + 1);
    }
}

proof fn separator_bounds(ls: Seq<Seq<char>>, i: int)
    requires
        0 <= i,
    ensures
        i <= separator_at(ls, i),
        i <= ls.len() ==> separator_at(ls, i) <= ls.len(),
    decreases ls.len() - i,
{
    if i < ls.len() && ls[i] != "======="@ {
        separator_bounds(ls, i + 1);
    }
}

proof fn closing_bounds(ls: Seq<Seq<char>>, i: int)
    requires
        0 <= i,
    ensures
        i <= closing_at(ls, i),
        i <= ls.len() ==> closing_at(ls, i) <= ls.len(),
    decreases ls.len() - i,
{
    if i < ls.len() && !starts(ls[i], ">>>>>>> theirs"@) {
        closing_bounds(ls, i + 1);
    }
}

proof fn conflict_shifts(h: Seq<Seq<char>>, t: Seq<Seq<char>>, i: int)
    requires
        h.len() <= i < h.len() + t.len(),
    ensures
        conflict_at(h + t, i) == conflict_at(t, i - h.len()),
        conflict_end(h + t, i) == h.len() + conflict_end(t, i - h.len()),
{
    let s = h + t;
    let n = h.len() as int;
    let k = i - n;
    assert(s[i] == t[k]);
    if k + 1 < t.len() {
        assert(s[i + 1] == t[k + 1]);
    }
    let a = claim_at(t, k);
    assert(claim_at(s, i) == n + a);
    separator_shifts(h, t, n + a);
    separator_bounds(t, a);
    let p = separator_at(t, a);
    closing_shifts(h, t, n + p + 1);
    closing_bounds(t, p + 1);
    let q = closing_at(t, p + 1);
    assert(some_lines(s, n + a, n + p) =~= some_lines(t, a, p));
    assert(some_lines(s, n + p + 1, n + q) =~= some_lines(t, p + 1, q));
}

proof fn conflicts_shift(h: Seq<Seq<char>>, t: Seq<Seq<char>>, i: int)
    requires
        h.len() <= i,
    ensures
        conflicts_from(h + t, i) == conflicts_from(t, i - h.len()),
    decreases h.len() + t.len() + 3 - i,
{
    let s = h + t;
    let n = h.len() as int;
    if i < s.len() {
        assert(s[i] == t[i - n]);
        if opener(s[i]) {
            conflict_shifts(h, t, i);
            separator_bounds(t, claim_at(t, i - n));
            closing_bounds(t, separator_at(t, claim_at(t, i - n)) + 1);
            conflicts_shift(h, t, conflict_end(s, i));
        } else {
            conflicts_shift(h, t, i + 1);
        }
    }
}

/// Lines that open no box hold no conflict.
proof fn lines_without_a_box(v: Seq<Seq<char>>, t: Seq<Seq<char>>, i: int)
    requires
        no_openers(v),
        0 <= i <= v.len(),
    ensures
        conflicts_from(v + t, i) == conflicts_from(t, 0),
    decreases v.len() - i,
{
    if i < v.len() {
        assert((v + t)[i] == v[i]);
        lines_without_a_box(v, t, i + 1);
    } else {
        conflicts_shift(v, t, i);
    }
}

proof fn separator_is(ls: Seq<Seq<char>>, i: int, k: int)
    requires
        0 <= i <= k < ls.len(),
        ls[k] == "======="@,
        forall|m: int| i <= m < k ==> #[trigger] ls[m] != "======="@,
    ensures
        separator_at(ls, i) == k,
    decreases k - i,
{
    if i < k {
        separator_is(ls, i + 1, k);
    }
}

proof fn closing_is(ls: Seq<Seq<char>>, i: int, k: int)
    requires
        0 <= i <= k < ls.len(),
        starts(ls[k], ">>>>>>> theirs"@),
        forall|m: int| i <= m < k ==> !starts(#[trigger] ls[m], ">>>>>>> theirs"@),
    ensures
        closing_at(ls, i) == k,
    decreases k - i,
{
    if i < k {
        closing_is(ls, i + 1, k);
    }
}

/// A box with its header, its refusal line and its two claims.
pub open spec fn box_lines(
    open: Seq<char>,
    refusal: Seq<char>,
    ours: Seq<Seq<char>>,
    theirs: Seq<Seq<char>>,
    close: Seq<char>,
) -> Seq<Seq<char>> {
    seq![open, refusal] + ours + seq!["======="@] + theirs + seq![close]
}

proof fn separator_is_found(ls: Seq<Seq<char>>, i: int, k: int)
    requires
        0 <= i <= k < ls.len(),
        ls[k] == "======="@,
    ensures
        i <= separator_at(ls, i) <= k,
        ls[separator_at(ls, i)] == "======="@,
        forall|m: int| i <= m < separator_at(ls, i) ==> #[trigger] ls[m] != "======="@,
    decreases k - i,
{
    if ls[i] != "======="@ {
        separator_is_found(ls, i + 1, k);
    }
}

/// The lines between the head of a box and the line that closes it.
pub open spec fn claims(ours: Seq<Seq<char>>, theirs: Seq<Seq<char>>) -> Seq<Seq<char>> {
    ours + seq!["======="@] + theirs
}

/// No line closes the box behind the first one that separates.
pub open spec fn closes_late(ours: Seq<Seq<char>>, theirs: Seq<Seq<char>>) -> bool {
    let all = claims(ours, theirs);
    forall|k: int|
        separator_at(all, 0) < k < all.len() ==> !starts(#[trigger] all[k], ">>>>>>> theirs"@)
}

proof fn a_box_is_one_conflict(
    open: Seq<char>,
    refusal: Seq<char>,
    ours: Seq<Seq<char>>,
    theirs: Seq<Seq<char>>,
    close: Seq<char>,
    t: Seq<Seq<char>>,
)
    requires
        opener(open),
        refusal_text(refusal) is Some,
        starts(close, ">>>>>>> theirs"@),
        closes_late(ours, theirs),
    ensures
        ({
            let l = header_label(open);
            let all = claims(ours, theirs);
            let p = separator_at(all, 0);
            conflicts_from(box_lines(open, refusal, ours, theirs, close) + t, 0) == seq![
                ParsedView {
                    entity_name: label_name(l),
                    entity_kind: label_kind(l),
                    complexity: complexity_coded(trim(label_parts(l)[0])),
                    confidence: stated_confidence(label_parts(l), 0),
                    refusal: refusal_text(refusal)->0,
                    ours_content: unlines(all.take(p)),
                    theirs_content: unlines(all.skip(p + 1)),
                },
            ] + conflicts_from(t, 0)
        }),
{
    let b = box_lines(open, refusal, ours, theirs, close);
    let ls = b + t;
    let all = claims(ours, theirs);
    let n = all.len() as int;
    assert(b =~= seq![open, refusal] + all + seq![close]);
    assert(ls[0] == open);
    assert(ls[1] == refusal);
    assert(claim_at(ls, 0) == 2);
    assert(all[ours.len() as int] == "======="@);
    separator_is_found(all, 0, ours.len() as int);
    let p = separator_at(all, 0);
    assert forall|k: int| 2 <= k < 2 + p implies #[trigger] ls[k] != "======="@ by {
        assert(ls[k] == all[k - 2]);
    }
    assert(ls[2 + p] == all[p]);
    separator_is(ls, 2, 2 + p);
    assert forall|k: int| 3 + p <= k < 2 + n implies !starts(
        #[trigger] ls[k],
        ">>>>>>> theirs"@,
    ) by {
        assert(ls[k] == all[k - 2]);
    }
    assert(ls[2 + n] == close);
    closing_is(ls, 3 + p, 2 + n);
    assert(some_lines(ls, 2, 2 + p) =~= all.take(p));
    assert(some_lines(ls, 3 + p, 2 + n) =~= all.skip(p + 1));
    assert(conflict_end(ls, 0) == b.len());
    conflicts_shift(b, t, b.len() as int);
}

/// A conflict that can be read back: its name and type hold none of the characters
/// that a header is taken apart at, what its header and refusal line say stands on
/// one line, no line of the frame around the box opens one, and no line of a claim
/// closes it.
pub open spec fn readable(c: EntityConflictView, fmt: MarkerFormatView, guard: Seq<char>) -> bool {
    let s = c.sides(true);
    &&& fmt.enhanced
    &&& fmt.marker_length == 7
    &&& tidy_prefix(fmt.comment_prefix)
    &&& tidy_type(c.entity_type)
    &&& tidy(c.entity_name)
    &&& !c.entity_type.contains('\n')
    &&& !c.entity_name.contains('\n')
    &&& !guard.contains('\n')
    &&& no_openers(s.frame_prefix())
    &&& no_openers(s.frame_suffix())
    &&& closes_late(chomped_lines(s.hole(s.ours->0)), chomped_lines(s.hole(s.theirs->0)))
}

/// What is read back of a conflict: who it is about, how hard it is, why it was
/// refused, and what stands on either side of the first line that separates. A carriage
/// return at the end of a line belongs to the line feed behind it.
pub open spec fn read_back(c: EntityConflictView, guard: Seq<char>) -> ParsedView {
    let s = c.sides(true);
    let all = claims(chomped_lines(s.hole(s.ours->0)), chomped_lines(s.hole(s.theirs->0)));
    let p = separator_at(all, 0);
    ParsedView {
        entity_name: c.entity_name,
        entity_kind: c.entity_type,
        complexity: c.complexity,
        confidence: c.complexity.trust(),
        refusal: guard + " · collision: "@ + collision_of(c.base, c.ours, c.theirs),
        ours_content: unlines(all.take(p)),
        theirs_content: unlines(all.skip(p + 1)),
    }
}

/// Where no line of our claim separates, each side's own lines are read back.
pub proof fn the_claims_are_read_back(c: EntityConflictView, guard: Seq<char>)
    requires
        ({
            let s = c.sides(true);
            let ours = chomped_lines(s.hole(s.ours->0));
            forall|i: int| 0 <= i < ours.len() ==> #[trigger] ours[i] != "======="@
        }),
    ensures
        ({
            let s = c.sides(true);
            &&& read_back(c, guard).ours_content == unlines(chomped_lines(s.hole(s.ours->0)))
            &&& read_back(c, guard).theirs_content == unlines(chomped_lines(s.hole(s.theirs->0)))
        }),
{
    let s = c.sides(true);
    let ours = chomped_lines(s.hole(s.ours->0));
    let theirs = chomped_lines(s.hole(s.theirs->0));
    let all = claims(ours, theirs);
    let n = ours.len() as int;
    assert(all[n] == "======="@);
    assert forall|m: int| 0 <= m < n implies #[trigger] all[m] != "======="@ by {
        assert(all[m] == ours[m]);
    }
    separator_is(all, 0, n);
    assert(all.take(n) =~= ours);
    assert(all.skip(n + 1) =~= theirs);
}

/// The header of a written conflict.
pub open spec fn header_line(c: EntityConflictView) -> Seq<char> {
    repeat('<', 7) + " ours — "@ + c.label()
}

/// The line that closes a written conflict.
pub open spec fn footer_line(c: EntityConflictView) -> Seq<char> {
    repeat('>', 7) + " theirs — "@ + c.label()
}

/// The box of a written conflict.
pub open spec fn written_box(c: EntityConflictView, fmt: MarkerFormatView, guard: Seq<char>) -> Seq<
    Seq<char>,
> {
    let s = c.sides(true);
    box_lines(
        header_line(c),
        refusal_line_of(fmt.comment_prefix, guard, c.base, c.ours, c.theirs),
        s.hole(s.ours->0),
        s.hole(s.theirs->0),
        footer_line(c),
    )
}

proof fn markers_are_a_box(c: EntityConflictView, fmt: MarkerFormatView, guard: Seq<char>)
    requires
        fmt.enhanced,
        fmt.marker_length == 7,
    ensures
        c.marker_lines(fmt, guard) == c.sides(true).frame_prefix() + written_box(c, fmt, guard)
            + c.sides(true).frame_suffix(),
{
    let s = c.sides(true);
    let refusal = refusal_line_of(fmt.comment_prefix, guard, c.base, c.ours, c.theirs);
    reveal_strlit("=======");
    assert(repeat('=', 7) =~= "======="@);
    assert(c.opening(fmt, guard) == seq![header_line(c), refusal]);
    assert(c.closing(fmt) == footer_line(c));
    assert(c.base_section(fmt) == Seq::<Seq<char>>::empty());
    let fp = s.frame_prefix();
    let fs = s.frame_suffix();
    let ours = s.hole(s.ours->0);
    let theirs = s.hole(s.theirs->0);
    let two = seq![header_line(c), refusal];
    let bar = seq!["======="@];
    let end = seq![footer_line(c)];
    assert(fp + two + ours + Seq::<Seq<char>>::empty() + bar + theirs + end + fs =~= fp + (two + ours
        + bar + theirs + end) + fs);
}

proof fn box_marks(c: EntityConflictView)
    ensures
        opener(header_line(c)),
        starts(footer_line(c), ">>>>>>> theirs"@),
{
    reveal_strlit("<<<<<<< ours");
    reveal_strlit(" ours — ");
    reveal_strlit(">>>>>>> theirs");
    reveal_strlit(" theirs — ");
    assert(header_line(c).subrange(0, 12) =~= "<<<<<<< ours"@);
    assert(footer_line(c).subrange(0, 14) =~= ">>>>>>> theirs"@);
}

proof fn sum_lacks(a: Seq<char>, b: Seq<char>, c: char)
    requires
        !a.contains(c),
        !b.contains(c),
    ensures
        !(a + b).contains(c),
{
    if (a + b).contains(c) {
        let k = choose|k: int| 0 <= k < (a + b).len() && (a + b)[k] == c;
        if k < a.len() {
            assert(a[k] == c);
        } else {
            assert(b[k - a.len()] == c);
        }
    }
}

proof fn a_break_adds_no_line_feed(s: Seq<char>, i: int, run: nat, prev: char)
    requires
        !s.contains('\n'),
        0 <= i,
    ensures
        !broken_from(s, i, run, prev).contains('\n'),
    decreases s.len() - i,
{
    if i < s.len() {
        let c = s[i];
        assert(s.contains(c));
        let now = if c == prev {
            run + 1
        } else {
            1
        };
        if now >= 7 && marker_char(c) {
            a_break_adds_no_line_feed(s, i + 1, 1, c);
            sum_lacks(seq![' ', c], broken_from(s, i + 1, 1, c), '\n');
        } else {
            a_break_adds_no_line_feed(s, i + 1, now, c);
            sum_lacks(seq![c], broken_from(s, i + 1, now, c), '\n');
        }
    }
}

proof fn a_quote_is_one_line(line: Seq<char>)
    ensures
        !quoted(line).contains('\n'),
{
    let flat = trim_end(line).map_values(|c: char| flat_char(c));
    assert(!flat.contains('\n')) by {
        if flat.contains('\n') {
            let k = choose|k: int| 0 <= k < flat.len() && flat[k] == '\n';
            assert(flat[k] == flat_char(trim_end(line)[k]));
        }
    }
    a_break_adds_no_line_feed(flat, 0, 0, '\0');
    let safe = broken_from(flat, 0, 0, '\0');
    if safe.len() > COLLISION_QUOTE_WIDTH {
        let head = safe.subrange(0, COLLISION_QUOTE_WIDTH - 1);
        assert(!head.contains('\n')) by {
            if head.contains('\n') {
                let k = choose|k: int| 0 <= k < head.len() && head[k] == '\n';
                assert(safe[k] == '\n');
            }
        }
        reveal_strlit("…");
        no_such_char("…"@, '\n');
        sum_lacks(head, "…"@, '\n');
    }
}

proof fn a_number_is_one_line(n: nat)
    ensures
        !decimal(n).contains('\n'),
        decimal(n).len() > 0,
    decreases n,
{
    if n >= 10 {
        a_number_is_one_line(n / 10);
        let front = decimal(n / 10);
        let last = seq![digit((n % 10) as int)];
        assert(front.push(digit((n % 10) as int)) =~= front + last);
        no_such_char(last, '\n');
        sum_lacks(front, last, '\n');
    } else {
        no_such_char(decimal(n), '\n');
    }
}

/// What a refusal line says of the collision stands on one line, and that line ends
/// with no carriage return.
proof fn a_collision_is_one_line(
    base: Option<Seq<char>>,
    ours: Option<Seq<char>>,
    theirs: Option<Seq<char>>,
)
    ensures
        !collision_of(base, ours, theirs).contains('\n'),
        collision_of(base, ours, theirs).len() > 0,
        collision_of(base, ours, theirs).last() != '\r',
{
    reveal_strlit("`");
    reveal_strlit(" +");
    reveal_strlit(" more");
    reveal_strlit("none (both sides edited, nowhere the same lines)");
    reveal_strlit("none (");
    reveal_strlit(" contested hunk(s), neither side deleted the other's lines)");
    reveal_strlit("none (no common ancestor text)");
    no_such_char("`"@, '\n');
    no_such_char(" +"@, '\n');
    no_such_char(" more"@, '\n');
    no_such_char("none (both sides edited, nowhere the same lines)"@, '\n');
    no_such_char("none ("@, '\n');
    no_such_char(" contested hunk(s), neither side deleted the other's lines)"@, '\n');
    no_such_char("none (no common ancestor text)"@, '\n');
    if base is Some && ours is Some && theirs is Some {
        let hs = hunks_of(base->0, ours->0, theirs->0);
        let n = contested_count(hs, hs.len() as int);
        let ls = contested_lines(hs, hs.len() as int);
        if ls.len() > 0 {
            a_quote_is_one_line(ls[0]);
            sum_lacks("`"@, quoted(ls[0]), '\n');
            sum_lacks("`"@ + quoted(ls[0]), "`"@, '\n');
            let more = (ls.len() - 1) as nat;
            a_number_is_one_line(more);
            sum_lacks(" +"@, decimal(more), '\n');
            sum_lacks(" +"@ + decimal(more), " more"@, '\n');
            if ls.len() > 1 {
                sum_lacks(
                    "`"@ + quoted(ls[0]) + "`"@,
                    " +"@ + decimal(more) + " more"@,
                    '\n',
                );
            } else {
                assert("`"@ + quoted(ls[0]) + "`"@ + Seq::<char>::empty() =~= "`"@ + quoted(ls[0])
                    + "`"@);
            }
        } else if n > 0 {
            a_number_is_one_line(n);
            sum_lacks("none ("@, decimal(n), '\n');
            sum_lacks(
                "none ("@ + decimal(n),
                " contested hunk(s), neither side deleted the other's lines)"@,
                '\n',
            );
        }
    }
}

/// The lines that a box is held together by read back as themselves.
proof fn the_furniture_is_plain(c: EntityConflictView, fmt: MarkerFormatView, guard: Seq<char>)
    requires
        tidy_prefix(fmt.comment_prefix),
        !c.entity_type.contains('\n'),
        !c.entity_name.contains('\n'),
        !guard.contains('\n'),
    ensures
        plain_line(header_line(c)),
        plain_line(footer_line(c)),
        plain_line(refusal_line_of(fmt.comment_prefix, guard, c.base, c.ours, c.theirs)),
        plain_line("======="@),
{
    reveal_strlit(" ours — ");
    reveal_strlit(" theirs — ");
    reveal_strlit(" `");
    reveal_strlit("` (");
    reveal_strlit(", confidence: ");
    reveal_strlit(")");
    reveal_strlit("=======");
    reveal_strlit(" refused_by: ");
    reveal_strlit(" · collision: ");
    no_such_char(" ours — "@, '\n');
    no_such_char(" theirs — "@, '\n');
    no_such_char(" `"@, '\n');
    no_such_char("` ("@, '\n');
    no_such_char(", confidence: "@, '\n');
    no_such_char(")"@, '\n');
    no_such_char("======="@, '\n');
    no_such_char(" refused_by: "@, '\n');
    no_such_char(" · collision: "@, '\n');
    no_such_char(repeat('<', 7), '\n');
    no_such_char(repeat('>', 7), '\n');
    codes_are_plain(c.complexity);
    let code = c.complexity.code();
    let trust = c.complexity.trust();
    assert forall|i: int| 0 <= i < code.len() implies code[i] != '\n' by {
        assert(!white(code[i]));
    }
    assert forall|i: int| 0 <= i < trust.len() implies trust[i] != '\n' by {
        assert(!white(trust[i]));
    }
    let l1 = c.entity_type + " `"@;
    let l2 = l1 + c.entity_name;
    let l3 = l2 + "` ("@;
    let l4 = l3 + code;
    let l5 = l4 + ", confidence: "@;
    let l6 = l5 + trust;
    sum_lacks(c.entity_type, " `"@, '\n');
    sum_lacks(l1, c.entity_name, '\n');
    sum_lacks(l2, "` ("@, '\n');
    sum_lacks(l3, code, '\n');
    sum_lacks(l4, ", confidence: "@, '\n');
    sum_lacks(l5, trust, '\n');
    sum_lacks(l6, ")"@, '\n');
    assert(c.label() == l6 + ")"@);
    sum_lacks(repeat('<', 7), " ours — "@, '\n');
    sum_lacks(repeat('<', 7) + " ours — "@, c.label(), '\n');
    sum_lacks(repeat('>', 7), " theirs — "@, '\n');
    sum_lacks(repeat('>', 7) + " theirs — "@, c.label(), '\n');
    assert(header_line(c).last() == ')');
    assert(footer_line(c).last() == ')');
    let p = fmt.comment_prefix;
    let told = collision_of(c.base, c.ours, c.theirs);
    a_collision_is_one_line(c.base, c.ours, c.theirs);
    assert forall|i: int| 0 <= i < p.len() implies p[i] != '\n' by {
        assert(punctuation(p[i]));
    }
    sum_lacks(p, " refused_by: "@, '\n');
    sum_lacks(p + " refused_by: "@, guard, '\n');
    sum_lacks(p + " refused_by: "@ + guard, " · collision: "@, '\n');
    sum_lacks(p + " refused_by: "@ + guard + " · collision: "@, told, '\n');
}

/// A plain line reads back as itself, and what opens no box does not when it is read
/// back.
proof fn chomping_opens_nothing(v: Seq<Seq<char>>)
    requires
        no_openers(v),
    ensures
        no_openers(chomped_lines(v)),
{
    assert forall|i: int| 0 <= i < chomped_lines(v).len() implies !opener(
        #[trigger] chomped_lines(v)[i],
    ) by {
        let l = chomped_lines(v)[i];
        assert(l == chomped(v[i]));
        if opener(l) {
            let n = "<<<<<<< ours"@.len() as int;
            assert(v[i].subrange(0, n) =~= l.subrange(0, n));
        }
    }
}

/// The box as it reads back.
spec fn read_box(c: EntityConflictView, fmt: MarkerFormatView, guard: Seq<char>) -> Seq<Seq<char>> {
    let s = c.sides(true);
    box_lines(
        header_line(c),
        refusal_line_of(fmt.comment_prefix, guard, c.base, c.ours, c.theirs),
        chomped_lines(s.hole(s.ours->0)),
        chomped_lines(s.hole(s.theirs->0)),
        footer_line(c),
    )
}

proof fn written_box_is_read(
    c: EntityConflictView,
    fmt: MarkerFormatView,
    guard: Seq<char>,
    t: Seq<Seq<char>>,
)
    requires
        readable(c, fmt, guard),
    ensures
        conflicts_from(read_box(c, fmt, guard) + t, 0) == seq![read_back(c, guard)]
            + conflicts_from(t, 0),
{
    let s = c.sides(true);
    let body = guard + " · collision: "@ + collision_of(c.base, c.ours, c.theirs);
    let refusal = refusal_line_of(fmt.comment_prefix, guard, c.base, c.ours, c.theirs);
    refusal_reads_back(fmt.comment_prefix, body);
    assert(refusal =~= fmt.comment_prefix + " refused_by: "@ + body);
    box_marks(c);
    header_reads_back(c);
    a_box_is_one_conflict(
        header_line(c),
        refusal,
        chomped_lines(s.hole(s.ours->0)),
        chomped_lines(s.hole(s.theirs->0)),
        footer_line(c),
        t,
    );
}

proof fn written_lines_are_lines(c: EntityConflictView)
    ensures
        ({
            let s = c.sides(true);
            &&& forall|i: int|
                0 <= i < s.frame_prefix().len() ==> !(#[trigger] s.frame_prefix()[i]).contains('\n')
            &&& forall|i: int|
                0 <= i < s.frame_suffix().len() ==> !(#[trigger] s.frame_suffix()[i]).contains('\n')
            &&& forall|i: int|
                0 <= i < s.hole(s.ours->0).len() ==> !(#[trigger] s.hole(s.ours->0)[i]).contains(
                    '\n',
                )
            &&& forall|i: int|
                0 <= i < s.hole(s.theirs->0).len() ==> !(
                #[trigger] s.hole(s.theirs->0)[i]).contains('\n')
        }),
{
    let s = c.sides(true);
    lines_hold_no_line_feed(or_empty(c.ours), 0);
    lines_hold_no_line_feed(or_empty(c.theirs), 0);
    s.frame_fits();
    s.frame_and_hole_tile(s.ours->0);
    s.frame_and_hole_tile(s.theirs->0);
    let o = s.ours->0;
    let t = s.theirs->0;
    assert(s.first() == o);
    assert forall|i: int| 0 <= i < s.frame_prefix().len() implies !(
    #[trigger] s.frame_prefix()[i]).contains('\n') by {
        assert(s.frame_prefix()[i] == o[i]);
    }
    assert forall|i: int| 0 <= i < s.frame_suffix().len() implies !(
    #[trigger] s.frame_suffix()[i]).contains('\n') by {
        assert(s.frame_suffix()[i] == o[o.len() - s.suffix() + i]);
    }
    assert forall|i: int| 0 <= i < s.hole(o).len() implies !(#[trigger] s.hole(o)[i]).contains(
        '\n',
    ) by {
        assert(s.hole(o)[i] == o[s.prefix() + i]);
    }
    assert forall|i: int| 0 <= i < s.hole(t).len() implies !(#[trigger] s.hole(t)[i]).contains(
        '\n',
    ) by {
        assert(s.hole(t)[i] == t[s.prefix() + i]);
    }
}

/// A conflict that is written into a file is read back as what was written, and
/// what stands behind it is read on.
pub proof fn a_written_conflict_is_read_back(
    c: EntityConflictView,
    fmt: MarkerFormatView,
    guard: Seq<char>,
    front: Seq<char>,
    rest: Seq<char>,
)
    requires
        readable(c, fmt, guard),
        front.len() == 0 || front.last() == '\n',
        no_openers(lines(front)),
    ensures
        conflicts_from(lines(front + (c.markers(fmt, guard) + rest)), 0) == seq![
            read_back(c, guard),
        ] + conflicts_from(lines(rest), 0),
{
    let s = c.sides(true);
    let ls = c.marker_lines(fmt, guard);
    let t = lines(rest);
    markers_are_a_box(c, fmt, guard);
    the_furniture_is_plain(c, fmt, guard);
    written_lines_are_lines(c);
    let b = written_box(c, fmt, guard);
    let fp = s.frame_prefix();
    let fs = s.frame_suffix();
    let refusal = refusal_line_of(fmt.comment_prefix, guard, c.base, c.ours, c.theirs);
    let ours = s.hole(s.ours->0);
    let theirs = s.hole(s.theirs->0);
    assert forall|i: int| 0 <= i < b.len() implies !(#[trigger] b[i]).contains('\n') by {
        if i == 0 {
            assert(b[i] == header_line(c));
        } else if i == 1 {
            assert(b[i] == refusal);
        } else if i < 2 + ours.len() {
            assert(b[i] == ours[i - 2]);
        } else if i == 2 + ours.len() {
            assert(b[i] == "======="@);
        } else if i < 3 + ours.len() + theirs.len() {
            assert(b[i] == theirs[i - 3 - ours.len()]);
        } else {
            assert(b[i] == footer_line(c));
        }
    }
    assert forall|i: int| 0 <= i < ls.len() implies !(#[trigger] ls[i]).contains('\n') by {
        if i < fp.len() {
            assert(ls[i] == fp[i]);
        } else if i < fp.len() + b.len() {
            assert(ls[i] == b[i - fp.len()]);
        } else {
            assert(ls[i] == fs[i - fp.len() - b.len()]);
        }
    }
    written_lines_read_back(ls);
    assert(ls.len() > 0);
    assert(c.markers(fmt, guard).last() == '\n');
    lines_of_two(c.markers(fmt, guard), rest);
    lines_of_two(front, c.markers(fmt, guard) + rest);
    let r = read_box(c, fmt, guard);
    let cp = chomped_lines(fp);
    let cs = chomped_lines(fs);
    assert(chomped_lines(b) =~= r);
    assert(chomped_lines(ls) + t =~= cp + (r + (cs + t)));
    chomping_opens_nothing(fp);
    chomping_opens_nothing(fs);
    lines_without_a_box(lines(front), chomped_lines(ls) + t, 0);
    lines_without_a_box(cp, r + (cs + t), 0);
    written_box_is_read(c, fmt, guard, cs + t);
    lines_without_a_box(cs, t, 0);
}

/// The line neither opens nor closes a box.
pub open spec fn unmarked(l: Seq<char>) -> bool {
    !starts(l, "<<<<<<<"@) && !starts(l, ">>>>>>>"@)
}

/// No line of the text opens or closes a box.
pub open spec fn unmarked_text(s: Seq<char>) -> bool {
    forall|i: int| 0 <= i < lines(s).len() ==> unmarked(#[trigger] lines(s)[i])
}

/// No line of the text reads back as one that separates two claims.
pub open spec fn unseparated_text(s: Seq<char>) -> bool {
    forall|i: int| 0 <= i < lines(s).len() ==> chomped(#[trigger] lines(s)[i]) != "======="@
}

proof fn unmarked_is_inert(l: Seq<char>)
    requires
        unmarked(l),
    ensures
        !opener(l),
        !starts(chomped(l), ">>>>>>> theirs"@),
{
    reveal_strlit("<<<<<<< ours");
    reveal_strlit("<<<<<<<");
    reveal_strlit(">>>>>>> theirs");
    reveal_strlit(">>>>>>>");
    if opener(l) {
        assert(l.subrange(0, 12) == "<<<<<<< ours"@);
        assert forall|k: int| 0 <= k < 7 implies l[k] == '<' by {
            assert(l.subrange(0, 12)[k] == "<<<<<<< ours"@[k]);
        }
        assert(l.subrange(0, 7) =~= "<<<<<<<"@);
    }
    let m = chomped(l);
    if starts(m, ">>>>>>> theirs"@) {
        assert(m.subrange(0, 14) == ">>>>>>> theirs"@);
        assert forall|k: int| 0 <= k < 7 implies l[k] == '>' by {
            assert(m.subrange(0, 14)[k] == ">>>>>>> theirs"@[k]);
        }
        assert(l.subrange(0, 7) =~= ">>>>>>>"@);
    }
}

/// A conflict is readable where its name and type are tidy, name, type and guard stand
/// on one line each, and no line of either claim opens or closes a box.
pub proof fn a_conflict_without_marker_lines_is_readable(
    c: EntityConflictView,
    fmt: MarkerFormatView,
    guard: Seq<char>,
)
    requires
        fmt.enhanced,
        fmt.marker_length == 7,
        tidy_prefix(fmt.comment_prefix),
        tidy_type(c.entity_type),
        tidy(c.entity_name),
        !c.entity_type.contains('\n'),
        !c.entity_name.contains('\n'),
        !guard.contains('\n'),
        unmarked_text(or_empty(c.ours)),
        unmarked_text(or_empty(c.theirs)),
    ensures
        readable(c, fmt, guard),
{
    let s = c.sides(true);
    let o = s.ours->0;
    let t = s.theirs->0;
    s.frame_fits();
    s.frame_and_hole_tile(o);
    s.frame_and_hole_tile(t);
    assert(s.first() == o);
    assert forall|i: int| 0 <= i < s.frame_prefix().len() implies !opener(
        #[trigger] s.frame_prefix()[i],
    ) by {
        assert(s.frame_prefix()[i] == o[i]);
        unmarked_is_inert(o[i]);
    }
    assert forall|i: int| 0 <= i < s.frame_suffix().len() implies !opener(
        #[trigger] s.frame_suffix()[i],
    ) by {
        let k = o.len() - s.suffix() + i;
        assert(s.frame_suffix()[i] == o[k]);
        unmarked_is_inert(o[k]);
    }
    let ours = chomped_lines(s.hole(o));
    let theirs = chomped_lines(s.hole(t));
    let all = claims(ours, theirs);
    assert forall|k: int| separator_at(all, 0) < k < all.len() implies !starts(
        #[trigger] all[k],
        ">>>>>>> theirs"@,
    ) by {
        separator_bounds(all, 0);
        if k < ours.len() {
            let j = s.prefix() + k;
            assert(all[k] == chomped(o[j]));
            unmarked_is_inert(o[j]);
        } else if k == ours.len() {
            reveal_strlit("=======");
            reveal_strlit(">>>>>>> theirs");
            assert(all[k].len() == 7);
        } else {
            let j = s.prefix() + k - ours.len() - 1;
            assert(all[k] == chomped(t[j]));
            unmarked_is_inert(t[j]);
        }
    }
}

/// A conflict whose claims hold no line that opens or closes a box, written in the
/// default format, is the one conflict that is read off the text: with its name, its
/// type, its complexity, the confidence that goes with it, and the guard that refused
/// it. Where no line of our claim separates either, both claims are read off too.
pub proof fn an_ordinary_conflict_is_read_back(c: EntityConflictView, guard: Seq<char>)
    requires
        tidy_type(c.entity_type),
        tidy(c.entity_name),
        !c.entity_type.contains('\n'),
        !c.entity_name.contains('\n'),
        !guard.contains('\n'),
        unmarked_text(or_empty(c.ours)),
        unmarked_text(or_empty(c.theirs)),
    ensures
        ({
            let fmt = MarkerFormatView {
                marker_length: 7,
                enhanced: true,
                comment_prefix: "//"@,
            };
            let read = conflicts_from(lines(c.markers(fmt, guard)), 0);
            let s = c.sides(true);
            &&& read == seq![read_back(c, guard)]
            &&& read[0].entity_name == c.entity_name
            &&& read[0].entity_kind == c.entity_type
            &&& read[0].complexity == c.complexity
            &&& read[0].confidence == c.complexity.trust()
            &&& starts(read[0].refusal, guard)
            &&& unseparated_text(or_empty(c.ours)) ==> {
                &&& read[0].ours_content == unlines(chomped_lines(s.hole(s.ours->0)))
                &&& read[0].theirs_content == unlines(chomped_lines(s.hole(s.theirs->0)))
            }
        }),
{
    let fmt = MarkerFormatView { marker_length: 7, enhanced: true, comment_prefix: "//"@ };
    reveal_strlit("//");
    a_conflict_without_marker_lines_is_readable(c, fmt, guard);
    let none = Seq::<char>::empty();
    assert(lines(none) =~= Seq::empty());
    a_written_conflict_is_read_back(c, fmt, guard, none, none);
    assert(none + (c.markers(fmt, guard) + none) =~= c.markers(fmt, guard));
    let read = conflicts_from(lines(c.markers(fmt, guard)), 0);
    assert(read =~= seq![read_back(c, guard)]);
    assert(read[0].refusal.subrange(0, guard.len() as int) =~= guard);
    if unseparated_text(or_empty(c.ours)) {
        let s = c.sides(true);
        let o = s.ours->0;
        let ours = chomped_lines(s.hole(o));
        s.frame_and_hole_tile(o);
        assert forall|i: int| 0 <= i < ours.len() implies #[trigger] ours[i] != "======="@ by {
            assert(ours[i] == chomped(o[s.prefix() + i]));
        }
        the_claims_are_read_back(c, guard);
    }
}

} // verus!
