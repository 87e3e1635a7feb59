//! Conflicts: what kind they are, how hard they are, and how they are written
//! into a file and read back.

use vstd::prelude::*;
use vstd::slice::slice_subrange;
use crate::diagnose::{diagnose, hunk_list, hunks_of, Hunk, HunkView, SideAction};
use crate::text::{
    chars_of, copy_of, decimal, ends, ends_with, lines, lower, lowered, push_all, push_lines,
    push_number, push_text, repeat, repeated, same, same_str, split_at_char, split_lines,
    split_on, stands_at, starts, starts_with, str_eq, string_of, strs, texts, trim, trim_end,
    trim_start, trimmed, trimmed_end, trimmed_start, unlines,
};
use crate::merge::{ResolutionStrategy, StrategyView};
use crate::v2::types::{copy_opt, opt_view, Tally};

verus! {

broadcast use vstd::string::group_string_axioms;

// ---------------------------------------------------------------------------
// Marker format
// ---------------------------------------------------------------------------

/// How conflict markers are written: with metadata, or as git writes them.
#[derive(Debug, Clone)]
pub struct MarkerFormat {
    pub marker_length: usize,
    pub enhanced: bool,
    /// The line-comment prefix of the language the markers will land in.
    pub comment_prefix: String,
}

/// A [`MarkerFormat`] with its string read as a text.
pub struct MarkerFormatView {
    pub marker_length: nat,
    pub enhanced: bool,
    pub comment_prefix: Seq<char>,
}

impl View for MarkerFormat {
    type V = MarkerFormatView;

    open spec fn view(&self) -> MarkerFormatView {
        MarkerFormatView {
            marker_length: self.marker_length as nat,
            enhanced: self.enhanced,
            comment_prefix: self.comment_prefix@,
        }
    }
}

impl Default for MarkerFormat {
    /// Seven marker characters, metadata, and `//` comments.
    fn default() -> (r: Self)
        ensures
            r@.marker_length == 7,
            r@.enhanced,
            r@.comment_prefix == "//"@,
    {
        Self { marker_length: 7, enhanced: true, comment_prefix: "//".to_owned() }
    }
}

/// A character that separates two components of a path.
pub open spec fn path_separator(c: char) -> bool {
    c == '/'
}

/// The end of what is left of a path when the separators before `end` are
/// dropped.
pub open spec fn path_stem(p: Seq<char>, end: int) -> int
    decreases end,
{
    if end <= 0 || end > p.len() {
        0
    } else if path_separator(p[end - 1]) {
        path_stem(p, end - 1)
    } else {
        end
    }
}

/// Where the last component of the first `end` characters starts.
pub open spec fn component_start(p: Seq<char>, end: int) -> int
    decreases end,
{
    if end <= 0 || end > p.len() {
        0
    } else if path_separator(p[end - 1]) {
        end
    } else {
        component_start(p, end - 1)
    }
}

/// The last component of the first `end` characters of a path, where separators
/// behind it and components `.` behind another one do not count.
pub open spec fn last_component(p: Seq<char>, end: int) -> Seq<char>
    decreases end,
    via last_component_decreases
{
    let stop = path_stem(p, end);
    let start = component_start(p, stop);
    if 0 < start <= stop && p.subrange(start, stop) == "."@ {
        last_component(p, start)
    } else {
        p.subrange(start, stop)
    }
}

#[via_fn]
proof fn last_component_decreases(p: Seq<char>, end: int) {
    reveal_strlit(".");
    path_stem_bounds(p, end);
    let stop = path_stem(p, end);
    component_start_bounds(p, stop);
    let start = component_start(p, stop);
    if 0 < start <= stop && p.subrange(start, stop) == "."@ {
        assert(p.subrange(start, stop).len() == 1);
    }
}

proof fn path_stem_bounds(p: Seq<char>, end: int)
    ensures
        0 <= path_stem(p, end),
        0 <= end ==> path_stem(p, end) <= end,
        path_stem(p, end) <= p.len(),
    decreases end,
{
    if 0 < end <= p.len() && path_separator(p[end - 1]) {
        path_stem_bounds(p, end - 1);
    }
}

proof fn component_start_bounds(p: Seq<char>, end: int)
    ensures
        0 <= component_start(p, end),
        0 <= end ==> component_start(p, end) <= end,
    decreases end,
{
    if 0 < end <= p.len() && !path_separator(p[end - 1]) {
        component_start_bounds(p, end - 1);
    }
}

/// Where the last dot of the first `end` characters is, or less than zero.
pub open spec fn last_dot(s: Seq<char>, end: int) -> int
    decreases end,
{
    if end <= 0 || end > s.len() {
        -1
    } else if s[end - 1] == '.' {
        end - 1
    } else {
        last_dot(s, end - 1)
    }
}

/// The extension of a file's name: what stands behind its last dot, unless the
/// name is `.` or `..`, or has that dot in front.
pub open spec fn extension(path: Seq<char>) -> Seq<char> {
    let name = last_component(path, path.len() as int);
    let dot = last_dot(name, name.len() as int);
    if name == ".."@ || dot <= 0 {
        Seq::empty()
    } else {
        name.subrange(dot + 1, name.len() as int)
    }
}

/// The extensions of the languages with `#` comments.
pub open spec fn hash_extensions() -> Seq<Seq<char>> {
    seq![
        "py"@, "pyi"@, "pyx"@, "yaml"@, "yml"@, "rb"@, "sh"@, "bash"@, "zsh"@, "fish"@, "ps1"@,
        "toml"@, "pl"@, "pm"@, "r"@, "jl"@, "ex"@, "exs"@, "nix"@, "tf"@, "dockerfile"@,
        "makefile"@, "mk"@, "cmake"@, "gemfile"@, "conf"@, "cfg"@, "ini"@, "properties"@,
    ]
}

/// The extensions of the languages with `--` comments.
pub open spec fn dash_extensions() -> Seq<Seq<char>> {
    seq![
        "sql"@, "lua"@, "hs"@, "elm"@, "ada"@, "adb"@, "ads"@, "vhd"@, "vhdl"@,
    ]
}

/// The extensions of the languages with `;` comments.
pub open spec fn semicolon_extensions() -> Seq<Seq<char>> {
    seq![
        "clj"@, "cljs"@, "cljc"@, "edn"@, "lisp"@, "lsp"@, "el"@, "scm"@, "ss"@, "rkt"@, "asm"@,
        "s"@,
    ]
}

/// The line-comment prefix for a file, by extension.
pub open spec fn comment_prefix_of(path: Seq<char>) -> Seq<char> {
    let ext = lower(extension(path));
    if hash_extensions().contains(ext) {
        "#"@
    } else if dash_extensions().contains(ext) {
        "--"@
    } else if semicolon_extensions().contains(ext) {
        ";"@
    } else {
        "//"@
    }
}

fn file_extension(path: &[char]) -> (r: Vec<char>)
    ensures
        r@ == extension(path@),
{
    let mut end: usize = path.len();
    let mut start: usize = 0;
    loop
        invariant
            end <= path@.len(),
            last_component(path@, end as int) == last_component(path@, path@.len() as int),
        ensures
            start <= end <= path@.len(),
            path@.subrange(start as int, end as int) == last_component(
                path@,
                path@.len() as int,
            ),
        decreases end,
    {
        let ghost before = end as int;
        proof {
            path_stem_bounds(path@, before);
            component_start_bounds(path@, path_stem(path@, before));
            reveal_strlit(".");
        }
        while end > 0 && path[end - 1] == '/'
            invariant
                end <= path@.len(),
                path_stem(path@, end as int) == path_stem(path@, before),
            decreases end,
        {
            end = end - 1;
        }
        start = end;
        while start > 0 && path[start - 1] != '/'
            invariant
                start <= end <= path@.len(),
                component_start(path@, start as int) == component_start(path@, end as int),
            decreases start,
        {
            start = start - 1;
        }
        if start > 0 && same_str(slice_subrange(path, start, end), ".") {
            proof {
                assert(path@.subrange(start as int, end as int).len() == 1);
            }
            end = start;
        } else {
            break ;
        }
    }
    let name = slice_subrange(path, start, end);
    if same_str(name, "..") {
        return Vec::new();
    }
    let mut dot: usize = name.len();
    while dot > 0 && name[dot - 1] != '.'
        invariant
            dot <= name@.len(),
            last_dot(name@, dot as int) == last_dot(name@, name@.len() as int),
        decreases dot,
    {
        dot = dot - 1;
    }
    if dot <= 1 {
        return Vec::new();
    }
    copy_of(slice_subrange(name, dot, name.len()))
}

fn is_one_of(w: &[char], list: &Vec<&str>) -> (r: bool)
    ensures
        r == list@.map_values(|s: &str| s@).contains(w@),
{
    let ghost all = list@.map_values(|s: &str| s@);
    let mut k: usize = 0;
    while k < list.len()
        invariant
            k <= list@.len(),
            all == list@.map_values(|s: &str| s@),
            forall|j: int| 0 <= j < k ==> all[j] != w@,
        decreases list@.len() - k,
    {
        if same_str(w, list[k]) {
            proof {
                assert(all[k as int] == w@);
            }
            return true;
        }
        k = k + 1;
    }
    false
}

/// The line-comment prefix for a file, by extension.
fn line_comment_prefix(file_path: &str) -> (r: &'static str)
    ensures
        r@ == comment_prefix_of(file_path@),
{
    let ext = lowered(file_extension(chars_of(file_path).as_slice()).as_slice());
    let hash: Vec<&str> = vec![
        "py", "pyi", "pyx", "yaml", "yml", "rb", "sh", "bash", "zsh", "fish", "ps1",
        "toml", "pl", "pm", "r", "jl", "ex", "exs", "nix", "tf", "dockerfile",
        "makefile", "mk", "cmake", "gemfile", "conf", "cfg", "ini", "properties",
    ];
    let dash: Vec<&str> = vec![
        "sql", "lua", "hs", "elm", "ada", "adb", "ads", "vhd", "vhdl",
    ];
    let semicolon: Vec<&str> = vec![
        "clj", "cljs", "cljc", "edn", "lisp", "lsp", "el", "scm", "ss", "rkt", "asm",
        "s",
    ];
    proof {
        assert(hash@.map_values(|s: &str| s@) =~= hash_extensions());
        assert(dash@.map_values(|s: &str| s@) =~= dash_extensions());
        assert(semicolon@.map_values(|s: &str| s@) =~= semicolon_extensions());
    }
    if is_one_of(ext.as_slice(), &hash) {
        "#"
    } else if is_one_of(ext.as_slice(), &dash) {
        "--"
    } else if is_one_of(ext.as_slice(), &semicolon) {
        ";"
    } else {
        "//"
    }
}

impl MarkerFormat {
    /// The markers git writes, with the given number of marker characters.
    pub fn standard(marker_length: usize) -> (r: Self)
        ensures
            r@.marker_length == marker_length,
            !r@.enhanced,
            r@.comment_prefix == "//"@,
    {
        Self { marker_length, enhanced: false, comment_prefix: "//".to_owned() }
    }

    /// The same format, with the comment prefix this file's language uses.
    pub fn for_file(self, file_path: &str) -> (r: Self)
        ensures
            r@.marker_length == self@.marker_length,
            r@.enhanced == self@.enhanced,
            r@.comment_prefix == comment_prefix_of(file_path@),
    {
        MarkerFormat {
            marker_length: self.marker_length,
            enhanced: self.enhanced,
            comment_prefix: line_comment_prefix(file_path).to_owned(),
        }
    }
}

// ---------------------------------------------------------------------------
// The lines that belong to neither side
// ---------------------------------------------------------------------------

/// An ASCII punctuation character.
pub open spec fn punctuation(c: char) -> bool {
    let n = c as u32;
    33 <= n <= 47 || 58 <= n <= 64 || 91 <= n <= 96 || 123 <= n <= 126
}

fn is_punctuation(c: char) -> (r: bool)
    ensures
        r == punctuation(c),
{
    let n: u32 = c as u32;
    (33 <= n && n <= 47) || (58 <= n && n <= 64) || (91 <= n && n <= 96) || (123 <= n && n <= 126)
}

/// The first index at or after `i` that holds no punctuation, or the length.
pub open spec fn skip_punctuation(s: Seq<char>, i: int) -> int
    decreases s.len() - i,
{
    if i < 0 || i >= s.len() {
        s.len() as int
    } else if punctuation(s[i]) {
        skip_punctuation(s, i + 1)
    } else {
        i
    }
}

/// What stands behind a line's comment prefix: punctuation, at least one, and the
/// white space behind it.
pub open spec fn behind_prefix(line: Seq<char>) -> Option<Seq<char>> {
    let k = skip_punctuation(line, 0);
    if k == 0 {
        None
    } else {
        Some(trim_start(line.subrange(k, line.len() as int)))
    }
}

/// What a refusal line says, if the line is one.
pub open spec fn refusal_text(line: Seq<char>) -> Option<Seq<char>> {
    match behind_prefix(line) {
        Some(rest) => if starts(rest, "refused_by: "@) {
            Some(rest.subrange("refused_by: "@.len() as int, rest.len() as int))
        } else {
            None
        },
        None => None,
    }
}

/// The line is the teach line: a comment prefix, then the stable mark.
pub open spec fn teaches(line: Seq<char>) -> bool {
    behind_prefix(line) matches Some(rest) && starts(rest, "weave: run 'weave explain "@)
}

fn after_prefix(line: &[char]) -> (r: Option<&[char]>)
    ensures
        match r {
            Some(rest) => behind_prefix(line@) == Some(rest@),
            None => behind_prefix(line@) is None,
        },
{
    let mut k: usize = 0;
    while k < line.len() && is_punctuation(line[k])
        invariant
            k <= line@.len(),
            skip_punctuation(line@, k as int) == skip_punctuation(line@, 0),
        decreases line@.len() - k,
    {
        k = k + 1;
    }
    if k == 0 {
        None
    } else {
        Some(trimmed_start(slice_subrange(line, k, line.len())))
    }
}

/// The text of a marker refusal line, if this line is one: a comment prefix made
/// of punctuation, then `refused_by: `.
pub fn refusal_body(line: &[char]) -> (r: Option<Vec<char>>)
    ensures
        crate::binding::opt_text(r) == refusal_text(line@),
{
    match after_prefix(line) {
        Some(rest) => {
            if starts_with(rest, "refused_by: ") {
                let n: usize = chars_of("refused_by: ").len();
                Some(copy_of(slice_subrange(rest, n, rest.len())))
            } else {
                None
            }
        },
        None => None,
    }
}

/// Is this line the teach line? A comment prefix, then the stable mark.
pub fn is_teach_line(line: &str) -> (r: bool)
    ensures
        r == teaches(line@),
{
    is_teaching(chars_of(line).as_slice())
}

/// Is this line the teach line?
pub fn is_teaching(line: &[char]) -> (r: bool)
    ensures
        r == teaches(line@),
{
    match after_prefix(line) {
        Some(rest) => starts_with(rest, "weave: run 'weave explain "),
        None => false,
    }
}

/// The teach line for a file, behind a comment prefix.
pub open spec fn teach_text(comment_prefix: Seq<char>, file_path: Seq<char>) -> Seq<char> {
    comment_prefix + " "@ + "weave: run 'weave explain "@ + file_path
        + "' for per-hunk detail, 'weave check' to verify your resolution"@
}

/// The teach line, in the file's own comment syntax.
pub fn teach_line(comment_prefix: &str, file_path: &str) -> (r: String)
    ensures
        r@ == teach_text(comment_prefix@, file_path@),
{
    let mut out: Vec<char> = Vec::new();
    push_text(&mut out, comment_prefix);
    push_text(&mut out, " ");
    push_text(&mut out, "weave: run 'weave explain ");
    push_text(&mut out, file_path);
    push_text(&mut out, "' for per-hunk detail, 'weave check' to verify your resolution");
    proof {
        assert(out@ =~= teach_text(comment_prefix@, file_path@));
    }
    string_of(out.as_slice())
}

// ---------------------------------------------------------------------------
// The refusal line
// ---------------------------------------------------------------------------

/// How wide one quoted collision line may be inside the refusal line.
pub const COLLISION_QUOTE_WIDTH: usize = 64;

/// A control character.
pub open spec fn control(c: char) -> bool {
    (c as u32) < 32 || 127 <= c as u32 <= 159
}

/// A control character becomes a space.
pub open spec fn flat_char(c: char) -> char {
    if control(c) {
        ' '
    } else {
        c
    }
}

/// A character that conflict markers are made of.
pub open spec fn marker_char(c: char) -> bool {
    c == '<' || c == '=' || c == '>' || c == '|'
}

/// What is at or after `i`, with a space before every marker character that would
/// be the seventh of a run. `run` is how long the run of `prev` before `i` is.
pub open spec fn broken_from(s: Seq<char>, i: int, run: nat, prev: char) -> Seq<char>
    decreases s.len() - i,
{
    if i < 0 || i >= s.len() {
        Seq::empty()
    } else {
        let c = s[i];
        let now = if c == prev {
            run + 1
        } else {
            1
        };
        if now >= 7 && marker_char(c) {
            seq![' ', c] + broken_from(s, i + 1, 1, c)
        } else {
            seq![c] + broken_from(s, i + 1, now, c)
        }
    }
}

/// One source line, made safe to sit inside a one-line comment: no control
/// characters, no run that could read as a conflict marker, and no more than a
/// given width. Its indentation stays.
pub open spec fn quoted(line: Seq<char>) -> Seq<char> {
    let flat = trim_end(line).map_values(|c: char| flat_char(c));
    let safe = broken_from(flat, 0, 0, '\0');
    if safe.len() > COLLISION_QUOTE_WIDTH {
        safe.subrange(0, COLLISION_QUOTE_WIDTH - 1) + "…"@
    } else {
        safe
    }
}

fn quote_line(line: &str) -> (r: Vec<char>)
    ensures
        r@ == quoted(line@),
{
    let c = chars_of(line);
    let t = trimmed_end(c.as_slice());
    let ghost flat = trim_end(line@).map_values(|c: char| flat_char(c));
    let mut out: Vec<char> = Vec::new();
    let mut run: usize = 0;
    let mut prev: char = '\0';
    let mut i: usize = 0;
    proof {
        assert(out@ + broken_from(flat, 0, 0, '\0') =~= broken_from(flat, 0, 0, '\0'));
    }
    while i < t.len()
        invariant
            i <= t@.len(),
            t@ == trim_end(line@),
            flat == t@.map_values(|c: char| flat_char(c)),
            run <= i,
            out@ + broken_from(flat, i as int, run as nat, prev) == broken_from(flat, 0, 0, '\0'),
        decreases t@.len() - i,
    {
        let ghost held = out@;
        let x = flattened(t[i]);
        proof {
            assert(flat[i as int] == x);
        }
        run = if x == prev {
            run + 1
        } else {
            1
        };
        prev = x;
        if run >= 7 && (x == '<' || x == '=' || x == '>' || x == '|') {
            out.push(' ');
            run = 1;
            out.push(x);
            proof {
                assert(held + (seq![' ', x] + broken_from(flat, i + 1, 1, x)) =~= out@
                    + broken_from(flat, i + 1, 1, x));
            }
        } else {
            out.push(x);
            proof {
                assert(held + (seq![x] + broken_from(flat, i + 1, run as nat, x)) =~= out@
                    + broken_from(flat, i + 1, run as nat, x));
            }
        }
        i = i + 1;
    }
    proof {
        assert(out@ =~= broken_from(flat, 0, 0, '\0'));
    }
    if out.len() > COLLISION_QUOTE_WIDTH {
        let mut head = copy_of(slice_subrange(out.as_slice(), 0, COLLISION_QUOTE_WIDTH - 1));
        push_text(&mut head, "…");
        head
    } else {
        out
    }
}

fn flattened(c: char) -> (r: char)
    ensures
        r == flat_char(c),
{
    let n: u32 = c as u32;
    if n < 32 || (127 <= n && n <= 159) {
        ' '
    } else {
        c
    }
}

/// The hunk has an edit of both sides.
pub open spec fn is_contested(h: HunkView) -> bool {
    h.ours.action != SideAction::Untouched && h.theirs.action != SideAction::Untouched
}

/// How many of the first `k` hunks are contested.
pub open spec fn contested_count(hs: Seq<HunkView>, k: int) -> nat
    decreases k,
{
    if k <= 0 {
        0
    } else {
        contested_count(hs, k - 1) + if is_contested(hs[k - 1]) {
            1nat
        } else {
            0nat
        }
    }
}

/// The collisions of the contested ones among the first `k` hunks.
pub open spec fn contested_lines(hs: Seq<HunkView>, k: int) -> Seq<Seq<char>>
    decreases k,
{
    if k <= 0 {
        Seq::empty()
    } else if is_contested(hs[k - 1]) {
        contested_lines(hs, k - 1) + hs[k - 1].collision
    } else {
        contested_lines(hs, k - 1)
    }
}

/// What the refusal line says of the hunks: the first line both sides had an
/// opinion about and how many more there are, or why there is none.
pub open spec fn collision_text(hs: Seq<HunkView>) -> Seq<char> {
    let n = contested_count(hs, hs.len() as int);
    let ls = contested_lines(hs, hs.len() as int);
    if ls.len() > 0 {
        "`"@ + quoted(ls[0]) + "`"@ + if ls.len() > 1 {
            " +"@ + decimal((ls.len() - 1) as nat) + " more"@
        } else {
            Seq::empty()
        }
    } else if n == 0 {
        "none (both sides edited, nowhere the same lines)"@
    } else {
        "none ("@ + decimal(n) + " contested hunk(s), neither side deleted the other's lines)"@
    }
}

/// The collision half of the refusal line.
pub open spec fn collision_of(
    base: Option<Seq<char>>,
    ours: Option<Seq<char>>,
    theirs: Option<Seq<char>>,
) -> Seq<char> {
    if base is Some && ours is Some && theirs is Some {
        collision_text(hunks_of(base->0, ours->0, theirs->0))
    } else {
        "none (no common ancestor text)"@
    }
}

/// What the refusal line says of the hunks of a conflict.
pub fn collision_of_hunks(hunks: &Vec<Hunk>) -> (r: Vec<char>)
    ensures
        r@ == collision_text(hunk_list(hunks@)),
{
    let ghost hs = hunk_list(hunks@);
    let mut n: usize = 0;
    let mut out: Vec<char> = Vec::new();
    let mut all: Vec<String> = Vec::new();
    let mut i: usize = 0;
    proof {
        assert(strs(all@) =~= contested_lines(hs, 0));
    }
    while i < hunks.len()
        invariant
            i <= hunks@.len(),
            hs == hunk_list(hunks@),
            n <= i,
            n == contested_count(hs, i as int),
            strs(all@) == contested_lines(hs, i as int),
        decreases hunks@.len() - i,
    {
        let h = &hunks[i];
        proof {
            assert(hs[i as int] == h@);
        }
        if h.ours.action != SideAction::Untouched && h.theirs.action != SideAction::Untouched {
            n = n + 1;
            push_collision(&mut all, &h.collision);
        }
        i = i + 1;
    }
    if all.len() > 0 {
        push_text(&mut out, "`");
        let q = quote_line(all[0].as_str());
        push_all(&mut out, q.as_slice());
        push_text(&mut out, "`");
        proof {
            assert(strs(all@)[0] == all@[0]@);
        }
        if all.len() > 1 {
            push_text(&mut out, " +");
            push_number(&mut out, all.len() - 1);
            push_text(&mut out, " more");
        }
        proof {
            assert(out@ =~= collision_text(hs));
        }
    } else if n == 0 {
        push_text(&mut out, "none (both sides edited, nowhere the same lines)");
        proof {
            assert(out@ =~= collision_text(hs));
        }
    } else {
        push_text(&mut out, "none (");
        push_number(&mut out, n);
        push_text(&mut out, " contested hunk(s), neither side deleted the other's lines)");
        proof {
            assert(out@ =~= collision_text(hs));
        }
    }
    out
}

fn push_collision(out: &mut Vec<String>, v: &Vec<String>)
    ensures
        strs(final(out)@) == strs(old(out)@) + strs(v@),
{
    let ghost before = strs(out@);
    let mut i: usize = 0;
    while i < v.len()
        invariant
            i <= v@.len(),
            strs(out@) == before + strs(v@).take(i as int),
        decreases v@.len() - i,
    {
        let ghost held = out@;
        out.push(v[i].clone());
        i = i + 1;
        proof {
            assert(strs(out@) =~= strs(held).push(v@[i - 1]@));
            assert(strs(v@).take(i as int) =~= strs(v@).take(i - 1).push(v@[i - 1]@));
        }
    }
    proof {
        assert(strs(v@).take(v@.len() as int) =~= strs(v@));
    }
}

/// The view of an optional string slice.
pub open spec fn opt_str(s: Option<&str>) -> Option<Seq<char>> {
    match s {
        Some(t) => Some(t@),
        None => None,
    }
}

/// The one line inside every conflict box, without its line feed: which guard refused,
/// and the lines both sides had an opinion about.
pub open spec fn refusal_line_of(
    prefix: Seq<char>,
    guard: Seq<char>,
    base: Option<Seq<char>>,
    ours: Option<Seq<char>>,
    theirs: Option<Seq<char>>,
) -> Seq<char> {
    prefix + " refused_by: "@ + guard + " · collision: "@ + collision_of(base, ours, theirs)
}

fn refusal_chars(
    prefix: &str,
    guard: &str,
    base: Option<&str>,
    ours: Option<&str>,
    theirs: Option<&str>,
) -> (r: Vec<char>)
    ensures
        r@ == refusal_line_of(prefix@, guard@, opt_str(base), opt_str(ours), opt_str(theirs)),
{
    let mut out: Vec<char> = Vec::new();
    push_text(&mut out, prefix);
    push_text(&mut out, " refused_by: ");
    push_text(&mut out, guard);
    push_text(&mut out, " · collision: ");
    match (base, ours, theirs) {
        (Some(b), Some(o), Some(t)) => {
            let hunks = diagnose(b, o, t);
            let c = collision_of_hunks(&hunks);
            push_all(&mut out, c.as_slice());
        },
        _ => {
            push_text(&mut out, "none (no common ancestor text)");
        },
    }
    proof {
        assert(out@ =~= refusal_line_of(
            prefix@,
            guard@,
            opt_str(base),
            opt_str(ours),
            opt_str(theirs),
        ));
    }
    out
}

/// The one line inside every conflict box, with its line feed: which guard refused, and
/// the lines both sides had an opinion about.
pub fn refusal_line(
    prefix: &str,
    guard: &str,
    base: Option<&str>,
    ours: Option<&str>,
    theirs: Option<&str>,
) -> (r: String)
    ensures
        r@ == refusal_line_of(prefix@, guard@, opt_str(base), opt_str(ours), opt_str(theirs))
            + "\n"@,
{
    let mut out = refusal_chars(prefix, guard, base, ours, theirs);
    push_text(&mut out, "\n");
    string_of(out.as_slice())
}

// ---------------------------------------------------------------------------
// Kinds and complexity
// ---------------------------------------------------------------------------

/// The type of conflict between two branches' changes to an entity.
#[derive(Debug, Clone, PartialEq, Eq)]
pub enum ConflictKind {
    /// Both branches modified the same entity and the changes couldn't be merged.
    BothModified,
    /// One branch modified the entity while the other deleted it.
    ModifyDelete { modified_in_ours: bool },
    /// Both branches added an entity with the same ID but different content.
    BothAdded,
    /// Both branches renamed the same entity to different names.
    RenameRename { base_name: String, ours_name: String, theirs_name: String },
    /// One branch renamed the entity, the other modified it.
    RenameModify { old_name: String, new_name: String, renamed_in_ours: bool },
}

/// A [`ConflictKind`] with its strings read as texts.
pub enum ConflictKindView {
    BothModified,
    ModifyDelete { modified_in_ours: bool },
    BothAdded,
    RenameRename { base_name: Seq<char>, ours_name: Seq<char>, theirs_name: Seq<char> },
    RenameModify { old_name: Seq<char>, new_name: Seq<char>, renamed_in_ours: bool },
}

impl View for ConflictKind {
    type V = ConflictKindView;

    open spec fn view(&self) -> ConflictKindView {
        match *self {
            ConflictKind::BothModified => ConflictKindView::BothModified,
            ConflictKind::ModifyDelete { modified_in_ours } => ConflictKindView::ModifyDelete {
                modified_in_ours,
            },
            ConflictKind::BothAdded => ConflictKindView::BothAdded,
            ConflictKind::RenameRename { base_name, ours_name, theirs_name } =>
                ConflictKindView::RenameRename {
                    base_name: base_name@,
                    ours_name: ours_name@,
                    theirs_name: theirs_name@,
                },
            ConflictKind::RenameModify { old_name, new_name, renamed_in_ours } =>
                ConflictKindView::RenameModify {
                    old_name: old_name@,
                    new_name: new_name@,
                    renamed_in_ours,
                },
        }
    }
}

impl ConflictKindView {
    /// The tag of the kind on the wire.
    pub open spec fn tag(self) -> Seq<char> {
        match self {
            ConflictKindView::BothModified => "both_modified"@,
            ConflictKindView::ModifyDelete { modified_in_ours } => "modify_delete"@,
            ConflictKindView::BothAdded => "both_added"@,
            ConflictKindView::RenameRename { base_name, ours_name, theirs_name } =>
                "rename_rename"@,
            ConflictKindView::RenameModify { old_name, new_name, renamed_in_ours } =>
                "rename_modify"@,
        }
    }

    /// The kind in words.
    pub open spec fn phrase(self) -> Seq<char> {
        match self {
            ConflictKindView::BothModified => "both modified"@,
            ConflictKindView::ModifyDelete { modified_in_ours } => if modified_in_ours {
                "modified in ours, deleted in theirs"@
            } else {
                "deleted in ours, modified in theirs"@
            },
            ConflictKindView::BothAdded => "both added"@,
            ConflictKindView::RenameRename { base_name, ours_name, theirs_name } =>
                "both renamed: '"@ + base_name + "' → ours '"@ + ours_name + "', theirs '"@
                    + theirs_name + "'"@,
            ConflictKindView::RenameModify { old_name, new_name, renamed_in_ours } =>
                if renamed_in_ours {
                    "renamed in ours ('"@ + old_name + "' → '"@ + new_name
                        + "'), modified in theirs"@
                } else {
                    "modified in ours, renamed in theirs ('"@ + old_name + "' → '"@ + new_name
                        + "')"@
                },
        }
    }
}

impl ConflictKind {
    /// The stable wire tag.
    pub fn wire_kind(&self) -> (r: &'static str)
        ensures
            r@ == self@.tag(),
    {
        match self {
            ConflictKind::BothModified => "both_modified",
            ConflictKind::ModifyDelete { .. } => "modify_delete",
            ConflictKind::BothAdded => "both_added",
            ConflictKind::RenameRename { .. } => "rename_rename",
            ConflictKind::RenameModify { .. } => "rename_modify",
        }
    }

    /// The kind in words.
    pub fn to_text(&self) -> (r: String)
        ensures
            r@ == self@.phrase(),
    {
        let mut out: Vec<char> = Vec::new();
        match self {
            ConflictKind::BothModified => push_text(&mut out, "both modified"),
            ConflictKind::ModifyDelete { modified_in_ours } => {
                if *modified_in_ours {
                    push_text(&mut out, "modified in ours, deleted in theirs")
                } else {
                    push_text(&mut out, "deleted in ours, modified in theirs")
                }
            },
            ConflictKind::BothAdded => push_text(&mut out, "both added"),
            ConflictKind::RenameRename { base_name, ours_name, theirs_name } => {
                push_text(&mut out, "both renamed: '");
                push_text(&mut out, base_name.as_str());
                push_text(&mut out, "' → ours '");
                push_text(&mut out, ours_name.as_str());
                push_text(&mut out, "', theirs '");
                push_text(&mut out, theirs_name.as_str());
                push_text(&mut out, "'");
            },
            ConflictKind::RenameModify { old_name, new_name, renamed_in_ours } => {
                if *renamed_in_ours {
                    push_text(&mut out, "renamed in ours ('");
                    push_text(&mut out, old_name.as_str());
                    push_text(&mut out, "' → '");
                    push_text(&mut out, new_name.as_str());
                    push_text(&mut out, "'), modified in theirs");
                } else {
                    push_text(&mut out, "modified in ours, renamed in theirs ('");
                    push_text(&mut out, old_name.as_str());
                    push_text(&mut out, "' → '");
                    push_text(&mut out, new_name.as_str());
                    push_text(&mut out, "')");
                }
            },
        }
        proof {
            assert(out@ =~= self@.phrase());
        }
        string_of(out.as_slice())
    }

    /// A second kind with the same contents.
    pub fn copy(&self) -> (r: ConflictKind)
        ensures
            r@ == self@,
    {
        match self {
            ConflictKind::BothModified => ConflictKind::BothModified,
            ConflictKind::ModifyDelete { modified_in_ours } => ConflictKind::ModifyDelete {
                modified_in_ours: *modified_in_ours,
            },
            ConflictKind::BothAdded => ConflictKind::BothAdded,
            ConflictKind::RenameRename { base_name, ours_name, theirs_name } =>
                ConflictKind::RenameRename {
                    base_name: base_name.clone(),
                    ours_name: ours_name.clone(),
                    theirs_name: theirs_name.clone(),
                },
            ConflictKind::RenameModify { old_name, new_name, renamed_in_ours } =>
                ConflictKind::RenameModify {
                    old_name: old_name.clone(),
                    new_name: new_name.clone(),
                    renamed_in_ours: *renamed_in_ours,
                },
        }
    }
}

/// Which dimensions of an entity both sides' changes touch.
#[derive(Debug, Clone, Copy, PartialEq, Eq, Structural)]
pub enum ConflictComplexity {
    /// Only comment changes.
    Text,
    /// Signature, type or structural changes, and no body changes.
    Syntax,
    /// Body changes.
    Functional,
    TextSyntax,
    TextFunctional,
    SyntaxFunctional,
    TextSyntaxFunctional,
    /// Nothing to classify.
    Unknown,
}

impl ConflictComplexity {
    /// How much a reader should trust an automatic answer here.
    pub open spec fn trust(self) -> Seq<char> {
        match self {
            ConflictComplexity::Text => "high"@,
            ConflictComplexity::Syntax
            | ConflictComplexity::Functional
            | ConflictComplexity::TextSyntax
            | ConflictComplexity::TextFunctional => "medium"@,
            ConflictComplexity::SyntaxFunctional | ConflictComplexity::TextSyntaxFunctional =>
                "low"@,
            ConflictComplexity::Unknown => "unknown"@,
        }
    }

    /// How much a reader should trust an automatic answer here.
    pub fn confidence(&self) -> (r: &'static str)
        ensures
            r@ == self.trust(),
    {
        match self {
            ConflictComplexity::Text => "high",
            ConflictComplexity::Syntax
            | ConflictComplexity::Functional
            | ConflictComplexity::TextSyntax
            | ConflictComplexity::TextFunctional => "medium",
            ConflictComplexity::SyntaxFunctional | ConflictComplexity::TextSyntaxFunctional => "low",
            ConflictComplexity::Unknown => "unknown",
        }
    }

    /// Advice to a reader, by complexity.
    pub open spec fn hint(self) -> Seq<char> {
        match self {
            ConflictComplexity::Text =>
                "Cosmetic change on both sides. Pick either version or combine formatting."@,
            ConflictComplexity::Syntax =>
                "Structural change (rename/retype). Check callers of this entity."@,
            ConflictComplexity::Functional =>
                "Logic changed on both sides. Requires understanding intent of each change."@,
            ConflictComplexity::TextSyntax =>
                "Renamed and reformatted. Prefer the structural change, verify formatting."@,
            ConflictComplexity::TextFunctional =>
                "Logic and cosmetic changes overlap. Resolve logic first, then reformat."@,
            ConflictComplexity::SyntaxFunctional =>
                "Structural and logic conflict. Both design and behavior differ."@,
            ConflictComplexity::TextSyntaxFunctional =>
                "All three dimensions conflict. Manual review required."@,
            ConflictComplexity::Unknown => "Could not classify. Compare both versions manually."@,
        }
    }

    /// Human-readable resolution hint for this conflict type.
    pub fn resolution_hint(&self) -> (r: &'static str)
        ensures
            r@ == self.hint(),
    {
        match self {
            ConflictComplexity::Text =>
                "Cosmetic change on both sides. Pick either version or combine formatting.",
            ConflictComplexity::Syntax =>
                "Structural change (rename/retype). Check callers of this entity.",
            ConflictComplexity::Functional =>
                "Logic changed on both sides. Requires understanding intent of each change.",
            ConflictComplexity::TextSyntax =>
                "Renamed and reformatted. Prefer the structural change, verify formatting.",
            ConflictComplexity::TextFunctional =>
                "Logic and cosmetic changes overlap. Resolve logic first, then reformat.",
            ConflictComplexity::SyntaxFunctional =>
                "Structural and logic conflict. Both design and behavior differ.",
            ConflictComplexity::TextSyntaxFunctional =>
                "All three dimensions conflict. Manual review required.",
            ConflictComplexity::Unknown => "Could not classify. Compare both versions manually.",
        }
    }

    /// The short form that markers carry.
    pub open spec fn code(self) -> Seq<char> {
        match self {
            ConflictComplexity::Text => "T"@,
            ConflictComplexity::Syntax => "S"@,
            ConflictComplexity::Functional => "F"@,
            ConflictComplexity::TextSyntax => "T+S"@,
            ConflictComplexity::TextFunctional => "T+F"@,
            ConflictComplexity::SyntaxFunctional => "S+F"@,
            ConflictComplexity::TextSyntaxFunctional => "T+S+F"@,
            ConflictComplexity::Unknown => "?"@,
        }
    }

    /// The short form that markers carry.
    pub fn to_text(&self) -> (r: &'static str)
        ensures
            r@ == self.code(),
    {
        match self {
            ConflictComplexity::Text => "T",
            ConflictComplexity::Syntax => "S",
            ConflictComplexity::Functional => "F",
            ConflictComplexity::TextSyntax => "T+S",
            ConflictComplexity::TextFunctional => "T+F",
            ConflictComplexity::SyntaxFunctional => "S+F",
            ConflictComplexity::TextSyntaxFunctional => "T+S+F",
            ConflictComplexity::Unknown => "?",
        }
    }
}

/// The complexity with the given dimensions.
pub open spec fn complexity_for(text: bool, syntax: bool, functional: bool) -> ConflictComplexity {
    match (text, syntax, functional) {
        (true, false, false) => ConflictComplexity::Text,
        (false, true, false) => ConflictComplexity::Syntax,
        (false, false, true) => ConflictComplexity::Functional,
        (true, true, false) => ConflictComplexity::TextSyntax,
        (true, false, true) => ConflictComplexity::TextFunctional,
        (false, true, true) => ConflictComplexity::SyntaxFunctional,
        (true, true, true) => ConflictComplexity::TextSyntaxFunctional,
        (false, false, false) => ConflictComplexity::Unknown,
    }
}

// ---------------------------------------------------------------------------
// Classifying a change
// ---------------------------------------------------------------------------

/// Opening less closing parentheses among the first `j` characters, on top of
/// `depth`.
pub open spec fn paren_depth(line: Seq<char>, j: int, depth: int) -> int
    decreases j,
{
    if j <= 0 {
        depth
    } else {
        paren_depth(line, j - 1, depth) + if line[j - 1] == '(' {
            1int
        } else if line[j - 1] == ')' {
            -1int
        } else {
            0int
        }
    }
}

/// A block starts at character `j` of the line: a brace or a colon outside every
/// parenthesis.
pub open spec fn opens_block(line: Seq<char>, j: int, depth: int) -> bool {
    0 <= j < line.len() && (line[j] == '{' || line[j] == ':') && paren_depth(line, j, depth) <= 0
}

/// A block starts somewhere on the line, which `depth` parentheses reach into, or
/// the line ends as one that starts a block does.
pub open spec fn ends_signature(line: Seq<char>, depth: int) -> bool {
    let t = trim(line);
    ||| exists|j: int| #[trigger] opens_block(line, j, depth)
    ||| (paren_depth(line, line.len() as int, depth) <= 0 && (ends(t, "{"@) || ends(t, ":"@)
        || ends(t, "->"@)))
}

/// How many parentheses the first `i` lines leave open.
pub open spec fn depth_before(ls: Seq<Seq<char>>, i: int) -> int
    decreases i,
{
    if i <= 0 {
        0
    } else {
        paren_depth(ls[i - 1], ls[i - 1].len() as int, depth_before(ls, i - 1))
    }
}

/// The first line ends the signature: it closes its parentheses and ends as one that
/// starts a block does.
pub open spec fn ends_at_once(line: Seq<char>) -> bool {
    let t = trim(line);
    paren_depth(line, line.len() as int, 0) <= 0 && (ends(t, "{"@) || ends(t, ":"@))
}

/// How many lines the signature has, looking from line `i` on: the first line
/// that starts a block ends it, and a text without one has a signature of one
/// line.
pub open spec fn signature_len_from(ls: Seq<Seq<char>>, i: int) -> int
    decreases ls.len() - i,
{
    if i < 0 || i >= ls.len() {
        1
    } else if i == 0 && ends_at_once(ls[0]) {
        1
    } else if i > 0 && ends_signature(ls[i], depth_before(ls, i)) {
        i + 1
    } else {
        signature_len_from(ls, i + 1)
    }
}

/// How many lines the signature of a definition has.
pub open spec fn signature_len(ls: Seq<Seq<char>>) -> int {
    if ls.len() == 0 {
        0
    } else {
        signature_len_from(ls, 0)
    }
}

/// A line that starts as a comment does.
pub open spec fn comment_line(line: Seq<char>) -> bool {
    let t = trim(line);
    ||| starts(t, "//"@)
    ||| starts(t, "/*"@)
    ||| starts(t, "*"@)
    ||| starts(t, "#"@)
    ||| starts(t, "\"\"\""@)
    ||| starts(t, "'''"@)
}

/// Every line of the list is a comment.
pub open spec fn all_comments(ls: Seq<Seq<char>>) -> bool {
    forall|i: int| 0 <= i < ls.len() ==> comment_line(#[trigger] ls[i])
}

/// Those of the first `k` lines that are no comments.
pub open spec fn code_lines(ls: Seq<Seq<char>>, k: int) -> Seq<Seq<char>>
    decreases k,
{
    if k <= 0 {
        Seq::empty()
    } else if comment_line(ls[k - 1]) {
        code_lines(ls, k - 1)
    } else {
        code_lines(ls, k - 1).push(ls[k - 1])
    }
}

/// Which dimensions a change touches.
#[derive(Debug, Clone, Copy, PartialEq, Eq, Structural)]
pub struct ChangeDimensions {
    pub text: bool,
    pub syntax: bool,
    pub functional: bool,
}

/// The lines of the signature.
pub open spec fn signature_part(ls: Seq<Seq<char>>) -> Seq<Seq<char>> {
    ls.take(signature_len(ls))
}

/// The lines behind the signature.
pub open spec fn body_part(ls: Seq<Seq<char>>) -> Seq<Seq<char>> {
    ls.skip(signature_len(ls))
}

/// Which dimensions the change from the one text to the other touches: comments,
/// the signature, the body.
pub open spec fn change_of(base: Seq<char>, modified: Seq<char>) -> ChangeDimensions {
    let (b, m) = (lines(base), lines(modified));
    let (bs, ms) = (signature_part(b), signature_part(m));
    let (bb, mb) = (body_part(b), body_part(m));
    let comments = all_comments(bs) && all_comments(ms);
    let same_code = code_lines(bb, bb.len() as int) == code_lines(mb, mb.len() as int);
    if base == modified {
        ChangeDimensions { text: false, syntax: false, functional: false }
    } else {
        ChangeDimensions {
            text: (bs != ms && comments) || (bb != mb && same_code),
            syntax: bs != ms && !comments,
            functional: bb != mb && !same_code,
        }
    }
}

/// An absent text is an empty one.
pub open spec fn or_empty(s: Option<Seq<char>>) -> Seq<char> {
    match s {
        Some(t) => t,
        None => Seq::empty(),
    }
}

/// The complexity of a conflict: the dimensions that either side's change
/// touches.
pub open spec fn complexity_of(
    base: Option<Seq<char>>,
    ours: Option<Seq<char>>,
    theirs: Option<Seq<char>>,
) -> ConflictComplexity {
    let o = change_of(or_empty(base), or_empty(ours));
    let t = change_of(or_empty(base), or_empty(theirs));
    complexity_for(o.text || t.text, o.syntax || t.syntax, o.functional || t.functional)
}

/// The complexity of a conflict does not depend on which side is ours.
pub proof fn complexity_is_symmetric(
    base: Option<Seq<char>>,
    ours: Option<Seq<char>>,
    theirs: Option<Seq<char>>,
)
    ensures
        complexity_of(base, ours, theirs) == complexity_of(base, theirs, ours),
{
}

proof fn signature_len_bounds(ls: Seq<Seq<char>>, i: int)
    requires
        0 <= i,
        ls.len() > 0,
    ensures
        1 <= signature_len_from(ls, i) <= ls.len(),
    decreases ls.len() - i,
{
    if i < ls.len() && !(i > 0 && ends_signature(ls[i], depth_before(ls, i))) {
        signature_len_bounds(ls, i + 1);
    }
}

/// A count of parentheses: opened less closed.
struct Depth {
    opened: u128,
    closed: u128,
}

fn find_signature_end(ls: &Vec<Vec<char>>) -> (r: usize)
    ensures
        r == signature_len(texts(ls@)),
        r <= ls@.len(),
{
    if ls.len() == 0 {
        return 0;
    }
    let ghost all = texts(ls@);
    let mut d = Depth { opened: 0, closed: 0 };
    let mut i: usize = 0;
    proof {
        signature_len_bounds(all, 0);
    }
    while i < ls.len()
        invariant
            i <= ls@.len(),
            all == texts(ls@),
            all.len() > 0,
            1 <= signature_len_from(all, 0) <= all.len(),
            signature_len_from(all, i as int) == signature_len_from(all, 0),
            d.opened - d.closed == depth_before(all, i as int),
            d.opened <= i * usize::MAX,
            d.closed <= i * usize::MAX,
        decreases ls@.len() - i,
    {
        let line = &ls[i];
        let n: usize = line.len();
        let ghost start = depth_before(all, i as int);
        let ghost o0 = d.opened as int;
        let ghost c0 = d.closed as int;
        proof {
            assert(all[i as int] == line@);
            assert(o0 + usize::MAX <= (i + 1) * usize::MAX) by (nonlinear_arith)
                requires
                    o0 <= i * usize::MAX,
            ;
            assert(c0 + usize::MAX <= (i + 1) * usize::MAX) by (nonlinear_arith)
                requires
                    c0 <= i * usize::MAX,
            ;
            assert((i + 1) * usize::MAX <= u128::MAX) by (nonlinear_arith)
                requires
                    i < usize::MAX,
                    usize::MAX <= 0xffff_ffff_ffff_ffff,
            ;
        }
        let mut j: usize = 0;
        let mut opens = false;
        while j < n && !opens
            invariant
                j <= n == line@.len(),
                n <= usize::MAX,
                i < ls@.len(),
                d.opened <= o0 + j,
                d.closed <= c0 + j,
                o0 + usize::MAX <= u128::MAX,
                c0 + usize::MAX <= u128::MAX,
                !opens ==> d.opened - d.closed == paren_depth(line@, j as int, start),
                !opens && i > 0 ==> forall|k: int| 0 <= k < j ==> !opens_block(line@, k, start),
                opens ==> i > 0 && exists|k: int| #[trigger] opens_block(line@, k, start),
            decreases n - j,
        {
            let c = line[j];
            if c == '(' {
                d.opened = d.opened + 1;
            } else if c == ')' {
                d.closed = d.closed + 1;
            } else if (c == '{' || c == ':') && d.opened <= d.closed && i > 0 {
                proof {
                    assert(opens_block(line@, j as int, start));
                }
                opens = true;
            }
            j = j + 1;
        }
        if opens {
            return i + 1;
        }
        if d.opened <= d.closed {
            let t = trimmed(line.as_slice());
            if ends_with(t, "{") || ends_with(t, ":") || (i > 0 && ends_with(t, "->")) {
                return i + 1;
            }
        }
        proof {
            if i > 0 {
                assert(!ends_signature(line@, start));
            } else {
                assert(!ends_at_once(line@));
            }
        }
        i = i + 1;
    }
    1
}

fn is_comment_line(line: &[char]) -> (r: bool)
    ensures
        r == comment_line(line@),
{
    let t = trimmed(line);
    starts_with(t, "//") || starts_with(t, "/*") || starts_with(t, "*") || starts_with(t, "#")
        || starts_with(t, "\"\"\"") || starts_with(t, "'''")
}

/// Are the two lists of lines the same?
pub fn same_lines(a: &[Vec<char>], b: &[Vec<char>]) -> (r: bool)
    ensures
        r == (texts(a@) == texts(b@)),
{
    if a.len() != b.len() {
        proof {
            assert(texts(a@).len() != texts(b@).len());
        }
        return false;
    }
    let mut i: usize = 0;
    while i < a.len()
        invariant
            i <= a@.len(),
            a@.len() == b@.len(),
            forall|k: int| 0 <= k < i ==> a@[k]@ == b@[k]@,
        decreases a@.len() - i,
    {
        if !same(a[i].as_slice(), b[i].as_slice()) {
            proof {
                assert(texts(a@)[i as int] != texts(b@)[i as int]);
            }
            return false;
        }
        i = i + 1;
    }
    proof {
        assert(texts(a@) =~= texts(b@));
    }
    true
}

fn are_comments(ls: &[Vec<char>]) -> (r: bool)
    ensures
        r == all_comments(texts(ls@)),
{
    let mut i: usize = 0;
    while i < ls.len()
        invariant
            i <= ls@.len(),
            forall|k: int| 0 <= k < i ==> comment_line(#[trigger] texts(ls@)[k]),
        decreases ls@.len() - i,
    {
        proof {
            assert(texts(ls@)[i as int] == ls@[i as int]@);
        }
        if !is_comment_line(ls[i].as_slice()) {
            return false;
        }
        i = i + 1;
    }
    true
}

fn without_comments(ls: &[Vec<char>]) -> (r: Vec<Vec<char>>)
    ensures
        texts(r@) == code_lines(texts(ls@), ls@.len() as int),
{
    let mut out: Vec<Vec<char>> = Vec::new();
    let mut i: usize = 0;
    proof {
        assert(texts(out@) =~= code_lines(texts(ls@), 0));
    }
    while i < ls.len()
        invariant
            i <= ls@.len(),
            texts(out@) == code_lines(texts(ls@), i as int),
        decreases ls@.len() - i,
    {
        proof {
            assert(texts(ls@)[i as int] == ls@[i as int]@);
        }
        if !is_comment_line(ls[i].as_slice()) {
            let ghost held = texts(out@);
            let line = copy_of(ls[i].as_slice());
            out.push(line);
            proof {
                assert(texts(out@) =~= held.push(line@));
            }
        }
        i = i + 1;
    }
    out
}

/// Which dimensions the change touches.
pub fn classify_change(base: &str, modified: &str) -> (r: ChangeDimensions)
    ensures
        r == change_of(base@, modified@),
{
    if str_eq(base, modified) {
        return ChangeDimensions { text: false, syntax: false, functional: false };
    }
    let b = split_lines(chars_of(base).as_slice());
    let m = split_lines(chars_of(modified).as_slice());
    let be: usize = find_signature_end(&b);
    let me: usize = find_signature_end(&m);
    let bs = slice_subrange(b.as_slice(), 0, be);
    let ms = slice_subrange(m.as_slice(), 0, me);
    let bb = slice_subrange(b.as_slice(), be, b.len());
    let mb = slice_subrange(m.as_slice(), me, m.len());
    proof {
        assert(texts(bs@) =~= signature_part(lines(base@)));
        assert(texts(ms@) =~= signature_part(lines(modified@)));
        assert(texts(bb@) =~= body_part(lines(base@)));
        assert(texts(mb@) =~= body_part(lines(modified@)));
    }
    let mut text = false;
    let mut syntax = false;
    let mut functional = false;
    if !same_lines(bs, ms) {
        if are_comments(bs) && are_comments(ms) {
            text = true;
        } else {
            syntax = true;
        }
    }
    if !same_lines(bb, mb) {
        let bc = without_comments(bb);
        let mc = without_comments(mb);
        if same_lines(bc.as_slice(), mc.as_slice()) {
            text = true;
        } else {
            functional = true;
        }
    }
    ChangeDimensions { text, syntax, functional }
}

/// Classify conflict complexity by what changed between versions.
pub fn classify_conflict(base: Option<&str>, ours: Option<&str>, theirs: Option<&str>) -> (r:
    ConflictComplexity)
    ensures
        r == complexity_of(opt_str(base), opt_str(ours), opt_str(theirs)),
{
    proof {
        reveal_strlit("");
        assert(""@ =~= Seq::<char>::empty());
    }
    let base = match base {
        Some(s) => s,
        None => "",
    };
    let ours = match ours {
        Some(s) => s,
        None => "",
    };
    let theirs = match theirs {
        Some(s) => s,
        None => "",
    };
    let o = classify_change(base, ours);
    let t = classify_change(base, theirs);
    match (o.text || t.text, o.syntax || t.syntax, o.functional || t.functional) {
        (true, false, false) => ConflictComplexity::Text,
        (false, true, false) => ConflictComplexity::Syntax,
        (false, false, true) => ConflictComplexity::Functional,
        (true, true, false) => ConflictComplexity::TextSyntax,
        (true, false, true) => ConflictComplexity::TextFunctional,
        (false, true, true) => ConflictComplexity::SyntaxFunctional,
        (true, true, true) => ConflictComplexity::TextSyntaxFunctional,
        (false, false, false) => ConflictComplexity::Unknown,
    }
}

// ---------------------------------------------------------------------------
// Entity conflicts
// ---------------------------------------------------------------------------

/// A conflict on a specific entity.
#[derive(Debug, Clone)]
pub struct EntityConflict {
    pub entity_name: String,
    pub entity_type: String,
    pub kind: ConflictKind,
    pub complexity: ConflictComplexity,
    pub ours_content: Option<String>,
    pub theirs_content: Option<String>,
    pub base_content: Option<String>,
}

/// An [`EntityConflict`] with its strings read as texts.
pub struct EntityConflictView {
    pub entity_name: Seq<char>,
    pub entity_type: Seq<char>,
    pub kind: ConflictKindView,
    pub complexity: ConflictComplexity,
    pub ours: Option<Seq<char>>,
    pub theirs: Option<Seq<char>>,
    pub base: Option<Seq<char>>,
}

impl View for EntityConflict {
    type V = EntityConflictView;

    open spec fn view(&self) -> EntityConflictView {
        EntityConflictView {
            entity_name: self.entity_name@,
            entity_type: self.entity_type@,
            kind: self.kind@,
            complexity: self.complexity,
            ours: opt_view(self.ours_content),
            theirs: opt_view(self.theirs_content),
            base: opt_view(self.base_content),
        }
    }
}

impl EntityConflict {
    /// A second conflict with the same contents.
    pub fn copy(&self) -> (r: EntityConflict)
        ensures
            r@ == self@,
    {
        EntityConflict {
            entity_name: self.entity_name.clone(),
            entity_type: self.entity_type.clone(),
            kind: self.kind.copy(),
            complexity: self.complexity,
            ours_content: copy_opt(&self.ours_content),
            theirs_content: copy_opt(&self.theirs_content),
            base_content: copy_opt(&self.base_content),
        }
    }
}

/// An optional string as an optional string slice.
pub fn as_opt_str(s: &Option<String>) -> (r: Option<&str>)
    ensures
        opt_str(r) == opt_view(*s),
{
    match s {
        Some(t) => Some(t.as_str()),
        None => None,
    }
}

// ---------------------------------------------------------------------------
// A conflict is a hole in the partition
// ---------------------------------------------------------------------------

/// The three sides of a box, each a list of lines where it has text.
pub struct Sides {
    pub ours: Option<Seq<Seq<char>>>,
    pub base: Option<Seq<Seq<char>>>,
    pub theirs: Option<Seq<Seq<char>>>,
}

impl Sides {
    /// How many sides have text.
    pub open spec fn present(self) -> nat {
        (if self.ours is Some {
            1nat
        } else {
            0nat
        }) + (if self.base is Some {
            1nat
        } else {
            0nat
        }) + (if self.theirs is Some {
            1nat
        } else {
            0nat
        })
    }

    /// The first side that has text.
    pub open spec fn first(self) -> Seq<Seq<char>> {
        match self.ours {
            Some(o) => o,
            None => match self.base {
                Some(b) => b,
                None => match self.theirs {
                    Some(t) => t,
                    None => Seq::empty(),
                },
            },
        }
    }

    /// Every side that has text has a line `i`, and the same.
    pub open spec fn agree_at(self, i: int) -> bool {
        &&& self.ours matches Some(o) ==> i < o.len() && o[i] == self.first()[i]
        &&& self.base matches Some(b) ==> i < b.len() && b[i] == self.first()[i]
        &&& self.theirs matches Some(t) ==> i < t.len() && t[i] == self.first()[i]
    }

    /// How many lines from the `i`th on every side opens with.
    pub open spec fn prefix_from(self, i: int) -> int
        decreases self.first().len() - i,
    {
        if i < 0 || i >= self.first().len() || !self.agree_at(i) {
            i
        } else {
            self.prefix_from(i + 1)
        }
    }

    /// How many lines every side opens with; none where fewer than two have
    /// text, for then there is nobody to agree with.
    pub open spec fn prefix(self) -> int {
        if self.present() < 2 {
            0
        } else {
            self.prefix_from(0)
        }
    }

    /// Every side that has text has, behind the first `p` lines, a line `k` from
    /// its end, and the same.
    pub open spec fn agree_back(self, p: int, k: int) -> bool {
        let f = self.first();
        let line = f[f.len() - 1 - k];
        &&& self.ours matches Some(o) ==> k < o.len() - p && o[o.len() - 1 - k] == line
        &&& self.base matches Some(b) ==> k < b.len() - p && b[b.len() - 1 - k] == line
        &&& self.theirs matches Some(t) ==> k < t.len() - p && t[t.len() - 1 - k] == line
    }

    /// How many lines from the `k`th on, counted from the end, every side closes
    /// with.
    pub open spec fn suffix_from(self, p: int, k: int) -> int
        decreases self.first().len() - p - k,
    {
        if k < 0 || k >= self.first().len() - p || !self.agree_back(p, k) {
            k
        } else {
            self.suffix_from(p, k + 1)
        }
    }

    /// How many lines behind the common prefix every side closes with.
    pub open spec fn suffix(self) -> int {
        if self.present() < 2 {
            0
        } else {
            self.suffix_from(self.prefix(), 0)
        }
    }

    /// The lines in front of the box.
    pub open spec fn frame_prefix(self) -> Seq<Seq<char>> {
        self.first().take(self.prefix())
    }

    /// The lines behind the box.
    pub open spec fn frame_suffix(self) -> Seq<Seq<char>> {
        self.first().skip(self.first().len() - self.suffix())
    }

    /// A side's lines of the hole.
    pub open spec fn hole(self, side: Seq<Seq<char>>) -> Seq<Seq<char>> {
        side.subrange(self.prefix(), side.len() - self.suffix())
    }

    proof fn prefix_bounds(self, i: int)
        requires
            0 <= i <= self.first().len(),
        ensures
            i <= self.prefix_from(i) <= self.first().len(),
            forall|k: int| i <= k < self.prefix_from(i) ==> self.agree_at(k),
        decreases self.first().len() - i,
    {
        if i < self.first().len() && self.agree_at(i) {
            self.prefix_bounds(i + 1);
        }
    }

    proof fn suffix_bounds(self, p: int, k: int)
        requires
            0 <= k <= self.first().len() - p,
            0 <= p,
        ensures
            k <= self.suffix_from(p, k) <= self.first().len() - p,
            forall|j: int| k <= j < self.suffix_from(p, k) ==> self.agree_back(p, j),
        decreases self.first().len() - k,
    {
        if k < self.first().len() - p && self.agree_back(p, k) {
            self.suffix_bounds(p, k + 1);
        }
    }

    /// The frame and the hole tile a side that has text: what stands in front of
    /// the box, the side's lines of the hole and what stands behind the box are,
    /// one behind the other, that side.
    #[verifier::spinoff_prover]
    #[verifier::rlimit(40)]
    pub proof fn frame_and_hole_tile(self, side: Seq<Seq<char>>)
        requires
            self.ours == Some(side) || self.base == Some(side) || self.theirs == Some(side),
        ensures
            self.frame_prefix() + self.hole(side) + self.frame_suffix() == side,
            0 <= self.prefix() <= side.len(),
            0 <= self.suffix() <= side.len() - self.prefix(),
    {
        let f = self.first();
        if self.present() < 2 {
            assert(self.prefix() == 0 && self.suffix() == 0);
            assert(self.frame_prefix() + self.hole(side) + self.frame_suffix() =~= side);
        } else {
            self.prefix_bounds(0);
            let p = self.prefix();
            self.suffix_bounds(p, 0);
            let q = self.suffix();
            assert(p <= side.len()) by {
                if p > 0 {
                    assert(self.agree_at(p - 1));
                }
            }
            assert(q <= side.len() - p) by {
                if q > 0 {
                    assert(self.agree_back(p, q - 1));
                }
            }
            assert forall|k: int| 0 <= k < p implies f[k] == side[k] by {
                assert(self.agree_at(k));
            }
            assert forall|i: int| side.len() - q <= i < side.len() implies f[i + f.len()
                - side.len()] == #[trigger] side[i] by {
                assert(self.agree_back(p, side.len() - 1 - i));
            }
            let whole = self.frame_prefix() + self.hole(side) + self.frame_suffix();
            assert(whole.len() == side.len());
            assert forall|i: int| 0 <= i < side.len() implies whole[i] == side[i] by {
                if i >= side.len() - q {
                    assert(whole[i] == f[i + f.len() - side.len()]);
                }
            }
            assert(whole =~= side);
        }
    }
}

/// Which slot of a box a text belongs to, in the order git writes them.
#[derive(Debug, Clone, Copy, PartialEq, Eq, Structural)]
pub enum BoxSide {
    Ours,
    Base,
    Theirs,
}

/// One conflict box, cut once over the sides that will be rendered.
#[derive(Debug, Clone)]
pub struct ConflictBox {
    ours: Option<Vec<Vec<char>>>,
    base: Option<Vec<Vec<char>>>,
    theirs: Option<Vec<Vec<char>>>,
    prefix: usize,
    suffix: usize,
}

spec fn opt_lines(s: Option<Vec<Vec<char>>>) -> Option<Seq<Seq<char>>> {
    match s {
        Some(v) => Some(texts(v@)),
        None => None,
    }
}

/// The lines of an optional text.
pub open spec fn lines_of(s: Option<Seq<char>>) -> Option<Seq<Seq<char>>> {
    match s {
        Some(t) => Some(lines(t)),
        None => None,
    }
}

impl View for ConflictBox {
    type V = Sides;

    closed spec fn view(&self) -> Sides {
        Sides {
            ours: opt_lines(self.ours),
            base: opt_lines(self.base),
            theirs: opt_lines(self.theirs),
        }
    }
}

fn split_opt(s: Option<&str>) -> (r: Option<Vec<Vec<char>>>)
    ensures
        opt_lines(r) == lines_of(opt_str(s)),
{
    match s {
        Some(t) => Some(split_lines(chars_of(t).as_slice())),
        None => None,
    }
}

fn has_line(side: &Option<Vec<Vec<char>>>, i: usize, line: &[char]) -> (r: bool)
    ensures
        r == (opt_lines(*side) matches Some(v) ==> i < v.len() && v[i as int] == line@),
{
    match side {
        Some(v) => {
            proof {
                if i < v@.len() {
                    assert(texts(v@)[i as int] == v@[i as int]@);
                }
            }
            i < v.len() && same(v[i].as_slice(), line)
        },
        None => true,
    }
}

fn has_line_back(side: &Option<Vec<Vec<char>>>, p: usize, k: usize, line: &[char]) -> (r: bool)
    requires
        opt_lines(*side) matches Some(v) ==> p <= v.len(),
    ensures
        r == (opt_lines(*side) matches Some(v) ==> k < v.len() - p && v[v.len() - 1 - k] == line@),
{
    match side {
        Some(v) => {
            let n: usize = v.len();
            proof {
                if k < n - p {
                    assert(texts(v@)[n - 1 - k] == v@[n - 1 - k]@);
                }
            }
            k < n - p && same(v[n - 1 - k].as_slice(), line)
        },
        None => true,
    }
}

fn copy_lines(v: &[Vec<char>]) -> (r: Vec<Vec<char>>)
    ensures
        texts(r@) == texts(v@),
{
    let mut out: Vec<Vec<char>> = Vec::new();
    let mut i: usize = 0;
    while i < v.len()
        invariant
            i <= v@.len(),
            texts(out@) == texts(v@).take(i as int),
        decreases v@.len() - i,
    {
        let ghost held = texts(out@);
        let line = copy_of(v[i].as_slice());
        out.push(line);
        i = i + 1;
        proof {
            assert(texts(out@) =~= held.push(line@));
            assert(texts(v@).take(i as int) =~= texts(v@).take(i - 1).push(v@[i - 1]@));
        }
    }
    proof {
        assert(texts(v@).take(v@.len() as int) =~= texts(v@));
    }
    out
}

impl ConflictBox {
    /// The box is cut where its sides say.
    pub closed spec fn wf(self) -> bool {
        self.prefix == self@.prefix() && self.suffix == self@.suffix()
    }

    fn first(&self) -> (r: &[Vec<char>])
        ensures
            texts(r@) == self@.first(),
    {
        match &self.ours {
            Some(o) => o.as_slice(),
            None => match &self.base {
                Some(b) => b.as_slice(),
                None => match &self.theirs {
                    Some(t) => t.as_slice(),
                    None => {
                        let none: &[Vec<char>] = &[];
                        proof {
                            assert(texts(none@) =~= Seq::empty());
                        }
                        none
                    },
                },
            },
        }
    }

    /// Cut the hole. `base` is `None` whenever base will not be rendered: a side
    /// nobody renders has no vote on where the box begins.
    pub fn cut(ours: Option<&str>, base: Option<&str>, theirs: Option<&str>) -> (r: Self)
        ensures
            r.wf(),
            r@ == (Sides {
                ours: lines_of(opt_str(ours)),
                base: lines_of(opt_str(base)),
                theirs: lines_of(opt_str(theirs)),
            }),
    {
        let mut hole = ConflictBox {
            ours: split_opt(ours),
            base: split_opt(base),
            theirs: split_opt(theirs),
            prefix: 0,
            suffix: 0,
        };
        let present: usize = (if hole.ours.is_some() {
            1usize
        } else {
            0usize
        }) + (if hole.base.is_some() {
            1usize
        } else {
            0usize
        }) + (if hole.theirs.is_some() {
            1usize
        } else {
            0usize
        });
        if present < 2 {
            return hole;
        }
        let ghost sides = hole@;
        let mut p: usize = 0;
        let mut q: usize = 0;
        {
            let first = hole.first();
            proof {
                sides.prefix_bounds(0);
            }
            while p < first.len() && has_line(&hole.ours, p, first[p].as_slice()) && has_line(
                &hole.base,
                p,
                first[p].as_slice(),
            ) && has_line(&hole.theirs, p, first[p].as_slice())
                invariant_except_break
                    p <= first@.len(),
                invariant
                    sides == hole@,
                    texts(first@) == sides.first(),
                    sides.prefix_from(p as int) == sides.prefix_from(0),
                    p <= first@.len(),
                    forall|k: int|
                        0 <= k < first@.len() ==> (#[trigger] first@[k])@ == sides.first()[k],
                ensures
                    p == sides.prefix_from(0),
                    p <= first@.len(),
                decreases first@.len() - p,
            {
                p = p + 1;
            }
            proof {
                sides.prefix_fits();
            }
            while q < first.len() - p && has_line_back(
                &hole.ours,
                p,
                q,
                first[first.len() - 1 - q].as_slice(),
            ) && has_line_back(&hole.base, p, q, first[first.len() - 1 - q].as_slice())
                && has_line_back(&hole.theirs, p, q, first[first.len() - 1 - q].as_slice())
                invariant
                    sides == hole@,
                    texts(first@) == sides.first(),
                    p <= first@.len(),
                    q <= first@.len() - p,
                    sides.suffix_from(p as int, q as int) == sides.suffix_from(p as int, 0),
                    sides.ours matches Some(v) ==> p <= v.len(),
                    sides.base matches Some(v) ==> p <= v.len(),
                    sides.theirs matches Some(v) ==> p <= v.len(),
                    forall|k: int|
                        0 <= k < first@.len() ==> (#[trigger] first@[k])@ == sides.first()[k],
                decreases first@.len() - q,
            {
                q = q + 1;
            }
        }
        hole.prefix = p;
        hole.suffix = q;
        hole
    }

    /// The frame before the box: lines every rendered side opens with.
    pub fn frame_prefix(&self) -> (r: Vec<Vec<char>>)
        requires
            self.wf(),
        ensures
            texts(r@) == self@.frame_prefix(),
    {
        proof {
            self@.frame_fits();
        }
        let f = self.first();
        let part = slice_subrange(f, 0, self.prefix);
        proof {
            assert(texts(part@) =~= self@.frame_prefix());
        }
        copy_lines(part)
    }

    /// The frame after the box.
    pub fn frame_suffix(&self) -> (r: Vec<Vec<char>>)
        requires
            self.wf(),
        ensures
            texts(r@) == self@.frame_suffix(),
    {
        proof {
            self@.frame_fits();
        }
        let f = self.first();
        let part = slice_subrange(f, f.len() - self.suffix, f.len());
        proof {
            assert(texts(part@) =~= self@.frame_suffix());
        }
        copy_lines(part)
    }

    /// One side's lines of the hole, or `None` when that side has no text here.
    pub fn side(&self, which: BoxSide) -> (r: Option<Vec<Vec<char>>>)
        requires
            self.wf(),
        ensures
            match r {
                Some(v) => self@.side(which) is Some && texts(v@) == self@.hole(
                    self@.side(which)->0,
                ),
                None => self@.side(which) is None,
            },
    {
        let v = match which {
            BoxSide::Ours => &self.ours,
            BoxSide::Base => &self.base,
            BoxSide::Theirs => &self.theirs,
        };
        match v {
            Some(l) => {
                proof {
                    self@.frame_and_hole_tile(texts(l@));
                }
                let part = slice_subrange(l.as_slice(), self.prefix, l.len() - self.suffix);
                proof {
                    assert(texts(part@) =~= self@.hole(texts(l@)));
                }
                Some(copy_lines(part))
            },
            None => None,
        }
    }
}

impl Sides {
    /// The lines of one slot.
    pub open spec fn side(self, which: BoxSide) -> Option<Seq<Seq<char>>> {
        match which {
            BoxSide::Ours => self.ours,
            BoxSide::Base => self.base,
            BoxSide::Theirs => self.theirs,
        }
    }

    proof fn prefix_fits(self)
        ensures
            self.ours matches Some(v) ==> self.prefix_from(0) <= v.len(),
            self.base matches Some(v) ==> self.prefix_from(0) <= v.len(),
            self.theirs matches Some(v) ==> self.prefix_from(0) <= v.len(),
    {
        self.prefix_bounds(0);
        if self.prefix_from(0) > 0 {
            assert(self.agree_at(self.prefix_from(0) - 1));
        }
    }

    /// The lines around the box are lines of the first side.
    pub proof fn frame_fits(self)
        ensures
            0 <= self.prefix() <= self.first().len(),
            0 <= self.suffix() <= self.first().len() - self.prefix(),
    {
        if self.ours is Some {
            self.frame_and_hole_tile(self.ours->0);
        } else if self.base is Some {
            self.frame_and_hole_tile(self.base->0);
        } else if self.theirs is Some {
            self.frame_and_hole_tile(self.theirs->0);
        }
    }
}

// ---------------------------------------------------------------------------
// Writing a conflict into a file
// ---------------------------------------------------------------------------

impl EntityConflictView {
    /// The sides a reader of the box will see.
    pub open spec fn sides(self, enhanced: bool) -> Sides {
        Sides {
            ours: Some(lines(or_empty(self.ours))),
            base: if enhanced {
                None
            } else {
                Some(lines(or_empty(self.base)))
            },
            theirs: Some(lines(or_empty(self.theirs))),
        }
    }

    /// What the box says it is about.
    pub open spec fn label(self) -> Seq<char> {
        self.entity_type + " `"@ + self.entity_name + "` ("@ + self.complexity.code()
            + ", confidence: "@ + self.complexity.trust() + ")"@
    }

    /// The lines that open the box: the marker and, with metadata, the refusal
    /// line.
    pub open spec fn opening(self, fmt: MarkerFormatView, guard: Seq<char>) -> Seq<Seq<char>> {
        let marks = repeat('<', fmt.marker_length);
        if fmt.enhanced {
            seq![
                marks + " ours — "@ + self.label(),
                refusal_line_of(fmt.comment_prefix, guard, self.base, self.ours, self.theirs),
            ]
        } else {
            seq![marks + " ours"@]
        }
    }

    /// The base section, where it is written.
    pub open spec fn base_section(self, fmt: MarkerFormatView) -> Seq<Seq<char>> {
        let s = self.sides(fmt.enhanced);
        if fmt.enhanced {
            Seq::empty()
        } else {
            seq![repeat('|', fmt.marker_length) + " base"@] + s.hole(s.base->0)
        }
    }

    /// The line that closes the box.
    pub open spec fn closing(self, fmt: MarkerFormatView) -> Seq<char> {
        let marks = repeat('>', fmt.marker_length);
        if fmt.enhanced {
            marks + " theirs — "@ + self.label()
        } else {
            marks + " theirs"@
        }
    }

    /// The lines of the conflict as it is written into a file.
    pub open spec fn marker_lines(self, fmt: MarkerFormatView, guard: Seq<char>) -> Seq<Seq<char>> {
        let s = self.sides(fmt.enhanced);
        s.frame_prefix() + self.opening(fmt, guard) + s.hole(s.ours->0) + self.base_section(fmt)
            + seq![repeat('=', fmt.marker_length)] + s.hole(s.theirs->0) + seq![self.closing(fmt)]
            + s.frame_suffix()
    }

    /// The conflict as it is written into a file.
    pub open spec fn markers(self, fmt: MarkerFormatView, guard: Seq<char>) -> Seq<char> {
        unlines(self.marker_lines(fmt, guard))
    }
}

impl EntityConflict {
    fn push_label(&self, out: &mut Vec<char>)
        ensures
            final(out)@ == old(out)@ + self@.label(),
    {
        let ghost before = out@;
        push_text(out, self.entity_type.as_str());
        push_text(out, " `");
        push_text(out, self.entity_name.as_str());
        push_text(out, "` (");
        push_text(out, self.complexity.to_text());
        push_text(out, ", confidence: ");
        push_text(out, self.complexity.confidence());
        push_text(out, ")");
        proof {
            assert(out@ =~= before + self@.label());
        }
    }

    /// Render this conflict as conflict markers: whatever every rendered side
    /// agrees on at the edges becomes frame, and each side's marker content is
    /// its own lines between.
    pub fn to_conflict_markers(&self, fmt: &MarkerFormat, guard: &str) -> (r: String)
        ensures
            r@ == self@.markers(fmt@, guard@),
    {
        proof {
            reveal_strlit("");
            assert(""@ =~= Seq::<char>::empty());
        }
        let ours = match &self.ours_content {
            Some(s) => s.as_str(),
            None => "",
        };
        let theirs = match &self.theirs_content {
            Some(s) => s.as_str(),
            None => "",
        };
        let base = match &self.base_content {
            Some(s) => s.as_str(),
            None => "",
        };
        let hole = ConflictBox::cut(
            Some(ours),
            if fmt.enhanced {
                None
            } else {
                Some(base)
            },
            Some(theirs),
        );
        let ghost s = self@.sides(fmt.enhanced);
        proof {
            assert(hole@ == s);
        }
        let mut all: Vec<Vec<char>> = hole.frame_prefix();
        let ghost l0 = texts(all@);
        let mut open = repeated('<', fmt.marker_length);
        if fmt.enhanced {
            push_text(&mut open, " ours — ");
            self.push_label(&mut open);
            let refusal = refusal_chars(
                fmt.comment_prefix.as_str(),
                guard,
                as_opt_str(&self.base_content),
                as_opt_str(&self.ours_content),
                as_opt_str(&self.theirs_content),
            );
            proof {
                assert(open@ =~= repeat('<', fmt@.marker_length) + " ours — "@ + self@.label());
            }
            all.push(open);
            all.push(refusal);
            proof {
                assert(texts(all@) =~= l0 + self@.opening(fmt@, guard@));
            }
        } else {
            push_text(&mut open, " ours");
            all.push(open);
            proof {
                assert(texts(all@) =~= l0 + self@.opening(fmt@, guard@));
            }
        }
        let ghost l1 = texts(all@);
        let o = hole.side(BoxSide::Ours).unwrap();
        append_lines(&mut all, o);
        let ghost l2 = texts(all@);
        if !fmt.enhanced {
            let mut bar = repeated('|', fmt.marker_length);
            push_text(&mut bar, " base");
            all.push(bar);
            let ghost l3 = texts(all@);
            proof {
                assert(l3 =~= l2 + seq![repeat('|', fmt@.marker_length) + " base"@]);
            }
            let b = hole.side(BoxSide::Base).unwrap();
            append_lines(&mut all, b);
            proof {
                assert(texts(all@) =~= l2 + self@.base_section(fmt@));
            }
        } else {
            proof {
                assert(texts(all@) =~= l2 + self@.base_section(fmt@));
            }
        }
        let ghost l4 = texts(all@);
        all.push(repeated('=', fmt.marker_length));
        let ghost l5 = texts(all@);
        proof {
            assert(l5 =~= l4 + seq![repeat('=', fmt@.marker_length)]);
        }
        let t = hole.side(BoxSide::Theirs).unwrap();
        append_lines(&mut all, t);
        let ghost l6 = texts(all@);
        let mut close = repeated('>', fmt.marker_length);
        if fmt.enhanced {
            push_text(&mut close, " theirs — ");
            self.push_label(&mut close);
        } else {
            push_text(&mut close, " theirs");
        }
        proof {
            assert(close@ =~= self@.closing(fmt@));
        }
        all.push(close);
        let ghost l7 = texts(all@);
        proof {
            assert(l7 =~= l6 + seq![self@.closing(fmt@)]);
        }
        let end = hole.frame_suffix();
        append_lines(&mut all, end);
        proof {
            assert(texts(all@) =~= self@.marker_lines(fmt@, guard@));
        }
        let mut out: Vec<char> = Vec::new();
        push_lines(&mut out, all.as_slice());
        proof {
            assert(out@ =~= self@.markers(fmt@, guard@));
        }
        string_of(out.as_slice())
    }
}

/// Append the lines.
pub fn append_lines(out: &mut Vec<Vec<char>>, v: Vec<Vec<char>>)
    ensures
        texts(final(out)@) == texts(old(out)@) + texts(v@),
{
    let ghost before = out@;
    let mut w = v;
    out.append(&mut w);
    proof {
        assert(texts(out@) =~= texts(before) + texts(v@));
    }
}

// ---------------------------------------------------------------------------
// Reading conflicts back
// ---------------------------------------------------------------------------

/// A conflict read out of a file with markers that carry metadata.
#[derive(Debug, Clone)]
pub struct ParsedConflict {
    pub entity_name: String,
    pub entity_kind: String,
    pub complexity: ConflictComplexity,
    pub confidence: String,
    /// The body of the box's one annotation line.
    pub refusal: String,
    pub ours_content: String,
    pub theirs_content: String,
}

/// A [`ParsedConflict`] with its strings read as texts.
pub struct ParsedView {
    pub entity_name: Seq<char>,
    pub entity_kind: Seq<char>,
    pub complexity: ConflictComplexity,
    pub confidence: Seq<char>,
    pub refusal: Seq<char>,
    pub ours_content: Seq<char>,
    pub theirs_content: Seq<char>,
}

impl View for ParsedConflict {
    type V = ParsedView;

    open spec fn view(&self) -> ParsedView {
        ParsedView {
            entity_name: self.entity_name@,
            entity_kind: self.entity_kind@,
            complexity: self.complexity,
            confidence: self.confidence@,
            refusal: self.refusal@,
            ours_content: self.ours_content@,
            theirs_content: self.theirs_content@,
        }
    }
}

/// The views of a list of parsed conflicts.
pub open spec fn parsed_views(v: Seq<ParsedConflict>) -> Seq<ParsedView> {
    v.map_values(|p: ParsedConflict| p@)
}

/// What a header says the box is about: what stands behind its first dash, up to
/// a second one, or the whole header.
pub open spec fn header_label(header: Seq<char>) -> Seq<char> {
    let parts = split_on(header, '—');
    trim(
        if parts.len() > 1 {
            parts[1]
        } else {
            header
        },
    )
}

/// The type a label names: what stands in front of its first backtick.
pub open spec fn label_kind(label: Seq<char>) -> Seq<char> {
    trim(split_on(label, '`')[0])
}

/// The name a label quotes: what stands behind its first backtick, up to a second
/// one.
pub open spec fn label_name(label: Seq<char>) -> Seq<char> {
    let parts = split_on(label, '`');
    if parts.len() > 1 {
        parts[1]
    } else {
        Seq::empty()
    }
}

/// Without the closing parentheses behind.
pub open spec fn without_parens(s: Seq<char>) -> Seq<char>
    decreases s.len(),
{
    if s.len() > 0 && s.last() == ')' {
        without_parens(s.drop_last())
    } else {
        s
    }
}

/// The parts of a label's last parenthesis, separated by commas.
pub open spec fn label_parts(label: Seq<char>) -> Seq<Seq<char>> {
    split_on(without_parens(split_on(label, '(').last()), ',')
}

/// The complexity with the short form.
pub open spec fn complexity_coded(code: Seq<char>) -> ConflictComplexity {
    if code == "T"@ {
        ConflictComplexity::Text
    } else if code == "S"@ {
        ConflictComplexity::Syntax
    } else if code == "F"@ {
        ConflictComplexity::Functional
    } else if code == "T+S"@ {
        ConflictComplexity::TextSyntax
    } else if code == "T+F"@ {
        ConflictComplexity::TextFunctional
    } else if code == "S+F"@ {
        ConflictComplexity::SyntaxFunctional
    } else if code == "T+S+F"@ {
        ConflictComplexity::TextSyntaxFunctional
    } else {
        ConflictComplexity::Unknown
    }
}

/// The text without the prefix, as often as it is there.
pub open spec fn without_prefixes(s: Seq<char>, p: Seq<char>) -> Seq<char>
    decreases s.len(),
{
    if p.len() > 0 && starts(s, p) {
        without_prefixes(s.subrange(p.len() as int, s.len() as int), p)
    } else {
        s
    }
}

/// What the first of the parts, at or after the `k`th, that states a confidence
/// says.
pub open spec fn stated_confidence(parts: Seq<Seq<char>>, k: int) -> Seq<char>
    decreases parts.len() - k,
{
    if k < 0 || k >= parts.len() {
        "unknown"@
    } else if starts(trim(parts[k]), "confidence:"@) {
        trim(without_prefixes(trim(parts[k]), "confidence:"@))
    } else {
        stated_confidence(parts, k + 1)
    }
}

/// The first line at or after `i` that separates two claims, or the number of
/// lines.
pub open spec fn separator_at(ls: Seq<Seq<char>>, i: int) -> int
    decreases ls.len() - i,
{
    if i < 0 || i >= ls.len() || ls[i] == "======="@ {
        i
    } else {
        separator_at(ls, i + 1)
    }
}

/// The first line at or after `i` that closes a box, or the number of lines.
pub open spec fn closing_at(ls: Seq<Seq<char>>, i: int) -> int
    decreases ls.len() - i,
{
    if i < 0 || i >= ls.len() || starts(ls[i], ">>>>>>> theirs"@) {
        i
    } else {
        closing_at(ls, i + 1)
    }
}

/// Where our claim starts in the box that opens at line `i`: behind the refusal
/// line, where there is one.
pub open spec fn claim_at(ls: Seq<Seq<char>>, i: int) -> int {
    if i + 1 < ls.len() && refusal_text(ls[i + 1]) is Some {
        i + 2
    } else {
        i + 1
    }
}

/// The lines from `a` up to `b`, as far as there are any.
pub open spec fn some_lines(ls: Seq<Seq<char>>, a: int, b: int) -> Seq<Seq<char>> {
    if 0 <= a <= b <= ls.len() {
        ls.subrange(a, b)
    } else {
        Seq::empty()
    }
}

/// The conflict whose box opens at line `i`.
pub open spec fn conflict_at(ls: Seq<Seq<char>>, i: int) -> ParsedView {
    let label = header_label(ls[i]);
    let parts = label_parts(label);
    let a = claim_at(ls, i);
    let s = separator_at(ls, a);
    let t = closing_at(ls, s + 1);
    ParsedView {
        entity_name: label_name(label),
        entity_kind: label_kind(label),
        complexity: complexity_coded(trim(parts[0])),
        confidence: stated_confidence(parts, 0),
        refusal: if a == i + 2 {
            refusal_text(ls[i + 1])->0
        } else {
            Seq::empty()
        },
        ours_content: unlines(some_lines(ls, a, s)),
        theirs_content: unlines(some_lines(ls, s + 1, t)),
    }
}

/// Where the box that opens at line `i` ends.
pub open spec fn conflict_end(ls: Seq<Seq<char>>, i: int) -> int {
    closing_at(ls, separator_at(ls, claim_at(ls, i)) + 1) + 1
}

/// The conflicts whose boxes open at or after line `i`.
pub open spec fn conflicts_from(ls: Seq<Seq<char>>, i: int) -> Seq<ParsedView>
    decreases ls.len() + 3 - i,
    via conflicts_from_decreases
{
    if i < 0 || i >= ls.len() {
        Seq::empty()
    } else if starts(ls[i], "<<<<<<< ours"@) {
        seq![conflict_at(ls, i)] + conflicts_from(ls, conflict_end(ls, i))
    } else {
        conflicts_from(ls, i + 1)
    }
}

#[via_fn]
proof fn conflicts_from_decreases(ls: Seq<Seq<char>>, i: int) {
    if 0 <= i < ls.len() {
        separator_at_bounds(ls, claim_at(ls, i));
        closing_at_bounds(ls, separator_at(ls, claim_at(ls, i)) + 1);
    }
}

proof fn separator_at_bounds(ls: Seq<Seq<char>>, i: int)
    requires
        0 <= i,
    ensures
        i <= separator_at(ls, i),
        i <= ls.len() ==> separator_at(ls, i) <= ls.len(),
    decreases ls.len() - i,
{
    if i < ls.len() && ls[i] != "======="@ {
        separator_at_bounds(ls, i + 1);
    }
}

proof fn closing_at_bounds(ls: Seq<Seq<char>>, i: int)
    requires
        0 <= i,
    ensures
        i <= closing_at(ls, i),
        i <= ls.len() ==> closing_at(ls, i) <= ls.len(),
    decreases ls.len() - i,
{
    if i < ls.len() && !starts(ls[i], ">>>>>>> theirs"@) {
        closing_at_bounds(ls, i + 1);
    }
}

fn trim_parens(s: &[char]) -> (r: Vec<char>)
    ensures
        r@ == without_parens(s@),
{
    let mut c = copy_of(s);
    while c.len() > 0 && c[c.len() - 1] == ')'
        invariant
            without_parens(c@) == without_parens(s@),
        decreases c@.len(),
    {
        c.pop();
    }
    c
}

fn trim_prefixes(s: &[char], p: &str) -> (r: Vec<char>)
    ensures
        r@ == without_prefixes(s@, p@),
{
    let pre = chars_of(p);
    let mut c = copy_of(s);
    while pre.len() > 0 && stands_at(c.as_slice(), pre.as_slice(), 0)
        invariant
            pre@ == p@,
            without_prefixes(c@, p@) == without_prefixes(s@, p@),
        decreases c@.len(),
    {
        c = copy_of(slice_subrange(c.as_slice(), pre.len(), c.len()));
    }
    c
}

fn parse_complexity(code: &[char]) -> (r: ConflictComplexity)
    ensures
        r == complexity_coded(code@),
{
    if same_str(code, "T") {
        ConflictComplexity::Text
    } else if same_str(code, "S") {
        ConflictComplexity::Syntax
    } else if same_str(code, "F") {
        ConflictComplexity::Functional
    } else if same_str(code, "T+S") {
        ConflictComplexity::TextSyntax
    } else if same_str(code, "T+F") {
        ConflictComplexity::TextFunctional
    } else if same_str(code, "S+F") {
        ConflictComplexity::SyntaxFunctional
    } else if same_str(code, "T+S+F") {
        ConflictComplexity::TextSyntaxFunctional
    } else {
        ConflictComplexity::Unknown
    }
}

fn parse_confidence(parts: &Vec<Vec<char>>) -> (r: Vec<char>)
    ensures
        r@ == stated_confidence(texts(parts@), 0),
{
    let ghost all = texts(parts@);
    let mut k: usize = 0;
    while k < parts.len()
        invariant
            k <= parts@.len(),
            all == texts(parts@),
            stated_confidence(all, k as int) == stated_confidence(all, 0),
        decreases parts@.len() - k,
    {
        proof {
            assert(all[k as int] == parts@[k as int]@);
        }
        let t = trimmed(parts[k].as_slice());
        if starts_with(t, "confidence:") {
            let rest = trim_prefixes(t, "confidence:");
            return copy_of(trimmed(rest.as_slice()));
        }
        k = k + 1;
    }
    chars_of("unknown")
}

/// The name, the type, the complexity and the confidence that a header states.
fn parse_conflict_header(header: &[char]) -> (r: (
    Vec<char>,
    Vec<char>,
    ConflictComplexity,
    Vec<char>,
))
    ensures
        r.0@ == label_kind(header_label(header@)),
        r.1@ == label_name(header_label(header@)),
        r.2 == complexity_coded(trim(label_parts(header_label(header@))[0])),
        r.3@ == stated_confidence(label_parts(header_label(header@)), 0),
{
    let dashes = split_at_char(header, '—');
    proof {
        if dashes@.len() > 1 {
            assert(texts(dashes@)[1] == dashes@[1]@);
        }
    }
    let label = if dashes.len() > 1 {
        trimmed(dashes[1].as_slice())
    } else {
        trimmed(header)
    };
    let ticks = split_at_char(label, '`');
    proof {
        assert(texts(ticks@)[0] == ticks@[0]@);
        if ticks@.len() > 1 {
            assert(texts(ticks@)[1] == ticks@[1]@);
        }
    }
    let kind = copy_of(trimmed(ticks[0].as_slice()));
    let name = if ticks.len() > 1 {
        copy_of(ticks[1].as_slice())
    } else {
        Vec::new()
    };
    let parens = split_at_char(label, '(');
    let n: usize = parens.len();
    proof {
        assert(texts(parens@)[n - 1] == parens@[n - 1]@);
        assert(texts(parens@).last() == parens@[n - 1]@);
    }
    let inner = trim_parens(parens[n - 1].as_slice());
    let parts = split_at_char(inner.as_slice(), ',');
    proof {
        assert(texts(parts@)[0] == parts@[0]@);
    }
    let complexity = parse_complexity(trimmed(parts[0].as_slice()));
    let confidence = parse_confidence(&parts);
    (kind, name, complexity, confidence)
}

/// Read the conflicts out of a file whose markers carry metadata.
pub fn parse_weave_conflicts(content: &str) -> (r: Vec<ParsedConflict>)
    ensures
        parsed_views(r@) == conflicts_from(lines(content@), 0),
{
    let ls = split_lines(chars_of(content).as_slice());
    let ghost all = lines(content@);
    let n: usize = ls.len();
    let mut out: Vec<ParsedConflict> = Vec::new();
    let mut i: usize = 0;
    proof {
        assert(parsed_views(out@) + conflicts_from(all, 0) =~= conflicts_from(all, 0));
    }
    while i < n
        invariant
            i <= n == ls@.len(),
            texts(ls@) == all,
            parsed_views(out@) + conflicts_from(all, i as int) == conflicts_from(all, 0),
        decreases n - i,
    {
        proof {
            assert(all[i as int] == ls@[i as int]@);
        }
        if !starts_with(ls[i].as_slice(), "<<<<<<< ours") {
            i = i + 1;
            continue ;
        }
        let ghost start = i as int;
        let (kind, name, complexity, confidence) = parse_conflict_header(ls[i].as_slice());
        let mut a: usize = i + 1;
        let mut refusal: Vec<char> = Vec::new();
        if a < n {
            proof {
                assert(all[a as int] == ls@[a as int]@);
            }
            match refusal_body(ls[a].as_slice()) {
                Some(rest) => {
                    refusal = rest;
                    a = a + 1;
                },
                None => {},
            }
        }
        proof {
            assert(a == claim_at(all, start));
            separator_at_bounds(all, a as int);
        }
        let mut s: usize = a;
        while s < n && !same_str(ls[s].as_slice(), "=======")
            invariant
                a <= s <= n == ls@.len(),
                texts(ls@) == all,
                forall|m: int| 0 <= m < ls@.len() ==> (#[trigger] ls@[m])@ == all[m],
                separator_at(all, s as int) == separator_at(all, a as int),
            decreases n - s,
        {
            s = s + 1;
        }
        let ours_part = slice_subrange(ls.as_slice(), a, s);
        let mut ours: Vec<char> = Vec::new();
        push_lines(&mut ours, ours_part);
        proof {
            assert(texts(ours_part@) =~= some_lines(all, a as int, s as int));
            assert(ours@ =~= unlines(some_lines(all, a as int, s as int)));
        }
        let mut theirs: Vec<char> = Vec::new();
        let mut next: usize = n;
        if s < n {
            let b: usize = s + 1;
            let mut t: usize = b;
            proof {
                closing_at_bounds(all, b as int);
            }
            while t < n && !starts_with(ls[t].as_slice(), ">>>>>>> theirs")
                invariant
                    b <= t <= n == ls@.len(),
                    texts(ls@) == all,
                    forall|m: int| 0 <= m < ls@.len() ==> (#[trigger] ls@[m])@ == all[m],
                    closing_at(all, t as int) == closing_at(all, b as int),
                decreases n - t,
            {
                t = t + 1;
            }
            let theirs_part = slice_subrange(ls.as_slice(), b, t);
            push_lines(&mut theirs, theirs_part);
            proof {
                assert(texts(theirs_part@) =~= some_lines(all, b as int, t as int));
                assert(theirs@ =~= unlines(some_lines(all, b as int, t as int)));
                assert(conflict_end(all, start) == t + 1);
            }
            if t < n {
                next = t + 1;
            }
        } else {
            proof {
                assert(closing_at(all, n + 1) == n + 1);
                assert(some_lines(all, n + 1, n + 1) =~= Seq::empty());
                assert(theirs@ =~= unlines(Seq::empty()));
                assert(conflict_end(all, start) == n + 2);
            }
        }
        let parsed = ParsedConflict {
            entity_name: string_of(name.as_slice()),
            entity_kind: string_of(kind.as_slice()),
            complexity,
            confidence: string_of(confidence.as_slice()),
            refusal: string_of(refusal.as_slice()),
            ours_content: string_of(ours.as_slice()),
            theirs_content: string_of(theirs.as_slice()),
        };
        let ghost held = parsed_views(out@);
        let ghost pv = parsed@;
        out.push(parsed);
        proof {
            assert(pv == conflict_at(all, start));
            assert(parsed_views(out@) =~= held + seq![pv]);
            let rest = conflicts_from(all, conflict_end(all, start));
            assert(rest == conflicts_from(all, next as int)) by {
                if next == n {
                    assert(conflict_end(all, start) >= n);
                    assert(conflicts_from(all, n as int) =~= Seq::empty());
                    assert(rest =~= Seq::empty());
                }
            }
            assert(held + (seq![pv] + rest) =~= (held + seq![pv]) + rest);
        }
        i = next;
    }
    proof {
        assert(parsed_views(out@) =~= conflicts_from(all, 0));
    }
    out
}

// ---------------------------------------------------------------------------
// The summary of a merge
// ---------------------------------------------------------------------------

/// Statistics about a merge operation.
#[derive(Debug, Clone, Copy, PartialEq, Eq, Structural)]
pub struct MergeStats {
    pub entities_unchanged: usize,
    pub entities_ours_only: usize,
    pub entities_theirs_only: usize,
    pub entities_both_changed_merged: usize,
    pub entities_conflicted: usize,
    pub entities_added_ours: usize,
    pub entities_added_theirs: usize,
    pub entities_deleted: usize,
    pub used_fallback: bool,
    /// Entities that were auto-merged but reference other modified entities.
    pub semantic_warnings: usize,
    /// Entities resolved by a line-level three-way merge.
    pub resolved_via_diffy: usize,
    /// Entities resolved from their parts.
    pub resolved_via_inner_merge: usize,
    /// Call references rewritten because the other side renamed the definition
    /// they pointed at.
    pub references_rewritten: usize,
}

impl Default for MergeStats {
    /// Nothing counted yet.
    fn default() -> (r: Self)
        ensures
            r == zero_stats(),
    {
        MergeStats {
            entities_unchanged: 0,
            entities_ours_only: 0,
            entities_theirs_only: 0,
            entities_both_changed_merged: 0,
            entities_conflicted: 0,
            entities_added_ours: 0,
            entities_added_theirs: 0,
            entities_deleted: 0,
            used_fallback: false,
            semantic_warnings: 0,
            resolved_via_diffy: 0,
            resolved_via_inner_merge: 0,
            references_rewritten: 0,
        }
    }
}

/// Nothing counted.
pub open spec fn zero_stats() -> MergeStats {
    MergeStats {
        entities_unchanged: 0,
        entities_ours_only: 0,
        entities_theirs_only: 0,
        entities_both_changed_merged: 0,
        entities_conflicted: 0,
        entities_added_ours: 0,
        entities_added_theirs: 0,
        entities_deleted: 0,
        used_fallback: false,
        semantic_warnings: 0,
        resolved_via_diffy: 0,
        resolved_via_inner_merge: 0,
        references_rewritten: 0,
    }
}

/// One more where the condition holds.
pub open spec fn plus(n: usize, one: bool) -> usize {
    if one {
        (n + 1) as usize
    } else {
        n
    }
}

impl MergeStats {
    /// The summary with one decision more: on the line its tally names and, for
    /// the strategies that composed a body, in their bucket.
    pub open spec fn recorded(self, tally: Tally, strategy: StrategyView) -> MergeStats {
        MergeStats {
            entities_unchanged: plus(self.entities_unchanged, tally is Unchanged),
            entities_ours_only: plus(self.entities_ours_only, tally is OursOnly),
            entities_theirs_only: plus(self.entities_theirs_only, tally is TheirsOnly),
            entities_both_changed_merged: plus(
                self.entities_both_changed_merged,
                tally is BothMerged,
            ),
            entities_conflicted: plus(self.entities_conflicted, tally is Conflicted),
            entities_added_ours: plus(self.entities_added_ours, tally is AddedOurs),
            entities_added_theirs: plus(self.entities_added_theirs, tally is AddedTheirs),
            entities_deleted: plus(self.entities_deleted, tally is Deleted),
            used_fallback: self.used_fallback,
            semantic_warnings: self.semantic_warnings,
            resolved_via_diffy: plus(
                self.resolved_via_diffy,
                strategy is DiffyMerged || strategy is DecoratorMerged,
            ),
            resolved_via_inner_merge: plus(
                self.resolved_via_inner_merge,
                strategy is InnerMerged || strategy is StatementMerged,
            ),
            references_rewritten: self.references_rewritten,
        }
    }

    /// How many decisions the summary counts, each on one line.
    pub open spec fn counted(self) -> int {
        self.entities_unchanged + self.entities_ours_only + self.entities_theirs_only
            + self.entities_both_changed_merged + self.entities_conflicted
            + self.entities_added_ours + self.entities_added_theirs + self.entities_deleted
    }

    /// There is room for one decision more.
    pub open spec fn has_room(self) -> bool {
        &&& self.entities_unchanged < usize::MAX
        &&& self.entities_ours_only < usize::MAX
        &&& self.entities_theirs_only < usize::MAX
        &&& self.entities_both_changed_merged < usize::MAX
        &&& self.entities_conflicted < usize::MAX
        &&& self.entities_added_ours < usize::MAX
        &&& self.entities_added_theirs < usize::MAX
        &&& self.entities_deleted < usize::MAX
        &&& self.resolved_via_diffy < usize::MAX
        &&& self.resolved_via_inner_merge < usize::MAX
    }

    /// Was anything left for a reader to decide?
    pub fn has_conflicts(&self) -> (r: bool)
        ensures
            r == (self.entities_conflicted > 0),
    {
        self.entities_conflicted > 0
    }

    /// Tally one finished decision into the summary: which line it lands on, and
    /// which bucket the strategy that reached it belongs to.
    pub fn record(&mut self, tally: &Tally, strategy: &ResolutionStrategy)
        requires
            old(self).has_room(),
        ensures
            *final(self) == old(self).recorded(*tally, strategy@),
    {
        match tally {
            Tally::Unchanged => self.entities_unchanged = self.entities_unchanged + 1,
            Tally::OursOnly => self.entities_ours_only = self.entities_ours_only + 1,
            Tally::TheirsOnly => self.entities_theirs_only = self.entities_theirs_only + 1,
            Tally::BothMerged =>
                self.entities_both_changed_merged = self.entities_both_changed_merged + 1,
            Tally::AddedOurs => self.entities_added_ours = self.entities_added_ours + 1,
            Tally::AddedTheirs => self.entities_added_theirs = self.entities_added_theirs + 1,
            Tally::Deleted => self.entities_deleted = self.entities_deleted + 1,
            Tally::Conflicted => self.entities_conflicted = self.entities_conflicted + 1,
        }
        match strategy {
            ResolutionStrategy::DiffyMerged | ResolutionStrategy::DecoratorMerged => {
                self.resolved_via_diffy = self.resolved_via_diffy + 1;
            },
            ResolutionStrategy::InnerMerged | ResolutionStrategy::StatementMerged => {
                self.resolved_via_inner_merge = self.resolved_via_inner_merge + 1;
            },
            _ => {},
        }
    }

    /// This merge did not go through the entity model.
    pub fn mark_fallback(&mut self)
        ensures
            *final(self) == (MergeStats { used_fallback: true, ..*old(self) }),
    {
        self.used_fallback = true;
    }

    /// The sum of two summaries, line by line. Any file falling back makes the
    /// whole merge a fallback merge.
    pub open spec fn sum(self, file: MergeStats) -> MergeStats {
        MergeStats {
            entities_unchanged: (self.entities_unchanged + file.entities_unchanged) as usize,
            entities_ours_only: (self.entities_ours_only + file.entities_ours_only) as usize,
            entities_theirs_only: (self.entities_theirs_only + file.entities_theirs_only) as usize,
            entities_both_changed_merged: (self.entities_both_changed_merged
                + file.entities_both_changed_merged) as usize,
            entities_conflicted: (self.entities_conflicted + file.entities_conflicted) as usize,
            entities_added_ours: (self.entities_added_ours + file.entities_added_ours) as usize,
            entities_added_theirs: (self.entities_added_theirs
                + file.entities_added_theirs) as usize,
            entities_deleted: (self.entities_deleted + file.entities_deleted) as usize,
            used_fallback: self.used_fallback || file.used_fallback,
            semantic_warnings: (self.semantic_warnings + file.semantic_warnings) as usize,
            resolved_via_diffy: (self.resolved_via_diffy + file.resolved_via_diffy) as usize,
            resolved_via_inner_merge: (self.resolved_via_inner_merge
                + file.resolved_via_inner_merge) as usize,
            references_rewritten: (self.references_rewritten + file.references_rewritten) as usize,
        }
    }

    /// No line of the sum of two summaries overflows.
    pub open spec fn fits(self, file: MergeStats) -> bool {
        &&& self.entities_unchanged + file.entities_unchanged <= usize::MAX
        &&& self.entities_ours_only + file.entities_ours_only <= usize::MAX
        &&& self.entities_theirs_only + file.entities_theirs_only <= usize::MAX
        &&& self.entities_both_changed_merged + file.entities_both_changed_merged <= usize::MAX
        &&& self.entities_conflicted + file.entities_conflicted <= usize::MAX
        &&& self.entities_added_ours + file.entities_added_ours <= usize::MAX
        &&& self.entities_added_theirs + file.entities_added_theirs <= usize::MAX
        &&& self.entities_deleted + file.entities_deleted <= usize::MAX
        &&& self.semantic_warnings + file.semantic_warnings <= usize::MAX
        &&& self.resolved_via_diffy + file.resolved_via_diffy <= usize::MAX
        &&& self.resolved_via_inner_merge + file.resolved_via_inner_merge <= usize::MAX
        &&& self.references_rewritten + file.references_rewritten <= usize::MAX
    }

    /// Fold one file's summary into a multi-file total.
    pub fn absorb(&mut self, file: &MergeStats)
        requires
            old(self).fits(*file),
        ensures
            *final(self) == old(self).sum(*file),
    {
        self.entities_unchanged = self.entities_unchanged + file.entities_unchanged;
        self.entities_ours_only = self.entities_ours_only + file.entities_ours_only;
        self.entities_theirs_only = self.entities_theirs_only + file.entities_theirs_only;
        self.entities_both_changed_merged = self.entities_both_changed_merged
            + file.entities_both_changed_merged;
        self.entities_conflicted = self.entities_conflicted + file.entities_conflicted;
        self.entities_added_ours = self.entities_added_ours + file.entities_added_ours;
        self.entities_added_theirs = self.entities_added_theirs + file.entities_added_theirs;
        self.entities_deleted = self.entities_deleted + file.entities_deleted;
        self.used_fallback = self.used_fallback || file.used_fallback;
        self.semantic_warnings = self.semantic_warnings + file.semantic_warnings;
        self.resolved_via_diffy = self.resolved_via_diffy + file.resolved_via_diffy;
        self.resolved_via_inner_merge = self.resolved_via_inner_merge
            + file.resolved_via_inner_merge;
        self.references_rewritten = self.references_rewritten + file.references_rewritten;
    }

    /// The entities composed rather than handed back.
    pub open spec fn composed(self) -> int {
        self.entities_ours_only + self.entities_theirs_only + self.entities_both_changed_merged
    }

    /// Entities composed rather than handed back: a change survived that the
    /// other side did not make.
    pub fn auto_resolved(&self) -> (r: usize)
        requires
            self.composed() <= usize::MAX,
        ensures
            r == self.composed(),
    {
        self.entities_ours_only + self.entities_theirs_only + self.entities_both_changed_merged
    }

    /// The confidence in a merge: the further down into an entity it had to go to
    /// get a clean answer, the less the clean answer is worth.
    pub open spec fn trust(self) -> Seq<char> {
        if self.entities_conflicted > 0 {
            "conflict"@
        } else if self.resolved_via_inner_merge > 0 || self.used_fallback {
            "medium"@
        } else if self.resolved_via_diffy > 0 {
            "high"@
        } else {
            "very_high"@
        }
    }

    /// Overall merge confidence, as one of four stable strings.
    pub fn confidence(&self) -> (r: &'static str)
        ensures
            r@ == self.trust(),
    {
        if self.entities_conflicted > 0 {
            "conflict"
        } else if self.resolved_via_inner_merge > 0 || self.used_fallback {
            "medium"
        } else if self.resolved_via_diffy > 0 {
            "high"
        } else {
            "very_high"
        }
    }

    /// One line of the summary, where there is something to say.
    pub open spec fn line(label: Seq<char>, n: usize) -> Seq<char> {
        if n > 0 {
            label + decimal(n as nat)
        } else {
            Seq::empty()
        }
    }

    /// The summary in words.
    pub open spec fn phrase(self) -> Seq<char> {
        "unchanged: "@ + decimal(self.entities_unchanged as nat) + Self::line(
            ", ours-only: "@,
            self.entities_ours_only,
        ) + Self::line(", theirs-only: "@, self.entities_theirs_only) + Self::line(
            ", auto-merged: "@,
            self.entities_both_changed_merged,
        ) + Self::line(", added-ours: "@, self.entities_added_ours) + Self::line(
            ", added-theirs: "@,
            self.entities_added_theirs,
        ) + Self::line(", deleted: "@, self.entities_deleted) + Self::line(
            ", CONFLICTS: "@,
            self.entities_conflicted,
        ) + Self::line(", semantic-warnings: "@, self.semantic_warnings) + (
        if self.used_fallback {
            " (line-level fallback)"@
        } else {
            Seq::empty()
        })
    }

    /// The summary in words.
    pub fn to_text(&self) -> (r: String)
        ensures
            r@ == self.phrase(),
    {
        let mut out: Vec<char> = Vec::new();
        push_text(&mut out, "unchanged: ");
        push_number(&mut out, self.entities_unchanged);
        push_line(&mut out, ", ours-only: ", self.entities_ours_only);
        push_line(&mut out, ", theirs-only: ", self.entities_theirs_only);
        push_line(&mut out, ", auto-merged: ", self.entities_both_changed_merged);
        push_line(&mut out, ", added-ours: ", self.entities_added_ours);
        push_line(&mut out, ", added-theirs: ", self.entities_added_theirs);
        push_line(&mut out, ", deleted: ", self.entities_deleted);
        push_line(&mut out, ", CONFLICTS: ", self.entities_conflicted);
        push_line(&mut out, ", semantic-warnings: ", self.semantic_warnings);
        if self.used_fallback {
            push_text(&mut out, " (line-level fallback)");
        }
        proof {
            assert(out@ =~= self.phrase());
        }
        string_of(out.as_slice())
    }
}

fn push_line(out: &mut Vec<char>, label: &str, n: usize)
    ensures
        final(out)@ == old(out)@ + MergeStats::line(label@, n),
{
    let ghost before = out@;
    if n > 0 {
        push_text(out, label);
        push_number(out, n);
    }
    proof {
        assert(out@ =~= before + MergeStats::line(label@, n));
    }
}


proof fn codes_name_dimensions(text: bool, syntax: bool, functional: bool)
    ensures
        complexity_for(text, syntax, functional).code().contains('T') <==> text,
        complexity_for(text, syntax, functional).code().contains('S') <==> syntax,
        complexity_for(text, syntax, functional).code().contains('F') <==> functional,
{
    reveal_strlit("T");
    reveal_strlit("S");
    reveal_strlit("F");
    reveal_strlit("T+S");
    reveal_strlit("T+F");
    reveal_strlit("S+F");
    reveal_strlit("T+S+F");
    reveal_strlit("?");
    let c = complexity_for(text, syntax, functional).code();
    if text {
        assert(c[0] == 'T');
    }
    if syntax {
        assert(if text {
            c[2] == 'S'
        } else {
            c[0] == 'S'
        });
    }
    if functional {
        assert(c[c.len() - 1] == 'F');
    }
}

/// A change is classified by where it is: an unchanged text is no change; one whose
/// signature lines stay changes no syntax; one whose body lines stay, comments aside,
/// changes nothing functional; and every change of a line is of some kind.
pub proof fn a_change_is_classified_by_where_it_is(base: Seq<char>, modified: Seq<char>)
    ensures
        ({
            let c = change_of(base, modified);
            let (b, m) = (lines(base), lines(modified));
            let (sb, sm) = (signature_part(b), signature_part(m));
            let (bb, bm) = (body_part(b), body_part(m));
            &&& base == modified ==> !c.text && !c.syntax && !c.functional
            &&& sb == sm ==> !c.syntax
            &&& bb == bm ==> !c.functional
            &&& code_lines(bb, bb.len() as int) == code_lines(bm, bm.len() as int)
                ==> !c.functional
            &&& c.syntax ==> sb != sm
            &&& c.text || c.syntax || c.functional <==> sb != sm || bb != bm
            &&& c.syntax && c.functional ==> sb != sm && bb != bm
        }),
{
}

/// The complexity of a conflict names every dimension that either side's change touches,
/// and no other.
pub proof fn a_complexity_names_what_either_side_touched(
    base: Option<Seq<char>>,
    ours: Option<Seq<char>>,
    theirs: Option<Seq<char>>,
)
    ensures
        ({
            let code = complexity_of(base, ours, theirs).code();
            let o = change_of(or_empty(base), or_empty(ours));
            let t = change_of(or_empty(base), or_empty(theirs));
            &&& code.contains('T') <==> o.text || t.text
            &&& code.contains('S') <==> o.syntax || t.syntax
            &&& code.contains('F') <==> o.functional || t.functional
        }),
{
    let o = change_of(or_empty(base), or_empty(ours));
    let t = change_of(or_empty(base), or_empty(theirs));
    codes_name_dimensions(o.text || t.text, o.syntax || t.syntax, o.functional || t.functional);
}

/// How far a merge had to go: nowhere, to the lines of a body, inside an entity or to the
/// whole file's lines, or to a reader.
pub open spec fn depth_of(s: MergeStats) -> int {
    if s.entities_conflicted > 0 {
        3
    } else if s.resolved_via_inner_merge > 0 || s.used_fallback {
        2
    } else if s.resolved_via_diffy > 0 {
        1
    } else {
        0
    }
}

/// The confidence falls with how far the merge had to go, and a total is trusted no more
/// than the least trusted of its files.
pub proof fn a_total_is_trusted_as_its_worst_file(a: MergeStats, b: MergeStats)
    requires
        a.fits(b),
    ensures
        depth_of(a.sum(b)) == if depth_of(a) > depth_of(b) {
            depth_of(a)
        } else {
            depth_of(b)
        },
        a.trust() == "conflict"@ <==> depth_of(a) == 3,
        a.trust() == "medium"@ <==> depth_of(a) == 2,
        a.trust() == "high"@ <==> depth_of(a) == 1,
        a.trust() == "very_high"@ <==> depth_of(a) == 0,
        a.sum(b).counted() == a.counted() + b.counted(),
        a.sum(b).entities_conflicted == a.entities_conflicted + b.entities_conflicted,
        a.sum(b) == b.sum(a),
{
    reveal_strlit("very_high");
    reveal_strlit("high");
    reveal_strlit("medium");
    reveal_strlit("conflict");
    assert("very_high"@.len() == 9);
    assert("high"@.len() == 4);
    assert("medium"@.len() == 6);
    assert("conflict"@.len() == 8);
}


impl Sides {
    /// Does every side that has text have lines in the hole, and all of them this one in
    /// front?
    pub open spec fn all_open_with(self, line: Seq<char>) -> bool {
        &&& self.ours matches Some(s) ==> self.hole(s).len() > 0 && self.hole(s)[0] == line
        &&& self.base matches Some(s) ==> self.hole(s).len() > 0 && self.hole(s)[0] == line
        &&& self.theirs matches Some(s) ==> self.hole(s).len() > 0 && self.hole(s)[0] == line
    }

    /// Does every side that has text have lines in the hole, and all of them this one at
    /// the end?
    pub open spec fn all_close_with(self, line: Seq<char>) -> bool {
        &&& self.ours matches Some(s) ==> self.hole(s).len() > 0 && self.hole(s).last() == line
        &&& self.base matches Some(s) ==> self.hole(s).len() > 0 && self.hole(s).last() == line
        &&& self.theirs matches Some(s) ==> self.hole(s).len() > 0 && self.hole(s).last() == line
    }

    proof fn prefix_stops(self, i: int)
        requires
            0 <= i <= self.first().len(),
        ensures
            self.prefix_from(i) < self.first().len() ==> !self.agree_at(self.prefix_from(i)),
        decreases self.first().len() - i,
    {
        if i < self.first().len() && self.agree_at(i) {
            self.prefix_stops(i + 1);
        }
    }

    proof fn suffix_stops(self, p: int, k: int)
        requires
            0 <= p,
            0 <= k <= self.first().len() - p,
        ensures
            self.suffix_from(p, k) < self.first().len() - p ==> !self.agree_back(
                p,
                self.suffix_from(p, k),
            ),
        decreases self.first().len() - p - k,
    {
        if k < self.first().len() - p && self.agree_back(p, k) {
            self.suffix_stops(p, k + 1);
        }
    }

    /// The hole is where the sides differ: of two sides or more, no line that opens or
    /// closes the hole is in it on every side. A side that has nobody to agree with is
    /// all hole.
    #[verifier::spinoff_prover]
    #[verifier::rlimit(40)]
    pub proof fn the_hole_is_where_the_sides_differ(self, line: Seq<char>)
        ensures
            self.present() >= 2 ==> !self.all_open_with(line) && !self.all_close_with(line),
            self.present() < 2 ==> self.frame_prefix().len() == 0 && self.frame_suffix().len() == 0
                && self.hole(self.first()) == self.first(),
    {
        let f = self.first();
        if self.present() >= 2 {
            self.prefix_bounds(0);
            let p = self.prefix();
            self.suffix_bounds(p, 0);
            let q = self.suffix();
            self.prefix_stops(0);
            self.suffix_stops(p, 0);
            if let Some(s) = self.ours {
                self.frame_and_hole_tile(s);
            }
            if let Some(s) = self.base {
                self.frame_and_hole_tile(s);
            }
            if let Some(s) = self.theirs {
                self.frame_and_hole_tile(s);
            }
            assert(self.ours == Some(f) || self.base == Some(f) || self.theirs == Some(f));
            if self.all_open_with(line) {
                assert(f[p] == self.hole(f)[0]);
                assert(self.agree_at(p));
            }
            if self.all_close_with(line) {
                assert(f[f.len() - 1 - q] == self.hole(f).last());
                assert(self.agree_back(p, q));
            }
        } else {
            assert(self.hole(f) =~= f);
        }
    }
}

/// What a refusal quotes, both sides had an opinion about: a line is among the collisions
/// exactly where it is one of a hunk that both sides edited.
pub proof fn a_collision_is_of_a_contested_hunk(hs: Seq<HunkView>, n: int, l: Seq<char>)
    requires
        0 <= n <= hs.len(),
    ensures
        contested_lines(hs, n).contains(l) <==> exists|k: int|
            0 <= k < n && (#[trigger] hs[k]).ours.action != SideAction::Untouched
                && hs[k].theirs.action != SideAction::Untouched && hs[k].collision.contains(l),
        contested_count(hs, n) > 0 <==> exists|k: int|
            0 <= k < n && (#[trigger] hs[k]).ours.action != SideAction::Untouched
                && hs[k].theirs.action != SideAction::Untouched,
    decreases n,
{
    if n > 0 {
        a_collision_is_of_a_contested_hunk(hs, n - 1, l);
        let front = contested_lines(hs, n - 1);
        let all = contested_lines(hs, n);
        let h = hs[n - 1];
        if front.contains(l) {
            let i = choose|i: int| 0 <= i < front.len() && front[i] == l;
            assert(all[i] == l);
        }
        if is_contested(h) {
            assert(hs[n - 1].ours.action != SideAction::Untouched);
            if h.collision.contains(l) {
                let i = choose|i: int| 0 <= i < h.collision.len() && h.collision[i] == l;
                assert(all[front.len() + i] == l);
            }
            if all.contains(l) && !front.contains(l) {
                let i = choose|i: int| 0 <= i < all.len() && all[i] == l;
                if i < front.len() {
                    assert(front[i] == l);
                }
                assert(h.collision[i - front.len()] == l);
            }
        }
    }
}

} // verus!
