//! The lifetime merge counter. It is a counter and not a log: no paths, no names, no
//! times beyond the first and the last run, and no merge decision consults it.

use vstd::prelude::*;
use crate::conflict::MergeStats;
use crate::text::{chars_of, decimal, push_text, string_of};
use crate::v2::types::opt_view;

verus! {

broadcast use vstd::string::group_string_axioms;

/// What was merged so far.
#[derive(Debug, Clone, PartialEq, Eq)]
pub struct WeaveLifetimeStats {
    pub version: u32,
    pub first_run: Option<String>,
    pub last_run: Option<String>,
    pub total_merges: u64,
    pub total_entities_processed: u64,
    pub conflicts_auto_resolved: u64,
    pub conflicts_unresolved: u64,
    pub confidence_very_high: u64,
    pub confidence_high: u64,
    pub confidence_medium: u64,
    pub confidence_conflict: u64,
}

/// A [`WeaveLifetimeStats`] with its strings read as texts.
pub struct LifetimeView {
    pub version: int,
    pub first_run: Option<Seq<char>>,
    pub last_run: Option<Seq<char>>,
    pub total_merges: int,
    pub total_entities_processed: int,
    pub conflicts_auto_resolved: int,
    pub conflicts_unresolved: int,
    pub confidence_very_high: int,
    pub confidence_high: int,
    pub confidence_medium: int,
    pub confidence_conflict: int,
}

impl View for WeaveLifetimeStats {
    type V = LifetimeView;

    open spec fn view(&self) -> LifetimeView {
        LifetimeView {
            version: self.version as int,
            first_run: opt_view(self.first_run),
            last_run: opt_view(self.last_run),
            total_merges: self.total_merges as int,
            total_entities_processed: self.total_entities_processed as int,
            conflicts_auto_resolved: self.conflicts_auto_resolved as int,
            conflicts_unresolved: self.conflicts_unresolved as int,
            confidence_very_high: self.confidence_very_high as int,
            confidence_high: self.confidence_high as int,
            confidence_medium: self.confidence_medium as int,
            confidence_conflict: self.confidence_conflict as int,
        }
    }
}

impl Default for WeaveLifetimeStats {
    /// Nothing merged yet.
    fn default() -> (r: Self)
        ensures
            r@ == (LifetimeView {
                version: 0,
                first_run: None,
                last_run: None,
                total_merges: 0,
                total_entities_processed: 0,
                conflicts_auto_resolved: 0,
                conflicts_unresolved: 0,
                confidence_very_high: 0,
                confidence_high: 0,
                confidence_medium: 0,
                confidence_conflict: 0,
            }),
    {
        WeaveLifetimeStats {
            version: 0,
            first_run: None,
            last_run: None,
            total_merges: 0,
            total_entities_processed: 0,
            conflicts_auto_resolved: 0,
            conflicts_unresolved: 0,
            confidence_very_high: 0,
            confidence_high: 0,
            confidence_medium: 0,
            confidence_conflict: 0,
        }
    }
}

// ---------------------------------------------------------------------------
// Where the counter lives
// ---------------------------------------------------------------------------

/// A path with one component more.
pub open spec fn joined(path: Seq<char>, name: Seq<char>) -> Seq<char> {
    if path.len() == 0 || path.last() == '/' {
        path + name
    } else {
        path.push('/') + name
    }
}

fn push_component(path: &mut Vec<char>, name: &str)
    ensures
        final(path)@ == joined(old(path)@, name@),
{
    let n: usize = path.len();
    if n > 0 && path[n - 1] != '/' {
        path.push('/');
    }
    push_text(path, name);
}

/// The conventional location below the home directory, or `None` where there is no
/// home directory.
pub fn default_path(home: Option<&str>) -> (r: Option<String>)
    ensures
        match home {
            Some(h) => r matches Some(p) && p@ == joined(joined(h@, ".weave"@), "stats.json"@),
            None => r is None,
        },
{
    match home {
        Some(h) => {
            let mut path = chars_of(h);
            push_component(&mut path, ".weave");
            push_component(&mut path, "stats.json");
            Some(string_of(path.as_slice()))
        },
        None => None,
    }
}

// ---------------------------------------------------------------------------
// Times
// ---------------------------------------------------------------------------

/// Is the year a leap year?
pub open spec fn leap(y: int) -> bool {
    y % 4 == 0 && (y % 100 != 0 || y % 400 == 0)
}

/// How many days the year has.
pub open spec fn year_days(y: int) -> int {
    if leap(y) {
        366
    } else {
        365
    }
}

/// How many days the month has, counting months from zero.
pub open spec fn month_days(y: int, m: int) -> int {
    if m == 1 {
        if leap(y) {
            29
        } else {
            28
        }
    } else if m == 3 || m == 5 || m == 8 || m == 10 {
        30
    } else {
        31
    }
}

/// The days from the first of January 1970 to that of a later year.
pub open spec fn days_before_year(y: int) -> int
    decreases y - 1970,
{
    if y <= 1970 {
        0
    } else {
        days_before_year(y - 1) + year_days(y - 1)
    }
}

/// The days from the start of the year to that of the month.
pub open spec fn days_before_month(y: int, m: int) -> int
    decreases m,
{
    if m <= 0 {
        0
    } else {
        days_before_month(y, m - 1) + month_days(y, m - 1)
    }
}

/// Is this the date of a day, counted from the first of January 1970? The year, the
/// month and the day of the month, the latter two from zero.
pub open spec fn is_date(days: int, y: int, m: int, d: int) -> bool {
    &&& y >= 1970
    &&& 0 <= m < 12
    &&& 0 <= d < month_days(y, m)
    &&& days == days_before_year(y) + days_before_month(y, m) + d
}

/// A number in decimal digits, with zeros in front up to the width.
pub open spec fn padded(n: nat, w: nat) -> Seq<char> {
    if decimal(n).len() >= w {
        decimal(n)
    } else {
        crate::text::repeat('0', (w - decimal(n).len()) as nat) + decimal(n)
    }
}

/// A date and a time of day, as a timestamp.
pub open spec fn stamp(y: int, m: int, d: int, secs: int) -> Seq<char> {
    padded(y as nat, 4) + "-"@ + padded((m + 1) as nat, 2) + "-"@ + padded((d + 1) as nat, 2) + "T"@
        + padded((secs / 3600) as nat, 2) + ":"@ + padded(((secs % 3600) / 60) as nat, 2) + ":"@
        + padded((secs % 60) as nat, 2) + "Z"@
}

fn push_decimal(out: &mut Vec<char>, n: u64)
    ensures
        final(out)@ == old(out)@ + decimal(n as nat),
    decreases n,
{
    let ghost before = out@;
    if n >= 10 {
        push_decimal(out, n / 10);
    }
    out.push((48 + (n % 10) as u8) as char);
    proof {
        assert(out@ =~= before + decimal(n as nat));
    }
}

fn push_wide(out: &mut Vec<char>, n: u64, w: usize)
    ensures
        final(out)@ == old(out)@ + padded(n as nat, w as nat),
{
    let ghost held = out@;
    let mut digits: Vec<char> = Vec::new();
    push_decimal(&mut digits, n);
    proof {
        assert(digits@ =~= decimal(n as nat));
    }
    let len: usize = digits.len();
    if len < w {
        let zeros = crate::text::repeated('0', w - len);
        crate::text::push_all(out, zeros.as_slice());
    }
    crate::text::push_all(out, digits.as_slice());
    proof {
        assert(out@ =~= held + padded(n as nat, w as nat));
    }
}

proof fn year_days_sum(y: int)
    requires
        y >= 1970,
    ensures
        days_before_year(y) >= 365 * (y - 1970),
    decreases y - 1970,
{
    if y > 1970 {
        year_days_sum(y - 1);
    }
}

proof fn year_is_twelve_months(y: int)
    ensures
        days_before_month(y, 12) == year_days(y),
{
    reveal_with_fuel(days_before_month, 13);
}

fn is_leap(y: u64) -> (r: bool)
    ensures
        r == leap(y as int),
{
    y % 4 == 0 && (y % 100 != 0 || y % 400 == 0)
}

fn days_in_month(y: u64, m: u64) -> (r: u64)
    ensures
        r == month_days(y as int, m as int),
{
    if m == 1 {
        if is_leap(y) {
            29
        } else {
            28
        }
    } else if m == 3 || m == 5 || m == 8 || m == 10 {
        30
    } else {
        31
    }
}

/// The year, the month and the day of the month of a day that is counted from the
/// first of January 1970. Months and days of the month count from zero.
pub fn date_of(days: u64) -> (r: (u64, u64, u64))
    requires
        days <= u64::MAX / 86400,
    ensures
        is_date(days as int, r.0 as int, r.1 as int, r.2 as int),
{
    let mut y: u64 = 1970;
    let mut rest: u64 = days;
    loop
        invariant
            1970 <= y,
            days <= u64::MAX / 86400,
            rest <= days,
            days == days_before_year(y as int) + rest,
        ensures
            1970 <= y,
            days == days_before_year(y as int) + rest,
            rest < year_days(y as int),
        decreases rest,
    {
        proof {
            year_days_sum(y as int);
        }
        let len: u64 = if is_leap(y) {
            366
        } else {
            365
        };
        if rest < len {
            break ;
        }
        rest = rest - len;
        y = y + 1;
    }
    let mut m: u64 = 0;
    proof {
        year_is_twelve_months(y as int);
    }
    loop
        invariant
            1970 <= y,
            m < 12,
            days == days_before_year(y as int) + days_before_month(y as int, m as int) + rest,
            days_before_month(y as int, m as int) + rest < year_days(y as int),
            days_before_month(y as int, 12) == year_days(y as int),
        ensures
            is_date(days as int, y as int, m as int, rest as int),
        decreases 12 - m,
    {
        let len: u64 = days_in_month(y, m);
        if rest < len {
            break ;
        }
        proof {
            if m == 11 {
                assert(days_before_month(y as int, 12) == days_before_month(y as int, 11)
                    + month_days(y as int, 11));
            }
        }
        rest = rest - len;
        m = m + 1;
    }
    (y, m, rest)
}

proof fn months_add_up(y: int, m: int, n: int)
    requires
        0 <= m < n <= 12,
    ensures
        days_before_month(y, m) + month_days(y, m) <= days_before_month(y, n),
    decreases n - m,
{
    if n > m + 1 {
        months_add_up(y, m, n - 1);
    }
}

proof fn years_add_up(y: int, z: int)
    requires
        1970 <= y < z,
    ensures
        days_before_year(y) + year_days(y) <= days_before_year(z),
    decreases z - y,
{
    if z > y + 1 {
        years_add_up(y, z - 1);
    }
}

/// A day has one date.
pub proof fn a_day_has_one_date(days: int, y: int, m: int, d: int, z: int, n: int, e: int)
    requires
        is_date(days, y, m, d),
        is_date(days, z, n, e),
    ensures
        y == z && m == n && d == e,
{
    year_is_twelve_months(y);
    year_is_twelve_months(z);
    months_add_up(y, m, 12);
    months_add_up(z, n, 12);
    month_starts(y, m);
    month_starts(z, n);
    if y < z {
        years_add_up(y, z);
    } else if z < y {
        years_add_up(z, y);
    } else if m < n {
        months_add_up(y, m, n);
    } else if n < m {
        months_add_up(y, n, m);
    }
}

proof fn month_starts(y: int, m: int)
    requires
        0 <= m <= 12,
    ensures
        days_before_month(y, m) >= 0,
    decreases m,
{
    if m > 0 {
        month_starts(y, m - 1);
    }
}

/// The timestamp of a second, counted from the first of January 1970.
pub fn iso_time(secs: u64) -> (r: String)
    ensures
        exists|y: int, m: int, d: int|
            is_date((secs / 86400) as int, y, m, d) && r@ == #[trigger] stamp(
                y,
                m,
                d,
                (secs % 86400) as int,
            ),
{
    let days: u64 = secs / 86400;
    let time: u64 = secs % 86400;
    proof {
        assert(days <= u64::MAX / 86400) by (nonlinear_arith)
            requires
                days == secs / 86400,
                secs <= u64::MAX,
        ;
    }
    let (y, m, d) = date_of(days);
    proof {
        year_days_sum(y as int);
        month_starts(y as int, m as int);
    }
    let mut out: Vec<char> = Vec::new();
    push_wide(&mut out, y, 4);
    push_text(&mut out, "-");
    push_wide(&mut out, m + 1, 2);
    push_text(&mut out, "-");
    push_wide(&mut out, d + 1, 2);
    push_text(&mut out, "T");
    push_wide(&mut out, time / 3600, 2);
    push_text(&mut out, ":");
    push_wide(&mut out, (time % 3600) / 60, 2);
    push_text(&mut out, ":");
    push_wide(&mut out, time % 60, 2);
    push_text(&mut out, "Z");
    proof {
        assert(out@ =~= stamp(y as int, m as int, d as int, time as int));
    }
    string_of(out.as_slice())
}

// ---------------------------------------------------------------------------
// Counting
// ---------------------------------------------------------------------------

/// The number of entities that a merge processed.
pub open spec fn processed(stats: MergeStats) -> int {
    stats.composed() + stats.entities_unchanged + stats.entities_conflicted
        + stats.entities_added_ours + stats.entities_added_theirs + stats.entities_deleted
}

/// One more where the confidence is the given one.
pub open spec fn bump(n: int, trust: Seq<char>, bucket: Seq<char>) -> int {
    if trust == bucket {
        n + 1
    } else {
        n
    }
}

impl LifetimeView {
    /// The counter with one merge more, at a time.
    pub open spec fn recorded(self, stats: MergeStats, now: Seq<char>) -> LifetimeView {
        LifetimeView {
            version: 1,
            first_run: if self.first_run is Some {
                self.first_run
            } else {
                Some(now)
            },
            last_run: Some(now),
            total_merges: self.total_merges + 1,
            total_entities_processed: self.total_entities_processed + processed(stats),
            conflicts_auto_resolved: self.conflicts_auto_resolved + stats.composed(),
            conflicts_unresolved: self.conflicts_unresolved + stats.entities_conflicted,
            confidence_very_high: bump(self.confidence_very_high, stats.trust(), "very_high"@),
            confidence_high: bump(self.confidence_high, stats.trust(), "high"@),
            confidence_medium: bump(self.confidence_medium, stats.trust(), "medium"@),
            confidence_conflict: bump(self.confidence_conflict, stats.trust(), "conflict"@),
        }
    }

    /// No count overflows when the merge is recorded.
    pub open spec fn has_room(self, stats: MergeStats) -> bool {
        &&& processed(stats) <= usize::MAX
        &&& self.total_merges < u64::MAX
        &&& self.total_entities_processed + processed(stats) <= u64::MAX
        &&& self.conflicts_auto_resolved + stats.composed() <= u64::MAX
        &&& self.conflicts_unresolved + stats.entities_conflicted <= u64::MAX
        &&& bump(self.confidence_very_high, stats.trust(), "very_high"@) <= u64::MAX
        &&& bump(self.confidence_high, stats.trust(), "high"@) <= u64::MAX
        &&& bump(self.confidence_medium, stats.trust(), "medium"@) <= u64::MAX
        &&& bump(self.confidence_conflict, stats.trust(), "conflict"@) <= u64::MAX
    }
}

proof fn confidences_differ()
    ensures
        "very_high"@ != "high"@,
        "very_high"@ != "medium"@,
        "very_high"@ != "conflict"@,
        "high"@ != "medium"@,
        "high"@ != "conflict"@,
        "medium"@ != "conflict"@,
{
    reveal_strlit("very_high");
    reveal_strlit("high");
    reveal_strlit("medium");
    reveal_strlit("conflict");
    assert("very_high"@.len() == 9);
    assert("high"@.len() == 4);
    assert("medium"@.len() == 6);
    assert("conflict"@.len() == 8);
}

impl WeaveLifetimeStats {
    /// Record one merge, at the time `now`.
    pub fn record_merge(self, stats: &MergeStats, now: &str) -> (r: Self)
        requires
            self@.has_room(*stats),
        ensures
            r@ == self@.recorded(*stats, now@),
    {
        let mut out = self;
        if out.first_run.is_none() {
            out.first_run = Some(now.to_owned());
        }
        out.last_run = Some(now.to_owned());
        out.version = 1;
        out.total_merges = out.total_merges + 1;
        let auto_resolved: usize = stats.auto_resolved();
        let total: usize = auto_resolved + stats.entities_unchanged + stats.entities_conflicted
            + stats.entities_added_ours + stats.entities_added_theirs + stats.entities_deleted;
        out.total_entities_processed = out.total_entities_processed + total as u64;
        out.conflicts_auto_resolved = out.conflicts_auto_resolved + auto_resolved as u64;
        out.conflicts_unresolved = out.conflicts_unresolved + stats.entities_conflicted as u64;
        proof {
            confidences_differ();
        }
        if stats.entities_conflicted > 0 {
            out.confidence_conflict = out.confidence_conflict + 1;
        } else if stats.resolved_via_inner_merge > 0 || stats.used_fallback {
            out.confidence_medium = out.confidence_medium + 1;
        } else if stats.resolved_via_diffy > 0 {
            out.confidence_high = out.confidence_high + 1;
        } else {
            out.confidence_very_high = out.confidence_very_high + 1;
        }
        out
    }
}

/// Every merge is counted in exactly one bucket of confidence.
pub proof fn a_merge_is_counted_in_one_bucket(c: LifetimeView, stats: MergeStats, now: Seq<char>)
    ensures
        ({
            let d = c.recorded(stats, now);
            d.confidence_very_high + d.confidence_high + d.confidence_medium
                + d.confidence_conflict == c.confidence_very_high + c.confidence_high
                + c.confidence_medium + c.confidence_conflict + 1
        }),
{
    confidences_differ();
}


/// A record only adds up. The first run stays the first and the last is this one; what
/// was merged and what was left over are both among what was processed; and a merge that
/// left a conflict, and no other, is counted as one.
pub proof fn a_record_adds_one_merge(c: LifetimeView, stats: MergeStats, now: Seq<char>)
    ensures
        ({
            let d = c.recorded(stats, now);
            let solved = d.conflicts_auto_resolved - c.conflicts_auto_resolved;
            let left = d.conflicts_unresolved - c.conflicts_unresolved;
            &&& d.first_run is Some && (c.first_run is Some ==> d.first_run == c.first_run)
            &&& c.first_run is None ==> d.first_run == Some(now)
            &&& d.last_run == Some(now)
            &&& d.total_merges == c.total_merges + 1
            &&& solved >= 0 && left >= 0
            &&& d.total_entities_processed - c.total_entities_processed >= solved + left
            &&& left == stats.entities_conflicted
            &&& d.confidence_conflict == c.confidence_conflict + if stats.entities_conflicted > 0 {
                1int
            } else {
                0int
            }
        }),
{
    confidences_differ();
}

} // verus!
