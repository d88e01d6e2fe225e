//! When schedules and rules are active, and which domains are blocked at a
//! given moment.

use vstd::prelude::*;

use chrono::Timelike;

use crate::config::{Rule, Schedule};
use crate::domains::DomainSet;
use crate::text::{chars_of, string_views, trim_start};

verus! {

broadcast use vstd::string::group_string_axioms;

#[verifier::external_type_specification]
#[verifier::external_body]
pub struct ExParseError(chrono::format::ParseError);

// ---------------------------------------------------------------------------
// Days of the week
// ---------------------------------------------------------------------------

/// A day of the week.
#[derive(Debug, Clone, Copy, PartialEq, Eq, Structural)]
pub enum Weekday {
    Mon,
    Tue,
    Wed,
    Thu,
    Fri,
    Sat,
    Sun,
}

impl Weekday {
    /// The day before.
    pub open spec fn prev(self) -> Weekday {
        match self {
            Weekday::Mon => Weekday::Sun,
            Weekday::Tue => Weekday::Mon,
            Weekday::Wed => Weekday::Tue,
            Weekday::Thu => Weekday::Wed,
            Weekday::Fri => Weekday::Thu,
            Weekday::Sat => Weekday::Fri,
            Weekday::Sun => Weekday::Sat,
        }
    }

    /// The day after.
    pub open spec fn next(self) -> Weekday {
        match self {
            Weekday::Mon => Weekday::Tue,
            Weekday::Tue => Weekday::Wed,
            Weekday::Wed => Weekday::Thu,
            Weekday::Thu => Weekday::Fri,
            Weekday::Fri => Weekday::Sat,
            Weekday::Sat => Weekday::Sun,
            Weekday::Sun => Weekday::Mon,
        }
    }

    /// The day before.
    pub fn pred(&self) -> (r: Weekday)
        ensures
            r == self.prev(),
    {
        match self {
            Weekday::Mon => Weekday::Sun,
            Weekday::Tue => Weekday::Mon,
            Weekday::Wed => Weekday::Tue,
            Weekday::Thu => Weekday::Wed,
            Weekday::Fri => Weekday::Thu,
            Weekday::Sat => Weekday::Fri,
            Weekday::Sun => Weekday::Sat,
        }
    }
}

/// `c` lower-cased is `l`: an ASCII capital letter lower-cases to the
/// letter 32 code points above it, any other character to itself.
pub open spec fn lowers_to(c: char, l: char) -> bool {
    if 'A' <= c && c <= 'Z' {
        (c as int) + 32 == (l as int)
    } else {
        c == l
    }
}

/// `s` with its ASCII capital letters lower-cased reads `name`.
pub open spec fn reads_lower(s: Seq<char>, name: Seq<char>) -> bool {
    s.len() == name.len() && forall|i: int| 0 <= i < s.len() ==> lowers_to(s[i], name[i])
}

/// The day that `s` names, in any case: the English name or its first three
/// letters. (Only ASCII letters make up these names, and no other character
/// lower-cases to one of them, so ASCII case folding decides as full Unicode
/// lower-casing would.)
pub open spec fn weekday_named(s: Seq<char>) -> Option<Weekday> {
    let l = |name: Seq<char>| reads_lower(s, name);
    if l("mon"@) || l("monday"@) {
        Some(Weekday::Mon)
    } else if l("tue"@) || l("tuesday"@) {
        Some(Weekday::Tue)
    } else if l("wed"@) || l("wednesday"@) {
        Some(Weekday::Wed)
    } else if l("thu"@) || l("thursday"@) {
        Some(Weekday::Thu)
    } else if l("fri"@) || l("friday"@) {
        Some(Weekday::Fri)
    } else if l("sat"@) || l("saturday"@) {
        Some(Weekday::Sat)
    } else if l("sun"@) || l("sunday"@) {
        Some(Weekday::Sun)
    } else {
        None
    }
}

/// Whether `v`, lower-cased, reads `name`.
fn lower_matches(v: &Vec<char>, name: &str) -> (r: bool)
    ensures
        r == reads_lower(v@, name@),
{
    let n = chars_of(name);
    if v.len() != n.len() {
        return false;
    }
    let mut i: usize = 0;
    while i < v.len()
        invariant
            i <= v.len(),
            v.len() == n.len(),
            n@ == name@,
            forall|k: int| 0 <= k < i ==> lowers_to(v@[k], n@[k]),
        decreases v.len() - i,
    {
        let c = v[i];
        let same = if 'A' <= c && c <= 'Z' {
            let m = n[i];
            'a' <= m && m <= 'z' && (c as u32) + 32 == (m as u32)
        } else {
            c == n[i]
        };
        if !same {
            assert(!lowers_to(v@[i as int], name@[i as int]));
            return false;
        }
        i = i + 1;
    }
    true
}

/// The day that `day_str` names, in any case: "mon" or "monday" and so on.
pub fn parse_weekday(day_str: &str) -> (r: Option<Weekday>)
    ensures
        r == weekday_named(day_str@),
{
    let v = chars_of(day_str);
    if lower_matches(&v, "mon") || lower_matches(&v, "monday") {
        Some(Weekday::Mon)
    } else if lower_matches(&v, "tue") || lower_matches(&v, "tuesday") {
        Some(Weekday::Tue)
    } else if lower_matches(&v, "wed") || lower_matches(&v, "wednesday") {
        Some(Weekday::Wed)
    } else if lower_matches(&v, "thu") || lower_matches(&v, "thursday") {
        Some(Weekday::Thu)
    } else if lower_matches(&v, "fri") || lower_matches(&v, "friday") {
        Some(Weekday::Fri)
    } else if lower_matches(&v, "sat") || lower_matches(&v, "saturday") {
        Some(Weekday::Sat)
    } else if lower_matches(&v, "sun") || lower_matches(&v, "sunday") {
        Some(Weekday::Sun)
    } else {
        None
    }
}


// ---------------------------------------------------------------------------
// Times of day
// ---------------------------------------------------------------------------

/// A time of day as `chrono::NaiveTime` holds it: whole seconds since
/// midnight and nanoseconds (from 1,000,000,000 on, inside a leap second).
#[derive(Debug, Clone, Copy, PartialEq, Eq, Structural)]
pub struct TimeOfDay {
    pub secs: u32,
    pub nanos: u32,
}

/// `a` is not later than `b` (the order of `NaiveTime`: seconds, then
/// nanoseconds).
pub open spec fn time_le(a: TimeOfDay, b: TimeOfDay) -> bool {
    a.secs < b.secs || (a.secs == b.secs && a.nanos <= b.nanos)
}

/// Whether `a` is not later than `b`.
pub fn time_not_after(a: TimeOfDay, b: TimeOfDay) -> (r: bool)
    ensures
        r == time_le(a, b),
{
    a.secs < b.secs || (a.secs == b.secs && a.nanos <= b.nanos)
}

/// An ASCII digit.
pub open spec fn is_digit(c: char) -> bool {
    '0' <= c && c <= '9'
}

/// The value of an ASCII digit.
pub open spec fn digit_value(c: char) -> int {
    (c as int) - ('0' as int)
}

/// The number that the one or two ASCII digits at the start of `s` write,
/// and how many digits there are; `None` where `s` does not start with one.
pub open spec fn leading_number(s: Seq<char>) -> Option<(int, int)> {
    if s.len() >= 1 && is_digit(s[0]) {
        if s.len() >= 2 && is_digit(s[1]) {
            Some((10 * digit_value(s[0]) + digit_value(s[1]), 2))
        } else {
            Some((digit_value(s[0]), 1))
        }
    } else {
        None
    }
}

/// The time that `s` gives in the `%H:%M` format, as chrono reads it:
/// whitespace may come before the hour and before the minute; each is one or
/// two digits, the hour at most 23 and the minute at most 59; a `:` comes
/// right after the hour and nothing after the minute. The time has no
/// seconds and no nanoseconds.
pub open spec fn hm_time(s: Seq<char>) -> Option<TimeOfDay> {
    let a = trim_start(s);
    match leading_number(a) {
        None => None,
        Some((h, n)) => {
            let r = a.skip(n);
            if h > 23 || r.len() == 0 || r[0] != ':' {
                None
            } else {
                let b = trim_start(r.skip(1));
                match leading_number(b) {
                    None => None,
                    Some((m, k)) => if m > 59 || b.len() != k {
                        None
                    } else {
                        Some(TimeOfDay { secs: (h * 3600 + m * 60) as u32, nanos: 0 })
                    },
                }
            }
        },
    }
}

/// `chrono::NaiveTime::parse_from_str(s, fmt)` for the format `%H:%M`, its
/// time converted to seconds since midnight and nanoseconds: the time that
/// `hm_time` gives, and an error where it gives none (chrono's
/// `format/parse.rs`, `format/scan.rs` and `format/parsed.rs`).
#[verifier::external_body]
fn parse_naive_time(s: &str, fmt: &str) -> (r: Result<TimeOfDay, chrono::format::ParseError>)
    requires
        fmt@ == "%H:%M"@,
    ensures
        match r {
            Ok(t) => hm_time(s@) == Some(t),
            Err(_) => hm_time(s@) is None,
        },
{
    match chrono::NaiveTime::parse_from_str(s, fmt) {
        Ok(t) => Ok(TimeOfDay { secs: t.num_seconds_from_midnight(), nanos: t.nanosecond() }),
        Err(e) => Err(e),
    }
}

/// A local moment as the schedules read it: the day of the week and the
/// time of day.
#[derive(Debug, Clone, Copy, PartialEq, Eq, Structural)]
pub struct LocalMoment {
    pub weekday: Weekday,
    pub time: TimeOfDay,
}

// ---------------------------------------------------------------------------
// Schedules
// ---------------------------------------------------------------------------

/// The days that `days` names, in order, the others skipped.
pub open spec fn allowed_days(days: Seq<Seq<char>>) -> Seq<Weekday>
    decreases days.len(),
{
    if days.len() == 0 {
        seq![]
    } else {
        let rest = allowed_days(days.drop_last());
        match weekday_named(days.last()) {
            Some(w) => rest.push(w),
            None => rest,
        }
    }
}

/// A day counts where no day is named or `d` is one of those named.
pub open spec fn day_allowed(allowed: Seq<Weekday>, d: Weekday) -> bool {
    allowed.len() == 0 || allowed.contains(d)
}

/// Whether the window from `start` to `end` (both included) on the days
/// `allowed` holds the time `time` on the day `day`. A window whose end comes
/// before its start runs past midnight: it holds from the start on an allowed
/// day, and up to the end on the day after an allowed day.
pub open spec fn window_contains(
    start: TimeOfDay,
    end: TimeOfDay,
    allowed: Seq<Weekday>,
    day: Weekday,
    time: TimeOfDay,
) -> bool {
    if time_le(start, end) {
        day_allowed(allowed, day) && time_le(start, time) && time_le(time, end)
    } else {
        (day_allowed(allowed, day) && time_le(start, time)) || (day_allowed(allowed, day.prev())
            && time_le(time, end))
    }
}

/// The days that `days` names, in order; names of no day are skipped.
pub fn allowed_weekdays(days: &Vec<String>) -> (r: Vec<Weekday>)
    ensures
        r@ == allowed_days(string_views(days@)),
{
    let mut out: Vec<Weekday> = Vec::new();
    let mut i: usize = 0;
    while i < days.len()
        invariant
            i <= days.len(),
            out@ == allowed_days(string_views(days@).take(i as int)),
        decreases days.len() - i,
    {
        let ghost pre = string_views(days@).take(i as int);
        let ghost post = string_views(days@).take(i + 1);
        assert(post.drop_last() =~= pre);
        assert(post.last() == days@[i as int]@);
        match parse_weekday(days[i].as_str()) {
            Some(w) => out.push(w),
            None => {},
        }
        i = i + 1;
    }
    assert(string_views(days@).take(i as int) =~= string_views(days@));
    out
}

/// Whether `d` counts on the days `allowed`.
pub fn is_day_allowed(allowed: &Vec<Weekday>, d: Weekday) -> (r: bool)
    ensures
        r == day_allowed(allowed@, d),
        r == (allowed@.len() == 0 || allowed@.contains(d)),
{
    if allowed.len() == 0 {
        return true;
    }
    let mut i: usize = 0;
    while i < allowed.len()
        invariant
            i <= allowed.len(),
            forall|k: int| 0 <= k < i ==> allowed@[k] != d,
        decreases allowed.len() - i,
    {
        if allowed[i] == d {
            assert(allowed@[i as int] == d);
            return true;
        }
        i = i + 1;
    }
    false
}

/// Whether the window from `start` to `end` on the days `allowed` holds the
/// time `time` on the day `day`.
pub fn in_window(
    start: TimeOfDay,
    end: TimeOfDay,
    allowed: &Vec<Weekday>,
    day: Weekday,
    time: TimeOfDay,
) -> (r: bool)
    ensures
        r == window_contains(start, end, allowed@, day, time),
{
    if time_not_after(start, end) {
        is_day_allowed(allowed, day) && time_not_after(start, time) && time_not_after(time, end)
    } else {
        let today = is_day_allowed(allowed, day);
        let yesterday = is_day_allowed(allowed, day.pred());
        (today && time_not_after(start, time)) || (yesterday && time_not_after(time, end))
    }
}

impl Schedule {
    /// Whether the schedule holds the time `time` on the day `day`: never
    /// where its start or end does not parse as `%H:%M`.
    pub open spec fn active_on(&self, day: Weekday, time: TimeOfDay) -> bool {
        match (hm_time(self.start@), hm_time(self.end@)) {
            (Some(s), Some(e)) => window_contains(
                s,
                e,
                allowed_days(string_views(self.days@)),
                day,
                time,
            ),
            _ => false,
        }
    }

    /// The start time, read as `%H:%M`.
    pub fn start_time(&self) -> (r: Result<TimeOfDay, chrono::format::ParseError>)
        ensures
            r is Ok <==> hm_time(self.start@) is Some,
            r matches Ok(t) ==> hm_time(self.start@) == Some(t),
    {
        parse_naive_time(self.start.as_str(), "%H:%M")
    }

    /// The end time, read as `%H:%M`.
    pub fn end_time(&self) -> (r: Result<TimeOfDay, chrono::format::ParseError>)
        ensures
            r is Ok <==> hm_time(self.end@) is Some,
            r matches Ok(t) ==> hm_time(self.end@) == Some(t),
    {
        parse_naive_time(self.end.as_str(), "%H:%M")
    }

    /// Whether the schedule holds the moment `at`.
    pub fn is_active_at(&self, at: &LocalMoment) -> (r: bool)
        ensures
            r == self.active_on(at.weekday, at.time),
    {
        let start = match self.start_time() {
            Ok(t) => t,
            Err(_) => return false,
        };
        let end = match self.end_time() {
            Ok(t) => t,
            Err(_) => return false,
        };
        let allowed = allowed_weekdays(&self.days);
        in_window(start, end, &allowed, at.weekday, at.time)
    }
}

// ---------------------------------------------------------------------------
// Rules and blocked domains
// ---------------------------------------------------------------------------

impl Rule {
    /// A rule is active when one of its schedules is.
    pub open spec fn active_on(&self, day: Weekday, time: TimeOfDay) -> bool {
        exists|i: int| 0 <= i < self.schedules@.len() && (#[trigger] self.schedules@[i]).active_on(day, time)
    }

    /// Whether one of the rule's schedules holds the moment `at`.
    pub fn is_active_at(&self, at: &LocalMoment) -> (r: bool)
        ensures
            r == self.active_on(at.weekday, at.time),
            r == exists|k: int|
                0 <= k < self.schedules@.len() && (#[trigger] self.schedules@[k]).active_on(
                    at.weekday,
                    at.time,
                ),
    {
        let mut i: usize = 0;
        while i < self.schedules.len()
            invariant
                i <= self.schedules.len(),
                forall|k: int|
                    0 <= k < i ==> !(#[trigger] self.schedules@[k]).active_on(at.weekday, at.time),
            decreases self.schedules.len() - i,
        {
            if self.schedules[i].is_active_at(at) {
                return true;
            }
            i = i + 1;
        }
        false
    }
}

/// The domains that the rules `rules` block at the time `time` on the day
/// `day`: those of the active rules.
pub open spec fn blocked_names(rules: Seq<Rule>, day: Weekday, time: TimeOfDay) -> Set<Seq<char>> {
    Set::new(
        |d: Seq<char>|
            exists|i: int, j: int|
                0 <= i < rules.len() && rules[i].active_on(day, time) && 0 <= j
                    < rules[i].domains@.len() && (#[trigger] rules[i].domains@[j])@ == d,
    )
}

/// The names of the first `j` strings of `v`.
pub open spec fn names_upto(v: Seq<String>, j: int) -> Set<Seq<char>> {
    Set::new(|d: Seq<char>| exists|k: int| 0 <= k < j && (#[trigger] v[k])@ == d)
}

proof fn lemma_names_upto_step(v: Seq<String>, j: int)
    requires
        0 <= j < v.len(),
    ensures
        names_upto(v, j + 1) == names_upto(v, j).insert(v[j]@),
{
    assert forall|d: Seq<char>| names_upto(v, j + 1).contains(d) implies names_upto(v, j).insert(
        v[j]@,
    ).contains(d) by {
        let k = choose|k: int| 0 <= k < j + 1 && (#[trigger] v[k])@ == d;
        if k < j {
            assert(names_upto(v, j).contains(d));
        }
    }
    assert forall|d: Seq<char>| names_upto(v, j).insert(v[j]@).contains(d) implies names_upto(
        v,
        j + 1,
    ).contains(d) by {
        if d == v[j]@ {
            assert(v[j]@ == d);
        } else {
            let k = choose|k: int| 0 <= k < j && (#[trigger] v[k])@ == d;
            assert(v[k]@ == d);
        }
    }
    assert(names_upto(v, j + 1) =~= names_upto(v, j).insert(v[j]@));
}

/// The domains blocked at the moment `at`: the domains of every rule that
/// is active then.
pub fn get_blocked_domains(rules: &[Rule], at: &LocalMoment) -> (r: DomainSet)
    ensures
        r.wf(),
        r@.to_set() == blocked_names(rules@, at.weekday, at.time),
        forall|i: int, k: int, j: int|
            0 <= i < rules@.len() && 0 <= k < rules@[i].schedules@.len()
                && (#[trigger] rules@[i].schedules@[k]).active_on(at.weekday, at.time) && 0 <= j
                < rules@[i].domains@.len() ==> r@.contains((#[trigger] rules@[i].domains@[j])@),
        forall|d: Seq<char>|
            #[trigger] r@.contains(d) ==> exists|i: int, k: int, j: int|
                0 <= i < rules@.len() && 0 <= k < rules@[i].schedules@.len()
                    && (#[trigger] rules@[i].schedules@[k]).active_on(at.weekday, at.time) && 0
                    <= j < rules@[i].domains@.len() && (#[trigger] rules@[i].domains@[j])@ == d,
{
    let day = at.weekday;
    let time = at.time;
    let mut blocked = DomainSet::new();
    let mut i: usize = 0;
    while i < rules.len()
        invariant
            i <= rules.len(),
            day == at.weekday,
            time == at.time,
            blocked.wf(),
            blocked@.to_set() == blocked_names(rules@.take(i as int), day, time),
        decreases rules.len() - i,
    {
        let rule = &rules[i];
        let ghost before = blocked@.to_set();
        if rule.is_active_at(at) {
            let mut j: usize = 0;
            while j < rule.domains.len()
                invariant
                    i < rules.len(),
                    rule == rules@[i as int],
                    j <= rule.domains.len(),
                    blocked.wf(),
                    blocked@.to_set() == before.union(names_upto(rule.domains@, j as int)),
                decreases rule.domains.len() - j,
            {
                blocked.insert(rule.domains[j].clone());
                proof {
                    lemma_names_upto_step(rule.domains@, j as int);
                    assert(blocked@.to_set() =~= before.union(names_upto(rule.domains@, j + 1)));
                }
                j = j + 1;
            }
            let ghost mine = names_upto(rule.domains@, j as int);
            assert(blocked@.to_set() =~= blocked_names(rules@.take(i + 1), day, time)) by {
                let pre_r = rules@.take(i as int);
                let post_r = rules@.take(i + 1);
                assert forall|d: Seq<char>| blocked_names(post_r, day, time).contains(d) implies blocked@.to_set().contains(d) by {
                    let (a, b) = choose|a: int, b: int|
                        0 <= a < post_r.len() && post_r[a].active_on(day, time) && 0 <= b
                            < post_r[a].domains@.len() && (#[trigger] post_r[a].domains@[b])@ == d;
                    if a < i {
                        assert(pre_r[a] == post_r[a]);
                        assert(blocked_names(pre_r, day, time).contains(d));
                    } else {
                        assert(mine.contains(d));
                    }
                }
                assert forall|d: Seq<char>| blocked@.to_set().contains(d) implies blocked_names(post_r, day, time).contains(d) by {
                    if before.contains(d) {
                        let (a, b) = choose|a: int, b: int|
                            0 <= a < pre_r.len() && pre_r[a].active_on(day, time) && 0 <= b
                                < pre_r[a].domains@.len() && (#[trigger] pre_r[a].domains@[b])@ == d;
                        assert(post_r[a] == pre_r[a]);
                    } else {
                        assert(mine.contains(d));
                        let k = choose|k: int| 0 <= k < j && (#[trigger] rule.domains@[k])@ == d;
                        assert(post_r[i as int] == rule);
                        assert(post_r[i as int].domains@[k]@ == d);
                    }
                }
            }
        } else {
            assert(blocked@.to_set() =~= blocked_names(rules@.take(i + 1), day, time)) by {
                let pre_r = rules@.take(i as int);
                let post_r = rules@.take(i + 1);
                assert forall|d: Seq<char>| blocked_names(post_r, day, time).contains(d) implies blocked_names(pre_r, day, time).contains(d) by {
                    let (a, b) = choose|a: int, b: int|
                        0 <= a < post_r.len() && post_r[a].active_on(day, time) && 0 <= b
                            < post_r[a].domains@.len() && (#[trigger] post_r[a].domains@[b])@ == d;
                    assert(a < i);
                    assert(pre_r[a] == post_r[a]);
                }
                assert forall|d: Seq<char>| blocked_names(pre_r, day, time).contains(d) implies blocked_names(post_r, day, time).contains(d) by {
                    let (a, b) = choose|a: int, b: int|
                        0 <= a < pre_r.len() && pre_r[a].active_on(day, time) && 0 <= b
                            < pre_r[a].domains@.len() && (#[trigger] pre_r[a].domains@[b])@ == d;
                    assert(post_r[a] == pre_r[a]);
                }
            }
        }
        i = i + 1;
    }
    assert(rules@.take(i as int) =~= rules@);
    proof {
        lemma_blocked_names_exact(rules@, day, time);
        assert forall|d: Seq<char>| #[trigger] blocked@.contains(d) implies exists|a: int, k: int, b: int|
            0 <= a < rules@.len() && 0 <= k < rules@[a].schedules@.len()
                && (#[trigger] rules@[a].schedules@[k]).active_on(day, time) && 0 <= b
                < rules@[a].domains@.len() && (#[trigger] rules@[a].domains@[b])@ == d by {
            assert(blocked@.to_set().contains(d));
        }
    }
    blocked
}

/// The domains blocked at a moment are exactly the domains of the rules with
/// a schedule active then: every domain of every such rule is blocked, and
/// each blocked domain belongs to such a rule.
pub proof fn lemma_blocked_names_exact(rules: Seq<Rule>, day: Weekday, time: TimeOfDay)
    ensures
        forall|i: int, k: int, j: int|
            0 <= i < rules.len() && 0 <= k < rules[i].schedules@.len()
                && (#[trigger] rules[i].schedules@[k]).active_on(day, time) && 0 <= j
                < rules[i].domains@.len() ==> blocked_names(rules, day, time).contains(
                (#[trigger] rules[i].domains@[j])@,
            ),
        forall|d: Seq<char>|
            #[trigger] blocked_names(rules, day, time).contains(d) ==> exists|i: int, k: int, j: int|
                0 <= i < rules.len() && 0 <= k < rules[i].schedules@.len()
                    && (#[trigger] rules[i].schedules@[k]).active_on(day, time) && 0 <= j
                    < rules[i].domains@.len() && (#[trigger] rules[i].domains@[j])@ == d,
{
    assert forall|i: int, k: int, j: int|
        0 <= i < rules.len() && 0 <= k < rules[i].schedules@.len()
            && (#[trigger] rules[i].schedules@[k]).active_on(day, time) && 0 <= j
            < rules[i].domains@.len() implies blocked_names(rules, day, time).contains(
        (#[trigger] rules[i].domains@[j])@,
    ) by {
        lemma_rule_active_if_schedule(rules[i], k, day, time);
    }
    assert forall|d: Seq<char>| #[trigger] blocked_names(rules, day, time).contains(d) implies exists|
        i: int,
        k: int,
        j: int,
    |
        0 <= i < rules.len() && 0 <= k < rules[i].schedules@.len()
            && (#[trigger] rules[i].schedules@[k]).active_on(day, time) && 0 <= j
            < rules[i].domains@.len() && (#[trigger] rules[i].domains@[j])@ == d by {
        let (a, b) = choose|a: int, b: int|
            0 <= a < rules.len() && rules[a].active_on(day, time) && 0 <= b
                < rules[a].domains@.len() && (#[trigger] rules[a].domains@[b])@ == d;
        lemma_rule_active_has_schedule(rules[a], day, time);
        let k = choose|k: int|
            0 <= k < rules[a].schedules@.len() && (#[trigger] rules[a].schedules@[k]).active_on(
                day,
                time,
            );
        assert(rules[a].domains@[b]@ == d);
    }
}

/// A rule is active whenever one of its schedules is.
pub proof fn lemma_rule_active_if_schedule(rule: Rule, k: int, day: Weekday, time: TimeOfDay)
    requires
        0 <= k < rule.schedules@.len(),
        rule.schedules@[k].active_on(day, time),
    ensures
        rule.active_on(day, time),
{
}

/// A rule is active only where one of its schedules is.
pub proof fn lemma_rule_active_has_schedule(rule: Rule, day: Weekday, time: TimeOfDay)
    requires
        rule.active_on(day, time),
    ensures
        exists|k: int|
            0 <= k < rule.schedules@.len() && (#[trigger] rule.schedules@[k]).active_on(day, time),
{
}

// ---------------------------------------------------------------------------
// Laws of schedules
// ---------------------------------------------------------------------------

/// A window that runs past midnight holds from its start on an allowed day
/// until its end on the next day, whether or not that next day is allowed.
pub proof fn lemma_overnight_window(
    start: TimeOfDay,
    end: TimeOfDay,
    allowed: Seq<Weekday>,
    day: Weekday,
    evening: TimeOfDay,
    morning: TimeOfDay,
)
    requires
        !time_le(start, end),
        day_allowed(allowed, day),
        time_le(start, evening),
        time_le(morning, end),
    ensures
        window_contains(start, end, allowed, day, evening),
        window_contains(start, end, allowed, day.next(), morning),
{
    assert(day.next().prev() == day);
}

/// A window on no named day holds on every day alike.
pub proof fn lemma_no_days_means_every_day(
    start: TimeOfDay,
    end: TimeOfDay,
    d1: Weekday,
    d2: Weekday,
    time: TimeOfDay,
)
    ensures
        window_contains(start, end, seq![], d1, time) == window_contains(start, end, seq![], d2, time),
{
}

/// Where none of a schedule's day names names a day, no day is named, so the
/// schedule holds on every day alike.
pub proof fn lemma_unknown_day_names_ignored(days: Seq<Seq<char>>)
    requires
        forall|i: int| 0 <= i < days.len() ==> weekday_named(#[trigger] days[i]) is None,
    ensures
        allowed_days(days) == Seq::<Weekday>::empty(),
    decreases days.len(),
{
    if days.len() > 0 {
        assert(weekday_named(days[days.len() - 1]) is None);
        assert forall|i: int| 0 <= i < days.drop_last().len() implies weekday_named(
            #[trigger] days.drop_last()[i],
        ) is None by {
            assert(days.drop_last()[i] == days[i]);
        }
        lemma_unknown_day_names_ignored(days.drop_last());
    }
}
/// A day that the list names anywhere counts, as does every day where the
/// list is empty.
pub proof fn lemma_listed_day_allowed(allowed: Seq<Weekday>, d: Weekday)
    requires
        allowed.len() == 0 || allowed.contains(d),
    ensures
        day_allowed(allowed, d),
{
}

/// A day that counts is listed, unless the list is empty.
pub proof fn lemma_allowed_day_listed(allowed: Seq<Weekday>, d: Weekday)
    requires
        day_allowed(allowed, d),
        allowed.len() > 0,
    ensures
        exists|k: int| 0 <= k < allowed.len() && allowed[k] == d,
{
}

/// Every day that one of the day names names is among the allowed days, and
/// every allowed day is named by one of them.
pub proof fn lemma_allowed_days_named(days: Seq<Seq<char>>)
    ensures
        forall|k: int|
            0 <= k < days.len() && (#[trigger] weekday_named(days[k])) is Some ==> allowed_days(
                days,
            ).contains(weekday_named(days[k])->0),
        forall|d: Weekday|
            #[trigger] allowed_days(days).contains(d) ==> exists|k: int|
                0 <= k < days.len() && #[trigger] weekday_named(days[k]) == Some(d),
    decreases days.len(),
{
    if days.len() > 0 {
        let pre = days.drop_last();
        lemma_allowed_days_named(pre);
        let rest = allowed_days(pre);
        assert forall|k: int|
            0 <= k < days.len() && (#[trigger] weekday_named(days[k])) is Some implies allowed_days(
                days,
            ).contains(weekday_named(days[k])->0) by {
            let w = weekday_named(days[k])->0;
            if k < days.len() - 1 {
                assert(pre[k] == days[k]);
                assert(rest.contains(w));
                let m = choose|m: int| 0 <= m < rest.len() && rest[m] == w;
                match weekday_named(days.last()) {
                    Some(v) => {
                        assert(allowed_days(days) == rest.push(v));
                        assert(rest.push(v)[m] == w);
                    },
                    None => {},
                }
            } else {
                assert(days[k] == days.last());
                assert(allowed_days(days) == rest.push(w));
                assert(rest.push(w)[rest.len() as int] == w);
            }
        }
        assert forall|d: Weekday|
            #[trigger] allowed_days(days).contains(d) implies exists|k: int|
                0 <= k < days.len() && #[trigger] weekday_named(days[k]) == Some(d) by {
            let m = choose|m: int| 0 <= m < allowed_days(days).len() && allowed_days(days)[m] == d;
            match weekday_named(days.last()) {
                Some(v) => {
                    if m < rest.len() {
                        assert(rest.push(v)[m] == rest[m]);
                        assert(rest.contains(d));
                        let k = choose|k: int| 0 <= k < pre.len() && #[trigger] weekday_named(pre[k]) == Some(d);
                        assert(pre[k] == days[k]);
                    } else {
                        assert(days[days.len() - 1] == days.last());
                    }
                },
                None => {
                    assert(rest.contains(d));
                    let k = choose|k: int| 0 <= k < pre.len() && #[trigger] weekday_named(pre[k]) == Some(d);
                    assert(pre[k] == days[k]);
                },
            }
        }
    }
}

/// A schedule is active at a time inside its same-day window on any day
/// that one of its day names names (or on any day where it names none).
pub proof fn lemma_named_day_in_window(sched: Schedule, d: Weekday, t: TimeOfDay)
    requires
        hm_time(sched.start@) is Some,
        hm_time(sched.end@) is Some,
        time_le(hm_time(sched.start@)->0, hm_time(sched.end@)->0),
        time_le(hm_time(sched.start@)->0, t),
        time_le(t, hm_time(sched.end@)->0),
        allowed_days(string_views(sched.days@)).len() == 0 || exists|k: int|
            0 <= k < sched.days@.len() && #[trigger] weekday_named(sched.days@[k]@) == Some(d),
    ensures
        sched.active_on(d, t),
{
    let names = string_views(sched.days@);
    lemma_allowed_days_named(names);
    if allowed_days(names).len() > 0 {
        let k = choose|k: int| 0 <= k < sched.days@.len() && #[trigger] weekday_named(sched.days@[k]@) == Some(d);
        assert(names[k] == sched.days@[k]@);
        assert(weekday_named(names[k]) is Some);
    }
}

/// Two readings of `s` lower-cased agree.
proof fn lemma_reads_lower_one(s: Seq<char>, a: Seq<char>)
    requires
        reads_lower(s, a),
    ensures
        forall|b: Seq<char>| #[trigger] reads_lower(s, b) ==> b == a,
{
    assert forall|b: Seq<char>| #[trigger] reads_lower(s, b) implies b == a by {
        assert forall|i: int| 0 <= i < a.len() implies a[i] == b[i] by {
            assert(lowers_to(s[i], a[i]) && lowers_to(s[i], b[i]));
        }
        assert(a =~= b);
    }
}

/// Each day's English name and its first three letters, in any ASCII case,
/// name that day.
pub proof fn lemma_day_names(s: Seq<char>)
    ensures
        reads_lower(s, "mon"@) || reads_lower(s, "monday"@) ==> weekday_named(s) == Some(Weekday::Mon),
        reads_lower(s, "tue"@) || reads_lower(s, "tuesday"@) ==> weekday_named(s) == Some(Weekday::Tue),
        reads_lower(s, "wed"@) || reads_lower(s, "wednesday"@) ==> weekday_named(s) == Some(Weekday::Wed),
        reads_lower(s, "thu"@) || reads_lower(s, "thursday"@) ==> weekday_named(s) == Some(Weekday::Thu),
        reads_lower(s, "fri"@) || reads_lower(s, "friday"@) ==> weekday_named(s) == Some(Weekday::Fri),
        reads_lower(s, "sat"@) || reads_lower(s, "saturday"@) ==> weekday_named(s) == Some(Weekday::Sat),
        reads_lower(s, "sun"@) || reads_lower(s, "sunday"@) ==> weekday_named(s) == Some(Weekday::Sun),
{
    reveal_strlit("mon");
    reveal_strlit("monday");
    reveal_strlit("tue");
    reveal_strlit("tuesday");
    reveal_strlit("wed");
    reveal_strlit("wednesday");
    reveal_strlit("thu");
    reveal_strlit("thursday");
    reveal_strlit("fri");
    reveal_strlit("friday");
    reveal_strlit("sat");
    reveal_strlit("saturday");
    reveal_strlit("sun");
    reveal_strlit("sunday");
    let names = seq![
        "mon"@, "monday"@, "tue"@, "tuesday"@, "wed"@, "wednesday"@, "thu"@, "thursday"@,
        "fri"@, "friday"@, "sat"@, "saturday"@, "sun"@, "sunday"@,
    ];
    assert forall|a: int| 0 <= a < names.len() && reads_lower(s, #[trigger] names[a]) implies forall|
        b: int,
    | 0 <= b < names.len() && b != a ==> !reads_lower(s, #[trigger] names[b]) by {
        lemma_reads_lower_one(s, names[a]);
        assert forall|b: int| 0 <= b < names.len() && b != a implies !reads_lower(
            s,
            #[trigger] names[b],
        ) by {
            assert(names[b] != names[a]) by {
                if names[b].len() == names[a].len() {
                    assert(names[b][0] != names[a][0] || names[b][1] != names[a][1]);
                }
            }
        }
    }
    assert(names[0] == "mon"@ && names[1] == "monday"@ && names[2] == "tue"@ && names[3] == "tuesday"@);
    assert(names[4] == "wed"@ && names[5] == "wednesday"@ && names[6] == "thu"@ && names[7] == "thursday"@);
    assert(names[8] == "fri"@ && names[9] == "friday"@ && names[10] == "sat"@ && names[11] == "saturday"@);
    assert(names[12] == "sun"@ && names[13] == "sunday"@);
}

/// The day names as written in lower case, capitalised, or in capitals.
pub proof fn lemma_day_names_written()
    ensures
        weekday_named("mon"@) == Some(Weekday::Mon) && weekday_named("Monday"@) == Some(Weekday::Mon) && weekday_named("MON"@) == Some(Weekday::Mon),
        weekday_named("tue"@) == Some(Weekday::Tue) && weekday_named("Tuesday"@) == Some(Weekday::Tue) && weekday_named("TUE"@) == Some(Weekday::Tue),
        weekday_named("wed"@) == Some(Weekday::Wed) && weekday_named("Wednesday"@) == Some(Weekday::Wed) && weekday_named("WED"@) == Some(Weekday::Wed),
        weekday_named("thu"@) == Some(Weekday::Thu) && weekday_named("Thursday"@) == Some(Weekday::Thu) && weekday_named("THU"@) == Some(Weekday::Thu),
        weekday_named("fri"@) == Some(Weekday::Fri) && weekday_named("Friday"@) == Some(Weekday::Fri) && weekday_named("FRI"@) == Some(Weekday::Fri),
        weekday_named("sat"@) == Some(Weekday::Sat) && weekday_named("Saturday"@) == Some(Weekday::Sat) && weekday_named("SAT"@) == Some(Weekday::Sat),
        weekday_named("sun"@) == Some(Weekday::Sun) && weekday_named("Sunday"@) == Some(Weekday::Sun) && weekday_named("SUN"@) == Some(Weekday::Sun),
{
    reveal_strlit("mon");
    reveal_strlit("monday");
    assert(reads_lower("mon"@, "mon"@));
    lemma_day_names("mon"@);
    reveal_strlit("Monday");
    assert(reads_lower("Monday"@, "monday"@));
    lemma_day_names("Monday"@);
    reveal_strlit("MON");
    assert(reads_lower("MON"@, "mon"@));
    lemma_day_names("MON"@);
    reveal_strlit("tue");
    reveal_strlit("tuesday");
    assert(reads_lower("tue"@, "tue"@));
    lemma_day_names("tue"@);
    reveal_strlit("Tuesday");
    assert(reads_lower("Tuesday"@, "tuesday"@));
    lemma_day_names("Tuesday"@);
    reveal_strlit("TUE");
    assert(reads_lower("TUE"@, "tue"@));
    lemma_day_names("TUE"@);
    reveal_strlit("wed");
    reveal_strlit("wednesday");
    assert(reads_lower("wed"@, "wed"@));
    lemma_day_names("wed"@);
    reveal_strlit("Wednesday");
    assert(reads_lower("Wednesday"@, "wednesday"@));
    lemma_day_names("Wednesday"@);
    reveal_strlit("WED");
    assert(reads_lower("WED"@, "wed"@));
    lemma_day_names("WED"@);
    reveal_strlit("thu");
    reveal_strlit("thursday");
    assert(reads_lower("thu"@, "thu"@));
    lemma_day_names("thu"@);
    reveal_strlit("Thursday");
    assert(reads_lower("Thursday"@, "thursday"@));
    lemma_day_names("Thursday"@);
    reveal_strlit("THU");
    assert(reads_lower("THU"@, "thu"@));
    lemma_day_names("THU"@);
    reveal_strlit("fri");
    reveal_strlit("friday");
    assert(reads_lower("fri"@, "fri"@));
    lemma_day_names("fri"@);
    reveal_strlit("Friday");
    assert(reads_lower("Friday"@, "friday"@));
    lemma_day_names("Friday"@);
    reveal_strlit("FRI");
    assert(reads_lower("FRI"@, "fri"@));
    lemma_day_names("FRI"@);
    reveal_strlit("sat");
    reveal_strlit("saturday");
    assert(reads_lower("sat"@, "sat"@));
    lemma_day_names("sat"@);
    reveal_strlit("Saturday");
    assert(reads_lower("Saturday"@, "saturday"@));
    lemma_day_names("Saturday"@);
    reveal_strlit("SAT");
    assert(reads_lower("SAT"@, "sat"@));
    lemma_day_names("SAT"@);
    reveal_strlit("sun");
    reveal_strlit("sunday");
    assert(reads_lower("sun"@, "sun"@));
    lemma_day_names("sun"@);
    reveal_strlit("Sunday");
    assert(reads_lower("Sunday"@, "sunday"@));
    lemma_day_names("Sunday"@);
    reveal_strlit("SUN");
    assert(reads_lower("SUN"@, "sun"@));
    lemma_day_names("SUN"@);
}

} // verus!
