//! The runs of a task as the desktop adapter lists and reads them: run
//! directory names and their timestamps, which runs a task may see, their
//! newest-first history, queue snapshots and the flag that keeps one queue run
//! at a time.
use vstd::prelude::*;
use vstd::string::*;

use crate::codex::{
    decode_lossy, opt_view, utf8_lossy_text,
    all_digits, decimal_at_most, digits_value, lemma_digits_value_bound, parse_decimal, pow10,
    same_chars,
};
use crate::plan::{build_execution_plan, is_block_list, is_run_order};
use crate::queue::{acyclic, on_cycle, BlockedTask, Queue};
use crate::text::{
    append_decimal, chars_of, decimal, is_ascii_alnum, is_ascii_digit, lemma_lex_asymmetric, lemma_lex_total,
    lemma_lex_transitive, lex_lt, occurs_at, slice_chars, string_of, text_before,
};

verus! {

broadcast use vstd::string::group_string_axioms;

/// The most bytes of an output file that a run's reader returns.
pub const MAX_ARTIFACT_BYTES: usize = 2_097_152;

/// The most runs of a task that its history lists.
pub const MAX_TASK_RUNS: usize = 100;

/// One recorded attempt of a task.
#[derive(Clone, Debug, PartialEq, Eq)]
pub struct TaskRunSummary {
    /// The run directory's name.
    pub id: String,
    pub attempt: u32,
    /// When the attempt started, as `YYYY-MM-DDTHH:MM:SSZ`.
    pub started_at: String,
}

/// The model of a [`TaskRunSummary`].
pub struct TaskRunSummaryView {
    pub id: Seq<char>,
    pub attempt: u32,
    pub started_at: Seq<char>,
}

impl View for TaskRunSummary {
    type V = TaskRunSummaryView;

    open spec fn view(&self) -> TaskRunSummaryView {
        TaskRunSummaryView { id: self.id@, attempt: self.attempt, started_at: self.started_at@ }
    }
}

impl TaskRunSummary {
    /// A copy of this summary.
    pub fn copy(&self) -> (r: TaskRunSummary)
        ensures
            r@ == self@,
    {
        TaskRunSummary { id: self.id.clone(), attempt: self.attempt, started_at: self.started_at.clone() }
    }
}

/// An output file of a run, possibly cut to the size limit.
#[derive(Clone, Debug, PartialEq, Eq)]
pub struct RunArtifact {
    pub content: String,
    pub truncated: bool,
}

/// A run with its three output files.
#[derive(Clone, Debug, PartialEq, Eq)]
pub struct TaskRunOutput {
    pub run: TaskRunSummary,
    pub final_output: RunArtifact,
    pub events: RunArtifact,
    pub stderr: RunArtifact,
}

/// Where the desktop application keeps its queue, and the platform it runs on.
#[derive(Clone, Debug, PartialEq, Eq)]
pub struct AppInfo {
    pub default_queue_path: String,
    pub platform: String,
}

// ---------------------------------------------------------------------------
// Calendar.

/// A leap year of the Gregorian calendar.
pub open spec fn is_leap_year(year: nat) -> bool {
    year % 4 == 0 && (year % 100 != 0 || year % 400 == 0)
}

/// The number of days of `month` (1 to 12) in `year`.
pub open spec fn month_length(year: nat, month: nat) -> nat {
    if month == 4 || month == 6 || month == 9 || month == 11 {
        30
    } else if month == 2 && is_leap_year(year) {
        29
    } else if month == 2 {
        28
    } else {
        31
    }
}

/// The Gregorian month lengths: January, March, May, July, August, October
/// and December have 31 days; April, June, September and November 30;
/// February 29 in years divisible by 4 but not by 100, or by 400, and 28
/// otherwise; so the twelve months make 366 days in those years and 365 in
/// the others.
pub proof fn lemma_month_lengths(year: nat)
    ensures
        month_length(year, 1) == 31,
        month_length(year, 2) == if year % 4 == 0 && (year % 100 != 0 || year % 400 == 0) {
            29nat
        } else {
            28nat
        },
        month_length(year, 3) == 31,
        month_length(year, 4) == 30,
        month_length(year, 5) == 31,
        month_length(year, 6) == 30,
        month_length(year, 7) == 31,
        month_length(year, 8) == 31,
        month_length(year, 9) == 30,
        month_length(year, 10) == 31,
        month_length(year, 11) == 30,
        month_length(year, 12) == 31,
        month_length(year, 1) + month_length(year, 2) + month_length(year, 3) + month_length(year, 4)
            + month_length(year, 5) + month_length(year, 6) + month_length(year, 7) + month_length(
            year,
            8,
        ) + month_length(year, 9) + month_length(year, 10) + month_length(year, 11) + month_length(
            year,
            12,
        ) == if year % 4 == 0 && (year % 100 != 0 || year % 400 == 0) {
            366nat
        } else {
            365nat
        },
{
}

/// The number of days of `month` in `year`; months other than 1 to 12 count 31.
pub fn days_in_month(year: u32, month: u32) -> (r: u32)
    ensures
        r == month_length(year as nat, month as nat),
{
    if month == 4 || month == 6 || month == 9 || month == 11 {
        30
    } else if month == 2 && year % 4 == 0 && (year % 100 != 0 || year % 400 == 0) {
        29
    } else if month == 2 {
        28
    } else {
        31
    }
}

// ---------------------------------------------------------------------------
// Run timestamps.

/// `t` has the shape `YYYYMMDDTHHMMSSZ`.
pub open spec fn stamp_shape(t: Seq<char>) -> bool {
    &&& t.len() == 16
    &&& t[8] == 'T'
    &&& t[15] == 'Z'
    &&& forall|i: int| 0 <= i < 16 && i != 8 && i != 15 ==> is_ascii_digit(#[trigger] t[i])
}

/// The number written by the digits of `t` from `from` up to `to`.
pub open spec fn stamp_field(t: Seq<char>, from: int, to: int) -> nat {
    digits_value(t.subrange(from, to))
}

/// `t` is a compact UTC timestamp naming a real date and time.
pub open spec fn valid_stamp(t: Seq<char>) -> bool {
    &&& stamp_shape(t)
    &&& stamp_field(t, 0, 4) != 0
    &&& 1 <= stamp_field(t, 4, 6) <= 12
    &&& 1 <= stamp_field(t, 6, 8) <= month_length(stamp_field(t, 0, 4), stamp_field(t, 4, 6))
    &&& stamp_field(t, 9, 11) <= 23
    &&& stamp_field(t, 11, 13) <= 59
    &&& stamp_field(t, 13, 15) <= 59
}

/// The value of the ASCII digit at position `i` of `t`.
pub open spec fn digit_at(t: Seq<char>, i: int) -> int {
    (t[i] as u32) as int - 48
}

proof fn lemma_field_digits(t: Seq<char>, from: int)
    requires
        0 <= from,
        from + 4 <= t.len(),
    ensures
        digits_value(t.subrange(from, from + 2)) == digit_at(t, from) * 10 + digit_at(t, from + 1)
            || !(is_ascii_digit(t[from]) && is_ascii_digit(t[from + 1])),
        digits_value(t.subrange(from, from + 4)) == digit_at(t, from) * 1000 + digit_at(t, from + 1)
            * 100 + digit_at(t, from + 2) * 10 + digit_at(t, from + 3) || !(is_ascii_digit(t[from])
            && is_ascii_digit(t[from + 1]) && is_ascii_digit(t[from + 2]) && is_ascii_digit(t[from + 3])),
{
    let s1 = t.subrange(from, from + 1);
    let s2 = t.subrange(from, from + 2);
    let s3 = t.subrange(from, from + 3);
    let s4 = t.subrange(from, from + 4);
    assert(s1.drop_last() =~= Seq::<char>::empty());
    assert(s2.drop_last() =~= s1);
    assert(s3.drop_last() =~= s2);
    assert(s4.drop_last() =~= s3);
    assert(digits_value(Seq::<char>::empty()) == 0);
    assert(digits_value(s1) == ((t[from] as u32) - 48) as nat);
    assert(digits_value(s2) == digits_value(s1) * 10 + ((t[from + 1] as u32) - 48) as nat);
    assert(digits_value(s3) == digits_value(s2) * 10 + ((t[from + 2] as u32) - 48) as nat);
    assert(digits_value(s4) == digits_value(s3) * 10 + ((t[from + 3] as u32) - 48) as nat);
}

/// The compact stamps accepted are exactly `YYYYMMDDTHHMMSSZ` with a year
/// from 1, a month from 1 to 12, a day from 1 to the month's length (31 in
/// January, March, May, July, August, October and December; 30 in April,
/// June, September and November; 29 in February of years divisible by 4 but
/// not by 100, or by 400, else 28), an hour up to 23, and a minute and a
/// second up to 59.
pub proof fn lemma_valid_stamps(t: Seq<char>)
    ensures
        valid_stamp(t) <==> {
            &&& t.len() == 16
            &&& t[8] == 'T'
            &&& t[15] == 'Z'
            &&& forall|i: int| 0 <= i < 16 && i != 8 && i != 15 ==> '0' <= #[trigger] t[i] && t[i] <= '9'
            &&& {
                let year = digit_at(t, 0) * 1000 + digit_at(t, 1) * 100 + digit_at(t, 2) * 10 + digit_at(t, 3);
                let month = digit_at(t, 4) * 10 + digit_at(t, 5);
                let day = digit_at(t, 6) * 10 + digit_at(t, 7);
                let leap = year % 4 == 0 && (year % 100 != 0 || year % 400 == 0);
                let length = if month == 4 || month == 6 || month == 9 || month == 11 {
                    30
                } else if month == 2 {
                    if leap { 29int } else { 28int }
                } else {
                    31
                };
                &&& year >= 1
                &&& 1 <= month <= 12
                &&& 1 <= day <= length
                &&& digit_at(t, 9) * 10 + digit_at(t, 10) <= 23
                &&& digit_at(t, 11) * 10 + digit_at(t, 12) <= 59
                &&& digit_at(t, 13) * 10 + digit_at(t, 14) <= 59
            }
        },
{
    if t.len() == 16 {
        lemma_field_digits(t, 0);
        lemma_field_digits(t, 4);
        lemma_field_digits(t, 6);
        lemma_field_digits(t, 9);
        lemma_field_digits(t, 11);
        let t2 = t + seq!['0', '0'];
        lemma_field_digits(t2, 13);
        assert(t2.subrange(13, 15) =~= t.subrange(13, 15));
        assert(t2[13] == t[13] && t2[14] == t[14]);
        lemma_month_lengths(stamp_field(t, 0, 4));
    }
}

/// The compact timestamp `t` written as `YYYY-MM-DDTHH:MM:SSZ`.
pub open spec fn iso_stamp(t: Seq<char>) -> Seq<char> {
    t.subrange(0, 4) + seq!['-'] + t.subrange(4, 6) + seq!['-'] + t.subrange(6, 8) + seq!['T']
        + t.subrange(9, 11) + seq![':'] + t.subrange(11, 13) + seq![':'] + t.subrange(13, 15)
        + seq!['Z']
}

proof fn lemma_field_fits(t: Seq<char>, from: int, to: int)
    requires
        stamp_shape(t),
        0 <= from <= to <= 16,
        to - from <= 4,
        from <= 8 ==> to <= 8,
        from > 8 ==> to <= 15,
    ensures
        decimal_at_most(t.subrange(from, to), u32::MAX as nat) == (if to > from {
            Some(stamp_field(t, from, to))
        } else {
            None
        }),
{
    let f = t.subrange(from, to);
    assert(all_digits(f)) by {
        assert forall|k: int| 0 <= k < f.len() implies is_ascii_digit(#[trigger] f[k]) by {
            assert(f[k] == t[from + k]);
        }
    }
    lemma_digits_value_bound(f);
    reveal_with_fuel(pow10, 5);
    assert(pow10(f.len()) <= 10000);
}

/// Reads a digit field of a compact timestamp.
fn stamp_number(t: &Vec<char>, from: usize, to: usize) -> (r: u32)
    requires
        stamp_shape(t@),
        from < to <= 16,
        to - from <= 4,
        from <= 8 ==> to <= 8,
        from > 8 ==> to <= 15,
    ensures
        r == stamp_field(t@, from as int, to as int),
{
    proof {
        lemma_field_fits(t@, from as int, to as int);
    }
    let field = slice_chars(t, from, to);
    match parse_decimal(&field, u32::MAX) {
        Some(v) => v,
        None => 0,
    }
}

/// The compact UTC timestamp `timestamp` written as `YYYY-MM-DDTHH:MM:SSZ`,
/// if it names a real date and time.
pub fn run_timestamp(timestamp: &str) -> (r: Option<String>)
    ensures
        r is Some <==> valid_stamp(timestamp@),
        r matches Some(s) ==> s@ == iso_stamp(timestamp@),
{
    let t = chars_of(timestamp);
    stamp_text(&t)
}

fn stamp_text(t: &Vec<char>) -> (r: Option<String>)
    ensures
        r is Some <==> valid_stamp(t@),
        r matches Some(s) ==> s@ == iso_stamp(t@),
{
    if t.len() != 16 || t[8] != 'T' || t[15] != 'Z' {
        return None;
    }
    let mut i: usize = 0;
    while i < 16
        invariant
            t.len() == 16,
            i <= 16,
            forall|k: int| 0 <= k < i && k != 8 && k != 15 ==> is_ascii_digit(#[trigger] t@[k]),
        decreases 16 - i,
    {
        if i != 8 && i != 15 && !('0' <= t[i] && t[i] <= '9') {
            assert(!stamp_shape(t@));
            return None;
        }
        i = i + 1;
    }
    assert(stamp_shape(t@));
    let year = stamp_number(t, 0, 4);
    let month = stamp_number(t, 4, 6);
    let day = stamp_number(t, 6, 8);
    let hour = stamp_number(t, 9, 11);
    let minute = stamp_number(t, 11, 13);
    let second = stamp_number(t, 13, 15);
    if year == 0 || month < 1 || month > 12 || day == 0 || day > days_in_month(year, month) || hour
        > 23 || minute > 59 || second > 59 {
        return None;
    }
    let mut s = string_of(&slice_chars(t, 0, 4));
    s.append("-");
    s.append(string_of(&slice_chars(t, 4, 6)).as_str());
    s.append("-");
    s.append(string_of(&slice_chars(t, 6, 8)).as_str());
    s.append("T");
    s.append(string_of(&slice_chars(t, 9, 11)).as_str());
    s.append(":");
    s.append(string_of(&slice_chars(t, 11, 13)).as_str());
    s.append(":");
    s.append(string_of(&slice_chars(t, 13, 15)).as_str());
    s.append("Z");
    proof {
        reveal_strlit("-");
        reveal_strlit("T");
        reveal_strlit(":");
        reveal_strlit("Z");
        assert(s@ =~= iso_stamp(t@));
    }
    Some(s)
}

// ---------------------------------------------------------------------------
// Run directory names.

/// A character allowed in a run directory name.
pub open spec fn is_run_id_char(c: char) -> bool {
    is_ascii_alnum(c) || c == '-' || c == '_'
}

/// The text between a run's task ID and its attempt number.
pub open spec fn attempt_marker() -> Seq<char> {
    seq!['-', 'a', 't', 't', 'e', 'm', 'p', 't', '-']
}

/// The last position, at or before `i`, where `pat` occurs in `s`.
pub open spec fn last_occurrence(s: Seq<char>, pat: Seq<char>, i: int) -> Option<int>
    decreases i + 1,
{
    if i < 0 {
        None
    } else if occurs_at(s, pat, i) {
        Some(i)
    } else {
        last_occurrence(s, pat, i - 1)
    }
}

/// The first position, at or after `i`, of a `-` in `s`.
pub open spec fn first_dash(s: Seq<char>, i: int) -> Option<int>
    decreases s.len() - i,
{
    if i >= s.len() || i < 0 {
        None
    } else if s[i] == '-' {
        Some(i)
    } else {
        first_dash(s, i + 1)
    }
}

/// The run that the directory name `run_id` records for the task `task_id`,
/// if it is one: `<stamp>-<task ID>-attempt-<n>-<suffix>`, where the stamp is
/// a valid compact UTC timestamp, `n` a positive number, the suffix a
/// non-empty run of ASCII letters and digits, and the whole name made of
/// ASCII letters, digits, `-` and `_`. The task ID is what stands before the
/// last `-attempt-`.
pub open spec fn run_summary_of(run_id: Seq<char>, task_id: Seq<char>) -> Option<TaskRunSummaryView> {
    if !(forall|i: int| 0 <= i < run_id.len() ==> is_run_id_char(#[trigger] run_id[i])) || run_id.len()
        <= 17 || run_id[16] != '-' {
        None
    } else {
        let rest = run_id.subrange(17, run_id.len() as int);
        match last_occurrence(rest, attempt_marker(), rest.len() - 9) {
            None => None,
            Some(k) => {
                let tail = rest.subrange(k + 9, rest.len() as int);
                if rest.subrange(0, k) != task_id {
                    None
                } else {
                    match first_dash(tail, 0) {
                        None => None,
                        Some(d) => {
                            let suffix = tail.subrange(d + 1, tail.len() as int);
                            let attempt = decimal_at_most(tail.subrange(0, d), u32::MAX as nat);
                            if suffix.len() == 0 || !(forall|i: int|
                                0 <= i < suffix.len() ==> is_ascii_alnum(#[trigger] suffix[i])) {
                                None
                            } else if !(attempt is Some && attempt->0 > 0) || !valid_stamp(
                                run_id.subrange(0, 16),
                            ) {
                                None
                            } else {
                                Some(
                                    TaskRunSummaryView {
                                        id: run_id,
                                        attempt: attempt->0 as u32,
                                        started_at: iso_stamp(run_id.subrange(0, 16)),
                                    },
                                )
                            }
                        },
                    }
                }
            },
        }
    }
}

fn last_index(s: &Vec<char>, pat: &Vec<char>) -> (r: Option<usize>)
    ensures
        match r {
            Some(k) => last_occurrence(s@, pat@, s.len() - pat.len()) == Some(k as int),
            None => last_occurrence(s@, pat@, s.len() - pat.len()) is None,
        },
{
    if pat.len() > s.len() {
        return None;
    }
    let mut k: usize = s.len() - pat.len();
    loop
        invariant
            pat.len() <= s.len(),
            k + pat.len() <= s.len(),
            last_occurrence(s@, pat@, s.len() - pat.len()) == last_occurrence(s@, pat@, k as int),
        decreases k,
    {
        let mut j: usize = 0;
        while j < pat.len() && s[k + j] == pat[j]
            invariant
                k + pat.len() <= s.len(),
                j <= pat.len(),
                forall|m: int| 0 <= m < j ==> s@[k + m] == pat@[m],
            decreases pat.len() - j,
        {
            j = j + 1;
        }
        if j == pat.len() {
            assert(s@.subrange(k as int, k + pat.len()) =~= pat@);
            return Some(k);
        }
        assert(!occurs_at(s@, pat@, k as int)) by {
            if occurs_at(s@, pat@, k as int) {
                assert(s@.subrange(k as int, k + pat.len())[j as int] == s@[k + j]);
            }
        }
        if k == 0 {
            assert(last_occurrence(s@, pat@, -1) is None);
            return None;
        }
        k = k - 1;
    }
}

/// Whether every character of `v` is an ASCII letter or digit, or, where
/// `separators` holds, also a `-` or `_`.
fn all_chars(v: &Vec<char>, separators: bool) -> (r: bool)
    ensures
        r == (forall|i: int|
            0 <= i < v.len() ==> if separators {
                is_run_id_char(#[trigger] v@[i])
            } else {
                is_ascii_alnum(v@[i])
            }),
{
    let mut i: usize = 0;
    while i < v.len()
        invariant
            i <= v.len(),
            forall|k: int|
                0 <= k < i ==> if separators {
                    is_run_id_char(#[trigger] v@[k])
                } else {
                    is_ascii_alnum(v@[k])
                },
        decreases v.len() - i,
    {
        let c = v[i];
        let alnum = ('0' <= c && c <= '9') || ('a' <= c && c <= 'z') || ('A' <= c && c <= 'Z');
        if !(alnum || (separators && (c == '-' || c == '_'))) {
            return false;
        }
        i = i + 1;
    }
    true
}

fn first_dash_index(s: &Vec<char>) -> (r: Option<usize>)
    ensures
        match r {
            Some(d) => first_dash(s@, 0) == Some(d as int),
            None => first_dash(s@, 0) is None,
        },
{
    let mut i: usize = 0;
    while i < s.len()
        invariant
            i <= s.len(),
            first_dash(s@, 0) == first_dash(s@, i as int),
        decreases s.len() - i,
    {
        if s[i] == '-' {
            return Some(i);
        }
        i = i + 1;
    }
    None
}

/// The run that the directory name `run_id` records for the task `task_id`,
/// if it is one.
pub fn parse_task_run_id(run_id: &str, task_id: &str) -> (r: Option<TaskRunSummary>)
    ensures
        match r {
            Some(s) => run_summary_of(run_id@, task_id@) == Some(s@),
            None => run_summary_of(run_id@, task_id@) is None,
        },
{
    let id = chars_of(run_id);
    if !all_chars(&id, true) {
        return None;
    }
    if id.len() <= 17 || id[16] != '-' {
        return None;
    }
    let rest = slice_chars(&id, 17, id.len());
    let marker: Vec<char> = vec!['-', 'a', 't', 't', 'e', 'm', 'p', 't', '-'];
    assert(marker@ =~= attempt_marker());
    let k = match last_index(&rest, &marker) {
        Some(k) => k,
        None => {
            return None;
        },
    };
    proof {
        assert(occurs_at(rest@, marker@, k as int)) by {
            let ghost q = rest.len() - 9;
            assert(last_occurrence(rest@, attempt_marker(), q) == Some(k as int));
            lemma_last_occurrence(rest@, attempt_marker(), q);
        }
    }
    let run_task = slice_chars(&rest, 0, k);
    if !same_chars(&run_task, &chars_of(task_id)) {
        return None;
    }
    let tail = slice_chars(&rest, k + 9, rest.len());
    let d = match first_dash_index(&tail) {
        Some(d) => d,
        None => {
            return None;
        },
    };
    proof {
        lemma_first_dash(tail@, 0);
    }
    let suffix = slice_chars(&tail, d + 1, tail.len());
    if suffix.len() == 0 {
        return None;
    }
    if !all_chars(&suffix, false) {
        return None;
    }
    let attempt = match parse_decimal(&slice_chars(&tail, 0, d), u32::MAX) {
        Some(a) => a,
        None => {
            return None;
        },
    };
    if attempt == 0 {
        return None;
    }
    let started_at = match stamp_text(&slice_chars(&id, 0, 16)) {
        Some(s) => s,
        None => {
            return None;
        },
    };
    proof {
        assert(id@.subrange(17, id.len() as int) == rest@);
    }
    Some(TaskRunSummary { id: run_id.to_owned(), attempt, started_at })
}

proof fn lemma_last_occurrence(s: Seq<char>, pat: Seq<char>, i: int)
    ensures
        last_occurrence(s, pat, i) matches Some(k) ==> occurs_at(s, pat, k) && 0 <= k <= i,
    decreases i + 1,
{
    if i >= 0 && !occurs_at(s, pat, i) {
        lemma_last_occurrence(s, pat, i - 1);
    }
}

proof fn lemma_first_dash(s: Seq<char>, i: int)
    ensures
        first_dash(s, i) matches Some(d) ==> i <= d < s.len() && s[d] == '-',
    decreases s.len() - i,
{
    if 0 <= i < s.len() && s[i] != '-' {
        lemma_first_dash(s, i + 1);
    }
}


// ---------------------------------------------------------------------------
// Which runs a task sees, newest first.

/// Runs of `task_id` whose stamp precedes `created_stamp`, the task's own
/// creation, belong to an earlier task that had the same ID, and stay hidden.
pub open spec fn visible_run(run_id: Seq<char>, task_id: Seq<char>, created_stamp: Seq<char>) -> Option<TaskRunSummaryView> {
    match run_summary_of(run_id, task_id) {
        Some(v) => if lex_lt(run_id.subrange(0, 16), created_stamp) {
            None
        } else {
            Some(v)
        },
        None => None,
    }
}

/// The run that the directory `run_id` records for the task `task_id`,
/// created at `created_stamp`, if the task may see it.
pub fn task_run_for(run_id: &str, task_id: &str, created_stamp: &str) -> (r: Option<TaskRunSummary>)
    ensures
        match r {
            Some(s) => visible_run(run_id@, task_id@, created_stamp@) == Some(s@),
            None => visible_run(run_id@, task_id@, created_stamp@) is None,
        },
{
    let summary = match parse_task_run_id(run_id, task_id) {
        Some(s) => s,
        None => {
            return None;
        },
    };
    let id = chars_of(run_id);
    let stamp = slice_chars(&id, 0, 16);
    if text_before(&stamp, &chars_of(created_stamp)) {
        None
    } else {
        Some(summary)
    }
}

/// `a` comes before `b` newest first: it started later, or at the same time
/// with a greater name.
pub open spec fn newer(a: TaskRunSummaryView, b: TaskRunSummaryView) -> bool {
    lex_lt(b.started_at, a.started_at) || (a.started_at == b.started_at && lex_lt(b.id, a.id))
}

/// `a` and `b` are ordered alike.
pub open spec fn same_key(a: TaskRunSummaryView, b: TaskRunSummaryView) -> bool {
    a.started_at == b.started_at && a.id == b.id
}

/// No run of `s` is newer than one before it.
pub open spec fn newest_first(s: Seq<TaskRunSummaryView>) -> bool {
    forall|i: int, j: int| 0 <= i < j < s.len() ==> !newer(#[trigger] s[j], #[trigger] s[i])
}

/// `output` holds the runs of `input` newest first, the runs ordered alike
/// keeping their order: `perm` says where each comes from.
pub open spec fn stable_newest_by(input: Seq<TaskRunSummaryView>, output: Seq<TaskRunSummaryView>, perm: Seq<int>) -> bool {
    &&& output.len() == input.len()
    &&& perm.len() == input.len()
    &&& forall|k: int| 0 <= k < perm.len() ==> 0 <= #[trigger] perm[k] < input.len()
    &&& forall|k: int, l: int| 0 <= k < l < perm.len() ==> #[trigger] perm[k] != #[trigger] perm[l]
    &&& forall|k: int| 0 <= k < output.len() ==> #[trigger] output[k] == input[perm[k]]
    &&& newest_first(output)
    &&& forall|k: int, l: int|
        0 <= k < l < output.len() && same_key(#[trigger] output[k], #[trigger] output[l]) ==> perm[k]
            < perm[l]
}

/// `output` is `input` sorted newest first, runs ordered alike keeping their
/// order.
pub open spec fn stable_newest(input: Seq<TaskRunSummaryView>, output: Seq<TaskRunSummaryView>) -> bool {
    exists|perm: Seq<int>| stable_newest_by(input, output, perm)
}

/// The views of a list of runs.
pub open spec fn run_views(v: Seq<TaskRunSummary>) -> Seq<TaskRunSummaryView> {
    v.map_values(|r: TaskRunSummary| r@)
}

/// Newest first is a strict order.
pub proof fn lemma_newer_order(a: TaskRunSummaryView, b: TaskRunSummaryView, c: TaskRunSummaryView)
    ensures
        newer(a, b) ==> !newer(b, a),
        newer(a, b) && newer(b, c) ==> newer(a, c),
        !newer(a, b) && !newer(b, a) ==> same_key(a, b),
{
    lemma_lex_asymmetric(a.started_at, b.started_at);
    lemma_lex_asymmetric(b.started_at, a.started_at);
    lemma_lex_asymmetric(a.id, b.id);
    if newer(a, b) && newer(b, c) {
        if lex_lt(c.started_at, b.started_at) && lex_lt(b.started_at, a.started_at) {
            lemma_lex_transitive(c.started_at, b.started_at, a.started_at);
        } else if lex_lt(c.id, b.id) && lex_lt(b.id, a.id) && a.started_at == b.started_at
            && b.started_at == c.started_at {
            lemma_lex_transitive(c.id, b.id, a.id);
        }
    }
    if !newer(a, b) && !newer(b, a) {
        if a.started_at != b.started_at {
            lemma_lex_total(a.started_at, b.started_at);
        } else if a.id != b.id {
            lemma_lex_total(a.id, b.id);
        }
    }
}

fn is_newer(a: &TaskRunSummary, b: &TaskRunSummary) -> (r: bool)
    ensures
        r == newer(a@, b@),
{
    let a_started = chars_of(a.started_at.as_str());
    let b_started = chars_of(b.started_at.as_str());
    if text_before(&b_started, &a_started) {
        return true;
    }
    if !same_chars(&a_started, &b_started) {
        return false;
    }
    text_before(&chars_of(b.id.as_str()), &chars_of(a.id.as_str()))
}

/// Sorts `runs` newest first: by start time, then by name, both descending;
/// runs ordered alike keep their order.
pub fn sort_task_runs_newest(runs: &mut Vec<TaskRunSummary>)
    ensures
        stable_newest(run_views(old(runs)@), run_views(final(runs)@)),
{
    let ghost input = run_views(runs@);
    let mut out: Vec<TaskRunSummary> = Vec::new();
    let ghost mut perm: Seq<int> = seq![];
    let mut j: usize = 0;
    while j < runs.len()
        invariant
            j <= runs.len(),
            input == run_views(runs@),
            out.len() == j,
            perm.len() == j,
            forall|k: int| 0 <= k < perm.len() ==> 0 <= #[trigger] perm[k] < j,
            forall|k: int, l: int| 0 <= k < l < perm.len() ==> #[trigger] perm[k] != #[trigger] perm[l],
            forall|k: int| 0 <= k < out.len() ==> #[trigger] run_views(out@)[k] == input[perm[k]],
            newest_first(run_views(out@)),
            forall|k: int, l: int|
                0 <= k < l < out.len() && same_key(#[trigger] run_views(out@)[k], #[trigger] run_views(out@)[l])
                    ==> perm[k] < perm[l],
        decreases runs.len() - j,
    {
        let x = runs[j].copy();
        let ghost xv = x@;
        assert(xv == input[j as int]);
        let mut p: usize = 0;
        while p < out.len() && !is_newer(&x, &out[p])
            invariant
                p <= out.len(),
                xv == x@,
                forall|q: int| 0 <= q < p ==> !newer(xv, #[trigger] run_views(out@)[q]),
            decreases out.len() - p,
        {
            p = p + 1;
        }
        let ghost before = run_views(out@);
        let ghost old_perm = perm;
        out.insert(p, x);
        proof {
            perm = perm.insert(p as int, j as int);
            let after = run_views(out@);
            assert(after =~= before.insert(p as int, xv));
            assert forall|q: int| p <= q < before.len() implies newer(xv, #[trigger] before[q]) by {
                if q > p {
                    lemma_newer_order(before[q], before[p as int], xv);
                    lemma_newer_order(before[p as int], before[q], xv);
                    lemma_newer_order(xv, before[p as int], before[q]);
                    assert(!newer(before[q], before[p as int]));
                    if newer(before[p as int], before[q]) {
                    } else {
                        assert(same_key(before[p as int], before[q]));
                    }
                }
            }
            assert forall|k: int, l: int| 0 <= k < l < after.len() implies !newer(#[trigger] after[l], #[trigger] after[k]) by {
                if k < p && l < p {
                    assert(after[k] == before[k] && after[l] == before[l]);
                } else if k < p && l == p {
                    assert(after[k] == before[k]);
                    lemma_newer_order(before[k], xv, xv);
                    if newer(xv, before[k]) {
                    }
                } else if k < p && l > p {
                    assert(after[k] == before[k] && after[l] == before[l - 1]);
                } else if k == p {
                    assert(after[l] == before[l - 1]);
                    lemma_newer_order(xv, before[l - 1], xv);
                } else {
                    assert(after[k] == before[k - 1] && after[l] == before[l - 1]);
                }
            }
            assert forall|k: int, l: int|
                0 <= k < l < after.len() && same_key(#[trigger] after[k], #[trigger] after[l]) implies perm[k] < perm[l] by {
                if k < p && l < p {
                    assert(after[k] == before[k] && after[l] == before[l]);
                } else if k < p && l == p {
                } else if k < p && l > p {
                    assert(after[k] == before[k] && after[l] == before[l - 1]);
                } else if k == p {
                    assert(after[l] == before[l - 1]);
                    assert(newer(xv, before[l - 1]));
                } else {
                    assert(after[k] == before[k - 1] && after[l] == before[l - 1]);
                }
            }
            assert forall|k: int| 0 <= k < out.len() implies #[trigger] run_views(out@)[k] == input[perm[k]] by {
                if k < p {
                    assert(after[k] == before[k]);
                } else if k > p {
                    assert(after[k] == before[k - 1]);
                }
            }
            assert forall|k: int, l: int| 0 <= k < l < perm.len() implies #[trigger] perm[k] != #[trigger] perm[l] by {
                if k < p && l < p {
                    assert(perm[k] == old_perm[k] && perm[l] == old_perm[l]);
                } else if k < p && l > p {
                    assert(perm[k] == old_perm[k] && perm[l] == old_perm[l - 1]);
                } else if k > p {
                    assert(perm[k] == old_perm[k - 1] && perm[l] == old_perm[l - 1]);
                }
            }
        }
        j = j + 1;
    }
    proof {
        assert(stable_newest_by(input, run_views(out@), perm));
    }
    *runs = out;
}



/// The runs among the directories `run_ids` that the task `task_id`, created
/// at `created_stamp`, sees, in the order of the names.
pub open spec fn visible_runs(run_ids: Seq<Seq<char>>, task_id: Seq<char>, created_stamp: Seq<char>) -> Seq<TaskRunSummaryView>
    decreases run_ids.len(),
{
    if run_ids.len() == 0 {
        seq![]
    } else {
        let earlier = visible_runs(run_ids.drop_last(), task_id, created_stamp);
        match visible_run(run_ids.last(), task_id, created_stamp) {
            Some(v) => earlier.push(v),
            None => earlier,
        }
    }
}

/// At most the first `MAX_TASK_RUNS` of `s`.
pub open spec fn history_prefix(s: Seq<TaskRunSummaryView>) -> Seq<TaskRunSummaryView> {
    if s.len() <= MAX_TASK_RUNS {
        s
    } else {
        s.take(MAX_TASK_RUNS as int)
    }
}

/// The history of the task `task_id`, created at `created_stamp`, among the
/// run directories `run_ids`: the runs it sees, newest first, at most
/// `MAX_TASK_RUNS` of them.
pub fn latest_task_runs(run_ids: &Vec<String>, task_id: &str, created_stamp: &str) -> (r: Vec<TaskRunSummary>)
    ensures
        exists|sorted: Seq<TaskRunSummaryView>|
            stable_newest(visible_runs(run_ids.deep_view(), task_id@, created_stamp@), sorted)
                && run_views(r@) == history_prefix(sorted),
        r@.len() == if visible_runs(run_ids.deep_view(), task_id@, created_stamp@).len() <= 100 {
            visible_runs(run_ids.deep_view(), task_id@, created_stamp@).len()
        } else {
            100
        },
        forall|i: int, j: int|
            0 <= i < j < r@.len() ==> !lex_lt(#[trigger] r@[i]@.started_at, #[trigger] r@[j]@.started_at),
{
    let mut runs: Vec<TaskRunSummary> = Vec::new();
    let mut i: usize = 0;
    while i < run_ids.len()
        invariant
            i <= run_ids.len(),
            run_views(runs@) == visible_runs(run_ids.deep_view().take(i as int), task_id@, created_stamp@),
        decreases run_ids.len() - i,
    {
        let found = task_run_for(run_ids[i].as_str(), task_id, created_stamp);
        proof {
            assert(run_ids.deep_view().take(i + 1).drop_last() =~= run_ids.deep_view().take(i as int));
            assert(run_ids.deep_view().take(i + 1).last() == run_ids@[i as int]@);
        }
        let ghost before = run_views(runs@);
        match found {
            Some(run) => {
                runs.push(run);
                proof {
                    assert(run_views(runs@) =~= before.push(runs@.last()@));
                }
            },
            None => {},
        }
        i = i + 1;
    }
    proof {
        assert(run_ids.deep_view().take(run_ids.len() as int) =~= run_ids.deep_view());
    }
    let ghost visible = run_views(runs@);
    sort_task_runs_newest(&mut runs);
    let ghost sorted = run_views(runs@);
    runs.truncate(MAX_TASK_RUNS);
    proof {
        assert(run_views(runs@) =~= history_prefix(sorted));
        let perm = choose|perm: Seq<int>| stable_newest_by(visible, sorted, perm);
        assert(stable_newest_by(visible, sorted, perm));
        assert forall|i: int, j: int| 0 <= i < j < runs@.len() implies !lex_lt(
            #[trigger] runs@[i]@.started_at,
            #[trigger] runs@[j]@.started_at,
        ) by {
            assert(run_views(runs@)[i] == runs@[i]@);
            assert(run_views(runs@)[j] == runs@[j]@);
            assert(runs@[i]@ == sorted[i]);
            assert(runs@[j]@ == sorted[j]);
            assert(!newer(sorted[j], sorted[i]));
        }
    }
    runs
}

// ---------------------------------------------------------------------------
// Naming run directories.

/// The compact UTC timestamp `YYYYMMDDTHHMMSSZ` of the instant `seconds` and
/// `nanos` after the Unix epoch, when chrono can represent that instant.
pub uninterp spec fn compact_utc_stamp(seconds: i64, nanos: u32) -> Option<Seq<char>>;

/// An instant in the years 1 to 9999, not inside a leap second.
pub open spec fn stamp_in_range(at: crate::time::Timestamp) -> bool {
    -62_135_596_800 <= at.seconds <= 253_402_300_799 && at.nanos < 1_000_000_000
}

/// Writes an instant as a compact UTC timestamp.
///
/// Builds the instant with `chrono::DateTime::from_timestamp`, which gives
/// none out of chrono's range, and writes it with `format("%Y%m%dT%H%M%SZ")`.
/// The contract names the text, a function of the two numbers alone, and
/// states what chrono documents for the years 1 to 9999 outside leap seconds:
/// the instant exists, and the year is written with four digits, month, day,
/// hour, minute and second with two, so the text is a valid compact stamp.
/// Which stamp it is, is left to the name.
#[verifier::external_body]
fn compact_stamp(at: crate::time::Timestamp) -> (r: Option<String>)
    ensures
        opt_view(r) == compact_utc_stamp(at.seconds, at.nanos),
        stamp_in_range(at) ==> r is Some && valid_stamp(r.unwrap()@),
{
    match chrono::DateTime::from_timestamp(at.seconds, at.nanos) {
        Some(instant) => Some(instant.format("%Y%m%dT%H%M%SZ").to_string()),
        None => None,
    }
}

/// The compact timestamp of a task's creation, which its visible runs must
/// not precede.
pub fn task_created_stamp(task: &crate::queue::Task) -> (r: Option<String>)
    ensures
        opt_view(r) == compact_utc_stamp(task.created_at.seconds, task.created_at.nanos),
{
    compact_stamp(task.created_at)
}

/// `id` with every character other than an ASCII letter, digit, `-` or `_`
/// replaced by `_`.
pub open spec fn safe_name(id: Seq<char>) -> Seq<char> {
    id.map_values(|c: char| if is_run_id_char(c) { c } else { '_' })
}

/// A task ID made safe for a file name.
pub fn safe_file_name(id: &str) -> (r: String)
    ensures
        r@ == safe_name(id@),
{
    let chars = chars_of(id);
    let mut out: Vec<char> = Vec::new();
    let mut i: usize = 0;
    while i < chars.len()
        invariant
            i <= chars.len(),
            chars@ == id@,
            out@ == safe_name(chars@.take(i as int)),
        decreases chars.len() - i,
    {
        let c = chars[i];
        let keep = ('0' <= c && c <= '9') || ('a' <= c && c <= 'z') || ('A' <= c && c <= 'Z') || c
            == '-' || c == '_';
        out.push(
            if keep {
                c
            } else {
                '_'
            },
        );
        proof {
            assert(safe_name(chars@.take(i + 1)) =~= safe_name(chars@.take(i as int)).push(
                out@.last(),
            ));
        }
        i = i + 1;
    }
    proof {
        assert(chars@.take(chars.len() as int) =~= chars@);
    }
    string_of(&out)
}

/// The start of the name of the directory that records attempt `attempt`
/// of `task_id`, started at `started_at`; a random suffix completes it.
pub fn run_directory_prefix(started_at: crate::time::Timestamp, task_id: &str, attempt: u32) -> (r: Option<String>)
    ensures
        match compact_utc_stamp(started_at.seconds, started_at.nanos) {
            Some(stamp) => r matches Some(p) && p@ == stamp + "-"@ + safe_name(task_id@)
                + "-attempt-"@ + decimal(attempt as nat) + "-"@,
            None => r is None,
        },
        stamp_in_range(started_at) && crate::validate::valid_task_id(task_id@) && attempt > 0 ==> (r matches Some(p)
            && forall|suffix: Seq<char>|
            suffix.len() > 0 && (forall|i: int| 0 <= i < suffix.len() ==> is_ascii_alnum(#[trigger] suffix[i]))
                ==> #[trigger] run_summary_of(p@ + suffix, task_id@) == Some(
                TaskRunSummaryView {
                    id: p@ + suffix,
                    attempt,
                    started_at: iso_stamp(p@.take(16)),
                },
            )),
{
    let mut prefix = match compact_stamp(started_at) {
        Some(stamp) => stamp,
        None => {
            return None;
        },
    };
    prefix.append("-");
    prefix.append(safe_file_name(task_id).as_str());
    prefix.append("-attempt-");
    append_decimal(&mut prefix, attempt as u64);
    prefix.append("-");
    proof {
        if stamp_in_range(started_at) && crate::validate::valid_task_id(task_id@) && attempt > 0 {
            let stamp = compact_utc_stamp(started_at.seconds, started_at.nanos)->0;
            assert forall|suffix: Seq<char>|
                suffix.len() > 0 && (forall|i: int| 0 <= i < suffix.len() ==> is_ascii_alnum(#[trigger] suffix[i]))
                implies #[trigger] run_summary_of(prefix@ + suffix, task_id@) == Some(
                TaskRunSummaryView {
                    id: prefix@ + suffix,
                    attempt,
                    started_at: iso_stamp(prefix@.take(16)),
                },
            ) by {
                assert(prefix@ + suffix =~= run_directory_name(stamp, task_id@, attempt, suffix));
                assert(prefix@.take(16) =~= stamp);
                lemma_run_directory_round_trip(stamp, task_id@, attempt, suffix);
            }
        }
    }
    Some(prefix)
}

/// The message of a save refused because the queue at `path` changed since
/// it was loaded.
pub fn revision_conflict_message(path: &str) -> (r: String)
    ensures
        r@ == "queue changed since it was loaded: "@ + path@ + "; reload before saving"@,
{
    let mut message = String::from_str("queue changed since it was loaded: ");
    message.append(path);
    message.append("; reload before saving");
    message
}

// ---------------------------------------------------------------------------
// Whether a save checks the revision it was prepared against.

/// What resolving a path to its canonical form gave.
#[derive(Clone, Debug)]
pub enum Lookup {
    Found,
    Missing,
    /// Resolving failed otherwise; the error's text.
    Failed(String),
}

/// Whether a save to a target path must check the revision read from
/// another path, given how both resolved: `same_given` says the two paths
/// were given alike, `same_canonical` that both resolved to one file. When
/// the target exists, the revision applies exactly when both name one file;
/// a target that does not exist yet is a new file, whose save checks nothing,
/// unless it is the very path the revision was read from. A revision source
/// that is gone means the queue changed.
pub open spec fn revision_check(
    target: Lookup,
    source: Lookup,
    same_given: bool,
    same_canonical: bool,
    target_text: Seq<char>,
    source_text: Seq<char>,
) -> Result<bool, Seq<char>> {
    let conflict = "queue changed since it was loaded: "@ + source_text + "; reload before saving"@;
    match target {
        Lookup::Found => match source {
            Lookup::Found => Ok(same_canonical),
            Lookup::Missing => Err(conflict),
            Lookup::Failed(e) => Err("cannot resolve queue path "@ + source_text + ": "@ + e@),
        },
        Lookup::Missing => if same_given {
            Err(conflict)
        } else {
            match source {
                Lookup::Found => Ok(false),
                Lookup::Missing => Err(conflict),
                Lookup::Failed(e) => Err("cannot resolve queue path "@ + source_text + ": "@ + e@),
            }
        },
        Lookup::Failed(e) => Err("cannot resolve queue path "@ + target_text + ": "@ + e@),
    }
}

fn resolve_failure(path: &str, error: &String) -> (r: String)
    ensures
        r@ == "cannot resolve queue path "@ + path@ + ": "@ + error@,
{
    let mut message = String::from_str("cannot resolve queue path ");
    message.append(path);
    message.append(": ");
    message.append(error.as_str());
    message
}

/// Whether a save to the target must check the revision read from the
/// source, or why it cannot go ahead.
pub fn save_checks_revision(
    target: &Lookup,
    source: &Lookup,
    same_given: bool,
    same_canonical: bool,
    target_text: &str,
    source_text: &str,
) -> (r: Result<bool, String>)
    ensures
        match r {
            Ok(b) => revision_check(*target, *source, same_given, same_canonical, target_text@, source_text@) == Ok::<bool, Seq<char>>(b),
            Err(e) => revision_check(*target, *source, same_given, same_canonical, target_text@, source_text@) == Err::<bool, Seq<char>>(e@),
        },
{
    match target {
        Lookup::Found => match source {
            Lookup::Found => Ok(same_canonical),
            Lookup::Missing => Err(revision_conflict_message(source_text)),
            Lookup::Failed(e) => Err(resolve_failure(source_text, e)),
        },
        Lookup::Missing => if same_given {
            Err(revision_conflict_message(source_text))
        } else {
            match source {
                Lookup::Found => Ok(false),
                Lookup::Missing => Err(revision_conflict_message(source_text)),
                Lookup::Failed(e) => Err(resolve_failure(source_text, e)),
            }
        },
        Lookup::Failed(e) => Err(resolve_failure(target_text, e)),
    }
}

// ---------------------------------------------------------------------------
// Queue snapshots and the run flag.

/// A queue as the desktop shows it: where it lives, the revision it was read
/// at, and its plan.
#[derive(Clone, Debug)]
pub struct QueueSnapshot {
    pub path: String,
    pub revision: String,
    pub queue: Queue,
    pub ordered_ids: Vec<String>,
    pub blocked: Vec<BlockedTask>,
}

/// The snapshot of `queue`, read from `path` at `revision`, with its plan;
/// an invalid queue gives its validation message.
pub fn snapshot_from_queue(path: String, queue: Queue, revision: String) -> (r: Result<QueueSnapshot, String>)
    ensures
        r is Ok <==> crate::validate::queue_is_valid(queue@),
        r matches Ok(s) ==> {
            &&& s.path@ == path@
            &&& s.revision@ == revision@
            &&& s.queue@ == queue@
            &&& is_run_order(queue@.tasks, s.ordered_ids.deep_view())
            &&& is_block_list(queue@.tasks, s.blocked@.map_values(|b: BlockedTask| b@))
        },
        crate::validate::structural_issue(queue@) matches Some(m) ==> (r matches Err(e) && e@ == m),
        crate::validate::structural_issue(queue@) is None && !acyclic(queue@.tasks) ==> (r matches Err(e)
            && exists|id: Seq<char>| e@ == crate::validate::cycle_message(id) && on_cycle(queue@.tasks, id)),
        crate::validate::structural_issue(queue@) is None && !acyclic(queue@.tasks) ==> (r matches Err(e)
            && crate::validate::cycle_report(queue@.tasks, e@)),
{
    let plan = match build_execution_plan(&queue) {
        Ok(plan) => plan,
        Err(error) => {
            return Err(error.message());
        },
    };
    Ok(QueueSnapshot { path, revision, queue, ordered_ids: plan.ordered_ids, blocked: plan.blocked })
}

/// Whether a queue run is in progress; one at a time may run.
#[derive(Debug)]
pub struct RunState {
    running: bool,
}

impl RunState {
    /// A run is in progress.
    pub closed spec fn is_running(&self) -> bool {
        self.running
    }

    /// No run in progress.
    pub fn new() -> (r: RunState)
        ensures
            !r.is_running(),
    {
        RunState { running: false }
    }

    /// Starts a run, unless one is in progress already.
    pub fn begin_run(&mut self) -> (r: Result<(), String>)
        ensures
            r is Ok <==> !old(self).is_running(),
            final(self).is_running(),
            r matches Err(e) ==> e@ == "a queue run is already active"@,
    {
        if self.running {
            Err(String::from_str("a queue run is already active"))
        } else {
            self.running = true;
            Ok(())
        }
    }

    /// Ends the run in progress.
    pub fn end_run(&mut self)
        ensures
            !final(self).is_running(),
    {
        self.running = false;
    }
}


// ---------------------------------------------------------------------------
// Bounded output files.

/// The number of bytes that `c` takes in UTF-8.
pub open spec fn utf8_width(c: char) -> nat {
    let u = c as u32;
    if u < 0x80 {
        1
    } else if u < 0x800 {
        2
    } else if u < 0x10000 {
        3
    } else {
        4
    }
}

/// The number of bytes that `s` takes in UTF-8.
pub open spec fn utf8_size(s: Seq<char>) -> nat
    decreases s.len(),
{
    if s.len() == 0 {
        0
    } else {
        utf8_size(s.drop_last()) + utf8_width(s.last())
    }
}

/// The first `MAX_ARTIFACT_BYTES` of `bytes`.
pub open spec fn kept_bytes(bytes: Seq<u8>) -> Seq<u8> {
    if bytes.len() > MAX_ARTIFACT_BYTES {
        bytes.take(MAX_ARTIFACT_BYTES as int)
    } else {
        bytes
    }
}

/// An output file from its first bytes (read up to one byte past the limit,
/// so that a longer file shows): the bytes within the limit, decoded, and cut
/// at the last character that ends within the limit when decoding made the
/// text longer. It is marked truncated when bytes or characters were dropped.
pub fn artifact_from_bytes(bytes: Vec<u8>) -> (r: RunArtifact)
    ensures
        ({
            let text = utf8_lossy_text(kept_bytes(bytes@));
            if utf8_size(text) <= MAX_ARTIFACT_BYTES {
                r.content@ == text && r.truncated == (bytes.len() > MAX_ARTIFACT_BYTES)
            } else {
                &&& r.truncated
                &&& r.content@.len() < text.len()
                &&& r.content@ == text.take(r.content@.len() as int)
                &&& utf8_size(r.content@) <= MAX_ARTIFACT_BYTES
                &&& utf8_size(text.take(r.content@.len() as int + 1)) > MAX_ARTIFACT_BYTES
            }
        }),
{
    let mut bytes = bytes;
    let ghost given = bytes@;
    let over = bytes.len() > MAX_ARTIFACT_BYTES;
    bytes.truncate(MAX_ARTIFACT_BYTES);
    assert(bytes@ == kept_bytes(given));
    let content = decode_lossy(bytes.as_slice());
    let text = chars_of(content.as_str());
    let mut n: usize = 0;
    let mut size: usize = 0;
    while n < text.len()
        invariant
            n <= text.len(),
            size == utf8_size(text@.take(n as int)),
            size <= MAX_ARTIFACT_BYTES,
        ensures
            n <= text.len(),
            size == utf8_size(text@.take(n as int)),
            size <= MAX_ARTIFACT_BYTES,
            n < text.len() ==> utf8_size(text@.take(n + 1)) > MAX_ARTIFACT_BYTES,
        decreases text.len() - n,
    {
        let u = text[n] as u32;
        let width: usize = if u < 0x80 {
            1
        } else if u < 0x800 {
            2
        } else if u < 0x10000 {
            3
        } else {
            4
        };
        proof {
            assert(text@.take(n + 1).drop_last() =~= text@.take(n as int));
        }
        if size + width > MAX_ARTIFACT_BYTES {
            break;
        }
        size = size + width;
        n = n + 1;
    }
    if n == text.len() {
        proof {
            assert(text@.take(n as int) =~= text@);
        }
        RunArtifact { content, truncated: over }
    } else {
        proof {
            lemma_utf8_size_grows(text@, n as int);
        }
        RunArtifact { content: string_of(&slice_chars(&text, 0, n)), truncated: true }
    }
}

proof fn lemma_utf8_size_grows(s: Seq<char>, n: int)
    requires
        0 <= n < s.len(),
    ensures
        utf8_size(s.take(n)) < utf8_size(s.take(n + 1)),
        utf8_size(s.take(n + 1)) <= utf8_size(s),
    decreases s.len(),
{
    assert(s.take(n + 1).drop_last() =~= s.take(n));
    if n + 1 < s.len() {
        lemma_utf8_size_grows(s.drop_last(), n);
        assert(s.drop_last().take(n + 1) =~= s.take(n + 1));
        assert(s.drop_last().take(n) =~= s.take(n));
    } else {
        assert(s.take(n + 1) =~= s);
    }
}


// ---------------------------------------------------------------------------
// A run directory is read back as the attempt it records.

proof fn lemma_digit_char(d: nat)
    requires
        d < 10,
    ensures
        crate::text::digit_char(d) as u32 == 48 + d,
        is_ascii_digit(crate::text::digit_char(d)),
{
}

/// A number is written in decimal as a non-empty run of ASCII digits that
/// reads back as the number, with no leading zero but in zero itself.
pub proof fn lemma_decimal_digits(n: nat)
    ensures
        decimal(n).len() > 0,
        all_digits(decimal(n)),
        digits_value(decimal(n)) == n,
        n > 0 ==> decimal(n)[0] != '0',
        n == 0 ==> decimal(n) == seq!['0'],
    decreases n,
{
    let d = decimal(n);
    lemma_digit_char(n % 10);
    if n >= 10 {
        lemma_decimal_digits(n / 10);
        let e = decimal(n / 10);
        assert(d == e.push(crate::text::digit_char(n % 10)));
        assert(d[0] == e[0]);
        assert(d.drop_last() =~= e);
        assert forall|k: int| 0 <= k < d.len() implies is_ascii_digit(#[trigger] d[k]) by {
            if k < e.len() {
                assert(d[k] == e[k]);
            }
        }
        assert(digits_value(d) == digits_value(e) * 10 + (n % 10));
    } else {
        assert(d.drop_last() =~= Seq::<char>::empty());
        assert(digits_value(d) == digits_value(d.drop_last()) * 10 + (n % 10));
    }
}

proof fn lemma_last_occurrence_at(s: Seq<char>, pat: Seq<char>, i: int, k: int)
    requires
        0 <= k <= i,
        occurs_at(s, pat, k),
        forall|q: int| k < q <= i ==> !occurs_at(s, pat, q),
    ensures
        last_occurrence(s, pat, i) == Some(k),
    decreases i - k,
{
    if i > k {
        lemma_last_occurrence_at(s, pat, i - 1, k);
    }
}

proof fn lemma_first_dash_at(s: Seq<char>, i: int, d: int)
    requires
        0 <= i <= d < s.len(),
        s[d] == '-',
        forall|q: int| i <= q < d ==> s[q] != '-',
    ensures
        first_dash(s, i) == Some(d),
    decreases d - i,
{
    if i < d {
        lemma_first_dash_at(s, i + 1, d);
    }
}

/// The name of the directory recording attempt `attempt` of `task_id`,
/// started at the compact timestamp `stamp`, with the random `suffix`.
pub open spec fn run_directory_name(stamp: Seq<char>, task_id: Seq<char>, attempt: u32, suffix: Seq<char>) -> Seq<char> {
    stamp + "-"@ + safe_name(task_id) + "-attempt-"@ + decimal(attempt as nat) + "-"@ + suffix
}

/// A run directory is read back as the attempt it records: the name made of
/// a valid timestamp, a valid task ID, a positive attempt number and a
/// non-empty suffix of ASCII letters and digits is that attempt of that task,
/// started at that time.
pub proof fn lemma_run_directory_round_trip(stamp: Seq<char>, task_id: Seq<char>, attempt: u32, suffix: Seq<char>)
    requires
        valid_stamp(stamp),
        crate::validate::valid_task_id(task_id),
        attempt > 0,
        suffix.len() > 0,
        forall|i: int| 0 <= i < suffix.len() ==> is_ascii_alnum(#[trigger] suffix[i]),
    ensures
        run_summary_of(run_directory_name(stamp, task_id, attempt, suffix), task_id) == Some(
            TaskRunSummaryView {
                id: run_directory_name(stamp, task_id, attempt, suffix),
                attempt,
                started_at: iso_stamp(stamp),
            },
        ),
{
    reveal_strlit("-");
    reveal_strlit("-attempt-");
    let m = attempt_marker();
    assert("-attempt-"@ =~= m);
    let d = decimal(attempt as nat);
    lemma_decimal_digits(attempt as nat);
    assert(safe_name(task_id) =~= task_id);
    let name = run_directory_name(stamp, task_id, attempt, suffix);
    let tail = d + seq!['-'] + suffix;
    let after = m + tail;
    let rest = task_id + after;
    assert(name =~= stamp + seq!['-'] + rest);
    assert(valid_stamp(stamp));
    lemma_name_chars(stamp, task_id, d, suffix, name);
    assert(name.subrange(17, name.len() as int) =~= rest);
    assert(name.subrange(0, 16) =~= stamp);
    let k = task_id.len() as int;
    assert(occurs_at(rest, m, k)) by {
        assert(rest.subrange(k, k + 9) =~= m);
    }
    lemma_no_later_marker(task_id, d, suffix);
    lemma_last_occurrence_at(rest, m, rest.len() - 9, k);
    assert(rest.subrange(0, k) =~= task_id);
    assert(rest.subrange(k + 9, rest.len() as int) =~= tail);
    assert forall|q: int| 0 <= q < d.len() implies tail[q] != '-' by {
        assert(tail[q] == d[q]);
        assert(is_ascii_digit(d[q]));
    }
    lemma_first_dash_at(tail, 0, d.len() as int);
    assert(tail.subrange(d.len() as int + 1, tail.len() as int) =~= suffix);
    assert(tail.subrange(0, d.len() as int) =~= d);
}


proof fn lemma_name_chars(stamp: Seq<char>, task_id: Seq<char>, d: Seq<char>, suffix: Seq<char>, name: Seq<char>)
    requires
        stamp_shape(stamp),
        crate::validate::valid_task_id(task_id),
        all_digits(d),
        forall|i: int| 0 <= i < suffix.len() ==> is_ascii_alnum(#[trigger] suffix[i]),
        name == stamp + seq!['-'] + (task_id + (attempt_marker() + (d + seq!['-'] + suffix))),
    ensures
        forall|i: int| 0 <= i < name.len() ==> is_run_id_char(#[trigger] name[i]),
{
    let m = attempt_marker();
    assert forall|i: int| 0 <= i < name.len() implies is_run_id_char(#[trigger] name[i]) by {
        if i < 16 {
            assert(name[i] == stamp[i]);
        } else if i == 16 {
        } else if i < 17 + task_id.len() {
            assert(name[i] == task_id[i - 17]);
        } else if i < 17 + task_id.len() + 9 {
            assert(name[i] == m[i - 17 - task_id.len()]);
        } else if i < 17 + task_id.len() + 9 + d.len() {
            assert(name[i] == d[i - 17 - task_id.len() - 9]);
        } else if i == 17 + task_id.len() + 9 + d.len() {
        } else {
            assert(name[i] == suffix[i - 17 - task_id.len() - 9 - d.len() - 1]);
        }
    }
}

proof fn lemma_no_later_marker(task_id: Seq<char>, d: Seq<char>, suffix: Seq<char>)
    requires
        d.len() > 0,
        all_digits(d),
        forall|i: int| 0 <= i < suffix.len() ==> is_ascii_alnum(#[trigger] suffix[i]),
    ensures
        forall|q: int|
            task_id.len() < q <= (task_id + (attempt_marker() + (d + seq!['-'] + suffix))).len() - 9
                ==> !occurs_at(task_id + (attempt_marker() + (d + seq!['-'] + suffix)), attempt_marker(), q),
{
    let m = attempt_marker();
    let after = m + (d + seq!['-'] + suffix);
    let rest = task_id + after;
    let k = task_id.len() as int;
    assert forall|q: int| k < q <= rest.len() - 9 implies !occurs_at(rest, m, q) by {
        if occurs_at(rest, m, q) {
            let o = q - k;
            assert(rest.subrange(q, q + 9)[0] == '-');
            assert(rest[q] == after[o]);
            assert(rest.subrange(q, q + 9)[8] == '-');
            assert(rest[q + 8] == after[o + 8]);
            assert(rest.subrange(q, q + 9)[1] == 'a');
            assert(rest[q + 1] == after[o + 1]);
            if o < 8 {
                assert(after[o] == m[o]);
            } else if o == 8 {
                assert(after[9] == d[0]);
                assert(is_ascii_digit(d[0]));
            } else if o < 9 + d.len() {
                assert(after[o] == d[o - 9]);
                assert(is_ascii_digit(d[o - 9]));
            } else if o == 9 + d.len() {
                assert(after[o + 8] == suffix[7]);
                assert(is_ascii_alnum(suffix[7]));
            } else {
                assert(after[o] == suffix[o - 10 - d.len()]);
                assert(is_ascii_alnum(suffix[o - 10 - d.len()]));
            }
        }
    }
}

} // verus!
