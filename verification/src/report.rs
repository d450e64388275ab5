//! The time-aggregation engine: stretches are split per local
//! calendar day, clamped to the day's instant range, and summed per
//! day and per work-item code over a reporting window.

use vstd::prelude::*;

use crate::models::{Db, Stretch, TS_MAX, subtask_index_by_id};
use crate::tz::{local_day_of, day_open_ts, day_close_ts, local_day, day_open, day_close};

verus! {

/// Strict lexicographic order on code strings.
pub open spec fn lex_lt(a: Seq<char>, b: Seq<char>) -> bool
    decreases a.len(),
{
    if b.len() == 0 {
        false
    } else if a.len() == 0 {
        true
    } else if a[0] != b[0] {
        a[0] < b[0]
    } else {
        lex_lt(a.drop_first(), b.drop_first())
    }
}

/// Of two distinct strings, exactly one precedes the other.
pub proof fn lemma_lex_trichotomy(a: Seq<char>, b: Seq<char>)
    ensures
        lex_lt(a, b) || lex_lt(b, a) || a == b,
        lex_lt(a, b) ==> !lex_lt(b, a) && a != b,
        lex_lt(b, a) ==> !lex_lt(a, b) && a != b,
    decreases a.len(),
{
    if a.len() != 0 && b.len() != 0 && a[0] == b[0] {
        lemma_lex_trichotomy(a.drop_first(), b.drop_first());
        if a.drop_first() == b.drop_first() {
            assert forall|i: int| 0 <= i < a.len() implies a[i] == b[i] by {
                if i > 0 {
                    assert(a.drop_first()[i - 1] == a[i]);
                    assert(b.drop_first()[i - 1] == b[i]);
                }
            }
            assert(a =~= b);
        }
    }
}

pub proof fn lemma_lex_transitive(a: Seq<char>, b: Seq<char>, c: Seq<char>)
    requires
        lex_lt(a, b),
        lex_lt(b, c),
    ensures
        lex_lt(a, c),
    decreases a.len(),
{
    if b.len() != 0 && c.len() != 0 && a.len() != 0 {
        if a[0] == b[0] && b[0] == c[0] {
            lemma_lex_transitive(a.drop_first(), b.drop_first(), c.drop_first());
        }
    }
}

/// Strict lexicographic comparison of two strings.
pub fn str_lt(a: &str, b: &str) -> (r: bool)
    ensures
        r == lex_lt(a@, b@),
{
    let la = a.unicode_len();
    let lb = b.unicode_len();
    let mut i: usize = 0;
    proof {
        assert(a@.skip(0) =~= a@);
        assert(b@.skip(0) =~= b@);
    }
    loop
        invariant
            0 <= i,
            i <= la,
            i <= lb,
            la == a@.len(),
            lb == b@.len(),
            forall|j: int| 0 <= j < i ==> a@[j] == b@[j],
            lex_lt(a@, b@) == lex_lt(a@.skip(i as int), b@.skip(i as int)),
        decreases la - i,
    {
        if i == lb {
            proof {
                assert(!lex_lt(a@.skip(i as int), b@.skip(i as int)));
            }
            return false;
        }
        if i == la {
            proof {
                assert(lex_lt(a@.skip(i as int), b@.skip(i as int)));
            }
            return true;
        }
        let ca = a.get_char(i);
        let cb = b.get_char(i);
        proof {
            let sa = a@.skip(i as int);
            let sb = b@.skip(i as int);
            assert(sa[0] == a@[i as int]);
            assert(sb[0] == b@[i as int]);
            assert(sa.drop_first() =~= a@.skip(i + 1));
            assert(sb.drop_first() =~= b@.skip(i + 1));
        }
        if ca != cb {
            return ca < cb;
        }
        i += 1;
    }
}

/// A stretch's total recorded duration, zero while it is open or
/// inverted.
pub open spec fn duration_of(s: Stretch) -> int {
    match s.end {
        None => 0,
        Some(e) => if e > s.start {
            e - s.start
        } else {
            0
        },
    }
}

/// The length of the intersection of `[start, end]` with `[a, b]`,
/// clamped at zero: an empty intersection contributes nothing.
pub open spec fn clamp_overlap(start: int, end: int, a: int, b: int) -> int {
    let lo = if start > a {
        start
    } else {
        a
    };
    let hi = if end < b {
        end
    } else {
        b
    };
    if hi > lo {
        hi - lo
    } else {
        0
    }
}

/// Whether a (closed) stretch's local days include day `d`.
pub open spec fn stretch_covers_day(s: Stretch, d: int) -> bool {
    match s.end {
        None => false,
        Some(e) => local_day_of(s.start as int) <= d <= local_day_of(e as int),
    }
}

/// What a stretch contributes to local day `d`: the clamped
/// intersection of the stretch with the day's instant range.  An open
/// stretch has no enumerable days and contributes to none.
pub open spec fn day_contrib(s: Stretch, d: int) -> int {
    match s.end {
        None => 0,
        Some(e) => if stretch_covers_day(s, d) {
            match (day_open_ts(d), day_close_ts(d)) {
                (Some(a), Some(b)) => clamp_overlap(s.start as int, e as int, a, b),
                _ => 0,
            }
        } else {
            0
        },
    }
}

/// A day's contribution never exceeds the stretch's own duration.
pub proof fn lemma_day_contrib_bounds(s: Stretch, d: int)
    ensures
        0 <= day_contrib(s, d) <= duration_of(s),
{
}

/// The work-item code a stretch is recorded under.
pub open spec fn stretch_code(db: Db, s: Stretch) -> Seq<char> {
    db.spec_subtask_code(subtask_index_by_id(db.subtasks@, s.subtask_id))
}

/// The clamped intersection of a stretch with an explicit instant
/// range, or None when they do not meet; None also while the stretch
/// is open.
pub fn time_in_range(s: &Stretch, from: i64, until: i64) -> (r: Option<i64>)
    requires
        0 <= s.start <= TS_MAX,
        s.end matches Some(e) ==> 0 <= e <= TS_MAX,
        -9_000_000_000_000 <= from <= 9_000_000_000_000,
        -9_000_000_000_000 <= until <= 9_000_000_000_000,
    ensures
        match s.end {
            None => r is None,
            Some(e) => {
                let lo = if s.start > from { s.start as int } else { from as int };
                let hi = if e < until { e as int } else { until as int };
                if lo > hi {
                    r is None
                } else {
                    r == Some((hi - lo) as i64)
                }
            },
        },
{
    match s.end {
        None => None,
        Some(e) => {
            let lo = if s.start > from {
                s.start
            } else {
                from
            };
            let hi = if e < until {
                e
            } else {
                until
            };
            if lo > hi {
                None
            } else {
                Some(hi - lo)
            }
        },
    }
}

/// The local days a stretch touches, start date through end date
/// inclusive; empty while the stretch is open.
pub fn dates(s: &Stretch) -> (r: Vec<i64>)
    requires
        0 <= s.start <= TS_MAX,
        s.end matches Some(e) ==> 0 <= e <= TS_MAX,
    ensures
        match s.end {
            None => r@.len() == 0,
            Some(e) => {
                let sd = local_day_of(s.start as int);
                let ed = local_day_of(e as int);
                if ed < sd {
                    r@.len() == 0
                } else {
                    &&& r@.len() == ed - sd + 1
                    &&& forall|k: int| 0 <= k < r@.len() ==> r@[k] == sd + k
                }
            },
        },
{
    let mut out: Vec<i64> = Vec::new();
    match s.end {
        None => out,
        Some(e) => {
            let sd = local_day(s.start);
            let ed = local_day(e);
            let mut d = sd;
            while d <= ed
                invariant
                    sd == local_day_of(s.start as int),
                    ed == local_day_of(e as int),
                    -96_000_000 <= sd <= 96_000_000,
                    -96_000_000 <= ed <= 96_000_000,
                    sd <= d,
                    d <= ed + 1 || (ed < sd && d == sd),
                    out@.len() == d - sd,
                    forall|k: int| 0 <= k < out@.len() ==> out@[k] == sd + k,
                decreases ed + 1 - d,
            {
                out.push(d);
                d += 1;
            }
            out
        },
    }
}

/// One work-item line of a day's report.
pub struct ReportEntry {
    pub code: String,
    pub seconds: i64,
}

/// One day of the report, its entries sorted by code.
pub struct ReportDay {
    pub day: i64,
    pub entries: Vec<ReportEntry>,
}

pub open spec fn entries_wf(es: Seq<ReportEntry>) -> bool {
    forall|i: int, j: int| 0 <= i < j < es.len()
        ==> lex_lt((#[trigger] es[i]).code@, (#[trigger] es[j]).code@)
}

/// Days strictly ascending, and every day's entries strictly
/// ascending by code.
pub open spec fn report_wf(r: Seq<ReportDay>) -> bool {
    &&& forall|i: int, j: int| 0 <= i < j < r.len()
        ==> (#[trigger] r[i]).day < (#[trigger] r[j]).day
    &&& forall|i: int| 0 <= i < r.len() ==> entries_wf((#[trigger] r[i]).entries@)
}

pub open spec fn has_day(r: Seq<ReportDay>, d: int) -> bool {
    exists|i: int| 0 <= i < r.len() && (#[trigger] r[i]).day == d
}

pub open spec fn day_index(r: Seq<ReportDay>, d: int) -> int {
    choose|i: int| 0 <= i < r.len() && (#[trigger] r[i]).day == d
}

pub open spec fn has_code(es: Seq<ReportEntry>, c: Seq<char>) -> bool {
    exists|i: int| 0 <= i < es.len() && (#[trigger] es[i]).code@ == c
}

pub open spec fn code_index(es: Seq<ReportEntry>, c: Seq<char>) -> int {
    choose|i: int| 0 <= i < es.len() && (#[trigger] es[i]).code@ == c
}

/// Whether the report carries a line for day `d` and code `c`.
pub open spec fn report_has(r: Seq<ReportDay>, d: int, c: Seq<char>) -> bool {
    has_day(r, d) && has_code(r[day_index(r, d)].entries@, c)
}

/// The seconds the report carries for day `d` and code `c`, zero when
/// it carries no such line.
pub open spec fn report_val(r: Seq<ReportDay>, d: int, c: Seq<char>) -> int {
    if report_has(r, d, c) {
        let es = r[day_index(r, d)].entries@;
        es[code_index(es, c)].seconds as int
    } else {
        0
    }
}

/// In a well-formed report, looking a day up by a row's own day finds
/// that row.
pub proof fn lemma_day_index(r: Seq<ReportDay>, i: int)
    requires
        report_wf(r),
        0 <= i < r.len(),
    ensures
        day_index(r, r[i].day as int) == i,
        has_day(r, r[i].day as int),
{
    let d = r[i].day as int;
    assert(r[i].day == d);
    let c = day_index(r, d);
    assert(0 <= c < r.len() && r[c].day == d) by {
        assert(exists|k: int| 0 <= k < r.len() && (#[trigger] r[k]).day == d);
    }
    if c != i {
        if c < i {
            assert(r[c].day < r[i].day);
        } else {
            assert(r[i].day < r[c].day);
        }
        assert(false);
    }
}

/// In a well-formed entry list, looking a code up by a line's own
/// code finds that line.
pub proof fn lemma_code_index(es: Seq<ReportEntry>, i: int)
    requires
        entries_wf(es),
        0 <= i < es.len(),
    ensures
        code_index(es, es[i].code@) == i,
        has_code(es, es[i].code@),
{
    let c = es[i].code@;
    assert(es[i].code@ == c);
    let w = code_index(es, c);
    assert(0 <= w < es.len() && es[w].code@ == c) by {
        assert(exists|k: int| 0 <= k < es.len() && (#[trigger] es[k]).code@ == c);
    }
    if w != i {
        if w < i {
            assert(lex_lt(es[w].code@, es[i].code@));
            lemma_lex_trichotomy(es[w].code@, es[i].code@);
        } else {
            assert(lex_lt(es[i].code@, es[w].code@));
            lemma_lex_trichotomy(es[i].code@, es[w].code@);
        }
        assert(false);
    }
}

/// When everything before position `q` precedes `code` and the line
/// at `q` (if any) follows it, no line carries `code`.
proof fn lemma_code_absent(es: Seq<ReportEntry>, code: Seq<char>, q: int)
    requires
        entries_wf(es),
        0 <= q <= es.len(),
        forall|i: int| 0 <= i < q ==> lex_lt((#[trigger] es[i]).code@, code),
        q < es.len() ==> lex_lt(code, es[q].code@),
    ensures
        !has_code(es, code),
{
    assert forall|i: int| 0 <= i < es.len() implies (#[trigger] es[i]).code@ != code by {
        if i < q {
            lemma_lex_trichotomy(es[i].code@, code);
        } else if i == q {
            lemma_lex_trichotomy(code, es[q].code@);
        } else {
            assert(lex_lt(es[q].code@, es[i].code@));
            lemma_lex_transitive(code, es[q].code@, es[i].code@);
            lemma_lex_trichotomy(code, es[i].code@);
        }
    }
}

/// When everything before position `p` lies before `day` and the row
/// at `p` (if any) lies after it, no row carries `day`.
proof fn lemma_day_absent(r: Seq<ReportDay>, day: int, p: int)
    requires
        report_wf(r),
        0 <= p <= r.len(),
        forall|i: int| 0 <= i < p ==> (#[trigger] r[i]).day < day,
        p < r.len() ==> day < r[p].day,
    ensures
        !has_day(r, day),
{
    assert forall|i: int| 0 <= i < r.len() implies (#[trigger] r[i]).day != day by {
        if i > p {
            assert(r[p].day < r[i].day);
        }
    }
}

fn find_day_pos(report: &Vec<ReportDay>, day: i64) -> (p: usize)
    requires
        report_wf(report@),
    ensures
        p <= report@.len(),
        forall|i: int| 0 <= i < p ==> (#[trigger] report@[i]).day < day,
        p < report@.len() ==> report@[p as int].day >= day,
{
    let n = report.len();
    let mut i: usize = 0;
    while i < n
        invariant
            0 <= i <= n,
            n == report@.len(),
            forall|j: int| 0 <= j < i ==> (#[trigger] report@[j]).day < day,
        decreases n - i,
    {
        if report[i].day >= day {
            return i;
        }
        i += 1;
    }
    n
}

fn find_code_pos(es: &Vec<ReportEntry>, code: &String) -> (q: usize)
    requires
        entries_wf(es@),
    ensures
        q <= es@.len(),
        forall|i: int| 0 <= i < q ==> lex_lt((#[trigger] es@[i]).code@, code@),
        q < es@.len() ==> !lex_lt(es@[q as int].code@, code@),
{
    let n = es.len();
    let mut i: usize = 0;
    while i < n
        invariant
            0 <= i <= n,
            n == es@.len(),
            forall|j: int| 0 <= j < i ==> lex_lt((#[trigger] es@[j]).code@, code@),
        decreases n - i,
    {
        if !str_lt(es[i].code.as_str(), code.as_str()) {
            return i;
        }
        i += 1;
    }
    n
}

/// Adds `secs` to the line for (`day`, `code`), creating the day
/// and the line where missing, keeping days and codes sorted, and
/// leaving every other line exactly as it was.
pub fn add_seconds(report: &mut Vec<ReportDay>, day: i64, code: &String, secs: i64)
    requires
        report_wf(old(report)@),
        0 <= secs,
        report_val(old(report)@, day as int, code@) + secs <= i64::MAX,
    ensures
        report_wf(final(report)@),
        forall|d: int, c: Seq<char>| #![trigger report_val(final(report)@, d, c)]
            report_val(final(report)@, d, c) == report_val(old(report)@, d, c)
                + (if d == day && c == code@ { secs as int } else { 0 }),
        forall|d: int, c: Seq<char>| #![trigger report_has(final(report)@, d, c)]
            report_has(final(report)@, d, c)
                == (report_has(old(report)@, d, c) || (d == day && c == code@)),
{
    let ghost r0 = report@;
    let p = find_day_pos(report, day);
    if p < report.len() && report[p].day == day {
        proof {
            lemma_day_index(r0, p as int);
        }
        let ghost es0 = r0[p as int].entries@;
        let q = find_code_pos(&report[p].entries, code);
        if q < report[p].entries.len()
            && crate::strutil::str_eq(report[p].entries[q].code.as_str(), code.as_str()) {
            // the line exists: add to it
            proof {
                lemma_code_index(es0, q as int);
            }
            let cur = report[p].entries[q].seconds;
            report[p].entries[q].seconds = cur + secs;
            proof {
                let r1 = report@;
                let es1 = r1[p as int].entries@;
                assert(es1 =~= es0.update(q as int, (ReportEntry {
                    code: es0[q as int].code,
                    seconds: (cur + secs) as i64,
                })));
                lemma_add_update(r0, r1, p as int, q as int, day as int, code@, secs as int);
            }
        } else {
            // the day exists, the line does not: insert it in order
            proof {
                if q < es0.len() {
                    assert(es0[q as int].code@ != code@);
                    lemma_lex_trichotomy(es0[q as int].code@, code@);
                }
                lemma_code_absent(es0, code@, q as int);
            }
            let entry = ReportEntry { code: code.clone(), seconds: secs };
            report[p].entries.insert(q, entry);
            proof {
                let r1 = report@;
                lemma_add_insert_entry(r0, r1, p as int, q as int, day as int, code@, secs as int);
            }
        }
    } else {
        // no such day yet: insert a fresh one in order
        proof {
            if p < report@.len() {
                assert(report@[p as int].day != day);
            }
            lemma_day_absent(r0, day as int, p as int);
        }
        let mut entries: Vec<ReportEntry> = Vec::new();
        entries.push(ReportEntry { code: code.clone(), seconds: secs });
        let fresh = ReportDay { day, entries };
        report.insert(p, fresh);
        proof {
            let r1 = report@;
            lemma_add_insert_day(r0, r1, p as int, day as int, code@, secs as int);
        }
    }
}

/// Days of two reports agree pointwise, so day lookups agree.
proof fn lemma_same_days(r0: Seq<ReportDay>, r1: Seq<ReportDay>, d: int)
    requires
        report_wf(r0),
        r1.len() == r0.len(),
        forall|i: int| 0 <= i < r0.len() ==> (#[trigger] r1[i]).day == r0[i].day,
    ensures
        has_day(r1, d) == has_day(r0, d),
        has_day(r0, d) ==> day_index(r1, d) == day_index(r0, d),
{
    if has_day(r0, d) {
        let i0 = choose|i: int| 0 <= i < r0.len() && (#[trigger] r0[i]).day == d;
        assert(r1[i0].day == d);
        assert(has_day(r1, d));
        let w1 = day_index(r1, d);
        assert(0 <= w1 < r1.len() && r1[w1].day == d) by {
            assert(exists|k: int| 0 <= k < r1.len() && (#[trigger] r1[k]).day == d);
        }
        assert(r0[w1].day == d);
        lemma_day_index(r0, w1);
        let w0 = day_index(r0, d);
        assert(w0 == w1);
    }
    if has_day(r1, d) {
        let i1 = choose|i: int| 0 <= i < r1.len() && (#[trigger] r1[i]).day == d;
        assert(r0[i1].day == d);
        assert(has_day(r0, d));
    }
}

/// Entry lists whose codes agree pointwise give the same lookups.
proof fn lemma_same_codes(es0: Seq<ReportEntry>, es1: Seq<ReportEntry>, c: Seq<char>)
    requires
        entries_wf(es0),
        es1.len() == es0.len(),
        forall|i: int| 0 <= i < es0.len() ==> (#[trigger] es1[i]).code@ == es0[i].code@,
    ensures
        has_code(es1, c) == has_code(es0, c),
        has_code(es0, c) ==> code_index(es1, c) == code_index(es0, c),
{
    if has_code(es0, c) {
        let i0 = choose|i: int| 0 <= i < es0.len() && (#[trigger] es0[i]).code@ == c;
        assert(es1[i0].code@ == c);
        assert(has_code(es1, c));
        let w1 = code_index(es1, c);
        assert(0 <= w1 < es1.len() && es1[w1].code@ == c) by {
            assert(exists|k: int| 0 <= k < es1.len() && (#[trigger] es1[k]).code@ == c);
        }
        assert(es0[w1].code@ == c);
        lemma_code_index(es0, w1);
    }
    if has_code(es1, c) {
        let i1 = choose|i: int| 0 <= i < es1.len() && (#[trigger] es1[i]).code@ == c;
        assert(es0[i1].code@ == c);
        assert(has_code(es0, c));
    }
}

/// What adding onto an existing line does to every lookup.
proof fn lemma_add_update(
    r0: Seq<ReportDay>,
    r1: Seq<ReportDay>,
    p: int,
    q: int,
    day: int,
    code: Seq<char>,
    secs: int,
)
    requires
        report_wf(r0),
        0 <= p < r0.len(),
        r0[p].day == day,
        0 <= q < r0[p].entries@.len(),
        r0[p].entries@[q].code@ == code,
        r1.len() == r0.len(),
        forall|i: int| 0 <= i < r0.len() && i != p ==> #[trigger] r1[i] == r0[i],
        r1[p].day == day,
        r1[p].entries@.len() == r0[p].entries@.len(),
        forall|j: int| 0 <= j < r0[p].entries@.len() && j != q
            ==> #[trigger] r1[p].entries@[j] == r0[p].entries@[j],
        r1[p].entries@[q].code@ == code,
        r1[p].entries@[q].seconds == r0[p].entries@[q].seconds + secs,
    ensures
        report_wf(r1),
        forall|d: int, c: Seq<char>| #![trigger report_val(r1, d, c)]
            report_val(r1, d, c) == report_val(r0, d, c)
                + (if d == day && c == code { secs } else { 0 }),
        forall|d: int, c: Seq<char>| #![trigger report_has(r1, d, c)]
            report_has(r1, d, c) == (report_has(r0, d, c) || (d == day && c == code)),
{
    let es0 = r0[p].entries@;
    let es1 = r1[p].entries@;
    assert(forall|i: int| 0 <= i < r0.len() ==> (#[trigger] r1[i]).day == r0[i].day);
    assert(forall|j: int| 0 <= j < es0.len()
        ==> (#[trigger] es1[j]).code@ == es0[j].code@);
    assert forall|i: int| 0 <= i < r1.len() implies entries_wf((#[trigger] r1[i]).entries@) by {
        if i == p {
            assert forall|a: int, b: int| 0 <= a < b < es1.len()
                implies lex_lt((#[trigger] es1[a]).code@, (#[trigger] es1[b]).code@) by {
                assert(lex_lt(es0[a].code@, es0[b].code@));
            }
        } else {
            assert(r1[i].entries@ == r0[i].entries@);
        }
    }
    assert(report_wf(r1));
    lemma_day_index(r0, p);
    lemma_day_index(r1, p);
    assert forall|d: int, c: Seq<char>| #![trigger report_has(r1, d, c)]
        report_has(r1, d, c) == (report_has(r0, d, c) || (d == day && c == code))
        && report_val(r1, d, c) == report_val(r0, d, c)
            + (if d == day && c == code { secs } else { 0 }) by {
        lemma_same_days(r0, r1, d);
        if has_day(r0, d) {
            let w = day_index(r0, d);
            if w == p {
                assert(d == day);
                lemma_same_codes(es0, es1, c);
                if c == code {
                    lemma_code_index(es0, q);
                    lemma_code_index(es1, q);
                    assert(report_has(r0, d, c));
                    assert(report_has(r1, d, c));
                    assert(report_val(r1, d, c) == report_val(r0, d, c) + secs);
                } else {
                    if has_code(es0, c) {
                        let wc = code_index(es0, c);
                        assert(es0[wc].code@ == c) by {
                            assert(exists|k: int| 0 <= k < es0.len()
                                && (#[trigger] es0[k]).code@ == c);
                        }
                        assert(wc != q);
                        assert(es1[wc] == es0[wc]);
                    }
                }
            } else {
                assert(r1[w] == r0[w]);
                assert(d != day);
            }
        } else {
            assert(d != day) by {
                assert(r0[p].day == day);
            }
        }
    }
}

/// What inserting a fresh line into an existing day does to every
/// lookup.
proof fn lemma_add_insert_entry(
    r0: Seq<ReportDay>,
    r1: Seq<ReportDay>,
    p: int,
    q: int,
    day: int,
    code: Seq<char>,
    secs: int,
)
    requires
        report_wf(r0),
        0 <= p < r0.len(),
        r0[p].day == day,
        0 <= q <= r0[p].entries@.len(),
        forall|i: int| 0 <= i < q ==> lex_lt((#[trigger] r0[p].entries@[i]).code@, code),
        q < r0[p].entries@.len() ==> lex_lt(code, r0[p].entries@[q].code@),
        r1.len() == r0.len(),
        forall|i: int| 0 <= i < r0.len() && i != p ==> #[trigger] r1[i] == r0[i],
        r1[p].day == day,
        r1[p].entries@.len() == r0[p].entries@.len() + 1,
        forall|j: int| 0 <= j < q ==> #[trigger] r1[p].entries@[j] == r0[p].entries@[j],
        r1[p].entries@[q].code@ == code,
        r1[p].entries@[q].seconds == secs,
        forall|j: int| q <= j < r0[p].entries@.len()
            ==> #[trigger] r1[p].entries@[j + 1] == r0[p].entries@[j],
    ensures
        report_wf(r1),
        forall|d: int, c: Seq<char>| #![trigger report_val(r1, d, c)]
            report_val(r1, d, c) == report_val(r0, d, c)
                + (if d == day && c == code { secs } else { 0 }),
        forall|d: int, c: Seq<char>| #![trigger report_has(r1, d, c)]
            report_has(r1, d, c) == (report_has(r0, d, c) || (d == day && c == code)),
{
    let es0 = r0[p].entries@;
    let es1 = r1[p].entries@;
    lemma_code_absent(es0, code, q);
    assert forall|j: int| q < j < es1.len() implies #[trigger] es1[j] == es0[j - 1] by {
        assert(es1[(j - 1) + 1] == es0[j - 1]);
    }
    assert(forall|i: int| 0 <= i < r0.len() ==> (#[trigger] r1[i]).day == r0[i].day);
    assert forall|a: int, b: int| 0 <= a < b < es1.len()
        implies lex_lt((#[trigger] es1[a]).code@, (#[trigger] es1[b]).code@) by {
        if b < q {
            assert(lex_lt(es0[a].code@, es0[b].code@));
        } else if b == q {
            assert(a < q);
            assert(lex_lt(es0[a].code@, code));
        } else {
            assert(es1[b] == es0[b - 1]);
            if a < q {
                assert(lex_lt(es0[a].code@, es0[b - 1].code@));
            } else if a == q {
                if b - 1 == q {
                    assert(lex_lt(code, es0[q].code@));
                } else {
                    assert(lex_lt(code, es0[q].code@));
                    assert(lex_lt(es0[q].code@, es0[b - 1].code@));
                    lemma_lex_transitive(code, es0[q].code@, es0[b - 1].code@);
                }
            } else {
                assert(es1[a] == es0[a - 1]);
                assert(lex_lt(es0[a - 1].code@, es0[b - 1].code@));
            }
        }
    }
    assert forall|i: int| 0 <= i < r1.len() implies entries_wf((#[trigger] r1[i]).entries@) by {
        if i != p {
            assert(r1[i].entries@ == r0[i].entries@);
        }
    }
    assert(report_wf(r1));
    lemma_day_index(r0, p);
    lemma_day_index(r1, p);
    assert forall|d: int, c: Seq<char>| #![trigger report_has(r1, d, c)]
        report_has(r1, d, c) == (report_has(r0, d, c) || (d == day && c == code))
        && report_val(r1, d, c) == report_val(r0, d, c)
            + (if d == day && c == code { secs } else { 0 }) by {
        lemma_same_days(r0, r1, d);
        if has_day(r0, d) {
            let w = day_index(r0, d);
            if w == p {
                assert(d == day);
                if c == code {
                    lemma_code_index(es1, q);
                    assert(report_has(r1, d, c));
                    assert(!has_code(es0, c));
                    assert(report_val(r1, d, c) == secs);
                    assert(report_val(r0, d, c) == 0);
                } else {
                    if has_code(es0, c) {
                        let wc = code_index(es0, c);
                        assert(es0[wc].code@ == c) by {
                            assert(exists|k: int| 0 <= k < es0.len()
                                && (#[trigger] es0[k]).code@ == c);
                        }
                        if wc < q {
                            assert(es1[wc] == es0[wc]);
                            lemma_code_index(es1, wc);
                            assert(has_code(es1, c));
                            assert(report_val(r1, d, c) == report_val(r0, d, c));
                        } else {
                            assert(es1[wc + 1] == es0[wc]);
                            lemma_code_index(es1, wc + 1);
                            assert(has_code(es1, c));
                            assert(report_val(r1, d, c) == report_val(r0, d, c));
                        }
                    }
                    if has_code(es1, c) {
                        let wc = code_index(es1, c);
                        assert(es1[wc].code@ == c) by {
                            assert(exists|k: int| 0 <= k < es1.len()
                                && (#[trigger] es1[k]).code@ == c);
                        }
                        assert(wc != q);
                        if wc < q {
                            assert(es0[wc].code@ == c);
                        } else {
                            assert(es0[wc - 1].code@ == c);
                        }
                        assert(has_code(es0, c));
                    }
                }
            } else {
                assert(r1[w] == r0[w]);
                assert(d != day);
            }
        } else {
            assert(d != day) by {
                assert(r0[p].day == day);
            }
        }
    }
}

/// What inserting a fresh day does to every lookup.
proof fn lemma_add_insert_day(
    r0: Seq<ReportDay>,
    r1: Seq<ReportDay>,
    p: int,
    day: int,
    code: Seq<char>,
    secs: int,
)
    requires
        report_wf(r0),
        0 <= p <= r0.len(),
        forall|i: int| 0 <= i < p ==> (#[trigger] r0[i]).day < day,
        p < r0.len() ==> day < r0[p].day,
        r1.len() == r0.len() + 1,
        forall|i: int| 0 <= i < p ==> #[trigger] r1[i] == r0[i],
        r1[p].day == day,
        r1[p].entries@.len() == 1,
        r1[p].entries@[0].code@ == code,
        r1[p].entries@[0].seconds == secs,
        forall|i: int| p <= i < r0.len() ==> #[trigger] r1[i + 1] == r0[i],
    ensures
        report_wf(r1),
        forall|d: int, c: Seq<char>| #![trigger report_val(r1, d, c)]
            report_val(r1, d, c) == report_val(r0, d, c)
                + (if d == day && c == code { secs } else { 0 }),
        forall|d: int, c: Seq<char>| #![trigger report_has(r1, d, c)]
            report_has(r1, d, c) == (report_has(r0, d, c) || (d == day && c == code)),
{
    lemma_day_absent(r0, day, p);
    assert forall|i: int| p < i < r1.len() implies #[trigger] r1[i] == r0[i - 1] by {
        assert(r1[(i - 1) + 1] == r0[i - 1]);
    }
    assert forall|a: int, b: int| 0 <= a < b < r1.len()
        implies (#[trigger] r1[a]).day < (#[trigger] r1[b]).day by {
        if b < p {
            assert(r0[a].day < r0[b].day);
        } else if b == p {
            assert(a < p);
            assert(r0[a].day < day);
        } else {
            assert(r1[b] == r0[b - 1]);
            if a < p {
                assert(r0[a].day < r0[b - 1].day || (a as int) == b - 1) by {
                    if a < b - 1 {
                        assert(r0[a].day < r0[b - 1].day);
                    }
                }
                if a == b - 1 {
                    assert(r0[a].day < day);
                    assert(p <= b - 1);
                    assert(false);
                }
                assert(r1[a].day < r1[b].day);
            } else if a == p {
                if b - 1 == p {
                    assert(day < r0[p].day);
                } else {
                    assert(day < r0[p].day);
                    assert(r0[p].day < r0[b - 1].day);
                }
            } else {
                assert(r1[a] == r0[a - 1]);
                assert(r0[a - 1].day < r0[b - 1].day);
            }
        }
    }
    assert forall|i: int| 0 <= i < r1.len() implies entries_wf((#[trigger] r1[i]).entries@) by {
        if i < p {
            assert(r1[i].entries@ == r0[i].entries@);
        } else if i == p {
            assert(r1[p].entries@.len() == 1);
        } else {
            assert(r1[i] == r0[i - 1]);
        }
    }
    assert(report_wf(r1));
    assert forall|d: int, c: Seq<char>| #![trigger report_has(r1, d, c)]
        report_has(r1, d, c) == (report_has(r0, d, c) || (d == day && c == code))
        && report_val(r1, d, c) == report_val(r0, d, c)
            + (if d == day && c == code { secs } else { 0 }) by {
        if d == day {
            lemma_day_index(r1, p);
            assert(!has_day(r0, d));
            assert(report_val(r0, d, c) == 0);
            let es1 = r1[p].entries@;
            if c == code {
                lemma_code_index(es1, 0);
                assert(report_has(r1, d, c));
                assert(report_val(r1, d, c) == secs);
            } else {
                assert forall|k: int| 0 <= k < es1.len()
                    implies (#[trigger] es1[k]).code@ != c by {
                    assert(k == 0);
                }
                assert(!has_code(es1, c));
                assert(!report_has(r1, d, c));
                assert(report_val(r1, d, c) == 0);
            }
        } else {
            if has_day(r0, d) {
                let w = day_index(r0, d);
                assert(r0[w].day == d) by {
                    assert(exists|k: int| 0 <= k < r0.len() && (#[trigger] r0[k]).day == d);
                }
                if w < p {
                    assert(r1[w] == r0[w]);
                    lemma_day_index(r1, w);
                    assert(report_has(r1, d, c) == report_has(r0, d, c));
                    assert(report_val(r1, d, c) == report_val(r0, d, c));
                } else {
                    assert(r1[w + 1] == r0[w]);
                    lemma_day_index(r1, w + 1);
                    assert(report_has(r1, d, c) == report_has(r0, d, c));
                    assert(report_val(r1, d, c) == report_val(r0, d, c));
                }
            }
            if has_day(r1, d) {
                let w = day_index(r1, d);
                assert(r1[w].day == d) by {
                    assert(exists|k: int| 0 <= k < r1.len() && (#[trigger] r1[k]).day == d);
                }
                assert(w != p);
                if w < p {
                    assert(r0[w].day == d);
                } else {
                    assert(r1[w] == r0[w - 1]);
                    assert(r0[w - 1].day == d);
                }
                assert(has_day(r0, d));
            }
            if !has_day(r0, d) && !has_day(r1, d) {
                assert(!report_has(r0, d, c));
                assert(!report_has(r1, d, c));
            }
        }
    }
}


/// A stretch's contribution to day `d` under code `c`, counted only
/// inside the reporting window `[from, today]`.
pub open spec fn windowed_contrib(db: Db, si: int, c: Seq<char>, d: int, from: int, today: int) -> int {
    if relevant_window(db, si, c, d, from, today) {
        day_contrib(db.stretches@[si], d)
    } else {
        0
    }
}

/// Whether stretch `si` puts a line for (`d`, `c`) into the report:
/// its local days include `d`, `d` lies in the window, and it is
/// recorded under `c`.
pub open spec fn relevant_window(db: Db, si: int, c: Seq<char>, d: int, from: int, today: int) -> bool {
    &&& 0 <= si < db.stretches@.len()
    &&& from <= d <= today
    &&& stretch_covers_day(db.stretches@[si], d)
    &&& stretch_code(db, db.stretches@[si]) == c
}

/// The summed contribution of the first `k` stretches to (`d`, `c`).
pub open spec fn sum_window(db: Db, k: int, c: Seq<char>, d: int, from: int, today: int) -> int
    decreases k,
{
    if k <= 0 {
        0
    } else {
        sum_window(db, k - 1, c, d, from, today) + windowed_contrib(db, k - 1, c, d, from, today)
    }
}

/// Whether one of the first `k` stretches puts a line for (`d`, `c`)
/// into the report.
pub open spec fn present_upto(db: Db, k: int, c: Seq<char>, d: int, from: int, today: int) -> bool {
    exists|si: int| 0 <= si < k && #[trigger] relevant_window(db, si, c, d, from, today)
}

/// The total duration of the first `k` stretches.
pub open spec fn sum_durations(db: Db, k: int) -> int
    decreases k,
{
    if k <= 0 {
        0
    } else {
        sum_durations(db, k - 1) + duration_of(db.stretches@[k - 1])
    }
}

/// One line's sum never exceeds the total of the stretches counted.
pub proof fn lemma_sum_window_le(db: Db, k: int, c: Seq<char>, d: int, from: int, today: int)
    ensures
        0 <= sum_window(db, k, c, d, from, today) <= sum_durations(db, k),
    decreases k,
{
    if k > 0 {
        lemma_sum_window_le(db, k - 1, c, d, from, today);
        lemma_day_contrib_bounds(db.stretches@[k - 1], d);
    }
}

/// Counting more stretches never shrinks the total duration.
pub proof fn lemma_sum_durations_mono(db: Db, k1: int, k2: int)
    requires
        k1 <= k2,
    ensures
        sum_durations(db, k1) <= sum_durations(db, k2),
    decreases k2 - k1,
{
    if k1 < k2 {
        lemma_sum_durations_mono(db, k1, k2 - 1);
        lemma_day_contrib_bounds(db.stretches@[k2 - 1], 0);
    }
}

/// Presence among `k + 1` stretches is presence among `k` or
/// relevance of the last one.
proof fn lemma_present_step(db: Db, k: int, c: Seq<char>, d: int, from: int, today: int)
    requires
        0 <= k,
    ensures
        present_upto(db, k + 1, c, d, from, today)
            == (present_upto(db, k, c, d, from, today)
                || relevant_window(db, k, c, d, from, today)),
{
    if present_upto(db, k, c, d, from, today) {
        let w = choose|si: int| 0 <= si < k && #[trigger] relevant_window(db, si, c, d, from, today);
        assert(0 <= w < k + 1 && relevant_window(db, w, c, d, from, today));
    }
    if relevant_window(db, k, c, d, from, today) {
        assert(0 <= k < k + 1 && relevant_window(db, k, c, d, from, today));
    }
    if present_upto(db, k + 1, c, d, from, today) {
        let w = choose|si: int| 0 <= si < k + 1 && #[trigger] relevant_window(db, si, c, d, from, today);
        if w < k {
            assert(present_upto(db, k, c, d, from, today));
        }
    }
}

/// The partial contribution of stretch `k` while its days before
/// `dcur` have been folded in.
pub open spec fn partial_contrib(db: Db, k: int, c: Seq<char>, d: int, from: int, today: int, dcur: int) -> int {
    if relevant_window(db, k, c, d, from, today) && d < dcur {
        day_contrib(db.stretches@[k], d)
    } else {
        0
    }
}

fn day_contrib_exec(s: &Stretch, d: i64) -> (c: i64)
    requires
        0 <= s.start <= TS_MAX,
        s.end matches Some(e) ==> 0 <= e <= TS_MAX,
        s.end is Some,
        local_day_of(s.start as int) <= d as int,
        s.end matches Some(e) ==> d as int <= local_day_of(e as int),
    ensures
        c as int == day_contrib(*s, d as int),
        0 <= c,
{
    let e = match s.end {
        Some(e) => e,
        None => 0,
    };
    match day_open(d) {
        None => 0,
        Some(a) => match day_close(d) {
            None => 0,
            Some(b) => {
                let lo = if s.start > a {
                    s.start
                } else {
                    a
                };
                let hi = if e < b {
                    e
                } else {
                    b
                };
                if hi > lo {
                    hi - lo
                } else {
                    0
                }
            },
        },
    }
}

/// The per-day, per-work-item duration report over the window
/// `[from, today]`: days ascending, codes ascending within a day,
/// every line the exact sum of the clamped per-day contributions of
/// the stretches recorded under its code.
pub fn time_since(db: &Db, from: i64, today: i64) -> (r: Vec<ReportDay>)
    requires
        db.wf(),
        sum_durations(*db, db.stretches@.len() as int) <= i64::MAX,
    ensures
        report_wf(r@),
        forall|d: int, c: Seq<char>| #![trigger report_val(r@, d, c)]
            report_val(r@, d, c)
                == sum_window(*db, db.stretches@.len() as int, c, d, from as int, today as int),
        forall|d: int, c: Seq<char>| #![trigger report_has(r@, d, c)]
            report_has(r@, d, c)
                == present_upto(*db, db.stretches@.len() as int, c, d, from as int, today as int),
{
    let nst = db.stretches.len();
    let mut rep: Vec<ReportDay> = Vec::new();
    let mut k: usize = 0;
    while k < nst
        invariant
            db.wf(),
            sum_durations(*db, db.stretches@.len() as int) <= i64::MAX,
            nst == db.stretches@.len(),
            0 <= k <= nst,
            report_wf(rep@),
            forall|d: int, c: Seq<char>| #![trigger report_val(rep@, d, c)]
                report_val(rep@, d, c)
                    == sum_window(*db, k as int, c, d, from as int, today as int),
            forall|d: int, c: Seq<char>| #![trigger report_has(rep@, d, c)]
                report_has(rep@, d, c)
                    == present_upto(*db, k as int, c, d, from as int, today as int),
        decreases nst - k,
    {
        let s_end = db.stretches[k].end;
        match s_end {
            None => {
                proof {
                    assert forall|d: int, c: Seq<char>| #![trigger report_val(rep@, d, c)]
                        report_val(rep@, d, c)
                            == sum_window(*db, k + 1, c, d, from as int, today as int) by {
                        assert(!relevant_window(*db, k as int, c, d, from as int, today as int));
                        assert(windowed_contrib(*db, k as int, c, d, from as int, today as int) == 0);
                    }
                    assert forall|d: int, c: Seq<char>| #![trigger report_has(rep@, d, c)]
                        report_has(rep@, d, c)
                            == present_upto(*db, k + 1, c, d, from as int, today as int) by {
                        lemma_present_step(*db, k as int, c, d, from as int, today as int);
                        assert(!relevant_window(*db, k as int, c, d, from as int, today as int));
                    }
                }
            },
            Some(e) => {
                let sid = db.stretches[k].subtask_id;
                let si = db.find_subtask_by_id(sid);
                let code = db.subtask_code(si);
                proof {
                    crate::models::lemma_subtask_lookup(*db, si as int);
                    assert(code@ == stretch_code(*db, db.stretches@[k as int]));
                }
                let start = db.stretches[k].start;
                let sd = local_day(start);
                let ed = local_day(e);
                let mut d = sd;
                while d <= ed
                    invariant
                        db.wf(),
                        sum_durations(*db, db.stretches@.len() as int) <= i64::MAX,
                        nst == db.stretches@.len(),
                        0 <= k < nst,
                        db.stretches@[k as int].end == Some(e),
                        start == db.stretches@[k as int].start,
                        0 <= start <= TS_MAX,
                        0 <= e <= TS_MAX,
                        sd == local_day_of(start as int),
                        ed == local_day_of(e as int),
                        -96_000_000 <= sd <= 96_000_000,
                        -96_000_000 <= ed <= 96_000_000,
                        sd <= d,
                        d <= ed + 1 || (ed < sd && d == sd),
                        code@ == stretch_code(*db, db.stretches@[k as int]),
                        report_wf(rep@),
                        forall|d2: int, c2: Seq<char>| #![trigger report_val(rep@, d2, c2)]
                            report_val(rep@, d2, c2)
                                == sum_window(*db, k as int, c2, d2, from as int, today as int)
                                + partial_contrib(*db, k as int, c2, d2, from as int, today as int, d as int),
                        forall|d2: int, c2: Seq<char>| #![trigger report_has(rep@, d2, c2)]
                            report_has(rep@, d2, c2)
                                == (present_upto(*db, k as int, c2, d2, from as int, today as int)
                                    || (relevant_window(*db, k as int, c2, d2, from as int, today as int)
                                        && d2 < d)),
                    decreases ed + 1 - d,
                {
                    if from <= d && d <= today {
                        let added = day_contrib_exec(&db.stretches[k], d);
                        let ghost repg = rep@;
                        proof {
                            lemma_sum_window_le(*db, k as int, code@, d as int, from as int, today as int);
                            lemma_sum_durations_mono(*db, k as int + 1, nst as int);
                            lemma_day_contrib_bounds(db.stretches@[k as int], d as int);
                            assert(partial_contrib(*db, k as int, code@, d as int, from as int, today as int, d as int) == 0);
                            assert(report_val(repg, d as int, code@)
                                == sum_window(*db, k as int, code@, d as int, from as int, today as int));
                            assert(report_val(repg, d as int, code@) + added <= i64::MAX);
                        }
                        add_seconds(&mut rep, d, &code, added);
                        proof {
                            assert forall|d2: int, c2: Seq<char>| #![trigger report_val(rep@, d2, c2)]
                                report_val(rep@, d2, c2)
                                    == sum_window(*db, k as int, c2, d2, from as int, today as int)
                                    + partial_contrib(*db, k as int, c2, d2, from as int, today as int, d + 1) by {
                                assert(report_val(rep@, d2, c2) == report_val(repg, d2, c2)
                                    + (if d2 == d && c2 == code@ { added as int } else { 0 }));
                            }
                            assert forall|d2: int, c2: Seq<char>| #![trigger report_has(rep@, d2, c2)]
                                report_has(rep@, d2, c2)
                                    == (present_upto(*db, k as int, c2, d2, from as int, today as int)
                                        || (relevant_window(*db, k as int, c2, d2, from as int, today as int)
                                            && d2 < d + 1)) by {
                                assert(report_has(rep@, d2, c2) == (report_has(repg, d2, c2)
                                    || (d2 == d && c2 == code@)));
                                if d2 == d && c2 == code@ {
                                    assert(relevant_window(*db, k as int, c2, d2, from as int, today as int));
                                }
                            }
                        }
                    } else {
                        proof {
                            assert forall|d2: int, c2: Seq<char>| #![trigger report_val(rep@, d2, c2)]
                                report_val(rep@, d2, c2)
                                    == sum_window(*db, k as int, c2, d2, from as int, today as int)
                                    + partial_contrib(*db, k as int, c2, d2, from as int, today as int, d + 1) by {
                                if d2 == d {
                                    assert(!relevant_window(*db, k as int, c2, d2, from as int, today as int));
                                }
                            }
                            assert forall|d2: int, c2: Seq<char>| #![trigger report_has(rep@, d2, c2)]
                                report_has(rep@, d2, c2)
                                    == (present_upto(*db, k as int, c2, d2, from as int, today as int)
                                        || (relevant_window(*db, k as int, c2, d2, from as int, today as int)
                                            && d2 < d + 1)) by {
                                if d2 == d {
                                    assert(!relevant_window(*db, k as int, c2, d2, from as int, today as int));
                                }
                            }
                        }
                    }
                    d += 1;
                }
                proof {
                    assert forall|d2: int, c2: Seq<char>| #![trigger report_val(rep@, d2, c2)]
                        report_val(rep@, d2, c2)
                            == sum_window(*db, k + 1, c2, d2, from as int, today as int) by {
                        assert(report_val(rep@, d2, c2)
                            == sum_window(*db, k as int, c2, d2, from as int, today as int)
                            + partial_contrib(*db, k as int, c2, d2, from as int, today as int, d as int));
                        if relevant_window(*db, k as int, c2, d2, from as int, today as int) {
                            assert(sd <= d2 <= ed);
                            assert(d2 < d);
                        }
                    }
                    assert forall|d2: int, c2: Seq<char>| #![trigger report_has(rep@, d2, c2)]
                        report_has(rep@, d2, c2)
                            == present_upto(*db, k + 1, c2, d2, from as int, today as int) by {
                        lemma_present_step(*db, k as int, c2, d2, from as int, today as int);
                        if relevant_window(*db, k as int, c2, d2, from as int, today as int) {
                            assert(sd <= d2 <= ed);
                            assert(d2 < d);
                        }
                    }
                }
            },
        }
        k += 1;
    }
    rep
}


/// The summed clamped overlaps of `[start, end]` with the first `n`
/// consecutive ranges `[b[k], b[k+1])`.
pub open spec fn sum_overlaps(start: int, end: int, b: Seq<int>, n: int) -> int
    decreases n,
{
    if n <= 0 {
        0
    } else {
        sum_overlaps(start, end, b, n - 1) + clamp_overlap(start, end, b[n - 1], b[n])
    }
}

proof fn lemma_sum_overlaps_partial(start: int, end: int, b: Seq<int>, m: int)
    requires
        0 <= m < b.len(),
        forall|k: int| 0 <= k < b.len() - 1 ==> #[trigger] b[k] <= b[k + 1],
        b[0] <= start,
        start <= end,
    ensures
        sum_overlaps(start, end, b, m) == {
            let x = if end < b[m] { end } else { b[m] };
            if x > start { x - start } else { 0 }
        },
    decreases m,
{
    if m > 0 {
        lemma_sum_overlaps_partial(start, end, b, m - 1);
        assert(b[m - 1] <= b[m]);
    }
}

/// Day-split conservation: when consecutive day boundaries tile a
/// span holding the whole stretch, the per-day clamped contributions
/// sum to exactly the stretch's duration — splitting a stretch over
/// its days loses and gains nothing at the boundaries.
pub proof fn lemma_day_split_conservation(start: int, end: int, b: Seq<int>)
    requires
        b.len() >= 2,
        forall|k: int| 0 <= k < b.len() - 1 ==> #[trigger] b[k] <= b[k + 1],
        b[0] <= start,
        start <= end,
        end <= b[b.len() - 1],
    ensures
        sum_overlaps(start, end, b, b.len() - 1) == end - start,
{
    lemma_sum_overlaps_partial(start, end, b, b.len() - 1);
}

/// Report range exclusion: a stretch whose days all lie before the
/// window's first day, or all after its last, contributes nothing to
/// any line and puts no line into the report; an open stretch never
/// does either.
pub proof fn lemma_report_range_exclusion(
    db: Db,
    si: int,
    from: int,
    today: int,
    c: Seq<char>,
    d: int,
)
    requires
        0 <= si < db.stretches@.len(),
        match db.stretches@[si].end {
            None => true,
            Some(e) => local_day_of(e as int) < from
                || today < local_day_of(db.stretches@[si].start as int),
        },
    ensures
        windowed_contrib(db, si, c, d, from, today) == 0,
        !relevant_window(db, si, c, d, from, today),
{
    if relevant_window(db, si, c, d, from, today) {
        assert(stretch_covers_day(db.stretches@[si], d));
        assert(false);
    }
}

/// Splits a number of seconds into whole hours (not clamped to a
/// day), leftover minutes and leftover seconds, as the duration
/// report prints them.
pub fn duration_hms(secs: i64) -> (r: (i64, i64, i64))
    requires
        0 <= secs,
    ensures
        r.0 == secs / 3600,
        r.1 == (secs / 60) % 60,
        r.2 == secs % 60,
{
    (secs / 3600, (secs / 60) % 60, secs % 60)
}


/// The summed per-day contributions of a stretch over the `n` days
/// from `d_lo` on.
pub open spec fn sum_day_contribs(s: Stretch, d_lo: int, n: int) -> int
    decreases n,
{
    if n <= 0 {
        0
    } else {
        sum_day_contribs(s, d_lo, n - 1) + day_contrib(s, d_lo + n - 1)
    }
}

proof fn lemma_split_match(s: Stretch, e: i64, b: Seq<int>, sd: int, ed: int, n: int)
    requires
        s.end == Some(e),
        sd == local_day_of(s.start as int),
        ed == local_day_of(e as int),
        sd <= ed,
        0 <= n <= ed - sd + 1,
        b.len() == ed - sd + 2,
        forall|k: int| 0 <= k < ed - sd + 1 ==> #[trigger] b[k] == day_open_ts(sd + k)->0,
        b[ed - sd + 1] == day_close_ts(ed)->0,
        forall|d: int| sd <= d <= ed
            ==> (#[trigger] day_open_ts(d)) is Some && day_close_ts(d) is Some,
        forall|d: int| sd <= d < ed ==> (#[trigger] day_close_ts(d)) == day_open_ts(d + 1),
    ensures
        sum_day_contribs(s, sd, n) == sum_overlaps(s.start as int, e as int, b, n),
    decreases n,
{
    if n > 0 {
        lemma_split_match(s, e, b, sd, ed, n - 1);
        let d = sd + n - 1;
        assert(stretch_covers_day(s, d));
        assert(day_open_ts(d) == Some(b[n - 1]));
        if d < ed {
            assert(day_close_ts(d) == day_open_ts(d + 1));
            assert(b[n] == day_open_ts(sd + n)->0);
            assert(day_close_ts(d) == Some(b[n]));
        } else {
            assert(d == ed);
            assert(n == ed - sd + 1);
            assert(day_close_ts(d) == Some(b[n]));
        }
        assert(day_contrib(s, d) == clamp_overlap(s.start as int, e as int, b[n - 1], b[n]));
    }
}

/// Day-split conservation, for the very contributions the report
/// sums: when each local day the stretch touches has an instant
/// range, consecutive ranges meet at the day boundary, no range is
/// inverted, and the outermost boundaries enclose the stretch, the
/// per-day contributions add up to exactly the stretch's duration —
/// nothing is lost or gained at midnight.
pub proof fn lemma_stretch_day_split(s: Stretch, e: i64)
    requires
        s.end == Some(e),
        s.start <= e,
        local_day_of(s.start as int) <= local_day_of(e as int),
        forall|d: int| local_day_of(s.start as int) <= d <= local_day_of(e as int)
            ==> (#[trigger] day_open_ts(d)) is Some && day_close_ts(d) is Some,
        forall|d: int| local_day_of(s.start as int) <= d < local_day_of(e as int)
            ==> (#[trigger] day_close_ts(d)) == day_open_ts(d + 1),
        forall|d: int| local_day_of(s.start as int) <= d <= local_day_of(e as int)
            ==> (#[trigger] day_open_ts(d))->0 <= day_close_ts(d)->0,
        day_open_ts(local_day_of(s.start as int))->0 <= s.start,
        e <= day_close_ts(local_day_of(e as int))->0,
    ensures
        sum_day_contribs(
            s,
            local_day_of(s.start as int),
            local_day_of(e as int) - local_day_of(s.start as int) + 1,
        ) == e - s.start,
{
    let sd = local_day_of(s.start as int);
    let ed = local_day_of(e as int);
    let days = ed - sd + 1;
    let b = Seq::new((days + 1) as nat, |k: int| if k < days {
        day_open_ts(sd + k)->0
    } else {
        day_close_ts(ed)->0
    });
    assert forall|k: int| 0 <= k < b.len() - 1 implies #[trigger] b[k] <= b[k + 1] by {
        let d = sd + k;
        assert(day_open_ts(d)->0 <= day_close_ts(d)->0);
        if k + 1 < days {
            assert(day_close_ts(d) == day_open_ts(d + 1));
            assert(b[k + 1] == day_open_ts(d + 1)->0);
        } else {
            assert(d == ed);
            assert(b[k + 1] == day_close_ts(ed)->0);
        }
    }
    assert(b[0] == day_open_ts(sd)->0);
    assert(b[b.len() - 1] == day_close_ts(ed)->0);
    lemma_day_split_conservation(s.start as int, e as int, b);
    lemma_split_match(s, e, b, sd, ed, days);
}

/// The instant ranges of a run of local days, each from its opening
/// instant to the next day's opening; None when some day in the run
/// leaves the calendar's range.
pub fn dates_to_timestamp_ranges(days: &Vec<i64>) -> (r: Option<Vec<(i64, i64)>>)
    ensures
        match r {
            Some(v) => {
                &&& v@.len() == days@.len()
                &&& forall|k: int| 0 <= k < v@.len() ==> {
                    &&& day_open_ts(days@[k] as int) == Some((#[trigger] v@[k]).0 as int)
                    &&& day_close_ts(days@[k] as int) == Some(v@[k].1 as int)
                }
            },
            None => exists|k: int| 0 <= k < days@.len()
                && (day_open_ts(#[trigger] days@[k] as int) is None
                    || day_close_ts(days@[k] as int) is None),
        },
{
    let n = days.len();
    let mut out: Vec<(i64, i64)> = Vec::new();
    let mut i: usize = 0;
    while i < n
        invariant
            0 <= i <= n,
            n == days@.len(),
            out@.len() == i,
            forall|k: int| 0 <= k < i ==> {
                &&& day_open_ts(days@[k] as int) == Some((#[trigger] out@[k]).0 as int)
                &&& day_close_ts(days@[k] as int) == Some(out@[k].1 as int)
            },
        decreases n - i,
    {
        let d = days[i];
        let a = match day_open(d) {
            None => {
                return None;
            },
            Some(a) => a,
        };
        let b = match day_close(d) {
            None => {
                return None;
            },
            Some(b) => b,
        };
        out.push((a, b));
        i += 1;
    }
    Some(out)
}

} // verus!
