//! Work-item codes: `<project>-<task>` or `<project>-<task>-<subtask>`,
//! parsed into a `SubtaskSpec` and derived back from one.

use vstd::prelude::*;

use crate::Error;
use crate::num::{
    parse_i64, parse_i64_spec, i64_to_string, dec_rep, dec_rep_signed, is_digit,
    lemma_dec_rep_val, lemma_dec_roundtrip,
};
use crate::strutil::push_char;

verus! {

/// The parsed form of a work-item code: which project, which task in
/// it, and optionally which subtask of the task.
pub struct SubtaskSpec {
    pub project_code: String,
    pub task_number: i64,
    pub subtask_number: Option<i64>,
}

/// The first index at or after `i` holding `'-'`, or the length when
/// there is none.
pub open spec fn first_dash_from(s: Seq<char>, i: int) -> int
    decreases s.len() - i,
{
    if i < 0 || i >= s.len() {
        s.len() as int
    } else if s[i] == '-' {
        i
    } else {
        first_dash_from(s, i + 1)
    }
}

/// Identifies the first dash: if nothing before `k` is a dash and `k`
/// is a dash or the end, the search from `i` stops at `k`.
pub proof fn lemma_first_dash_is(s: Seq<char>, i: int, k: int)
    requires
        0 <= i <= k <= s.len(),
        forall|j: int| i <= j < k ==> s[j] != '-',
        k < s.len() ==> s[k] == '-',
    ensures
        first_dash_from(s, i) == k,
    decreases k - i,
{
    if i < k {
        lemma_first_dash_is(s, i + 1, k);
    }
}

/// What parsing a code yields: the text before the first dash names
/// the project, the next field is the task number, and a third field,
/// when present, is the subtask number; anything after a fourth dash
/// is ignored.
pub open spec fn spec_parse_code(s: Seq<char>) -> Option<(Seq<char>, i64, Option<i64>)> {
    let i1 = first_dash_from(s, 0);
    if i1 == s.len() {
        None
    } else {
        let p = s.subrange(0, i1);
        let i2 = first_dash_from(s, i1 + 1);
        match parse_i64_spec(s.subrange(i1 + 1, i2)) {
            None => None,
            Some(tn) => {
                if i2 == s.len() {
                    Some((p, tn, None))
                } else {
                    let i3 = first_dash_from(s, i2 + 1);
                    match parse_i64_spec(s.subrange(i2 + 1, i3)) {
                        None => None,
                        Some(sn) => Some((p, tn, Some(sn))),
                    }
                }
            },
        }
    }
}

/// The code string a spec stands for.
pub open spec fn spec_code_of(p: Seq<char>, t: int, sub: Option<i64>) -> Seq<char> {
    let base = p + seq!['-'] + dec_rep_signed(t);
    match sub {
        None => base,
        Some(sn) => base + seq!['-'] + dec_rep_signed(sn as int),
    }
}

fn find_dash(s: &str, from: usize) -> (r: usize)
    requires
        from <= s@.len(),
    ensures
        r == first_dash_from(s@, from as int),
        from <= r <= s@.len(),
{
    let len = s.unicode_len();
    let mut i: usize = from;
    while i < len
        invariant
            from <= i <= len,
            len == s@.len(),
            first_dash_from(s@, from as int) == first_dash_from(s@, i as int),
        decreases len - i,
    {
        let c = s.get_char(i);
        if c == '-' {
            return i;
        }
        i += 1;
    }
    len
}

fn validation(msg: &str) -> (e: Error)
    ensures
        e.is_validation(),
{
    Error::Validation(msg.to_owned())
}

impl SubtaskSpec {
    /// Reads a work-item code.  Fails, before any storage is touched,
    /// exactly when the task number is missing or a numeric field does
    /// not parse.
    pub fn parse(s: &str) -> (r: Result<SubtaskSpec, Error>)
        ensures
            match r {
                Ok(sp) => spec_parse_code(s@) == Some(
                    (sp.project_code@, sp.task_number, sp.subtask_number),
                ),
                Err(e) => spec_parse_code(s@) is None && e.is_validation(),
            },
    {
        let len = s.unicode_len();
        let i1 = find_dash(s, 0);
        if i1 == len {
            return Err(validation("missing task number"));
        }
        let project = s.substring_char(0, i1);
        let i2 = find_dash(s, i1 + 1);
        let tstr = s.substring_char(i1 + 1, i2);
        let tn = match parse_i64(tstr) {
            None => {
                return Err(validation("task number does not parse"));
            },
            Some(tn) => tn,
        };
        if i2 == len {
            Ok(SubtaskSpec {
                project_code: project.to_owned(),
                task_number: tn,
                subtask_number: None,
            })
        } else {
            let i3 = find_dash(s, i2 + 1);
            let sstr = s.substring_char(i2 + 1, i3);
            match parse_i64(sstr) {
                None => Err(validation("subtask number does not parse")),
                Some(sn) => Ok(SubtaskSpec {
                    project_code: project.to_owned(),
                    task_number: tn,
                    subtask_number: Some(sn),
                }),
            }
        }
    }

    /// Derives the code string back from the parsed form.
    pub fn code(&self) -> (r: String)
        ensures
            r@ == spec_code_of(self.project_code@, self.task_number as int, self.subtask_number),
    {
        code_of(self.project_code.as_str(), self.task_number, self.subtask_number)
    }
}

/// Builds `<project>-<task>` or `<project>-<task>-<subtask>`.
pub fn code_of(project_code: &str, task_number: i64, subtask_number: Option<i64>) -> (r: String)
    ensures
        r@ == spec_code_of(project_code@, task_number as int, subtask_number),
{
    let mut out = project_code.to_owned();
    push_char(&mut out, '-');
    let t = i64_to_string(task_number);
    out.append(t.as_str());
    proof {
        assert(out@ =~= project_code@ + seq!['-'] + dec_rep_signed(task_number as int));
    }
    match subtask_number {
        None => out,
        Some(sn) => {
            push_char(&mut out, '-');
            let v = i64_to_string(sn);
            out.append(v.as_str());
            proof {
                assert(out@ =~= project_code@ + seq!['-'] + dec_rep_signed(task_number as int)
                    + seq!['-'] + dec_rep_signed(sn as int));
            }
            out
        },
    }
}

/// Deriving the code of a parsed spec and parsing it again yields the
/// same spec, for every project code free of dashes and nonnegative
/// task and subtask numbers.
pub proof fn lemma_code_roundtrip(p: Seq<char>, t: i64, sub: Option<i64>)
    requires
        forall|i: int| 0 <= i < p.len() ==> p[i] != '-',
        0 <= t,
        sub matches Some(sn) ==> 0 <= sn,
    ensures
        spec_parse_code(spec_code_of(p, t as int, sub)) == Some((p, t, sub)),
{
    let s = spec_code_of(p, t as int, sub);
    let td = dec_rep(t as nat);
    lemma_dec_rep_val(t as nat);
    let pl = p.len() as int;
    let tl = td.len() as int;
    assert(dec_rep_signed(t as int) == td);
    assert forall|j: int| 0 <= j < tl implies td[j] != '-' by {
        assert(is_digit(td[j]));
    }
    match sub {
        None => {
            assert(s.len() == pl + 1 + tl);
            assert(forall|j: int| 0 <= j < pl ==> s[j] == p[j]);
            assert(s[pl] == '-');
            assert(forall|j: int| pl + 1 <= j < s.len() ==> s[j] == td[j - (pl + 1)]);
            lemma_first_dash_is(s, 0, pl);
            assert(s.subrange(0, pl) =~= p);
            lemma_first_dash_is(s, pl + 1, s.len() as int);
            assert(s.subrange(pl + 1, s.len() as int) =~= td);
            lemma_dec_roundtrip(t as int);
        },
        Some(sn) => {
            let sd = dec_rep(sn as nat);
            lemma_dec_rep_val(sn as nat);
            let sl = sd.len() as int;
            assert(dec_rep_signed(sn as int) == sd);
            assert forall|j: int| 0 <= j < sl implies sd[j] != '-' by {
                assert(is_digit(sd[j]));
            }
            assert(s.len() == pl + 1 + tl + 1 + sl);
            assert(forall|j: int| 0 <= j < pl ==> s[j] == p[j]);
            assert(s[pl] == '-');
            assert(forall|j: int| pl + 1 <= j < pl + 1 + tl ==> s[j] == td[j - (pl + 1)]);
            assert(s[pl + 1 + tl] == '-');
            assert(forall|j: int| pl + 1 + tl + 1 <= j < s.len() ==> s[j] == sd[j - (pl + 1 + tl + 1)]);
            lemma_first_dash_is(s, 0, pl);
            assert(s.subrange(0, pl) =~= p);
            lemma_first_dash_is(s, pl + 1, pl + 1 + tl);
            assert(s.subrange(pl + 1, pl + 1 + tl) =~= td);
            lemma_dec_roundtrip(t as int);
            lemma_first_dash_is(s, pl + 1 + tl + 1, s.len() as int);
            assert(s.subrange(pl + 1 + tl + 1, s.len() as int) =~= sd);
            lemma_dec_roundtrip(sn as int);
        },
    }
}

} // verus!
