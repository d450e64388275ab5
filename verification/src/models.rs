//! The persisted entities and the store they live in: a strict tree of
//! projects, tasks and subtasks, plus the stretches of recorded time.
//! Every multi-step mutation leaves the store well formed.

use vstd::prelude::*;

use crate::Error;
use crate::codes::{SubtaskSpec, spec_parse_code};

verus! {

/// Timestamps are epoch seconds; this cap (the last second of year
/// 9999) keeps every difference and sum the reports need inside i64.
pub const TS_MAX: i64 = 253402300799;

pub struct Project {
    pub id: i64,
    pub code: String,
    pub directory: Option<String>,
    pub name: Option<String>,
}

pub struct Task {
    pub id: i64,
    pub project_id: i64,
    pub number: i64,
    pub active_subtask: Option<i64>,
}

pub struct Subtask {
    pub id: i64,
    pub task_id: i64,
    pub branch: Option<String>,
    pub description: Option<String>,
    pub active: bool,
    pub number: i64,
}

pub struct Stretch {
    pub id: i64,
    pub subtask_id: i64,
    pub start: i64,
    pub end: Option<i64>,
}

/// The whole store, as the four tables and one id counter per table.
pub struct Db {
    pub projects: Vec<Project>,
    pub tasks: Vec<Task>,
    pub subtasks: Vec<Subtask>,
    pub stretches: Vec<Stretch>,
    pub next_project_id: i64,
    pub next_task_id: i64,
    pub next_subtask_id: i64,
    pub next_stretch_id: i64,
}

pub open spec fn has_project_code(ps: Seq<Project>, code: Seq<char>) -> bool {
    exists|i: int| 0 <= i < ps.len() && #[trigger] ps[i].code@ == code
}

pub open spec fn has_project_id(ps: Seq<Project>, id: i64) -> bool {
    exists|i: int| 0 <= i < ps.len() && #[trigger] ps[i].id == id
}

pub open spec fn has_task(ts: Seq<Task>, project_id: i64, number: i64) -> bool {
    exists|i: int| 0 <= i < ts.len()
        && #[trigger] ts[i].project_id == project_id && #[trigger] ts[i].number == number
}

pub open spec fn has_task_id(ts: Seq<Task>, id: i64) -> bool {
    exists|i: int| 0 <= i < ts.len() && #[trigger] ts[i].id == id
}

pub open spec fn has_subtask(ss: Seq<Subtask>, task_id: i64, number: i64) -> bool {
    exists|i: int| 0 <= i < ss.len()
        && #[trigger] ss[i].task_id == task_id && #[trigger] ss[i].number == number
}

pub open spec fn has_subtask_id(ss: Seq<Subtask>, id: i64) -> bool {
    exists|i: int| 0 <= i < ss.len() && #[trigger] ss[i].id == id
}

pub open spec fn has_any_subtask(ss: Seq<Subtask>, task_id: i64) -> bool {
    exists|i: int| 0 <= i < ss.len() && #[trigger] ss[i].task_id == task_id
}

impl Db {
    pub open spec fn projects_wf(&self) -> bool {
        let ps = self.projects@;
        &&& 0 <= self.next_project_id
        &&& forall|i: int, j: int| 0 <= i < j < ps.len()
            ==> #[trigger] ps[i].id != #[trigger] ps[j].id
        &&& forall|i: int, j: int| 0 <= i < j < ps.len()
            ==> #[trigger] ps[i].code@ != #[trigger] ps[j].code@
        &&& forall|i: int| 0 <= i < ps.len()
            ==> 0 <= #[trigger] ps[i].id < self.next_project_id
    }

    pub open spec fn tasks_wf(&self) -> bool {
        let ts = self.tasks@;
        &&& 0 <= self.next_task_id
        &&& forall|i: int, j: int| 0 <= i < j < ts.len()
            ==> #[trigger] ts[i].id != #[trigger] ts[j].id
        &&& forall|i: int, j: int| 0 <= i < j < ts.len()
            ==> !(#[trigger] ts[i].project_id == #[trigger] ts[j].project_id
                && ts[i].number == ts[j].number)
        &&& forall|i: int| 0 <= i < ts.len()
            ==> 0 <= #[trigger] ts[i].id < self.next_task_id
        &&& forall|i: int| 0 <= i < ts.len()
            ==> has_project_id(self.projects@, #[trigger] ts[i].project_id)
    }

    pub open spec fn subtasks_wf(&self) -> bool {
        let ss = self.subtasks@;
        &&& 0 <= self.next_subtask_id
        &&& forall|i: int, j: int| 0 <= i < j < ss.len()
            ==> #[trigger] ss[i].id != #[trigger] ss[j].id
        &&& forall|i: int, j: int| 0 <= i < j < ss.len()
            ==> !(#[trigger] ss[i].task_id == #[trigger] ss[j].task_id
                && ss[i].number == ss[j].number)
        &&& forall|i: int| 0 <= i < ss.len()
            ==> 0 <= #[trigger] ss[i].id < self.next_subtask_id
        &&& forall|i: int| 0 <= i < ss.len()
            ==> has_task_id(self.tasks@, #[trigger] ss[i].task_id)
    }

    pub open spec fn stretches_wf(&self) -> bool {
        let st = self.stretches@;
        &&& 0 <= self.next_stretch_id
        &&& forall|i: int, j: int| 0 <= i < j < st.len()
            ==> #[trigger] st[i].id != #[trigger] st[j].id
        &&& forall|i: int| 0 <= i < st.len()
            ==> 0 <= #[trigger] st[i].id < self.next_stretch_id
        &&& forall|i: int| 0 <= i < st.len()
            ==> has_subtask_id(self.subtasks@, #[trigger] st[i].subtask_id)
        &&& forall|i: int| 0 <= i < st.len()
            ==> 0 <= #[trigger] st[i].start <= TS_MAX
        &&& forall|i: int| 0 <= i < st.len()
            ==> (#[trigger] st[i].end matches Some(e) ==> 0 <= e <= TS_MAX)
    }

    /// Well-formedness: unique keys, valid foreign keys, id counters
    /// above every allocated id, timestamps in range.
    pub open spec fn wf(&self) -> bool {
        &&& self.projects_wf()
        &&& self.tasks_wf()
        &&& self.subtasks_wf()
        &&& self.stretches_wf()
    }

    /// An empty store, with every id counter at its first value.
    pub fn new() -> (db: Db)
        ensures
            db.wf(),
            db.projects@.len() == 0,
            db.tasks@.len() == 0,
            db.subtasks@.len() == 0,
            db.stretches@.len() == 0,
            db.next_project_id == 1,
            db.next_task_id == 1,
            db.next_subtask_id == 1,
            db.next_stretch_id == 1,
    {
        Db {
            projects: Vec::new(),
            tasks: Vec::new(),
            subtasks: Vec::new(),
            stretches: Vec::new(),
            next_project_id: 1,
            next_task_id: 1,
            next_subtask_id: 1,
            next_stretch_id: 1,
        }
    }

    /// What get-or-create of a project leaves behind: the row named by
    /// the result bears the requested code; an existing row is reused
    /// and nothing changes, a missing one is appended fresh.
    pub open spec fn project_resolution(pre: Db, post: Db, r: int, code: Seq<char>) -> bool {
        &&& post.wf()
        &&& 0 <= r < post.projects@.len()
        &&& post.projects@[r].code@ == code
        &&& (has_project_code(pre.projects@, code) ==> post == pre)
        &&& (!has_project_code(pre.projects@, code) ==> {
            &&& r == pre.projects@.len()
            &&& post.projects@.len() == pre.projects@.len() + 1
            &&& post.projects@.subrange(0, pre.projects@.len() as int) == pre.projects@
            &&& post.projects@[r].id == pre.next_project_id
            &&& post.projects@[r].directory is None
            &&& post.projects@[r].name is None
            &&& post.next_project_id == pre.next_project_id + 1
            &&& post.tasks@ == pre.tasks@
            &&& post.subtasks@ == pre.subtasks@
            &&& post.stretches@ == pre.stretches@
            &&& post.next_task_id == pre.next_task_id
            &&& post.next_subtask_id == pre.next_subtask_id
            &&& post.next_stretch_id == pre.next_stretch_id
        })
    }

    /// Get-or-create of a project by its unique code.
    pub fn get_project(&mut self, code: &str) -> (r: usize)
        requires
            old(self).wf(),
            old(self).next_project_id < i64::MAX,
        ensures
            Db::project_resolution(*old(self), *final(self), r as int, code@),
    {
        let n = self.projects.len();
        let mut i: usize = 0;
        while i < n
            invariant
                *self == *old(self),
                old(self).wf(),
                n == self.projects@.len(),
                0 <= i <= n,
                forall|j: int| 0 <= j < i ==> #[trigger] self.projects@[j].code@ != code@,
            decreases n - i,
        {
            if crate::strutil::str_eq(self.projects[i].code.as_str(), code) {
                proof {
                    assert(has_project_code(self.projects@, code@));
                }
                return i;
            }
            i += 1;
        }
        proof {
            assert(!has_project_code(self.projects@, code@));
        }
        let id = self.next_project_id;
        self.next_project_id = id + 1;
        let row = Project { id, code: code.to_owned(), directory: None, name: None };
        self.projects.push(row);
        proof {
            let ps = self.projects@;
            let pre = old(self).projects@;
            let m = pre.len() as int;
            assert(forall|k: int| 0 <= k < m ==> ps[k] == pre[k]);
            assert(ps.subrange(0, m) =~= pre);
            assert(ps[m].id == old(self).next_project_id);
            assert(ps[m].code@ == code@);
            assert forall|i: int, j: int| 0 <= i < j < ps.len()
                implies ps[i].id != ps[j].id by {
                if j < m {
                } else {
                    assert(ps[i].id < old(self).next_project_id);
                }
            }
            assert forall|i: int, j: int| 0 <= i < j < ps.len()
                implies ps[i].code@ != ps[j].code@ by {
                if j == m {
                    assert(pre[i].code@ != code@);
                }
            }
            assert forall|i: int| 0 <= i < ps.len()
                implies 0 <= #[trigger] ps[i].id < self.next_project_id by {
                if i < m {
                    assert(0 <= pre[i].id < old(self).next_project_id);
                }
            }
            assert forall|t: int| 0 <= t < self.tasks@.len()
                implies has_project_id(ps, #[trigger] self.tasks@[t].project_id) by {
                let k = choose|k: int| 0 <= k < pre.len()
                    && #[trigger] pre[k].id == self.tasks@[t].project_id;
                assert(ps[k].id == self.tasks@[t].project_id);
            }
        }
        n
    }
    /// What get-or-create of a task leaves behind, scoped by
    /// `(project_id, number)`.
    pub open spec fn task_resolution(pre: Db, post: Db, r: int, project_id: i64, number: i64) -> bool {
        &&& post.wf()
        &&& 0 <= r < post.tasks@.len()
        &&& post.tasks@[r].project_id == project_id
        &&& post.tasks@[r].number == number
        &&& (has_task(pre.tasks@, project_id, number) ==> post == pre)
        &&& (!has_task(pre.tasks@, project_id, number) ==> {
            &&& r == pre.tasks@.len()
            &&& post.tasks@ == pre.tasks@.push(
                (Task { id: pre.next_task_id, project_id, number, active_subtask: None }),
            )
            &&& post.next_task_id == pre.next_task_id + 1
            &&& post.projects@ == pre.projects@
            &&& post.subtasks@ == pre.subtasks@
            &&& post.stretches@ == pre.stretches@
            &&& post.next_project_id == pre.next_project_id
            &&& post.next_subtask_id == pre.next_subtask_id
            &&& post.next_stretch_id == pre.next_stretch_id
        })
    }

    /// Get-or-create of a task within a project, by its number.
    pub fn task(&mut self, project_id: i64, number: i64) -> (r: usize)
        requires
            old(self).wf(),
            old(self).next_task_id < i64::MAX,
            has_project_id(old(self).projects@, project_id),
        ensures
            Db::task_resolution(*old(self), *final(self), r as int, project_id, number),
    {
        let n = self.tasks.len();
        let mut i: usize = 0;
        while i < n
            invariant
                *self == *old(self),
                old(self).wf(),
                n == self.tasks@.len(),
                0 <= i <= n,
                forall|j: int| 0 <= j < i
                    ==> !(#[trigger] self.tasks@[j].project_id == project_id
                        && self.tasks@[j].number == number),
            decreases n - i,
        {
            if self.tasks[i].project_id == project_id && self.tasks[i].number == number {
                proof {
                    assert(has_task(self.tasks@, project_id, number));
                }
                return i;
            }
            i += 1;
        }
        proof {
            assert(!has_task(self.tasks@, project_id, number));
        }
        let id = self.next_task_id;
        self.next_task_id = id + 1;
        self.tasks.push(Task { id, project_id, number, active_subtask: None });
        proof {
            let ts = self.tasks@;
            let pre = old(self).tasks@;
            let m = pre.len() as int;
            assert(forall|k: int| 0 <= k < m ==> ts[k] == pre[k]);
            assert forall|i2: int, j2: int| 0 <= i2 < j2 < ts.len()
                implies ts[i2].id != ts[j2].id by {
                if j2 == m {
                    assert(ts[i2].id < old(self).next_task_id);
                }
            }
            assert forall|i2: int| 0 <= i2 < ts.len()
                implies 0 <= #[trigger] ts[i2].id < self.next_task_id by {
                if i2 < m {
                    assert(0 <= pre[i2].id < old(self).next_task_id);
                }
            }
            assert forall|s: int| 0 <= s < self.subtasks@.len()
                implies has_task_id(ts, #[trigger] self.subtasks@[s].task_id) by {
                let k = choose|k: int| 0 <= k < pre.len()
                    && #[trigger] pre[k].id == self.subtasks@[s].task_id;
                assert(ts[k].id == self.subtasks@[s].task_id);
            }
        }
        n
    }

    /// Finds a subtask by `(task_id, number)`.
    pub fn subtask(&self, task_id: i64, number: i64) -> (r: Option<usize>)
        ensures
            match r {
                Some(i) => i < self.subtasks@.len()
                    && self.subtasks@[i as int].task_id == task_id
                    && self.subtasks@[i as int].number == number,
                None => !has_subtask(self.subtasks@, task_id, number),
            },
    {
        let n = self.subtasks.len();
        let mut i: usize = 0;
        while i < n
            invariant
                n == self.subtasks@.len(),
                0 <= i <= n,
                forall|j: int| 0 <= j < i
                    ==> !(#[trigger] self.subtasks@[j].task_id == task_id
                        && self.subtasks@[j].number == number),
            decreases n - i,
        {
            if self.subtasks[i].task_id == task_id && self.subtasks[i].number == number {
                return Some(i);
            }
            i += 1;
        }
        proof {
            assert(!has_subtask(self.subtasks@, task_id, number));
        }
        None
    }

    /// What get-or-create of a subtask leaves behind, scoped by
    /// `(task_id, number)`; a fresh row starts active, with no branch
    /// and no description.
    pub open spec fn subtask_resolution(pre: Db, post: Db, r: int, task_id: i64, number: i64) -> bool {
        &&& post.wf()
        &&& 0 <= r < post.subtasks@.len()
        &&& post.subtasks@[r].task_id == task_id
        &&& post.subtasks@[r].number == number
        &&& (has_subtask(pre.subtasks@, task_id, number) ==> post == pre)
        &&& (!has_subtask(pre.subtasks@, task_id, number) ==> {
            &&& r == pre.subtasks@.len()
            &&& post.subtasks@.len() == pre.subtasks@.len() + 1
            &&& post.subtasks@.subrange(0, pre.subtasks@.len() as int) == pre.subtasks@
            &&& post.subtasks@[r].id == pre.next_subtask_id
            &&& post.subtasks@[r].branch is None
            &&& post.subtasks@[r].description is None
            &&& post.subtasks@[r].active == true
            &&& post.next_subtask_id == pre.next_subtask_id + 1
            &&& post.projects@ == pre.projects@
            &&& post.tasks@ == pre.tasks@
            &&& post.stretches@ == pre.stretches@
            &&& post.next_project_id == pre.next_project_id
            &&& post.next_task_id == pre.next_task_id
            &&& post.next_stretch_id == pre.next_stretch_id
        })
    }

    /// Get-or-create of a subtask within a task, by its number.
    pub fn load_or_create_subtask(&mut self, task_id: i64, number: i64) -> (r: usize)
        requires
            old(self).wf(),
            old(self).next_subtask_id < i64::MAX,
            has_task_id(old(self).tasks@, task_id),
        ensures
            Db::subtask_resolution(*old(self), *final(self), r as int, task_id, number),
    {
        match self.subtask(task_id, number) {
            Some(i) => {
                proof {
                    assert(has_subtask(self.subtasks@, task_id, number));
                }
                i
            },
            None => {
                let id = self.next_subtask_id;
                self.next_subtask_id = id + 1;
                let n = self.subtasks.len();
                self.subtasks.push(Subtask {
                    id,
                    task_id,
                    branch: None,
                    description: None,
                    active: true,
                    number,
                });
                proof {
                    let ss = self.subtasks@;
                    let pre = old(self).subtasks@;
                    let m = pre.len() as int;
                    assert(forall|k: int| 0 <= k < m ==> ss[k] == pre[k]);
                    assert(ss.subrange(0, m) =~= pre);
                    assert forall|i2: int, j2: int| 0 <= i2 < j2 < ss.len()
                        implies ss[i2].id != ss[j2].id by {
                        if j2 == m {
                            assert(ss[i2].id < old(self).next_subtask_id);
                        }
                    }
                    assert forall|i2: int| 0 <= i2 < ss.len()
                        implies 0 <= #[trigger] ss[i2].id < self.next_subtask_id by {
                        if i2 < m {
                            assert(0 <= pre[i2].id < old(self).next_subtask_id);
                        }
                    }
                    assert forall|s: int| 0 <= s < self.stretches@.len()
                        implies has_subtask_id(ss, #[trigger] self.stretches@[s].subtask_id) by {
                        let k = choose|k: int| 0 <= k < pre.len()
                            && #[trigger] pre[k].id == self.stretches@[s].subtask_id;
                        assert(ss[k].id == self.stretches@[s].subtask_id);
                    }
                }
                n
            },
        }
    }

    /// What implicit ("latest") subtask resolution leaves behind: the
    /// greatest existing number of the task's subtasks is reused, or
    /// number 1 starts a brand-new task.
    pub open spec fn latest_resolution(pre: Db, post: Db, r: int, task_id: i64) -> bool {
        let n = post.subtasks@[r].number;
        &&& Db::subtask_resolution(pre, post, r, task_id, n)
        &&& (has_any_subtask(pre.subtasks@, task_id) ==> {
            &&& has_subtask(pre.subtasks@, task_id, n)
            &&& forall|i: int| 0 <= i < pre.subtasks@.len()
                && #[trigger] pre.subtasks@[i].task_id == task_id
                ==> pre.subtasks@[i].number <= n
        })
        &&& (!has_any_subtask(pre.subtasks@, task_id) ==> n == 1)
    }

    /// Implicit subtask resolution: resume the highest-numbered
    /// subtask of the task, or start subtask 1 when it has none.
    pub fn latest_subtask(&mut self, task_id: i64) -> (r: usize)
        requires
            old(self).wf(),
            old(self).next_subtask_id < i64::MAX,
            has_task_id(old(self).tasks@, task_id),
        ensures
            Db::latest_resolution(*old(self), *final(self), r as int, task_id),
    {
        let n = self.subtasks.len();
        let mut best: Option<i64> = None;
        let mut i: usize = 0;
        while i < n
            invariant
                *self == *old(self),
                n == self.subtasks@.len(),
                0 <= i <= n,
                best is None ==> forall|j: int| 0 <= j < i
                    ==> #[trigger] self.subtasks@[j].task_id != task_id,
                best matches Some(b) ==> {
                    &&& has_subtask(self.subtasks@, task_id, b)
                    &&& forall|j: int| 0 <= j < i
                        && #[trigger] self.subtasks@[j].task_id == task_id
                        ==> self.subtasks@[j].number <= b
                },
            decreases n - i,
        {
            if self.subtasks[i].task_id == task_id {
                let num = self.subtasks[i].number;
                proof {
                    assert(has_subtask(self.subtasks@, task_id, num));
                }
                match best {
                    None => {
                        best = Some(num);
                    },
                    Some(b) => {
                        if num > b {
                            best = Some(num);
                        }
                    },
                }
            }
            i += 1;
        }
        let target = match best {
            None => {
                proof {
                    assert(!has_any_subtask(self.subtasks@, task_id));
                }
                1
            },
            Some(b) => {
                proof {
                    assert(has_any_subtask(self.subtasks@, task_id)) by {
                        let w = choose|w: int| 0 <= w < self.subtasks@.len()
                            && #[trigger] self.subtasks@[w].task_id == task_id
                            && self.subtasks@[w].number == b;
                        assert(self.subtasks@[w].task_id == task_id);
                    }
                }
                b
            },
        };
        self.load_or_create_subtask(task_id, target)
    }

    /// Opens a new stretch on the given subtask, starting now; the
    /// open stretches of others are left alone (stopping them first is
    /// the caller's workflow).
    pub fn begin(&mut self, subtask_index: usize, now: i64)
        requires
            old(self).wf(),
            subtask_index < old(self).subtasks@.len(),
            0 <= now <= TS_MAX,
            old(self).next_stretch_id < i64::MAX,
        ensures
            final(self).wf(),
            final(self).stretches@ == old(self).stretches@.push(
                (Stretch {
                    id: old(self).next_stretch_id,
                    subtask_id: old(self).subtasks@[subtask_index as int].id,
                    start: now,
                    end: None,
                }),
            ),
            final(self).next_stretch_id == old(self).next_stretch_id + 1,
            final(self).projects@ == old(self).projects@,
            final(self).tasks@ == old(self).tasks@,
            final(self).subtasks@ == old(self).subtasks@,
            final(self).next_project_id == old(self).next_project_id,
            final(self).next_task_id == old(self).next_task_id,
            final(self).next_subtask_id == old(self).next_subtask_id,
    {
        let sid = self.subtasks[subtask_index].id;
        let id = self.next_stretch_id;
        self.next_stretch_id = id + 1;
        self.stretches.push(Stretch { id, subtask_id: sid, start: now, end: None });
        proof {
            let st = self.stretches@;
            let pre = old(self).stretches@;
            let m = pre.len() as int;
            assert(forall|k: int| 0 <= k < m ==> st[k] == pre[k]);
            assert forall|i2: int, j2: int| 0 <= i2 < j2 < st.len()
                implies st[i2].id != st[j2].id by {
                if j2 == m {
                    assert(st[i2].id < old(self).next_stretch_id);
                }
            }
            assert forall|i2: int| 0 <= i2 < st.len()
                implies 0 <= #[trigger] st[i2].id < self.next_stretch_id by {
                if i2 < m {
                    assert(0 <= pre[i2].id < old(self).next_stretch_id);
                }
            }
            assert forall|i2: int| 0 <= i2 < st.len()
                implies has_subtask_id(self.subtasks@, #[trigger] st[i2].subtask_id) by {
                if i2 == m {
                    assert(self.subtasks@[subtask_index as int].id == st[i2].subtask_id);
                }
            }
        }
    }

    /// What stopping every open stretch at instant `t` leaves behind:
    /// each open row is closed at `t`, every closed row and everything
    /// else is untouched.
    pub open spec fn stops_transition(pre: Db, post: Db, t: i64) -> bool {
        &&& post.wf()
        &&& post.stretches@.len() == pre.stretches@.len()
        &&& forall|i: int| 0 <= i < pre.stretches@.len() ==> {
            &&& (#[trigger] post.stretches@[i]).id == pre.stretches@[i].id
            &&& post.stretches@[i].subtask_id == pre.stretches@[i].subtask_id
            &&& post.stretches@[i].start == pre.stretches@[i].start
            &&& post.stretches@[i].end == (if pre.stretches@[i].end is None {
                Some(t)
            } else {
                pre.stretches@[i].end
            })
        }
        &&& post.projects@ == pre.projects@
        &&& post.tasks@ == pre.tasks@
        &&& post.subtasks@ == pre.subtasks@
        &&& post.next_project_id == pre.next_project_id
        &&& post.next_task_id == pre.next_task_id
        &&& post.next_subtask_id == pre.next_subtask_id
        &&& post.next_stretch_id == pre.next_stretch_id
    }

    /// Closes every open stretch at the given instant.
    pub fn stop_all_at_ts(&mut self, t: i64)
        requires
            old(self).wf(),
            0 <= t <= TS_MAX,
        ensures
            Db::stops_transition(*old(self), *final(self), t),
    {
        let n = self.stretches.len();
        let mut i: usize = 0;
        while i < n
            invariant
                old(self).wf(),
                0 <= t <= TS_MAX,
                n == self.stretches@.len(),
                n == old(self).stretches@.len(),
                0 <= i <= n,
                self.projects@ == old(self).projects@,
                self.tasks@ == old(self).tasks@,
                self.subtasks@ == old(self).subtasks@,
                self.next_project_id == old(self).next_project_id,
                self.next_task_id == old(self).next_task_id,
                self.next_subtask_id == old(self).next_subtask_id,
                self.next_stretch_id == old(self).next_stretch_id,
                forall|j: int| i <= j < n
                    ==> #[trigger] self.stretches@[j] == old(self).stretches@[j],
                forall|j: int| 0 <= j < i ==> {
                    &&& (#[trigger] self.stretches@[j]).id == old(self).stretches@[j].id
                    &&& self.stretches@[j].subtask_id == old(self).stretches@[j].subtask_id
                    &&& self.stretches@[j].start == old(self).stretches@[j].start
                    &&& self.stretches@[j].end == (if old(self).stretches@[j].end is None {
                        Some(t)
                    } else {
                        old(self).stretches@[j].end
                    })
                },
            decreases n - i,
        {
            if self.stretches[i].end.is_none() {
                self.stretches[i].end = Some(t);
            }
            i += 1;
        }
        proof {
            let st = self.stretches@;
            let pre = old(self).stretches@;
            assert forall|i2: int| 0 <= i2 < st.len()
                implies has_subtask_id(self.subtasks@, #[trigger] st[i2].subtask_id) by {
                assert(st[i2].subtask_id == pre[i2].subtask_id);
                assert(has_subtask_id(old(self).subtasks@, pre[i2].subtask_id));
            }
            assert forall|i2: int, j2: int| 0 <= i2 < j2 < st.len()
                implies st[i2].id != st[j2].id by {
                assert(pre[i2].id != pre[j2].id);
            }
        }
    }

    /// Closes every open stretch, at an explicit local timestamp when
    /// one is given and at the current instant otherwise.  A timestamp
    /// that does not parse, or denotes an instant outside the store's
    /// range, fails and updates nothing.  The store's range starts at
    /// 1970, so an earlier timestamp — however well formed — is
    /// rejected as unrepresentable.
    pub fn stop_all_at(&mut self, when: Option<&str>, now: i64) -> (r: Result<(), Error>)
        requires
            old(self).wf(),
            0 <= now <= TS_MAX,
        ensures
            match when {
                None => r is Ok && Db::stops_transition(*old(self), *final(self), now),
                Some(s) => match crate::tz::parse_ts_spec(s@) {
                    Some(t) => if 0 <= t <= TS_MAX {
                        r is Ok && Db::stops_transition(*old(self), *final(self), t as i64)
                    } else {
                        (r matches Err(e) && e.is_validation()) && *final(self) == *old(self)
                    },
                    None => (r matches Err(e) && e.is_validation()) && *final(self) == *old(self),
                },
            },
    {
        let t = match when {
            None => now,
            Some(timestring) => match crate::tz::parse_local_ts(timestring) {
                None => {
                    return Err(Error::Validation("timestamp does not parse".to_owned()));
                },
                Some(t) => {
                    if t < 0 || t > TS_MAX {
                        return Err(Error::Validation(
                            "timestamp is outside the representable range".to_owned(),
                        ));
                    }
                    t
                },
            },
        };
        self.stop_all_at_ts(t);
        Ok(())
    }

    /// Closes every open stretch at the current instant.
    pub fn stop_all(&mut self, now: i64) -> (r: Result<(), Error>)
        requires
            old(self).wf(),
            0 <= now <= TS_MAX,
        ensures
            r is Ok,
            Db::stops_transition(*old(self), *final(self), now),
    {
        self.stop_all_at(None, now)
    }

    pub open spec fn has_open_stretch(&self) -> bool {
        exists|i: int| 0 <= i < self.stretches@.len()
            && (#[trigger] self.stretches@[i]).end is None
    }

    /// The most recently started open stretch: open, started no
    /// earlier than any other open one, and first among equal starts.
    pub open spec fn is_current_stretch(&self, i: int) -> bool {
        &&& 0 <= i < self.stretches@.len()
        &&& self.stretches@[i].end is None
        &&& forall|j: int| 0 <= j < self.stretches@.len()
            && (#[trigger] self.stretches@[j]).end is None ==> {
            &&& self.stretches@[j].start <= self.stretches@[i].start
            &&& (self.stretches@[j].start == self.stretches@[i].start ==> i <= j)
        }
    }

    /// The index of the current stretch, or None when none is open.
    pub fn current_stretch(&self) -> (r: Option<usize>)
        ensures
            match r {
                Some(i) => self.is_current_stretch(i as int),
                None => !self.has_open_stretch(),
            },
    {
        let n = self.stretches.len();
        let mut best: Option<usize> = None;
        let mut i: usize = 0;
        while i < n
            invariant
                0 <= i <= n,
                n == self.stretches@.len(),
                match best {
                    None => forall|j: int| 0 <= j < i
                        ==> !((#[trigger] self.stretches@[j]).end is None),
                    Some(b) => {
                        &&& b < i
                        &&& self.stretches@[b as int].end is None
                        &&& forall|j: int| 0 <= j < i
                            && (#[trigger] self.stretches@[j]).end is None ==> {
                            &&& self.stretches@[j].start <= self.stretches@[b as int].start
                            &&& (self.stretches@[j].start == self.stretches@[b as int].start
                                ==> b <= j)
                        }
                    },
                },
            decreases n - i,
        {
            if self.stretches[i].end.is_none() {
                match best {
                    None => {
                        best = Some(i);
                    },
                    Some(b) => {
                        if self.stretches[i].start > self.stretches[b].start {
                            best = Some(i);
                        }
                    },
                }
            }
            i += 1;
        }
        best
    }

    pub(crate) fn find_project_by_id(&self, id: i64) -> (r: usize)
        requires
            has_project_id(self.projects@, id),
        ensures
            r < self.projects@.len(),
            self.projects@[r as int].id == id,
    {
        let n = self.projects.len();
        let mut i: usize = 0;
        while i < n
            invariant
                0 <= i <= n,
                n == self.projects@.len(),
                forall|j: int| 0 <= j < i ==> #[trigger] self.projects@[j].id != id,
            decreases n - i,
        {
            if self.projects[i].id == id {
                return i;
            }
            i += 1;
        }
        proof {
            let w = choose|w: int| 0 <= w < self.projects@.len()
                && #[trigger] self.projects@[w].id == id;
            assert(self.projects@[w].id == id);
            assert(false);
        }
        0
    }

    pub(crate) fn find_task_by_id(&self, id: i64) -> (r: usize)
        requires
            has_task_id(self.tasks@, id),
        ensures
            r < self.tasks@.len(),
            self.tasks@[r as int].id == id,
    {
        let n = self.tasks.len();
        let mut i: usize = 0;
        while i < n
            invariant
                0 <= i <= n,
                n == self.tasks@.len(),
                forall|j: int| 0 <= j < i ==> #[trigger] self.tasks@[j].id != id,
            decreases n - i,
        {
            if self.tasks[i].id == id {
                return i;
            }
            i += 1;
        }
        proof {
            let w = choose|w: int| 0 <= w < self.tasks@.len()
                && #[trigger] self.tasks@[w].id == id;
            assert(self.tasks@[w].id == id);
            assert(false);
        }
        0
    }

    pub(crate) fn find_subtask_by_id(&self, id: i64) -> (r: usize)
        requires
            has_subtask_id(self.subtasks@, id),
        ensures
            r < self.subtasks@.len(),
            self.subtasks@[r as int].id == id,
    {
        let n = self.subtasks.len();
        let mut i: usize = 0;
        while i < n
            invariant
                0 <= i <= n,
                n == self.subtasks@.len(),
                forall|j: int| 0 <= j < i ==> #[trigger] self.subtasks@[j].id != id,
            decreases n - i,
        {
            if self.subtasks[i].id == id {
                return i;
            }
            i += 1;
        }
        proof {
            let w = choose|w: int| 0 <= w < self.subtasks@.len()
                && #[trigger] self.subtasks@[w].id == id;
            assert(self.subtasks@[w].id == id);
            assert(false);
        }
        0
    }

    /// The task owning the current stretch's subtask, or None when no
    /// stretch is open.
    pub fn current_task(&self) -> (r: Option<usize>)
        requires
            self.wf(),
        ensures
            match r {
                Some(ti) => ti < self.tasks@.len() && exists|ci: int, si: int| {
                    &&& self.is_current_stretch(ci)
                    &&& 0 <= si < self.subtasks@.len()
                    &&& (#[trigger] self.subtasks@[si]).id
                        == (#[trigger] self.stretches@[ci]).subtask_id
                    &&& self.tasks@[ti as int].id == self.subtasks@[si].task_id
                },
                None => !self.has_open_stretch(),
            },
    {
        match self.current_stretch() {
            None => None,
            Some(ci) => {
                let sid = self.stretches[ci].subtask_id;
                let si = self.find_subtask_by_id(sid);
                let tid = self.subtasks[si].task_id;
                let ti = self.find_task_by_id(tid);
                proof {
                    assert(self.is_current_stretch(ci as int)
                        && 0 <= si < self.subtasks@.len()
                        && self.subtasks@[si as int].id == self.stretches@[ci as int].subtask_id
                        && self.tasks@[ti as int].id == self.subtasks@[si as int].task_id);
                }
                Some(ti)
            },
        }
    }

    /// The project owning the current stretch, or None when no stretch
    /// is open.
    pub fn current_project(&self) -> (r: Option<usize>)
        requires
            self.wf(),
        ensures
            match r {
                Some(pi) => pi < self.projects@.len() && exists|ci: int, si: int, ti: int| {
                    &&& self.is_current_stretch(ci)
                    &&& 0 <= si < self.subtasks@.len()
                    &&& (#[trigger] self.subtasks@[si]).id
                        == (#[trigger] self.stretches@[ci]).subtask_id
                    &&& 0 <= ti < self.tasks@.len()
                    &&& (#[trigger] self.tasks@[ti]).id == self.subtasks@[si].task_id
                    &&& self.projects@[pi as int].id == self.tasks@[ti].project_id
                },
                None => !self.has_open_stretch(),
            },
    {
        match self.current_stretch() {
            None => None,
            Some(ci) => {
                let sid = self.stretches[ci].subtask_id;
                let si = self.find_subtask_by_id(sid);
                let tid = self.subtasks[si].task_id;
                let ti = self.find_task_by_id(tid);
                let pid = self.tasks[ti].project_id;
                let pi = self.find_project_by_id(pid);
                proof {
                    assert(self.is_current_stretch(ci as int)
                        && 0 <= si < self.subtasks@.len()
                        && self.subtasks@[si as int].id == self.stretches@[ci as int].subtask_id
                        && 0 <= ti < self.tasks@.len()
                        && self.tasks@[ti as int].id == self.subtasks@[si as int].task_id
                        && self.projects@[pi as int].id == self.tasks@[ti as int].project_id);
                }
                Some(pi)
            },
        }
    }

    /// The `<project>-<task>` code of a task.
    pub open spec fn spec_task_code(&self, ti: int) -> Seq<char> {
        let t = self.tasks@[ti];
        let p = self.projects@[project_index_by_id(self.projects@, t.project_id)];
        crate::codes::spec_code_of(p.code@, t.number as int, None)
    }

    /// The full `<project>-<task>-<subtask>` code of a subtask.
    pub open spec fn spec_subtask_code(&self, si: int) -> Seq<char> {
        let s = self.subtasks@[si];
        let t = self.tasks@[task_index_by_id(self.tasks@, s.task_id)];
        let p = self.projects@[project_index_by_id(self.projects@, t.project_id)];
        crate::codes::spec_code_of(p.code@, t.number as int, Some(s.number))
    }

    /// Derives a task's `<project>-<task>` code.
    pub fn task_code(&self, ti: usize) -> (r: String)
        requires
            self.wf(),
            ti < self.tasks@.len(),
        ensures
            r@ == self.spec_task_code(ti as int),
    {
        let pid = self.tasks[ti].project_id;
        let pi = self.find_project_by_id(pid);
        proof {
            lemma_project_lookup(*self, pi as int);
        }
        crate::codes::code_of(self.projects[pi].code.as_str(), self.tasks[ti].number, None)
    }

    /// What resolving a parsed spec leaves behind: project, task and
    /// subtask rows for it, created where missing, with everything
    /// already present kept in place and the stretches untouched.
    pub open spec fn resolution(
        pre: Db,
        post: Db,
        pi: int,
        ti: int,
        si: int,
        p: Seq<char>,
        tn: i64,
        sub: Option<i64>,
    ) -> bool {
        &&& post.wf()
        &&& 0 <= pi < post.projects@.len()
        &&& post.projects@[pi].code@ == p
        &&& 0 <= ti < post.tasks@.len()
        &&& post.tasks@[ti].project_id == post.projects@[pi].id
        &&& post.tasks@[ti].number == tn
        &&& 0 <= si < post.subtasks@.len()
        &&& post.subtasks@[si].task_id == post.tasks@[ti].id
        &&& (sub matches Some(sn) ==> post.subtasks@[si].number == sn)
        &&& (sub is None ==> {
            let n = post.subtasks@[si].number;
            let tid = post.tasks@[ti].id;
            &&& (has_any_subtask(pre.subtasks@, tid) ==> {
                &&& has_subtask(pre.subtasks@, tid, n)
                &&& forall|k: int| 0 <= k < pre.subtasks@.len()
                    && #[trigger] pre.subtasks@[k].task_id == tid
                    ==> pre.subtasks@[k].number <= n
            })
            &&& (!has_any_subtask(pre.subtasks@, tid) ==> n == 1)
        })
        &&& pre.projects@.len() <= post.projects@.len()
        &&& post.projects@.subrange(0, pre.projects@.len() as int) == pre.projects@
        &&& pre.tasks@.len() <= post.tasks@.len()
        &&& post.tasks@.subrange(0, pre.tasks@.len() as int) == pre.tasks@
        &&& pre.subtasks@.len() <= post.subtasks@.len()
        &&& post.subtasks@.subrange(0, pre.subtasks@.len() as int) == pre.subtasks@
        &&& post.stretches@ == pre.stretches@
        &&& post.next_stretch_id == pre.next_stretch_id
    }

    /// Materializes the (project, task, subtask) triple a parsed spec
    /// names, creating any missing level.
    pub fn resolve(&mut self, sp: &SubtaskSpec) -> (r: (usize, usize, usize))
        requires
            old(self).wf(),
            old(self).next_project_id < i64::MAX,
            old(self).next_task_id < i64::MAX,
            old(self).next_subtask_id < i64::MAX,
        ensures
            Db::resolution(
                *old(self),
                *final(self),
                r.0 as int,
                r.1 as int,
                r.2 as int,
                sp.project_code@,
                sp.task_number,
                sp.subtask_number,
            ),
    {
        let ghost db0 = *self;
        let pi = self.get_project(sp.project_code.as_str());
        let ghost db1 = *self;
        let pid = self.projects[pi].id;
        proof {
            assert(has_project_id(self.projects@, pid)) by {
                assert(self.projects@[pi as int].id == pid);
            }
        }
        let ti = self.task(pid, sp.task_number);
        let ghost db2 = *self;
        let tid = self.tasks[ti].id;
        proof {
            assert(has_task_id(self.tasks@, tid)) by {
                assert(self.tasks@[ti as int].id == tid);
            }
            assert(db2.subtasks@ == db0.subtasks@);
        }
        let si = match sp.subtask_number {
            Some(n) => self.load_or_create_subtask(tid, n),
            None => self.latest_subtask(tid),
        };
        proof {
            assert(self.projects@ == db1.projects@);
            assert(self.tasks@ == db2.tasks@);
            assert(db1.projects@.subrange(0, db0.projects@.len() as int) =~= db0.projects@);
            assert(db2.tasks@.subrange(0, db1.tasks@.len() as int) =~= db1.tasks@);
            assert(self.subtasks@.subrange(0, db2.subtasks@.len() as int) =~= db2.subtasks@);
        }
        (pi, ti, si)
    }

    /// Resolves a textual work-item code: parses it, then materializes
    /// the triple.  Malformed codes fail before the store is touched.
    pub fn for_code(&mut self, code: &str) -> (r: Result<(usize, usize, usize), Error>)
        requires
            old(self).wf(),
            old(self).next_project_id < i64::MAX,
            old(self).next_task_id < i64::MAX,
            old(self).next_subtask_id < i64::MAX,
        ensures
            match r {
                Ok(t) => spec_parse_code(code@) matches Some(sp) && Db::resolution(
                    *old(self),
                    *final(self),
                    t.0 as int,
                    t.1 as int,
                    t.2 as int,
                    sp.0,
                    sp.1,
                    sp.2,
                ),
                Err(e) => spec_parse_code(code@) is None && e.is_validation()
                    && *final(self) == *old(self),
            },
    {
        let sp = match SubtaskSpec::parse(code) {
            Err(e) => {
                return Err(e);
            },
            Ok(sp) => sp,
        };
        Ok(self.resolve(&sp))
    }

    /// What one switch-work-item transaction leaves behind: every
    /// stretch open before is closed at `now`, the named work item is
    /// resolved, and exactly one stretch — the fresh one on that
    /// subtask, started at `now` — is open.
    pub open spec fn switch_transition(
        pre: Db,
        post: Db,
        pi: int,
        ti: int,
        si: int,
        code: Seq<char>,
        now: i64,
    ) -> bool {
        &&& spec_parse_code(code) matches Some(sp) && {
            &&& post.wf()
            &&& 0 <= pi < post.projects@.len()
            &&& post.projects@[pi].code@ == sp.0
            &&& 0 <= ti < post.tasks@.len()
            &&& post.tasks@[ti].project_id == post.projects@[pi].id
            &&& post.tasks@[ti].number == sp.1
            &&& 0 <= si < post.subtasks@.len()
            &&& post.subtasks@[si].task_id == post.tasks@[ti].id
            &&& (sp.2 matches Some(sn) ==> post.subtasks@[si].number == sn)
            &&& (sp.2 is None ==> {
                let n = post.subtasks@[si].number;
                let tid = post.tasks@[ti].id;
                &&& (has_any_subtask(pre.subtasks@, tid) ==> {
                    &&& has_subtask(pre.subtasks@, tid, n)
                    &&& forall|k: int| 0 <= k < pre.subtasks@.len()
                        && #[trigger] pre.subtasks@[k].task_id == tid
                        ==> pre.subtasks@[k].number <= n
                })
                &&& (!has_any_subtask(pre.subtasks@, tid) ==> n == 1)
            })
            &&& post.stretches@.len() == pre.stretches@.len() + 1
            &&& forall|i: int| 0 <= i < pre.stretches@.len() ==> {
                &&& (#[trigger] post.stretches@[i]).id == pre.stretches@[i].id
                &&& post.stretches@[i].subtask_id == pre.stretches@[i].subtask_id
                &&& post.stretches@[i].start == pre.stretches@[i].start
                &&& post.stretches@[i].end == (if pre.stretches@[i].end is None {
                    Some(now)
                } else {
                    pre.stretches@[i].end
                })
            }
            &&& post.stretches@.last().subtask_id == post.subtasks@[si].id
            &&& post.stretches@.last().start == now
            &&& forall|i: int| 0 <= i < post.stretches@.len()
                ==> ((#[trigger] post.stretches@[i]).end is None
                    <==> i == pre.stretches@.len())
        }
    }

    /// The canonical switch-work-item workflow, as one transaction:
    /// stop every open stretch at `now`, resolve the code, and begin a
    /// fresh stretch on the resolved subtask at `now`.
    pub fn switch_to(&mut self, code: &str, now: i64) -> (r: Result<(usize, usize, usize), Error>)
        requires
            old(self).wf(),
            0 <= now <= TS_MAX,
            old(self).next_project_id < i64::MAX,
            old(self).next_task_id < i64::MAX,
            old(self).next_subtask_id < i64::MAX,
            old(self).next_stretch_id < i64::MAX,
        ensures
            match r {
                Ok(t) => Db::switch_transition(
                    *old(self),
                    *final(self),
                    t.0 as int,
                    t.1 as int,
                    t.2 as int,
                    code@,
                    now,
                ),
                Err(e) => spec_parse_code(code@) is None && e.is_validation()
                    && *final(self) == *old(self),
            },
    {
        let sp = match SubtaskSpec::parse(code) {
            Err(e) => {
                return Err(e);
            },
            Ok(sp) => sp,
        };
        self.stop_all_at_ts(now);
        let ghost stopped = *self;
        let (pi, ti, si) = self.resolve(&sp);
        let ghost resolved = *self;
        self.begin(si, now);
        proof {
            assert(resolved.stretches@ == stopped.stretches@);
            assert forall|i: int| 0 <= i < old(self).stretches@.len()
                implies #[trigger] self.stretches@[i] == stopped.stretches@[i] by {
            }
            assert(self.stretches@.last().start == now);
            assert forall|i: int| 0 <= i < self.stretches@.len()
                implies ((#[trigger] self.stretches@[i]).end is None
                    <==> i == old(self).stretches@.len()) by {
                if i < old(self).stretches@.len() {
                    if old(self).stretches@[i].end is None {
                        assert(self.stretches@[i].end == Some(now));
                    } else {
                        assert(self.stretches@[i].end == old(self).stretches@[i].end);
                    }
                }
            }
        }
        Ok((pi, ti, si))
    }

    fn has_project_id_exec(&self, id: i64) -> (b: bool)
        ensures
            b == has_project_id(self.projects@, id),
    {
        let n = self.projects.len();
        let mut i: usize = 0;
        while i < n
            invariant
                0 <= i <= n,
                n == self.projects@.len(),
                forall|j: int| 0 <= j < i ==> #[trigger] self.projects@[j].id != id,
            decreases n - i,
        {
            if self.projects[i].id == id {
                return true;
            }
            i += 1;
        }
        false
    }

    fn has_task_id_exec(&self, id: i64) -> (b: bool)
        ensures
            b == has_task_id(self.tasks@, id),
    {
        let n = self.tasks.len();
        let mut i: usize = 0;
        while i < n
            invariant
                0 <= i <= n,
                n == self.tasks@.len(),
                forall|j: int| 0 <= j < i ==> #[trigger] self.tasks@[j].id != id,
            decreases n - i,
        {
            if self.tasks[i].id == id {
                return true;
            }
            i += 1;
        }
        false
    }

    fn has_subtask_id_exec(&self, id: i64) -> (b: bool)
        ensures
            b == has_subtask_id(self.subtasks@, id),
    {
        let n = self.subtasks.len();
        let mut i: usize = 0;
        while i < n
            invariant
                0 <= i <= n,
                n == self.subtasks@.len(),
                forall|j: int| 0 <= j < i ==> #[trigger] self.subtasks@[j].id != id,
            decreases n - i,
        {
            if self.subtasks[i].id == id {
                return true;
            }
            i += 1;
        }
        false
    }

    fn check_projects(&self) -> (b: bool)
        ensures
            b == self.projects_wf(),
    {
        if self.next_project_id < 0 {
            return false;
        }
        let n = self.projects.len();
        let mut i: usize = 0;
        while i < n
            invariant
                0 <= i <= n,
                n == self.projects@.len(),
                0 <= self.next_project_id,
                forall|a: int| 0 <= a < i
                    ==> 0 <= #[trigger] self.projects@[a].id < self.next_project_id,
                forall|a: int, b2: int| 0 <= a < i && a < b2 < n
                    ==> #[trigger] self.projects@[a].id != #[trigger] self.projects@[b2].id,
                forall|a: int, b2: int| 0 <= a < i && a < b2 < n
                    ==> #[trigger] self.projects@[a].code@ != #[trigger] self.projects@[b2].code@,
            decreases n - i,
        {
            if self.projects[i].id < 0 || self.projects[i].id >= self.next_project_id {
                return false;
            }
            let mut j: usize = i + 1;
            while j < n
                invariant
                    0 <= i < n,
                    i < j <= n,
                    n == self.projects@.len(),
                    forall|b2: int| i < b2 < j
                        ==> #[trigger] self.projects@[b2].id != self.projects@[i as int].id,
                    forall|b2: int| i < b2 < j
                        ==> #[trigger] self.projects@[b2].code@ != self.projects@[i as int].code@,
                decreases n - j,
            {
                if self.projects[j].id == self.projects[i].id {
                    return false;
                }
                if crate::strutil::str_eq(
                    self.projects[j].code.as_str(),
                    self.projects[i].code.as_str(),
                ) {
                    return false;
                }
                j += 1;
            }
            i += 1;
        }
        true
    }

    fn check_tasks(&self) -> (b: bool)
        ensures
            b == self.tasks_wf(),
    {
        if self.next_task_id < 0 {
            return false;
        }
        let n = self.tasks.len();
        let mut i: usize = 0;
        while i < n
            invariant
                0 <= i <= n,
                n == self.tasks@.len(),
                0 <= self.next_task_id,
                forall|a: int| 0 <= a < i
                    ==> 0 <= #[trigger] self.tasks@[a].id < self.next_task_id,
                forall|a: int| 0 <= a < i
                    ==> has_project_id(self.projects@, #[trigger] self.tasks@[a].project_id),
                forall|a: int, b2: int| 0 <= a < i && a < b2 < n
                    ==> #[trigger] self.tasks@[a].id != #[trigger] self.tasks@[b2].id,
                forall|a: int, b2: int| 0 <= a < i && a < b2 < n
                    ==> !(#[trigger] self.tasks@[a].project_id == #[trigger] self.tasks@[b2].project_id
                        && self.tasks@[a].number == self.tasks@[b2].number),
            decreases n - i,
        {
            if self.tasks[i].id < 0 || self.tasks[i].id >= self.next_task_id {
                return false;
            }
            if !self.has_project_id_exec(self.tasks[i].project_id) {
                return false;
            }
            let mut j: usize = i + 1;
            while j < n
                invariant
                    0 <= i < n,
                    i < j <= n,
                    n == self.tasks@.len(),
                    forall|b2: int| i < b2 < j
                        ==> #[trigger] self.tasks@[b2].id != self.tasks@[i as int].id,
                    forall|b2: int| i < b2 < j
                        ==> !(#[trigger] self.tasks@[b2].project_id == self.tasks@[i as int].project_id
                            && self.tasks@[b2].number == self.tasks@[i as int].number),
                decreases n - j,
            {
                if self.tasks[j].id == self.tasks[i].id {
                    return false;
                }
                if self.tasks[j].project_id == self.tasks[i].project_id
                    && self.tasks[j].number == self.tasks[i].number {
                    return false;
                }
                j += 1;
            }
            i += 1;
        }
        true
    }

    fn check_subtasks(&self) -> (b: bool)
        ensures
            b == self.subtasks_wf(),
    {
        if self.next_subtask_id < 0 {
            return false;
        }
        let n = self.subtasks.len();
        let mut i: usize = 0;
        while i < n
            invariant
                0 <= i <= n,
                n == self.subtasks@.len(),
                0 <= self.next_subtask_id,
                forall|a: int| 0 <= a < i
                    ==> 0 <= #[trigger] self.subtasks@[a].id < self.next_subtask_id,
                forall|a: int| 0 <= a < i
                    ==> has_task_id(self.tasks@, #[trigger] self.subtasks@[a].task_id),
                forall|a: int, b2: int| 0 <= a < i && a < b2 < n
                    ==> #[trigger] self.subtasks@[a].id != #[trigger] self.subtasks@[b2].id,
                forall|a: int, b2: int| 0 <= a < i && a < b2 < n
                    ==> !(#[trigger] self.subtasks@[a].task_id == #[trigger] self.subtasks@[b2].task_id
                        && self.subtasks@[a].number == self.subtasks@[b2].number),
            decreases n - i,
        {
            if self.subtasks[i].id < 0 || self.subtasks[i].id >= self.next_subtask_id {
                return false;
            }
            if !self.has_task_id_exec(self.subtasks[i].task_id) {
                return false;
            }
            let mut j: usize = i + 1;
            while j < n
                invariant
                    0 <= i < n,
                    i < j <= n,
                    n == self.subtasks@.len(),
                    forall|b2: int| i < b2 < j
                        ==> #[trigger] self.subtasks@[b2].id != self.subtasks@[i as int].id,
                    forall|b2: int| i < b2 < j
                        ==> !(#[trigger] self.subtasks@[b2].task_id == self.subtasks@[i as int].task_id
                            && self.subtasks@[b2].number == self.subtasks@[i as int].number),
                decreases n - j,
            {
                if self.subtasks[j].id == self.subtasks[i].id {
                    return false;
                }
                if self.subtasks[j].task_id == self.subtasks[i].task_id
                    && self.subtasks[j].number == self.subtasks[i].number {
                    return false;
                }
                j += 1;
            }
            i += 1;
        }
        true
    }

    fn check_stretches(&self) -> (b: bool)
        ensures
            b == self.stretches_wf(),
    {
        if self.next_stretch_id < 0 {
            return false;
        }
        let n = self.stretches.len();
        let mut i: usize = 0;
        while i < n
            invariant
                0 <= i <= n,
                n == self.stretches@.len(),
                0 <= self.next_stretch_id,
                forall|a: int| 0 <= a < i
                    ==> 0 <= #[trigger] self.stretches@[a].id < self.next_stretch_id,
                forall|a: int| 0 <= a < i
                    ==> has_subtask_id(self.subtasks@, #[trigger] self.stretches@[a].subtask_id),
                forall|a: int| 0 <= a < i
                    ==> 0 <= #[trigger] self.stretches@[a].start <= TS_MAX,
                forall|a: int| 0 <= a < i
                    ==> (#[trigger] self.stretches@[a].end matches Some(e) ==> 0 <= e <= TS_MAX),
                forall|a: int, b2: int| 0 <= a < i && a < b2 < n
                    ==> #[trigger] self.stretches@[a].id != #[trigger] self.stretches@[b2].id,
            decreases n - i,
        {
            if self.stretches[i].id < 0 || self.stretches[i].id >= self.next_stretch_id {
                return false;
            }
            if !self.has_subtask_id_exec(self.stretches[i].subtask_id) {
                return false;
            }
            if self.stretches[i].start < 0 || self.stretches[i].start > TS_MAX {
                return false;
            }
            match self.stretches[i].end {
                None => {},
                Some(e) => {
                    if e < 0 || e > TS_MAX {
                        return false;
                    }
                },
            }
            let mut j: usize = i + 1;
            while j < n
                invariant
                    0 <= i < n,
                    i < j <= n,
                    n == self.stretches@.len(),
                    forall|b2: int| i < b2 < j
                        ==> #[trigger] self.stretches@[b2].id != self.stretches@[i as int].id,
                decreases n - j,
            {
                if self.stretches[j].id == self.stretches[i].id {
                    return false;
                }
                j += 1;
            }
            i += 1;
        }
        true
    }

    /// Decides well-formedness of the whole store at run time, so an
    /// embedding that filled the tables itself can establish it.
    pub fn check_wf(&self) -> (b: bool)
        ensures
            b == self.wf(),
    {
        self.check_projects() && self.check_tasks() && self.check_subtasks()
            && self.check_stretches()
    }

    /// The indices of a project's tasks, in storage order, complete.
    pub fn tasks_of(&self, project_id: i64) -> (r: Vec<usize>)
        ensures
            forall|k: int| 0 <= k < r@.len() ==> (#[trigger] r@[k]) < self.tasks@.len()
                && self.tasks@[r@[k] as int].project_id == project_id,
            forall|k1: int, k2: int| 0 <= k1 < k2 < r@.len()
                ==> #[trigger] r@[k1] < #[trigger] r@[k2],
            forall|j: int| 0 <= j < self.tasks@.len()
                && (#[trigger] self.tasks@[j]).project_id == project_id
                ==> exists|k: int| 0 <= k < r@.len() && #[trigger] r@[k] == j,
    {
        let n = self.tasks.len();
        let mut out: Vec<usize> = Vec::new();
        let mut i: usize = 0;
        while i < n
            invariant
                0 <= i <= n,
                n == self.tasks@.len(),
                forall|k: int| 0 <= k < out@.len() ==> (#[trigger] out@[k]) < i
                    && self.tasks@[out@[k] as int].project_id == project_id,
                forall|k1: int, k2: int| 0 <= k1 < k2 < out@.len()
                    ==> #[trigger] out@[k1] < #[trigger] out@[k2],
                forall|j: int| 0 <= j < i
                    && (#[trigger] self.tasks@[j]).project_id == project_id
                    ==> exists|k: int| 0 <= k < out@.len() && #[trigger] out@[k] == j,
            decreases n - i,
        {
            if self.tasks[i].project_id == project_id {
                let ghost before = out@;
                out.push(i);
                proof {
                    assert(out@[before.len() as int] == i);
                    assert forall|j: int| 0 <= j < i + 1
                        && (#[trigger] self.tasks@[j]).project_id == project_id
                        implies exists|k: int| 0 <= k < out@.len() && #[trigger] out@[k] == j by {
                        if j < i {
                            let k = choose|k: int| 0 <= k < before.len() && #[trigger] before[k] == j;
                            assert(out@[k] == j);
                        } else {
                            assert(out@[before.len() as int] == j);
                        }
                    }
                }
            }
            i += 1;
        }
        out
    }

    /// The indices of a task's subtasks, in storage order, complete.
    pub fn subtasks_of(&self, task_id: i64) -> (r: Vec<usize>)
        ensures
            forall|k: int| 0 <= k < r@.len() ==> (#[trigger] r@[k]) < self.subtasks@.len()
                && self.subtasks@[r@[k] as int].task_id == task_id,
            forall|k1: int, k2: int| 0 <= k1 < k2 < r@.len()
                ==> #[trigger] r@[k1] < #[trigger] r@[k2],
            forall|j: int| 0 <= j < self.subtasks@.len()
                && (#[trigger] self.subtasks@[j]).task_id == task_id
                ==> exists|k: int| 0 <= k < r@.len() && #[trigger] r@[k] == j,
    {
        let n = self.subtasks.len();
        let mut out: Vec<usize> = Vec::new();
        let mut i: usize = 0;
        while i < n
            invariant
                0 <= i <= n,
                n == self.subtasks@.len(),
                forall|k: int| 0 <= k < out@.len() ==> (#[trigger] out@[k]) < i
                    && self.subtasks@[out@[k] as int].task_id == task_id,
                forall|k1: int, k2: int| 0 <= k1 < k2 < out@.len()
                    ==> #[trigger] out@[k1] < #[trigger] out@[k2],
                forall|j: int| 0 <= j < i
                    && (#[trigger] self.subtasks@[j]).task_id == task_id
                    ==> exists|k: int| 0 <= k < out@.len() && #[trigger] out@[k] == j,
            decreases n - i,
        {
            if self.subtasks[i].task_id == task_id {
                let ghost before = out@;
                out.push(i);
                proof {
                    assert(out@[before.len() as int] == i);
                    assert forall|j: int| 0 <= j < i + 1
                        && (#[trigger] self.subtasks@[j]).task_id == task_id
                        implies exists|k: int| 0 <= k < out@.len() && #[trigger] out@[k] == j by {
                        if j < i {
                            let k = choose|k: int| 0 <= k < before.len() && #[trigger] before[k] == j;
                            assert(out@[k] == j);
                        } else {
                            assert(out@[before.len() as int] == j);
                        }
                    }
                }
            }
            i += 1;
        }
        out
    }

    /// The subtask a task marks active: the row whose id the task's
    /// `active_subtask` names, when such a row stands under the task.
    pub fn active_subtask(&self, ti: usize) -> (r: Option<usize>)
        requires
            ti < self.tasks@.len(),
        ensures
            match r {
                Some(si) => {
                    &&& si < self.subtasks@.len()
                    &&& self.tasks@[ti as int].active_subtask
                        == Some(self.subtasks@[si as int].id)
                    &&& self.subtasks@[si as int].task_id == self.tasks@[ti as int].id
                },
                None => self.tasks@[ti as int].active_subtask is None
                    || !(exists|j: int| 0 <= j < self.subtasks@.len()
                        && (#[trigger] self.subtasks@[j]).task_id == self.tasks@[ti as int].id
                        && Some(self.subtasks@[j].id) == self.tasks@[ti as int].active_subtask),
            },
    {
        let target = match self.tasks[ti].active_subtask {
            None => {
                return None;
            },
            Some(t) => t,
        };
        let tid = self.tasks[ti].id;
        let n = self.subtasks.len();
        let mut i: usize = 0;
        while i < n
            invariant
                0 <= i <= n,
                n == self.subtasks@.len(),
                self.tasks@[ti as int].active_subtask == Some(target),
                tid == self.tasks@[ti as int].id,
                ti < self.tasks@.len(),
                forall|j: int| 0 <= j < i
                    ==> !((#[trigger] self.subtasks@[j]).task_id == tid
                        && self.subtasks@[j].id == target),
            decreases n - i,
        {
            if self.subtasks[i].task_id == tid && self.subtasks[i].id == target {
                return Some(i);
            }
            i += 1;
        }
        None
    }

    /// Derives a subtask's full `<project>-<task>-<subtask>` code.
    pub fn subtask_code(&self, si: usize) -> (r: String)
        requires
            self.wf(),
            si < self.subtasks@.len(),
        ensures
            r@ == self.spec_subtask_code(si as int),
    {
        let tid = self.subtasks[si].task_id;
        let ti = self.find_task_by_id(tid);
        proof {
            lemma_task_lookup(*self, ti as int);
        }
        let pid = self.tasks[ti].project_id;
        let pi = self.find_project_by_id(pid);
        proof {
            lemma_project_lookup(*self, pi as int);
        }
        crate::codes::code_of(
            self.projects[pi].code.as_str(),
            self.tasks[ti].number,
            Some(self.subtasks[si].number),
        )
    }
}

/// The index of the project row bearing an id; meaningful only while
/// some row does.
pub open spec fn project_index_by_id(ps: Seq<Project>, id: i64) -> int {
    choose|i: int| 0 <= i < ps.len() && #[trigger] ps[i].id == id
}

/// The index of the task row bearing an id.
pub open spec fn task_index_by_id(ts: Seq<Task>, id: i64) -> int {
    choose|i: int| 0 <= i < ts.len() && #[trigger] ts[i].id == id
}

/// The index of the subtask row bearing an id.
pub open spec fn subtask_index_by_id(ss: Seq<Subtask>, id: i64) -> int {
    choose|i: int| 0 <= i < ss.len() && #[trigger] ss[i].id == id
}

/// In a well-formed store, looking a project up by its own id finds
/// that very row.
pub proof fn lemma_project_lookup(db: Db, i: int)
    requires
        db.wf(),
        0 <= i < db.projects@.len(),
    ensures
        project_index_by_id(db.projects@, db.projects@[i].id) == i,
{
    let ps = db.projects@;
    let id = ps[i].id;
    assert(ps[i].id == id);
    let c = project_index_by_id(ps, id);
    assert(0 <= c < ps.len() && ps[c].id == id) by {
        assert(exists|k: int| 0 <= k < ps.len() && #[trigger] ps[k].id == id);
    }
    if c != i {
        if c < i {
            assert(ps[c].id != ps[i].id);
        } else {
            assert(ps[i].id != ps[c].id);
        }
        assert(false);
    }
}

/// In a well-formed store, looking a task up by its own id finds that
/// very row.
pub proof fn lemma_task_lookup(db: Db, i: int)
    requires
        db.wf(),
        0 <= i < db.tasks@.len(),
    ensures
        task_index_by_id(db.tasks@, db.tasks@[i].id) == i,
{
    let ts = db.tasks@;
    let id = ts[i].id;
    assert(ts[i].id == id);
    let c = task_index_by_id(ts, id);
    assert(0 <= c < ts.len() && ts[c].id == id) by {
        assert(exists|k: int| 0 <= k < ts.len() && #[trigger] ts[k].id == id);
    }
    if c != i {
        if c < i {
            assert(ts[c].id != ts[i].id);
        } else {
            assert(ts[i].id != ts[c].id);
        }
        assert(false);
    }
}

/// At most one stretch is open: any two open rows are the same row.
pub open spec fn at_most_one_open(db: Db) -> bool {
    forall|i: int, j: int| 0 <= i < db.stretches@.len() && 0 <= j < db.stretches@.len()
        && (#[trigger] db.stretches@[i]).end is None && (#[trigger] db.stretches@[j]).end is None
        ==> i == j
}

/// After any switch-work-item transaction, at most one stretch is
/// open — whatever was open before.
pub proof fn lemma_switch_singleton(
    pre: Db,
    post: Db,
    pi: int,
    ti: int,
    si: int,
    code: Seq<char>,
    now: i64,
)
    requires
        Db::switch_transition(pre, post, pi, ti, si, code, now),
    ensures
        at_most_one_open(post),
{
}

/// After switching work items, every stretch the switch closed ends
/// exactly when the fresh stretch starts, so no closed end lies after
/// the new start.
pub proof fn lemma_switch_chronology(
    pre: Db,
    post: Db,
    pi: int,
    ti: int,
    si: int,
    code: Seq<char>,
    now: i64,
)
    requires
        Db::switch_transition(pre, post, pi, ti, si, code, now),
    ensures
        forall|i: int| 0 <= i < pre.stretches@.len()
            && (#[trigger] pre.stretches@[i]).end is None ==> {
            &&& post.stretches@[i].end == Some(now)
            &&& now <= post.stretches@[post.stretches@.len() - 1].start
        },
{
    assert(post.stretches@.last().start == now);
}

/// In a well-formed store, looking a subtask up by its own id finds
/// that very row.
pub proof fn lemma_subtask_lookup(db: Db, i: int)
    requires
        db.wf(),
        0 <= i < db.subtasks@.len(),
    ensures
        subtask_index_by_id(db.subtasks@, db.subtasks@[i].id) == i,
{
    let ss = db.subtasks@;
    let id = ss[i].id;
    assert(ss[i].id == id);
    let c = subtask_index_by_id(ss, id);
    assert(0 <= c < ss.len() && ss[c].id == id) by {
        assert(exists|k: int| 0 <= k < ss.len() && #[trigger] ss[k].id == id);
    }
    if c != i {
        if c < i {
            assert(ss[c].id != ss[i].id);
        } else {
            assert(ss[i].id != ss[c].id);
        }
        assert(false);
    }
}

/// Resolving the same project code twice returns the same row with the
/// same id both times, and the second resolution creates nothing.
pub proof fn lemma_get_project_idempotent(
    pre: Db,
    mid: Db,
    post: Db,
    r1: int,
    r2: int,
    code: Seq<char>,
)
    requires
        Db::project_resolution(pre, mid, r1, code),
        Db::project_resolution(mid, post, r2, code),
    ensures
        post == mid,
        r2 == r1,
        post.projects@[r2].id == mid.projects@[r1].id,
{
    assert(has_project_code(mid.projects@, code)) by {
        assert(0 <= r1 < mid.projects@.len() && mid.projects@[r1].code@ == code);
    }
    assert(post == mid);
    if r1 != r2 {
        let ps = post.projects@;
        assert(post.projects_wf());
        assert(0 <= r1 < ps.len());
        assert(0 <= r2 < ps.len());
        if r1 < r2 {
            assert(ps[r1].code@ != ps[r2].code@);
        } else {
            assert(ps[r2].code@ != ps[r1].code@);
        }
        assert(false);
    }
}

} // verus!
