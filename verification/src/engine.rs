//! The query/update engine: pure operations on the in-memory task
//! collection. Mutating operations change the collection only; persisting the
//! result is the caller's step, through the codec.

use vstd::prelude::*;
use crate::errors::StoreError;
use crate::num::parse_u8_str;
use crate::num::spec_parse_u8;
use crate::strutil::lower_of;
use crate::strutil::lowercase;
use crate::strutil::spec_contains;
use crate::strutil::str_contains;
use crate::strutil::str_eq;
use crate::task::views;
use crate::task::Task;
use crate::task::TaskView;

verus! {

/// The tasks whose project label equals `project`, in collection order.
pub open spec fn spec_find_by_project(ts: Seq<TaskView>, project: Seq<char>) -> Seq<TaskView> {
    ts.filter(|tv: TaskView| tv.project == project)
}

/// The tasks whose status label equals `status`, in collection order.
pub open spec fn spec_find_by_status(ts: Seq<TaskView>, status: Seq<char>) -> Seq<TaskView> {
    ts.filter(|tv: TaskView| tv.status == status)
}

/// The tasks whose priority equals `priority`, in collection order.
pub open spec fn spec_find_by_priority(ts: Seq<TaskView>, priority: u8) -> Seq<TaskView> {
    ts.filter(|tv: TaskView| tv.priority == priority)
}

/// Whether a task matches a free-text query already folded to lower case:
/// the folded title or the folded description contains it.
pub open spec fn task_matches(tv: TaskView, folded_query: Seq<char>) -> bool {
    spec_contains(lower_of(tv.title), folded_query) || spec_contains(
        lower_of(tv.description),
        folded_query,
    )
}

/// The tasks matching a free-text query, in collection order; the query is
/// folded to lower case first.
pub open spec fn spec_search(ts: Seq<TaskView>, query: Seq<char>) -> Seq<TaskView> {
    ts.filter(|tv: TaskView| task_matches(tv, lower_of(query)))
}

/// What removal leaves behind: every task whose title differs from `title`.
pub open spec fn spec_remove(ts: Seq<TaskView>, title: Seq<char>) -> Seq<TaskView> {
    ts.filter(|tv: TaskView| tv.title != title)
}

/// Whether some task in `ts` bears the given title.
pub open spec fn has_title(ts: Seq<TaskView>, title: Seq<char>) -> bool {
    exists|i: int| 0 <= i < ts.len() && ts[i].title == title
}

/// One task after an update: each supplied field replaced, each omitted
/// field kept; the title never changes.
pub open spec fn spec_update_fields(
    tv: TaskView,
    new_description: Option<&str>,
    new_priority: Option<u8>,
    new_status: Option<&str>,
    new_project: Option<&str>,
) -> TaskView {
    TaskView {
        title: tv.title,
        description: match new_description {
            Some(d) => d@,
            None => tv.description,
        },
        priority: match new_priority {
            Some(p) => p,
            None => tv.priority,
        },
        status: match new_status {
            Some(s) => s@,
            None => tv.status,
        },
        project: match new_project {
            Some(p) => p@,
            None => tv.project,
        },
    }
}

/// The priority an update will apply, if one was supplied and parses.
pub open spec fn parsed_priority(new_priority: Option<&str>) -> Option<u8> {
    match new_priority {
        Some(s) => spec_parse_u8(s@),
        None => None,
    }
}

/// Splitting a prefix of `s` one element later moves `s[i]` past the filter.
proof fn lemma_filter_take_step(s: Seq<TaskView>, pred: spec_fn(TaskView) -> bool, i: int)
    requires
        0 <= i < s.len(),
    ensures
        s.take(i + 1).filter(pred) == (if pred(s[i]) {
            s.take(i).filter(pred).push(s[i])
        } else {
            s.take(i).filter(pred)
        }),
{
    reveal(Seq::filter);
    assert(s.take(i + 1).drop_last() =~= s.take(i));
    assert(s.take(i + 1).last() == s[i]);
}

/// Appends `new_task` to the collection; duplicates are not rejected.
pub fn add_task(tasks: &mut Vec<Task>, new_task: Task)
    ensures
        final(tasks)@ == old(tasks)@.push(new_task),
        views(final(tasks)@) == views(old(tasks)@).push(new_task@),
{
    tasks.push(new_task);
    proof {
        assert(views(final(tasks)@) =~= views(old(tasks)@).push(final(tasks)@.last()@));
    }
}

/// Removes every task whose title equals `title`; removing an absent title
/// leaves the collection as it was.
pub fn remove_task(tasks: &mut Vec<Task>, title: &str)
    ensures
        views(final(tasks)@) == spec_remove(views(old(tasks)@), title@),
{
    let ghost m = views(old(tasks)@);
    let ghost pred = |tv: TaskView| tv.title != title@;
    let n = tasks.len();
    let mut kept: Vec<Task> = Vec::new();
    let mut i: usize = 0;
    while i < n
        invariant
            n == old(tasks)@.len(),
            tasks@ == old(tasks)@,
            m == views(old(tasks)@),
            pred == (|tv: TaskView| tv.title != title@),
            0 <= i <= n,
            views(kept@) == m.take(i as int).filter(pred),
        decreases n - i,
    {
        proof {
            assert(m[i as int] == tasks@[i as int]@);
            lemma_filter_take_step(m, pred, i as int);
        }
        if !str_eq(tasks[i].title.as_str(), title) {
            let t = tasks[i].clone();
            kept.push(t);
            proof {
                assert(views(kept@) =~= m.take(i + 1).filter(pred));
            }
        }
        i = i + 1;
    }
    proof {
        assert(m.take(n as int) =~= m);
    }
    *tasks = kept;
}

/// The full collection for display, in stored order.
pub fn list_tasks(tasks: &Vec<Task>) -> (r: Vec<Task>)
    ensures
        views(r@) == views(tasks@),
{
    let n = tasks.len();
    let mut out: Vec<Task> = Vec::new();
    let mut i: usize = 0;
    while i < n
        invariant
            n == tasks@.len(),
            0 <= i <= n,
            views(out@) == views(tasks@).take(i as int),
        decreases n - i,
    {
        let t = tasks[i].clone();
        let ghost tval = t@;
        let ghost prev = out@;
        proof {
            assert(tval == tasks@[i as int]@);
            assert(views(prev).len() == prev.len());
            assert(views(tasks@).len() == tasks@.len());
            assert(prev.len() == i);
        }
        out.push(t);
        proof {
            assert(out@ == prev.push(out@.last()));
            assert(out@.last()@ == tval);
            assert forall|k: int| 0 <= k < i + 1 implies views(out@)[k] == views(tasks@).take(
                i + 1,
            )[k] by {
                if k < i {
                    assert(views(out@)[k] == views(prev)[k]);
                    assert(views(prev)[k] == views(tasks@).take(i as int)[k]);
                } else {
                    assert(views(out@)[k] == out@.last()@);
                    assert(views(tasks@).take(i + 1)[k] == tasks@[k]@);
                }
            }
            assert(views(out@) =~= views(tasks@).take(i + 1));
        }
        i = i + 1;
    }
    proof {
        assert(views(tasks@).take(n as int) =~= views(tasks@));
    }
    out
}

/// The tasks whose project label equals `project`, exactly and
/// case-sensitively, in collection order.
pub fn find_by_project(tasks: &Vec<Task>, project: &str) -> (r: Vec<Task>)
    ensures
        views(r@) == spec_find_by_project(views(tasks@), project@),
{
    let ghost m = views(tasks@);
    let ghost pred = |tv: TaskView| tv.project == project@;
    let n = tasks.len();
    let mut out: Vec<Task> = Vec::new();
    let mut i: usize = 0;
    while i < n
        invariant
            n == tasks@.len(),
            m == views(tasks@),
            pred == (|tv: TaskView| tv.project == project@),
            0 <= i <= n,
            views(out@) == m.take(i as int).filter(pred),
        decreases n - i,
    {
        proof {
            assert(m[i as int] == tasks@[i as int]@);
            lemma_filter_take_step(m, pred, i as int);
        }
        if str_eq(tasks[i].project.as_str(), project) {
            let t = tasks[i].clone();
            out.push(t);
            proof {
                assert(views(out@) =~= m.take(i + 1).filter(pred));
            }
        }
        i = i + 1;
    }
    proof {
        assert(m.take(n as int) =~= m);
    }
    out
}

/// The tasks whose status label equals `status`, exactly and
/// case-sensitively, in collection order.
pub fn find_by_status(tasks: &Vec<Task>, status: &str) -> (r: Vec<Task>)
    ensures
        views(r@) == spec_find_by_status(views(tasks@), status@),
{
    let ghost m = views(tasks@);
    let ghost pred = |tv: TaskView| tv.status == status@;
    let n = tasks.len();
    let mut out: Vec<Task> = Vec::new();
    let mut i: usize = 0;
    while i < n
        invariant
            n == tasks@.len(),
            m == views(tasks@),
            pred == (|tv: TaskView| tv.status == status@),
            0 <= i <= n,
            views(out@) == m.take(i as int).filter(pred),
        decreases n - i,
    {
        proof {
            assert(m[i as int] == tasks@[i as int]@);
            lemma_filter_take_step(m, pred, i as int);
        }
        if str_eq(tasks[i].status.as_str(), status) {
            let t = tasks[i].clone();
            out.push(t);
            proof {
                assert(views(out@) =~= m.take(i + 1).filter(pred));
            }
        }
        i = i + 1;
    }
    proof {
        assert(m.take(n as int) =~= m);
    }
    out
}

/// The tasks whose priority equals `priority`, in collection order.
pub fn find_by_priority(tasks: &Vec<Task>, priority: u8) -> (r: Vec<Task>)
    ensures
        views(r@) == spec_find_by_priority(views(tasks@), priority),
{
    let ghost m = views(tasks@);
    let ghost pred = |tv: TaskView| tv.priority == priority;
    let n = tasks.len();
    let mut out: Vec<Task> = Vec::new();
    let mut i: usize = 0;
    while i < n
        invariant
            n == tasks@.len(),
            m == views(tasks@),
            pred == (|tv: TaskView| tv.priority == priority),
            0 <= i <= n,
            views(out@) == m.take(i as int).filter(pred),
        decreases n - i,
    {
        proof {
            assert(m[i as int] == tasks@[i as int]@);
            lemma_filter_take_step(m, pred, i as int);
        }
        if tasks[i].priority == priority {
            let t = tasks[i].clone();
            out.push(t);
            proof {
                assert(views(out@) =~= m.take(i + 1).filter(pred));
            }
        }
        i = i + 1;
    }
    proof {
        assert(m.take(n as int) =~= m);
    }
    out
}

/// The tasks whose folded title or description contains the folded query,
/// in collection order.
pub fn search_tasks(tasks: &Vec<Task>, query: &str) -> (r: Vec<Task>)
    ensures
        views(r@) == spec_search(views(tasks@), query@),
{
    let folded = lowercase(query);
    let ghost m = views(tasks@);
    let ghost pred = |tv: TaskView| task_matches(tv, lower_of(query@));
    let n = tasks.len();
    let mut out: Vec<Task> = Vec::new();
    let mut i: usize = 0;
    while i < n
        invariant
            n == tasks@.len(),
            m == views(tasks@),
            pred == (|tv: TaskView| task_matches(tv, lower_of(query@))),
            folded@ == lower_of(query@),
            0 <= i <= n,
            views(out@) == m.take(i as int).filter(pred),
        decreases n - i,
    {
        proof {
            assert(m[i as int] == tasks@[i as int]@);
            lemma_filter_take_step(m, pred, i as int);
        }
        let folded_title = lowercase(tasks[i].title.as_str());
        let folded_description = lowercase(tasks[i].description.as_str());
        if str_contains(folded_title.as_str(), folded.as_str()) || str_contains(
            folded_description.as_str(),
            folded.as_str(),
        ) {
            let t = tasks[i].clone();
            out.push(t);
            proof {
                assert(views(out@) =~= m.take(i + 1).filter(pred));
            }
        }
        i = i + 1;
    }
    proof {
        assert(m.take(n as int) =~= m);
    }
    out
}

/// The position of the first task bearing `title`, if any.
fn find_first_title(tasks: &Vec<Task>, title: &str) -> (r: Option<usize>)
    ensures
        match r {
            Some(i) => {
                &&& 0 <= i < tasks@.len()
                &&& views(tasks@)[i as int].title == title@
                &&& forall|j: int| 0 <= j < i ==> views(tasks@)[j].title != title@
            },
            None => !has_title(views(tasks@), title@),
        },
{
    let n = tasks.len();
    let mut i: usize = 0;
    while i < n
        invariant
            n == tasks@.len(),
            0 <= i <= n,
            forall|j: int| 0 <= j < i ==> views(tasks@)[j].title != title@,
        decreases n - i,
    {
        proof {
            assert(views(tasks@)[i as int] == tasks@[i as int]@);
        }
        if str_eq(tasks[i].title.as_str(), title) {
            return Some(i);
        }
        i = i + 1;
    }
    None
}

/// Updates the first task whose title equals `title`, replacing exactly the
/// supplied fields. With no matching task the collection is unchanged and
/// the result is `NotFoundError`; with a supplied priority that does not
/// parse as an unsigned 8-bit integer, the collection is unchanged and the
/// result is `ValidationError` — every supplied field is validated before
/// any is applied.
pub fn update_task(
    tasks: &mut Vec<Task>,
    title: &str,
    new_description: Option<&str>,
    new_priority: Option<&str>,
    new_status: Option<&str>,
    new_project: Option<&str>,
) -> (r: Result<(), StoreError>)
    ensures
        ({
            let m = views(old(tasks)@);
            match r {
                Ok(()) => exists|i: int|
                    {
                        &&& 0 <= i < m.len()
                        &&& m[i].title == title@
                        &&& (forall|j: int| 0 <= j < i ==> m[j].title != title@)
                        &&& views(final(tasks)@) == m.update(
                            i,
                            spec_update_fields(
                                m[i],
                                new_description,
                                parsed_priority(new_priority),
                                new_status,
                                new_project,
                            ),
                        )
                    },
                Err(e) => {
                    &&& final(tasks)@ == old(tasks)@
                    &&& (e == StoreError::NotFoundError || e == StoreError::ValidationError)
                    &&& (e == StoreError::NotFoundError <==> !has_title(m, title@))
                },
            }
        }),
        r is Ok <==> has_title(views(old(tasks)@), title@) && (match new_priority {
            Some(p) => spec_parse_u8(p@) is Some,
            None => true,
        }),
{
    let found = find_first_title(tasks, title);
    match found {
        None => Err(StoreError::NotFoundError),
        Some(i) => {
            let np: Option<u8> = match new_priority {
                Some(p) => match parse_u8_str(p) {
                    Some(v) => Some(v),
                    None => {
                        return Err(StoreError::ValidationError);
                    },
                },
                None => None,
            };
            if let Some(d) = new_description {
                tasks[i].description = d.to_owned();
            }
            if let Some(v) = np {
                tasks[i].priority = v;
            }
            if let Some(s) = new_status {
                tasks[i].status = s.to_owned();
            }
            if let Some(p) = new_project {
                tasks[i].project = p.to_owned();
            }
            proof {
                let m = views(old(tasks)@);
                let tv = spec_update_fields(
                    m[i as int],
                    new_description,
                    parsed_priority(new_priority),
                    new_status,
                    new_project,
                );
                assert(views(final(tasks)@) =~= m.update(i as int, tv));
            }
            Ok(())
        },
    }
}

} // verus!
