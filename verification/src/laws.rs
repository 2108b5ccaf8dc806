//! The laws of the library: properties that relate several operations,
//! stated over the same spec functions the operations' own contracts use.

use vstd::prelude::*;
use crate::engine::has_title;
use crate::engine::spec_find_by_priority;
use crate::engine::spec_find_by_project;
use crate::engine::spec_find_by_status;
use crate::engine::spec_remove;
use crate::engine::spec_search;
use crate::engine::spec_update_fields;
use crate::task::TaskView;

verus! {

/// Repeating a query, or listing, without an intervening mutation yields
/// the same result: each outcome is a function of the collection and the
/// query alone.
pub proof fn lemma_queries_idempotent(
    ts: Seq<TaskView>,
    project: Seq<char>,
    status: Seq<char>,
    priority: u8,
    query: Seq<char>,
    first: Seq<TaskView>,
    second: Seq<TaskView>,
)
    ensures
        first == spec_find_by_project(ts, project) && second == spec_find_by_project(ts, project)
            ==> first == second,
        first == spec_find_by_status(ts, status) && second == spec_find_by_status(ts, status)
            ==> first == second,
        first == spec_find_by_priority(ts, priority) && second == spec_find_by_priority(
            ts,
            priority,
        ) ==> first == second,
        first == spec_search(ts, query) && second == spec_search(ts, query) ==> first == second,
        first == ts && second == ts ==> first == second,
{
}

/// A task just added is found when its own project is queried, and it comes
/// last among the matches.
pub proof fn lemma_add_then_find_by_project(ts: Seq<TaskView>, tv: TaskView)
    ensures
        spec_find_by_project(ts.push(tv), tv.project).contains(tv),
        spec_find_by_project(ts.push(tv), tv.project).last() == tv,
{
    reveal(Seq::filter);
    let pred = |x: TaskView| x.project == tv.project;
    let p = ts.push(tv);
    assert(p.drop_last() =~= ts);
    assert(p.last() == tv);
    assert(spec_find_by_project(p, tv.project) == ts.filter(pred).push(tv));
}

/// Removing a title that no task bears leaves the collection exactly as it
/// was.
pub proof fn lemma_remove_absent_title(ts: Seq<TaskView>, title: Seq<char>)
    requires
        !has_title(ts, title),
    ensures
        spec_remove(ts, title) == ts,
    decreases ts.len(),
{
    reveal(Seq::filter);
    let pred = |tv: TaskView| tv.title != title;
    if ts.len() == 0 {
        assert(ts.filter(pred) =~= ts);
    } else {
        assert(forall|i: int| 0 <= i < ts.len() ==> ts[i].title != title) by {
            assert forall|i: int| 0 <= i < ts.len() implies ts[i].title != title by {
                if ts[i].title == title {
                    assert(has_title(ts, title));
                }
            }
        }
        assert(!has_title(ts.drop_last(), title)) by {
            if has_title(ts.drop_last(), title) {
                let i = choose|i: int|
                    0 <= i < ts.drop_last().len() && ts.drop_last()[i].title == title;
                assert(ts[i].title == title);
            }
        }
        lemma_remove_absent_title(ts.drop_last(), title);
        assert(pred(ts.last()));
        assert(ts.filter(pred) == ts.drop_last().filter(pred).push(ts.last()));
        assert(ts.drop_last().push(ts.last()) =~= ts);
    }
}

/// An update that supplies only a new description changes the description
/// alone: the title, priority, status and project all keep their values.
pub proof fn lemma_update_description_only(tv: TaskView, d: &str)
    ensures
        ({
            let u = spec_update_fields(tv, Some(d), None, None, None);
            &&& u.description == d@
            &&& u.title == tv.title
            &&& u.priority == tv.priority
            &&& u.status == tv.status
            &&& u.project == tv.project
        }),
{
}

/// A priority query returns exactly the tasks bearing that priority: every
/// returned task bears it, and every task bearing it is returned.
pub proof fn lemma_find_by_priority_exact(ts: Seq<TaskView>, priority: u8)
    ensures
        forall|i: int|
            0 <= i < spec_find_by_priority(ts, priority).len() ==> #[trigger] spec_find_by_priority(
                ts,
                priority,
            )[i].priority == priority,
        forall|i: int|
            0 <= i < ts.len() && ts[i].priority == priority ==> spec_find_by_priority(
                ts,
                priority,
            ).contains(#[trigger] ts[i]),
{
    broadcast use vstd::seq_lib::group_filter_ensures;

}

} // verus!
