use vstd::prelude::*;

use crate::error::AnalysisError;
use crate::task::{Task, TaskModel};

verus! {

/// The mathematical form of an evaluation result.
pub ghost struct ResultModel {
    pub task: TaskModel,
    pub response_time: Option<u32>,
    pub wcet: u32,
    pub blocking: u32,
    pub interference: u32,
}

/// What the schedulability evaluation computed for one task of a combination.
#[derive(Debug, PartialEq, Eq)]
pub struct TaskResult {
    pub task: Task,
    pub response_time: Option<u32>,
    pub wcet: u32,
    pub blocking: u32,
    pub interference: u32,
}

impl View for TaskResult {
    type V = ResultModel;

    open spec fn view(&self) -> ResultModel {
        ResultModel {
            task: self.task@,
            response_time: self.response_time,
            wcet: self.wcet,
            blocking: self.blocking,
            interference: self.interference,
        }
    }
}

/// The results of one evaluated combination, one per task slot.
#[derive(Debug, PartialEq, Eq)]
pub struct TasksResult(pub Vec<TaskResult>);

impl View for TasksResult {
    type V = Seq<ResultModel>;

    open spec fn view(&self) -> Seq<ResultModel> {
        self.0@.map_values(|r: TaskResult| r@)
    }
}

/// The mathematical form of a list of evaluated combinations.
pub open spec fn results_view(list: Seq<TasksResult>) -> Seq<Seq<ResultModel>> {
    list.map_values(|r: TasksResult| r@)
}

/// The response time of a result; meaningful where it is set.
pub open spec fn response(r: ResultModel) -> u32 {
    r.response_time->Some_0
}

/// Every combination has as many slots as the first, and the same task, by
/// identifier, at each slot.
pub open spec fn same_shape(res: Seq<Seq<ResultModel>>) -> bool {
    &&& forall|c: int| 0 <= c < res.len() ==> (#[trigger] res[c]).len() == res[0].len()
    &&& forall|c: int, s: int|
        0 <= c < res.len() && 0 <= s < res[0].len() ==> (#[trigger] res[c][s]).task.id == res[0][s].task.id
}

/// Every slot of every combination has a response time.
pub open spec fn all_resolved(res: Seq<Seq<ResultModel>>) -> bool {
    forall|c: int, s: int|
        0 <= c < res.len() && 0 <= s < res[c].len() ==> (#[trigger] res[c][s]).response_time is Some
}

/// Slot `s` of combination `c` has no response time, and every slot before it,
/// taking combinations in order and slots in order within each, has one.
pub open spec fn is_first_unresolved(res: Seq<Seq<ResultModel>>, c: int, s: int) -> bool {
    &&& 0 <= c < res.len()
    &&& 0 <= s < res[c].len()
    &&& res[c][s].response_time is None
    &&& forall|c2: int, s2: int|
        0 <= c2 < res.len() && 0 <= s2 < res[c2].len() && (c2 < c || (c2 == c && s2 < s))
            ==> (#[trigger] res[c2][s2]).response_time is Some
}

/// Combination `w` has the greatest response time at slot `s`, and no earlier
/// combination has one as great.
pub open spec fn is_first_worst(res: Seq<Seq<ResultModel>>, s: int, w: int) -> bool {
    &&& 0 <= w < res.len()
    &&& forall|c: int| 0 <= c < res.len() ==> response(#[trigger] res[c][s]) <= response(res[w][s])
    &&& forall|c: int| 0 <= c < w ==> response(#[trigger] res[c][s]) < response(res[w][s])
}

/// The first combination with the greatest response time at slot `s`.
pub open spec fn worst_of(res: Seq<Seq<ResultModel>>, s: int) -> int {
    choose|w: int| is_first_worst(res, s, w)
}

/// For each slot, the result of the first combination with the greatest
/// response time at that slot.
pub open spec fn worst_report(res: Seq<Seq<ResultModel>>) -> Seq<ResultModel> {
    Seq::new(res[0].len(), |s: int| res[worst_of(res, s)][s])
}

/// `report` is the worst-case report of `res`: a slot-by-slot pick of a
/// combination with the greatest response time, the first one on ties.
pub open spec fn is_worst_report(res: Seq<Seq<ResultModel>>, report: Seq<ResultModel>) -> bool {
    &&& res.len() > 0
    &&& report == worst_report(res)
    &&& forall|s: int| 0 <= s < res[0].len() ==> is_first_worst(res, s, #[trigger] worst_of(res, s))
}

proof fn lemma_first_worst_unique(res: Seq<Seq<ResultModel>>, s: int, w1: int, w2: int)
    requires
        is_first_worst(res, s, w1),
        is_first_worst(res, s, w2),
    ensures
        w1 == w2,
{
    if w1 < w2 {
        assert(response(res[w1][s]) < response(res[w2][s]));
        assert(response(res[w2][s]) <= response(res[w1][s]));
    } else if w2 < w1 {
        assert(response(res[w2][s]) < response(res[w1][s]));
        assert(response(res[w1][s]) <= response(res[w2][s]));
    }
}

/// A copy of one evaluation result.
pub fn cheap_clone(input: &TaskResult) -> (r: TaskResult)
    ensures
        r@ == input@,
{
    TaskResult {
        task: input.task.clone(),
        response_time: input.response_time,
        wcet: input.wcet,
        blocking: input.blocking,
        interference: input.interference,
    }
}

/// Reduces the evaluated combinations to one result per task slot: the result
/// with the greatest response time at that slot, the first one on ties.
///
/// Fails with `EmptyCombinationSpace` when there is no combination, with
/// `InconsistentCombinationShape` when the combinations differ in length or
/// in the task at some slot, and
/// otherwise with `UnresolvedResponseTime` at the first slot without a
/// response time.
pub fn find_worst(list_of_task_results: Vec<TasksResult>) -> (r: Result<TasksResult, AnalysisError>)
    ensures
        ({
            let res = results_view(list_of_task_results@);
            match r {
                Ok(report) => {
                    &&& same_shape(res)
                    &&& all_resolved(res)
                    &&& is_worst_report(res, report@)
                },
                Err(AnalysisError::EmptyCombinationSpace) => res.len() == 0,
                Err(AnalysisError::InconsistentCombinationShape) => res.len() > 0 && !same_shape(res),
                Err(AnalysisError::UnresolvedResponseTime { combination, slot }) => {
                    &&& res.len() > 0
                    &&& same_shape(res)
                    &&& is_first_unresolved(res, combination as int, slot as int)
                },
                Err(AnalysisError::MalformedEventSequence) => false,
            }
        }),
{
    let ghost res = results_view(list_of_task_results@);
    let n = list_of_task_results.len();
    if n == 0 {
        return Err(AnalysisError::EmptyCombinationSpace);
    }
    let width = list_of_task_results[0].0.len();
    let first = &list_of_task_results[0].0;
    let mut c: usize = 0;
    while c < n
        invariant
            n == list_of_task_results@.len() > 0,
            res == results_view(list_of_task_results@),
            width == res[0].len(),
            first@ == list_of_task_results@[0].0@,
            c <= n,
            forall|k: int| 0 <= k < c ==> (#[trigger] res[k]).len() == width,
            forall|k: int, s: int|
                0 <= k < c && 0 <= s < width ==> (#[trigger] res[k][s]).task.id == res[0][s].task.id,
        decreases n - c,
    {
        let row = &list_of_task_results[c].0;
        if row.len() != width {
            proof {
                assert(res[c as int].len() != res[0].len());
                assert(!same_shape(res));
            }
            return Err(AnalysisError::InconsistentCombinationShape);
        }
        let mut s: usize = 0;
        while s < width
            invariant
                n == list_of_task_results@.len() > 0,
                res == results_view(list_of_task_results@),
                width == res[0].len(),
                first@ == list_of_task_results@[0].0@,
                c < n,
                row@ == list_of_task_results@[c as int].0@,
                row@.len() == width,
                s <= width,
                forall|s2: int| 0 <= s2 < s ==> (#[trigger] res[c as int][s2]).task.id == res[0][s2].task.id,
            decreases width - s,
        {
            assert(res[c as int][s as int] == row@[s as int]@);
            assert(res[0][s as int] == first@[s as int]@);
            if row[s].task.id != first[s].task.id {
                proof {
                    assert(!same_shape(res));
                }
                return Err(AnalysisError::InconsistentCombinationShape);
            }
            s += 1;
        }
        c += 1;
    }
    assert(same_shape(res));
    let mut c: usize = 0;
    while c < n
        invariant
            n == list_of_task_results@.len() > 0,
            res == results_view(list_of_task_results@),
            width == res[0].len(),
            same_shape(res),
            c <= n,
            forall|c2: int, s2: int|
                0 <= c2 < c && 0 <= s2 < res[c2].len() ==> (#[trigger] res[c2][s2]).response_time is Some,
        decreases n - c,
    {
        let row = &list_of_task_results[c].0;
        let mut s: usize = 0;
        while s < width
            invariant
                n == list_of_task_results@.len() > 0,
                res == results_view(list_of_task_results@),
                width == res[0].len(),
                same_shape(res),
                c < n,
                row@ == list_of_task_results@[c as int].0@,
                s <= width,
                forall|c2: int, s2: int|
                    0 <= c2 < c && 0 <= s2 < res[c2].len() ==> (#[trigger] res[c2][s2]).response_time is Some,
                forall|s2: int| 0 <= s2 < s ==> (#[trigger] res[c as int][s2]).response_time is Some,
            decreases width - s,
        {
            assert(res[c as int].len() == width);
            assert(res[c as int][s as int] == row@[s as int]@);
            if row[s].response_time.is_none() {
                proof {
                    assert(is_first_unresolved(res, c as int, s as int));
                }
                return Err(AnalysisError::UnresolvedResponseTime { combination: c, slot: s });
            }
            s += 1;
        }
        c += 1;
    }
    let mut worst: Vec<TaskResult> = Vec::new();
    let ghost mut picks: Seq<int> = Seq::empty();
    let mut s: usize = 0;
    while s < width
        invariant
            n == list_of_task_results@.len() > 0,
            res == results_view(list_of_task_results@),
            width == res[0].len(),
            same_shape(res),
            all_resolved(res),
            s <= width,
            worst@.len() == s,
            picks.len() == s,
            forall|s2: int|
                0 <= s2 < s ==> is_first_worst(res, s2, #[trigger] picks[s2]) && worst@[s2]@ == res[picks[s2]][s2],
        decreases width - s,
    {
        assert(res[0].len() == width);
        let mut w: usize = 0;
        let mut best: u32 = match list_of_task_results[0].0[s].response_time {
            Some(v) => v,
            None => 0,
        };
        assert(res[0][s as int] == list_of_task_results@[0].0@[s as int]@);
        let mut c: usize = 1;
        while c < n
            invariant
                n == list_of_task_results@.len() > 0,
                res == results_view(list_of_task_results@),
                width == res[0].len(),
                same_shape(res),
                all_resolved(res),
                s < width,
                1 <= c <= n,
                w < c,
                best == response(res[w as int][s as int]),
                forall|k: int| 0 <= k < c ==> response(#[trigger] res[k][s as int]) <= best,
                forall|k: int| 0 <= k < w ==> response(#[trigger] res[k][s as int]) < best,
            decreases n - c,
        {
            assert(res[c as int].len() == width);
            assert(res[c as int][s as int] == list_of_task_results@[c as int].0@[s as int]@);
            let here = match list_of_task_results[c].0[s].response_time {
                Some(v) => v,
                None => 0,
            };
            if best < here {
                w = c;
                best = here;
            }
            c += 1;
        }
        assert(res[w as int].len() == width);
        assert(res[w as int][s as int] == list_of_task_results@[w as int].0@[s as int]@);
        let picked = cheap_clone(&list_of_task_results[w].0[s]);
        let ghost before = worst@;
        worst.push(picked);
        proof {
            picks = picks.push(w as int);
            assert(is_first_worst(res, s as int, w as int));
            assert forall|s2: int| 0 <= s2 < s + 1 implies is_first_worst(res, s2, #[trigger] picks[s2])
                && worst@[s2]@ == res[picks[s2]][s2] by {
                if s2 < s {
                    assert(worst@[s2] == before[s2]);
                }
            }
        }
        s += 1;
    }
    let report = TasksResult(worst);
    proof {
        assert(all_resolved(res));
        assert forall|s2: int| 0 <= s2 < res[0].len() implies is_first_worst(
            res,
            s2,
            #[trigger] worst_of(res, s2),
        ) && report@[s2] == res[worst_of(res, s2)][s2] by {
            let w = picks[s2];
            assert(is_first_worst(res, s2, w));
            lemma_first_worst_unique(res, s2, w, worst_of(res, s2));
            assert(report@[s2] == worst@[s2]@);
        }
        assert(report@ =~= worst_report(res));
    }
    Ok(report)
}

/// The selected result at each slot has a response time at least that of every
/// combination at that slot, and is itself the result of one of them: the
/// maximum of a finite set.
pub proof fn lemma_worst_dominates(res: Seq<Seq<ResultModel>>, report: Seq<ResultModel>)
    requires
        is_worst_report(res, report),
    ensures
        report.len() == res[0].len(),
        forall|s: int, c: int|
            0 <= s < report.len() && 0 <= c < res.len() ==> response(#[trigger] res[c][s]) <= response(
                report[s],
            ),
        forall|s: int|
            0 <= s < report.len() ==> 0 <= #[trigger] worst_of(res, s) < res.len() && report[s] == res[worst_of(
                res,
                s,
            )][s],
{
    assert forall|s: int, c: int| 0 <= s < report.len() && 0 <= c < res.len() implies response(
        #[trigger] res[c][s],
    ) <= response(report[s]) by {
        let w = worst_of(res, s);
        assert(is_first_worst(res, s, w));
        assert(report[s] == res[w][s]);
    }
    assert forall|s: int| 0 <= s < report.len() implies 0 <= #[trigger] worst_of(res, s) < res.len() && report[s]
        == res[worst_of(res, s)][s] by {
        assert(is_first_worst(res, s, worst_of(res, s)));
    }
}

/// Selecting again over the report alone, as a single combination, gives the
/// same report.
pub proof fn lemma_worst_idempotent(
    res: Seq<Seq<ResultModel>>,
    report: Seq<ResultModel>,
    again: Seq<ResultModel>,
)
    requires
        is_worst_report(res, report),
        is_worst_report(seq![report], again),
    ensures
        again == report,
{
    let single = seq![report];
    assert forall|s: int| 0 <= s < again.len() implies again[s] == report[s] by {
        let w = worst_of(single, s);
        assert(is_first_worst(single, s, w));
        assert(w == 0);
    }
    assert(again =~= report);
}

} // verus!
