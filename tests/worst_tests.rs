use wcet_paths::{cheap_clone, find_worst, get_all_sets, AnalysisError, Task, TaskResult, TasksResult, Trace};

fn task(id: &str, deadline: u32) -> Task {
    Task {
        id: id.to_string(),
        prio: 1,
        deadline,
        inter_arrival: 10000,
        trace: Trace { id: id.to_string(), start: 0, end: 50, inner: vec![] },
    }
}

fn result(t: &Task, response_time: Option<u32>, wcet: u32) -> TaskResult {
    TaskResult { task: t.clone(), response_time, wcet, blocking: 1, interference: 2 }
}

#[test]
fn two_tasks_end_to_end() {
    let a = task("A", 100);
    let b_fast = task("B", 90);
    let b_slow = task("B", 90);
    let sets = get_all_sets(&[vec![a.clone()], vec![b_fast.clone(), b_slow.clone()]]).unwrap();
    assert_eq!(sets.len(), 2);
    // the evaluation hands back one result per record, in the order of each combination
    let responses = [vec![80u32, 100], vec![130, 100]];
    let evaluated: Vec<TasksResult> = sets
        .iter()
        .zip(responses.iter())
        .map(|(set, rts)| {
            TasksResult(set.iter().zip(rts.iter()).map(|(t, rt)| result(t, Some(*rt), *rt / 2)).collect())
        })
        .collect();
    let worst = find_worst(evaluated).unwrap();
    assert_eq!(worst.0.len(), 2);
    let by_id = |id: &str| worst.0.iter().find(|r| r.task.id == id).unwrap();
    let ra = by_id("A");
    assert_eq!(ra.response_time, Some(100));
    assert!(ra.response_time.unwrap() <= ra.task.deadline);
    let rb = by_id("B");
    assert_eq!(rb.response_time, Some(130));
    assert_eq!(rb.wcet, 65);
    assert!(rb.response_time.unwrap() > rb.task.deadline);
    assert!(worst.0.iter().all(|r| r.response_time != Some(80)));
}

#[test]
fn worst_dominates_every_combination() {
    let t = task("T", 500);
    let u = task("U", 500);
    let rows = [[30u32, 7], [45, 3], [12, 9]];
    let list: Vec<TasksResult> =
        rows.iter().map(|r| TasksResult(vec![result(&t, Some(r[0]), 1), result(&u, Some(r[1]), 1)])).collect();
    let worst = find_worst(list).unwrap();
    assert_eq!(worst.0[0].response_time, Some(45));
    assert_eq!(worst.0[1].response_time, Some(9));
    for r in rows.iter() {
        assert!(worst.0[0].response_time.unwrap() >= r[0]);
        assert!(worst.0[1].response_time.unwrap() >= r[1]);
    }
}

#[test]
fn ties_keep_the_first_seen() {
    let t = task("T", 500);
    let list = vec![
        TasksResult(vec![result(&t, Some(40), 11)]),
        TasksResult(vec![result(&t, Some(40), 22)]),
    ];
    let worst = find_worst(list).unwrap();
    assert_eq!(worst.0[0].wcet, 11);
}

#[test]
fn selecting_again_changes_nothing() {
    let t = task("T", 500);
    let u = task("U", 500);
    let list = vec![
        TasksResult(vec![result(&t, Some(5), 1), result(&u, Some(70), 2)]),
        TasksResult(vec![result(&t, Some(9), 3), result(&u, Some(60), 4)]),
    ];
    let worst = find_worst(list).unwrap();
    let copy = TasksResult(worst.0.iter().map(cheap_clone).collect());
    let again = find_worst(vec![copy]).unwrap();
    assert_eq!(again, worst);
}

#[test]
fn no_combination_is_an_empty_space() {
    assert_eq!(find_worst(vec![]), Err(AnalysisError::EmptyCombinationSpace));
}

#[test]
fn uneven_combinations_are_rejected() {
    let t = task("T", 500);
    let list = vec![
        TasksResult(vec![result(&t, Some(5), 1), result(&t, Some(6), 1)]),
        TasksResult(vec![result(&t, Some(7), 1)]),
    ];
    assert_eq!(find_worst(list), Err(AnalysisError::InconsistentCombinationShape));
}

#[test]
fn missing_response_time_is_reported_where_it_is() {
    let t = task("T", 500);
    let list = vec![
        TasksResult(vec![result(&t, Some(5), 1), result(&t, Some(6), 1)]),
        TasksResult(vec![result(&t, Some(7), 1), result(&t, None, 1)]),
        TasksResult(vec![result(&t, None, 1), result(&t, Some(6), 1)]),
    ];
    assert_eq!(find_worst(list), Err(AnalysisError::UnresolvedResponseTime { combination: 1, slot: 1 }));
}

#[test]
fn cheap_clone_copies_every_field() {
    let t = task("T", 500);
    let r = TaskResult { task: t.clone(), response_time: Some(77), wcet: 5, blocking: 6, interference: 8 };
    assert_eq!(cheap_clone(&r), r);
}

#[test]
fn different_task_order_is_rejected() {
    let t = task("T", 500);
    let u = task("U", 500);
    let list = vec![
        TasksResult(vec![result(&t, Some(5), 1), result(&u, Some(6), 1)]),
        TasksResult(vec![result(&u, Some(7), 1), result(&t, Some(8), 1)]),
    ];
    assert_eq!(find_worst(list), Err(AnalysisError::InconsistentCombinationShape));
}
