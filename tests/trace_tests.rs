use wcet_paths::{create_task, make_trace, AnalysisError, InputTask, Lap, PathResult, Trace};

fn lap(cycle: u32, label: &str) -> Lap {
    (cycle, label.to_string())
}

fn leaf(id: &str, start: u32, end: u32) -> Trace {
    Trace { id: id.to_string(), start, end, inner: vec![] }
}

#[test]
fn empty_event_list_gives_bare_root() {
    let t = make_trace(0, 500, &[], "task".to_string()).unwrap();
    assert_eq!(t, leaf("task", 0, 500));
}

#[test]
fn nested_intervals_are_rebuilt() {
    let laps = vec![lap(10, "A"), lap(20, "B"), lap(30, "B"), lap(40, "A"), lap(50, "C"), lap(60, "C")];
    let t = make_trace(0, 100, &laps, "root".to_string()).unwrap();
    let expected = Trace {
        id: "root".to_string(),
        start: 0,
        end: 100,
        inner: vec![
            Trace { id: "A".to_string(), start: 10, end: 40, inner: vec![leaf("B", 20, 30)] },
            leaf("C", 50, 60),
        ],
    };
    assert_eq!(t, expected);
}

#[test]
fn siblings_may_share_a_label() {
    let laps = vec![lap(1, "X"), lap(2, "X"), lap(3, "X"), lap(4, "X")];
    let t = make_trace(0, 9, &laps, "r".to_string()).unwrap();
    assert_eq!(t.inner, vec![leaf("X", 1, 2), leaf("X", 3, 4)]);
}

#[test]
fn flattened_tree_round_trips() {
    let tree = Trace {
        id: "t".to_string(),
        start: 0,
        end: 1000,
        inner: vec![
            Trace {
                id: "a".to_string(),
                start: 5,
                end: 500,
                inner: vec![leaf("b", 10, 20), Trace { id: "c".to_string(), start: 30, end: 90, inner: vec![leaf("d", 40, 50)] }],
            },
            leaf("a", 600, 700),
        ],
    };
    let laps = vec![
        lap(5, "a"),
        lap(10, "b"),
        lap(20, "b"),
        lap(30, "c"),
        lap(40, "d"),
        lap(50, "d"),
        lap(90, "c"),
        lap(500, "a"),
        lap(600, "a"),
        lap(700, "a"),
    ];
    let rebuilt = make_trace(0, 1000, &laps, "t".to_string()).unwrap();
    assert_eq!(rebuilt, tree);
}

#[test]
fn unmatched_labels_are_malformed() {
    let laps = vec![lap(10, "X"), lap(20, "Y")];
    assert_eq!(make_trace(0, 100, &laps, "task".to_string()), Err(AnalysisError::MalformedEventSequence));
}

#[test]
fn unclosed_inner_interval_is_malformed() {
    let laps = vec![lap(10, "A"), lap(20, "B"), lap(30, "A")];
    assert_eq!(make_trace(0, 100, &laps, "task".to_string()), Err(AnalysisError::MalformedEventSequence));
}

#[test]
fn odd_event_count_is_malformed() {
    let laps = vec![lap(10, "A"), lap(20, "A"), lap(30, "A")];
    assert_eq!(make_trace(0, 100, &laps, "task".to_string()), Err(AnalysisError::MalformedEventSequence));
}

#[test]
fn trace_clone_is_deep() {
    let laps = vec![lap(1, "A"), lap(2, "B"), lap(3, "B"), lap(4, "A")];
    let t = make_trace(0, 9, &laps, "r".to_string()).unwrap();
    assert_eq!(t.clone(), t);
}

fn input(name: &str, priority: u32) -> InputTask {
    InputTask { name: name.to_string(), interrupt: "TIMER_IRQ_0".to_string(), priority, deadline: 700, interarival: 900 }
}

#[test]
fn task_record_copies_static_data() {
    let path = PathResult { max_cycles: 321, cycle_laps: vec![lap(10, "L"), lap(20, "L")] };
    let t = create_task(&path, &input("worker", 3)).unwrap();
    assert_eq!(t.id, "worker");
    assert_eq!(t.prio, 3);
    assert_eq!(t.deadline, 700);
    assert_eq!(t.inter_arrival, 900);
    assert_eq!(t.trace, Trace { id: "worker".to_string(), start: 0, end: 321, inner: vec![leaf("L", 10, 20)] });
}

#[test]
fn task_record_keeps_largest_priority() {
    let path = PathResult { max_cycles: 5, cycle_laps: vec![] };
    let t = create_task(&path, &input("w", 255)).unwrap();
    assert_eq!(t.prio, 255);
}

#[test]
fn task_record_fails_on_malformed_path() {
    let path = PathResult { max_cycles: 5, cycle_laps: vec![lap(1, "L")] };
    assert_eq!(create_task(&path, &input("w", 1)), Err(AnalysisError::MalformedEventSequence));
}

fn assert_nested(ts: &[Trace], lo: u32, hi: u32) {
    for (i, t) in ts.iter().enumerate() {
        assert!(lo <= t.start && t.start <= t.end && t.end <= hi);
        assert_nested(&t.inner, t.start, t.end);
        if let Some(next) = ts.get(i + 1) {
            assert!(t.end <= next.start);
        }
    }
}

#[test]
fn ordered_events_give_properly_nested_tree() {
    let laps = vec![
        lap(3, "a"),
        lap(4, "b"),
        lap(4, "c"),
        lap(8, "c"),
        lap(9, "b"),
        lap(9, "a"),
        lap(12, "d"),
        lap(15, "d"),
    ];
    let t = make_trace(0, 20, &laps, "r".to_string()).unwrap();
    assert_eq!(t.inner.len(), 2);
    assert_eq!(t.inner[0].inner[0].inner[0], leaf("c", 4, 8));
    assert_nested(&t.inner, 0, 20);
}
