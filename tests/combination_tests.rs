use wcet_paths::{get_all_sets, AnalysisError, Task, Trace};

fn task(id: &str, end: u32) -> Task {
    Task {
        id: id.to_string(),
        prio: 1,
        deadline: 1000,
        inter_arrival: 2000,
        trace: Trace { id: id.to_string(), start: 0, end, inner: vec![] },
    }
}

fn ends(set: &Vec<Task>) -> Vec<(String, u32)> {
    set.iter().map(|t| (t.id.clone(), t.trace.end)).collect()
}

#[test]
fn product_of_counts_combinations() {
    let tasks = vec![
        vec![task("a", 1), task("a", 2)],
        vec![task("b", 3), task("b", 4), task("b", 5)],
        vec![task("c", 6)],
    ];
    let sets = get_all_sets(&tasks).unwrap();
    assert_eq!(sets.len(), 6);
    for set in &sets {
        assert_eq!(set.len(), 3);
        for id in ["a", "b", "c"] {
            assert_eq!(set.iter().filter(|t| t.id == id).count(), 1);
        }
    }
    let mut seen: Vec<Vec<(String, u32)>> = sets.iter().map(ends).collect();
    seen.sort();
    seen.dedup();
    assert_eq!(seen.len(), 6);
}

#[test]
fn combination_order_follows_recursion() {
    let tasks = vec![vec![task("a", 1), task("a", 2)], vec![task("b", 3), task("b", 4)]];
    let sets = get_all_sets(&tasks).unwrap();
    let got: Vec<Vec<(String, u32)>> = sets.iter().map(ends).collect();
    let s = |id: &str, e: u32| (id.to_string(), e);
    assert_eq!(
        got,
        vec![
            vec![s("b", 3), s("a", 1)],
            vec![s("b", 4), s("a", 1)],
            vec![s("b", 3), s("a", 2)],
            vec![s("b", 4), s("a", 2)],
        ]
    );
}

#[test]
fn single_task_gives_singletons() {
    let alts = vec![task("a", 1), task("a", 2), task("a", 3)];
    let sets = get_all_sets(&[alts.clone()]).unwrap();
    assert_eq!(sets.len(), 3);
    for (set, alt) in sets.iter().zip(alts.iter()) {
        assert_eq!(set, &vec![alt.clone()]);
    }
}

#[test]
fn no_task_is_an_empty_space() {
    assert_eq!(get_all_sets(&[]), Err(AnalysisError::EmptyCombinationSpace));
}

#[test]
fn task_without_alternative_is_an_empty_space() {
    let tasks = vec![vec![task("a", 1)], vec![]];
    assert_eq!(get_all_sets(&tasks), Err(AnalysisError::EmptyCombinationSpace));
}
