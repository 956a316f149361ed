//! Worst-case timing analysis over alternative execution paths of a task set.
//!
//! The library rebuilds nested critical sections from recorded lock/unlock
//! events, enumerates every way of choosing one execution path per task, and
//! reduces the evaluated combinations to a worst case per task.
mod combine;
mod error;
mod irq;
mod task;
mod trace;
mod worst;

pub use combine::{
    all_sets, cross, get_all_sets, has_empty, lemma_one_record_per_task, lemma_product_size,
    lemma_single_task, product_of_counts, sets_view,
};
pub use error::AnalysisError;
pub use irq::{interrupt_of, interrupts_below, irq_from_bit_vector, RP2040Interrupts};
pub use task::{
    create_task, get_task_list, is_input_task, tasks_view, InputTask, PathResult, Task, TaskModel,
};
pub use trace::{
    events_of, flatten, flatten_all, lemma_nesting_round_trip, lemma_reconstruct_nested, make_trace,
    nest, nestable, nested_within, next_with_label, ordered_within, reconstruct, views_of, Interval,
    Lap, Trace,
};
pub use worst::{
    all_resolved, cheap_clone, find_worst, is_first_unresolved, is_first_worst, is_worst_report,
    lemma_worst_dominates, lemma_worst_idempotent, response, results_view, same_shape, worst_of,
    worst_report, ResultModel, TaskResult, TasksResult,
};
