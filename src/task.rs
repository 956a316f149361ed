use vstd::prelude::*;

use crate::error::AnalysisError;
use crate::trace::{events_of, make_trace, reconstruct, Interval, Lap, Trace};

verus! {

/// A task as the analysis is told of it: its name, the interrupt that starts
/// it, its priority, its deadline and its minimum inter-arrival time.
#[derive(Debug, PartialEq, Eq)]
pub struct InputTask {
    pub name: String,
    pub interrupt: String,
    pub priority: u32,
    pub deadline: u32,
    pub interarival: u32,
}

/// What one explored execution path of a task yields: the largest cycle count
/// reached and the lock/unlock events recorded along the way, in order.
#[derive(Debug, PartialEq, Eq)]
pub struct PathResult {
    pub max_cycles: u32,
    pub cycle_laps: Vec<Lap>,
}

/// The mathematical form of a task record.
pub ghost struct TaskModel {
    pub id: Seq<char>,
    pub prio: u8,
    pub deadline: u32,
    pub inter_arrival: u32,
    pub trace: Interval,
}

/// A task record for one execution path: static data and the critical
/// sections reconstructed from that path.
#[derive(Debug, PartialEq, Eq)]
pub struct Task {
    pub id: String,
    pub prio: u8,
    pub deadline: u32,
    pub inter_arrival: u32,
    pub trace: Trace,
}

impl View for Task {
    type V = TaskModel;

    open spec fn view(&self) -> TaskModel {
        TaskModel {
            id: self.id@,
            prio: self.prio,
            deadline: self.deadline,
            inter_arrival: self.inter_arrival,
            trace: self.trace@,
        }
    }
}

impl Clone for Task {
    fn clone(&self) -> (r: Task)
        ensures
            r@ == self@,
    {
        Task {
            id: self.id.clone(),
            prio: self.prio,
            deadline: self.deadline,
            inter_arrival: self.inter_arrival,
            trace: self.trace.clone(),
        }
    }
}

/// The mathematical form of a sequence of task records.
pub open spec fn tasks_view(ts: Seq<Task>) -> Seq<TaskModel> {
    ts.map_values(|t: Task| t@)
}

/// Builds the record of `task` for one of its execution paths: the trace spans
/// cycle 0 to the path's largest cycle count and is named after the task.
/// Priorities are small: they must fit in a byte.
pub fn create_task(symex_result: &PathResult, task: &InputTask) -> (r: Result<Task, AnalysisError>)
    requires
        task.priority <= 255,
    ensures
        match r {
            Ok(t) => {
                &&& t.id@ == task.name@
                &&& t.prio as u32 == task.priority
                &&& t.deadline == task.deadline
                &&& t.inter_arrival == task.interarival
                &&& reconstruct(0, symex_result.max_cycles, events_of(symex_result.cycle_laps@), task.name@)
                    == Some(t.trace@)
            },
            Err(e) => {
                &&& reconstruct(0, symex_result.max_cycles, events_of(symex_result.cycle_laps@), task.name@)
                    is None
                &&& e == AnalysisError::MalformedEventSequence
            },
        },
{
    let trace = match make_trace(
        0,
        symex_result.max_cycles,
        symex_result.cycle_laps.as_slice(),
        task.name.clone(),
    ) {
        Ok(t) => t,
        Err(e) => {
            return Err(e);
        },
    };
    Ok(
        Task {
            id: task.name.clone(),
            prio: task.priority as u8,
            deadline: task.deadline,
            inter_arrival: task.interarival,
            trace,
        },
    )
}

/// Whether `t` holds exactly the given name, interrupt and timing data.
pub open spec fn is_input_task(
    t: InputTask,
    name: Seq<char>,
    interrupt: Seq<char>,
    priority: u32,
    deadline: u32,
    interarival: u32,
) -> bool {
    &&& t.name@ == name
    &&& t.interrupt@ == interrupt
    &&& t.priority == priority
    &&& t.deadline == deadline
    &&& t.interarival == interarival
}

/// The task table of the analysed application.
pub fn get_task_list() -> (r: Vec<InputTask>)
    ensures
        r@.len() == 4,
        is_input_task(r@[0], "button_handler"@, "IO_IRQ_BANK0"@, 2, 125000, 125000),
        is_input_task(r@[1], "debounce_button"@, "TIMER_IRQ_1"@, 3, 1230000, 37500000),
        is_input_task(r@[2], "alarm0_handler"@, "TIMER_IRQ_0"@, 1, 1250000, 62500000),
        is_input_task(r@[3], "alarm2_handler"@, "TIMER_IRQ_2"@, 4, 125000, 125000000),
{
    let mut list: Vec<InputTask> = Vec::new();
    list.push(
        InputTask {
            name: "button_handler".to_owned(),
            interrupt: "IO_IRQ_BANK0".to_owned(),
            priority: 2,
            deadline: 125000,
            interarival: 125000,
        },
    );
    list.push(
        InputTask {
            name: "debounce_button".to_owned(),
            interrupt: "TIMER_IRQ_1".to_owned(),
            priority: 3,
            deadline: 1230000,
            interarival: 37500000,
        },
    );
    list.push(
        InputTask {
            name: "alarm0_handler".to_owned(),
            interrupt: "TIMER_IRQ_0".to_owned(),
            priority: 1,
            interarival: 62500000,
            deadline: 1250000,
        },
    );
    list.push(
        InputTask {
            name: "alarm2_handler".to_owned(),
            interrupt: "TIMER_IRQ_2".to_owned(),
            priority: 4,
            interarival: 125000000,
            deadline: 125000,
        },
    );
    list
}

} // verus!
