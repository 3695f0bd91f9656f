use scheduler::Algorithm;
use scheduler::State;
use scheduler::Task;
use scheduler::TaskResult;
use scheduler::add_task;
use scheduler::create_queue_list;
use scheduler::dispatced_queue_id;
use scheduler::fetch_new_tasks;
use scheduler::run_simulator;

fn mlfq_setup() -> (Vec<Algorithm>, Vec<Task>) {
    let algorithms = vec![Algorithm::RoundRobin(2, true); 2];
    let tasks = vec![
        Task::new("A", 0, 4, 0),
        Task::new("B", 1, 8, 1),
        Task::new("C", 5, 6, 1),
        Task::new("D", 3, 2, 0),
    ];
    (algorithms, tasks)
}

// One result per input task, and the same names come out that went in.
#[test]
fn conservation_test() {
    let (algorithms, tasks) = mlfq_setup();
    let n = tasks.len();
    let mut names_in: Vec<&str> = tasks.iter().map(|t| t.name).collect();
    let results = run_simulator(create_queue_list(algorithms), tasks);
    assert_eq!(results.len(), n);
    let mut names_out: Vec<&str> = results.iter().map(|r| r.name).collect();
    names_in.sort();
    names_out.sort();
    assert_eq!(names_in, names_out);
}

// No task finishes before doing its whole cost after arriving, and the
// turnaround is exactly finish minus arrival.
#[test]
fn monotonic_time_test() {
    let (algorithms, tasks) = mlfq_setup();
    let results = run_simulator(create_queue_list(algorithms), tasks);
    for r in results.iter() {
        assert!(r.finish >= r.arrive + r.cost);
        assert_eq!(r.turnaround, r.finish - r.arrive);
    }
}

// Running the same configuration twice returns identical result lists.
#[test]
fn replay_test() {
    let (algorithms1, tasks1) = mlfq_setup();
    let (algorithms2, tasks2) = mlfq_setup();
    let first = run_simulator(create_queue_list(algorithms1), tasks1);
    let second = run_simulator(create_queue_list(algorithms2), tasks2);
    assert_eq!(first, second);
}

// No tasks, no results.
#[test]
fn empty_tasks_test() {
    let queue_list = create_queue_list(vec![Algorithm::ArrivalOrder]);
    let results = run_simulator(queue_list, Vec::new());
    assert!(results.is_empty());
}

// Tasks arriving on the same tick enter the queue in construction order.
#[test]
fn equal_arrival_test() {
    let queue_list = create_queue_list(vec![Algorithm::ArrivalOrder]);
    let tasks = vec![Task::new("A", 0, 2, 0), Task::new("B", 0, 2, 0)];
    let results = run_simulator(queue_list, tasks);
    let expected = vec![
        TaskResult::new(Task::new("A", 0, 2, 0), 2),
        TaskResult::new(Task::new("B", 0, 2, 0), 4),
    ];
    assert_eq!(results, expected);
}

// The shortest-processing-time pass never compares the first two queue
// slots: a cheap task inserted behind a single expensive one stays behind
// it, a quirk kept for compatibility.
#[test]
fn spt_boundary_test() {
    let queue_list = create_queue_list(vec![Algorithm::ProcessingTimeOrder]);
    let tasks = vec![
        Task::new("A", 0, 1, 0),
        Task::new("B", 0, 9, 0),
        Task::new("C", 1, 1, 0),
    ];
    let results = run_simulator(queue_list, tasks);
    let expected = vec![
        TaskResult::new(Task::new("A", 0, 1, 0), 1),
        TaskResult::new(Task::new("B", 0, 9, 0), 10),
        TaskResult::new(Task::new("C", 1, 1, 0), 11),
    ];
    assert_eq!(results, expected);
}

// A quantum larger than every cost makes round-robin run to completion.
#[test]
fn rr_quantum_exceeds_cost_test() {
    let queue_list = create_queue_list(vec![Algorithm::RoundRobin(10, false)]);
    let tasks = vec![Task::new("A", 0, 3, 0), Task::new("B", 0, 2, 0)];
    let results = run_simulator(queue_list, tasks);
    let expected = vec![
        TaskResult::new(Task::new("A", 0, 3, 0), 3),
        TaskResult::new(Task::new("B", 0, 2, 0), 5),
    ];
    assert_eq!(results, expected);
}

// Feedback at the last level cannot demote: it requeues at the same
// level, exactly as the non-feedback flavor does.
#[test]
fn rr_feedback_last_level_test() {
    let tasks = || {
        vec![
            Task::new("A", 0, 4, 0),
            Task::new("B", 1, 8, 0),
            Task::new("C", 5, 6, 0),
            Task::new("D", 3, 2, 0),
        ]
    };
    let with_feedback = run_simulator(
        create_queue_list(vec![Algorithm::RoundRobin(2, true)]),
        tasks(),
    );
    let without = run_simulator(
        create_queue_list(vec![Algorithm::RoundRobin(2, false)]),
        tasks(),
    );
    assert_eq!(with_feedback, without);
    assert_eq!(with_feedback[0], TaskResult::new(Task::new("A", 0, 4, 0), 6));
}

// The swap pass bubbles a cheap task toward the head, but stops before
// the first slot.
#[test]
fn add_task_order_test() {
    let mut queue_list = create_queue_list(vec![Algorithm::ProcessingTimeOrder]);
    add_task(&mut queue_list, Task::new("A", 0, 1, 0));
    add_task(&mut queue_list, Task::new("B", 0, 9, 0));
    add_task(&mut queue_list, Task::new("C", 0, 2, 0));
    let names: Vec<&str> = queue_list[0].0.iter().map(|t| t.name).collect();
    assert_eq!(names, vec!["A", "C", "B"]);

    let mut boundary = create_queue_list(vec![Algorithm::ProcessingTimeOrder]);
    add_task(&mut boundary, Task::new("B", 0, 9, 0));
    add_task(&mut boundary, Task::new("C", 0, 1, 0));
    let names: Vec<&str> = boundary[0].0.iter().map(|t| t.name).collect();
    assert_eq!(names, vec!["B", "C"]);
}

// Selection picks the lowest-index nonempty level, and none when idle.
#[test]
fn dispatced_queue_id_test() {
    let mut queue_list = create_queue_list(vec![
        Algorithm::ArrivalOrder,
        Algorithm::ArrivalOrder,
    ]);
    assert_eq!(dispatced_queue_id(&queue_list), None);
    add_task(&mut queue_list, Task::new("A", 0, 1, 1));
    assert_eq!(dispatced_queue_id(&queue_list), Some(1));
    add_task(&mut queue_list, Task::new("B", 0, 1, 0));
    assert_eq!(dispatced_queue_id(&queue_list), Some(0));
}

// The pending list hands over exactly the tasks that have arrived, marks
// them executable, and keeps the rest.
#[test]
fn fetch_new_tasks_test() {
    let mut pending = vec![Task::new("B", 5, 2, 0), Task::new("A", 0, 2, 0)];
    let fetched = fetch_new_tasks(&mut pending, 0).unwrap();
    assert_eq!(fetched.len(), 1);
    assert_eq!(fetched[0].name, "A");
    assert_eq!(fetched[0].state, State::Executable);
    assert_eq!(pending.len(), 1);
    assert_eq!(pending[0].name, "B");

    assert!(fetch_new_tasks(&mut pending, 4).is_none());
    let late = fetch_new_tasks(&mut pending, 5).unwrap();
    assert_eq!(late[0].name, "B");
    assert!(pending.is_empty());
}
