use scheduler::Algorithm;
use scheduler::Task;
use scheduler::TaskResult;
use scheduler::create_queue_list;
use scheduler::run_simulator;

//priority
#[test]
fn round_robin_priority_test() {
    let algoritms = vec![Algorithm::RoundRobin(2, false); 2];
    run_test(algoritms, test_case, round_robin_priority);
}

#[test]
// Multilevel Feedback Queue
fn mlfq_test() {
    let algoritms = vec![Algorithm::RoundRobin(2, true); 2];
    run_test(algoritms, test_case, mlfq);
}

fn task_a() -> Task {
    Task::new("A", 0, 4, 0)
}

fn task_b() -> Task {
    Task::new("B", 1, 8, 1)
}

fn task_c() -> Task {
    Task::new("C", 5, 6, 1)
}

fn task_d() -> Task {
    Task::new("D", 3, 2, 0)
}

fn run_test(
    algorithm_list: Vec<Algorithm>,
    tasks: fn() -> Vec<Task>,
    expects: fn() -> Vec<TaskResult>,
) {
    let queue_list = create_queue_list(algorithm_list);
    let results = run_simulator(queue_list, tasks());
    assert_eq!(results, expects());
}

fn test_case() -> Vec<Task> {
    let mut tasks = Vec::new();
    tasks.push(task_a());
    tasks.push(task_b());
    tasks.push(task_c());
    tasks.push(task_d());
    tasks
}

fn round_robin_priority() -> Vec<TaskResult> {
    let mut results = Vec::new();
    results.push(TaskResult::new(task_a(), 4));
    results.push(TaskResult::new(task_d(), 6));
    results.push(TaskResult::new(task_c(), 18));
    results.push(TaskResult::new(task_b(), 20));
    results
}

fn mlfq() -> Vec<TaskResult> {
    let mut results = Vec::new();
    results.push(TaskResult::new(task_d(), 5));
    results.push(TaskResult::new(task_a(), 8));
    results.push(TaskResult::new(task_c(), 18));
    results.push(TaskResult::new(task_b(), 20));
    results
}
