use scheduler::Algorithm;
use scheduler::Task;
use scheduler::TaskResult;
use scheduler::create_queue_list;
use scheduler::run_simulator;

#[test]
fn arrival_order_test() {
    let algorithm_list = vec![Algorithm::ArrivalOrder];
    run_test(algorithm_list, test_case, arrival_order);
}

#[test]
fn processed_time_order_test() {
    let algorithm_list = vec![Algorithm::ProcessingTimeOrder];
    run_test(algorithm_list, test_case, processing_time_order);
}

#[test]
fn round_robin_test() {
    let algorithm_list = vec![Algorithm::RoundRobin(2, false)];
    run_test(algorithm_list, test_case, round_robin);
}

fn run_test(
    algorithm_list: Vec<Algorithm>,
    tasks: fn() -> Vec<Task>,
    expects: fn() -> Vec<TaskResult>,
) {
    let queue_list = create_queue_list(algorithm_list);
    let results = run_simulator(queue_list, tasks());
    assert_eq!(results, expects());
}

fn task_a() -> Task {
    Task::new("A", 0, 4, 0)
}

fn task_b() -> Task {
    Task::new("B", 1, 8, 0)
}

fn task_c() -> Task {
    Task::new("C", 5, 6, 0)
}

fn task_d() -> Task {
    Task::new("D", 3, 2, 0)
}

fn test_case() -> Vec<Task> {
    let mut tasks = Vec::new();
    tasks.push(task_a());
    tasks.push(task_b());
    tasks.push(task_c());
    tasks.push(task_d());
    tasks
}

fn arrival_order() -> Vec<TaskResult> {
    let mut results = Vec::new();
    results.push(TaskResult::new(task_a(), 4));
    results.push(TaskResult::new(task_b(), 12));
    results.push(TaskResult::new(task_d(), 14));
    results.push(TaskResult::new(task_c(), 20));
    results
}

fn processing_time_order() -> Vec<TaskResult> {
    let mut results = Vec::new();
    results.push(TaskResult::new(task_a(), 4));
    results.push(TaskResult::new(task_d(), 6));
    results.push(TaskResult::new(task_c(), 12));
    results.push(TaskResult::new(task_b(), 20));
    results
}

fn round_robin() -> Vec<TaskResult> {
    let mut results = Vec::new();
    results.push(TaskResult::new(task_a(), 6));
    results.push(TaskResult::new(task_d(), 8));
    results.push(TaskResult::new(task_b(), 18));
    results.push(TaskResult::new(task_c(), 20));
    results
}
