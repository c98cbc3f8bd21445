use dytas::dag::{TaskState, DAG};
use dytas::dytas::{all_placeable, evaluate, DynamicTaskSchedulingAlgorithm};
use dytas::strategy::{MultiCoreCriterion, PTQNavigationCriterion, SchedulerParams, Strategy, TaskSortingCriterion};
use dytas::system::{Action, Config, DataTransferMode, Resource, System};

fn resource(id: usize, cores: u32, cores_available: u32, memory: u64, memory_available: u64) -> Resource {
    Resource { id, cores, cores_available, memory, memory_available }
}

fn strategy(nav: PTQNavigationCriterion, sort: TaskSortingCriterion, multi: MultiCoreCriterion) -> Strategy {
    Strategy { ptq_navigation_criterion: nav, task_sorting_criterion: sort, multi_core_criterion: multi }
}

fn independent_tasks(n: usize) -> DAG {
    let mut dag = DAG::new();
    for i in 0..n {
        dag.add_task(&format!("t{}", i), 10, 1, 2);
    }
    dag
}

fn two_idle_resources() -> System {
    System { resources: vec![resource(0, 4, 4, 100, 100), resource(1, 4, 4, 100, 100)] }
}

fn config() -> Config {
    Config { data_transfer_mode: DataTransferMode::Direct }
}

fn sched(task: usize, resource: usize, cores: u32) -> Action {
    Action::ScheduleTask { task, resource, cores }
}

#[test]
fn evaluate_checks_cores_memory_and_restriction() {
    let mut dag = DAG::new();
    let t = dag.add_task("t", 50, 2, 4);
    let resources = vec![
        resource(0, 4, 4, 100, 100),
        resource(1, 4, 1, 100, 100),
        resource(2, 4, 4, 100, 49),
    ];
    assert!(evaluate(&dag, t, &resources, 0));
    assert!(!evaluate(&dag, t, &resources, 1));
    assert!(!evaluate(&dag, t, &resources, 2));
    dag.set_allowed_resources(t, Some(vec![2]));
    assert!(!evaluate(&dag, t, &resources, 0));
}

#[test]
fn new_scheduler_is_dynamic() {
    let s = DynamicTaskSchedulingAlgorithm::new(strategy(
        PTQNavigationCriterion::Whole,
        TaskSortingCriterion::Khan,
        MultiCoreCriterion::SkipActiveNodes,
    ));
    assert!(!s.is_static());
    assert_eq!(s.strategy().task_sorting_criterion, TaskSortingCriterion::Khan);
}

#[test]
fn from_params_reads_the_strategy() {
    let mut params = SchedulerParams::new("DynamicTaskSchedulingAlgorithm");
    params.set("navigation", "Whole");
    params.set("sorting", "Khan");
    params.set("multicore", "SkipActiveNodes");
    let s = DynamicTaskSchedulingAlgorithm::from_params(&params);
    assert_eq!(
        s.strategy(),
        strategy(PTQNavigationCriterion::Whole, TaskSortingCriterion::Khan, MultiCoreCriterion::SkipActiveNodes)
    );
}

#[test]
fn skip_active_nodes_gives_one_task_per_idle_resource() {
    // Tasks 0 and 2 go to resource 0's queue, task 1 to resource 1's.
    let dag = independent_tasks(3);
    let mut s = DynamicTaskSchedulingAlgorithm::new(strategy(
        PTQNavigationCriterion::Whole,
        TaskSortingCriterion::Khan,
        MultiCoreCriterion::SkipActiveNodes,
    ));
    let actions = s.start(&dag, &two_idle_resources(), config());
    assert_eq!(actions, vec![sched(0, 0, 2), sched(1, 1, 2)]);
    // Both resources are now busy: nothing more is scheduled.
    let busy = System { resources: vec![resource(0, 4, 2, 100, 90), resource(1, 4, 2, 100, 90)] };
    assert_eq!(s.on_task_state_changed(0, TaskState::Running, &dag, &busy), vec![]);
    // Resource 0 is idle again and takes task 2.
    let freed = System { resources: vec![resource(0, 4, 4, 100, 100), resource(1, 4, 2, 100, 90)] };
    assert_eq!(s.on_task_state_changed(0, TaskState::Done, &dag, &freed), vec![sched(2, 0, 2)]);
    assert_eq!(s.on_task_state_changed(0, TaskState::Done, &dag, &freed), vec![]);
}

#[test]
fn use_all_cores_fills_a_resource() {
    let dag = independent_tasks(3);
    let mut s = DynamicTaskSchedulingAlgorithm::new(strategy(
        PTQNavigationCriterion::Whole,
        TaskSortingCriterion::Khan,
        MultiCoreCriterion::UseAllCores,
    ));
    // Queue 0 = [0, 2], queue 1 = [1]. Resource 0 takes both tasks of its
    // own queue, which fill its cores; resource 1 takes task 1.
    let actions = s.start(&dag, &two_idle_resources(), config());
    assert_eq!(actions, vec![sched(0, 0, 2), sched(2, 0, 2), sched(1, 1, 2)]);
}

#[test]
fn front_navigation_takes_queue_fronts() {
    // Task 0 reads an output of task 2, so it is pending.
    let mut dag = DAG::new();
    for i in 0..3 {
        dag.add_task(&format!("t{}", i), 10, 1, 1);
    }
    let out = dag.add_task_output(2, "out");
    dag.add_data_dependency(out, 0);
    // Kahn order 1, 2, 0: queue 0 = [1, 0], queue 1 = [2].
    let mut front = DynamicTaskSchedulingAlgorithm::new(strategy(
        PTQNavigationCriterion::Front,
        TaskSortingCriterion::Khan,
        MultiCoreCriterion::SkipActiveNodes,
    ));
    let actions = front.start(&dag, &two_idle_resources(), config());
    assert_eq!(actions, vec![sched(1, 0, 1), sched(2, 1, 1)]);
}

#[test]
fn whole_navigation_searches_past_a_waiting_task() {
    // Task 0 reads an output of task 2, which is now running; task 0 is
    // ready.
    let mut dag = DAG::new();
    for i in 0..3 {
        dag.add_task(&format!("t{}", i), 10, 1, 1);
    }
    let out = dag.add_task_output(2, "out");
    dag.add_data_dependency(out, 0);
    dag.set_task_state(2, TaskState::Running);
    dag.set_task_state(0, TaskState::Ready);
    let mut s = DynamicTaskSchedulingAlgorithm::new(strategy(
        PTQNavigationCriterion::Whole,
        TaskSortingCriterion::Khan,
        MultiCoreCriterion::SkipActiveNodes,
    ));
    // Kahn order 1, 2, 0: queue 0 = [1, 0], queue 1 = [2].
    let actions = s.start(&dag, &two_idle_resources(), config());
    assert_eq!(actions, vec![sched(1, 0, 1), sched(0, 1, 1)]);
}

#[test]
fn tasks_go_only_where_they_fit() {
    // Task 0 needs 3 cores: only resource 1 has them.
    let mut dag = DAG::new();
    dag.add_task("big", 10, 3, 3);
    dag.add_task("small", 10, 1, 1);
    let system = System { resources: vec![resource(0, 2, 2, 100, 100), resource(1, 4, 4, 100, 100)] };
    let mut s = DynamicTaskSchedulingAlgorithm::new(strategy(
        PTQNavigationCriterion::Whole,
        TaskSortingCriterion::DFS,
        MultiCoreCriterion::SkipActiveNodes,
    ));
    // DFS order 1, 0: task 1 to queue 0, then task 0 to queue 1.
    let actions = s.start(&dag, &system, config());
    assert_eq!(actions, vec![sched(1, 0, 1), sched(0, 1, 3)]);
}

#[test]
fn cores_are_capped_by_the_resource() {
    let mut dag = DAG::new();
    dag.add_task("wide", 10, 1, 16);
    let system = System { resources: vec![resource(0, 8, 8, 100, 100)] };
    let mut s = DynamicTaskSchedulingAlgorithm::new(strategy(
        PTQNavigationCriterion::Front,
        TaskSortingCriterion::Khan,
        MultiCoreCriterion::SkipActiveNodes,
    ));
    assert_eq!(s.start(&dag, &system, config()), vec![sched(0, 0, 8)]);
}

#[test]
fn memory_limits_use_all_cores() {
    // Two tasks of 60 memory: only one fits in 100 at a time.
    let mut dag = DAG::new();
    dag.add_task("a", 60, 1, 1);
    dag.add_task("b", 60, 1, 1);
    let system = System { resources: vec![resource(0, 4, 4, 100, 100)] };
    let mut s = DynamicTaskSchedulingAlgorithm::new(strategy(
        PTQNavigationCriterion::Whole,
        TaskSortingCriterion::Khan,
        MultiCoreCriterion::UseAllCores,
    ));
    assert_eq!(s.start(&dag, &system, config()), vec![sched(0, 0, 1)]);
    let later = System { resources: vec![resource(0, 4, 4, 100, 100)] };
    assert_eq!(s.on_task_state_changed(0, TaskState::Done, &dag, &later), vec![sched(1, 0, 1)]);
}

#[test]
fn every_task_is_scheduled_exactly_once_over_a_run() {
    // A chain 0 -> 1 -> 2 beside an independent task 3.
    let mut dag = DAG::new();
    for i in 0..4 {
        dag.add_task(&format!("t{}", i), 10, 1, 1);
    }
    let a = dag.add_task_output(0, "a");
    dag.add_data_dependency(a, 1);
    let b = dag.add_task_output(1, "b");
    dag.add_data_dependency(b, 2);
    let mut s = DynamicTaskSchedulingAlgorithm::new(strategy(
        PTQNavigationCriterion::Whole,
        TaskSortingCriterion::DFS,
        MultiCoreCriterion::SkipActiveNodes,
    ));
    let idle = two_idle_resources();
    let mut scheduled: Vec<usize> = Vec::new();
    let mut actions = s.start(&dag, &idle, config());
    for _ in 0..10 {
        for action in &actions {
            let Action::ScheduleTask { task, .. } = *action;
            scheduled.push(task);
            dag.set_task_state(task, TaskState::Done);
        }
        // Tasks whose inputs are all done become ready.
        for t in 0..4 {
            if dag.get_task(t).state == TaskState::Pending {
                let ready = dag.get_task(t).inputs.iter().all(|&item| match dag.get_data_item(item).producer {
                    Some(p) => dag.get_task(p).state == TaskState::Done,
                    None => true,
                });
                if ready {
                    dag.set_task_state(t, TaskState::Ready);
                }
            }
        }
        actions = s.on_task_state_changed(0, TaskState::Done, &dag, &idle);
    }
    scheduled.sort();
    assert_eq!(scheduled, vec![0, 1, 2, 3]);
}

#[test]
fn front_navigation_does_not_look_past_the_front() {
    let mut dag = independent_tasks(2);
    dag.set_task_state(0, TaskState::Scheduled);
    let system = System { resources: vec![resource(0, 4, 4, 100, 100)] };
    let mut front = DynamicTaskSchedulingAlgorithm::new(strategy(
        PTQNavigationCriterion::Front,
        TaskSortingCriterion::Khan,
        MultiCoreCriterion::SkipActiveNodes,
    ));
    assert_eq!(front.start(&dag, &system, config()), vec![]);
    let mut whole = DynamicTaskSchedulingAlgorithm::new(strategy(
        PTQNavigationCriterion::Whole,
        TaskSortingCriterion::Khan,
        MultiCoreCriterion::SkipActiveNodes,
    ));
    assert_eq!(whole.start(&dag, &system, config()), vec![sched(1, 0, 2)]);
}

#[test]
fn whole_navigation_checks_every_task_after_a_take() {
    // No free memory, and tasks that need none: both fit on the one resource.
    let mut dag = DAG::new();
    dag.add_task("a", 0, 1, 1);
    dag.add_task("b", 0, 1, 1);
    let system = System { resources: vec![resource(0, 4, 4, 0, 0)] };
    let mut s = DynamicTaskSchedulingAlgorithm::new(strategy(
        PTQNavigationCriterion::Whole,
        TaskSortingCriterion::Khan,
        MultiCoreCriterion::UseAllCores,
    ));
    assert_eq!(s.start(&dag, &system, config()), vec![sched(0, 0, 1), sched(1, 0, 1)]);
    assert_eq!(s.on_task_state_changed(0, TaskState::Done, &dag, &system), vec![]);
}

#[test]
fn front_navigation_with_all_cores_takes_one_front_per_queue() {
    let dag = independent_tasks(3);
    let system = System { resources: vec![resource(0, 8, 8, 100, 100)] };
    let mut s = DynamicTaskSchedulingAlgorithm::new(strategy(
        PTQNavigationCriterion::Front,
        TaskSortingCriterion::Khan,
        MultiCoreCriterion::UseAllCores,
    ));
    // The one queue is [0, 1, 2]: only its front is looked at in a pass.
    assert_eq!(s.start(&dag, &system, config()), vec![sched(0, 0, 2)]);
    assert_eq!(s.on_task_state_changed(0, TaskState::Running, &dag, &system), vec![sched(1, 0, 2)]);
}

#[test]
fn all_placeable_needs_a_fitting_resource_for_each_task() {
    let mut dag = DAG::new();
    dag.add_task("small", 10, 1, 1);
    dag.add_task("big", 10, 3, 3);
    let roomy = vec![resource(0, 2, 2, 100, 100), resource(1, 4, 4, 100, 100)];
    let tight = vec![resource(0, 2, 2, 100, 100), resource(1, 4, 2, 100, 100)];
    assert!(all_placeable(&dag, &roomy));
    assert!(!all_placeable(&dag, &tight));
    assert!(all_placeable(&DAG::new(), &vec![]));
}

#[test]
fn try_start_matches_start() {
    let dag = independent_tasks(3);
    let mut s = DynamicTaskSchedulingAlgorithm::new(strategy(
        PTQNavigationCriterion::Whole,
        TaskSortingCriterion::Khan,
        MultiCoreCriterion::SkipActiveNodes,
    ));
    let actions = s.try_start(&dag, &two_idle_resources(), config());
    assert_eq!(actions, Some(vec![sched(0, 0, 2), sched(1, 1, 2)]));
    let freed = System { resources: vec![resource(0, 4, 4, 100, 100), resource(1, 4, 2, 100, 90)] };
    assert_eq!(s.on_task_state_changed(0, TaskState::Done, &dag, &freed), vec![sched(2, 0, 2)]);
}

#[test]
fn try_start_refuses_what_start_cannot_do() {
    let whole_khan = strategy(PTQNavigationCriterion::Whole, TaskSortingCriterion::Khan, MultiCoreCriterion::SkipActiveNodes);
    let dag = independent_tasks(2);
    let mut s = DynamicTaskSchedulingAlgorithm::new(whole_khan);
    // Manual data transfers.
    let manual = Config { data_transfer_mode: DataTransferMode::Manual };
    assert_eq!(s.try_start(&dag, &two_idle_resources(), manual), None);
    // No resource.
    assert_eq!(s.try_start(&dag, &System { resources: vec![] }, config()), None);
    // A task that fits nowhere.
    let small = System { resources: vec![resource(0, 4, 4, 5, 5)] };
    assert_eq!(s.try_start(&dag, &small, config()), None);
    // A cycle, sorted by Kahn's algorithm.
    let mut cyclic = independent_tasks(2);
    let x = cyclic.add_task_output(0, "x");
    cyclic.add_data_dependency(x, 1);
    let y = cyclic.add_task_output(1, "y");
    cyclic.add_data_dependency(y, 0);
    assert_eq!(s.try_start(&cyclic, &two_idle_resources(), config()), None);
    // An input that no task writes, sorted by Kahn's algorithm.
    let mut unproduced = independent_tasks(2);
    let outside = unproduced.add_data_item("outside");
    unproduced.add_data_dependency(outside, 1);
    assert_eq!(s.try_start(&unproduced, &two_idle_resources(), config()), None);
    // The scheduler was left as it was: it starts normally afterwards.
    assert_eq!(s.try_start(&dag, &two_idle_resources(), config()), Some(vec![sched(0, 0, 2), sched(1, 1, 2)]));
}

#[test]
fn try_on_task_state_changed_leaves_the_queues_when_refused() {
    let dag = independent_tasks(3);
    let system = System { resources: vec![resource(0, 4, 4, 100, 100)] };
    let mut s = DynamicTaskSchedulingAlgorithm::new(strategy(
        PTQNavigationCriterion::Whole,
        TaskSortingCriterion::Khan,
        MultiCoreCriterion::SkipActiveNodes,
    ));
    assert_eq!(s.start(&dag, &system, config()), vec![sched(0, 0, 2)]);
    // Queue 0 = [1, 2]; against a DAG of one task the queued ids are no
    // tasks, and the pass cannot be made.
    let smaller = independent_tasks(1);
    assert_eq!(s.try_on_task_state_changed(0, TaskState::Done, &smaller, &system), None);
    assert_eq!(s.try_on_task_state_changed(0, TaskState::Done, &dag, &system), Some(vec![sched(1, 0, 2)]));
    assert_eq!(s.try_on_task_state_changed(1, TaskState::Done, &dag, &system), Some(vec![sched(2, 0, 2)]));
    assert_eq!(s.try_on_task_state_changed(2, TaskState::Done, &dag, &system), Some(vec![]));
}

#[test]
fn use_all_cores_gives_no_more_than_the_free_cores() {
    // A busy node with 2 of its 4 cores free, and a task that could use 4.
    let mut dag = DAG::new();
    dag.add_task("t", 0, 1, 4);
    let system = System { resources: vec![resource(0, 4, 2, 0, 0)] };
    let whole_all = strategy(PTQNavigationCriterion::Whole, TaskSortingCriterion::Khan, MultiCoreCriterion::UseAllCores);
    let mut s = DynamicTaskSchedulingAlgorithm::new(whole_all);
    assert_eq!(s.start(&dag, &system, config()), vec![sched(0, 0, 2)]);
    let mut t = DynamicTaskSchedulingAlgorithm::new(whole_all);
    assert_eq!(t.try_start(&dag, &system, config()), Some(vec![sched(0, 0, 2)]));
}

#[test]
fn use_all_cores_splits_the_free_cores() {
    // 3 free cores: the first task takes the 2 it can use, the second the
    // one core left.
    let dag = independent_tasks(2);
    let system = System { resources: vec![resource(0, 4, 3, 100, 100)] };
    let mut s = DynamicTaskSchedulingAlgorithm::new(strategy(
        PTQNavigationCriterion::Whole,
        TaskSortingCriterion::Khan,
        MultiCoreCriterion::UseAllCores,
    ));
    assert_eq!(s.start(&dag, &system, config()), vec![sched(0, 0, 2), sched(1, 0, 1)]);
}
