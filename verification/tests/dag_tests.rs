use dytas::dag::{TaskState, DAG};
use dytas::graph::{task_predecessors, task_successors};

fn diamond() -> DAG {
    // a -> b, a -> c, b -> d, c -> d
    let mut dag = DAG::new();
    let a = dag.add_task("a", 10, 1, 2);
    let b = dag.add_task("b", 10, 1, 2);
    let c = dag.add_task("c", 10, 1, 2);
    let d = dag.add_task("d", 10, 1, 2);
    let a_out = dag.add_task_output(a, "a_out");
    dag.add_data_dependency(a_out, b);
    dag.add_data_dependency(a_out, c);
    let b_out = dag.add_task_output(b, "b_out");
    dag.add_data_dependency(b_out, d);
    let c_out = dag.add_task_output(c, "c_out");
    dag.add_data_dependency(c_out, d);
    dag
}

#[test]
fn new_task_is_ready_with_no_links() {
    let mut dag = DAG::new();
    let id = dag.add_task("t", 64, 2, 4);
    assert_eq!(id, 0);
    let task = dag.get_task(id);
    assert_eq!(task.name, "t");
    assert_eq!(task.memory, 64);
    assert_eq!(task.min_cores, 2);
    assert_eq!(task.max_cores, 4);
    assert_eq!(task.state, TaskState::Ready);
    assert!(task.inputs.is_empty());
    assert!(task.outputs.is_empty());
    assert_eq!(dag.get_tasks().len(), 1);
}

#[test]
fn dependency_on_produced_item_makes_task_pending() {
    let dag = diamond();
    assert_eq!(dag.get_task(0).state, TaskState::Ready);
    assert_eq!(dag.get_task(1).state, TaskState::Pending);
    assert_eq!(dag.get_task(3).state, TaskState::Pending);
}

#[test]
fn dependency_on_workflow_input_keeps_task_ready() {
    let mut dag = DAG::new();
    let t = dag.add_task("t", 1, 1, 1);
    let input = dag.add_data_item("input");
    dag.add_data_dependency(input, t);
    assert_eq!(dag.get_task(t).state, TaskState::Ready);
    assert_eq!(dag.get_task(t).inputs, vec![input]);
    assert_eq!(dag.get_data_item(input).consumers, vec![t]);
    assert_eq!(dag.get_data_item(input).producer, None);
}

#[test]
fn outputs_record_their_producer() {
    let dag = diamond();
    assert_eq!(dag.get_task(0).outputs, vec![0]);
    assert_eq!(dag.get_data_item(0).producer, Some(0));
    assert_eq!(dag.get_data_item(0).consumers, vec![1, 2]);
    assert_eq!(dag.get_data_items().len(), 3);
}

#[test]
fn predecessors_are_producers_of_inputs() {
    let dag = diamond();
    assert_eq!(task_predecessors(0, &dag), Vec::<usize>::new());
    assert_eq!(task_predecessors(1, &dag), vec![0]);
    assert_eq!(task_predecessors(3, &dag), vec![1, 2]);
}

#[test]
fn successors_are_consumers_of_outputs() {
    let dag = diamond();
    assert_eq!(task_successors(0, &dag), vec![1, 2]);
    assert_eq!(task_successors(1, &dag), vec![3]);
    assert_eq!(task_successors(3, &dag), Vec::<usize>::new());
}

#[test]
fn a_task_read_twice_is_listed_twice() {
    let mut dag = DAG::new();
    let a = dag.add_task("a", 1, 1, 1);
    let b = dag.add_task("b", 1, 1, 1);
    let out = dag.add_task_output(a, "out");
    dag.add_data_dependency(out, b);
    dag.add_data_dependency(out, b);
    assert_eq!(task_predecessors(b, &dag), vec![a, a]);
    assert_eq!(task_successors(a, &dag), vec![b, b]);
}

#[test]
fn allowed_resources_restrict_a_task() {
    let mut dag = DAG::new();
    let t = dag.add_task("t", 1, 1, 1);
    assert!(dag.get_task(t).is_allowed_on(7));
    dag.set_allowed_resources(t, Some(vec![1, 3]));
    assert!(dag.get_task(t).is_allowed_on(1));
    assert!(dag.get_task(t).is_allowed_on(3));
    assert!(!dag.get_task(t).is_allowed_on(0));
    dag.set_allowed_resources(t, None);
    assert!(dag.get_task(t).is_allowed_on(0));
}

#[test]
fn set_task_state_changes_only_that_task() {
    let mut dag = diamond();
    dag.set_task_state(1, TaskState::Ready);
    assert_eq!(dag.get_task(1).state, TaskState::Ready);
    assert_eq!(dag.get_task(2).state, TaskState::Pending);
}

#[test]
fn item_named_finds_the_first_item_of_that_name() {
    let mut dag = DAG::new();
    let t = dag.add_task("t", 1, 1, 1);
    let first = dag.add_task_output(t, "x");
    let other = dag.add_data_item("y");
    dag.add_data_item("x");
    assert_eq!(dag.item_named("x"), Some(first));
    assert_eq!(dag.item_named("y"), Some(other));
    assert_eq!(dag.item_named("z"), None);
}

#[test]
fn inputs_all_produced_sees_workflow_inputs() {
    let dag = diamond();
    assert!(dag.inputs_all_produced());
    let mut open = diamond();
    let input = open.add_data_item("input");
    open.add_data_dependency(input, 2);
    assert!(!open.inputs_all_produced());
    assert!(DAG::new().inputs_all_produced());
}
