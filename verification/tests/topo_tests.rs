use dytas::dag::DAG;
use dytas::topo::{khan_topological_sort, reversed, topsort, try_khan_topological_sort};

fn add_edge(dag: &mut DAG, from: usize, to: usize) {
    let item = dag.add_task_output(from, "edge");
    dag.add_data_dependency(item, to);
}

fn diamond() -> DAG {
    let mut dag = DAG::new();
    for name in ["a", "b", "c", "d"] {
        dag.add_task(name, 1, 1, 1);
    }
    add_edge(&mut dag, 0, 1);
    add_edge(&mut dag, 0, 2);
    add_edge(&mut dag, 1, 3);
    add_edge(&mut dag, 2, 3);
    dag
}

fn is_topological(dag: &DAG, order: &[usize], edges: &[(usize, usize)]) -> bool {
    let n = dag.get_tasks().len();
    if order.len() != n {
        return false;
    }
    let mut pos = vec![usize::MAX; n];
    for (i, &t) in order.iter().enumerate() {
        if t >= n || pos[t] != usize::MAX {
            return false;
        }
        pos[t] = i;
    }
    edges.iter().all(|&(u, v)| pos[u] < pos[v])
}

#[test]
fn khan_sorts_diamond_in_fifo_order() {
    let dag = diamond();
    assert_eq!(khan_topological_sort(&dag), vec![0, 1, 2, 3]);
}

#[test]
fn khan_sources_come_first_in_id_order() {
    // 2 -> 0, 3 -> 1: sources 2 and 3 first.
    let mut dag = DAG::new();
    for name in ["a", "b", "c", "d"] {
        dag.add_task(name, 1, 1, 1);
    }
    add_edge(&mut dag, 2, 0);
    add_edge(&mut dag, 3, 1);
    let order = khan_topological_sort(&dag);
    assert_eq!(order, vec![2, 3, 0, 1]);
    assert!(is_topological(&dag, &order, &[(2, 0), (3, 1)]));
}

#[test]
fn khan_reports_a_cycle() {
    let mut dag = DAG::new();
    for name in ["a", "b", "c"] {
        dag.add_task(name, 1, 1, 1);
    }
    add_edge(&mut dag, 0, 1);
    add_edge(&mut dag, 1, 2);
    add_edge(&mut dag, 2, 1);
    assert_eq!(try_khan_topological_sort(&dag), None);
}

#[test]
fn khan_reports_a_self_loop() {
    let mut dag = DAG::new();
    dag.add_task("a", 1, 1, 1);
    add_edge(&mut dag, 0, 0);
    assert_eq!(try_khan_topological_sort(&dag), None);
}

#[test]
fn khan_on_empty_dag() {
    let dag = DAG::new();
    assert_eq!(try_khan_topological_sort(&dag), Some(vec![]));
}

#[test]
fn dfs_sorts_diamond() {
    let dag = diamond();
    let order = topsort(&dag);
    assert_eq!(order, vec![0, 2, 1, 3]);
    assert!(is_topological(&dag, &order, &[(0, 1), (0, 2), (1, 3), (2, 3)]));
}

#[test]
fn dfs_on_a_cycle_still_lists_every_task_once() {
    let mut dag = DAG::new();
    for name in ["a", "b", "c"] {
        dag.add_task(name, 1, 1, 1);
    }
    add_edge(&mut dag, 0, 1);
    add_edge(&mut dag, 1, 2);
    add_edge(&mut dag, 2, 1);
    let mut order = topsort(&dag);
    order.sort();
    assert_eq!(order, vec![0, 1, 2]);
}

#[test]
fn both_sorts_agree_on_a_chain() {
    let mut dag = DAG::new();
    for name in ["a", "b", "c", "d", "e"] {
        dag.add_task(name, 1, 1, 1);
    }
    for i in (0..4).rev() {
        add_edge(&mut dag, i + 1, i);
    }
    assert_eq!(khan_topological_sort(&dag), vec![4, 3, 2, 1, 0]);
    assert_eq!(topsort(&dag), vec![4, 3, 2, 1, 0]);
}

#[test]
fn reversed_reverses() {
    assert_eq!(reversed(&vec![1, 2, 3]), vec![3, 2, 1]);
    assert_eq!(reversed(&vec![]), Vec::<usize>::new());
}
