use petgraph::visit::EdgeRef;
use activation_manager::eval::{dependency_graph, edges_added_count, GraphError, Node, Schedule, State, ROUND_LIMIT};

fn node(name: &str, before: &[&str], after: &[&str]) -> Node {
    Node {
        name: name.to_string(),
        before: before.iter().map(|s| s.to_string()).collect(),
        after: after.iter().map(|s| s.to_string()).collect(),
    }
}

fn edges(g: &activation_manager::eval::DependencyGraph) -> Vec<(usize, usize)> {
    g.edge_references().map(|e| (e.source().index(), e.target().index())).collect()
}

/// Runs every launched task successfully; returns the batches and whether all finished.
fn run(schedule: &mut Schedule) -> (Vec<Vec<usize>>, bool) {
    let mut batches = Vec::new();
    loop {
        match schedule.launch() {
            None => return (batches, false),
            Some(batch) => {
                for &v in &batch {
                    assert!(schedule.complete(v));
                }
                batches.push(batch);
            }
        }
        if schedule.all_finished() {
            return (batches, true);
        }
    }
}

#[test]
fn graph_edges_follow_before_and_after() {
    let nodes = vec![node("a", &[], &[]), node("b", &[], &["a"]), node("c", &["a"], &["b"])];
    let g = dependency_graph(&nodes).unwrap();
    assert_eq!(g.node_count(), 3);
    assert_eq!(edges(&g), vec![(0, 1), (1, 2), (2, 0)]);
}

#[test]
fn graph_reports_missing_after() {
    let nodes = vec![node("a", &[], &["ghost"])];
    let err = dependency_graph(&nodes).unwrap_err();
    assert_eq!(err, GraphError::MissingAfter { node: "a".to_string(), missing: "ghost".to_string() });
    assert_eq!(err.message(), "a is after ghost, but it doesn't exist");
}

#[test]
fn graph_reports_missing_before() {
    let nodes = vec![node("a", &[], &[]), node("b", &["nope"], &["a"])];
    let err = dependency_graph(&nodes).unwrap_err();
    assert_eq!(err, GraphError::MissingBefore { node: "b".to_string(), missing: "nope".to_string() });
    assert_eq!(err.message(), "b is before nope, but it doesn't exist");
}

#[test]
fn graph_names_stand_for_the_last_node() {
    let nodes = vec![node("x", &[], &[]), node("x", &[], &[]), node("y", &[], &["x"])];
    let g = dependency_graph(&nodes).unwrap();
    assert_eq!(edges(&g), vec![(1, 2)]);
    let nodes = vec![node("x", &[], &["y"]), node("x", &[], &[]), node("y", &[], &[])];
    let g = dependency_graph(&nodes).unwrap();
    assert_eq!(edges(&g), vec![(2, 1)]);
}

#[test]
fn chain_runs_one_node_per_round() {
    let nodes = vec![node("c", &[], &["b"]), node("b", &[], &["a"]), node("a", &[], &[])];
    let mut s = Schedule::new(dependency_graph(&nodes).unwrap());
    let (batches, done) = run(&mut s);
    assert!(done);
    assert_eq!(batches, vec![vec![2], vec![1], vec![0]]);
}

#[test]
fn independent_nodes_run_together() {
    let nodes = vec![node("a", &[], &[]), node("b", &[], &[]), node("c", &[], &["a", "b"])];
    let mut s = Schedule::new(dependency_graph(&nodes).unwrap());
    let (batches, done) = run(&mut s);
    assert!(done);
    assert_eq!(batches, vec![vec![0, 1], vec![2]]);
}

#[test]
fn empty_graph_finishes_after_one_round() {
    let mut s = Schedule::new(dependency_graph(&Vec::new()).unwrap());
    let (batches, done) = run(&mut s);
    assert!(done);
    assert_eq!(batches, vec![Vec::<usize>::new()]);
}

#[test]
fn cycle_never_runs_and_limit_ends_the_run() {
    let nodes = vec![node("a", &[], &["b"]), node("b", &[], &["a"]), node("c", &[], &[])];
    let mut s = Schedule::new(dependency_graph(&nodes).unwrap());
    let (batches, done) = run(&mut s);
    assert!(!done);
    assert_eq!(batches.len(), ROUND_LIMIT as usize);
    assert_eq!(batches[0], vec![2]);
    assert!(batches[1..].iter().all(|b| b.is_empty()));
    assert_eq!(s.state(0), State::Waiting);
    assert_eq!(s.state(1), State::Waiting);
    assert_eq!(s.state(2), State::Finished);
}

#[test]
fn launch_marks_running_and_complete_finishes() {
    let nodes = vec![node("a", &[], &[]), node("b", &[], &["a"])];
    let mut s = Schedule::new(dependency_graph(&nodes).unwrap());
    assert_eq!(s.len(), 2);
    assert_eq!(s.launch(), Some(vec![0]));
    assert_eq!(s.state(0), State::Running);
    assert!(!s.complete(1));
    assert!(!s.complete(7));
    assert!(!s.all_finished());
    assert!(s.complete(0));
    assert!(!s.complete(0));
    assert_eq!(s.state(0), State::Finished);
    assert_eq!(s.launch(), Some(vec![1]));
    assert!(s.complete(1));
    assert!(s.all_finished());
}

#[test]
fn self_loop_waits_forever() {
    let nodes = vec![node("a", &["a"], &[])];
    let mut s = Schedule::new(dependency_graph(&nodes).unwrap());
    let (_, done) = run(&mut s);
    assert!(!done);
    assert_eq!(s.state(0), State::Waiting);
}

fn chain(len: usize) -> Vec<Node> {
    (0..len)
        .map(|i| {
            let name = format!("n{}", i);
            if i == 0 {
                node(&name, &[], &[])
            } else {
                let prev = format!("n{}", i - 1);
                node(&name, &[], &[prev.as_str()])
            }
        })
        .collect()
}

#[test]
fn edges_added_counts_up_to_the_first_missing_name() {
    let nodes = vec![node("a", &["b"], &[]), node("b", &[], &["a", "ghost", "a"]), node("c", &["a"], &[])];
    assert_eq!(edges_added_count(&nodes), 2);
    let nodes = vec![node("a", &["b"], &[]), node("b", &["a"], &["a"])];
    assert_eq!(edges_added_count(&nodes), 3);
    assert_eq!(edges_added_count(&Vec::new()), 0);
}

#[test]
fn downstream_of_a_cycle_waits() {
    let nodes = vec![node("a", &[], &["b"]), node("b", &[], &["a"]), node("c", &[], &["b"]), node("d", &[], &[])];
    let mut s = Schedule::new(dependency_graph(&nodes).unwrap());
    let (_, done) = run(&mut s);
    assert!(!done);
    assert_eq!(s.state(2), State::Waiting);
    assert_eq!(s.state(3), State::Finished);
}

#[test]
fn each_node_launches_once() {
    let nodes = vec![node("a", &[], &[]), node("b", &["c"], &["a"]), node("c", &[], &[]), node("d", &[], &["b", "c"])];
    let mut s = Schedule::new(dependency_graph(&nodes).unwrap());
    let (batches, done) = run(&mut s);
    assert!(done);
    let mut all: Vec<usize> = batches.concat();
    all.sort();
    assert_eq!(all, vec![0, 1, 2, 3]);
    // a runs before b, b before c, and b and c before d.
    let round = |v: usize| batches.iter().position(|b| b.contains(&v)).unwrap();
    assert!(round(0) < round(1));
    assert!(round(1) < round(2));
    assert!(round(1) < round(3) && round(2) < round(3));
}

#[test]
fn chain_of_limit_length_finishes_and_longer_does_not() {
    let mut s = Schedule::new(dependency_graph(&chain(ROUND_LIMIT as usize)).unwrap());
    let (batches, done) = run(&mut s);
    assert!(done);
    assert_eq!(batches.len(), ROUND_LIMIT as usize);
    let mut s = Schedule::new(dependency_graph(&chain(ROUND_LIMIT as usize + 1)).unwrap());
    let (_, done) = run(&mut s);
    assert!(!done);
    assert_eq!(s.state(ROUND_LIMIT as usize), State::Waiting);
}
