use lib::initgraph::{CycleError, InitGraph, InitGraphNode, State};

fn names(list: &[&str]) -> Vec<String> {
    list.iter().map(|name| name.to_string()).collect()
}

fn task(name: &str, requires: &[&str], dependents: &[&str], after: &[&str], before: &[&str]) -> InitGraphNode {
    InitGraphNode::new_task(name.to_string(), true, names(requires), names(dependents), names(after), names(before))
}

#[test]
fn forward_links_resolve() {
    let a = task("A", &["B"], &[], &["B"], &[]);
    let b = task("B", &[], &[], &[], &[]);
    let graph = InitGraph::initialize(vec![a, b]);

    assert_eq!(graph.required(0).len(), 1);
    assert_eq!(graph.required(1).len(), 0);

    assert_eq!(graph.after(0).len(), 1);
    assert_eq!(graph.after(1).len(), 0);
}

#[test]
fn reverse_links_resolve() {
    let a = task("A", &[], &["B"], &[], &["B"]);
    let b = task("B", &[], &[], &[], &[]);
    let graph = InitGraph::initialize(vec![a, b]);

    assert_eq!(graph.required(0).len(), 0);
    assert_eq!(graph.required(1).len(), 1);

    assert_eq!(graph.after(0).len(), 0);
    assert_eq!(graph.after(1).len(), 1);
}

#[test]
fn links_resolve_to_indices() {
    let a = task("A", &["C"], &["B"], &[], &[]);
    let b = task("B", &[], &[], &["C"], &[]);
    let c = InitGraphNode::new_stage("C".to_string(), true);
    let graph = InitGraph::initialize(vec![a, b, c]);
    assert_eq!(graph.required(0), vec![2]);
    assert_eq!(graph.required(1), vec![0]);
    assert_eq!(graph.after(1), vec![2]);
    assert_eq!(graph.state(2), State::Active);
}

#[test]
fn run_executes_requirements_first() {
    let c = task("C", &["B"], &[], &[], &[]);
    let b = task("B", &["A"], &[], &[], &[]);
    let a = task("A", &[], &[], &[], &[]);
    let unrelated = task("D", &[], &[], &[], &[]);
    let mut graph = InitGraph::initialize(vec![c, b, a, unrelated]);
    assert_eq!(graph.run(0), Ok(vec![2, 1, 0]));
    assert_eq!(graph.state(0), State::Done);
    assert_eq!(graph.state(2), State::Done);
    assert_eq!(graph.state(3), State::Active);
    assert_eq!(graph.run(0), Ok(vec![]));
}

#[test]
fn run_respects_after_links_and_skips_inactive() {
    let mut a = task("A", &[], &[], &[], &[]);
    a.deactivate();
    let b = task("B", &["A", "C"], &[], &["C"], &[]);
    let c = task("C", &[], &[], &[], &[]);
    let mut graph = InitGraph::initialize(vec![a, b, c]);
    assert_eq!(graph.state(0), State::Inactive);
    assert_eq!(graph.run(1), Ok(vec![2, 1]));
    assert_eq!(graph.state(0), State::Inactive);
    graph.activate(0);
    assert_eq!(graph.run(0), Ok(vec![0]));
}

#[test]
fn run_reports_cycles() {
    let a = task("A", &["B"], &[], &[], &[]);
    let b = task("B", &["A"], &[], &[], &[]);
    let mut graph = InitGraph::initialize(vec![a, b]);
    assert_eq!(graph.run(0), Err(CycleError));
    assert_eq!(graph.state(0), State::Wanted);
    assert_eq!(graph.state(1), State::Wanted);
}
