use litpro::graph::DependencyGraph;
use litpro::{LitPro, LitProError};

fn parsed(content: &str) -> LitPro {
    let mut litpro = LitPro::new();
    assert!(litpro.parse_cells(content).is_ok());
    litpro
}

fn document(cells: &[(&str, &str)]) -> String {
    let mut text = String::new();
    for (id, depends) in cells {
        if depends.is_empty() {
            text.push_str(&format!("<!-- cell:{} -->\n", id));
        } else {
            text.push_str(&format!("<!-- cell:{} depends:{} -->\n", id, depends));
        }
        text.push_str(&format!("```rust\ncode of {}\n```\n\n", id));
    }
    text
}

fn place(order: &[String], id: &str) -> usize {
    order.iter().position(|name| name == id).unwrap()
}

fn is_valid_order(litpro: &LitPro, order: &[String]) -> bool {
    if order.len() != litpro.len() {
        return false;
    }
    for cell in litpro.cells() {
        if order.iter().filter(|name| **name == cell.id).count() != 1 {
            return false;
        }
        for dep in &cell.dependencies {
            if litpro.contains_key(dep) && place(order, dep) >= place(order, &cell.id) {
                return false;
            }
        }
    }
    true
}

#[test]
fn empty_set_resolves_to_empty_order() {
    let litpro = LitPro::new();
    let order = litpro.resolve_dependencies().unwrap();
    assert!(order.is_empty());
    assert!(litpro.missing_dependencies().is_empty());
}

#[test]
fn chain_resolves_in_order() {
    let litpro = parsed(&document(&[("setup", ""), ("compute", "setup"), ("display", "compute")]));
    let order = litpro.resolve_dependencies().unwrap();
    assert_eq!(order.len(), 3);
    assert!(place(&order, "setup") < place(&order, "compute"));
    assert!(place(&order, "compute") < place(&order, "display"));
}

#[test]
fn chain_written_backwards_resolves_in_order() {
    let litpro = parsed(&document(&[("display", "compute"), ("compute", "setup"), ("setup", "")]));
    let order = litpro.resolve_dependencies().unwrap();
    assert_eq!(order, vec!["setup", "compute", "display"]);
}

#[test]
fn two_cells_in_a_circle_fail() {
    let litpro = parsed(&document(&[("a", "b"), ("b", "a")]));
    let result = litpro.resolve_dependencies();
    assert!(matches!(result, Err(LitProError::CircularDependencyError)));
}

#[test]
fn self_dependency_fails() {
    let litpro = parsed(&document(&[("a", "a")]));
    assert!(matches!(litpro.resolve_dependencies(), Err(LitProError::CircularDependencyError)));
    let litpro = parsed(&document(&[("x", ""), ("a", "x,a"), ("y", "a")]));
    assert!(matches!(litpro.resolve_dependencies(), Err(LitProError::CircularDependencyError)));
}

#[test]
fn longer_circle_fails() {
    let litpro = parsed(&document(&[("a", "c"), ("b", "a"), ("c", "b"), ("free", "")]));
    assert!(matches!(litpro.resolve_dependencies(), Err(LitProError::CircularDependencyError)));
}

#[test]
fn circle_behind_a_valid_part_fails() {
    let litpro = parsed(&document(&[("root", ""), ("a", "root,b"), ("b", "a")]));
    assert!(matches!(litpro.resolve_dependencies(), Err(LitProError::CircularDependencyError)));
}

#[test]
fn missing_dependency_is_dropped() {
    let litpro = parsed(&document(&[("a", "missing"), ("b", "a,gone")]));
    let order = litpro.resolve_dependencies().unwrap();
    assert_eq!(order, vec!["a", "b"]);
    assert!(!order.iter().any(|name| name == "missing"));
    assert_eq!(
        litpro.missing_dependencies(),
        vec![
            ("a".to_string(), "missing".to_string()),
            ("b".to_string(), "gone".to_string())
        ]
    );
}

#[test]
fn missing_dependencies_are_listed_as_often_as_declared() {
    let litpro = parsed(&document(&[("a", "x,b,x"), ("b", ""), ("c", ",a")]));
    assert_eq!(
        litpro.missing_dependencies(),
        vec![
            ("a".to_string(), "x".to_string()),
            ("a".to_string(), "x".to_string()),
            ("c".to_string(), "".to_string())
        ]
    );
    assert_eq!(litpro.resolve_dependencies().unwrap(), vec!["b", "a", "c"]);
}

#[test]
fn repeated_dependency_does_not_block() {
    let litpro = parsed(&document(&[("b", "a,a,a"), ("a", "")]));
    assert_eq!(litpro.resolve_dependencies().unwrap(), vec!["a", "b"]);
}

#[test]
fn diamond_resolves() {
    let litpro =
        parsed(&document(&[("d", "b,c"), ("b", "a"), ("c", "a"), ("a", ""), ("e", "d,a")]));
    let order = litpro.resolve_dependencies().unwrap();
    assert!(is_valid_order(&litpro, &order));
    assert_eq!(order, vec!["a", "b", "c", "d", "e"]);
}

#[test]
fn independent_cells_keep_their_order() {
    let litpro = parsed(&document(&[("z", ""), ("m", ""), ("a", "")]));
    assert_eq!(litpro.resolve_dependencies().unwrap(), vec!["z", "m", "a"]);
}

#[test]
fn order_is_a_permutation_that_respects_every_edge() {
    let litpro = parsed(&document(&[
        ("h", "d,e"),
        ("a", ""),
        ("e", "b,c"),
        ("b", "a"),
        ("g", "f,nowhere"),
        ("c", "a,b"),
        ("d", "a"),
        ("f", "c,d,e"),
        ("i", ""),
    ]));
    let order = litpro.resolve_dependencies().unwrap();
    assert!(is_valid_order(&litpro, &order));
}

#[test]
fn resolving_does_not_change_the_cells() {
    let litpro = parsed(&document(&[("a", ""), ("b", "a")]));
    let first = litpro.resolve_dependencies().unwrap();
    let second = litpro.resolve_dependencies().unwrap();
    assert_eq!(first, second);
    assert!(litpro.cells().iter().all(|cell| !cell.executed));
}

#[test]
fn run_marks_every_cell_executed() {
    let mut litpro = LitPro::new();
    let order = litpro
        .run_litpro(&document(&[("display", "compute"), ("compute", "setup"), ("setup", "")]))
        .unwrap();
    assert_eq!(order, vec!["setup", "compute", "display"]);
    assert_eq!(litpro.len(), 3);
    assert!(litpro.cells().iter().all(|cell| cell.executed));
    assert_eq!(litpro.get("compute").unwrap().code, "code of compute");
}

#[test]
fn run_of_an_empty_document_gives_an_empty_order() {
    let mut litpro = LitPro::new();
    assert!(litpro.run_litpro("nothing to run").unwrap().is_empty());
    assert!(litpro.is_empty());
}

#[test]
fn run_of_a_circle_fails_and_executes_nothing() {
    let mut litpro = LitPro::new();
    let result = litpro.run_litpro(&document(&[("free", ""), ("a", "b"), ("b", "a")]));
    assert!(matches!(result, Err(LitProError::CircularDependencyError)));
    assert_eq!(litpro.len(), 3);
    assert!(litpro.cells().iter().all(|cell| !cell.executed));
}

#[test]
fn run_replaces_earlier_cells() {
    let mut litpro = parsed(&document(&[("old", "")]));
    litpro.run_litpro(&document(&[("new", "")])).unwrap();
    assert!(!litpro.contains_key("old"));
    assert!(litpro.get("new").unwrap().executed);
}

#[test]
fn graph_of_cells_counts_each_declared_edge() {
    let litpro = parsed(&document(&[("a", ""), ("b", "a,a,missing"), ("c", "b,a")]));
    let graph = litpro.dependency_graph();
    assert_eq!(graph.node_count(), 3);
    assert_eq!(graph.in_degree(0), Some(0));
    assert_eq!(graph.in_degree(1), Some(2));
    assert_eq!(graph.in_degree(2), Some(2));
    assert_eq!(graph.in_degree(3), None);
    assert_eq!(graph.dependents(0), Some(&vec![1, 1, 2]));
    assert_eq!(graph.dependents(1), Some(&vec![2]));
    assert_eq!(graph.dependents(2), Some(&vec![]));
    assert_eq!(graph.dependents(3), None);
    assert_eq!(graph.resolve(), Some(vec![0, 1, 2]));
}

#[test]
fn graph_without_nodes_resolves_to_nothing() {
    let graph = DependencyGraph::new(0);
    assert_eq!(graph.node_count(), 0);
    assert_eq!(graph.resolve(), Some(vec![]));
}

#[test]
fn graph_without_edges_resolves_in_rising_order() {
    assert_eq!(DependencyGraph::new(4).resolve(), Some(vec![0, 1, 2, 3]));
}

#[test]
fn graph_resolves_first_come_first_served() {
    // 3 requires 1 and 2; 1 requires 0; 2 requires 0; 4 requires nothing.
    let graph = DependencyGraph::new(5)
        .with_edge(1, 3)
        .with_edge(2, 3)
        .with_edge(0, 2)
        .with_edge(0, 1);
    assert_eq!(graph.in_degree(3), Some(2));
    assert_eq!(graph.dependents(0), Some(&vec![2, 1]));
    assert_eq!(graph.resolve(), Some(vec![0, 4, 2, 1, 3]));
}

#[test]
fn graph_with_a_cycle_does_not_resolve() {
    assert_eq!(DependencyGraph::new(1).with_edge(0, 0).resolve(), None);
    assert_eq!(DependencyGraph::new(2).with_edge(0, 1).with_edge(1, 0).resolve(), None);
    let graph = DependencyGraph::new(4).with_edge(0, 1).with_edge(1, 2).with_edge(2, 3).with_edge(3, 1);
    assert_eq!(graph.resolve(), None);
}

#[test]
fn graph_with_a_repeated_edge_resolves() {
    let graph = DependencyGraph::new(2).with_edge(1, 0).with_edge(1, 0);
    assert_eq!(graph.in_degree(0), Some(2));
    assert_eq!(graph.resolve(), Some(vec![1, 0]));
}
