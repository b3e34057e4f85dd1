use include_shader::DependencyGraph;

fn graph(edges: &[(&str, &str)]) -> DependencyGraph {
    let mut g = DependencyGraph::new();
    for (a, b) in edges {
        g.add_edge(String::from(*a), String::from(*b));
    }
    g
}

fn is_valid_simple_cycle(edges: &[(&str, &str)], cycle: &[String]) -> bool {
    if cycle.len() < 2 || cycle[0] != cycle[cycle.len() - 1] {
        return false;
    }
    for w in cycle.windows(2) {
        if !edges.iter().any(|(a, b)| *a == w[0] && *b == w[1]) {
            return false;
        }
    }
    let body = &cycle[..cycle.len() - 1];
    for i in 0..body.len() {
        for j in (i + 1)..body.len() {
            if body[i] == body[j] {
                return false;
            }
        }
    }
    true
}

#[test]
fn contains_no_cycle_when_empty() {
    let dependency_graph = DependencyGraph::new();
    let cycle = dependency_graph.find_cycle();

    assert_eq!(cycle, None);
}

#[test]
fn contains_no_cycle_when_no_back_edge() {
    let mut dependency_graph = DependencyGraph::new();

    dependency_graph.add_edge(String::from("A"), String::from("B"));
    dependency_graph.add_edge(String::from("B"), String::from("C"));
    dependency_graph.add_edge(String::from("C"), String::from("D"));
    dependency_graph.add_edge(String::from("A"), String::from("D"));

    let cycle = dependency_graph.find_cycle();

    assert_eq!(cycle, None);
}

#[test]
fn contains_cycle_when_loop() {
    let mut dependency_graph = DependencyGraph::new();

    dependency_graph.add_edge(String::from("A"), String::from("A"));

    let cycle = dependency_graph.find_cycle().unwrap();

    assert_eq!(cycle, vec![String::from("A"), String::from("A")]);
}

#[test]
fn contains_cycle_when_back_edge() {
    let mut dependency_graph = DependencyGraph::new();

    dependency_graph.add_edge(String::from("A"), String::from("B"));
    dependency_graph.add_edge(String::from("B"), String::from("C"));
    dependency_graph.add_edge(String::from("C"), String::from("B"));
    dependency_graph.add_edge(String::from("C"), String::from("D"));

    let cycle = dependency_graph.find_cycle().unwrap();

    assert_eq!(cycle.len(), 3);
}

#[test]
fn back_edge_cycle_holds_exactly_b_and_c() {
    let edges = [("A", "B"), ("B", "C"), ("C", "B"), ("C", "D")];
    let cycle = graph(&edges).find_cycle().unwrap();
    assert!(is_valid_simple_cycle(&edges, &cycle));
    let mut distinct: Vec<String> = cycle[..cycle.len() - 1].to_vec();
    distinct.sort();
    assert_eq!(distinct, vec![String::from("B"), String::from("C")]);
}

#[test]
fn acyclic_diamond_and_chain_have_no_cycle() {
    let edges = [("A", "B"), ("A", "C"), ("B", "D"), ("C", "D"), ("D", "E"), ("X", "Y")];
    assert_eq!(graph(&edges).find_cycle(), None);
}

#[test]
fn self_edge_among_acyclic_edges_is_reported_alone() {
    let edges = [("A", "B"), ("B", "C"), ("C", "C"), ("A", "C")];
    let cycle = graph(&edges).find_cycle().unwrap();
    assert_eq!(cycle, vec![String::from("C"), String::from("C")]);
}

#[test]
fn long_cycle_has_one_more_entry_than_vertices() {
    let edges = [("A", "B"), ("B", "C"), ("C", "D"), ("D", "E"), ("E", "B")];
    let cycle = graph(&edges).find_cycle().unwrap();
    assert!(is_valid_simple_cycle(&edges, &cycle));
    assert_eq!(cycle.len(), 5);
}

#[test]
fn cycle_in_second_component_is_found() {
    let edges = [("A", "B"), ("X", "Y"), ("Y", "Z"), ("Z", "X")];
    let cycle = graph(&edges).find_cycle().unwrap();
    assert!(is_valid_simple_cycle(&edges, &cycle));
    assert_eq!(cycle.len(), 4);
}

#[test]
fn two_node_cycle_is_a_b_a_or_b_a_b() {
    let edges = [("A", "B"), ("B", "A")];
    let cycle = graph(&edges).find_cycle().unwrap();
    let aba = vec![String::from("A"), String::from("B"), String::from("A")];
    let bab = vec![String::from("B"), String::from("A"), String::from("B")];
    assert!(cycle == aba || cycle == bab);
}

#[test]
fn adding_an_edge_twice_changes_nothing() {
    let mut g = DependencyGraph::new();
    g.add_edge(String::from("A"), String::from("B"));
    g.add_edge(String::from("A"), String::from("B"));
    assert_eq!(g.find_cycle(), None);
    g.add_edge(String::from("B"), String::from("A"));
    assert_eq!(g.find_cycle().unwrap().len(), 3);
}

#[test]
fn cycle_is_detected_on_the_edge_that_closes_it() {
    let mut g = DependencyGraph::new();
    g.add_edge(String::from("A"), String::from("B"));
    assert_eq!(g.find_cycle(), None);
    g.add_edge(String::from("B"), String::from("C"));
    assert_eq!(g.find_cycle(), None);
    g.add_edge(String::from("C"), String::from("A"));
    let cycle = g.find_cycle().unwrap();
    assert!(is_valid_simple_cycle(&[("A", "B"), ("B", "C"), ("C", "A")], &cycle));
    assert_eq!(cycle.len(), 4);
}

#[test]
fn self_edge_beside_another_cycle_yields_a_valid_cycle() {
    let edges = [("B", "C"), ("C", "B"), ("A", "A")];
    let cycle = graph(&edges).find_cycle().unwrap();
    assert!(is_valid_simple_cycle(&edges, &cycle));
}

#[test]
fn cycle_takes_the_shortest_way_back() {
    let edges = [("A", "B"), ("B", "C"), ("C", "D"), ("D", "A"), ("B", "D")];
    let cycle = graph(&edges).find_cycle().unwrap();
    assert!(is_valid_simple_cycle(&edges, &cycle));
    assert_eq!(cycle.len(), 4);
}
