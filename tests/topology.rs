use qi_rust::topology::Topology;

fn init_topology() -> Topology<String> {
    let mut graph = Topology::new();
    graph.add_node(&String::from("a"));
    graph.add_node(&String::from("b"));
    graph.add_node(&String::from("c"));
    graph.add_node(&String::from("d"));

    graph
}

#[test]
fn empty_parent() {
    let mut graph = Topology::new();

    let sa = String::from("a");
    let sb = String::from("b");

    graph.add_edge(&sa, &sb);

    let results = match graph.sort(&sa) {
        Err(e) => {
            panic!("{:?}", e)
        }
        Ok(x) => x,
    };

    assert_eq!(results.get(0).unwrap(), &sb);
}

#[test]
fn top_sort_1() {
    let mut graph = init_topology();

    let (a, b, c) = (&"a".to_string(), &"b".to_string(), &"c".to_string());

    // a -> b -> c
    graph.add_edge(a, b);
    graph.add_edge(b, c);

    let results = match graph.sort(a) {
        Err(e) => {
            panic!("{:?}", e)
        }
        Ok(x) => x,
    };

    assert_eq!(results, vec![c.to_owned(), b.to_owned(), a.to_owned()]);
}

#[test]
fn top_sort_2() {
    let mut graph = init_topology();

    let (a, b, c) = (&"a".to_string(), &"b".to_string(), &"c".to_string());

    // a -> c
    // a -> b
    // b -> c
    graph.add_edge(a, c);
    graph.add_edge(a, b);
    graph.add_edge(b, c);

    let results = match graph.sort(a) {
        Err(e) => {
            panic!("{:?}", e)
        }
        Ok(x) => x,
    };

    assert_eq!(results, vec![c.to_owned(), b.to_owned(), a.to_owned()]);
}

#[test]
fn top_sort_3() {
    let mut graph = init_topology();

    let (a, b, c, d) = (
        &"a".to_string(),
        &"b".to_string(),
        &"c".to_string(),
        &"d".to_string(),
    );

    // a -> b
    // a -> d
    // d -> c
    // c -> b
    graph.add_edge(a, b);
    graph.add_edge(a, d);
    graph.add_edge(d, c);
    graph.add_edge(c, b);

    let results = match graph.sort(a) {
        Err(e) => {
            panic!("{:?}", e)
        }
        Ok(x) => x,
    };

    assert_eq!(
        results,
        vec![b.to_owned(), c.to_owned(), d.to_owned(), a.to_owned()]
    );
}

#[test]
fn two_node_cycle_reports_both() {
    let mut graph: Topology<String> = Topology::new();
    let (x, y) = ("x".to_string(), "y".to_string());
    graph.add_edge(&x, &y);
    graph.add_edge(&y, &x);
    let err = graph.sort(&x).unwrap_err();
    assert_eq!(err.path, vec![x.clone(), y.clone()]);
    assert!(err.path.contains(&x) && err.path.contains(&y));
}

#[test]
fn cycle_below_start_reports_path_into_it() {
    let mut graph: Topology<String> = Topology::new();
    let s = |v: &str| v.to_string();
    graph.add_edge(&s("a"), &s("x"));
    graph.add_edge(&s("x"), &s("y"));
    graph.add_edge(&s("y"), &s("x"));
    let err = graph.sort(&s("a")).unwrap_err();
    assert_eq!(err.path, vec![s("a"), s("x"), s("y")]);
}

#[test]
fn self_dependency_is_a_cycle() {
    let mut graph: Topology<u32> = Topology::new();
    graph.add_edge(&1, &1);
    let err = graph.sort(&1).unwrap_err();
    assert_eq!(err.path, vec![1]);
}

#[test]
fn shared_dependency_is_emitted_once() {
    let mut graph: Topology<u32> = Topology::new();
    graph.add_edge(&1, &2);
    graph.add_edge(&1, &3);
    graph.add_edge(&2, &4);
    graph.add_edge(&3, &4);
    graph.add_edge(&2, &4);
    assert_eq!(graph.sort(&1).unwrap(), vec![4, 2, 3, 1]);
}

#[test]
fn unknown_start_has_no_dependencies() {
    let graph: Topology<u32> = Topology::new();
    assert_eq!(graph.sort(&5).unwrap(), vec![5]);
}

#[test]
fn node_without_edges_sorts_alone() {
    let graph = init_topology();
    assert_eq!(graph.sort(&"c".to_string()).unwrap(), vec!["c".to_string()]);
}

#[test]
fn adding_a_node_again_keeps_its_edges() {
    let mut graph: Topology<String> = Topology::new();
    let (a, b) = ("a".to_string(), "b".to_string());
    graph.add_edge(&a, &b);
    graph.add_node(&a);
    graph.add_edge(&a, &b);
    assert_eq!(graph.sort(&a).unwrap(), vec![b.clone(), a.clone()]);
}
