use dijkstra::Djikstra;
use dijkstra::Edge;
use dijkstra::Graph;
use dijkstra::Vertex;

fn add_lane(
    nodes: &Vec<Vertex>,
    edges: &mut Vec<Edge>,
    lane_id: String,
    source_loc_no: usize,
    dest_loc_no: usize,
    duration: i32,
) {
    let e = Edge::new(
        lane_id,
        nodes[source_loc_no].clone(),
        nodes[dest_loc_no].clone(),
        duration,
    );
    edges.push(e);
}

fn five_vertex_graph() -> (Vec<Vertex>, Vec<Edge>) {
    let mut nodes = vec![];
    let mut edges = vec![];
    nodes.push(Vertex::new("A".into(), "A".into()));
    nodes.push(Vertex::new("B".into(), "B".into()));
    nodes.push(Vertex::new("C".into(), "C".into()));
    nodes.push(Vertex::new("D".into(), "D".into()));
    nodes.push(Vertex::new("E".into(), "E".into()));
    add_lane(&nodes, &mut edges, "AB".into(), 0, 1, 10);
    add_lane(&nodes, &mut edges, "AD".into(), 0, 3, 80);
    add_lane(&nodes, &mut edges, "BE".into(), 1, 4, 20);
    add_lane(&nodes, &mut edges, "BC".into(), 1, 2, 50);
    add_lane(&nodes, &mut edges, "DC".into(), 3, 2, 50);
    add_lane(&nodes, &mut edges, "CE".into(), 2, 4, 50);
    add_lane(&nodes, &mut edges, "EC".into(), 4, 2, 20);
    add_lane(&nodes, &mut edges, "ED".into(), 4, 3, 40);
    (nodes, edges)
}

fn six_vertex_graph() -> (Vec<Vertex>, Vec<Edge>) {
    let mut nodes = vec![];
    let mut edges = vec![];
    nodes.push(Vertex::new("A".into(), "A".into()));
    nodes.push(Vertex::new("B".into(), "B".into()));
    nodes.push(Vertex::new("C".into(), "C".into()));
    nodes.push(Vertex::new("D".into(), "D".into()));
    nodes.push(Vertex::new("E".into(), "E".into()));
    nodes.push(Vertex::new("F".into(), "F".into()));
    add_lane(&nodes, &mut edges, "AB".into(), 0, 1, 10);
    add_lane(&nodes, &mut edges, "AC".into(), 0, 2, 20);
    add_lane(&nodes, &mut edges, "BD".into(), 1, 3, 50);
    add_lane(&nodes, &mut edges, "BE".into(), 1, 4, 10);
    add_lane(&nodes, &mut edges, "CD".into(), 2, 3, 20);
    add_lane(&nodes, &mut edges, "CE".into(), 2, 4, 33);
    add_lane(&nodes, &mut edges, "DE".into(), 3, 4, 20);
    add_lane(&nodes, &mut edges, "DF".into(), 3, 5, 2);
    add_lane(&nodes, &mut edges, "EF".into(), 4, 5, 1);
    (nodes, edges)
}

#[test]
fn simple() {
    let (nodes, edges) = five_vertex_graph();
    let start = nodes[0].clone();
    let end = nodes[4].clone();
    let graph = Graph::new(nodes, edges);
    let mut djikstra = Djikstra::new(graph);
    djikstra.run(&start);
    let path = djikstra.get_path(&end);
    assert!(path.len() > 0);
}

#[test]
fn simple2() {
    let (nodes, edges) = six_vertex_graph();
    let start = nodes[0].clone();
    let end = nodes[5].clone();
    let graph = Graph::new(nodes, edges);
    let mut djikstra = Djikstra::new(graph);
    djikstra.run(&start);
    let path = djikstra.get_path(&end);
    assert!(path.len() > 0);
}

#[test]
fn five_vertex_distances() {
    let (nodes, edges) = five_vertex_graph();
    let start = nodes[0].clone();
    let graph = Graph::new(nodes.clone(), edges);
    let mut engine = Djikstra::new(graph);
    engine.run(&start);
    assert_eq!(engine.get_shortest_distance(&nodes[0]), 0);
    assert_eq!(engine.get_shortest_distance(&nodes[1]), 10);
    assert_eq!(engine.get_shortest_distance(&nodes[2]), 50);
    assert_eq!(engine.get_shortest_distance(&nodes[3]), 70);
    assert_eq!(engine.get_shortest_distance(&nodes[4]), 30);
    let path_e = engine.get_path(&nodes[4]);
    assert_eq!(path_e, vec!["A".to_string(), "B".to_string(), "E".to_string()]);
}

#[test]
fn six_vertex_distances() {
    let (nodes, edges) = six_vertex_graph();
    let start = nodes[0].clone();
    let graph = Graph::new(nodes.clone(), edges.clone());
    let mut engine = Djikstra::new(graph);
    engine.run(&start);
    // brute force over this small graph gives 21, via A -> B -> E -> F
    assert_eq!(engine.get_shortest_distance(&nodes[5]), 21);
    let path_f = engine.get_path(&nodes[5]);
    assert_eq!(*path_f.last().unwrap(), "F".to_string());
    // whatever path comes back, its edge weights sum to the distance
    let mut total = 0;
    for w in path_f.windows(2) {
        let mut weight = 0;
        for e in &edges {
            if e.source.id == w[0] && e.destination.id == w[1] {
                weight = e.weight;
            }
        }
        total += weight;
    }
    assert_eq!(total, 21);
}

#[test]
fn empty_graph() {
    let source = Vertex::new("S".into(), "source".into());
    let other = Vertex::new("X".into(), "other".into());
    let graph = Graph::new(vec![], vec![]);
    let mut engine = Djikstra::new(graph);
    engine.run(&source);
    assert_eq!(engine.get_shortest_distance(&source), 0);
    assert_eq!(engine.get_shortest_distance(&other), i32::MAX);
    assert!(engine.get_path(&source).is_empty());
    assert!(engine.get_path(&other).is_empty());
}

#[test]
fn unreachable_vertex() {
    let a = Vertex::new("A".into(), "A".into());
    let b = Vertex::new("B".into(), "B".into());
    let lonely = Vertex::new("L".into(), "L".into());
    let edges = vec![Edge::new("AB".into(), a.clone(), b.clone(), 4)];
    let graph = Graph::new(vec![a.clone(), b.clone(), lonely.clone()], edges);
    let mut engine = Djikstra::new(graph);
    engine.run(&a);
    assert_eq!(engine.get_shortest_distance(&lonely), i32::MAX);
    assert!(engine.get_path(&lonely).is_empty());
    assert!(!engine.is_settled(&lonely));
    assert!(engine.is_settled(&b));
}

#[test]
fn source_path_is_empty() {
    let (nodes, edges) = five_vertex_graph();
    let start = nodes[0].clone();
    let graph = Graph::new(nodes.clone(), edges);
    let mut engine = Djikstra::new(graph);
    engine.run(&start);
    // the source has no predecessor entry, so its own path reads empty
    assert!(engine.get_path(&start).is_empty());
}

#[test]
fn rerun_same_source() {
    let (nodes, edges) = five_vertex_graph();
    let start = nodes[0].clone();
    let graph = Graph::new(nodes.clone(), edges);
    let mut engine = Djikstra::new(graph);
    engine.run(&start);
    let first_dists: Vec<i32> = nodes.iter().map(|n| engine.get_shortest_distance(n)).collect();
    let first_paths: Vec<Vec<String>> = nodes.iter().map(|n| engine.get_path(n)).collect();
    engine.run(&start);
    let second_dists: Vec<i32> = nodes.iter().map(|n| engine.get_shortest_distance(n)).collect();
    let second_paths: Vec<Vec<String>> = nodes.iter().map(|n| engine.get_path(n)).collect();
    assert_eq!(first_dists, second_dists);
    assert_eq!(first_paths, second_paths);
}

#[test]
fn two_engines_agree() {
    let (nodes, edges) = five_vertex_graph();
    let start = nodes[0].clone();
    let mut one = Djikstra::new(Graph::new(nodes.clone(), edges.clone()));
    let mut two = Djikstra::new(Graph::new(nodes.clone(), edges));
    one.run(&start);
    two.run(&start);
    for n in &nodes {
        assert_eq!(one.get_shortest_distance(n), two.get_shortest_distance(n));
    }
}

#[test]
fn self_loop_changes_nothing() {
    let (nodes, mut edges) = five_vertex_graph();
    let start = nodes[0].clone();
    let mut plain = Djikstra::new(Graph::new(nodes.clone(), edges.clone()));
    plain.run(&start);
    let plain_dists: Vec<i32> = nodes.iter().map(|n| plain.get_shortest_distance(n)).collect();
    add_lane(&nodes, &mut edges, "BB".into(), 1, 1, 7);
    let mut looped = Djikstra::new(Graph::new(nodes.clone(), edges));
    looped.run(&start);
    let looped_dists: Vec<i32> = nodes.iter().map(|n| looped.get_shortest_distance(n)).collect();
    assert_eq!(plain_dists, looped_dists);
    // reconstructed paths stay cycle-free
    for n in &nodes {
        let path = looped.get_path(n);
        for i in 0..path.len() {
            for j in 0..i {
                assert_ne!(path[i], path[j]);
            }
        }
    }
}

#[test]
fn parallel_edges_take_the_cheapest() {
    let a = Vertex::new("A".into(), "A".into());
    let b = Vertex::new("B".into(), "B".into());
    let edges = vec![
        Edge::new("AB1".into(), a.clone(), b.clone(), 7),
        Edge::new("AB2".into(), a.clone(), b.clone(), 3),
    ];
    let graph = Graph::new(vec![a.clone(), b.clone()], edges);
    let mut engine = Djikstra::new(graph);
    engine.run(&a);
    assert_eq!(engine.get_shortest_distance(&b), 3);
}

#[test]
fn edge_weight_lookup_takes_the_last() {
    let a = Vertex::new("A".into(), "A".into());
    let b = Vertex::new("B".into(), "B".into());
    let c = Vertex::new("C".into(), "C".into());
    let edges = vec![
        Edge::new("AB1".into(), a.clone(), b.clone(), 7),
        Edge::new("AB2".into(), a.clone(), b.clone(), 3),
    ];
    let graph = Graph::new(vec![a.clone(), b.clone(), c.clone()], edges);
    let engine = Djikstra::new(graph);
    assert_eq!(engine.get_distance(&a, &b), 3);
    assert_eq!(engine.get_distance(&a, &c), 0);
}

#[test]
fn neighbors_before_any_run() {
    let a = Vertex::new("A".into(), "A".into());
    let b = Vertex::new("B".into(), "B".into());
    let c = Vertex::new("C".into(), "C".into());
    let edges = vec![
        Edge::new("AB".into(), a.clone(), b.clone(), 1),
        Edge::new("CA".into(), c.clone(), a.clone(), 2),
        Edge::new("AC".into(), a.clone(), c.clone(), 3),
    ];
    let graph = Graph::new(vec![a.clone(), b.clone(), c.clone()], edges);
    let engine = Djikstra::new(graph);
    let neighbors = engine.get_neighbors(&a);
    let ids: Vec<String> = neighbors.iter().map(|v| v.id.clone()).collect();
    assert_eq!(ids, vec!["B".to_string(), "C".to_string()]);
}

#[test]
fn vertex_equality_is_by_id() {
    let left = Vertex::new("X".into(), "first name".into());
    let right = Vertex::new("X".into(), "second name".into());
    let other = Vertex::new("Y".into(), "first name".into());
    assert!(left == right);
    assert!(left != other);
}
