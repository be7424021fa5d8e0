//! The graph model: vertices, directed weighted edges, and the graph
//! that owns them.  These are plain immutable records; the engine in
//! `crate::engine` consumes them.

use vstd::prelude::*;

verus! {

/// A graph node.  `id` is the identity key: two vertices are the same
/// vertex exactly when their `id`s match; `name` is display text only.
#[derive(Debug)]
pub struct Vertex {
    pub id: String,
    pub name: String,
}

impl Vertex {
    pub fn new(id: String, name: String) -> (v: Vertex)
        ensures
            v.id == id,
            v.name == name,
    {
        Vertex { id, name }
    }
}

impl Clone for Vertex {
    fn clone(&self) -> (v: Vertex)
        ensures
            v == *self,
    {
        Vertex { id: self.id.clone(), name: self.name.clone() }
    }
}

impl PartialEq for Vertex {
    /// Vertices are compared by `id` alone, not by the whole record.
    fn eq(&self, other: &Vertex) -> bool {
        self.id == other.id
    }
}

impl vstd::std_specs::cmp::PartialEqSpecImpl for Vertex {
    open spec fn obeys_eq_spec() -> bool {
        true
    }

    open spec fn eq_spec(&self, other: &Vertex) -> bool {
        self.id@ == other.id@
    }
}

/// A directed edge from `source` to `destination` with a non-negative
/// integer `weight`.  No reverse edge is implied.
#[derive(Debug)]
pub struct Edge {
    pub id: String,
    pub source: Vertex,
    pub destination: Vertex,
    pub weight: i32,
}

impl Edge {
    pub fn new(id: String, source: Vertex, destination: Vertex, weight: i32) -> (e: Edge)
        ensures
            e.id == id,
            e.source == source,
            e.destination == destination,
            e.weight == weight,
    {
        Edge { id, source, destination, weight }
    }
}

impl Clone for Edge {
    fn clone(&self) -> (e: Edge)
        ensures
            e == *self,
    {
        Edge {
            id: self.id.clone(),
            source: self.source.clone(),
            destination: self.destination.clone(),
            weight: self.weight,
        }
    }
}

/// An ordered collection of vertices and edges.  No validation is done:
/// duplicate ids, dangling edge endpoints and self-loops are accepted.
#[derive(Debug)]
pub struct Graph {
    pub vertices: Vec<Vertex>,
    pub edges: Vec<Edge>,
}

impl Graph {
    pub fn new(vertices: Vec<Vertex>, edges: Vec<Edge>) -> (g: Graph)
        ensures
            g.vertices == vertices,
            g.edges == edges,
    {
        Graph { vertices, edges }
    }
}

} // verus!
