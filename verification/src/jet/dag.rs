//! The shape of a job: vertices and the edges between them.

use vstd::prelude::*;

verus! {

#[derive(Clone, Debug, PartialEq, Eq)]
pub struct Edge {
    pub source_vertex: String,
    pub source_ordinal: i32,
    pub dest_vertex: String,
    pub dest_ordinal: i32,
    pub priority: i32,
    pub is_buffered: bool,
}

#[derive(Clone, Debug, PartialEq, Eq)]
pub struct Vertex {
    pub name: String,
    pub processor_meta: Vec<u8>,
    pub local_parallelism: i32,
}

#[derive(Clone, Debug, PartialEq, Eq)]
pub struct Dag {
    pub vertices: Vec<Vertex>,
    pub edges: Vec<Edge>,
}

impl Dag {
    pub fn new() -> (d: Dag)
        ensures
            d.vertices@.len() == 0,
            d.edges@.len() == 0,
    {
        Dag { vertices: Vec::new(), edges: Vec::new() }
    }
}

} // verus!
