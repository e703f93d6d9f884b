//! The map as a decoder of the markup format hands it over: tags as a list of
//! key/value pairs, coordinates in units of 1e-7 degree.
use vstd::prelude::*;

verus! {

/// A decoded extract.
#[derive(Debug)]
pub struct OSM {
    pub version: String,
    pub generator: String,
    pub note: String,
    pub meta: Meta,
    pub bounds: Bounds,
    pub nodes: Vec<Node>,
    pub ways: Vec<Way>,
    pub relations: Vec<Relation>,
}

/// What the source of the extract says of its own state.
#[derive(Debug)]
pub struct Meta {
    pub osm_base: String,
}

/// The box that the extract covers, in units of 1e-7 degree.
#[derive(Debug)]
pub struct Bounds {
    pub minlat: i64,
    pub minlon: i64,
    pub maxlat: i64,
    pub maxlon: i64,
}

/// A decoded node; latitude and longitude in units of 1e-7 degree.
#[derive(Debug)]
pub struct Node {
    pub id: i64,
    pub lat: i64,
    pub lon: i64,
    pub version: u16,
    pub timestamp: String,
    pub changeset: u64,
    pub uid: Option<i64>,
    pub user: Option<String>,
    pub tags: Vec<Tag>,
}

/// One key/value tag.
#[derive(Debug)]
pub struct Tag {
    pub k: String,
    pub v: String,
}

/// A decoded way.
#[derive(Debug)]
pub struct Way {
    pub id: i64,
    pub version: u16,
    pub timestamp: String,
    pub changeset: u64,
    pub uid: Option<i64>,
    pub user: Option<String>,
    pub node_refs: Vec<NodeRef>,
    pub tags: Vec<Tag>,
}

/// A decoded reference from a way to a node.
#[derive(Debug)]
pub struct NodeRef {
    pub id: i64,
}

/// A decoded relation.
#[derive(Debug)]
pub struct Relation {
    pub id: i64,
    pub version: u16,
    pub timestamp: String,
    pub changeset: u64,
    pub uid: Option<i64>,
    pub user: Option<String>,
    pub members: Vec<Member>,
    pub tags: Vec<Tag>,
}

/// A decoded member of a relation.
#[derive(Debug)]
pub struct Member {
    pub kind: String,
    pub id: u64,
    pub role: String,
}

} // verus!
