//! The map model that route search reads, with its query helpers.
use crate::osm;
use std::collections::HashMap;
use vstd::prelude::*;
use vstd::std_specs::hash::obeys_key_model;

verus! {

/// True when `p` is the first position of `x` in `s`.
pub open spec fn is_first(s: Seq<i64>, x: i64, p: int) -> bool {
    &&& 0 <= p < s.len()
    &&& s[p] == x
    &&& forall|j: int| 0 <= j < p ==> s[j] != x
}

/// The first position of `x` in `s` (meaningful when `x` occurs in `s`).
pub open spec fn first_pos(s: Seq<i64>, x: i64) -> int {
    choose|p: int| is_first(s, x, p)
}

/// The ids adjacent to the first occurrence of `x` in `s`: the one before it,
/// then the one after it, each where it exists.
pub open spec fn neighbors_in(s: Seq<i64>, x: i64) -> Seq<i64> {
    if s.contains(x) {
        let p = first_pos(s, x);
        let before = if p > 0 { seq![s[p - 1]] } else { Seq::<i64>::empty() };
        let after = if p + 1 < s.len() { seq![s[p + 1]] } else { Seq::<i64>::empty() };
        before + after
    } else {
        Seq::<i64>::empty()
    }
}

/// The stretch of `s` that leads from `start` to `end`, each taken at its
/// first occurrence; `None` when either is missing.
pub open spec fn extract_spec(s: Seq<i64>, start: i64, end: i64) -> Option<Seq<i64>> {
    if start == end {
        Some(seq![start])
    } else if !s.contains(start) || !s.contains(end) {
        None
    } else {
        let i = first_pos(s, start);
        let j = first_pos(s, end);
        if i < j {
            Some(s.subrange(i, j + 1))
        } else {
            Some(s.subrange(j, i + 1).reverse())
        }
    }
}

/// A first position is the only one.
pub proof fn lemma_first_pos(s: Seq<i64>, x: i64, p: int)
    requires
        is_first(s, x, p),
    ensures
        first_pos(s, x) == p,
        s.contains(x),
{
    let q = first_pos(s, x);
    assert(is_first(s, x, q));
    if q < p {
        assert(s[q] != x);
    } else if p < q {
        assert(s[p] != x);
    }
}

/// Every id that occurs has a first position.
pub proof fn lemma_first_exists(s: Seq<i64>, x: i64)
    requires
        s.contains(x),
    ensures
        is_first(s, x, first_pos(s, x)),
    decreases s.len(),
{
    let k = choose|k: int| 0 <= k < s.len() && s[k] == x;
    let t = s.drop_last();
    if t.contains(x) {
        lemma_first_exists(t, x);
        let p = first_pos(t, x);
        assert forall|j: int| 0 <= j < p implies s[j] != x by {
            assert(t[j] == s[j]);
        }
        assert(t[p] == s[p]);
        assert(is_first(s, x, p));
        lemma_first_pos(s, x, p);
    } else {
        assert(k == s.len() - 1) by {
            if k < s.len() - 1 {
                assert(t[k] == x);
            }
        }
        assert forall|j: int| 0 <= j < s.len() - 1 implies s[j] != x by {
            assert(t[j] == s[j]);
        }
        assert(is_first(s, x, s.len() - 1));
        lemma_first_pos(s, x, s.len() - 1);
    }
}

/// Two ids that occur in a way, first at positions `i < j`: the stretch from
/// the one to the other is `ids[i..=j]`, and the stretch back is its reverse.
pub proof fn lemma_extract_between(way: Way, id1: i64, id2: i64, i: int, j: int)
    requires
        is_first(way.ids(), id1, i),
        is_first(way.ids(), id2, j),
        i < j,
    ensures
        extract_spec(way.ids(), id1, id2) == Some(way.ids().subrange(i, j + 1)),
        extract_spec(way.ids(), id2, id1) == Some(way.ids().subrange(i, j + 1).reverse()),
{
    lemma_first_pos(way.ids(), id1, i);
    lemma_first_pos(way.ids(), id2, j);
}

/// Two different ids, one of which does not occur in a way: there is no
/// stretch between them.
pub proof fn lemma_extract_absent(way: Way, id1: i64, id2: i64)
    requires
        id1 != id2,
        !way.ids().contains(id1) || !way.ids().contains(id2),
    ensures
        extract_spec(way.ids(), id1, id2) is None,
        extract_spec(way.ids(), id2, id1) is None,
{
}

/// The ids of `v` in the opposite order.
pub fn reversed(v: &Vec<i64>) -> (r: Vec<i64>)
    ensures
        r@ == v@.reverse(),
{
    let n = v.len();
    let mut r: Vec<i64> = Vec::new();
    let mut k: usize = n;
    while k > 0
        invariant
            n == v@.len(),
            k <= n,
            r@.len() == n - k,
            forall|i: int| 0 <= i < n - k ==> r@[i] == v@[n - 1 - i],
        decreases k,
    {
        k = k - 1;
        r.push(v[k]);
    }
    assert(r@ =~= v@.reverse());
    r
}

/// Where a single pass over a way stands while it extracts a stretch.
enum Scan {
    /// Neither end has been met yet.
    Unset,
    /// The start came first; the pass collects ids up to the end.
    SeekingEnd,
    /// The end came first; the pass collects ids up to the start.
    SeekingStart,
}

/// A map extract: nodes, the ways between them and the relations over both.
/// Node ids are meant to be unique; where one repeats, its first node counts.
#[derive(Debug)]
pub struct MapData {
    pub version: String,
    pub generator: String,
    pub note: String,
    pub meta: Meta,
    pub bounds: Bounds,
    pub nodes: Vec<Node>,
    pub ways: Vec<Way>,
    pub relations: Vec<Relation>,
}

impl MapData {
    /// The ids of the map's nodes, in order.
    pub open spec fn node_ids(&self) -> Seq<i64> {
        self.nodes@.map_values(|n: Node| n.id)
    }

    /// Whether the map holds a node with this id.
    pub open spec fn has_node(&self, id: i64) -> bool {
        self.node_ids().contains(id)
    }

    /// The position of the node that stands for `id`: its first occurrence.
    pub open spec fn node_pos(&self, id: i64) -> int {
        first_pos(self.node_ids(), id)
    }

    /// The position of the first node with id `node_id`.
    pub fn node_index(&self, node_id: i64) -> (r: Option<usize>)
        ensures
            self.node_ids().len() == self.nodes@.len(),
            match r {
                Some(p) => is_first(self.node_ids(), node_id, p as int) && p == self.node_pos(
                    node_id,
                ) && self.has_node(node_id),
                None => !self.has_node(node_id),
            },
    {
        let n = self.nodes.len();
        let mut i: usize = 0;
        while i < n
            invariant
                n == self.nodes@.len(),
                i <= n,
                forall|j: int| 0 <= j < i ==> self.node_ids()[j] != node_id,
            decreases n - i,
        {
            if self.nodes[i].id == node_id {
                proof {
                    lemma_first_pos(self.node_ids(), node_id, i as int);
                }
                return Some(i);
            }
            i = i + 1;
        }
        None
    }

    /// The first node with id `node_id`, if any.
    pub fn find_node(&self, node_id: i64) -> (r: Option<&Node>)
        ensures
            match r {
                Some(node) => self.has_node(node_id) && *node == self.nodes@[self.node_pos(node_id)]
                    && node.id == node_id,
                None => !self.has_node(node_id),
            },
    {
        match self.node_index(node_id) {
            Some(i) => Some(&self.nodes[i]),
            None => None,
        }
    }

    /// The ways that pass through `node`, in map order.
    pub fn ways_for_node(&self, node: &Node) -> (r: Vec<&Way>)
        ensures
            r@.len() == self.ways@.filter(|w: Way| w.ids().contains(node.id)).len(),
            forall|k: int|
                0 <= k < r@.len() ==> *r@[k] == self.ways@.filter(|w: Way| w.ids().contains(node.id))[k],
    {
        let ghost pred = |w: Way| w.ids().contains(node.id);
        let n = self.ways.len();
        let mut r: Vec<&Way> = Vec::new();
        let mut i: usize = 0;
        while i < n
            invariant
                n == self.ways@.len(),
                i <= n,
                pred == (|w: Way| w.ids().contains(node.id)),
                r@.len() == self.ways@.take(i as int).filter(pred).len(),
                forall|k: int| 0 <= k < r@.len() ==> *r@[k] == self.ways@.take(i as int).filter(pred)[k],
            decreases n - i,
        {
            let way = &self.ways[i];
            proof {
                reveal(Seq::filter);
                assert(self.ways@.take(i + 1).drop_last() =~= self.ways@.take(i as int));
            }
            if way.contains_node_id(node.id) {
                r.push(way);
            }
            i = i + 1;
        }
        assert(self.ways@.take(n as int) =~= self.ways@);
        r
    }
}

/// What the source of the extract says of its own state.
#[derive(Debug, PartialEq, Eq)]
pub struct Meta {
    pub osm_base: String,
}

/// The box that the extract covers, in units of 1e-7 degree.
#[derive(Debug, PartialEq, Eq, Clone, Copy)]
pub struct Bounds {
    pub minlat: i64,
    pub minlon: i64,
    pub maxlat: i64,
    pub maxlon: i64,
}

/// A single addressable point. Latitude and longitude are in units of 1e-7
/// degree; `name` holds the value of the `name` tag, `tags` the others.
#[derive(Debug, PartialEq)]
pub struct Node {
    pub id: i64,
    pub lat: i64,
    pub lon: i64,
    pub version: u16,
    pub timestamp: String,
    pub changeset: u64,
    pub uid: Option<i64>,
    pub user: Option<String>,
    pub name: Option<String>,
    pub tags: HashMap<String, String>,
}

/// An aggregate of ways, nodes and relations, each with a role.
#[derive(Debug, PartialEq)]
pub struct Relation {
    pub id: i64,
    pub version: u16,
    pub timestamp: String,
    pub changeset: u64,
    pub uid: Option<i64>,
    pub user: Option<String>,
    pub members: Vec<Member>,
    pub name: Option<String>,
    pub tags: HashMap<String, String>,
}

/// One member of a relation: what it is, its id and its role.
#[derive(Debug, PartialEq, Eq)]
pub struct Member {
    pub kind: String,
    pub id: i64,
    pub role: String,
}

/// A reference from a way to one of its nodes.
#[derive(Debug, PartialEq, Eq, Clone, Copy)]
pub struct NodeRef {
    pub id: i64,
}

/// A polyline: consecutive entries of `node_refs` are connected.
#[derive(Debug, PartialEq)]
pub struct Way {
    pub id: i64,
    pub version: u16,
    pub timestamp: String,
    pub changeset: u64,
    pub uid: Option<i64>,
    pub user: Option<String>,
    pub node_refs: Vec<NodeRef>,
    pub name: Option<String>,
    pub tags: HashMap<String, String>,
}

/// The node ids of a list of references, in order.
pub open spec fn ref_ids(refs: Seq<NodeRef>) -> Seq<i64> {
    refs.map_values(|r: NodeRef| r.id)
}

impl Way {
    /// The node ids of this way, in order.
    pub open spec fn ids(&self) -> Seq<i64> {
        ref_ids(self.node_refs@)
    }

    /// The first position of `node_id` in this way.
    fn position(&self, node_id: i64) -> (r: Option<usize>)
        ensures
            self.ids().len() == self.node_refs@.len(),
            match r {
                Some(p) => is_first(self.ids(), node_id, p as int),
                None => !self.ids().contains(node_id),
            },
    {
        let n = self.node_refs.len();
        let mut i: usize = 0;
        while i < n
            invariant
                n == self.node_refs@.len(),
                i <= n,
                forall|j: int| 0 <= j < i ==> self.ids()[j] != node_id,
            decreases n - i,
        {
            if self.node_refs[i].id == node_id {
                return Some(i);
            }
            i = i + 1;
        }
        None
    }

    /// Whether `node_id` occurs in this way.
    pub fn contains_node_id(&self, node_id: i64) -> (r: bool)
        ensures
            r == self.ids().contains(node_id),
    {
        match self.position(node_id) {
            Some(p) => {
                proof {
                    lemma_first_pos(self.ids(), node_id, p as int);
                }
                true
            },
            None => false,
        }
    }

    /// The ids next to the first occurrence of `node_id`: the one before it,
    /// then the one after it, each where it exists.
    pub fn neighbors_of_node(&self, node_id: i64) -> (r: Vec<i64>)
        ensures
            r@ == neighbors_in(self.ids(), node_id),
    {
        let mut result: Vec<i64> = Vec::new();
        match self.position(node_id) {
            Some(index) => {
                proof {
                    lemma_first_pos(self.ids(), node_id, index as int);
                }
                let len = self.node_refs.len();
                if index > 0 {
                    result.push(self.node_refs[index - 1].id);
                }
                if index < len - 1 {
                    result.push(self.node_refs[index + 1].id);
                }
                assert(result@ =~= neighbors_in(self.ids(), node_id));
            },
            None => {
                assert(result@ =~= neighbors_in(self.ids(), node_id));
            },
        }
        result
    }

    /// The ids that lead along this way from `start_id` to `end_id`, both
    /// included, each taken at its first occurrence. A single id when the two
    /// are equal; `None` when either does not occur.
    pub fn find_path(&self, start_id: i64, end_id: i64) -> (r: Option<Vec<i64>>)
        ensures
            match r {
                Some(v) => extract_spec(self.ids(), start_id, end_id) == Some(v@),
                None => extract_spec(self.ids(), start_id, end_id) is None,
            },
    {
        if start_id == end_id {
            let v = vec![start_id];
            assert(v@ =~= seq![start_id]);
            return Some(v);
        }
        if !self.contains_node_id(start_id) || !self.contains_node_id(end_id) {
            return None;
        }
        let ghost s = self.ids();
        proof {
            lemma_first_exists(s, start_id);
            lemma_first_exists(s, end_id);
        }
        let ghost i0 = first_pos(s, start_id);
        let ghost j0 = first_pos(s, end_id);
        let n = self.node_refs.len();
        let mut path: Vec<i64> = Vec::new();
        let mut state = Scan::Unset;
        let mut k: usize = 0;
        while k < n
            invariant
                s == self.ids(),
                n == s.len(),
                k <= n,
                start_id != end_id,
                is_first(s, start_id, i0),
                is_first(s, end_id, j0),
                state is Unset ==> k <= i0 && k <= j0 && path@.len() == 0,
                state is SeekingEnd ==> i0 < k <= j0 && path@ == s.subrange(i0, k as int),
                state is SeekingStart ==> j0 < k <= i0 && path@ == s.subrange(j0, k as int),
            decreases n - k,
        {
            let id = self.node_refs[k].id;
            assert(id == s[k as int]);
            match state {
                Scan::Unset => {
                    if id == start_id {
                        state = Scan::SeekingEnd;
                        path.push(id);
                    } else if id == end_id {
                        state = Scan::SeekingStart;
                        path.push(id);
                    }
                },
                Scan::SeekingEnd => {
                    path.push(id);
                    if id == end_id {
                        assert(path@ =~= s.subrange(i0, j0 + 1));
                        return Some(path);
                    }
                },
                Scan::SeekingStart => {
                    path.push(id);
                    if id == start_id {
                        assert(path@ =~= s.subrange(j0, i0 + 1));
                        let back = reversed(&path);
                        return Some(back);
                    }
                },
            }
            k = k + 1;
        }
        None
    }
}

/// The key whose value becomes an entity's name.
pub open spec fn is_name_key(k: String) -> bool {
    k@ == seq!['n', 'a', 'm', 'e']
}

/// The value of the last `name` tag, if any.
pub open spec fn name_tag(tags: Seq<osm::Tag>) -> Option<String>
    decreases tags.len(),
{
    if tags.len() == 0 {
        None
    } else if is_name_key(tags.last().k) {
        Some(tags.last().v)
    } else {
        name_tag(tags.drop_last())
    }
}

/// The tags other than `name`, as a map in which a later tag overrides an
/// earlier one with the same key.
pub open spec fn other_tags(tags: Seq<osm::Tag>) -> Map<String, String>
    decreases tags.len(),
{
    if tags.len() == 0 {
        Map::empty()
    } else if is_name_key(tags.last().k) {
        other_tags(tags.drop_last())
    } else {
        other_tags(tags.drop_last()).insert(tags.last().k, tags.last().v)
    }
}

/// Splits a tag list into the value of its `name` tag and a map of the rest.
/// The map's contents are stated where `String` keys hash as their value.
pub fn lift_tags(tags: &Vec<osm::Tag>) -> (r: (Option<String>, HashMap<String, String>))
    ensures
        r.0 == name_tag(tags@),
        obeys_key_model::<String>() ==> r.1@ == other_tags(tags@),
{
    let name_key: String = "name".to_owned();
    proof {
        reveal_strlit("name");
    }
    assert(name_key@ =~= seq!['n', 'a', 'm', 'e']);
    let mut name: Option<String> = None;
    let mut rest: HashMap<String, String> = HashMap::new();
    let n = tags.len();
    let mut i: usize = 0;
    while i < n
        invariant
            n == tags@.len(),
            i <= n,
            is_name_key(name_key),
            name == name_tag(tags@.take(i as int)),
            obeys_key_model::<String>() ==> rest@ == other_tags(tags@.take(i as int)),
        decreases n - i,
    {
        let tag = &tags[i];
        proof {
            assert(tags@.take(i + 1).drop_last() =~= tags@.take(i as int));
            assert(tags@.take(i + 1).last() == tags@[i as int]);
        }
        if tag.k == name_key {
            name = Some(tag.v.clone());
        } else {
            rest.insert(tag.k.clone(), tag.v.clone());
        }
        i = i + 1;
    }
    assert(tags@.take(n as int) =~= tags@);
    (name, rest)
}

/// A copy of an optional string.
fn copy_text(o: &Option<String>) -> (r: Option<String>)
    ensures
        r == *o,
{
    match o {
        Some(t) => Some(t.clone()),
        None => None,
    }
}

/// `r` is the node that the decoded `node` stands for: the same fields, with
/// the `name` tag lifted out of the tags. The tag map is stated where
/// `String` keys hash as their value.
pub open spec fn node_converted(r: Node, node: osm::Node) -> bool {
    &&& r.id == node.id
    &&& r.lat == node.lat
    &&& r.lon == node.lon
    &&& r.version == node.version
    &&& r.timestamp == node.timestamp
    &&& r.changeset == node.changeset
    &&& r.uid == node.uid
    &&& r.user == node.user
    &&& r.name == name_tag(node.tags@)
    &&& obeys_key_model::<String>() ==> r.tags@ == other_tags(node.tags@)
}

/// `r` is the way that the decoded `way` stands for: the same fields and node
/// references in order, with the `name` tag lifted out of the tags.
pub open spec fn way_converted(r: Way, way: osm::Way) -> bool {
    &&& r.id == way.id
    &&& r.version == way.version
    &&& r.timestamp == way.timestamp
    &&& r.changeset == way.changeset
    &&& r.uid == way.uid
    &&& r.user == way.user
    &&& r.ids() == way.node_refs@.map_values(|nr: osm::NodeRef| nr.id)
    &&& r.name == name_tag(way.tags@)
    &&& obeys_key_model::<String>() ==> r.tags@ == other_tags(way.tags@)
}

/// `r` is the member that the decoded `member` stands for; its id read as
/// signed.
pub open spec fn member_converted(r: Member, member: osm::Member) -> bool {
    &&& r.kind == member.kind
    &&& r.id == member.id as i64
    &&& r.role == member.role
}

/// `r` is the relation that the decoded `relation` stands for: the same
/// fields, each member converted in order, with the `name` tag lifted out of
/// the tags.
pub open spec fn relation_converted(r: Relation, relation: osm::Relation) -> bool {
    &&& r.id == relation.id
    &&& r.version == relation.version
    &&& r.timestamp == relation.timestamp
    &&& r.changeset == relation.changeset
    &&& r.uid == relation.uid
    &&& r.user == relation.user
    &&& r.members@.len() == relation.members@.len()
    &&& forall|k: int|
        0 <= k < r.members@.len() ==> member_converted(#[trigger] r.members@[k], relation.members@[k])
    &&& r.name == name_tag(relation.tags@)
    &&& obeys_key_model::<String>() ==> r.tags@ == other_tags(relation.tags@)
}

/// `r` is the map that the decoded `map` stands for: the same header, and
/// its nodes, ways and relations each converted, in order.
pub open spec fn map_converted(r: MapData, map: osm::OSM) -> bool {
    &&& r.version == map.version
    &&& r.generator == map.generator
    &&& r.note == map.note
    &&& r.meta.osm_base == map.meta.osm_base
    &&& r.bounds == (Bounds {
        minlat: map.bounds.minlat,
        minlon: map.bounds.minlon,
        maxlat: map.bounds.maxlat,
        maxlon: map.bounds.maxlon,
    })
    &&& r.nodes@.len() == map.nodes@.len()
    &&& forall|k: int| 0 <= k < r.nodes@.len() ==> node_converted(#[trigger] r.nodes@[k], map.nodes@[k])
    &&& r.ways@.len() == map.ways@.len()
    &&& forall|k: int| 0 <= k < r.ways@.len() ==> way_converted(#[trigger] r.ways@[k], map.ways@[k])
    &&& r.relations@.len() == map.relations@.len()
    &&& forall|k: int|
        0 <= k < r.relations@.len() ==> relation_converted(#[trigger] r.relations@[k], map.relations@[k])
}

impl Node {
    /// The node that a decoded one stands for: the same fields, with the
    /// `name` tag lifted out of the tags.
    pub fn from_osm(node: &osm::Node) -> (r: Node)
        ensures
            node_converted(r, *node),
    {
        let (name, tags) = lift_tags(&node.tags);
        Node {
            id: node.id,
            lat: node.lat,
            lon: node.lon,
            version: node.version,
            timestamp: node.timestamp.clone(),
            changeset: node.changeset,
            uid: node.uid,
            user: copy_text(&node.user),
            name,
            tags,
        }
    }
}

impl Way {
    /// The way that a decoded one stands for: the same fields and node
    /// references, with the `name` tag lifted out of the tags.
    pub fn from_osm(way: &osm::Way) -> (r: Way)
        ensures
            way_converted(r, *way),
    {
        let (name, tags) = lift_tags(&way.tags);
        let n = way.node_refs.len();
        let mut node_refs: Vec<NodeRef> = Vec::new();
        let mut i: usize = 0;
        while i < n
            invariant
                n == way.node_refs@.len(),
                i <= n,
                node_refs@.len() == i,
                forall|k: int| 0 <= k < i ==> node_refs@[k].id == way.node_refs@[k].id,
            decreases n - i,
        {
            node_refs.push(NodeRef { id: way.node_refs[i].id });
            i = i + 1;
        }
        let r = Way {
            id: way.id,
            version: way.version,
            timestamp: way.timestamp.clone(),
            changeset: way.changeset,
            uid: way.uid,
            user: copy_text(&way.user),
            node_refs,
            name,
            tags,
        };
        assert(r.ids() =~= way.node_refs@.map_values(|nr: osm::NodeRef| nr.id));
        r
    }
}

impl Member {
    /// The member that a decoded one stands for; its id read as signed.
    pub fn from_osm(member: &osm::Member) -> (r: Member)
        ensures
            member_converted(r, *member),
    {
        Member { kind: member.kind.clone(), id: member.id as i64, role: member.role.clone() }
    }
}

impl Relation {
    /// The relation that a decoded one stands for: the same fields and
    /// members, with the `name` tag lifted out of the tags.
    pub fn from_osm(relation: &osm::Relation) -> (r: Relation)
        ensures
            relation_converted(r, *relation),
    {
        let (name, tags) = lift_tags(&relation.tags);
        let n = relation.members.len();
        let mut members: Vec<Member> = Vec::new();
        let mut i: usize = 0;
        while i < n
            invariant
                n == relation.members@.len(),
                i <= n,
                members@.len() == i,
                forall|k: int|
                    0 <= k < i ==> member_converted(#[trigger] members@[k], relation.members@[k]),
            decreases n - i,
        {
            members.push(Member::from_osm(&relation.members[i]));
            i = i + 1;
        }
        Relation {
            id: relation.id,
            version: relation.version,
            timestamp: relation.timestamp.clone(),
            changeset: relation.changeset,
            uid: relation.uid,
            user: copy_text(&relation.user),
            members,
            name,
            tags,
        }
    }
}

impl MapData {
    /// The map that a decoded extract stands for: its nodes, ways and
    /// relations converted one by one, in order.
    pub fn from_osm(map: &osm::OSM) -> (r: MapData)
        ensures
            map_converted(r, *map),
            r.node_ids() == map.nodes@.map_values(|n: osm::Node| n.id),
    {
        let mut nodes: Vec<Node> = Vec::new();
        let mut i: usize = 0;
        while i < map.nodes.len()
            invariant
                i <= map.nodes@.len(),
                nodes@.len() == i,
                forall|k: int| 0 <= k < i ==> node_converted(#[trigger] nodes@[k], map.nodes@[k]),
            decreases map.nodes@.len() - i,
        {
            nodes.push(Node::from_osm(&map.nodes[i]));
            i = i + 1;
        }
        let mut ways: Vec<Way> = Vec::new();
        let mut i: usize = 0;
        while i < map.ways.len()
            invariant
                i <= map.ways@.len(),
                ways@.len() == i,
                forall|k: int| 0 <= k < i ==> way_converted(#[trigger] ways@[k], map.ways@[k]),
            decreases map.ways@.len() - i,
        {
            ways.push(Way::from_osm(&map.ways[i]));
            i = i + 1;
        }
        let mut relations: Vec<Relation> = Vec::new();
        let mut i: usize = 0;
        while i < map.relations.len()
            invariant
                i <= map.relations@.len(),
                relations@.len() == i,
                forall|k: int|
                    0 <= k < i ==> relation_converted(#[trigger] relations@[k], map.relations@[k]),
            decreases map.relations@.len() - i,
        {
            relations.push(Relation::from_osm(&map.relations[i]));
            i = i + 1;
        }
        let r = MapData {
            version: map.version.clone(),
            generator: map.generator.clone(),
            note: map.note.clone(),
            meta: Meta { osm_base: map.meta.osm_base.clone() },
            bounds: Bounds {
                minlat: map.bounds.minlat,
                minlon: map.bounds.minlon,
                maxlat: map.bounds.maxlat,
                maxlon: map.bounds.maxlon,
            },
            nodes,
            ways,
            relations,
        };
        assert(r.node_ids() =~= map.nodes@.map_values(|n: osm::Node| n.id));
        r
    }
}

impl From<osm::OSM> for MapData {
    fn from(map: osm::OSM) -> (r: MapData)
        ensures
            map_converted(r, map),
    {
        MapData::from_osm(&map)
    }
}

impl vstd::std_specs::convert::FromSpecImpl<osm::OSM> for MapData {
    /// What a conversion gives is stated by `map_converted`, on the impl itself: a
    /// map of tags has no value to state here.
    open spec fn obeys_from_spec() -> bool {
        false
    }

    open spec fn from_spec(v: osm::OSM) -> MapData {
        arbitrary()
    }
}

impl From<osm::Node> for Node {
    fn from(node: osm::Node) -> (r: Node)
        ensures
            node_converted(r, node),
    {
        Node::from_osm(&node)
    }
}

impl vstd::std_specs::convert::FromSpecImpl<osm::Node> for Node {
    /// What a conversion gives is stated by `node_converted`, on the impl itself: a
    /// map of tags has no value to state here.
    open spec fn obeys_from_spec() -> bool {
        false
    }

    open spec fn from_spec(v: osm::Node) -> Node {
        arbitrary()
    }
}

impl From<osm::Way> for Way {
    fn from(way: osm::Way) -> (r: Way)
        ensures
            way_converted(r, way),
    {
        Way::from_osm(&way)
    }
}

impl vstd::std_specs::convert::FromSpecImpl<osm::Way> for Way {
    /// What a conversion gives is stated by `way_converted`, on the impl itself: a
    /// map of tags has no value to state here.
    open spec fn obeys_from_spec() -> bool {
        false
    }

    open spec fn from_spec(v: osm::Way) -> Way {
        arbitrary()
    }
}

impl From<osm::Relation> for Relation {
    fn from(relation: osm::Relation) -> (r: Relation)
        ensures
            relation_converted(r, relation),
    {
        Relation::from_osm(&relation)
    }
}

impl vstd::std_specs::convert::FromSpecImpl<osm::Relation> for Relation {
    /// What a conversion gives is stated by `relation_converted`, on the impl itself: a
    /// map of tags has no value to state here.
    open spec fn obeys_from_spec() -> bool {
        false
    }

    open spec fn from_spec(v: osm::Relation) -> Relation {
        arbitrary()
    }
}

impl From<osm::Member> for Member {
    fn from(member: osm::Member) -> Member {
        Member::from_osm(&member)
    }
}

impl vstd::std_specs::convert::FromSpecImpl<osm::Member> for Member {
    open spec fn obeys_from_spec() -> bool {
        true
    }

    open spec fn from_spec(v: osm::Member) -> Member {
        Member { kind: v.kind, id: v.id as i64, role: v.role }
    }
}

impl From<osm::Meta> for Meta {
    fn from(meta: osm::Meta) -> Meta {
        Meta { osm_base: meta.osm_base }
    }
}

impl vstd::std_specs::convert::FromSpecImpl<osm::Meta> for Meta {
    open spec fn obeys_from_spec() -> bool {
        true
    }

    open spec fn from_spec(v: osm::Meta) -> Meta {
        Meta { osm_base: v.osm_base }
    }
}

impl From<osm::Bounds> for Bounds {
    fn from(bounds: osm::Bounds) -> Bounds {
        Bounds {
            minlat: bounds.minlat,
            minlon: bounds.minlon,
            maxlat: bounds.maxlat,
            maxlon: bounds.maxlon,
        }
    }
}

impl vstd::std_specs::convert::FromSpecImpl<osm::Bounds> for Bounds {
    open spec fn obeys_from_spec() -> bool {
        true
    }

    open spec fn from_spec(v: osm::Bounds) -> Bounds {
        Bounds { minlat: v.minlat, minlon: v.minlon, maxlat: v.maxlat, maxlon: v.maxlon }
    }
}

impl From<osm::NodeRef> for NodeRef {
    fn from(node_ref: osm::NodeRef) -> NodeRef {
        NodeRef { id: node_ref.id }
    }
}

impl vstd::std_specs::convert::FromSpecImpl<osm::NodeRef> for NodeRef {
    open spec fn obeys_from_spec() -> bool {
        true
    }

    open spec fn from_spec(v: osm::NodeRef) -> NodeRef {
        NodeRef { id: v.id }
    }
}

} // verus!
