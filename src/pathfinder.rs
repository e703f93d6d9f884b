//! A* route search over the implicit graph of a map's ways.
//!
//! Edges are not stored: the neighbours of a node are read off the ways that
//! pass through it. The search state is held in arrays indexed by node
//! position, so it refers to the map by nothing but positions.
use crate::entities::{first_pos, is_first, lemma_first_exists, lemma_first_pos, neighbors_in, reversed, MapData, Node, Way};
use vstd::prelude::*;
use vstd::arithmetic::div_mod::{lemma_fundamental_div_mod, lemma_mod_pos_bound};
use vstd::set_lib::{lemma_int_range, lemma_len_subset, set_int_range};

verus! {

/// Why a search returned no route.
#[derive(Debug, PartialEq, Eq, Clone, Copy)]
pub enum SearchError {
    /// The start or the goal names no node of the map.
    NodeNotFound(i64),
    /// Both ids are valid, but no chain of way steps joins them.
    NoPathFound,
}

/// `b` is next to the first occurrence of `a` in some way of the map.
#[verifier::opaque]
pub open spec fn linked(map: MapData, a: i64, b: i64) -> bool {
    exists|w: int| 0 <= w < map.ways@.len() && #[trigger] neighbors_in(map.ways@[w].ids(), a).contains(b)
}

/// `p` leads from `start` to `goal` through nodes of the map, each step from
/// a node to one linked to it.
pub open spec fn is_route(map: MapData, p: Seq<i64>, start: i64, goal: i64) -> bool {
    &&& p.len() > 0
    &&& p[0] == start
    &&& p.last() == goal
    &&& forall|k: int| 0 <= k < p.len() ==> map.has_node(#[trigger] p[k])
    &&& forall|k: int| 0 <= k < p.len() - 1 ==> linked(map, #[trigger] p[k], p[k + 1])
}

/// Some route leads from `start` to `goal`.
pub open spec fn reachable(map: MapData, start: i64, goal: i64) -> bool {
    exists|p: Seq<i64>| is_route(map, p, start, goal)
}

/// The open node with the least estimate; among equal estimates, the one with
/// the lowest id, then the first.
fn lowest_open(map: &MapData, open: &Vec<bool>, f: &Vec<u64>) -> (r: Option<usize>)
    requires
        open@.len() == map.nodes@.len(),
        f@.len() == map.nodes@.len(),
    ensures
        match r {
            Some(c) => {
                &&& c < open@.len()
                &&& open@[c as int]
                &&& forall|i: int|
                    0 <= i < open@.len() && open@[i] ==> f@[c as int] < f@[i] || (f@[c as int]
                        == f@[i] && map.nodes@[c as int].id <= map.nodes@[i].id)
            },
            None => forall|i: int| 0 <= i < open@.len() ==> !open@[i],
        },
{
    let n = open.len();
    let mut best: Option<usize> = None;
    let mut i: usize = 0;
    while i < n
        invariant
            n == open@.len(),
            f@.len() == n,
            map.nodes@.len() == n,
            i <= n,
            match best {
                Some(c) => {
                    &&& c < i
                    &&& open@[c as int]
                    &&& forall|j: int|
                        0 <= j < i && open@[j] ==> f@[c as int] < f@[j] || (f@[c as int] == f@[j]
                            && map.nodes@[c as int].id <= map.nodes@[j].id)
                },
                None => forall|j: int| 0 <= j < i ==> !open@[j],
            },
        decreases n - i,
    {
        if open[i] {
            match best {
                None => {
                    best = Some(i);
                },
                Some(c) => {
                    if f[i] < f[c] || (f[i] == f[c] && map.nodes[i].id < map.nodes[c].id) {
                        best = Some(i);
                    }
                },
            }
        }
        i = i + 1;
    }
    best
}

/// One link of a predecessor chain: `i` came from a node `u` of lower
/// measure, linked to it, that stands for its own id, and that has a
/// predecessor unless it is the start.
pub open spec fn chain_step(
    map: MapData,
    came_from: Seq<Option<usize>>,
    m: Seq<nat>,
    start: int,
    i: int,
) -> bool {
    let ids = map.node_ids();
    let u = came_from[i]->Some_0 as int;
    &&& 0 <= u < ids.len()
    &&& m[u] < m[i]
    &&& linked(map, ids[u], ids[i])
    &&& is_first(ids, ids[u], u)
    &&& (came_from[u] is None ==> u == start)
}

/// `chain` is the predecessor chain followed back from position `node`: it
/// starts there, each entry's predecessor is the next entry, the last has
/// none, and each entry is a position that stands for its own id. Such a
/// chain never comes back to an entry; `no_duplicates` says so outright.
pub open spec fn is_chain(map: MapData, came_from: Seq<Option<usize>>, node: int, chain: Seq<int>) -> bool {
    let ids = map.node_ids();
    &&& chain.len() >= 1
    &&& chain[0] == node
    &&& forall|k: int| 0 <= k < chain.len() ==> 0 <= #[trigger] chain[k] < ids.len()
    &&& forall|k: int| 0 <= k < chain.len() ==> is_first(ids, ids[#[trigger] chain[k]], chain[k])
    &&& forall|k: int|
        0 <= k < chain.len() - 1 ==> (#[trigger] came_from[chain[k]]) is Some && came_from[chain[k]]->Some_0
            as int == chain[k + 1]
    &&& came_from[chain.last()] is None
    &&& chain.no_duplicates()
}

/// Where every recorded predecessor makes a `chain_step`, the chain from a
/// position `node` that stands for its own id exists, ends at the start, and
/// links each entry to the one before it.
proof fn lemma_chain(
    map: MapData,
    came_from: Seq<Option<usize>>,
    m: Seq<nat>,
    start: int,
    node: int,
) -> (chain: Seq<int>)
    requires
        came_from.len() == map.node_ids().len(),
        m.len() == map.node_ids().len(),
        0 <= node < map.node_ids().len(),
        is_first(map.node_ids(), map.node_ids()[node], node),
        came_from[node] is None ==> node == start,
        forall|i: int|
            0 <= i < map.node_ids().len() && (#[trigger] came_from[i]) is Some ==> chain_step(
                map,
                came_from,
                m,
                start,
                i,
            ),
    ensures
        is_chain(map, came_from, node, chain),
        chain.last() == start,
        forall|k: int|
            0 <= k < chain.len() - 1 ==> linked(
                map,
                map.node_ids()[chain[k + 1]],
                map.node_ids()[#[trigger] chain[k]],
            ),
        forall|k: int| 0 <= k < chain.len() ==> m[#[trigger] chain[k]] <= m[node],
    decreases m[node],
{
    if came_from[node] is None {
        seq![node]
    } else {
        assert(chain_step(map, came_from, m, start, node));
        let u = came_from[node]->Some_0 as int;
        let sub = lemma_chain(map, came_from, m, start, u);
        let chain = seq![node].add(sub);
        assert(chain[0] == node);
        assert forall|k: int| 0 <= k < chain.len() - 1 implies (#[trigger] came_from[chain[k]]) is Some
            && came_from[chain[k]]->Some_0 as int == chain[k + 1] by {
            if k > 0 {
                assert(chain[k] == sub[k - 1]);
                assert(chain[k + 1] == sub[k]);
            }
        }
        assert forall|k: int| 0 <= k < chain.len() - 1 implies linked(
            map,
            map.node_ids()[chain[k + 1]],
            map.node_ids()[#[trigger] chain[k]],
        ) by {
            if k > 0 {
                assert(chain[k] == sub[k - 1]);
                assert(chain[k + 1] == sub[k]);
            }
        }
        assert forall|k: int| 0 <= k < chain.len() implies m[#[trigger] chain[k]] <= m[node] by {
            if k > 0 {
                assert(chain[k] == sub[k - 1]);
            }
        }
        assert forall|k: int| 0 <= k < chain.len() implies 0 <= #[trigger] chain[k] < map.node_ids().len()
            && is_first(map.node_ids(), map.node_ids()[chain[k]], chain[k]) by {
            if k > 0 {
                assert(chain[k] == sub[k - 1]);
            }
        }
        assert forall|a: int, b: int| 0 <= a < chain.len() && 0 <= b < chain.len() && a != b implies chain[a]
            != chain[b] by {
            if a == 0 {
                assert(chain[b] == sub[b - 1]);
                assert(m[sub[b - 1]] <= m[u]);
            } else if b == 0 {
                assert(chain[a] == sub[a - 1]);
                assert(m[sub[a - 1]] <= m[u]);
            } else {
                assert(chain[a] == sub[a - 1]);
                assert(chain[b] == sub[b - 1]);
            }
        }
        assert(chain.last() == sub.last());
        chain
    }
}

/// A chain walked back from its last node, reversed, repeats no id and has
/// every id in the map; where each entry is linked from the next one, it is
/// a route.
proof fn lemma_back_route(map: MapData, back: Seq<i64>, idx: Seq<int>)
    requires
        back.len() == idx.len(),
        idx.len() >= 1,
        idx.no_duplicates(),
        forall|k: int| 0 <= k < idx.len() ==> 0 <= #[trigger] idx[k] < map.node_ids().len(),
        forall|k: int| 0 <= k < idx.len() ==> back[k] == map.node_ids()[#[trigger] idx[k]],
        forall|k: int|
            0 <= k < idx.len() ==> is_first(map.node_ids(), map.node_ids()[#[trigger] idx[k]], idx[k]),
    ensures
        back.reverse().no_duplicates(),
        (forall|k: int|
            0 <= k < idx.len() - 1 ==> linked(
                map,
                map.node_ids()[idx[k + 1]],
                map.node_ids()[#[trigger] idx[k]],
            )) ==> is_route(map, back.reverse(), back.last(), back[0]),
{
    let ids = map.node_ids();
    let r = back.reverse();
    let len = back.len();
    assert forall|a: int, b: int| 0 <= a < b < len implies back[a] != back[b] by {
        assert(idx[a] != idx[b]);
        if back[a] == back[b] {
            lemma_first_pos(ids, back[a], idx[a]);
            lemma_first_pos(ids, back[b], idx[b]);
        }
    }
    assert forall|k: int| 0 <= k < r.len() implies map.has_node(#[trigger] r[k]) by {
        assert(r[k] == back[len - 1 - k]);
        assert(0 <= idx[len - 1 - k] < ids.len());
    }
    assert forall|a: int, b: int| 0 <= a < r.len() && 0 <= b < r.len() && a != b implies r[a] != r[b] by {
        assert(r[a] == back[len - 1 - a]);
        assert(r[b] == back[len - 1 - b]);
    }
    if forall|k: int|
        0 <= k < idx.len() - 1 ==> linked(map, map.node_ids()[idx[k + 1]], map.node_ids()[#[trigger] idx[k]]) {
        assert forall|k: int| 0 <= k < r.len() - 1 implies linked(map, #[trigger] r[k], r[k + 1]) by {
            let j = len - 2 - k;
            assert(linked(map, ids[idx[j + 1]], ids[idx[j]]));
            assert(r[k] == back[j + 1]);
            assert(r[k + 1] == back[j]);
        }
    }
}

/// Walking one more link back, from the node at `cur` to the one at `u`,
/// adds the step between them to the cost of the reversed chain.
proof fn lemma_back_cost_step<F: Fn(&Node, &Node) -> u64>(
    map: MapData,
    distance: F,
    back: Seq<i64>,
    u: int,
    cur: int,
)
    requires
        back.len() >= 1,
        0 <= u < map.node_ids().len(),
        0 <= cur < map.node_ids().len(),
        is_first(map.node_ids(), map.node_ids()[u], u),
        is_first(map.node_ids(), map.node_ids()[cur], cur),
        back.last() == map.node_ids()[cur],
    ensures
        route_cost(map, distance, back.push(map.node_ids()[u]).reverse()) == route_cost(
            map,
            distance,
            back.reverse(),
        ) + pos_cost(map, distance, u, cur),
{
    let ids = map.node_ids();
    let rev = back.push(ids[u]).reverse();
    assert(rev.subrange(1, rev.len() as int) =~= back.reverse());
    assert(rev.subrange(0, 1).len() == 1);
    lemma_cost_three(map, distance, rev, 1);
    lemma_first_pos(ids, ids[u], u);
    lemma_first_pos(ids, ids[cur], cur);
    assert(rev[0] == ids[u]);
    assert(rev[1] == back[back.len() - 1]);
}

/// A chain walked back along `came_from`, reversed, starts at a node without
/// predecessor and has each entry's predecessor just before it.
proof fn lemma_back_follows(map: MapData, came_from: Seq<Option<usize>>, back: Seq<i64>, idx: Seq<int>)
    requires
        back.len() == idx.len(),
        idx.len() >= 1,
        forall|k: int| 0 <= k < idx.len() ==> 0 <= #[trigger] idx[k] < map.node_ids().len(),
        forall|k: int| 0 <= k < idx.len() ==> back[k] == map.node_ids()[#[trigger] idx[k]],
        forall|k: int|
            0 <= k < idx.len() ==> is_first(map.node_ids(), map.node_ids()[#[trigger] idx[k]], idx[k]),
        forall|k: int|
            0 <= k < idx.len() - 1 ==> (#[trigger] came_from[idx[k]]) is Some && came_from[idx[k]]->Some_0
                as int == idx[k + 1],
        came_from[idx.last()] is None,
    ensures
        came_from[map.node_pos(back.reverse()[0])] is None,
        forall|k: int|
            0 <= k < back.reverse().len() - 1 ==> came_from[map.node_pos(#[trigger] back.reverse()[k + 1])]
                == Some(map.node_pos(back.reverse()[k]) as usize),
{
    let ids = map.node_ids();
    let r = back.reverse();
    let len = back.len();
    assert forall|j: int| 0 <= j < len implies map.node_pos(#[trigger] back[j]) == idx[j] by {
        lemma_first_pos(ids, ids[idx[j]], idx[j]);
    }
    assert(r[0] == back[len - 1]);
    assert(map.node_pos(back[len - 1]) == idx[len - 1]);
    assert forall|k: int| 0 <= k < r.len() - 1 implies came_from[map.node_pos(#[trigger] r[k + 1])]
        == Some(map.node_pos(r[k]) as usize) by {
        let j = len - 2 - k;
        assert(r[k + 1] == back[j]);
        assert(r[k] == back[j + 1]);
        assert(map.node_pos(back[j]) == idx[j]);
        assert(map.node_pos(back[j + 1]) == idx[j + 1]);
        assert(came_from[idx[j]] is Some && came_from[idx[j]]->Some_0 as int == idx[j + 1]);
    }
}

/// The ids of the predecessor chain `chain` followed back from position
/// `node`, in order from its root to `node`. Where each entry is linked from
/// the next, the result is a route; where `g` adds up the step costs along
/// the chain from zero at its root (`track`), the route costs `g[node]`.
fn reconstruct_path<F: Fn(&Node, &Node) -> u64>(
    map: &MapData,
    came_from: &Vec<Option<usize>>,
    node: usize,
    Ghost(chain): Ghost<Seq<int>>,
    Ghost(distance): Ghost<F>,
    Ghost(track): Ghost<bool>,
    Ghost(g): Ghost<Seq<Option<u64>>>,
) -> (r: Vec<i64>)
    requires
        map.node_ids().len() == map.nodes@.len(),
        came_from@.len() == map.nodes@.len(),
        is_chain(*map, came_from@, node as int, chain),
        track ==> g[chain.last()] == Some(0u64),
        track ==> forall|k: int|
            0 <= k < chain.len() - 1 ==> g[#[trigger] chain[k]]->Some_0 as int == g[chain[k
                + 1]]->Some_0 as int + pos_cost(*map, distance, chain[k + 1], chain[k]),
    ensures
        r@.len() == chain.len(),
        forall|k: int| 0 <= k < r@.len() ==> r@[k] == map.node_ids()[chain[chain.len() - 1 - k]],
        r@.last() == map.node_ids()[node as int],
        r@.no_duplicates(),
        came_from@[map.node_pos(r@[0])] is None,
        forall|k: int|
            0 <= k < r@.len() - 1 ==> came_from@[map.node_pos(#[trigger] r@[k + 1])] == Some(
                map.node_pos(r@[k]) as usize,
            ),
        (forall|k: int|
            0 <= k < chain.len() - 1 ==> linked(
                *map,
                map.node_ids()[chain[k + 1]],
                map.node_ids()[#[trigger] chain[k]],
            )) ==> is_route(*map, r@, map.node_ids()[chain.last()], map.node_ids()[node as int]),
        track ==> route_cost(*map, distance, r@) == g[node as int]->Some_0 as int,
{
    let ghost ids = map.node_ids();
    let mut back: Vec<i64> = vec![map.nodes[node].id];
    let mut cur: usize = node;
    let ghost mut k: int = 0;
    assert(back@.reverse().len() == 1);
    while came_from[cur].is_some()
        invariant
            ids == map.node_ids(),
            ids.len() == map.nodes@.len(),
            came_from@.len() == ids.len(),
            is_chain(*map, came_from@, node as int, chain),
            0 <= k < chain.len(),
            cur as int == chain[k],
            back@.len() == k + 1,
            forall|j: int| 0 <= j <= k ==> back@[j] == ids[#[trigger] chain[j]],
            track ==> forall|j: int|
                0 <= j < chain.len() - 1 ==> g[#[trigger] chain[j]]->Some_0 as int == g[chain[j
                    + 1]]->Some_0 as int + pos_cost(*map, distance, chain[j + 1], chain[j]),
            track ==> route_cost(*map, distance, back@.reverse()) == g[node as int]->Some_0 as int
                - g[cur as int]->Some_0 as int,
        decreases chain.len() - k,
    {
        assert(k < chain.len() - 1);
        let u = came_from[cur].unwrap();
        assert(came_from@[chain[k]]->Some_0 as int == chain[k + 1]);
        assert(u as int == chain[k + 1]);
        let ghost back0 = back@;
        back.push(map.nodes[u].id);
        proof {
            if track {
                assert(back0.last() == back0[back0.len() - 1]);
                lemma_back_cost_step(*map, distance, back0, u as int, cur as int);
                assert(g[chain[k]]->Some_0 as int == g[chain[k + 1]]->Some_0 as int + pos_cost(
                    *map,
                    distance,
                    chain[k + 1],
                    chain[k],
                ));
            }
            k = k + 1;
        }
        cur = u;
    }
    assert(k == chain.len() - 1);
    let ghost idx = chain;
    assert(back@ =~= Seq::new(chain.len(), |j: int| ids[chain[j]]));
    let r = reversed(&back);
    proof {
        lemma_back_route(*map, back@, idx);
        lemma_back_follows(*map, came_from@, back@, idx);
    }
    r
}

/// The predecessor recorded for `i` is a closed node, linked to it, and
/// closed before it where `i` is closed too.
pub open spec fn pred_ok(
    map: MapData,
    closed: Seq<bool>,
    came_from: Seq<Option<usize>>,
    rank: Seq<nat>,
    i: int,
) -> bool {
    let ids = map.node_ids();
    let u = came_from[i]->Some_0 as int;
    &&& 0 <= u < ids.len()
    &&& closed[u]
    &&& linked(map, ids[u], ids[i])
    &&& (closed[i] ==> rank[u] < rank[i])
}

/// What holds of the search state between steps. `s` and `goal` are the
/// positions of the start and goal nodes; `rank` gives each closed node the
/// step at which it was closed; `t` is the number of closed nodes.
pub open spec fn frontier_ok(
    map: MapData,
    s: int,
    goal: int,
    closed: Seq<bool>,
    open: Seq<bool>,
    came_from: Seq<Option<usize>>,
    g: Seq<Option<u64>>,
    rank: Seq<nat>,
    t: nat,
) -> bool {
    let ids = map.node_ids();
    let n = ids.len();
    &&& n == map.nodes@.len()
    &&& closed.len() == n
    &&& open.len() == n
    &&& came_from.len() == n
    &&& g.len() == n
    &&& rank.len() == n
    &&& 0 <= s < n
    &&& 0 <= goal < n
    &&& s != goal
    &&& is_first(ids, ids[s], s)
    &&& is_first(ids, ids[goal], goal)
    &&& forall|i: int|
        #![trigger closed[i]]
        #![trigger open[i]]
        0 <= i < n ==> !(closed[i] && open[i])
    &&& forall|i: int|
        #![trigger closed[i]]
        #![trigger open[i]]
        0 <= i < n && (closed[i] || open[i]) ==> is_first(ids, ids[i], i)
    &&& forall|i: int| 0 <= i < n && #[trigger] open[i] ==> g[i] is Some
    &&& forall|i: int|
        #![trigger closed[i]]
        #![trigger open[i]]
        #![trigger came_from[i]]
        #![trigger g[i]]
        0 <= i < n && !closed[i] && !open[i] ==> came_from[i] is None && g[i] is None
    &&& (!closed[s] ==> t == 0 && open[s] && forall|i: int|
        #![trigger closed[i]]
        #![trigger open[i]]
        0 <= i < n && i != s ==> !closed[i] && !open[i])
    &&& came_from[s] is None
    &&& !closed[goal]
    &&& t <= n
    &&& forall|i: int| 0 <= i < n && #[trigger] closed[i] ==> rank[i] < t
    &&& forall|i: int|
        #![trigger closed[i]]
        #![trigger open[i]]
        #![trigger came_from[i]]
        0 <= i < n && (closed[i] || open[i]) && i != s ==> came_from[i] is Some && pred_ok(
            map,
            closed,
            came_from,
            rank,
            i,
        )
}

/// Every neighbour, in way `w`, of the node at position `c` that names a node
/// of the map has been seen: it is closed or open.
pub open spec fn covers(map: MapData, closed: Seq<bool>, open: Seq<bool>, c: int, w: int) -> bool {
    forall|b: i64|
        #[trigger] neighbors_in(map.ways@[w].ids(), map.node_ids()[c]).contains(b) && map.has_node(b)
            ==> closed[map.node_pos(b)] || open[map.node_pos(b)]
}

/// Every closed node but the one at `except` has all its neighbours seen.
pub open spec fn closed_under(map: MapData, closed: Seq<bool>, open: Seq<bool>, except: int) -> bool {
    forall|c: int, w: int|
        0 <= c < closed.len() && closed[c] && c != except && 0 <= w < map.ways@.len()
            ==> #[trigger] covers(map, closed, open, c, w)
}

/// Seeing more nodes keeps every neighbourhood seen.
proof fn lemma_cover_grows(
    map: MapData,
    closed: Seq<bool>,
    open: Seq<bool>,
    closed2: Seq<bool>,
    open2: Seq<bool>,
    except: int,
    except2: int,
)
    requires
        closed.len() == map.node_ids().len(),
        open.len() == map.node_ids().len(),
        closed2.len() == map.node_ids().len(),
        open2.len() == map.node_ids().len(),
        closed_under(map, closed, open, except),
        forall|i: int|
            0 <= i < closed.len() && (closed[i] || open[i]) ==> closed2[i] || open2[i],
        forall|i: int|
            0 <= i < closed.len() && closed2[i] && i != except2 ==> closed[i] && i != except,
    ensures
        closed_under(map, closed2, open2, except2),
        forall|c: int, w: int|
            covers(map, closed, open, c, w) ==> #[trigger] covers(map, closed2, open2, c, w),
{
    let ids = map.node_ids();
    assert forall|c: int, w: int| covers(map, closed, open, c, w) implies #[trigger] covers(
        map,
        closed2,
        open2,
        c,
        w,
    ) by {
        assert forall|b: i64|
            #[trigger] neighbors_in(map.ways@[w].ids(), ids[c]).contains(b) && map.has_node(
                b,
            ) implies closed2[map.node_pos(b)] || open2[map.node_pos(b)] by {
            lemma_first_exists(ids, b);
        }
    }
    assert forall|c: int, w: int|
        0 <= c < closed2.len() && closed2[c] && c != except2 && 0 <= w < map.ways@.len()
            implies #[trigger] covers(map, closed2, open2, c, w) by {
        assert(covers(map, closed, open, c, w));
    }
}

/// Every node of a route from a closed start is closed, where no node is open
/// and every closed node has all its neighbours seen.
proof fn lemma_route_closed(map: MapData, closed: Seq<bool>, open: Seq<bool>, p: Seq<i64>, k: int)
    requires
        closed.len() == map.node_ids().len(),
        open.len() == map.node_ids().len(),
        closed_under(map, closed, open, -1),
        forall|i: int| 0 <= i < open.len() ==> !open[i],
        p.len() > 0,
        map.has_node(p[0]),
        closed[map.node_pos(p[0])],
        forall|k: int| 0 <= k < p.len() ==> map.has_node(#[trigger] p[k]),
        forall|k: int| 0 <= k < p.len() - 1 ==> linked(map, #[trigger] p[k], p[k + 1]),
        0 <= k < p.len(),
    ensures
        closed[map.node_pos(p[k])],
    decreases k,
{
    if k > 0 {
        lemma_route_closed(map, closed, open, p, k - 1);
        let ids = map.node_ids();
        let c = map.node_pos(p[k - 1]);
        assert(map.has_node(p[k - 1]));
        assert(map.has_node(p[k]));
        lemma_first_exists(ids, p[k - 1]);
        lemma_first_exists(ids, p[k]);
        assert(linked(map, p[k - 1], p[k]));
        reveal(linked);
        let w = choose|w: int|
            0 <= w < map.ways@.len() && #[trigger] neighbors_in(map.ways@[w].ids(), p[k - 1]).contains(
                p[k],
            );
        assert(covers(map, closed, open, c, w));
        assert(neighbors_in(map.ways@[w].ids(), ids[c]).contains(p[k]));
    }
}

/// When nothing is open, every closed node has its neighbours seen and the
/// goal is not closed, no route leads from the start to the goal.
proof fn lemma_no_route(map: MapData, closed: Seq<bool>, open: Seq<bool>, s: int, goal: int)
    requires
        closed.len() == map.node_ids().len(),
        open.len() == map.node_ids().len(),
        closed_under(map, closed, open, -1),
        forall|i: int| 0 <= i < open.len() ==> !open[i],
        0 <= s < closed.len(),
        0 <= goal < closed.len(),
        is_first(map.node_ids(), map.node_ids()[s], s),
        is_first(map.node_ids(), map.node_ids()[goal], goal),
        closed[s],
        !closed[goal],
    ensures
        !reachable(map, map.node_ids()[s], map.node_ids()[goal]),
{
    let ids = map.node_ids();
    if reachable(map, ids[s], ids[goal]) {
        let p = choose|p: Seq<i64>| is_route(map, p, ids[s], ids[goal]);
        lemma_first_pos(ids, ids[s], s);
        lemma_first_pos(ids, ids[goal], goal);
        assert(map.has_node(p[0]));
        lemma_route_closed(map, closed, open, p, p.len() - 1);
    }
}

/// What `distance` gives for the nodes at positions `i` and `j`, where it
/// gives one value.
pub open spec fn pos_cost<F: Fn(&Node, &Node) -> u64>(map: MapData, distance: F, i: int, j: int) -> int {
    (choose|r: u64| distance.ensures((&map.nodes@[i], &map.nodes@[j]), r)) as int
}

/// The cost of a step between the nodes that stand for ids `a` and `b`.
pub open spec fn step_cost<F: Fn(&Node, &Node) -> u64>(map: MapData, distance: F, a: i64, b: i64) -> int {
    pos_cost(map, distance, map.node_pos(a), map.node_pos(b))
}

/// The sum of the step costs along `p`.
pub open spec fn route_cost<F: Fn(&Node, &Node) -> u64>(map: MapData, distance: F, p: Seq<i64>) -> int
    decreases p.len(),
{
    if p.len() <= 1 {
        0
    } else {
        route_cost(map, distance, p.drop_last()) + step_cost(map, distance, p[p.len() - 2], p.last())
    }
}

/// `distance` is a function of its two nodes; as an estimate of what
/// remains to the goal it never falls by more than the cost of a step; and
/// each of its values times the number of nodes plus two fits in a `u64`.
pub open spec fn sound_metric<F: Fn(&Node, &Node) -> u64>(map: MapData, distance: F, goal: i64) -> bool {
    &&& forall|a: &Node, b: &Node, r1: u64, r2: u64|
        distance.ensures((a, b), r1) && distance.ensures((a, b), r2) ==> r1 == r2
    &&& forall|a: i64, b: i64|
        map.has_node(a) && map.has_node(b) && linked(map, a, b) ==> step_cost(map, distance, a, goal)
            <= step_cost(map, distance, a, b) + step_cost(map, distance, b, goal)
    &&& forall|i: int, j: int|
        0 <= i < map.nodes@.len() && 0 <= j < map.nodes@.len() ==> pos_cost(map, distance, i, j) * (
        map.nodes@.len() + 2) <= u64::MAX
}

/// The cost of a route splits at any of its nodes.
proof fn lemma_cost_split<F: Fn(&Node, &Node) -> u64>(map: MapData, distance: F, p: Seq<i64>, k: int)
    requires
        0 <= k < p.len(),
    ensures
        route_cost(map, distance, p) == route_cost(map, distance, p.subrange(0, k + 1)) + route_cost(
            map,
            distance,
            p.subrange(k, p.len() as int),
        ),
    decreases p.len(),
{
    if k == p.len() - 1 {
        assert(p.subrange(0, k + 1) =~= p);
        assert(p.subrange(k, p.len() as int).len() == 1);
    } else {
        let q = p.drop_last();
        lemma_cost_split(map, distance, q, k);
        assert(q.subrange(0, k + 1) =~= p.subrange(0, k + 1));
        let tail = p.subrange(k, p.len() as int);
        assert(tail.drop_last() =~= q.subrange(k, q.len() as int));
        assert(tail[tail.len() - 2] == p[p.len() - 2]);
    }
}

/// Along a route of linked nodes of the map, the estimate to the goal falls
/// by no more than the cost travelled.
proof fn lemma_estimate_falls<F: Fn(&Node, &Node) -> u64>(map: MapData, distance: F, goal: i64, p: Seq<i64>)
    requires
        sound_metric(map, distance, goal),
        p.len() >= 1,
        forall|k: int| 0 <= k < p.len() ==> map.has_node(#[trigger] p[k]),
        forall|k: int| 0 <= k < p.len() - 1 ==> linked(map, #[trigger] p[k], p[k + 1]),
    ensures
        step_cost(map, distance, p[0], goal) <= route_cost(map, distance, p) + step_cost(
            map,
            distance,
            p.last(),
            goal,
        ),
    decreases p.len(),
{
    if p.len() > 1 {
        let q = p.drop_last();
        assert forall|k: int| 0 <= k < q.len() - 1 implies linked(map, #[trigger] q[k], q[k + 1]) by {
            assert(linked(map, p[k], p[k + 1]));
        }
        assert forall|k: int| 0 <= k < q.len() implies map.has_node(#[trigger] q[k]) by {
            assert(map.has_node(p[k]));
        }
        lemma_estimate_falls(map, distance, goal, q);
        assert(linked(map, p[p.len() - 2], p[p.len() - 1]));
        assert(map.has_node(p[p.len() - 2]));
        assert(map.has_node(p[p.len() - 1]));
    }
}

/// No cost is negative.
proof fn lemma_cost_nonneg<F: Fn(&Node, &Node) -> u64>(map: MapData, distance: F, p: Seq<i64>)
    ensures
        route_cost(map, distance, p) >= 0,
    decreases p.len(),
{
    if p.len() > 1 {
        lemma_cost_nonneg(map, distance, p.drop_last());
    }
}

/// The ceiling on a single step's cost that a sound metric keeps below, for a
/// map of `n` nodes.
pub open spec fn cost_bound(n: int) -> int {
    u64::MAX as int / (n + 2)
}

/// What the search's costs mean where the metric is sound: the start costs
/// nothing; a node's cost is its predecessor's plus the step between them;
/// costs stay below a multiple of the bound that keeps sums in a `u64`; an
/// open node's estimate is its cost plus the metric to the goal; and no route
/// to a closed node costs less than it.
pub open spec fn costs_ok<F: Fn(&Node, &Node) -> u64>(
    map: MapData,
    distance: F,
    s: int,
    goal: int,
    closed: Seq<bool>,
    open: Seq<bool>,
    came_from: Seq<Option<usize>>,
    g: Seq<Option<u64>>,
    f: Seq<u64>,
    rank: Seq<nat>,
    t: nat,
) -> bool {
    let ids = map.node_ids();
    let n = ids.len();
    let bound = cost_bound(n as int);
    &&& f.len() == n
    &&& g[s] == Some(0u64)
    &&& forall|i: int| 0 <= i < n && #[trigger] closed[i] ==> g[i] is Some
    &&& forall|i: int|
        #![trigger closed[i]]
        #![trigger open[i]]
        0 <= i < n && (closed[i] || open[i]) && i != s ==> g[i]->Some_0 as int == g[came_from[i]->Some_0 as int]->Some_0 as int
            + pos_cost(map, distance, came_from[i]->Some_0 as int, i)
    &&& forall|i: int| 0 <= i < n && #[trigger] closed[i] ==> g[i]->Some_0 as int <= rank[i] * bound
    &&& forall|i: int| 0 <= i < n && #[trigger] open[i] ==> g[i]->Some_0 as int <= t * bound
    &&& forall|i: int|
        0 <= i < n && #[trigger] open[i] ==> f[i] as int == g[i]->Some_0 as int + pos_cost(map, distance, i, goal)
    &&& forall|x: int, q: Seq<i64>|
        0 <= x < n && closed[x] && #[trigger] is_route(map, q, ids[s], ids[x]) ==> g[x]->Some_0 as int
            <= route_cost(map, distance, q)
}

/// Every neighbour, in way `w`, of the closed node at position `c` that names
/// a node of the map and is not closed costs no more than a step from `c`.
pub open spec fn relaxed<F: Fn(&Node, &Node) -> u64>(
    map: MapData,
    distance: F,
    closed: Seq<bool>,
    g: Seq<Option<u64>>,
    c: int,
    w: int,
) -> bool {
    forall|b: i64|
        #[trigger] neighbors_in(map.ways@[w].ids(), map.node_ids()[c]).contains(b) && map.has_node(b)
            && !closed[map.node_pos(b)] ==> g[map.node_pos(b)] is Some && g[map.node_pos(
            b,
        )]->Some_0 as int <= g[c]->Some_0 as int + pos_cost(map, distance, c, map.node_pos(b))
}

/// Every closed node but the one at `except` has all its neighbours relaxed.
pub open spec fn relaxed_under<F: Fn(&Node, &Node) -> u64>(
    map: MapData,
    distance: F,
    closed: Seq<bool>,
    g: Seq<Option<u64>>,
    except: int,
) -> bool {
    forall|c: int, w: int|
        0 <= c < closed.len() && closed[c] && c != except && 0 <= w < map.ways@.len()
            ==> #[trigger] relaxed(map, distance, closed, g, c, w)
}

/// Closing more nodes, and lowering the costs of nodes that are not closed,
/// keeps every neighbourhood relaxed.
proof fn lemma_relaxed_grows<F: Fn(&Node, &Node) -> u64>(
    map: MapData,
    distance: F,
    closed: Seq<bool>,
    g: Seq<Option<u64>>,
    closed2: Seq<bool>,
    g2: Seq<Option<u64>>,
    except: int,
    except2: int,
)
    requires
        closed.len() == map.node_ids().len(),
        closed2.len() == map.node_ids().len(),
        g.len() == map.node_ids().len(),
        g2.len() == map.node_ids().len(),
        relaxed_under(map, distance, closed, g, except),
        forall|i: int| 0 <= i < closed.len() && closed[i] ==> closed2[i] && g2[i] == g[i],
        forall|i: int|
            0 <= i < closed.len() && !closed2[i] && g[i] is Some ==> g2[i] is Some && g2[i]->Some_0
                <= g[i]->Some_0,
        forall|i: int|
            0 <= i < closed.len() && closed2[i] && i != except2 ==> closed[i] && i != except,
    ensures
        relaxed_under(map, distance, closed2, g2, except2),
        forall|c: int, w: int|
            0 <= c < closed.len() && closed[c] && relaxed(map, distance, closed, g, c, w)
                ==> #[trigger] relaxed(map, distance, closed2, g2, c, w),
{
    let ids = map.node_ids();
    assert forall|c: int, w: int|
        0 <= c < closed.len() && closed[c] && relaxed(map, distance, closed, g, c, w) implies #[trigger] relaxed(
        map,
        distance,
        closed2,
        g2,
        c,
        w,
    ) by {
        assert forall|b: i64|
            #[trigger] neighbors_in(map.ways@[w].ids(), ids[c]).contains(b) && map.has_node(b)
                && !closed2[map.node_pos(b)] implies g2[map.node_pos(b)] is Some && g2[map.node_pos(
            b,
        )]->Some_0 as int <= g2[c]->Some_0 as int + pos_cost(map, distance, c, map.node_pos(b)) by {
            lemma_first_exists(ids, b);
        }
    }
    assert forall|c: int, w: int|
        0 <= c < closed2.len() && closed2[c] && c != except2 && 0 <= w < map.ways@.len()
            implies #[trigger] relaxed(map, distance, closed2, g2, c, w) by {
        assert(relaxed(map, distance, closed, g, c, w));
    }
}

/// The first node of a route that is not closed, where its last one is not.
proof fn lemma_first_unclosed(map: MapData, closed: Seq<bool>, q: Seq<i64>, j: int) -> (k: int)
    requires
        0 <= j < q.len(),
        !closed[map.node_pos(q.last())],
        forall|i: int| 0 <= i < j ==> closed[map.node_pos(#[trigger] q[i])],
    ensures
        j <= k < q.len(),
        !closed[map.node_pos(q[k])],
        forall|i: int| 0 <= i < k ==> closed[map.node_pos(#[trigger] q[i])],
    decreases q.len() - j,
{
    if !closed[map.node_pos(q[j])] {
        j
    } else {
        lemma_first_unclosed(map, closed, q, j + 1)
    }
}

/// The stretch `q[i..j]` of a route of linked nodes of the map is one too.
proof fn lemma_sub_route(map: MapData, q: Seq<i64>, i: int, j: int)
    requires
        0 <= i < j <= q.len(),
        forall|k: int| 0 <= k < q.len() ==> map.has_node(#[trigger] q[k]),
        forall|k: int| 0 <= k < q.len() - 1 ==> linked(map, #[trigger] q[k], q[k + 1]),
    ensures
        is_route(map, q.subrange(i, j), q[i], q[j - 1]),
{
    let p = q.subrange(i, j);
    assert forall|k: int| 0 <= k < p.len() implies map.has_node(#[trigger] p[k]) by {
        assert(map.has_node(q[i + k]));
    }
    assert forall|k: int| 0 <= k < p.len() - 1 implies linked(map, #[trigger] p[k], p[k + 1]) by {
        assert(linked(map, q[i + k], q[i + k + 1]));
    }
}

/// A route's cost split at position `k`: the part up to `k - 1`, the step
/// from `k - 1` to `k`, and the part from `k` on.
proof fn lemma_cost_three<F: Fn(&Node, &Node) -> u64>(map: MapData, distance: F, q: Seq<i64>, k: int)
    requires
        0 < k < q.len(),
    ensures
        route_cost(map, distance, q) == route_cost(map, distance, q.subrange(0, k)) + step_cost(
            map,
            distance,
            q[k - 1],
            q[k],
        ) + route_cost(map, distance, q.subrange(k, q.len() as int)),
{
    let head = q.subrange(0, k + 1);
    lemma_cost_split(map, distance, head, k - 1);
    assert(head.subrange(0, k) =~= q.subrange(0, k));
    let two = head.subrange(k - 1, k + 1);
    assert(two.drop_last().len() == 1);
    assert(route_cost(map, distance, two) == step_cost(map, distance, q[k - 1], q[k]));
    lemma_cost_split(map, distance, q, k);
}

/// The core of the optimality argument. `u` is open with the least estimate;
/// on a route to it, `x` is the last closed node and `y`, next to it, is not
/// closed. `y`'s estimate bounds that route's cost plus `u`'s estimate.
proof fn lemma_pop_core<F: Fn(&Node, &Node) -> u64>(
    map: MapData,
    distance: F,
    goal: int,
    g: Seq<Option<u64>>,
    f: Seq<u64>,
    u: int,
    x: int,
    y: int,
    q: Seq<i64>,
    k: int,
)
    requires
        sound_metric(map, distance, map.node_ids()[goal]),
        0 < k < q.len(),
        is_first(map.node_ids(), q[k - 1], x),
        is_first(map.node_ids(), q[k], y),
        is_first(map.node_ids(), map.node_ids()[u], u),
        is_first(map.node_ids(), map.node_ids()[goal], goal),
        q.last() == map.node_ids()[u],
        forall|i: int| 0 <= i < q.len() ==> map.has_node(#[trigger] q[i]),
        forall|i: int| 0 <= i < q.len() - 1 ==> linked(map, #[trigger] q[i], q[i + 1]),
        g[x]->Some_0 as int <= route_cost(map, distance, q.subrange(0, k)),
        g[y]->Some_0 as int <= g[x]->Some_0 as int + pos_cost(map, distance, x, y),
        f[y] as int == g[y]->Some_0 as int + pos_cost(map, distance, y, goal),
        f[u] as int == g[u]->Some_0 as int + pos_cost(map, distance, u, goal),
        f[u] <= f[y],
    ensures
        g[u]->Some_0 as int <= route_cost(map, distance, q),
{
    let ids = map.node_ids();
    lemma_first_pos(ids, q[k - 1], x);
    lemma_first_pos(ids, q[k], y);
    lemma_first_pos(ids, ids[u], u);
    lemma_first_pos(ids, ids[goal], goal);
    lemma_cost_three(map, distance, q, k);
    let tail = q.subrange(k, q.len() as int);
    lemma_sub_route(map, q, k, q.len() as int);
    lemma_estimate_falls(map, distance, ids[goal], tail);
}

/// The open node with the least estimate costs no more than any route to it,
/// where the metric is sound.
proof fn lemma_pop_optimal<F: Fn(&Node, &Node) -> u64>(
    map: MapData,
    distance: F,
    s: int,
    goal: int,
    closed: Seq<bool>,
    open: Seq<bool>,
    g: Seq<Option<u64>>,
    f: Seq<u64>,
    u: int,
    q: Seq<i64>,
)
    requires
        closed.len() == map.node_ids().len(),
        open.len() == map.node_ids().len(),
        0 <= s < closed.len(),
        0 <= goal < closed.len(),
        is_first(map.node_ids(), map.node_ids()[s], s),
        is_first(map.node_ids(), map.node_ids()[goal], goal),
        g[s] == Some(0u64),
        forall|i: int|
            0 <= i < closed.len() && #[trigger] open[i] ==> f[i] as int == g[i]->Some_0 as int
                + pos_cost(map, distance, i, goal),
        forall|x: int, q: Seq<i64>|
            0 <= x < closed.len() && closed[x] && #[trigger] is_route(
                map,
                q,
                map.node_ids()[s],
                map.node_ids()[x],
            ) ==> g[x]->Some_0 as int <= route_cost(map, distance, q),
        closed_under(map, closed, open, -1),
        relaxed_under(map, distance, closed, g, -1),
        sound_metric(map, distance, map.node_ids()[goal]),
        0 <= u < closed.len(),
        is_first(map.node_ids(), map.node_ids()[u], u),
        open[u],
        closed[s] || u == s,
        !closed[u],
        forall|i: int| 0 <= i < closed.len() && open[i] ==> f[u] <= f[i],
        is_route(map, q, map.node_ids()[s], map.node_ids()[u]),
    ensures
        g[u]->Some_0 as int <= route_cost(map, distance, q),
{
    let ids = map.node_ids();
    lemma_cost_nonneg(map, distance, q);
    if closed[s] {
        lemma_first_pos(ids, ids[s], s);
        lemma_first_pos(ids, ids[u], u);
        assert(map.has_node(q[0]));
        let k = lemma_first_unclosed(map, closed, q, 0);
        assert(map.has_node(q[k]));
        assert(map.has_node(q[k - 1]));
        lemma_first_exists(ids, q[k - 1]);
        lemma_first_exists(ids, q[k]);
        let x = map.node_pos(q[k - 1]);
        let y = map.node_pos(q[k]);
        lemma_sub_route(map, q, 0, k);
        assert(linked(map, q[k - 1], q[k]));
        reveal(linked);
        let w = choose|w: int|
            0 <= w < map.ways@.len() && #[trigger] neighbors_in(map.ways@[w].ids(), q[k - 1]).contains(
                q[k],
            );
        assert(covers(map, closed, open, x, w));
        assert(relaxed(map, distance, closed, g, x, w));
        assert(neighbors_in(map.ways@[w].ids(), ids[x]).contains(q[k]));
        assert(closed[y] || open[y]);
        lemma_pop_core(map, distance, goal, g, f, u, x, y, q, k);
    } else {
        assert(u == s);
    }
}

/// The bound times the number of nodes plus two still fits in a `u64`.
proof fn lemma_bound_fits(n: int)
    requires
        n >= 0,
    ensures
        cost_bound(n) >= 0,
        cost_bound(n) * (n + 2) <= u64::MAX,
{
    let m = u64::MAX as int;
    let k = n + 2;
    lemma_fundamental_div_mod(m, k);
    lemma_mod_pos_bound(m, k);
    assert(cost_bound(n) >= 0) by (nonlinear_arith)
        requires
            m == k * (m / k) + m % k,
            0 <= m % k < k,
            m > 0,
            k > 0,
            cost_bound(n) == m / k,
    ;
    assert(cost_bound(n) * (n + 2) <= m) by (nonlinear_arith)
        requires
            m == k * (m / k) + m % k,
            0 <= m % k,
            k == n + 2,
            cost_bound(n) == m / k,
    ;
}

/// Under a sound metric, every step costs at most the bound.
proof fn lemma_cost_bounded<F: Fn(&Node, &Node) -> u64>(
    map: MapData,
    distance: F,
    goal: i64,
    i: int,
    j: int,
)
    requires
        sound_metric(map, distance, goal),
        0 <= i < map.nodes@.len(),
        0 <= j < map.nodes@.len(),
    ensures
        0 <= pos_cost(map, distance, i, j) <= cost_bound(map.nodes@.len() as int),
{
    let n = map.nodes@.len() as int;
    let x = pos_cost(map, distance, i, j);
    let m = u64::MAX as int;
    let k = n + 2;
    assert(x * k <= m);
    lemma_fundamental_div_mod(m, k);
    lemma_mod_pos_bound(m, k);
    assert(x <= m / k) by (nonlinear_arith)
        requires
            x * k <= m,
            m == k * (m / k) + m % k,
            0 <= m % k < k,
            k > 0,
    ;
}

/// A cost within `t` bounds plus a step stays within `t + 1` bounds, and
/// that still fits in a `u64` while `t` is at most the number of nodes.
proof fn lemma_sum_fits(n: int, t: int, a: int, b: int)
    requires
        0 <= t <= n,
        0 <= a <= t * cost_bound(n),
        0 <= b <= cost_bound(n),
    ensures
        a + b <= (t + 1) * cost_bound(n),
        t * cost_bound(n) <= (t + 1) * cost_bound(n),
        (t + 1) * cost_bound(n) <= u64::MAX,
{
    lemma_bound_fits(n);
    let bd = cost_bound(n);
    assert(a + b <= (t + 1) * bd && t * bd <= (t + 1) * bd && (t + 1) * bd <= bd * (n + 2))
        by (nonlinear_arith)
        requires
            0 <= t <= n,
            0 <= a <= t * bd,
            0 <= b <= bd,
    ;
}

/// More bounds are no fewer.
proof fn lemma_scale(n: int, t1: int, t2: int)
    requires
        0 <= t1 <= t2,
        n >= 0,
    ensures
        t1 * cost_bound(n) <= t2 * cost_bound(n),
{
    lemma_bound_fits(n);
    let bd = cost_bound(n);
    assert(t1 * bd <= t2 * bd) by (nonlinear_arith)
        requires
            0 <= t1 <= t2,
            bd >= 0,
    ;
}

/// Under a sound metric, what a call of `distance` returned is the cost that
/// the contracts speak of.
proof fn lemma_call_cost<F: Fn(&Node, &Node) -> u64>(
    map: MapData,
    distance: F,
    goal: i64,
    i: int,
    j: int,
    r: u64,
)
    requires
        sound_metric(map, distance, goal),
        distance.ensures((&map.nodes@[i], &map.nodes@[j]), r),
    ensures
        r as int == pos_cost(map, distance, i, j),
{
    let c = choose|c: u64| distance.ensures((&map.nodes@[i], &map.nodes@[j]), c);
    assert(distance.ensures((&map.nodes@[i], &map.nodes@[j]), c));
}

/// `a + b`, or `u64::MAX` where that does not fit.
fn add_capped(a: u64, b: u64) -> (r: u64)
    ensures
        r == if a + b <= u64::MAX { (a + b) as u64 } else { u64::MAX },
{
    if a > u64::MAX - b {
        u64::MAX
    } else {
        a + b
    }
}

} // verus!


verus! {

/// Closing the open node at position `c`, not the goal, at step `t`.
proof fn lemma_close_step(
    map: MapData,
    s: int,
    goal: int,
    closed: Seq<bool>,
    open: Seq<bool>,
    came_from: Seq<Option<usize>>,
    g: Seq<Option<u64>>,
    rank: Seq<nat>,
    t: nat,
    c: int,
)
    requires
        frontier_ok(map, s, goal, closed, open, came_from, g, rank, t),
        0 <= c < closed.len(),
        open[c],
        c != goal,
        t < closed.len(),
    ensures
        frontier_ok(
            map,
            s,
            goal,
            closed.update(c, true),
            open.update(c, false),
            came_from,
            g,
            rank.update(c, t),
            t + 1,
        ),
{
    let ids = map.node_ids();
    let n = ids.len();
    let closed2 = closed.update(c, true);
    let open2 = open.update(c, false);
    let rank2 = rank.update(c, t);
    assert(!closed[s] ==> c == s);
    assert forall|i: int| 0 <= i < n && #[trigger] open2[i] implies g[i] is Some by {
        assert(open[i]);
    }
    assert forall|i: int|
        0 <= i < n && (#[trigger] closed2[i] || #[trigger] open2[i]) implies is_first(ids, ids[i], i) by {
        assert(closed[i] || open[i]);
    }
    assert forall|i: int|
        0 <= i < n && !#[trigger] closed2[i] && !open2[i] implies came_from[i] is None && g[i] is None by {
        assert(!closed[i] && !open[i]);
    }
    assert forall|i: int| 0 <= i < n && #[trigger] closed2[i] implies rank2[i] < t + 1 by {
        if i != c {
            assert(closed[i]);
        }
    }
    assert forall|i: int|
        0 <= i < n && (#[trigger] closed2[i] || #[trigger] open2[i]) && i != s implies came_from[i] is Some
            && pred_ok(map, closed2, came_from, rank2, i) by {
        assert(closed[i] || open[i]);
        assert(pred_ok(map, closed, came_from, rank, i));
        let u = came_from[i]->Some_0 as int;
        assert(closed[u]);
        assert(u != c);
        if closed[i] {
            assert(rank[u] < rank[i]);
        } else if i == c {
            assert(rank[u] < t);
        }
    }
}

/// Recording `c`, a closed node linked to it, as the predecessor of the node
/// at position `i`, which is not closed, and opening that node.
proof fn lemma_relax_step(
    map: MapData,
    s: int,
    goal: int,
    closed: Seq<bool>,
    open: Seq<bool>,
    came_from: Seq<Option<usize>>,
    g: Seq<Option<u64>>,
    rank: Seq<nat>,
    t: nat,
    i: int,
    c: usize,
    cost: u64,
)
    requires
        frontier_ok(map, s, goal, closed, open, came_from, g, rank, t),
        0 <= i < closed.len(),
        0 <= c < closed.len(),
        !closed[i],
        closed[c as int],
        closed[s],
        is_first(map.node_ids(), map.node_ids()[i], i),
        linked(map, map.node_ids()[c as int], map.node_ids()[i]),
    ensures
        frontier_ok(
            map,
            s,
            goal,
            closed,
            open.update(i, true),
            came_from.update(i, Some(c)),
            g.update(i, Some(cost)),
            rank,
            t,
        ),
{
    let ids = map.node_ids();
    let n = ids.len();
    let open2 = open.update(i, true);
    let came2 = came_from.update(i, Some(c));
    let g2 = g.update(i, Some(cost));
    assert(i != s);
    assert forall|k: int| 0 <= k < n && #[trigger] open2[k] implies g2[k] is Some by {
        if k != i {
            assert(open[k]);
        }
    }
    assert forall|k: int|
        0 <= k < n && (#[trigger] closed[k] || #[trigger] open2[k]) implies is_first(ids, ids[k], k) by {
        if k != i {
            assert(closed[k] || open[k]);
        }
    }
    assert forall|k: int|
        0 <= k < n && !#[trigger] closed[k] && !open2[k] implies came2[k] is None && g2[k] is None by {
        assert(k != i);
        assert(!open[k]);
    }
    assert forall|k: int|
        0 <= k < n && (#[trigger] closed[k] || #[trigger] open2[k]) && k != s implies came2[k] is Some
            && pred_ok(map, closed, came2, rank, k) by {
        if k != i {
            assert(closed[k] || open[k]);
            assert(pred_ok(map, closed, came_from, rank, k));
        }
    }
}

/// Closing the open node at position `c` keeps the costs' invariant: no
/// route to `c` costs less than it, as `c` has the least estimate.
proof fn lemma_close_costs<F: Fn(&Node, &Node) -> u64>(
    map: MapData,
    distance: F,
    s: int,
    goal: int,
    closed: Seq<bool>,
    open: Seq<bool>,
    came_from: Seq<Option<usize>>,
    g: Seq<Option<u64>>,
    f: Seq<u64>,
    rank: Seq<nat>,
    t: nat,
    c: int,
)
    requires
        frontier_ok(map, s, goal, closed, open, came_from, g, rank, t),
        costs_ok(map, distance, s, goal, closed, open, came_from, g, f, rank, t),
        closed_under(map, closed, open, -1),
        relaxed_under(map, distance, closed, g, -1),
        sound_metric(map, distance, map.node_ids()[goal]),
        0 <= c < closed.len(),
        open[c],
        c != goal,
        t < closed.len(),
        forall|i: int| 0 <= i < closed.len() && open[i] ==> f[c] <= f[i],
    ensures
        costs_ok(
            map,
            distance,
            s,
            goal,
            closed.update(c, true),
            open.update(c, false),
            came_from,
            g,
            f,
            rank.update(c, t),
            t + 1,
        ),
        relaxed_under(map, distance, closed.update(c, true), g, c),
{
    let ids = map.node_ids();
    let n = ids.len();
    let closed2 = closed.update(c, true);
    let open2 = open.update(c, false);
    let rank2 = rank.update(c, t);
    lemma_bound_fits(n as int);
    assert(!closed[s] ==> c == s);
    assert forall|q: Seq<i64>| #[trigger] is_route(map, q, ids[s], ids[c]) implies g[c]->Some_0 as int
        <= route_cost(map, distance, q) by {
        lemma_pop_optimal(map, distance, s, goal, closed, open, g, f, c, q);
    }
    assert forall|x: int, q: Seq<i64>|
        0 <= x < n && closed2[x] && #[trigger] is_route(map, q, ids[s], ids[x]) implies g[x]->Some_0 as int
        <= route_cost(map, distance, q) by {
        if x != c {
            assert(closed[x]);
        }
    }
    assert forall|i: int| 0 <= i < n && #[trigger] closed2[i] implies g[i]->Some_0 as int <= rank2[i]
        * cost_bound(n as int) by {
        if i != c {
            assert(closed[i]);
        }
    }
    assert forall|i: int| 0 <= i < n && #[trigger] open2[i] implies g[i]->Some_0 as int <= (t + 1)
        * cost_bound(n as int) by {
        assert(open[i]);
        lemma_sum_fits(n as int, t as int, g[i]->Some_0 as int, 0);
    }
    assert forall|i: int| 0 <= i < n && #[trigger] closed2[i] implies g[i] is Some by {
        if i != c {
            assert(closed[i]);
        }
    }
    assert forall|i: int|
        #![trigger closed2[i]]
        #![trigger open2[i]]
        0 <= i < n && (closed2[i] || open2[i]) && i != s implies g[i]->Some_0 as int
            == g[came_from[i]->Some_0 as int]->Some_0 as int + pos_cost(
            map,
            distance,
            came_from[i]->Some_0 as int,
            i,
        ) by {
        assert(closed[i] || open[i]);
    }
    assert forall|i: int| 0 <= i < n && #[trigger] open2[i] implies f[i] as int == g[i]->Some_0 as int
        + pos_cost(map, distance, i, goal) by {
        assert(open[i]);
    }
    lemma_relaxed_grows(map, distance, closed, g, closed2, g, -1, c);
}

/// Recording `c` as the predecessor of the node at position `i`, at the cost
/// of `c` plus the step, keeps the costs' invariant.
proof fn lemma_relax_costs<F: Fn(&Node, &Node) -> u64>(
    map: MapData,
    distance: F,
    s: int,
    goal: int,
    closed: Seq<bool>,
    open: Seq<bool>,
    came_from: Seq<Option<usize>>,
    g: Seq<Option<u64>>,
    f: Seq<u64>,
    rank: Seq<nat>,
    t: nat,
    i: int,
    c: usize,
    cost: u64,
    estimate: u64,
)
    requires
        frontier_ok(map, s, goal, closed, open, came_from, g, rank, t),
        costs_ok(map, distance, s, goal, closed, open, came_from, g, f, rank, t),
        sound_metric(map, distance, map.node_ids()[goal]),
        0 <= i < closed.len(),
        0 <= c < closed.len(),
        !closed[i],
        closed[c as int],
        closed[s],
        cost as int == g[c as int]->Some_0 as int + pos_cost(map, distance, c as int, i),
        estimate as int == cost as int + pos_cost(map, distance, i, goal),
        cost as int <= t * cost_bound(closed.len() as int),
    ensures
        costs_ok(
            map,
            distance,
            s,
            goal,
            closed,
            open.update(i, true),
            came_from.update(i, Some(c)),
            g.update(i, Some(cost)),
            f.update(i, estimate),
            rank,
            t,
        ),
{
    let ids = map.node_ids();
    let n = ids.len();
    let open2 = open.update(i, true);
    let came2 = came_from.update(i, Some(c));
    let g2 = g.update(i, Some(cost));
    let f2 = f.update(i, estimate);
    assert(i != s);
    assert forall|k: int| 0 <= k < n && #[trigger] closed[k] implies g2[k] is Some by {
        assert(k != i);
    }
    assert forall|k: int|
        #![trigger closed[k]]
        #![trigger open2[k]]
        0 <= k < n && (closed[k] || open2[k]) && k != s implies g2[k]->Some_0 as int
            == g2[came2[k]->Some_0 as int]->Some_0 as int + pos_cost(
            map,
            distance,
            came2[k]->Some_0 as int,
            k,
        ) by {
        if k != i {
            assert(closed[k] || open[k]);
            assert(pred_ok(map, closed, came_from, rank, k));
            assert(came_from[k]->Some_0 as int != i);
        }
    }
    assert forall|k: int| 0 <= k < n && #[trigger] open2[k] implies g2[k]->Some_0 as int <= t
        * cost_bound(n as int) by {
        if k != i {
            assert(open[k]);
        }
    }
    assert forall|k: int| 0 <= k < n && #[trigger] open2[k] implies f2[k] as int == g2[k]->Some_0 as int
        + pos_cost(map, distance, k, goal) by {
        if k != i {
            assert(open[k]);
        }
    }
    assert forall|k: int| 0 <= k < n && #[trigger] closed[k] implies g2[k]->Some_0 as int <= rank[k]
        * cost_bound(n as int) by {
        assert(k != i);
    }
    assert forall|x: int, q: Seq<i64>|
        0 <= x < n && closed[x] && #[trigger] is_route(map, q, ids[s], ids[x]) implies g2[x]->Some_0 as int
        <= route_cost(map, distance, q) by {
        assert(x != i);
    }
}

/// The working state of one search, indexed by node position: which nodes
/// are closed or open, each node's predecessor, its best known cost from the
/// start (`g`) and that cost plus the estimate to the goal (`f`).
struct SearchState {
    closed: Vec<bool>,
    open: Vec<bool>,
    came_from: Vec<Option<usize>>,
    g: Vec<Option<u64>>,
    f: Vec<u64>,
    /// The step at which each closed node was closed.
    rank: Ghost<Seq<nat>>,
    /// The number of closed nodes.
    t: Ghost<nat>,
}

impl SearchState {
    /// The invariant of the state between steps.
    spec fn ok(&self, map: MapData, s: int, goal: int) -> bool {
        &&& frontier_ok(
            map,
            s,
            goal,
            self.closed@,
            self.open@,
            self.came_from@,
            self.g@,
            self.rank@,
            self.t@,
        )
        &&& self.f@.len() == map.nodes@.len()
    }

    /// The costs' invariant, where the metric is sound, with every closed
    /// node but the one at `except` relaxed.
    spec fn costs_hold<F: Fn(&Node, &Node) -> u64>(
        &self,
        map: MapData,
        distance: F,
        s: int,
        goal: int,
        except: int,
    ) -> bool {
        sound_metric(map, distance, map.node_ids()[goal]) ==> {
            &&& costs_ok(
                map,
                distance,
                s,
                goal,
                self.closed@,
                self.open@,
                self.came_from@,
                self.g@,
                self.f@,
                self.rank@,
                self.t@,
            )
            &&& relaxed_under(map, distance, self.closed@, self.g@, except)
        }
    }

    /// The node at position `i` is closed or open.
    spec fn seen(&self, i: int) -> bool {
        self.closed@[i] || self.open@[i]
    }

    /// The state before the first step: only the start is open, at cost zero.
    fn new<F: Fn(&Node, &Node) -> u64>(map: &MapData, s: usize, goal: usize, distance: &F) -> (r: Self)
        requires
            forall|a: &Node, b: &Node| #[trigger] distance.requires((a, b)),
            s < map.nodes@.len(),
            goal < map.nodes@.len(),
            s != goal,
            is_first(map.node_ids(), map.node_ids()[s as int], s as int),
            is_first(map.node_ids(), map.node_ids()[goal as int], goal as int),
        ensures
            r.ok(*map, s as int, goal as int),
            r.costs_hold(*map, *distance, s as int, goal as int, -1),
            closed_under(*map, r.closed@, r.open@, -1),
            r.t@ == 0,
            forall|i: int| 0 <= i < r.closed@.len() ==> !r.closed@[i],
    {
        let n = map.nodes.len();
        let mut closed: Vec<bool> = Vec::new();
        let mut open: Vec<bool> = Vec::new();
        let mut came_from: Vec<Option<usize>> = Vec::new();
        let mut g: Vec<Option<u64>> = Vec::new();
        let mut f: Vec<u64> = Vec::new();
        let mut k: usize = 0;
        while k < n
            invariant
                k <= n,
                closed@.len() == k,
                open@.len() == k,
                came_from@.len() == k,
                g@.len() == k,
                f@.len() == k,
                forall|i: int| 0 <= i < k ==> !closed@[i] && !open@[i],
                forall|i: int| 0 <= i < k ==> came_from@[i] is None && g@[i] is None,
            decreases n - k,
        {
            closed.push(false);
            open.push(false);
            came_from.push(None);
            g.push(None);
            f.push(0);
            k = k + 1;
        }
        open[s] = true;
        g[s] = Some(0);
        let h = distance(&map.nodes[s], &map.nodes[goal]);
        f[s] = h;
        proof {
            if sound_metric(*map, *distance, map.node_ids()[goal as int]) {
                lemma_call_cost(*map, *distance, map.node_ids()[goal as int], s as int, goal as int, h);
            }
        }
        let r = SearchState {
            closed,
            open,
            came_from,
            g,
            f,
            rank: Ghost(Seq::new(n as nat, |i: int| 0nat)),
            t: Ghost(0),
        };
        assert(map.node_ids().len() == n);
        r
    }

    /// Closes the open node at position `c`, which is not the goal.
    fn close<F: Fn(&Node, &Node) -> u64>(
        &mut self,
        map: &MapData,
        c: usize,
        distance: &F,
        Ghost(s): Ghost<int>,
        Ghost(goal): Ghost<int>,
    )
        requires
            old(self).ok(*map, s, goal),
            old(self).costs_hold(*map, *distance, s, goal, -1),
            forall|i: int| 0 <= i < old(self).open@.len() && old(self).open@[i] ==> old(self).f@[c as int] <= old(self).f@[i],
            closed_under(*map, old(self).closed@, old(self).open@, -1),
            c < map.nodes@.len(),
            old(self).open@[c as int],
            c != goal,
            old(self).t@ < map.nodes@.len(),
        ensures
            final(self).ok(*map, s, goal),
            final(self).costs_hold(*map, *distance, s, goal, c as int),
            final(self).g@ == old(self).g@,
            closed_under(*map, final(self).closed@, final(self).open@, c as int),
            final(self).closed@ == old(self).closed@.update(c as int, true),
            final(self).open@ == old(self).open@.update(c as int, false),
            final(self).t@ == old(self).t@ + 1,
            final(self).closed@[s],
    {
        let ghost closed0 = self.closed@;
        let ghost open0 = self.open@;
        let ghost t0 = self.t@;
        proof {
            lemma_close_step(
                *map,
                s,
                goal,
                closed0,
                open0,
                self.came_from@,
                self.g@,
                self.rank@,
                t0,
                c as int,
            );
            if sound_metric(*map, *distance, map.node_ids()[goal]) {
                lemma_close_costs(
                    *map,
                    *distance,
                    s,
                    goal,
                    closed0,
                    open0,
                    self.came_from@,
                    self.g@,
                    self.f@,
                    self.rank@,
                    t0,
                    c as int,
                );
            }
        }
        self.open[c] = false;
        self.closed[c] = true;
        self.rank = Ghost(self.rank@.update(c as int, t0));
        self.t = Ghost(t0 + 1);
        proof {
            lemma_cover_grows(*map, closed0, open0, self.closed@, self.open@, -1, c as int);
            assert(self.open@ =~= open0.update(c as int, false));
        }
    }

    /// Looks at `nb`, a neighbour of the closed node at position `c` in way
    /// `w`: skips it where it names no node or a closed one, else opens it and
    /// records `c` as its predecessor where that lowers its cost.
    fn visit<F: Fn(&Node, &Node) -> u64>(
        &mut self,
        map: &MapData,
        c: usize,
        w: usize,
        nb: i64,
        gc: u64,
        goal_node: &Node,
        distance: &F,
        Ghost(s): Ghost<int>,
        Ghost(goal): Ghost<int>,
    )
        requires
            forall|a: &Node, b: &Node| #[trigger] distance.requires((a, b)),
            old(self).ok(*map, s, goal),
            closed_under(*map, old(self).closed@, old(self).open@, c as int),
            c < map.nodes@.len(),
            w < map.ways@.len(),
            old(self).closed@[c as int],
            old(self).closed@[s],
            neighbors_in(map.ways@[w as int].ids(), map.node_ids()[c as int]).contains(nb),
            old(self).costs_hold(*map, *distance, s, goal, c as int),
            goal_node == map.nodes@[goal],
            gc as int == old(self).g@[c as int]->Some_0 as int,
        ensures
            final(self).ok(*map, s, goal),
            final(self).costs_hold(*map, *distance, s, goal, c as int),
            final(self).g@[c as int] == old(self).g@[c as int],
            forall|i: int|
                0 <= i < map.nodes@.len() && !old(self).closed@[i] && (#[trigger] old(self).g@[i]) is Some
                    ==> final(self).g@[i] is Some && final(self).g@[i]->Some_0 <= old(self).g@[i]->Some_0,
            sound_metric(*map, *distance, map.node_ids()[goal]) ==> forall|v: int|
                relaxed(*map, *distance, old(self).closed@, old(self).g@, c as int, v) ==> #[trigger] relaxed(
                    *map,
                    *distance,
                    final(self).closed@,
                    final(self).g@,
                    c as int,
                    v,
                ),
            sound_metric(*map, *distance, map.node_ids()[goal]) && map.has_node(nb) && !final(self).closed@[map.node_pos(nb)] ==> {
                &&& final(self).g@[map.node_pos(nb)] is Some
                &&& final(self).g@[map.node_pos(nb)]->Some_0 as int <= gc as int + pos_cost(
                    *map,
                    *distance,
                    c as int,
                    map.node_pos(nb),
                )
            },
            closed_under(*map, final(self).closed@, final(self).open@, c as int),
            final(self).closed@ == old(self).closed@,
            final(self).t@ == old(self).t@,
            forall|i: int| 0 <= i < map.nodes@.len() && old(self).seen(i) ==> final(self).seen(i),
            forall|v: int|
                covers(*map, old(self).closed@, old(self).open@, c as int, v) ==> #[trigger] covers(
                    *map,
                    final(self).closed@,
                    final(self).open@,
                    c as int,
                    v,
                ),
            map.has_node(nb) ==> final(self).seen(map.node_pos(nb)),
    {
        let ghost ids = map.node_ids();
        let ghost closed0 = self.closed@;
        let ghost open0 = self.open@;
        let ghost g0 = self.g@;
        match map.node_index(nb) {
            None => {},
            Some(i) => {
                if !self.closed[i] {
                    let d = distance(&map.nodes[c], &map.nodes[i]);
                    let tentative = add_capped(gc, d);
                    let ghost sound = sound_metric(*map, *distance, ids[goal]);
                    let ghost n = map.nodes@.len() as int;
                    proof {
                        if sound {
                            lemma_call_cost(*map, *distance, ids[goal], c as int, i as int, d);
                            lemma_cost_bounded(*map, *distance, ids[goal], c as int, i as int);
                            let rc = self.rank@[c as int] as int;
                            lemma_sum_fits(n, rc, gc as int, d as int);
                            lemma_scale(n, rc + 1, self.t@ as int);
                        }
                    }
                    let better = match self.g[i] {
                        Some(old) => tentative < old,
                        None => true,
                    };
                    if better {
                        let h = distance(&map.nodes[i], goal_node);
                        let estimate = add_capped(tentative, h);
                        proof {
                            reveal(linked);
                            assert(neighbors_in(map.ways@[w as int].ids(), ids[c as int]).contains(
                                ids[i as int],
                            ));
                            assert(linked(*map, ids[c as int], ids[i as int]));
                            lemma_relax_step(
                                *map,
                                s,
                                goal,
                                self.closed@,
                                self.open@,
                                self.came_from@,
                                self.g@,
                                self.rank@,
                                self.t@,
                                i as int,
                                c,
                                tentative,
                            );
                            if sound {
                                lemma_call_cost(*map, *distance, ids[goal], i as int, goal, h);
                                lemma_cost_bounded(*map, *distance, ids[goal], i as int, goal);
                                lemma_sum_fits(n, self.t@ as int, tentative as int, h as int);
                                lemma_relax_costs(
                                    *map,
                                    *distance,
                                    s,
                                    goal,
                                    self.closed@,
                                    self.open@,
                                    self.came_from@,
                                    self.g@,
                                    self.f@,
                                    self.rank@,
                                    self.t@,
                                    i as int,
                                    c,
                                    tentative,
                                    estimate,
                                );
                            }
                        }
                        self.open[i] = true;
                        self.came_from[i] = Some(c);
                        self.g[i] = Some(tentative);
                        self.f[i] = estimate;
                    } else {
                        assert(self.open@[i as int]);
                    }
                }
            },
        }
        proof {
            lemma_cover_grows(*map, closed0, open0, self.closed@, self.open@, c as int, c as int);
            if sound_metric(*map, *distance, ids[goal]) {
                lemma_relaxed_grows(*map, *distance, closed0, g0, self.closed@, self.g@, c as int, c as int);
                if map.has_node(nb) {
                    lemma_first_exists(ids, nb);
                }
            }
        }
    }
}

/// A shortest route from `start_id` to `goal_id` by A*, with `distance` as
/// both the cost of a step and the estimate of what remains to the goal.
/// Among open nodes of equal estimate the one with the lowest id goes first.
///
/// Fails with `NodeNotFound` naming the first id that the map lacks (the
/// start is checked first), and with `NoPathFound` exactly when no chain of
/// way steps joins the two. Equal ids give the one-node route. A route found
/// leads from start to goal through linked nodes of the map and repeats
/// none; where `distance` is a sound metric (see `sound_metric`), no route
/// costs less.
pub fn find_path<F: Fn(&Node, &Node) -> u64>(
    map: &MapData,
    start_id: i64,
    goal_id: i64,
    distance: F,
) -> (r: Result<Vec<i64>, SearchError>)
    requires
        forall|a: &Node, b: &Node| #[trigger] distance.requires((a, b)),
    ensures
        !map.has_node(start_id) ==> r == Err::<Vec<i64>, SearchError>(
            SearchError::NodeNotFound(start_id),
        ),
        map.has_node(start_id) && !map.has_node(goal_id) ==> r == Err::<Vec<i64>, SearchError>(
            SearchError::NodeNotFound(goal_id),
        ),
        map.has_node(start_id) && start_id == goal_id ==> (r matches Ok(p) && p@ == seq![start_id]),
        map.has_node(start_id) && map.has_node(goal_id) ==> match r {
            Ok(p) => is_route(*map, p@, start_id, goal_id) && p@.no_duplicates(),
            Err(e) => e == SearchError::NoPathFound && !reachable(*map, start_id, goal_id),
        },
        sound_metric(*map, distance, goal_id) ==> (r matches Ok(p) ==> forall|q: Seq<i64>|
            is_route(*map, q, start_id, goal_id) ==> route_cost(*map, distance, p@) <= route_cost(
                *map,
                distance,
                q,
            )),
{
    let s = match map.node_index(start_id) {
        Some(i) => i,
        None => {
            return Err(SearchError::NodeNotFound(start_id));
        },
    };
    let goal = match map.node_index(goal_id) {
        Some(i) => i,
        None => {
            return Err(SearchError::NodeNotFound(goal_id));
        },
    };
    if start_id == goal_id {
        let p = vec![start_id];
        assert(p@ =~= seq![start_id]);
        assert forall|q: Seq<i64>| is_route(*map, q, start_id, goal_id) implies route_cost(
            *map,
            distance,
            p@,
        ) <= route_cost(*map, distance, q) by {
            lemma_cost_nonneg(*map, distance, q);
        }
        return Ok(p);
    }
    let ghost ids = map.node_ids();
    let n = map.nodes.len();
    proof {
        lemma_first_pos(ids, start_id, s as int);
        lemma_first_pos(ids, goal_id, goal as int);
        lemma_int_range(0, n as int);
    }
    let goal_node = &map.nodes[goal];
    let mut st = SearchState::new(map, s, goal, &distance);
    let ghost mut closed_set: Set<int> = Set::empty();
    assert(closed_set =~= Set::new(|i: int| 0 <= i < n && st.closed@[i]));
    loop
        invariant
            ids == map.node_ids(),
            n == ids.len(),
            goal_node == map.nodes@[goal as int],
            ids[s as int] == start_id,
            ids[goal as int] == goal_id,
            forall|a: &Node, b: &Node| #[trigger] distance.requires((a, b)),
            st.ok(*map, s as int, goal as int),
            st.costs_hold(*map, distance, s as int, goal as int, -1),
            closed_under(*map, st.closed@, st.open@, -1),
            closed_set.finite(),
            closed_set.len() == st.t@,
            forall|i: int| #[trigger] closed_set.contains(i) <==> 0 <= i < n && st.closed@[i],
            set_int_range(0, n as int).len() == n,
            set_int_range(0, n as int).finite(),
        decreases n - st.t@,
    {
        let c = match lowest_open(map, &st.open, &st.f) {
            Some(c) => c,
            None => {
                proof {
                    lemma_no_route(*map, st.closed@, st.open@, s as int, goal as int);
                }
                return Err(SearchError::NoPathFound);
            },
        };
        if c == goal {
            let ghost closed = st.closed@;
            let ghost rank = st.rank@;
            let ghost m: Seq<nat> = Seq::new(
                n as nat,
                |i: int|
                    if closed[i] {
                        rank[i]
                    } else {
                        n as nat
                    },
            );
            assert forall|i: int|
                0 <= i < n && (#[trigger] st.came_from@[i]) is Some implies chain_step(
                *map,
                st.came_from@,
                m,
                s as int,
                i,
            ) by {
                assert(st.closed@[i] || st.open@[i]);
                assert(i != s);
                assert(pred_ok(*map, st.closed@, st.came_from@, rank, i));
                let u = st.came_from@[i]->Some_0 as int;
                assert(st.closed@[u]);
                assert(u != s ==> st.came_from@[u] is Some);
            }
            assert(st.came_from@[c as int] is Some);
            let ghost sound = sound_metric(*map, distance, goal_id);
            proof {
                if sound {
                    assert forall|i: int|
                        0 <= i < n && (#[trigger] st.came_from@[i]) is Some implies st.g@[i]->Some_0 as int
                            == st.g@[st.came_from@[i]->Some_0 as int]->Some_0 as int + pos_cost(
                            *map,
                            distance,
                            st.came_from@[i]->Some_0 as int,
                            i,
                        ) by {
                        assert(st.closed@[i] || st.open@[i]);
                    }
                }
            }
            let ghost chain = lemma_chain(*map, st.came_from@, m, s as int, c as int);
            proof {
                if sound {
                    assert forall|k: int| 0 <= k < chain.len() - 1 implies st.g@[#[trigger] chain[k]]->Some_0 as int
                        == st.g@[chain[k + 1]]->Some_0 as int + pos_cost(
                        *map,
                        distance,
                        chain[k + 1],
                        chain[k],
                    ) by {
                        assert(st.came_from@[chain[k]] is Some);
                    }
                }
            }
            let path = reconstruct_path::<F>(
                map,
                &st.came_from,
                c,
                Ghost(chain),
                Ghost(distance),
                Ghost(sound),
                Ghost(st.g@),
            );
            proof {
                if sound {
                    assert forall|q: Seq<i64>| is_route(*map, q, start_id, goal_id) implies route_cost(
                        *map,
                        distance,
                        path@,
                    ) <= route_cost(*map, distance, q) by {
                        lemma_pop_optimal(
                            *map,
                            distance,
                            s as int,
                            goal as int,
                            st.closed@,
                            st.open@,
                            st.g@,
                            st.f@,
                            c as int,
                            q,
                        );
                    }
                }
            }
            return Ok(path);
        }
        proof {
            assert(closed_set.insert(c as int).subset_of(set_int_range(0, n as int)));
            lemma_len_subset(closed_set.insert(c as int), set_int_range(0, n as int));
        }
        let gc = st.g[c].unwrap();
        st.close(map, c, &distance, Ghost(s as int), Ghost(goal as int));
        proof {
            closed_set = closed_set.insert(c as int);
        }
        let cid = map.nodes[c].id;
        let nw = map.ways.len();
        let mut w: usize = 0;
        while w < nw
            invariant
                ids == map.node_ids(),
                n == ids.len(),
                nw == map.ways@.len(),
                w <= nw,
                c < n,
                cid == ids[c as int],
                ids[goal as int] == goal_id,
                goal_node == map.nodes@[goal as int],
                forall|a: &Node, b: &Node| #[trigger] distance.requires((a, b)),
                st.closed@[c as int],
                st.closed@[s as int],
                st.ok(*map, s as int, goal as int),
                st.costs_hold(*map, distance, s as int, goal as int, c as int),
                gc as int == st.g@[c as int]->Some_0 as int,
                sound_metric(*map, distance, goal_id) ==> forall|v: int|
                    0 <= v < w ==> #[trigger] relaxed(*map, distance, st.closed@, st.g@, c as int, v),
                closed_under(*map, st.closed@, st.open@, c as int),
                forall|v: int| 0 <= v < w ==> #[trigger] covers(*map, st.closed@, st.open@, c as int, v),
                closed_set.finite(),
                closed_set.len() == st.t@,
                forall|i: int| #[trigger] closed_set.contains(i) <==> 0 <= i < n && st.closed@[i],
                set_int_range(0, n as int).len() == n,
                set_int_range(0, n as int).finite(),
            decreases nw - w,
        {
            let nbs = map.ways[w].neighbors_of_node(cid);
            let mut j: usize = 0;
            while j < nbs.len()
                invariant
                    ids == map.node_ids(),
                    n == ids.len(),
                    nw == map.ways@.len(),
                    w < nw,
                    c < n,
                    cid == ids[c as int],
                    nbs@ == neighbors_in(map.ways@[w as int].ids(), cid),
                    j <= nbs@.len(),
                    ids[goal as int] == goal_id,
                    goal_node == map.nodes@[goal as int],
                    forall|a: &Node, b: &Node| #[trigger] distance.requires((a, b)),
                    st.closed@[c as int],
                    st.closed@[s as int],
                    st.ok(*map, s as int, goal as int),
                    st.costs_hold(*map, distance, s as int, goal as int, c as int),
                    gc as int == st.g@[c as int]->Some_0 as int,
                    sound_metric(*map, distance, goal_id) ==> forall|v: int|
                        0 <= v < w ==> #[trigger] relaxed(*map, distance, st.closed@, st.g@, c as int, v),
                    closed_under(*map, st.closed@, st.open@, c as int),
                    forall|v: int| 0 <= v < w ==> #[trigger] covers(*map, st.closed@, st.open@, c as int, v),
                    forall|q: int|
                        0 <= q < j && map.has_node(#[trigger] nbs@[q]) ==> st.seen(map.node_pos(nbs@[q])),
                    sound_metric(*map, distance, goal_id) ==> forall|q: int|
                        0 <= q < j && map.has_node(#[trigger] nbs@[q]) && !st.closed@[map.node_pos(nbs@[q])]
                            ==> st.g@[map.node_pos(nbs@[q])] is Some && st.g@[map.node_pos(
                            nbs@[q],
                        )]->Some_0 as int <= gc as int + pos_cost(
                            *map,
                            distance,
                            c as int,
                            map.node_pos(nbs@[q]),
                        ),
                    closed_set.finite(),
                    closed_set.len() == st.t@,
                    forall|i: int| #[trigger] closed_set.contains(i) <==> 0 <= i < n && st.closed@[i],
                    set_int_range(0, n as int).len() == n,
                    set_int_range(0, n as int).finite(),
                decreases nbs@.len() - j,
            {
                let ghost before = st;
                st.visit(map, c, w, nbs[j], gc, goal_node, &distance, Ghost(s as int), Ghost(goal as int));
                proof {
                    assert forall|q: int|
                        0 <= q < j + 1 && map.has_node(#[trigger] nbs@[q]) implies st.seen(
                        map.node_pos(nbs@[q]),
                    ) by {
                        if q < j {
                            lemma_first_exists(ids, nbs@[q]);
                            assert(before.seen(map.node_pos(nbs@[q])));
                        }
                    }
                    if sound_metric(*map, distance, goal_id) {
                        assert forall|v: int| 0 <= v < w implies #[trigger] relaxed(
                            *map,
                            distance,
                            st.closed@,
                            st.g@,
                            c as int,
                            v,
                        ) by {
                            assert(relaxed(*map, distance, before.closed@, before.g@, c as int, v));
                        }
                        assert forall|q: int|
                            0 <= q < j + 1 && map.has_node(#[trigger] nbs@[q]) && !st.closed@[map.node_pos(
                                nbs@[q],
                            )] implies st.g@[map.node_pos(nbs@[q])] is Some && st.g@[map.node_pos(
                            nbs@[q],
                        )]->Some_0 as int <= gc as int + pos_cost(
                            *map,
                            distance,
                            c as int,
                            map.node_pos(nbs@[q]),
                        ) by {
                            lemma_first_exists(ids, nbs@[q]);
                            let i = map.node_pos(nbs@[q]);
                            if q < j {
                                assert(!before.closed@[i]);
                                assert(before.g@[i] is Some);
                                assert(before.g@[i]->Some_0 as int <= gc as int + pos_cost(
                                    *map,
                                    distance,
                                    c as int,
                                    i,
                                ));
                                assert(st.g@[i]->Some_0 <= before.g@[i]->Some_0);
                            } else {
                                assert(nbs@[q] == nbs@[j as int]);
                            }
                        }
                    }
                }
                j = j + 1;
            }
            assert(covers(*map, st.closed@, st.open@, c as int, w as int)) by {
                assert forall|b: i64|
                    #[trigger] neighbors_in(map.ways@[w as int].ids(), ids[c as int]).contains(b)
                        && map.has_node(b) implies st.closed@[map.node_pos(b)] || st.open@[map.node_pos(
                    b,
                )] by {
                    let q = choose|q: int| 0 <= q < nbs@.len() && nbs@[q] == b;
                    assert(st.seen(map.node_pos(nbs@[q])));
                }
            }
            proof {
                if sound_metric(*map, distance, goal_id) {
                    assert forall|b: i64|
                        #[trigger] neighbors_in(map.ways@[w as int].ids(), ids[c as int]).contains(b)
                            && map.has_node(b) && !st.closed@[map.node_pos(b)] implies st.g@[map.node_pos(
                        b,
                    )] is Some && st.g@[map.node_pos(b)]->Some_0 as int <= st.g@[c as int]->Some_0 as int
                        + pos_cost(*map, distance, c as int, map.node_pos(b)) by {
                        let q = choose|q: int| 0 <= q < nbs@.len() && nbs@[q] == b;
                        assert(nbs@[q] == b);
                    }
                    assert(relaxed(*map, distance, st.closed@, st.g@, c as int, w as int));
                }
            }
            w = w + 1;
        }
        assert(closed_under(*map, st.closed@, st.open@, -1));
        assert(st.costs_hold(*map, distance, s as int, goal as int, -1));
    }
}

} // verus!
