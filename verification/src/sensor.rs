//! The camera sensor that feeds an entity of a media graph.

use crate::media::{
    Entity, Topology, TopologyView, MEDIA_ENT_F_CAM_SENSOR, MEDIA_LNK_FL_DATA_LINK,
    MEDIA_LNK_FL_ENABLED, MEDIA_LNK_FL_LINK_TYPE,
};
#[allow(unused_imports)]
use crate::walk;
use std::collections::{HashMap, HashSet, VecDeque};
use vstd::prelude::*;

verus! {

broadcast use vstd::std_specs::hash::group_hash_axioms;

/// The active links among the first `n` that lead into entity `id`, in the
/// order in which they are listed.
spec fn feeding(g: TopologyView, id: u32, n: int) -> Seq<int>
    decreases n,
{
    if n <= 0 {
        Seq::empty()
    } else if walk::active(g, n - 1) && walk::sink_entity(g, n - 1) == id {
        feeding(g, id, n - 1).push(n - 1)
    } else {
        feeding(g, id, n - 1)
    }
}

/// The entities that the links in `s` take their data from.
spec fn sources(g: TopologyView, s: Seq<int>) -> Seq<u32> {
    s.map_values(|i: int| walk::source_entity(g, i))
}

/// `m` lists, for every entity that one of the first `n` links feeds, where
/// its data comes from.
spec fn lists_upstream(g: TopologyView, m: Map<u32, Vec<u32>>, n: int) -> bool {
    forall|id: u32| #![trigger m.contains_key(id)]
        if m.contains_key(id) {
            m[id]@ == sources(g, feeding(g, id, n))
        } else {
            feeding(g, id, n).len() == 0
        }
}

proof fn lemma_feeding(g: TopologyView, id: u32, n: int)
    ensures
        forall|k: int| #![trigger feeding(g, id, n)[k]]
            0 <= k < feeding(g, id, n).len() ==> {
                &&& walk::active(g, feeding(g, id, n)[k])
                &&& walk::sink_entity(g, feeding(g, id, n)[k]) == id
                &&& feeding(g, id, n)[k] < n
            },
        forall|k: int, l: int|
            0 <= k < l < feeding(g, id, n).len() ==> #[trigger] feeding(g, id, n)[k]
                < #[trigger] feeding(g, id, n)[l],
        forall|i: int|
            i < n && #[trigger] walk::active(g, i) && walk::sink_entity(g, i) == id
                ==> feeding(g, id, n).contains(i),
    decreases n,
{
    if n > 0 {
        lemma_feeding(g, id, n - 1);
        let before = feeding(g, id, n - 1);
        let now = feeding(g, id, n);
        assert forall|i: int|
            i < n && #[trigger] walk::active(g, i) && walk::sink_entity(g, i)
                == id implies now.contains(i) by {
            if i == n - 1 {
                assert(now[now.len() - 1] == i);
            } else {
                assert(before.contains(i));
                let k = choose|k: int| 0 <= k < before.len() && before[k] == i;
                assert(now[k] == i);
            }
        }
    }
}

/// For every entity that an active data link leads into, the entities that it
/// takes its data from, in the order in which the links are listed.
fn upstream_entities(topology: &Topology) -> (upstream: HashMap<u32, Vec<u32>>)
    ensures
        lists_upstream(topology@, upstream@, topology.links@.len() as int),
{
    let mut upstream: HashMap<u32, Vec<u32>> = HashMap::new();
    let ghost g = topology@;
    let n: usize = topology.links.len();
    let mut i: usize = 0;
    while i < n
        invariant
            g == topology@,
            n == topology.links@.len(),
            i <= n,
            lists_upstream(g, upstream@, i as int),
        decreases n - i,
    {
        let link = topology.links[i];
        assert(g.links[i as int] == link);
        let ghost before = upstream@;
        let ghost k = i as int;
        i = i + 1;
        if link.flags & MEDIA_LNK_FL_LINK_TYPE != MEDIA_LNK_FL_DATA_LINK {
            assert(!walk::active(g, k));
            continue;
        }
        if link.flags & MEDIA_LNK_FL_ENABLED == 0 {
            assert(!walk::active(g, k));
            continue;
        }
        let Some(src_pad) = topology.pads.get(&link.source_id) else {
            assert(!walk::active(g, k));
            continue;
        };
        let Some(dst_pad) = topology.pads.get(&link.sink_id) else {
            assert(!walk::active(g, k));
            continue;
        };
        assert(walk::active(g, k));
        upstream.entry(dst_pad.entity_id).or_insert(Vec::new()).push(src_pad.entity_id);
        proof {
            let sink = dst_pad.entity_id;
            assert forall|id: u32| #![trigger upstream@.contains_key(id)]
                if upstream@.contains_key(id) {
                    upstream@[id]@ == sources(g, feeding(g, id, i as int))
                } else {
                    feeding(g, id, i as int).len() == 0
                } by {
                assert(before.contains_key(id) || !before.contains_key(id));
                if id == sink {
                    assert(sources(g, feeding(g, id, k).push(k)) =~= sources(
                        g,
                        feeding(g, id, k),
                    ).push(src_pad.entity_id));
                    if !before.contains_key(id) {
                        assert(sources(g, feeding(g, id, k)) =~= Seq::<u32>::empty());
                    }
                }
            }
        }
    }
    upstream
}

/// The state of a breadth-first search from `start`: `queue` holds the
/// entities still to be looked at, `walks` the walk by which each was reached,
/// nearest first; `first` holds the walk by which each visited entity was
/// first looked at. The nearest walk to a sensor still leads over the queue.
spec fn searching(
    g: TopologyView,
    start: u32,
    queue: Seq<u32>,
    walks: Seq<Seq<int>>,
    visited: Set<u32>,
    first: Map<u32, Seq<int>>,
) -> bool {
    &&& walks.len() == queue.len()
    &&& forall|i: int| #![trigger walks[i]]
        0 <= i < walks.len() ==> walk::is_walk(g, start, walks[i]) && walk::walk_end(
            g,
            start,
            walks[i],
        ) == queue[i]
    &&& forall|i: int, j: int| #![trigger walks[i], walks[j]]
        0 <= i < j < walks.len() ==> walk::nearer(walks[i], walks[j])
    &&& forall|i: int, j: int| #![trigger walks[i], walks[j]]
        0 <= i < walks.len() && 0 <= j < walks.len() && walks[j].len() > 0 ==> walk::nearer(
            walks[j].drop_last(),
            walks[i],
        )
    &&& forall|id: u32| #[trigger]
        visited.contains(id) ==> walk::is_walk(g, start, first[id]) && walk::walk_end(
            g,
            start,
            first[id],
        ) == id
    &&& forall|id: u32, i: int| #![trigger visited.contains(id), walks[i]]
        visited.contains(id) && 0 <= i < walks.len() ==> walk::nearer(first[id], walks[i])
    &&& forall|m: Seq<int>| #[trigger] walk::nearest(g, start, m) ==> on_the_way(walks, m)
}

/// Walk `m` begins with one of `walks`.
spec fn on_the_way(walks: Seq<Seq<int>>, m: Seq<int>) -> bool {
    exists|i: int| 0 <= i < walks.len() && begins_with(m, #[trigger] walks[i])
}

spec fn begins_with(m: Seq<int>, w: Seq<int>) -> bool {
    w.len() <= m.len() && m.take(w.len() as int) == w
}

/// Once an entity is visited, a later walk to it is not on the way to the
/// nearest sensor.
proof fn lemma_revisit(g: TopologyView, start: u32, w: Seq<int>, v: Seq<int>, m: Seq<int>)
    requires
        walk::is_walk(g, start, w),
        walk::is_walk(g, start, v),
        walk::walk_end(g, start, v) == walk::walk_end(g, start, w),
        walk::nearer(v, w),
        walk::nearest(g, start, m),
    ensures
        !begins_with(m, w),
{
    if begins_with(m, w) {
        let s = m.skip(w.len() as int);
        assert(m =~= w + s);
        walk::lemma_walk_swap(g, start, v, w, s);
        walk::lemma_nearer_append(v, w, s);
        assert(walk::reaches_sensor(g, start, v + s));
        walk::nearer_is_strict(v + s, m);
    }
}

/// The search goes on after its head is dropped, where the head is not on the
/// way to the nearest sensor.
proof fn lemma_drop_head(
    g: TopologyView,
    start: u32,
    queue: Seq<u32>,
    walks: Seq<Seq<int>>,
    visited: Set<u32>,
    first: Map<u32, Seq<int>>,
)
    requires
        searching(g, start, queue, walks, visited, first),
        queue.len() > 0,
        forall|m: Seq<int>| #[trigger] walk::nearest(g, start, m) ==> !begins_with(m, walks[0]),
    ensures
        searching(g, start, queue.drop_first(), walks.drop_first(), visited, first),
{
    let rest = walks.drop_first();
    assert forall|i: int| 0 <= i < rest.len() implies #[trigger] rest[i] == walks[i + 1] by {}
    assert forall|m: Seq<int>| #[trigger] walk::nearest(g, start, m) implies on_the_way(rest, m) by {
        assert(on_the_way(walks, m));
        let i = choose|i: int| 0 <= i < walks.len() && begins_with(m, #[trigger] walks[i]);
        assert(rest[i - 1] == walks[i]);
    }
    let q = queue.drop_first();
    assert forall|i: int| #![trigger rest[i]]
        0 <= i < rest.len() implies walk::is_walk(g, start, rest[i]) && walk::walk_end(g, start, rest[i])
            == q[i] by {
        assert(rest[i] == walks[i + 1]);
    }
}

/// The walks that follow walk `w` over one of `links`.
spec fn extended(w: Seq<int>, links: Seq<int>) -> Seq<Seq<int>> {
    links.map_values(|i: int| w.push(i))
}

/// The search goes on after its head is looked at for the first time and the
/// entities behind `links` join the queue, where the nearest walk to a sensor,
/// if it leads over the head, takes one of `links` next.
proof fn lemma_expand_head(
    g: TopologyView,
    start: u32,
    queue: Seq<u32>,
    walks: Seq<Seq<int>>,
    visited: Set<u32>,
    first: Map<u32, Seq<int>>,
    links: Seq<int>,
)
    requires
        searching(g, start, queue, walks, visited, first),
        queue.len() > 0,
        links.len() > 0 ==> g.entities.contains_key(queue[0]),
        forall|k: int| #![trigger links[k]]
            0 <= k < links.len() ==> walk::active(g, links[k]) && walk::sink_entity(g, links[k])
                == queue[0],
        forall|k: int, l: int|
            0 <= k < l < links.len() ==> #[trigger] links[k] < #[trigger] links[l],
        forall|m: Seq<int>| #[trigger]
            walk::nearest(g, start, m) && begins_with(m, walks[0]) ==> m.len() > walks[0].len()
                && links.contains(m[walks[0].len() as int]),
    ensures
        searching(
            g,
            start,
            queue.drop_first() + sources(g, links),
            walks.drop_first() + extended(walks[0], links),
            visited.insert(queue[0]),
            first.insert(queue[0], walks[0]),
        ),
{
    let w = walks[0];
    let kept = walks.len() - 1;
    let queue2 = queue.drop_first() + sources(g, links);
    let walks2 = walks.drop_first() + extended(w, links);
    let visited2 = visited.insert(queue[0]);
    let first2 = first.insert(queue[0], w);
    assert forall|i: int| 0 <= i < kept implies #[trigger] walks2[i] == walks[i + 1] by {}
    assert forall|i: int| kept <= i < walks2.len() implies #[trigger] walks2[i] == w.push(
        links[i - kept],
    ) by {}
    assert forall|i: int| 0 <= i < walks2.len() implies walk::nearer(w, #[trigger] walks2[i]) by {
        if i < kept {
            assert(walks2[i] == walks[i + 1]);
        }
    }
    assert forall|i: int| #![trigger walks2[i]]
        0 <= i < walks2.len() implies walk::is_walk(g, start, walks2[i]) && walk::walk_end(
        g,
        start,
        walks2[i],
    ) == queue2[i] by {
        if i < kept {
            assert(walks2[i] == walks[i + 1]);
        } else {
            assert(w.push(links[i - kept]).drop_last() =~= w);
        }
    }
    assert forall|i: int, j: int| #![trigger walks2[i], walks2[j]]
        0 <= i < j < walks2.len() implies walk::nearer(walks2[i], walks2[j]) by {
        if j < kept {
            assert(walks2[i] == walks[i + 1] && walks2[j] == walks[j + 1]);
        } else if i < kept {
            let a = walks[i + 1];
            assert(walks2[i] == a);
            if a.len() > 0 {
                walk::lemma_nearer_push(a.drop_last(), w, a.last(), links[j - kept]);
                assert(a.drop_last().push(a.last()) =~= a);
            }
        } else {
            assert(links[i - kept] < links[j - kept]);
            walk::lemma_nearer_push(w, w, links[i - kept], links[j - kept]);
        }
    }
    assert forall|i: int, j: int| #![trigger walks2[i], walks2[j]]
        0 <= i < walks2.len() && 0 <= j < walks2.len() && walks2[j].len() > 0 implies walk::nearer(
        walks2[j].drop_last(),
        walks2[i],
    ) by {
        if j >= kept {
            assert(w.push(links[j - kept]).drop_last() =~= w);
        } else {
            assert(walks2[j] == walks[j + 1]);
            walk::nearer_is_transitive(walks2[j].drop_last(), w, walks2[i]);
        }
    }
    assert forall|id: u32, i: int| #![trigger visited2.contains(id), walks2[i]]
        visited2.contains(id) && 0 <= i < walks2.len() implies walk::nearer(first2[id], walks2[i]) by {
        if id != queue[0] {
            assert(visited.contains(id));
            walk::nearer_is_transitive(first[id], w, walks2[i]);
        }
    }
    assert forall|id: u32| #[trigger] visited2.contains(id) implies walk::is_walk(
        g,
        start,
        first2[id],
    ) && walk::walk_end(g, start, first2[id]) == id by {
        if id != queue[0] {
            assert(visited.contains(id));
        }
    }
    assert forall|m: Seq<int>| #[trigger] walk::nearest(g, start, m) implies on_the_way(walks2, m) by {
        assert(on_the_way(walks, m));
        let i = choose|i: int| 0 <= i < walks.len() && begins_with(m, #[trigger] walks[i]);
        if i > 0 {
            assert(walks2[i - 1] == walks[i]);
        } else {
            let n = w.len() as int;
            let k = choose|k: int| 0 <= k < links.len() && links[k] == m[n];
            assert(walks2[kept + k] == w.push(links[k]));
            assert(m.take(n + 1) =~= m.take(n).push(m[n]));
        }
    }
}

/// A sensor at the head of the queue is at the end of the nearest walk to one.
proof fn lemma_sensor_at_head(
    g: TopologyView,
    start: u32,
    queue: Seq<u32>,
    walks: Seq<Seq<int>>,
    visited: Set<u32>,
    first: Map<u32, Seq<int>>,
)
    requires
        searching(g, start, queue, walks, visited, first),
        queue.len() > 0,
        walk::is_sensor(g, queue[0]),
    ensures
        walk::sensor_of(g, start) == Some(queue[0]),
{
    let w = walks[0];
    assert(walk::reaches_sensor(g, start, w));
    walk::sensor_of_reachable(g, start);
    let m = choose|m: Seq<int>| walk::nearest(g, start, m);
    assert(walk::nearest(g, start, m));
    assert(on_the_way(walks, m));
    let i = choose|i: int| 0 <= i < walks.len() && begins_with(m, #[trigger] walks[i]);
    if m != w {
        if i > 0 {
            assert(walk::nearer(w, walks[i]));
        }
        if m.len() == walks[i].len() {
            assert(m =~= walks[i]);
        }
        assert(walk::nearer(w, m));
        walk::nearer_is_strict(w, m);
    }
}

/// The head of the queue is not on the way to a sensor where no entity of its
/// id is known.
proof fn lemma_unknown(g: TopologyView, start: u32, w: Seq<int>, m: Seq<int>)
    requires
        !g.entities.contains_key(walk::walk_end(g, start, w)),
        walk::nearest(g, start, m),
    ensures
        !begins_with(m, w),
{
    if begins_with(m, w) {
        if m.len() > w.len() {
            walk::lemma_walk_prefix(g, start, m, w.len() as int);
        } else {
            assert(m =~= w);
        }
    }
}

/// Enabled data links lead from a known camera sensor to `start`, by way of
/// known entities: link `path[k]` hands the data of entity `stops[k + 1]` to
/// entity `stops[k]`.
pub open spec fn fed_by_sensor(
    topology: Topology,
    start: u32,
    path: Seq<int>,
    stops: Seq<u32>,
) -> bool {
    &&& stops.len() == path.len() + 1
    &&& stops[0] == start
    &&& forall|k: int| #![trigger path[k]]
        0 <= k < path.len() ==> {
            let link = topology.links@[path[k]];
            &&& 0 <= path[k] < topology.links@.len()
            &&& link.flags & 0xf000_0000 == 0
            &&& link.flags & 1 != 0
            &&& topology.pads@.contains_key(link.sink_id)
            &&& topology.pads@.contains_key(link.source_id)
            &&& topology.pads@[link.sink_id].entity_id == stops[k]
            &&& topology.pads@[link.source_id].entity_id == stops[k + 1]
            &&& topology.entities@.contains_key(stops[k])
        }
    &&& topology.entities@.contains_key(stops.last())
    &&& topology.entities@[stops.last()].function == 0x0002_0001
}

/// The entity of the camera sensor that feeds entity `start_entity`, if any.
///
/// Only links that are currently active are followed, from sink to source. Of
/// several sensors it is the one that the fewest links lead to and, where that
/// leaves a choice, the one behind the links that are listed first.
pub fn find_sensor(topology: &Topology, start_entity: u32) -> (sensor: Option<&Entity>)
    ensures
        match walk::sensor_of(topology@, start_entity) {
            Some(id) => sensor == Some(&topology.entities@[id]),
            None => sensor is None,
        },
        sensor matches Some(entity) ==> entity.function == 0x0002_0001,
        forall|path: Seq<int>, stops: Seq<u32>| #[trigger]
            fed_by_sensor(*topology, start_entity, path, stops) ==> sensor is Some,
{
    let upstream = upstream_entities(topology);
    let mut queue: VecDeque<u32> = VecDeque::new();
    let mut visited: HashSet<u32> = HashSet::new();
    queue.push_back(start_entity);

    let ghost g = topology@;
    let ghost all = topology.links@.len() as int;
    let ghost mut walks: Seq<Seq<int>> = seq![Seq::<int>::empty()];
    let ghost mut first: Map<u32, Seq<int>> = Map::empty();
    proof {
        assert forall|m: Seq<int>| #[trigger] walk::nearest(g, start_entity, m) implies on_the_way(
            walks,
            m,
        ) by {
            assert(m.take(0) =~= walks[0]);
        }
    }

    loop
        invariant
            g == topology@,
            all == topology.links@.len(),
            lists_upstream(g, upstream@, all),
            searching(g, start_entity, queue@, walks, visited@, first),
        decreases topology.entities@.dom().difference(visited@).len(), queue@.len(),
    {
        let ghost queue0 = queue@;
        let ghost visited0 = visited@;
        let ghost known = topology.entities@.dom();
        let Some(entity_id) = queue.pop_front() else {
            proof {
                walk::sensor_of_reachable(g, start_entity);
                if walk::sensor_of(g, start_entity) is Some {
                    let m = choose|m: Seq<int>| walk::nearest(g, start_entity, m);
                    assert(on_the_way(walks, m));
                }
                assert forall|path: Seq<int>, stops: Seq<u32>| !#[trigger] fed_by_sensor(
                    *topology,
                    start_entity,
                    path,
                    stops,
                ) by {
                    if fed_by_sensor(*topology, start_entity, path, stops) {
                        let chain = walk::reachable_sensor_is_found(g, start_entity, path, stops);
                    }
                }
            }
            return None;
        };
        assert(queue@ == queue0.drop_first());
        if !visited.insert(entity_id) {
            proof {
                assert(visited@ =~= visited0);
                assert forall|m: Seq<int>| #[trigger] walk::nearest(g, start_entity, m) implies !begins_with(
                    m,
                    walks[0],
                ) by {
                    lemma_revisit(g, start_entity, walks[0], first[entity_id], m);
                }
                lemma_drop_head(g, start_entity, queue0, walks, visited0, first);
                walks = walks.drop_first();
            }
            continue;
        }
        let Some(entity) = topology.entities.get(&entity_id) else {
            proof {
                assert forall|m: Seq<int>| #[trigger] walk::nearest(g, start_entity, m) implies !begins_with(
                    m,
                    walks[0],
                ) by {
                    lemma_unknown(g, start_entity, walks[0], m);
                }
                let none = Seq::<int>::empty();
                lemma_expand_head(g, start_entity, queue0, walks, visited0, first, none);
                assert(queue0.drop_first() + sources(g, none) =~= queue@);
                first = first.insert(entity_id, walks[0]);
                walks = walks.drop_first() + extended(walks[0], none);
                assert(known.difference(visited@) =~= known.difference(visited0));
            }
            continue;
        };
        if entity.function == MEDIA_ENT_F_CAM_SENSOR {
            proof {
                lemma_sensor_at_head(g, start_entity, queue0, walks, visited0, first);
            }
            return Some(entity);
        }
        let ghost links = feeding(g, entity_id, all);
        proof {
            lemma_feeding(g, entity_id, all);
            let w = walks[0];
            assert forall|m: Seq<int>| #[trigger]
                walk::nearest(g, start_entity, m) && begins_with(m, w) implies m.len() > w.len()
                && links.contains(m[w.len() as int]) by {
                if m.len() == w.len() {
                    assert(m =~= w);
                } else {
                    walk::lemma_walk_prefix(g, start_entity, m, w.len() as int);
                    assert(walk::active(g, m[w.len() as int]));
                }
            }
            lemma_expand_head(g, start_entity, queue0, walks, visited0, first, links);
            first = first.insert(entity_id, w);
            walks = walks.drop_first() + extended(w, links);
            assert(known.difference(visited@) =~= known.difference(visited0).remove(entity_id));
            assert(known.difference(visited0).contains(entity_id));
        }
        let ghost rest = queue@;
        assert(upstream@.contains_key(entity_id) || !upstream@.contains_key(entity_id));
        if let Some(previous) = upstream.get(&entity_id) {
            let n: usize = previous.len();
            let mut i: usize = 0;
            while i < n
                invariant
                    n == previous@.len(),
                    i <= n,
                    queue@ == rest + previous@.take(i as int),
                decreases n - i,
            {
                queue.push_back(previous[i]);
                assert(previous@.take(i as int + 1) =~= previous@.take(i as int).push(
                    previous@[i as int],
                ));
                i = i + 1;
            }
            assert(previous@.take(n as int) =~= previous@);
        }
        assert(queue@ =~= rest + sources(g, links));
    }
}

} // verus!
