//! Walks through a media graph, against the flow of the data.

use crate::media::{
    TopologyView, MEDIA_ENT_F_CAM_SENSOR, MEDIA_LNK_FL_DATA_LINK, MEDIA_LNK_FL_ENABLED,
    MEDIA_LNK_FL_LINK_TYPE,
};
use vstd::prelude::*;

verus! {

/// Link `i` of the graph carries data at present: it is an enabled data link
/// between two pads that are known.
pub open spec fn active(g: TopologyView, i: int) -> bool {
    &&& 0 <= i < g.links.len()
    &&& g.links[i].flags & MEDIA_LNK_FL_LINK_TYPE == MEDIA_LNK_FL_DATA_LINK
    &&& g.links[i].flags & MEDIA_LNK_FL_ENABLED != 0
    &&& g.pads.contains_key(g.links[i].source_id)
    &&& g.pads.contains_key(g.links[i].sink_id)
}

/// The entity that data link `i` takes its data from.
pub open spec fn source_entity(g: TopologyView, i: int) -> u32 {
    g.pads[g.links[i].source_id].entity_id
}

/// The entity that data link `i` hands its data to.
pub open spec fn sink_entity(g: TopologyView, i: int) -> u32 {
    g.pads[g.links[i].sink_id].entity_id
}

/// The entity that walk `w` from `start` arrives at. A walk is the sequence of
/// the links that it follows, each from its sink to its source.
pub open spec fn walk_end(g: TopologyView, start: u32, w: Seq<int>) -> u32 {
    if w.len() == 0 {
        start
    } else {
        source_entity(g, w.last())
    }
}

/// `w` is a walk from `start`: each of its links is active and leads into the
/// entity reached so far, and each entity that the walk leaves is known.
pub open spec fn is_walk(g: TopologyView, start: u32, w: Seq<int>) -> bool
    decreases w.len(),
{
    w.len() == 0 || {
        let before = w.drop_last();
        &&& is_walk(g, start, before)
        &&& g.entities.contains_key(walk_end(g, start, before))
        &&& active(g, w.last())
        &&& sink_entity(g, w.last()) == walk_end(g, start, before)
    }
}

/// The entity with this id is a known camera sensor.
pub open spec fn is_sensor(g: TopologyView, id: u32) -> bool {
    g.entities.contains_key(id) && g.entities[id].function == MEDIA_ENT_F_CAM_SENSOR
}

/// `w` is a walk from `start` to a camera sensor.
pub open spec fn reaches_sensor(g: TopologyView, start: u32, w: Seq<int>) -> bool {
    is_walk(g, start, w) && is_sensor(g, walk_end(g, start, w))
}

/// Of two walks of one length, `a` takes the link listed first where they part.
pub open spec fn parts_before(a: Seq<int>, b: Seq<int>) -> bool
    decreases a.len(),
{
    a.len() > 0 && {
        ||| parts_before(a.drop_last(), b.drop_last())
        ||| a.drop_last() == b.drop_last() && a.last() < b.last()
    }
}

/// Walk `a` is nearer than walk `b`: shorter or, of the same length, the one
/// that takes the link listed first where they part.
pub open spec fn nearer(a: Seq<int>, b: Seq<int>) -> bool {
    a.len() < b.len() || (a.len() == b.len() && parts_before(a, b))
}

/// `w` is the nearest of all walks from `start` to a camera sensor.
pub open spec fn nearest(g: TopologyView, start: u32, w: Seq<int>) -> bool {
    &&& reaches_sensor(g, start, w)
    &&& forall|v: Seq<int>| #[trigger] reaches_sensor(g, start, v) ==> v == w || nearer(w, v)
}

/// The camera sensor that feeds entity `start`: the one at the end of the
/// nearest walk to a sensor, if any walk leads to one.
pub open spec fn sensor_of(g: TopologyView, start: u32) -> Option<u32> {
    if exists|w: Seq<int>| nearest(g, start, w) {
        Some(walk_end(g, start, choose|w: Seq<int>| nearest(g, start, w)))
    } else {
        None
    }
}

// The order of walks.

proof fn lemma_parts_before_strict(a: Seq<int>, b: Seq<int>)
    requires
        a.len() == b.len(),
        parts_before(a, b),
    ensures
        a != b,
        !parts_before(b, a),
    decreases a.len(),
{
    if parts_before(a.drop_last(), b.drop_last()) {
        lemma_parts_before_strict(a.drop_last(), b.drop_last());
    } else if parts_before(b.drop_last(), a.drop_last()) {
        lemma_parts_before_strict(b.drop_last(), a.drop_last());
    }
}

/// A walk is not nearer than itself, and of two walks at most one is nearer.
pub proof fn nearer_is_strict(a: Seq<int>, b: Seq<int>)
    requires
        nearer(a, b),
    ensures
        a != b,
        !nearer(b, a),
{
    if a.len() == b.len() {
        lemma_parts_before_strict(a, b);
    }
}

proof fn lemma_parts_before_transitive(a: Seq<int>, b: Seq<int>, c: Seq<int>)
    requires
        a.len() == b.len() == c.len(),
        parts_before(a, b),
        parts_before(b, c),
    ensures
        parts_before(a, c),
    decreases a.len(),
{
    if parts_before(a.drop_last(), b.drop_last()) && parts_before(b.drop_last(), c.drop_last()) {
        lemma_parts_before_transitive(a.drop_last(), b.drop_last(), c.drop_last());
    }
}

/// What is nearer than a nearer walk is nearer.
pub proof fn nearer_is_transitive(a: Seq<int>, b: Seq<int>, c: Seq<int>)
    requires
        nearer(a, b),
        nearer(b, c),
    ensures
        nearer(a, c),
{
    if a.len() == b.len() && b.len() == c.len() {
        lemma_parts_before_transitive(a, b, c);
    }
}

/// Of two different walks one is nearer.
pub proof fn nearer_is_total(a: Seq<int>, b: Seq<int>)
    ensures
        a == b || nearer(a, b) || nearer(b, a),
    decreases a.len(),
{
    if a.len() == b.len() {
        if a.len() == 0 {
            assert(a =~= b);
        } else {
            nearer_is_total(a.drop_last(), b.drop_last());
            if a.drop_last() == b.drop_last() && a.last() == b.last() {
                assert(a =~= a.drop_last().push(a.last()));
                assert(b =~= b.drop_last().push(b.last()));
            }
        }
    }
}

pub(crate) proof fn lemma_nearer_push(a: Seq<int>, b: Seq<int>, x: int, y: int)
    requires
        nearer(a, b) || (a == b && x < y),
    ensures
        nearer(a.push(x), b.push(y)),
{
    assert(a.push(x).drop_last() =~= a);
    assert(b.push(y).drop_last() =~= b);
}

pub(crate) proof fn lemma_nearer_append(a: Seq<int>, b: Seq<int>, s: Seq<int>)
    requires
        nearer(a, b),
    ensures
        nearer(a + s, b + s),
    decreases s.len(),
{
    if s.len() == 0 {
        assert(a + s =~= a);
        assert(b + s =~= b);
    } else {
        lemma_nearer_append(a, b, s.drop_last());
        lemma_nearer_push(a + s.drop_last(), b + s.drop_last(), s.last(), s.last());
        assert((a + s.drop_last()).push(s.last()) =~= a + s);
        assert((b + s.drop_last()).push(s.last()) =~= b + s);
    }
}

// Walks that go on from one entity.

/// Where two walks meet, what carries one of them on carries the other on.
pub(crate) proof fn lemma_walk_swap(g: TopologyView, start: u32, a: Seq<int>, b: Seq<int>, s: Seq<int>)
    requires
        is_walk(g, start, a),
        is_walk(g, start, b + s),
        walk_end(g, start, a) == walk_end(g, start, b),
    ensures
        is_walk(g, start, a + s),
        walk_end(g, start, a + s) == walk_end(g, start, b + s),
    decreases s.len(),
{
    if s.len() == 0 {
        assert(a + s =~= a);
        assert(b + s =~= b);
    } else {
        assert((b + s).drop_last() =~= b + s.drop_last());
        assert((a + s).drop_last() =~= a + s.drop_last());
        lemma_walk_swap(g, start, a, b, s.drop_last());
    }
}

/// A walk's first part is a walk, and the walk goes on from its end.
pub(crate) proof fn lemma_walk_prefix(g: TopologyView, start: u32, w: Seq<int>, n: int)
    requires
        is_walk(g, start, w),
        0 <= n < w.len(),
    ensures
        is_walk(g, start, w.take(n)),
        g.entities.contains_key(walk_end(g, start, w.take(n))),
        active(g, w[n]),
        sink_entity(g, w[n]) == walk_end(g, start, w.take(n)),
    decreases w.len(),
{
    if n == w.len() - 1 {
        assert(w.take(n) =~= w.drop_last());
    } else {
        assert(w.take(n) =~= w.drop_last().take(n));
        lemma_walk_prefix(g, start, w.drop_last(), n);
    }
}

// There is a nearest walk wherever there is any.

spec fn rank(w: Seq<int>, base: int) -> int
    decreases w.len(),
{
    if w.len() == 0 {
        0
    } else {
        rank(w.drop_last(), base) * base + w.last()
    }
}

proof fn lemma_walk_links(g: TopologyView, start: u32, w: Seq<int>)
    requires
        is_walk(g, start, w),
    ensures
        forall|i: int| 0 <= i < w.len() ==> 0 <= #[trigger] w[i] < g.links.len(),
    decreases w.len(),
{
    if w.len() > 0 {
        lemma_walk_links(g, start, w.drop_last());
        assert forall|i: int| 0 <= i < w.len() implies 0 <= #[trigger] w[i] < g.links.len() by {
            if i < w.len() - 1 {
                assert(w.drop_last()[i] == w[i]);
            }
        }
    }
}

proof fn lemma_rank_nonneg(w: Seq<int>, base: int)
    requires
        base >= 0,
        forall|i: int| 0 <= i < w.len() ==> 0 <= #[trigger] w[i] < base,
    ensures
        rank(w, base) >= 0,
    decreases w.len(),
{
    if w.len() > 0 {
        assert forall|i: int| 0 <= i < w.drop_last().len() implies 0 <= #[trigger] w.drop_last()[i] < base by {
            assert(w.drop_last()[i] == w[i]);
        }
        lemma_rank_nonneg(w.drop_last(), base);
        let r = rank(w.drop_last(), base);
        assert(r * base >= 0) by (nonlinear_arith)
            requires
                r >= 0,
                base >= 0,
        ;
    }
}

proof fn lemma_rank_increases(a: Seq<int>, b: Seq<int>, base: int)
    requires
        a.len() == b.len(),
        parts_before(a, b),
        forall|i: int| 0 <= i < a.len() ==> 0 <= #[trigger] a[i] < base,
        forall|i: int| 0 <= i < b.len() ==> 0 <= #[trigger] b[i] < base,
    ensures
        rank(a, base) < rank(b, base),
    decreases a.len(),
{
    if parts_before(a.drop_last(), b.drop_last()) {
        assert forall|i: int| 0 <= i < a.drop_last().len() implies 0 <= #[trigger] a.drop_last()[i] < base by {
            assert(a.drop_last()[i] == a[i]);
        }
        assert forall|i: int| 0 <= i < b.drop_last().len() implies 0 <= #[trigger] b.drop_last()[i] < base by {
            assert(b.drop_last()[i] == b[i]);
        }
        lemma_rank_increases(a.drop_last(), b.drop_last(), base);
        let ra = rank(a.drop_last(), base);
        let rb = rank(b.drop_last(), base);
        assert(ra * base + base <= rb * base) by (nonlinear_arith)
            requires
                ra + 1 <= rb,
                base >= 0,
        ;
    }
}

proof fn lemma_nearest_exists(g: TopologyView, start: u32, w: Seq<int>)
    requires
        reaches_sensor(g, start, w),
    ensures
        exists|m: Seq<int>| nearest(g, start, m),
    decreases w.len(), rank(w, g.links.len() as int),
{
    let base = g.links.len() as int;
    if exists|v: Seq<int>| reaches_sensor(g, start, v) && nearer(v, w) {
        let v = choose|v: Seq<int>| reaches_sensor(g, start, v) && nearer(v, w);
        lemma_walk_links(g, start, v);
        lemma_walk_links(g, start, w);
        lemma_rank_nonneg(v, base);
        if v.len() == w.len() {
            lemma_rank_increases(v, w, base);
        }
        lemma_nearest_exists(g, start, v);
    } else {
        assert forall|v: Seq<int>| #[trigger] reaches_sensor(g, start, v) implies v == w || nearer(w, v) by {
            nearer_is_total(v, w);
        }
        assert(nearest(g, start, w));
    }
}

/// A sensor feeds `start` exactly where some walk from `start` leads to one,
/// and the sensor is the one that the nearest walk arrives at.
pub proof fn sensor_of_reachable(g: TopologyView, start: u32)
    ensures
        sensor_of(g, start) is Some <==> exists|w: Seq<int>| reaches_sensor(g, start, w),
        forall|w: Seq<int>| nearest(g, start, w) ==> sensor_of(g, start) == Some(
            #[trigger] walk_end(g, start, w),
        ),
        sensor_of(g, start) matches Some(id) ==> is_sensor(g, id),
{
    if exists|w: Seq<int>| reaches_sensor(g, start, w) {
        let w = choose|w: Seq<int>| reaches_sensor(g, start, w);
        lemma_nearest_exists(g, start, w);
    }
    if exists|w: Seq<int>| nearest(g, start, w) {
        let m = choose|w: Seq<int>| nearest(g, start, w);
        assert(reaches_sensor(g, start, m));
        assert forall|w: Seq<int>| nearest(g, start, w) implies sensor_of(g, start) == Some(
            #[trigger] walk_end(g, start, w),
        ) by {
            nearest_is_unique(g, start, w, m);
        }
    }
}

/// There is at most one nearest walk to a sensor.
pub proof fn nearest_is_unique(g: TopologyView, start: u32, a: Seq<int>, b: Seq<int>)
    requires
        nearest(g, start, a),
        nearest(g, start, b),
    ensures
        a == b,
{
    if a != b {
        nearer_is_strict(a, b);
    }
}

// What the sensor behind an entity depends on.

/// The graphs agree in their entities and in what is active: `f` takes the
/// active links of `g` to those of `h`, all of them and in the same order, and
/// each to one between the same entities.
pub open spec fn same_flow(g: TopologyView, h: TopologyView, f: spec_fn(int) -> int) -> bool {
    &&& g.entities == h.entities
    &&& forall|i: int| #[trigger]
        active(g, i) ==> active(h, f(i)) && source_entity(g, i) == source_entity(h, f(i))
            && sink_entity(g, i) == sink_entity(h, f(i))
    &&& forall|i: int, j: int| #[trigger]
        active(g, i) && #[trigger] active(g, j) && i < j ==> f(i) < f(j)
    &&& forall|k: int| #[trigger] active(h, k) ==> exists|i: int| active(g, i) && f(i) == k
}

proof fn lemma_walk_image(
    g: TopologyView,
    h: TopologyView,
    f: spec_fn(int) -> int,
    start: u32,
    w: Seq<int>,
)
    requires
        same_flow(g, h, f),
        is_walk(g, start, w),
    ensures
        is_walk(h, start, w.map_values(f)),
        walk_end(h, start, w.map_values(f)) == walk_end(g, start, w),
    decreases w.len(),
{
    if w.len() > 0 {
        lemma_walk_image(g, h, f, start, w.drop_last());
        assert(w.map_values(f).drop_last() =~= w.drop_last().map_values(f));
        assert(active(g, w.last()));
    }
}

proof fn lemma_walk_preimage(
    g: TopologyView,
    h: TopologyView,
    f: spec_fn(int) -> int,
    start: u32,
    v: Seq<int>,
) -> (w: Seq<int>)
    requires
        same_flow(g, h, f),
        is_walk(h, start, v),
    ensures
        is_walk(g, start, w),
        w.map_values(f) == v,
    decreases v.len(),
{
    if v.len() == 0 {
        let w = Seq::<int>::empty();
        assert(w.map_values(f) =~= v);
        w
    } else {
        let before = lemma_walk_preimage(g, h, f, start, v.drop_last());
        lemma_walk_image(g, h, f, start, before);
        assert(active(h, v.last()));
        let i = choose|i: int| active(g, i) && f(i) == v.last();
        let w = before.push(i);
        assert(w.drop_last() =~= before);
        assert(w.map_values(f) =~= before.map_values(f).push(f(i)));
        assert(v =~= v.drop_last().push(v.last()));
        w
    }
}

proof fn lemma_image_parts_before(
    g: TopologyView,
    h: TopologyView,
    f: spec_fn(int) -> int,
    start: u32,
    a: Seq<int>,
    b: Seq<int>,
)
    requires
        same_flow(g, h, f),
        is_walk(g, start, a),
        is_walk(g, start, b),
        a.len() == b.len(),
        parts_before(a, b),
    ensures
        parts_before(a.map_values(f), b.map_values(f)),
    decreases a.len(),
{
    assert(a.map_values(f).drop_last() =~= a.drop_last().map_values(f));
    assert(b.map_values(f).drop_last() =~= b.drop_last().map_values(f));
    if parts_before(a.drop_last(), b.drop_last()) {
        lemma_image_parts_before(g, h, f, start, a.drop_last(), b.drop_last());
    } else {
        assert(active(g, a.last()) && active(g, b.last()));
    }
}

/// Which sensor feeds an entity depends on the entities and on the links that
/// are active, in their order, and on nothing else.
pub proof fn only_active_links_matter(
    g: TopologyView,
    h: TopologyView,
    f: spec_fn(int) -> int,
    start: u32,
)
    requires
        same_flow(g, h, f),
    ensures
        sensor_of(g, start) == sensor_of(h, start),
{
    sensor_of_reachable(g, start);
    sensor_of_reachable(h, start);
    if sensor_of(g, start) is Some {
        let m = choose|w: Seq<int>| nearest(g, start, w);
        let image = m.map_values(f);
        lemma_walk_image(g, h, f, start, m);
        assert(reaches_sensor(h, start, image));
        assert forall|v: Seq<int>| #[trigger] reaches_sensor(h, start, v) implies v == image
            || nearer(image, v) by {
            let w = lemma_walk_preimage(g, h, f, start, v);
            lemma_walk_image(g, h, f, start, w);
            assert(reaches_sensor(g, start, w));
            if w != m && w.len() == m.len() {
                lemma_image_parts_before(g, h, f, start, m, w);
            }
        }
        assert(nearest(h, start, image));
        assert(sensor_of(g, start) == Some(walk_end(g, start, m)));
        assert(sensor_of(h, start) == Some(walk_end(h, start, image)));
    } else {
        assert forall|v: Seq<int>| !reaches_sensor(h, start, v) by {
            if reaches_sensor(h, start, v) {
                let w = lemma_walk_preimage(g, h, f, start, v);
                lemma_walk_image(g, h, f, start, w);
                assert(reaches_sensor(g, start, w));
            }
        }
    }
}

/// Links that are not active at present have no bearing on which sensor feeds
/// an entity, wherever they are listed: `h` holds the links of `g`, link `i`
/// at position `f(i)`, in the same order, and besides them inactive ones alone.
pub proof fn inactive_links_do_not_matter(
    g: TopologyView,
    h: TopologyView,
    f: spec_fn(int) -> int,
    start: u32,
)
    requires
        g.entities == h.entities,
        g.pads == h.pads,
        forall|i: int|
            0 <= i < g.links.len() ==> 0 <= #[trigger] f(i) < h.links.len() && h.links[f(i)]
                == g.links[i],
        forall|i: int, j: int| 0 <= i < j < g.links.len() ==> #[trigger] f(i) < #[trigger] f(j),
        forall|k: int| #[trigger]
            active(h, k) ==> exists|i: int| 0 <= i < g.links.len() && #[trigger] f(i) == k,
    ensures
        sensor_of(g, start) == sensor_of(h, start),
{
    assert forall|i: int| #[trigger] active(g, i) implies active(h, f(i)) && source_entity(g, i)
        == source_entity(h, f(i)) && sink_entity(g, i) == sink_entity(h, f(i)) by {
        assert(h.links[f(i)] == g.links[i]);
    }
    assert forall|k: int| #[trigger] active(h, k) implies exists|i: int|
        active(g, i) && f(i) == k by {
        let i = choose|i: int| 0 <= i < g.links.len() && #[trigger] f(i) == k;
        assert(h.links[f(i)] == g.links[i]);
        assert(active(g, i) && f(i) == k);
    }
    assert(same_flow(g, h, f));
    only_active_links_matter(g, h, f, start);
}

/// A link that is disabled, or that does not connect pads, is not active.
pub proof fn only_enabled_data_links_are_active(g: TopologyView, i: int)
    requires
        g.links[i].flags & MEDIA_LNK_FL_ENABLED == 0 || g.links[i].flags & MEDIA_LNK_FL_LINK_TYPE
            != MEDIA_LNK_FL_DATA_LINK,
    ensures
        !active(g, i),
{
}

/// A sensor is fed by itself.
pub proof fn sensor_feeds_itself(g: TopologyView, start: u32)
    requires
        is_sensor(g, start),
    ensures
        sensor_of(g, start) == Some(start),
{
    let here = Seq::<int>::empty();
    assert(reaches_sensor(g, start, here));
    assert forall|v: Seq<int>| #[trigger] reaches_sensor(g, start, v) implies v == here || nearer(
        here,
        v,
    ) by {
        if v.len() == 0 {
            assert(v =~= here);
        }
    }
    assert(nearest(g, start, here));
    sensor_of_reachable(g, start);
    assert(walk_end(g, start, here) == start);
}

/// No sensor feeds an entity that the graph does not hold.
pub proof fn unknown_entity_has_no_sensor(g: TopologyView, start: u32)
    requires
        !g.entities.contains_key(start),
    ensures
        sensor_of(g, start) is None,
{
    sensor_of_reachable(g, start);
    assert forall|w: Seq<int>| !reaches_sensor(g, start, w) by {
        if is_walk(g, start, w) && w.len() > 0 {
            lemma_walk_prefix(g, start, w, 0);
            assert(walk_end(g, start, w.take(0)) == start);
        }
    }
}

// Walks, link by link.

/// The entities that a walk passes, the first being where it starts.
proof fn lemma_walk_stops(g: TopologyView, start: u32, w: Seq<int>) -> (stops: Seq<u32>)
    requires
        is_walk(g, start, w),
    ensures
        stops.len() == w.len() + 1,
        stops[0] == start,
        forall|k: int| #![trigger w[k]]
            0 <= k < w.len() ==> {
                &&& 0 <= w[k] < g.links.len()
                &&& g.links[w[k]].flags & 0xf000_0000 == 0
                &&& g.links[w[k]].flags & 1 != 0
                &&& g.pads.contains_key(g.links[w[k]].sink_id)
                &&& g.pads.contains_key(g.links[w[k]].source_id)
                &&& g.pads[g.links[w[k]].sink_id].entity_id == stops[k]
                &&& g.pads[g.links[w[k]].source_id].entity_id == stops[k + 1]
                &&& g.entities.contains_key(stops[k])
            },
        stops.last() == walk_end(g, start, w),
    decreases w.len(),
{
    if w.len() == 0 {
        seq![start]
    } else {
        let before = lemma_walk_stops(g, start, w.drop_last());
        let stops = before.push(walk_end(g, start, w));
        assert forall|k: int| #![trigger w[k]] 0 <= k < w.len() implies {
            &&& 0 <= w[k] < g.links.len()
            &&& g.links[w[k]].flags & 0xf000_0000 == 0
            &&& g.links[w[k]].flags & 1 != 0
            &&& g.pads.contains_key(g.links[w[k]].sink_id)
            &&& g.pads.contains_key(g.links[w[k]].source_id)
            &&& g.pads[g.links[w[k]].sink_id].entity_id == stops[k]
            &&& g.pads[g.links[w[k]].source_id].entity_id == stops[k + 1]
            &&& g.entities.contains_key(stops[k])
        } by {
            if k < w.len() - 1 {
                assert(w.drop_last()[k] == w[k]);
            } else {
                assert(active(g, w.last()));
            }
        }
        stops
    }
}

proof fn lemma_stops_are_walk(g: TopologyView, start: u32, path: Seq<int>, stops: Seq<u32>)
    requires
        stops.len() == path.len() + 1,
        stops[0] == start,
        forall|k: int| #![trigger path[k]]
            0 <= k < path.len() ==> {
                &&& 0 <= path[k] < g.links.len()
                &&& g.links[path[k]].flags & 0xf000_0000 == 0
                &&& g.links[path[k]].flags & 1 != 0
                &&& g.pads.contains_key(g.links[path[k]].sink_id)
                &&& g.pads.contains_key(g.links[path[k]].source_id)
                &&& g.pads[g.links[path[k]].sink_id].entity_id == stops[k]
                &&& g.pads[g.links[path[k]].source_id].entity_id == stops[k + 1]
                &&& g.entities.contains_key(stops[k])
            },
    ensures
        is_walk(g, start, path),
        walk_end(g, start, path) == stops.last(),
    decreases path.len(),
{
    if path.len() > 0 {
        let before = path.drop_last();
        let fewer = stops.drop_last();
        assert forall|k: int| #![trigger before[k]] 0 <= k < before.len() implies {
            &&& 0 <= before[k] < g.links.len()
            &&& g.links[before[k]].flags & 0xf000_0000 == 0
            &&& g.links[before[k]].flags & 1 != 0
            &&& g.pads.contains_key(g.links[before[k]].sink_id)
            &&& g.pads.contains_key(g.links[before[k]].source_id)
            &&& g.pads[g.links[before[k]].sink_id].entity_id == fewer[k]
            &&& g.pads[g.links[before[k]].source_id].entity_id == fewer[k + 1]
            &&& g.entities.contains_key(fewer[k])
        } by {
            assert(before[k] == path[k]);
        }
        lemma_stops_are_walk(g, start, before, fewer);
        assert(path[path.len() - 1] == path.last());
    }
}

proof fn lemma_parts_at(a: Seq<int>, b: Seq<int>) -> (k: int)
    requires
        a.len() == b.len(),
        parts_before(a, b),
    ensures
        0 <= k < a.len(),
        a.take(k) == b.take(k),
        a[k] < b[k],
    decreases a.len(),
{
    if parts_before(a.drop_last(), b.drop_last()) {
        let k = lemma_parts_at(a.drop_last(), b.drop_last());
        assert(a.take(k) =~= a.drop_last().take(k));
        assert(b.take(k) =~= b.drop_last().take(k));
        k
    } else {
        let k = a.len() - 1;
        assert(a.take(k) =~= a.drop_last());
        assert(b.take(k) =~= b.drop_last());
        k
    }
}

/// The sensor that feeds `start` is a known entity with the function of a
/// camera sensor, and enabled data links lead from it to `start`: link
/// `chain.0[k]` hands the data of entity `chain.1[k + 1]` to `chain.1[k]`.
pub proof fn sensor_feeds_start(g: TopologyView, start: u32) -> (chain: (Seq<int>, Seq<u32>))
    requires
        sensor_of(g, start) is Some,
    ensures
        chain.1.len() == chain.0.len() + 1,
        chain.1[0] == start,
        forall|k: int| #![trigger chain.0[k]]
            0 <= k < chain.0.len() ==> {
                &&& 0 <= chain.0[k] < g.links.len()
                &&& g.links[chain.0[k]].flags & 0xf000_0000 == 0
                &&& g.links[chain.0[k]].flags & 1 != 0
                &&& g.pads.contains_key(g.links[chain.0[k]].sink_id)
                &&& g.pads.contains_key(g.links[chain.0[k]].source_id)
                &&& g.pads[g.links[chain.0[k]].sink_id].entity_id == chain.1[k]
                &&& g.pads[g.links[chain.0[k]].source_id].entity_id == chain.1[k + 1]
                &&& g.entities.contains_key(chain.1[k])
            },
        sensor_of(g, start) == Some(chain.1.last()),
        g.entities.contains_key(chain.1.last()),
        g.entities[chain.1.last()].function == 0x0002_0001,
{
    sensor_of_reachable(g, start);
    let w = choose|w: Seq<int>| nearest(g, start, w);
    assert(sensor_of(g, start) == Some(walk_end(g, start, w)));
    let stops = lemma_walk_stops(g, start, w);
    (w, stops)
}

/// Wherever enabled data links lead from a known entity with the function of a
/// camera sensor to `start`, by way of known entities, a sensor feeds `start`:
/// one that as few links or fewer lead from and, if as few, over links that are
/// listed no later where the two ways part.
pub proof fn reachable_sensor_is_found(
    g: TopologyView,
    start: u32,
    path: Seq<int>,
    stops: Seq<u32>,
) -> (chain: (Seq<int>, Seq<u32>))
    requires
        stops.len() == path.len() + 1,
        stops[0] == start,
        forall|k: int| #![trigger path[k]]
            0 <= k < path.len() ==> {
                &&& 0 <= path[k] < g.links.len()
                &&& g.links[path[k]].flags & 0xf000_0000 == 0
                &&& g.links[path[k]].flags & 1 != 0
                &&& g.pads.contains_key(g.links[path[k]].sink_id)
                &&& g.pads.contains_key(g.links[path[k]].source_id)
                &&& g.pads[g.links[path[k]].sink_id].entity_id == stops[k]
                &&& g.pads[g.links[path[k]].source_id].entity_id == stops[k + 1]
                &&& g.entities.contains_key(stops[k])
            },
        g.entities.contains_key(stops.last()),
        g.entities[stops.last()].function == 0x0002_0001,
    ensures
        chain.1.len() == chain.0.len() + 1,
        chain.1[0] == start,
        forall|k: int| #![trigger chain.0[k]]
            0 <= k < chain.0.len() ==> {
                &&& 0 <= chain.0[k] < g.links.len()
                &&& g.links[chain.0[k]].flags & 0xf000_0000 == 0
                &&& g.links[chain.0[k]].flags & 1 != 0
                &&& g.pads.contains_key(g.links[chain.0[k]].sink_id)
                &&& g.pads.contains_key(g.links[chain.0[k]].source_id)
                &&& g.pads[g.links[chain.0[k]].sink_id].entity_id == chain.1[k]
                &&& g.pads[g.links[chain.0[k]].source_id].entity_id == chain.1[k + 1]
                &&& g.entities.contains_key(chain.1[k])
            },
        sensor_of(g, start) == Some(chain.1.last()),
        chain.0.len() <= path.len(),
        chain.0.len() == path.len() ==> chain.0 == path || exists|k: int|
            0 <= k < path.len() && #[trigger] chain.0.take(k) == path.take(k) && chain.0[k]
                < path[k],
{
    lemma_stops_are_walk(g, start, path, stops);
    assert(reaches_sensor(g, start, path));
    sensor_of_reachable(g, start);
    let w = choose|w: Seq<int>| nearest(g, start, w);
    assert(nearest(g, start, w));
    assert(sensor_of(g, start) == Some(walk_end(g, start, w)));
    let found = lemma_walk_stops(g, start, w);
    if w != path && w.len() == path.len() {
        let k = lemma_parts_at(w, path);
        assert(w.take(k) == path.take(k));
    }
    (w, found)
}

} // verus!
