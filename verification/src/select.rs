//! Which lanes survive: every internal lane, and one representative for
//! each edge that is not internal.

use vstd::prelude::*;
use std::collections::HashMap;
use crate::network::{
    lane_models, Bounds, Junction, JunctionPoint, Lane, LaneModel, ParsedNetwork, TrafficLight,
};

verus! {

/// The position of the first lane of `reps` at or after `from` that belongs
/// to `edge`, or the length of `reps` where there is none.
pub open spec fn find_edge<C>(reps: Seq<LaneModel<C>>, edge: Option<Seq<char>>, from: int) -> int
    decreases reps.len() - from,
{
    if from >= reps.len() {
        reps.len() as int
    } else if reps[from].edge_id == edge {
        from
    } else {
        find_edge(reps, edge, from + 1)
    }
}

/// The representatives after `lane` was offered: `lane` joins at the end
/// where its edge has none yet, and takes the place of its edge's
/// representative where it has strictly more points.
pub open spec fn offer<C>(reps: Seq<LaneModel<C>>, lane: LaneModel<C>) -> Seq<LaneModel<C>> {
    let at = find_edge(reps, lane.edge_id, 0);
    if at >= reps.len() {
        reps.push(lane)
    } else if lane.points.len() > reps[at].points.len() {
        reps.update(at, lane)
    } else {
        reps
    }
}

/// The representatives of the lanes that are not internal: one for each
/// edge, in the order in which the edges first appear.
pub open spec fn representatives<C>(lanes: Seq<LaneModel<C>>) -> Seq<LaneModel<C>>
    decreases lanes.len(),
{
    if lanes.len() == 0 {
        Seq::empty()
    } else if lanes.last().is_internal {
        representatives(lanes.drop_last())
    } else {
        offer(representatives(lanes.drop_last()), lanes.last())
    }
}

/// The internal lanes, in order.
pub open spec fn internals<C>(lanes: Seq<LaneModel<C>>) -> Seq<LaneModel<C>>
    decreases lanes.len(),
{
    if lanes.len() == 0 {
        Seq::empty()
    } else if lanes.last().is_internal {
        internals(lanes.drop_last()).push(lanes.last())
    } else {
        internals(lanes.drop_last())
    }
}

/// The lanes of the reduced network: all internal lanes first, then the
/// representatives.
pub open spec fn selected<C>(lanes: Seq<LaneModel<C>>) -> Seq<LaneModel<C>> {
    internals(lanes) + representatives(lanes)
}

/// `find_edge` answers with a position at or after `from` where the edge
/// stands, with no such lane before it, or with the length.
pub proof fn lemma_find_edge<C>(reps: Seq<LaneModel<C>>, edge: Option<Seq<char>>, from: int)
    requires
        0 <= from <= reps.len(),
    ensures
        from <= find_edge(reps, edge, from) <= reps.len(),
        find_edge(reps, edge, from) < reps.len() ==> reps[find_edge(reps, edge, from)].edge_id
            == edge,
        forall|k: int| from <= k < find_edge(reps, edge, from) ==> (#[trigger] reps[k]).edge_id != edge,
    decreases reps.len() - from,
{
    if from < reps.len() && reps[from].edge_id != edge {
        lemma_find_edge(reps, edge, from + 1);
    }
}

/// No two representatives belong to one edge, and none is internal.
pub proof fn lemma_representatives_distinct<C>(lanes: Seq<LaneModel<C>>)
    ensures
        forall|i: int, j: int|
            0 <= i < j < representatives(lanes).len() ==> (#[trigger] representatives(
                lanes,
            )[i]).edge_id != (#[trigger] representatives(lanes)[j]).edge_id,
        forall|i: int|
            0 <= i < representatives(lanes).len() ==> !(#[trigger] representatives(
                lanes,
            )[i]).is_internal,
    decreases lanes.len(),
{
    if lanes.len() > 0 {
        lemma_representatives_distinct(lanes.drop_last());
        if !lanes.last().is_internal {
            let before = representatives(lanes.drop_last());
            lemma_find_edge(before, lanes.last().edge_id, 0);
        }
    }
}

/// Every lane that is not internal is answered for: its edge has a
/// representative, and that one has at least as many points.
pub proof fn lemma_representative_covers<C>(lanes: Seq<LaneModel<C>>, k: int)
    requires
        0 <= k < lanes.len(),
        !lanes[k].is_internal,
    ensures
        ({
            let at = find_edge(representatives(lanes), lanes[k].edge_id, 0);
            &&& 0 <= at < representatives(lanes).len()
            &&& representatives(lanes)[at].edge_id == lanes[k].edge_id
            &&& representatives(lanes)[at].points.len() >= lanes[k].points.len()
        }),
    decreases lanes.len(),
{
    let front = lanes.drop_last();
    let before = representatives(front);
    let last = lanes.last();
    let edge = lanes[k].edge_id;
    lemma_representatives_distinct(front);
    lemma_find_edge(before, last.edge_id, 0);
    lemma_find_edge(representatives(lanes), edge, 0);
    if k < lanes.len() - 1 {
        assert(front[k] == lanes[k]);
        lemma_representative_covers(front, k);
        let at = find_edge(before, edge, 0);
        if !last.is_internal {
            let after = representatives(lanes);
            assert(after[at].edge_id == edge);
        }
    } else {
        let at = find_edge(before, edge, 0);
        let after = representatives(lanes);
        if at >= before.len() {
            assert(after[before.len() as int].edge_id == edge);
        } else {
            assert(after[at].edge_id == edge);
        }
    }
}

/// Every representative is one of the lanes that were offered.
pub proof fn lemma_representative_offered<C>(lanes: Seq<LaneModel<C>>, i: int)
    requires
        0 <= i < representatives(lanes).len(),
    ensures
        exists|k: int| 0 <= k < lanes.len() && #[trigger] lanes[k] == representatives(lanes)[i],
    decreases lanes.len(),
{
    if lanes.len() > 0 {
        let front = lanes.drop_last();
        let before = representatives(front);
        let last = lanes.last();
        lemma_find_edge(before, last.edge_id, 0);
        if representatives(lanes)[i] == last && !last.is_internal {
            assert(lanes[lanes.len() - 1] == last);
        } else {
            assert(0 <= i < before.len() && before[i] == representatives(lanes)[i]);
            lemma_representative_offered(front, i);
            let k = choose|k: int| 0 <= k < front.len() && #[trigger] front[k] == before[i];
            assert(lanes[k] == front[k]);
        }
    }
}

/// Every internal lane that was offered is selected as it is, and nothing
/// else counts as internal.
pub proof fn lemma_internals<C>(lanes: Seq<LaneModel<C>>, i: int)
    requires
        0 <= i < internals(lanes).len(),
    ensures
        internals(lanes)[i].is_internal,
        exists|k: int| 0 <= k < lanes.len() && #[trigger] lanes[k] == internals(lanes)[i],
    decreases lanes.len(),
{
    if lanes.len() > 0 {
        let front = lanes.drop_last();
        if lanes.last().is_internal && i == internals(front).len() {
            assert(lanes[lanes.len() - 1] == internals(lanes)[i]);
        } else {
            lemma_internals(front, i);
            let k = choose|k: int| 0 <= k < front.len() && #[trigger] front[k] == internals(front)[i];
            assert(lanes[k] == front[k]);
        }
    }
}

/// What is selected: only lanes that were offered; the internal ones before
/// all others; and among the others no two of one edge.
pub proof fn lemma_selected<C>(lanes: Seq<LaneModel<C>>)
    ensures
        forall|i: int|
            0 <= i < selected(lanes).len() ==> exists|k: int|
                0 <= k < lanes.len() && #[trigger] lanes[k] == #[trigger] selected(lanes)[i],
        forall|i: int, j: int|
            0 <= i < j < selected(lanes).len() && (#[trigger] selected(lanes)[j]).is_internal ==> (
            #[trigger] selected(lanes)[i]).is_internal,
        forall|i: int, j: int|
            0 <= i < j < selected(lanes).len() && !(#[trigger] selected(lanes)[i]).is_internal ==> (
            #[trigger] selected(lanes)[j]).edge_id != selected(lanes)[i].edge_id,
{
    let inner = internals(lanes);
    let reps = representatives(lanes);
    let all = selected(lanes);
    lemma_representatives_distinct(lanes);
    assert forall|i: int| 0 <= i < all.len() implies exists|k: int|
        0 <= k < lanes.len() && #[trigger] lanes[k] == #[trigger] all[i] by {
        if i < inner.len() {
            lemma_internals(lanes, i);
            let k = choose|k: int| 0 <= k < lanes.len() && #[trigger] lanes[k] == inner[i];
            assert(lanes[k] == all[i]);
        } else {
            lemma_representative_offered(lanes, i - inner.len());
            let k = choose|k: int|
                0 <= k < lanes.len() && #[trigger] lanes[k] == reps[i - inner.len()];
            assert(lanes[k] == all[i]);
        }
    }
    assert forall|i: int, j: int|
        0 <= i < j < all.len() && (#[trigger] all[j]).is_internal implies (#[trigger] all[i]).is_internal by {
        if j >= inner.len() {
            assert(all[j] == reps[j - inner.len()]);
        }
        lemma_internals(lanes, i);
    }
    assert forall|i: int, j: int|
        0 <= i < j < all.len() && !(#[trigger] all[i]).is_internal implies (#[trigger] all[j]).edge_id
        != all[i].edge_id by {
        if i < inner.len() {
            lemma_internals(lanes, i);
        } else {
            assert(all[i] == reps[i - inner.len()]);
            assert(all[j] == reps[j - inner.len()]);
        }
    }
}

/// Selecting never adds a lane.
pub proof fn lemma_selected_len<C>(lanes: Seq<LaneModel<C>>)
    ensures
        selected(lanes).len() <= lanes.len(),
        internals(lanes).len() + representatives(lanes).len() <= lanes.len(),
    decreases lanes.len(),
{
    if lanes.len() > 0 {
        lemma_selected_len(lanes.drop_last());
        lemma_find_edge(representatives(lanes.drop_last()), lanes.last().edge_id, 0);
    }
}

/// Whether two optional edge identifiers name the same edge.
fn same_edge(a: &Option<String>, b: &Option<String>) -> (same: bool)
    ensures
        same == (crate::xml::opt_text(*a) == crate::xml::opt_text(*b)),
{
    match (a, b) {
        (Some(x), Some(y)) => *x == *y,
        (None, None) => true,
        _ => false,
    }
}

/// A number for a text, the same for the same text.
pub open spec fn text_hash(text: Seq<char>) -> u64
    decreases text.len(),
{
    if text.len() == 0 {
        7
    } else {
        ((text_hash(text.drop_last()) * 31 + (text.last() as u32)) % 0x1_0000_0000_0000_0000) as u64
    }
}

/// A number for an optional edge identifier, the same for the same one.
pub open spec fn edge_hash(edge: Option<Seq<char>>) -> u64 {
    match edge {
        Some(text) => text_hash(text),
        None => 0,
    }
}

/// Whether `index` finds every representative: under the number of its
/// edge stand the positions of the representatives whose edge has that
/// number, the position of each of them among them, and nothing beyond the
/// list.
pub open spec fn indexed<C>(index: Map<u64, Vec<usize>>, reps: Seq<LaneModel<C>>) -> bool {
    &&& forall|p: int|
        0 <= p < reps.len() ==> index.contains_key(edge_hash((#[trigger] reps[p]).edge_id))
            && index[edge_hash(reps[p].edge_id)]@.contains(p as usize)
    &&& forall|k: u64, j: int|
        index.contains_key(k) && 0 <= j < index[k]@.len() ==> (#[trigger] index[k]@[j])
            < reps.len()
}

/// Whether no two lanes of `reps` belong to one edge.
pub open spec fn distinct_edges<C>(reps: Seq<LaneModel<C>>) -> bool {
    forall|i: int, j: int|
        0 <= i < j < reps.len() ==> (#[trigger] reps[i]).edge_id != (#[trigger] reps[j]).edge_id
}

/// Among lanes of distinct edges, a lane of the edge is the one that
/// `find_edge` finds.
proof fn lemma_found<C>(reps: Seq<LaneModel<C>>, edge: Option<Seq<char>>, p: int)
    requires
        distinct_edges(reps),
        0 <= p < reps.len(),
        reps[p].edge_id == edge,
    ensures
        find_edge(reps, edge, 0) == p,
{
    lemma_find_edge(reps, edge, 0);
    let f = find_edge(reps, edge, 0);
    if f > p {
        assert(reps[p].edge_id != edge);
    }
}

/// The number of an optional edge identifier.
fn hash_of(edge: &Option<String>) -> (h: u64)
    ensures
        h == edge_hash(crate::xml::opt_text(*edge)),
{
    match edge {
        None => 0,
        Some(text) => {
            let mut h: u64 = 7;
            for c in it: text.as_str().chars()
                invariant
                    it.seq() == text@,
                    h == text_hash(it.seq().take(it.index() as int)),
            {
                proof {
                    assert(it.seq().take(it.index() + 1).drop_last() =~= it.seq().take(
                        it.index() as int,
                    ));
                }
                let wide: u128 = (h as u128) * 31 + ((c as u32) as u128);
                h = (wide % 0x1_0000_0000_0000_0000u128) as u64;
            }
            proof {
                assert(text@.take(text@.len() as int) =~= text@);
            }
            h
        },
    }
}

/// The position of the representative of `edge`, or the length of `reps`.
/// Only the representatives whose edge has the same number are compared.
fn position_of<C>(
    reps: &Vec<Lane<C>>,
    index: &HashMap<u64, Vec<usize>>,
    edge: &Option<String>,
    number: u64,
) -> (at: usize)
    requires
        number == edge_hash(crate::xml::opt_text(*edge)),
        indexed(index@, lane_models(reps@)),
        distinct_edges(lane_models(reps@)),
    ensures
        at == find_edge(lane_models(reps@), crate::xml::opt_text(*edge), 0),
        at <= reps.len(),
{
    broadcast use vstd::std_specs::hash::group_hash_axioms;

    let ghost models = lane_models(reps@);
    let ghost wanted = crate::xml::opt_text(*edge);
    proof {
        lemma_find_edge(models, wanted, 0);
    }
    match index.get(&number) {
        None => {
            proof {
                let f = find_edge(models, wanted, 0);
                if f < models.len() {
                    assert(index@.contains_key(edge_hash(models[f].edge_id)));
                }
            }
            reps.len()
        },
        Some(bucket) => {
            let mut j: usize = 0;
            while j < bucket.len()
                invariant
                    j <= bucket.len(),
                    models == lane_models(reps@),
                    wanted == crate::xml::opt_text(*edge),
                    index@.contains_key(number),
                    *bucket == index@[number],
                    indexed(index@, models),
                    distinct_edges(models),
                    forall|k: int| 0 <= k < j ==> models[bucket@[k] as int].edge_id != wanted,
                decreases bucket.len() - j,
            {
                let p: usize = bucket[j];
                assert(index@[number]@[j as int] < models.len());
                assert(models[p as int] == reps[p as int]@);
                if same_edge(&reps[p].edge_id, edge) {
                    proof {
                        lemma_found(models, wanted, p as int);
                    }
                    return p;
                }
                j = j + 1;
            }
            proof {
                let f = find_edge(models, wanted, 0);
                if f < models.len() {
                    assert(index@[edge_hash(models[f].edge_id)]@.contains(f as usize));
                    let k = choose|k: int| 0 <= k < bucket@.len() && bucket@[k] == f as usize;
                    assert(models[bucket@[k] as int].edge_id != wanted);
                }
            }
            reps.len()
        },
    }
}

/// Selects the lanes of the reduced network from all lanes that were made:
/// the internal ones in their order, followed by one representative for
/// each other edge, in the order in which the edges first appeared. Among
/// the lanes of one edge the first with the most points stands for it.
pub fn select_lanes<C>(candidates: Vec<Lane<C>>) -> (out: Vec<Lane<C>>)
    ensures
        lane_models(out@) == selected(lane_models(candidates@)),
{
    broadcast use vstd::std_specs::hash::group_hash_axioms;

    let ghost all = lane_models(candidates@);
    let mut inner: Vec<Lane<C>> = Vec::new();
    let mut reps: Vec<Lane<C>> = Vec::new();
    let mut index: HashMap<u64, Vec<usize>> = HashMap::new();
    assert(lane_models(inner@) =~= internals(all.take(0)));
    assert(lane_models(reps@) =~= representatives(all.take(0)));
    for lane in it: candidates
        invariant
            all == lane_models(it.seq()),
            lane_models(inner@) == internals(all.take(it.index() as int)),
            lane_models(reps@) == representatives(all.take(it.index() as int)),
            indexed(index@, lane_models(reps@)),
    {
        proof {
            assert(all.take(it.index() + 1).drop_last() =~= all.take(it.index() as int));
            assert(all.take(it.index() + 1).last() == lane@);
            lemma_representatives_distinct(all.take(it.index() as int));
        }
        if lane.is_internal {
            assert(lane_models(inner@.push(lane)) =~= lane_models(inner@).push(lane@));
            inner.push(lane);
        } else {
            let number = hash_of(&lane.edge_id);
            let at = position_of(&reps, &index, &lane.edge_id, number);
            let ghost before = lane_models(reps@);
            proof {
                lemma_find_edge(before, lane@.edge_id, 0);
            }
            if at >= reps.len() {
                let mut bucket = match index.remove(&number) {
                    Some(bucket) => bucket,
                    None => Vec::new(),
                };
                let ghost old_index = index@;
                let ghost old_bucket = bucket@;
                bucket.push(reps.len());
                index.insert(number, bucket);
                proof {
                    let after = before.push(lane@);
                    assert(lane_models(reps@.push(lane)) =~= after);
                    assert forall|p: int| 0 <= p < after.len() implies index@.contains_key(
                        edge_hash((#[trigger] after[p]).edge_id),
                    ) && index@[edge_hash(after[p].edge_id)]@.contains(p as usize) by {
                        let key = edge_hash(after[p].edge_id);
                        if p < before.len() {
                            assert(after[p] == before[p]);
                            if key == number {
                                let k = choose|k: int|
                                    0 <= k < old_bucket.len() && old_bucket[k] == p as usize;
                                assert(index@[number]@[k] == p as usize);
                            }
                        } else {
                            assert(index@[number]@[old_bucket.len() as int] == p as usize);
                        }
                    }
                    assert forall|k: u64, j: int|
                        index@.contains_key(k) && 0 <= j < index@[k]@.len() implies (
                    #[trigger] index@[k]@[j]) < after.len() by {
                        if k == number {
                            if j < old_bucket.len() {
                                assert(old_bucket[j] == index@[k]@[j]);
                            }
                        }
                    }
                }
                reps.push(lane);
            } else {
                assert(before[at as int] == reps[at as int]@);
                if lane.points.len() > reps[at].points.len() {
                    proof {
                        let after = before.update(at as int, lane@);
                        assert(lane_models(reps@.update(at as int, lane)) =~= after);
                        assert forall|p: int| 0 <= p < after.len() implies index@.contains_key(
                            edge_hash((#[trigger] after[p]).edge_id),
                        ) && index@[edge_hash(after[p].edge_id)]@.contains(p as usize) by {
                            assert(after[p].edge_id == before[p].edge_id);
                        }
                    }
                    reps.set(at, lane);
                }
            }
        }
    }
    assert(all.take(all.len() as int) =~= all);
    assert(lane_models(inner@ + reps@) =~= lane_models(inner@) + lane_models(reps@));
    inner.append(&mut reps);
    inner
}

/// Packs the reduced network: the selected lanes and everything else as it
/// was made.
pub fn assemble<C>(
    candidates: Vec<Lane<C>>,
    bounds: Option<Bounds<C>>,
    tls: Vec<TrafficLight<C>>,
    junctions: Vec<Junction<C>>,
    junction_points: Vec<JunctionPoint<C>>,
) -> (network: ParsedNetwork<C>)
    ensures
        lane_models(network.lanes@) == selected(lane_models(candidates@)),
        network.bounds == bounds,
        network.tls == tls,
        network.junctions == junctions,
        network.junction_points == junction_points,
{
    ParsedNetwork { lanes: select_lanes(candidates), bounds, tls, junctions, junction_points }
}

} // verus!
