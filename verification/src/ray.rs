//! Ray queries against the spatial index.
//!
//! Whether and where a ray meets a box or a collider is arithmetic on the
//! engine's scalars, and is left to the caller: the functions of this module take
//! the two tests as closures and do the searching. A distance is an ordinate (see
//! the `geometry` module), so only the order of distances is read.

use crate::geometry::AABB;
use crate::kd_tree::{
    axis_keys, is_kd_tree, lemma_root_box_covers, lemma_sorted_along_rearranges, sorted_along,
    ColliderObj, CollisionWorld, KDNode,
};
use crate::sorting::{
    arrange, arranged, as_ints, is_additive, lemma_arranged_keeps_additive, lemma_stable_order,
    sort_indices, stable_order,
};
use vstd::multiset::Multiset;
use vstd::prelude::*;

verus! {

/// The answer of a ray test against a box: whether the ray enters the box, and
/// at which distance from its origin.
#[derive(Clone, Copy, Debug, PartialEq, Eq, Structural)]
pub struct RayProbe {
    pub hit: bool,
    pub distance: i64,
}

/// Combines the ray tests against the four edges of a box into the ray test
/// against the box.
///
/// The ray enters the box if it meets any edge, and the distance is the least of
/// the four. An edge that is missed takes part with its distance like any other,
/// so the caller gives a miss a distance that no hit exceeds.
pub fn nearest_edge(edges: [RayProbe; 4]) -> (probe: RayProbe)
    ensures
        probe.hit == (exists|i: int| 0 <= i < 4 && (#[trigger] edges[i]).hit),
        forall|i: int| 0 <= i < 4 ==> probe.distance <= (#[trigger] edges[i]).distance,
        exists|i: int| 0 <= i < 4 && probe.distance == (#[trigger] edges[i]).distance,
{
    let mut hit = false;
    let mut least: usize = 0;
    let mut i: usize = 0;
    while i < 4
        invariant
            i <= 4,
            least < 4,
            hit == (exists|k: int| 0 <= k < i && (#[trigger] edges[k]).hit),
            forall|k: int| 0 <= k < i ==> edges[least as int].distance <= (
            #[trigger] edges[k]).distance,
        decreases 4 - i,
    {
        if edges[i].hit {
            hit = true;
        }
        if edges[i].distance < edges[least].distance {
            least = i;
        }
        i = i + 1;
    }
    RayProbe { hit, distance: edges[least].distance }
}

/// Each of `objects` paired with `distance`.
pub open spec fn tagged(objects: Seq<u64>, distance: i64) -> Seq<(u64, i64)> {
    Seq::new(objects.len(), |i: int| (objects[i], distance))
}

/// `whole` is `left`, `right` and `own` put one behind the other.
pub open spec fn joins(
    left: Seq<(u64, i64)>,
    right: Seq<(u64, i64)>,
    own: Seq<(u64, i64)>,
    whole: Seq<(u64, i64)>,
) -> bool {
    whole == left + right + own
}

/// `found` is what a ray query collects from `tree` under some answers of `probe`.
///
/// The query asks `probe` about the box of each node it reaches, and goes on as
/// `is_ray_walk_below` says.
pub open spec fn is_ray_walk<P: Fn(AABB) -> RayProbe>(
    probe: P,
    tree: Option<Box<KDNode>>,
    found: Seq<(u64, i64)>,
) -> bool
    decreases tree, 1int,
{
    match tree {
        None => found == Seq::<(u64, i64)>::empty(),
        Some(node) => exists|answer: RayProbe| #[trigger]
            call_ensures(probe, (node.bounding_box,), answer) && is_ray_walk_below(
                probe,
                *node,
                answer,
                found,
            ),
    }
}

/// `found` is what a ray query collects at `node` and below, once `probe` has
/// given `answer` for the box of `node`.
///
/// Where the answer is a miss, nothing is collected. Where it is a hit, the query
/// collects from the left subtree, then from the right one, then the node's own
/// entities, each with the distance of the node's box.
pub open spec fn is_ray_walk_below<P: Fn(AABB) -> RayProbe>(
    probe: P,
    node: KDNode,
    answer: RayProbe,
    found: Seq<(u64, i64)>,
) -> bool
    decreases node, 0int,
{
    if answer.hit {
        exists|left: Seq<(u64, i64)>, right: Seq<(u64, i64)>|
            {
                &&& #[trigger] joins(left, right, tagged(node.objects@, answer.distance), found)
                &&& is_ray_walk(probe, node.left_node, left)
                &&& is_ray_walk(probe, node.right_node, right)
            }
    } else {
        found == Seq::<(u64, i64)>::empty()
    }
}

/// What a ray query collects from `tree` when the ray test is the function `probe`.
pub open spec fn ray_candidates(tree: Option<Box<KDNode>>, probe: spec_fn(AABB) -> RayProbe) -> Seq<
    (u64, i64),
>
    decreases tree,
{
    match tree {
        None => Seq::empty(),
        Some(node) => {
            let answer = probe(node.bounding_box);
            if answer.hit {
                ray_candidates(node.left_node, probe) + ray_candidates(node.right_node, probe)
                    + tagged(node.objects@, answer.distance)
            } else {
                Seq::empty()
            }
        },
    }
}

/// The closure `test` always answers as the function `answers` says.
pub open spec fn computes<A, B, F: Fn(A) -> B>(test: F, answers: spec_fn(A) -> B) -> bool {
    forall|input: A, output: B| #[trigger]
        call_ensures(test, (input,), output) ==> output == answers(input)
}

/// With a ray test that is a function of the box, a ray query collects exactly
/// `ray_candidates`.
pub proof fn lemma_ray_walk_of_function<P: Fn(AABB) -> RayProbe>(
    probe: P,
    answers: spec_fn(AABB) -> RayProbe,
    tree: Option<Box<KDNode>>,
    found: Seq<(u64, i64)>,
)
    requires
        computes(probe, answers),
        is_ray_walk(probe, tree, found),
    ensures
        found == ray_candidates(tree, answers),
    decreases tree,
{
    match tree {
        None => {},
        Some(node) => {
            let answer = choose|answer: RayProbe| #[trigger]
                call_ensures(probe, (node.bounding_box,), answer) && is_ray_walk_below(
                    probe,
                    *node,
                    answer,
                    found,
                );
            assert(answer == answers(node.bounding_box));
            if answer.hit {
                let (left, right) = choose|left: Seq<(u64, i64)>, right: Seq<(u64, i64)>|
                    {
                        &&& #[trigger] joins(
                            left,
                            right,
                            tagged(node.objects@, answer.distance),
                            found,
                        )
                        &&& is_ray_walk(probe, node.left_node, left)
                        &&& is_ray_walk(probe, node.right_node, right)
                    };
                lemma_ray_walk_of_function(probe, answers, node.left_node, left);
                lemma_ray_walk_of_function(probe, answers, node.right_node, right);
            }
        },
    }
}

/// Appends to `colliders` what a ray query collects from `tree`: the entities of
/// every node that is reached, each with the distance at which the ray enters the
/// node's box. `probe` is the ray test; it is asked once for each node reached.
pub fn find_ray_collision_entities<P: Fn(AABB) -> RayProbe>(
    probe: &P,
    tree: &Option<Box<KDNode>>,
    colliders: &mut Vec<(u64, i64)>,
)
    requires
        forall|bounding_box: AABB| call_requires(*probe, (bounding_box,)),
    ensures
        exists|found: Seq<(u64, i64)>| #[trigger]
            is_ray_walk(*probe, *tree, found) && final(colliders)@ == old(colliders)@ + found,
    decreases *tree,
{
    match tree {
        None => {
            let ghost found = Seq::<(u64, i64)>::empty();
            assert(is_ray_walk(*probe, *tree, found) && colliders@ == old(colliders)@ + found);
        },
        Some(node) => {
            let answer = probe(node.bounding_box);
            if !answer.hit {
                let ghost found = Seq::<(u64, i64)>::empty();
                assert(is_ray_walk(*probe, *tree, found) && colliders@ == old(colliders)@ + found);
                return ;
            }
            let ghost start = colliders@;
            find_ray_collision_entities(probe, &node.left_node, colliders);
            let ghost left = choose|found: Seq<(u64, i64)>| #[trigger]
                is_ray_walk(*probe, node.left_node, found) && colliders@ == start + found;
            let ghost middle = colliders@;
            find_ray_collision_entities(probe, &node.right_node, colliders);
            let ghost right = choose|found: Seq<(u64, i64)>| #[trigger]
                is_ray_walk(*probe, node.right_node, found) && colliders@ == middle + found;
            let ghost below = colliders@;
            let mut i: usize = 0;
            while i < node.objects.len()
                invariant
                    i <= node.objects.len(),
                    colliders@ == below + tagged(node.objects@, answer.distance).take(i as int),
                decreases node.objects.len() - i,
            {
                colliders.push((node.objects[i], answer.distance));
                proof {
                    let own = tagged(node.objects@, answer.distance);
                    assert(own.take(i + 1) =~= own.take(i as int).push(own[i as int]));
                }
                i = i + 1;
            }
            proof {
                let own = tagged(node.objects@, answer.distance);
                assert(own.take(i as int) =~= own);
                let found = left + right + own;
                assert(colliders@ =~= old(colliders)@ + found);
                assert(joins(left, right, own, found));
                assert(call_ensures(*probe, (node.bounding_box,), answer));
                assert(is_ray_walk(*probe, *tree, found));
            }
        },
    }
}

/// The distances of the candidates, in their order.
pub open spec fn distances(candidates: Seq<(u64, i64)>) -> Seq<i64> {
    Seq::new(candidates.len(), |i: int| candidates[i].1)
}

/// The candidates by ascending distance; candidates at the same distance keep
/// their order.
pub open spec fn sorted_by_distance(candidates: Seq<(u64, i64)>) -> Seq<(u64, i64)> {
    arranged(candidates, stable_order(distances(candidates)))
}

/// The nearest hit once `entity` has been tested with the given outcome: a hit
/// replaces the nearest one so far unless it lies farther away.
pub open spec fn nearer(best: Option<(i64, u64)>, entity: u64, outcome: Option<i64>) -> Option<
    (i64, u64),
> {
    match outcome {
        Some(distance) => if best matches Some(b) && distance > b.0 {
            best
        } else {
            Some((distance, entity))
        },
        None => best,
    }
}

/// A candidate whose box the ray enters at `bound` cannot improve on `best`.
pub open spec fn out_of_reach(best: Option<(i64, u64)>, bound: i64) -> bool {
    best matches Some(b) && bound > b.0
}

/// `result` is what the search for the nearest hit returns under some outcomes of
/// `exact_hit`, when it stands before candidate `from` with `best` in hand.
///
/// The search takes the candidates in turn. It ends with what it has in hand at
/// the first candidate that is out of reach, or behind the last one; any other
/// candidate is tested.
pub open spec fn is_search<H: Fn(u64) -> Option<i64>>(
    exact_hit: H,
    candidates: Seq<(u64, i64)>,
    from: int,
    best: Option<(i64, u64)>,
    result: Option<(i64, u64)>,
) -> bool
    decreases candidates.len() - from,
{
    if from < 0 || from >= candidates.len() || out_of_reach(best, candidates[from].1) {
        result == best
    } else {
        exists|outcome: Option<i64>| #[trigger]
            call_ensures(exact_hit, (candidates[from].0,), outcome) && is_search(
                exact_hit,
                candidates,
                from + 1,
                nearer(best, candidates[from].0, outcome),
                result,
            )
    }
}

/// What the search for the nearest hit returns when the exact test is the
/// function `exact`, standing before candidate `from` with `best` in hand.
pub open spec fn nearest_hit(
    candidates: Seq<(u64, i64)>,
    exact: spec_fn(u64) -> Option<i64>,
    from: int,
    best: Option<(i64, u64)>,
) -> Option<(i64, u64)>
    decreases candidates.len() - from,
{
    if from < 0 || from >= candidates.len() || out_of_reach(best, candidates[from].1) {
        best
    } else {
        nearest_hit(
            candidates,
            exact,
            from + 1,
            nearer(best, candidates[from].0, exact(candidates[from].0)),
        )
    }
}

/// With an exact test that is a function of the entity, the search returns
/// exactly `nearest_hit`.
pub proof fn lemma_search_of_function<H: Fn(u64) -> Option<i64>>(
    exact_hit: H,
    exact: spec_fn(u64) -> Option<i64>,
    candidates: Seq<(u64, i64)>,
    from: int,
    best: Option<(i64, u64)>,
    result: Option<(i64, u64)>,
)
    requires
        computes(exact_hit, exact),
        is_search(exact_hit, candidates, from, best, result),
    ensures
        result == nearest_hit(candidates, exact, from, best),
    decreases candidates.len() - from,
{
    if from < 0 || from >= candidates.len() || out_of_reach(best, candidates[from].1) {
    } else {
        let outcome = choose|outcome: Option<i64>| #[trigger]
            call_ensures(exact_hit, (candidates[from].0,), outcome) && is_search(
                exact_hit,
                candidates,
                from + 1,
                nearer(best, candidates[from].0, outcome),
                result,
            );
        lemma_search_of_function(
            exact_hit,
            exact,
            candidates,
            from + 1,
            nearer(best, candidates[from].0, outcome),
            result,
        );
    }
}

/// With tests that are functions, a ray cast returns the nearest hit among the
/// candidates of the ray query, taken by ascending distance.
pub proof fn lemma_raycast_of_functions<P: Fn(AABB) -> RayProbe, H: Fn(u64) -> Option<i64>>(
    probe: P,
    exact_hit: H,
    answers: spec_fn(AABB) -> RayProbe,
    exact: spec_fn(u64) -> Option<i64>,
    tree: Option<Box<KDNode>>,
    found: Seq<(u64, i64)>,
    hit: Option<(i64, u64)>,
)
    requires
        computes(probe, answers),
        computes(exact_hit, exact),
        is_ray_walk(probe, tree, found),
        is_search(exact_hit, sorted_by_distance(found), 0, None, hit),
    ensures
        hit == nearest_hit(sorted_by_distance(ray_candidates(tree, answers)), exact, 0, None),
{
    lemma_ray_walk_of_function(probe, answers, tree, found);
    lemma_search_of_function(exact_hit, exact, sorted_by_distance(found), 0, None, hit);
}

/// `best` is the least exact hit among the first `n` candidates: nothing where
/// none of them is hit, and otherwise a hit of one of them that no other hit of
/// them undercuts.
pub open spec fn is_least_hit(
    candidates: Seq<(u64, i64)>,
    exact: spec_fn(u64) -> Option<i64>,
    n: int,
    best: Option<(i64, u64)>,
) -> bool {
    match best {
        None => forall|i: int| 0 <= i < n ==> exact((#[trigger] candidates[i]).0) is None,
        Some((distance, entity)) => {
            &&& exists|i: int|
                0 <= i < n && (#[trigger] candidates[i]).0 == entity && exact(entity) == Some(
                    distance,
                )
            &&& forall|i: int|
                0 <= i < n ==> (exact((#[trigger] candidates[i]).0) matches Some(other)
                    ==> distance <= other)
        },
    }
}

/// The candidates come by ascending distance.
pub open spec fn ascends(candidates: Seq<(u64, i64)>) -> bool {
    forall|a: int, b: int|
        0 <= a < b < candidates.len() ==> (#[trigger] candidates[a]).1 <= (
        #[trigger] candidates[b]).1
}

/// No collider is hit before the ray enters the box it was listed with.
pub open spec fn bounds_hold(candidates: Seq<(u64, i64)>, exact: spec_fn(u64) -> Option<i64>) -> bool {
    forall|i: int|
        0 <= i < candidates.len() ==> (exact((#[trigger] candidates[i]).0) matches Some(distance)
            ==> candidates[i].1 <= distance)
}

/// Sorting by distance makes the candidates ascend.
pub proof fn lemma_sorted_by_distance_ascends(candidates: Seq<(u64, i64)>)
    ensures
        sorted_by_distance(candidates).len() == candidates.len(),
        ascends(sorted_by_distance(candidates)),
{
    let keys = distances(candidates);
    let order = stable_order(keys);
    let sorted = sorted_by_distance(candidates);
    lemma_stable_order(keys);
    assert forall|a: int, b: int| 0 <= a < b < sorted.len() implies (#[trigger] sorted[a]).1 <= (
    #[trigger] sorted[b]).1 by {
        assert(crate::sorting::precedes(keys, order[a], order[b]));
    }
}

/// Pruning loses nothing: where the candidates ascend and their distances bound
/// the exact hits from below, the search that skips everything behind the first
/// candidate out of reach still ends with the least exact hit of all candidates.
pub proof fn lemma_pruned_search_finds_least(
    candidates: Seq<(u64, i64)>,
    exact: spec_fn(u64) -> Option<i64>,
)
    requires
        ascends(candidates),
        bounds_hold(candidates, exact),
    ensures
        is_least_hit(
            candidates,
            exact,
            candidates.len() as int,
            nearest_hit(candidates, exact, 0, None),
        ),
{
    lemma_pruned_search_from(candidates, exact, 0, None);
}

proof fn lemma_pruned_search_from(
    candidates: Seq<(u64, i64)>,
    exact: spec_fn(u64) -> Option<i64>,
    from: int,
    best: Option<(i64, u64)>,
)
    requires
        ascends(candidates),
        bounds_hold(candidates, exact),
        0 <= from <= candidates.len(),
        is_least_hit(candidates, exact, from, best),
    ensures
        is_least_hit(
            candidates,
            exact,
            candidates.len() as int,
            nearest_hit(candidates, exact, from, best),
        ),
    decreases candidates.len() - from,
{
    if from >= candidates.len() {
    } else if out_of_reach(best, candidates[from].1) {
        let (distance, entity) = best.unwrap();
        assert forall|i: int| 0 <= i < candidates.len() implies (exact(
            (#[trigger] candidates[i]).0,
        ) matches Some(other) ==> distance <= other) by {
            if i > from {
                assert(candidates[from].1 <= candidates[i].1);
            }
        }
        let w = choose|i: int|
            0 <= i < from && (#[trigger] candidates[i]).0 == entity && exact(entity) == Some(
                distance,
            );
        assert(0 <= w < candidates.len() && candidates[w].0 == entity);
    } else {
        let entity = candidates[from].0;
        let next = nearer(best, entity, exact(entity));
        assert(is_least_hit(candidates, exact, from + 1, next)) by {
            match next {
                None => {
                    assert forall|i: int| 0 <= i < from + 1 implies exact(
                        (#[trigger] candidates[i]).0,
                    ) is None by {}
                },
                Some((distance, winner)) => {
                    if next == best {
                        let w = choose|i: int|
                            0 <= i < from && (#[trigger] candidates[i]).0 == winner && exact(winner)
                                == Some(distance);
                        assert(0 <= w < from + 1 && candidates[w].0 == winner);
                    } else {
                        assert(candidates[from].0 == winner);
                    }
                    assert forall|i: int| 0 <= i < from + 1 implies (exact(
                        (#[trigger] candidates[i]).0,
                    ) matches Some(other) ==> distance <= other) by {}
                },
            }
        }
        lemma_pruned_search_from(candidates, exact, from + 1, next);
    }
}

/// Sorting by distance rearranges the candidates: it neither drops nor invents one.
pub proof fn lemma_sorted_by_distance_rearranges(candidates: Seq<(u64, i64)>)
    ensures
        forall|j: int|
            0 <= j < candidates.len() ==> candidates.contains(
                #[trigger] sorted_by_distance(candidates)[j],
            ),
        forall|i: int|
            0 <= i < candidates.len() ==> sorted_by_distance(candidates).contains(
                #[trigger] candidates[i],
            ),
{
    let keys = distances(candidates);
    let order = stable_order(keys);
    let sorted = sorted_by_distance(candidates);
    lemma_stable_order(keys);
    assert forall|j: int| 0 <= j < candidates.len() implies candidates.contains(
        #[trigger] sorted[j],
    ) by {
        assert(candidates[order[j]] == sorted[j]);
    }
    assert forall|i: int| 0 <= i < candidates.len() implies sorted.contains(
        #[trigger] candidates[i],
    ) by {
        assert(order.contains(i));
        let j = choose|j: int| 0 <= j < order.len() && order[j] == i;
        assert(sorted[j] == candidates[i]);
    }
}

/// The ray test never misses a box that covers a box it hits.
pub open spec fn is_conservative(probe: spec_fn(AABB) -> RayProbe) -> bool {
    forall|inner: AABB, outer: AABB|
        probe(inner).hit && #[trigger] outer.covers(inner) ==> probe(outer).hit
}

/// The candidate that a ray query lists for an object whose box the ray enters.
pub open spec fn candidate_of(obj: ColliderObj, probe: spec_fn(AABB) -> RayProbe) -> (u64, i64) {
    (obj.entity, probe(obj.bounding_box).distance)
}

/// `candidate` is listed for one of the objects whose own box the ray enters.
pub open spec fn is_candidate_of_some(
    objs: Seq<ColliderObj>,
    probe: spec_fn(AABB) -> RayProbe,
    candidate: (u64, i64),
) -> bool {
    exists|i: int|
        0 <= i < objs.len() && probe((#[trigger] objs[i]).bounding_box).hit && candidate
            == candidate_of(objs[i], probe)
}

/// On a k-d tree, a ray query with a conservative ray test lists exactly the
/// objects whose own box the ray enters, each with the distance of that box.
pub proof fn lemma_ray_candidates_of_kd_tree(
    tree: Option<Box<KDNode>>,
    objs: Seq<ColliderObj>,
    axis: int,
    probe: spec_fn(AABB) -> RayProbe,
)
    requires
        is_kd_tree(tree, objs, axis),
        is_conservative(probe),
    ensures
        forall|i: int|
            0 <= i < objs.len() && probe((#[trigger] objs[i]).bounding_box).hit ==> ray_candidates(
                tree,
                probe,
            ).contains(candidate_of(objs[i], probe)),
        forall|k: int|
            0 <= k < ray_candidates(tree, probe).len() ==> is_candidate_of_some(
                objs,
                probe,
                #[trigger] ray_candidates(tree, probe)[k],
            ),
    decreases objs.len(),
{
    let found = ray_candidates(tree, probe);
    if objs.len() == 0 {
    } else if objs.len() == 1 {
        let node = tree.unwrap();
        assert(ray_candidates(node.left_node, probe) =~= Seq::empty());
        assert(ray_candidates(node.right_node, probe) =~= Seq::empty());
        if probe(node.bounding_box).hit {
            assert(found =~= tagged(node.objects@, probe(node.bounding_box).distance));
            assert(found[0] == candidate_of(objs[0], probe));
        }
    } else {
        let node = tree.unwrap();
        let sorted = sorted_along(objs, axis);
        let mid = (objs.len() / 2) as int;
        let left = sorted.subrange(0, mid);
        let right = sorted.subrange(mid, objs.len() as int);
        let from_left = ray_candidates(node.left_node, probe);
        let from_right = ray_candidates(node.right_node, probe);
        lemma_sorted_along_rearranges(objs, axis);
        lemma_root_box_covers(tree, objs, axis);
        lemma_ray_candidates_of_kd_tree(node.left_node, left, 1 - axis, probe);
        lemma_ray_candidates_of_kd_tree(node.right_node, right, 1 - axis, probe);
        if probe(node.bounding_box).hit {
            assert(found =~= from_left + from_right);
        }
        assert forall|i: int|
            0 <= i < objs.len() && probe((#[trigger] objs[i]).bounding_box).hit implies found.contains(
            candidate_of(objs[i], probe),
        ) by {
            assert(node.bounding_box.covers(objs[i].bounding_box));
            assert(sorted.contains(objs[i]));
            let j = choose|j: int| 0 <= j < sorted.len() && sorted[j] == objs[i];
            if j < mid {
                assert(left[j] == objs[i]);
                let k = choose|k: int|
                    0 <= k < from_left.len() && from_left[k] == candidate_of(objs[i], probe);
                assert(found[k] == candidate_of(objs[i], probe));
            } else {
                assert(right[j - mid] == objs[i]);
                let k = choose|k: int|
                    0 <= k < from_right.len() && from_right[k] == candidate_of(objs[i], probe);
                assert(found[from_left.len() + k] == candidate_of(objs[i], probe));
            }
        }
        assert forall|k: int| 0 <= k < found.len() implies is_candidate_of_some(
            objs,
            probe,
            #[trigger] found[k],
        ) by {
            if k < from_left.len() {
                assert(found[k] == from_left[k]);
                assert(is_candidate_of_some(left, probe, from_left[k]));
                let j = choose|j: int|
                    0 <= j < left.len() && probe((#[trigger] left[j]).bounding_box).hit
                        && from_left[k] == candidate_of(left[j], probe);
                assert(objs.contains(sorted[j]));
                let i = choose|i: int| 0 <= i < objs.len() && objs[i] == sorted[j];
                assert(probe(objs[i].bounding_box).hit && found[k] == candidate_of(objs[i], probe));
            } else {
                assert(found[k] == from_right[k - from_left.len()]);
                assert(is_candidate_of_some(right, probe, from_right[k - from_left.len()]));
                let j = choose|j: int|
                    0 <= j < right.len() && probe((#[trigger] right[j]).bounding_box).hit
                        && from_right[k - from_left.len()] == candidate_of(right[j], probe);
                assert(objs.contains(sorted[mid + j]));
                let i = choose|i: int| 0 <= i < objs.len() && objs[i] == sorted[mid + j];
                assert(probe(objs[i].bounding_box).hit && found[k] == candidate_of(objs[i], probe));
            }
        }
    }
}

/// The test of a ray query, as a predicate on objects: the ray enters the
/// object's own box.
pub open spec fn enters(probe: spec_fn(AABB) -> RayProbe) -> spec_fn(ColliderObj) -> bool {
    |obj: ColliderObj| probe(obj.bounding_box).hit
}

/// The candidates of the objects whose own box the ray enters, in their order.
pub open spec fn entered(objs: Seq<ColliderObj>, probe: spec_fn(AABB) -> RayProbe) -> Seq<
    (u64, i64),
> {
    let hit = objs.filter(enters(probe));
    Seq::new(hit.len(), |i: int| candidate_of(hit[i], probe))
}

spec fn entered_bag(probe: spec_fn(AABB) -> RayProbe) -> spec_fn(Seq<ColliderObj>) -> Multiset<
    (u64, i64),
> {
    |objs: Seq<ColliderObj>| entered(objs, probe).to_multiset()
}

proof fn lemma_entered_adds(
    a: Seq<ColliderObj>,
    b: Seq<ColliderObj>,
    probe: spec_fn(AABB) -> RayProbe,
)
    ensures
        entered(a + b, probe) == entered(a, probe) + entered(b, probe),
{
    Seq::filter_distributes_over_add(a, b, enters(probe));
    assert(entered(a + b, probe) =~= entered(a, probe) + entered(b, probe));
}

proof fn lemma_entered_of_sorted(
    objs: Seq<ColliderObj>,
    axis: int,
    probe: spec_fn(AABB) -> RayProbe,
)
    ensures
        entered(sorted_along(objs, axis), probe).to_multiset() == entered(
            objs,
            probe,
        ).to_multiset(),
{
    let bag = entered_bag(probe);
    assert(is_additive(bag)) by {
        assert forall|a: Seq<ColliderObj>, b: Seq<ColliderObj>| #[trigger]
            bag(a + b) == bag(a).add(bag(b)) by {
            lemma_entered_adds(a, b, probe);
            vstd::seq_lib::lemma_multiset_commutative(entered(a, probe), entered(b, probe));
        }
    }
    let keys = axis_keys(objs, axis);
    lemma_stable_order(keys);
    lemma_arranged_keeps_additive(objs, keys, bag);
    assert(sorted_along(objs, axis) =~= arranged(objs, stable_order(keys)));
}

proof fn lemma_entered_none(objs: Seq<ColliderObj>, probe: spec_fn(AABB) -> RayProbe)
    requires
        forall|i: int| 0 <= i < objs.len() ==> !probe((#[trigger] objs[i]).bounding_box).hit,
    ensures
        entered(objs, probe) == Seq::<(u64, i64)>::empty(),
{
    let test = enters(probe);
    assert(objs.all(|obj: ColliderObj| !test(obj)));
    objs.lemma_all_neg_filter_empty(test);
    assert(entered(objs, probe) =~= Seq::<(u64, i64)>::empty());
}

proof fn lemma_entered_single(obj: ColliderObj, probe: spec_fn(AABB) -> RayProbe)
    ensures
        entered(seq![obj], probe) == if probe(obj.bounding_box).hit {
            seq![candidate_of(obj, probe)]
        } else {
            Seq::<(u64, i64)>::empty()
        },
{
    let test = enters(probe);
    let none = Seq::<ColliderObj>::empty();
    reveal_with_fuel(Seq::filter, 2);
    assert(seq![obj].drop_last() =~= none);
    assert(none.filter(test) =~= none);
    if probe(obj.bounding_box).hit {
        assert(seq![obj].filter(test) =~= seq![obj]);
        assert(entered(seq![obj], probe) =~= seq![candidate_of(obj, probe)]);
    } else {
        assert(seq![obj].filter(test) =~= none);
        assert(entered(seq![obj], probe) =~= Seq::<(u64, i64)>::empty());
    }
}

/// The ray query is exact: on a k-d tree, with a conservative ray test, it lists,
/// in some order, the objects whose own box the ray enters, each as often as it
/// was indexed and with the distance of its own box, and nothing else.
pub proof fn lemma_ray_query_is_exact(
    tree: Option<Box<KDNode>>,
    objs: Seq<ColliderObj>,
    axis: int,
    probe: spec_fn(AABB) -> RayProbe,
)
    requires
        is_kd_tree(tree, objs, axis),
        is_conservative(probe),
    ensures
        ray_candidates(tree, probe).to_multiset() == entered(objs, probe).to_multiset(),
    decreases objs.len(),
{
    broadcast use vstd::seq_lib::lemma_multiset_commutative;

    if objs.len() == 0 {
        lemma_entered_none(objs, probe);
    } else if objs.len() == 1 {
        let node = tree.unwrap();
        assert(objs =~= seq![objs[0]]);
        lemma_entered_single(objs[0], probe);
        assert(ray_candidates(node.left_node, probe) =~= Seq::empty());
        assert(ray_candidates(node.right_node, probe) =~= Seq::empty());
        if probe(node.bounding_box).hit {
            assert(ray_candidates(tree, probe) =~= seq![candidate_of(objs[0], probe)]);
        }
    } else {
        let node = tree.unwrap();
        if !probe(node.bounding_box).hit {
            lemma_root_box_covers(tree, objs, axis);
            assert forall|i: int| 0 <= i < objs.len() implies !probe(
                (#[trigger] objs[i]).bounding_box,
            ).hit by {
                assert(node.bounding_box.covers(objs[i].bounding_box));
            }
            lemma_entered_none(objs, probe);
        } else {
            let sorted = sorted_along(objs, axis);
            let mid = (objs.len() / 2) as int;
            let left = sorted.subrange(0, mid);
            let right = sorted.subrange(mid, objs.len() as int);
            let from_left = ray_candidates(node.left_node, probe);
            let from_right = ray_candidates(node.right_node, probe);
            lemma_ray_query_is_exact(node.left_node, left, 1 - axis, probe);
            lemma_ray_query_is_exact(node.right_node, right, 1 - axis, probe);
            assert(ray_candidates(tree, probe) =~= from_left + from_right);
            assert(left + right =~= sorted);
            lemma_entered_adds(left, right, probe);
            lemma_entered_of_sorted(objs, axis, probe);
        }
    }
}

/// Whatever holds of the distance of every box that the ray test hits holds of
/// the distance of every candidate: a ray query lists no distance of its own.
/// With a ray test that gives no negative distance, no candidate lies behind
/// the origin of the ray.
pub proof fn lemma_ray_distances_are_answers(
    tree: Option<Box<KDNode>>,
    probe: spec_fn(AABB) -> RayProbe,
    holds: spec_fn(i64) -> bool,
)
    requires
        forall|bounding_box: AABB|
            probe(bounding_box).hit ==> #[trigger] holds(probe(bounding_box).distance),
    ensures
        forall|k: int|
            0 <= k < ray_candidates(tree, probe).len() ==> holds(
                (#[trigger] ray_candidates(tree, probe)[k]).1,
            ),
    decreases tree,
{
    match tree {
        None => {},
        Some(node) => {
            let answer = probe(node.bounding_box);
            if answer.hit {
                let from_left = ray_candidates(node.left_node, probe);
                let from_right = ray_candidates(node.right_node, probe);
                let own = tagged(node.objects@, answer.distance);
                let found = ray_candidates(tree, probe);
                lemma_ray_distances_are_answers(node.left_node, probe, holds);
                lemma_ray_distances_are_answers(node.right_node, probe, holds);
                assert(holds(answer.distance));
                assert forall|k: int| 0 <= k < found.len() implies holds(
                    (#[trigger] found[k]).1,
                ) by {
                    if k < from_left.len() {
                        assert(found[k] == from_left[k]);
                    } else if k < from_left.len() + from_right.len() {
                        assert(found[k] == from_right[k - from_left.len()]);
                    } else {
                        assert(found[k] == own[k - from_left.len() - from_right.len()]);
                    }
                }
            }
        },
    }
}

/// The search invents no hit: what it returns is what it had in hand, or the
/// outcome of the exact test for one of the candidates it stood before.
pub proof fn lemma_nearest_hit_is_an_outcome(
    candidates: Seq<(u64, i64)>,
    exact: spec_fn(u64) -> Option<i64>,
    from: int,
    best: Option<(i64, u64)>,
)
    requires
        0 <= from,
    ensures
        nearest_hit(candidates, exact, from, best) == best || (nearest_hit(
            candidates,
            exact,
            from,
            best,
        ) matches Some((distance, entity)) && exists|i: int|
            from <= i < candidates.len() && (#[trigger] candidates[i]).0 == entity && exact(entity)
                == Some(distance)),
    decreases candidates.len() - from,
{
    if from >= candidates.len() || out_of_reach(best, candidates[from].1) {
    } else {
        let entity = candidates[from].0;
        let next = nearer(best, entity, exact(entity));
        lemma_nearest_hit_is_an_outcome(candidates, exact, from + 1, next);
        let result = nearest_hit(candidates, exact, from, best);
        if result != best {
            if result == next {
                assert(candidates[from].0 == entity);
            } else {
                let (distance, winner) = result.unwrap();
                let i = choose|i: int|
                    from + 1 <= i < candidates.len() && (#[trigger] candidates[i]).0 == winner
                        && exact(winner) == Some(distance);
                assert(from <= i < candidates.len() && candidates[i].0 == winner);
            }
        }
    }
}

/// `best` is the nearest exact hit among the objects: nothing where none of them
/// is hit, and otherwise a hit of one of them that no other hit of them undercuts.
pub open spec fn is_nearest_of(
    objs: Seq<ColliderObj>,
    exact: spec_fn(u64) -> Option<i64>,
    best: Option<(i64, u64)>,
) -> bool {
    match best {
        None => forall|i: int| 0 <= i < objs.len() ==> exact((#[trigger] objs[i]).entity) is None,
        Some((distance, entity)) => {
            &&& exists|i: int|
                0 <= i < objs.len() && (#[trigger] objs[i]).entity == entity && exact(entity)
                    == Some(distance)
            &&& forall|i: int|
                0 <= i < objs.len() ==> (exact((#[trigger] objs[i]).entity) matches Some(other)
                    ==> distance <= other)
        },
    }
}

/// The ray enters the box of an object before it hits the object: whenever
/// the exact test hits, the ray test on the object's box hits too, and not later.
pub open spec fn hits_lie_in_boxes(
    objs: Seq<ColliderObj>,
    probe: spec_fn(AABB) -> RayProbe,
    exact: spec_fn(u64) -> Option<i64>,
) -> bool {
    forall|i: int|
        0 <= i < objs.len() ==> (exact((#[trigger] objs[i]).entity) matches Some(distance) ==> {
            &&& probe(objs[i].bounding_box).hit
            &&& probe(objs[i].bounding_box).distance <= distance
        })
}

/// The search through the index is as good as testing every object: on a k-d
/// tree, with a conservative ray test and exact hits that lie in the boxes of
/// their objects, the ray cast ends with the nearest exact hit of all objects.
pub proof fn lemma_raycast_finds_nearest(
    tree: Option<Box<KDNode>>,
    objs: Seq<ColliderObj>,
    axis: int,
    probe: spec_fn(AABB) -> RayProbe,
    exact: spec_fn(u64) -> Option<i64>,
)
    requires
        is_kd_tree(tree, objs, axis),
        is_conservative(probe),
        hits_lie_in_boxes(objs, probe, exact),
    ensures
        is_nearest_of(
            objs,
            exact,
            nearest_hit(sorted_by_distance(ray_candidates(tree, probe)), exact, 0, None),
        ),
{
    let found = ray_candidates(tree, probe);
    let sorted = sorted_by_distance(found);
    let best = nearest_hit(sorted, exact, 0, None);
    lemma_ray_candidates_of_kd_tree(tree, objs, axis, probe);
    lemma_sorted_by_distance_rearranges(found);
    lemma_sorted_by_distance_ascends(found);
    // Every candidate stands for an object whose box the ray enters.
    assert forall|j: int| 0 <= j < sorted.len() implies is_candidate_of_some(
        objs,
        probe,
        #[trigger] sorted[j],
    ) by {
        assert(found.contains(sorted[j]));
        let k = choose|k: int| 0 <= k < found.len() && found[k] == sorted[j];
        assert(is_candidate_of_some(objs, probe, found[k]));
    }
    assert(bounds_hold(sorted, exact)) by {
        assert forall|j: int| 0 <= j < sorted.len() implies (exact(
            (#[trigger] sorted[j]).0,
        ) matches Some(distance) ==> sorted[j].1 <= distance) by {
            let i = choose|i: int|
                0 <= i < objs.len() && probe((#[trigger] objs[i]).bounding_box).hit && sorted[j]
                    == candidate_of(objs[i], probe);
            assert(sorted[j].0 == objs[i].entity);
        }
    }
    lemma_pruned_search_finds_least(sorted, exact);
    // Every object that is hit is among the candidates.
    assert forall|i: int|
        0 <= i < objs.len() && exact((#[trigger] objs[i]).entity) is Some implies exists|j: int|
        0 <= j < sorted.len() && (#[trigger] sorted[j]).0 == objs[i].entity by {
        assert(probe(objs[i].bounding_box).hit);
        assert(found.contains(candidate_of(objs[i], probe)));
        let k = choose|k: int| 0 <= k < found.len() && found[k] == candidate_of(objs[i], probe);
        assert(sorted.contains(found[k]));
        let j = choose|j: int| 0 <= j < sorted.len() && sorted[j] == found[k];
        assert(sorted[j].0 == objs[i].entity);
    }
    match best {
        None => {
            assert forall|i: int| 0 <= i < objs.len() implies exact(
                (#[trigger] objs[i]).entity,
            ) is None by {
                if exact(objs[i].entity) is Some {
                    let j = choose|j: int|
                        0 <= j < sorted.len() && (#[trigger] sorted[j]).0 == objs[i].entity;
                    assert(exact(sorted[j].0) is None);
                }
            }
        },
        Some((distance, entity)) => {
            let j = choose|j: int|
                0 <= j < sorted.len() && (#[trigger] sorted[j]).0 == entity && exact(entity)
                    == Some(distance);
            let i = choose|i: int|
                0 <= i < objs.len() && probe((#[trigger] objs[i]).bounding_box).hit && sorted[j]
                    == candidate_of(objs[i], probe);
            assert(objs[i].entity == entity);
            assert forall|i: int| 0 <= i < objs.len() implies (exact(
                (#[trigger] objs[i]).entity,
            ) matches Some(other) ==> distance <= other) by {
                if exact(objs[i].entity) is Some {
                    let j = choose|j: int|
                        0 <= j < sorted.len() && (#[trigger] sorted[j]).0 == objs[i].entity;
                    assert(exact(sorted[j].0) is Some);
                }
            }
        },
    }
}

/// The nearest hit among the first `n` outcomes.
pub open spec fn nearest_among(
    candidates: Seq<(u64, i64)>,
    outcomes: Seq<Option<i64>>,
    n: nat,
) -> Option<(i64, u64)>
    decreases n,
{
    if n == 0 {
        None
    } else {
        nearer(
            nearest_among(candidates, outcomes, (n - 1) as nat),
            candidates[n - 1].0,
            outcomes[n - 1],
        )
    }
}

proof fn lemma_search_from<H: Fn(u64) -> Option<i64>>(
    exact_hit: H,
    candidates: Seq<(u64, i64)>,
    outcomes: Seq<Option<i64>>,
    tested: nat,
    from: nat,
)
    requires
        from <= tested <= candidates.len(),
        outcomes.len() == tested,
        forall|k: int|
            0 <= k < tested ==> call_ensures(exact_hit, (candidates[k].0,), #[trigger] outcomes[k]),
        forall|k: int|
            0 <= k < tested ==> !out_of_reach(
                #[trigger] nearest_among(candidates, outcomes, k as nat),
                candidates[k].1,
            ),
        tested == candidates.len() || out_of_reach(
            nearest_among(candidates, outcomes, tested),
            candidates[tested as int].1,
        ),
    ensures
        is_search(
            exact_hit,
            candidates,
            from as int,
            nearest_among(candidates, outcomes, from),
            nearest_among(candidates, outcomes, tested),
        ),
    decreases tested - from,
{
    if from < tested {
        lemma_search_from(exact_hit, candidates, outcomes, tested, from + 1);
        assert(!out_of_reach(nearest_among(candidates, outcomes, from), candidates[from as int].1));
        assert(call_ensures(exact_hit, (candidates[from as int].0,), outcomes[from as int]));
        assert(nearest_among(candidates, outcomes, (from + 1) as nat) == nearer(
            nearest_among(candidates, outcomes, from),
            candidates[from as int].0,
            outcomes[from as int],
        ));
    }
}

/// Finds the nearest collider that a ray hits.
///
/// `probe` is the ray test against a box and `exact_hit` the exact test against
/// an entity's collider, which gives the distance of the hit, or `None` where the
/// entity has no collider or the ray misses it. The candidates that the ray
/// query collects from the index are sorted by the distance at which the ray
/// enters their box and tested in that order, until the next box lies beyond the
/// nearest hit found. Of several hits at the least distance the last one tested
/// is returned.
pub fn raycast<P: Fn(AABB) -> RayProbe, H: Fn(u64) -> Option<i64>>(
    probe: &P,
    exact_hit: &H,
    collision_world: &CollisionWorld,
) -> (hit: Option<(i64, u64)>)
    requires
        forall|bounding_box: AABB| call_requires(*probe, (bounding_box,)),
        forall|entity: u64| call_requires(*exact_hit, (entity,)),
    ensures
        exists|found: Seq<(u64, i64)>| #[trigger]
            is_ray_walk(*probe, collision_world.kd_tree, found) && is_search(
                *exact_hit,
                sorted_by_distance(found),
                0,
                None,
                hit,
            ),
{
    let mut objects: Vec<(u64, i64)> = Vec::new();
    find_ray_collision_entities(probe, &collision_world.kd_tree, &mut objects);
    let ghost found = objects@;
    assert(is_ray_walk(*probe, collision_world.kd_tree, found)) by {
        let f = choose|f: Seq<(u64, i64)>| #[trigger]
            is_ray_walk(*probe, collision_world.kd_tree, f) && objects@ == Seq::<
                (u64, i64),
            >::empty() + f;
        assert(f =~= found);
    }

    let mut keys: Vec<i64> = Vec::new();
    let mut k: usize = 0;
    while k < objects.len()
        invariant
            k <= objects.len(),
            keys.len() == k,
            forall|j: int| 0 <= j < k ==> keys[j] == objects[j].1,
        decreases objects.len() - k,
    {
        keys.push(objects[k].1);
        k = k + 1;
    }
    assert(keys@ =~= distances(found));
    let order = sort_indices(&keys);
    assert forall|j: int| 0 <= j < order.len() implies #[trigger] order[j] < objects.len() by {
        assert(as_ints(order@)[j] == order[j]);
    }
    let sorted = arrange(&objects, &order);
    assert(sorted@ == sorted_by_distance(found));

    let mut best: Option<(i64, u64)> = None;
    let ghost mut outcomes: Seq<Option<i64>> = Seq::empty();
    let mut i: usize = 0;
    while i < sorted.len()
        invariant
            i <= sorted.len(),
            outcomes.len() == i,
            best == nearest_among(sorted@, outcomes, i as nat),
            forall|entity: u64| call_requires(*exact_hit, (entity,)),
            forall|k: int|
                0 <= k < i ==> call_ensures(*exact_hit, (sorted@[k].0,), #[trigger] outcomes[k]),
            forall|k: int|
                0 <= k < i ==> !out_of_reach(
                    #[trigger] nearest_among(sorted@, outcomes, k as nat),
                    sorted@[k].1,
                ),
        ensures
            i <= sorted.len(),
            outcomes.len() == i,
            best == nearest_among(sorted@, outcomes, i as nat),
            forall|k: int|
                0 <= k < i ==> call_ensures(*exact_hit, (sorted@[k].0,), #[trigger] outcomes[k]),
            forall|k: int|
                0 <= k < i ==> !out_of_reach(
                    #[trigger] nearest_among(sorted@, outcomes, k as nat),
                    sorted@[k].1,
                ),
            i == sorted.len() || out_of_reach(best, sorted@[i as int].1),
        decreases sorted.len() - i,
    {
        let (entity, bound) = sorted[i];
        let pruned = match best {
            Some((nearest, _)) => bound > nearest,
            None => false,
        };
        if pruned {
            break ;
        }
        let outcome = exact_hit(entity);
        let ghost before = outcomes;
        proof {
            outcomes = outcomes.push(outcome);
            assert forall|k: nat| k <= i implies nearest_among(sorted@, outcomes, k)
                == nearest_among(sorted@, before, k) by {
                lemma_nearest_among_prefix(sorted@, before, outcomes, k);
            }
        }
        best =
        match outcome {
            Some(distance) => {
                let farther = match best {
                    Some((nearest, _)) => distance > nearest,
                    None => false,
                };
                if farther {
                    best
                } else {
                    Some((distance, entity))
                }
            },
            None => best,
        };
        i = i + 1;
    }
    proof {
        lemma_search_from(*exact_hit, sorted@, outcomes, i as nat, 0);
    }
    best
}

proof fn lemma_nearest_among_prefix(
    candidates: Seq<(u64, i64)>,
    shorter: Seq<Option<i64>>,
    longer: Seq<Option<i64>>,
    n: nat,
)
    requires
        n <= shorter.len() <= longer.len(),
        forall|k: int| 0 <= k < shorter.len() ==> shorter[k] == longer[k],
    ensures
        nearest_among(candidates, longer, n) == nearest_among(candidates, shorter, n),
    decreases n,
{
    if n > 0 {
        lemma_nearest_among_prefix(candidates, shorter, longer, (n - 1) as nat);
    }
}

} // verus!
