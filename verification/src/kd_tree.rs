//! The spatial index of the static colliders: a k-d tree over their bounding
//! boxes, built once and read by overlap queries.

use crate::collider::{Collider, Shape, StaticCollider};
use crate::geometry::{combine_bounding_boxes, lemma_overlap_grows, lemma_union_covers, AABB};
use crate::sorting::{
    arrange, arranged, as_ints, is_additive, lemma_arranged_keeps_additive,
    lemma_arranged_keeps_items, lemma_stable_order, sort_indices, stable_order,
};
use vstd::multiset::Multiset;
use vstd::prelude::*;

verus! {

/// An indexed collider: its entity and the box that bounds it.
#[derive(Clone, Copy, Debug, PartialEq, Eq, Structural)]
pub struct ColliderObj {
    pub entity: u64,
    pub bounding_box: AABB,
}

/// A node of the k-d tree.
///
/// Its box bounds everything below it. Entities may be stored at any node; a tree
/// that `kd_tree` built stores exactly one at each leaf and none elsewhere.
#[derive(Debug)]
pub struct KDNode {
    pub bounding_box: AABB,
    pub left_node: Option<Box<KDNode>>,
    pub right_node: Option<Box<KDNode>>,
    pub objects: Vec<u64>,
}

/// The spatial index of a scene. It is empty until `build_collision_tree` ran.
#[derive(Debug)]
pub struct CollisionWorld {
    pub kd_tree: Option<Box<KDNode>>,
}

/// A collider as the index build meets it: with its entity, its bounding box and
/// the marker that makes it static, where it has one.
#[derive(Clone, Copy, Debug, PartialEq, Eq, Structural)]
pub struct ColliderEntry {
    pub entity: u64,
    pub collider: Collider,
    pub bounding_box: AABB,
    pub static_collider: Option<StaticCollider>,
}

/// The ordinate by which an object is sorted along an axis: the least corner's
/// `x` on axis 0, its `y` on any other axis.
pub open spec fn axis_key(obj: ColliderObj, axis: int) -> i64 {
    if axis == 0 {
        obj.bounding_box.min.x
    } else {
        obj.bounding_box.min.y
    }
}

pub open spec fn axis_keys(objs: Seq<ColliderObj>, axis: int) -> Seq<i64> {
    Seq::new(objs.len(), |i: int| axis_key(objs[i], axis))
}

/// The objects in ascending order of their key along `axis`; objects with equal
/// keys keep their order.
pub open spec fn sorted_along(objs: Seq<ColliderObj>, axis: int) -> Seq<ColliderObj> {
    Seq::new(objs.len(), |j: int| objs[stable_order(axis_keys(objs, axis))[j]])
}

/// `tree` is the k-d tree of `objs` whose root splits along `axis`.
///
/// No objects give no tree, one object gives a leaf that holds it under its own
/// box. Otherwise the objects are sorted along the axis and cut at the middle;
/// the lower half forms the left subtree and the rest the right one, both split
/// along the other axis, and the node's box is the union of their boxes.
pub open spec fn is_kd_tree(tree: Option<Box<KDNode>>, objs: Seq<ColliderObj>, axis: int) -> bool
    decreases objs.len(),
{
    if objs.len() == 0 {
        tree is None
    } else if objs.len() == 1 {
        &&& tree matches Some(node)
        &&& node.bounding_box == objs[0].bounding_box
        &&& node.left_node is None
        &&& node.right_node is None
        &&& node.objects@ == seq![objs[0].entity]
    } else {
        let sorted = sorted_along(objs, axis);
        let mid = (objs.len() / 2) as int;
        &&& tree matches Some(node)
        &&& node.objects@.len() == 0
        &&& node.left_node is Some
        &&& node.right_node is Some
        &&& is_kd_tree(node.left_node, sorted.subrange(0, mid), 1 - axis)
        &&& is_kd_tree(node.right_node, sorted.subrange(mid, objs.len() as int), 1 - axis)
        &&& node.bounding_box == node.left_node.unwrap().bounding_box.union(
            node.right_node.unwrap().bounding_box,
        )
    }
}

fn keys_along(objects: &Vec<ColliderObj>, axis: usize) -> (keys: Vec<i64>)
    ensures
        keys@ == axis_keys(objects@, axis as int),
{
    let mut keys: Vec<i64> = Vec::new();
    let mut i: usize = 0;
    while i < objects.len()
        invariant
            i <= objects.len(),
            keys.len() == i,
            forall|k: int| 0 <= k < i ==> keys[k] == axis_key(objects[k], axis as int),
        decreases objects.len() - i,
    {
        let key: i64 = if axis == 0 {
            objects[i].bounding_box.min.x
        } else {
            objects[i].bounding_box.min.y
        };
        keys.push(key);
        i = i + 1;
    }
    assert(keys@ =~= axis_keys(objects@, axis as int));
    keys
}

/// Builds the k-d tree of `objects`. The root splits along axis `depth % 2`, and
/// the axis alternates from each level to the next.
pub fn kd_tree(objects: Vec<ColliderObj>, depth: usize) -> (tree: Option<Box<KDNode>>)
    ensures
        is_kd_tree(tree, objects@, (depth % 2) as int),
    decreases objects.len(),
{
    if objects.len() == 0 {
        return None;
    }
    if objects.len() == 1 {
        let obj = objects[0];
        let mut own: Vec<u64> = Vec::new();
        own.push(obj.entity);
        assert(own@ =~= seq![obj.entity]);
        return Some(
            Box::new(
                KDNode { bounding_box: obj.bounding_box, left_node: None, right_node: None, objects: own },
            ),
        );
    }
    let axis: usize = depth % 2;
    let keys = keys_along(&objects, axis);
    let order = sort_indices(&keys);
    assert forall|j: int| 0 <= j < order.len() implies #[trigger] order[j] < objects.len() by {
        assert(as_ints(order@)[j] == order[j]);
    }
    let mut left_objects = arrange(&objects, &order);
    assert(left_objects@ =~= sorted_along(objects@, axis as int));
    let mid: usize = left_objects.len() / 2;
    let right_objects = left_objects.split_off(mid);

    let left_node = kd_tree(left_objects, axis + 1);
    let right_node = kd_tree(right_objects, axis + 1);
    let bounding_box = combine_bounding_boxes(
        left_node.as_ref().unwrap().bounding_box,
        right_node.as_ref().unwrap().bounding_box,
    );
    Some(Box::new(KDNode { bounding_box, left_node, right_node, objects: Vec::new() }))
}

/// The number of nodes on the longest way from the root down to a leaf.
pub open spec fn height(tree: Option<Box<KDNode>>) -> nat
    decreases tree,
{
    match tree {
        None => 0,
        Some(node) => {
            let left = height(node.left_node);
            let right = height(node.right_node);
            1 + if left >= right {
                left
            } else {
                right
            }
        },
    }
}

/// The height of the k-d tree of `count` objects: a tree of one object is a
/// leaf, and every cut leaves the greater half for the tree below.
pub open spec fn levels(count: nat) -> nat
    decreases count,
{
    if count == 0 {
        0
    } else if count == 1 {
        1
    } else {
        1 + levels((count - count / 2) as nat)
    }
}

/// Two to the power of `exponent`.
pub open spec fn two_to(exponent: nat) -> nat
    decreases exponent,
{
    if exponent == 0 {
        1
    } else {
        2 * two_to((exponent - 1) as nat)
    }
}

proof fn lemma_levels_grow(fewer: nat, more: nat)
    requires
        fewer <= more,
    ensures
        levels(fewer) <= levels(more),
    decreases more,
{
    if more >= 2 && fewer >= 2 {
        lemma_levels_grow((fewer - fewer / 2) as nat, (more - more / 2) as nat);
    } else if more >= 2 && fewer == 1 {
        lemma_levels_grow(1, (more - more / 2) as nat);
    }
}

/// The k-d tree of a given number of objects has a height that depends on the
/// number alone.
pub proof fn lemma_height_of_kd_tree(tree: Option<Box<KDNode>>, objs: Seq<ColliderObj>, axis: int)
    requires
        is_kd_tree(tree, objs, axis),
    ensures
        height(tree) == levels(objs.len()),
    decreases objs.len(),
{
    if objs.len() == 1 {
        let node = tree.unwrap();
        assert(height(node.left_node) == 0 && height(node.right_node) == 0);
    } else if objs.len() >= 2 {
        let node = tree.unwrap();
        let sorted = sorted_along(objs, axis);
        let mid = (objs.len() / 2) as int;
        let left = sorted.subrange(0, mid);
        let right = sorted.subrange(mid, objs.len() as int);
        lemma_height_of_kd_tree(node.left_node, left, 1 - axis);
        lemma_height_of_kd_tree(node.right_node, right, 1 - axis);
        lemma_levels_grow(left.len(), right.len());
    }
}

/// The height of a k-d tree is logarithmic in the number of its objects: a tree
/// of height `h` holds more than a fourth of two to the `h` objects.
pub proof fn lemma_levels_bound(count: nat)
    requires
        count >= 1,
    ensures
        levels(count) >= 1,
        count <= two_to((levels(count) - 1) as nat),
        two_to((levels(count) - 1) as nat) < 2 * count,
        count >= 2 ==> two_to((levels(count) - 1) as nat) <= 2 * count - 2,
    decreases count,
{
    if count == 1 {
        assert(two_to(0) == 1);
    } else {
        let below = (count - count / 2) as nat;
        lemma_levels_bound(below);
        assert(levels(count) == 1 + levels(below));
        assert(two_to((levels(count) - 1) as nat) == 2 * two_to((levels(below) - 1) as nat));
    }
}

/// What the index build makes of a collider: a static box is indexed under its
/// bounding box. Everything else is passed over: a collider that is not static,
/// and a static circle, which the index cannot hold.
pub open spec fn indexed_object(entry: ColliderEntry) -> Option<ColliderObj> {
    if entry.static_collider is Some && entry.collider.shape is Box {
        Some(ColliderObj { entity: entry.entity, bounding_box: entry.bounding_box })
    } else {
        None
    }
}

/// The objects that the static boxes among `entries` give, in their order.
pub open spec fn index_objects(entries: Seq<ColliderEntry>) -> Seq<ColliderObj> {
    entries.filter_map(|entry: ColliderEntry| indexed_object(entry))
}

/// Indexes the static colliders among `entries`.
///
/// The index becomes the k-d tree of the static boxes, split along axis 0 at the
/// root; what it held before is dropped. Only boxes can be indexed: a static
/// circle is left out, and so is never found by a query, while the static boxes
/// beside it are indexed as they are without it.
pub fn build_collision_tree(entries: &Vec<ColliderEntry>, collision_world: &mut CollisionWorld)
    ensures
        is_kd_tree(final(collision_world).kd_tree, index_objects(entries@), 0),
{
    let mut objects: Vec<ColliderObj> = Vec::new();
    let mut i: usize = 0;
    while i < entries.len()
        invariant
            i <= entries.len(),
            objects@ == index_objects(entries@.take(i as int)),
        decreases entries.len() - i,
    {
        let entry = entries[i];
        proof {
            assert(entries@.take(i + 1).drop_last() =~= entries@.take(i as int));
            assert(entries@.take(i + 1).last() == entry);
        }
        if entry.static_collider.is_some() {
            match entry.collider.shape {
                Shape::Circle { .. } => {},
                Shape::Box { .. } => {
                    objects.push(
                        ColliderObj { entity: entry.entity, bounding_box: entry.bounding_box },
                    );
                },
            }
        }
        proof {
            assert(objects@ =~= index_objects(entries@.take(i + 1)));
        }
        i = i + 1;
    }
    assert(entries@.take(i as int) =~= entries@);
    collision_world.kd_tree = kd_tree(objects, 0);
}

/// What an overlap query collects from `tree`: the entities stored at every node
/// that is reached, where a node is reached if its box, and the box of each node
/// above it, overlaps `query`. A node's subtrees are read before the node itself,
/// the left one first.
pub open spec fn overlapping(tree: Option<Box<KDNode>>, query: AABB) -> Seq<u64>
    decreases tree,
{
    match tree {
        None => Seq::empty(),
        Some(node) => if query.overlaps(node.bounding_box) {
            overlapping(node.left_node, query) + overlapping(node.right_node, query)
                + node.objects@
        } else {
            Seq::empty()
        },
    }
}

/// Appends to `colliders` the entities that an overlap query for `bounding_box`
/// collects from `tree`.
pub fn find_collision_entities(
    bounding_box: &AABB,
    tree: &Option<Box<KDNode>>,
    colliders: &mut Vec<u64>,
)
    ensures
        final(colliders)@ == old(colliders)@ + overlapping(*tree, *bounding_box),
    decreases *tree,
{
    if let Some(node) = tree {
        if !bounding_box.intersects(&node.bounding_box) {
            return ;
        }
        find_collision_entities(bounding_box, &node.left_node, colliders);
        find_collision_entities(bounding_box, &node.right_node, colliders);
        let mut i: usize = 0;
        let ghost before = colliders@;
        while i < node.objects.len()
            invariant
                i <= node.objects.len(),
                colliders@ == before + node.objects@.take(i as int),
            decreases node.objects.len() - i,
        {
            colliders.push(node.objects[i]);
            assert(node.objects@.take(i + 1) =~= node.objects@.take(i as int).push(
                node.objects@[i as int],
            ));
            i = i + 1;
        }
        assert(node.objects@.take(i as int) =~= node.objects@);
    }
}

/// The entities of `objs`, in their order.
pub open spec fn entities(objs: Seq<ColliderObj>) -> Seq<u64> {
    Seq::new(objs.len(), |i: int| objs[i].entity)
}

/// Sorting along an axis rearranges the objects: it neither drops nor invents one.
pub proof fn lemma_sorted_along_rearranges(objs: Seq<ColliderObj>, axis: int)
    ensures
        sorted_along(objs, axis).len() == objs.len(),
        forall|j: int|
            0 <= j < objs.len() ==> objs.contains(#[trigger] sorted_along(objs, axis)[j]),
        forall|i: int| 0 <= i < objs.len() ==> sorted_along(objs, axis).contains(#[trigger] objs[i]),
        entities(sorted_along(objs, axis)).to_multiset() == entities(objs).to_multiset(),
{
    let keys = axis_keys(objs, axis);
    let order = stable_order(keys);
    let sorted = sorted_along(objs, axis);
    lemma_stable_order(keys);
    assert forall|j: int| 0 <= j < objs.len() implies objs.contains(#[trigger] sorted[j]) by {
        assert(objs[order[j]] == sorted[j]);
    }
    assert forall|i: int| 0 <= i < objs.len() implies sorted.contains(#[trigger] objs[i]) by {
        assert(order.contains(i));
        let j = choose|j: int| 0 <= j < order.len() && order[j] == i;
        assert(sorted[j] == objs[i]);
    }
    lemma_arranged_keeps_items(entities(objs), keys);
    assert(entities(sorted) =~= arranged(entities(objs), order));
}

/// The box at the root of a k-d tree covers the box of every object in the tree.
pub proof fn lemma_root_box_covers(tree: Option<Box<KDNode>>, objs: Seq<ColliderObj>, axis: int)
    requires
        is_kd_tree(tree, objs, axis),
    ensures
        forall|i: int|
            0 <= i < objs.len() ==> tree.unwrap().bounding_box.covers(
                (#[trigger] objs[i]).bounding_box,
            ),
    decreases objs.len(),
{
    if objs.len() >= 2 {
        let node = tree.unwrap();
        let sorted = sorted_along(objs, axis);
        let mid = (objs.len() / 2) as int;
        let left = sorted.subrange(0, mid);
        let right = sorted.subrange(mid, objs.len() as int);
        lemma_root_box_covers(node.left_node, left, 1 - axis);
        lemma_root_box_covers(node.right_node, right, 1 - axis);
        lemma_sorted_along_rearranges(objs, axis);
        lemma_union_covers(
            node.left_node.unwrap().bounding_box,
            node.right_node.unwrap().bounding_box,
        );
        assert forall|i: int| 0 <= i < objs.len() implies node.bounding_box.covers(
            (#[trigger] objs[i]).bounding_box,
        ) by {
            assert(sorted.contains(objs[i]));
            let j = choose|j: int| 0 <= j < sorted.len() && sorted[j] == objs[i];
            if j < mid {
                assert(left[j] == objs[i]);
            } else {
                assert(right[j - mid] == objs[i]);
            }
        }
    }
}

/// No false negatives: an overlap query on a k-d tree reports every object whose
/// own box overlaps the query box.
pub proof fn lemma_query_finds_overlapping(
    tree: Option<Box<KDNode>>,
    objs: Seq<ColliderObj>,
    axis: int,
    query: AABB,
    i: int,
)
    requires
        is_kd_tree(tree, objs, axis),
        0 <= i < objs.len(),
        query.overlaps(objs[i].bounding_box),
    ensures
        overlapping(tree, query).contains(objs[i].entity),
    decreases objs.len(),
{
    let node = tree.unwrap();
    lemma_root_box_covers(tree, objs, axis);
    lemma_overlap_grows(query, objs[i].bounding_box, node.bounding_box);
    if objs.len() == 1 {
        assert(overlapping(node.left_node, query) =~= Seq::empty());
        assert(overlapping(node.right_node, query) =~= Seq::empty());
        assert(overlapping(tree, query) =~= node.objects@);
        assert(node.objects@[0] == objs[i].entity);
    } else {
        let sorted = sorted_along(objs, axis);
        let mid = (objs.len() / 2) as int;
        let left = sorted.subrange(0, mid);
        let right = sorted.subrange(mid, objs.len() as int);
        let from_left = overlapping(node.left_node, query);
        let from_right = overlapping(node.right_node, query);
        lemma_sorted_along_rearranges(objs, axis);
        assert(sorted.contains(objs[i]));
        let j = choose|j: int| 0 <= j < sorted.len() && sorted[j] == objs[i];
        if j < mid {
            assert(left[j] == objs[i]);
            lemma_query_finds_overlapping(node.left_node, left, 1 - axis, query, j);
            let k = choose|k: int| 0 <= k < from_left.len() && from_left[k] == objs[i].entity;
            assert(overlapping(tree, query)[k] == objs[i].entity);
        } else {
            assert(right[j - mid] == objs[i]);
            lemma_query_finds_overlapping(node.right_node, right, 1 - axis, query, j - mid);
            let k = choose|k: int| 0 <= k < from_right.len() && from_right[k] == objs[i].entity;
            assert(overlapping(tree, query)[from_left.len() + k] == objs[i].entity);
        }
    }
}

/// No false positives: whatever an overlap query on a k-d tree reports belongs to
/// an object whose own box overlaps the query box.
pub proof fn lemma_query_finds_only_overlapping(
    tree: Option<Box<KDNode>>,
    objs: Seq<ColliderObj>,
    axis: int,
    query: AABB,
    entity: u64,
)
    requires
        is_kd_tree(tree, objs, axis),
        overlapping(tree, query).contains(entity),
    ensures
        exists|i: int|
            0 <= i < objs.len() && (#[trigger] objs[i]).entity == entity && query.overlaps(
                objs[i].bounding_box,
            ),
    decreases objs.len(),
{
    let found = overlapping(tree, query);
    let k = choose|k: int| 0 <= k < found.len() && found[k] == entity;
    if objs.len() == 0 {
    } else if objs.len() == 1 {
        let node = tree.unwrap();
        assert(overlapping(node.left_node, query) =~= Seq::empty());
        assert(overlapping(node.right_node, query) =~= Seq::empty());
        assert(found =~= node.objects@);
        assert(objs[0].entity == entity);
    } else {
        let node = tree.unwrap();
        let sorted = sorted_along(objs, axis);
        let mid = (objs.len() / 2) as int;
        let left = sorted.subrange(0, mid);
        let right = sorted.subrange(mid, objs.len() as int);
        let from_left = overlapping(node.left_node, query);
        let from_right = overlapping(node.right_node, query);
        lemma_sorted_along_rearranges(objs, axis);
        if k < from_left.len() {
            assert(from_left[k] == entity);
            lemma_query_finds_only_overlapping(node.left_node, left, 1 - axis, query, entity);
            let j = choose|j: int|
                0 <= j < left.len() && (#[trigger] left[j]).entity == entity && query.overlaps(
                    left[j].bounding_box,
                );
            assert(objs.contains(sorted[j]));
            let i = choose|i: int| 0 <= i < objs.len() && objs[i] == sorted[j];
            assert(objs[i].entity == entity);
        } else {
            assert(from_right[k - from_left.len()] == entity);
            lemma_query_finds_only_overlapping(node.right_node, right, 1 - axis, query, entity);
            let j = choose|j: int|
                0 <= j < right.len() && (#[trigger] right[j]).entity == entity && query.overlaps(
                    right[j].bounding_box,
                );
            assert(objs.contains(sorted[mid + j]));
            let i = choose|i: int| 0 <= i < objs.len() && objs[i] == sorted[mid + j];
            assert(objs[i].entity == entity);
        }
    }
}

/// A query box that overlaps the box of every indexed object gets all of them
/// back, each as often as it was indexed.
pub proof fn lemma_query_overlapping_all_finds_all(
    tree: Option<Box<KDNode>>,
    objs: Seq<ColliderObj>,
    axis: int,
    query: AABB,
)
    requires
        is_kd_tree(tree, objs, axis),
        forall|i: int| 0 <= i < objs.len() ==> query.overlaps((#[trigger] objs[i]).bounding_box),
    ensures
        overlapping(tree, query).to_multiset() == entities(objs).to_multiset(),
    decreases objs.len(),
{
    broadcast use vstd::seq_lib::lemma_multiset_commutative;

    if objs.len() == 0 {
        assert(overlapping(tree, query) =~= entities(objs));
    } else {
        let node = tree.unwrap();
        lemma_root_box_covers(tree, objs, axis);
        lemma_overlap_grows(query, objs[0].bounding_box, node.bounding_box);
        if objs.len() == 1 {
            assert(overlapping(node.left_node, query) =~= Seq::empty());
            assert(overlapping(node.right_node, query) =~= Seq::empty());
            assert(overlapping(tree, query) =~= entities(objs));
        } else {
            let sorted = sorted_along(objs, axis);
            let mid = (objs.len() / 2) as int;
            let left = sorted.subrange(0, mid);
            let right = sorted.subrange(mid, objs.len() as int);
            let from_left = overlapping(node.left_node, query);
            let from_right = overlapping(node.right_node, query);
            lemma_sorted_along_rearranges(objs, axis);
            assert forall|j: int| 0 <= j < sorted.len() implies query.overlaps(
                (#[trigger] sorted[j]).bounding_box,
            ) by {
                assert(objs.contains(sorted[j]));
            }
            assert forall|j: int| 0 <= j < left.len() implies query.overlaps(
                (#[trigger] left[j]).bounding_box,
            ) by {
                assert(left[j] == sorted[j]);
            }
            assert forall|j: int| 0 <= j < right.len() implies query.overlaps(
                (#[trigger] right[j]).bounding_box,
            ) by {
                assert(right[j] == sorted[mid + j]);
            }
            lemma_query_overlapping_all_finds_all(node.left_node, left, 1 - axis, query);
            lemma_query_overlapping_all_finds_all(node.right_node, right, 1 - axis, query);
            assert(overlapping(tree, query) =~= from_left + from_right);
            assert(entities(sorted) =~= entities(left) + entities(right));
        }
    }
}

/// The test of an overlap query, as a predicate on objects.
pub open spec fn overlaps_query(query: AABB) -> spec_fn(ColliderObj) -> bool {
    |obj: ColliderObj| query.overlaps(obj.bounding_box)
}

/// The entities of the objects whose own box overlaps `query`, in their order.
pub open spec fn overlapped(objs: Seq<ColliderObj>, query: AABB) -> Seq<u64> {
    entities(objs.filter(overlaps_query(query)))
}

spec fn overlapped_bag(query: AABB) -> spec_fn(Seq<ColliderObj>) -> Multiset<u64> {
    |objs: Seq<ColliderObj>| overlapped(objs, query).to_multiset()
}

proof fn lemma_overlapped_adds(a: Seq<ColliderObj>, b: Seq<ColliderObj>, query: AABB)
    ensures
        overlapped(a + b, query) == overlapped(a, query) + overlapped(b, query),
{
    Seq::filter_distributes_over_add(a, b, overlaps_query(query));
    let kept_a = a.filter(overlaps_query(query));
    let kept_b = b.filter(overlaps_query(query));
    assert(entities(kept_a + kept_b) =~= entities(kept_a) + entities(kept_b));
}

proof fn lemma_overlapped_of_sorted(objs: Seq<ColliderObj>, axis: int, query: AABB)
    ensures
        overlapped(sorted_along(objs, axis), query).to_multiset() == overlapped(
            objs,
            query,
        ).to_multiset(),
{
    let bag = overlapped_bag(query);
    assert(is_additive(bag)) by {
        assert forall|a: Seq<ColliderObj>, b: Seq<ColliderObj>| #[trigger]
            bag(a + b) == bag(a).add(bag(b)) by {
            lemma_overlapped_adds(a, b, query);
            vstd::seq_lib::lemma_multiset_commutative(overlapped(a, query), overlapped(b, query));
        }
    }
    let keys = axis_keys(objs, axis);
    lemma_stable_order(keys);
    lemma_arranged_keeps_additive(objs, keys, bag);
    assert(sorted_along(objs, axis) =~= arranged(objs, stable_order(keys)));
}

proof fn lemma_overlapped_none(objs: Seq<ColliderObj>, query: AABB)
    requires
        forall|i: int| 0 <= i < objs.len() ==> !query.overlaps((#[trigger] objs[i]).bounding_box),
    ensures
        overlapped(objs, query) == Seq::<u64>::empty(),
{
    let test = overlaps_query(query);
    assert(objs.all(|obj: ColliderObj| !test(obj)));
    objs.lemma_all_neg_filter_empty(test);
    assert(overlapped(objs, query) =~= Seq::<u64>::empty());
}

proof fn lemma_overlapped_single(obj: ColliderObj, query: AABB)
    ensures
        overlapped(seq![obj], query) == if query.overlaps(obj.bounding_box) {
            seq![obj.entity]
        } else {
            Seq::<u64>::empty()
        },
{
    let test = overlaps_query(query);
    let none = Seq::<ColliderObj>::empty();
    reveal_with_fuel(Seq::filter, 2);
    assert(seq![obj].drop_last() =~= none);
    assert(none.filter(test) =~= none);
    if query.overlaps(obj.bounding_box) {
        assert(seq![obj].filter(test) =~= seq![obj]);
        assert(overlapped(seq![obj], query) =~= seq![obj.entity]);
    } else {
        assert(seq![obj].filter(test) =~= none);
        assert(overlapped(seq![obj], query) =~= Seq::<u64>::empty());
    }
}

/// The broad phase is exact: an overlap query on a k-d tree reports, in some
/// order, the objects whose own box overlaps the query box, each as often as it
/// was indexed, and nothing else.
pub proof fn lemma_query_is_exact(
    tree: Option<Box<KDNode>>,
    objs: Seq<ColliderObj>,
    axis: int,
    query: AABB,
)
    requires
        is_kd_tree(tree, objs, axis),
    ensures
        overlapping(tree, query).to_multiset() == overlapped(objs, query).to_multiset(),
    decreases objs.len(),
{
    broadcast use vstd::seq_lib::lemma_multiset_commutative;

    if objs.len() == 0 {
        lemma_overlapped_none(objs, query);
    } else if objs.len() == 1 {
        let node = tree.unwrap();
        assert(objs =~= seq![objs[0]]);
        lemma_overlapped_single(objs[0], query);
        assert(overlapping(node.left_node, query) =~= Seq::empty());
        assert(overlapping(node.right_node, query) =~= Seq::empty());
        if query.overlaps(node.bounding_box) {
            assert(overlapping(tree, query) =~= seq![objs[0].entity]);
        }
    } else {
        let node = tree.unwrap();
        if !query.overlaps(node.bounding_box) {
            lemma_root_box_covers(tree, objs, axis);
            assert forall|i: int| 0 <= i < objs.len() implies !query.overlaps(
                (#[trigger] objs[i]).bounding_box,
            ) by {
                if query.overlaps(objs[i].bounding_box) {
                    lemma_overlap_grows(query, objs[i].bounding_box, node.bounding_box);
                }
            }
            lemma_overlapped_none(objs, query);
        } else {
            let sorted = sorted_along(objs, axis);
            let mid = (objs.len() / 2) as int;
            let left = sorted.subrange(0, mid);
            let right = sorted.subrange(mid, objs.len() as int);
            let from_left = overlapping(node.left_node, query);
            let from_right = overlapping(node.right_node, query);
            lemma_query_is_exact(node.left_node, left, 1 - axis, query);
            lemma_query_is_exact(node.right_node, right, 1 - axis, query);
            assert(overlapping(tree, query) =~= from_left + from_right);
            assert(left + right =~= sorted);
            lemma_overlapped_adds(left, right, query);
            lemma_overlapped_of_sorted(objs, axis, query);
        }
    }
}

/// A query box that covers the whole scene gets every indexed object back, each
/// as often as it was indexed.
pub proof fn lemma_covering_query_finds_all(
    tree: Option<Box<KDNode>>,
    objs: Seq<ColliderObj>,
    axis: int,
    query: AABB,
)
    requires
        is_kd_tree(tree, objs, axis),
        forall|i: int| 0 <= i < objs.len() ==> (#[trigger] objs[i]).bounding_box.is_proper(),
        forall|i: int| 0 <= i < objs.len() ==> query.covers((#[trigger] objs[i]).bounding_box),
    ensures
        overlapping(tree, query).to_multiset() == entities(objs).to_multiset(),
{
    lemma_query_overlapping_all_finds_all(tree, objs, axis, query);
}

} // verus!
