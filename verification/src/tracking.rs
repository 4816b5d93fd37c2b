//! The collision history of a body: whom it touches during the current tick,
//! and whom it touched during the tick before.

use crate::collider::Collider;
use crate::geometry::Point;
use vstd::prelude::*;

verus! {

/// A contact, described by its normal. The normal is carried as a pair of
/// ordinates and never read here.
#[derive(Clone, Copy, Debug, PartialEq, Eq, Structural)]
pub struct Collision {
    pub normal: Point,
}

/// Marks a body that is slowed by the contacts of the previous tick.
#[derive(Clone, Copy, Debug, PartialEq, Eq, Structural)]
pub struct ConstantFriction;

/// The contacts of one tick, keyed by the entity touched.
///
/// This is `bevy::utils::HashMap`, which is the `HashMap` of the `hashbrown` crate
/// with a hasher of Bevy's choice. The verifier does not look inside: it knows
/// the contents only as `contact_entries`, and only from what the three functions
/// below say of the map's methods, which is taken on trust.
#[verifier::external_body]
pub struct ContactMap {
    inner: bevy::utils::HashMap<u64, (i64, i64)>,
}

/// What a `ContactMap` holds: the normal `(x, y)` recorded for each entity.
pub uninterp spec fn contact_entries(map: ContactMap) -> Map<u64, (i64, i64)>;

pub open spec fn no_contacts() -> Map<u64, (i64, i64)> {
    Map::empty()
}

/// `pairs` lists the entries of `entries`, each once, in some order.
pub open spec fn lists_entries(pairs: Seq<(u64, (i64, i64))>, entries: Map<u64, (i64, i64)>) -> bool {
    &&& pairs.no_duplicates()
    &&& forall|entity: u64, normal: (i64, i64)| #[trigger]
        pairs.contains((entity, normal)) <==> entries.contains_pair(entity, normal)
}

/// Calls `HashMap::default`, on trust that the map it gives is empty.
#[verifier::external_body]
fn contact_map_new() -> (map: ContactMap)
    ensures
        contact_entries(map) == no_contacts(),
{
    ContactMap { inner: bevy::utils::HashMap::default() }
}

/// Calls `HashMap::insert`, on trust that afterwards the key is bound to the new
/// value, whether or not it was bound before, and every other key is as it was.
#[verifier::external_body]
fn contact_map_insert(map: &mut ContactMap, entity: u64, normal: (i64, i64))
    ensures
        contact_entries(*final(map)) == contact_entries(*old(map)).insert(entity, normal),
{
    map.inner.insert(entity, normal);
}

/// Calls `HashMap::iter`, on trust that the iterator visits every entry of the
/// map once and nothing else. Nothing is said of the order, which is arbitrary.
#[verifier::external_body]
fn contact_map_pairs(map: &ContactMap) -> (pairs: Vec<(u64, (i64, i64))>)
    ensures
        lists_entries(pairs@, contact_entries(*map)),
{
    map.inner.iter().map(|(entity, normal)| (*entity, *normal)).collect()
}

/// The collision history of a body.
///
/// Contacts and triggers are collected during a tick; `reset` makes them the
/// history of the tick before at the start of the next one. Consumers that need
/// contacts which do not flicker from sub-step to sub-step read the last ones.
pub struct TrackCollision {
    collisions: ContactMap,
    last: ContactMap,
    triggers: Vec<u64>,
    last_triggers: Vec<u64>,
}

/// What a collision history holds.
pub ghost struct TrackedContacts {
    /// The solid contacts of this tick: the normal recorded for each entity.
    pub collisions: Map<u64, (i64, i64)>,
    /// The solid contacts of the tick before.
    pub last: Map<u64, (i64, i64)>,
    /// The triggers touched during this tick, in the order of their first contact.
    pub triggers: Seq<u64>,
    /// The triggers touched during the tick before.
    pub last_triggers: Seq<u64>,
}

impl View for TrackCollision {
    type V = TrackedContacts;

    closed spec fn view(&self) -> TrackedContacts {
        TrackedContacts {
            collisions: contact_entries(self.collisions),
            last: contact_entries(self.last),
            triggers: self.triggers@,
            last_triggers: self.last_triggers@,
        }
    }
}

/// The normal of a contact as the history stores it.
pub open spec fn stored(collision: Collision) -> (i64, i64) {
    (collision.normal.x, collision.normal.y)
}

/// The contacts that `pairs` stand for, in the same order.
pub open spec fn as_contacts(pairs: Seq<(u64, (i64, i64))>) -> Seq<(u64, Collision)> {
    Seq::new(
        pairs.len(),
        |i: int| (pairs[i].0, Collision { normal: Point { x: pairs[i].1.0, y: pairs[i].1.1 } }),
    )
}

/// The normals of `pairs`, in the same order.
pub open spec fn normals(pairs: Seq<(u64, (i64, i64))>) -> Seq<Point> {
    Seq::new(pairs.len(), |i: int| Point { x: pairs[i].1.0, y: pairs[i].1.1 })
}

/// `contacts` lists the entries of `entries` as contacts, each once, in some order.
pub open spec fn lists_contacts(contacts: Seq<(u64, Collision)>, entries: Map<u64, (i64, i64)>) -> bool {
    exists|pairs: Seq<(u64, (i64, i64))>| #[trigger]
        lists_entries(pairs, entries) && contacts == as_contacts(pairs)
}

/// `found` lists the normals of `entries`, one for each entry, in some order.
pub open spec fn lists_normals(found: Seq<Point>, entries: Map<u64, (i64, i64)>) -> bool {
    exists|pairs: Seq<(u64, (i64, i64))>| #[trigger]
        lists_entries(pairs, entries) && found == normals(pairs)
}

fn contacts_of(map: &ContactMap) -> (contacts: Vec<(u64, Collision)>)
    ensures
        lists_contacts(contacts@, contact_entries(*map)),
{
    let pairs = contact_map_pairs(map);
    let mut contacts: Vec<(u64, Collision)> = Vec::new();
    let mut i: usize = 0;
    while i < pairs.len()
        invariant
            i <= pairs.len(),
            contacts.len() == i,
            forall|k: int| 0 <= k < i ==> contacts[k] == as_contacts(pairs@)[k],
        decreases pairs.len() - i,
    {
        let (entity, normal) = pairs[i];
        contacts.push((entity, Collision { normal: Point { x: normal.0, y: normal.1 } }));
        i = i + 1;
    }
    assert(contacts@ =~= as_contacts(pairs@));
    assert(lists_entries(pairs@, contact_entries(*map)));
    contacts
}

impl TrackCollision {
    #[verifier::type_invariant]
    spec fn no_trigger_twice(self) -> bool {
        self.triggers@.no_duplicates() && self.last_triggers@.no_duplicates()
    }

    /// A history without any contact.
    pub fn new() -> (tracker: Self)
        ensures
            tracker@.collisions == no_contacts(),
            tracker@.last == no_contacts(),
            tracker@.triggers.len() == 0,
            tracker@.last_triggers.len() == 0,
    {
        TrackCollision {
            collisions: contact_map_new(),
            last: contact_map_new(),
            triggers: Vec::new(),
            last_triggers: Vec::new(),
        }
    }

    /// Records a contact of this tick with `entity`, whose collider is `other`.
    ///
    /// A contact with a trigger is listed among the triggers, unless it is there
    /// already. Any other contact is recorded as a solid one, in place of an
    /// earlier contact with the same entity.
    pub fn track(&mut self, entity: u64, other: &Collider, collision: Collision)
        ensures
            final(self)@.last == old(self)@.last,
            final(self)@.last_triggers == old(self)@.last_triggers,
            other.trigger ==> {
                &&& final(self)@.collisions == old(self)@.collisions
                &&& final(self)@.triggers == if old(self)@.triggers.contains(entity) {
                    old(self)@.triggers
                } else {
                    old(self)@.triggers.push(entity)
                }
            },
            !other.trigger ==> {
                &&& final(self)@.collisions == old(self)@.collisions.insert(
                    entity,
                    stored(collision),
                )
                &&& final(self)@.triggers == old(self)@.triggers
            },
    {
        proof {
            use_type_invariant(&*self);
        }
        if other.trigger {
            let mut known = false;
            let mut i: usize = 0;
            while i < self.triggers.len()
                invariant
                    i <= self.triggers.len(),
                    known <==> self.triggers@.take(i as int).contains(entity),
                decreases self.triggers.len() - i,
            {
                proof {
                    let seen = self.triggers@.take(i as int);
                    let more = self.triggers@.take(i + 1);
                    assert(more =~= seen.push(self.triggers@[i as int]));
                    if seen.contains(entity) {
                        let k = choose|k: int| 0 <= k < seen.len() && seen[k] == entity;
                        assert(more[k] == entity);
                    }
                    if self.triggers@[i as int] == entity {
                        assert(more[i as int] == entity);
                    }
                }
                if self.triggers[i] == entity {
                    known = true;
                }
                i = i + 1;
            }
            assert(self.triggers@.take(i as int) =~= self.triggers@);
            if !known {
                let mut triggers: Vec<u64> = Vec::new();
                std::mem::swap(&mut self.triggers, &mut triggers);
                triggers.push(entity);
                proof {
                    let before = old(self).triggers@;
                    let after = triggers@;
                    assert forall|a: int, b: int|
                        0 <= a < after.len() && 0 <= b < after.len() && a != b implies after[a]
                        != after[b] by {
                        if a < before.len() && b < before.len() {
                            assert(before[a] != before[b]);
                        } else if a < before.len() {
                            assert(before[a] != entity);
                        } else {
                            assert(before[b] != entity);
                        }
                    }
                }
                self.triggers = triggers;
            }
        } else {
            let mut collisions = contact_map_new();
            std::mem::swap(&mut self.collisions, &mut collisions);
            contact_map_insert(&mut collisions, entity, (collision.normal.x, collision.normal.y));
            self.collisions = collisions;
        }
    }

    /// Starts a new tick: what was collected becomes the history of the tick
    /// before, and collecting starts from nothing.
    pub fn reset(&mut self)
        ensures
            final(self)@.last == old(self)@.collisions,
            final(self)@.collisions == no_contacts(),
            final(self)@.last_triggers == old(self)@.triggers,
            final(self)@.triggers.len() == 0,
    {
        proof {
            use_type_invariant(&*self);
        }
        let mut collected = contact_map_new();
        std::mem::swap(&mut self.collisions, &mut collected);
        self.last = collected;
        let mut fresh: Vec<u64> = Vec::new();
        std::mem::swap(&mut self.triggers, &mut fresh);
        self.last_triggers = fresh;
    }

    /// The solid contacts of this tick, each once, in no particular order.
    pub fn contacts(&self) -> (contacts: Vec<(u64, Collision)>)
        ensures
            lists_contacts(contacts@, self@.collisions),
    {
        contacts_of(&self.collisions)
    }

    /// The solid contacts of the tick before, each once, in no particular order.
    pub fn last_contacts(&self) -> (contacts: Vec<(u64, Collision)>)
        ensures
            lists_contacts(contacts@, self@.last),
    {
        contacts_of(&self.last)
    }

    /// The triggers touched during this tick, each once, in the order of their
    /// first contact.
    pub fn triggers(&self) -> (triggers: &Vec<u64>)
        ensures
            triggers@ == self@.triggers,
            triggers@.no_duplicates(),
    {
        proof {
            use_type_invariant(self);
        }
        &self.triggers
    }

    /// The triggers touched during the tick before.
    pub fn last_triggers(&self) -> (triggers: &Vec<u64>)
        ensures
            triggers@ == self@.last_triggers,
            triggers@.no_duplicates(),
    {
        proof {
            use_type_invariant(self);
        }
        &self.last_triggers
    }

    /// The normals along which friction acts on the body between contacts: for a
    /// body marked with `ConstantFriction` the normal of each solid contact of the
    /// tick before, in no particular order; for any other body none.
    pub fn friction_normals(&self, constant_friction: Option<ConstantFriction>) -> (found: Vec<Point>)
        ensures
            constant_friction is None ==> found@.len() == 0,
            constant_friction is Some ==> lists_normals(found@, self@.last),
    {
        let mut found: Vec<Point> = Vec::new();
        if constant_friction.is_some() {
            let pairs = contact_map_pairs(&self.last);
            let mut i: usize = 0;
            while i < pairs.len()
                invariant
                    i <= pairs.len(),
                    found.len() == i,
                    forall|k: int| 0 <= k < i ==> found[k] == normals(pairs@)[k],
                decreases pairs.len() - i,
            {
                let (_, normal) = pairs[i];
                found.push(Point { x: normal.0, y: normal.1 });
                i = i + 1;
            }
            assert(found@ =~= normals(pairs@));
            assert(lists_entries(pairs@, contact_entries(self.last)));
        }
        found
    }
}

} // verus!
