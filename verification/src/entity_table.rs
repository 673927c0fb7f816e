//! A table with one row per entity.
//!
//! The keys live in the engine's own entity map, which files a row number under each; the rows
//! stand beside it in one sequence. Entities are named by the bits the engine gives them.

use bevy::ecs::entity::{Entity, EntityHashMap};
use vstd::prelude::*;

verus! {

/// The engine's hash map keyed by entity.
#[verifier::external_type_specification]
#[verifier::external_body]
#[verifier::reject_recursive_types(V)]
pub struct ExEntityHashMap<V>(EntityHashMap<V>);

/// What an entity map holds: the number filed under each entity's bits.
pub uninterp spec fn filed(m: EntityHashMap<usize>) -> Map<u64, usize>;

/// Whether a word is the bits of some entity. The engine numbers its entities so that the low
/// half of their bits is never zero, and makes an entity of every other word.
pub open spec fn entity_bits(id: u64) -> bool {
    id % 0x1_0000_0000 != 0
}

/// `EntityHashMap::new`: a new map holds nothing.
#[verifier::external_body]
fn entity_map_new() -> (m: EntityHashMap<usize>)
    ensures
        (filed(m) == Map::<u64, usize>::empty()),
{
    EntityHashMap::new()
}

/// `EntityHashMap::insert`, reached through the map it dereferences to: the number is filed under
/// the entity, whatever stood there before is given back, and no other entity is touched. The
/// entity is rebuilt from its bits by `Entity::from_bits`, which panics on a word whose low half is
/// zero.
#[verifier::external_body]
fn entity_map_insert(m: &mut EntityHashMap<usize>, id: u64, n: usize) -> (was: Option<usize>)
    requires
        entity_bits(id),
    ensures
        filed(*final(m)) == filed(*old(m)).insert(id, n),
        was == if filed(*old(m)).dom().contains(id) {
            Some(filed(*old(m))[id])
        } else {
            None
        },
{
    m.insert(Entity::from_bits(id), n)
}

/// `EntityHashMap::get`, reached through the map it dereferences to: the number filed under the
/// entity, or nothing. The entity is rebuilt from its bits by `Entity::from_bits`, which panics on
/// a word whose low half is zero.
#[verifier::external_body]
fn entity_map_get(m: &EntityHashMap<usize>, id: u64) -> (n: Option<usize>)
    requires
        entity_bits(id),
    ensures
        n == if filed(*m).dom().contains(id) {
            Some(filed(*m)[id])
        } else {
            None
        },
{
    m.get(&Entity::from_bits(id)).copied()
}

/// `EntityHashMap::len`, reached through the map it dereferences to: how many entities have a
/// number filed under them.
#[verifier::external_body]
fn entity_map_len(m: &EntityHashMap<usize>) -> (n: usize)
    ensures
        n == filed(*m).dom().len(),
{
    m.len()
}

/// One row per entity.
#[verifier::reject_recursive_types(T)]
pub struct EntityTable<T> {
    index: EntityHashMap<usize>,
    rows: Vec<T>,
}

impl<T: Copy> EntityTable<T> {
    /// Every number filed is a row's, and no two entities share a row.
    pub closed spec fn wf(&self) -> bool {
        &&& forall|id: u64| #[trigger]
            filed(self.index).dom().contains(id) ==> filed(self.index)[id] < self.rows@.len()
        &&& forall|a: u64, b: u64|
            #![trigger filed(self.index)[a], filed(self.index)[b]]
            filed(self.index).dom().contains(a) && filed(self.index).dom().contains(b) && a != b
                ==> filed(self.index)[a] != filed(self.index)[b]
    }

    /// The row of each entity that has one.
    pub closed spec fn view(&self) -> Map<u64, T> {
        Map::new(
            |id: u64| filed(self.index).dom().contains(id),
            |id: u64| self.rows@[filed(self.index)[id] as int],
        )
    }

    /// A table with no rows.
    pub fn new() -> (t: Self)
        ensures
            t.wf(),
            t@ == Map::<u64, T>::empty(),
    {
        let t = EntityTable { index: entity_map_new(), rows: Vec::new() };
        assert(t@ =~= Map::<u64, T>::empty());
        t
    }

    /// An entity's row.
    pub fn get(&self, id: u64) -> (r: Option<T>)
        requires
            self.wf(),
            entity_bits(id),
        ensures
            r == if self@.dom().contains(id) {
                Some(self@[id])
            } else {
                None
            },
    {
        match entity_map_get(&self.index, id) {
            Some(n) => Some(self.rows[n]),
            None => None,
        }
    }

    /// Set an entity's row, and give back the one it had.
    pub fn put(&mut self, id: u64, row: T) -> (was: Option<T>)
        requires
            old(self).wf(),
            entity_bits(id),
        ensures
            final(self).wf(),
            final(self)@ == old(self)@.insert(id, row),
            was == if old(self)@.dom().contains(id) {
                Some(old(self)@[id])
            } else {
                None
            },
    {
        match entity_map_get(&self.index, id) {
            Some(n) => {
                let was = self.rows[n];
                self.rows.set(n, row);
                assert(self@ =~= old(self)@.insert(id, row));
                Some(was)
            },
            None => {
                let n: usize = self.rows.len();
                entity_map_insert(&mut self.index, id, n);
                self.rows.push(row);
                assert(self@ =~= old(self)@.insert(id, row));
                None
            },
        }
    }

    /// How many entities have a row.
    pub fn len(&self) -> (n: usize)
        requires
            self.wf(),
        ensures
            n == self@.dom().len(),
    {
        assert(self@.dom() =~= filed(self.index).dom());
        entity_map_len(&self.index)
    }

    /// Drop the row of every entity that is not among `seen`.
    pub fn keep_only(&mut self, seen: &Vec<u64>)
        requires
            old(self).wf(),
            forall|i: int| 0 <= i < seen@.len() ==> entity_bits(#[trigger] seen@[i]),
        ensures
            final(self).wf(),
            final(self)@ == old(self)@.restrict(seen@.to_set()),
    {
        let mut kept: EntityTable<T> = EntityTable::new();
        let mut i: usize = 0;
        assert(kept@ =~= self@.restrict(seen@.take(0).to_set()));
        while i < seen.len()
            invariant
                i <= seen@.len(),
                self.wf(),
                self@ == old(self)@,
                kept.wf(),
                forall|j: int| 0 <= j < seen@.len() ==> entity_bits(#[trigger] seen@[j]),
                kept@ == self@.restrict(seen@.take(i as int).to_set()),
            decreases seen@.len() - i,
        {
            let id: u64 = seen[i];
            let ghost before = kept@;
            match self.get(id) {
                Some(row) => {
                    kept.put(id, row);
                },
                None => {},
            }
            proof {
                let prior = seen@.take(i as int);
                let now = seen@.take(i as int + 1);
                assert(now =~= prior.push(id));
                assert forall|x: u64| now.to_set().contains(x) == (prior.to_set().contains(x) || x
                    == id) by {
                    if prior.contains(x) {
                        let j = choose|j: int| 0 <= j < prior.len() && prior[j] == x;
                        assert(now[j] == x);
                    }
                    assert(now[i as int] == id);
                }
                assert(kept@ =~= self@.restrict(now.to_set()));
            }
            i = i + 1;
        }
        assert(seen@.take(seen@.len() as int) =~= seen@);
        *self = kept;
    }
}

} // verus!
