//! The adjacency structure that the finders fill: which particles lie within
//! reach of which.

use vstd::prelude::*;
use std::collections::{HashMap, HashSet};
use crate::particles::ID;

verus! {

/// A symmetric relation between particle identifiers, stored as one list of
/// neighbours per particle that has any.
///
/// Particles are kept in the order in which they first got a neighbour, and the
/// neighbours of each in the order in which they were added, so that walking
/// the structure gives the same sequence whenever it was filled the same way.
/// The pairs are kept a second time in a set, which tells in one step whether a
/// pair is new.
#[derive(Debug)]
pub struct NeighborMap {
    ids: Vec<ID>,
    lists: Vec<Vec<ID>>,
    index: HashMap<ID, usize>,
    pairs: HashSet<u128>,
}

spec fn pair_key(low: ID, high: ID) -> u128 {
    (low * 0x1_0000_0000_0000_0000 + high) as u128
}

/// `s` with `x` at its end, unless `s` holds `x` already.
pub open spec fn with_once(s: Seq<ID>, x: ID) -> Seq<ID> {
    if s.contains(x) {
        s
    } else {
        s.push(x)
    }
}

impl View for NeighborMap {
    type V = Set<(ID, ID)>;

    /// The relation as a set of ordered pairs: `(a, b)` is in it when `b` is
    /// listed as a neighbour of `a`.
    closed spec fn view(&self) -> Set<(ID, ID)> {
        Set::new(|pair: (ID, ID)| self.neighbor_seq(pair.0).contains(pair.1))
    }
}

impl NeighborMap {
    /// The particles that have at least one neighbour, in stored order.
    pub closed spec fn keys(self) -> Seq<ID> {
        self.ids@
    }

    /// The neighbours of `id` in stored order; empty for a particle without
    /// neighbours and for one that the structure has never seen.
    pub closed spec fn neighbor_seq(self, id: ID) -> Seq<ID> {
        if self.index@.contains_key(id) {
            self.lists@[self.index@[id] as int]@
        } else {
            Seq::empty()
        }
    }

    /// The neighbours of `id` as a set.
    pub open spec fn neighbors(self, id: ID) -> Set<ID> {
        Set::new(|other: ID| self@.contains((id, other)))
    }

    spec fn indexed(self) -> bool {
        &&& self.ids@.len() == self.lists@.len()
        &&& forall|id: ID| #[trigger]
            self.index@.contains_key(id) ==> self.index@[id] < self.ids@.len()
                && self.ids@[self.index@[id] as int] == id
        &&& forall|k: int|
            0 <= k < self.ids@.len() ==> self.index@.contains_key(#[trigger] self.ids@[k])
                && self.index@[self.ids@[k]] == k
        &&& forall|k: int|
            0 <= k < self.lists@.len() ==> (#[trigger] self.lists@[k])@.len() > 0
                && self.lists@[k]@.no_duplicates()
    }

    /// What every value of the type satisfies: the lists agree with the lookup
    /// table, no list is empty or repeats an entry, no particle is its own
    /// neighbour, and whoever lists another is listed by it.
    pub closed spec fn wf(self) -> bool {
        &&& self.indexed()
        &&& forall|a: ID| !(#[trigger] self@.contains((a, a)))
        &&& forall|a: ID, b: ID| #[trigger] self@.contains((a, b)) ==> self@.contains((b, a))
        &&& forall|a: ID, b: ID|
            a < b ==> (self.pairs@.contains(#[trigger] pair_key(a, b)) <==> self@.contains((a, b)))
    }

    proof fn lemma_keys_are_indexed(self, id: ID)
        requires
            self.indexed(),
        ensures
            self.keys().contains(id) <==> self.index@.contains_key(id),
    {
    }

    /// Membership in the relation, read off the stored lists.
    pub proof fn lemma_view_is_listing(self, a: ID, b: ID)
        ensures
            self@.contains((a, b)) <==> self.neighbor_seq(a).contains(b),
            self.neighbors(a).contains(b) <==> self.neighbor_seq(a).contains(b),
            self.neighbors(a) =~= self.neighbor_seq(a).to_set(),
    {
    }

    /// No particle is its own neighbour.
    pub proof fn lemma_no_self_loops(self, id: ID)
        requires
            self.wf(),
        ensures
            !self@.contains((id, id)),
            !self.neighbors(id).contains(id),
            !self.neighbor_seq(id).contains(id),
    {
    }

    /// `b` is a neighbour of `a` exactly when `a` is a neighbour of `b`.
    pub proof fn lemma_symmetric(self, a: ID, b: ID)
        requires
            self.wf(),
        ensures
            self@.contains((a, b)) <==> self@.contains((b, a)),
            self.neighbors(a).contains(b) <==> self.neighbors(b).contains(a),
            self.neighbor_seq(a).contains(b) <==> self.neighbor_seq(b).contains(a),
    {
    }

    /// No list names a neighbour twice, and no particle has two lists: each
    /// ordered pair of the relation is stored exactly once.
    pub proof fn lemma_no_duplicates(self, id: ID)
        requires
            self.wf(),
        ensures
            self.neighbor_seq(id).no_duplicates(),
            self.keys().no_duplicates(),
    {
    }

    /// The particles that the structure lists are those with a neighbour.
    pub proof fn lemma_keys_have_neighbors(self, id: ID)
        requires
            self.wf(),
        ensures
            self.keys().contains(id) <==> self.neighbor_seq(id).len() > 0,
            self.keys().contains(id) <==> exists|other: ID| self@.contains((id, other)),
    {
        if self.index@.contains_key(id) {
            let list = self.lists@[self.index@[id] as int];
            assert(self@.contains((id, list@[0])));
        }
    }

    /// The structure with no pair in it.
    pub fn new() -> (map: NeighborMap)
        ensures
            map.wf(),
            map@ == Set::<(ID, ID)>::empty(),
            map.keys() == Seq::<ID>::empty(),
    {
        let map = NeighborMap {
            ids: Vec::new(),
            lists: Vec::new(),
            index: HashMap::new(),
            pairs: HashSet::new(),
        };
        map
    }

    fn link(&mut self, a: ID, b: ID)
        requires
            old(self).indexed(),
            !old(self).neighbor_seq(a).contains(b),
        ensures
            final(self).indexed(),
            final(self).pairs == old(self).pairs,
            final(self)@ == old(self)@.insert((a, b)),
            final(self).keys() == with_once(old(self).keys(), a),
            final(self).neighbor_seq(a) == old(self).neighbor_seq(a).push(b),
            forall|other: ID|
                other != a ==> final(self).neighbor_seq(other) == old(self).neighbor_seq(other),
    {
        proof {
            old(self).lemma_keys_are_indexed(a);
        }
        let found = self.index.get(&a);
        match found {
            Some(slot) => {
                let k: usize = *slot;
                self.lists[k].push(b);
            },
            None => {
                let k: usize = self.ids.len();
                let mut only: Vec<ID> = Vec::new();
                only.push(b);
                self.ids.push(a);
                self.lists.push(only);
                self.index.insert(a, k);
            },
        }
        proof {
            assert forall|pair: (ID, ID)|
                self@.contains(pair) <==> old(self)@.insert((a, b)).contains(pair) by {
                lemma_push_contains(old(self).neighbor_seq(a), b, pair.1);
            }
        }
    }

    /// Records that `a` and `b` are neighbours of each other. Recording a pair
    /// again changes nothing, and neither does pairing a particle with itself.
    pub fn add_pair(&mut self, a: ID, b: ID)
        requires
            old(self).wf(),
        ensures
            final(self).wf(),
            a != b ==> final(self)@ == old(self)@.insert((a, b)).insert((b, a)),
            a == b ==> final(self)@ == old(self)@,
            final(self).keys() == if a != b {
                with_once(with_once(old(self).keys(), a), b)
            } else {
                old(self).keys()
            },
            forall|id: ID| #[trigger]
                final(self).neighbor_seq(id) == if a != b && id == a {
                    with_once(old(self).neighbor_seq(a), b)
                } else if a != b && id == b {
                    with_once(old(self).neighbor_seq(b), a)
                } else {
                    old(self).neighbor_seq(id)
                },
    {
        if a == b {
            return ;
        }
        let (low, high) = if a < b {
            (a, b)
        } else {
            (b, a)
        };
        let key: u128 = (low as u128) * 0x1_0000_0000_0000_0000 + (high as u128);
        proof {
            self.lemma_view_is_listing(a, b);
            self.lemma_view_is_listing(b, a);
            assert(key == pair_key(low, high));
        }
        if self.pairs.contains(&key) {
            return ;
        }
        self.pairs.insert(key);
        self.link(a, b);
        self.link(b, a);
        proof {
            assert(self@ == old(self)@.insert((a, b)).insert((b, a)));
        }
    }

    /// Number of particles that have a neighbour.
    pub fn len(&self) -> (count: usize)
        requires
            self.wf(),
        ensures
            count == self.keys().len(),
    {
        self.ids.len()
    }

    /// The `k`-th particle that has a neighbour, in stored order.
    pub fn key_at(&self, k: usize) -> (id: ID)
        requires
            self.wf(),
            k < self.keys().len(),
        ensures
            id == self.keys()[k as int],
    {
        self.ids[k]
    }

    /// The neighbours of `id`, each once; empty for a particle that has none or
    /// that the structure has never seen.
    pub fn get_neighbors(&self, id: ID) -> (found: &[ID])
        requires
            self.wf(),
        ensures
            found@ == self.neighbor_seq(id),
            found@.to_set() == self.neighbors(id),
            found@.no_duplicates(),
            !found@.contains(id),
    {
        proof {
            self.lemma_view_is_listing(id, id);
        }
        match self.index.get(&id) {
            Some(slot) => self.lists[*slot].as_slice(),
            None => &[],
        }
    }
}

proof fn lemma_push_contains(s: Seq<ID>, added: ID, sought: ID)
    ensures
        s.push(added).contains(sought) <==> s.contains(sought) || sought == added,
{
    let grown = s.push(added);
    if s.contains(sought) {
        let t = choose|t: int| 0 <= t < s.len() && s[t] == sought;
        assert(grown[t] == sought);
    }
    if sought == added {
        assert(grown[s.len() as int] == sought);
    }
}

impl Default for NeighborMap {
    /// The structure with no pair in it.
    fn default() -> (map: NeighborMap)
        ensures
            map.wf(),
            map@ == Set::<(ID, ID)>::empty(),
            map.keys() == Seq::<ID>::empty(),
    {
        NeighborMap::new()
    }
}

} // verus!
