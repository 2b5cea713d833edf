use vstd::prelude::*;
use std::collections::HashSet;
use crate::coordinate::Coordinates;

verus! {

/// The number under which coordinates are looked up: the row in the upper
/// half of 128 bits, the column in the lower half.
pub open spec fn key_of(coordinates: Coordinates) -> u128 {
    (coordinates.row * 0x1_0000_0000_0000_0000 + coordinates.col) as u128
}

/// Different coordinates are looked up under different numbers.
proof fn lemma_key_injective(first: Coordinates, second: Coordinates)
    requires
        key_of(first) == key_of(second),
    ensures
        first == second,
{
    let high = 0x1_0000_0000_0000_0000int;
    assert(first.row * high + first.col <= u128::MAX && second.row * high + second.col
        <= u128::MAX) by (nonlinear_arith)
        requires
            first.row <= 0xffff_ffff_ffff_ffff,
            first.col <= 0xffff_ffff_ffff_ffff,
            second.row <= 0xffff_ffff_ffff_ffff,
            second.col <= 0xffff_ffff_ffff_ffff,
            high == 0x1_0000_0000_0000_0000,
    ;
    assert(first.row == second.row) by (nonlinear_arith)
        requires
            first.row * high + first.col == second.row * high + second.col,
            first.col < high,
            second.col < high,
            high > 0,
    ;
}

fn key(coordinates: &Coordinates) -> (key: u128)
    ensures
        key == key_of(*coordinates),
{
    let high: u128 = 0x1_0000_0000_0000_0000;
    assert(coordinates.row * high + coordinates.col <= u128::MAX) by (nonlinear_arith)
        requires
            coordinates.row <= 0xffff_ffff_ffff_ffff,
            coordinates.col <= 0xffff_ffff_ffff_ffff,
            high == 0x1_0000_0000_0000_0000,
    ;
    (coordinates.row as u128) * high + (coordinates.col as u128)
}

/// A finite set of coordinates that remembers the order in which its members
/// were added. The members are kept in that order, and the numbers under
/// which they are looked up in a hash set beside them.
#[derive(Debug)]
pub struct CoordinateSet {
    members: Vec<Coordinates>,
    index: HashSet<u128>,
}

impl View for CoordinateSet {
    type V = Set<Coordinates>;

    closed spec fn view(&self) -> Set<Coordinates> {
        self.members@.to_set()
    }
}

impl CoordinateSet {
    #[verifier::type_invariant]
    spec fn indexed(&self) -> bool {
        &&& self.members@.no_duplicates()
        &&& forall|coordinates: Coordinates|
            self.index@.contains(#[trigger] key_of(coordinates)) <==> self.members@.contains(
                coordinates,
            )
    }

    /// The members in the order in which they were added.
    pub closed spec fn order(&self) -> Seq<Coordinates> {
        self.members@
    }

    /// The members are exactly the entries of `order`.
    pub proof fn lemma_order(&self)
        ensures
            self@ == self.order().to_set(),
            self@.finite(),
    {
        vstd::seq_lib::seq_to_set_is_finite(self.members@);
    }

    /// The empty set.
    pub fn new() -> (set: Self)
        ensures
            set@ == Set::<Coordinates>::empty(),
            set.order() == Seq::<Coordinates>::empty(),
            set.order().no_duplicates(),
    {
        let set = CoordinateSet { members: Vec::new(), index: HashSet::new() };
        assert(set.members@.to_set() =~= Set::<Coordinates>::empty());
        set
    }

    /// The number of members.
    pub fn len(&self) -> (count: usize)
        ensures
            self@.finite(),
            count == self@.len(),
            count == self.order().len(),
            self.order().no_duplicates(),
    {
        proof {
            use_type_invariant(self);
            self.members@.unique_seq_to_set();
            vstd::seq_lib::seq_to_set_is_finite(self.members@);
        }
        self.members.len()
    }

    /// Whether the set has no member.
    pub fn is_empty(&self) -> (empty: bool)
        ensures
            empty == (self@ == Set::<Coordinates>::empty()),
    {
        proof {
            if self.members@.len() == 0 {
                assert(self.members@.to_set() =~= Set::<Coordinates>::empty());
            } else {
                assert(self.members@.to_set().contains(self.members@[0]));
            }
        }
        self.members.len() == 0
    }

    /// Whether `coordinates` are a member.
    pub fn contains(&self, coordinates: &Coordinates) -> (found: bool)
        ensures
            found == self@.contains(*coordinates),
    {
        proof {
            use_type_invariant(self);
        }
        let key = key(coordinates);
        self.index.contains(&key)
    }

    /// Adds `coordinates` and tells whether they were new to the set.
    pub fn insert(&mut self, coordinates: Coordinates) -> (added: bool)
        ensures
            final(self)@ == old(self)@.insert(coordinates),
            added == !old(self)@.contains(coordinates),
            final(self).order() == if added {
                old(self).order().push(coordinates)
            } else {
                old(self).order()
            },
            final(self).order().no_duplicates(),
    {
        proof {
            use_type_invariant(&*self);
        }
        if self.contains(&coordinates) {
            assert(self.members@.to_set().insert(coordinates) =~= self.members@.to_set());
            return false;
        }
        let mut taken = CoordinateSet::new();
        std::mem::swap(self, &mut taken);
        let CoordinateSet { mut members, mut index } = taken;
        let ghost before = members@;
        members.push(coordinates);
        index.insert(key(&coordinates));
        proof {
            assert forall|other: Coordinates|
                index@.contains(#[trigger] key_of(other)) <==> members@.contains(other) by {
                if key_of(other) == key_of(coordinates) {
                    lemma_key_injective(other, coordinates);
                    assert(members@[before.len() as int] == other);
                }
                if before.contains(other) {
                    let j = choose|j: int| 0 <= j < before.len() && before[j] == other;
                    assert(members@[j] == other);
                }
                if members@.contains(other) && other != coordinates {
                    let j = choose|j: int| 0 <= j < members@.len() && members@[j] == other;
                    assert(before[j] == other);
                }
            }
            assert(members@.to_set() =~= before.to_set().insert(coordinates)) by {
                assert forall|other: Coordinates|
                    members@.to_set().contains(other) == before.to_set().insert(
                        coordinates,
                    ).contains(other) by {
                    if members@.contains(other) {
                        let j = choose|j: int| 0 <= j < members@.len() && members@[j] == other;
                        if j < before.len() {
                            assert(before[j] == other);
                        }
                    }
                    if before.contains(other) {
                        let j = choose|j: int| 0 <= j < before.len() && before[j] == other;
                        assert(members@[j] == other);
                    }
                    if other == coordinates {
                        assert(members@[before.len() as int] == other);
                    }
                }
            }
        }
        *self = CoordinateSet { members, index };
        true
    }

    /// The members as a vector, in the order in which they were added.
    pub fn to_vec(&self) -> (members: Vec<Coordinates>)
        ensures
            members@ == self.order(),
    {
        let members = self.members.clone();
        assert(members@ =~= self.members@);
        members
    }
}

impl Clone for CoordinateSet {
    fn clone(&self) -> (copy: Self)
        ensures
            copy@ == self@,
            copy.order() == self.order(),
            copy.order().no_duplicates(),
    {
        proof {
            use_type_invariant(self);
        }
        let mut copy = CoordinateSet::new();
        let mut i: usize = 0;
        while i < self.members.len()
            invariant
                i <= self.members@.len(),
                self.members@.no_duplicates(),
                copy.order() == self.members@.subrange(0, i as int),
            decreases self.members@.len() - i,
        {
            proof {
                copy.lemma_order();
                let upto = self.members@.subrange(0, i as int);
                if upto.contains(self.members@[i as int]) {
                    let j = choose|j: int| 0 <= j < upto.len() && upto[j] == self.members@[i as int];
                    assert(self.members@[j] == self.members@[i as int]);
                }
                assert(self.members@.subrange(0, i + 1) =~= upto.push(self.members@[i as int]));
            }
            copy.insert(self.members[i]);
            i += 1;
        }
        proof {
            assert(self.members@.subrange(0, i as int) =~= self.members@);
            copy.lemma_order();
        }
        copy
    }
}

} // verus!
