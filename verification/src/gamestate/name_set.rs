//! Sets of names, kept in the order of their bytes: the order in which strings
//! compare.

use crate::gamestate::players::name_views;
use vstd::prelude::*;
use vstd::utf8::encode_utf8;

verus! {

/// Whether `a` comes before `b` because the two agree on their first `k` bytes
/// and `a` ends there, or has the smaller byte there.
pub open spec fn before_at(a: Seq<u8>, b: Seq<u8>, k: int) -> bool {
    &&& 0 <= k <= a.len()
    &&& k < b.len()
    &&& forall|j: int| 0 <= j < k ==> a[j] == b[j]
    &&& k < a.len() ==> a[k] < b[k]
}

/// Whether `a` comes before `b` in the order of the dictionary.
pub open spec fn bytes_before(a: Seq<u8>, b: Seq<u8>) -> bool {
    exists|k: int| before_at(a, b, k)
}

/// Whether the name `a` comes before the name `b`: names compare as their
/// bytes do.
pub open spec fn name_before(a: Seq<char>, b: Seq<char>) -> bool {
    bytes_before(encode_utf8(a), encode_utf8(b))
}

/// Whether `names` stand in ascending order. No name then stands twice.
pub open spec fn ascending(names: Seq<Seq<char>>) -> bool {
    forall|i: int, j: int| 0 <= i < j < names.len() ==> name_before(names[i], names[j])
}

/// Nothing comes before itself.
pub proof fn lemma_before_irreflexive(a: Seq<u8>)
    ensures
        !bytes_before(a, a),
{
}

/// What comes before something that comes before a third, comes before the
/// third.
pub proof fn lemma_before_transitive(a: Seq<u8>, b: Seq<u8>, c: Seq<u8>)
    requires
        bytes_before(a, b),
        bytes_before(b, c),
    ensures
        bytes_before(a, c),
{
    let k1 = choose|k: int| before_at(a, b, k);
    let k2 = choose|k: int| before_at(b, c, k);
    let k = if k1 <= k2 {
        k1
    } else {
        k2
    };
    assert(before_at(a, c, k));
}

/// Names in ascending order are all different.
pub proof fn lemma_ascending_no_duplicates(names: Seq<Seq<char>>)
    requires
        ascending(names),
    ensures
        names.no_duplicates(),
{
    assert forall|i: int, j: int| 0 <= i < names.len() && 0 <= j < names.len() && i != j implies
        names[i] != names[j] by {
        lemma_before_irreflexive(encode_utf8(names[i]));
        if i < j {
            assert(name_before(names[i], names[j]));
        } else {
            assert(name_before(names[j], names[i]));
        }
    }
}

/// How two names stand to one another.
#[derive(Copy, Clone, Debug, PartialEq, Eq, Structural)]
pub enum NameOrder {
    Before,
    Same,
    After,
}

/// How the name `a` stands to the name `b`.
pub fn order_of(a: &str, b: &str) -> (order: NameOrder)
    ensures
        match order {
            NameOrder::Before => name_before(a@, b@),
            NameOrder::Same => a@ == b@,
            NameOrder::After => name_before(b@, a@),
        },
{
    let left = a.as_bytes();
    let right = b.as_bytes();
    let mut i: usize = 0;
    while i < left.len() && i < right.len()
        invariant
            i <= left@.len(),
            i <= right@.len(),
            left@ == encode_utf8(a@),
            right@ == encode_utf8(b@),
            forall|j: int| 0 <= j < i ==> left@[j] == right@[j],
        decreases left@.len() - i,
    {
        if left[i] < right[i] {
            assert(before_at(left@, right@, i as int));
            return NameOrder::Before;
        }
        if left[i] > right[i] {
            assert(before_at(right@, left@, i as int));
            return NameOrder::After;
        }
        i += 1;
    }
    if left.len() < right.len() {
        assert(before_at(left@, right@, i as int));
        NameOrder::Before
    } else if left.len() > right.len() {
        assert(before_at(right@, left@, i as int));
        NameOrder::After
    } else {
        proof {
            assert(left@ =~= right@);
            vstd::utf8::encode_utf8_decode_utf8(a@);
            vstd::utf8::encode_utf8_decode_utf8(b@);
        }
        NameOrder::Same
    }
}

/// A set of names. The names are kept in ascending order.
#[derive(Debug)]
pub struct NameSet(Vec<String>);

impl View for NameSet {
    type V = Seq<Seq<char>>;

    closed spec fn view(&self) -> Seq<Seq<char>> {
        self.0@.map_values(|name: String| name@)
    }
}

impl Default for NameSet {
    fn default() -> (names: NameSet)
        ensures
            names@ == Seq::<Seq<char>>::empty(),
            names.wf(),
    {
        let names = NameSet(Vec::new());
        assert(names@ =~= Seq::<Seq<char>>::empty());
        names
    }
}

impl NameSet {
    /// The names stand in ascending order.
    pub open spec fn wf(&self) -> bool {
        ascending(self@)
    }

    /// How many names there are.
    pub fn len(&self) -> (n: usize)
        ensures
            n == self@.len(),
    {
        self.0.len()
    }

    /// The name at the place `i`.
    pub fn at(&self, i: usize) -> (name: &str)
        requires
            i < self@.len(),
        ensures
            name@ == self@[i as int],
    {
        self.0[i].as_str()
    }

    /// Where `name` stands, or where it would have to stand.
    fn search(&self, name: &str) -> (place: (usize, bool))
        requires
            self.wf(),
        ensures
            place.0 <= self@.len(),
            place.1 == self@.contains(name@),
            place.1 ==> place.0 < self@.len() && self@[place.0 as int] == name@,
            forall|j: int| 0 <= j < place.0 ==> name_before(#[trigger] self@[j], name@),
            !place.1 ==> forall|j: int|
                place.0 <= j < self@.len() ==> name_before(name@, #[trigger] self@[j]),
    {
        let mut i: usize = 0;
        while i < self.0.len()
            invariant
                i <= self@.len(),
                self.wf(),
                forall|j: int| 0 <= j < i ==> name_before(#[trigger] self@[j], name@),
            decreases self@.len() - i,
        {
            match order_of(self.0[i].as_str(), name) {
                NameOrder::Before => {},
                NameOrder::Same => {
                    assert(self@[i as int] == name@);
                    return (i, true);
                },
                NameOrder::After => {
                    proof {
                        assert forall|j: int| i <= j < self@.len() implies name_before(
                            name@,
                            #[trigger] self@[j],
                        ) by {
                            if i < j {
                                assert(name_before(self@[i as int], self@[j]));
                                lemma_before_transitive(
                                    encode_utf8(name@),
                                    encode_utf8(self@[i as int]),
                                    encode_utf8(self@[j]),
                                );
                            }
                        }
                        self.lemma_absent(name@, i as int);
                    }
                    return (i, false);
                },
            }
            i += 1;
        }
        proof {
            self.lemma_absent(name@, i as int);
        }
        (i, false)
    }

    /// A name that stands between two neighbours is not in the set.
    proof fn lemma_absent(&self, name: Seq<char>, i: int)
        requires
            0 <= i <= self@.len(),
            forall|j: int| 0 <= j < i ==> name_before(#[trigger] self@[j], name),
            forall|j: int| i <= j < self@.len() ==> name_before(name, #[trigger] self@[j]),
        ensures
            !self@.contains(name),
    {
        lemma_before_irreflexive(encode_utf8(name));
        if self@.contains(name) {
            let j = choose|j: int| 0 <= j < self@.len() && self@[j] == name;
            if j < i {
                assert(name_before(self@[j], name));
            } else {
                assert(name_before(name, self@[j]));
            }
        }
    }

    /// Whether `name` is in the set.
    pub fn contains(&self, name: &str) -> (found: bool)
        requires
            self.wf(),
        ensures
            found == self@.contains(name@),
    {
        self.search(name).1
    }

    /// Puts `name` into the set, at its place in the order. Says whether the
    /// name is new: a name that is in the set already changes nothing.
    pub fn insert(&mut self, name: String) -> (new: bool)
        requires
            old(self).wf(),
        ensures
            final(self).wf(),
            new == !old(self)@.contains(name@),
            !new ==> final(self)@ == old(self)@,
            new ==> exists|i: int|
                0 <= i <= old(self)@.len() && final(self)@ == #[trigger] old(self)@.insert(
                    i,
                    name@,
                ),
            forall|other: Seq<char>|
                final(self)@.contains(other) <==> (old(self)@.contains(other) || other == name@),
    {
        let (i, found) = self.search(name.as_str());
        if found {
            return false;
        }
        let ghost letters = name@;
        self.0.insert(i, name);
        proof {
            let before = old(self)@;
            let after = self@;
            assert(after =~= before.insert(i as int, letters));
            assert forall|a: int, b: int| 0 <= a < b < after.len() implies name_before(
                after[a],
                after[b],
            ) by {
                if b < i {
                    assert(name_before(before[a], before[b]));
                } else if b == i {
                    assert(name_before(before[a], letters));
                } else if a < i {
                    assert(name_before(before[a], before[b - 1]));
                } else if a == i {
                    assert(name_before(letters, before[b - 1]));
                } else {
                    assert(name_before(before[a - 1], before[b - 1]));
                }
            }
            assert forall|other: Seq<char>| after.contains(other) <==> (before.contains(other)
                || other == letters) by {
                if before.contains(other) {
                    let j = choose|j: int| 0 <= j < before.len() && before[j] == other;
                    if j < i {
                        assert(after[j] == other);
                    } else {
                        assert(after[j + 1] == other);
                    }
                }
                if other == letters {
                    assert(after[i as int] == other);
                }
                if after.contains(other) {
                    let j = choose|j: int| 0 <= j < after.len() && after[j] == other;
                    if j < i {
                        assert(before[j] == other);
                    } else if j > i {
                        assert(before[j - 1] == other);
                    }
                }
            }
        }
        true
    }

    /// The names, in ascending order.
    pub fn to_vec(&self) -> (names: Vec<String>)
        ensures
            name_views(names@) == self@,
    {
        let mut names: Vec<String> = Vec::new();
        let mut i: usize = 0;
        while i < self.0.len()
            invariant
                i <= self.0.len(),
                names@.len() == i,
                forall|j: int| 0 <= j < i ==> (#[trigger] names@[j])@ == self.0@[j]@,
            decreases self.0.len() - i,
        {
            names.push(self.0[i].clone());
            i += 1;
        }
        assert(name_views(names@) =~= self@);
        names
    }
}

} // verus!
