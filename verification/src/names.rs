//! Sorted collections of names.

use vstd::prelude::*;
use crate::bytes::{
    comes_before, lemma_precedes_irreflexive, lemma_precedes_total, lemma_precedes_transitive,
    precedes,
};
use crate::text::{same_text, utf8};
use crate::types::texts_of;

verus! {

/// Whether the names are in strictly ascending lexicographic order: sorted, and none twice.
pub open spec fn strictly_sorted(names: Seq<Seq<u8>>) -> bool {
    forall|i: int, j: int|
        0 <= i < j < names.len() ==> precedes(#[trigger] names[i], #[trigger] names[j])
}

/// Two strictly sorted sequences of the same names are the same.
pub proof fn lemma_sorted_unique(a: Seq<Seq<u8>>, b: Seq<Seq<u8>>)
    requires
        strictly_sorted(a),
        strictly_sorted(b),
        forall|name: Seq<u8>| #[trigger] a.contains(name) <==> b.contains(name),
    ensures
        a == b,
    decreases a.len(),
{
    if a.len() == 0 {
        if b.len() > 0 {
            assert(b.contains(b[0]));
            assert(a.contains(b[0]));
        }
        assert(a =~= b);
    } else {
        assert(a.contains(a[0]));
        assert(b.contains(a[0]));
        let k = choose|k: int| 0 <= k < b.len() && b[k] == a[0];
        assert(b.contains(b[0]));
        assert(a.contains(b[0]));
        let l = choose|l: int| 0 <= l < a.len() && a[l] == b[0];
        if k > 0 {
            assert(precedes(b[0], b[k]));
            if l > 0 {
                assert(precedes(a[0], a[l]));
                lemma_precedes_transitive(a[0], b[0], a[0], 0);
            }
            lemma_precedes_irreflexive(a[0], 0);
        }
        assert(a[0] == b[0]);
        let ra = a.skip(1);
        let rb = b.skip(1);
        assert forall|name: Seq<u8>| #[trigger] ra.contains(name) <==> rb.contains(name) by {
            lemma_precedes_irreflexive(a[0], 0);
            if ra.contains(name) {
                let i = choose|i: int| 0 <= i < ra.len() && ra[i] == name;
                assert(a[i + 1] == name);
                assert(precedes(a[0], a[i + 1]));
                assert(a.contains(name));
                let j = choose|j: int| 0 <= j < b.len() && b[j] == name;
                assert(rb[j - 1] == name);
            }
            if rb.contains(name) {
                let i = choose|i: int| 0 <= i < rb.len() && rb[i] == name;
                assert(b[i + 1] == name);
                assert(precedes(b[0], b[i + 1]));
                assert(b.contains(name));
                assert(a.contains(name));
                let j = choose|j: int| 0 <= j < a.len() && a[j] == name;
                assert(ra[j - 1] == name);
            }
        }
        assert forall|i: int, j: int| 0 <= i < j < ra.len() implies precedes(
            #[trigger] ra[i],
            #[trigger] ra[j],
        ) by {
            assert(precedes(a[i + 1], a[j + 1]));
        }
        assert forall|i: int, j: int| 0 <= i < j < rb.len() implies precedes(
            #[trigger] rb[i],
            #[trigger] rb[j],
        ) by {
            assert(precedes(b[i + 1], b[j + 1]));
        }
        lemma_sorted_unique(ra, rb);
        assert(a =~= seq![a[0]] + ra);
        assert(b =~= seq![b[0]] + rb);
    }
}

/// The number of names at the front that come before `name`.
fn lower_bound(names: &Vec<String>, name: &str) -> (index: usize)
    requires
        strictly_sorted(texts_of(names@)),
    ensures
        index <= names@.len(),
        forall|j: int| 0 <= j < index ==> precedes(#[trigger] texts_of(names@)[j], utf8(name@)),
        forall|j: int|
            index <= j < names@.len() ==> !precedes(#[trigger] texts_of(names@)[j], utf8(name@)),
{
    let mut low: usize = 0;
    let mut high: usize = names.len();
    let ghost listed = texts_of(names@);
    while low < high
        invariant
            low <= high <= names@.len(),
            listed == texts_of(names@),
            strictly_sorted(listed),
            forall|j: int| 0 <= j < low ==> precedes(#[trigger] listed[j], utf8(name@)),
            forall|j: int|
                high <= j < names@.len() ==> !precedes(#[trigger] listed[j], utf8(name@)),
        decreases high - low,
    {
        let middle: usize = low + (high - low) / 2;
        assert(listed[middle as int] == utf8(names@[middle as int]@));
        if comes_before(names[middle].as_str().as_bytes(), name.as_bytes()) {
            proof {
                assert forall|j: int| 0 <= j < middle + 1 implies precedes(
                    #[trigger] listed[j],
                    utf8(name@),
                ) by {
                    if j < middle {
                        lemma_precedes_transitive(listed[j], listed[middle as int], utf8(name@), 0);
                    }
                }
            }
            low = middle + 1;
        } else {
            proof {
                assert forall|j: int| middle <= j < names@.len() implies !precedes(
                    #[trigger] listed[j],
                    utf8(name@),
                ) by {
                    if j > middle && precedes(listed[j], utf8(name@)) {
                        lemma_precedes_transitive(listed[middle as int], listed[j], utf8(name@), 0);
                    }
                }
            }
            high = middle;
        }
    }
    low
}

/// A set of names, kept in strictly ascending order.
pub struct NameSet {
    names: Vec<String>,
}

impl NameSet {
    /// The names of the set, in order.
    pub closed spec fn listed(self) -> Seq<Seq<u8>> {
        texts_of(self.names@)
    }

    pub open spec fn well_formed(self) -> bool {
        strictly_sorted(self.listed())
    }

    pub open spec fn has(self, name: Seq<u8>) -> bool {
        self.listed().contains(name)
    }

    pub fn new() -> (set: Self)
        ensures
            set.well_formed(),
            forall|name: Seq<u8>| !#[trigger] set.has(name),
    {
        NameSet { names: Vec::new() }
    }

    /// The position of a name, where it is in the set.
    fn position(&self, name: &str) -> (found: (bool, usize))
        requires
            self.well_formed(),
        ensures
            found.0 == self.has(utf8(name@)),
            found.1 <= self.names@.len(),
            forall|j: int|
                0 <= j < found.1 ==> precedes(#[trigger] self.listed()[j], utf8(name@)),
            !found.0 ==> forall|j: int|
                found.1 <= j < self.names@.len() ==> precedes(
                    utf8(name@),
                    #[trigger] self.listed()[j],
                ),
    {
        let index: usize = lower_bound(&self.names, name);
        let ghost listed = self.listed();
        let ghost key = utf8(name@);
        if index < self.names.len() && same_text(self.names[index].as_str(), name) {
            assert(listed[index as int] == key);
            return (true, index);
        }
        proof {
            assert forall|j: int| index <= j < listed.len() implies precedes(
                key,
                #[trigger] listed[j],
            ) by {
                if !precedes(key, listed[index as int]) {
                    assert(listed[index as int].take(0) =~= key.take(0));
                    lemma_precedes_total(listed[index as int], key, 0);
                    assert(listed[index as int] == utf8(self.names@[index as int]@));
                }
                if j > index {
                    lemma_precedes_transitive(key, listed[index as int], listed[j], 0);
                }
            }
            if self.has(key) {
                let j = choose|j: int| 0 <= j < listed.len() && listed[j] == key;
                lemma_precedes_irreflexive(key, 0);
                assert(j < index || j >= index);
            }
        }
        (false, index)
    }

    pub fn contains(&self, name: &str) -> (found: bool)
        requires
            self.well_formed(),
        ensures
            found == self.has(utf8(name@)),
    {
        self.position(name).0
    }

    /// Adds a name, if it is not in the set yet.
    pub fn insert(&mut self, name: String)
        requires
            old(self).well_formed(),
        ensures
            final(self).well_formed(),
            forall|other: Seq<u8>|
                #[trigger] final(self).has(other) <==> old(self).has(other) || other == utf8(name@),
    {
        let (present, index) = self.position(name.as_str());
        let ghost before = self.listed();
        let ghost key = utf8(name@);
        if !present {
            self.names.insert(index, name);
            proof {
                let after = self.listed();
                assert(after =~= before.insert(index as int, key));
                assert forall|other: Seq<u8>| #[trigger] after.contains(other) <==> before.contains(
                    other,
                ) || other == key by {
                    if before.contains(other) {
                        let j = choose|j: int| 0 <= j < before.len() && before[j] == other;
                        if j < index {
                            assert(after[j] == other);
                        } else {
                            assert(after[j + 1] == other);
                        }
                    }
                    if other == key {
                        assert(after[index as int] == key);
                    }
                    if after.contains(other) && other != key {
                        let j = choose|j: int| 0 <= j < after.len() && after[j] == other;
                        if j < index {
                            assert(before[j] == other);
                        } else {
                            assert(before[j - 1] == other);
                        }
                    }
                }
                assert forall|i: int, j: int| 0 <= i < j < after.len() implies precedes(
                    #[trigger] after[i],
                    #[trigger] after[j],
                ) by {
                    if j < index {
                        assert(precedes(before[i], before[j]));
                    } else if j == index {
                        assert(precedes(before[i], key));
                    } else if i < index {
                        assert(precedes(before[i], before[j - 1]));
                    } else if i == index {
                        assert(precedes(key, before[j - 1]));
                    } else {
                        assert(precedes(before[i - 1], before[j - 1]));
                    }
                }
            }
        }
    }

    /// The names in ascending order.
    pub fn into_names(self) -> (names: Vec<String>)
        ensures
            texts_of(names@) == self.listed(),
    {
        self.names
    }
}

/// The names in ascending order, each once.
pub fn sorted_unique(names: Vec<String>) -> (sorted: Vec<String>)
    ensures
        strictly_sorted(texts_of(sorted@)),
        forall|name: Seq<u8>|
            #[trigger] texts_of(sorted@).contains(name) <==> texts_of(names@).contains(name),
{
    let mut set = NameSet::new();
    let mut i: usize = 0;
    let ghost all = texts_of(names@);
    assert(all.take(0) =~= Seq::<Seq<u8>>::empty());
    while i < names.len()
        invariant
            i <= names@.len(),
            all == texts_of(names@),
            set.well_formed(),
            forall|name: Seq<u8>| #[trigger] set.has(name) <==> all.take(i as int).contains(name),
        decreases names@.len() - i,
    {
        let name: String = names[i].clone();
        assert(all[i as int] == utf8(name@));
        set.insert(name);
        proof {
            let before = all.take(i as int);
            let after = all.take(i + 1);
            assert(after =~= before.push(all[i as int]));
            assert forall|other: Seq<u8>| #[trigger] set.has(other) <==> after.contains(other) by {
                if before.contains(other) {
                    let j = choose|j: int| 0 <= j < before.len() && before[j] == other;
                    assert(after[j] == other);
                }
                if other == all[i as int] {
                    assert(after[i as int] == other);
                }
                if after.contains(other) && other != all[i as int] {
                    let j = choose|j: int| 0 <= j < after.len() && after[j] == other;
                    assert(before[j] == other);
                }
            }
        }
        i += 1;
    }
    assert(all.take(i as int) =~= all);
    let sorted: Vec<String> = set.into_names();
    proof {
        assert forall|name: Seq<u8>| #[trigger] texts_of(sorted@).contains(name) <==> texts_of(
            names@,
        ).contains(name) by {
            assert(set.has(name) <==> texts_of(sorted@).contains(name));
        }
    }
    sorted
}

} // verus!
