//! The table of named animation ranges.
use vstd::prelude::*;
use vstd::string::StringSliceAdditionalSpecFns;
use crate::grammar::Anim;

verus! {

/// Whether `a` and `b` hold the same bytes.
pub fn same_bytes(a: &[u8], b: &[u8]) -> (r: bool)
    ensures
        r == (a@ == b@),
{
    if a.len() != b.len() {
        return false;
    }
    let mut i: usize = 0;
    while i < a.len()
        invariant
            a.len() == b.len(),
            i <= a.len(),
            forall|k: int| 0 <= k < i ==> a@[k] == b@[k],
        decreases a.len() - i,
    {
        if a[i] != b[i] {
            return false;
        }
        i += 1;
    }
    assert(a@ =~= b@);
    true
}

/// Whether some entry of `names` is `key`.
pub open spec fn has_name(names: Seq<Vec<u8>>, key: Seq<u8>) -> bool {
    exists|i: int| 0 <= i < names.len() && (#[trigger] names[i])@ == key
}

/// The place of an entry of `names` that is `key`.
pub open spec fn place_of(names: Seq<Vec<u8>>, key: Seq<u8>) -> int {
    choose|i: int| 0 <= i < names.len() && (#[trigger] names[i])@ == key
}

/// The names that occur in `names`.
pub open spec fn name_set(names: Seq<Vec<u8>>) -> Set<Seq<u8>> {
    Set::new(|key: Seq<u8>| has_name(names, key))
}

/// Pairwise different names are as many as their list is long.
proof fn lemma_distinct_names(names: Seq<Vec<u8>>)
    requires
        forall|i: int, j: int|
            0 <= i < j < names.len() ==> (#[trigger] names[i])@ != (#[trigger] names[j])@,
    ensures
        name_set(names).finite(),
        name_set(names).len() == names.len(),
    decreases names.len(),
{
    if names.len() == 0 {
        assert(name_set(names) =~= Set::<Seq<u8>>::empty());
    } else {
        let front = names.drop_last();
        let last = names.last()@;
        assert forall|i: int, j: int| 0 <= i < j < front.len() implies (#[trigger] front[i])@ != (
        #[trigger] front[j])@ by {
            assert(front[i] == names[i] && front[j] == names[j]);
        }
        lemma_distinct_names(front);
        if has_name(front, last) {
            let i = place_of(front, last);
            assert(names[i]@ == names[names.len() - 1]@);
        }
        assert forall|key: Seq<u8>| has_name(names, key) <==> (key == last || has_name(
            front,
            key,
        )) by {
            if has_name(names, key) {
                let i = place_of(names, key);
                if i < front.len() {
                    assert(front[i]@ == key);
                }
            }
            if has_name(front, key) {
                let i = place_of(front, key);
                assert(names[i]@ == key);
            }
            if key == last {
                assert(names[names.len() - 1]@ == key);
            }
        }
        assert(name_set(names) =~= name_set(front).insert(last));
    }
}

/// A map from animation names to ranges, kept as two parallel lists in
/// which no name occurs twice.
#[derive(Debug, Clone, PartialEq, Eq)]
pub struct AnimTable {
    pub names: Vec<Vec<u8>>,
    pub ranges: Vec<Anim>,
}

impl View for AnimTable {
    type V = Map<Seq<u8>, Anim>;

    open spec fn view(&self) -> Map<Seq<u8>, Anim> {
        Map::new(
            |key: Seq<u8>| has_name(self.names@, key),
            |key: Seq<u8>| self.ranges@[place_of(self.names@, key)],
        )
    }
}

impl AnimTable {
    /// The two lists are equally long and the names are pairwise different.
    pub open spec fn wf(&self) -> bool {
        &&& self.names@.len() == self.ranges@.len()
        &&& forall|i: int, j: int|
            0 <= i < j < self.names@.len() ==> (#[trigger] self.names@[i])@ != (
            #[trigger] self.names@[j])@
    }

    pub fn new() -> (t: AnimTable)
        ensures
            t.wf(),
            t@ == Map::<Seq<u8>, Anim>::empty(),
    {
        let t = AnimTable { names: Vec::new(), ranges: Vec::new() };
        assert(t@ =~= Map::<Seq<u8>, Anim>::empty());
        t
    }

    /// The number of names in the table.
    pub fn len(&self) -> (n: usize)
        requires
            self.wf(),
        ensures
            n == self@.len(),
            self@.dom().finite(),
    {
        proof {
            lemma_distinct_names(self.names@);
            assert(self@.dom() =~= name_set(self.names@));
        }
        self.names.len()
    }

    /// The place of `name` among the names, if it is one of them.
    pub fn find(&self, name: &[u8]) -> (r: Option<usize>)
        requires
            self.wf(),
        ensures
            match r {
                Some(i) => i < self.names@.len() && self.names@[i as int]@ == name@,
                None => !has_name(self.names@, name@),
            },
    {
        let mut i: usize = 0;
        while i < self.names.len()
            invariant
                i <= self.names@.len(),
                forall|k: int| 0 <= k < i ==> (#[trigger] self.names@[k])@ != name@,
            decreases self.names@.len() - i,
        {
            if same_bytes(self.names[i].as_slice(), name) {
                return Some(i);
            }
            i += 1;
        }
        None
    }

    /// The range stored under `name`, if there is one.
    pub fn get(&self, name: &str) -> (r: Option<Anim>)
        requires
            self.wf(),
        ensures
            r == if self@.contains_key(name.spec_bytes()) {
                Some(self@[name.spec_bytes()])
            } else {
                None::<Anim>
            },
    {
        match self.find(name.as_bytes()) {
            Some(i) => {
                assert(has_name(self.names@, name.spec_bytes()));
                Some(self.ranges[i])
            },
            None => None,
        }
    }

    /// Stores `range` under `name`, in place of what was stored under it
    /// before.
    pub fn insert(&mut self, name: Vec<u8>, range: Anim)
        requires
            old(self).wf(),
        ensures
            final(self).wf(),
            final(self)@ == old(self)@.insert(name@, range),
    {
        match self.find(name.as_slice()) {
            Some(i) => {
                self.ranges.set(i, range);
                proof {
                    assert(has_name(self.names@, name@));
                    assert forall|key: Seq<u8>| has_name(self.names@, key) implies #[trigger] self@[key]
                        == old(self)@.insert(name@, range)[key] by {
                        let p = place_of(self.names@, key);
                        if key == name@ {
                            assert(p == i);
                        } else {
                            assert(p != i);
                        }
                    }
                    assert(self@ =~= old(self)@.insert(name@, range));
                }
            },
            None => {
                let ghost at_end = self.names@.len() as int;
                self.names.push(name);
                self.ranges.push(range);
                proof {
                    assert(self.names@[at_end]@ == name@);
                    assert(has_name(self.names@, name@));
                    assert forall|key: Seq<u8>| has_name(self.names@, key) <==> (key == name@
                        || has_name(old(self).names@, key)) by {
                        if has_name(self.names@, key) {
                            let p = place_of(self.names@, key);
                            if p < at_end {
                                assert(old(self).names@[p]@ == key);
                            }
                        }
                        if has_name(old(self).names@, key) {
                            let p = place_of(old(self).names@, key);
                            assert(self.names@[p]@ == key);
                        }
                    }
                    assert forall|key: Seq<u8>| has_name(self.names@, key) implies #[trigger] self@[key]
                        == old(self)@.insert(name@, range)[key] by {
                        let p = place_of(self.names@, key);
                        if key == name@ {
                            assert(p == at_end);
                        } else {
                            assert(p < at_end);
                            assert(old(self).names@[p]@ == key);
                            let q = place_of(old(self).names@, key);
                            assert(q == p);
                        }
                    }
                    assert(self@ =~= old(self)@.insert(name@, range));
                }
            },
        }
    }
}

} // verus!
