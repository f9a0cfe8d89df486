//! A set of node names, kept as a vector of distinct strings.
use vstd::prelude::*;

verus! {

pub open spec fn string_views(items: Seq<String>) -> Seq<Seq<char>> {
    items.map_values(|s: String| s@)
}

/// The names that a traversal has already reached.
pub struct NameSet {
    items: Vec<String>,
}

impl View for NameSet {
    type V = Set<Seq<char>>;

    closed spec fn view(&self) -> Set<Seq<char>> {
        string_views(self.items@).to_set()
    }
}

impl NameSet {
    pub closed spec fn wf(&self) -> bool {
        string_views(self.items@).no_duplicates()
    }

    /// The number of names held.
    pub closed spec fn size(&self) -> nat {
        self.items@.len()
    }

    pub proof fn lemma_size(&self)
        requires
            self.wf(),
        ensures
            self@.finite(),
            self@.len() == self.size(),
            self.size() <= usize::MAX,
    {
        string_views(self.items@).unique_seq_to_set();
        assert(self.items.len() == self.items@.len());
    }

    /// The name at position `i`, in the order of insertion.
    pub closed spec fn item(&self, i: int) -> Seq<char> {
        self.items@[i]@
    }

    pub proof fn lemma_items(&self)
        ensures
            forall|i: int| 0 <= i < self.size() ==> self@.contains(#[trigger] self.item(i)),
            forall|v: Seq<char>|
                self@.contains(v) ==> exists|i: int| 0 <= i < self.size() && #[trigger] self.item(i)
                    == v,
    {
        assert forall|i: int| 0 <= i < self.size() implies self@.contains(#[trigger] self.item(i)) by {
            assert(string_views(self.items@)[i] == self.item(i));
        }
        assert forall|v: Seq<char>| self@.contains(v) implies exists|i: int|
            0 <= i < self.size() && #[trigger] self.item(i) == v by {
            let i = choose|i: int|
                0 <= i < string_views(self.items@).len() && string_views(self.items@)[i] == v;
            assert(self.item(i) == v);
        }
    }

    pub fn len(&self) -> (n: usize)
        ensures
            n == self.size(),
    {
        self.items.len()
    }

    pub fn get(&self, i: usize) -> (r: &String)
        requires
            i < self.size(),
        ensures
            r@ == self.item(i as int),
    {
        &self.items[i]
    }

    pub fn new() -> (r: NameSet)
        ensures
            r.wf(),
            r@ == Set::<Seq<char>>::empty(),
            r.size() == 0,
    {
        let r = NameSet { items: Vec::new() };
        assert(r@ =~= Set::<Seq<char>>::empty());
        r
    }

    pub fn contains(&self, name: &String) -> (r: bool)
        requires
            self.wf(),
        ensures
            r == self@.contains(name@),
    {
        let mut i: usize = 0;
        while i < self.items.len()
            invariant
                i <= self.items@.len(),
                forall|j: int| 0 <= j < i ==> self.items@[j]@ != name@,
            decreases self.items@.len() - i,
        {
            if self.items[i] == *name {
                assert(string_views(self.items@)[i as int] == name@);
                return true;
            }
            i = i + 1;
        }
        proof {
            if self@.contains(name@) {
                let j = choose|j: int|
                    0 <= j < self.items@.len() && string_views(self.items@)[j] == name@;
                assert(self.items@[j]@ == name@);
            }
        }
        false
    }

    /// Adds a name that the set does not hold yet.
    pub fn insert(&mut self, name: String)
        requires
            old(self).wf(),
            !old(self)@.contains(name@),
        ensures
            final(self).wf(),
            final(self)@ == old(self)@.insert(name@),
            final(self).size() == old(self).size() + 1,
    {
        let ghost name_view = name@;
        self.items.push(name);
        let ghost before = string_views(old(self).items@);
        let ghost after = string_views(self.items@);
        assert(after =~= before.push(name_view));
        assert forall|v: Seq<char>| after.contains(v) <==> before.contains(v) || v == name_view by {
            if after.contains(v) {
                let j = choose|j: int| 0 <= j < after.len() && after[j] == v;
                if j < before.len() {
                    assert(before[j] == v);
                }
            }
            if before.contains(v) {
                let j = choose|j: int| 0 <= j < before.len() && before[j] == v;
                assert(after[j] == v);
            }
            if v == name_view {
                assert(after[before.len() as int] == v);
            }
        }
        assert(self@ =~= old(self)@.insert(name_view));
    }
}

} // verus!
