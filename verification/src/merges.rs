//! A table of pairs of strings with a number for each.

use vstd::hash_map::StringHashMap;
use vstd::prelude::*;

verus! {

/// Numbers by pairs of strings: for each left string, the place of a table by right strings.
pub struct MergeTable {
    lefts: StringHashMap<usize>,
    rights: Vec<StringHashMap<u32>>,
}

impl MergeTable {
    /// Each left string has a table of its own.
    pub closed spec fn wf(&self) -> bool {
        &&& forall|l: Seq<char>| #[trigger]
            self.lefts@.contains_key(l) ==> self.lefts@[l] < self.rights@.len()
        &&& forall|l: Seq<char>, k: Seq<char>|
            self.lefts@.contains_key(l) && self.lefts@.contains_key(k) && #[trigger] self.lefts@[l]
                == #[trigger] self.lefts@[k] ==> l == k
    }

    spec fn has(&self, pair: (Seq<char>, Seq<char>)) -> bool {
        self.lefts@.contains_key(pair.0) && self.rights@[self.lefts@[pair.0] as int]@.contains_key(
            pair.1,
        )
    }
}

impl View for MergeTable {
    type V = Map<(Seq<char>, Seq<char>), u32>;

    closed spec fn view(&self) -> Map<(Seq<char>, Seq<char>), u32> {
        Map::new(
            |pair: (Seq<char>, Seq<char>)| self.has(pair),
            |pair: (Seq<char>, Seq<char>)| self.rights@[self.lefts@[pair.0] as int]@[pair.1],
        )
    }
}

impl MergeTable {
    /// An empty table.
    pub fn new() -> (r: Self)
        ensures
            r.wf(),
            r@ == Map::<(Seq<char>, Seq<char>), u32>::empty(),
    {
        let r = MergeTable { lefts: StringHashMap::new(), rights: Vec::new() };
        assert(r@ =~= Map::<(Seq<char>, Seq<char>), u32>::empty());
        r
    }

    /// Sets the number of a pair.
    pub fn insert(&mut self, left: String, right: String, n: u32)
        requires
            old(self).wf(),
        ensures
            final(self).wf(),
            final(self)@ == old(self)@.insert((left@, right@), n),
    {
        let ghost before = *self;
        let at: usize = match self.lefts.get(left.as_str()) {
            Some(at) => *at,
            None => {
                let at = self.rights.len();
                self.rights.push(StringHashMap::new());
                self.lefts.insert(left.clone(), at);
                at
            },
        };
        assert(self@ =~= before@);
        self.rights[at].insert(right, n);
        assert(self@ =~= before@.insert((left@, right@), n));
    }

    /// The number of a pair.
    pub fn get(&self, left: &str, right: &str) -> (r: Option<u32>)
        requires
            self.wf(),
        ensures
            r == if self@.contains_key((left@, right@)) {
                Some(self@[(left@, right@)])
            } else {
                None
            },
    {
        match self.lefts.get(left) {
            Some(at) => match self.rights[*at].get(right) {
                Some(n) => {
                    assert(self.has((left@, right@)));
                    Some(*n)
                },
                None => None,
            },
            None => None,
        }
    }
}

} // verus!
