//! The crate-name to version mapping handed from the resolver to the rewriter.
use vstd::prelude::*;

verus! {

/// Whether no key occurs twice in a list of keyed entries.
pub open spec fn unique_keys<V>(s: Seq<(Seq<char>, V)>) -> bool {
    forall|i: int, j: int| 0 <= i < j < s.len() ==> s[i].0 != s[j].0
}

/// The map described by an association list; a later entry wins over an earlier one.
pub open spec fn pairs_to_map(s: Seq<(Seq<char>, Seq<char>)>) -> Map<Seq<char>, Seq<char>>
    decreases s.len(),
{
    if s.len() == 0 {
        Map::empty()
    } else {
        pairs_to_map(s.drop_last()).insert(s.last().0, s.last().1)
    }
}

/// On an association list with unique keys, every entry is in the map and
/// every key of the map comes from an entry.
pub proof fn lemma_pairs_to_map(s: Seq<(Seq<char>, Seq<char>)>)
    requires
        unique_keys(s),
    ensures
        forall|i: int|
            0 <= i < s.len() ==> #[trigger] pairs_to_map(s).contains_key(s[i].0) && pairs_to_map(
                s,
            )[s[i].0] == s[i].1,
        forall|k: Seq<char>|
            #[trigger] pairs_to_map(s).contains_key(k) ==> exists|i: int|
                0 <= i < s.len() && s[i].0 == k,
        pairs_to_map(s).dom().finite(),
        pairs_to_map(s).len() == s.len(),
    decreases s.len(),
{
    if s.len() > 0 {
        let init = s.drop_last();
        assert(unique_keys(init));
        lemma_pairs_to_map(init);
        assert forall|k: Seq<char>| #[trigger] pairs_to_map(s).contains_key(k) implies exists|i: int|
            0 <= i < s.len() && s[i].0 == k by {
            if k != s.last().0 {
                let i = choose|i: int| 0 <= i < init.len() && init[i].0 == k;
                assert(s[i].0 == k);
            } else {
                assert(s[s.len() - 1].0 == k);
            }
        }
        assert forall|i: int| 0 <= i < s.len() implies #[trigger] pairs_to_map(s).contains_key(s[i].0)
            && pairs_to_map(s)[s[i].0] == s[i].1 by {
            if i < s.len() - 1 {
                assert(init[i] == s[i]);
                assert(s[i].0 != s[s.len() - 1].0);
            }
        }
        assert(!pairs_to_map(init).contains_key(s.last().0)) by {
            if pairs_to_map(init).contains_key(s.last().0) {
                let i = choose|i: int| 0 <= i < init.len() && init[i].0 == s.last().0;
                assert(s[i].0 == s[s.len() - 1].0);
            }
        }
    }
}

/// Replacing the version of one entry of a list with unique keys updates its map.
pub proof fn lemma_update_pairs(s: Seq<(Seq<char>, Seq<char>)>, i: int, v: Seq<char>)
    requires
        unique_keys(s),
        0 <= i < s.len(),
    ensures
        unique_keys(s.update(i, (s[i].0, v))),
        pairs_to_map(s.update(i, (s[i].0, v))) == pairs_to_map(s).insert(s[i].0, v),
{
    let t = s.update(i, (s[i].0, v));
    assert(unique_keys(t));
    lemma_pairs_to_map(s);
    lemma_pairs_to_map(t);
    let m = pairs_to_map(s).insert(s[i].0, v);
    assert forall|k: Seq<char>| #[trigger] pairs_to_map(t).contains_key(k) <==> m.contains_key(k) by {
        if pairs_to_map(t).contains_key(k) {
            let j = choose|j: int| 0 <= j < t.len() && t[j].0 == k;
            assert(s[j].0 == k);
        }
        if m.contains_key(k) && k != s[i].0 {
            let j = choose|j: int| 0 <= j < s.len() && s[j].0 == k;
            assert(t[j].0 == k);
        }
        if k == s[i].0 {
            assert(t[i].0 == k);
        }
    }
    assert forall|k: Seq<char>| #[trigger] pairs_to_map(t).contains_key(k) implies pairs_to_map(t)[k]
        == m[k] by {
        let j = choose|j: int| 0 <= j < t.len() && t[j].0 == k;
        if j != i {
            assert(s[j].0 == k);
        }
    }
    assert(pairs_to_map(t) =~= m);
}

/// The position of the entry named `name`, if there is one.
fn entry_position(entries: &Vec<(String, String)>, name: &String) -> (r: Option<usize>)
    ensures
        match r {
            Some(i) => i < entries@.len() && entries@[i as int].0@ == name@,
            None => forall|j: int| 0 <= j < entries@.len() ==> entries@[j].0@ != name@,
        },
{
    let mut i: usize = 0;
    while i < entries.len()
        invariant
            i <= entries@.len(),
            forall|j: int| 0 <= j < i ==> entries@[j].0@ != name@,
        decreases entries@.len() - i,
    {
        if entries[i].0 == *name {
            return Some(i);
        }
        i = i + 1;
    }
    None
}

/// An ordered mapping from crate names to the versions they should be set to.
///
/// Names are unique, no version is empty, and entries are kept in the order in
/// which they were first added.
pub struct VersionMapping {
    entries: Vec<(String, String)>,
}

impl View for VersionMapping {
    type V = Map<Seq<char>, Seq<char>>;

    closed spec fn view(&self) -> Map<Seq<char>, Seq<char>> {
        pairs_to_map(self.pairs())
    }
}

impl VersionMapping {
    /// The entries as (name, version) pairs, in order.
    pub closed spec fn pairs(&self) -> Seq<(Seq<char>, Seq<char>)> {
        self.entries@.map_values(|p: (String, String)| (p.0@, p.1@))
    }

    #[verifier::type_invariant]
    spec fn inv(&self) -> bool {
        unique_keys(self.pairs()) && forall|i: int|
            0 <= i < self.pairs().len() ==> (#[trigger] self.pairs()[i]).1.len() > 0
    }

    /// Facts that tie the ordered entries to the map view.
    proof fn lemma_view(&self)
        requires
            unique_keys(self.pairs()),
        ensures
            unique_keys(self.pairs()),
            self@.dom().finite(),
            self@.len() == self.pairs().len(),
            forall|i: int|
                0 <= i < self.pairs().len() ==> #[trigger] self@.contains_key(self.pairs()[i].0)
                    && self@[self.pairs()[i].0] == self.pairs()[i].1,
            forall|k: Seq<char>|
                #[trigger] self@.contains_key(k) ==> exists|i: int|
                    0 <= i < self.pairs().len() && self.pairs()[i].0 == k,
    {
        lemma_pairs_to_map(self.pairs());
    }

    /// An empty mapping.
    pub fn new() -> (r: VersionMapping)
        ensures
            r@ == Map::<Seq<char>, Seq<char>>::empty(),
            r.pairs().len() == 0,
    {
        let r = VersionMapping { entries: Vec::new() };
        assert(r.pairs() =~= Seq::empty());
        r
    }

    /// The number of names in the mapping.
    pub fn len(&self) -> (r: usize)
        ensures
            r == self@.len(),
    {
        proof {
            use_type_invariant(self);
            self.lemma_view();
        }
        self.entries.len()
    }

    /// Whether the mapping holds no names.
    pub fn is_empty(&self) -> (r: bool)
        ensures
            r == (self@.len() == 0),
    {
        self.len() == 0
    }

    /// The version that `name` maps to.
    pub fn get(&self, name: &str) -> (r: Option<&String>)
        ensures
            match r {
                Some(v) => self@.contains_key(name@) && self@[name@] == v@ && v@.len() > 0,
                None => !self@.contains_key(name@),
            },
    {
        proof {
            use_type_invariant(self);
            self.lemma_view();
        }
        let key = name.to_owned();
        match entry_position(&self.entries, &key) {
            Some(i) => {
                assert(self.pairs()[i as int].0 == name@);
                assert(self@.contains_key(self.pairs()[i as int].0));
                assert(self.pairs()[i as int].1 == self.entries@[i as int].1@);
                assert(self.pairs()[i as int].1.len() > 0);
                Some(&self.entries[i].1)
            },
            None => {
                assert forall|j: int| 0 <= j < self.pairs().len() implies self.pairs()[j].0 != name@ by {
                    assert(self.entries@[j].0@ != name@);
                }
                None
            },
        }
    }

    /// Whether `name` has a version in the mapping.
    pub fn contains_key(&self, name: &str) -> (r: bool)
        ensures
            r == self@.contains_key(name@),
    {
        self.get(name).is_some()
    }

    /// Sets the version of `name`, replacing any version it had.
    pub fn insert(&mut self, name: String, version: String)
        requires
            version@.len() > 0,
        ensures
            final(self)@ == old(self)@.insert(name@, version@),
    {
        proof {
            use_type_invariant(&*self);
            self.lemma_view();
        }
        let ghost before = self.pairs();
        let mut taken = VersionMapping::new();
        std::mem::swap(self, &mut taken);
        let mut entries = taken.entries;
        assert(entries@.map_values(|p: (String, String)| (p.0@, p.1@)) == before);
        match entry_position(&entries, &name) {
            Some(i) => {
                entries.set(i, (name, version));
                proof {
                    let after = entries@.map_values(|p: (String, String)| (p.0@, p.1@));
                    assert(after =~= before.update(i as int, (name@, version@)));
                    lemma_update_pairs(before, i as int, version@);
                    assert forall|j: int| 0 <= j < after.len() implies (#[trigger] after[j]).1.len() > 0 by {
                        if j != i {
                            assert(after[j] == before[j]);
                        }
                    }
                }
            },
            None => {
                entries.push((name, version));
                proof {
                    let after = entries@.map_values(|p: (String, String)| (p.0@, p.1@));
                    assert(after =~= before.push((name@, version@)));
                    assert(after.drop_last() =~= before);
                    assert forall|j: int| 0 <= j < after.len() implies (#[trigger] after[j]).1.len() > 0 by {
                        if j < before.len() {
                            assert(after[j] == before[j]);
                        }
                    }
                    assert(unique_keys(after)) by {
                        assert forall|j: int| 0 <= j < before.len() implies before[j].0 != name@ by {
                            assert(pairs_to_map(before).contains_key(before[j].0));
                        }
                    }
                }
            },
        }
        *self = VersionMapping { entries };
    }
}

} // verus!
