use vstd::prelude::*;

verus! {

/// One `key -> value` entry of a mapping.
#[derive(Debug)]
pub struct Pair {
    pub key: String,
    pub value: String,
}

/// The mathematical content of a sequence of entries: each entry inserted in
/// order, so that a later entry with the same key wins.
pub open spec fn pairs_to_map(ps: Seq<Pair>) -> Map<Seq<char>, Seq<char>>
    decreases ps.len(),
{
    if ps.len() == 0 {
        Map::<Seq<char>, Seq<char>>::empty()
    } else {
        pairs_to_map(ps.drop_last()).insert(ps.last().key@, ps.last().value@)
    }
}

/// An ordered mapping of string keys to string values, each key held once.
#[derive(Debug)]
pub struct Mapping {
    pub pairs: Vec<Pair>,
}

impl View for Mapping {
    type V = Map<Seq<char>, Seq<char>>;

    open spec fn view(&self) -> Map<Seq<char>, Seq<char>> {
        pairs_to_map(self.pairs@)
    }
}

impl Mapping {
    /// No two entries share a key.
    pub open spec fn wf(self) -> bool {
        forall|i: int, j: int|
            0 <= i < j < self.pairs@.len() ==> self.pairs@[i].key@ != self.pairs@[j].key@
    }

    /// An empty mapping.
    pub fn new() -> (m: Mapping)
        ensures
            m.wf(),
            m@ == Map::<Seq<char>, Seq<char>>::empty(),
            m.pairs@.len() == 0,
    {
        Mapping { pairs: Vec::new() }
    }

    /// How many entries the mapping holds.
    pub fn len(&self) -> (n: usize)
        ensures
            n == self.pairs@.len(),
    {
        self.pairs.len()
    }

    /// The key of the entry at position `i`.
    pub fn key_at(&self, i: usize) -> (k: String)
        requires
            i < self.pairs@.len(),
        ensures
            k@ == self.pairs@[i as int].key@,
    {
        self.pairs[i].key.clone()
    }

    /// The value of the entry at position `i`.
    pub fn value_at(&self, i: usize) -> (v: String)
        requires
            i < self.pairs@.len(),
        ensures
            v@ == self.pairs@[i as int].value@,
    {
        self.pairs[i].value.clone()
    }

    /// Inserts `key -> value`, overwriting the value of an entry that already
    /// holds the same key.
    pub fn insert(&mut self, key: String, value: String)
        requires
            old(self).wf(),
        ensures
            final(self).wf(),
            final(self)@ == old(self)@.insert(key@, value@),
    {
        let n = self.pairs.len();
        let mut i: usize = 0;
        while i < n
            invariant
                self == old(self),
                self.wf(),
                n == self.pairs@.len(),
                i <= n,
                forall|j: int| 0 <= j < i ==> self.pairs@[j].key@ != key@,
            decreases n - i,
        {
            if self.pairs[i].key == key {
                let p = Pair { key, value };
                let ghost ps0 = self.pairs@;
                proof {
                    lemma_pairs_to_map_update(ps0, i as int, p);
                }
                self.pairs.set(i, p);
                proof {
                    assert forall|a: int, b: int|
                        0 <= a < b < self.pairs@.len() implies self.pairs@[a].key@
                        != self.pairs@[b].key@ by {
                        assert(ps0[a].key@ != ps0[b].key@);
                    }
                }
                return ;
            }
            i = i + 1;
        }
        let p = Pair { key, value };
        proof {
            assert(self.pairs@.push(p).drop_last() =~= self.pairs@);
        }
        self.pairs.push(p);
    }

    /// The value held for `key`, when the mapping holds the key.
    pub fn get(&self, key: &String) -> (r: Option<String>)
        requires
            self.wf(),
        ensures
            match r {
                Some(v) => self@.contains_key(key@) && v@ == self@[key@],
                None => !self@.contains_key(key@),
            },
    {
        let n = self.pairs.len();
        let mut i: usize = 0;
        while i < n
            invariant
                self.wf(),
                n == self.pairs@.len(),
                i <= n,
                forall|j: int| 0 <= j < i ==> self.pairs@[j].key@ != key@,
            decreases n - i,
        {
            if self.pairs[i].key == *key {
                proof {
                    lemma_pairs_to_map_index(self.pairs@, i as int);
                }
                return Some(self.pairs[i].value.clone());
            }
            i = i + 1;
        }
        proof {
            lemma_pairs_to_map_absent(self.pairs@, key@);
        }
        None
    }
}

/// Replacing the value of the entry at `i`, keeping its key, is an insert of
/// that key at the map level.
proof fn lemma_pairs_to_map_update(ps: Seq<Pair>, i: int, p: Pair)
    requires
        0 <= i < ps.len(),
        p.key@ == ps[i].key@,
        forall|a: int, b: int| 0 <= a < b < ps.len() ==> ps[a].key@ != ps[b].key@,
    ensures
        pairs_to_map(ps.update(i, p)) == pairs_to_map(ps).insert(p.key@, p.value@),
    decreases ps.len(),
{
    let ups = ps.update(i, p);
    if i == ps.len() - 1 {
        assert(ups.drop_last() =~= ps.drop_last());
        assert(ups.last() == p);
        assert(pairs_to_map(ps).insert(p.key@, p.value@) =~= pairs_to_map(ps.drop_last()).insert(
            p.key@,
            p.value@,
        ));
    } else {
        assert(ups.drop_last() =~= ps.drop_last().update(i, p));
        lemma_pairs_to_map_update(ps.drop_last(), i, p);
        assert(ups.last() == ps.last());
        // the updated key differs from the last entry's key, so the two
        // inserts commute
        assert(ps[i].key@ != ps.last().key@);
        assert(pairs_to_map(ps.drop_last()).insert(p.key@, p.value@).insert(
            ps.last().key@,
            ps.last().value@,
        ) =~= pairs_to_map(ps.drop_last()).insert(ps.last().key@, ps.last().value@).insert(
            p.key@,
            p.value@,
        ));
    }
}

/// With keys held once, the map gives each entry its own value.
proof fn lemma_pairs_to_map_index(ps: Seq<Pair>, i: int)
    requires
        0 <= i < ps.len(),
        forall|a: int, b: int| 0 <= a < b < ps.len() ==> ps[a].key@ != ps[b].key@,
    ensures
        pairs_to_map(ps).contains_key(ps[i].key@),
        pairs_to_map(ps)[ps[i].key@] == ps[i].value@,
    decreases ps.len(),
{
    if i < ps.len() - 1 {
        lemma_pairs_to_map_index(ps.drop_last(), i);
        assert(ps[i].key@ != ps.last().key@);
    }
}

/// A key held by no entry is absent from the map.
proof fn lemma_pairs_to_map_absent(ps: Seq<Pair>, k: Seq<char>)
    requires
        forall|j: int| 0 <= j < ps.len() ==> ps[j].key@ != k,
    ensures
        !pairs_to_map(ps).contains_key(k),
    decreases ps.len(),
{
    if ps.len() > 0 {
        lemma_pairs_to_map_absent(ps.drop_last(), k);
    }
}

} // verus!
