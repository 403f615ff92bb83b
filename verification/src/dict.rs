//! String interning over an `ahash` hash map.

use vstd::prelude::*;

use crate::event::string_list_view;

verus! {

/// The `ahash` hash map, declared so that it can be held in verified code.
#[verifier::external_type_specification]
#[verifier::external_body]
#[verifier::reject_recursive_types(K)]
#[verifier::reject_recursive_types(V)]
#[verifier::reject_recursive_types(S)]
pub struct ExAHashMap<K, V, S>(ahash::AHashMap<K, V, S>);

/// The random hasher state of `ahash` maps.
#[verifier::external_type_specification]
#[verifier::external_body]
pub struct ExRandomState(ahash::RandomState);

/// A hash index from strings to ids.
pub type StringIndex = ahash::AHashMap<String, u32>;

/// What a string-keyed index holds: each key, by its characters, mapped to
/// its value.
pub uninterp spec fn string_index_contents(m: StringIndex) -> Map<Seq<char>, u32>;

/// `AHashMap::new`: a fresh map holds nothing.
#[verifier::external_body]
fn string_index_new() -> (fresh: StringIndex)
    ensures
        string_index_contents(fresh).dom() == Set::<Seq<char>>::empty(),
{
    ahash::AHashMap::new()
}

/// `AHashMap::get`: the value stored under the key with the characters of
/// `k`, if there is one.
#[verifier::external_body]
fn string_index_get(m: &StringIndex, k: &str) -> (r: Option<u32>)
    ensures
        r == (if string_index_contents(*m).contains_key(k@) {
            Some(string_index_contents(*m)[k@])
        } else {
            None::<u32>
        }),
{
    m.get(k).copied()
}

/// `AHashMap::insert`: afterwards `k` maps to `v` and every other key keeps
/// its value.
#[verifier::external_body]
fn string_index_insert(m: &mut StringIndex, k: String, v: u32)
    ensures
        string_index_contents(*final(m)) == string_index_contents(*old(m)).insert(k@, v),
{
    m.insert(k, v);
}

/// `AHashMap::keys` with each key copied: every key once, in the order in
/// which the map is walked.  That order depends on the map's random seed
/// and is left open.
#[verifier::external_body]
fn string_index_keys(m: &StringIndex) -> (keys: Vec<String>)
    ensures
        string_list_view(keys@).no_duplicates(),
        forall|k: Seq<char>| #[trigger] string_list_view(keys@).contains(k) <==> string_index_contents(*m).contains_key(k),
{
    m.keys().cloned().collect()
}

/// Interns strings: each distinct string gets the next dense id.
pub struct StringDict {
    index: StringIndex,
    items: Vec<String>,
}

impl View for StringDict {
    type V = Seq<Seq<char>>;

    /// The interned strings, indexed by id.
    closed spec fn view(&self) -> Seq<Seq<char>> {
        self.items@.map(|_i: int, s: String| s@)
    }
}

impl StringDict {
    /// The index agrees with the item list, and no string occurs twice.
    pub closed spec fn wf(&self) -> bool {
        &&& self.items@.len() <= u32::MAX as nat + 1
        &&& forall|k: Seq<char>|
            string_index_contents(self.index).contains_key(k) <==> exists|i: int|
                0 <= i < self.items@.len() && #[trigger] self.items@[i]@ == k
        &&& forall|i: int|
            0 <= i < self.items@.len() ==> #[trigger] string_index_contents(self.index).contains_key(
                self.items@[i]@,
            ) && string_index_contents(self.index)[self.items@[i]@] == i
    }

    /// An empty dictionary.
    pub fn new() -> (d: StringDict)
        ensures
            d.wf(),
            d@ == Seq::<Seq<char>>::empty(),
    {
        let d = StringDict { index: string_index_new(), items: Vec::new() };
        assert(d@ =~= Seq::<Seq<char>>::empty());
        d
    }

    /// The id of `s`, adding it with the next id when it is new.
    #[verifier::spinoff_prover]
    pub fn intern(&mut self, s: &str) -> (id: u32)
        requires
            old(self).wf(),
            old(self)@.len() <= u32::MAX,
        ensures
            final(self).wf(),
            old(self)@.contains(s@) ==> final(self)@ == old(self)@,
            !old(self)@.contains(s@) ==> final(self)@ == old(self)@.push(s@),
            id < final(self)@.len(),
            final(self)@[id as int] == s@,
    {
        match string_index_get(&self.index, s) {
            Some(id) => {
                proof {
                    let i = choose|i: int| 0 <= i < self.items@.len() && #[trigger] self.items@[i]@ == s@;
                    assert(self@[i] == s@);
                }
                id
            },
            None => {
                proof {
                    if self@.contains(s@) {
                        let i = choose|i: int| 0 <= i < self@.len() && self@[i] == s@;
                        assert(self.items@[i]@ == s@);
                    }
                    assert(!old(self)@.contains(s@));
                }
                let id = self.items.len() as u32;
                let owned = s.to_owned();
                let key = s.to_owned();
                let ghost before = self.items@;
                self.items.push(owned);
                string_index_insert(&mut self.index, key, id);
                proof {
                    assert(self@ =~= old(self)@.push(s@));
                    assert forall|k: Seq<char>|
                        string_index_contents(self.index).contains_key(k) <==> exists|i: int|
                            0 <= i < self.items@.len() && #[trigger] self.items@[i]@ == k by {
                        if k == s@ {
                            assert(self.items@[before.len() as int]@ == k);
                        } else if string_index_contents(self.index).contains_key(k) {
                            let i = choose|i: int| 0 <= i < before.len() && #[trigger] before[i]@ == k;
                            assert(self.items@[i]@ == k);
                        } else {
                            if exists|i: int| 0 <= i < self.items@.len() && #[trigger] self.items@[i]@ == k {
                                let i = choose|i: int| 0 <= i < self.items@.len() && #[trigger] self.items@[i]@ == k;
                                assert(before[i]@ == k);
                            }
                        }
                    }
                    assert forall|i: int| 0 <= i < self.items@.len() implies
                        #[trigger] string_index_contents(self.index).contains_key(self.items@[i]@)
                        && string_index_contents(self.index)[self.items@[i]@] == i by {
                        if i < before.len() {
                            assert(old(self)@[i] == before[i]@);
                            assert(before[i]@ != s@);
                            assert(self.items@[i] == before[i]);
                        } else {
                            assert(i == before.len());
                            assert(self.items@[i]@ == s@);
                            assert(id as int == i);
                        }
                    }
                }
                id
            },
        }
    }

    /// Number of interned strings.
    pub fn len(&self) -> (n: usize)
        ensures
            n == self@.len(),
    {
        self.items.len()
    }

    /// The id of `s`, if it was interned.
    pub fn find(&self, s: &str) -> (r: Option<u32>)
        requires
            self.wf(),
        ensures
            r is Some <==> self@.contains(s@),
            r matches Some(id) ==> (id as int) < self@.len() && self@[id as int] == s@,
    {
        match string_index_get(&self.index, s) {
            Some(id) => {
                proof {
                    let i = choose|i: int| 0 <= i < self.items@.len() && #[trigger] self.items@[i]@ == s@;
                    assert(self@[i] == s@);
                }
                Some(id)
            },
            None => {
                proof {
                    if self@.contains(s@) {
                        let i = choose|i: int| 0 <= i < self@.len() && self@[i] == s@;
                        assert(self.items@[i]@ == s@);
                    }
                }
                None
            },
        }
    }

    /// The string with id `id`.
    pub fn get(&self, id: u32) -> (s: &String)
        requires
            (id as int) < self@.len(),
        ensures
            s@ == self@[id as int],
    {
        &self.items[id as usize]
    }

    /// A well-formed dictionary holds no string twice.
    pub proof fn lemma_distinct(&self)
        requires
            self.wf(),
        ensures
            forall|i: int, j: int| 0 <= i < j < self@.len() ==> self@[i] != self@[j],
    {
        assert forall|i: int, j: int| 0 <= i < j < self@.len() implies self@[i] != self@[j] by {
            assert(string_index_contents(self.index).contains_key(self.items@[i]@));
            assert(string_index_contents(self.index).contains_key(self.items@[j]@));
            assert(self@[i] == self.items@[i]@);
            assert(self@[j] == self.items@[j]@);
        }
    }

    /// The interned strings, each once, in the order in which the hash
    /// index is walked (which the index's random seed decides).
    pub fn walk_order(&self) -> (v: Vec<String>)
        requires
            self.wf(),
        ensures
            string_list_view(v@).no_duplicates(),
            forall|k: Seq<char>| #[trigger] string_list_view(v@).contains(k) <==> self@.contains(k),
            v@.len() == self@.len(),
    {
        let v = string_index_keys(&self.index);
        proof {
            let a = string_list_view(v@);
            let b = self@;
            self.lemma_distinct();
            assert forall|k: Seq<char>| #[trigger] a.contains(k) <==> b.contains(k) by {
                if b.contains(k) {
                    let i = choose|i: int| 0 <= i < b.len() && b[i] == k;
                    assert(self.items@[i]@ == k);
                }
                if string_index_contents(self.index).contains_key(k) {
                    let i = choose|i: int| 0 <= i < self.items@.len() && #[trigger] self.items@[i]@ == k;
                    assert(b[i] == k);
                }
            }
            assert(b.no_duplicates()) by {
                assert forall|i: int, j: int| 0 <= i < b.len() && 0 <= j < b.len() && i != j implies b[i] != b[j] by {
                    if i < j {
                    } else {
                    }
                }
            }
            a.unique_seq_to_set();
            b.unique_seq_to_set();
            assert(a.to_set() =~= b.to_set());
        }
        v
    }

    /// The interned strings, in id order.
    pub fn into_strings(self) -> (v: Vec<String>)
        ensures
            string_list_view(v@) == self@,
    {
        self.items
    }
}

/// A hash index from id sequences to ids.
pub type SeqIndex = ahash::AHashMap<Vec<u32>, u32>;

/// What a sequence-keyed index holds: each key, by its elements, mapped to
/// its value.
pub uninterp spec fn seq_index_contents(m: SeqIndex) -> Map<Seq<u32>, u32>;

/// `AHashMap::new`: a fresh map holds nothing.
#[verifier::external_body]
fn seq_index_new() -> (fresh: SeqIndex)
    ensures
        seq_index_contents(fresh).dom() == Set::<Seq<u32>>::empty(),
{
    ahash::AHashMap::new()
}

/// `AHashMap::get`: the value stored under the key with the elements of
/// `k`, if there is one.
#[verifier::external_body]
fn seq_index_get(m: &SeqIndex, k: &Vec<u32>) -> (r: Option<u32>)
    ensures
        r == (if seq_index_contents(*m).contains_key(k@) {
            Some(seq_index_contents(*m)[k@])
        } else {
            None::<u32>
        }),
{
    m.get(k).copied()
}

/// `AHashMap::insert`: afterwards `k` maps to `v` and every other key keeps
/// its value.
#[verifier::external_body]
fn seq_index_insert(m: &mut SeqIndex, k: Vec<u32>, v: u32)
    ensures
        seq_index_contents(*final(m)) == seq_index_contents(*old(m)).insert(k@, v),
{
    m.insert(k, v);
}

/// A copy of a list of ids.
fn copy_ids(v: &Vec<u32>) -> (c: Vec<u32>)
    ensures
        c@ == v@,
{
    let mut c: Vec<u32> = Vec::new();
    let mut i: usize = 0;
    while i < v.len()
        invariant
            i <= v.len(),
            c@ == v@.take(i as int),
        decreases v.len() - i,
    {
        c.push(v[i]);
        i += 1;
        assert(c@ =~= v@.take(i as int));
    }
    assert(v@.take(v.len() as int) =~= v@);
    c
}

/// Interns sequences of ids: each distinct sequence gets the next dense id.
pub struct SeqDict {
    index: SeqIndex,
    items: Vec<Vec<u32>>,
}

impl View for SeqDict {
    type V = Seq<Seq<u32>>;

    /// The interned sequences, indexed by id.
    closed spec fn view(&self) -> Seq<Seq<u32>> {
        self.items@.map(|_i: int, s: Vec<u32>| s@)
    }
}

impl SeqDict {
    /// The index agrees with the item list, and no sequence occurs twice.
    pub closed spec fn wf(&self) -> bool {
        &&& self.items@.len() <= u32::MAX as nat + 1
        &&& forall|k: Seq<u32>|
            seq_index_contents(self.index).contains_key(k) <==> exists|i: int|
                0 <= i < self.items@.len() && #[trigger] self.items@[i]@ == k
        &&& forall|i: int|
            0 <= i < self.items@.len() ==> #[trigger] seq_index_contents(self.index).contains_key(
                self.items@[i]@,
            ) && seq_index_contents(self.index)[self.items@[i]@] == i
    }

    /// An empty dictionary.
    pub fn new() -> (d: SeqDict)
        ensures
            d.wf(),
            d@ == Seq::<Seq<u32>>::empty(),
    {
        let d = SeqDict { index: seq_index_new(), items: Vec::new() };
        assert(d@ =~= Seq::<Seq<u32>>::empty());
        d
    }

    /// The id of `s`, adding it with the next id when it is new.
    #[verifier::spinoff_prover]
    pub fn intern(&mut self, s: &Vec<u32>) -> (id: u32)
        requires
            old(self).wf(),
            old(self)@.len() <= u32::MAX,
        ensures
            final(self).wf(),
            old(self)@.contains(s@) ==> final(self)@ == old(self)@,
            !old(self)@.contains(s@) ==> final(self)@ == old(self)@.push(s@),
            id < final(self)@.len(),
            final(self)@[id as int] == s@,
    {
        match seq_index_get(&self.index, s) {
            Some(id) => {
                proof {
                    let i = choose|i: int| 0 <= i < self.items@.len() && #[trigger] self.items@[i]@ == s@;
                    assert(self@[i] == s@);
                }
                id
            },
            None => {
                proof {
                    if self@.contains(s@) {
                        let i = choose|i: int| 0 <= i < self@.len() && self@[i] == s@;
                        assert(self.items@[i]@ == s@);
                    }
                    assert(!old(self)@.contains(s@));
                }
                let id = self.items.len() as u32;
                let owned = copy_ids(s);
                let key = copy_ids(s);
                let ghost before = self.items@;
                self.items.push(owned);
                seq_index_insert(&mut self.index, key, id);
                proof {
                    assert(self@ =~= old(self)@.push(s@));
                    assert forall|k: Seq<u32>|
                        seq_index_contents(self.index).contains_key(k) <==> exists|i: int|
                            0 <= i < self.items@.len() && #[trigger] self.items@[i]@ == k by {
                        if k == s@ {
                            assert(self.items@[before.len() as int]@ == k);
                        } else if seq_index_contents(self.index).contains_key(k) {
                            let i = choose|i: int| 0 <= i < before.len() && #[trigger] before[i]@ == k;
                            assert(self.items@[i]@ == k);
                        } else {
                            if exists|i: int| 0 <= i < self.items@.len() && #[trigger] self.items@[i]@ == k {
                                let i = choose|i: int| 0 <= i < self.items@.len() && #[trigger] self.items@[i]@ == k;
                                assert(before[i]@ == k);
                            }
                        }
                    }
                    assert forall|i: int| 0 <= i < self.items@.len() implies
                        #[trigger] seq_index_contents(self.index).contains_key(self.items@[i]@)
                        && seq_index_contents(self.index)[self.items@[i]@] == i by {
                        if i < before.len() {
                            assert(old(self)@[i] == before[i]@);
                            assert(before[i]@ != s@);
                            assert(self.items@[i] == before[i]);
                        } else {
                            assert(i == before.len());
                            assert(self.items@[i]@ == s@);
                            assert(id as int == i);
                        }
                    }
                }
                id
            },
        }
    }

    /// Number of interned sequences.
    pub fn len(&self) -> (n: usize)
        ensures
            n == self@.len(),
    {
        self.items.len()
    }

    /// The id of `s`, if it was interned.
    pub fn find(&self, s: &Vec<u32>) -> (r: Option<u32>)
        requires
            self.wf(),
        ensures
            r is Some <==> self@.contains(s@),
            r matches Some(id) ==> (id as int) < self@.len() && self@[id as int] == s@,
    {
        match seq_index_get(&self.index, s) {
            Some(id) => {
                proof {
                    let i = choose|i: int| 0 <= i < self.items@.len() && #[trigger] self.items@[i]@ == s@;
                    assert(self@[i] == s@);
                }
                Some(id)
            },
            None => {
                proof {
                    if self@.contains(s@) {
                        let i = choose|i: int| 0 <= i < self@.len() && self@[i] == s@;
                        assert(self.items@[i]@ == s@);
                    }
                }
                None
            },
        }
    }

    /// A well-formed dictionary holds no sequence twice.
    pub proof fn lemma_distinct(&self)
        requires
            self.wf(),
        ensures
            forall|i: int, j: int| 0 <= i < j < self@.len() ==> self@[i] != self@[j],
    {
        assert forall|i: int, j: int| 0 <= i < j < self@.len() implies self@[i] != self@[j] by {
            assert(seq_index_contents(self.index).contains_key(self.items@[i]@));
            assert(seq_index_contents(self.index).contains_key(self.items@[j]@));
            assert(self@[i] == self.items@[i]@);
            assert(self@[j] == self.items@[j]@);
        }
    }
}

} // verus!
